//! Reasoning paths: breadth-first search for a path between two concepts, and
//! the length of a parent chain.

use vstd::prelude::*;
use crate::graph::{Graph, GraphView, NodeId};
use crate::partitioning::{is_path, count_true, lemma_count_true_bound, lemma_count_true_set};
use std::collections::{HashMap, VecDeque};

verus! {

broadcast use vstd::std_specs::hash::group_hash_axioms;

/// Following parent links from `node` reaches `s`, or a node without a parent,
/// within `fuel` steps.
pub open spec fn chain_ends(m: Map<NodeId, NodeId>, s: NodeId, node: NodeId, fuel: nat) -> bool
    decreases fuel,
{
    node == s || !m.contains_key(node) || (fuel > 0 && chain_ends(m, s, m[node], (fuel - 1) as nat))
}

/// The number of parent links followed from `node` until `s` or a node without
/// a parent is reached (counting at most `fuel` links).
pub open spec fn chain_len(m: Map<NodeId, NodeId>, s: NodeId, node: NodeId, fuel: nat) -> nat
    decreases fuel,
{
    if node == s || !m.contains_key(node) || fuel == 0 {
        0
    } else {
        1 + chain_len(m, s, m[node], (fuel - 1) as nat)
    }
}

/// A chain that ends within some fuel has the same length with more fuel.
proof fn lemma_chain_more_fuel(m: Map<NodeId, NodeId>, s: NodeId, node: NodeId, f: nat, g: nat)
    requires
        chain_ends(m, s, node, f),
        f <= g,
    ensures
        chain_ends(m, s, node, g),
        chain_len(m, s, node, f) == chain_len(m, s, node, g),
        chain_len(m, s, node, f) <= f,
    decreases f,
{
    if node == s || !m.contains_key(node) {
    } else {
        lemma_chain_more_fuel(m, s, m[node], (f - 1) as nat, (g - 1) as nat);
    }
}

/// Adding a parent link for a node that is neither on a chain nor anyone's
/// parent leaves the chain unchanged.
proof fn lemma_chain_insert(
    m: Map<NodeId, NodeId>,
    s: NodeId,
    node: NodeId,
    f: nat,
    k: NodeId,
    v: NodeId,
)
    requires
        chain_ends(m, s, node, f),
        node != k,
        !m.contains_key(k),
        forall|y: NodeId| #[trigger] m.contains_key(y) ==> m[y] != k,
    ensures
        chain_ends(m.insert(k, v), s, node, f),
        chain_len(m.insert(k, v), s, node, f) == chain_len(m, s, node, f),
    decreases f,
{
    if node == s || !m.contains_key(node) {
    } else {
        lemma_chain_insert(m, s, m[node], (f - 1) as nat, k, v);
    }
}

/// The number of parent links from `current` back to `source` (or to the first
/// node without a parent).
pub fn path_length(parents: &HashMap<NodeId, NodeId>, source: NodeId, current: NodeId) -> (r: usize)
    requires
        exists|f: nat| f <= usize::MAX && #[trigger] chain_ends(parents@, source, current, f),
    ensures
        forall|f: nat| #[trigger] chain_ends(parents@, source, current, f) ==> r == chain_len(
            parents@,
            source,
            current,
            f,
        ),
{
    let ghost fuel = choose|f: nat| f <= usize::MAX && #[trigger] chain_ends(parents@, source, current, f);
    let mut length: usize = 0;
    let mut node = current;
    let ghost mut left: nat = fuel;
    loop
        invariant
            left <= fuel <= usize::MAX,
            length + left == fuel,
            chain_ends(parents@, source, node, left),
            chain_len(parents@, source, current, fuel) == length + chain_len(parents@, source, node, left),
        ensures
            chain_len(parents@, source, current, fuel) == length,
        decreases left,
    {
        if node == source {
            break;
        }
        match parents.get(&node) {
            Some(p) => {
                length = length + 1;
                node = *p;
                proof {
                    left = (left - 1) as nat;
                }
            },
            None => {
                break;
            },
        }
    }
    proof {
        assert forall|f: nat| #[trigger] chain_ends(parents@, source, current, f) implies length
            == chain_len(parents@, source, current, f) by {
            if f <= fuel {
                lemma_chain_more_fuel(parents@, source, current, f, fuel);
            } else {
                lemma_chain_more_fuel(parents@, source, current, fuel, f);
            }
        }
    }
    length
}

/// What breadth-first search keeps about its parent links: every visited node
/// other than the source has a visited parent with an edge to it, one level
/// up; levels stay within `max_depth`.
#[verifier::opaque]
pub open spec fn bfs_tree(
    g: GraphView,
    source: NodeId,
    visited: Seq<bool>,
    parents: Map<NodeId, NodeId>,
    level: Map<NodeId, nat>,
    max_depth: nat,
) -> bool {
    &&& visited.len() == g.num_nodes
    &&& visited[source as int]
    &&& !parents.contains_key(source)
    &&& forall|x: NodeId|
        x < g.num_nodes && #[trigger] visited[x as int] ==> level.contains_key(x) && level[x] <= max_depth
    &&& level.contains_key(source) && level[source] == 0
    &&& forall|x: NodeId| #[trigger]
        parents.contains_key(x) ==> x < g.num_nodes && visited[x as int] && parents[x] < g.num_nodes
            && visited[parents[x] as int] && g.has_edge(parents[x] as int, x as int) && level[x]
            == level[parents[x]] + 1
    &&& forall|x: NodeId|
        x < g.num_nodes && #[trigger] visited[x as int] && x != source ==> parents.contains_key(x)
    &&& forall|x: NodeId|
        x < g.num_nodes && #[trigger] visited[x as int] ==> chain_ends(parents, source, x, level[x])
            && chain_len(parents, source, x, level[x]) == level[x]
}

/// The parent link of a visited node other than the source.
proof fn lemma_bfs_parent(
    g: GraphView,
    source: NodeId,
    visited: Seq<bool>,
    parents: Map<NodeId, NodeId>,
    level: Map<NodeId, nat>,
    max_depth: nat,
    node: NodeId,
)
    requires
        bfs_tree(g, source, visited, parents, level, max_depth),
        node < g.num_nodes,
        visited[node as int],
        node != source,
    ensures
        parents.contains_key(node),
        parents[node] < g.num_nodes,
        visited[parents[node] as int],
        g.has_edge(parents[node] as int, node as int),
        level[node] == level[parents[node]] + 1,
{
    reveal(bfs_tree);
}

/// The level of a visited node: within `max_depth`, and the length of its
/// parent chain.
proof fn lemma_bfs_level(
    g: GraphView,
    source: NodeId,
    visited: Seq<bool>,
    parents: Map<NodeId, NodeId>,
    level: Map<NodeId, nat>,
    max_depth: nat,
    node: NodeId,
)
    requires
        bfs_tree(g, source, visited, parents, level, max_depth),
        node < g.num_nodes,
        visited[node as int],
    ensures
        level.contains_key(node),
        level[node] <= max_depth,
        chain_ends(parents, source, node, level[node]),
        chain_len(parents, source, node, level[node]) == level[node],
        level[source] == 0,
        visited.len() == g.num_nodes,
{
    reveal(bfs_tree);
}

/// The path from `source` to a visited `target` along parent links.
fn reconstruct_path(
    graph: &Graph,
    parents: &HashMap<NodeId, NodeId>,
    Ghost(visited): Ghost<Seq<bool>>,
    Ghost(level): Ghost<Map<NodeId, nat>>,
    source: NodeId,
    target: NodeId,
    max_depth: usize,
) -> (p: Vec<NodeId>)
    requires
        graph@.valid(),
        bfs_tree(graph@, source, visited, parents@, level, max_depth as nat),
        target < graph@.num_nodes,
        visited.len() == graph@.num_nodes,
        visited[target as int],
    ensures
        is_path(graph@, p@),
        p@[0] == source,
        p@.last() == target,
        p@.len() <= max_depth + 1,
        p@.len() == level[target] + 1,
        source == target ==> p@ == seq![source],
{
    let ghost g = graph@;
    let mut rev: Vec<NodeId> = Vec::new();
    rev.push(target);
    let mut node = target;
    while node != source
        invariant
            g == graph@,
            g.valid(),
            bfs_tree(g, source, visited, parents@, level, max_depth as nat),
            visited.len() == g.num_nodes,
            node < g.num_nodes,
            visited[node as int],
            rev@.len() >= 1,
            rev@[0] == target,
            rev@.last() == node,
            forall|i: int| 0 <= i < rev@.len() ==> #[trigger] rev@[i] < g.num_nodes,
            forall|i: int| 0 <= i < rev@.len() - 1 ==> #[trigger] g.has_edge(rev@[i + 1] as int, rev@[i] as int),
            rev@.len() + level[node] == level[target] + 1,
        decreases level[node],
    {
        let ghost rev_before = rev@;
        proof {
            lemma_bfs_parent(g, source, visited, parents@, level, max_depth as nat, node);
        }
        let p = *parents.get(&node).unwrap();
        rev.push(p);
        proof {
            assert forall|i: int| 0 <= i < rev@.len() - 1 implies #[trigger] g.has_edge(
                rev@[i + 1] as int,
                rev@[i] as int,
            ) by {
                if i < rev_before.len() - 1 {
                    assert(rev@[i] == rev_before[i] && rev@[i + 1] == rev_before[i + 1]);
                } else {
                    assert(rev@[i] == node);
                }
            }
        }
        node = p;
    }
    proof {
        lemma_bfs_level(g, source, visited, parents@, level, max_depth as nat, target);
    }
    let mut path: Vec<NodeId> = Vec::new();
    let mut i: usize = rev.len();
    while i > 0
        invariant
            i <= rev@.len(),
            path@.len() == rev@.len() - i,
            forall|j: int| 0 <= j < path@.len() ==> #[trigger] path@[j] == rev@[rev@.len() - 1 - j],
        decreases i,
    {
        i = i - 1;
        path.push(rev[i]);
    }
    proof {
        let n = rev@.len();
        assert(path@.len() == n);
        assert forall|j: int| 0 <= j < path@.len() - 1 implies #[trigger] g.has_edge(
            path@[j] as int,
            path@[j + 1] as int,
        ) by {
            assert(path@[j] == rev@[n - 1 - j]);
            assert(path@[j + 1] == rev@[n - 1 - (j + 1)]);
            assert(g.has_edge(rev@[(n - 2 - j) + 1] as int, rev@[n - 2 - j] as int));
        }
        assert forall|j: int| 0 <= j < path@.len() implies #[trigger] path@[j] < g.num_nodes by {
            assert(path@[j] == rev@[n - 1 - j]);
        }
        if source == target {
            assert(path@ =~= seq![source]);
        }
    }
    path
}

/// What the order of breadth-first search keeps: queued nodes are at level
/// `cur` or `cur + 1`, in non-decreasing order; no visited node is deeper than
/// `cur + 1`; every expanded node is not `target`, is at most at level `cur`,
/// and, when below `max_depth`, has all its successors visited at most one
/// level deeper.
#[verifier::opaque]
pub open spec fn bfs_order(
    g: GraphView,
    target: NodeId,
    visited: Seq<bool>,
    queue: Seq<NodeId>,
    level: Map<NodeId, nat>,
    cur: nat,
    expanded: Set<NodeId>,
    max_depth: nat,
) -> bool {
    &&& forall|i: int| 0 <= i < queue.len() ==> cur <= level[#[trigger] queue[i]] <= cur + 1
    &&& forall|i: int, j: int| 0 <= i < j < queue.len() ==> level[#[trigger] queue[i]] <= level[#[trigger] queue[j]]
    &&& forall|x: NodeId| x < g.num_nodes && #[trigger] visited[x as int] ==> level[x] <= cur + 1
    &&& forall|x: NodeId| #[trigger]
        expanded.contains(x) ==> x < g.num_nodes && visited[x as int] && x != target && level[x] <= cur
            && (level[x] < max_depth ==> forall|w: NodeId|
            #[trigger] g.has_edge(x as int, w as int) ==> w < g.num_nodes && visited[w as int] && level[w]
                <= level[x] + 1)
}

/// Every visited node is expanded, queued, or in `extra`.
pub open spec fn bfs_covered(
    n: nat,
    visited: Seq<bool>,
    queue: Seq<NodeId>,
    expanded: Set<NodeId>,
    extra: Set<NodeId>,
) -> bool {
    forall|x: NodeId|
        x < n && #[trigger] visited[x as int] ==> expanded.contains(x) || queue.contains(x) || extra.contains(x)
}

/// Taking the front of the queue moves the current level up to its level.
proof fn lemma_order_pop(
    g: GraphView,
    target: NodeId,
    visited: Seq<bool>,
    queue: Seq<NodeId>,
    level: Map<NodeId, nat>,
    cur: nat,
    expanded: Set<NodeId>,
    max_depth: nat,
)
    requires
        bfs_order(g, target, visited, queue, level, cur, expanded, max_depth),
        bfs_covered(g.num_nodes, visited, queue, expanded, Set::empty()),
        queue.len() > 0,
    ensures
        cur <= level[queue[0]],
        bfs_order(g, target, visited, queue.drop_first(), level, level[queue[0]], expanded, max_depth),
        bfs_covered(g.num_nodes, visited, queue.drop_first(), expanded, set![queue[0]]),
{
    reveal(bfs_order);
    let q = queue.drop_first();
    let c = level[queue[0]];
    assert forall|i: int| 0 <= i < q.len() implies c <= level[#[trigger] q[i]] <= c + 1 by {
        assert(q[i] == queue[i + 1]);
        assert(level[queue[0]] <= level[queue[i + 1]]);
    }
    assert forall|i: int, j: int| 0 <= i < j < q.len() implies level[#[trigger] q[i]] <= level[#[trigger] q[j]] by {
        assert(q[i] == queue[i + 1] && q[j] == queue[j + 1]);
    }
    assert forall|x: NodeId| x < g.num_nodes && #[trigger] visited[x as int] implies expanded.contains(x)
        || q.contains(x) || set![queue[0]].contains(x) by {
        if queue.contains(x) && x != queue[0] {
            let i = choose|i: int| 0 <= i < queue.len() && queue[i] == x;
            assert(q[i - 1] == x);
        }
    }
}

/// Queueing a newly visited node at level `cur + 1` keeps the order.
proof fn lemma_order_push(
    g: GraphView,
    target: NodeId,
    visited: Seq<bool>,
    queue: Seq<NodeId>,
    level: Map<NodeId, nat>,
    cur: nat,
    expanded: Set<NodeId>,
    max_depth: nat,
    extra: Set<NodeId>,
    v: NodeId,
)
    requires
        bfs_order(g, target, visited, queue, level, cur, expanded, max_depth),
        bfs_covered(g.num_nodes, visited, queue, expanded, extra),
        v < g.num_nodes,
        visited.len() == g.num_nodes,
        !visited[v as int],
        forall|i: int| 0 <= i < queue.len() ==> #[trigger] queue[i] < g.num_nodes && visited[queue[i] as int],
    ensures
        bfs_order(
            g,
            target,
            visited.update(v as int, true),
            queue.push(v),
            level.insert(v, cur + 1),
            cur,
            expanded,
            max_depth,
        ),
        bfs_covered(g.num_nodes, visited.update(v as int, true), queue.push(v), expanded, extra),
{
    reveal(bfs_order);
    let vis = visited.update(v as int, true);
    let q = queue.push(v);
    let lv = level.insert(v, cur + 1);
    assert forall|i: int| 0 <= i < q.len() implies cur <= lv[#[trigger] q[i]] <= cur + 1 by {
        if i < queue.len() {
            assert(q[i] == queue[i]);
            assert(queue[i] != v);
        }
    }
    assert forall|i: int, j: int| 0 <= i < j < q.len() implies lv[#[trigger] q[i]] <= lv[#[trigger] q[j]] by {
        assert(q[i] == queue[i]);
        assert(queue[i] != v);
        if j < queue.len() {
            assert(q[j] == queue[j]);
            assert(queue[j] != v);
        }
    }
    assert forall|x: NodeId| x < g.num_nodes && #[trigger] vis[x as int] implies lv[x] <= cur + 1 by {
        if x != v {
            assert(visited[x as int]);
        }
    }
    assert forall|x: NodeId| #[trigger] expanded.contains(x) implies x < g.num_nodes && vis[x as int] && x != target
        && lv[x] <= cur && (lv[x] < max_depth ==> forall|w: NodeId|
        #[trigger] g.has_edge(x as int, w as int) ==> w < g.num_nodes && vis[w as int] && lv[w] <= lv[x] + 1) by {
        assert(visited[x as int]);
        assert(x != v);
        if lv[x] < max_depth {
            assert forall|w: NodeId| #[trigger] g.has_edge(x as int, w as int) implies w < g.num_nodes && vis[w as int]
                && lv[w] <= lv[x] + 1 by {
                assert(visited[w as int]);
                assert(w != v);
            }
        }
    }
    assert forall|x: NodeId| x < g.num_nodes && #[trigger] vis[x as int] implies expanded.contains(x)
        || q.contains(x) || extra.contains(x) by {
        if x == v {
            assert(q[queue.len() as int] == v);
        } else {
            assert(visited[x as int]);
            if queue.contains(x) {
                let i = choose|i: int| 0 <= i < queue.len() && queue[i] == x;
                assert(q[i] == x);
            }
        }
    }
}

/// A node whose successors were all visited joins the expanded ones.
proof fn lemma_order_expand(
    g: GraphView,
    target: NodeId,
    visited: Seq<bool>,
    queue: Seq<NodeId>,
    level: Map<NodeId, nat>,
    cur: nat,
    expanded: Set<NodeId>,
    max_depth: nat,
    u: NodeId,
)
    requires
        bfs_order(g, target, visited, queue, level, cur, expanded, max_depth),
        bfs_covered(g.num_nodes, visited, queue, expanded, set![u]),
        u < g.num_nodes,
        visited[u as int],
        u != target,
        level[u] == cur,
        level[u] < max_depth ==> forall|w: NodeId|
            #[trigger] g.has_edge(u as int, w as int) ==> w < g.num_nodes && visited[w as int] && level[w] <= cur + 1,
    ensures
        bfs_order(g, target, visited, queue, level, cur, expanded.insert(u), max_depth),
        bfs_covered(g.num_nodes, visited, queue, expanded.insert(u), Set::empty()),
{
    reveal(bfs_order);
}

/// With nothing left to expand, every node reachable from `source` within
/// `max_depth` edges was expanded, so none of them is `target`.
proof fn lemma_order_done(
    g: GraphView,
    source: NodeId,
    target: NodeId,
    visited: Seq<bool>,
    level: Map<NodeId, nat>,
    cur: nat,
    expanded: Set<NodeId>,
    max_depth: nat,
    p: Seq<NodeId>,
)
    requires
        bfs_order(g, target, visited, Seq::empty(), level, cur, expanded, max_depth),
        bfs_covered(g.num_nodes, visited, Seq::empty(), expanded, Set::empty()),
        visited.len() == g.num_nodes,
        source < g.num_nodes,
        visited[source as int],
        level[source] == 0,
        is_path(g, p),
        p[0] == source,
        p.len() <= max_depth + 1,
    ensures
        p.last() != target,
{
    reveal(bfs_order);
    assert forall|i: int| 0 <= i < p.len() implies visited[#[trigger] p[i] as int] && level[p[i]] <= i by {
        lemma_order_prefix(g, source, target, visited, level, cur, expanded, max_depth, p, i);
    }
    let last = p[p.len() - 1];
    assert(visited[last as int]);
    assert(!Seq::<NodeId>::empty().contains(last));
    assert(expanded.contains(last));
}

/// The nodes of such a path are visited, the `i`-th at level at most `i`.
proof fn lemma_order_prefix(
    g: GraphView,
    source: NodeId,
    target: NodeId,
    visited: Seq<bool>,
    level: Map<NodeId, nat>,
    cur: nat,
    expanded: Set<NodeId>,
    max_depth: nat,
    p: Seq<NodeId>,
    i: int,
)
    requires
        bfs_order(g, target, visited, Seq::empty(), level, cur, expanded, max_depth),
        bfs_covered(g.num_nodes, visited, Seq::empty(), expanded, Set::empty()),
        visited.len() == g.num_nodes,
        visited[source as int],
        level[source] == 0,
        is_path(g, p),
        p[0] == source,
        p.len() <= max_depth + 1,
        0 <= i < p.len(),
    ensures
        visited[p[i] as int],
        level[p[i]] <= i,
    decreases i,
{
    if i > 0 {
        lemma_order_prefix(g, source, target, visited, level, cur, expanded, max_depth, p, i - 1);
        let x = p[i - 1];
        assert(x < g.num_nodes);
        assert(!Seq::<NodeId>::empty().contains(x));
        assert(expanded.contains(x));
        reveal(bfs_order);
        let j = i - 1;
        assert(g.has_edge(p[j] as int, p[j + 1] as int));
    }
}

/// When `target` leaves the queue at level `cur`, no path from `source` with
/// at most `cur` nodes ends at it: every node of such a path was visited at a
/// level below `cur`, hence expanded.
proof fn lemma_order_shortest(
    g: GraphView,
    source: NodeId,
    target: NodeId,
    visited: Seq<bool>,
    queue: Seq<NodeId>,
    level: Map<NodeId, nat>,
    cur: nat,
    expanded: Set<NodeId>,
    max_depth: nat,
    q: Seq<NodeId>,
)
    requires
        bfs_order(g, target, visited, queue, level, cur, expanded, max_depth),
        bfs_covered(g.num_nodes, visited, queue, expanded, set![target]),
        level[target] == cur,
        cur <= max_depth,
        visited.len() == g.num_nodes,
        visited[source as int],
        level[source] == 0,
        is_path(g, q),
        q[0] == source,
        q.len() <= cur,
    ensures
        q.last() != target,
{
    assert forall|i: int| 0 <= i < q.len() implies visited[#[trigger] q[i] as int] && level[q[i]] <= i by {
        lemma_order_shortest_prefix(g, source, target, visited, queue, level, cur, expanded, max_depth, q, i);
    }
    assert(level[q[q.len() - 1]] < cur);
}

/// The nodes of such a short path are visited, the `i`-th at level at most `i`.
proof fn lemma_order_shortest_prefix(
    g: GraphView,
    source: NodeId,
    target: NodeId,
    visited: Seq<bool>,
    queue: Seq<NodeId>,
    level: Map<NodeId, nat>,
    cur: nat,
    expanded: Set<NodeId>,
    max_depth: nat,
    q: Seq<NodeId>,
    i: int,
)
    requires
        bfs_order(g, target, visited, queue, level, cur, expanded, max_depth),
        bfs_covered(g.num_nodes, visited, queue, expanded, set![target]),
        level[target] == cur,
        cur <= max_depth,
        visited.len() == g.num_nodes,
        visited[source as int],
        level[source] == 0,
        is_path(g, q),
        q[0] == source,
        q.len() <= cur,
        0 <= i < q.len(),
    ensures
        visited[q[i] as int],
        level[q[i]] <= i,
    decreases i,
{
    if i > 0 {
        lemma_order_shortest_prefix(g, source, target, visited, queue, level, cur, expanded, max_depth, q, i - 1);
        let x = q[i - 1];
        assert(x < g.num_nodes);
        reveal(bfs_order);
        if queue.contains(x) {
            let t = choose|t: int| 0 <= t < queue.len() && queue[t] == x;
            assert(cur <= level[queue[t]]);
        }
        assert(x != target);
        assert(expanded.contains(x));
        let j = i - 1;
        assert(g.has_edge(q[j] as int, q[j + 1] as int));
    }
}

/// Breadth-first search from `source` for `target`, not expanding nodes at
/// `max_depth` hops or more. When it finds `target`, the result is a path of
/// the graph from `source` to `target` with at most `max_depth` edges; it
/// finds none exactly when no such path exists.
pub fn find_reasoning_path(graph: &Graph, source: NodeId, target: NodeId, max_depth: usize) -> (r: Option<Vec<NodeId>>)
    requires
        graph@.valid(),
        source < graph@.num_nodes || source == target || max_depth == 0,
    ensures
        r matches Some(p) ==> p@[0] == source && p@.last() == target && p@.len() <= max_depth + 1
            && (source < graph@.num_nodes ==> is_path(graph@, p@)),
        r matches Some(p) ==> forall|q: Seq<NodeId>|
            #[trigger] is_path(graph@, q) && q[0] == source && q.last() == target ==> p@.len() <= q.len(),
        source == target ==> (r matches Some(p) && p@ == seq![source]),
        r is None ==> forall|p: Seq<NodeId>|
            #[trigger] is_path(graph@, p) && p[0] == source && p.len() <= max_depth + 1 ==> p.last() != target,
{
    if source == target {
        let mut p: Vec<NodeId> = Vec::new();
        p.push(source);
        proof {
            assert(p@ =~= seq![source]);
        }
        return Some(p);
    }
    let ghost g = graph@;
    let n = graph.num_nodes();
    if source as usize >= n {
        return None;
    }
    let mut visited: Vec<bool> = vec![false; n];
    let mut queue: VecDeque<NodeId> = VecDeque::new();
    let mut parents: HashMap<NodeId, NodeId> = HashMap::new();
    let ghost mut level: Map<NodeId, nat> = map![source => 0nat];
    queue.push_back(source);
    proof {
        lemma_count_true_set(visited@, source as int);
    }
    visited.set(source as usize, true);
    proof {
        assert(chain_ends(parents@, source, source, 0));
        lemma_count_true_bound(visited@);
        assert(queue@ =~= seq![source]);
        reveal(bfs_tree);
        assert(bfs_tree(g, source, visited@, parents@, level, max_depth as nat));
    }
    let ghost mut cur: nat = 0;
    let ghost mut expanded: Set<NodeId> = Set::empty();
    proof {
        reveal(bfs_order);
        assert forall|x: NodeId| x < n && #[trigger] visited@[x as int] implies x == source by {}
        assert(queue@[0] == source);
        assert(bfs_order(g, target, visited@, queue@, level, cur, expanded, max_depth as nat));
        assert(bfs_covered(n as nat, visited@, queue@, expanded, Set::empty()));
    }
    loop
        invariant
            g == graph@,
            g.valid(),
            n == g.num_nodes,
            source < n,
            bfs_tree(g, source, visited@, parents@, level, max_depth as nat),
            visited@.len() == n,
            forall|i: int| 0 <= i < queue@.len() ==> #[trigger] queue@[i] < n && visited@[queue@[i] as int],
            count_true(visited@) <= n,
            source == target ==> queue@ == seq![source],
            bfs_order(g, target, visited@, queue@, level, cur, expanded, max_depth as nat),
            bfs_covered(n as nat, visited@, queue@, expanded, Set::empty()),
        ensures
            source != target,
            queue@.len() == 0,
            bfs_tree(g, source, visited@, parents@, level, max_depth as nat),
            visited@.len() == n,
            bfs_order(g, target, visited@, queue@, level, cur, expanded, max_depth as nat),
            bfs_covered(n as nat, visited@, queue@, expanded, Set::empty()),
        decreases n - count_true(visited@), queue@.len(),
    {
        let ghost q0 = queue@;
        let current = match queue.pop_front() {
            Some(c) => c,
            None => {
                break;
            },
        };
        proof {
            lemma_order_pop(g, target, visited@, q0, level, cur, expanded, max_depth as nat);
            cur = level[current];
        }
        if current == target {
            let p = reconstruct_path(graph, &parents, Ghost(visited@), Ghost(level), source, target, max_depth);
            proof {
                assert(visited@[source as int]) by {
                    reveal(bfs_tree);
                }
                lemma_bfs_level(g, source, visited@, parents@, level, max_depth as nat, target);
                lemma_bfs_level(g, source, visited@, parents@, level, max_depth as nat, source);
                assert forall|q: Seq<NodeId>| #[trigger] is_path(g, q) && q[0] == source && q.last() == target implies p@.len()
                    <= q.len() by {
                    if q.len() <= cur {
                        lemma_order_shortest(g, source, target, visited@, queue@, level, cur, expanded, max_depth as nat, q);
                    }
                }
            }
            return Some(p);
        }
        proof {
            lemma_bfs_level(g, source, visited@, parents@, level, max_depth as nat, current);
        }
        let d = path_length(&parents, source, current);
        if d >= max_depth {
            proof {
                lemma_order_expand(g, target, visited@, queue@, level, cur, expanded, max_depth as nat, current);
                expanded = expanded.insert(current);
            }
            continue;
        }
        let ghost ct0 = count_true(visited@);
        let ghost ql0 = queue@.len();
        let nbrs = graph.neighbors(current);
        let mut k: usize = 0;
        while k < nbrs.len()
            invariant
                g == graph@,
                g.valid(),
                n == g.num_nodes,
                source < n,
                current < n,
                visited@[current as int],
                level.contains_key(current),
                level[current] == d,
                d < max_depth,
                nbrs@ == g.out_edges(current as int),
                k <= nbrs@.len(),
                bfs_tree(g, source, visited@, parents@, level, max_depth as nat),
                visited@.len() == n,
                forall|i: int| 0 <= i < queue@.len() ==> #[trigger] queue@[i] < n && visited@[queue@[i] as int],
                count_true(visited@) <= n,
                queue@.len() >= ql0,
                count_true(visited@) == ct0 + (queue@.len() - ql0),
                cur == d,
                current != target,
                bfs_order(g, target, visited@, queue@, level, cur, expanded, max_depth as nat),
                bfs_covered(n as nat, visited@, queue@, expanded, set![current]),
                forall|j: int| 0 <= j < k ==> visited@[(#[trigger] nbrs@[j]).0 as int] && level[nbrs@[j].0] <= cur + 1,
            decreases nbrs@.len() - k,
        {
            let (neighbor, _) = nbrs[k];
            proof {
                crate::partitioning::lemma_out_edge_has_edge(g, current as int, k as int);
            }
            if !visited[neighbor as usize] {
                let ghost m0 = parents@;
                let ghost vis0 = visited@;
                proof {
                    lemma_order_push(g, target, visited@, queue@, level, cur, expanded, max_depth as nat, set![current], neighbor);
                    reveal(bfs_tree);
                    lemma_count_true_set(visited@, neighbor as int);
                    lemma_count_true_bound(visited@.update(neighbor as int, true));
                    assert forall|y: NodeId| #[trigger] m0.contains_key(y) implies m0[y] != neighbor by {
                        assert(visited@[m0[y] as int]);
                    }
                    assert forall|x: NodeId|
                        x < n && #[trigger] vis0[x as int] implies chain_ends(m0.insert(neighbor, current), source, x, level[x])
                            && chain_len(m0.insert(neighbor, current), source, x, level[x]) == level[x] by {
                        lemma_chain_insert(m0, source, x, level[x], neighbor, current);
                    }
                }
                visited.set(neighbor as usize, true);
                parents.insert(neighbor, current);
                queue.push_back(neighbor);
                proof {
                    reveal(bfs_tree);
                    level = level.insert(neighbor, d as nat + 1);
                    assert(parents@ == m0.insert(neighbor, current));
                    assert(chain_ends(parents@, source, neighbor, d as nat + 1));
                    assert(chain_len(parents@, source, neighbor, d as nat + 1) == d + 1);
                    assert forall|x: NodeId|
                        x < n && #[trigger] visited@[x as int] implies chain_ends(parents@, source, x, level[x])
                            && chain_len(parents@, source, x, level[x]) == level[x] by {
                        if x != neighbor {
                            assert(vis0[x as int]);
                        }
                    }
                    assert forall|x: NodeId| #[trigger] parents@.contains_key(x) implies x < n && visited@[x as int]
                        && parents@[x] < n && visited@[parents@[x] as int] && g.has_edge(parents@[x] as int, x as int)
                        && level[x] == level[parents@[x]] + 1 by {
                        if x != neighbor {
                            assert(m0.contains_key(x));
                            assert(m0[x] != neighbor);
                        }
                    }
                }
            } else {
                assert(level[neighbor] <= cur + 1) by {
                    reveal(bfs_order);
                }
            }
            k = k + 1;
        }
        proof {
            assert forall|w: NodeId| #[trigger] g.has_edge(current as int, w as int) implies w < n && visited@[w as int]
                && level[w] <= cur + 1 by {
                crate::partitioning::lemma_has_edge_out_edge(g, current as int, w as int);
                let j = choose|j: int| 0 <= j < g.out_edges(current as int).len() && #[trigger] g.out_edges(current as int)[j].0 == w;
                assert(nbrs@[j].0 == w);
            }
            lemma_order_expand(g, target, visited@, queue@, level, cur, expanded, max_depth as nat, current);
            expanded = expanded.insert(current);
        }
    }
    proof {
        assert(queue@ =~= Seq::<NodeId>::empty());
        lemma_bfs_level(g, source, visited@, parents@, level, max_depth as nat, source);
        assert forall|p: Seq<NodeId>| #[trigger] is_path(g, p) && p[0] == source && p.len() <= max_depth + 1 implies p.last()
            != target by {
            lemma_order_done(g, source, target, visited@, level, cur, expanded, max_depth as nat, p);
        }
    }
    None
}

} // verus!
