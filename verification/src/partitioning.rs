//! Partitioning a graph into rooms.

use vstd::prelude::*;
use crate::graph::{Graph, GraphView, NodeId, RoomId, lemma_row_bounds};
use crate::rooms::{count_in, first_index};

verus! {

/// Partitioning algorithm options.
#[derive(Debug, Clone, Copy)]
pub enum PartitioningAlgorithm {
    /// Each weakly connected component (edges taken both ways) becomes a room.
    ConnectedComponents,
    /// Breadth-first growth up to a target room size.
    BFSPartitioning { target_room_size: usize },
    /// Keep the graph's own room assignment.
    Manual,
}

/// `v` occurs in `s`.
pub open spec fn holds_node(s: Seq<NodeId>, v: int) -> bool {
    exists|i: int| 0 <= i < s.len() && #[trigger] s[i] as int == v
}

/// `p` is a path of the graph: a non-empty walk along edges.
pub open spec fn is_path(g: GraphView, p: Seq<NodeId>) -> bool {
    &&& p.len() >= 1
    &&& forall|i: int| 0 <= i < p.len() ==> #[trigger] p[i] < g.num_nodes
    &&& forall|i: int| 0 <= i < p.len() - 1 ==> #[trigger] g.has_edge(p[i] as int, p[i + 1] as int)
}

/// `b` can be reached from `a` along edges (in zero or more steps).
pub open spec fn reachable(g: GraphView, a: int, b: int) -> bool {
    exists|p: Seq<NodeId>| #[trigger] is_path(g, p) && p[0] == a && p.last() == b
}

/// `u` and `v` are nodes joined by an edge in either direction.
pub open spec fn und_edge(g: GraphView, u: int, v: int) -> bool {
    &&& 0 <= u < g.num_nodes
    &&& 0 <= v < g.num_nodes
    &&& (g.has_edge(u, v) || g.has_edge(v, u))
}

/// `p` is an undirected path: a non-empty walk along edges taken in either
/// direction.
pub open spec fn is_upath(g: GraphView, p: Seq<NodeId>) -> bool {
    &&& p.len() >= 1
    &&& forall|i: int| 0 <= i < p.len() ==> #[trigger] p[i] < g.num_nodes
    &&& forall|i: int| 0 <= i < p.len() - 1 ==> #[trigger] und_edge(g, p[i] as int, p[i + 1] as int)
}

/// `a` and `b` lie in the same weakly connected component.
pub open spec fn connected(g: GraphView, a: int, b: int) -> bool {
    exists|p: Seq<NodeId>| #[trigger] is_upath(g, p) && p[0] == a && p.last() == b
}

/// The room map of `partition_connected_components`: rooms are numbered in
/// order of their lowest node (every smaller room starts earlier), every node
/// is connected to the lowest node of its room, and both ends of every edge
/// are in the same room. So each weakly connected component is one room.
pub open spec fn is_cc_partition(g: GraphView, r: Seq<RoomId>) -> bool {
    &&& r.len() == g.num_nodes
    &&& forall|w: int, c: RoomId|
        #![trigger r[w], first_index(r, c)]
        0 <= w < r.len() && c < r[w] ==> first_index(r, c) < w
    &&& forall|w: int| 0 <= w < r.len() ==> connected(g, first_index(r, #[trigger] r[w]), w)
    &&& forall|u: int, v: int|
        0 <= u < r.len() && #[trigger] g.has_edge(u, v) ==> r[u] == r[v]
}

/// Along an undirected path of a connected-components room map, the room
/// never changes.
proof fn lemma_upath_same_room(g: GraphView, r: Seq<RoomId>, p: Seq<NodeId>)
    requires
        is_cc_partition(g, r),
        is_upath(g, p),
    ensures
        r[p[0] as int] == r[p.last() as int],
    decreases p.len(),
{
    if p.len() > 1 {
        let q = p.drop_last();
        assert forall|i: int| 0 <= i < q.len() - 1 implies #[trigger] und_edge(g, q[i] as int, q[i + 1] as int) by {
            assert(und_edge(g, p[i] as int, p[i + 1] as int));
        }
        assert forall|i: int| 0 <= i < q.len() implies #[trigger] q[i] < g.num_nodes by {
            assert(p[i] < g.num_nodes);
        }
        lemma_upath_same_room(g, r, q);
        let j = p.len() - 2;
        assert(und_edge(g, p[j] as int, p[j + 1] as int));
        if g.has_edge(p[j] as int, p[j + 1] as int) {
        } else {
            assert(g.has_edge(p[j + 1] as int, p[j] as int));
        }
    }
}

/// Two undirected paths meeting end to start make one.
proof fn lemma_upath_join(g: GraphView, p: Seq<NodeId>, q: Seq<NodeId>)
    requires
        is_upath(g, p),
        is_upath(g, q),
        p.last() == q[0],
    ensures
        is_upath(g, p + q.drop_first()),
        (p + q.drop_first())[0] == p[0],
        (p + q.drop_first()).last() == q.last(),
{
    let t = p + q.drop_first();
    assert forall|i: int| 0 <= i < t.len() implies #[trigger] t[i] < g.num_nodes by {
        if i < p.len() {
            assert(t[i] == p[i]);
        } else {
            assert(t[i] == q[i - p.len() + 1]);
        }
    }
    assert forall|i: int| 0 <= i < t.len() - 1 implies #[trigger] und_edge(g, t[i] as int, t[i + 1] as int) by {
        if i < p.len() - 1 {
            assert(t[i] == p[i] && t[i + 1] == p[i + 1]);
        } else if i == p.len() - 1 {
            assert(t[i] == q[0] && t[i + 1] == q[1]);
            assert(und_edge(g, q[0] as int, q[1] as int));
        } else {
            let k = i - p.len() + 1;
            assert(t[i] == q[k] && t[i + 1] == q[k + 1]);
            assert(und_edge(g, q[k] as int, q[k + 1] as int));
        }
    }
    if q.len() == 1 {
        assert(t =~= p);
    } else {
        assert(t.last() == q.last());
    }
}

/// An undirected path read backwards is one.
proof fn lemma_upath_reverse(g: GraphView, p: Seq<NodeId>)
    requires
        is_upath(g, p),
    ensures
        is_upath(g, p.reverse()),
        p.reverse()[0] == p.last(),
        p.reverse().last() == p[0],
{
    let t = p.reverse();
    let n = p.len();
    assert forall|i: int| 0 <= i < t.len() implies #[trigger] t[i] < g.num_nodes by {
        assert(t[i] == p[n - 1 - i]);
    }
    assert forall|i: int| 0 <= i < t.len() - 1 implies #[trigger] und_edge(g, t[i] as int, t[i + 1] as int) by {
        let j = n - 2 - i;
        assert(t[i] == p[j + 1] && t[i + 1] == p[j]);
        assert(und_edge(g, p[j] as int, p[j + 1] as int));
    }
}

/// Connected components: two nodes share a room exactly when an undirected
/// path joins them.
pub proof fn lemma_cc_same_room(g: GraphView, r: Seq<RoomId>, u: int, v: int)
    requires
        is_cc_partition(g, r),
        0 <= u < r.len(),
        0 <= v < r.len(),
    ensures
        r[u] == r[v] <==> connected(g, u, v),
{
    if connected(g, u, v) {
        let p = choose|p: Seq<NodeId>| #[trigger] is_upath(g, p) && p[0] == u && p.last() == v;
        lemma_upath_same_room(g, r, p);
    }
    if r[u] == r[v] {
        let s = first_index(r, r[u]);
        assert(connected(g, s, u));
        assert(connected(g, s, v));
        let pu = choose|p: Seq<NodeId>| #[trigger] is_upath(g, p) && p[0] == s && p.last() == u;
        let pv = choose|p: Seq<NodeId>| #[trigger] is_upath(g, p) && p[0] == s && p.last() == v;
        lemma_upath_reverse(g, pu);
        lemma_upath_join(g, pu.reverse(), pv);
        assert(is_upath(g, pu.reverse() + pv.drop_first()));
    }
}

/// Every edge, in either direction, at a visited node leads to a visited node.
pub open spec fn visited_closed_u(g: GraphView, vis: Seq<bool>) -> bool {
    forall|u: int, v: int| 0 <= u < vis.len() && vis[u] && #[trigger] und_edge(g, u, v) ==> vis[v]
}

/// `adj[u]` lists exactly the neighbours of `u` in either direction.
pub open spec fn adj_matches(g: GraphView, adj: Seq<Vec<NodeId>>) -> bool {
    &&& adj.len() == g.num_nodes
    &&& forall|u: int, j: int|
        0 <= u < g.num_nodes && 0 <= j < adj[u]@.len() ==> #[trigger] adj[u]@[j] < g.num_nodes
            && und_edge(g, u, adj[u]@[j] as int)
    &&& forall|u: int, v: int| #[trigger] und_edge(g, u, v) ==> adj[u]@.contains(v as NodeId)
}

/// Extending an undirected path by an edge in either direction gives one.
pub proof fn lemma_upath_push(g: GraphView, p: Seq<NodeId>, v: NodeId)
    requires
        is_upath(g, p),
        und_edge(g, p.last() as int, v as int),
    ensures
        is_upath(g, p.push(v)),
        p.push(v)[0] == p[0],
        p.push(v).last() == v,
{
    let q = p.push(v);
    assert forall|i: int| 0 <= i < q.len() - 1 implies #[trigger] und_edge(g, q[i] as int, q[i + 1] as int) by {
        if i < p.len() - 1 {
            assert(q[i] == p[i] && q[i + 1] == p[i + 1]);
        } else {
            assert(q[i] == p.last());
        }
    }
    assert forall|i: int| 0 <= i < q.len() implies #[trigger] q[i] < g.num_nodes by {
        if i < p.len() {
            assert(q[i] == p[i]);
        }
    }
}

/// The neighbours of every node in either direction.
fn undirected_adjacency(graph: &Graph) -> (adj: Vec<Vec<NodeId>>)
    requires
        graph@.valid(),
    ensures
        adj_matches(graph@, adj@),
{
    let ghost g = graph@;
    let n = graph.num_nodes();
    let mut adj: Vec<Vec<NodeId>> = Vec::new();
    let mut i: usize = 0;
    while i < n
        invariant
            i <= n,
            adj@.len() == i,
            forall|x: int| 0 <= x < i ==> (#[trigger] adj@[x])@.len() == 0,
        decreases n - i,
    {
        adj.push(Vec::new());
        i = i + 1;
    }
    let mut u: usize = 0;
    while u < n
        invariant
            g == graph@,
            g.valid(),
            n == g.num_nodes,
            u <= n,
            adj@.len() == n,
            forall|x: int, j: int|
                0 <= x < n && 0 <= j < adj@[x]@.len() ==> #[trigger] adj@[x]@[j] < n && und_edge(
                    g,
                    x,
                    adj@[x]@[j] as int,
                ),
            forall|x: int, y: int|
                0 <= x < u && #[trigger] g.has_edge(x, y) ==> adj@[x]@.contains(y as NodeId) && adj@[y]@.contains(
                    x as NodeId,
                ),
        decreases n - u,
    {
        let nbrs = graph.neighbors(u as NodeId);
        let mut k: usize = 0;
        while k < nbrs.len()
            invariant
                g == graph@,
                g.valid(),
                n == g.num_nodes,
                u < n,
                nbrs@ == g.out_edges(u as int),
                k <= nbrs@.len(),
                adj@.len() == n,
                forall|x: int, j: int|
                    0 <= x < n && 0 <= j < adj@[x]@.len() ==> #[trigger] adj@[x]@[j] < n && und_edge(
                        g,
                        x,
                        adj@[x]@[j] as int,
                    ),
                forall|x: int, y: int|
                    0 <= x < u && #[trigger] g.has_edge(x, y) ==> adj@[x]@.contains(y as NodeId)
                        && adj@[y]@.contains(x as NodeId),
                forall|j: int|
                    0 <= j < k ==> adj@[u as int]@.contains((#[trigger] nbrs@[j]).0) && adj@[nbrs@[j].0 as int]@.contains(
                        u as NodeId,
                    ),
            decreases nbrs@.len() - k,
        {
            let (v, _) = nbrs[k];
            proof {
                lemma_out_edge_has_edge(g, u as int, k as int);
                assert(und_edge(g, u as int, v as int));
                assert(und_edge(g, v as int, u as int));
            }
            let ghost a0 = adj@;
            adj[u].push(v);
            let ghost a1 = adj@;
            adj[v as usize].push(u as NodeId);
            proof {
                let a2 = adj@;
                assert forall|x: int, y: NodeId| 0 <= x < n && #[trigger] a0[x]@.contains(y) implies a2[x]@.contains(y) by {
                    let t = choose|t: int| 0 <= t < a0[x]@.len() && a0[x]@[t] == y;
                    assert(a1[x]@[t] == y);
                    assert(a2[x]@[t] == y);
                }
                assert(a1[u as int]@[a0[u as int]@.len() as int] == v);
                assert(a2[u as int]@.contains(v)) by {
                    if v as int == u as int {
                        assert(a2[u as int]@[a0[u as int]@.len() as int] == v);
                    } else {
                        assert(a2[u as int]@[a0[u as int]@.len() as int] == v);
                    }
                }
                assert(a2[v as int]@[a1[v as int]@.len() as int] == u as NodeId);
                assert forall|x: int, j: int|
                    0 <= x < n && 0 <= j < a2[x]@.len() implies #[trigger] a2[x]@[j] < n && und_edge(g, x, a2[x]@[j] as int) by {
                    if x == v as int && j == a1[x]@.len() {
                    } else if x == u as int && j == a0[x]@.len() {
                    } else if j < a0[x]@.len() {
                        assert(a2[x]@[j] == a0[x]@[j]);
                    } else {
                        assert(a2[x]@[j] == a1[x]@[j]);
                    }
                }
            }
            k = k + 1;
        }
        proof {
            assert forall|x: int, y: int| 0 <= x < u + 1 && #[trigger] g.has_edge(x, y) implies adj@[x]@.contains(
                y as NodeId,
            ) && adj@[y]@.contains(x as NodeId) by {
                if x == u as int {
                    lemma_has_edge_out_edge(g, x, y);
                    let j = choose|j: int| 0 <= j < g.out_edges(x).len() && #[trigger] g.out_edges(x)[j].0 == y;
                    assert(nbrs@[j].0 == y);
                }
            }
        }
        u = u + 1;
    }
    proof {
        assert forall|x: int, y: int| #[trigger] und_edge(g, x, y) implies adj@[x]@.contains(y as NodeId) by {
            if !g.has_edge(x, y) {
                assert(g.has_edge(y, x));
            }
        }
    }
    adj
}

/// Each out-edge of `u` is an edge.
pub proof fn lemma_out_edge_has_edge(g: GraphView, u: int, k: int)
    requires
        g.valid(),
        0 <= u < g.num_nodes,
        0 <= k < g.out_edges(u).len(),
    ensures
        g.has_edge(u, g.out_edges(u)[k].0 as int),
        g.out_edges(u)[k].0 < g.num_nodes,
{
    lemma_row_bounds(g, u);
    assert(g.col_idx[g.start(u) + k] == g.out_edges(u)[k].0);
}

/// An edge from `u` is one of its out-edges.
pub proof fn lemma_has_edge_out_edge(g: GraphView, u: int, v: int)
    requires
        g.valid(),
        0 <= u < g.num_nodes,
        g.has_edge(u, v),
    ensures
        exists|k: int| 0 <= k < g.out_edges(u).len() && #[trigger] g.out_edges(u)[k].0 == v,
        0 <= v < g.num_nodes,
{
    lemma_row_bounds(g, u);
    let k = choose|k: int| g.start(u) <= k < g.end(u) && g.col_idx[k] == v;
    assert(g.out_edges(u)[k - g.start(u)].0 == v);
}

/// Extending a path by an edge gives a path.
pub proof fn lemma_path_push(g: GraphView, p: Seq<NodeId>, v: NodeId)
    requires
        is_path(g, p),
        v < g.num_nodes,
        g.has_edge(p.last() as int, v as int),
    ensures
        is_path(g, p.push(v)),
        p.push(v)[0] == p[0],
        p.push(v).last() == v,
{
    let q = p.push(v);
    assert forall|i: int| 0 <= i < q.len() - 1 implies #[trigger] g.has_edge(
        q[i] as int,
        q[i + 1] as int,
    ) by {
        if i < p.len() - 1 {
            assert(q[i] == p[i] && q[i + 1] == p[i + 1]);
        } else {
            assert(q[i] == p.last());
        }
    }
    assert forall|i: int| 0 <= i < q.len() implies #[trigger] q[i] < g.num_nodes by {
        if i < p.len() {
            assert(q[i] == p[i]);
        }
    }
}

/// Number of `true` entries.
pub open spec fn count_true(s: Seq<bool>) -> nat
    decreases s.len(),
{
    if s.len() == 0 {
        0
    } else {
        count_true(s.drop_last()) + if s.last() {
            1nat
        } else {
            0nat
        }
    }
}

pub proof fn lemma_count_true_bound(s: Seq<bool>)
    ensures
        count_true(s) <= s.len(),
    decreases s.len(),
{
    if s.len() > 0 {
        lemma_count_true_bound(s.drop_last());
    }
}

pub proof fn lemma_count_true_set(s: Seq<bool>, i: int)
    requires
        0 <= i < s.len(),
        !s[i],
    ensures
        count_true(s.update(i, true)) == count_true(s) + 1,
    decreases s.len(),
{
    let t = s.update(i, true);
    if i == s.len() - 1 {
        assert(t.drop_last() =~= s.drop_last());
    } else {
        lemma_count_true_set(s.drop_last(), i);
        assert(t.drop_last() =~= s.drop_last().update(i, true));
    }
}

/// Depth-first visit from `start_node`: every unvisited node reachable from it
/// through unvisited nodes is marked visited and assigned `room`.
fn dfs_iterative(
    graph: &Graph,
    adj: &Vec<Vec<NodeId>>,
    start_node: NodeId,
    room: RoomId,
    room_map: &mut Vec<RoomId>,
    visited: &mut Vec<bool>,
)
    requires
        graph@.valid(),
        adj_matches(graph@, adj@),
        old(visited)@.len() == graph@.num_nodes,
        old(room_map)@.len() == graph@.num_nodes,
        start_node < graph@.num_nodes,
        visited_closed_u(graph@, old(visited)@),
    ensures
        final(visited)@.len() == graph@.num_nodes,
        final(room_map)@.len() == graph@.num_nodes,
        final(visited)@[start_node as int],
        visited_closed_u(graph@, final(visited)@),
        forall|v: int|
            0 <= v < graph@.num_nodes && #[trigger] old(visited)@[v] ==> final(visited)@[v]
                && final(room_map)@[v] == old(room_map)@[v],
        forall|v: int|
            0 <= v < graph@.num_nodes && !old(visited)@[v] && #[trigger] final(visited)@[v]
                ==> final(room_map)@[v] == room && connected(graph@, start_node as int, v),
        forall|v: int|
            0 <= v < graph@.num_nodes && !old(visited)@[v] && !#[trigger] final(visited)@[v]
                ==> final(room_map)@[v] == old(room_map)@[v],
{
    let ghost g = graph@;
    let ghost n = graph@.num_nodes;
    let ghost vis0 = visited@;
    let ghost rm0 = room_map@;
    let mut stack: Vec<NodeId> = Vec::new();
    stack.push(start_node);
    let ghost mut paths: Seq<Seq<NodeId>> = seq![seq![start_node]];
    proof {
        assert(is_upath(g, seq![start_node]));
        assert(stack@ =~= seq![start_node]);
    }
    loop
        invariant
            g == graph@,
            g.valid(),
            adj_matches(g, adj@),
            n == g.num_nodes,
            visited@.len() == n,
            room_map@.len() == n,
            start_node < n,
            paths.len() == stack@.len(),
            forall|i: int|
                0 <= i < stack@.len() ==> {
                    &&& #[trigger] is_upath(g, paths[i])
                    &&& paths[i][0] == start_node
                    &&& paths[i].last() == stack@[i]
                },
            forall|i: int| 0 <= i < stack@.len() ==> #[trigger] stack@[i] < n,
            visited@[start_node as int] || stack@ == seq![start_node],
            forall|v: int|
                0 <= v < n && #[trigger] vis0[v] ==> visited@[v] && room_map@[v] == rm0[v],
            forall|v: int|
                0 <= v < n && !vis0[v] && #[trigger] visited@[v] ==> room_map@[v] == room
                    && connected(g, start_node as int, v),
            forall|v: int|
                0 <= v < n && !vis0[v] && !#[trigger] visited@[v] ==> room_map@[v] == rm0[v],
            forall|u: int, v: int|
                0 <= u < n && visited@[u] && #[trigger] und_edge(g, u, v) ==> visited@[v]
                    || stack@.contains(v as NodeId),
            visited_closed_u(g, vis0),
            vis0.len() == n,
        ensures
            visited@[start_node as int],
            visited_closed_u(g, visited@),
        decreases n - count_true(visited@), stack@.len(),
    {
        let ghost stack_before = stack@;
        let ghost visited_before = visited@;
        let top = stack.pop();
        let node = match top {
            Some(x) => x,
            None => {
                proof {
                    assert forall|u: int, v: int|
                        0 <= u < visited@.len() && visited@[u] && #[trigger] und_edge(g, u, v) implies visited@[v] by {
                        assert(!stack@.contains(v as NodeId));
                    }
                }
                break;
            },
        };
        let ghost p = paths.last();
        proof {
            assert(stack@ =~= stack_before.drop_last());
            assert(node == stack_before.last());
            assert(is_upath(g, paths[paths.len() - 1]));
            paths = paths.drop_last();
            lemma_count_true_bound(visited@);
        }
        // Every node still needed by the edge invariant stays in the stack,
        // unless it is `node`.
        let node_idx = node as usize;
        if node_idx >= visited.len() || visited[node_idx] {
            proof {
                assert forall|u: int, v: int|
                    0 <= u < n && visited@[u] && #[trigger] und_edge(g, u, v) implies visited@[v]
                        || stack@.contains(v as NodeId) by {
                    if !visited@[v] {
                        assert(stack_before.contains(v as NodeId));
                        let i = choose|i: int| 0 <= i < stack_before.len() && stack_before[i] == v as NodeId;
                        if i < stack_before.len() - 1 {
                            assert(stack@[i] == v as NodeId);
                        }
                    }
                }
            }
            continue;
        }
        proof {
            lemma_count_true_set(visited@, node_idx as int);
        }
        visited.set(node_idx, true);
        room_map.set(node_idx, room);
        let ghost vis_mid = visited@;
        proof {
            lemma_count_true_bound(visited@);
        }
        proof {
            assert(is_upath(g, p));
            assert(connected(g, start_node as int, node as int));
            assert forall|u: int, v: int|
                0 <= u < n && u != node && visited@[u] && #[trigger] und_edge(g, u, v) implies
                    visited@[v] || stack@.contains(v as NodeId) by {
                assert(visited_before[u]);
                if v != node && !visited@[v] {
                    assert(!visited_before[v]);
                    assert(stack_before.contains(v as NodeId));
                    let i = choose|i: int| 0 <= i < stack_before.len() && stack_before[i] == v as NodeId;
                    assert(i < stack_before.len() - 1);
                    assert(stack@[i] == v as NodeId);
                }
            }
            assert forall|i: int| 0 <= i < stack@.len() implies {
                &&& #[trigger] is_upath(g, paths[i])
                &&& paths[i][0] == start_node
                &&& paths[i].last() == stack@[i]
            } by {
                assert(stack@[i] == stack_before[i]);
            }
        }
        let nbrs = &adj[node_idx];
        let mut k: usize = 0;
        while k < nbrs.len()
            invariant
                g == graph@,
                g.valid(),
                adj_matches(g, adj@),
                n == g.num_nodes,
                visited@.len() == n,
                room_map@.len() == n,
                start_node < n,
                node < n,
                visited@[node as int],
                visited@[start_node as int],
                nbrs@ == adj@[node as int]@,
                k <= nbrs@.len(),
                is_upath(g, p),
                p[0] == start_node,
                p.last() == node,
                paths.len() == stack@.len(),
                forall|i: int|
                    0 <= i < stack@.len() ==> {
                        &&& #[trigger] is_upath(g, paths[i])
                        &&& paths[i][0] == start_node
                        &&& paths[i].last() == stack@[i]
                    },
                forall|i: int| 0 <= i < stack@.len() ==> #[trigger] stack@[i] < n,
                forall|v: int|
                    0 <= v < n && #[trigger] vis0[v] ==> visited@[v] && room_map@[v] == rm0[v],
                forall|v: int|
                    0 <= v < n && !vis0[v] && #[trigger] visited@[v] ==> room_map@[v] == room
                        && connected(g, start_node as int, v),
                forall|v: int|
                    0 <= v < n && !vis0[v] && !#[trigger] visited@[v] ==> room_map@[v] == rm0[v],
                forall|u: int, v: int|
                    0 <= u < n && u != node && visited@[u] && #[trigger] und_edge(g, u, v)
                        ==> visited@[v] || stack@.contains(v as NodeId),
                forall|j: int|
                    0 <= j < k ==> visited@[(#[trigger] nbrs@[j]) as int] || stack@.contains(nbrs@[j]),
                visited_closed_u(g, vis0),
                vis0.len() == n,
                visited@ == vis_mid,
                count_true(vis_mid) == count_true(visited_before) + 1,
                count_true(vis_mid) <= n,
            decreases nbrs@.len() - k,
        {
            let neighbor = nbrs[k];
            proof {
                assert(adj@[node as int]@[k as int] == neighbor);
            }
            let neighbor_idx = neighbor as usize;
            if neighbor_idx < visited.len() && !visited[neighbor_idx] {
                let ghost stack_mid = stack@;
                stack.push(neighbor);
                proof {
                    lemma_upath_push(g, p, neighbor);
                    paths = paths.push(p.push(neighbor));
                    assert forall|x: NodeId| stack_mid.contains(x) implies stack@.contains(x) by {
                        let i = choose|i: int| 0 <= i < stack_mid.len() && stack_mid[i] == x;
                        assert(stack@[i] == x);
                    }
                    assert(stack@[stack@.len() - 1] == neighbor);
                }
            }
            k = k + 1;
        }
        proof {
            assert forall|u: int, v: int|
                0 <= u < n && visited@[u] && #[trigger] und_edge(g, u, v) implies visited@[v]
                    || stack@.contains(v as NodeId) by {
                if u == node {
                    assert(adj@[u]@.contains(v as NodeId));
                    let j = choose|j: int| 0 <= j < nbrs@.len() && nbrs@[j] == v as NodeId;
                    assert(nbrs@[j] == v as NodeId);
                }
            }
        }
    }
}

proof fn lemma_first_index_at(s: Seq<RoomId>, i: int, x: RoomId)
    requires
        0 <= i < s.len(),
        s[i] == x,
        forall|j: int| 0 <= j < i ==> s[j] != x,
    ensures
        first_index(s, x) == i,
{
    crate::rooms::lemma_first_index(s, x);
}

proof fn lemma_dfs_partition_final(
    g: GraphView,
    r: Seq<RoomId>,
    visited: Seq<bool>,
    starts: Seq<int>,
)
    requires
        g.valid(),
        r.len() == g.num_nodes,
        visited.len() == g.num_nodes,
        forall|v: int| 0 <= v < g.num_nodes ==> #[trigger] visited[v],
        forall|v: int| 0 <= v < g.num_nodes && #[trigger] visited[v] ==> r[v] < starts.len(),
        forall|c: int, d: int| 0 <= c < d < starts.len() ==> #[trigger] starts[c] < #[trigger] starts[d],
        forall|c: int|
            0 <= c < starts.len() ==> 0 <= #[trigger] starts[c] < g.num_nodes && visited[starts[c]]
                && r[starts[c]] == c,
        forall|c: int, w: int| #![trigger starts[c], r[w]] 0 <= c < starts.len() && 0 <= w < starts[c] ==> r[w] < c,
        forall|w: int|
            0 <= w < g.num_nodes && #[trigger] visited[w] ==> starts[r[w] as int] <= w && connected(
                g,
                starts[r[w] as int],
                w,
            ),
        forall|u: int, v: int|
            0 <= u < g.num_nodes && visited[u] && #[trigger] und_edge(g, u, v) ==> r[v] <= r[u],
    ensures
        is_cc_partition(g, r),
{
    assert forall|c: int| 0 <= c < starts.len() implies first_index(r, c as RoomId) == #[trigger] starts[c] by {
        assert forall|j: int| 0 <= j < starts[c] implies r[j] != c as RoomId by {
            assert(r[j] < c);
        }
        lemma_first_index_at(r, starts[c], c as RoomId);
    }
    assert forall|w: int, c: RoomId| #![trigger r[w], first_index(r, c)] 0 <= w < r.len() && c < r[w] implies first_index(r, c) < w by {
        assert(visited[w]);
        let cw = r[w] as int;
        assert(first_index(r, c) == starts[c as int]);
        assert(starts[c as int] < starts[cw]);
    }
    assert forall|w: int| 0 <= w < r.len() implies connected(g, first_index(r, #[trigger] r[w]), w) by {
        assert(visited[w]);
        assert(first_index(r, r[w]) == starts[r[w] as int]);
    }
    assert forall|u: int, v: int| 0 <= u < r.len() && #[trigger] g.has_edge(u, v) implies r[u] == r[v] by {
        lemma_has_edge_out_edge(g, u, v);
        assert(visited[u] && visited[v]);
        assert(und_edge(g, u, v) && und_edge(g, v, u));
    }
}

/// Connected-components partitioning: nodes are taken in increasing order and
/// each node not yet visited starts a new room, which its depth-first visit
/// fills (following edges in both directions), so each weakly connected
/// component becomes one room.
fn partition_connected_components(graph: &Graph) -> (r: Vec<RoomId>)
    requires
        graph@.valid(),
    ensures
        r@.len() == graph@.num_nodes,
        graph@.num_nodes < u32::MAX ==> is_cc_partition(graph@, r@),
{
    let ghost g = graph@;
    let num_nodes = graph.num_nodes();
    let adj = undirected_adjacency(graph);
    let mut room_map: Vec<RoomId> = vec![u32::MAX; num_nodes];
    let mut visited: Vec<bool> = vec![false; num_nodes];
    let mut current_room: RoomId = 0;
    let ghost mut starts: Seq<int> = Seq::empty();
    proof {
        assert(visited_closed_u(g, visited@));
    }
    let mut start_node: usize = 0;
    while start_node < num_nodes
        invariant_except_break
            current_room < u32::MAX,
        invariant
            g == graph@,
            g.valid(),
            adj_matches(g, adj@),
            num_nodes == g.num_nodes,
            start_node <= num_nodes,
            visited@.len() == num_nodes,
            room_map@.len() == num_nodes,
            visited_closed_u(g, visited@),
            starts.len() == current_room,
            current_room <= start_node,
            forall|v: int| 0 <= v < start_node ==> #[trigger] visited@[v],
            forall|v: int| 0 <= v < num_nodes && #[trigger] visited@[v] ==> room_map@[v] < current_room,
            forall|c: int, d: int| 0 <= c < d < starts.len() ==> #[trigger] starts[c] < #[trigger] starts[d],
            forall|c: int|
                0 <= c < starts.len() ==> 0 <= #[trigger] starts[c] < start_node && visited@[starts[c]]
                    && room_map@[starts[c]] == c,
            forall|c: int, w: int|
                #![trigger starts[c], room_map@[w]]
                0 <= c < starts.len() && 0 <= w < starts[c] ==> room_map@[w] < c,
            forall|w: int|
                0 <= w < num_nodes && #[trigger] visited@[w] ==> starts[room_map@[w] as int] <= w
                    && connected(g, starts[room_map@[w] as int], w),
            forall|u: int, v: int|
                0 <= u < num_nodes && visited@[u] && #[trigger] und_edge(g, u, v) ==> room_map@[v]
                    <= room_map@[u],
        ensures
            start_node == num_nodes || current_room == u32::MAX,
        decreases num_nodes - start_node,
    {
        if !visited[start_node] {
            let ghost vis_before = visited@;
            let ghost rm_before = room_map@;
            dfs_iterative(graph, &adj, start_node as NodeId, current_room, &mut room_map, &mut visited);
            proof {
                assert(visited@[start_node as int]);
                assert forall|v: int| 0 <= v < start_node + 1 implies #[trigger] visited@[v] by {
                    if v < start_node {
                        assert(vis_before[v]);
                    }
                }
                let c = current_room as int;
                starts = starts.push(start_node as int);
                assert forall|w: int| 0 <= w < num_nodes && #[trigger] visited@[w] implies starts[
                    room_map@[w] as int] <= w && connected(g, starts[room_map@[w] as int], w) by {
                    if !vis_before[w] {
                        assert(room_map@[w] == c);
                        if w < start_node {
                            assert(vis_before[w]);
                        }
                    } else {
                        assert(room_map@[w] == rm_before[w]);
                        assert(starts[rm_before[w] as int] == starts.drop_last()[rm_before[w] as int]);
                    }
                }
                assert forall|u: int, v: int|
                    0 <= u < num_nodes && visited@[u] && #[trigger] und_edge(g, u, v) implies room_map@[v]
                        <= room_map@[u] by {
                    assert(visited@[v]);
                    if vis_before[u] {
                        assert(vis_before[v]);
                    }
                }
                assert forall|c2: int, w: int|
                    #![trigger starts[c2], room_map@[w]]
                    0 <= c2 < starts.len() && 0 <= w < starts[c2] implies room_map@[w] < c2 by {
                    if c2 < c {
                        assert(starts[c2] == starts.drop_last()[c2]);
                        assert(vis_before[w]);
                    } else {
                        assert(vis_before[w]);
                    }
                }
                assert forall|c2: int|
                    0 <= c2 < starts.len() implies 0 <= #[trigger] starts[c2] < start_node + 1
                        && visited@[starts[c2]] && room_map@[starts[c2]] == c2 by {
                    if c2 < c {
                        assert(starts[c2] == starts.drop_last()[c2]);
                    }
                }
                assert forall|c2: int, d: int| 0 <= c2 < d < starts.len() implies #[trigger] starts[c2]
                    < #[trigger] starts[d] by {
                    if d < c {
                        assert(starts[c2] == starts.drop_last()[c2]);
                        assert(starts[d] == starts.drop_last()[d]);
                    } else {
                        assert(starts[c2] == starts.drop_last()[c2]);
                    }
                }
            }
            current_room = current_room + 1;
            start_node = start_node + 1;
            if current_room == u32::MAX {
                break;
            }
        } else {
            start_node = start_node + 1;
        }
    }
    proof {
        if num_nodes < u32::MAX {
            lemma_dfs_partition_final(g, room_map@, visited@, starts);
        }
    }
    room_map
}

/// The room size `partition_bfs` aims at for a requested size: at least one.
pub open spec fn room_cap(target_room_size: usize) -> nat {
    if target_room_size > 1 {
        target_room_size as nat
    } else {
        1
    }
}

/// The room map of `partition_bfs` for a room size `cap`: for some `cnt`,
/// every node is in one of the rooms `0..cnt`, which are numbered in order of
/// their lowest node, hold at most `cap` nodes each, and each node is
/// reachable from the lowest node of its room. A room that did not fill up
/// holds every out-neighbour of its nodes that is not in an earlier room.
pub open spec fn is_bfs_partition(g: GraphView, r: Seq<RoomId>, cap: nat) -> bool {
    &&& r.len() == g.num_nodes
    &&& exists|cnt: RoomId| #[trigger] bfs_rooms_below(g, r, cnt, cap)
}

/// The facts of `is_bfs_partition` for a given room count.
pub open spec fn bfs_rooms_below(g: GraphView, r: Seq<RoomId>, cnt: RoomId, cap: nat) -> bool {
    &&& forall|w: int| 0 <= w < r.len() ==> #[trigger] r[w] < cnt
    &&& forall|c: RoomId, d: RoomId|
        c < d < cnt ==> #[trigger] first_index(r, c) < #[trigger] first_index(r, d) < r.len()
    &&& forall|w: int|
        0 <= w < r.len() && #[trigger] r[w] < cnt ==> reachable(g, first_index(r, r[w]), w)
    &&& forall|c: RoomId| c < cnt ==> #[trigger] count_in(r, c) <= cap
    &&& forall|u: int, v: int|
        0 <= u < r.len() && #[trigger] g.has_edge(u, v) && count_in(r, r[u]) < cap ==> r[v] <= r[u]
}

/// No value occurs twice in `s`.
pub open spec fn distinct_nodes(s: Seq<NodeId>) -> bool {
    forall|i: int, j: int| 0 <= i < j < s.len() ==> #[trigger] s[i] != #[trigger] s[j]
}

/// Two sequences that hold `x` at the same positions hold it equally often.
pub proof fn lemma_count_in_same(s1: Seq<RoomId>, s2: Seq<RoomId>, x: RoomId)
    requires
        s1.len() == s2.len(),
        forall|i: int| 0 <= i < s1.len() ==> (#[trigger] s1[i] == x <==> s2[i] == x),
    ensures
        count_in(s1, x) == count_in(s2, x),
    decreases s1.len(),
{
    if s1.len() > 0 {
        assert forall|i: int| 0 <= i < s1.drop_last().len() implies (#[trigger] s1.drop_last()[i] == x
            <==> s2.drop_last()[i] == x) by {
            assert(s1.drop_last()[i] == s1[i] && s2.drop_last()[i] == s2[i]);
        }
        lemma_count_in_same(s1.drop_last(), s2.drop_last(), x);
        assert(s1[s1.len() - 1] == x <==> s2[s2.len() - 1] == x);
    }
}

/// A value that occurs nowhere occurs zero times.
pub proof fn lemma_count_in_none(s: Seq<RoomId>, x: RoomId)
    requires
        forall|i: int| 0 <= i < s.len() ==> #[trigger] s[i] != x,
    ensures
        count_in(s, x) == 0,
    decreases s.len(),
{
    if s.len() > 0 {
        assert forall|i: int| 0 <= i < s.drop_last().len() implies #[trigger] s.drop_last()[i] != x by {
            assert(s.drop_last()[i] == s[i]);
        }
        lemma_count_in_none(s.drop_last(), x);
        assert(s[s.len() - 1] != x);
    }
}

/// Writing `x` over another value adds one occurrence of `x`.
pub proof fn lemma_count_in_update(s: Seq<RoomId>, k: int, x: RoomId)
    requires
        0 <= k < s.len(),
        s[k] != x,
    ensures
        count_in(s.update(k, x), x) == count_in(s, x) + 1,
    decreases s.len(),
{
    let t = s.update(k, x);
    if k == s.len() - 1 {
        assert(t.drop_last() =~= s.drop_last());
    } else {
        assert(t.drop_last() =~= s.drop_last().update(k, x));
        lemma_count_in_update(s.drop_last(), k, x);
    }
}

/// Breadth-first partitioning: nodes are taken in increasing order; each node
/// not yet in a room starts a room that grows breadth-first (following
/// out-edges) until it holds `max(target_room_size, 1)` nodes. Nodes that were
/// queued but not taken when a room filled up are left for later rooms.
fn partition_bfs(graph: &Graph, target_room_size: usize) -> (r: Vec<RoomId>)
    requires
        graph@.valid(),
    ensures
        r@.len() == graph@.num_nodes,
        graph@.num_nodes < u32::MAX ==> is_bfs_partition(graph@, r@, room_cap(target_room_size)),
{
    let ghost cap = room_cap(target_room_size);
    let ghost g = graph@;
    let num_nodes = graph.num_nodes();
    let mut room_map: Vec<RoomId> = vec![u32::MAX; num_nodes];
    let mut current_room: RoomId = 0;
    let mut visited: Vec<bool> = vec![false; num_nodes];
    let target_room_size = if target_room_size > 1 {
        target_room_size
    } else {
        1
    };
    let ghost mut starts: Seq<int> = Seq::empty();
    let mut start_node: usize = 0;
    while start_node < num_nodes
        invariant_except_break
            current_room < u32::MAX,
        invariant
            g == graph@,
            g.valid(),
            num_nodes == g.num_nodes,
            target_room_size >= 1,
            target_room_size as nat == cap,
            start_node <= num_nodes,
            visited@.len() == num_nodes,
            room_map@.len() == num_nodes,
            starts.len() == current_room,
            current_room <= start_node,
            bfs_outer_inv(g, visited@, room_map@, starts, start_node as int, cap),
        ensures
            start_node == num_nodes || current_room == u32::MAX,
        decreases num_nodes - start_node,
    {
        if visited[start_node] {
            start_node = start_node + 1;
            continue;
        }
        let ghost vis0 = visited@;
        let ghost rm0 = room_map@;
        let mut queue: std::collections::VecDeque<NodeId> = std::collections::VecDeque::new();
        queue.push_back(start_node as NodeId);
        let ghost mut qpaths: Seq<Seq<NodeId>> = seq![seq![start_node as NodeId]];
        let mut room_nodes: Vec<NodeId> = Vec::new();
        let ghost mut rpaths: Seq<Seq<NodeId>> = Seq::empty();
        proof {
            lemma_count_true_set(visited@, start_node as int);
            assert(is_path(g, seq![start_node as NodeId]));
        }
        visited.set(start_node, true);
        proof {
            assert(queue@ =~= seq![start_node as NodeId]);
            assert(queue@[0] as int == start_node as int);
        }
        loop
            invariant_except_break
                room_nodes@.len() < target_room_size,
                forall|j: int, v: int|
                    0 <= j < room_nodes@.len() && #[trigger] g.has_edge(room_nodes@[j] as int, v) ==> visited@[v],
            invariant
                g == graph@,
                g.valid(),
                num_nodes == g.num_nodes,
                target_room_size >= 1,
                distinct_nodes(room_nodes@ + queue@),
                start_node < num_nodes,
                visited@.len() == num_nodes,
                visited@[start_node as int],
                room_map@ == rm0,
                rm0.len() == num_nodes,
                vis0.len() == num_nodes,
                !vis0[start_node as int],
                forall|v: int| 0 <= v < num_nodes && #[trigger] vis0[v] ==> visited@[v],
                qpaths.len() == queue@.len(),
                forall|i: int|
                    #![trigger qpaths[i]]
                        #![trigger queue@[i]]
                        0 <= i < queue@.len() ==> {
                        &&& is_path(g, qpaths[i])
                        &&& qpaths[i][0] == start_node
                        &&& qpaths[i].last() == queue@[i]
                        &&& queue@[i] < num_nodes
                        &&& !vis0[queue@[i] as int]
                        &&& visited@[queue@[i] as int]
                    },
                rpaths.len() == room_nodes@.len(),
                forall|i: int|
                    #![trigger rpaths[i]]
                        #![trigger room_nodes@[i]]
                        0 <= i < room_nodes@.len() ==> {
                        &&& is_path(g, rpaths[i])
                        &&& rpaths[i][0] == start_node
                        &&& rpaths[i].last() == room_nodes@[i]
                        &&& room_nodes@[i] < num_nodes
                        &&& !vis0[room_nodes@[i] as int]
                        &&& visited@[room_nodes@[i] as int]
                    },
                room_nodes@.len() == 0 ==> queue@ == seq![start_node as NodeId],
                room_nodes@.len() > 0 ==> room_nodes@[0] == start_node as NodeId,
                forall|v: int|
                    0 <= v < num_nodes && !vis0[v] && #[trigger] visited@[v] ==> holds_node(room_nodes@, v)
                        || holds_node(queue@, v),
            ensures
                room_nodes@.len() > 0,
                room_nodes@.len() <= target_room_size,
                distinct_nodes(room_nodes@),
                room_nodes@.len() < target_room_size ==> queue@.len() == 0,
                room_nodes@.len() < target_room_size ==> forall|j: int, v: int|
                    0 <= j < room_nodes@.len() && #[trigger] g.has_edge(room_nodes@[j] as int, v) ==> visited@[v],
            decreases num_nodes - count_true(visited@), queue@.len(),
        {
            let ghost queue_before = queue@;
            let popped = queue.pop_front();
            let u = match popped {
                Some(x) => x,
                None => {
                    proof {
                        assert(room_nodes@ + queue@ =~= room_nodes@);
                    }
                    break;
                },
            };
            let ghost pu = qpaths[0];
            let ghost q_before = qpaths;
            let ghost rn_before = room_nodes@;
            let ghost rp_before = rpaths;
            proof {
                assert(is_path(g, q_before[0]));
                qpaths = qpaths.drop_first();
                lemma_count_true_bound(visited@);
                assert forall|i: int| #![trigger qpaths[i]]
                    #![trigger queue@[i]]
                    0 <= i < queue@.len() implies {
                    &&& is_path(g, qpaths[i])
                    &&& qpaths[i][0] == start_node
                    &&& qpaths[i].last() == queue@[i]
                    &&& queue@[i] < num_nodes
                    &&& !vis0[queue@[i] as int]
                    &&& visited@[queue@[i] as int]
                } by {
                    assert(is_path(g, q_before[i + 1]));
                }
            }
            room_nodes.push(u);
            proof {
                assert(room_nodes@ + queue@ =~= rn_before + seq![u] + queue@);
                assert(rn_before + seq![u] + queue@ =~= rn_before + (seq![u] + queue@));
                assert(seq![u] + queue@ =~= queue_before);
                rpaths = rpaths.push(pu);
                assert forall|i: int| #![trigger rpaths[i]]
                    #![trigger room_nodes@[i]]
                    0 <= i < room_nodes@.len() implies {
                    &&& is_path(g, rpaths[i])
                    &&& rpaths[i][0] == start_node
                    &&& rpaths[i].last() == room_nodes@[i]
                    &&& room_nodes@[i] < num_nodes
                    &&& !vis0[room_nodes@[i] as int]
                    &&& visited@[room_nodes@[i] as int]
                } by {
                    if i < rn_before.len() {
                        assert(is_path(g, rp_before[i]));
                        assert(rpaths[i] == rp_before[i]);
                        assert(room_nodes@[i] == rn_before[i]);
                    }
                }
                assert forall|v: int| 0 <= v < num_nodes && !vis0[v] && #[trigger] visited@[v] implies holds_node(
                    room_nodes@,
                    v,
                ) || holds_node(queue@, v) by {
                    if holds_node(rn_before, v) {
                        let j = choose|j: int| 0 <= j < rn_before.len() && #[trigger] rn_before[j] as int == v;
                        assert(room_nodes@[j] == rn_before[j]);
                    } else {
                        let j = choose|j: int| 0 <= j < queue_before.len() && #[trigger] queue_before[j] as int == v;
                        if j == 0 {
                            assert(room_nodes@[room_nodes@.len() - 1] == u);
                        } else {
                            assert(queue@[j - 1] == queue_before[j]);
                        }
                    }
                }
            }
            let ghost ct0 = count_true(visited@);
            let ghost ql0 = queue@.len();
            if room_nodes.len() >= target_room_size {
                proof {
                    assert forall|i: int, j: int| 0 <= i < j < room_nodes@.len() implies #[trigger] room_nodes@[i]
                        != #[trigger] room_nodes@[j] by {
                        assert((room_nodes@ + queue@)[i] == room_nodes@[i]);
                        assert((room_nodes@ + queue@)[j] == room_nodes@[j]);
                    }
                }
                break;
            }
            let nbrs = graph.neighbors(u);
            let ghost vis_in = visited@;
            let mut k: usize = 0;
            while k < nbrs.len()
                invariant
                    visited@.len() == vis_in.len(),
                    forall|w: int| 0 <= w < num_nodes && #[trigger] vis_in[w] ==> visited@[w],
                    forall|k2: int| 0 <= k2 < k ==> visited@[#[trigger] nbrs@[k2].0 as int],
                    g == graph@,
                    g.valid(),
                    num_nodes == g.num_nodes,
                    u < num_nodes,
                    nbrs@ == g.out_edges(u as int),
                    k <= nbrs@.len(),
                    is_path(g, pu),
                    pu[0] == start_node,
                    pu.last() == u,
                    visited@.len() == num_nodes,
                    vis0.len() == num_nodes,
                    forall|v: int| 0 <= v < num_nodes && #[trigger] vis0[v] ==> visited@[v],
                    qpaths.len() == queue@.len(),
                    forall|i: int|
                        #![trigger qpaths[i]]
                            #![trigger queue@[i]]
                            0 <= i < queue@.len() ==> {
                            &&& is_path(g, qpaths[i])
                            &&& qpaths[i][0] == start_node
                            &&& qpaths[i].last() == queue@[i]
                            &&& queue@[i] < num_nodes
                            &&& !vis0[queue@[i] as int]
                            &&& visited@[queue@[i] as int]
                        },
                    forall|i: int|
                        0 <= i < room_nodes@.len() ==> #[trigger] room_nodes@[i] < num_nodes
                            && visited@[room_nodes@[i] as int],
                    distinct_nodes(room_nodes@ + queue@),
                    visited@[start_node as int],
                    count_true(visited@) <= num_nodes,
                    queue@.len() >= ql0,
                    count_true(visited@) == ct0 + (queue@.len() - ql0),
                    forall|w: int|
                        0 <= w < num_nodes && !vis0[w] && #[trigger] visited@[w] ==> holds_node(room_nodes@, w)
                            || holds_node(queue@, w),
                decreases nbrs@.len() - k,
            {
                let (v, _) = nbrs[k];
                proof {
                    lemma_out_edge_has_edge(g, u as int, k as int);
                }
                let v_idx = v as usize;
                if v_idx < visited.len() && !visited[v_idx] {
                    proof {
                        lemma_count_true_set(visited@, v_idx as int);
                        lemma_count_true_bound(visited@.update(v_idx as int, true));
                        lemma_path_push(g, pu, v);
                    }
                    let ghost q_mid = qpaths;
                    let ghost vis_mid = visited@;
                    let ghost all_mid = room_nodes@ + queue@;
                    let ghost q_old = queue@;
                    visited.set(v_idx, true);
                    queue.push_back(v);
                    proof {
                        assert(room_nodes@ + queue@ =~= all_mid.push(v));
                        assert forall|i: int| 0 <= i < all_mid.len() implies #[trigger] all_mid[i] != v by {
                            if i < room_nodes@.len() {
                                assert(all_mid[i] == room_nodes@[i]);
                                assert(vis_mid[room_nodes@[i] as int]);
                            } else {
                                assert(all_mid[i] == q_old[i - room_nodes@.len()]);
                                assert(vis_mid[q_old[i - room_nodes@.len()] as int]);
                            }
                        }
                        assert forall|i: int, j: int| 0 <= i < j < all_mid.push(v).len() implies #[trigger] all_mid.push(v)[i]
                            != #[trigger] all_mid.push(v)[j] by {
                            if j == all_mid.len() {
                                assert(all_mid.push(v)[i] == all_mid[i]);
                            } else {
                                assert(all_mid.push(v)[i] == all_mid[i]);
                                assert(all_mid.push(v)[j] == all_mid[j]);
                            }
                        }
                        assert forall|i: int| 0 <= i < room_nodes@.len() implies #[trigger] room_nodes@[i] < num_nodes
                            && visited@[room_nodes@[i] as int] by {
                            assert(vis_mid[room_nodes@[i] as int]);
                        }
                        qpaths = qpaths.push(pu.push(v));
                        assert forall|i: int| #![trigger qpaths[i]]
                            #![trigger queue@[i]]
                            0 <= i < queue@.len() implies {
                            &&& is_path(g, qpaths[i])
                            &&& qpaths[i][0] == start_node
                            &&& qpaths[i].last() == queue@[i]
                            &&& queue@[i] < num_nodes
                            &&& !vis0[queue@[i] as int]
                            &&& visited@[queue@[i] as int]
                        } by {
                            if i < q_mid.len() {
                                assert(is_path(g, q_mid[i]));
                                assert(qpaths[i] == q_mid[i]);
                            }
                        }
                        assert forall|w: int| 0 <= w < num_nodes && !vis0[w] && #[trigger] visited@[w] implies holds_node(
                            room_nodes@,
                            w,
                        ) || holds_node(queue@, w) by {
                            if w == v_idx as int {
                                assert(queue@[queue@.len() - 1] == v);
                            } else {
                                assert(vis_mid[w]);
                                if holds_node(q_old, w) {
                                    let j = choose|j: int| 0 <= j < q_old.len() && #[trigger] q_old[j] as int == w;
                                    assert(queue@[j] == q_old[j]);
                                }
                            }
                        }
                    }
                }
                proof {
                    assert(visited@[nbrs@[k as int].0 as int]);
                }
                k = k + 1;
            }
            proof {
                assert forall|j: int, v: int|
                    0 <= j < room_nodes@.len() && #[trigger] g.has_edge(room_nodes@[j] as int, v) implies visited@[v] by {
                    if j < rn_before.len() {
                        assert(room_nodes@[j] == rn_before[j]);
                        assert(is_path(g, rp_before[j]));
                        lemma_has_edge_out_edge(g, rn_before[j] as int, v);
                        assert(vis_in[v]);
                    } else {
                        assert(room_nodes@[j] == u);
                        lemma_has_edge_out_edge(g, u as int, v);
                        let k2 = choose|k2: int| 0 <= k2 < g.out_edges(u as int).len() && #[trigger] g.out_edges(u as int)[k2].0 == v;
                        assert(nbrs@[k2].0 as int == v);
                    }
                }
            }
        }
        // Everything taken joins the current room.
        proof {
            assert forall|j: int| 0 <= j < rm0.len() implies #[trigger] rm0[j] != current_room by {
                if rm0[j] != u32::MAX {
                    assert(rm0[j] < starts.len());
                }
            }
            lemma_count_in_none(rm0, current_room);
            assert forall|j: int| 0 <= j < room_nodes@.len() implies rm0[#[trigger] room_nodes@[j] as int] == u32::MAX by {
                assert(!vis0[room_nodes@[j] as int]);
            }
            assert forall|j: int| 0 <= j < queue@.len() implies rm0[#[trigger] queue@[j] as int] == u32::MAX
                && queue@[j] < num_nodes && !vis0[queue@[j] as int] by {
                assert(is_path(g, qpaths[j]));
            }
        }
        let mut i: usize = 0;
        while i < room_nodes.len()
            invariant
                distinct_nodes(room_nodes@),
                count_in(room_map@, current_room) == i,
                current_room < u32::MAX,
                forall|j: int| i <= j < room_nodes@.len() ==> room_map@[#[trigger] room_nodes@[j] as int] == u32::MAX,
                g == graph@,
                num_nodes == g.num_nodes,
                room_map@.len() == num_nodes,
                rm0.len() == num_nodes,
                vis0.len() == num_nodes,
                visited@.len() == num_nodes,
                start_node < num_nodes,
                i <= room_nodes@.len(),
                room_nodes@.len() > 0,
                room_nodes@[0] == start_node as NodeId,
                i > 0 ==> room_map@[start_node as int] == current_room,
                forall|j: int| 0 <= j < i ==> room_map@[#[trigger] room_nodes@[j] as int] == current_room,
                distinct_nodes(room_nodes@ + queue@),
                forall|j: int|
                    0 <= j < queue@.len() ==> room_map@[#[trigger] queue@[j] as int] == u32::MAX
                        && queue@[j] < num_nodes && !vis0[queue@[j] as int],
                forall|v: int|
                    0 <= v < num_nodes && !vis0[v] && #[trigger] visited@[v] ==> holds_node(room_nodes@, v)
                        || holds_node(queue@, v),
                rpaths.len() == room_nodes@.len(),
                forall|j: int|
                    #![trigger rpaths[j]]
                        #![trigger room_nodes@[j]]
                        0 <= j < room_nodes@.len() ==> {
                        &&& is_path(g, rpaths[j])
                        &&& rpaths[j][0] == start_node
                        &&& rpaths[j].last() == room_nodes@[j]
                        &&& room_nodes@[j] < num_nodes
                        &&& !vis0[room_nodes@[j] as int]
                        &&& visited@[room_nodes@[j] as int]
                    },
                forall|v: int|
                    0 <= v < num_nodes ==> (#[trigger] room_map@[v] == rm0[v] || (room_map@[v]
                        == current_room && !vis0[v] && visited@[v] && reachable(
                        g,
                        start_node as int,
                        v,
                    ))),
            decreases room_nodes@.len() - i,
        {
            let node = room_nodes[i];
            proof {
                assert(is_path(g, rpaths[i as int]));
            }
            let ghost rm_i = room_map@;
            proof {
                lemma_count_in_update(rm_i, node as int, current_room);
            }
            room_map.set(node as usize, current_room);
            proof {
                assert forall|j: int| i + 1 <= j < room_nodes@.len() implies room_map@[#[trigger] room_nodes@[j] as int]
                    == u32::MAX by {
                    assert(room_nodes@[i as int] != room_nodes@[j]);
                }
                assert forall|j: int| 0 <= j < queue@.len() implies room_map@[#[trigger] queue@[j] as int] == u32::MAX
                    && queue@[j] < num_nodes && !vis0[queue@[j] as int] by {
                    assert((room_nodes@ + queue@)[i as int] == room_nodes@[i as int]);
                    assert((room_nodes@ + queue@)[room_nodes@.len() + j] == queue@[j]);
                }
            }
            i = i + 1;
        }
        // Nodes queued but not taken are released: later rooms take them.
        let ghost rm_b = room_map@;
        proof {
            assert forall|v: int| 0 <= v < num_nodes && !vis0[v] && #[trigger] visited@[v] implies rm_b[v]
                == current_room || holds_node(queue@, v) by {
                if holds_node(room_nodes@, v) {
                    let j = choose|j: int| 0 <= j < room_nodes@.len() && #[trigger] room_nodes@[j] as int == v;
                    assert(room_map@[room_nodes@[j] as int] == current_room);
                }
            }
            assert forall|v: int| 0 <= v < num_nodes && #[trigger] rm_b[v] == current_room implies visited@[v] by {
                assert(rm0[v] != current_room);
            }
            if room_nodes@.len() < target_room_size {
                assert forall|u: int, v: int|
                    0 <= u < num_nodes && #[trigger] g.has_edge(u, v) && rm_b[u] == current_room implies rm_b[v]
                    <= current_room by {
                    assert(rm0[u] != current_room);
                    assert(holds_node(room_nodes@, u));
                    let j = choose|j: int| 0 <= j < room_nodes@.len() && #[trigger] room_nodes@[j] as int == u;
                    assert(g.has_edge(room_nodes@[j] as int, v));
                    lemma_has_edge_out_edge(g, u, v);
                    assert(visited@[v]);
                    if vis0[v] {
                        assert(rm0[v] != u32::MAX);
                        assert(rm0[v] < starts.len());
                        if rm_b[v] != rm0[v] {
                            assert(!vis0[v]);
                        }
                    } else {
                        assert(holds_node(room_nodes@, v));
                        let j2 = choose|j2: int| 0 <= j2 < room_nodes@.len() && #[trigger] room_nodes@[j2] as int == v;
                        assert(room_map@[room_nodes@[j2] as int] == current_room);
                    }
                }
            }
        }
        loop
            invariant
                room_map@ == rm_b,
                rm_b.len() == num_nodes,
                visited@.len() == num_nodes,
                vis0.len() == num_nodes,
                current_room < u32::MAX,
                forall|v: int| 0 <= v < num_nodes && #[trigger] vis0[v] ==> visited@[v],
                forall|v: int| 0 <= v < num_nodes && #[trigger] rm_b[v] == current_room ==> visited@[v],
                forall|v: int|
                    0 <= v < num_nodes && !vis0[v] && #[trigger] visited@[v] ==> rm_b[v] == current_room
                        || holds_node(queue@, v),
                forall|j: int|
                    0 <= j < queue@.len() ==> rm_b[#[trigger] queue@[j] as int] == u32::MAX
                        && queue@[j] < num_nodes && !vis0[queue@[j] as int],
            ensures
                forall|v: int|
                    0 <= v < num_nodes && !vis0[v] && #[trigger] visited@[v] ==> rm_b[v] == current_room,
            decreases queue@.len(),
        {
            let ghost q_before = queue@;
            let ghost vis_before = visited@;
            let popped = queue.pop_front();
            match popped {
                Some(q) => {
                    proof {
                        assert(rm_b[q_before[0] as int] == u32::MAX);
                    }
                    visited.set(q as usize, false);
                    proof {
                        assert forall|v: int| 0 <= v < num_nodes && !vis0[v] && #[trigger] visited@[v] implies rm_b[v]
                            == current_room || holds_node(queue@, v) by {
                            assert(vis_before[v]);
                            if rm_b[v] != current_room {
                                let j = choose|j: int| 0 <= j < q_before.len() && #[trigger] q_before[j] as int == v;
                                assert(j != 0);
                                assert(queue@[j - 1] == q_before[j]);
                            }
                        }
                        assert forall|j: int| 0 <= j < queue@.len() implies rm_b[#[trigger] queue@[j] as int] == u32::MAX
                            && queue@[j] < num_nodes && !vis0[queue@[j] as int] by {
                            assert(queue@[j] == q_before[j + 1]);
                        }
                    }
                },
                None => {
                    break;
                },
            }
        }
        proof {
            assert forall|v: int| 0 <= v < num_nodes implies (#[trigger] room_map@[v] == rm0[v] || (room_map@[v]
                == current_room && !vis0[v] && visited@[v] && reachable(g, start_node as int, v))) by {
                if room_map@[v] != rm0[v] {
                    assert(room_map@[v] == current_room);
                }
            }
            lemma_bfs_room_step(g, vis0, rm0, visited@, room_map@, starts, start_node as int, current_room, cap);
            starts = starts.push(start_node as int);
        }
        current_room = current_room + 1;
        start_node = start_node + 1;
        if current_room == u32::MAX {
            break;
        }
    }
    // Nodes queued but never taken join one last room.
    let ghost rm_a = room_map@;
    let mut i: usize = 0;
    while i < num_nodes
        invariant
            i <= num_nodes,
            room_map@.len() == num_nodes,
            rm_a.len() == num_nodes,
            forall|j: int|
                0 <= j < num_nodes ==> #[trigger] room_map@[j] == if j < i {
                    fill_unassigned(rm_a[j], current_room)
                } else {
                    rm_a[j]
                },
        decreases num_nodes - i,
    {
        if room_map[i] == u32::MAX {
            room_map.set(i, current_room);
        }
        i = i + 1;
    }
    proof {
        if num_nodes < u32::MAX {
            lemma_bfs_partition_final(g, visited@, rm_a, room_map@, starts, current_room, cap);
        }
    }
    room_map
}

/// A room id with the unassigned marker replaced by `last`.
pub open spec fn fill_unassigned(x: RoomId, last: RoomId) -> RoomId {
    if x == u32::MAX {
        last
    } else {
        x
    }
}

/// What the outer loop of `partition_bfs` keeps: rooms `0..starts.len()` have
/// been formed, room `c` starting at node `starts[c]`; exactly the visited
/// nodes are assigned, the others hold `u32::MAX`.
pub open spec fn bfs_outer_inv(
    g: GraphView,
    visited: Seq<bool>,
    rm: Seq<RoomId>,
    starts: Seq<int>,
    start_node: int,
    cap: nat,
) -> bool {
    &&& forall|c: RoomId| c < starts.len() ==> #[trigger] count_in(rm, c) <= cap
    &&& forall|v: int| 0 <= v < start_node ==> #[trigger] visited[v]
    &&& forall|v: int|
        0 <= v < rm.len() && #[trigger] rm[v] != u32::MAX ==> visited[v] && rm[v] < starts.len()
    &&& forall|v: int| 0 <= v < rm.len() && !#[trigger] visited[v] ==> rm[v] == u32::MAX
    &&& forall|v: int| 0 <= v < rm.len() && #[trigger] visited[v] ==> rm[v] != u32::MAX
    &&& forall|c: int, d: int| 0 <= c < d < starts.len() ==> #[trigger] starts[c] < #[trigger] starts[d]
    &&& forall|c: int|
        0 <= c < starts.len() ==> 0 <= #[trigger] starts[c] < start_node && rm[starts[c]] == c
    &&& forall|c: int, w: int|
        #![trigger starts[c], rm[w]]
        0 <= c < starts.len() && 0 <= w < starts[c] ==> rm[w] == u32::MAX || rm[w] < c
    &&& forall|w: int|
        0 <= w < rm.len() && #[trigger] rm[w] != u32::MAX ==> reachable(g, starts[rm[w] as int], w)
    &&& forall|u: int, v: int|
        0 <= u < rm.len() && #[trigger] g.has_edge(u, v) && rm[u] != u32::MAX && count_in(rm, rm[u]) < cap
            ==> rm[v] <= rm[u]
}

/// One room of `partition_bfs` keeps the outer invariant.
proof fn lemma_bfs_room_step(
    g: GraphView,
    vis0: Seq<bool>,
    rm0: Seq<RoomId>,
    vis1: Seq<bool>,
    rm1: Seq<RoomId>,
    starts: Seq<int>,
    s: int,
    room: RoomId,
    cap: nat,
)
    requires
        g.valid(),
        rm0.len() == g.num_nodes,
        bfs_outer_inv(g, vis0, rm0, starts, s, cap),
        count_in(rm1, room) <= cap,
        starts.len() == room,
        room < u32::MAX,
        0 <= s < rm0.len(),
        rm0.len() == rm1.len(),
        vis0.len() == rm0.len(),
        vis1.len() == rm0.len(),
        !vis0[s],
        vis1[s],
        rm1[s] == room,
        forall|v: int| 0 <= v < vis0.len() && #[trigger] vis0[v] ==> vis1[v],
        forall|v: int| 0 <= v < vis0.len() && !vis0[v] && #[trigger] vis1[v] ==> rm1[v] == room,
        count_in(rm1, room) < cap ==> forall|u: int, v: int|
            0 <= u < rm1.len() && #[trigger] g.has_edge(u, v) && rm1[u] == room ==> rm1[v] <= room,
        forall|v: int|
            0 <= v < rm0.len() ==> (#[trigger] rm1[v] == rm0[v] || (rm1[v] == room && !vis0[v]
                && vis1[v] && reachable(g, s, v))),
    ensures
        bfs_outer_inv(g, vis1, rm1, starts.push(s), s + 1, cap),
{
    let st = starts.push(s);
    assert forall|c: RoomId| c < st.len() implies #[trigger] count_in(rm1, c) <= cap by {
        if c < room {
            assert forall|i: int| 0 <= i < rm0.len() implies (#[trigger] rm0[i] == c <==> rm1[i] == c) by {
                if rm1[i] != rm0[i] {
                    assert(!vis0[i]);
                }
            }
            lemma_count_in_same(rm0, rm1, c);
        }
    }
    assert forall|v: int| 0 <= v < s + 1 implies #[trigger] vis1[v] by {
        if v < s {
            assert(vis0[v]);
        }
    }
    assert forall|v: int| 0 <= v < rm1.len() && #[trigger] rm1[v] != u32::MAX implies vis1[v]
        && rm1[v] < st.len() by {
        if rm1[v] == rm0[v] {
            assert(vis0[v]);
        }
    }
    assert forall|v: int| 0 <= v < rm1.len() && !#[trigger] vis1[v] implies rm1[v] == u32::MAX by {
        assert(!vis0[v]);
    }
    assert forall|v: int| 0 <= v < rm1.len() && #[trigger] vis1[v] implies rm1[v] != u32::MAX by {
        if vis0[v] {
            assert(rm0[v] != u32::MAX);
        }
    }
    assert forall|c: int, d: int| 0 <= c < d < st.len() implies #[trigger] st[c] < #[trigger] st[d] by {
        assert(st[c] == starts[c]);
        if d < starts.len() {
            assert(st[d] == starts[d]);
        }
    }
    assert forall|c: int| 0 <= c < st.len() implies 0 <= #[trigger] st[c] < s + 1 && rm1[st[c]] == c by {
        if c < starts.len() {
            assert(st[c] == starts[c]);
            assert(rm0[starts[c]] == c);
            assert(vis0[starts[c]]);
        }
    }
    assert forall|c: int, w: int| #![trigger st[c], rm1[w]] 0 <= c < st.len() && 0 <= w < st[c] implies rm1[w]
        == u32::MAX || rm1[w] < c by {
        assert(vis0[w]);
        if c < starts.len() {
            assert(st[c] == starts[c]);
        } else {
            if rm0[w] != u32::MAX {
                assert(rm0[w] < starts.len());
            }
        }
    }
    assert forall|w: int| 0 <= w < rm1.len() && #[trigger] rm1[w] != u32::MAX implies reachable(
        g,
        st[rm1[w] as int],
        w,
    ) by {
        if rm1[w] == rm0[w] && vis0[w] {
            assert(rm0[w] < starts.len());
            assert(st[rm0[w] as int] == starts[rm0[w] as int]);
        } else if rm1[w] == rm0[w] {
            assert(rm0[w] == u32::MAX);
        } else {
            assert(rm1[w] == room);
            assert(st[room as int] == s);
        }
    }
    assert forall|u: int, v: int|
        0 <= u < rm1.len() && #[trigger] g.has_edge(u, v) && rm1[u] != u32::MAX && count_in(rm1, rm1[u]) < cap
        implies rm1[v] <= rm1[u] by {
        lemma_has_edge_out_edge(g, u, v);
        if rm1[u] != room {
            let c = rm0[u];
            assert(vis0[u]);
            assert(c < room);
            assert forall|i: int| 0 <= i < rm0.len() implies (#[trigger] rm0[i] == c <==> rm1[i] == c) by {
                if rm1[i] != rm0[i] {
                    assert(!vis0[i]);
                }
            }
            lemma_count_in_same(rm0, rm1, c);
            assert(rm0[v] <= c);
            assert(vis0[v]);
        }
    }
}

/// The last pass of `partition_bfs` yields a breadth-first partition.
proof fn lemma_bfs_partition_final(
    g: GraphView,
    visited: Seq<bool>,
    rm: Seq<RoomId>,
    f: Seq<RoomId>,
    starts: Seq<int>,
    cnt: RoomId,
    cap: nat,
)
    requires
        bfs_outer_inv(g, visited, rm, starts, rm.len() as int, cap),
        rm.len() == g.num_nodes,
        f.len() == rm.len(),
        starts.len() == cnt,
        cnt < u32::MAX,
        forall|j: int| 0 <= j < rm.len() ==> #[trigger] f[j] == fill_unassigned(rm[j], cnt),
    ensures
        is_bfs_partition(g, f, cap),
{
    assert forall|c: RoomId| c < cnt implies #[trigger] count_in(f, c) <= cap by {
        assert forall|i: int| 0 <= i < rm.len() implies (#[trigger] rm[i] == c <==> f[i] == c) by {
            assert(f[i] == fill_unassigned(rm[i], cnt));
        }
        lemma_count_in_same(rm, f, c);
    }
    assert forall|c: int| 0 <= c < starts.len() implies first_index(f, c as RoomId) == #[trigger] starts[c] by {
        assert forall|j: int| 0 <= j < starts[c] implies f[j] != c as RoomId by {
            assert(f[j] == fill_unassigned(rm[j], cnt));
        }
        assert(f[starts[c]] == fill_unassigned(rm[starts[c]], cnt));
        lemma_first_index_at(f, starts[c], c as RoomId);
    }
    assert forall|w: int| 0 <= w < f.len() implies #[trigger] f[w] < cnt && f[w] == rm[w] by {
        assert(f[w] == fill_unassigned(rm[w], cnt));
        assert(visited[w]);
        assert(rm[w] < starts.len());
    }
    assert(f =~= rm);
    assert forall|c: RoomId, d: RoomId| c < d < cnt implies #[trigger] first_index(f, c) < #[trigger] first_index(
        f,
        d,
    ) < f.len() by {
        assert(first_index(f, c) == starts[c as int]);
        assert(first_index(f, d) == starts[d as int]);
    }
    assert forall|w: int| 0 <= w < f.len() && #[trigger] f[w] < cnt implies reachable(
        g,
        first_index(f, f[w]),
        w,
    ) by {
        assert(f[w] == fill_unassigned(rm[w], cnt));
        assert(rm[w] != u32::MAX);
        assert(first_index(f, f[w]) == starts[rm[w] as int]);
    }
    assert(bfs_rooms_below(g, f, cnt, cap));
}

/// Partitions a graph into rooms; returns `room_map[node] = room id`.
pub fn partition_graph(graph: &Graph, algorithm: PartitioningAlgorithm) -> (r: Vec<RoomId>)
    requires
        graph@.valid(),
    ensures
        r@.len() == graph@.num_nodes,
        algorithm is ConnectedComponents && graph@.num_nodes < u32::MAX ==> is_cc_partition(
            graph@,
            r@,
        ),
        algorithm matches PartitioningAlgorithm::BFSPartitioning { target_room_size } ==> (graph@.num_nodes
            < u32::MAX ==> is_bfs_partition(graph@, r@, room_cap(target_room_size))),
        algorithm is Manual ==> r@ == graph@.room_map,
{
    match algorithm {
        PartitioningAlgorithm::ConnectedComponents => partition_connected_components(graph),
        PartitioningAlgorithm::BFSPartitioning { target_room_size } => partition_bfs(
            graph,
            target_room_size,
        ),
        PartitioningAlgorithm::Manual => vstd::slice::slice_to_vec(graph.room_map()),
    }
}

} // verus!
