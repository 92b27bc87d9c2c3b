//! Core graph structure: a CSR (compressed sparse row) graph with node and
//! edge properties and a room assignment per node.

use vstd::prelude::*;
use crate::error::{GraphError, node_id_to_usize};
use crate::messages::{decimal, fmt_two_usize, fmt_three_usize, fmt_usize_between};

verus! {

/// Node identifier.
pub type NodeId = u32;
/// Legacy discrete direction bin.
pub type AngleBin = u8;
/// Room identifier.
pub type RoomId = u32;
/// Relation identifier (index into a relation vocabulary).
pub type RelationId = u16;

/// Number of discrete angle bins of the legacy angle-bin model.
pub const N_ANGLE_BINS: usize = 16;

/// Maximum number of nodes a graph may be created with.
pub const MAX_NODES: usize = 100_000_000;
/// Number of distinct node ids: a graph has at most this many nodes.
pub open spec fn node_id_range() -> nat {
    u32::MAX as nat + 1
}

/// Maximum number of edges an adjacency list may hold.
pub const MAX_EDGES: usize = 1_000_000_000;

/// Bit pattern of the `f32` value 0.85 (default reflection).
pub const DEFAULT_REFLECTION_BITS: u32 = 0x3f59_999a;
/// Bit pattern of the `f32` value 1.0.
pub const ONE_BITS: u32 = 0x3f80_0000;

/// Physical properties of a node. Both are `f32` values held as their bit pattern.
#[derive(Debug, Clone, Copy, PartialEq, Eq, Structural)]
pub struct NodeProps {
    /// Fraction of incoming intensity that gets re-emitted (`f32` bits).
    pub reflection_bits: u32,
    /// How strongly a relation change is penalized (`f32` bits).
    pub refraction_index_bits: u32,
}

impl NodeProps {
    /// Reflection 0.85, refraction index 1.0.
    pub fn default() -> (p: NodeProps)
        ensures
            p.reflection_bits == DEFAULT_REFLECTION_BITS,
            p.refraction_index_bits == ONE_BITS,
    {
        NodeProps { reflection_bits: DEFAULT_REFLECTION_BITS, refraction_index_bits: ONE_BITS }
    }
}

/// Physical properties of an edge.
#[derive(Debug, Clone, Copy, PartialEq, Eq, Structural)]
pub struct EdgeProps {
    /// Fraction of intensity lost along this edge (`f32` bits).
    pub attenuation_bits: u32,
    /// The relation this edge carries.
    pub relation: RelationId,
    /// Whether this edge crosses a room boundary.
    pub is_portal: bool,
}

impl EdgeProps {
    /// No attenuation, relation 0, not a portal.
    pub fn default() -> (e: EdgeProps)
        ensures
            e.attenuation_bits == 0,
            e.relation == 0,
            !e.is_portal,
    {
        EdgeProps { attenuation_bits: 0, relation: 0, is_portal: false }
    }
}

/// The abstract content of a graph.
pub struct GraphView {
    pub num_nodes: nat,
    pub row_ptr: Seq<usize>,
    pub col_idx: Seq<NodeId>,
    pub node_props: Seq<NodeProps>,
    pub edge_props: Seq<EdgeProps>,
    pub room_map: Seq<RoomId>,
}

/// `row_ptr` is non-decreasing on `0..=n`.
pub open spec fn monotone(row_ptr: Seq<usize>, n: nat) -> bool {
    forall|i: int, j: int| 0 <= i <= j <= n ==> #[trigger] row_ptr[i] <= #[trigger] row_ptr[j]
}

/// Every neighbor id is a node of the graph.
pub open spec fn targets_in_range(col_idx: Seq<NodeId>, n: nat) -> bool {
    forall|k: int| 0 <= k < col_idx.len() ==> #[trigger] col_idx[k] < n
}

/// The checks of `Graph::validate`: CSR consistency, valid neighbor ids and
/// room map / edge property lengths.
pub open spec fn csr_valid(
    n: nat,
    row_ptr: Seq<usize>,
    col_idx: Seq<NodeId>,
    edge_props_len: nat,
    room_map_len: nat,
) -> bool {
    &&& row_ptr.len() == n + 1
    &&& monotone(row_ptr, n)
    &&& row_ptr[0] == 0
    &&& row_ptr[n as int] == col_idx.len()
    &&& targets_in_range(col_idx, n)
    &&& room_map_len == n
    &&& edge_props_len == col_idx.len()
}

impl GraphView {
    /// A well-formed graph: at least one node, valid CSR and per-node properties.
    pub open spec fn valid(self) -> bool {
        &&& self.num_nodes > 0
        &&& self.num_nodes <= node_id_range()
        &&& csr_valid(
            self.num_nodes,
            self.row_ptr,
            self.col_idx,
            self.edge_props.len(),
            self.room_map.len(),
        )
        &&& self.node_props.len() == self.num_nodes
    }

    /// Start of `u`'s out-edges in `col_idx`.
    pub open spec fn start(self, u: int) -> int {
        self.row_ptr[u] as int
    }

    /// End (exclusive) of `u`'s out-edges in `col_idx`.
    pub open spec fn end(self, u: int) -> int {
        self.row_ptr[u + 1] as int
    }

    /// The out-edges of `u`, in CSR order.
    pub open spec fn out_edges(self, u: int) -> Seq<(NodeId, EdgeProps)> {
        Seq::new(
            (self.end(u) - self.start(u)) as nat,
            |k: int| (self.col_idx[self.start(u) + k], self.edge_props[self.start(u) + k]),
        )
    }

    /// The same graph with node `u`'s properties replaced.
    pub open spec fn with_node_props(self, u: int, p: NodeProps) -> GraphView {
        GraphView { node_props: self.node_props.update(u, p), ..self }
    }

    /// The same graph with node `u` moved to room `r`.
    pub open spec fn with_room(self, u: int, r: RoomId) -> GraphView {
        GraphView { room_map: self.room_map.update(u, r), ..self }
    }

    /// `(u, v)` is an edge.
    pub open spec fn has_edge(self, u: int, v: int) -> bool {
        exists|k: int| self.start(u) <= k < self.end(u) && self.col_idx[k] == v
    }
}

/// The first index from `i` on at which `row_ptr` decreases, or `n` when it
/// does not decrease below `n`.
pub open spec fn first_descent(row_ptr: Seq<usize>, n: nat, i: nat) -> nat
    decreases n - i,
{
    if i >= n {
        n
    } else if row_ptr[i as int] > row_ptr[i + 1int] {
        i
    } else {
        first_descent(row_ptr, n, i + 1)
    }
}

/// The first position from `k` on whose target is not below `n`, or
/// `col_idx.len()` when there is none.
pub open spec fn first_bad_target(col_idx: Seq<NodeId>, n: nat, k: nat) -> nat
    decreases col_idx.len() - k,
{
    if k >= col_idx.len() {
        col_idx.len()
    } else if col_idx[k as int] >= n {
        k
    } else {
        first_bad_target(col_idx, n, k + 1)
    }
}

/// The description of the first CSR check that fails, in the order of
/// `Graph::validate`.
pub open spec fn csr_failure(
    n: nat,
    row_ptr: Seq<usize>,
    col_idx: Seq<NodeId>,
    edge_props_len: nat,
    room_map_len: nat,
) -> Seq<char> {
    let d = first_descent(row_ptr, n, 0);
    let k = first_bad_target(col_idx, n, 0);
    if d < n {
        "row_ptr not monotonic at index "@ + decimal(d)
    } else if row_ptr[0] != 0 {
        "row_ptr[0] must be 0"@
    } else if row_ptr[n as int] != col_idx.len() {
        "row_ptr["@ + decimal(n) + "] = "@ + decimal(row_ptr[n as int] as nat) + " but col_idx.len() = "@
            + decimal(col_idx.len())
    } else if k < col_idx.len() {
        "Invalid node ID in edge: "@ + decimal(col_idx[k as int] as nat)
    } else if room_map_len != n {
        "room_map length "@ + decimal(room_map_len) + " != num_nodes "@ + decimal(n)
    } else {
        "edge_props length "@ + decimal(edge_props_len) + " != col_idx length "@ + decimal(col_idx.len())
    }
}

/// The description of the first inconsistency among CSR parts: their
/// lengths, then the checks of `csr_failure`.
pub open spec fn parts_failure(
    n: usize,
    row_ptr: Seq<usize>,
    col_idx: Seq<NodeId>,
    node_props_len: nat,
    edge_props_len: nat,
    room_map_len: nat,
) -> Seq<char> {
    if row_ptr.len() != n + 1 {
        "row_ptr length "@ + decimal(row_ptr.len()) + " != num_nodes + 1 ("@ + decimal(n.wrapping_add(1) as nat) + ")"@
    } else if col_idx.len() != edge_props_len {
        "col_idx length "@ + decimal(col_idx.len()) + " != edge_props length "@ + decimal(edge_props_len)
    } else if node_props_len != n {
        "node_props length "@ + decimal(node_props_len) + " != num_nodes "@ + decimal(n as nat)
    } else if room_map_len != n {
        "room_map length "@ + decimal(room_map_len) + " != num_nodes "@ + decimal(n as nat)
    } else {
        csr_failure(n as nat, row_ptr, col_idx, edge_props_len, room_map_len)
    }
}

/// The message of the error `Graph::from_csr` returns for these parts.
pub open spec fn from_csr_message(
    n: usize,
    row_ptr: Seq<usize>,
    col_idx: Seq<NodeId>,
    node_props_len: nat,
    edge_props_len: nat,
    room_map_len: nat,
) -> Seq<char> {
    if n == 0 {
        "Invalid size: "@ + "num_nodes must be > 0"@
    } else if n > node_id_range() {
        "Invalid size: "@ + ("Value "@ + decimal((n - 1) as nat) + " exceeds NodeId::MAX ("@ + decimal(
            u32::MAX as nat,
        ) + ")"@)
    } else {
        "Graph structure corrupted: "@ + parts_failure(
            n,
            row_ptr,
            col_idx,
            node_props_len,
            edge_props_len,
            room_map_len,
        )
    }
}

/// Without a descent in `[i, j)`, the search from `i` goes on from `j`.
pub proof fn lemma_first_descent_skip(row_ptr: Seq<usize>, n: nat, i: nat, j: nat)
    requires
        i <= j <= n,
        forall|a: int| i <= a < j ==> #[trigger] row_ptr[a] <= row_ptr[a + 1],
    ensures
        first_descent(row_ptr, n, i) == first_descent(row_ptr, n, j),
    decreases j - i,
{
    if i < j {
        lemma_first_descent_skip(row_ptr, n, i + 1, j);
        assert(row_ptr[i as int] <= row_ptr[i + 1int]);
    }
}

/// Without a bad target in `[i, j)`, the search from `i` goes on from `j`.
pub proof fn lemma_first_bad_target_skip(col_idx: Seq<NodeId>, n: nat, i: nat, j: nat)
    requires
        i <= j <= col_idx.len(),
        forall|a: int| i <= a < j ==> #[trigger] col_idx[a] < n,
    ensures
        first_bad_target(col_idx, n, i) == first_bad_target(col_idx, n, j),
    decreases j - i,
{
    if i < j {
        lemma_first_bad_target_skip(col_idx, n, i + 1, j);
        assert(col_idx[i as int] < n);
    }
}

/// The graph view made of CSR parts.
pub open spec fn parts_view(
    num_nodes: usize,
    row_ptr: Seq<usize>,
    col_idx: Seq<NodeId>,
    node_props: Seq<NodeProps>,
    edge_props: Seq<EdgeProps>,
    room_map: Seq<RoomId>,
) -> GraphView {
    GraphView {
        num_nodes: num_nodes as nat,
        row_ptr,
        col_idx,
        node_props,
        edge_props,
        room_map,
    }
}

/// Number of edges a CSR layout built from `adj` will hold.
pub open spec fn total_edges(adj: Seq<Seq<(NodeId, EdgeProps)>>) -> nat
    decreases adj.len(),
{
    if adj.len() == 0 {
        0
    } else {
        total_edges(adj.drop_last()) + adj.last().len()
    }
}

/// The CSR column indices built from an adjacency list.
pub open spec fn flatten_targets(adj: Seq<Seq<(NodeId, EdgeProps)>>) -> Seq<NodeId>
    decreases adj.len(),
{
    if adj.len() == 0 {
        Seq::empty()
    } else {
        flatten_targets(adj.drop_last()) + adj.last().map_values(|p: (NodeId, EdgeProps)| p.0)
    }
}

/// The CSR edge properties built from an adjacency list.
pub open spec fn flatten_props(adj: Seq<Seq<(NodeId, EdgeProps)>>) -> Seq<EdgeProps>
    decreases adj.len(),
{
    if adj.len() == 0 {
        Seq::empty()
    } else {
        flatten_props(adj.drop_last()) + adj.last().map_values(|p: (NodeId, EdgeProps)| p.1)
    }
}

/// The CSR row pointers built from an adjacency list: the prefix edge counts.
pub open spec fn prefix_counts(adj: Seq<Seq<(NodeId, EdgeProps)>>) -> Seq<usize> {
    Seq::new(adj.len() + 1, |i: int| total_edges(adj.subrange(0, i)) as usize)
}

/// All neighbor ids in an adjacency list are below `n`.
pub open spec fn adjacency_in_range(adj: Seq<Seq<(NodeId, EdgeProps)>>, n: nat) -> bool {
    forall|u: int, k: int|
        0 <= u < adj.len() && 0 <= k < adj[u].len() ==> (#[trigger] adj[u][k]).0 < n
}

/// The adjacency list as nested sequences.
pub open spec fn adj_view(adj: Seq<Vec<(NodeId, EdgeProps)>>) -> Seq<Seq<(NodeId, EdgeProps)>> {
    adj.map_values(|v: Vec<(NodeId, EdgeProps)>| v@)
}

/// The graph `from_adjacency` builds from `adj`.
pub open spec fn adjacency_view(
    adj: Seq<Seq<(NodeId, EdgeProps)>>,
    default_node_props: NodeProps,
) -> GraphView {
    GraphView {
        num_nodes: adj.len(),
        row_ptr: prefix_counts(adj),
        col_idx: flatten_targets(adj),
        node_props: Seq::new(adj.len(), |i: int| default_node_props),
        edge_props: flatten_props(adj),
        room_map: Seq::new(adj.len(), |i: int| 0u32),
    }
}

proof fn lemma_subrange_step(adj: Seq<Seq<(NodeId, EdgeProps)>>, i: int)
    requires
        0 <= i < adj.len(),
    ensures
        total_edges(adj.subrange(0, i + 1)) == total_edges(adj.subrange(0, i)) + adj[i].len(),
        flatten_targets(adj.subrange(0, i + 1)) == flatten_targets(adj.subrange(0, i))
            + adj[i].map_values(|p: (NodeId, EdgeProps)| p.0),
        flatten_props(adj.subrange(0, i + 1)) == flatten_props(adj.subrange(0, i))
            + adj[i].map_values(|p: (NodeId, EdgeProps)| p.1),
{
    assert(adj.subrange(0, i + 1).drop_last() =~= adj.subrange(0, i));
}

proof fn lemma_flatten_lens(adj: Seq<Seq<(NodeId, EdgeProps)>>)
    ensures
        flatten_targets(adj).len() == total_edges(adj),
        flatten_props(adj).len() == total_edges(adj),
    decreases adj.len(),
{
    if adj.len() > 0 {
        lemma_flatten_lens(adj.drop_last());
    }
}

proof fn lemma_total_edges_prefix_le(adj: Seq<Seq<(NodeId, EdgeProps)>>, i: int)
    requires
        0 <= i <= adj.len(),
    ensures
        total_edges(adj.subrange(0, i)) <= total_edges(adj),
    decreases adj.len() - i,
{
    if i < adj.len() {
        lemma_subrange_step(adj, i);
        lemma_total_edges_prefix_le(adj, i + 1);
    } else {
        assert(adj.subrange(0, i) =~= adj);
    }
}

proof fn lemma_prefix_counts_monotone(adj: Seq<Seq<(NodeId, EdgeProps)>>)
    requires
        total_edges(adj) <= MAX_EDGES,
    ensures
        prefix_counts(adj).len() == adj.len() + 1,
        forall|i: int, j: int|
            0 <= i <= j <= adj.len() ==> #[trigger] prefix_counts(adj)[i] <= #[trigger] prefix_counts(
                adj,
            )[j],
        prefix_counts(adj)[0] == 0,
        prefix_counts(adj)[adj.len() as int] == total_edges(adj),
{
    assert forall|i: int, j: int| 0 <= i <= j <= adj.len() implies #[trigger] prefix_counts(
        adj,
    )[i] <= #[trigger] prefix_counts(adj)[j] by {
        lemma_prefix_mono(adj, i, j);
        lemma_total_edges_prefix_le(adj, j);
    }
    assert(adj.subrange(0, 0) =~= Seq::<Seq<(NodeId, EdgeProps)>>::empty());
    assert(adj.subrange(0, adj.len() as int) =~= adj);
}

proof fn lemma_prefix_mono(adj: Seq<Seq<(NodeId, EdgeProps)>>, i: int, j: int)
    requires
        0 <= i <= j <= adj.len(),
    ensures
        total_edges(adj.subrange(0, i)) <= total_edges(adj.subrange(0, j)),
    decreases j - i,
{
    if i < j {
        lemma_subrange_step(adj, j - 1);
        lemma_prefix_mono(adj, i, j - 1);
    }
}

proof fn lemma_flatten_targets_in_range(adj: Seq<Seq<(NodeId, EdgeProps)>>, n: nat)
    requires
        adjacency_in_range(adj, n),
    ensures
        targets_in_range(flatten_targets(adj), n),
    decreases adj.len(),
{
    if adj.len() > 0 {
        let init = adj.drop_last();
        assert(adjacency_in_range(init, n)) by {
            assert forall|u: int, k: int| 0 <= u < init.len() && 0 <= k < init[u].len() implies (
            #[trigger] init[u][k]).0 < n by {
                assert(init[u] == adj[u]);
            }
        }
        lemma_flatten_targets_in_range(init, n);
        let last = adj.last().map_values(|p: (NodeId, EdgeProps)| p.0);
        assert forall|k: int| 0 <= k < last.len() implies #[trigger] last[k] < n by {
            assert(adj[adj.len() - 1][k].0 < n);
        }
    }
}

/// A CSR graph with node and edge properties and a room per node.
pub struct Graph {
    num_nodes: usize,
    row_ptr: Vec<usize>,
    col_idx: Vec<NodeId>,
    node_props: Vec<NodeProps>,
    edge_props: Vec<EdgeProps>,
    room_map: Vec<RoomId>,
}

impl View for Graph {
    type V = GraphView;

    closed spec fn view(&self) -> GraphView {
        GraphView {
            num_nodes: self.num_nodes as nat,
            row_ptr: self.row_ptr@,
            col_idx: self.col_idx@,
            node_props: self.node_props@,
            edge_props: self.edge_props@,
            room_map: self.room_map@,
        }
    }
}

/// Moving a node to a room is read back as that node's room; every other
/// node keeps its room, and the graph stays well-formed.
pub proof fn lemma_room_read_back(g: GraphView, u: int, room: RoomId, v: int)
    requires
        g.valid(),
        0 <= u < g.num_nodes,
        0 <= v < g.num_nodes,
    ensures
        g.with_room(u, room).valid(),
        g.with_room(u, room).num_nodes == g.num_nodes,
        g.with_room(u, room).room_map[v] == (if v == u {
            room
        } else {
            g.room_map[v]
        }),
{
}

/// Setting a node's properties is read back as that node's properties; every
/// other node keeps its own, and the graph stays well-formed.
pub proof fn lemma_node_props_read_back(g: GraphView, u: int, props: NodeProps, v: int)
    requires
        g.valid(),
        0 <= u < g.num_nodes,
        0 <= v < g.num_nodes,
    ensures
        g.with_node_props(u, props).valid(),
        g.with_node_props(u, props).node_props[v] == (if v == u {
            props
        } else {
            g.node_props[v]
        }),
        g.with_node_props(u, props).out_edges(v) == g.out_edges(v),
{
}

/// From `monotone`, each row pointer lies between 0 and the last one.
pub proof fn lemma_row_bounds(v: GraphView, u: int)
    requires
        v.valid(),
        0 <= u < v.num_nodes,
    ensures
        0 <= v.start(u) <= v.end(u) <= v.col_idx.len(),
        v.out_edges(u).len() == v.end(u) - v.start(u),
{
    assert(v.row_ptr[u] <= v.row_ptr[u + 1]);
    assert(v.row_ptr[u + 1] <= v.row_ptr[v.num_nodes as int]);
}

impl Graph {
    /// Creates an edgeless graph with `num_nodes` nodes, all with default
    /// properties and in room 0. Fails with `InvalidSize` when `num_nodes` is 0
    /// or exceeds `MAX_NODES`.
    pub fn new(num_nodes: usize) -> (r: Result<Graph, GraphError>)
        ensures
            num_nodes == 0 || num_nodes > MAX_NODES <==> r matches Err(GraphError::InvalidSize(_)),
            r is Ok ==> {
                let g = r->Ok_0@;
                &&& g.valid()
                &&& g.num_nodes == num_nodes
                &&& g.row_ptr == Seq::new(num_nodes as nat + 1, |i: int| 0usize)
                &&& g.col_idx.len() == 0
                &&& g.edge_props.len() == 0
                &&& g.node_props == Seq::new(num_nodes as nat, |i: int| NodeProps {
                    reflection_bits: DEFAULT_REFLECTION_BITS,
                    refraction_index_bits: ONE_BITS,
                })
                &&& g.room_map == Seq::new(num_nodes as nat, |i: int| 0u32)
            },
    {
        if num_nodes == 0 {
            return Err(GraphError::InvalidSize("num_nodes must be > 0".to_string()));
        }
        if num_nodes > MAX_NODES {
            return Err(GraphError::InvalidSize(fmt_two_usize("num_nodes ", num_nodes, " exceeds maximum ", MAX_NODES, "")));
        }
        let row_ptr: Vec<usize> = vec![0usize; num_nodes + 1];
        let node_props: Vec<NodeProps> = vec![NodeProps::default(); num_nodes];
        let room_map: Vec<RoomId> = vec![0u32; num_nodes];
        let g = Graph {
            num_nodes,
            row_ptr,
            col_idx: Vec::new(),
            node_props,
            edge_props: Vec::new(),
            room_map,
        };
        assert(g@.row_ptr =~= Seq::new(num_nodes as nat + 1, |i: int| 0usize));
        assert(g@.node_props =~= Seq::new(num_nodes as nat, |i: int| NodeProps {
            reflection_bits: DEFAULT_REFLECTION_BITS,
            refraction_index_bits: ONE_BITS,
        }));
        assert(g@.room_map =~= Seq::new(num_nodes as nat, |i: int| 0u32));
        Ok(g)
    }

    /// The checks of `validate` on raw CSR parts, in the order `validate` makes
    /// them. Every failure is a `CorruptedStructure`.
    pub(crate) fn check_csr(
        num_nodes: usize,
        row_ptr: &Vec<usize>,
        col_idx: &Vec<NodeId>,
        edge_props_len: usize,
        room_map_len: usize,
    ) -> (r: Result<(), GraphError>)
        requires
            row_ptr@.len() == num_nodes + 1,
        ensures
            r is Ok <==> csr_valid(
                num_nodes as nat,
                row_ptr@,
                col_idx@,
                edge_props_len as nat,
                room_map_len as nat,
            ),
            r matches Err(e) ==> e is CorruptedStructure,
            r matches Err(GraphError::CorruptedStructure(s)) ==> s@ == csr_failure(
                num_nodes as nat,
                row_ptr@,
                col_idx@,
                edge_props_len as nat,
                room_map_len as nat,
            ),
    {
        proof {
            reveal_strlit("");
        }
        let mut i: usize = 0;
        while i < num_nodes
            invariant
                i <= num_nodes,
                row_ptr@.len() == num_nodes + 1,
                monotone(row_ptr@, i as nat),
            decreases num_nodes - i,
        {
            if row_ptr[i] > row_ptr[i + 1] {
                proof {
                    lemma_first_descent_skip(row_ptr@, num_nodes as nat, 0, i as nat);
                }
                let m = fmt_usize_between("row_ptr not monotonic at index ", i, "");
                proof {
                    reveal_strlit("");
                    assert(m@ =~= "row_ptr not monotonic at index "@ + decimal(i as nat));
                }
                return Err(GraphError::CorruptedStructure(m));
            }
            assert forall|a: int, b: int| 0 <= a <= b <= i + 1 implies #[trigger] row_ptr@[a]
                <= #[trigger] row_ptr@[b] by {
                if b == i + 1 && a <= i {
                    assert(row_ptr@[a] <= row_ptr@[i as int]);
                }
            }
            i = i + 1;
        }
        proof {
            lemma_first_descent_skip(row_ptr@, num_nodes as nat, 0, num_nodes as nat);
        }
        if row_ptr[0] != 0 {
            return Err(GraphError::CorruptedStructure("row_ptr[0] must be 0".to_string()));
        }
        if row_ptr[num_nodes] != col_idx.len() {
            return Err(GraphError::CorruptedStructure(fmt_three_usize(
                "row_ptr[",
                num_nodes,
                "] = ",
                row_ptr[num_nodes],
                " but col_idx.len() = ",
                col_idx.len(),
            )));
        }
        let mut k: usize = 0;
        while k < col_idx.len()
            invariant
                k <= col_idx@.len(),
                forall|j: int| 0 <= j < k ==> #[trigger] col_idx@[j] < num_nodes,
                row_ptr@.len() == num_nodes + 1,
                first_descent(row_ptr@, num_nodes as nat, 0) == num_nodes,
                row_ptr@[0] == 0,
                row_ptr@[num_nodes as int] == col_idx@.len(),
            decreases col_idx@.len() - k,
        {
            let node_idx = node_id_to_usize(col_idx[k]);
            let node_idx = match node_idx {
                Ok(x) => x,
                Err(e) => return Err(GraphError::CorruptedStructure("invalid node id".to_string())),
            };
            if node_idx >= num_nodes {
                proof {
                    lemma_first_bad_target_skip(col_idx@, num_nodes as nat, 0, k as nat);
                }
                let m = fmt_usize_between("Invalid node ID in edge: ", node_idx, "");
                proof {
                    reveal_strlit("");
                    assert(m@ =~= "Invalid node ID in edge: "@ + decimal(node_idx as nat));
                }
                return Err(GraphError::CorruptedStructure(m));
            }
            k = k + 1;
        }
        proof {
            lemma_first_bad_target_skip(col_idx@, num_nodes as nat, 0, col_idx@.len());
        }
        if room_map_len != num_nodes {
            let m = fmt_two_usize("room_map length ", room_map_len, " != num_nodes ", num_nodes, "");
            proof {
                assert(m@ =~= "room_map length "@ + decimal(room_map_len as nat) + " != num_nodes "@ + decimal(
                    num_nodes as nat,
                ));
            }
            return Err(GraphError::CorruptedStructure(m));
        }
        if edge_props_len != col_idx.len() {
            let m = fmt_two_usize("edge_props length ", edge_props_len, " != col_idx length ", col_idx.len(), "");
            proof {
                assert(m@ =~= "edge_props length "@ + decimal(edge_props_len as nat) + " != col_idx length "@
                    + decimal(col_idx@.len()));
            }
            return Err(GraphError::CorruptedStructure(m));
        }
        Ok(())
    }

    /// Validates the CSR structure: row pointers non-decreasing from 0 to the
    /// edge count, edge targets below the node count, and room map and edge
    /// properties of matching lengths. Fails with `CorruptedStructure` at the
    /// first check that does not hold. A graph made by this module's
    /// constructors is well formed, so for it this succeeds.
    pub fn validate(&self) -> (r: Result<(), GraphError>)
        requires
            self@.row_ptr.len() == self@.num_nodes + 1,
        ensures
            r is Ok <==> csr_valid(
                self@.num_nodes,
                self@.row_ptr,
                self@.col_idx,
                self@.edge_props.len(),
                self@.room_map.len(),
            ),
            r matches Err(e) ==> e is CorruptedStructure,
            self@.valid() ==> r is Ok,
    {
        Self::check_csr(
            self.num_nodes,
            &self.row_ptr,
            &self.col_idx,
            self.edge_props.len(),
            self.room_map.len(),
        )
    }

    /// Builds a graph from CSR parts. Fails with `InvalidSize` when `num_nodes`
    /// is 0 and with `CorruptedStructure` when the parts are inconsistent.
    pub fn from_csr(
        num_nodes: usize,
        row_ptr: Vec<usize>,
        col_idx: Vec<NodeId>,
        node_props: Vec<NodeProps>,
        edge_props: Vec<EdgeProps>,
        room_map: Vec<RoomId>,
    ) -> (r: Result<Graph, GraphError>)
        ensures
            num_nodes == 0 || num_nodes > node_id_range() <==> r matches Err(
                GraphError::InvalidSize(_),
            ),
            r is Ok <==> parts_view(num_nodes, row_ptr@, col_idx@, node_props@, edge_props@, room_map@).valid(),
            r matches Err(e) ==> e is InvalidSize || e is CorruptedStructure,
            r matches Err(e) ==> e.message() == from_csr_message(
                num_nodes,
                row_ptr@,
                col_idx@,
                node_props@.len(),
                edge_props@.len(),
                room_map@.len(),
            ),
            r is Ok ==> r->Ok_0@ == parts_view(num_nodes, row_ptr@, col_idx@, node_props@, edge_props@, room_map@),
    {
        proof {
            reveal_strlit("");
        }
        if num_nodes == 0 {
            return Err(GraphError::InvalidSize("num_nodes must be > 0".to_string()));
        }
        if num_nodes - 1 > u32::MAX as usize {
            return Err(GraphError::InvalidSize(fmt_two_usize("Value ", num_nodes - 1, " exceeds NodeId::MAX (", u32::MAX as usize, ")")));
        }
        if row_ptr.len() == 0 || row_ptr.len() - 1 != num_nodes {
            return Err(GraphError::CorruptedStructure(fmt_two_usize(
                "row_ptr length ",
                row_ptr.len(),
                " != num_nodes + 1 (",
                num_nodes.wrapping_add(1),
                ")",
            )));
        }
        if col_idx.len() != edge_props.len() {
            return Err(GraphError::CorruptedStructure(fmt_two_usize(
                "col_idx length ",
                col_idx.len(),
                " != edge_props length ",
                edge_props.len(),
                "",
            )));
        }
        if node_props.len() != num_nodes {
            return Err(GraphError::CorruptedStructure(fmt_two_usize(
                "node_props length ",
                node_props.len(),
                " != num_nodes ",
                num_nodes,
                "",
            )));
        }
        if room_map.len() != num_nodes {
            return Err(GraphError::CorruptedStructure(fmt_two_usize(
                "room_map length ",
                room_map.len(),
                " != num_nodes ",
                num_nodes,
                "",
            )));
        }
        match Self::check_csr(num_nodes, &row_ptr, &col_idx, edge_props.len(), room_map.len()) {
            Ok(()) => {},
            Err(e) => return Err(e),
        }
        Ok(Graph { num_nodes, row_ptr, col_idx, node_props, edge_props, room_map })
    }

    /// Builds a graph from an adjacency list of `(neighbor, edge properties)`
    /// per node; every node gets `default_node_props` and room 0.
    ///
    /// Fails with `InvalidSize` when `num_nodes` is 0 or the total edge count
    /// exceeds `MAX_EDGES`, with `AdjacencyLengthMismatch` when `adj` does not
    /// have `num_nodes` entries, and with `CorruptedStructure` when a neighbor id
    /// is not a node.
    pub fn from_adjacency(
        num_nodes: usize,
        adj: Vec<Vec<(NodeId, EdgeProps)>>,
        default_node_props: NodeProps,
    ) -> (r: Result<Graph, GraphError>)
        ensures
            num_nodes == 0 ==> r matches Err(GraphError::InvalidSize(_)),
            num_nodes > node_id_range() ==> r matches Err(GraphError::InvalidSize(_)),
            num_nodes != 0 && num_nodes <= node_id_range() && num_nodes != adj@.len() ==> (r matches Err(
                GraphError::AdjacencyLengthMismatch(a, b),
            ) && a == num_nodes && b == adj@.len()),
            num_nodes != 0 && num_nodes <= node_id_range() && num_nodes == adj@.len() && total_edges(
                adj_view(adj@),
            ) > MAX_EDGES
                ==> r matches Err(GraphError::InvalidSize(_)),
            num_nodes != 0 && num_nodes <= node_id_range() && num_nodes == adj@.len() && total_edges(
                adj_view(adj@),
            ) <= MAX_EDGES
                ==> (r is Ok <==> adjacency_in_range(adj_view(adj@), num_nodes as nat)),
            r matches Err(e) ==> (e is InvalidSize || e is AdjacencyLengthMismatch
                || e is CorruptedStructure),
            r is Ok ==> r->Ok_0@ == adjacency_view(adj_view(adj@), default_node_props),
            r is Ok ==> r->Ok_0@.valid(),
    {
        if num_nodes == 0 {
            return Err(GraphError::InvalidSize("num_nodes must be > 0".to_string()));
        }
        if num_nodes - 1 > u32::MAX as usize {
            return Err(GraphError::InvalidSize(fmt_two_usize("Value ", num_nodes - 1, " exceeds NodeId::MAX (", u32::MAX as usize, ")")));
        }
        if num_nodes != adj.len() {
            return Err(GraphError::AdjacencyLengthMismatch(num_nodes, adj.len()));
        }
        let ghost av = adj_view(adj@);
        // Total edge count, stopping as soon as it exceeds the maximum.
        let mut total: usize = 0;
        let mut i: usize = 0;
        while i < adj.len()
            invariant
                i <= adj@.len(),
                av == adj_view(adj@),
                av.len() == adj@.len(),
                total == total_edges(av.subrange(0, i as int)),
                num_nodes == adj@.len(),
                total <= MAX_EDGES,
            decreases adj@.len() - i,
        {
            proof {
                lemma_subrange_step(av, i as int);
            }
            if adj[i].len() > MAX_EDGES - total {
                proof {
                    lemma_total_edges_prefix_le(av, (i + 1) as int);
                }
                return Err(GraphError::InvalidSize(fmt_two_usize(
                    "Total edges ",
                    total.saturating_add(adj[i].len()),
                    " exceeds maximum ",
                    MAX_EDGES,
                    "",
                )));
            }
            total = total + adj[i].len();
            i = i + 1;
        }
        proof {
            assert(av.subrange(0, av.len() as int) =~= av);
        }
        let mut row_ptr: Vec<usize> = Vec::new();
        row_ptr.push(0);
        let mut col_idx: Vec<NodeId> = Vec::new();
        let mut edge_props: Vec<EdgeProps> = Vec::new();
        let mut u: usize = 0;
        while u < adj.len()
            invariant
                u <= adj@.len(),
                adj@.len() == num_nodes,
                num_nodes > 0,
                av == adj_view(adj@),
                av.len() == adj@.len(),
                total_edges(av) <= MAX_EDGES,
                col_idx@ == flatten_targets(av.subrange(0, u as int)),
                edge_props@ == flatten_props(av.subrange(0, u as int)),
                row_ptr@ == prefix_counts(av).subrange(0, u + 1),
                adjacency_in_range(av.subrange(0, u as int), num_nodes as nat),
            decreases adj@.len() - u,
        {
            proof {
                lemma_subrange_step(av, u as int);
                lemma_flatten_lens(av.subrange(0, u as int));
                lemma_total_edges_prefix_le(av, (u + 1) as int);
            }
            let neighbors = &adj[u];
            let mut k: usize = 0;
            while k < neighbors.len()
                invariant
                    k <= neighbors@.len(),
                    u < adj@.len(),
                    neighbors@ == adj@[u as int]@,
                    adj@.len() == num_nodes,
                    total_edges(av) <= MAX_EDGES,
                    av == adj_view(adj@),
                    col_idx@ == flatten_targets(av.subrange(0, u as int)) + neighbors@.subrange(
                        0,
                        k as int,
                    ).map_values(|p: (NodeId, EdgeProps)| p.0),
                    edge_props@ == flatten_props(av.subrange(0, u as int)) + neighbors@.subrange(
                        0,
                        k as int,
                    ).map_values(|p: (NodeId, EdgeProps)| p.1),
                    forall|j: int| 0 <= j < k ==> (#[trigger] neighbors@[j]).0 < num_nodes,
                decreases neighbors@.len() - k,
            {
                let (v, ep) = neighbors[k];
                let v_idx = match node_id_to_usize(v) {
                    Ok(x) => x,
                    Err(e) => return Err(e),
                };
                if v_idx >= num_nodes {
                    proof {
                        assert(av[u as int][k as int] == neighbors@[k as int]);
                    }
                    return Err(GraphError::CorruptedStructure(fmt_two_usize(
                        "Invalid neighbor node ID ",
                        v_idx,
                        " in adjacency list for node ",
                        u,
                        "",
                    )));
                }
                col_idx.push(v);
                edge_props.push(ep);
                proof {
                    assert(neighbors@.subrange(0, k + 1).map_values(|p: (NodeId, EdgeProps)| p.0)
                        =~= neighbors@.subrange(0, k as int).map_values(
                        |p: (NodeId, EdgeProps)| p.0,
                    ).push(v));
                    assert(neighbors@.subrange(0, k + 1).map_values(|p: (NodeId, EdgeProps)| p.1)
                        =~= neighbors@.subrange(0, k as int).map_values(
                        |p: (NodeId, EdgeProps)| p.1,
                    ).push(ep));
                }
                k = k + 1;
            }
            proof {
                assert(neighbors@.subrange(0, neighbors@.len() as int) =~= neighbors@);
                assert(av[u as int] == neighbors@);
                lemma_flatten_lens(av.subrange(0, u + 1));
                assert(adjacency_in_range(av.subrange(0, u + 1), num_nodes as nat)) by {
                    assert forall|x: int, y: int|
                        0 <= x < av.subrange(0, u + 1).len() && 0 <= y < av.subrange(
                            0,
                            u + 1,
                        )[x].len() implies (#[trigger] av.subrange(0, u + 1)[x][y]).0
                        < num_nodes by {
                        if x < u {
                            assert(av.subrange(0, u + 1)[x] == av.subrange(0, u as int)[x]);
                        } else {
                            assert(av.subrange(0, u + 1)[x] == neighbors@);
                        }
                    }
                }
            }
            row_ptr.push(col_idx.len());
            proof {
                assert(row_ptr@ =~= prefix_counts(av).subrange(0, u + 2));
            }
            u = u + 1;
        }
        proof {
            assert(av.subrange(0, av.len() as int) =~= av);
        }
        let node_props: Vec<NodeProps> = vec![default_node_props; num_nodes];
        let room_map: Vec<RoomId> = vec![0u32; num_nodes];
        proof {
            lemma_prefix_counts_monotone(av);
            lemma_flatten_lens(av);
            assert(row_ptr@ =~= prefix_counts(av));
            assert(node_props@ =~= Seq::new(num_nodes as nat, |i: int| default_node_props));
            assert(room_map@ =~= Seq::new(num_nodes as nat, |i: int| 0u32));
            assert(targets_in_range(col_idx@, num_nodes as nat)) by {
                lemma_flatten_targets_in_range(av, num_nodes as nat);
            }
        }
        let ghost row_ptr_view = row_ptr@;
        let ghost col_view = col_idx@;
        let edges_len = edge_props.len();
        let rooms_len = room_map.len();
        match Self::check_csr(num_nodes, &row_ptr, &col_idx, edges_len, rooms_len) {
            Ok(()) => {},
            Err(e) => return Err(e),
        }
        Ok(Graph { num_nodes, row_ptr, col_idx, node_props, edge_props, room_map })
    }

    /// The out-edges of `u` as `(neighbor, edge properties)`, in CSR order.
    /// `u` must be a node.
    pub fn neighbors(&self, u: NodeId) -> (r: Vec<(NodeId, EdgeProps)>)
        requires
            self@.valid(),
            u < self@.num_nodes,
        ensures
            r@ == self@.out_edges(u as int),
    {
        proof {
            lemma_row_bounds(self@, u as int);
        }
        let idx = u as usize;
        let start = self.row_ptr[idx];
        let end = self.row_ptr[idx + 1];
        let mut out: Vec<(NodeId, EdgeProps)> = Vec::new();
        let mut k = start;
        while k < end
            invariant
                start <= k <= end,
                end <= self.col_idx@.len(),
                self.col_idx@.len() == self.edge_props@.len(),
                start == self@.start(u as int),
                end == self@.end(u as int),
                out@ =~= self@.out_edges(u as int).subrange(0, k - start),
            decreases end - k,
        {
            out.push((self.col_idx[k], self.edge_props[k]));
            k = k + 1;
        }
        out
    }

    /// Properties of edge `(u, v)`: those of the first out-edge of `u` that
    /// reaches `v`. `None` when `u` is not a node or there is no such edge.
    pub fn get_edge(&self, u: NodeId, v: NodeId) -> (r: Option<&EdgeProps>)
        requires
            self@.valid(),
        ensures
            r is Some <==> (u < self@.num_nodes && self@.has_edge(u as int, v as int)),
            r matches Some(e) ==> exists|k: int|
                #![trigger self@.edge_props[k]]
                self@.start(u as int) <= k < self@.end(u as int) && self@.col_idx[k] == v
                    && *e == self@.edge_props[k] && forall|j: int|
                    self@.start(u as int) <= j < k ==> self@.col_idx[j] != v,
    {
        let u_idx = match node_id_to_usize(u) {
            Ok(idx) => idx,
            Err(_) => return None,
        };
        if u_idx >= self.num_nodes {
            return None;
        }
        proof {
            lemma_row_bounds(self@, u as int);
        }
        let start = self.row_ptr[u_idx];
        let end = self.row_ptr[u_idx + 1];
        let mut k = start;
        while k < end
            invariant
                start <= k <= end,
                end <= self.col_idx@.len(),
                self.col_idx@.len() == self.edge_props@.len(),
                start == self@.start(u as int),
                end == self@.end(u as int),
                forall|j: int| start <= j < k ==> self@.col_idx[j] != v,
                u < self@.num_nodes,
            decreases end - k,
        {
            if self.col_idx[k] == v {
                proof {
                    assert(self@.col_idx[k as int] == v);
                    assert(self@.start(u as int) <= k < self@.end(u as int));
                    assert(self@.has_edge(u as int, v as int));
                    assert(self@.edge_props[k as int] == self.edge_props@[k as int]);
                }
                return Some(&self.edge_props[k]);
            }
            k = k + 1;
        }
        None
    }

    /// Sets the properties of node `u`; fails with `InvalidNodeId(u, num_nodes)`
    /// when `u` is not a node.
    pub fn set_node_props(&mut self, u: NodeId, props: NodeProps) -> (r: Result<(), GraphError>)
        requires
            old(self)@.valid(),
        ensures
            final(self)@.valid(),
            u < old(self)@.num_nodes ==> r is Ok && final(self)@ == old(self)@.with_node_props(u as int, props),
            u >= old(self)@.num_nodes ==> (r matches Err(GraphError::InvalidNodeId(a, b)) && a
                == u && b == old(self)@.num_nodes) && final(self)@ == old(self)@,
    {
        let idx = u as usize;
        if idx >= self.num_nodes {
            return Err(GraphError::InvalidNodeId(u, self.num_nodes));
        }
        self.node_props.set(idx, props);
        Ok(())
    }

    /// Assigns node `u` to `room`; fails with `InvalidNodeId(u, num_nodes)` when
    /// `u` is not a node.
    pub fn set_room(&mut self, u: NodeId, room: RoomId) -> (r: Result<(), GraphError>)
        requires
            old(self)@.valid(),
        ensures
            final(self)@.valid(),
            u < old(self)@.num_nodes ==> r is Ok && final(self)@ == old(self)@.with_room(u as int, room),
            u >= old(self)@.num_nodes ==> (r matches Err(GraphError::InvalidNodeId(a, b)) && a
                == u && b == old(self)@.num_nodes) && final(self)@ == old(self)@,
    {
        let idx = u as usize;
        if idx >= self.num_nodes {
            return Err(GraphError::InvalidNodeId(u, self.num_nodes));
        }
        self.room_map.set(idx, room);
        Ok(())
    }

    /// Room of node `u`; fails with `InvalidNodeId(u, num_nodes)` when `u` is
    /// not a node.
    pub fn get_room(&self, u: NodeId) -> (r: Result<RoomId, GraphError>)
        requires
            self@.valid(),
        ensures
            u < self@.num_nodes ==> (r matches Ok(x) && x == self@.room_map[u as int]),
            u >= self@.num_nodes ==> (r matches Err(GraphError::InvalidNodeId(a, b)) && a == u
                && b == self@.num_nodes),
    {
        let idx = u as usize;
        if idx >= self.room_map.len() {
            return Err(GraphError::InvalidNodeId(u, self.num_nodes));
        }
        Ok(self.room_map[idx])
    }

    /// Number of nodes.
    pub fn num_nodes(&self) -> (n: usize)
        ensures
            n == self@.num_nodes,
    {
        self.num_nodes
    }

    /// Number of edges.
    pub fn num_edges(&self) -> (n: usize)
        ensures
            n == self@.col_idx.len(),
    {
        self.col_idx.len()
    }

    /// Row pointers.
    pub fn row_ptr(&self) -> (s: &[usize])
        ensures
            s@ == self@.row_ptr,
    {
        self.row_ptr.as_slice()
    }

    /// Column indices (edge targets).
    pub fn col_idx(&self) -> (s: &[NodeId])
        ensures
            s@ == self@.col_idx,
    {
        self.col_idx.as_slice()
    }

    /// Node properties.
    pub fn node_props(&self) -> (s: &[NodeProps])
        ensures
            s@ == self@.node_props,
    {
        self.node_props.as_slice()
    }

    /// Edge properties, aligned with `col_idx`.
    pub fn edge_props(&self) -> (s: &[EdgeProps])
        ensures
            s@ == self@.edge_props,
    {
        self.edge_props.as_slice()
    }

    /// Room of each node.
    pub fn room_map(&self) -> (s: &[RoomId])
        ensures
            s@ == self@.room_map,
    {
        self.room_map.as_slice()
    }
}

} // verus!
