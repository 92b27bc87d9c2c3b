//! Version 1 of the level file format (angle-bin model): the sections after
//! the 64-byte header, their reader and their writer.
//!
//! At the offsets the header gives, little-endian: the node section, one
//! 16-byte record per node (luminance, reflection and refraction index as
//! `f32` bits, default angle bin, 3 pad bytes); the edge section, holding the
//! row pointers and column indices as `u32`s, one 8-byte record per edge
//! (attenuation as `f32` bits, angle bin, portal flag, 2 pad bytes), and the
//! room map as a count and `u32` ids; the rooms section, a count and one
//! 12-byte record (id, node start, node count) per room; the PVS section, a
//! `u32` count of stored visibility sets. Sets are not stored: the count is 0
//! and the reader gives back an empty PVS of the header's dimensions.

use vstd::prelude::*;
use crate::bytes::{le32, le64, read_u32_le, push_u32_le, u32_at, u64_at, lemma_le_lengths, lemma_u32_roundtrip};
use crate::graph::{csr_valid, parts_failure, Graph, NodeId, RoomId, N_ANGLE_BINS};
use crate::error::GraphError;
use crate::legacy_level::{
    LevelFileError, LevelHeader, header_bytes, header_at, header_acceptable, lemma_header_roundtrip, magic,
    count_message,
    VERSION, MAX_NODES, MAX_EDGES, MAX_ROOMS,
};
use crate::level_file::{
    concat_map, lemma_concat_map_push, ptrs_at, u32s_at, rooms_at, index_of_rooms, room_ids, ptr_rec,
    u32_rec, room_rec, put_ptrs, put_u32s, put_rooms, read_ptrs, read_u32s, read_rooms, build_room_index,
    unexpected_eof, lemma_concat_fixed, lemma_record_window, lemma_u32_window, lemma_u32_field,
    lemma_windows3, lemma_read_back_ptrs, lemma_read_back_u32s, lemma_read_back_rooms, MAX_FILE_SIZE,
};
use crate::messages::{decimal, fmt_prefixed, fmt_two_usize};
use crate::pvs::PVS;
use crate::rooms::{Room, RoomCollection, max_of};

verus! {

/// A node record of the angle-bin model; `f32` values held as their bits.
#[derive(Debug, Clone, Copy, PartialEq, Eq, Structural)]
pub struct NodeRecord {
    /// Intrinsic emission.
    pub luminance_bits: u32,
    /// Fraction of incoming intensity that gets re-emitted.
    pub reflection_bits: u32,
    /// How strongly direction changes are penalized.
    pub refraction_index_bits: u32,
    /// Default angle bin of the node.
    pub default_angle_bin: u8,
}

/// An edge record of the angle-bin model.
#[derive(Debug, Clone, Copy, PartialEq, Eq, Structural)]
pub struct EdgeRecord {
    /// Fraction of intensity lost along the edge (`f32` bits).
    pub attenuation_bits: u32,
    /// Direction bin of the relationship.
    pub angle_bin: u8,
    /// Whether the edge crosses a room boundary.
    pub is_portal: bool,
}

/// The graph of a version 1 level file: CSR topology, node and edge records
/// and the room map.
pub struct LevelGraph {
    num_nodes: usize,
    row_ptr: Vec<usize>,
    col_idx: Vec<NodeId>,
    node_props: Vec<NodeRecord>,
    edge_props: Vec<EdgeRecord>,
    room_map: Vec<RoomId>,
}

/// The abstract content of a `LevelGraph`.
pub struct LevelGraphView {
    pub num_nodes: nat,
    pub row_ptr: Seq<usize>,
    pub col_idx: Seq<NodeId>,
    pub node_props: Seq<NodeRecord>,
    pub edge_props: Seq<EdgeRecord>,
    pub room_map: Seq<RoomId>,
}

impl LevelGraphView {
    /// At least one node, one record per node, and the CSR checks of
    /// `Graph::validate`.
    pub open spec fn valid(self) -> bool {
        &&& self.num_nodes > 0
        &&& self.node_props.len() == self.num_nodes
        &&& csr_valid(self.num_nodes, self.row_ptr, self.col_idx, self.edge_props.len(), self.room_map.len())
    }
}

/// The view of CSR parts.
pub open spec fn level_view(
    num_nodes: usize,
    row_ptr: Seq<usize>,
    col_idx: Seq<NodeId>,
    node_props: Seq<NodeRecord>,
    edge_props: Seq<EdgeRecord>,
    room_map: Seq<RoomId>,
) -> LevelGraphView {
    LevelGraphView { num_nodes: num_nodes as nat, row_ptr, col_idx, node_props, edge_props, room_map }
}

/// The message of the error `LevelGraph::from_csr` returns for these parts.
pub open spec fn level_from_csr_message(
    n: usize,
    row_ptr: Seq<usize>,
    col_idx: Seq<NodeId>,
    node_props_len: nat,
    edge_props_len: nat,
    room_map_len: nat,
) -> Seq<char> {
    if n == 0 {
        "Invalid size: "@ + "num_nodes must be > 0"@
    } else {
        "Graph structure corrupted: "@ + parts_failure(
            n,
            row_ptr,
            col_idx,
            node_props_len,
            edge_props_len,
            room_map_len,
        )
    }
}

impl View for LevelGraph {
    type V = LevelGraphView;

    closed spec fn view(&self) -> LevelGraphView {
        level_view(
            self.num_nodes,
            self.row_ptr@,
            self.col_idx@,
            self.node_props@,
            self.edge_props@,
            self.room_map@,
        )
    }
}

impl LevelGraph {
    /// Builds a graph from CSR parts. Fails with `InvalidSize` when `num_nodes`
    /// is 0 and with `CorruptedStructure` when the parts are inconsistent.
    pub fn from_csr(
        num_nodes: usize,
        row_ptr: Vec<usize>,
        col_idx: Vec<NodeId>,
        node_props: Vec<NodeRecord>,
        edge_props: Vec<EdgeRecord>,
        room_map: Vec<RoomId>,
    ) -> (r: Result<LevelGraph, GraphError>)
        ensures
            num_nodes == 0 <==> r matches Err(GraphError::InvalidSize(_)),
            r is Ok <==> level_view(num_nodes, row_ptr@, col_idx@, node_props@, edge_props@, room_map@).valid(),
            r matches Err(e) ==> e is InvalidSize || e is CorruptedStructure,
            r matches Err(e) ==> e.message() == level_from_csr_message(
                num_nodes,
                row_ptr@,
                col_idx@,
                node_props@.len(),
                edge_props@.len(),
                room_map@.len(),
            ),
            r matches Ok(g) ==> g@ == level_view(num_nodes, row_ptr@, col_idx@, node_props@, edge_props@, room_map@),
    {
        proof {
            reveal_strlit("");
        }
        if num_nodes == 0 {
            return Err(GraphError::InvalidSize("num_nodes must be > 0".to_string()));
        }
        if row_ptr.len() == 0 || row_ptr.len() - 1 != num_nodes {
            return Err(GraphError::CorruptedStructure(fmt_two_usize(
                "row_ptr length ",
                row_ptr.len(),
                " != num_nodes + 1 (",
                num_nodes.wrapping_add(1),
                ")",
            )));
        }
        if col_idx.len() != edge_props.len() {
            return Err(GraphError::CorruptedStructure(fmt_two_usize(
                "col_idx length ",
                col_idx.len(),
                " != edge_props length ",
                edge_props.len(),
                "",
            )));
        }
        if node_props.len() != num_nodes {
            return Err(GraphError::CorruptedStructure(fmt_two_usize(
                "node_props length ",
                node_props.len(),
                " != num_nodes ",
                num_nodes,
                "",
            )));
        }
        if room_map.len() != num_nodes {
            return Err(GraphError::CorruptedStructure(fmt_two_usize(
                "room_map length ",
                room_map.len(),
                " != num_nodes ",
                num_nodes,
                "",
            )));
        }
        match Graph::check_csr(num_nodes, &row_ptr, &col_idx, edge_props.len(), room_map.len()) {
            Ok(()) => {},
            Err(e) => return Err(e),
        }
        Ok(LevelGraph { num_nodes, row_ptr, col_idx, node_props, edge_props, room_map })
    }

    /// Number of nodes.
    pub fn num_nodes(&self) -> (r: usize)
        ensures
            r == self@.num_nodes,
    {
        self.num_nodes
    }

    /// The CSR row pointers.
    pub fn row_ptr(&self) -> (r: &[usize])
        ensures
            r@ == self@.row_ptr,
    {
        self.row_ptr.as_slice()
    }

    /// The CSR column indices.
    pub fn col_idx(&self) -> (r: &[NodeId])
        ensures
            r@ == self@.col_idx,
    {
        self.col_idx.as_slice()
    }

    /// The node records.
    pub fn node_props(&self) -> (r: &[NodeRecord])
        ensures
            r@ == self@.node_props,
    {
        self.node_props.as_slice()
    }

    /// The edge records.
    pub fn edge_props(&self) -> (r: &[EdgeRecord])
        ensures
            r@ == self@.edge_props,
    {
        self.edge_props.as_slice()
    }

    /// The room of each node.
    pub fn room_map(&self) -> (r: &[RoomId])
        ensures
            r@ == self@.room_map,
    {
        self.room_map.as_slice()
    }
}

/// `count` node records starting at `pos`.
pub open spec fn node_records_at(b: Seq<u8>, pos: int, count: nat) -> Seq<NodeRecord> {
    Seq::new(
        count,
        |i: int|
            NodeRecord {
                luminance_bits: u32_at(b, pos + 16 * i),
                reflection_bits: u32_at(b, pos + 16 * i + 4),
                refraction_index_bits: u32_at(b, pos + 16 * i + 8),
                default_angle_bin: b[pos + 16 * i + 12],
            },
    )
}

/// `count` edge records starting at `pos`.
pub open spec fn edge_records_at(b: Seq<u8>, pos: int, count: nat) -> Seq<EdgeRecord> {
    Seq::new(
        count,
        |i: int|
            EdgeRecord {
                attenuation_bits: u32_at(b, pos + 8 * i),
                angle_bin: b[pos + 8 * i + 4],
                is_portal: b[pos + 8 * i + 5] != 0,
            },
    )
}

/// Reads `count` node records at `pos`.
fn read_node_records(b: &[u8], pos: usize, count: usize) -> (r: Vec<NodeRecord>)
    requires
        pos + 16 * count <= b@.len(),
    ensures
        r@ == node_records_at(b@, pos as int, count as nat),
{
    let mut r: Vec<NodeRecord> = Vec::new();
    let len = b.len();
    let mut i: usize = 0;
    while i < count
        invariant
            len == b@.len(),
            pos + 16 * count <= b@.len(),
            i <= count,
            r@ == node_records_at(b@, pos as int, i as nat),
        decreases count - i,
    {
        let at = pos + 16 * i;
        let luminance_bits = read_u32_le(b, at);
        let reflection_bits = read_u32_le(b, at + 4);
        let refraction_index_bits = read_u32_le(b, at + 8);
        let default_angle_bin = b[at + 12];
        r.push(NodeRecord { luminance_bits, reflection_bits, refraction_index_bits, default_angle_bin });
        i = i + 1;
        proof {
            assert(r@ =~= node_records_at(b@, pos as int, i as nat));
        }
    }
    r
}

/// Reads `count` edge records at `pos`.
fn read_edge_records(b: &[u8], pos: usize, count: usize) -> (r: Vec<EdgeRecord>)
    requires
        pos + 8 * count <= b@.len(),
    ensures
        r@ == edge_records_at(b@, pos as int, count as nat),
{
    let mut r: Vec<EdgeRecord> = Vec::new();
    let len = b.len();
    let mut i: usize = 0;
    while i < count
        invariant
            len == b@.len(),
            pos + 8 * count <= b@.len(),
            i <= count,
            r@ == edge_records_at(b@, pos as int, i as nat),
        decreases count - i,
    {
        let at = pos + 8 * i;
        let attenuation_bits = read_u32_le(b, at);
        let angle_bin = b[at + 4];
        let is_portal = b[at + 5] != 0;
        r.push(EdgeRecord { attenuation_bits, angle_bin, is_portal });
        i = i + 1;
        proof {
            assert(r@ =~= edge_records_at(b@, pos as int, i as nat));
        }
    }
    r
}

/// Node count of the header.
pub open spec fn v1_nodes(b: Seq<u8>) -> nat {
    u32_at(b, 8) as nat
}

/// Edge count of the header.
pub open spec fn v1_edges(b: Seq<u8>) -> nat {
    u32_at(b, 12) as nat
}

/// Offset of the node section.
pub open spec fn v1_node_off(b: Seq<u8>) -> int {
    u64_at(b, 24) as int
}

/// Offset of the edge section.
pub open spec fn v1_edge_off(b: Seq<u8>) -> int {
    u64_at(b, 32) as int
}

/// Offset of the rooms section.
pub open spec fn v1_rooms_off(b: Seq<u8>) -> int {
    u64_at(b, 40) as int
}

/// Offset of the PVS section.
pub open spec fn v1_pvs_off(b: Seq<u8>) -> int {
    u64_at(b, 48) as int
}

/// Position of the column indices in the edge section.
pub open spec fn v1_cols_pos(b: Seq<u8>) -> int {
    v1_edge_off(b) + 4 * (v1_nodes(b) + 1)
}

/// Position of the edge records.
pub open spec fn v1_recs_pos(b: Seq<u8>) -> int {
    v1_cols_pos(b) + 4 * v1_edges(b)
}

/// Position of the room map count.
pub open spec fn v1_map_pos(b: Seq<u8>) -> int {
    v1_recs_pos(b) + 8 * v1_edges(b)
}

/// Length of the room map.
pub open spec fn v1_map_len(b: Seq<u8>) -> nat {
    u32_at(b, v1_map_pos(b)) as nat
}

/// Number of rooms in the rooms section.
pub open spec fn v1_room_count(b: Seq<u8>) -> nat {
    u32_at(b, v1_rooms_off(b)) as nat
}

/// The file size is within bounds and the header is accepted: magic,
/// version 1, counts within their maxima, a non-zero angle bin count.
pub open spec fn v1_header_ok(b: Seq<u8>) -> bool {
    &&& 64 <= b.len() <= MAX_FILE_SIZE
    &&& b.subrange(0, 4) == magic()
    &&& u32_at(b, 4) == VERSION
    &&& u32_at(b, 8) <= MAX_NODES
    &&& u32_at(b, 12) <= MAX_EDGES
    &&& u32_at(b, 16) <= MAX_ROOMS
    &&& b[20] != 0
}

/// The section offsets lie within the file, in ascending order.
pub open spec fn v1_offsets_ok(b: Seq<u8>) -> bool {
    &&& v1_node_off(b) < b.len()
    &&& v1_edge_off(b) < b.len()
    &&& v1_rooms_off(b) < b.len()
    &&& v1_pvs_off(b) < b.len()
    &&& v1_node_off(b) < v1_edge_off(b) < v1_rooms_off(b) < v1_pvs_off(b)
}

/// The node records lie within the node section.
pub open spec fn v1_nodes_fit(b: Seq<u8>) -> bool {
    v1_node_off(b) + 16 * v1_nodes(b) <= v1_edge_off(b)
}

/// The CSR arrays, edge records and room map lie within the edge section.
pub open spec fn v1_edges_fit(b: Seq<u8>) -> bool {
    v1_map_pos(b) + 4 <= v1_rooms_off(b) && v1_map_pos(b) + 4 + 4 * v1_map_len(b) <= v1_rooms_off(b)
}

/// The room records lie within the file.
pub open spec fn v1_rooms_fit(b: Seq<u8>) -> bool {
    v1_rooms_off(b) + 4 <= b.len() && v1_rooms_off(b) + 4 + 12 * v1_room_count(b) <= b.len()
}

/// The graph stored in the node and edge sections.
pub open spec fn v1_graph(b: Seq<u8>) -> LevelGraphView {
    level_view(
        v1_nodes(b) as usize,
        ptrs_at(b, v1_edge_off(b), v1_nodes(b) + 1),
        u32s_at(b, v1_cols_pos(b), v1_edges(b)),
        node_records_at(b, v1_node_off(b), v1_nodes(b)),
        edge_records_at(b, v1_recs_pos(b), v1_edges(b)),
        u32s_at(b, v1_map_pos(b) + 4, v1_map_len(b)),
    )
}

/// The rooms stored in the rooms section.
pub open spec fn v1_rooms(b: Seq<u8>) -> Seq<Room> {
    rooms_at(b, v1_rooms_off(b) + 4, v1_room_count(b))
}

/// The message of the header check that fails first, after the magic and
/// the version: a count above its maximum or a zero angle bin count.
pub open spec fn v1_header_message(b: Seq<u8>) -> Seq<char> {
    if u32_at(b, 8) > MAX_NODES {
        count_message("Invalid num_nodes: "@, u32_at(b, 8), MAX_NODES)
    } else if u32_at(b, 12) > MAX_EDGES {
        count_message("Invalid num_edges: "@, u32_at(b, 12), MAX_EDGES)
    } else if u32_at(b, 16) > MAX_ROOMS {
        count_message("Invalid num_rooms: "@, u32_at(b, 16), MAX_ROOMS)
    } else {
        "Invalid num_angle_bins: "@ + decimal(0)
    }
}

/// The section offsets lie within the file.
pub open spec fn v1_offsets_in_file(b: Seq<u8>) -> bool {
    &&& v1_node_off(b) < b.len()
    &&& v1_edge_off(b) < b.len()
    &&& v1_rooms_off(b) < b.len()
    &&& v1_pvs_off(b) < b.len()
}

/// The message for a stored graph that `LevelGraph::from_csr` rejects.
pub open spec fn v1_graph_message(b: Seq<u8>) -> Seq<char> {
    let g = v1_graph(b);
    "Graph reconstruction failed: "@ + level_from_csr_message(
        g.num_nodes as usize,
        g.row_ptr,
        g.col_idx,
        g.node_props.len(),
        g.edge_props.len(),
        g.room_map.len(),
    )
}

/// Everything the reader checks holds of `b`.
pub open spec fn v1_accepts(b: Seq<u8>) -> bool {
    &&& v1_header_ok(b)
    &&& v1_offsets_ok(b)
    &&& v1_nodes_fit(b)
    &&& v1_edges_fit(b)
    &&& v1_graph(b).valid()
    &&& v1_rooms_fit(b)
}

/// Every room id of the rooms section is below `usize::MAX` (always so where
/// `usize` has 64 bits).
pub open spec fn v1_ids_fit(b: Seq<u8>) -> bool {
    v1_rooms_fit(b) ==> forall|k: int| 0 <= k < v1_rooms(b).len() ==> (#[trigger] v1_rooms(b)[k]).id < usize::MAX
}

/// The 16 bytes of a node record.
pub open spec fn node_record_bytes(p: NodeRecord) -> Seq<u8> {
    le32(p.luminance_bits) + le32(p.reflection_bits) + le32(p.refraction_index_bits) + seq![
        p.default_angle_bin,
        0u8,
        0u8,
        0u8,
    ]
}

/// The 8 bytes of an edge record.
pub open spec fn edge_record_bytes(e: EdgeRecord) -> Seq<u8> {
    le32(e.attenuation_bits) + seq![
        e.angle_bin,
        if e.is_portal {
            1u8
        } else {
            0u8
        },
        0u8,
        0u8,
    ]
}

/// Record maps of the node and edge records.
pub open spec fn node_record_rec() -> spec_fn(NodeRecord) -> Seq<u8> {
    |p: NodeRecord| node_record_bytes(p)
}

pub open spec fn edge_record_rec() -> spec_fn(EdgeRecord) -> Seq<u8> {
    |e: EdgeRecord| edge_record_bytes(e)
}

/// The edge section written for `g`: row pointers, column indices, edge
/// records and the room map.
pub open spec fn v1_edge_section(g: LevelGraphView) -> Seq<u8> {
    concat_map(g.row_ptr, ptr_rec()) + concat_map(g.col_idx, u32_rec()) + concat_map(
        g.edge_props,
        edge_record_rec(),
    ) + le32(g.room_map.len() as u32) + concat_map(g.room_map, u32_rec())
}

/// The header written for `g` and `rooms`.
pub open spec fn v1_header(g: LevelGraphView, rooms: Seq<Room>) -> LevelHeader {
    let edge_off = 64 + 16 * g.num_nodes;
    let rooms_off = edge_off + v1_edge_section(g).len();
    LevelHeader {
        magic: [0x52u8, 0x47u8, 0x44u8, 0x42u8],
        version: VERSION,
        num_nodes: g.num_nodes as u32,
        num_edges: g.col_idx.len() as u32,
        num_rooms: rooms.len() as u32,
        num_angle_bins: N_ANGLE_BINS as u8,
        padding: [0u8, 0u8, 0u8],
        node_section_offset: 64,
        edge_section_offset: edge_off as u64,
        rooms_section_offset: rooms_off as u64,
        pvs_section_offset: (rooms_off + 4 + 12 * rooms.len()) as u64,
        checksum: 0,
        reserved: [0u8, 0u8, 0u8, 0u8],
    }
}

/// The bytes of a version 1 level file holding `g` and `rooms`.
pub open spec fn level_v1_bytes(g: LevelGraphView, rooms: Seq<Room>) -> Seq<u8> {
    header_bytes(v1_header(g, rooms)) + concat_map(g.node_props, node_record_rec()) + v1_edge_section(g)
        + le32(rooms.len() as u32) + concat_map(rooms, room_rec()) + le32(0)
}

/// Appends node records.
fn put_node_records(out: &mut Vec<u8>, xs: &[NodeRecord])
    ensures
        final(out)@ == old(out)@ + concat_map(xs@, node_record_rec()),
{
    let ghost f = node_record_rec();
    let mut i: usize = 0;
    while i < xs.len()
        invariant
            f == node_record_rec(),
            i <= xs@.len(),
            out@ == old(out)@ + concat_map(xs@.subrange(0, i as int), f),
        decreases xs@.len() - i,
    {
        proof {
            lemma_concat_map_push(xs@, f, i as int);
        }
        let p = xs[i];
        push_u32_le(out, p.luminance_bits);
        push_u32_le(out, p.reflection_bits);
        push_u32_le(out, p.refraction_index_bits);
        out.push(p.default_angle_bin);
        out.push(0u8);
        out.push(0u8);
        out.push(0u8);
        i = i + 1;
        proof {
            assert(out@ =~= old(out)@ + concat_map(xs@.subrange(0, i as int), f));
        }
    }
    proof {
        assert(xs@.subrange(0, i as int) =~= xs@);
    }
}

/// Appends edge records.
fn put_edge_records(out: &mut Vec<u8>, xs: &[EdgeRecord])
    ensures
        final(out)@ == old(out)@ + concat_map(xs@, edge_record_rec()),
{
    let ghost f = edge_record_rec();
    let mut i: usize = 0;
    while i < xs.len()
        invariant
            f == edge_record_rec(),
            i <= xs@.len(),
            out@ == old(out)@ + concat_map(xs@.subrange(0, i as int), f),
        decreases xs@.len() - i,
    {
        proof {
            lemma_concat_map_push(xs@, f, i as int);
        }
        let e = xs[i];
        push_u32_le(out, e.attenuation_bits);
        out.push(e.angle_bin);
        out.push(if e.is_portal {
            1u8
        } else {
            0u8
        });
        out.push(0u8);
        out.push(0u8);
        i = i + 1;
        proof {
            assert(out@ =~= old(out)@ + concat_map(xs@.subrange(0, i as int), f));
        }
    }
    proof {
        assert(xs@.subrange(0, i as int) =~= xs@);
    }
}

/// Writes a version 1 level file holding `graph` and `rooms`: the header
/// (angle bin count `N_ANGLE_BINS`, offsets of the four sections), the node
/// section, the edge section with the room map, the rooms section and an
/// empty PVS section. The sets of `_pvs` are not stored.
pub fn encode_level_v1(graph: &LevelGraph, rooms: &RoomCollection, _pvs: &PVS) -> (r: Vec<u8>)
    requires
        graph@.valid(),
        graph@.num_nodes <= u32::MAX,
        graph@.col_idx.len() <= u32::MAX,
        rooms.rooms@.len() <= u32::MAX,
    ensures
        r@ == level_v1_bytes(graph@, rooms.rooms@),
{
    let ghost g = graph@;
    let n = graph.num_nodes;
    let e = graph.col_idx.len();
    let m = graph.room_map.len();
    let nr = rooms.rooms.len();
    proof {
        lemma_v1_edge_section_len(g);
    }
    let edge_off: u64 = 64 + 16 * (n as u64);
    let rooms_off: u64 = edge_off + 4 * (n as u64 + 1) + 12 * (e as u64) + 4 + 4 * (m as u64);
    let pvs_off: u64 = rooms_off + 4 + 12 * (nr as u64);
    let h = LevelHeader::new(n as u32, e as u32, nr as u32, N_ANGLE_BINS as u8, 64, edge_off, rooms_off, pvs_off);
    proof {
        let w = v1_header(g, rooms.rooms@);
        assert(h.magic@ =~= w.magic@);
        assert(h.padding@ =~= w.padding@);
        assert(h.reserved@ =~= w.reserved@);
        assert(h.magic == w.magic);
        assert(h.padding == w.padding);
        assert(h.reserved == w.reserved);
        assert(h == w);
    }
    let mut out = h.encode();
    put_node_records(&mut out, graph.node_props.as_slice());
    put_ptrs(&mut out, graph.row_ptr.as_slice());
    put_u32s(&mut out, graph.col_idx.as_slice());
    put_edge_records(&mut out, graph.edge_props.as_slice());
    push_u32_le(&mut out, m as u32);
    put_u32s(&mut out, graph.room_map.as_slice());
    push_u32_le(&mut out, nr as u32);
    put_rooms(&mut out, rooms.rooms.as_slice());
    push_u32_le(&mut out, 0);
    proof {
        assert(out@ =~= level_v1_bytes(g, rooms.rooms@));
    }
    out
}

/// The fields of a node record.
proof fn lemma_node_record_fields(p: NodeRecord)
    ensures
        node_record_bytes(p).len() == 16,
        u32_at(node_record_bytes(p), 0) == p.luminance_bits,
        u32_at(node_record_bytes(p), 4) == p.reflection_bits,
        u32_at(node_record_bytes(p), 8) == p.refraction_index_bits,
        node_record_bytes(p)[12] == p.default_angle_bin,
{
    lemma_le_lengths();
    let a = le32(p.luminance_bits);
    let c = le32(p.reflection_bits);
    let d = le32(p.refraction_index_bits);
    let t = seq![p.default_angle_bin, 0u8, 0u8, 0u8];
    lemma_u32_roundtrip(Seq::empty(), p.luminance_bits, c + d + t);
    assert(Seq::<u8>::empty() + a + (c + d + t) =~= node_record_bytes(p));
    lemma_u32_roundtrip(a, p.reflection_bits, d + t);
    assert(a + c + (d + t) =~= node_record_bytes(p));
    lemma_u32_roundtrip(a + c, p.refraction_index_bits, t);
    assert(a + c + d + t =~= node_record_bytes(p));
}

/// The fields of an edge record.
proof fn lemma_edge_record_fields(e: EdgeRecord)
    ensures
        edge_record_bytes(e).len() == 8,
        u32_at(edge_record_bytes(e), 0) == e.attenuation_bits,
        edge_record_bytes(e)[4] == e.angle_bin,
        (edge_record_bytes(e)[5] != 0) == e.is_portal,
{
    lemma_le_lengths();
    let t = seq![
        e.angle_bin,
        if e.is_portal {
            1u8
        } else {
            0u8
        },
        0u8,
        0u8,
    ];
    lemma_u32_roundtrip(Seq::empty(), e.attenuation_bits, t);
    assert(Seq::<u8>::empty() + le32(e.attenuation_bits) + t =~= edge_record_bytes(e));
}

/// Length of the edge section of a valid graph.
proof fn lemma_v1_edge_section_len(g: LevelGraphView)
    requires
        g.valid(),
    ensures
        v1_edge_section(g).len() == 4 * (g.num_nodes + 1) + 12 * g.col_idx.len() + 4 + 4 * g.room_map.len(),
        concat_map(g.node_props, node_record_rec()).len() == 16 * g.num_nodes,
{
    lemma_le_lengths();
    assert forall|x: NodeRecord| #[trigger] node_record_rec()(x).len() == 16 by {
        lemma_node_record_fields(x);
    }
    assert forall|x: EdgeRecord| #[trigger] edge_record_rec()(x).len() == 8 by {
        lemma_edge_record_fields(x);
    }
    lemma_concat_fixed(g.node_props, node_record_rec(), 16);
    lemma_concat_fixed(g.row_ptr, ptr_rec(), 4);
    lemma_concat_fixed(g.col_idx, u32_rec(), 4);
    lemma_concat_fixed(g.edge_props, edge_record_rec(), 8);
    lemma_concat_fixed(g.room_map, u32_rec(), 4);
}

/// A window of `b` equal to `w` reads the `u64`s of `w`.
proof fn lemma_u64_window(b: Seq<u8>, q: int, w: Seq<u8>, off: int)
    requires
        0 <= q,
        q + w.len() <= b.len(),
        b.subrange(q, q + w.len()) == w,
        0 <= off,
        off + 8 <= w.len(),
    ensures
        u64_at(b, q + off) == u64_at(w, off),
{
    assert(b.subrange(q + off, q + off + 8) =~= w.subrange(off, off + 8));
}

/// A section of node records reads back its values.
proof fn lemma_read_back_node_records(b: Seq<u8>, q: int, s: Seq<NodeRecord>)
    requires
        0 <= q,
        q + concat_map(s, node_record_rec()).len() <= b.len(),
        b.subrange(q, q + concat_map(s, node_record_rec()).len()) == concat_map(s, node_record_rec()),
    ensures
        node_records_at(b, q, s.len()) == s,
{
    assert forall|x: NodeRecord| #[trigger] node_record_rec()(x).len() == 16 by {
        lemma_node_record_fields(x);
    }
    lemma_concat_fixed(s, node_record_rec(), 16);
    assert forall|i: int| 0 <= i < s.len() implies #[trigger] node_records_at(b, q, s.len())[i] == s[i] by {
        lemma_record_window(b, q, s, node_record_rec(), 16, i);
        lemma_node_record_fields(s[i]);
        let w = node_record_bytes(s[i]);
        lemma_u32_window(b, q + 16 * i, w, 0);
        lemma_u32_window(b, q + 16 * i, w, 4);
        lemma_u32_window(b, q + 16 * i, w, 8);
        assert(b[q + 16 * i + 12] == b.subrange(q + 16 * i, q + 16 * i + 16)[12]);
    }
    assert(node_records_at(b, q, s.len()) =~= s);
}

/// A section of edge records reads back its values.
proof fn lemma_read_back_edge_records(b: Seq<u8>, q: int, s: Seq<EdgeRecord>)
    requires
        0 <= q,
        q + concat_map(s, edge_record_rec()).len() <= b.len(),
        b.subrange(q, q + concat_map(s, edge_record_rec()).len()) == concat_map(s, edge_record_rec()),
    ensures
        edge_records_at(b, q, s.len()) == s,
{
    assert forall|x: EdgeRecord| #[trigger] edge_record_rec()(x).len() == 8 by {
        lemma_edge_record_fields(x);
    }
    lemma_concat_fixed(s, edge_record_rec(), 8);
    assert forall|i: int| 0 <= i < s.len() implies #[trigger] edge_records_at(b, q, s.len())[i] == s[i] by {
        lemma_record_window(b, q, s, edge_record_rec(), 8, i);
        lemma_edge_record_fields(s[i]);
        lemma_u32_window(b, q + 8 * i, edge_record_bytes(s[i]), 0);
        assert(b[q + 8 * i + 4] == b.subrange(q + 8 * i, q + 8 * i + 8)[4]);
        assert(b[q + 8 * i + 5] == b.subrange(q + 8 * i, q + 8 * i + 8)[5]);
    }
    assert(edge_records_at(b, q, s.len()) =~= s);
}

/// What the reader finds in the bytes written for `g` and `rooms`: every check
/// passes, and the graph, rooms and PVS dimensions are those written.
pub open spec fn v1_reads_back(g: LevelGraphView, rooms: Seq<Room>, b: Seq<u8>) -> bool {
    &&& v1_accepts(b)
    &&& v1_ids_fit(b)
    &&& v1_graph(b) == g
    &&& v1_rooms(b) == rooms
    &&& u32_at(b, 16) == rooms.len()
    &&& b[20] == N_ANGLE_BINS
}

/// Six pieces laid one after the other are windows of their concatenation.
proof fn lemma_six_windows(a: Seq<u8>, c: Seq<u8>, d: Seq<u8>, f: Seq<u8>, h: Seq<u8>, k: Seq<u8>)
    ensures
        ({
            let b = a + c + d + f + h + k;
            let p1 = a.len() as int;
            let p2 = p1 + c.len();
            let p3 = p2 + d.len();
            let p4 = p3 + f.len();
            let p5 = p4 + h.len();
            &&& b.len() == p5 + k.len()
            &&& b.subrange(0, p1) == a
            &&& b.subrange(p1, p2) == c
            &&& b.subrange(p2, p3) == d
            &&& b.subrange(p3, p4) == f
            &&& b.subrange(p4, p5) == h
            &&& b.subrange(p5, p5 + k.len()) == k
        }),
{
    let b = a + c + d + f + h + k;
    let p1 = a.len() as int;
    let p2 = p1 + c.len();
    let p3 = p2 + d.len();
    let p4 = p3 + f.len();
    let p5 = p4 + h.len();
    assert(b.subrange(0, p1) =~= a);
    assert(b.subrange(p1, p2) =~= c);
    assert(b.subrange(p2, p3) =~= d);
    assert(b.subrange(p3, p4) =~= f);
    assert(b.subrange(p4, p5) =~= h);
    assert(b.subrange(p5, p5 + k.len()) =~= k);
}

/// The byte layout of a written file: the header and each section are
/// windows at the positions the header gives.
#[verifier::spinoff_prover]
proof fn lemma_v1_layout(g: LevelGraphView, rooms: Seq<Room>)
    requires
        g.valid(),
        g.num_nodes <= MAX_NODES,
        g.col_idx.len() <= MAX_EDGES,
        rooms.len() <= MAX_ROOMS,
    ensures
        ({
            let b = level_v1_bytes(g, rooms);
            let n = g.num_nodes as int;
            let e = g.col_idx.len() as int;
            let m = g.room_map.len() as int;
            let ep = 64 + 16 * n;
            let mp = ep + 4 * (n + 1) + 12 * e;
            let rp = mp + 4 + 4 * m;
            &&& b.len() == rp + 4 + 12 * rooms.len() + 4
            &&& b.subrange(0, 64) == header_bytes(v1_header(g, rooms))
            &&& b.subrange(64, ep) == concat_map(g.node_props, node_record_rec())
            &&& b.subrange(ep, ep + 4 * (n + 1)) == concat_map(g.row_ptr, ptr_rec())
            &&& b.subrange(ep + 4 * (n + 1), ep + 4 * (n + 1) + 4 * e) == concat_map(g.col_idx, u32_rec())
            &&& b.subrange(ep + 4 * (n + 1) + 4 * e, mp) == concat_map(g.edge_props, edge_record_rec())
            &&& u32_at(b, mp) == g.room_map.len() as u32
            &&& b.subrange(mp + 4, rp) == concat_map(g.room_map, u32_rec())
            &&& u32_at(b, rp) == rooms.len() as u32
            &&& b.subrange(rp + 4, rp + 4 + 12 * rooms.len()) == concat_map(rooms, room_rec())
        }),
{
    let h = v1_header(g, rooms);
    lemma_le_lengths();
    lemma_v1_edge_section_len(g);
    assert forall|x: Room| #[trigger] room_rec()(x).len() == 12 by {
        crate::level_file::lemma_room_fields(x);
    }
    lemma_concat_fixed(rooms, room_rec(), 12);
    lemma_concat_fixed(g.row_ptr, ptr_rec(), 4);
    lemma_concat_fixed(g.col_idx, u32_rec(), 4);
    lemma_concat_fixed(g.room_map, u32_rec(), 4);
    assert forall|x: EdgeRecord| #[trigger] edge_record_rec()(x).len() == 8 by {
        lemma_edge_record_fields(x);
    }
    lemma_concat_fixed(g.edge_props, edge_record_rec(), 8);
    assert(h.magic@ =~= magic());
    lemma_header_roundtrip(h);
    let b = level_v1_bytes(g, rooms);
    let hb = header_bytes(h);
    let sn = concat_map(g.node_props, node_record_rec());
    let es = v1_edge_section(g);
    let rc = le32(rooms.len() as u32);
    let sr = concat_map(rooms, room_rec());
    let z = le32(0);
    // The file, section by section.
    lemma_six_windows(hb, sn, es, rc, sr, z);
    assert(b =~= hb + sn + es + rc + sr + z);
    // The edge section, piece by piece.
    let sp = concat_map(g.row_ptr, ptr_rec());
    let sc = concat_map(g.col_idx, u32_rec());
    let sd = concat_map(g.edge_props, edge_record_rec());
    let ml = le32(g.room_map.len() as u32);
    let sm = concat_map(g.room_map, u32_rec());
    lemma_six_windows(sp, sc, sd, ml, sm, Seq::empty());
    assert(es =~= sp + sc + sd + ml + sm + Seq::<u8>::empty());
    let ep = (hb.len() + sn.len()) as int;
    let a1 = sp.len() as int;
    let a2 = a1 + sc.len();
    let a3 = a2 + sd.len();
    let a4 = a3 + ml.len();
    crate::level_file::lemma_subwindow(b, ep, es, 0, a1);
    crate::level_file::lemma_subwindow(b, ep, es, a1, a2);
    crate::level_file::lemma_subwindow(b, ep, es, a2, a3);
    crate::level_file::lemma_subwindow(b, ep, es, a3, a4);
    crate::level_file::lemma_subwindow(b, ep, es, a4, es.len() as int);
    lemma_u32_field(g.room_map.len() as u32);
    lemma_u32_window(b, ep + a3, ml, 0);
    lemma_u32_field(rooms.len() as u32);
    lemma_u32_window(b, ep + es.len() as int, rc, 0);
}

/// The header fields of a written file, as the reader sees them.
proof fn lemma_v1_header_fields(g: LevelGraphView, rooms: Seq<Room>, b: Seq<u8>)
    requires
        g.valid(),
        g.num_nodes <= MAX_NODES,
        g.col_idx.len() <= MAX_EDGES,
        rooms.len() <= MAX_ROOMS,
        64 <= b.len(),
        b.subrange(0, 64) == header_bytes(v1_header(g, rooms)),
    ensures
        b.subrange(0, 4) == magic(),
        u32_at(b, 4) == VERSION,
        v1_nodes(b) == g.num_nodes,
        v1_edges(b) == g.col_idx.len(),
        u32_at(b, 16) == rooms.len(),
        b[20] == N_ANGLE_BINS,
        v1_node_off(b) == v1_header(g, rooms).node_section_offset,
        v1_edge_off(b) == v1_header(g, rooms).edge_section_offset,
        v1_rooms_off(b) == v1_header(g, rooms).rooms_section_offset,
        v1_pvs_off(b) == v1_header(g, rooms).pvs_section_offset,
{
    let h = v1_header(g, rooms);
    let hb = header_bytes(h);
    assert(h.magic@ =~= magic());
    lemma_header_roundtrip(h);
    lemma_u32_window(b, 0, hb, 4);
    lemma_u32_window(b, 0, hb, 8);
    lemma_u32_window(b, 0, hb, 12);
    lemma_u32_window(b, 0, hb, 16);
    lemma_u64_window(b, 0, hb, 24);
    lemma_u64_window(b, 0, hb, 32);
    lemma_u64_window(b, 0, hb, 40);
    lemma_u64_window(b, 0, hb, 48);
    assert(b[20] == b.subrange(0, 64)[20]);
    assert(b.subrange(0, 4) =~= hb.subrange(0, 4));
}

/// Round trip of the version 1 format: the bytes written for a graph and its
/// rooms read back as exactly those, with a PVS of `rooms.len()` rooms and
/// `N_ANGLE_BINS` bins, provided the counts are within the format's maxima,
/// room starts and counts fit `u32`, room ids fit `usize`, and the file stays
/// within `MAX_FILE_SIZE`.
#[verifier::spinoff_prover]
#[verifier::rlimit(60)]
pub proof fn lemma_level_v1_roundtrip(g: LevelGraphView, rooms: Seq<Room>)
    requires
        g.valid(),
        g.num_nodes <= MAX_NODES,
        g.col_idx.len() <= MAX_EDGES,
        rooms.len() <= MAX_ROOMS,
        forall|i: int|
            0 <= i < rooms.len() ==> (#[trigger] rooms[i]).node_start <= u32::MAX
                && rooms[i].node_count <= u32::MAX && rooms[i].id < usize::MAX,
        level_v1_bytes(g, rooms).len() <= MAX_FILE_SIZE,
    ensures
        v1_reads_back(g, rooms, level_v1_bytes(g, rooms)),
{
    let n = g.num_nodes as int;
    let e = g.col_idx.len() as int;
    let b = level_v1_bytes(g, rooms);
    lemma_v1_edge_section_len(g);
    lemma_v1_layout(g, rooms);
    lemma_v1_header_fields(g, rooms, b);
    let ep = 64 + 16 * n;
    let mp = ep + 4 * (n + 1) + 12 * e;
    let rp = mp + 4 + 4 * g.room_map.len();
    assert(v1_header_ok(b));
    assert(v1_offsets_ok(b));
    assert(v1_nodes_fit(b));
    assert(v1_map_pos(b) == mp);
    assert(v1_edges_fit(b));
    lemma_read_back_node_records(b, 64, g.node_props);
    assert forall|i: int| 0 <= i < g.row_ptr.len() implies #[trigger] g.row_ptr[i] <= u32::MAX by {
        assert(g.row_ptr[i] <= g.row_ptr[n]);
    }
    lemma_read_back_ptrs(b, ep, g.row_ptr);
    lemma_read_back_u32s(b, ep + 4 * (n + 1), g.col_idx);
    lemma_read_back_edge_records(b, ep + 4 * (n + 1) + 4 * e, g.edge_props);
    lemma_read_back_u32s(b, mp + 4, g.room_map);
    assert(v1_graph(b) =~= g);
    assert(v1_rooms_fit(b));
    lemma_read_back_rooms(b, rp + 4, rooms);
    assert(v1_rooms(b) == rooms);
}

/// Reads a version 1 level file from its bytes.
///
/// Fails with `StructureMismatch` when the file is shorter than its 64-byte
/// header or longer than `MAX_FILE_SIZE`; with the header's own errors; with
/// `StructureMismatch` when a section offset lies outside the file or the
/// offsets are not ascending; with `Io` when the node records, the edge
/// section's contents or the room records run past the end of their section;
/// and with `StructureMismatch` when the stored graph is inconsistent. The
/// PVS comes back empty, with the header's room and angle bin counts.
pub fn decode_level_v1(b: &[u8]) -> (r: Result<(LevelGraph, RoomCollection, PVS), LevelFileError>)
    requires
        v1_ids_fit(b@),
    ensures
        b@.len() < 64 ==> (r matches Err(LevelFileError::StructureMismatch(m)) && m@
            == "File too small to contain header"@),
        b@.len() > MAX_FILE_SIZE ==> (r matches Err(LevelFileError::StructureMismatch(m)) && m@ == "File size "@
            + decimal(b@.len()) + " exceeds maximum allowed "@ + decimal(MAX_FILE_SIZE as nat)),
        64 <= b@.len() <= MAX_FILE_SIZE && b@.subrange(0, 4) != magic() ==> (r matches Err(
            LevelFileError::InvalidMagic,
        )),
        64 <= b@.len() <= MAX_FILE_SIZE && b@.subrange(0, 4) == magic() && u32_at(b@, 4) != VERSION
            ==> (r matches Err(LevelFileError::UnsupportedVersion(v)) && v == u32_at(b@, 4)),
        64 <= b@.len() <= MAX_FILE_SIZE && b@.subrange(0, 4) == magic() && u32_at(b@, 4) == VERSION
            && !v1_header_ok(b@) ==> (r matches Err(LevelFileError::StructureMismatch(m)) && m@
            == v1_header_message(b@)),
        v1_header_ok(b@) && !v1_offsets_in_file(b@) ==> (r matches Err(LevelFileError::StructureMismatch(m))
            && m@ == "Section offsets exceed file size"@),
        v1_header_ok(b@) && v1_offsets_in_file(b@) && !v1_offsets_ok(b@) ==> (r matches Err(
            LevelFileError::StructureMismatch(m),
        ) && m@ == "Section offsets not in ascending order"@),
        v1_header_ok(b@) && v1_offsets_ok(b@) && !v1_nodes_fit(b@) ==> (r matches Err(LevelFileError::Io(_))),
        v1_header_ok(b@) && v1_offsets_ok(b@) && v1_nodes_fit(b@) && !v1_edges_fit(b@) ==> (r matches Err(
            LevelFileError::Io(_),
        )),
        v1_header_ok(b@) && v1_offsets_ok(b@) && v1_nodes_fit(b@) && v1_edges_fit(b@) && !v1_graph(b@).valid()
            ==> (r matches Err(LevelFileError::StructureMismatch(m)) && m@ == v1_graph_message(b@)),
        v1_header_ok(b@) && v1_offsets_ok(b@) && v1_nodes_fit(b@) && v1_edges_fit(b@) && v1_graph(b@).valid()
            && !v1_rooms_fit(b@) ==> (r matches Err(LevelFileError::Io(_))),
        r is Ok <==> v1_accepts(b@),
        r matches Ok((g, rc, p)) ==> {
            &&& g@ == v1_graph(b@)
            &&& rc.rooms@ == v1_rooms(b@)
            &&& rc.room_index@ == index_of_rooms(v1_rooms(b@), (max_of(room_ids(v1_rooms(b@))) + 1) as nat)
            &&& p.rooms_spec() == u32_at(b@, 16)
            &&& p.bins_spec() == b@[20]
            &&& p.sets().len() == u32_at(b@, 16) * b@[20]
            &&& forall|i: int| 0 <= i < p.sets().len() ==> #[trigger] p.sets()[i] == Set::<RoomId>::empty()
        },
{
    let len = b.len();
    if len < 64 {
        return Err(LevelFileError::StructureMismatch("File too small to contain header".to_string()));
    }
    if len as u64 > MAX_FILE_SIZE {
        let m = fmt_two_usize("File size ", len, " exceeds maximum allowed ", MAX_FILE_SIZE as usize, "");
        proof {
            reveal_strlit("");
            assert(m@ =~= "File size "@ + decimal(b@.len()) + " exceeds maximum allowed "@ + decimal(
                MAX_FILE_SIZE as nat,
            ));
        }
        return Err(LevelFileError::StructureMismatch(m));
    }
    let header = match LevelHeader::decode(b) {
        Ok(h) => h,
        Err(e) => return Err(e),
    };
    let len64 = len as u64;
    let node_off = header.node_section_offset;
    let edge_off = header.edge_section_offset;
    let rooms_off = header.rooms_section_offset;
    let pvs_off = header.pvs_section_offset;
    if node_off >= len64 || edge_off >= len64 || rooms_off >= len64 || pvs_off >= len64 {
        return Err(LevelFileError::StructureMismatch("Section offsets exceed file size".to_string()));
    }
    if !(node_off < edge_off && edge_off < rooms_off && rooms_off < pvs_off) {
        return Err(LevelFileError::StructureMismatch("Section offsets not in ascending order".to_string()));
    }
    let n = header.num_nodes;
    let e = header.num_edges;
    // Node section.
    if node_off + 16 * (n as u64) > edge_off {
        return Err(LevelFileError::Io(unexpected_eof()));
    }
    // Edge section.
    let cols_pos: u64 = edge_off + 4 * (n as u64 + 1);
    let recs_pos: u64 = cols_pos + 4 * (e as u64);
    let map_pos: u64 = recs_pos + 8 * (e as u64);
    if map_pos + 4 > rooms_off {
        return Err(LevelFileError::Io(unexpected_eof()));
    }
    let m = read_u32_le(b, map_pos as usize);
    if map_pos + 4 + 4 * (m as u64) > rooms_off {
        return Err(LevelFileError::Io(unexpected_eof()));
    }
    let node_props = read_node_records(b, node_off as usize, n as usize);
    let row_ptr = read_ptrs(b, edge_off as usize, n as usize + 1);
    let col_idx = read_u32s(b, cols_pos as usize, e as usize);
    let edge_props = read_edge_records(b, recs_pos as usize, e as usize);
    let room_map = read_u32s(b, map_pos as usize + 4, m as usize);
    let graph = match LevelGraph::from_csr(n as usize, row_ptr, col_idx, node_props, edge_props, room_map) {
        Ok(g) => g,
        Err(err) => {
            return Err(LevelFileError::StructureMismatch(
                fmt_prefixed("Graph reconstruction failed: ", err.to_message()),
            ));
        },
    };
    // Rooms section.
    if rooms_off + 4 > len64 {
        return Err(LevelFileError::Io(unexpected_eof()));
    }
    let count = read_u32_le(b, rooms_off as usize);
    if rooms_off + 4 + 12 * (count as u64) > len64 {
        return Err(LevelFileError::Io(unexpected_eof()));
    }
    let rooms_vec = read_rooms(b, rooms_off as usize + 4, count as usize);
    proof {
        assert(v1_rooms_fit(b@));
        assert(rooms_vec@ == v1_rooms(b@));
        assert forall|k: int| 0 <= k < rooms_vec@.len() implies (#[trigger] rooms_vec@[k]).id < usize::MAX by {
            assert(v1_rooms(b@)[k] == rooms_vec@[k]);
        }
    }
    let room_index = build_room_index(&rooms_vec);
    let rooms = RoomCollection { rooms: rooms_vec, room_index };
    proof {
        assert((header.num_rooms as int) * (header.num_angle_bins as int) <= 10_000_000 * 255) by (nonlinear_arith)
            requires
                header.num_rooms <= 10_000_000,
                header.num_angle_bins <= 255,
        ;
    }
    let pvs = PVS::new(header.num_rooms as usize, header.num_angle_bins as usize);
    Ok((graph, rooms, pvs))
}

} // verus!
