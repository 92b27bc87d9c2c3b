//! Level file format v2: header, nodes, CSR edges, room map, rooms and the
//! relation vocabulary, as bytes.
//!
//! Layout (all integers little-endian `u32` unless noted):
//! `"RGDB"`, version 2, node count, edge count; per node its reflection and
//! refraction index (`f32` bits); `row_ptr` (node count + 1 entries); `col_idx`;
//! per edge its attenuation (`f32` bits), relation (`u16`), portal flag (`u8`)
//! and a zero pad byte; room map length and entries; room count and per room
//! its id, node start and node count; relation count, per relation the byte
//! length of its UTF-8 name and the name; the `n x n` similarity matrix
//! (`f32` bits, row-major).

use vstd::prelude::*;
use vstd::utf8::*;
use crate::bytes::{
    le16, le32, push_u16_le, push_u32_le, read_u16_le, read_u32_le, u16_at, u32_at,
    lemma_le_lengths,
};
use crate::graph::{EdgeProps, Graph, GraphView, NodeId, NodeProps, RoomId, parts_view, from_csr_message};
use crate::error::GraphError;
use crate::relation::RelationVocab;
use crate::rooms::{Room, RoomCollection, max_of, lemma_max_of_member};

verus! {

/// Current version of the level format.
pub const VERSION: u32 = 2;

/// Largest accepted level file, in bytes (10 GiB).
pub const MAX_FILE_SIZE: u64 = 10_737_418_240;

/// The file magic `"RGDB"`.
pub open spec fn magic() -> Seq<u8> {
    seq![0x52u8, 0x47u8, 0x44u8, 0x42u8]
}

/// The bytes of `f` applied to each element of `s`, in order.
pub open spec fn concat_map<A>(s: Seq<A>, f: spec_fn(A) -> Seq<u8>) -> Seq<u8>
    decreases s.len(),
{
    if s.len() == 0 {
        Seq::empty()
    } else {
        concat_map(s.drop_last(), f) + f(s.last())
    }
}

/// A node record: reflection and refraction index bits.
pub open spec fn node_bytes(p: NodeProps) -> Seq<u8> {
    le32(p.reflection_bits) + le32(p.refraction_index_bits)
}

/// An edge record: attenuation bits, relation, portal flag and a pad byte.
pub open spec fn edge_bytes(e: EdgeProps) -> Seq<u8> {
    le32(e.attenuation_bits) + le16(e.relation) + seq![
        if e.is_portal {
            1u8
        } else {
            0u8
        },
        0u8,
    ]
}

/// A room record: id, node start and node count.
pub open spec fn room_bytes(r: Room) -> Seq<u8> {
    le32(r.id) + le32(r.node_start as u32) + le32(r.node_count as u32)
}

/// A relation name record: byte length and UTF-8 bytes.
pub open spec fn name_bytes(s: Seq<char>) -> Seq<u8> {
    le32(encode_utf8(s).len() as u32) + encode_utf8(s)
}

/// A row pointer record.
pub open spec fn ptr_bytes(p: usize) -> Seq<u8> {
    le32(p as u32)
}

/// Record maps of the sections.
pub open spec fn u32_rec() -> spec_fn(u32) -> Seq<u8> {
    |x: u32| le32(x)
}

pub open spec fn ptr_rec() -> spec_fn(usize) -> Seq<u8> {
    |p: usize| ptr_bytes(p)
}

pub open spec fn node_rec() -> spec_fn(NodeProps) -> Seq<u8> {
    |p: NodeProps| node_bytes(p)
}

pub open spec fn edge_rec() -> spec_fn(EdgeProps) -> Seq<u8> {
    |e: EdgeProps| edge_bytes(e)
}

pub open spec fn room_rec() -> spec_fn(Room) -> Seq<u8> {
    |r: Room| room_bytes(r)
}

pub open spec fn name_rec() -> spec_fn(Seq<char>) -> Seq<u8> {
    |s: Seq<char>| name_bytes(s)
}

/// The graph sections of a level file: header, nodes, CSR arrays, room map.
pub open spec fn graph_bytes(g: GraphView) -> Seq<u8> {
    magic() + le32(VERSION) + le32(g.num_nodes as u32) + le32(g.col_idx.len() as u32)
        + concat_map(g.node_props, node_rec())
        + concat_map(g.row_ptr, ptr_rec())
        + concat_map(g.col_idx, u32_rec())
        + concat_map(g.edge_props, edge_rec())
        + le32(g.room_map.len() as u32)
        + concat_map(g.room_map, u32_rec())
}

/// The sections after the graph: rooms, relation names and similarity matrix.
pub open spec fn tail_bytes(rooms: Seq<Room>, names: Seq<Seq<char>>, sim: Seq<u32>) -> Seq<u8> {
    le32(rooms.len() as u32) + concat_map(rooms, room_rec())
        + le32(names.len() as u32) + concat_map(names, name_rec())
        + concat_map(sim, u32_rec())
}

/// The bytes of a level file holding a graph, rooms and a relation vocabulary.
pub open spec fn level_bytes(
    g: GraphView,
    rooms: Seq<Room>,
    names: Seq<Seq<char>>,
    sim: Seq<u32>,
) -> Seq<u8> {
    graph_bytes(g) + tail_bytes(rooms, names, sim)
}

/// One more element extends `concat_map` by its bytes.
pub proof fn lemma_concat_map_push<A>(s: Seq<A>, f: spec_fn(A) -> Seq<u8>, i: int)
    requires
        0 <= i < s.len(),
    ensures
        concat_map(s.subrange(0, i + 1), f) == concat_map(s.subrange(0, i), f) + f(s[i]),
{
    assert(s.subrange(0, i + 1).drop_last() =~= s.subrange(0, i));
}

/// Appends `u32` values.
pub(crate) fn put_u32s(out: &mut Vec<u8>, xs: &[u32])
    ensures
        final(out)@ == old(out)@ + concat_map(xs@, u32_rec()),
{
    let ghost f = u32_rec();
    let mut i: usize = 0;
    while i < xs.len()
        invariant
            f == u32_rec(),
            i <= xs@.len(),
            out@ == old(out)@ + concat_map(xs@.subrange(0, i as int), f),
        decreases xs@.len() - i,
    {
        proof {
            lemma_concat_map_push(xs@, f, i as int);
        }
        push_u32_le(out, xs[i]);
        i = i + 1;
        proof {
            assert(out@ =~= old(out)@ + concat_map(xs@.subrange(0, i as int), f));
        }
    }
    proof {
        assert(xs@.subrange(0, i as int) =~= xs@);
    }
}

/// Appends row pointers, each truncated to `u32`.
pub(crate) fn put_ptrs(out: &mut Vec<u8>, xs: &[usize])
    ensures
        final(out)@ == old(out)@ + concat_map(xs@, ptr_rec()),
{
    let ghost f = ptr_rec();
    let mut i: usize = 0;
    while i < xs.len()
        invariant
            f == ptr_rec(),
            i <= xs@.len(),
            out@ == old(out)@ + concat_map(xs@.subrange(0, i as int), f),
        decreases xs@.len() - i,
    {
        proof {
            lemma_concat_map_push(xs@, f, i as int);
        }
        push_u32_le(out, xs[i] as u32);
        i = i + 1;
        proof {
            assert(out@ =~= old(out)@ + concat_map(xs@.subrange(0, i as int), f));
        }
    }
    proof {
        assert(xs@.subrange(0, i as int) =~= xs@);
    }
}

/// Appends node records.
fn put_nodes(out: &mut Vec<u8>, xs: &[NodeProps])
    ensures
        final(out)@ == old(out)@ + concat_map(xs@, node_rec()),
{
    let ghost f = node_rec();
    let mut i: usize = 0;
    while i < xs.len()
        invariant
            f == node_rec(),
            i <= xs@.len(),
            out@ == old(out)@ + concat_map(xs@.subrange(0, i as int), f),
        decreases xs@.len() - i,
    {
        proof {
            lemma_concat_map_push(xs@, f, i as int);
        }
        let p = xs[i];
        push_u32_le(out, p.reflection_bits);
        push_u32_le(out, p.refraction_index_bits);
        i = i + 1;
        proof {
            assert(out@ =~= old(out)@ + concat_map(xs@.subrange(0, i as int), f));
        }
    }
    proof {
        assert(xs@.subrange(0, i as int) =~= xs@);
    }
}

/// Appends edge records.
fn put_edges(out: &mut Vec<u8>, xs: &[EdgeProps])
    ensures
        final(out)@ == old(out)@ + concat_map(xs@, edge_rec()),
{
    let ghost f = edge_rec();
    let mut i: usize = 0;
    while i < xs.len()
        invariant
            f == edge_rec(),
            i <= xs@.len(),
            out@ == old(out)@ + concat_map(xs@.subrange(0, i as int), f),
        decreases xs@.len() - i,
    {
        proof {
            lemma_concat_map_push(xs@, f, i as int);
        }
        let e = xs[i];
        push_u32_le(out, e.attenuation_bits);
        push_u16_le(out, e.relation);
        out.push(if e.is_portal {
            1u8
        } else {
            0u8
        });
        out.push(0u8);
        i = i + 1;
        proof {
            assert(out@ =~= old(out)@ + concat_map(xs@.subrange(0, i as int), f));
        }
    }
    proof {
        assert(xs@.subrange(0, i as int) =~= xs@);
    }
}

/// Appends room records.
pub(crate) fn put_rooms(out: &mut Vec<u8>, xs: &[Room])
    ensures
        final(out)@ == old(out)@ + concat_map(xs@, room_rec()),
{
    let ghost f = room_rec();
    let mut i: usize = 0;
    while i < xs.len()
        invariant
            f == room_rec(),
            i <= xs@.len(),
            out@ == old(out)@ + concat_map(xs@.subrange(0, i as int), f),
        decreases xs@.len() - i,
    {
        proof {
            lemma_concat_map_push(xs@, f, i as int);
        }
        let r = xs[i];
        push_u32_le(out, r.id);
        push_u32_le(out, r.node_start as u32);
        push_u32_le(out, r.node_count as u32);
        i = i + 1;
        proof {
            assert(out@ =~= old(out)@ + concat_map(xs@.subrange(0, i as int), f));
        }
    }
    proof {
        assert(xs@.subrange(0, i as int) =~= xs@);
    }
}

/// Appends raw bytes.
pub(crate) fn put_bytes(out: &mut Vec<u8>, xs: &[u8])
    ensures
        final(out)@ == old(out)@ + xs@,
{
    let mut i: usize = 0;
    while i < xs.len()
        invariant
            i <= xs@.len(),
            out@ == old(out)@ + xs@.subrange(0, i as int),
        decreases xs@.len() - i,
    {
        out.push(xs[i]);
        i = i + 1;
        proof {
            assert(out@ =~= old(out)@ + xs@.subrange(0, i as int));
        }
    }
    proof {
        assert(xs@.subrange(0, i as int) =~= xs@);
    }
}

/// Appends relation name records.
fn put_names(out: &mut Vec<u8>, xs: &[String])
    ensures
        final(out)@ == old(out)@ + concat_map(xs@.map_values(|s: String| s@), name_rec()),
{
    let ghost f = name_rec();
    let ghost v = xs@.map_values(|s: String| s@);
    let mut i: usize = 0;
    while i < xs.len()
        invariant
            f == name_rec(),
            v == xs@.map_values(|s: String| s@),
            i <= xs@.len(),
            out@ == old(out)@ + concat_map(v.subrange(0, i as int), f),
        decreases xs@.len() - i,
    {
        proof {
            lemma_concat_map_push(v, f, i as int);
        }
        let b = xs[i].as_str().as_bytes();
        push_u32_le(out, b.len() as u32);
        put_bytes(out, b);
        i = i + 1;
        proof {
            assert(out@ =~= old(out)@ + concat_map(v.subrange(0, i as int), f));
        }
    }
    proof {
        assert(v.subrange(0, i as int) =~= v);
    }
}

/// Serializes a graph, its rooms and a relation vocabulary to level file bytes.
pub fn encode_level(graph: &Graph, rooms: &RoomCollection, vocab: &RelationVocab) -> (r: Vec<u8>)
    requires
        vocab.wf(),
    ensures
        r@ == level_bytes(graph@, rooms.rooms@, vocab.names_view(), vocab.matrix_view()),
{
    let mut out: Vec<u8> = Vec::new();
    out.push(0x52u8);
    out.push(0x47u8);
    out.push(0x44u8);
    out.push(0x42u8);
    push_u32_le(&mut out, VERSION);
    push_u32_le(&mut out, graph.num_nodes() as u32);
    push_u32_le(&mut out, graph.num_edges() as u32);
    put_nodes(&mut out, graph.node_props());
    put_ptrs(&mut out, graph.row_ptr());
    put_u32s(&mut out, graph.col_idx());
    put_edges(&mut out, graph.edge_props());
    push_u32_le(&mut out, graph.room_map().len() as u32);
    put_u32s(&mut out, graph.room_map());
    let ghost gpart = out@;
    proof {
        assert(gpart =~= graph_bytes(graph@));
    }
    push_u32_le(&mut out, rooms.rooms.len() as u32);
    put_rooms(&mut out, rooms.rooms.as_slice());
    push_u32_le(&mut out, vocab.len() as u32);
    put_names(&mut out, vocab.names());
    put_u32s(&mut out, vocab.matrix());
    proof {
        assert(out@ =~= graph_bytes(graph@) + tail_bytes(
            rooms.rooms@,
            vocab.names_view(),
            vocab.matrix_view(),
        ));
    }
    out
}

/// Errors of level file reading.
#[derive(Debug)]
pub enum LevelFileError {
    /// The file does not start with `"RGDB"`.
    InvalidMagic,
    /// The file has a version other than 2.
    UnsupportedVersion(u32),
    /// Reading failed (a section runs past the end of the file).
    Io(std::io::Error),
    /// The content is inconsistent (with a description).
    StructureMismatch(String),
}

/// `std::io::Error`, carried through unchanged.
#[verifier::external_type_specification]
#[verifier::external_body]
pub struct ExIoError(std::io::Error);

/// `std::io::Error::new` with kind `UnexpectedEof`: the error a read past the
/// end of the input reports.
#[verifier::external_body]
pub(crate) fn unexpected_eof() -> std::io::Error {
    std::io::Error::new(std::io::ErrorKind::UnexpectedEof, "failed to fill whole buffer")
}

/// What `String::from_utf8_lossy` makes of `b`: `b` decoded as UTF-8, with each
/// invalid sequence replaced by U+FFFD.
pub uninterp spec fn lossy_utf8(b: Seq<u8>) -> Seq<char>;

/// `String::from_utf8_lossy(b).into_owned()`. Its result is named by
/// `lossy_utf8`; on valid UTF-8 it is the decoded text (the documentation: the
/// input is returned unchanged when it is valid UTF-8).
#[verifier::external_body]
fn utf8_lossy(b: &[u8]) -> (r: String)
    ensures
        r@ == lossy_utf8(b@),
        valid_utf8(b@) ==> r@ == decode_utf8(b@),
{
    String::from_utf8_lossy(b).into_owned()
}

/// `count` little-endian `u32`s starting at `pos`.
pub open spec fn u32s_at(b: Seq<u8>, pos: int, count: nat) -> Seq<u32> {
    Seq::new(count, |i: int| u32_at(b, pos + 4 * i))
}

/// `count` node records starting at `pos`.
pub open spec fn nodes_at(b: Seq<u8>, pos: int, count: nat) -> Seq<NodeProps> {
    Seq::new(
        count,
        |i: int|
            NodeProps {
                reflection_bits: u32_at(b, pos + 8 * i),
                refraction_index_bits: u32_at(b, pos + 8 * i + 4),
            },
    )
}

/// `count` row pointers starting at `pos`.
pub open spec fn ptrs_at(b: Seq<u8>, pos: int, count: nat) -> Seq<usize> {
    Seq::new(count, |i: int| u32_at(b, pos + 4 * i) as usize)
}

/// `count` edge records starting at `pos`.
pub open spec fn edges_at(b: Seq<u8>, pos: int, count: nat) -> Seq<EdgeProps> {
    Seq::new(
        count,
        |i: int|
            EdgeProps {
                attenuation_bits: u32_at(b, pos + 8 * i),
                relation: u16_at(b, pos + 8 * i + 4),
                is_portal: b[pos + 8 * i + 6] != 0,
            },
    )
}

/// `count` room records starting at `pos`.
pub open spec fn rooms_at(b: Seq<u8>, pos: int, count: nat) -> Seq<Room> {
    Seq::new(
        count,
        |i: int|
            Room {
                id: u32_at(b, pos + 12 * i),
                node_start: u32_at(b, pos + 12 * i + 4) as usize,
                node_count: u32_at(b, pos + 12 * i + 8) as usize,
            },
    )
}

/// `count` length-prefixed names starting at `pos`, as raw bytes, with the
/// position after them; `None` when they run past the end.
pub open spec fn parse_names(b: Seq<u8>, pos: int, count: nat) -> Option<(Seq<Seq<u8>>, int)>
    decreases count,
{
    if count == 0 {
        Some((Seq::empty(), pos))
    } else {
        match parse_names(b, pos, (count - 1) as nat) {
            Some((ns, p)) => {
                if p + 4 <= b.len() && p + 4 + u32_at(b, p) <= b.len() {
                    Some((ns.push(b.subrange(p + 4, p + 4 + u32_at(b, p))), p + 4 + u32_at(b, p)))
                } else {
                    None
                }
            },
            None => None,
        }
    }
}

/// The node count of the header.
pub open spec fn hdr_nodes(b: Seq<u8>) -> nat {
    u32_at(b, 8) as nat
}

/// The edge count of the header.
pub open spec fn hdr_edges(b: Seq<u8>) -> nat {
    u32_at(b, 12) as nat
}

/// End of the node records.
pub open spec fn nodes_end(b: Seq<u8>) -> int {
    16 + 8 * (hdr_nodes(b) as int)
}

/// End of the row pointers.
pub open spec fn ptrs_end(b: Seq<u8>) -> int {
    nodes_end(b) + 4 * (hdr_nodes(b) + 1)
}

/// End of the column indices.
pub open spec fn cols_end(b: Seq<u8>) -> int {
    ptrs_end(b) + 4 * hdr_edges(b)
}

/// End of the edge records.
pub open spec fn edges_end(b: Seq<u8>) -> int {
    cols_end(b) + 8 * hdr_edges(b)
}

/// Length of the room map section.
pub open spec fn map_len(b: Seq<u8>) -> nat {
    u32_at(b, edges_end(b)) as nat
}

/// End of the graph sections.
pub open spec fn graph_end(b: Seq<u8>) -> int {
    edges_end(b) + 4 + 4 * map_len(b)
}

/// The header is acceptable: size within bounds, magic and version 2.
pub open spec fn header_ok(b: Seq<u8>) -> bool {
    &&& 16 <= b.len() <= MAX_FILE_SIZE
    &&& b.subrange(0, 4) == magic()
    &&& u32_at(b, 4) == VERSION
}

/// The graph sections lie within the file.
pub open spec fn graph_fits(b: Seq<u8>) -> bool {
    edges_end(b) + 4 <= b.len() && graph_end(b) <= b.len()
}

/// The graph stored in the graph sections.
pub open spec fn parsed_graph(b: Seq<u8>) -> GraphView {
    parts_view(
        hdr_nodes(b) as usize,
        ptrs_at(b, nodes_end(b), hdr_nodes(b) + 1),
        u32s_at(b, ptrs_end(b), hdr_edges(b)),
        nodes_at(b, 16, hdr_nodes(b)),
        edges_at(b, cols_end(b), hdr_edges(b)),
        u32s_at(b, edges_end(b) + 4, map_len(b)),
    )
}

/// The message for stored graph sections that `Graph::from_csr` rejects.
pub open spec fn parsed_graph_message(b: Seq<u8>) -> Seq<char> {
    from_csr_message(
        hdr_nodes(b) as usize,
        ptrs_at(b, nodes_end(b), hdr_nodes(b) + 1),
        u32s_at(b, ptrs_end(b), hdr_edges(b)),
        hdr_nodes(b),
        hdr_edges(b),
        map_len(b),
    )
}

/// The rooms, raw relation names and similarity matrix stored after the graph
/// sections; `None` when they run past the end.
pub open spec fn parse_tail(b: Seq<u8>) -> Option<(Seq<Room>, Seq<Seq<u8>>, Seq<u32>)> {
    let p5 = graph_end(b);
    if p5 + 4 > b.len() {
        None
    } else {
        let r = u32_at(b, p5) as nat;
        let p6 = p5 + 4 + 12 * r;
        if p6 + 4 > b.len() {
            None
        } else {
            let k = u32_at(b, p6) as nat;
            match parse_names(b, p6 + 4, k) {
                None => None,
                Some((ns, p7)) => {
                    if p7 + 4 * (k * k) > b.len() {
                        None
                    } else {
                        Some((rooms_at(b, p5 + 4, r), ns, u32s_at(b, p7, k * k)))
                    }
                },
            }
        }
    }
}

/// The lookup table the reader builds for `rooms`: length `max id + 1`; each id
/// maps to the last position holding it, other ids to `usize::MAX`.
pub open spec fn index_of_rooms(rooms: Seq<Room>, size: nat) -> Seq<usize>
    decreases rooms.len(),
{
    if rooms.len() == 0 {
        Seq::new(size, |i: int| usize::MAX)
    } else {
        index_of_rooms(rooms.drop_last(), size).update(
            rooms.last().id as int,
            (rooms.len() - 1) as usize,
        )
    }
}

/// The ids of rooms.
pub open spec fn room_ids(rooms: Seq<Room>) -> Seq<RoomId> {
    rooms.map_values(|r: Room| r.id)
}

/// Reads `count` little-endian `u32`s at `pos`.
pub(crate) fn read_u32s(b: &[u8], pos: usize, count: usize) -> (r: Vec<u32>)
    requires
        pos + 4 * count <= b@.len(),
    ensures
        r@ == u32s_at(b@, pos as int, count as nat),
{
    let mut r: Vec<u32> = Vec::new();
    let len = b.len();
    let mut i: usize = 0;
    while i < count
        invariant
            len == b@.len(),
            pos + 4 * count <= b@.len(),
            i <= count,
            r@ == u32s_at(b@, pos as int, i as nat),
        decreases count - i,
    {
        let x = read_u32_le(b, pos + 4 * i);
        r.push(x);
        i = i + 1;
        proof {
            assert(r@ =~= u32s_at(b@, pos as int, i as nat));
        }
    }
    r
}

/// Reads `count` row pointers at `pos`.
pub(crate) fn read_ptrs(b: &[u8], pos: usize, count: usize) -> (r: Vec<usize>)
    requires
        pos + 4 * count <= b@.len(),
    ensures
        r@ == ptrs_at(b@, pos as int, count as nat),
{
    let mut r: Vec<usize> = Vec::new();
    let len = b.len();
    let mut i: usize = 0;
    while i < count
        invariant
            len == b@.len(),
            pos + 4 * count <= b@.len(),
            i <= count,
            r@ == ptrs_at(b@, pos as int, i as nat),
        decreases count - i,
    {
        let x = read_u32_le(b, pos + 4 * i);
        r.push(x as usize);
        i = i + 1;
        proof {
            assert(r@ =~= ptrs_at(b@, pos as int, i as nat));
        }
    }
    r
}

/// Reads `count` node records at `pos`.
fn read_nodes(b: &[u8], pos: usize, count: usize) -> (r: Vec<NodeProps>)
    requires
        pos + 8 * count <= b@.len(),
    ensures
        r@ == nodes_at(b@, pos as int, count as nat),
{
    let mut r: Vec<NodeProps> = Vec::new();
    let len = b.len();
    let mut i: usize = 0;
    while i < count
        invariant
            len == b@.len(),
            pos + 8 * count <= b@.len(),
            i <= count,
            r@ == nodes_at(b@, pos as int, i as nat),
        decreases count - i,
    {
        let reflection_bits = read_u32_le(b, pos + 8 * i);
        let refraction_index_bits = read_u32_le(b, pos + 8 * i + 4);
        r.push(NodeProps { reflection_bits, refraction_index_bits });
        i = i + 1;
        proof {
            assert(r@ =~= nodes_at(b@, pos as int, i as nat));
        }
    }
    r
}

/// Reads `count` edge records at `pos`.
fn read_edges(b: &[u8], pos: usize, count: usize) -> (r: Vec<EdgeProps>)
    requires
        pos + 8 * count <= b@.len(),
    ensures
        r@ == edges_at(b@, pos as int, count as nat),
{
    let mut r: Vec<EdgeProps> = Vec::new();
    let len = b.len();
    let mut i: usize = 0;
    while i < count
        invariant
            len == b@.len(),
            pos + 8 * count <= b@.len(),
            i <= count,
            r@ == edges_at(b@, pos as int, i as nat),
        decreases count - i,
    {
        let at = pos + 8 * i;
        let attenuation_bits = read_u32_le(b, at);
        let relation = read_u16_le(b, at + 4);
        let is_portal = b[at + 6] != 0;
        r.push(EdgeProps { attenuation_bits, relation, is_portal });
        i = i + 1;
        proof {
            assert(r@ =~= edges_at(b@, pos as int, i as nat));
        }
    }
    r
}

/// Reads `count` room records at `pos`.
pub(crate) fn read_rooms(b: &[u8], pos: usize, count: usize) -> (r: Vec<Room>)
    requires
        pos + 12 * count <= b@.len(),
    ensures
        r@ == rooms_at(b@, pos as int, count as nat),
{
    let mut r: Vec<Room> = Vec::new();
    let len = b.len();
    let mut i: usize = 0;
    while i < count
        invariant
            len == b@.len(),
            pos + 12 * count <= b@.len(),
            i <= count,
            r@ == rooms_at(b@, pos as int, i as nat),
        decreases count - i,
    {
        let at = pos + 12 * i;
        let id = read_u32_le(b, at);
        let node_start = read_u32_le(b, at + 4) as usize;
        let node_count = read_u32_le(b, at + 8) as usize;
        r.push(Room { id, node_start, node_count });
        i = i + 1;
        proof {
            assert(r@ =~= rooms_at(b@, pos as int, i as nat));
        }
    }
    r
}

/// A failed parse of some names stays failed with more names.
proof fn lemma_parse_names_none(b: Seq<u8>, pos: int, c: nat, d: nat)
    requires
        c <= d,
        parse_names(b, pos, c) is None,
    ensures
        parse_names(b, pos, d) is None,
    decreases d - c,
{
    if c < d {
        lemma_parse_names_none(b, pos, c, (d - 1) as nat);
    }
}

/// The number of names of a successful parse.
pub open spec fn names_count(p: Option<(Seq<Seq<u8>>, int)>) -> nat {
    match p {
        Some((ns, _)) => ns.len(),
        None => 0,
    }
}

/// The end position of a successful parse.
pub open spec fn names_end(p: Option<(Seq<Seq<u8>>, int)>) -> int {
    match p {
        Some((_, e)) => e,
        None => 0,
    }
}

/// A successful parse of `count` names yields `count` names, ending within
/// the input.
proof fn lemma_parse_names_some(b: Seq<u8>, pos: int, count: nat)
    requires
        parse_names(b, pos, count) is Some,
        0 <= pos <= b.len(),
    ensures
        names_count(parse_names(b, pos, count)) == count,
        pos <= names_end(parse_names(b, pos, count)) <= b.len(),
    decreases count,
{
    if count > 0 {
        lemma_parse_names_some(b, pos, (count - 1) as nat);
    }
}

/// Reads `count` length-prefixed names at `pos`: the names (decoded lossily)
/// and the position after them, or `None` when they run past the end.
fn read_names(b: &[u8], pos: usize, count: usize) -> (r: Option<(Vec<String>, usize)>)
    requires
        pos <= b@.len(),
    ensures
        r is Some <==> parse_names(b@, pos as int, count as nat) is Some,
        r matches Some((names, p)) ==> {
            let (raw, q) = parse_names(b@, pos as int, count as nat)->0;
            &&& p == q
            &&& names@.map_values(|s: String| s@) == raw.map_values(|x: Seq<u8>| lossy_utf8(x))
            &&& forall|j: int|
                0 <= j < raw.len() && valid_utf8(#[trigger] raw[j]) ==> names@[j]@ == decode_utf8(
                    raw[j],
                )
        },
{
    let len = b.len();
    let mut names: Vec<String> = Vec::new();
    let ghost mut raw: Seq<Seq<u8>> = Seq::empty();
    let mut p = pos;
    let mut i: usize = 0;
    while i < count
        invariant
            len == b@.len(),
            i <= count,
            p <= len,
            parse_names(b@, pos as int, i as nat) == Some((raw, p as int)),
            names@.len() == raw.len(),
            names@.map_values(|s: String| s@) == raw.map_values(|x: Seq<u8>| lossy_utf8(x)),
            forall|j: int|
                0 <= j < raw.len() && valid_utf8(#[trigger] raw[j]) ==> names@[j]@ == decode_utf8(
                    raw[j],
                ),
        decreases count - i,
    {
        if len - p < 4 {
            proof {
                lemma_parse_names_none(b@, pos as int, (i + 1) as nat, count as nat);
            }
            return None;
        }
        let n = read_u32_le(b, p) as usize;
        if len - p - 4 < n {
            proof {
                lemma_parse_names_none(b@, pos as int, (i + 1) as nat, count as nat);
            }
            return None;
        }
        let bytes = vstd::slice::slice_subrange(b, p + 4, p + 4 + n);
        let name = utf8_lossy(bytes);
        proof {
            raw = raw.push(b@.subrange(p + 4, p + 4 + n));
        }
        let ghost names_before = names@;
        names.push(name);
        p = p + 4 + n;
        i = i + 1;
        proof {
            assert(names@.map_values(|s: String| s@) =~= raw.map_values(|x: Seq<u8>| lossy_utf8(x))) by {
                assert forall|j: int| 0 <= j < names@.len() implies #[trigger] names@[j]@ == lossy_utf8(raw[j]) by {
                    if j < names_before.len() {
                        assert(names@[j] == names_before[j]);
                        assert(names_before.map_values(|s: String| s@)[j] == names_before[j]@);
                    }
                }
            }
        }
    }
    Some((names, p))
}

/// The lookup table from room id to position in `rooms`.
pub(crate) fn build_room_index(rooms: &Vec<Room>) -> (r: Vec<usize>)
    requires
        forall|k: int| 0 <= k < rooms@.len() ==> (#[trigger] rooms@[k]).id < usize::MAX,
    ensures
        r@ == index_of_rooms(rooms@, (max_of(room_ids(rooms@)) + 1) as nat),
{
    let ghost ids = room_ids(rooms@);
    let mut max_id: RoomId = 0;
    let mut i: usize = 0;
    while i < rooms.len()
        invariant
            ids == room_ids(rooms@),
            i <= rooms@.len(),
            max_id == max_of(ids.subrange(0, i as int)),
        decreases rooms@.len() - i,
    {
        proof {
            assert(ids.subrange(0, i + 1).drop_last() =~= ids.subrange(0, i as int));
        }
        if rooms[i].id > max_id {
            max_id = rooms[i].id;
        }
        i = i + 1;
    }
    proof {
        assert(ids.subrange(0, i as int) =~= ids);
        lemma_max_of_member(ids);
        assert forall|j: int| 0 <= j < rooms@.len() implies (#[trigger] rooms@[j]).id <= max_of(ids) by {
            assert(ids[j] == rooms@[j].id);
        }
        if ids.len() > 0 {
            let w = choose|w: int| 0 <= w < ids.len() && ids[w] == max_of(ids);
            assert(ids[w] == rooms@[w].id);
        }
    }
    let size = max_id as usize + 1;
    let mut room_index: Vec<usize> = vec![usize::MAX; size];
    let mut k: usize = 0;
    while k < rooms.len()
        invariant
            ids == room_ids(rooms@),
            size == max_of(ids) + 1,
            k <= rooms@.len(),
            room_index@ == index_of_rooms(rooms@.subrange(0, k as int), size as nat),
            forall|j: int| 0 <= j < rooms@.len() ==> (#[trigger] rooms@[j]).id <= max_of(ids),
        decreases rooms@.len() - k,
    {
        proof {
            assert(rooms@.subrange(0, k + 1).drop_last() =~= rooms@.subrange(0, k as int));
            lemma_index_of_rooms_len(rooms@.subrange(0, k as int), size as nat);
        }
        let id = rooms[k].id as usize;
        room_index.set(id, k);
        k = k + 1;
    }
    proof {
        assert(rooms@.subrange(0, k as int) =~= rooms@);
    }
    room_index
}

proof fn lemma_index_of_rooms_len(rooms: Seq<Room>, size: nat)
    requires
        forall|k: int| 0 <= k < rooms.len() ==> (#[trigger] rooms[k]).id < size,
    ensures
        index_of_rooms(rooms, size).len() == size,
    decreases rooms.len(),
{
    if rooms.len() > 0 {
        lemma_index_of_rooms_len(rooms.drop_last(), size);
    }
}

/// Every room id stored after the graph sections is below `usize::MAX` (always
/// so where `usize` has 64 bits).
pub open spec fn tail_ids_fit(b: Seq<u8>) -> bool {
    match parse_tail(b) {
        Some((rooms, _, _)) => forall|k: int| 0 <= k < rooms.len() ==> (#[trigger] rooms[k]).id < usize::MAX,
        None => true,
    }
}

/// Reads a level file from its bytes.
///
/// Fails with `StructureMismatch` when the file is shorter than its 16-byte
/// header or longer than `MAX_FILE_SIZE`, with `InvalidMagic` or
/// `UnsupportedVersion` on a bad header, with `Io` when a section runs past the
/// end, and with `StructureMismatch` when the stored graph is inconsistent.
/// Names that are not valid UTF-8 are decoded lossily; bytes after the
/// similarity matrix are ignored.
pub fn decode_level(b: &[u8]) -> (r: Result<(Graph, RoomCollection, RelationVocab), LevelFileError>)
    requires
        tail_ids_fit(b@),
    ensures
        b@.len() < 16 ==> (r matches Err(LevelFileError::StructureMismatch(m)) && m@ == "file too small"@),
        b@.len() > MAX_FILE_SIZE ==> (r matches Err(LevelFileError::StructureMismatch(m)) && m@
            == "file too large"@),
        16 <= b@.len() <= MAX_FILE_SIZE && b@.subrange(0, 4) != magic() ==> (r matches Err(
            LevelFileError::InvalidMagic,
        )),
        16 <= b@.len() <= MAX_FILE_SIZE && b@.subrange(0, 4) == magic() && u32_at(b@, 4) != VERSION
            ==> (r matches Err(LevelFileError::UnsupportedVersion(v)) && v == u32_at(b@, 4)),
        header_ok(b@) && !graph_fits(b@) ==> (r matches Err(LevelFileError::Io(_))),
        header_ok(b@) && graph_fits(b@) && !parsed_graph(b@).valid() ==> (r matches Err(
            LevelFileError::StructureMismatch(m),
        ) && m@ == parsed_graph_message(b@)),
        header_ok(b@) && graph_fits(b@) && parsed_graph(b@).valid() && parse_tail(b@) is None ==> (r matches Err(
            LevelFileError::Io(_),
        )),
        r is Ok <==> header_ok(b@) && graph_fits(b@) && parsed_graph(b@).valid() && parse_tail(
            b@,
        ) is Some,
        r matches Ok((g, rc, v)) ==> {
            let (rooms, raw, sim) = parse_tail(b@)->0;
            &&& g@ == parsed_graph(b@)
            &&& rc.rooms@ == rooms
            &&& rc.room_index@ == index_of_rooms(rooms, (max_of(room_ids(rooms)) + 1) as nat)
            &&& v.names_view() == raw.map_values(|x: Seq<u8>| lossy_utf8(x))
            &&& forall|j: int|
                0 <= j < raw.len() && valid_utf8(#[trigger] raw[j]) ==> v.names_view()[j]
                    == decode_utf8(raw[j])
            &&& v.matrix_view() == sim
            &&& v.wf()
        },
{
    let len = b.len();
    if len < 16 {
        return Err(LevelFileError::StructureMismatch("file too small".to_string()));
    }
    if len as u64 > MAX_FILE_SIZE {
        return Err(LevelFileError::StructureMismatch("file too large".to_string()));
    }
    if b[0] != 0x52u8 || b[1] != 0x47u8 || b[2] != 0x44u8 || b[3] != 0x42u8 {
        proof {
            assert(b@.subrange(0, 4) != magic()) by {
                if b@.subrange(0, 4) == magic() {
                    assert(b@.subrange(0, 4)[0] == b@[0]);
                    assert(b@.subrange(0, 4)[1] == b@[1]);
                    assert(b@.subrange(0, 4)[2] == b@[2]);
                    assert(b@.subrange(0, 4)[3] == b@[3]);
                }
            }
        }
        return Err(LevelFileError::InvalidMagic);
    }
    proof {
        assert(b@.subrange(0, 4) =~= magic());
    }
    let version = read_u32_le(b, 4);
    if version != VERSION {
        return Err(LevelFileError::UnsupportedVersion(version));
    }
    let n = read_u32_le(b, 8);
    let e = read_u32_le(b, 12);
    let len64 = len as u64;
    let p1: u64 = 16 + 8 * (n as u64);
    let p2: u64 = p1 + 4 * (n as u64 + 1);
    let p3: u64 = p2 + 4 * (e as u64);
    let p4: u64 = p3 + 8 * (e as u64);
    if p4 + 4 > len64 {
        return Err(LevelFileError::Io(unexpected_eof()));
    }
    let m = read_u32_le(b, p4 as usize);
    let p5: u64 = p4 + 4 + 4 * (m as u64);
    if p5 > len64 {
        return Err(LevelFileError::Io(unexpected_eof()));
    }
    let node_props = read_nodes(b, 16, n as usize);
    let row_ptr = read_ptrs(b, p1 as usize, n as usize + 1);
    let col_idx = read_u32s(b, p2 as usize, e as usize);
    let edge_props = read_edges(b, p3 as usize, e as usize);
    let room_map = read_u32s(b, p4 as usize + 4, m as usize);
    let graph = match Graph::from_csr(n as usize, row_ptr, col_idx, node_props, edge_props, room_map) {
        Ok(g) => g,
        Err(err) => {
            return Err(LevelFileError::StructureMismatch(err.to_message()));
        },
    };
    // Rooms.
    if p5 + 4 > len64 {
        return Err(LevelFileError::Io(unexpected_eof()));
    }
    let num_rooms = read_u32_le(b, p5 as usize);
    let p6: u64 = p5 + 4 + 12 * (num_rooms as u64);
    if p6 + 4 > len64 {
        return Err(LevelFileError::Io(unexpected_eof()));
    }
    let rooms_vec = read_rooms(b, p5 as usize + 4, num_rooms as usize);
    // Relation vocabulary.
    let k = read_u32_le(b, p6 as usize);
    let (names, p7) = match read_names(b, p6 as usize + 4, k as usize) {
        Some(x) => x,
        None => {
            return Err(LevelFileError::Io(unexpected_eof()));
        },
    };
    proof {
        assert((k as int) * (k as int) <= u64::MAX) by (nonlinear_arith)
            requires
                k <= u32::MAX,
        ;
        lemma_parse_names_some(b@, p6 + 4, k as nat);
    }
    let kk: u64 = (k as u64) * (k as u64);
    let rem = len - p7;
    if kk > (rem as u64) / 4 {
        proof {
            assert(p7 + 4 * (k as int * k as int) > len) by (nonlinear_arith)
                requires
                    kk == k as int * k as int,
                    kk > rem / 4,
                    rem == len - p7,
            ;
        }
        return Err(LevelFileError::Io(unexpected_eof()));
    }
    proof {
        assert(p7 + 4 * (k as int * k as int) <= len) by (nonlinear_arith)
            requires
                kk == k as int * k as int,
                kk <= rem / 4,
                rem == len - p7,
        ;
    }
    let sim = read_u32s(b, p7, kk as usize);
    proof {
        let (raw, q) = parse_names(b@, p6 + 4, k as nat)->0;
        assert(q == p7);
        assert(parse_tail(b@) == Some((rooms_vec@, raw, sim@)));
        assert(tail_ids_fit(b@));
        assert forall|j: int| 0 <= j < rooms_vec@.len() implies (#[trigger] rooms_vec@[j]).id < usize::MAX by {
            let t = parse_tail(b@);
            assert(t matches Some((rr, _, _)) && rr == rooms_vec@);
        }
        assert(names@.len() == k) by {
            assert(names@.map_values(|s: String| s@).len() == raw.len());
        }
    }
    let room_index = build_room_index(&rooms_vec);
    let rooms = RoomCollection { rooms: rooms_vec, room_index };
    let vocab = match RelationVocab::new(names, sim) {
        Ok(v) => v,
        Err(err) => {
            return Err(LevelFileError::StructureMismatch(err.to_message()));
        },
    };
    Ok((graph, rooms, vocab))
}

/// A window of `b` equal to `w` reads the `u32`s of `w`.
pub proof fn lemma_u32_window(b: Seq<u8>, q: int, w: Seq<u8>, off: int)
    requires
        0 <= q,
        q + w.len() <= b.len(),
        b.subrange(q, q + w.len()) == w,
        0 <= off,
        off + 4 <= w.len(),
    ensures
        u32_at(b, q + off) == u32_at(w, off),
{
    assert(b.subrange(q + off, q + off + 4) =~= w.subrange(off, off + 4));
}

/// A window of `b` equal to `w` reads the `u16`s of `w`.
proof fn lemma_u16_window(b: Seq<u8>, q: int, w: Seq<u8>, off: int)
    requires
        0 <= q,
        q + w.len() <= b.len(),
        b.subrange(q, q + w.len()) == w,
        0 <= off,
        off + 2 <= w.len(),
    ensures
        u16_at(b, q + off) == u16_at(w, off),
{
    assert(b.subrange(q + off, q + off + 2) =~= w.subrange(off, off + 2));
}

/// A part of a window is a window.
pub proof fn lemma_subwindow(b: Seq<u8>, q: int, w: Seq<u8>, a: int, c: int)
    requires
        0 <= q,
        q + w.len() <= b.len(),
        b.subrange(q, q + w.len()) == w,
        0 <= a <= c <= w.len(),
    ensures
        b.subrange(q + a, q + c) == w.subrange(a, c),
{
    assert(b.subrange(q + a, q + c) =~= w.subrange(a, c));
}

/// Records of a fixed length `len` lie one after the other.
pub proof fn lemma_concat_fixed<T>(s: Seq<T>, f: spec_fn(T) -> Seq<u8>, len: nat)
    requires
        forall|x: T| #[trigger] f(x).len() == len,
    ensures
        concat_map(s, f).len() == len * s.len(),
        forall|i: int|
            0 <= i < s.len() ==> concat_map(s, f).subrange(len * i, len * i + len) == f(#[trigger] s[i]),
    decreases s.len(),
{
    if s.len() > 0 {
        let init = s.drop_last();
        lemma_concat_fixed(init, f, len);
        let c = concat_map(s, f);
        let ci = concat_map(init, f);
        assert(len * s.len() == len * init.len() + len) by (nonlinear_arith)
            requires
                s.len() == init.len() + 1,
        ;
        assert forall|i: int| 0 <= i < s.len() implies c.subrange(len * i, len * i + len) == f(
            #[trigger] s[i],
        ) by {
            if i < init.len() {
                assert(len * i + len <= len * init.len()) by (nonlinear_arith)
                    requires
                        i < init.len(),
                        0 <= i,
                ;
                assert(0 <= len * i) by (nonlinear_arith)
                    requires
                        0 <= i,
                ;
                assert(c.subrange(len * i, len * i + len) =~= ci.subrange(len * i, len * i + len));
                assert(s[i] == init[i]);
            } else {
                assert(len * i == len * init.len()) by (nonlinear_arith)
                    requires
                        i == init.len(),
                ;
                assert(c.subrange(len * i, len * i + len) =~= f(s.last()));
            }
        }
    }
}

/// The fields of a node record.
proof fn lemma_node_fields(p: NodeProps)
    ensures
        node_bytes(p).len() == 8,
        u32_at(node_bytes(p), 0) == p.reflection_bits,
        u32_at(node_bytes(p), 4) == p.refraction_index_bits,
{
    lemma_le_lengths();
    crate::bytes::lemma_u32_roundtrip(Seq::empty(), p.reflection_bits, le32(p.refraction_index_bits));
    crate::bytes::lemma_u32_roundtrip(le32(p.reflection_bits), p.refraction_index_bits, Seq::empty());
    assert(Seq::<u8>::empty() + le32(p.reflection_bits) + le32(p.refraction_index_bits) =~= node_bytes(p));
    assert(le32(p.reflection_bits) + le32(p.refraction_index_bits) + Seq::<u8>::empty() =~= node_bytes(p));
}

/// The fields of an edge record.
proof fn lemma_edge_fields(e: EdgeProps)
    ensures
        edge_bytes(e).len() == 8,
        u32_at(edge_bytes(e), 0) == e.attenuation_bits,
        u16_at(edge_bytes(e), 4) == e.relation,
        (edge_bytes(e)[6] != 0) == e.is_portal,
{
    lemma_le_lengths();
    let tail = seq![
        if e.is_portal {
            1u8
        } else {
            0u8
        },
        0u8,
    ];
    crate::bytes::lemma_u32_roundtrip(Seq::empty(), e.attenuation_bits, le16(e.relation) + tail);
    crate::bytes::lemma_u16_roundtrip(le32(e.attenuation_bits), e.relation, tail);
    assert(Seq::<u8>::empty() + le32(e.attenuation_bits) + (le16(e.relation) + tail) =~= edge_bytes(e));
    assert(le32(e.attenuation_bits) + le16(e.relation) + tail =~= edge_bytes(e));
}

/// The fields of a room record.
pub(crate) proof fn lemma_room_fields(r: Room)
    ensures
        room_bytes(r).len() == 12,
        u32_at(room_bytes(r), 0) == r.id,
        u32_at(room_bytes(r), 4) == r.node_start as u32,
        u32_at(room_bytes(r), 8) == r.node_count as u32,
{
    lemma_le_lengths();
    let a = le32(r.id);
    let b = le32(r.node_start as u32);
    let c = le32(r.node_count as u32);
    crate::bytes::lemma_u32_roundtrip(Seq::empty(), r.id, b + c);
    crate::bytes::lemma_u32_roundtrip(a, r.node_start as u32, c);
    crate::bytes::lemma_u32_roundtrip(a + b, r.node_count as u32, Seq::empty());
    assert(Seq::<u8>::empty() + a + (b + c) =~= room_bytes(r));
    assert(a + b + c =~= room_bytes(r));
    assert(a + b + c + Seq::<u8>::empty() =~= room_bytes(r));
}

/// The value of a `u32` record.
pub proof fn lemma_u32_field(x: u32)
    ensures
        le32(x).len() == 4,
        u32_at(le32(x), 0) == x,
{
    lemma_le_lengths();
    crate::bytes::lemma_u32_roundtrip(Seq::empty(), x, Seq::empty());
    assert(Seq::<u8>::empty() + le32(x) + Seq::<u8>::empty() =~= le32(x));
}

/// The window of record `i` in a section of fixed-length records.
pub proof fn lemma_record_window<T>(b: Seq<u8>, q: int, s: Seq<T>, f: spec_fn(T) -> Seq<u8>, len: nat, i: int)
    requires
        forall|x: T| #[trigger] f(x).len() == len,
        0 <= q,
        q + concat_map(s, f).len() <= b.len(),
        b.subrange(q, q + concat_map(s, f).len()) == concat_map(s, f),
        0 <= i < s.len(),
    ensures
        q + len * i + len <= b.len(),
        b.subrange(q + len * i, q + len * i + len) == f(s[i]),
{
    lemma_concat_fixed(s, f, len);
    assert(len * i + len <= len * s.len()) by (nonlinear_arith)
        requires
            0 <= i < s.len(),
    ;
    assert(0 <= len * i) by (nonlinear_arith)
        requires
            0 <= i,
    ;
    lemma_subwindow(b, q, concat_map(s, f), len * i, len * i + len);
}

/// A section of `u32` records reads back its values.
pub proof fn lemma_read_back_u32s(b: Seq<u8>, q: int, s: Seq<u32>)
    requires
        0 <= q,
        q + concat_map(s, u32_rec()).len() <= b.len(),
        b.subrange(q, q + concat_map(s, u32_rec()).len()) == concat_map(s, u32_rec()),
    ensures
        concat_map(s, u32_rec()).len() == 4 * s.len(),
        u32s_at(b, q, s.len()) == s,
{
    lemma_le_lengths();
    lemma_concat_fixed(s, u32_rec(), 4);
    assert forall|i: int| 0 <= i < s.len() implies #[trigger] u32s_at(b, q, s.len())[i] == s[i] by {
        lemma_record_window(b, q, s, u32_rec(), 4, i);
        lemma_u32_field(s[i]);
        lemma_u32_window(b, q + 4 * i, le32(s[i]), 0);
    }
    assert(u32s_at(b, q, s.len()) =~= s);
}

/// A section of row pointers (each at most `u32::MAX`) reads back its values.
pub(crate) proof fn lemma_read_back_ptrs(b: Seq<u8>, q: int, s: Seq<usize>)
    requires
        0 <= q,
        q + concat_map(s, ptr_rec()).len() <= b.len(),
        b.subrange(q, q + concat_map(s, ptr_rec()).len()) == concat_map(s, ptr_rec()),
        forall|i: int| 0 <= i < s.len() ==> #[trigger] s[i] <= u32::MAX,
    ensures
        concat_map(s, ptr_rec()).len() == 4 * s.len(),
        ptrs_at(b, q, s.len()) == s,
{
    lemma_le_lengths();
    lemma_concat_fixed(s, ptr_rec(), 4);
    assert forall|i: int| 0 <= i < s.len() implies #[trigger] ptrs_at(b, q, s.len())[i] == s[i] by {
        lemma_record_window(b, q, s, ptr_rec(), 4, i);
        lemma_u32_field(s[i] as u32);
        lemma_u32_window(b, q + 4 * i, le32(s[i] as u32), 0);
    }
    assert(ptrs_at(b, q, s.len()) =~= s);
}

/// A section of node records reads back its values.
proof fn lemma_read_back_nodes(b: Seq<u8>, q: int, s: Seq<NodeProps>)
    requires
        0 <= q,
        q + concat_map(s, node_rec()).len() <= b.len(),
        b.subrange(q, q + concat_map(s, node_rec()).len()) == concat_map(s, node_rec()),
    ensures
        concat_map(s, node_rec()).len() == 8 * s.len(),
        nodes_at(b, q, s.len()) == s,
{
    assert forall|x: NodeProps| #[trigger] node_rec()(x).len() == 8 by {
        lemma_node_fields(x);
    }
    lemma_concat_fixed(s, node_rec(), 8);
    assert forall|i: int| 0 <= i < s.len() implies #[trigger] nodes_at(b, q, s.len())[i] == s[i] by {
        lemma_record_window(b, q, s, node_rec(), 8, i);
        lemma_node_fields(s[i]);
        lemma_u32_window(b, q + 8 * i, node_bytes(s[i]), 0);
        lemma_u32_window(b, q + 8 * i, node_bytes(s[i]), 4);
    }
    assert(nodes_at(b, q, s.len()) =~= s);
}

/// A section of edge records reads back its values.
proof fn lemma_read_back_edges(b: Seq<u8>, q: int, s: Seq<EdgeProps>)
    requires
        0 <= q,
        q + concat_map(s, edge_rec()).len() <= b.len(),
        b.subrange(q, q + concat_map(s, edge_rec()).len()) == concat_map(s, edge_rec()),
    ensures
        concat_map(s, edge_rec()).len() == 8 * s.len(),
        edges_at(b, q, s.len()) == s,
{
    assert forall|x: EdgeProps| #[trigger] edge_rec()(x).len() == 8 by {
        lemma_edge_fields(x);
    }
    lemma_concat_fixed(s, edge_rec(), 8);
    assert forall|i: int| 0 <= i < s.len() implies #[trigger] edges_at(b, q, s.len())[i] == s[i] by {
        lemma_record_window(b, q, s, edge_rec(), 8, i);
        lemma_edge_fields(s[i]);
        lemma_u32_window(b, q + 8 * i, edge_bytes(s[i]), 0);
        lemma_u16_window(b, q + 8 * i, edge_bytes(s[i]), 4);
        assert(b[q + 8 * i + 6] == b.subrange(q + 8 * i, q + 8 * i + 8)[6]);
    }
    assert(edges_at(b, q, s.len()) =~= s);
}

/// A section of room records (starts and counts at most `u32::MAX`) reads
/// back its values.
pub(crate) proof fn lemma_read_back_rooms(b: Seq<u8>, q: int, s: Seq<Room>)
    requires
        0 <= q,
        q + concat_map(s, room_rec()).len() <= b.len(),
        b.subrange(q, q + concat_map(s, room_rec()).len()) == concat_map(s, room_rec()),
        forall|i: int|
            0 <= i < s.len() ==> (#[trigger] s[i]).node_start <= u32::MAX && s[i].node_count
                <= u32::MAX,
    ensures
        concat_map(s, room_rec()).len() == 12 * s.len(),
        rooms_at(b, q, s.len()) == s,
{
    assert forall|x: Room| #[trigger] room_rec()(x).len() == 12 by {
        lemma_room_fields(x);
    }
    lemma_concat_fixed(s, room_rec(), 12);
    assert forall|i: int| 0 <= i < s.len() implies #[trigger] rooms_at(b, q, s.len())[i] == s[i] by {
        lemma_record_window(b, q, s, room_rec(), 12, i);
        lemma_room_fields(s[i]);
        lemma_u32_window(b, q + 12 * i, room_bytes(s[i]), 0);
        lemma_u32_window(b, q + 12 * i, room_bytes(s[i]), 4);
        lemma_u32_window(b, q + 12 * i, room_bytes(s[i]), 8);
    }
    assert(rooms_at(b, q, s.len()) =~= s);
}

/// A section of names (each encoding at most `u32::MAX` bytes long) reads back
/// their UTF-8 encodings.
proof fn lemma_read_back_names(b: Seq<u8>, q: int, s: Seq<Seq<char>>)
    requires
        0 <= q,
        q + concat_map(s, name_rec()).len() <= b.len(),
        b.subrange(q, q + concat_map(s, name_rec()).len()) == concat_map(s, name_rec()),
        forall|i: int| 0 <= i < s.len() ==> encode_utf8(#[trigger] s[i]).len() <= u32::MAX,
    ensures
        parse_names(b, q, s.len()) == Some(
            (s.map_values(|c: Seq<char>| encode_utf8(c)), q + concat_map(s, name_rec()).len()),
        ),
    decreases s.len(),
{
    if s.len() == 0 {
        assert(s.map_values(|c: Seq<char>| encode_utf8(c)) =~= Seq::<Seq<u8>>::empty());
    } else {
        let init = s.drop_last();
        let ci = concat_map(init, name_rec());
        let last = name_bytes(s.last());
        lemma_le_lengths();
        assert(concat_map(s, name_rec()) == ci + last);
        lemma_subwindow(b, q, ci + last, 0, ci.len() as int);
        assert((ci + last).subrange(0, ci.len() as int) =~= ci);
        assert forall|i: int| 0 <= i < init.len() implies encode_utf8(#[trigger] init[i]).len() <= u32::MAX by {
            assert(init[i] == s[i]);
        }
        lemma_read_back_names(b, q, init);
        let p = q + ci.len();
        let l = encode_utf8(s.last()).len();
        lemma_subwindow(b, q, ci + last, ci.len() as int, (ci + last).len() as int);
        assert((ci + last).subrange(ci.len() as int, (ci + last).len() as int) =~= last);
        lemma_u32_field(l as u32);
        lemma_u32_window(b, p, last, 0);
        assert(last.subrange(0, 4) =~= le32(l as u32));
        assert(le32(l as u32).subrange(0, 4) =~= le32(l as u32));
        assert(u32_at(last, 0) == u32_at(le32(l as u32), 0));
        lemma_subwindow(b, p, last, 4, 4 + l as int);
        assert(last.subrange(4, 4 + l as int) =~= encode_utf8(s.last()));
        assert(s.map_values(|c: Seq<char>| encode_utf8(c)) =~= init.map_values(
            |c: Seq<char>| encode_utf8(c),
        ).push(encode_utf8(s.last())));
    }
}

/// A window stays a window when bytes are appended.
pub proof fn lemma_window_extend(s: Seq<u8>, q: int, w: Seq<u8>, t: Seq<u8>)
    requires
        0 <= q,
        q + w.len() <= s.len(),
        s.subrange(q, q + w.len()) == w,
    ensures
        (s + t).subrange(q, q + w.len()) == w,
{
    assert((s + t).subrange(q, q + w.len()) =~= s.subrange(q, q + w.len()));
}

/// The pieces of a concatenation of three are windows of it.
pub proof fn lemma_windows3(a: Seq<u8>, x: Seq<u8>, c: Seq<u8>)
    ensures
        (a + x + c).len() == a.len() + x.len() + c.len(),
        (a + x + c).subrange(0, a.len() as int) == a,
        (a + x + c).subrange(a.len() as int, (a.len() + x.len()) as int) == x,
        (a + x + c).subrange((a.len() + x.len()) as int, (a.len() + x.len() + c.len()) as int) == c,
{
    assert((a + x + c).subrange(0, a.len() as int) =~= a);
    assert((a + x + c).subrange(a.len() as int, (a.len() + x.len()) as int) =~= x);
    assert((a + x + c).subrange((a.len() + x.len()) as int, (a.len() + x.len() + c.len()) as int) =~= c);
}

/// The byte layout of the graph sections: each section is a window at the
/// position the reader computes.
#[verifier::spinoff_prover]
#[verifier::rlimit(60)]
proof fn lemma_graph_layout(g: GraphView, t: Seq<u8>)
    requires
        g.valid(),
        g.num_nodes <= u32::MAX,
        g.col_idx.len() <= u32::MAX,
    ensures
        ({
            let b = graph_bytes(g) + t;
            let sn = concat_map(g.node_props, node_rec());
            let sp = concat_map(g.row_ptr, ptr_rec());
            let sc = concat_map(g.col_idx, u32_rec());
            let se = concat_map(g.edge_props, edge_rec());
            let sm = concat_map(g.room_map, u32_rec());
            &&& graph_bytes(g).len() == 16 + 8 * g.num_nodes + 4 * (g.num_nodes + 1) + 4 * g.col_idx.len()
                + 8 * g.col_idx.len() + 4 + 4 * g.num_nodes
            &&& b.len() == graph_bytes(g).len() + t.len()
            &&& sn.len() == 8 * g.num_nodes
            &&& sp.len() == 4 * (g.num_nodes + 1)
            &&& sc.len() == 4 * g.col_idx.len()
            &&& se.len() == 8 * g.col_idx.len()
            &&& sm.len() == 4 * g.num_nodes
            &&& b.subrange(0, 4) == magic()
            &&& u32_at(b, 4) == VERSION
            &&& hdr_nodes(b) == g.num_nodes
            &&& hdr_edges(b) == g.col_idx.len()
            &&& b.subrange(16, 16 + sn.len() as int) == sn
            &&& b.subrange(nodes_end(b), nodes_end(b) + sp.len()) == sp
            &&& b.subrange(ptrs_end(b), ptrs_end(b) + sc.len()) == sc
            &&& b.subrange(cols_end(b), cols_end(b) + se.len()) == se
            &&& map_len(b) == g.num_nodes
            &&& b.subrange(edges_end(b) + 4, edges_end(b) + 4 + sm.len()) == sm
            &&& graph_end(b) == graph_bytes(g).len()
        }),
{
    let n = g.num_nodes;
    let e = g.col_idx.len();
    lemma_le_lengths();
    assert forall|x: NodeProps| #[trigger] node_rec()(x).len() == 8 by {
        lemma_node_fields(x);
    }
    assert forall|x: EdgeProps| #[trigger] edge_rec()(x).len() == 8 by {
        lemma_edge_fields(x);
    }
    lemma_concat_fixed(g.node_props, node_rec(), 8);
    lemma_concat_fixed(g.row_ptr, ptr_rec(), 4);
    lemma_concat_fixed(g.col_idx, u32_rec(), 4);
    lemma_concat_fixed(g.edge_props, edge_rec(), 8);
    lemma_concat_fixed(g.room_map, u32_rec(), 4);
    let h = magic() + le32(VERSION) + le32(n as u32) + le32(e as u32);
    let sn = concat_map(g.node_props, node_rec());
    let sp = concat_map(g.row_ptr, ptr_rec());
    let sc = concat_map(g.col_idx, u32_rec());
    let se = concat_map(g.edge_props, edge_rec());
    let ml = le32(n as u32);
    let sm = concat_map(g.room_map, u32_rec());
    let p1 = h + sn;
    let p2 = p1 + sp;
    let p3 = p2 + sc;
    let p4 = p3 + se;
    let p5 = p4 + ml;
    let gb = p5 + sm;
    assert(gb == graph_bytes(g));
    let b = gb + t;
    // Header.
    assert(h.subrange(0, 4) =~= magic());
    assert(h.subrange(4, 8) =~= le32(VERSION));
    assert(h.subrange(8, 12) =~= le32(n as u32));
    assert(h.subrange(12, 16) =~= le32(e as u32));
    lemma_window_extend(h, 0, magic(), sn + sp + sc + se + ml + sm + t);
    lemma_window_extend(h, 4, le32(VERSION), sn + sp + sc + se + ml + sm + t);
    lemma_window_extend(h, 8, le32(n as u32), sn + sp + sc + se + ml + sm + t);
    lemma_window_extend(h, 12, le32(e as u32), sn + sp + sc + se + ml + sm + t);
    assert(b =~= h + (sn + sp + sc + se + ml + sm + t));
    lemma_u32_field(VERSION);
    lemma_u32_field(n as u32);
    lemma_u32_field(e as u32);
    lemma_u32_window(b, 4, le32(VERSION), 0);
    lemma_u32_window(b, 8, le32(n as u32), 0);
    lemma_u32_window(b, 12, le32(e as u32), 0);
    // Sections.
    lemma_windows3(h, sn, sp + sc + se + ml + sm + t);
    assert(b =~= h + sn + (sp + sc + se + ml + sm + t));
    lemma_windows3(p1, sp, sc + se + ml + sm + t);
    assert(b =~= p1 + sp + (sc + se + ml + sm + t));
    lemma_windows3(p2, sc, se + ml + sm + t);
    assert(b =~= p2 + sc + (se + ml + sm + t));
    lemma_windows3(p3, se, ml + sm + t);
    assert(b =~= p3 + se + (ml + sm + t));
    lemma_windows3(p4, ml, sm + t);
    assert(b =~= p4 + ml + (sm + t));
    lemma_windows3(p5, sm, t);
    lemma_u32_field(n as u32);
    lemma_u32_window(b, p4.len() as int, ml, 0);
}

/// The byte layout of the sections after the graph, placed after `pre`.
#[verifier::spinoff_prover]
proof fn lemma_tail_layout(pre: Seq<u8>, rooms: Seq<Room>, names: Seq<Seq<char>>, sim: Seq<u32>)
    ensures
        ({
            let b = pre + tail_bytes(rooms, names, sim);
            let q = pre.len() as int;
            let sr = concat_map(rooms, room_rec());
            let sk = concat_map(names, name_rec());
            let ss = concat_map(sim, u32_rec());
            &&& sr.len() == 12 * rooms.len()
            &&& ss.len() == 4 * sim.len()
            &&& b.len() == q + 4 + sr.len() + 4 + sk.len() + ss.len()
            &&& u32_at(b, q) == rooms.len() as u32
            &&& b.subrange(q + 4, q + 4 + sr.len()) == sr
            &&& u32_at(b, q + 4 + sr.len()) == names.len() as u32
            &&& b.subrange(q + 8 + sr.len(), q + 8 + sr.len() + sk.len()) == sk
            &&& b.subrange(q + 8 + sr.len() + sk.len(), b.len() as int) == ss
        }),
{
    lemma_le_lengths();
    assert forall|x: Room| #[trigger] room_rec()(x).len() == 12 by {
        lemma_room_fields(x);
    }
    lemma_concat_fixed(rooms, room_rec(), 12);
    lemma_concat_fixed(sim, u32_rec(), 4);
    let r0 = le32(rooms.len() as u32);
    let sr = concat_map(rooms, room_rec());
    let k0 = le32(names.len() as u32);
    let sk = concat_map(names, name_rec());
    let ss = concat_map(sim, u32_rec());
    let b = pre + tail_bytes(rooms, names, sim);
    let q = pre.len() as int;
    assert(b =~= pre + r0 + (sr + k0 + sk + ss));
    lemma_windows3(pre, r0, sr + k0 + sk + ss);
    assert(b =~= (pre + r0) + sr + (k0 + sk + ss));
    lemma_windows3(pre + r0, sr, k0 + sk + ss);
    assert(b =~= (pre + r0 + sr) + k0 + (sk + ss));
    lemma_windows3(pre + r0 + sr, k0, sk + ss);
    assert(b =~= (pre + r0 + sr + k0) + sk + ss);
    lemma_windows3(pre + r0 + sr + k0, sk, ss);
    lemma_u32_field(rooms.len() as u32);
    lemma_u32_window(b, q, r0, 0);
    lemma_u32_field(names.len() as u32);
    lemma_u32_window(b, q + 4 + sr.len(), k0, 0);
}

/// What writing a level file holding `g`, `rooms`, `names` and `sim` produces
/// reads back as them: the header is accepted, the graph sections hold `g`, and
/// the remaining sections hold `rooms`, the UTF-8 encodings of `names` and `sim`.
pub open spec fn reads_back(
    g: GraphView,
    rooms: Seq<Room>,
    names: Seq<Seq<char>>,
    sim: Seq<u32>,
    b: Seq<u8>,
) -> bool {
    &&& header_ok(b)
    &&& graph_fits(b)
    &&& parsed_graph(b) == g
    &&& parse_tail(b) == Some((rooms, names.map_values(|c: Seq<char>| encode_utf8(c)), sim))
    &&& tail_ids_fit(b)
}

/// Round trip of the level format: the bytes written for a graph, its rooms
/// and a relation vocabulary read back as exactly those (names decode back to
/// themselves), provided every count, offset and name length fits the format's
/// `u32` fields, room ids fit `usize`, and the file stays within
/// `MAX_FILE_SIZE`.
#[verifier::spinoff_prover]
pub proof fn lemma_level_roundtrip(
    g: GraphView,
    rooms: Seq<Room>,
    names: Seq<Seq<char>>,
    sim: Seq<u32>,
)
    requires
        g.valid(),
        g.num_nodes <= u32::MAX,
        g.col_idx.len() <= u32::MAX,
        rooms.len() <= u32::MAX,
        forall|i: int|
            0 <= i < rooms.len() ==> (#[trigger] rooms[i]).node_start <= u32::MAX
                && rooms[i].node_count <= u32::MAX && rooms[i].id < usize::MAX,
        names.len() <= u32::MAX,
        forall|i: int| 0 <= i < names.len() ==> encode_utf8(#[trigger] names[i]).len() <= u32::MAX,
        sim.len() == names.len() * names.len(),
        level_bytes(g, rooms, names, sim).len() <= MAX_FILE_SIZE,
    ensures
        reads_back(g, rooms, names, sim, level_bytes(g, rooms, names, sim)),
        forall|i: int|
            0 <= i < names.len() ==> valid_utf8(encode_utf8(#[trigger] names[i])) && decode_utf8(
                encode_utf8(names[i]),
            ) == names[i],
{
    let b = level_bytes(g, rooms, names, sim);
    let gb = graph_bytes(g);
    lemma_graph_layout(g, tail_bytes(rooms, names, sim));
    lemma_tail_layout(gb, rooms, names, sim);
    let n = g.num_nodes;
    let sn = concat_map(g.node_props, node_rec());
    let sp = concat_map(g.row_ptr, ptr_rec());
    let sc = concat_map(g.col_idx, u32_rec());
    let se = concat_map(g.edge_props, edge_rec());
    let sm = concat_map(g.room_map, u32_rec());
    let sr = concat_map(rooms, room_rec());
    let sk = concat_map(names, name_rec());
    let ss = concat_map(sim, u32_rec());
    let q = gb.len() as int;
    assert(header_ok(b));
    assert(graph_fits(b));
    lemma_read_back_nodes(b, 16, g.node_props);
    assert forall|i: int| 0 <= i < g.row_ptr.len() implies #[trigger] g.row_ptr[i] <= u32::MAX by {
        assert(g.row_ptr[i] <= g.row_ptr[n as int]);
    }
    lemma_read_back_ptrs(b, nodes_end(b), g.row_ptr);
    lemma_read_back_u32s(b, ptrs_end(b), g.col_idx);
    lemma_read_back_edges(b, cols_end(b), g.edge_props);
    lemma_read_back_u32s(b, edges_end(b) + 4, g.room_map);
    assert(parsed_graph(b) =~= g);
    lemma_read_back_rooms(b, q + 4, rooms);
    lemma_read_back_names(b, q + 8 + sr.len(), names);
    lemma_read_back_u32s(b, q + 8 + sr.len() + sk.len(), sim);
    assert(parse_tail(b) == Some((rooms, names.map_values(|c: Seq<char>| encode_utf8(c)), sim)));
    assert(tail_ids_fit(b));
    assert forall|i: int|
        0 <= i < names.len() implies valid_utf8(encode_utf8(#[trigger] names[i])) && decode_utf8(
            encode_utf8(names[i]),
        ) == names[i] by {
        encode_utf8_valid_utf8(names[i]);
        encode_utf8_decode_utf8(names[i]);
    }
}

} // verus!
