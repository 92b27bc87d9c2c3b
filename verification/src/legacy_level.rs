//! Version 1 of the level file format (angle-bin model): the 64-byte header
//! and its errors.
//!
//! Header layout, little-endian: magic `"RGDB"`, version (`u32`), node, edge and
//! room counts (`u32`), angle bin count (`u8`), 3 pad bytes, the offsets of the
//! node, edge, room and PVS sections (`u64`), a checksum (`u32`) and 4 reserved
//! bytes.

use vstd::prelude::*;
use crate::level_file::unexpected_eof;
use crate::bytes::{
    le32, le64, push_u32_le, push_u64_le, read_u32_le, read_u64_le, u32_at, u64_at,
    lemma_u32_roundtrip, lemma_u64_roundtrip, lemma_le_lengths,
};
use crate::messages::{decimal, fmt_two_usize, fmt_usize_between};

verus! {

/// Version of this format.
pub const VERSION: u32 = 1;

/// Size of the header in bytes.
pub const HEADER_SIZE: u64 = 64;

/// Largest node count a header may announce.
pub const MAX_NODES: u32 = 100_000_000;

/// Largest edge count a header may announce.
pub const MAX_EDGES: u32 = 1_000_000_000;

/// Largest room count a header may announce.
pub const MAX_ROOMS: u32 = 10_000_000;

/// Errors of level file operations (version 1).
#[derive(Debug)]
pub enum LevelFileError {
    /// The file does not start with `"RGDB"`.
    InvalidMagic,
    /// The file has a version other than 1.
    UnsupportedVersion(u32),
    /// Reading failed.
    Io(std::io::Error),
    /// Serialization failed (with a description).
    Serialization(String),
    /// The content is inconsistent (with a description).
    StructureMismatch(String),
}

/// The level file header (64 bytes).
#[derive(Debug, Clone, Copy)]
pub struct LevelHeader {
    pub magic: [u8; 4],
    pub version: u32,
    pub num_nodes: u32,
    pub num_edges: u32,
    pub num_rooms: u32,
    pub num_angle_bins: u8,
    pub padding: [u8; 3],
    /// Offsets of the sections, in bytes from the start of the file.
    pub node_section_offset: u64,
    pub edge_section_offset: u64,
    pub rooms_section_offset: u64,
    pub pvs_section_offset: u64,
    /// Checksum (written as 0).
    pub checksum: u32,
    pub reserved: [u8; 4],
}

/// The file magic `"RGDB"`.
pub open spec fn magic() -> Seq<u8> {
    seq![0x52u8, 0x47u8, 0x44u8, 0x42u8]
}

/// The 64 bytes of a header.
pub open spec fn header_bytes(h: LevelHeader) -> Seq<u8> {
    h.magic@ + le32(h.version) + le32(h.num_nodes) + le32(h.num_edges) + le32(h.num_rooms)
        + seq![h.num_angle_bins] + h.padding@ + le64(h.node_section_offset) + le64(
        h.edge_section_offset,
    ) + le64(h.rooms_section_offset) + le64(h.pvs_section_offset) + le32(h.checksum)
        + h.reserved@
}

/// The header that `decode` reads from `b` (when `b` holds at least 64 bytes).
pub open spec fn header_at(b: Seq<u8>) -> LevelHeader {
    LevelHeader {
        magic: [b[0], b[1], b[2], b[3]],
        version: u32_at(b, 4),
        num_nodes: u32_at(b, 8),
        num_edges: u32_at(b, 12),
        num_rooms: u32_at(b, 16),
        num_angle_bins: b[20],
        padding: [b[21], b[22], b[23]],
        node_section_offset: u64_at(b, 24),
        edge_section_offset: u64_at(b, 32),
        rooms_section_offset: u64_at(b, 40),
        pvs_section_offset: u64_at(b, 48),
        checksum: u32_at(b, 56),
        reserved: [b[60], b[61], b[62], b[63]],
    }
}

/// The message for a header count `value` above its maximum `max`:
/// `{what}{value} (max: {max})`.
pub open spec fn count_message(what: Seq<char>, value: u32, max: u32) -> Seq<char> {
    what + decimal(value as nat) + " (max: "@ + decimal(max as nat) + ")"@
}

/// The checks `decode` makes of a header's fields.
pub open spec fn header_acceptable(h: LevelHeader) -> bool {
    &&& h.magic@ == magic()
    &&& h.version == VERSION
    &&& h.num_nodes <= MAX_NODES
    &&& h.num_edges <= MAX_EDGES
    &&& h.num_rooms <= MAX_ROOMS
    &&& h.num_angle_bins != 0
}

impl LevelHeader {
    /// A header with the current magic and version, zero padding, checksum
    /// and reserved bytes.
    pub fn new(
        num_nodes: u32,
        num_edges: u32,
        num_rooms: u32,
        num_angle_bins: u8,
        node_offset: u64,
        edge_offset: u64,
        rooms_offset: u64,
        pvs_offset: u64,
    ) -> (h: Self)
        ensures
            h.magic@ == magic(),
            h.version == VERSION,
            h.num_nodes == num_nodes,
            h.num_edges == num_edges,
            h.num_rooms == num_rooms,
            h.num_angle_bins == num_angle_bins,
            h.padding@ == seq![0u8, 0u8, 0u8],
            h.node_section_offset == node_offset,
            h.edge_section_offset == edge_offset,
            h.rooms_section_offset == rooms_offset,
            h.pvs_section_offset == pvs_offset,
            h.checksum == 0,
            h.reserved@ == seq![0u8, 0u8, 0u8, 0u8],
    {
        let h = LevelHeader {
            magic: [0x52u8, 0x47u8, 0x44u8, 0x42u8],
            version: VERSION,
            num_nodes,
            num_edges,
            num_rooms,
            num_angle_bins,
            padding: [0u8; 3],
            node_section_offset: node_offset,
            edge_section_offset: edge_offset,
            rooms_section_offset: rooms_offset,
            pvs_section_offset: pvs_offset,
            checksum: 0,
            reserved: [0u8; 4],
        };
        proof {
            assert(h.magic@ =~= magic());
            assert(h.padding@ =~= seq![0u8, 0u8, 0u8]);
            assert(h.reserved@ =~= seq![0u8, 0u8, 0u8, 0u8]);
        }
        h
    }

    /// The 64 bytes of this header.
    pub fn encode(&self) -> (r: Vec<u8>)
        ensures
            r@ == header_bytes(*self),
    {
        let mut out: Vec<u8> = Vec::new();
        out.push(self.magic[0]);
        out.push(self.magic[1]);
        out.push(self.magic[2]);
        out.push(self.magic[3]);
        proof {
            assert(out@ =~= self.magic@);
        }
        push_u32_le(&mut out, self.version);
        push_u32_le(&mut out, self.num_nodes);
        push_u32_le(&mut out, self.num_edges);
        push_u32_le(&mut out, self.num_rooms);
        out.push(self.num_angle_bins);
        let ghost before_pad = out@;
        out.push(self.padding[0]);
        out.push(self.padding[1]);
        out.push(self.padding[2]);
        proof {
            assert(out@ =~= before_pad + self.padding@);
        }
        push_u64_le(&mut out, self.node_section_offset);
        push_u64_le(&mut out, self.edge_section_offset);
        push_u64_le(&mut out, self.rooms_section_offset);
        push_u64_le(&mut out, self.pvs_section_offset);
        push_u32_le(&mut out, self.checksum);
        let ghost before_res = out@;
        out.push(self.reserved[0]);
        out.push(self.reserved[1]);
        out.push(self.reserved[2]);
        out.push(self.reserved[3]);
        proof {
            assert(out@ =~= before_res + self.reserved@);
            assert(out@ =~= header_bytes(*self));
        }
        out
    }

    /// Reads a header from the start of `b`, checking it field by field in
    /// order: the magic, the version, the node, edge and room counts against
    /// their maxima and a non-zero angle bin count. A read past the end of `b`
    /// fails with `Io`.
    pub fn decode(b: &[u8]) -> (r: Result<LevelHeader, LevelFileError>)
        ensures
            b@.len() < 4 ==> (r matches Err(LevelFileError::Io(_))),
            b@.len() >= 4 && b@.subrange(0, 4) != magic() ==> (r matches Err(
                LevelFileError::InvalidMagic,
            )),
            b@.len() >= 4 && b@.subrange(0, 4) == magic() ==> {
                &&& b@.len() < 8 ==> (r matches Err(LevelFileError::Io(_)))
                &&& b@.len() >= 8 && u32_at(b@, 4) != VERSION ==> (r matches Err(
                    LevelFileError::UnsupportedVersion(v),
                ) && v == u32_at(b@, 4))
                &&& b@.len() >= 8 && u32_at(b@, 4) == VERSION ==> {
                    &&& b@.len() < 12 ==> (r matches Err(LevelFileError::Io(_)))
                    &&& b@.len() >= 12 && u32_at(b@, 8) > MAX_NODES ==> (r matches Err(
                        LevelFileError::StructureMismatch(m),
                    ) && m@ == count_message("Invalid num_nodes: "@, u32_at(b@, 8), MAX_NODES))
                    &&& b@.len() >= 12 && u32_at(b@, 8) <= MAX_NODES ==> {
                        &&& b@.len() < 16 ==> (r matches Err(LevelFileError::Io(_)))
                        &&& b@.len() >= 16 && u32_at(b@, 12) > MAX_EDGES ==> (r matches Err(
                            LevelFileError::StructureMismatch(m),
                        ) && m@ == count_message("Invalid num_edges: "@, u32_at(b@, 12), MAX_EDGES))
                        &&& b@.len() >= 16 && u32_at(b@, 12) <= MAX_EDGES ==> {
                            &&& b@.len() < 20 ==> (r matches Err(LevelFileError::Io(_)))
                            &&& b@.len() >= 20 && u32_at(b@, 16) > MAX_ROOMS ==> (r matches Err(
                                LevelFileError::StructureMismatch(m),
                            ) && m@ == count_message("Invalid num_rooms: "@, u32_at(b@, 16), MAX_ROOMS))
                            &&& b@.len() >= 20 && u32_at(b@, 16) <= MAX_ROOMS ==> {
                                &&& b@.len() < 21 ==> (r matches Err(LevelFileError::Io(_)))
                                &&& b@.len() >= 21 && b@[20] == 0 ==> (r matches Err(
                                    LevelFileError::StructureMismatch(m),
                                ) && m@ == "Invalid num_angle_bins: "@ + decimal(0))
                                &&& b@.len() >= 21 && b@[20] != 0 && b@.len() < 64 ==> (r matches Err(
                                    LevelFileError::Io(_),
                                ))
                                &&& b@.len() >= 21 && b@[20] != 0 && b@.len() >= 64 ==> r
                                    == Ok::<LevelHeader, LevelFileError>(header_at(b@))
                            }
                        }
                    }
                }
            },
    {
        let len = b.len();
        if len < 4 {
            return Err(LevelFileError::Io(unexpected_eof()));
        }
        if b[0] != 0x52u8 || b[1] != 0x47u8 || b[2] != 0x44u8 || b[3] != 0x42u8 {
            proof {
                assert(b@.subrange(0, 4) != magic()) by {
                    if b@.subrange(0, 4) == magic() {
                        assert(b@.subrange(0, 4)[0] == b@[0]);
                        assert(b@.subrange(0, 4)[1] == b@[1]);
                        assert(b@.subrange(0, 4)[2] == b@[2]);
                        assert(b@.subrange(0, 4)[3] == b@[3]);
                    }
                }
            }
            return Err(LevelFileError::InvalidMagic);
        }
        proof {
            assert(b@.subrange(0, 4) =~= magic());
        }
        if len < 8 {
            return Err(LevelFileError::Io(unexpected_eof()));
        }
        let version = read_u32_le(b, 4);
        if version != VERSION {
            return Err(LevelFileError::UnsupportedVersion(version));
        }
        if len < 12 {
            return Err(LevelFileError::Io(unexpected_eof()));
        }
        let num_nodes = read_u32_le(b, 8);
        if num_nodes > MAX_NODES {
            return Err(
                LevelFileError::StructureMismatch(
                    fmt_two_usize(
                        "Invalid num_nodes: ",
                        num_nodes as usize,
                        " (max: ",
                        MAX_NODES as usize,
                        ")",
                    ),
                ),
            );
        }
        if len < 16 {
            return Err(LevelFileError::Io(unexpected_eof()));
        }
        let num_edges = read_u32_le(b, 12);
        if num_edges > MAX_EDGES {
            return Err(
                LevelFileError::StructureMismatch(
                    fmt_two_usize(
                        "Invalid num_edges: ",
                        num_edges as usize,
                        " (max: ",
                        MAX_EDGES as usize,
                        ")",
                    ),
                ),
            );
        }
        if len < 20 {
            return Err(LevelFileError::Io(unexpected_eof()));
        }
        let num_rooms = read_u32_le(b, 16);
        if num_rooms > MAX_ROOMS {
            return Err(
                LevelFileError::StructureMismatch(
                    fmt_two_usize(
                        "Invalid num_rooms: ",
                        num_rooms as usize,
                        " (max: ",
                        MAX_ROOMS as usize,
                        ")",
                    ),
                ),
            );
        }
        if len < 21 {
            return Err(LevelFileError::Io(unexpected_eof()));
        }
        let num_angle_bins = b[20];
        if num_angle_bins == 0 {
            proof {
                reveal_strlit("");
                assert("Invalid num_angle_bins: "@ + decimal(0) + ""@ =~= "Invalid num_angle_bins: "@ + decimal(0));
            }
            return Err(
                LevelFileError::StructureMismatch(
                    fmt_usize_between("Invalid num_angle_bins: ", num_angle_bins as usize, ""),
                ),
            );
        }
        if len < 64 {
            return Err(LevelFileError::Io(unexpected_eof()));
        }
        Ok(
            LevelHeader {
                magic: [b[0], b[1], b[2], b[3]],
                version,
                num_nodes,
                num_edges,
                num_rooms,
                num_angle_bins,
                padding: [b[21], b[22], b[23]],
                node_section_offset: read_u64_le(b, 24),
                edge_section_offset: read_u64_le(b, 32),
                rooms_section_offset: read_u64_le(b, 40),
                pvs_section_offset: read_u64_le(b, 48),
                checksum: read_u32_le(b, 56),
                reserved: [b[60], b[61], b[62], b[63]],
            },
        )
    }
}

/// Round trip of the header: the bytes of an acceptable header are 64 long and
/// read back as that header.
pub proof fn lemma_header_roundtrip(h: LevelHeader)
    requires
        header_acceptable(h),
    ensures
        header_bytes(h).len() == HEADER_SIZE,
        header_at(header_bytes(h)) == h,
        header_bytes(h).subrange(0, 4) == magic(),
        u32_at(header_bytes(h), 4) == VERSION,
        u32_at(header_bytes(h), 8) <= MAX_NODES,
        u32_at(header_bytes(h), 12) <= MAX_EDGES,
        u32_at(header_bytes(h), 16) <= MAX_ROOMS,
        header_bytes(h)[20] != 0,
{
    lemma_le_lengths();
    let m = h.magic@;
    let b = header_bytes(h);
    let a1 = m;
    let a2 = a1 + le32(h.version);
    let a3 = a2 + le32(h.num_nodes);
    let a4 = a3 + le32(h.num_edges);
    let a5 = a4 + le32(h.num_rooms);
    let a6 = a5 + seq![h.num_angle_bins] + h.padding@;
    let a7 = a6 + le64(h.node_section_offset);
    let a8 = a7 + le64(h.edge_section_offset);
    let a9 = a8 + le64(h.rooms_section_offset);
    let a10 = a9 + le64(h.pvs_section_offset);
    let a11 = a10 + le32(h.checksum);
    lemma_u64_roundtrip(a6, h.node_section_offset, Seq::empty());
    lemma_u64_roundtrip(a7, h.edge_section_offset, Seq::empty());
    lemma_u64_roundtrip(a8, h.rooms_section_offset, Seq::empty());
    lemma_u64_roundtrip(a9, h.pvs_section_offset, Seq::empty());
    assert(b =~= a11 + h.reserved@);
    assert(b.len() == 64);
    // Integer fields: each is a window of `b`.
    lemma_u32_roundtrip(a1, h.version, b.subrange(8, 64));
    assert(a1 + le32(h.version) + b.subrange(8, 64) =~= b);
    lemma_u32_roundtrip(a2, h.num_nodes, b.subrange(12, 64));
    assert(a2 + le32(h.num_nodes) + b.subrange(12, 64) =~= b);
    lemma_u32_roundtrip(a3, h.num_edges, b.subrange(16, 64));
    assert(a3 + le32(h.num_edges) + b.subrange(16, 64) =~= b);
    lemma_u32_roundtrip(a4, h.num_rooms, b.subrange(20, 64));
    assert(a4 + le32(h.num_rooms) + b.subrange(20, 64) =~= b);
    lemma_u64_roundtrip(a6, h.node_section_offset, b.subrange(32, 64));
    assert(a6 + le64(h.node_section_offset) + b.subrange(32, 64) =~= b);
    lemma_u64_roundtrip(a7, h.edge_section_offset, b.subrange(40, 64));
    assert(a7 + le64(h.edge_section_offset) + b.subrange(40, 64) =~= b);
    lemma_u64_roundtrip(a8, h.rooms_section_offset, b.subrange(48, 64));
    assert(a8 + le64(h.rooms_section_offset) + b.subrange(48, 64) =~= b);
    lemma_u64_roundtrip(a9, h.pvs_section_offset, b.subrange(56, 64));
    assert(a9 + le64(h.pvs_section_offset) + b.subrange(56, 64) =~= b);
    lemma_u32_roundtrip(a10, h.checksum, b.subrange(60, 64));
    assert(a10 + le32(h.checksum) + b.subrange(60, 64) =~= b);
    assert(b.subrange(0, 4) =~= magic());
    let r = header_at(b);
    assert(r.magic@ =~= h.magic@);
    assert(r.padding@ =~= h.padding@);
    assert(r.reserved@ =~= h.reserved@);
    assert(r.version == h.version);
    assert(r.num_nodes == h.num_nodes);
    assert(r.num_edges == h.num_edges);
    assert(r.num_rooms == h.num_rooms);
    assert(r.num_angle_bins == h.num_angle_bins);
    assert(r.node_section_offset == h.node_section_offset);
    assert(r.edge_section_offset == h.edge_section_offset);
    assert(r.rooms_section_offset == h.rooms_section_offset);
    assert(r.pvs_section_offset == h.pvs_section_offset);
    assert(r.checksum == h.checksum);
    assert(r.magic == h.magic);
    assert(r.padding == h.padding);
    assert(r.reserved == h.reserved);
}

} // verus!
