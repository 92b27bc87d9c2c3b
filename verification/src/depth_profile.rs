//! The depth-profile snapshot format and its errors.
//!
//! Layout (little-endian): `"RGDP"`, version 1 (`u32`), `max_depth` (`u32`),
//! the `(max_depth + 1)^2` answer masses and background masses (`f32` bits,
//! row-major `[hop][depth]`), the prior strength and floor (`f32` bits) and the
//! rebuild cadence (`u32`).

use vstd::prelude::*;
use crate::bytes::{le32, push_u32_le, read_u32_le, u32_at, lemma_le_lengths};
use crate::level_file::{
    unexpected_eof,
    concat_map, u32_rec, u32s_at, put_u32s, read_u32s, lemma_concat_fixed, lemma_read_back_u32s,
    lemma_subwindow, lemma_u32_field, lemma_u32_window, lemma_windows3,
};
use crate::messages::{fmt_io_error, fmt_two_usize, fmt_usize_between};

verus! {

/// Largest `max_depth` a snapshot may hold.
pub const MAX_DEPTH: u32 = 4096;

/// Errors of depth-profile stores.
#[derive(Debug)]
pub enum DepthProfileError {
    /// Reading or writing failed.
    Io(std::io::Error),
    /// The snapshot is corrupt (with a description).
    Corrupt(String),
}

impl DepthProfileError {
    /// The message this error displays as.
    pub fn to_message(&self) -> (r: String)
        ensures
            self.displays_as(r@),
    {
        match self {
            DepthProfileError::Io(e) => fmt_io_error("io error: ", e),
            DepthProfileError::Corrupt(s) => {
                let mut m = "corrupt snapshot: ".to_string();
                m.append(s.as_str());
                m
            },
        }
    }

    /// `m` is this error's message. For an I/O error it starts with
    /// `"io error: "`, followed by the error's own description.
    pub open spec fn displays_as(self, m: Seq<char>) -> bool {
        match self {
            DepthProfileError::Io(_) => "io error: "@.len() <= m.len() && m.subrange(0, "io error: "@.len() as int) == "io error: "@,
            DepthProfileError::Corrupt(s) => m == "corrupt snapshot: "@ + s@,
        }
    }
}

/// The content of a depth-profile snapshot; `f32` values as bits.
pub struct DepthProfileSnapshot {
    pub max_depth: u32,
    /// Row-major `[hop][depth]` answer masses, `(max_depth + 1)^2` entries.
    pub answer: Vec<u32>,
    /// Row-major `[hop][depth]` background masses, `(max_depth + 1)^2` entries.
    pub background: Vec<u32>,
    pub prior_strength_bits: u32,
    pub floor_bits: u32,
    pub rebuild_every_n: u32,
}

/// The snapshot magic `"RGDP"`.
pub open spec fn dp_magic() -> Seq<u8> {
    seq![0x52u8, 0x47u8, 0x44u8, 0x50u8]
}

/// The bytes of a snapshot.
pub open spec fn depth_profile_bytes(
    max_depth: u32,
    answer: Seq<u32>,
    background: Seq<u32>,
    prior_strength_bits: u32,
    floor_bits: u32,
    rebuild_every_n: u32,
) -> Seq<u8> {
    dp_magic() + le32(1) + le32(max_depth) + concat_map(answer, u32_rec()) + concat_map(
        background,
        u32_rec(),
    ) + le32(prior_strength_bits) + le32(floor_bits) + le32(rebuild_every_n)
}

/// Number of entries of each matrix for a `max_depth`.
pub open spec fn dp_size(max_depth: nat) -> nat {
    (max_depth + 1) * (max_depth + 1)
}

/// The header is acceptable: magic, version 1, `max_depth` at most
/// `MAX_DEPTH` with both matrices fitting the input's length.
pub open spec fn dp_header_ok(b: Seq<u8>) -> bool {
    &&& b.len() >= 12
    &&& b.subrange(0, 4) == dp_magic()
    &&& u32_at(b, 4) == 1
    &&& u32_at(b, 8) <= MAX_DEPTH
    &&& 8 * dp_size(u32_at(b, 8) as nat) <= b.len()
}

/// Serializes a snapshot.
pub fn encode_depth_profile(s: &DepthProfileSnapshot) -> (r: Vec<u8>)
    ensures
        r@ == depth_profile_bytes(
            s.max_depth,
            s.answer@,
            s.background@,
            s.prior_strength_bits,
            s.floor_bits,
            s.rebuild_every_n,
        ),
{
    let mut out: Vec<u8> = Vec::new();
    out.push(0x52u8);
    out.push(0x47u8);
    out.push(0x44u8);
    out.push(0x50u8);
    push_u32_le(&mut out, 1);
    push_u32_le(&mut out, s.max_depth);
    put_u32s(&mut out, s.answer.as_slice());
    put_u32s(&mut out, s.background.as_slice());
    push_u32_le(&mut out, s.prior_strength_bits);
    push_u32_le(&mut out, s.floor_bits);
    push_u32_le(&mut out, s.rebuild_every_n);
    proof {
        assert(out@ =~= depth_profile_bytes(
            s.max_depth,
            s.answer@,
            s.background@,
            s.prior_strength_bits,
            s.floor_bits,
            s.rebuild_every_n,
        ));
    }
    out
}

/// Reads a snapshot from the bytes of a file, checking in order the magic, the
/// version, and `max_depth` against `MAX_DEPTH` and against the input's length
/// (two matrices of 4-byte entries must fit). A read past the end fails with
/// `Io`; the checks fail with `Corrupt`.
pub fn decode_depth_profile(b: &[u8]) -> (r: Result<DepthProfileSnapshot, DepthProfileError>)
    ensures
        b@.len() < 4 ==> (r matches Err(DepthProfileError::Io(_))),
        b@.len() >= 4 && b@.subrange(0, 4) != dp_magic() ==> (r matches Err(
            DepthProfileError::Corrupt(_),
        )),
        b@.len() >= 4 && b@.subrange(0, 4) == dp_magic() ==> {
            &&& b@.len() < 8 ==> (r matches Err(DepthProfileError::Io(_)))
            &&& b@.len() >= 8 && u32_at(b@, 4) != 1 ==> (r matches Err(DepthProfileError::Corrupt(_)))
            &&& b@.len() >= 8 && u32_at(b@, 4) == 1 && b@.len() < 12 ==> (r matches Err(
                DepthProfileError::Io(_),
            ))
            &&& b@.len() >= 12 && u32_at(b@, 4) == 1 && !dp_header_ok(b@) ==> (r matches Err(
                DepthProfileError::Corrupt(_),
            ))
        },
        dp_header_ok(b@) ==> ({
            let sz = dp_size(u32_at(b@, 8) as nat) as int;
            if 12 + 8 * sz + 12 > b@.len() {
                r matches Err(DepthProfileError::Io(_))
            } else {
                r matches Ok(s) && s.max_depth == u32_at(b@, 8) && s.answer@ == u32s_at(b@, 12, sz as nat)
                    && s.background@ == u32s_at(b@, 12 + 4 * sz, sz as nat) && s.prior_strength_bits
                    == u32_at(b@, 12 + 8 * sz) && s.floor_bits == u32_at(b@, 12 + 8 * sz + 4)
                    && s.rebuild_every_n == u32_at(b@, 12 + 8 * sz + 8)
            }
        }),
{
    let len = b.len();
    if len < 4 {
        return Err(DepthProfileError::Io(unexpected_eof()));
    }
    if b[0] != 0x52u8 || b[1] != 0x47u8 || b[2] != 0x44u8 || b[3] != 0x50u8 {
        proof {
            assert(b@.subrange(0, 4) != dp_magic()) by {
                if b@.subrange(0, 4) == dp_magic() {
                    assert(b@.subrange(0, 4)[0] == b@[0]);
                    assert(b@.subrange(0, 4)[1] == b@[1]);
                    assert(b@.subrange(0, 4)[2] == b@[2]);
                    assert(b@.subrange(0, 4)[3] == b@[3]);
                }
            }
        }
        return Err(DepthProfileError::Corrupt("bad magic".to_string()));
    }
    proof {
        assert(b@.subrange(0, 4) =~= dp_magic());
    }
    if len < 8 {
        return Err(DepthProfileError::Io(unexpected_eof()));
    }
    let version = read_u32_le(b, 4);
    if version != 1 {
        return Err(
            DepthProfileError::Corrupt(fmt_usize_between("unsupported version ", version as usize, "")),
        );
    }
    if len < 12 {
        return Err(DepthProfileError::Io(unexpected_eof()));
    }
    let max_depth = read_u32_le(b, 8);
    if max_depth > MAX_DEPTH {
        return Err(
            DepthProfileError::Corrupt(fmt_usize_between("max_depth=", max_depth as usize, " too large")),
        );
    }
    proof {
        assert(dp_size(max_depth as nat) <= 4097 * 4097) by (nonlinear_arith)
            requires
                max_depth <= 4096,
        ;
    }
    let w = max_depth as usize + 1;
    let sz = w * w;
    if sz * 8 > len {
        return Err(
            DepthProfileError::Corrupt(
                fmt_two_usize("max_depth=", max_depth as usize, " implies too many bytes for a file of ", len, ""),
            ),
        );
    }
    if len - 12 < 8 * sz + 12 {
        return Err(DepthProfileError::Io(unexpected_eof()));
    }
    let answer = read_u32s(b, 12, sz);
    let background = read_u32s(b, 12 + 4 * sz, sz);
    let tail = 12 + 8 * sz;
    let prior_strength_bits = read_u32_le(b, tail);
    let floor_bits = read_u32_le(b, tail + 4);
    let rebuild_every_n = read_u32_le(b, tail + 8);
    Ok(DepthProfileSnapshot {
        max_depth,
        answer,
        background,
        prior_strength_bits,
        floor_bits,
        rebuild_every_n,
    })
}

/// Round trip of the depth-profile snapshot: the bytes written for a
/// `max_depth` of at most `MAX_DEPTH` with two matrices of `(max_depth + 1)^2`
/// entries read back as exactly what was written.
#[verifier::spinoff_prover]
pub proof fn lemma_depth_profile_roundtrip(
    max_depth: u32,
    answer: Seq<u32>,
    background: Seq<u32>,
    ps: u32,
    fl: u32,
    rb: u32,
)
    requires
        max_depth <= MAX_DEPTH,
        answer.len() == dp_size(max_depth as nat),
        background.len() == dp_size(max_depth as nat),
    ensures
        ({
            let b = depth_profile_bytes(max_depth, answer, background, ps, fl, rb);
            let sz = dp_size(max_depth as nat) as int;
            &&& dp_header_ok(b)
            &&& u32_at(b, 8) == max_depth
            &&& 12 + 8 * sz + 12 == b.len()
            &&& u32s_at(b, 12, sz as nat) == answer
            &&& u32s_at(b, 12 + 4 * sz, sz as nat) == background
            &&& u32_at(b, 12 + 8 * sz) == ps
            &&& u32_at(b, 12 + 8 * sz + 4) == fl
            &&& u32_at(b, 12 + 8 * sz + 8) == rb
        }),
{
    lemma_le_lengths();
    let sz: int = dp_size(max_depth as nat) as int;
    let h = dp_magic() + le32(1) + le32(max_depth);
    let sa = concat_map(answer, u32_rec());
    let sb = concat_map(background, u32_rec());
    let t = le32(ps) + le32(fl) + le32(rb);
    let b = depth_profile_bytes(max_depth, answer, background, ps, fl, rb);
    lemma_concat_fixed(answer, u32_rec(), 4);
    lemma_concat_fixed(background, u32_rec(), 4);
    assert(b =~= h + sa + (sb + t));
    lemma_windows3(h, sa, sb + t);
    assert(b =~= (h + sa) + sb + t);
    lemma_windows3(h + sa, sb, t);
    assert(b.subrange(0, 4) =~= dp_magic());
    assert(b.subrange(4, 8) =~= le32(1));
    assert(b.subrange(8, 12) =~= le32(max_depth));
    lemma_u32_field(1);
    lemma_u32_field(max_depth);
    lemma_u32_window(b, 4, le32(1), 0);
    lemma_u32_window(b, 8, le32(max_depth), 0);
    assert(dp_header_ok(b));
    lemma_read_back_u32s(b, 12, answer);
    lemma_read_back_u32s(b, 12 + 4 * sz, background);
    let q: int = 12 + 8 * sz;
    assert(b.subrange(q, q + 12) =~= t);
    lemma_u32_field(ps);
    lemma_u32_field(fl);
    lemma_u32_field(rb);
    assert(t.subrange(0, 4) =~= le32(ps));
    assert(t.subrange(4, 8) =~= le32(fl));
    assert(t.subrange(8, 12) =~= le32(rb));
    lemma_subwindow(b, q, t, 0, 4);
    lemma_subwindow(b, q, t, 4, 8);
    lemma_subwindow(b, q, t, 8, 12);
    lemma_u32_window(b, q, le32(ps), 0);
    lemma_u32_window(b, q + 4, le32(fl), 0);
    lemma_u32_window(b, q + 8, le32(rb), 0);
}

} // verus!
