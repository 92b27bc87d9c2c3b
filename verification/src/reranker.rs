//! The reranker snapshot format and its errors.
//!
//! Layout (little-endian): `"RGRK"`, version 1 (`u32`), relation count and
//! `max_depth` (`u32`), the bias, then the `dim = (max_depth + 1) + 2 +
//! n_relations` weights (`f32` bits), the learning rate (`f32` bits), `top_k`
//! (`u32`) and the L2 factor (`f32` bits).

use vstd::prelude::*;
use crate::bytes::{le32, push_u32_le, read_u32_le, u32_at, lemma_le_lengths};
use crate::level_file::{
    unexpected_eof,
    concat_map, u32_rec, u32s_at, put_u32s, read_u32s, lemma_concat_fixed, lemma_read_back_u32s,
    lemma_subwindow, lemma_u32_field, lemma_u32_window, lemma_windows3,
};
use crate::messages::{fmt_io_error, fmt_usize_between};

verus! {

/// Largest feature dimension a snapshot may hold.
pub const MAX_DIM: u64 = 1_048_576;

/// Errors of rerankers.
#[derive(Debug)]
pub enum RerankerError {
    /// Reading or writing failed.
    Io(std::io::Error),
    /// The snapshot is corrupt (with a description).
    Corrupt(String),
}

impl RerankerError {
    /// The message this error displays as.
    pub fn to_message(&self) -> (r: String)
        ensures
            self.displays_as(r@),
    {
        match self {
            RerankerError::Io(e) => fmt_io_error("io error: ", e),
            RerankerError::Corrupt(s) => {
                let mut m = "corrupt snapshot: ".to_string();
                m.append(s.as_str());
                m
            },
        }
    }

    /// `m` is this error's message. For an I/O error it starts with
    /// `"io error: "`, followed by the error's own description.
    pub open spec fn displays_as(self, m: Seq<char>) -> bool {
        match self {
            RerankerError::Io(_) => "io error: "@.len() <= m.len() && m.subrange(0, "io error: "@.len() as int) == "io error: "@,
            RerankerError::Corrupt(s) => m == "corrupt snapshot: "@ + s@,
        }
    }
}

/// The content of a reranker snapshot; `f32` values as bits.
pub struct RerankerSnapshot {
    pub n_relations: u32,
    pub max_depth: u32,
    pub bias_bits: u32,
    /// The `dim` weights.
    pub w: Vec<u32>,
    pub learning_rate_bits: u32,
    pub top_k: u32,
    pub l2_bits: u32,
}

/// The snapshot magic `"RGRK"`.
pub open spec fn rk_magic() -> Seq<u8> {
    seq![0x52u8, 0x47u8, 0x52u8, 0x4bu8]
}

/// The feature dimension for a relation count and a `max_depth`: the depth
/// profile, two scalar features and a one-hot relation.
pub open spec fn rk_dim(n_relations: nat, max_depth: nat) -> nat {
    (max_depth + 1) + 2 + n_relations
}

/// The bytes of a snapshot.
pub open spec fn reranker_bytes(
    n_relations: u32,
    max_depth: u32,
    bias_bits: u32,
    w: Seq<u32>,
    learning_rate_bits: u32,
    top_k: u32,
    l2_bits: u32,
) -> Seq<u8> {
    rk_magic() + le32(1) + le32(n_relations) + le32(max_depth) + le32(bias_bits) + concat_map(
        w,
        u32_rec(),
    ) + le32(learning_rate_bits) + le32(top_k) + le32(l2_bits)
}

/// The header is acceptable: magic, version 1, and a dimension of at most
/// `MAX_DIM` whose weights fit the input's length.
pub open spec fn rk_header_ok(b: Seq<u8>) -> bool {
    &&& b.len() >= 16
    &&& b.subrange(0, 4) == rk_magic()
    &&& u32_at(b, 4) == 1
    &&& rk_dim(u32_at(b, 8) as nat, u32_at(b, 12) as nat) <= MAX_DIM
    &&& 4 * rk_dim(u32_at(b, 8) as nat, u32_at(b, 12) as nat) <= b.len()
}

/// Serializes a snapshot.
pub fn encode_reranker(s: &RerankerSnapshot) -> (r: Vec<u8>)
    ensures
        r@ == reranker_bytes(
            s.n_relations,
            s.max_depth,
            s.bias_bits,
            s.w@,
            s.learning_rate_bits,
            s.top_k,
            s.l2_bits,
        ),
{
    let mut out: Vec<u8> = Vec::new();
    out.push(0x52u8);
    out.push(0x47u8);
    out.push(0x52u8);
    out.push(0x4bu8);
    push_u32_le(&mut out, 1);
    push_u32_le(&mut out, s.n_relations);
    push_u32_le(&mut out, s.max_depth);
    push_u32_le(&mut out, s.bias_bits);
    put_u32s(&mut out, s.w.as_slice());
    push_u32_le(&mut out, s.learning_rate_bits);
    push_u32_le(&mut out, s.top_k);
    push_u32_le(&mut out, s.l2_bits);
    proof {
        assert(out@ =~= reranker_bytes(
            s.n_relations,
            s.max_depth,
            s.bias_bits,
            s.w@,
            s.learning_rate_bits,
            s.top_k,
            s.l2_bits,
        ));
    }
    out
}

/// Reads a snapshot from the bytes of a file, checking in order the magic, the
/// version, and the dimension against `MAX_DIM` and against the input's length
/// (the weights must fit). A read past the end fails with `Io`; the checks
/// fail with `Corrupt`.
pub fn decode_reranker(b: &[u8]) -> (r: Result<RerankerSnapshot, RerankerError>)
    ensures
        b@.len() < 4 ==> (r matches Err(RerankerError::Io(_))),
        b@.len() >= 4 && b@.subrange(0, 4) != rk_magic() ==> (r matches Err(RerankerError::Corrupt(_))),
        b@.len() >= 4 && b@.subrange(0, 4) == rk_magic() ==> {
            &&& b@.len() < 8 ==> (r matches Err(RerankerError::Io(_)))
            &&& b@.len() >= 8 && u32_at(b@, 4) != 1 ==> (r matches Err(RerankerError::Corrupt(_)))
            &&& b@.len() >= 8 && u32_at(b@, 4) == 1 && b@.len() < 16 ==> (r matches Err(
                RerankerError::Io(_),
            ))
            &&& b@.len() >= 16 && u32_at(b@, 4) == 1 && !rk_header_ok(b@) ==> (r matches Err(
                RerankerError::Corrupt(_),
            ))
        },
        rk_header_ok(b@) ==> ({
            let dim = rk_dim(u32_at(b@, 8) as nat, u32_at(b@, 12) as nat) as int;
            if 20 + 4 * dim + 12 > b@.len() {
                r matches Err(RerankerError::Io(_))
            } else {
                r matches Ok(s) && s.n_relations == u32_at(b@, 8) && s.max_depth == u32_at(b@, 12)
                    && s.bias_bits == u32_at(b@, 16) && s.w@ == u32s_at(b@, 20, dim as nat)
                    && s.learning_rate_bits == u32_at(b@, 20 + 4 * dim) && s.top_k == u32_at(
                    b@,
                    20 + 4 * dim + 4,
                ) && s.l2_bits == u32_at(b@, 20 + 4 * dim + 8)
            }
        }),
{
    let len = b.len();
    if len < 4 {
        return Err(RerankerError::Io(unexpected_eof()));
    }
    if b[0] != 0x52u8 || b[1] != 0x47u8 || b[2] != 0x52u8 || b[3] != 0x4bu8 {
        proof {
            assert(b@.subrange(0, 4) != rk_magic()) by {
                if b@.subrange(0, 4) == rk_magic() {
                    assert(b@.subrange(0, 4)[0] == b@[0]);
                    assert(b@.subrange(0, 4)[1] == b@[1]);
                    assert(b@.subrange(0, 4)[2] == b@[2]);
                    assert(b@.subrange(0, 4)[3] == b@[3]);
                }
            }
        }
        return Err(RerankerError::Corrupt("bad magic".to_string()));
    }
    proof {
        assert(b@.subrange(0, 4) =~= rk_magic());
    }
    if len < 8 {
        return Err(RerankerError::Io(unexpected_eof()));
    }
    let version = read_u32_le(b, 4);
    if version != 1 {
        return Err(RerankerError::Corrupt(fmt_usize_between("unsupported version ", version as usize, "")));
    }
    if len < 16 {
        return Err(RerankerError::Io(unexpected_eof()));
    }
    let n_relations = read_u32_le(b, 8);
    let max_depth = read_u32_le(b, 12);
    let dim64: u64 = (max_depth as u64 + 1) + 2 + n_relations as u64;
    if dim64 > MAX_DIM || dim64 * 4 > len as u64 {
        return Err(RerankerError::Corrupt(fmt_usize_between("implausible dim ", #[verifier::truncate] (dim64 as usize), "")));
    }
    let dim = dim64 as usize;
    if len < 20 || len - 20 < 4 * dim + 12 {
        return Err(RerankerError::Io(unexpected_eof()));
    }
    let bias_bits = read_u32_le(b, 16);
    let w = read_u32s(b, 20, dim);
    let tail = 20 + 4 * dim;
    let learning_rate_bits = read_u32_le(b, tail);
    let top_k = read_u32_le(b, tail + 4);
    let l2_bits = read_u32_le(b, tail + 8);
    Ok(RerankerSnapshot { n_relations, max_depth, bias_bits, w, learning_rate_bits, top_k, l2_bits })
}

/// Round trip of the reranker snapshot: the bytes written for a dimension of
/// at most `MAX_DIM` with matching weights read back as exactly what was
/// written.
#[verifier::spinoff_prover]
pub proof fn lemma_reranker_roundtrip(
    n_relations: u32,
    max_depth: u32,
    bias: u32,
    w: Seq<u32>,
    lr: u32,
    top_k: u32,
    l2: u32,
)
    requires
        rk_dim(n_relations as nat, max_depth as nat) <= MAX_DIM,
        w.len() == rk_dim(n_relations as nat, max_depth as nat),
    ensures
        ({
            let b = reranker_bytes(n_relations, max_depth, bias, w, lr, top_k, l2);
            let dim = w.len() as int;
            &&& rk_header_ok(b)
            &&& u32_at(b, 8) == n_relations
            &&& u32_at(b, 12) == max_depth
            &&& 20 + 4 * dim + 12 == b.len()
            &&& u32_at(b, 16) == bias
            &&& u32s_at(b, 20, dim as nat) == w
            &&& u32_at(b, 20 + 4 * dim) == lr
            &&& u32_at(b, 20 + 4 * dim + 4) == top_k
            &&& u32_at(b, 20 + 4 * dim + 8) == l2
        }),
{
    lemma_le_lengths();
    let dim: int = w.len() as int;
    let h = rk_magic() + le32(1) + le32(n_relations) + le32(max_depth) + le32(bias);
    let sw = concat_map(w, u32_rec());
    let t = le32(lr) + le32(top_k) + le32(l2);
    let b = reranker_bytes(n_relations, max_depth, bias, w, lr, top_k, l2);
    lemma_concat_fixed(w, u32_rec(), 4);
    assert(b =~= h + sw + t);
    lemma_windows3(h, sw, t);
    assert(b.subrange(0, 4) =~= rk_magic());
    assert(b.subrange(4, 8) =~= le32(1));
    assert(b.subrange(8, 12) =~= le32(n_relations));
    assert(b.subrange(12, 16) =~= le32(max_depth));
    assert(b.subrange(16, 20) =~= le32(bias));
    lemma_u32_field(1);
    lemma_u32_field(n_relations);
    lemma_u32_field(max_depth);
    lemma_u32_field(bias);
    lemma_u32_window(b, 4, le32(1), 0);
    lemma_u32_window(b, 8, le32(n_relations), 0);
    lemma_u32_window(b, 12, le32(max_depth), 0);
    lemma_u32_window(b, 16, le32(bias), 0);
    assert(rk_header_ok(b));
    lemma_read_back_u32s(b, 20, w);
    let q: int = 20 + 4 * dim;
    assert(b.subrange(q, q + 12) =~= t);
    lemma_u32_field(lr);
    lemma_u32_field(top_k);
    lemma_u32_field(l2);
    assert(t.subrange(0, 4) =~= le32(lr));
    assert(t.subrange(4, 8) =~= le32(top_k));
    assert(t.subrange(8, 12) =~= le32(l2));
    lemma_subwindow(b, q, t, 0, 4);
    lemma_subwindow(b, q, t, 4, 8);
    lemma_subwindow(b, q, t, 8, 12);
    lemma_u32_window(b, q, le32(lr), 0);
    lemma_u32_window(b, q + 4, le32(top_k), 0);
    lemma_u32_window(b, q + 8, le32(l2), 0);
}

} // verus!
