//! The learned-transition snapshot format and its errors.
//!
//! Layout (little-endian): `"RGTR"`, version 1 (`u32`), relation count `n`
//! (`u32`), per relation the byte length (`u32`) and UTF-8 bytes of its name,
//! the `n x n` evidence counts and the `n x n` prior (`f32` bits, row-major),
//! then the prior strength, floor and decay (`f32` bits) and the rebuild
//! cadence (`u32`).

use vstd::prelude::*;
use vstd::utf8::*;
use crate::bytes::{le32, push_u32_le, read_u32_le, u32_at, lemma_le_lengths};
use crate::level_file::{
    unexpected_eof,
    concat_map, name_rec, name_bytes, u32_rec, u32s_at, put_bytes, put_u32s, read_u32s,
    lemma_concat_map_push, lemma_concat_fixed, lemma_read_back_u32s, lemma_subwindow,
    lemma_u32_field, lemma_u32_window, lemma_windows3,
};
use crate::messages::{decimal, fmt_io_error, fmt_usize_between, fmt_three_usize, fmt_two_usize};

verus! {

/// Largest relation count a snapshot may hold (relation ids are `u16`).
pub const MAX_RELATIONS: u32 = 65536;

/// Errors of transition stores.
#[derive(Debug)]
pub enum TransitionError {
    /// A matrix does not have `n * n` entries.
    BadShape { n: usize, expected: usize, got: usize },
    /// A snapshot covers fewer relations than the graph uses.
    RelationCoverage { store_len: usize, graph_max: usize },
    /// Reading or writing failed.
    Io(std::io::Error),
    /// The snapshot is corrupt (with a description).
    Corrupt(String),
}

impl TransitionError {
    /// The message this error displays as.
    pub fn to_message(&self) -> (r: String)
        ensures
            self.displays_as(r@),
    {
        proof {
            reveal_strlit("");
        }
        match self {
            TransitionError::BadShape { n, expected, got } => {
                let mut m = fmt_three_usize("matrix must be ", *expected, " entries (", *n, "x", *n);
                m.append(fmt_usize_between("), got ", *got, "").as_str());
                assert(m@ =~= "matrix must be "@ + decimal(*expected as nat) + " entries ("@ + decimal(*n as nat) + "x"@
                    + decimal(*n as nat) + "), got "@ + decimal(*got as nat));
                m
            },
            TransitionError::RelationCoverage { store_len, graph_max } => {
                let m = fmt_two_usize(
                    "snapshot covers ",
                    *store_len,
                    " relations but the graph uses relation id ",
                    *graph_max,
                    "",
                );
                assert(m@ =~= "snapshot covers "@ + decimal(*store_len as nat) + " relations but the graph uses relation id "@
                    + decimal(*graph_max as nat));
                m
            },
            TransitionError::Io(e) => fmt_io_error("io error: ", e),
            TransitionError::Corrupt(s) => {
                let mut m = "corrupt snapshot: ".to_string();
                m.append(s.as_str());
                m
            },
        }
    }

    /// `m` is this error's message. For an I/O error it starts with
    /// `"io error: "`, followed by the error's own description.
    pub open spec fn displays_as(self, m: Seq<char>) -> bool {
        match self {
            TransitionError::BadShape { n, expected, got } => m == "matrix must be "@ + decimal(expected as nat)
                + " entries ("@ + decimal(n as nat) + "x"@ + decimal(n as nat) + "), got "@ + decimal(got as nat),
            TransitionError::RelationCoverage { store_len, graph_max } => m == "snapshot covers "@ + decimal(
                store_len as nat,
            ) + " relations but the graph uses relation id "@ + decimal(graph_max as nat),
            TransitionError::Io(_) => "io error: "@.len() <= m.len() && m.subrange(0, "io error: "@.len() as int)
                == "io error: "@,
            TransitionError::Corrupt(s) => m == "corrupt snapshot: "@ + s@,
        }
    }
}

/// The shape check of a new store for `n` relations: a given prior must have
/// `n * n` entries (no prior means the uniform one).
pub fn check_prior_shape(n: usize, prior_len: Option<usize>) -> (r: Result<(), TransitionError>)
    requires
        n * n <= usize::MAX,
    ensures
        r is Ok <==> (prior_len is None || prior_len == Some((n * n) as usize)),
        r is Err ==> (r matches Err(TransitionError::BadShape { n: a, expected, got }) && a == n
            && expected == n * n && prior_len == Some(got) && got != n * n),
{
    match prior_len {
        Some(got) => {
            if got != n * n {
                return Err(TransitionError::BadShape { n, expected: n * n, got });
            }
            Ok(())
        },
        None => Ok(()),
    }
}

/// `String::from_utf8`: the text of `b` when `b` is valid UTF-8, else `None`.
#[verifier::external_body]
fn utf8_strict(b: Vec<u8>) -> (r: Option<String>)
    ensures
        r is Some <==> valid_utf8(b@),
        r matches Some(s) ==> s@ == decode_utf8(b@),
{
    String::from_utf8(b).ok()
}

/// The content of a transition snapshot; `f32` values as bits.
pub struct TransitionSnapshot {
    pub names: Vec<String>,
    /// Row-major `n x n` evidence counts.
    pub counts: Vec<u32>,
    /// Row-major `n x n` prior.
    pub prior: Vec<u32>,
    pub prior_strength_bits: u32,
    pub floor_bits: u32,
    pub decay_bits: u32,
    pub rebuild_every_n: u32,
}

/// The abstract content of a snapshot: relation names, the two matrices and
/// the four settings.
pub struct SnapshotView {
    pub names: Seq<Seq<char>>,
    pub counts: Seq<u32>,
    pub prior: Seq<u32>,
    pub prior_strength_bits: u32,
    pub floor_bits: u32,
    pub decay_bits: u32,
    pub rebuild_every_n: u32,
}

impl View for TransitionSnapshot {
    type V = SnapshotView;

    open spec fn view(&self) -> SnapshotView {
        SnapshotView {
            names: names_of(self.names@),
            counts: self.counts@,
            prior: self.prior@,
            prior_strength_bits: self.prior_strength_bits,
            floor_bits: self.floor_bits,
            decay_bits: self.decay_bits,
            rebuild_every_n: self.rebuild_every_n,
        }
    }
}

/// A snapshot the format can hold: at most `MAX_RELATIONS` relations, two
/// `n x n` matrices, and names whose UTF-8 encodings fit a `u32` length.
pub open spec fn snapshot_fits(v: SnapshotView) -> bool {
    &&& v.names.len() <= MAX_RELATIONS
    &&& v.counts.len() == v.names.len() * v.names.len()
    &&& v.prior.len() == v.names.len() * v.names.len()
    &&& forall|i: int| 0 <= i < v.names.len() ==> encode_utf8(#[trigger] v.names[i]).len() <= u32::MAX
}

/// The snapshot magic `"RGTR"`.
pub open spec fn tr_magic() -> Seq<u8> {
    seq![0x52u8, 0x47u8, 0x54u8, 0x52u8]
}

/// The texts of names.
pub open spec fn names_of(v: Seq<String>) -> Seq<Seq<char>> {
    v.map_values(|s: String| s@)
}

/// The bytes of a snapshot.
pub open spec fn transitions_bytes(
    names: Seq<Seq<char>>,
    counts: Seq<u32>,
    prior: Seq<u32>,
    prior_strength_bits: u32,
    floor_bits: u32,
    decay_bits: u32,
    rebuild_every_n: u32,
) -> Seq<u8> {
    tr_magic() + le32(1) + le32(names.len() as u32) + concat_map(names, name_rec()) + concat_map(
        counts,
        u32_rec(),
    ) + concat_map(prior, u32_rec()) + le32(prior_strength_bits) + le32(floor_bits) + le32(
        decay_bits,
    ) + le32(rebuild_every_n)
}

/// `count` names at `pos`, as the reader takes them: each a byte length, at
/// most the input's length, and that many bytes of valid UTF-8. `None` when a
/// read runs past the end, `Some(Err(()))` on a corrupt name.
pub open spec fn tr_names(b: Seq<u8>, pos: int, count: nat) -> Option<Result<(Seq<Seq<u8>>, int), ()>>
    decreases count,
{
    if count == 0 {
        Some(Ok((Seq::empty(), pos)))
    } else {
        match tr_names(b, pos, (count - 1) as nat) {
            None => None,
            Some(Err(())) => Some(Err(())),
            Some(Ok((ns, p))) => {
                if p + 4 > b.len() {
                    None
                } else if u32_at(b, p) > b.len() {
                    Some(Err(()))
                } else if p + 4 + u32_at(b, p) > b.len() {
                    None
                } else if !valid_utf8(b.subrange(p + 4, p + 4 + u32_at(b, p))) {
                    Some(Err(()))
                } else {
                    Some(
                        Ok(
                            (
                                ns.push(b.subrange(p + 4, p + 4 + u32_at(b, p))),
                                p + 4 + u32_at(b, p),
                            ),
                        ),
                    )
                }
            },
        }
    }
}

/// The relation count of a snapshot header.
pub open spec fn tr_count(b: Seq<u8>) -> nat {
    u32_at(b, 8) as nat
}

/// The header is acceptable: magic, version 1, a relation count of at most
/// `MAX_RELATIONS` whose two matrices fit the input's length.
pub open spec fn tr_header_ok(b: Seq<u8>) -> bool {
    &&& b.len() >= 12
    &&& b.subrange(0, 4) == tr_magic()
    &&& u32_at(b, 4) == 1
    &&& tr_count(b) <= MAX_RELATIONS
    &&& 8 * (tr_count(b) * tr_count(b)) <= b.len()
}

/// The bytes `encode_transitions` writes for a snapshot.
pub open spec fn snapshot_bytes(v: SnapshotView) -> Seq<u8> {
    transitions_bytes(
        v.names,
        v.counts,
        v.prior,
        v.prior_strength_bits,
        v.floor_bits,
        v.decay_bits,
        v.rebuild_every_n,
    )
}

/// `decode_transitions` accepts `b`: the header, every name, both matrices
/// and the settings are there and well formed.
pub open spec fn tr_accepts(b: Seq<u8>) -> bool {
    &&& tr_header_ok(b)
    &&& tr_names(b, 12, tr_count(b)) matches Some(Ok((raw, p))) && p + 8 * (tr_count(b) * tr_count(b)) + 16
        <= b.len()
}

/// The snapshot `decode_transitions` reads from `b` when it accepts it.
pub open spec fn decoded_snapshot(b: Seq<u8>) -> SnapshotView {
    let nn = tr_count(b) * tr_count(b);
    let (raw, p) = tr_names(b, 12, tr_count(b))->0->Ok_0;
    SnapshotView {
        names: raw.map_values(|x: Seq<u8>| decode_utf8(x)),
        counts: u32s_at(b, p, nn),
        prior: u32s_at(b, p + 4 * nn, nn),
        prior_strength_bits: u32_at(b, p + 8 * nn),
        floor_bits: u32_at(b, p + 8 * nn + 4),
        decay_bits: u32_at(b, p + 8 * nn + 8),
        rebuild_every_n: u32_at(b, p + 8 * nn + 12),
    }
}

/// Reads `count` names at `pos` (see `tr_names`).
fn read_tr_names(b: &[u8], pos: usize, count: usize) -> (r: Option<Result<(Vec<String>, usize), ()>>)
    requires
        pos <= b@.len(),
    ensures
        (r is None) == (tr_names(b@, pos as int, count as nat) is None),
        (r matches Some(Err(_))) == (tr_names(b@, pos as int, count as nat) matches Some(Err(_))),
        r matches Some(Ok((names, p))) ==> (tr_names(b@, pos as int, count as nat) matches Some(
            Ok((raw, q)),
        ) && q == p && raw.len() == names@.len() && forall|j: int|
            0 <= j < raw.len() ==> valid_utf8(#[trigger] raw[j]) && names@[j]@ == decode_utf8(raw[j])),
{
    let len = b.len();
    let mut names: Vec<String> = Vec::new();
    let ghost mut raw: Seq<Seq<u8>> = Seq::empty();
    let mut p = pos;
    let mut i: usize = 0;
    while i < count
        invariant
            len == b@.len(),
            i <= count,
            p <= len,
            tr_names(b@, pos as int, i as nat) == Some(Ok::<(Seq<Seq<u8>>, int), ()>((raw, p as int))),
            names@.len() == raw.len(),
            forall|j: int|
                0 <= j < raw.len() ==> valid_utf8(#[trigger] raw[j]) && names@[j]@ == decode_utf8(
                    raw[j],
                ),
        decreases count - i,
    {
        if len - p < 4 {
            proof {
                lemma_tr_names_stuck(b@, pos as int, (i + 1) as nat, count as nat);
            }
            return None;
        }
        let n = read_u32_le(b, p) as usize;
        if n > len {
            proof {
                lemma_tr_names_stuck(b@, pos as int, (i + 1) as nat, count as nat);
            }
            return Some(Err(()));
        }
        if len - p - 4 < n {
            proof {
                lemma_tr_names_stuck(b@, pos as int, (i + 1) as nat, count as nat);
            }
            return None;
        }
        let bytes = vstd::slice::slice_to_vec(vstd::slice::slice_subrange(b, p + 4, p + 4 + n));
        match utf8_strict(bytes) {
            None => {
                proof {
                    lemma_tr_names_stuck(b@, pos as int, (i + 1) as nat, count as nat);
                }
                return Some(Err(()));
            },
            Some(name) => {
                let ghost names_before = names@;
                proof {
                    raw = raw.push(b@.subrange(p + 4, p + 4 + n));
                }
                names.push(name);
                p = p + 4 + n;
                i = i + 1;
                proof {
                    assert forall|j: int|
                        0 <= j < raw.len() implies valid_utf8(#[trigger] raw[j]) && names@[j]@
                            == decode_utf8(raw[j]) by {
                        if j < names_before.len() {
                            assert(names@[j] == names_before[j]);
                        }
                    }
                }
            },
        }
    }
    Some(Ok((names, p)))
}

/// A name parse that stopped (past the end or corrupt) stays stopped with
/// more names.
proof fn lemma_tr_names_stuck(b: Seq<u8>, pos: int, c: nat, d: nat)
    requires
        c <= d,
        !(tr_names(b, pos, c) is Some && tr_names(b, pos, c)->0 is Ok),
    ensures
        tr_names(b, pos, d) == tr_names(b, pos, c),
    decreases d - c,
{
    if c < d {
        lemma_tr_names_stuck(b, pos, c, (d - 1) as nat);
    }
}

/// Serializes a snapshot.
pub fn encode_transitions(s: &TransitionSnapshot) -> (r: Vec<u8>)
    ensures
        r@ == snapshot_bytes(s@),
        r@ == transitions_bytes(
            names_of(s.names@),
            s.counts@,
            s.prior@,
            s.prior_strength_bits,
            s.floor_bits,
            s.decay_bits,
            s.rebuild_every_n,
        ),
{
    let mut out: Vec<u8> = Vec::new();
    out.push(0x52u8);
    out.push(0x47u8);
    out.push(0x54u8);
    out.push(0x52u8);
    push_u32_le(&mut out, 1);
    push_u32_le(&mut out, s.names.len() as u32);
    let ghost f = name_rec();
    let ghost v = names_of(s.names@);
    let ghost head = out@;
    let mut i: usize = 0;
    while i < s.names.len()
        invariant
            f == name_rec(),
            v == names_of(s.names@),
            i <= s.names@.len(),
            out@ == head + concat_map(v.subrange(0, i as int), f),
        decreases s.names@.len() - i,
    {
        proof {
            lemma_concat_map_push(v, f, i as int);
        }
        let b = s.names[i].as_str().as_bytes();
        push_u32_le(&mut out, b.len() as u32);
        put_bytes(&mut out, b);
        i = i + 1;
        proof {
            assert(out@ =~= head + concat_map(v.subrange(0, i as int), f));
        }
    }
    proof {
        assert(v.subrange(0, i as int) =~= v);
    }
    put_u32s(&mut out, s.counts.as_slice());
    put_u32s(&mut out, s.prior.as_slice());
    push_u32_le(&mut out, s.prior_strength_bits);
    push_u32_le(&mut out, s.floor_bits);
    push_u32_le(&mut out, s.decay_bits);
    push_u32_le(&mut out, s.rebuild_every_n);
    proof {
        assert(out@ =~= transitions_bytes(
            names_of(s.names@),
            s.counts@,
            s.prior@,
            s.prior_strength_bits,
            s.floor_bits,
            s.decay_bits,
            s.rebuild_every_n,
        ));
    }
    out
}

/// Reads a snapshot from the bytes of a file, checking in order: the magic,
/// the version, the relation count against `MAX_RELATIONS` and against the
/// input's length (two `n x n` matrices of 4-byte entries must fit), then each
/// name (its length at most the input's length, valid UTF-8). A read past the
/// end fails with `Io`; the checks fail with `Corrupt`.
pub fn decode_transitions(b: &[u8]) -> (r: Result<TransitionSnapshot, TransitionError>)
    ensures
        r is Ok <==> tr_accepts(b@),
        r matches Ok(s) ==> s@ == decoded_snapshot(b@),
        b@.len() < 4 ==> (r matches Err(TransitionError::Io(_))),
        b@.len() >= 4 && b@.subrange(0, 4) != tr_magic() ==> (r matches Err(TransitionError::Corrupt(_))),
        b@.len() >= 4 && b@.subrange(0, 4) == tr_magic() ==> {
            &&& b@.len() < 8 ==> (r matches Err(TransitionError::Io(_)))
            &&& b@.len() >= 8 && u32_at(b@, 4) != 1 ==> (r matches Err(TransitionError::Corrupt(_)))
            &&& b@.len() >= 8 && u32_at(b@, 4) == 1 && b@.len() < 12 ==> (r matches Err(
                TransitionError::Io(_),
            ))
            &&& b@.len() >= 12 && u32_at(b@, 4) == 1 && !tr_header_ok(b@) ==> (r matches Err(
                TransitionError::Corrupt(_),
            ))
        },
        tr_header_ok(b@) ==> match tr_names(b@, 12, tr_count(b@)) {
            None => r matches Err(TransitionError::Io(_)),
            Some(Err(_)) => r matches Err(TransitionError::Corrupt(_)),
            Some(Ok((raw, p))) => {
                let nn = tr_count(b@) * tr_count(b@);
                if p + 8 * nn + 16 > b@.len() {
                    r matches Err(TransitionError::Io(_))
                } else {
                    r matches Ok(s) && names_of(s.names@) == raw.map_values(
                        |x: Seq<u8>| decode_utf8(x),
                    ) && s.counts@ == u32s_at(b@, p, nn) && s.prior@ == u32s_at(b@, p + 4 * nn, nn)
                        && s.prior_strength_bits == u32_at(b@, p + 8 * nn) && s.floor_bits
                        == u32_at(b@, p + 8 * nn + 4) && s.decay_bits == u32_at(
                        b@,
                        p + 8 * nn + 8,
                    ) && s.rebuild_every_n == u32_at(b@, p + 8 * nn + 12)
                }
            },
        },
{
    let len = b.len();
    if len < 4 {
        return Err(TransitionError::Io(unexpected_eof()));
    }
    if b[0] != 0x52u8 || b[1] != 0x47u8 || b[2] != 0x54u8 || b[3] != 0x52u8 {
        proof {
            assert(b@.subrange(0, 4) != tr_magic()) by {
                if b@.subrange(0, 4) == tr_magic() {
                    assert(b@.subrange(0, 4)[0] == b@[0]);
                    assert(b@.subrange(0, 4)[1] == b@[1]);
                    assert(b@.subrange(0, 4)[2] == b@[2]);
                    assert(b@.subrange(0, 4)[3] == b@[3]);
                }
            }
        }
        return Err(TransitionError::Corrupt("bad magic".to_string()));
    }
    proof {
        assert(b@.subrange(0, 4) =~= tr_magic());
    }
    if len < 8 {
        return Err(TransitionError::Io(unexpected_eof()));
    }
    let version = read_u32_le(b, 4);
    if version != 1 {
        return Err(TransitionError::Corrupt(fmt_usize_between("unsupported version ", version as usize, "")));
    }
    if len < 12 {
        return Err(TransitionError::Io(unexpected_eof()));
    }
    let n = read_u32_le(b, 8);
    if n > MAX_RELATIONS {
        return Err(
            TransitionError::Corrupt(
                fmt_usize_between("n=", n as usize, " exceeds the 65536-relation maximum"),
            ),
        );
    }
    proof {
        assert((n as int) * (n as int) <= 65536 * 65536) by (nonlinear_arith)
            requires
                n <= 65536,
        ;
    }
    let nn: u64 = (n as u64) * (n as u64);
    let matrix_bytes: u64 = nn * 8;
    if matrix_bytes > len as u64 {
        return Err(
            TransitionError::Corrupt(
                fmt_two_usize("n=", n as usize, " implies too many matrix bytes for a file of ", len, ""),
            ),
        );
    }
    let (names, p) = match read_tr_names(b, 12, n as usize) {
        None => {
            return Err(TransitionError::Io(unexpected_eof()));
        },
        Some(Err(())) => {
            return Err(TransitionError::Corrupt("invalid relation name".to_string()));
        },
        Some(Ok(x)) => x,
    };
    let nnu = nn as usize;
    if len - p < 16 || (len - p - 16) / 8 < nnu {
        proof {
            assert(p + 8 * nn + 16 > len) by (nonlinear_arith)
                requires
                    len - p < 16 || (len - p - 16) / 8 < nn,
                    p <= len,
            ;
        }
        return Err(TransitionError::Io(unexpected_eof()));
    }
    proof {
        assert(p + 8 * nn + 16 <= len) by (nonlinear_arith)
            requires
                len - p >= 16,
                (len - p - 16) / 8 >= nn,
        ;
    }
    let counts = read_u32s(b, p, nnu);
    let prior = read_u32s(b, p + 4 * nnu, nnu);
    let tail = p + 8 * nnu;
    let prior_strength_bits = read_u32_le(b, tail);
    let floor_bits = read_u32_le(b, tail + 4);
    let decay_bits = read_u32_le(b, tail + 8);
    let rebuild_every_n = read_u32_le(b, tail + 12);
    let s = TransitionSnapshot {
        names,
        counts,
        prior,
        prior_strength_bits,
        floor_bits,
        decay_bits,
        rebuild_every_n,
    };
    proof {
        let (raw, q) = tr_names(b@, 12, n as nat)->0->Ok_0;
        assert(names_of(s.names@) =~= raw.map_values(|x: Seq<u8>| decode_utf8(x)));
    }
    Ok(s)
}

/// A section of names read back strictly: each name's UTF-8 encoding.
proof fn lemma_tr_read_back_names(b: Seq<u8>, q: int, s: Seq<Seq<char>>)
    requires
        0 <= q,
        q + concat_map(s, name_rec()).len() <= b.len(),
        b.subrange(q, q + concat_map(s, name_rec()).len()) == concat_map(s, name_rec()),
        forall|i: int| 0 <= i < s.len() ==> encode_utf8(#[trigger] s[i]).len() <= u32::MAX,
    ensures
        tr_names(b, q, s.len()) == Some(
            Ok::<(Seq<Seq<u8>>, int), ()>(
                (s.map_values(|c: Seq<char>| encode_utf8(c)), q + concat_map(s, name_rec()).len()),
            ),
        ),
    decreases s.len(),
{
    if s.len() == 0 {
        assert(s.map_values(|c: Seq<char>| encode_utf8(c)) =~= Seq::<Seq<u8>>::empty());
    } else {
        let init = s.drop_last();
        let ci = concat_map(init, name_rec());
        let last = name_bytes(s.last());
        lemma_le_lengths();
        assert(concat_map(s, name_rec()) == ci + last);
        lemma_subwindow(b, q, ci + last, 0, ci.len() as int);
        assert((ci + last).subrange(0, ci.len() as int) =~= ci);
        assert forall|i: int| 0 <= i < init.len() implies encode_utf8(#[trigger] init[i]).len() <= u32::MAX by {
            assert(init[i] == s[i]);
        }
        lemma_tr_read_back_names(b, q, init);
        let p = q + ci.len();
        let l = encode_utf8(s.last()).len();
        lemma_subwindow(b, q, ci + last, ci.len() as int, (ci + last).len() as int);
        assert((ci + last).subrange(ci.len() as int, (ci + last).len() as int) =~= last);
        lemma_u32_field(l as u32);
        lemma_u32_window(b, p, last, 0);
        assert(last.subrange(0, 4) =~= le32(l as u32));
        assert(le32(l as u32).subrange(0, 4) =~= le32(l as u32));
        assert(u32_at(last, 0) == u32_at(le32(l as u32), 0));
        lemma_subwindow(b, p, last, 4, 4 + l as int);
        assert(last.subrange(4, 4 + l as int) =~= encode_utf8(s.last()));
        encode_utf8_valid_utf8(s.last());
        assert(s.map_values(|c: Seq<char>| encode_utf8(c)) =~= init.map_values(
            |c: Seq<char>| encode_utf8(c),
        ).push(encode_utf8(s.last())));
    }
}

/// Round trip of the transition snapshot: the bytes written for names,
/// matrices and settings read back as exactly those (names decode back to
/// themselves), provided there are at most `MAX_RELATIONS` relations, both
/// matrices are `n x n` and every name's encoding fits a `u32` length.
#[verifier::spinoff_prover]
pub proof fn lemma_transitions_roundtrip(
    names: Seq<Seq<char>>,
    counts: Seq<u32>,
    prior: Seq<u32>,
    ps: u32,
    fl: u32,
    dc: u32,
    rb: u32,
)
    requires
        names.len() <= MAX_RELATIONS,
        counts.len() == names.len() * names.len(),
        prior.len() == names.len() * names.len(),
        forall|i: int| 0 <= i < names.len() ==> encode_utf8(#[trigger] names[i]).len() <= u32::MAX,
    ensures
        ({
            let b = transitions_bytes(names, counts, prior, ps, fl, dc, rb);
            let nn = names.len() * names.len();
            &&& tr_header_ok(b)
            &&& tr_count(b) == names.len()
            &&& tr_names(b, 12, names.len()) matches Some(Ok((raw, p))) && raw == names.map_values(
                |c: Seq<char>| encode_utf8(c),
            ) && p + 8 * nn + 16 == b.len() && u32s_at(b, p, nn) == counts && u32s_at(
                b,
                p + 4 * nn,
                nn,
            ) == prior && u32_at(b, p + 8 * nn) == ps && u32_at(b, p + 8 * nn + 4) == fl && u32_at(
                b,
                p + 8 * nn + 8,
            ) == dc && u32_at(b, p + 8 * nn + 12) == rb
        }),
        forall|i: int|
            0 <= i < names.len() ==> decode_utf8(encode_utf8(#[trigger] names[i])) == names[i],
{
    lemma_le_lengths();
    let n = names.len();
    let nn: int = (n * n) as int;
    let h = tr_magic() + le32(1) + le32(n as u32);
    let sk = concat_map(names, name_rec());
    let sc = concat_map(counts, u32_rec());
    let sp = concat_map(prior, u32_rec());
    let t = le32(ps) + le32(fl) + le32(dc) + le32(rb);
    let b = transitions_bytes(names, counts, prior, ps, fl, dc, rb);
    lemma_concat_fixed(counts, u32_rec(), 4);
    lemma_concat_fixed(prior, u32_rec(), 4);
    assert(b =~= h + sk + (sc + sp + t));
    lemma_windows3(h, sk, sc + sp + t);
    assert(b =~= (h + sk) + sc + (sp + t));
    lemma_windows3(h + sk, sc, sp + t);
    assert(b =~= (h + sk + sc) + sp + t);
    lemma_windows3(h + sk + sc, sp, t);
    let p: int = 12 + sk.len() as int;
    assert(b.subrange(0, 4) =~= tr_magic());
    assert(b.subrange(4, 8) =~= le32(1));
    assert(b.subrange(8, 12) =~= le32(n as u32));
    lemma_u32_field(1);
    lemma_u32_field(n as u32);
    lemma_u32_window(b, 4, le32(1), 0);
    lemma_u32_window(b, 8, le32(n as u32), 0);
    assert(8 * nn <= b.len()) by (nonlinear_arith)
        requires
            b.len() == p + sc.len() + sp.len() + 16,
            sc.len() == 4 * nn,
            sp.len() == 4 * nn,
            p >= 0,
    ;
    assert(tr_header_ok(b));
    lemma_tr_read_back_names(b, 12, names);
    lemma_read_back_u32s(b, p, counts);
    lemma_read_back_u32s(b, p + 4 * nn, prior);
    let q: int = p + 8 * nn;
    assert(b.subrange(q, q + 16) =~= t);
    assert(t =~= le32(ps) + le32(fl) + (le32(dc) + le32(rb)));
    lemma_u32_field(ps);
    lemma_u32_field(fl);
    lemma_u32_field(dc);
    lemma_u32_field(rb);
    assert(t.subrange(0, 4) =~= le32(ps));
    assert(t.subrange(4, 8) =~= le32(fl));
    assert(t.subrange(8, 12) =~= le32(dc));
    assert(t.subrange(12, 16) =~= le32(rb));
    lemma_subwindow(b, q, t, 0, 4);
    lemma_subwindow(b, q, t, 4, 8);
    lemma_subwindow(b, q, t, 8, 12);
    lemma_subwindow(b, q, t, 12, 16);
    lemma_u32_window(b, q, le32(ps), 0);
    lemma_u32_window(b, q + 4, le32(fl), 0);
    lemma_u32_window(b, q + 8, le32(dc), 0);
    lemma_u32_window(b, q + 12, le32(rb), 0);
    assert forall|i: int| 0 <= i < names.len() implies decode_utf8(encode_utf8(#[trigger] names[i]))
        == names[i] by {
        encode_utf8_decode_utf8(names[i]);
    }
}

/// Saving then loading a snapshot gives it back: the bytes `encode_transitions`
/// writes for a snapshot the format can hold are accepted by
/// `decode_transitions`, which reads back the same names, matrices and
/// settings (the matrices and settings bit for bit). This includes a snapshot
/// with no relations.
pub proof fn lemma_snapshot_roundtrip(v: SnapshotView)
    requires
        snapshot_fits(v),
    ensures
        tr_accepts(snapshot_bytes(v)),
        decoded_snapshot(snapshot_bytes(v)) == v,
{
    lemma_transitions_roundtrip(
        v.names,
        v.counts,
        v.prior,
        v.prior_strength_bits,
        v.floor_bits,
        v.decay_bits,
        v.rebuild_every_n,
    );
    let b = snapshot_bytes(v);
    let (raw, p) = tr_names(b, 12, tr_count(b))->0->Ok_0;
    assert(raw == v.names.map_values(|c: Seq<char>| encode_utf8(c)));
    let back = raw.map_values(|x: Seq<u8>| decode_utf8(x));
    assert forall|i: int| 0 <= i < v.names.len() implies #[trigger] back[i] == v.names[i] by {
        assert(raw[i] == encode_utf8(v.names[i]));
    }
    assert(back =~= v.names);
}

} // verus!
