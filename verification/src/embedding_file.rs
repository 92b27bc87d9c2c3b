//! The embedding file: a `u32` node count and a `u32` dimension, then the
//! row-major node-by-dimension matrix of `f32` values, all little-endian.

use vstd::prelude::*;
use crate::bytes::{le32, push_u32_le, read_u32_le, u32_at, lemma_le_lengths};
use crate::level_file::{
    concat_map, u32_rec, u32s_at, put_u32s, read_u32s, unexpected_eof, lemma_concat_fixed,
    lemma_read_back_u32s, lemma_u32_field, lemma_u32_window, lemma_windows3,
};

verus! {

/// The content of an embedding file; `f32` values as bits.
#[derive(Debug, Clone)]
pub struct EmbeddingMatrix {
    pub num_nodes: u32,
    pub dim: u32,
    /// Row-major `num_nodes x dim` values.
    pub values: Vec<u32>,
}

/// The bytes of an embedding file.
pub open spec fn embedding_bytes(num_nodes: u32, dim: u32, values: Seq<u32>) -> Seq<u8> {
    le32(num_nodes) + le32(dim) + concat_map(values, u32_rec())
}

/// Number of values a header announces.
pub open spec fn embedding_count(b: Seq<u8>) -> nat {
    (u32_at(b, 0) as nat) * (u32_at(b, 4) as nat)
}

/// Serializes an embedding matrix.
pub fn encode_embeddings(m: &EmbeddingMatrix) -> (r: Vec<u8>)
    ensures
        r@ == embedding_bytes(m.num_nodes, m.dim, m.values@),
{
    let mut out: Vec<u8> = Vec::new();
    push_u32_le(&mut out, m.num_nodes);
    push_u32_le(&mut out, m.dim);
    put_u32s(&mut out, m.values.as_slice());
    proof {
        assert(out@ =~= embedding_bytes(m.num_nodes, m.dim, m.values@));
    }
    out
}

/// Reads an embedding matrix from the bytes of a file: the header, then as
/// many values as it announces. A read past the end fails with an
/// `UnexpectedEof` I/O error; bytes after the values are ignored.
pub fn decode_embeddings(b: &[u8]) -> (r: Result<EmbeddingMatrix, std::io::Error>)
    ensures
        b@.len() < 8 ==> r is Err,
        b@.len() >= 8 ==> (r is Ok <==> 8 + 4 * embedding_count(b@) <= b@.len()),
        r matches Ok(m) ==> m.num_nodes == u32_at(b@, 0) && m.dim == u32_at(b@, 4) && m.values@ == u32s_at(
            b@,
            8,
            embedding_count(b@),
        ),
{
    let len = b.len();
    if len < 8 {
        return Err(unexpected_eof());
    }
    let num_nodes = read_u32_le(b, 0);
    let dim = read_u32_le(b, 4);
    proof {
        assert((num_nodes as nat) * (dim as nat) <= 0xffff_ffff * 0xffff_ffff) by (nonlinear_arith)
            requires
                num_nodes <= 0xffff_ffff,
                dim <= 0xffff_ffff,
        ;
    }
    let count: u64 = num_nodes as u64 * dim as u64;
    let avail: u64 = ((len - 8) / 4) as u64;
    if count > avail {
        return Err(unexpected_eof());
    }
    let values = read_u32s(b, 8, count as usize);
    Ok(EmbeddingMatrix { num_nodes, dim, values })
}

/// Round trip of the embedding file: the bytes written for a matrix whose
/// values number `num_nodes * dim` read back as exactly that matrix.
pub proof fn lemma_embeddings_roundtrip(num_nodes: u32, dim: u32, values: Seq<u32>)
    requires
        values.len() == (num_nodes as nat) * (dim as nat),
    ensures
        ({
            let b = embedding_bytes(num_nodes, dim, values);
            &&& b.len() >= 8
            &&& u32_at(b, 0) == num_nodes
            &&& u32_at(b, 4) == dim
            &&& 8 + 4 * embedding_count(b) == b.len()
            &&& u32s_at(b, 8, embedding_count(b)) == values
        }),
{
    lemma_le_lengths();
    let h0 = le32(num_nodes);
    let h1 = le32(dim);
    let s = concat_map(values, u32_rec());
    let b = embedding_bytes(num_nodes, dim, values);
    lemma_concat_fixed(values, u32_rec(), 4);
    lemma_windows3(h0, h1, s);
    lemma_u32_field(num_nodes);
    lemma_u32_field(dim);
    lemma_u32_window(b, 0, h0, 0);
    lemma_u32_window(b, 4, h1, 0);
    lemma_read_back_u32s(b, 8, values);
}

} // verus!
