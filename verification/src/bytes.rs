//! Little-endian integer encoding, done with `byteorder` as the file formats of
//! this crate are defined in terms of it.

use vstd::prelude::*;
use vstd::bytes::*;
use byteorder::ByteOrder;
use byteorder::LittleEndian;
use byteorder::WriteBytesExt;

verus! {

/// The `u32` stored little-endian in the four bytes of `b` starting at `pos`.
pub open spec fn u32_at(b: Seq<u8>, pos: int) -> u32 {
    spec_u32_from_le_bytes(b.subrange(pos, pos + 4))
}

/// The `u16` stored little-endian in the two bytes of `b` starting at `pos`.
pub open spec fn u16_at(b: Seq<u8>, pos: int) -> u16 {
    spec_u16_from_le_bytes(b.subrange(pos, pos + 2))
}

/// The four little-endian bytes of `x`.
pub open spec fn le32(x: u32) -> Seq<u8> {
    spec_u32_to_le_bytes(x)
}

/// The two little-endian bytes of `x`.
pub open spec fn le16(x: u16) -> Seq<u8> {
    spec_u16_to_le_bytes(x)
}

/// `LittleEndian::read_u32` (byteorder) on exactly 4 bytes: their
/// little-endian value.
#[verifier::external_body]
fn le_read_u32(bytes: &[u8]) -> (r: u32)
    requires
        bytes@.len() == 4,
    ensures
        r == spec_u32_from_le_bytes(bytes@),
{
    LittleEndian::read_u32(bytes)
}

/// The little-endian `u32` in `buf[pos..pos + 4]`.
pub(crate) fn read_u32_le(buf: &[u8], pos: usize) -> (r: u32)
    requires
        pos + 4 <= buf@.len(),
    ensures
        r == u32_at(buf@, pos as int),
{
    let len = buf.len();
    assert(pos + 4 <= len);
    le_read_u32(&buf[pos..pos + 4])
}

/// `LittleEndian::read_u16` (byteorder) on exactly 2 bytes: their
/// little-endian value.
#[verifier::external_body]
fn le_read_u16(bytes: &[u8]) -> (r: u16)
    requires
        bytes@.len() == 2,
    ensures
        r == spec_u16_from_le_bytes(bytes@),
{
    LittleEndian::read_u16(bytes)
}

/// The little-endian `u16` in `buf[pos..pos + 2]`.
pub(crate) fn read_u16_le(buf: &[u8], pos: usize) -> (r: u16)
    requires
        pos + 2 <= buf@.len(),
    ensures
        r == u16_at(buf@, pos as int),
{
    let len = buf.len();
    assert(pos + 2 <= len);
    le_read_u16(&buf[pos..pos + 2])
}

/// `WriteBytesExt::write_u32::<LittleEndian>` (byteorder) on a `Vec<u8>`: appends
/// the four little-endian bytes of `x`. Writing into a `Vec` cannot fail.
#[verifier::external_body]
pub(crate) fn push_u32_le(out: &mut Vec<u8>, x: u32)
    ensures
        final(out)@ == old(out)@ + le32(x),
{
    let _ = out.write_u32::<LittleEndian>(x);
}

/// `WriteBytesExt::write_u16::<LittleEndian>` (byteorder) on a `Vec<u8>`: appends
/// the two little-endian bytes of `x`. Writing into a `Vec` cannot fail.
#[verifier::external_body]
pub(crate) fn push_u16_le(out: &mut Vec<u8>, x: u16)
    ensures
        final(out)@ == old(out)@ + le16(x),
{
    let _ = out.write_u16::<LittleEndian>(x);
}

/// The `u64` stored little-endian in the eight bytes of `b` starting at `pos`.
pub open spec fn u64_at(b: Seq<u8>, pos: int) -> u64 {
    spec_u64_from_le_bytes(b.subrange(pos, pos + 8))
}

/// The eight little-endian bytes of `x`.
pub open spec fn le64(x: u64) -> Seq<u8> {
    spec_u64_to_le_bytes(x)
}

/// `LittleEndian::read_u64` (byteorder) on exactly 8 bytes: their
/// little-endian value.
#[verifier::external_body]
fn le_read_u64(bytes: &[u8]) -> (r: u64)
    requires
        bytes@.len() == 8,
    ensures
        r == spec_u64_from_le_bytes(bytes@),
{
    LittleEndian::read_u64(bytes)
}

/// The little-endian `u64` in `buf[pos..pos + 8]`.
pub(crate) fn read_u64_le(buf: &[u8], pos: usize) -> (r: u64)
    requires
        pos + 8 <= buf@.len(),
    ensures
        r == u64_at(buf@, pos as int),
{
    let len = buf.len();
    assert(pos + 8 <= len);
    le_read_u64(&buf[pos..pos + 8])
}

/// `WriteBytesExt::write_u64::<LittleEndian>` (byteorder) on a `Vec<u8>`: appends
/// the eight little-endian bytes of `x`. Writing into a `Vec` cannot fail.
#[verifier::external_body]
pub(crate) fn push_u64_le(out: &mut Vec<u8>, x: u64)
    ensures
        final(out)@ == old(out)@ + le64(x),
{
    let _ = out.write_u64::<LittleEndian>(x);
}

/// Encoding then decoding a `u64` gives it back, wherever it sits in a buffer.
pub proof fn lemma_u64_roundtrip(pre: Seq<u8>, x: u64, post: Seq<u8>)
    ensures
        le64(x).len() == 8,
        u64_at(pre + le64(x) + post, pre.len() as int) == x,
{
    lemma_auto_spec_u64_to_from_le_bytes();
    assert((pre + le64(x) + post).subrange(pre.len() as int, pre.len() + 8int) =~= le64(x));
}

/// Encoding then decoding a `u32` gives it back, wherever it sits in a buffer.
pub proof fn lemma_u32_roundtrip(pre: Seq<u8>, x: u32, post: Seq<u8>)
    ensures
        le32(x).len() == 4,
        u32_at(pre + le32(x) + post, pre.len() as int) == x,
{
    lemma_auto_spec_u32_to_from_le_bytes();
    assert((pre + le32(x) + post).subrange(pre.len() as int, pre.len() + 4int) =~= le32(x));
}

/// Encoding then decoding a `u16` gives it back, wherever it sits in a buffer.
pub proof fn lemma_u16_roundtrip(pre: Seq<u8>, x: u16, post: Seq<u8>)
    ensures
        le16(x).len() == 2,
        u16_at(pre + le16(x) + post, pre.len() as int) == x,
{
    lemma_auto_spec_u16_to_from_le_bytes();
    assert((pre + le16(x) + post).subrange(pre.len() as int, pre.len() + 2int) =~= le16(x));
}

/// The encoded length of integers.
pub proof fn lemma_le_lengths()
    ensures
        forall|x: u32| #[trigger] le32(x).len() == 4,
        forall|x: u16| #[trigger] le16(x).len() == 2,
{
    lemma_auto_spec_u32_to_from_le_bytes();
    lemma_auto_spec_u16_to_from_le_bytes();
}

} // verus!
