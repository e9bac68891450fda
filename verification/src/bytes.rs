//! Little-endian integer codecs and string helpers shared by the
//! instruction decoder, the profile writer and the profile parser.

use vstd::prelude::*;

verus! {

/// The little-endian `u16` stored at `b[off..off + 2]`.
pub open spec fn u16_at(b: Seq<u8>, off: int) -> u16 {
    (b[off] as int + 0x100 * b[off + 1]) as u16
}

/// The little-endian 24-bit value stored at `b[off..off + 3]`.
pub open spec fn u24_at(b: Seq<u8>, off: int) -> u32 {
    (b[off] as int + 0x100 * b[off + 1] + 0x10000 * b[off + 2]) as u32
}

/// The little-endian `u32` stored at `b[off..off + 4]`.
pub open spec fn u32_at(b: Seq<u8>, off: int) -> u32 {
    (b[off] as int + 0x100 * b[off + 1] + 0x10000 * b[off + 2] + 0x1000000 * b[off + 3]) as u32
}

/// The little-endian `u64` stored at `b[off..off + 8]`.
pub open spec fn u64_at(b: Seq<u8>, off: int) -> u64 {
    (u32_at(b, off) as int + 0x1_0000_0000 * u32_at(b, off + 4)) as u64
}

/// Reads the little-endian `u16` at `b[off..off + 2]`.
pub fn read_u16_le(b: &[u8], off: usize) -> (r: u16)
    requires
        off + 2 <= b@.len(),
    ensures
        r == u16_at(b@, off as int),
{
    b[off] as u16 + 0x100 * (b[off + 1] as u16)
}

/// Reads the little-endian 24-bit value at `b[off..off + 3]`.
pub fn read_u24_le(b: &[u8], off: usize) -> (r: u32)
    requires
        off + 3 <= b@.len(),
    ensures
        r == u24_at(b@, off as int),
        r < 0x100_0000,
{
    b[off] as u32 + 0x100 * (b[off + 1] as u32) + 0x10000 * (b[off + 2] as u32)
}

/// Reads the little-endian `u32` at `b[off..off + 4]`.
pub fn read_u32_le(b: &[u8], off: usize) -> (r: u32)
    requires
        off + 4 <= b@.len(),
    ensures
        r == u32_at(b@, off as int),
{
    b[off] as u32 + 0x100 * (b[off + 1] as u32) + 0x10000 * (b[off + 2] as u32) + 0x1000000 * (
    b[off + 3] as u32)
}

/// Reads the little-endian `u64` at `b[off..off + 8]`.
pub fn read_u64_le(b: &[u8], off: usize) -> (r: u64)
    requires
        off + 8 <= b@.len(),
    ensures
        r == u64_at(b@, off as int),
{
    let len = b.len();
    assert(off + 8 <= len);
    let lo = read_u32_le(b, off);
    let hi = read_u32_le(b, off + 4);
    lo as u64 + 0x1_0000_0000 * (hi as u64)
}

/// Little-endian bytes of the low 16 bits of `v`.
pub open spec fn le16(v: u64) -> Seq<u8> {
    seq![v as u8, (v >> 8u64) as u8]
}

/// Little-endian bytes of the low 24 bits of `v`.
pub open spec fn le24(v: u64) -> Seq<u8> {
    seq![v as u8, (v >> 8u64) as u8, (v >> 16u64) as u8]
}

/// Little-endian bytes of the low 32 bits of `v`.
pub open spec fn le32(v: u64) -> Seq<u8> {
    seq![v as u8, (v >> 8u64) as u8, (v >> 16u64) as u8, (v >> 24u64) as u8]
}

/// Little-endian bytes of `v`.
pub open spec fn le64(v: u64) -> Seq<u8> {
    le32(v) + le32(v >> 32u64)
}

/// Appends the bytes of `src` to `buf`.
pub fn push_bytes(buf: &mut Vec<u8>, src: &[u8])
    ensures
        final(buf)@ == old(buf)@ + src@,
{
    let mut i: usize = 0;
    while i < src.len()
        invariant
            i <= src@.len(),
            buf@ == old(buf)@ + src@.take(i as int),
        decreases src@.len() - i,
    {
        buf.push(src[i]);
        i = i + 1;
        assert(buf@ =~= old(buf)@ + src@.take(i as int));
    }
    assert(src@.take(i as int) =~= src@);
}

/// Appends the two little-endian bytes of `v`.
pub fn push_u16_le(buf: &mut Vec<u8>, v: u16)
    ensures
        final(buf)@ == old(buf)@ + le16(v as u64),
{
    let w = v as u64;
    buf.push(w as u8);
    buf.push((w >> 8u64) as u8);
    assert(buf@ =~= old(buf)@ + le16(v as u64));
}

/// Appends the three little-endian bytes of the low 24 bits of `v`.
pub fn push_u24_le(buf: &mut Vec<u8>, v: u32)
    ensures
        final(buf)@ == old(buf)@ + le24(v as u64),
{
    let w = v as u64;
    buf.push(w as u8);
    buf.push((w >> 8u64) as u8);
    buf.push((w >> 16u64) as u8);
    assert(buf@ =~= old(buf)@ + le24(v as u64));
}

/// Appends the four little-endian bytes of `v`.
pub fn push_u32_le(buf: &mut Vec<u8>, v: u32)
    ensures
        final(buf)@ == old(buf)@ + le32(v as u64),
{
    let w = v as u64;
    buf.push(w as u8);
    buf.push((w >> 8u64) as u8);
    buf.push((w >> 16u64) as u8);
    buf.push((w >> 24u64) as u8);
    assert(buf@ =~= old(buf)@ + le32(v as u64));
}

/// Appends the eight little-endian bytes of `v`.
pub fn push_u64_le(buf: &mut Vec<u8>, v: u64)
    ensures
        final(buf)@ == old(buf)@ + le64(v),
{
    push_u32_le(buf, v as u32);
    proof {
        assert((v as u32) as u64 == v & 0xFFFF_FFFF) by (bit_vector);
        assert((v & 0xFFFF_FFFF) as u8 == v as u8) by (bit_vector);
        assert(((v & 0xFFFF_FFFF) >> 8u64) as u8 == (v >> 8u64) as u8) by (bit_vector);
        assert(((v & 0xFFFF_FFFF) >> 16u64) as u8 == (v >> 16u64) as u8) by (bit_vector);
        assert(((v & 0xFFFF_FFFF) >> 24u64) as u8 == (v >> 24u64) as u8) by (bit_vector);
    }
    push_u32_le(buf, (v >> 32u64) as u32);
    proof {
        assert(((v >> 32u64) as u32) as u64 == v >> 32u64) by (bit_vector);
    }
    assert(buf@ =~= old(buf)@ + le64(v));
}

/// Reading back what `le16` wrote gives the value.
pub proof fn lemma_le16_roundtrip(v: u64, pre: Seq<u8>, post: Seq<u8>)
    requires
        v < 0x1_0000,
    ensures
        u16_at(pre + le16(v) + post, pre.len() as int) == v,
{
    let s = pre + le16(v) + post;
    let o = pre.len() as int;
    assert(s[o] == v as u8 && s[o + 1] == (v >> 8u64) as u8);
    assert(v < 0x1_0000 ==> (v as u8) as int + 0x100 * ((v >> 8u64) as u8) as int == v)
        by (bit_vector);
}

/// Reading back what `le24` wrote gives the value.
pub proof fn lemma_le24_roundtrip(v: u64, pre: Seq<u8>, post: Seq<u8>)
    requires
        v < 0x100_0000,
    ensures
        u24_at(pre + le24(v) + post, pre.len() as int) == v,
{
    let s = pre + le24(v) + post;
    let o = pre.len() as int;
    assert(s[o] == v as u8 && s[o + 1] == (v >> 8u64) as u8 && s[o + 2] == (v >> 16u64) as u8);
    assert(v < 0x100_0000 ==> (v as u8) as int + 0x100 * ((v >> 8u64) as u8) as int + 0x10000 * ((v
        >> 16u64) as u8) as int == v) by (bit_vector);
}

/// Reading back what `le32` wrote gives the value.
pub proof fn lemma_le32_roundtrip(v: u64, pre: Seq<u8>, post: Seq<u8>)
    requires
        v < 0x1_0000_0000,
    ensures
        u32_at(pre + le32(v) + post, pre.len() as int) == v,
{
    let s = pre + le32(v) + post;
    let o = pre.len() as int;
    assert(s[o] == v as u8 && s[o + 1] == (v >> 8u64) as u8 && s[o + 2] == (v >> 16u64) as u8 && s[o
        + 3] == (v >> 24u64) as u8);
    assert(v < 0x1_0000_0000 ==> (v as u8) as int + 0x100 * ((v >> 8u64) as u8) as int + 0x10000 * ((
    v >> 16u64) as u8) as int + 0x100_0000 * ((v >> 24u64) as u8) as int == v) by (bit_vector);
}

/// Reading back what `le64` wrote gives the value.
pub proof fn lemma_le64_roundtrip(v: u64, pre: Seq<u8>, post: Seq<u8>)
    ensures
        u64_at(pre + le64(v) + post, pre.len() as int) == v,
{
    let lo = v & 0xFFFF_FFFF;
    let hi = v >> 32u64;
    assert(lo < 0x1_0000_0000) by (bit_vector)
        requires
            lo == v & 0xFFFF_FFFF,
    ;
    assert(hi < 0x1_0000_0000) by (bit_vector)
        requires
            hi == v >> 32u64,
    ;
    assert(v as u8 == lo as u8 && (v >> 8u64) as u8 == (lo >> 8u64) as u8 && (v >> 16u64) as u8 == (
    lo >> 16u64) as u8 && (v >> 24u64) as u8 == (lo >> 24u64) as u8) by (bit_vector)
        requires
            lo == v & 0xFFFF_FFFF,
    ;
    assert(le32(v) =~= le32(lo));
    assert(pre + le64(v) + post =~= pre + le32(lo) + (le32(hi) + post));
    lemma_le32_roundtrip(lo, pre, le32(hi) + post);
    assert(pre + le64(v) + post =~= (pre + le32(lo)) + le32(hi) + post);
    lemma_le32_roundtrip(hi, pre + le32(lo), post);
    assert(v == lo + 0x1_0000_0000 * hi) by (bit_vector)
        requires
            lo == v & 0xFFFF_FFFF,
            hi == v >> 32u64,
    ;
}

/// The characters that `String::from_utf8_lossy` makes of `bytes`.
pub uninterp spec fn utf8_lossy(bytes: Seq<u8>) -> Seq<char>;

/// Text of `bytes` read as UTF-8: their decoding where they are valid
/// UTF-8, else what lossy decoding makes of them.
pub open spec fn lossy_text(bytes: Seq<u8>) -> Seq<char> {
    if vstd::utf8::valid_utf8(bytes) {
        vstd::utf8::decode_utf8(bytes)
    } else {
        utf8_lossy(bytes)
    }
}

/// Calls `String::from_utf8_lossy` and takes ownership of the result.
/// Where the bytes are valid UTF-8 the text is exactly their decoding
/// (std documents that valid input is returned unchanged); otherwise it
/// is named `utf8_lossy` of the bytes, and how invalid sequences are
/// replaced by U+FFFD is left unsaid.
#[verifier::external_body]
pub(crate) fn string_from_utf8_lossy(bytes: &[u8]) -> (s: String)
    ensures
        vstd::utf8::valid_utf8(bytes@) ==> s@ == vstd::utf8::decode_utf8(bytes@),
        !vstd::utf8::valid_utf8(bytes@) ==> s@ == utf8_lossy(bytes@),
{
    String::from_utf8_lossy(bytes).into_owned()
}

/// Whether two strings hold the same characters.
pub fn str_eq(a: &str, b: &str) -> (r: bool)
    ensures
        r == (a@ == b@),
{
    let ab = a.as_bytes();
    let bb = b.as_bytes();
    proof {
        vstd::utf8::encode_utf8_decode_utf8(a@);
        vstd::utf8::encode_utf8_decode_utf8(b@);
    }
    if ab.len() != bb.len() {
        return false;
    }
    let mut i: usize = 0;
    while i < ab.len()
        invariant
            ab@.len() == bb@.len(),
            ab@ == vstd::utf8::encode_utf8(a@),
            bb@ == vstd::utf8::encode_utf8(b@),
            i <= ab@.len(),
            forall|j: int| 0 <= j < i ==> ab@[j] == bb@[j],
        decreases ab@.len() - i,
    {
        if ab[i] != bb[i] {
            assert(ab@[i as int] != bb@[i as int]);
            return false;
        }
        i = i + 1;
    }
    assert(ab@ =~= bb@);
    true
}

} // verus!
