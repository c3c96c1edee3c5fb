//! Little-endian integer encoding, as the ZIP and AXML formats use it.
//!
//! Reading and writing go through `byteorder`'s `LittleEndian`.
use byteorder::{ByteOrder, LittleEndian};
use vstd::prelude::*;

verus! {

/// The value of the two bytes of `s` at `i`, least significant first.
pub open spec fn le_u16(s: Seq<u8>, i: int) -> int {
    s[i] as int + 256 * (s[i + 1] as int)
}

/// The value of the four bytes of `s` at `i`, least significant first.
pub open spec fn le_u32(s: Seq<u8>, i: int) -> int {
    s[i] as int + 256 * (s[i + 1] as int) + 65536 * (s[i + 2] as int) + 16777216 * (s[i + 3] as int)
}

/// The two bytes that encode `v`, least significant first.
pub open spec fn u16_le_bytes(v: u16) -> Seq<u8> {
    seq![(v % 256) as u8, (v / 256) as u8]
}

/// The four bytes that encode `v`, least significant first.
pub open spec fn u32_le_bytes(v: u32) -> Seq<u8> {
    seq![
        (v % 256) as u8,
        ((v / 256) % 256) as u8,
        ((v / 65536) % 256) as u8,
        (v / 16777216) as u8,
    ]
}

/// `byteorder`'s `LittleEndian::read_u16` on the bytes from `pos` on: the
/// first two of them, least significant first. It panics on fewer than two.
#[verifier::external_body]
pub(crate) fn read_u16_le(buf: &[u8], pos: usize) -> (r: u16)
    requires
        pos + 2 <= buf@.len(),
    ensures
        r == le_u16(buf@, pos as int),
{
    LittleEndian::read_u16(&buf[pos..])
}

/// `byteorder`'s `LittleEndian::read_u32` on the bytes from `pos` on: the
/// first four of them, least significant first. It panics on fewer than four.
#[verifier::external_body]
pub(crate) fn read_u32_le(buf: &[u8], pos: usize) -> (r: u32)
    requires
        pos + 4 <= buf@.len(),
    ensures
        r == le_u32(buf@, pos as int),
{
    LittleEndian::read_u32(&buf[pos..])
}

/// `byteorder`'s `LittleEndian::write_u16` into a fresh two-byte buffer.
#[verifier::external_body]
pub(crate) fn write_u16_le(v: u16) -> (b: [u8; 2])
    ensures
        b@ == u16_le_bytes(v),
{
    let mut b = [0u8; 2];
    LittleEndian::write_u16(&mut b, v);
    b
}

/// `byteorder`'s `LittleEndian::write_u32` into a fresh four-byte buffer.
#[verifier::external_body]
pub(crate) fn write_u32_le(v: u32) -> (b: [u8; 4])
    ensures
        b@ == u32_le_bytes(v),
{
    let mut b = [0u8; 4];
    LittleEndian::write_u32(&mut b, v);
    b
}

/// Appends the little-endian encoding of `v`.
pub(crate) fn push_u16_le(buf: &mut Vec<u8>, v: u16)
    ensures
        final(buf)@ == old(buf)@ + u16_le_bytes(v),
{
    let b = write_u16_le(v);
    buf.push(b[0]);
    buf.push(b[1]);
    assert(final(buf)@ =~= old(buf)@ + u16_le_bytes(v));
}

/// Appends the little-endian encoding of `v`.
pub(crate) fn push_u32_le(buf: &mut Vec<u8>, v: u32)
    ensures
        final(buf)@ == old(buf)@ + u32_le_bytes(v),
{
    let b = write_u32_le(v);
    buf.push(b[0]);
    buf.push(b[1]);
    buf.push(b[2]);
    buf.push(b[3]);
    assert(final(buf)@ =~= old(buf)@ + u32_le_bytes(v));
}

/// Appends all of `src`.
pub(crate) fn push_all(buf: &mut Vec<u8>, src: &[u8])
    ensures
        final(buf)@ == old(buf)@ + src@,
{
    let ghost start = buf@;
    let mut i: usize = 0;
    while i < src.len()
        invariant
            i <= src@.len(),
            buf@ == start + src@.subrange(0, i as int),
        decreases src@.len() - i,
    {
        buf.push(src[i]);
        i = i + 1;
        assert(buf@ =~= start + src@.subrange(0, i as int));
    }
    assert(src@.subrange(0, src@.len() as int) =~= src@);
}

/// A fresh vector holding the bytes of `src` from `start` up to `end`.
pub(crate) fn copy_range(src: &[u8], start: usize, end: usize) -> (r: Vec<u8>)
    requires
        start <= end <= src@.len(),
    ensures
        r@ == src@.subrange(start as int, end as int),
{
    let mut r: Vec<u8> = Vec::new();
    let mut i: usize = start;
    while i < end
        invariant
            start <= i <= end,
            end <= src@.len(),
            r@ == src@.subrange(start as int, i as int),
        decreases end - i,
    {
        r.push(src[i]);
        i = i + 1;
        assert(r@ =~= src@.subrange(start as int, i as int));
    }
    r
}

/// Reading back the encoding of a 16-bit value gives the value.
pub proof fn lemma_le_u16_roundtrip(v: u16)
    ensures
        le_u16(u16_le_bytes(v), 0) == v,
{
    assert(((v % 256) as u8) as int + 256 * (((v / 256) as u8) as int) == v) by (nonlinear_arith);
}

/// Reading back the encoding of a 32-bit value gives the value.
pub proof fn lemma_le_u32_roundtrip(v: u32)
    ensures
        le_u32(u32_le_bytes(v), 0) == v,
{
    let b = u32_le_bytes(v);
    assert(b[0] as int + 256 * (b[1] as int) + 65536 * (b[2] as int) + 16777216 * (b[3] as int)
        == v) by (nonlinear_arith)
        requires
            b[0] == (v % 256) as u8,
            b[1] == ((v / 256) % 256) as u8,
            b[2] == ((v / 65536) % 256) as u8,
            b[3] == (v / 16777216) as u8,
    ;
}

/// Encoding the value read from two bytes gives back those bytes.
pub proof fn lemma_le_u16_bytes(s: Seq<u8>, i: int)
    requires
        0 <= i,
        i + 2 <= s.len(),
    ensures
        0 <= le_u16(s, i) <= u16::MAX,
        u16_le_bytes(le_u16(s, i) as u16) =~= s.subrange(i, i + 2),
{
    let a = s[i];
    let b = s[i + 1];
    let v = (a as int + 256 * (b as int)) as u16;
    assert((v % 256) as u8 == a && (v / 256) as u8 == b) by (nonlinear_arith)
        requires
            v == a as int + 256 * (b as int),
    ;
}

/// Encoding the value read from four bytes gives back those bytes.
pub proof fn lemma_le_u32_bytes(s: Seq<u8>, i: int)
    requires
        0 <= i,
        i + 4 <= s.len(),
    ensures
        0 <= le_u32(s, i) <= u32::MAX,
        u32_le_bytes(le_u32(s, i) as u32) =~= s.subrange(i, i + 4),
{
    let a = s[i];
    let b = s[i + 1];
    let c = s[i + 2];
    let d = s[i + 3];
    let v = (a as int + 256 * (b as int) + 65536 * (c as int) + 16777216 * (d as int)) as u32;
    assert((v % 256) as u8 == a && ((v / 256) % 256) as u8 == b && ((v / 65536) % 256) as u8 == c
        && (v / 16777216) as u8 == d) by (nonlinear_arith)
        requires
            v == a as int + 256 * (b as int) + 65536 * (c as int) + 16777216 * (d as int),
    ;
}

/// Two bytes that encode `v` read back as `v`.
pub proof fn lemma_le_u16_at(s: Seq<u8>, i: int, v: u16)
    requires
        0 <= i,
        i + 2 <= s.len(),
        s.subrange(i, i + 2) == u16_le_bytes(v),
    ensures
        le_u16(s, i) == v,
{
    lemma_le_u16_roundtrip(v);
    assert(s[i] == s.subrange(i, i + 2)[0]);
    assert(s[i + 1] == s.subrange(i, i + 2)[1]);
}

/// Four bytes that encode `v` read back as `v`.
pub proof fn lemma_le_u32_at(s: Seq<u8>, i: int, v: u32)
    requires
        0 <= i,
        i + 4 <= s.len(),
        s.subrange(i, i + 4) == u32_le_bytes(v),
    ensures
        le_u32(s, i) == v,
{
    lemma_le_u32_roundtrip(v);
    assert(s[i] == s.subrange(i, i + 4)[0]);
    assert(s[i + 1] == s.subrange(i, i + 4)[1]);
    assert(s[i + 2] == s.subrange(i, i + 4)[2]);
    assert(s[i + 3] == s.subrange(i, i + 4)[3]);
}

} // verus!
