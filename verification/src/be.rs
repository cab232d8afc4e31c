//! Big-endian integer encoding as used on the wire.

use vstd::prelude::*;

verus! {

/// The two bytes of `v`, most significant first.
pub open spec fn be16(v: u16) -> Seq<u8> {
    seq![(v >> 8u16) as u8, v as u8]
}

/// The four bytes of `v`, most significant first.
pub open spec fn be32(v: u32) -> Seq<u8> {
    seq![(v >> 24u32) as u8, (v >> 16u32) as u8, (v >> 8u32) as u8, v as u8]
}

/// The eight bytes of `v`, most significant first.
pub open spec fn be64(v: u64) -> Seq<u8> {
    seq![
        (v >> 56u64) as u8,
        (v >> 48u64) as u8,
        (v >> 40u64) as u8,
        (v >> 32u64) as u8,
        (v >> 24u64) as u8,
        (v >> 16u64) as u8,
        (v >> 8u64) as u8,
        v as u8,
    ]
}

/// The value of the first two bytes of `s`, read most significant first.
pub open spec fn read16(s: Seq<u8>) -> u16 {
    ((s[0] as u16) << 8u16) | (s[1] as u16)
}

/// The value of the first four bytes of `s`, read most significant first.
pub open spec fn read32(s: Seq<u8>) -> u32 {
    ((s[0] as u32) << 24u32) | ((s[1] as u32) << 16u32) | ((s[2] as u32) << 8u32) | (s[3] as u32)
}

/// The value of the first eight bytes of `s`, read most significant first.
pub open spec fn read64(s: Seq<u8>) -> u64 {
    ((s[0] as u64) << 56u64) | ((s[1] as u64) << 48u64) | ((s[2] as u64) << 40u64) | ((
    s[3] as u64) << 32u64) | ((s[4] as u64) << 24u64) | ((s[5] as u64) << 16u64) | ((s[6] as u64)
        << 8u64) | (s[7] as u64)
}

/// Reading back two written bytes gives the value written.
pub proof fn lemma_read_be16(v: u16, rest: Seq<u8>)
    ensures
        read16(be16(v) + rest) == v,
{
    let s = be16(v) + rest;
    assert(s[0] == (v >> 8u16) as u8 && s[1] == v as u8);
    assert((((v >> 8u16) as u8 as u16) << 8u16) | (v as u8 as u16) == v) by (bit_vector);
}

/// Reading back four written bytes gives the value written.
pub proof fn lemma_read_be32(v: u32, rest: Seq<u8>)
    ensures
        read32(be32(v) + rest) == v,
{
    let s = be32(v) + rest;
    assert(s[0] == (v >> 24u32) as u8 && s[1] == (v >> 16u32) as u8 && s[2] == (v >> 8u32) as u8
        && s[3] == v as u8);
    assert((((v >> 24u32) as u8 as u32) << 24u32) | (((v >> 16u32) as u8 as u32) << 16u32) | (((v
        >> 8u32) as u8 as u32) << 8u32) | (v as u8 as u32) == v) by (bit_vector);
}

/// Reading back eight written bytes gives the value written.
pub proof fn lemma_read_be64(v: u64, rest: Seq<u8>)
    ensures
        read64(be64(v) + rest) == v,
{
    let s = be64(v) + rest;
    assert(s[0] == (v >> 56u64) as u8 && s[1] == (v >> 48u64) as u8 && s[2] == (v >> 40u64) as u8
        && s[3] == (v >> 32u64) as u8 && s[4] == (v >> 24u64) as u8 && s[5] == (v >> 16u64) as u8
        && s[6] == (v >> 8u64) as u8 && s[7] == v as u8);
    assert((((v >> 56u64) as u8 as u64) << 56u64) | (((v >> 48u64) as u8 as u64) << 48u64) | (((v
        >> 40u64) as u8 as u64) << 40u64) | (((v >> 32u64) as u8 as u64) << 32u64) | (((v
        >> 24u64) as u8 as u64) << 24u64) | (((v >> 16u64) as u8 as u64) << 16u64) | (((v
        >> 8u64) as u8 as u64) << 8u64) | (v as u8 as u64) == v) by (bit_vector);
}

/// Appends the two bytes of `v` to `buf`, most significant first.
pub fn put_u16(buf: &mut Vec<u8>, v: u16)
    ensures
        final(buf)@ == old(buf)@ + be16(v),
{
    buf.push((v >> 8u16) as u8);
    buf.push(v as u8);
    assert(final(buf)@ =~= old(buf)@ + be16(v));
}

/// Appends the four bytes of `v` to `buf`, most significant first.
pub fn put_u32(buf: &mut Vec<u8>, v: u32)
    ensures
        final(buf)@ == old(buf)@ + be32(v),
{
    buf.push((v >> 24u32) as u8);
    buf.push((v >> 16u32) as u8);
    buf.push((v >> 8u32) as u8);
    buf.push(v as u8);
    assert(final(buf)@ =~= old(buf)@ + be32(v));
}

/// Appends the eight bytes of `v` to `buf`, most significant first.
pub fn put_u64(buf: &mut Vec<u8>, v: u64)
    ensures
        final(buf)@ == old(buf)@ + be64(v),
{
    buf.push((v >> 56u64) as u8);
    buf.push((v >> 48u64) as u8);
    buf.push((v >> 40u64) as u8);
    buf.push((v >> 32u64) as u8);
    buf.push((v >> 24u64) as u8);
    buf.push((v >> 16u64) as u8);
    buf.push((v >> 8u64) as u8);
    buf.push(v as u8);
    assert(final(buf)@ =~= old(buf)@ + be64(v));
}

/// Reads two bytes at `pos`, most significant first.
pub fn get_u16(buf: &[u8], pos: usize) -> (r: u16)
    requires
        pos + 2 <= buf@.len(),
    ensures
        r == read16(buf@.skip(pos as int)),
{
    ((buf[pos] as u16) << 8u16) | (buf[pos + 1] as u16)
}

/// Reads four bytes at `pos`, most significant first.
pub fn get_u32(buf: &[u8], pos: usize) -> (r: u32)
    requires
        pos + 4 <= buf@.len(),
    ensures
        r == read32(buf@.skip(pos as int)),
{
    ((buf[pos] as u32) << 24u32) | ((buf[pos + 1] as u32) << 16u32) | ((buf[pos + 2] as u32)
        << 8u32) | (buf[pos + 3] as u32)
}

/// Reads eight bytes at `pos`, most significant first.
pub fn get_u64(buf: &[u8], pos: usize) -> (r: u64)
    requires
        pos + 8 <= buf@.len(),
    ensures
        r == read64(buf@.skip(pos as int)),
{
    ((buf[pos] as u64) << 56u64) | ((buf[pos + 1] as u64) << 48u64) | ((buf[pos + 2] as u64)
        << 40u64) | ((buf[pos + 3] as u64) << 32u64) | ((buf[pos + 4] as u64) << 24u64) | ((buf[pos
        + 5] as u64) << 16u64) | ((buf[pos + 6] as u64) << 8u64) | (buf[pos + 7] as u64)
}

} // verus!
