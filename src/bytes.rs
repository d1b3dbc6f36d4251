//! Big-endian byte encoding of fixed-width unsigned integers.
use vstd::prelude::*;

verus! {

pub open spec fn be_u16(x: u16) -> Seq<u8> {
    seq![(x >> 8u16) as u8, x as u8]
}

pub open spec fn be_u32(x: u32) -> Seq<u8> {
    seq![(x >> 24u32) as u8, (x >> 16u32) as u8, (x >> 8u32) as u8, x as u8]
}

pub open spec fn be_u64(x: u64) -> Seq<u8> {
    seq![
        (x >> 56u64) as u8,
        (x >> 48u64) as u8,
        (x >> 40u64) as u8,
        (x >> 32u64) as u8,
        (x >> 24u64) as u8,
        (x >> 16u64) as u8,
        (x >> 8u64) as u8,
        x as u8,
    ]
}

/// The big-endian `u16` stored at `b[at..at + 2]`.
pub open spec fn read_be_u16(b: Seq<u8>, at: int) -> u16 {
    ((b[at] as u16) << 8u16) | (b[at + 1] as u16)
}

/// The big-endian `u32` stored at `b[at..at + 4]`.
pub open spec fn read_be_u32(b: Seq<u8>, at: int) -> u32 {
    ((b[at] as u32) << 24u32) | ((b[at + 1] as u32) << 16u32) | ((b[at + 2] as u32) << 8u32) | (
    b[at + 3] as u32)
}

/// The big-endian `u64` stored at `b[at..at + 8]`.
pub open spec fn read_be_u64(b: Seq<u8>, at: int) -> u64 {
    ((b[at] as u64) << 56u64) | ((b[at + 1] as u64) << 48u64) | ((b[at + 2] as u64) << 40u64) | ((
    b[at + 3] as u64) << 32u64) | ((b[at + 4] as u64) << 24u64) | ((b[at + 5] as u64) << 16u64)
        | ((b[at + 6] as u64) << 8u64) | (b[at + 7] as u64)
}

proof fn lemma_u16_bytes(x: u16)
    ensures
        ((((x >> 8u16) as u8) as u16) << 8u16) | ((x as u8) as u16) == x,
{
    assert(((((x >> 8u16) as u8) as u16) << 8u16) | ((x as u8) as u16) == x) by (bit_vector);
}

proof fn lemma_u32_bytes(x: u32)
    ensures
        ((((x >> 24u32) as u8) as u32) << 24u32) | ((((x >> 16u32) as u8) as u32) << 16u32) | (((
        (x >> 8u32) as u8) as u32) << 8u32) | ((x as u8) as u32) == x,
{
    assert(((((x >> 24u32) as u8) as u32) << 24u32) | ((((x >> 16u32) as u8) as u32) << 16u32) | (
    (((x >> 8u32) as u8) as u32) << 8u32) | ((x as u8) as u32) == x) by (bit_vector);
}

proof fn lemma_u64_bytes(x: u64)
    ensures
        ((((x >> 56u64) as u8) as u64) << 56u64) | ((((x >> 48u64) as u8) as u64) << 48u64) | (((
        (x >> 40u64) as u8) as u64) << 40u64) | ((((x >> 32u64) as u8) as u64) << 32u64) | ((((x
            >> 24u64) as u8) as u64) << 24u64) | ((((x >> 16u64) as u8) as u64) << 16u64) | ((((x
            >> 8u64) as u8) as u64) << 8u64) | ((x as u8) as u64) == x,
{
    assert(((((x >> 56u64) as u8) as u64) << 56u64) | ((((x >> 48u64) as u8) as u64) << 48u64) | (
    (((x >> 40u64) as u8) as u64) << 40u64) | ((((x >> 32u64) as u8) as u64) << 32u64) | ((((x
        >> 24u64) as u8) as u64) << 24u64) | ((((x >> 16u64) as u8) as u64) << 16u64) | ((((x
        >> 8u64) as u8) as u64) << 8u64) | ((x as u8) as u64) == x) by (bit_vector);
}

/// Reading back the bytes of a big-endian `u16` at any offset gives the value.
pub proof fn lemma_read_be_u16(pre: Seq<u8>, x: u16, post: Seq<u8>)
    ensures
        read_be_u16(pre + be_u16(x) + post, pre.len() as int) == x,
{
    let b = pre + be_u16(x) + post;
    let at = pre.len() as int;
    assert(b[at] == (x >> 8u16) as u8);
    assert(b[at + 1] == x as u8);
    lemma_u16_bytes(x);
}

/// Reading back the bytes of a big-endian `u32` at any offset gives the value.
pub proof fn lemma_read_be_u32(pre: Seq<u8>, x: u32, post: Seq<u8>)
    ensures
        read_be_u32(pre + be_u32(x) + post, pre.len() as int) == x,
{
    let b = pre + be_u32(x) + post;
    let at = pre.len() as int;
    assert(b[at] == (x >> 24u32) as u8);
    assert(b[at + 1] == (x >> 16u32) as u8);
    assert(b[at + 2] == (x >> 8u32) as u8);
    assert(b[at + 3] == x as u8);
    lemma_u32_bytes(x);
}

/// Reading back the bytes of a big-endian `u64` at any offset gives the value.
pub proof fn lemma_read_be_u64(pre: Seq<u8>, x: u64, post: Seq<u8>)
    ensures
        read_be_u64(pre + be_u64(x) + post, pre.len() as int) == x,
{
    let b = pre + be_u64(x) + post;
    let at = pre.len() as int;
    assert(b[at] == (x >> 56u64) as u8);
    assert(b[at + 1] == (x >> 48u64) as u8);
    assert(b[at + 2] == (x >> 40u64) as u8);
    assert(b[at + 3] == (x >> 32u64) as u8);
    assert(b[at + 4] == (x >> 24u64) as u8);
    assert(b[at + 5] == (x >> 16u64) as u8);
    assert(b[at + 6] == (x >> 8u64) as u8);
    assert(b[at + 7] == x as u8);
    lemma_u64_bytes(x);
}

/// Appends the big-endian bytes of `x`.
pub fn push_be_u16(out: &mut Vec<u8>, x: u16)
    ensures
        final(out)@ == old(out)@ + be_u16(x),
{
    out.push((x >> 8u16) as u8);
    out.push(x as u8);
}

/// Appends the big-endian bytes of `x`.
pub fn push_be_u32(out: &mut Vec<u8>, x: u32)
    ensures
        final(out)@ == old(out)@ + be_u32(x),
{
    out.push((x >> 24u32) as u8);
    out.push((x >> 16u32) as u8);
    out.push((x >> 8u32) as u8);
    out.push(x as u8);
}

/// Appends the big-endian bytes of `x`.
pub fn push_be_u64(out: &mut Vec<u8>, x: u64)
    ensures
        final(out)@ == old(out)@ + be_u64(x),
{
    out.push((x >> 56u64) as u8);
    out.push((x >> 48u64) as u8);
    out.push((x >> 40u64) as u8);
    out.push((x >> 32u64) as u8);
    out.push((x >> 24u64) as u8);
    out.push((x >> 16u64) as u8);
    out.push((x >> 8u64) as u8);
    out.push(x as u8);
}

/// Reads the big-endian `u16` at `buf[at..at + 2]`.
pub fn read_u16_at(buf: &[u8], at: usize) -> (x: u16)
    requires
        at + 2 <= buf@.len(),
    ensures
        x == read_be_u16(buf@, at as int),
{
    ((buf[at] as u16) << 8u16) | (buf[at + 1] as u16)
}

/// Reads the big-endian `u32` at `buf[at..at + 4]`.
pub fn read_u32_at(buf: &[u8], at: usize) -> (x: u32)
    requires
        at + 4 <= buf@.len(),
    ensures
        x == read_be_u32(buf@, at as int),
{
    ((buf[at] as u32) << 24u32) | ((buf[at + 1] as u32) << 16u32) | ((buf[at + 2] as u32) << 8u32)
        | (buf[at + 3] as u32)
}

/// Reads the big-endian `u64` at `buf[at..at + 8]`.
pub fn read_u64_at(buf: &[u8], at: usize) -> (x: u64)
    requires
        at + 8 <= buf@.len(),
    ensures
        x == read_be_u64(buf@, at as int),
{
    ((buf[at] as u64) << 56u64) | ((buf[at + 1] as u64) << 48u64) | ((buf[at + 2] as u64) << 40u64)
        | ((buf[at + 3] as u64) << 32u64) | ((buf[at + 4] as u64) << 24u64) | ((buf[at + 5] as u64)
        << 16u64) | ((buf[at + 6] as u64) << 8u64) | (buf[at + 7] as u64)
}

} // verus!
