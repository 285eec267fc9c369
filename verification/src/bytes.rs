//! Little-endian integer fields and byte-range helpers over byte vectors,
//! with frame lemmas saying that each field depends only on its own bytes.

use vstd::prelude::*;

verus! {

/// The integer held little-endian in the two bytes of `b` starting at `i`.
pub open spec fn le16(b: Seq<u8>, i: int) -> int {
    b[i] + 0x100 * b[i + 1]
}

/// The integer held little-endian in the eight bytes of `b` starting at `i`.
pub open spec fn le64(b: Seq<u8>, i: int) -> int {
    b[i] + 0x100 * b[i + 1] + 0x1_0000 * b[i + 2] + 0x100_0000 * b[i + 3]
        + 0x1_0000_0000 * b[i + 4] + 0x100_0000_0000 * b[i + 5]
        + 0x1_0000_0000_0000 * b[i + 6] + 0x100_0000_0000_0000 * b[i + 7]
}

/// A two-byte field only depends on its own two bytes.
pub proof fn lemma_le16_frame(b1: Seq<u8>, b2: Seq<u8>, i: int)
    requires
        0 <= i,
        i + 2 <= b1.len(),
        i + 2 <= b2.len(),
        forall|k: int| i <= k < i + 2 ==> b1[k] == b2[k],
    ensures
        le16(b1, i) == le16(b2, i),
{
}

/// An eight-byte field only depends on its own eight bytes.
pub proof fn lemma_le64_frame(b1: Seq<u8>, b2: Seq<u8>, i: int)
    requires
        0 <= i,
        i + 8 <= b1.len(),
        i + 8 <= b2.len(),
        forall|k: int| i <= k < i + 8 ==> b1[k] == b2[k],
    ensures
        le64(b1, i) == le64(b2, i),
{
}

/// A byte range only depends on the bytes it covers.
pub proof fn lemma_subrange_frame(b1: Seq<u8>, b2: Seq<u8>, a: int, c: int)
    requires
        0 <= a <= c,
        c <= b1.len(),
        c <= b2.len(),
        forall|k: int| a <= k < c ==> b1[k] == b2[k],
    ensures
        b1.subrange(a, c) == b2.subrange(a, c),
{
    assert(b1.subrange(a, c) =~= b2.subrange(a, c));
}

pub fn get_u16(buf: &Vec<u8>, pos: usize) -> (r: u16)
    requires
        pos + 2 <= buf.len(),
    ensures
        r == le16(buf@, pos as int),
{
    let lo = buf[pos];
    let hi = buf[pos + 1];
    lo as u16 + (hi as u16) * 0x100
}

pub fn get_u64(buf: &Vec<u8>, pos: usize) -> (r: u64)
    requires
        pos + 8 <= buf.len(),
    ensures
        r == le64(buf@, pos as int),
{
    let b0 = buf[pos];
    let b1 = buf[pos + 1];
    let b2 = buf[pos + 2];
    let b3 = buf[pos + 3];
    let b4 = buf[pos + 4];
    let b5 = buf[pos + 5];
    let b6 = buf[pos + 6];
    let b7 = buf[pos + 7];
    (b0 as u64) + (b1 as u64) * 0x100 + (b2 as u64) * 0x1_0000 + (b3 as u64) * 0x100_0000
        + (b4 as u64) * 0x1_0000_0000 + (b5 as u64) * 0x100_0000_0000
        + (b6 as u64) * 0x1_0000_0000_0000 + (b7 as u64) * 0x100_0000_0000_0000
}

pub fn put_u16(buf: &mut Vec<u8>, pos: usize, v: u16)
    requires
        pos + 2 <= old(buf).len(),
    ensures
        final(buf).len() == old(buf).len(),
        le16(final(buf)@, pos as int) == v,
        forall|k: int|
            0 <= k < final(buf)@.len() && !(pos <= k < pos + 2) ==> final(buf)@[k] == old(
                buf,
            )@[k],
{
    buf[pos] = (v % 0x100) as u8;
    buf[pos + 1] = (v / 0x100) as u8;
}

pub fn put_u64(buf: &mut Vec<u8>, pos: usize, v: u64)
    requires
        pos + 8 <= old(buf).len(),
    ensures
        final(buf).len() == old(buf).len(),
        le64(final(buf)@, pos as int) == v,
        forall|k: int|
            0 <= k < final(buf)@.len() && !(pos <= k < pos + 8) ==> final(buf)@[k] == old(
                buf,
            )@[k],
{
    let mut x = v;
    buf[pos] = (x % 0x100) as u8;
    x = x / 0x100;
    buf[pos + 1] = (x % 0x100) as u8;
    x = x / 0x100;
    buf[pos + 2] = (x % 0x100) as u8;
    x = x / 0x100;
    buf[pos + 3] = (x % 0x100) as u8;
    x = x / 0x100;
    buf[pos + 4] = (x % 0x100) as u8;
    x = x / 0x100;
    buf[pos + 5] = (x % 0x100) as u8;
    x = x / 0x100;
    buf[pos + 6] = (x % 0x100) as u8;
    x = x / 0x100;
    buf[pos + 7] = (x % 0x100) as u8;
}

/// Copy `src` into `buf` starting at `pos`, leaving every other byte alone.
pub fn put_bytes(buf: &mut Vec<u8>, pos: usize, src: &Vec<u8>)
    requires
        pos + src.len() <= old(buf).len(),
    ensures
        final(buf).len() == old(buf).len(),
        final(buf)@.subrange(pos as int, pos + src@.len()) == src@,
        forall|k: int|
            0 <= k < final(buf)@.len() && !(pos <= k < pos + src@.len()) ==> final(buf)@[k]
                == old(buf)@[k],
{
    let mut i: usize = 0;
    while i < src.len()
        invariant
            0 <= i <= src.len(),
            pos + src.len() <= buf.len(),
            buf.len() == old(buf).len(),
            forall|k: int| 0 <= k < i ==> buf@[pos + k] == src@[k],
            forall|k: int|
                0 <= k < buf@.len() && !(pos <= k < pos + src@.len()) ==> buf@[k] == old(
                    buf,
                )@[k],
        decreases src.len() - i,
    {
        buf[pos + i] = src[i];
        i = i + 1;
    }
    proof {
        assert(buf@.subrange(pos as int, pos + src@.len()) =~= src@);
    }
}

/// The `len` bytes of `buf` starting at `pos`, as a fresh vector.
pub fn get_bytes(buf: &Vec<u8>, pos: usize, len: usize) -> (r: Vec<u8>)
    requires
        pos + len <= buf.len(),
    ensures
        r@ == buf@.subrange(pos as int, pos + len as int),
{
    let s = vstd::slice::slice_subrange(buf.as_slice(), pos, pos + len);
    vstd::slice::slice_to_vec(s)
}

} // verus!
