//! Big-endian numbers on the wire, written to and read from byte buffers
//! with the `bytes` crate.

use vstd::prelude::*;
use bytes::{Buf, BufMut};

verus! {

/// The two bytes of `v`, most significant first.
pub open spec fn u16_be(v: u16) -> Seq<u8> {
    seq![(v / 0x100) as u8, (v % 0x100) as u8]
}

/// The number that the first two bytes of `s` spell, most significant first.
pub open spec fn be_u16(s: Seq<u8>) -> u16
    recommends
        s.len() >= 2,
{
    (s[0] * 0x100 + s[1]) as u16
}

/// The eight bytes of `v`, most significant first.
#[verifier::opaque]
pub open spec fn u64_be(v: u64) -> Seq<u8> {
    seq![
        (v / 0x100_0000_0000_0000) as u8,
        (v / 0x1_0000_0000_0000 % 0x100) as u8,
        (v / 0x100_0000_0000 % 0x100) as u8,
        (v / 0x1_0000_0000 % 0x100) as u8,
        (v / 0x100_0000 % 0x100) as u8,
        (v / 0x1_0000 % 0x100) as u8,
        (v / 0x100 % 0x100) as u8,
        (v % 0x100) as u8,
    ]
}

/// The number that the first eight bytes of `s` spell, most significant first.
#[verifier::opaque]
pub open spec fn be_u64(s: Seq<u8>) -> u64
    recommends
        s.len() >= 8,
{
    (s[0] * 0x100_0000_0000_0000 + s[1] * 0x1_0000_0000_0000 + s[2] * 0x100_0000_0000 + s[3]
        * 0x1_0000_0000 + s[4] * 0x100_0000 + s[5] * 0x1_0000 + s[6] * 0x100 + s[7]) as u64
}

/// Reading back two big-endian bytes gives the number that was written,
/// whatever follows them.
pub proof fn lemma_u16_round_trip(v: u16, rest: Seq<u8>)
    ensures
        u16_be(v).len() == 2,
        be_u16(u16_be(v) + rest) == v,
{
}

/// Reading back eight big-endian bytes gives the number that was written,
/// whatever follows them.
pub proof fn lemma_u64_round_trip(v: u64, rest: Seq<u8>)
    ensures
        u64_be(v).len() == 8,
        be_u64(u64_be(v) + rest) == v,
{
    reveal(u64_be);
    reveal(be_u64);
    let q1 = v / 0x100;
    let q2 = q1 / 0x100;
    let q3 = q2 / 0x100;
    let q4 = q3 / 0x100;
    let q5 = q4 / 0x100;
    let q6 = q5 / 0x100;
    let q7 = q6 / 0x100;
    assert(v / 0x1_0000 == v / 0x100 / 0x100) by (bit_vector);
    assert(v / 0x100_0000 == v / 0x100 / 0x100 / 0x100) by (bit_vector);
    assert(v / 0x1_0000_0000 == v / 0x100 / 0x100 / 0x100 / 0x100) by (bit_vector);
    assert(v / 0x100_0000_0000 == v / 0x100 / 0x100 / 0x100 / 0x100 / 0x100) by (bit_vector);
    assert(v / 0x1_0000_0000_0000 == v / 0x100 / 0x100 / 0x100 / 0x100 / 0x100 / 0x100)
        by (bit_vector);
    assert(v / 0x100_0000_0000_0000 == v / 0x100 / 0x100 / 0x100 / 0x100 / 0x100 / 0x100 / 0x100)
        by (bit_vector);
    assert(q7 < 0x100);
    let s = u64_be(v) + rest;
    assert(s[0] == q7);
    assert(s[1] == q6 % 0x100);
    assert(s[2] == q5 % 0x100);
    assert(s[3] == q4 % 0x100);
    assert(s[4] == q3 % 0x100);
    assert(s[5] == q2 % 0x100);
    assert(s[6] == q1 % 0x100);
    assert(s[7] == v % 0x100);
}

/// Only the first eight bytes count.
pub proof fn lemma_be_u64_prefix(s: Seq<u8>, t: Seq<u8>)
    requires
        s.len() >= 8,
        t.len() >= 8,
        s.take(8) == t.take(8),
    ensures
        be_u64(s) == be_u64(t),
{
    reveal(be_u64);
    assert forall|i: int| 0 <= i < 8 implies s[i] == t[i] by {
        assert(s[i] == s.take(8)[i]);
        assert(t[i] == t.take(8)[i]);
    }
}

/// Reads a big-endian `u16` off the front of `buf` and moves `buf` past it:
/// `bytes::Buf::get_u16` on a byte slice, which panics on fewer than two bytes.
#[verifier::external_body]
pub(crate) fn get_u16(buf: &mut &[u8]) -> (v: u16)
    requires
        old(buf)@.len() >= 2,
    ensures
        v == be_u16(old(buf)@),
        final(buf)@ == old(buf)@.skip(2),
{
    buf.get_u16()
}

/// Reads a big-endian `u64` off the front of `buf` and moves `buf` past it:
/// `bytes::Buf::get_u64` on a byte slice, which panics on fewer than eight bytes.
#[verifier::external_body]
pub(crate) fn get_u64(buf: &mut &[u8]) -> (v: u64)
    requires
        old(buf)@.len() >= 8,
    ensures
        v == be_u64(old(buf)@),
        final(buf)@ == old(buf)@.skip(8),
{
    buf.get_u64()
}

/// Moves `buf` past its first `cnt` bytes: `bytes::Buf::advance` on a byte
/// slice, which panics where `cnt` is more than what is left.
#[verifier::external_body]
pub(crate) fn advance(buf: &mut &[u8], cnt: usize)
    requires
        cnt <= old(buf)@.len(),
    ensures
        final(buf)@ == old(buf)@.skip(cnt as int),
{
    buf.advance(cnt)
}

/// Appends `v` as two big-endian bytes: `bytes::BufMut::put_u16` on a `Vec<u8>`.
#[verifier::external_body]
pub(crate) fn put_u16(buf: &mut Vec<u8>, v: u16)
    ensures
        final(buf)@ == old(buf)@ + u16_be(v),
{
    buf.put_u16(v)
}

/// Appends `v` as eight big-endian bytes: `bytes::BufMut::put_u64` on a `Vec<u8>`.
#[verifier::external_body]
pub(crate) fn put_u64(buf: &mut Vec<u8>, v: u64)
    ensures
        final(buf)@ == old(buf)@ + u64_be(v),
{
    buf.put_u64(v)
}

/// Appends the bytes of `src`: `bytes::BufMut::put` on a `Vec<u8>`, with a
/// byte slice as the source.
#[verifier::external_body]
pub(crate) fn put(buf: &mut Vec<u8>, src: &[u8])
    ensures
        final(buf)@ == old(buf)@ + src@,
{
    buf.put(src)
}

} // verus!
