//! Big-endian integers, as every field on disk is stored.

use byteorder::{BigEndian, ByteOrder};
use vstd::prelude::*;

verus! {

/// The integer that eight bytes spell, most significant byte first.
#[verifier::opaque]
pub open spec fn u64_from_be(s: Seq<u8>) -> u64
    recommends
        s.len() == 8,
{
    ((s[0] as u64) << 56) | ((s[1] as u64) << 48) | ((s[2] as u64) << 40) | ((s[3] as u64) << 32)
        | ((s[4] as u64) << 24) | ((s[5] as u64) << 16) | ((s[6] as u64) << 8) | (s[7] as u64)
}

/// The eight bytes of an integer, most significant byte first.
#[verifier::opaque]
pub open spec fn u64_to_be(n: u64) -> Seq<u8> {
    seq![
        ((n >> 56) & 0xff) as u8,
        ((n >> 48) & 0xff) as u8,
        ((n >> 40) & 0xff) as u8,
        ((n >> 32) & 0xff) as u8,
        ((n >> 24) & 0xff) as u8,
        ((n >> 16) & 0xff) as u8,
        ((n >> 8) & 0xff) as u8,
        (n & 0xff) as u8,
    ]
}

/// The integer that sixteen bytes spell, most significant byte first.
#[verifier::opaque]
pub open spec fn u128_from_be(s: Seq<u8>) -> u128
    recommends
        s.len() == 16,
{
    ((u64_from_be(s.subrange(0, 8)) as u128) << 64) | (u64_from_be(s.subrange(8, 16)) as u128)
}

/// The sixteen bytes of an integer, most significant byte first.
#[verifier::opaque]
pub open spec fn u128_to_be(n: u128) -> Seq<u8> {
    u64_to_be((n >> 64) as u64) + u64_to_be((n & 0xffff_ffff_ffff_ffff) as u64)
}

/// Decoding undoes encoding.
pub proof fn lemma_u64_be_roundtrip(n: u64)
    ensures
        u64_to_be(n).len() == 8,
        u64_from_be(u64_to_be(n)) == n,
{
    reveal(u64_from_be);
    reveal(u64_to_be);
    assert(((((n >> 56) & 0xff) as u8) as u64) << 56 | ((((n >> 48) & 0xff) as u8) as u64) << 48 | (((
    (n >> 40) & 0xff) as u8) as u64) << 40 | ((((n >> 32) & 0xff) as u8) as u64) << 32 | ((((n >> 24)
        & 0xff) as u8) as u64) << 24 | ((((n >> 16) & 0xff) as u8) as u64) << 16 | ((((n >> 8)
        & 0xff) as u8) as u64) << 8 | (((n & 0xff) as u8) as u64) == n) by (bit_vector);
}

/// Decoding undoes encoding.
pub proof fn lemma_u128_be_roundtrip(n: u128)
    ensures
        u128_to_be(n).len() == 16,
        u128_from_be(u128_to_be(n)) == n,
{
    reveal(u128_from_be);
    reveal(u128_to_be);
    let hi: u64 = (n >> 64) as u64;
    let lo: u64 = (n & 0xffff_ffff_ffff_ffff) as u64;
    lemma_u64_be_roundtrip(hi);
    lemma_u64_be_roundtrip(lo);
    let s = u128_to_be(n);
    assert(s.subrange(0, 8) =~= u64_to_be(hi));
    assert(s.subrange(8, 16) =~= u64_to_be(lo));
    assert((((n >> 64) as u64) as u128) << 64 | (((n & 0xffff_ffff_ffff_ffff) as u64) as u128) == n)
        by (bit_vector);
}

/// Eight zero bytes spell zero.
pub proof fn lemma_u64_from_be_zero(s: Seq<u8>)
    requires
        s.len() == 8,
        forall|i: int| 0 <= i < 8 ==> s[i] == 0,
    ensures
        u64_from_be(s) == 0,
{
    reveal(u64_from_be);
    assert(((0u8 as u64) << 56) | ((0u8 as u64) << 48) | ((0u8 as u64) << 40) | ((0u8 as u64) << 32)
        | ((0u8 as u64) << 24) | ((0u8 as u64) << 16) | ((0u8 as u64) << 8) | (0u8 as u64) == 0u64)
        by (bit_vector);
}

/// Reads a `u64` at `at` with `byteorder::BigEndian::read_u64`, which takes
/// the first eight bytes of the slice it is given as a big-endian integer.
#[verifier::external_body]
pub(crate) fn get_u64(buf: &[u8], at: usize) -> (r: u64)
    requires
        at + 8 <= buf@.len(),
    ensures
        r == u64_from_be(buf@.subrange(at as int, at + 8)),
{
    BigEndian::read_u64(&buf[at..])
}

/// Reads a `u128` at `at` with `byteorder::BigEndian::read_u128`, which takes
/// the first sixteen bytes of the slice it is given as a big-endian integer.
#[verifier::external_body]
pub(crate) fn get_u128(buf: &[u8], at: usize) -> (r: u128)
    requires
        at + 16 <= buf@.len(),
    ensures
        r == u128_from_be(buf@.subrange(at as int, at + 16)),
{
    BigEndian::read_u128(&buf[at..])
}

/// Appends the eight bytes that `byteorder::BigEndian::write_u64` writes for
/// `n`: its big-endian representation.
#[verifier::external_body]
pub(crate) fn put_u64(buf: &mut Vec<u8>, n: u64)
    ensures
        final(buf)@ == old(buf)@ + u64_to_be(n),
{
    let mut bytes = [0u8; 8];
    BigEndian::write_u64(&mut bytes, n);
    buf.extend_from_slice(&bytes);
}

/// Appends the sixteen bytes that `byteorder::BigEndian::write_u128` writes
/// for `n`: its big-endian representation.
#[verifier::external_body]
pub(crate) fn put_u128(buf: &mut Vec<u8>, n: u128)
    ensures
        final(buf)@ == old(buf)@ + u128_to_be(n),
{
    let mut bytes = [0u8; 16];
    BigEndian::write_u128(&mut bytes, n);
    buf.extend_from_slice(&bytes);
}

} // verus!
