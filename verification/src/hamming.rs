//! Bitwise Hamming distance between byte sequences.

use vstd::prelude::*;

verus! {

/// The number of bits set in `byte`.
pub open spec fn bit_count(byte: u8) -> nat {
    ((byte & 1) + ((byte >> 1) & 1) + ((byte >> 2) & 1) + ((byte >> 3) & 1) + ((byte >> 4) & 1)
        + ((byte >> 5) & 1) + ((byte >> 6) & 1) + ((byte >> 7) & 1)) as nat
}

/// The number of bits in which `a` and `b` differ: the bits set in their
/// bitwise XOR. The distance is meant for sequences of equal length.
pub open spec fn hamming(a: Seq<u8>, b: Seq<u8>) -> nat
    recommends
        a.len() == b.len(),
    decreases a.len(),
{
    if a.len() == 0 || b.len() == 0 {
        0
    } else {
        hamming(a.drop_last(), b.drop_last()) + bit_count(a.last() ^ b.last())
    }
}

/// A byte has at most eight set bits, and none exactly when it is zero.
pub proof fn lemma_bit_count_bounds(byte: u8)
    ensures
        bit_count(byte) <= 8,
        bit_count(byte) == 0 <==> byte == 0,
{
    assert(bit_count(byte) <= 8 && (bit_count(byte) == 0 <==> byte == 0)) by (bit_vector);
}

/// Clearing the lowest set bit of a non-zero byte removes exactly one bit.
proof fn lemma_clear_lowest_bit(byte: u8)
    requires
        byte != 0,
    ensures
        bit_count(byte & ((byte - 1) as u8)) + 1 == bit_count(byte),
        byte & ((byte - 1) as u8) < byte,
{
    let cleared: u8 = byte & ((byte - 1) as u8);
    assert(bit_count(cleared) + 1 == bit_count(byte) && cleared < byte) by (bit_vector)
        requires
            byte != 0,
            cleared == byte & ((byte - 1) as u8),
    ;
}

/// The distance between sequences of equal length is at most eight bits per byte.
pub proof fn lemma_hamming_bound(a: Seq<u8>, b: Seq<u8>)
    requires
        a.len() == b.len(),
    ensures
        hamming(a, b) <= 8 * a.len(),
    decreases a.len(),
{
    if a.len() > 0 {
        lemma_hamming_bound(a.drop_last(), b.drop_last());
        lemma_bit_count_bounds(a.last() ^ b.last());
    }
}

/// Every sequence is at distance zero from itself.
pub proof fn lemma_hamming_self(a: Seq<u8>)
    ensures
        hamming(a, a) == 0,
    decreases a.len(),
{
    if a.len() > 0 {
        lemma_hamming_self(a.drop_last());
        let x = a.last();
        assert(x ^ x == 0) by (bit_vector);
        lemma_bit_count_bounds(0);
    }
}

/// The distance does not depend on the order of its arguments.
pub proof fn lemma_hamming_symmetric(a: Seq<u8>, b: Seq<u8>)
    requires
        a.len() == b.len(),
    ensures
        hamming(a, b) == hamming(b, a),
    decreases a.len(),
{
    if a.len() > 0 && b.len() > 0 {
        lemma_hamming_symmetric(a.drop_last(), b.drop_last());
        let x = a.last();
        let y = b.last();
        assert(x ^ y == y ^ x) by (bit_vector);
    }
}

/// Two sequences of equal length are at distance zero only if they are equal.
pub proof fn lemma_hamming_zero_is_equal(a: Seq<u8>, b: Seq<u8>)
    requires
        a.len() == b.len(),
        hamming(a, b) == 0,
    ensures
        a == b,
    decreases a.len(),
{
    if a.len() > 0 {
        lemma_hamming_zero_is_equal(a.drop_last(), b.drop_last());
        let x = a.last();
        let y = b.last();
        lemma_bit_count_bounds(x ^ y);
        assert(x ^ y == 0 ==> x == y) by (bit_vector);
        assert(a =~= a.drop_last().push(x));
        assert(b =~= b.drop_last().push(y));
    } else {
        assert(a =~= b);
    }
}

/// Counts the set bits of `byte` by clearing the lowest set bit until none is left.
pub fn count_set_bits(byte: u8) -> (count: i32)
    ensures
        count == bit_count(byte),
        0 <= count <= 8,
{
    let mut rest: u8 = byte;
    let mut count: i32 = 0;
    while rest != 0
        invariant
            count + bit_count(rest) == bit_count(byte),
            0 <= count,
        decreases rest,
    {
        proof {
            lemma_clear_lowest_bit(rest);
        }
        rest = rest & (rest - 1);
        count += 1;
    }
    proof {
        lemma_bit_count_bounds(0);
        lemma_bit_count_bounds(byte);
    }
    count
}

/// The Hamming distance between two byte sequences of equal length, in a
/// count wide enough for any slice whose bits can be numbered in 64 bits.
pub fn bit_distance(bytes1: &[u8], bytes2: &[u8]) -> (count: u64)
    requires
        bytes1@.len() == bytes2@.len(),
        8 * bytes1@.len() <= u64::MAX,
    ensures
        count == hamming(bytes1@, bytes2@),
        count <= 8 * bytes1@.len(),
{
    let mut count: u64 = 0;
    let mut i: usize = 0;
    while i < bytes1.len()
        invariant
            i <= bytes1@.len(),
            bytes1@.len() == bytes2@.len(),
            8 * bytes1@.len() <= u64::MAX,
            count == hamming(bytes1@.take(i as int), bytes2@.take(i as int)),
            count <= 8 * i,
        decreases bytes1@.len() - i,
    {
        let diff_bytes: u8 = bytes1[i] ^ bytes2[i];
        proof {
            assert(bytes1@.take(i + 1).drop_last() =~= bytes1@.take(i as int));
            assert(bytes2@.take(i + 1).drop_last() =~= bytes2@.take(i as int));
        }
        count += count_set_bits(diff_bytes) as u64;
        i += 1;
    }
    proof {
        assert(bytes1@.take(i as int) =~= bytes1@);
        assert(bytes2@.take(i as int) =~= bytes2@);
    }
    count
}

/// The Hamming distance between two byte sequences of equal length: the
/// number of set bits in their bitwise XOR.
pub fn hamming_dist(bytes1: &[u8], bytes2: &[u8]) -> (count: i32)
    requires
        bytes1@.len() == bytes2@.len(),
        8 * bytes1@.len() <= i32::MAX,
    ensures
        count == hamming(bytes1@, bytes2@),
{
    bit_distance(bytes1, bytes2) as i32
}

} // verus!
