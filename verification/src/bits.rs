//! Bit counting and Hamming distance over byte strings.

use vstd::prelude::*;

verus! {

/// Number of set bits in one byte.
pub open spec fn pop8(x: u8) -> nat {
    ((x & 1) as nat) + (((x >> 1) & 1) as nat) + (((x >> 2) & 1) as nat) + (((x >> 3) & 1) as nat)
        + (((x >> 4) & 1) as nat) + (((x >> 5) & 1) as nat) + (((x >> 6) & 1) as nat)
        + (((x >> 7) & 1) as nat)
}

/// Hamming distance restricted to the first `n` byte positions.
pub open spec fn hamming_upto(a: Seq<u8>, b: Seq<u8>, n: int) -> nat
    decreases n,
{
    if n <= 0 {
        0
    } else {
        hamming_upto(a, b, n - 1) + pop8(a[n - 1] ^ b[n - 1])
    }
}

/// Hamming distance between two byte strings of equal length: the number
/// of bit positions at which they differ.
pub open spec fn hamming(a: Seq<u8>, b: Seq<u8>) -> nat {
    hamming_upto(a, b, a.len() as int)
}

pub proof fn lemma_pop8_le(x: u8)
    ensures
        pop8(x) <= 8,
{
    assert((x & 1) <= 1 && ((x >> 1) & 1) <= 1 && ((x >> 2) & 1) <= 1 && ((x >> 3) & 1) <= 1
        && ((x >> 4) & 1) <= 1 && ((x >> 5) & 1) <= 1 && ((x >> 6) & 1) <= 1 && ((x >> 7) & 1)
        <= 1) by (bit_vector);
}

pub proof fn lemma_hamming_upto_le(a: Seq<u8>, b: Seq<u8>, n: int)
    ensures
        hamming_upto(a, b, n) <= if n <= 0 {
            0
        } else {
            8 * n
        },
    decreases n,
{
    if n > 0 {
        lemma_hamming_upto_le(a, b, n - 1);
        lemma_pop8_le(a[n - 1] ^ b[n - 1]);
    }
}

/// The distance over a prefix is at least any one byte's contribution.
pub proof fn lemma_hamming_upto_term(a: Seq<u8>, b: Seq<u8>, n: int, i: int)
    requires
        0 <= i < n,
    ensures
        hamming_upto(a, b, n) >= pop8(a[i] ^ b[i]),
    decreases n,
{
    if i < n - 1 {
        lemma_hamming_upto_term(a, b, n - 1, i);
    }
}

/// A byte with no set bits is zero.
pub proof fn lemma_pop8_zero(x: u8)
    requires
        pop8(x) == 0,
    ensures
        x == 0,
{
    assert(x == 0) by (bit_vector)
        requires
            (x & 1) == 0,
            ((x >> 1) & 1) == 0,
            ((x >> 2) & 1) == 0,
            ((x >> 3) & 1) == 0,
            ((x >> 4) & 1) == 0,
            ((x >> 5) & 1) == 0,
            ((x >> 6) & 1) == 0,
            ((x >> 7) & 1) == 0,
    ;
}

/// The byte holding a single set bit has one set bit.
pub proof fn lemma_pop8_one()
    ensures
        pop8(1u8) == 1,
{
    assert((1u8 & 1) == 1 && ((1u8 >> 1) & 1) == 0 && ((1u8 >> 2) & 1) == 0 && ((1u8 >> 3) & 1)
        == 0 && ((1u8 >> 4) & 1) == 0 && ((1u8 >> 5) & 1) == 0 && ((1u8 >> 6) & 1) == 0 && ((1u8
        >> 7) & 1) == 0) by (bit_vector);
}

/// Every byte string is at distance zero from itself.
pub proof fn lemma_hamming_self(a: Seq<u8>)
    ensures
        hamming(a, a) == 0,
{
    lemma_hamming_upto_self(a, a.len() as int);
}

proof fn lemma_hamming_upto_self(a: Seq<u8>, n: int)
    ensures
        hamming_upto(a, a, n) == 0,
    decreases n,
{
    if n > 0 {
        lemma_hamming_upto_self(a, n - 1);
        let x = a[n - 1];
        assert(x ^ x == 0) by (bit_vector);
        assert((0u8 & 1) == 0 && ((0u8 >> 1) & 1) == 0 && ((0u8 >> 2) & 1) == 0 && ((0u8 >> 3) & 1)
            == 0 && ((0u8 >> 4) & 1) == 0 && ((0u8 >> 5) & 1) == 0 && ((0u8 >> 6) & 1) == 0 && ((
        0u8 >> 7) & 1) == 0) by (bit_vector);
    }
}

/// Every Hamming distance over words of `B` bytes lies in `[0, 8 * B]`.
pub proof fn lemma_hamming_bounds(a: Seq<u8>, b: Seq<u8>)
    ensures
        0 <= hamming(a, b) <= 8 * a.len(),
{
    lemma_hamming_upto_le(a, b, a.len() as int);
}

/// Hamming distance does not depend on the order of its arguments.
pub proof fn lemma_hamming_sym(a: Seq<u8>, b: Seq<u8>)
    requires
        a.len() == b.len(),
    ensures
        hamming(a, b) == hamming(b, a),
{
    lemma_hamming_upto_sym(a, b, a.len() as int);
}

proof fn lemma_hamming_upto_sym(a: Seq<u8>, b: Seq<u8>, n: int)
    ensures
        hamming_upto(a, b, n) == hamming_upto(b, a, n),
    decreases n,
{
    if n > 0 {
        lemma_hamming_upto_sym(a, b, n - 1);
        let x = a[n - 1];
        let y = b[n - 1];
        assert(x ^ y == y ^ x) by (bit_vector);
    }
}

/// Number of set bits in one byte, computed bit by bit.
pub fn popcount_byte(x: u8) -> (r: u8)
    ensures
        r as nat == pop8(x),
{
    proof {
        lemma_pop8_le(x);
        assert((x & 1) <= 1 && ((x >> 1) & 1) <= 1 && ((x >> 2) & 1) <= 1 && ((x >> 3) & 1) <= 1
            && ((x >> 4) & 1) <= 1 && ((x >> 5) & 1) <= 1 && ((x >> 6) & 1) <= 1 && ((x >> 7) & 1)
            <= 1) by (bit_vector);
    }
    (x & 1) + ((x >> 1) & 1) + ((x >> 2) & 1) + ((x >> 3) & 1) + ((x >> 4) & 1) + ((x >> 5) & 1)
        + ((x >> 6) & 1) + ((x >> 7) & 1)
}

} // verus!
