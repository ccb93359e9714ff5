use crate::constants::QUANTIZED_VECTOR_SIZE;
use vstd::prelude::*;

verus! {

/// Number of set bits of a byte.
pub open spec fn bit_count(x: u8) -> nat
    decreases x,
{
    if x == 0 {
        0
    } else {
        ((x % 2) as nat) + bit_count(x / 2)
    }
}

/// `u8::count_ones` returns the number of ones in the binary representation
/// of its argument.
pub assume_specification[ u8::count_ones ](x: u8) -> (r: u32)
    ensures
        r == bit_count(x),
;

/// A byte has eight bits at most.
pub proof fn lemma_bit_count_bound(x: u8)
    ensures
        bit_count(x) <= 8,
{
    reveal_with_fuel(bit_count, 10);
}

/// Number of differing bits within the first `n` byte positions.
pub open spec fn hamming_prefix(a: Seq<u8>, b: Seq<u8>, n: nat) -> nat
    decreases n,
{
    if n == 0 {
        0
    } else {
        hamming_prefix(a, b, (n - 1) as nat) + bit_count(a[n - 1] ^ b[n - 1])
    }
}

/// Hamming distance of two bit vectors of the same width: the number of
/// bit positions in which they differ.
pub open spec fn spec_hamming(a: Seq<u8>, b: Seq<u8>) -> nat {
    hamming_prefix(a, b, a.len())
}

/// The first `n` bytes of two vectors differ in eight bits each at most.
pub proof fn lemma_hamming_prefix_bound(a: Seq<u8>, b: Seq<u8>, n: nat)
    ensures
        hamming_prefix(a, b, n) <= 8 * n,
    decreases n,
{
    if n > 0 {
        lemma_hamming_prefix_bound(a, b, (n - 1) as nat);
        lemma_bit_count_bound(a[n - 1] ^ b[n - 1]);
    }
}

/// In how many bits the first `n` bytes differ does not depend on the
/// order of the two vectors.
proof fn lemma_hamming_prefix_symmetric(a: Seq<u8>, b: Seq<u8>, n: nat)
    ensures
        hamming_prefix(a, b, n) == hamming_prefix(b, a, n),
    decreases n,
{
    if n > 0 {
        lemma_hamming_prefix_symmetric(a, b, (n - 1) as nat);
        let x = a[n - 1];
        let y = b[n - 1];
        assert(x ^ y == y ^ x) by (bit_vector);
    }
}

/// A vector differs from itself in no bit.
proof fn lemma_hamming_prefix_self(a: Seq<u8>, n: nat)
    ensures
        hamming_prefix(a, a, n) == 0,
    decreases n,
{
    if n > 0 {
        lemma_hamming_prefix_self(a, (n - 1) as nat);
        let x = a[n - 1];
        assert(x ^ x == 0) by (bit_vector);
    }
}

/// The distance does not depend on the order of its arguments.
pub proof fn lemma_hamming_symmetric(a: Seq<u8>, b: Seq<u8>)
    requires
        a.len() == b.len(),
    ensures
        spec_hamming(a, b) == spec_hamming(b, a),
{
    lemma_hamming_prefix_symmetric(a, b, a.len());
}

/// A vector is at distance zero from itself.
pub proof fn lemma_hamming_self(a: Seq<u8>)
    ensures
        spec_hamming(a, a) == 0,
{
    lemma_hamming_prefix_self(a, a.len());
}

/// The distance is at most the number of bits.
pub proof fn lemma_hamming_bound(a: Seq<u8>, b: Seq<u8>)
    ensures
        spec_hamming(a, b) <= 8 * a.len(),
{
    lemma_hamming_prefix_bound(a, b, a.len());
}

/// Hamming distance of two quantized vectors: byte-wise XOR, then popcount.
pub fn hamming_distance(a: &[u8; QUANTIZED_VECTOR_SIZE], b: &[u8; QUANTIZED_VECTOR_SIZE]) -> (d:
    u16)
    ensures
        d == spec_hamming(a@, b@),
        d <= 8 * QUANTIZED_VECTOR_SIZE,
{
    let mut d: u16 = 0;
    let mut i: usize = 0;
    while i < QUANTIZED_VECTOR_SIZE
        invariant
            i <= QUANTIZED_VECTOR_SIZE,
            a@.len() == QUANTIZED_VECTOR_SIZE,
            b@.len() == QUANTIZED_VECTOR_SIZE,
            d == hamming_prefix(a@, b@, i as nat),
            d <= 8 * i,
        decreases QUANTIZED_VECTOR_SIZE - i,
    {
        let x: u8 = a[i] ^ b[i];
        proof {
            lemma_bit_count_bound(x);
        }
        d = d + x.count_ones() as u16;
        i = i + 1;
    }
    d
}

} // verus!
