use crate::constants::{QUANTIZED_VECTOR_SIZE, VECTOR_SIZE};
use crate::structures::ann_tree::k_modes::{byte_bit, spec_bit};
use vstd::prelude::*;

verus! {

/// Whether the number with the IEEE 754 single-precision bit pattern `bits`
/// is at least zero: it is a zero of either sign, or it is positive and no
/// NaN.
pub open spec fn spec_not_below_zero(bits: u32) -> bool {
    bits & 0x7fff_ffff == 0 || (bits & 0x8000_0000 == 0 && bits & 0x7fff_ffff <= 0x7f80_0000)
}

/// Whether the number with the bit pattern `bits` is at least zero.
pub fn not_below_zero(bits: u32) -> (r: bool)
    ensures
        r == spec_not_below_zero(bits),
{
    bits & 0x7fff_ffff == 0 || (bits & 0x8000_0000 == 0 && bits & 0x7fff_ffff <= 0x7f80_0000)
}

/// `q` is the quantized form of the vector with the components `raw`, given
/// by their bit patterns: bit `i` of `q` is set exactly when component `i`
/// is at least zero.
pub open spec fn is_quantized(raw: Seq<u32>, q: Seq<u8>) -> bool {
    &&& raw.len() == VECTOR_SIZE
    &&& q.len() == QUANTIZED_VECTOR_SIZE
    &&& forall|p: int| 0 <= p < VECTOR_SIZE ==> (#[trigger] spec_bit(q, p) <==> spec_not_below_zero(raw[p]))
}

/// The quantized form of the vector with the components `raw`.
pub open spec fn spec_quantize(raw: Seq<u32>) -> Seq<u8> {
    choose|q: Seq<u8>| is_quantized(raw, q)
}

/// Setting bit `j` of a byte sets that bit and changes no other bit; zero
/// has no bit set.
proof fn lemma_set_bit(x: u8, j: u8, i: u8)
    requires
        j < 8,
        i < 8,
    ensures
        byte_bit(x | (1u8 << j), i) == (i == j || byte_bit(x, i)),
        byte_bit(0u8, i) == false,
{
    assert(((x | (1u8 << j)) >> i) & 1 == 1 <==> (i == j || (x >> i) & 1 == 1)) by (bit_vector)
        requires
            j < 8,
            i < 8,
    ;
    assert((0u8 >> i) & 1 == 0) by (bit_vector);
}

/// Quantizes a vector whose components are given by their IEEE 754
/// single-precision bit patterns: one bit for each component, set when the
/// component is at least zero; bit `i` is bit `i % 8` of byte `i / 8`.
pub fn quantize(raw: &[u32; VECTOR_SIZE]) -> (q: [u8; QUANTIZED_VECTOR_SIZE])
    ensures
        is_quantized(raw@, q@),
        q@ == spec_quantize(raw@),
{
    let mut q: [u8; QUANTIZED_VECTOR_SIZE] = [0u8; QUANTIZED_VECTOR_SIZE];
    let mut b: usize = 0;
    while b < QUANTIZED_VECTOR_SIZE
        invariant
            b <= QUANTIZED_VECTOR_SIZE,
            forall|p: int|
                0 <= p < 8 * b ==> (#[trigger] spec_bit(q@, p) <==> spec_not_below_zero(raw@[p])),
        decreases QUANTIZED_VECTOR_SIZE - b,
    {
        let mut byte: u8 = 0;
        let mut j: u8 = 0;
        proof {
            assert forall|i: u8| 0 <= i < 8 implies !#[trigger] byte_bit(byte, i) by {
                lemma_set_bit(0u8, 0u8, i);
            }
        }
        while j < 8
            invariant
                j <= 8,
                b < QUANTIZED_VECTOR_SIZE,
                forall|i: u8|
                    0 <= i < j ==> (#[trigger] byte_bit(byte, i) <==> spec_not_below_zero(
                        raw@[8 * b + i],
                    )),
                forall|i: u8| j <= i < 8 ==> !#[trigger] byte_bit(byte, i),
            decreases 8 - j,
        {
            let ghost before = byte;
            let set = not_below_zero(raw[8 * b + j as usize]);
            if set {
                byte = byte | (1u8 << j);
            }
            proof {
                assert forall|i: u8| 0 <= i < 8 implies #[trigger] byte_bit(byte, i) == ((i == j
                    && set) || byte_bit(before, i)) by {
                    lemma_set_bit(before, j, i);
                }
            }
            j = j + 1;
        }
        let ghost old_q = q@;
        q[b] = byte;
        proof {
            assert forall|p: int| 0 <= p < 8 * (b + 1) implies (#[trigger] spec_bit(q@, p)
                <==> spec_not_below_zero(raw@[p])) by {
                if p < 8 * b {
                    assert(q@[p / 8] == old_q[p / 8]);
                    assert(spec_bit(old_q, p) <==> spec_not_below_zero(raw@[p]));
                } else {
                    let i = (p % 8) as u8;
                    assert(p / 8 == b);
                    assert(8 * b + i == p);
                    assert(byte_bit(byte, i) <==> spec_not_below_zero(raw@[8 * b + i]));
                }
            }
        }
        b = b + 1;
    }
    proof {
        lemma_quantize_deterministic(raw@, q@, spec_quantize(raw@));
    }
    q
}

/// Two quantized forms of the same vector are the same.
pub proof fn lemma_quantize_deterministic(raw: Seq<u32>, a: Seq<u8>, b: Seq<u8>)
    requires
        is_quantized(raw, a),
        is_quantized(raw, b),
    ensures
        a == b,
{
    assert forall|i: int| 0 <= i < QUANTIZED_VECTOR_SIZE implies a[i] == b[i] by {
        let x = a[i];
        let y = b[i];
        assert forall|j: u8| 0 <= j < 8 implies byte_bit(x, j) == byte_bit(y, j) by {
            let p = 8 * i + j;
            assert(p / 8 == i && p % 8 == j as int);
            assert(spec_bit(a, p) == spec_bit(b, p));
        }
        assert(byte_bit(x, 0) == byte_bit(y, 0) && byte_bit(x, 1) == byte_bit(y, 1) && byte_bit(
            x,
            2,
        ) == byte_bit(y, 2) && byte_bit(x, 3) == byte_bit(y, 3) && byte_bit(x, 4) == byte_bit(
            y,
            4,
        ) && byte_bit(x, 5) == byte_bit(y, 5) && byte_bit(x, 6) == byte_bit(y, 6) && byte_bit(
            x,
            7,
        ) == byte_bit(y, 7));
        assert(x == y) by (bit_vector)
            requires
                ((x >> 0u8) & 1 == 1) == ((y >> 0u8) & 1 == 1),
                ((x >> 1u8) & 1 == 1) == ((y >> 1u8) & 1 == 1),
                ((x >> 2u8) & 1 == 1) == ((y >> 2u8) & 1 == 1),
                ((x >> 3u8) & 1 == 1) == ((y >> 3u8) & 1 == 1),
                ((x >> 4u8) & 1 == 1) == ((y >> 4u8) & 1 == 1),
                ((x >> 5u8) & 1 == 1) == ((y >> 5u8) & 1 == 1),
                ((x >> 6u8) & 1 == 1) == ((y >> 6u8) & 1 == 1),
                ((x >> 7u8) & 1 == 1) == ((y >> 7u8) & 1 == 1),
        ;
    }
    assert(a =~= b);
}

} // verus!
