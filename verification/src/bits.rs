use vstd::prelude::*;

verus! {

/// The sign bit of an IEEE 754 binary64 number.
pub const SIGN_BIT: u64 = 0x8000_0000_0000_0000;

/// The exponent field of an IEEE 754 binary64 number.
pub const EXPONENT_BITS: u64 = 0x7ff0_0000_0000_0000;

/// The binary64 number with bit pattern `bits` has a positive sign: its sign bit is clear
/// (`+0.0`, positive infinity and NaNs with a clear sign bit included).
pub open spec fn spec_is_sign_positive(bits: u64) -> bool {
    bits < SIGN_BIT
}

/// The binary64 number with bit pattern `bits` is neither infinite nor NaN: its exponent field
/// is not all ones.
pub open spec fn spec_is_finite(bits: u64) -> bool {
    bits & EXPONENT_BITS != EXPONENT_BITS
}

/// The number has a positive sign and is finite.
pub open spec fn spec_is_positive_finite(bits: u64) -> bool {
    spec_is_sign_positive(bits) && spec_is_finite(bits)
}

/// Each of the three components is finite.
pub open spec fn spec_all_finite(v: [u64; 3]) -> bool {
    spec_is_finite(v[0]) && spec_is_finite(v[1]) && spec_is_finite(v[2])
}

/// The sign test holds exactly when bit 63, the sign bit, is clear.
pub proof fn lemma_sign_positive_is_sign_bit_clear(bits: u64)
    ensures
        spec_is_sign_positive(bits) <==> (bits >> 63u64) == 0u64,
{
    assert(bits < 0x8000_0000_0000_0000u64 <==> (bits >> 63u64) == 0u64) by (bit_vector);
}

/// The finiteness test holds exactly when the exponent field, bits 52 to 62, is not all ones.
pub proof fn lemma_finite_is_exponent_not_all_ones(bits: u64)
    ensures
        spec_is_finite(bits) <==> ((bits >> 52u64) & 0x7ffu64) != 0x7ffu64,
{
    assert((bits & 0x7ff0_0000_0000_0000u64 != 0x7ff0_0000_0000_0000u64) <==> ((bits >> 52u64)
        & 0x7ffu64) != 0x7ffu64) by (bit_vector);
}

/// A number is positive and finite exactly when its sign bit is clear and its exponent field is
/// not all ones.
pub proof fn lemma_positive_finite_bits(bits: u64)
    ensures
        spec_is_positive_finite(bits) <==> (bits >> 63u64) == 0u64 && ((bits >> 52u64) & 0x7ffu64)
            != 0x7ffu64,
{
    lemma_sign_positive_is_sign_bit_clear(bits);
    lemma_finite_is_exponent_not_all_ones(bits);
}

/// A vector is finite exactly when each of its three components is.
pub proof fn lemma_all_finite_is_each_component(v: [u64; 3])
    ensures
        spec_all_finite(v) <==> forall|i: int| 0 <= i < 3 ==> #[trigger] spec_is_finite(v[i]),
        !spec_all_finite(v) <==> exists|i: int| 0 <= i < 3 && !#[trigger] spec_is_finite(v[i]),
{
    if !spec_all_finite(v) {
        if !spec_is_finite(v[0]) {
            assert(!spec_is_finite(v[0]));
        } else if !spec_is_finite(v[1]) {
            assert(!spec_is_finite(v[1]));
        } else {
            assert(!spec_is_finite(v[2]));
        }
    }
    assert forall|i: int| 0 <= i < 3 && spec_all_finite(v) implies #[trigger] spec_is_finite(v[i]) by {
        if i == 0 {
        } else if i == 1 {
        } else {
        }
    }
}

/// Whether the binary64 number with bit pattern `bits` has a positive sign.
pub fn is_sign_positive(bits: u64) -> (positive: bool)
    ensures
        positive == spec_is_sign_positive(bits),
        positive <==> (bits >> 63u64) == 0u64,
{
    proof {
        lemma_sign_positive_is_sign_bit_clear(bits);
    }
    bits < SIGN_BIT
}

/// Whether the binary64 number with bit pattern `bits` is finite.
pub fn is_finite(bits: u64) -> (finite: bool)
    ensures
        finite == spec_is_finite(bits),
        finite <==> ((bits >> 52u64) & 0x7ffu64) != 0x7ffu64,
{
    proof {
        lemma_finite_is_exponent_not_all_ones(bits);
    }
    bits & EXPONENT_BITS != EXPONENT_BITS
}

/// Whether each component of a vector, given as bit patterns, is finite.
pub fn all_finite(v: &[u64; 3]) -> (finite: bool)
    ensures
        finite == spec_all_finite(*v),
        finite <==> forall|i: int| 0 <= i < 3 ==> #[trigger] spec_is_finite(v[i]),
{
    proof {
        lemma_all_finite_is_each_component(*v);
    }
    is_finite(v[0]) && is_finite(v[1]) && is_finite(v[2])
}

} // verus!
