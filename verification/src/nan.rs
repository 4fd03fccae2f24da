//! NaN propagation: the one quieted NaN that stands for two operands of
//! which at least one is a NaN.

use vstd::prelude::*;
use crate::bits::{exp_of, f32_is_frac_nan, frac_of, is_nan, is_signaling, magnitude, sign_of};

verus! {

/// The pattern with its quiet bit set.
pub open spec fn quieted(a: u32) -> u32 {
    if frac_of(a) >= 0x40_0000 {
        a
    } else {
        (a + 0x40_0000) as u32
    }
}

/// The pattern chosen among two quieted operands.
///
/// If exactly one operand is a signaling NaN, its quieted pattern is
/// chosen. Otherwise the quieted pattern of the larger magnitude is
/// chosen, exponent and fraction taken together, so that a number never
/// wins over a NaN and of two NaNs the one with the larger fraction wins;
/// of two equal magnitudes the numerically smaller pattern is chosen.
pub open spec fn propagate_nan_spec(a: u32, b: u32) -> u32 {
    let qa = quieted(a);
    let qb = quieted(b);
    if is_signaling(a) && !is_signaling(b) {
        qa
    } else if is_signaling(b) && !is_signaling(a) {
        qb
    } else if magnitude(qa) < magnitude(qb) {
        qb
    } else if magnitude(qb) < magnitude(qa) {
        qa
    } else if qa < qb {
        qa
    } else {
        qb
    }
}

/// Quieting touches the quiet bit alone.
pub proof fn lemma_quieted_fields(a: u32)
    ensures
        quieted(a) == a || quieted(a) == a + 0x40_0000,
        sign_of(quieted(a)) == sign_of(a),
        exp_of(quieted(a)) == exp_of(a),
        frac_of(quieted(a)) >= 0x40_0000,
        frac_of(quieted(a)) == frac_of(a) || frac_of(quieted(a)) == frac_of(a) + 0x40_0000,
        magnitude(quieted(a)) == exp_of(a) * 0x80_0000 + frac_of(quieted(a)),
        exp_of(a) == 0xFF ==> is_nan(quieted(a)) && !is_signaling(quieted(a)),
{
}

/// With a NaN among the operands the propagated pattern is a quiet NaN,
/// and it is one of the two operands with its quiet bit set.
pub proof fn lemma_propagate_nan_is_nan(a: u32, b: u32)
    requires
        is_nan(a) || is_nan(b),
    ensures
        is_nan(propagate_nan_spec(a, b)),
        !is_signaling(propagate_nan_spec(a, b)),
        propagate_nan_spec(a, b) == quieted(a) || propagate_nan_spec(a, b) == quieted(b),
{
    lemma_quieted_fields(a);
    lemma_quieted_fields(b);
}

/// An operand propagated with itself is the operand with its quiet bit
/// set.
pub proof fn lemma_propagate_nan_self(a: u32)
    ensures
        propagate_nan_spec(a, a) == quieted(a),
{
}

/// Propagation does not depend on the order of the operands.
pub proof fn lemma_propagate_nan_symmetric(a: u32, b: u32)
    ensures
        propagate_nan_spec(a, b) == propagate_nan_spec(b, a),
{
    lemma_quieted_fields(a);
    lemma_quieted_fields(b);
}

/// Setting the quiet bit adds it where it was clear and changes nothing
/// where it was set; masking the sign bit off leaves the magnitude.
proof fn lemma_set_quiet_bit(a: u32)
    by (bit_vector)
    ensures
        a % 0x80_0000 >= 0x40_0000 ==> a | 0x40_0000 == a,
        a % 0x80_0000 < 0x40_0000 ==> a | 0x40_0000 == a + 0x40_0000,
        a & 0x7FFF_FFFF == a % 0x8000_0000,
{
}

/// Selects the quieted NaN that two operands propagate.
pub fn f32_propagate_nan(in_a: u32, in_b: u32) -> (r: u32)
    ensures
        r == propagate_nan_spec(in_a, in_b),
        is_nan(in_a) || is_nan(in_b) ==> is_nan(r) && !is_signaling(r) && (r == quieted(in_a) || r
            == quieted(in_b)),
{
    proof {
        lemma_set_quiet_bit(in_a);
        lemma_set_quiet_bit(in_b);
        if is_nan(in_a) || is_nan(in_b) {
            lemma_propagate_nan_is_nan(in_a, in_b);
        }
    }
    let a = in_a | 0x0040_0000;
    let b = in_b | 0x0040_0000;

    let is_a_signaling = f32_is_frac_nan(in_a);
    let is_b_signaling = f32_is_frac_nan(in_b);

    if is_a_signaling != is_b_signaling {
        return if is_a_signaling { a } else { b };
    }
    proof {
        lemma_set_quiet_bit(a);
        lemma_set_quiet_bit(b);
    }
    let a_mag = a & 0x7FFF_FFFF;
    let b_mag = b & 0x7FFF_FFFF;

    if a_mag < b_mag {
        b
    } else if b_mag < a_mag {
        a
    } else if a < b {
        a
    } else {
        b
    }
}

} // verus!
