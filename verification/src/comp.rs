//! Relational operators. Every one of them is false when an operand is a
//! NaN, not-equal included.

use vstd::prelude::*;
use crate::bits::{f32_is_nan, f32_sign, is_nan, magnitude, sign_of};
use crate::nearest::{units_of, lemma_units_increase, lemma_units_step};

verus! {

/// A number that orders the non-NaN patterns as their values are
/// ordered: the magnitude, negated where the sign bit is set. Both zeros
/// have the key 0.
pub open spec fn order_key(a: u32) -> int {
    if sign_of(a) == 0 {
        magnitude(a)
    } else {
        -magnitude(a)
    }
}

/// Neither operand is a NaN.
pub open spec fn comparable(a: u32, b: u32) -> bool {
    !is_nan(a) && !is_nan(b)
}

/// `a == b`: equal values; the two zeros are equal.
pub open spec fn f32_eq_spec(a: u32, b: u32) -> bool {
    comparable(a, b) && order_key(a) == order_key(b)
}

/// `a != b`; false, like every other relation, when an operand is a NaN.
pub open spec fn f32_ne_spec(a: u32, b: u32) -> bool {
    comparable(a, b) && order_key(a) != order_key(b)
}

/// `a < b`.
pub open spec fn f32_lt_spec(a: u32, b: u32) -> bool {
    comparable(a, b) && order_key(a) < order_key(b)
}

/// `a <= b`.
pub open spec fn f32_le_spec(a: u32, b: u32) -> bool {
    comparable(a, b) && order_key(a) <= order_key(b)
}

/// `a > b`.
pub open spec fn f32_gt_spec(a: u32, b: u32) -> bool {
    comparable(a, b) && order_key(a) > order_key(b)
}

/// `a >= b`.
pub open spec fn f32_ge_spec(a: u32, b: u32) -> bool {
    comparable(a, b) && order_key(a) >= order_key(b)
}

/// Two patterns are both zeros where their bitwise or, shifted left by one, is zero.
proof fn lemma_both_zero(a: u32, b: u32)
    by (bit_vector)
    ensures
        ((a | b) << 1 == 0) <==> (a % 0x8000_0000 == 0 && b % 0x8000_0000 == 0),
{
}

/// True when the operands are equal: the same pattern, or two zeros of
/// either sign.
pub fn f32_eq(a: u32, b: u32) -> (r: bool)
    ensures
        r == f32_eq_spec(a, b),
{
    if f32_is_nan(a) || f32_is_nan(b) {
        return false;
    }
    proof {
        lemma_both_zero(a, b);
    }
    a == b || ((a | b) << 1) == 0
}

/// True when the operands are comparable and not equal.
pub fn f32_ne(a: u32, b: u32) -> (r: bool)
    ensures
        r == f32_ne_spec(a, b),
{
    if f32_is_nan(a) || f32_is_nan(b) {
        return false;
    }
    !f32_eq(a, b)
}

/// True when the first operand is less than the second.
pub fn f32_lt(a: u32, b: u32) -> (r: bool)
    ensures
        r == f32_lt_spec(a, b),
{
    if f32_is_nan(a) || f32_is_nan(b) {
        return false;
    }
    let a_sign = f32_sign(a);
    let b_sign = f32_sign(b);
    proof {
        lemma_both_zero(a, b);
    }
    if a_sign != b_sign {
        if ((a | b) << 1) != 0 {
            return a_sign == 1;
        }
    } else if a != b {
        if a_sign != 0 {
            return a > b;
        } else {
            return a < b;
        }
    }
    false
}

/// True when the first operand is less than or equal to the second.
pub fn f32_le(a: u32, b: u32) -> (r: bool)
    ensures
        r == f32_le_spec(a, b),
{
    if f32_is_nan(a) || f32_is_nan(b) {
        return false;
    }
    let a_sign = f32_sign(a);
    let b_sign = f32_sign(b);
    proof {
        lemma_both_zero(a, b);
    }
    if a_sign != b_sign {
        if ((a | b) << 1) == 0 || a_sign == 1 {
            return true;
        }
    } else {
        if a == b {
            return true;
        }
        if a_sign != 0 {
            return a > b;
        } else {
            return a < b;
        }
    }
    false
}

/// True when the first operand is greater than the second: the operands
/// are comparable and the first is not less than or equal to the second.
pub fn f32_gt(a: u32, b: u32) -> (r: bool)
    ensures
        r == f32_gt_spec(a, b),
{
    if f32_is_nan(a) || f32_is_nan(b) {
        return false;
    }
    !f32_le(a, b)
}

/// True when the first operand is greater than or equal to the second:
/// the operands are comparable and the first is not less than the second.
pub fn f32_ge(a: u32, b: u32) -> (r: bool)
    ensures
        r == f32_ge_spec(a, b),
{
    if f32_is_nan(a) || f32_is_nan(b) {
        return false;
    }
    !f32_lt(a, b)
}

/// The value of a pattern that is no NaN, in units of `2^-149`, with its
/// sign; infinity counts as `2^128`.
pub open spec fn signed_units(a: u32) -> int {
    if sign_of(a) == 0 {
        units_of(magnitude(a))
    } else {
        -units_of(magnitude(a))
    }
}

/// The relations compare values: the order of the keys of two patterns
/// is the order of the numbers they stand for.
pub proof fn lemma_order_is_value_order(a: u32, b: u32)
    ensures
        order_key(a) < order_key(b) <==> signed_units(a) < signed_units(b),
        order_key(a) == order_key(b) <==> signed_units(a) == signed_units(b),
        comparable(a, b) ==> (f32_lt_spec(a, b) <==> signed_units(a) < signed_units(b)),
        comparable(a, b) ==> (f32_eq_spec(a, b) <==> signed_units(a) == signed_units(b)),
        comparable(a, b) ==> (f32_gt_spec(a, b) <==> signed_units(a) > signed_units(b)),
{
    let ma = magnitude(a);
    let mb = magnitude(b);
    lemma_units_step(ma);
    lemma_units_step(mb);
    assert(units_of(0) == 0);
    if ma > 0 {
        lemma_units_increase(0, ma);
    }
    if mb > 0 {
        lemma_units_increase(0, mb);
    }
    if ma < mb {
        lemma_units_increase(ma, mb);
    } else if mb < ma {
        lemma_units_increase(mb, ma);
    }
}

} // verus!
