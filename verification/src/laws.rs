//! Laws of the arithmetic, proved of the functions' contracts.

use vstd::prelude::*;
use vstd::arithmetic::power2::{pow2, lemma2_to64, lemma_pow2_pos};
use crate::add::{add_aligned_spec, f32_add_spec, f32_sub_spec, sub_aligned_spec, sub_mags_spec};
use crate::bits::{bits_of, exp_of, frac_of, is_inf, is_nan, is_zero, sign_of, lemma_fields_compose};
use crate::comp::{f32_eq_spec, f32_ge_spec, f32_gt_spec, f32_le_spec, f32_lt_spec, f32_ne_spec};
use crate::convert::{
    abs_of, div_round_half_even, f32_round_spec, from_int32_spec, integer_part, is_integral,
    nearest_integer, scale_exp, significand, to_int32_spec, lemma_from_int32_sig,
};
use crate::div::f32_div_spec;
use crate::mul::{f32_mul_spec, mul_finite_spec};
use crate::nan::{
    propagate_nan_spec, quieted, lemma_propagate_nan_is_nan, lemma_propagate_nan_symmetric,
    lemma_quieted_fields,
};
use crate::normal::{norm_exp, norm_sig, lemma_norm_bounds};
use crate::round::{norm_round_pack_spec, round_pack_spec};
use crate::shift::{
    bit_length, leading_zeros, subnormal_shift, lemma_bit_length_unique, lemma_jam_exact,
    lemma_jam_zero, lemma_subnormal_shift,
};
use crate::sqrt::f32_sqrt_spec;

verus! {

/// Addition is commutative: `a + b` and `b + a` are the same pattern, for
/// all operands, NaNs included.
pub proof fn lemma_add_commutative(a: u32, b: u32)
    ensures
        f32_add_spec(a, b) == f32_add_spec(b, a),
{
    lemma_propagate_nan_symmetric(a, b);
    lemma_fields_compose(a);
    lemma_fields_compose(b);
}

/// Multiplication is commutative: `a * b` and `b * a` are the same
/// pattern, for all operands, NaNs included.
pub proof fn lemma_mul_commutative(a: u32, b: u32)
    ensures
        f32_mul_spec(a, b) == f32_mul_spec(b, a),
{
    lemma_propagate_nan_symmetric(a, b);
    let sa = norm_sig(a);
    let sb = norm_sig(b);
    assert((sa * 0x80) * (sb * 0x100) == (sb * 0x80) * (sa * 0x100)) by (nonlinear_arith);
}

/// A number less itself is positive zero, for every finite number.
pub proof fn lemma_sub_self_is_zero(a: u32)
    requires
        exp_of(a) != 0xFF,
    ensures
        f32_sub_spec(a, a) == 0,
{
}

/// The pattern with the opposite sign.
pub open spec fn negated(a: u32) -> u32 {
    if sign_of(a) == 0 {
        (a + 0x8000_0000) as u32
    } else {
        (a - 0x8000_0000) as u32
    }
}

/// Subtraction is addition of the negated operand, for operands that are
/// no NaNs.
pub proof fn lemma_sub_is_add_of_negated(a: u32, b: u32)
    requires
        !is_nan(a),
        !is_nan(b),
    ensures
        f32_sub_spec(a, b) == f32_add_spec(a, negated(b)),
{
    lemma_fields_compose(a);
    lemma_fields_compose(b);
    let c = negated(b);
    assert(exp_of(c) == exp_of(b) && frac_of(c) == frac_of(b) && sign_of(c) == 1 - sign_of(b));
}

/// For operands that are no NaNs, exactly one of less, equal and greater
/// holds.
pub proof fn lemma_comparators_total(a: u32, b: u32)
    requires
        !is_nan(a),
        !is_nan(b),
    ensures
        f32_lt_spec(a, b) || f32_eq_spec(a, b) || f32_gt_spec(a, b),
        !(f32_lt_spec(a, b) && f32_eq_spec(a, b)),
        !(f32_lt_spec(a, b) && f32_gt_spec(a, b)),
        !(f32_eq_spec(a, b) && f32_gt_spec(a, b)),
{
}

/// Every relation is false when an operand is a NaN, not-equal too.
pub proof fn lemma_comparators_false_on_nan(a: u32, b: u32)
    requires
        is_nan(a) || is_nan(b),
    ensures
        !f32_eq_spec(a, b),
        !f32_ne_spec(a, b),
        !f32_lt_spec(a, b),
        !f32_le_spec(a, b),
        !f32_gt_spec(a, b),
        !f32_ge_spec(a, b),
{
}

/// A normalized significand with seven zero bits below it, at a biased
/// exponent of at least 1, packs to the pattern with that exponent.
proof fn lemma_round_pack_exact_normal(sign: int, exp: int, sig: int)
    requires
        0 <= sign <= 1,
        1 <= exp <= 0xFE,
        0x80_0000 <= sig < 0x100_0000,
    ensures
        round_pack_spec(sign, exp - 1, sig * 0x80) == bits_of(sign, exp, sig - 0x80_0000),
{
}

/// A subnormal fraction, normalized by `shift` bits, packs back to
/// itself.
proof fn lemma_round_pack_exact_subnormal(sign: int, frac: int, shift: nat)
    requires
        0 <= sign <= 1,
        0 <= frac < 0x80_0000,
        shift >= 1,
    ensures
        round_pack_spec(sign, -(shift as int), frac * pow2(shift) * 0x80) == bits_of(sign, 0, frac),
{
    let p = pow2(shift) as int;
    assert(frac * p * 0x80 == (frac * 0x80) * p) by (nonlinear_arith);
    lemma_jam_exact(frac * 0x80, shift);
}

/// Positive zero is the identity of addition: `a + 0` is `a`, for every
/// `a` that is no NaN, but for negative zero, whose sum with positive
/// zero is positive zero.
pub proof fn lemma_add_zero_identity(a: u32)
    requires
        !is_nan(a),
        a != 0x8000_0000,
    ensures
        f32_add_spec(a, 0) == a,
{
    lemma_fields_compose(a);
    let s = sign_of(a);
    let e = exp_of(a);
    let f = frac_of(a);
    lemma_jam_zero(e as nat);
    assert(exp_of(0) == 0 && frac_of(0) == 0 && sign_of(0) == 0);
    if e == 0 {
        if s == 1 {
            // a negative subnormal number: normalized, then packed back
            assert(f > 0);
            let wide = (f * 0x80) as u32;
            let shift = (leading_zeros(wide) - 1) as nat;
            crate::round::lemma_norm_shift(wide);
            lemma2_to64();
            if shift == 0 {
                assert(wide * pow2(0) == wide);
            }
            assert(shift >= 1);
            assert(f * 0x80 * pow2(shift) == f * pow2(shift) * 0x80) by (nonlinear_arith);
            lemma_round_pack_exact_subnormal(s, f, shift);
            assert(sub_mags_spec(a, 0) == norm_round_pack_spec(s, 0, wide));
        }
    } else if e != 0xFF {
        lemma_round_pack_exact_normal(s, e, 0x80_0000 + f);
        if s == 1 {
            let wide = (0x4000_0000 + f * 0x80) as u32;
            lemma2_to64();
            lemma_bit_length_unique(wide as nat, 31);
            assert(leading_zeros(wide) == 1);
            assert(wide * pow2(0) == wide);
            assert(sub_aligned_spec(s, a, 0, e, f, 0, 0) == norm_round_pack_spec(s, e - 1, wide));
        } else {
            assert(add_aligned_spec(s, a, 0, e, f, 0, 0) == round_pack_spec(
                s,
                e - 1,
                (0x2000_0000 + f * 0x40) * 2,
            ));
        }
    }
}

/// The sum of negative zero and positive zero is positive zero: equal to
/// the first operand as a number, not as a pattern.
pub proof fn lemma_add_zero_to_negative_zero()
    ensures
        f32_add_spec(0x8000_0000, 0) == 0,
        f32_eq_spec(0, 0x8000_0000),
{
}

/// As a number, `a + 0` equals `a` for every `a` that is no NaN,
/// negative zero included.
pub proof fn lemma_add_zero_equals(a: u32)
    requires
        !is_nan(a),
    ensures
        0 <= f32_add_spec(a, 0) <= u32::MAX,
        f32_eq_spec(f32_add_spec(a, 0) as u32, a),
{
    if a != 0x8000_0000 {
        lemma_add_zero_identity(a);
    }
}

/// One is the identity of multiplication: `a * 1` is `a`, for every `a`
/// that is no NaN.
pub proof fn lemma_mul_one_identity(a: u32)
    requires
        !is_nan(a),
    ensures
        f32_mul_spec(a, 0x3F80_0000) == a,
{
    lemma_fields_compose(a);
    let one = 0x3F80_0000u32;
    let s = sign_of(a);
    let e = exp_of(a);
    let f = frac_of(a);
    assert(exp_of(one) == 0x7F && frac_of(one) == 0 && sign_of(one) == 0);
    if !is_zero(a) && !is_inf(a) {
        let sa = norm_sig(a);
        lemma_norm_bounds(a);
        lemma2_to64();
        assert((sa * 0x80) * (0x80_0000 * 0x100) == (sa * 0x40) * pow2(32)) by (nonlinear_arith)
            requires
                pow2(32) == 0x1_0000_0000,
        ;
        lemma_jam_exact(sa * 0x40, 32);
        assert(mul_finite_spec(s, a, one) == round_pack_spec(s, norm_exp(a) - 1, sa * 0x80));
        if e != 0 {
            lemma_round_pack_exact_normal(s, e, sa);
        } else {
            lemma_subnormal_shift(f as u32);
            let shift = subnormal_shift(f as u32) as nat;
            lemma_round_pack_exact_subnormal(s, f, shift);
        }
    }
}

/// An integer of at most 24 bits survives the way to a number and back.
pub proof fn lemma_int32_round_trip(n: i32)
    requires
        -0x100_0000 <= n <= 0x100_0000,
    ensures
        0 <= from_int32_spec(n) <= u32::MAX,
        to_int32_spec(from_int32_spec(n) as u32) == n,
{
    lemma2_to64();
    if n == 0 {
        lemma_pow2_pos(149);
        let d = pow2(149) as int;
        vstd::arithmetic::div_mod::lemma_fundamental_div_mod_converse(0, d, 0, 0);
        assert(exp_of(0) == 0 && frac_of(0) == 0 && sign_of(0) == 0);
        assert(nearest_integer(0) == 0);
    } else {
        let mag = abs_of(n as int);
        let len = bit_length(mag);
        lemma_from_int32_sig(mag);
        crate::shift::lemma_bit_length_bounds(mag);
        if len > 25 {
            vstd::arithmetic::power2::lemma_pow2_strictly_increases(25, (len - 1) as nat);
        }
        assert(len <= 25);
        let sig: int = if len <= 24 {
            (mag * pow2((24 - len) as nat)) as int
        } else {
            (mag / pow2((len - 24) as nat)) as int
        };
        let s: int = if n < 0 {
            1
        } else {
            0
        };
        let p = from_int32_spec(n) as u32;
        assert(from_int32_spec(n) == bits_of(s, len - 1 + 0x7F, sig - 0x80_0000));
        assert(exp_of(p) == len + 126 && frac_of(p) == sig - 0x80_0000 && sign_of(p) == s);
        if len == 25 {
            assert(mag == 0x100_0000);
            assert(sig == 0x80_0000);
            assert(nearest_integer(p) == 0x80_0000 * pow2(1));
        } else if len == 24 {
            assert(nearest_integer(p) == sig * pow2(0));
            assert(sig == mag * pow2(0));
        } else {
            let d = pow2((24 - len) as nat) as int;
            lemma_pow2_pos((24 - len) as nat);
            assert((mag * d) / d == mag && (mag * d) % d == 0) by (nonlinear_arith)
                requires
                    d > 0,
                    mag >= 0,
            ;
            assert(nearest_integer(p) == div_round_half_even(sig, d));
        }
    }
}

/// An integral number of at most 24 bits survives the way to an integer
/// and back, but for negative zero, which comes back as positive zero.
pub proof fn lemma_integral_round_trip(x: u32)
    requires
        !is_nan(x),
        is_integral(x),
        integer_part(x) <= 0x100_0000,
        x != 0x8000_0000,
    ensures
        i32::MIN <= to_int32_spec(x) <= i32::MAX,
        from_int32_spec(to_int32_spec(x) as i32) == x,
{
    lemma2_to64();
    lemma_fields_compose(x);
    let e = exp_of(x);
    let f = frac_of(x);
    let s = sign_of(x);
    let sig = significand(x);
    let big = integer_part(x);
    if scale_exp(x) >= 150 {
        // the significand is at least 2^23: the exponent is 150 or 151
        let g = pow2((e - 150) as nat) as int;
        lemma_pow2_pos((e - 150) as nat);
        if e > 151 {
            vstd::arithmetic::power2::lemma_pow2_strictly_increases(1, (e - 150) as nat);
        }
        assert(e <= 151 && (e == 151 ==> f == 0)) by (nonlinear_arith)
            requires
                (0x80_0000 + f) * g <= 0x100_0000,
                f >= 0,
                e > 151 ==> g > 2,
                e == 151 ==> g == 2,
                g >= 1,
        ;
        assert(nearest_integer(x) == big);
        if e == 150 {
            assert(big == sig) by (nonlinear_arith)
                requires
                    big == sig * g,
                    g == 1,
            ;
            lemma_bit_length_unique(big as nat, 24);
            assert(big * pow2(0) == big) by (nonlinear_arith)
                requires
                    pow2(0) == 1,
            ;
        } else {
            assert(big == 0x100_0000) by (nonlinear_arith)
                requires
                    big == sig * g,
                    sig == 0x80_0000,
                    g == 2,
            ;
            lemma_bit_length_unique(big as nat, 25);
            assert(0x100_0000int / 2 == 0x80_0000);
        }
    } else {
        // an integral number below 2^23
        let k = (150 - scale_exp(x)) as nat;
        let d = pow2(k) as int;
        lemma_pow2_pos(k);
        vstd::arithmetic::div_mod::lemma_fundamental_div_mod(sig, d);
        assert(sig == d * big);
        assert(nearest_integer(x) == big);
        assert(big >= 0 && (sig > 0 ==> big > 0)) by (nonlinear_arith)
            requires
                sig == d * big,
                sig >= 0,
                d > 0,
        ;
        if sig == 0 {
            assert(e == 0 && f == 0 && s == 0);
        } else {
            // a subnormal number is not integral, so the number is normal
            assert(sig >= d) by (nonlinear_arith)
                requires
                    sig == d * big,
                    big >= 1,
                    d > 0,
            ;
            if e == 0 {
                vstd::arithmetic::power2::lemma_pow2_strictly_increases(23, 149);
            }
            // the significand has 24 bits, so the divisor has at most 24
            if k > 24 {
                vstd::arithmetic::power2::lemma_pow2_strictly_increases(24, k);
            }
            assert(e != 0 && k <= 23);
            crate::shift::lemma_bit_length_scaled(big as nat, k);
            lemma_bit_length_unique(sig as nat, 24);
            assert(big * d == sig) by (nonlinear_arith)
                requires
                    sig == d * big,
            ;
            assert(bit_length(big as nat) == 24 - k);
            assert(big <= 0x7F_FFFF) by (nonlinear_arith)
                requires
                    sig == d * big,
                    sig < 0x100_0000,
                    d >= 2,
            ;
        }
    }
}

/// With a NaN among the operands, sum, difference, product and quotient
/// are the pattern that the operands propagate.
pub proof fn lemma_nan_operand_propagates(a: u32, b: u32)
    requires
        is_nan(a) || is_nan(b),
    ensures
        f32_add_spec(a, b) == propagate_nan_spec(a, b),
        f32_sub_spec(a, b) == propagate_nan_spec(a, b),
        f32_mul_spec(a, b) == propagate_nan_spec(a, b),
        f32_div_spec(a, b) == propagate_nan_spec(a, b),
{
}

/// NaN absorption: with a NaN among the operands, sum, difference,
/// product and quotient are NaNs.
pub proof fn lemma_nan_absorbed(a: u32, b: u32)
    requires
        is_nan(a) || is_nan(b),
    ensures
        is_nan(f32_add_spec(a, b) as u32),
        is_nan(f32_sub_spec(a, b) as u32),
        is_nan(f32_mul_spec(a, b) as u32),
        is_nan(f32_div_spec(a, b) as u32),
{
    lemma_nan_operand_propagates(a, b);
    lemma_propagate_nan_is_nan(a, b);
}

/// NaN absorption of the operations on one operand: the square root of a
/// NaN, and a NaN rounded to an integral value, are that NaN with its
/// quiet bit set.
pub proof fn lemma_nan_absorbed_unary(a: u32)
    requires
        is_nan(a),
    ensures
        f32_sqrt_spec(a) == quieted(a),
        f32_round_spec(a) == quieted(a),
        is_nan(quieted(a)),
{
    lemma_quieted_fields(a);
}

} // verus!
