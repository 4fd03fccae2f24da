//! Multiplication.

use vstd::prelude::*;
use vstd::arithmetic::power2::{pow2, lemma2_to64, lemma_pow2_adds, lemma_pow2_pos};
use crate::bits::{
    bits_of, f32_exp, f32_frac, f32_pack_raw, f32_sign, is_finite, is_inf, is_nan, is_zero,
    magnitude, sign_of, DEFAULT_NAN,
};
use crate::nan::{f32_propagate_nan, propagate_nan_spec, lemma_propagate_nan_is_nan};
use crate::nearest::{
    is_nearest_even, units, units_of, lemma_jam_stands_for, lemma_nearest_same_value,
    lemma_round_pack_nearest, lemma_stands_for_coarser, lemma_stands_for_doubled,
};
use crate::normal::{
    norm_down, norm_exp, norm_sig, norm_up, lemma_norm_bounds, lemma_units_normalized,
};
use crate::round::{f32_round_and_pack, round_pack_spec, lemma_round_pack_range};
use crate::shift::{
    f32_norm_subnormal_frac, f32_short_shift_right_jam64, shift_right_jam_spec, lemma_double,
    lemma_significand_shifts,
};

verus! {

/// Sign of a product or quotient: the exclusive or of the operands' signs.
pub open spec fn sign_xor(a: u32, b: u32) -> int {
    if sign_of(a) == sign_of(b) {
        0
    } else {
        1
    }
}

/// Product of two finite nonzero numbers: the 48-bit product of the
/// significands, shifted right with jamming to 30 or 31 bits, brought to
/// 31 bits, and rounded.
pub open spec fn mul_finite_spec(sign: int, a: u32, b: u32) -> int {
    let exp = norm_exp(a) + norm_exp(b) - 0x7F;
    let prod = shift_right_jam_spec((norm_sig(a) * 0x80) * (norm_sig(b) * 0x100), 32);
    if prod < 0x4000_0000 {
        round_pack_spec(sign, exp - 1, prod * 2)
    } else {
        round_pack_spec(sign, exp, prod)
    }
}

/// The product `a * b`.
///
/// With a NaN among the operands the product is a NaN, the one that the
/// operands propagate; infinity times zero is invalid and gives the
/// default NaN; infinity times anything else is infinity; zero times a
/// finite number is zero. Sign of infinity and zero is the exclusive or of
/// the operands' signs.
pub open spec fn f32_mul_spec(a: u32, b: u32) -> int {
    let sign = sign_xor(a, b);
    if is_nan(a) || is_nan(b) {
        propagate_nan_spec(a, b) as int
    } else if is_inf(a) || is_inf(b) {
        if is_zero(a) || is_zero(b) {
            DEFAULT_NAN as int
        } else {
            bits_of(sign, 0xFF, 0)
        }
    } else if is_zero(a) || is_zero(b) {
        bits_of(sign, 0, 0)
    } else {
        mul_finite_spec(sign, a, b)
    }
}

/// The exclusive or of two signs is 0 where they agree and 1 where they
/// differ.
pub proof fn lemma_sign_xor(s: i32, t: i32)
    by (bit_vector)
    requires
        0 <= s <= 1,
        0 <= t <= 1,
    ensures
        s == t ==> s ^ t == 0,
        s != t ==> s ^ t == 1,
{
}

/// The product of the two scaled significands fits 63 bits, and its upper
/// half has 30 or 31 bits.
pub proof fn lemma_product_bounds(sa: int, sb: int)
    requires
        0x80_0000 <= sa < 0x100_0000,
        0x80_0000 <= sb < 0x100_0000,
    ensures
        0x2000_0000_0000_0000 <= (sa * 0x80) * (sb * 0x100) < 0x8000_0000_0000_0000,
        0x2000_0000 <= shift_right_jam_spec((sa * 0x80) * (sb * 0x100), 32) < 0x8000_0000,
{
    let p = (sa * 0x80) * (sb * 0x100);
    assert(0x2000_0000_0000_0000 <= p <= 0x7FFF_FF80 * 0xFFFF_FF00) by (nonlinear_arith)
        requires
            p == (sa * 0x80) * (sb * 0x100),
            0x80_0000 <= sa < 0x100_0000,
            0x80_0000 <= sb < 0x100_0000,
    ;
    lemma2_to64();
}

/// Multiplies two numbers.
pub fn f32_mul(a: u32, b: u32) -> (r: u32)
    ensures
        r == f32_mul_spec(a, b),
        is_nan(a) || is_nan(b) ==> is_nan(r),
        is_finite(a) && is_finite(b) ==> sign_of(r) == sign_xor(a, b) && is_nearest_even(
            magnitude(r),
            units(a) * units(b),
            pow2(149) as int,
        ),
{
    proof {
        if is_finite(a) && is_finite(b) {
            lemma_mul_correctly_rounded(a, b);
        }
        if is_nan(a) || is_nan(b) {
            lemma_propagate_nan_is_nan(a, b);
        }
    }
    let a_sign = f32_sign(a);
    let b_sign = f32_sign(b);
    proof {
        lemma_sign_xor(a_sign, b_sign);
    }
    let r_sign = a_sign ^ b_sign;

    let mut a_exp = f32_exp(a);
    let mut b_exp = f32_exp(b);
    let mut a_frac = f32_frac(a) as u32;
    let mut b_frac = f32_frac(b) as u32;

    if a_exp == 0xFF {
        if a_frac != 0 || (b_exp == 0xFF && b_frac != 0) {
            return f32_propagate_nan(a, b);
        }
        if b_exp == 0 && b_frac == 0 {
            return DEFAULT_NAN;
        }
        return f32_pack_raw(r_sign, 0xFF, 0);
    }
    if b_exp == 0xFF {
        if b_frac != 0 {
            return f32_propagate_nan(a, b);
        }
        if a_exp == 0 && a_frac == 0 {
            return DEFAULT_NAN;
        }
        return f32_pack_raw(r_sign, 0xFF, 0);
    }
    if a_exp == 0 {
        if a_frac == 0 {
            return f32_pack_raw(r_sign, 0, 0);
        }
        let (exp, frac) = f32_norm_subnormal_frac(a_frac);
        a_exp = exp;
        a_frac = frac;
    } else {
        a_frac = a_frac + 0x0080_0000;
    }
    if b_exp == 0 {
        if b_frac == 0 {
            return f32_pack_raw(r_sign, 0, 0);
        }
        let (exp, frac) = f32_norm_subnormal_frac(b_frac);
        b_exp = exp;
        b_frac = frac;
    } else {
        b_frac = b_frac + 0x0080_0000;
    }
    proof {
        lemma_norm_bounds(a);
        lemma_norm_bounds(b);
        lemma_significand_shifts(a_frac);
        lemma_significand_shifts(b_frac);
        lemma_product_bounds(a_frac as int, b_frac as int);
    }
    let mut r_exp = a_exp + b_exp - 0x7F;
    let a_wide: u64 = (a_frac << 7) as u64;
    let b_wide: u64 = (b_frac << 8) as u64;
    let mut r_frac = f32_short_shift_right_jam64(a_wide * b_wide, 32) as u32;

    if r_frac < 0x4000_0000 {
        proof {
            lemma_double(r_frac);
        }
        r_exp = r_exp - 1;
        r_frac = r_frac << 1;
    }
    f32_round_and_pack(r_sign, r_exp, r_frac)
}

/// The product of two magnitudes, each given by a normalized significand
/// and a quotient of powers of two, over a divisor.
proof fn lemma_product_of_units(
    ua: int,
    ub: int,
    za: int,
    zb: int,
    sa: int,
    sb: int,
    pa: int,
    pb: int,
    scale: int,
    unit: int,
    right: int,
    left: int,
)
    requires
        ua * za == sa * pa,
        ub * zb == sb * pb,
        unit * left == right * scale,
    ensures
        ((left * (sa * sb)) * (pa * pb)) * unit == (ua * ub) * (scale * ((za * zb) * right)),
{
    let x = ua * za;
    let y = ub * zb;
    let k = unit * left;
    assert((ua * ub) * (scale * ((za * zb) * right)) == (x * y) * (right * scale))
        by (nonlinear_arith)
        requires
            x == ua * za,
            y == ub * zb,
    ;
    assert(((left * (sa * sb)) * (pa * pb)) * unit == ((sa * pa) * (sb * pb)) * (unit * left))
        by (nonlinear_arith);
}

/// Multiplication rounds correctly: the product of two finite numbers
/// has the exclusive or of their signs, and its magnitude is the one
/// nearest to the product of their magnitudes, ties to even. The product
/// of two magnitudes in units of `2^-149` is a value in units of
/// `2^-298`, hence the divisor.
pub proof fn lemma_mul_correctly_rounded(a: u32, b: u32)
    requires
        is_finite(a),
        is_finite(b),
    ensures
        0 <= f32_mul_spec(a, b) <= u32::MAX,
        sign_of(f32_mul_spec(a, b) as u32) == sign_xor(a, b),
        is_nearest_even(
            magnitude(f32_mul_spec(a, b) as u32),
            units(a) * units(b),
            pow2(149) as int,
        ),
{
    lemma2_to64();
    let sign = sign_xor(a, b);
    let ua = units(a);
    let ub = units(b);
    let unit = pow2(149) as int;
    lemma_pow2_pos(149);
    if is_zero(a) || is_zero(b) {
        assert(ua * ub == 0) by (nonlinear_arith)
            requires
                ua == 0 || ub == 0,
        ;
        assert(units_of(1) == 1);
    } else {
        lemma_units_normalized(a);
        lemma_units_normalized(b);
        lemma_norm_bounds(a);
        lemma_norm_bounds(b);
        let sa = norm_sig(a);
        let sb = norm_sig(b);
        let wide = (sa * 0x80) * (sb * 0x100);
        lemma_product_bounds(sa, sb);
        let prod = shift_right_jam_spec(wide, 32);
        lemma_jam_stands_for(wide, 32);
        let exp = norm_exp(a) + norm_exp(b) - 0x7F;
        let pa = pow2(norm_up(a)) as int;
        let pb = pow2(norm_up(b)) as int;
        let za = pow2(norm_down(a)) as int;
        let zb = pow2(norm_down(b)) as int;
        lemma_pow2_pos(norm_up(a));
        lemma_pow2_pos(norm_up(b));
        lemma_pow2_pos(norm_down(a));
        lemma_pow2_pos(norm_down(b));
        let up = norm_up(a) + norm_up(b);
        lemma_pow2_adds(norm_up(a), norm_up(b));
        lemma_pow2_adds(norm_down(a), norm_down(b));
        let zz = za * zb;
        assert(zz > 0) by (nonlinear_arith)
            requires
                zz == za * zb,
                za > 0,
                zb > 0,
        ;
        if prod < 0x4000_0000 {
            let down = norm_down(a) + norm_down(b) + 133;
            lemma_stands_for_doubled(prod, wide, 0x1_0000_0000, 2);
            lemma_stands_for_coarser(2 * prod, 2 * wide, 0x1_0000_0000, 4, 16);
            lemma_round_pack_range(sign, exp - 1, 2 * prod);
            lemma_round_pack_nearest(sign, exp - 1, 2 * prod, 2 * wide, 0x1_0000_0000, up, down);
            lemma_pow2_adds(norm_down(a) + norm_down(b), 133);
            lemma_pow2_adds(32, 101);
            lemma_pow2_adds(101, 32);
            lemma_pow2_adds(133, 32);
            lemma_pow2_adds(149, 16);
            let k165 = pow2(165) as int;
            assert(pow2(133) * 0x1_0000_0000 == k165);
            assert(unit * 0x1_0000 == k165);
            let n1 = (2 * wide) * pow2(up);
            let d1: int = 0x1_0000_0000 * (pow2(down) as int);
            assert(d1 > 0) by (nonlinear_arith)
                requires
                    d1 == 0x1_0000_0000 * (zz * pow2(133)),
                    zz > 0,
                    pow2(133) > 0,
            ;
            lemma_product_of_units(
                ua,
                ub,
                za,
                zb,
                sa,
                sb,
                pa,
                pb,
                0x1_0000_0000,
                unit,
                pow2(133) as int,
                0x1_0000,
            );
            assert(n1 == (0x1_0000 * (sa * sb)) * (pa * pb)) by (nonlinear_arith)
                requires
                    n1 == (2 * ((sa * 0x80) * (sb * 0x100))) * (pa * pb),
            ;
            assert(n1 * unit == (ua * ub) * d1);
            lemma_nearest_same_value(
                magnitude(f32_mul_spec(a, b) as u32),
                n1,
                d1,
                ua * ub,
                unit,
            );
        } else {
            let down = norm_down(a) + norm_down(b) + 132;
            lemma_stands_for_coarser(prod, wide, 0x1_0000_0000, 2, 32);
            lemma_round_pack_range(sign, exp, prod);
            lemma_round_pack_nearest(sign, exp, prod, wide, 0x1_0000_0000, up, down);
            lemma_pow2_adds(norm_down(a) + norm_down(b), 132);
            lemma_pow2_adds(132, 32);
            lemma_pow2_adds(149, 15);
            let k164 = pow2(164) as int;
            assert(pow2(132) * 0x1_0000_0000 == k164);
            assert(unit * 0x8000 == k164);
            let n1 = wide * pow2(up);
            let d1: int = 0x1_0000_0000 * (pow2(down) as int);
            assert(d1 > 0) by (nonlinear_arith)
                requires
                    d1 == 0x1_0000_0000 * (zz * pow2(132)),
                    zz > 0,
                    pow2(132) > 0,
            ;
            lemma_product_of_units(
                ua,
                ub,
                za,
                zb,
                sa,
                sb,
                pa,
                pb,
                0x1_0000_0000,
                unit,
                pow2(132) as int,
                0x8000,
            );
            assert(n1 == (0x8000 * (sa * sb)) * (pa * pb)) by (nonlinear_arith)
                requires
                    n1 == ((sa * 0x80) * (sb * 0x100)) * (pa * pb),
            ;
            assert(n1 * unit == (ua * ub) * d1);
            lemma_nearest_same_value(
                magnitude(f32_mul_spec(a, b) as u32),
                n1,
                d1,
                ua * ub,
                unit,
            );
        }
    }
}

} // verus!
