//! Division.

use vstd::prelude::*;
use vstd::arithmetic::power2::{pow2, lemma2_to64, lemma_pow2_adds, lemma_pow2_pos};
use crate::bits::{
    bits_of, f32_exp, f32_frac, f32_pack_raw, f32_sign, is_finite, is_inf, is_nan, is_zero,
    magnitude, sign_of, DEFAULT_NAN,
};
use crate::mul::{sign_xor, lemma_sign_xor};
use crate::nan::{f32_propagate_nan, propagate_nan_spec, lemma_propagate_nan_is_nan};
use crate::nearest::{
    is_nearest_even, units, units_of, lemma_nearest_same_value, lemma_round_pack_nearest,
    lemma_stands_for_coarser, lemma_sticky_stands_for,
};
use crate::normal::{
    norm_down, norm_exp, norm_sig, norm_up, lemma_norm_bounds, lemma_units_normalized,
};
use crate::round::{f32_round_and_pack, round_pack_spec, lemma_round_pack_range};
use crate::shift::{f32_norm_subnormal_frac, lemma_set_low_bit};

verus! {

/// Quotient of `num` by `den`, with its lowest bit forced to one when the
/// division leaves a remainder.
pub open spec fn sticky_quotient(num: int, den: int) -> int {
    let q = num / den;
    if num % den != 0 && q % 2 == 0 {
        q + 1
    } else {
        q
    }
}

/// Quotient of two finite nonzero numbers. The dividend's significand is
/// scaled so that the quotient has its leading one at bit 30; one bit
/// more is needed, and the exponent one less, where the significand of
/// the dividend is the smaller one.
pub open spec fn div_finite_spec(sign: int, a: u32, b: u32) -> int {
    let exp = norm_exp(a) - norm_exp(b) + 0x7E;
    if norm_sig(a) < norm_sig(b) {
        round_pack_spec(sign, exp - 1, sticky_quotient(norm_sig(a) * 0x8000_0000, norm_sig(b)))
    } else {
        round_pack_spec(sign, exp, sticky_quotient(norm_sig(a) * 0x4000_0000, norm_sig(b)))
    }
}

/// The quotient `a / b`.
///
/// With a NaN among the operands the quotient is a NaN, the one that the
/// operands propagate; infinity by infinity and zero by zero are
/// invalid and give the default NaN; infinity by a finite number, and a
/// nonzero finite number by zero, give infinity; a finite number by
/// infinity, and zero by a nonzero finite number, give zero. Sign of
/// infinity and zero is the exclusive or of the operands' signs.
pub open spec fn f32_div_spec(a: u32, b: u32) -> int {
    let sign = sign_xor(a, b);
    if is_nan(a) || is_nan(b) {
        propagate_nan_spec(a, b) as int
    } else if is_inf(a) {
        if is_inf(b) {
            DEFAULT_NAN as int
        } else {
            bits_of(sign, 0xFF, 0)
        }
    } else if is_inf(b) {
        bits_of(sign, 0, 0)
    } else if is_zero(b) {
        if is_zero(a) {
            DEFAULT_NAN as int
        } else {
            bits_of(sign, 0xFF, 0)
        }
    } else if is_zero(a) {
        bits_of(sign, 0, 0)
    } else {
        div_finite_spec(sign, a, b)
    }
}

/// Shifts of the dividend, in arithmetic.
proof fn lemma_div_shifts(x: u64)
    by (bit_vector)
    requires
        x < 0x100_0000,
    ensures
        x << 31 == x * 0x8000_0000,
        x << 30 == x * 0x4000_0000,
{
}

/// The scaled quotient of two normalized significands has 31 bits.
pub proof fn lemma_quotient_bounds(sa: int, sb: int)
    requires
        0x80_0000 <= sa < 0x100_0000,
        0x80_0000 <= sb < 0x100_0000,
    ensures
        sa < sb ==> 0x4000_0000 <= (sa * 0x8000_0000) / sb < 0x8000_0000,
        sa >= sb ==> 0x4000_0000 <= (sa * 0x4000_0000) / sb < 0x8000_0000,
        sa < sb ==> 0x4000_0000 <= sticky_quotient(sa * 0x8000_0000, sb) < 0x8000_0000,
        sa >= sb ==> 0x4000_0000 <= sticky_quotient(sa * 0x4000_0000, sb) < 0x8000_0000,
{
    let n = if sa < sb {
        sa * 0x8000_0000
    } else {
        sa * 0x4000_0000
    };
    vstd::arithmetic::div_mod::lemma_fundamental_div_mod(n, sb);
    let q = n / sb;
    let m = n % sb;
    assert(0x4000_0000 <= q < 0x8000_0000) by (nonlinear_arith)
        requires
            n == sb * q + m,
            0 <= m < sb,
            0x4000_0000 * sb <= n < 0x8000_0000 * sb,
            sb > 0,
    ;
}

/// Divides the first number by the second.
pub fn f32_div(a: u32, b: u32) -> (r: u32)
    ensures
        r == f32_div_spec(a, b),
        is_nan(a) || is_nan(b) ==> is_nan(r),
        is_finite(a) && is_finite(b) && !is_zero(b) ==> sign_of(r) == sign_xor(a, b)
            && is_nearest_even(magnitude(r), units(a) * pow2(149), units(b)),
{
    proof {
        if is_finite(a) && is_finite(b) && !is_zero(b) {
            lemma_div_correctly_rounded(a, b);
        }
        if is_nan(a) || is_nan(b) {
            lemma_propagate_nan_is_nan(a, b);
        }
    }
    let a_sign = f32_sign(a);
    let b_sign = f32_sign(b);
    proof {
        lemma_sign_xor(a_sign, b_sign);
    }
    let r_sign = a_sign ^ b_sign;

    let mut a_exp = f32_exp(a);
    let mut b_exp = f32_exp(b);
    let mut a_frac = f32_frac(a) as u32;
    let mut b_frac = f32_frac(b) as u32;

    if a_exp == 0xFF {
        if a_frac != 0 {
            return f32_propagate_nan(a, b);
        }
        if b_exp == 0xFF {
            if b_frac != 0 {
                return f32_propagate_nan(a, b);
            }
            return DEFAULT_NAN;
        }
        return f32_pack_raw(r_sign, 0xFF, 0);
    }
    if b_exp == 0xFF {
        if b_frac != 0 {
            return f32_propagate_nan(a, b);
        }
        return f32_pack_raw(r_sign, 0, 0);
    }
    if b_exp == 0 {
        if b_frac == 0 {
            if a_exp == 0 && a_frac == 0 {
                return DEFAULT_NAN;
            }
            return f32_pack_raw(r_sign, 0xFF, 0);
        }
        let (exp, frac) = f32_norm_subnormal_frac(b_frac);
        b_exp = exp;
        b_frac = frac;
    } else {
        b_frac = b_frac + 0x0080_0000;
    }
    if a_exp == 0 {
        if a_frac == 0 {
            return f32_pack_raw(r_sign, 0, 0);
        }
        let (exp, frac) = f32_norm_subnormal_frac(a_frac);
        a_exp = exp;
        a_frac = frac;
    } else {
        a_frac = a_frac + 0x0080_0000;
    }
    proof {
        lemma_norm_bounds(a);
        lemma_norm_bounds(b);
        lemma_div_shifts(a_frac as u64);
        lemma_quotient_bounds(a_frac as int, b_frac as int);
    }
    let mut r_exp = a_exp - b_exp + 0x7E;
    let mut dividend = a_frac as u64;
    if a_frac < b_frac {
        r_exp = r_exp - 1;
        dividend = dividend << 31;
    } else {
        dividend = dividend << 30;
    }
    let divisor = b_frac as u64;
    let mut quotient = dividend / divisor;
    proof {
        vstd::arithmetic::div_mod::lemma_fundamental_div_mod(dividend as int, divisor as int);
        lemma_set_low_bit(quotient);
        assert(quotient * divisor == divisor * quotient) by (nonlinear_arith);
    }
    if quotient * divisor != dividend {
        quotient = quotient | 1;
    }
    f32_round_and_pack(r_sign, r_exp, quotient as u32)
}

/// The quotient of two magnitudes, each given by a normalized
/// significand and a quotient of powers of two.
proof fn lemma_quotient_of_units(
    ua: int,
    ub: int,
    za: int,
    zb: int,
    sa: int,
    sb: int,
    pa: int,
    pb: int,
    left: int,
    right: int,
    unit: int,
)
    requires
        ua * za == sa * pa,
        ub * zb == sb * pb,
        left * right == unit,
    ensures
        ((sa * left) * ((pa * zb) * right)) * ub == (ua * unit) * (sb * (za * pb)),
{
    let x = ua * za;
    let y = ub * zb;
    let lead = sa * pa;
    let tail = sb * pb;
    let inner = (pa * zb) * right;
    assert((sa * left) * inner == (lead * unit) * zb) by (nonlinear_arith)
        requires
            lead == sa * pa,
            unit == left * right,
            inner == (pa * zb) * right,
    ;
    assert(((lead * unit) * zb) * ub == (lead * y) * unit) by (nonlinear_arith)
        requires
            y == ub * zb,
    ;
    assert(sb * (za * pb) == za * tail) by (nonlinear_arith)
        requires
            tail == sb * pb,
    ;
    assert((ua * unit) * (za * tail) == (x * tail) * unit) by (nonlinear_arith)
        requires
            x == ua * za,
    ;
}

/// Division rounds correctly: the quotient of a finite number by a
/// finite number other than zero has the exclusive or of their signs, and
/// its magnitude is the one nearest to the quotient of their magnitudes,
/// ties to even. The quotient of two magnitudes is a pure number, or
/// `2^149` units of `2^-149`.
pub proof fn lemma_div_correctly_rounded(a: u32, b: u32)
    requires
        is_finite(a),
        is_finite(b),
        !is_zero(b),
    ensures
        0 <= f32_div_spec(a, b) <= u32::MAX,
        sign_of(f32_div_spec(a, b) as u32) == sign_xor(a, b),
        is_nearest_even(
            magnitude(f32_div_spec(a, b) as u32),
            units(a) * pow2(149),
            units(b),
        ),
{
    lemma2_to64();
    let sign = sign_xor(a, b);
    let ua = units(a);
    let ub = units(b);
    let unit = pow2(149) as int;
    lemma_pow2_pos(149);
    lemma_units_normalized(b);
    if is_zero(a) {
        assert(ua * unit == 0) by (nonlinear_arith)
            requires
                ua == 0,
        ;
        assert(units_of(1) == 1);
    } else {
        lemma_units_normalized(a);
        lemma_norm_bounds(a);
        lemma_norm_bounds(b);
        let sa = norm_sig(a);
        let sb = norm_sig(b);
        lemma_quotient_bounds(sa, sb);
        let exp = norm_exp(a) - norm_exp(b) + 0x7E;
        let pa = pow2(norm_up(a)) as int;
        let pb = pow2(norm_up(b)) as int;
        let za = pow2(norm_down(a)) as int;
        let zb = pow2(norm_down(b)) as int;
        lemma_pow2_pos(norm_up(a));
        lemma_pow2_pos(norm_up(b));
        lemma_pow2_pos(norm_down(a));
        lemma_pow2_pos(norm_down(b));
        let down = norm_down(a) + norm_up(b);
        lemma_pow2_adds(norm_down(a), norm_up(b));
        lemma_pow2_adds(norm_up(a), norm_down(b));
        let zp = za * pb;
        assert(zp > 0) by (nonlinear_arith)
            requires
                zp == za * pb,
                za > 0,
                pb > 0,
        ;
        let d1: int = sb * (pow2(down) as int);
        assert(d1 > 0) by (nonlinear_arith)
            requires
                d1 == sb * zp,
                sb > 0,
                zp > 0,
        ;
        let m = magnitude(f32_div_spec(a, b) as u32);
        if sa < sb {
            let num = sa * 0x8000_0000;
            let sig = sticky_quotient(num, sb);
            let up = norm_up(a) + norm_down(b) + 118;
            lemma_sticky_stands_for(num, sb, sig);
            lemma_stands_for_coarser(sig, num, sb, 2, 32);
            lemma_round_pack_range(sign, exp - 1, sig);
            lemma_round_pack_nearest(sign, exp - 1, sig, num, sb, up, down);
            lemma_pow2_adds(norm_up(a) + norm_down(b), 118);
            lemma_pow2_adds(31, 118);
            let right = pow2(118) as int;
            assert(0x8000_0000 * right == unit);
            lemma_quotient_of_units(ua, ub, za, zb, sa, sb, pa, pb, 0x8000_0000, right, unit);
            let n1 = num * pow2(up);
            assert(n1 * ub == (ua * unit) * d1);
            lemma_nearest_same_value(m, n1, d1, ua * unit, ub);
        } else {
            let num = sa * 0x4000_0000;
            let sig = sticky_quotient(num, sb);
            let up = norm_up(a) + norm_down(b) + 119;
            lemma_sticky_stands_for(num, sb, sig);
            lemma_stands_for_coarser(sig, num, sb, 2, 32);
            lemma_round_pack_range(sign, exp, sig);
            lemma_round_pack_nearest(sign, exp, sig, num, sb, up, down);
            lemma_pow2_adds(norm_up(a) + norm_down(b), 119);
            lemma_pow2_adds(30, 119);
            let right = pow2(119) as int;
            assert(0x4000_0000 * right == unit);
            lemma_quotient_of_units(ua, ub, za, zb, sa, sb, pa, pb, 0x4000_0000, right, unit);
            let n1 = num * pow2(up);
            assert(n1 * ub == (ua * unit) * d1);
            lemma_nearest_same_value(m, n1, d1, ua * unit, ub);
        }
    }
}

} // verus!
