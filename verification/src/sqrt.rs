//! Square root.

use vstd::prelude::*;
use vstd::arithmetic::power2::{pow2, lemma2_to64, lemma_pow2_adds, lemma_pow2_pos};
use crate::approx::f32_approx_recip_sqrt;
use crate::bits::{
    f32_exp, f32_frac, f32_sign, is_finite, is_inf, is_nan, is_zero, magnitude, sign_of,
    lemma_fields_compose, DEFAULT_NAN,
};
use crate::nan::{f32_propagate_nan, propagate_nan_spec, quieted, lemma_propagate_nan_is_nan};
use crate::nearest::{
    units, units_of, lemma_gaps_of_normal, lemma_scale_le, lemma_scale_lt, lemma_units_increase,
    lemma_units_of_normal, lemma_units_step,
};
use crate::normal::{
    norm_down, norm_exp, norm_sig, norm_up, lemma_norm_bounds, lemma_units_normalized,
};
use crate::root::{
    f32_correct_root, int_sqrt, is_int_sqrt, lemma_int_sqrt_exists, lemma_int_sqrt_unique,
    lemma_root_bounds,
};
use crate::round::{
    f32_round_and_pack, round_half_even, round_pack_spec, lemma_round_half_even_bounds,
};
use crate::shift::{f32_norm_subnormal_frac, lemma_set_low_bit};

verus! {

/// The number under the root, scaled so that its integer square root has
/// its leading one at bit 30: the significand times `2^37` where the
/// unbiased exponent is even, times `2^38` where it is odd.
pub open spec fn sqrt_radicand(a: u32) -> int {
    if norm_exp(a) % 2 == 1 {
        norm_sig(a) * 0x20_0000_0000
    } else {
        norm_sig(a) * 0x40_0000_0000
    }
}

/// Square root of a positive finite number: half the unbiased exponent,
/// and the integer square root of the scaled significand, with its lowest
/// bit set where the root is not exact, rounded.
pub open spec fn sqrt_finite_spec(a: u32) -> int {
    let root = int_sqrt(sqrt_radicand(a));
    round_pack_spec(
        0,
        (norm_exp(a) - 0x7F) / 2 + 0x7E,
        if root * root != sqrt_radicand(a) && root % 2 == 0 {
            root + 1
        } else {
            root
        },
    )
}

/// The square root of `a`.
///
/// The root of a NaN is that NaN with its quiet bit set. A zero of either
/// sign and positive infinity are their own roots. The root of any other
/// negative number, negative infinity included, is invalid and gives the
/// default NaN.
pub open spec fn f32_sqrt_spec(a: u32) -> int {
    if is_nan(a) {
        propagate_nan_spec(a, a) as int
    } else if magnitude(a) == 0 {
        a as int
    } else if sign_of(a) != 0 {
        DEFAULT_NAN as int
    } else if is_inf(a) {
        a as int
    } else {
        sqrt_finite_spec(a)
    }
}

/// Shifts of a significand of 24 bits inside a 64-bit word, in arithmetic.
proof fn lemma_sqrt_shifts(x: u64)
    by (bit_vector)
    requires
        x < 0x100_0000,
    ensures
        x << 37 == x * 0x20_0000_0000,
        x << 38 == x * 0x40_0000_0000,
        x << 8 == x * 0x100,
{
}

/// An arithmetic shift right by one bit halves, rounding down; the lowest bit is the parity.
proof fn lemma_halve_exp(e: i32)
    by (bit_vector)
    ensures
        0 <= e & 1 <= 1,
        (e >> 1) * 2 + (e & 1) == e,
{
}

/// Takes the square root of a number.
///
/// The reciprocal square root of the significand is approximated, and
/// multiplied by the significand to give an estimate of the root; the
/// estimate is then settled by the remainder, and the exact root rounded.
pub fn f32_sqrt(a: u32) -> (r: u32)
    ensures
        r == f32_sqrt_spec(a),
        is_nan(a) ==> is_nan(r) && r == quieted(a),
        sign_of(a) == 0 && is_finite(a) && !is_zero(a) ==> is_nearest_even_root(
            r as int,
            units(a) * pow2(149),
        ),
{
    proof {
        if sign_of(a) == 0 && is_finite(a) && !is_zero(a) {
            lemma_sqrt_correctly_rounded(a);
        }
        if is_nan(a) {
            lemma_propagate_nan_is_nan(a, a);
        }
    }
    let a_sign = f32_sign(a);
    let mut a_exp = f32_exp(a);
    let mut a_frac = f32_frac(a) as u32;

    if a_exp == 0xFF {
        if a_frac != 0 {
            return f32_propagate_nan(a, a);
        }
        if a_sign == 0 {
            return a;
        }
        return DEFAULT_NAN;
    }
    if a_sign != 0 {
        if a_exp == 0 && a_frac == 0 {
            return a;
        }
        return DEFAULT_NAN;
    }
    if a_exp == 0 {
        if a_frac == 0 {
            return a;
        }
        let (exp, frac) = f32_norm_subnormal_frac(a_frac);
        a_exp = exp;
        a_frac = frac;
    } else {
        a_frac = a_frac + 0x0080_0000;
    }
    proof {
        lemma_norm_bounds(a);
        lemma_sqrt_shifts(a_frac as u64);
        lemma_halve_exp(a_exp);
    }
    let unbiased = a_exp - 0x7F;
    proof {
        lemma_halve_exp(unbiased);
    }
    let r_exp = (unbiased >> 1) + 0x7E;
    let odd_exp = (a_exp & 1) as u32;

    let sig: u32 = ((a_frac as u64) << 8) as u32;
    let recip = f32_approx_recip_sqrt(odd_exp, sig);
    proof {
        assert(sig * recip <= 0xFFFF_FFFF * 0xFFFF_FFFF) by (nonlinear_arith)
            requires
                0 <= sig <= 0xFFFF_FFFF,
                0 <= recip <= 0xFFFF_FFFF,
        ;
    }
    let mut estimate: u64 = (sig as u64 * recip as u64) >> 32;
    let radicand: u64;
    if odd_exp != 0 {
        estimate = estimate >> 1;
        radicand = (a_frac as u64) << 37;
    } else {
        radicand = (a_frac as u64) << 38;
    }
    let mut root = f32_correct_root(radicand, estimate);
    proof {
        lemma_int_sqrt_unique(radicand as int, root as int);
        lemma_root_bounds(radicand as int, root as int);
        lemma_set_low_bit(root);
    }
    if root * root != radicand {
        root = root | 1;
    }
    f32_round_and_pack(0, r_exp, root as u32)
}

/// `m` is the magnitude pattern nearest to the square root of `v`: the
/// root lies between the midpoints from `m` to its two neighbours, and
/// not on a midpoint unless `m` is even. Patterns are valued in units of
/// `2^-149`, and `v` in units of `2^-298`, the square of that.
pub open spec fn is_nearest_even_root(m: int, v: int) -> bool {
    &&& 0 <= m <= 0x7F80_0000
    &&& m > 0 ==> (units_of(m - 1) + units_of(m)) * (units_of(m - 1) + units_of(m)) <= 4 * v
    &&& m < 0x7F80_0000 ==> 4 * v <= (units_of(m) + units_of(m + 1)) * (units_of(m) + units_of(
        m + 1,
    ))
    &&& m % 2 == 1 ==> (units_of(m - 1) + units_of(m)) * (units_of(m - 1) + units_of(m)) < 4 * v
        < (units_of(m) + units_of(m + 1)) * (units_of(m) + units_of(m + 1))
}

/// Squares keep the order of numbers that are not negative.
proof fn lemma_square_le(x: int, y: int)
    by (nonlinear_arith)
    requires
        0 <= x <= y,
    ensures
        x * x <= y * y,
{
}

/// Squares keep the strict order of numbers that are not negative.
proof fn lemma_square_lt(x: int, y: int)
    by (nonlinear_arith)
    requires
        0 <= x < y,
    ensures
        x * x < y * y,
{
}

/// The root with its sticky bit, rounded: the number under the root lies
/// between the squares of the midpoints around the rounded significand.
proof fn lemma_root_brackets(x: int, root: int, sig: int)
    requires
        is_int_sqrt(x, root),
        root >= 128,
        sig == (if root * root != x && root % 2 == 0 {
            root + 1
        } else {
            root
        }),
    ensures
        (128 * round_half_even(sig) - 64) * (128 * round_half_even(sig) - 64) <= x <= (128
            * round_half_even(sig) + 64) * (128 * round_half_even(sig) + 64),
        round_half_even(sig) % 2 == 1 ==> (128 * round_half_even(sig) - 64) * (128
            * round_half_even(sig) - 64) < x < (128 * round_half_even(sig) + 64) * (128
            * round_half_even(sig) + 64),
{
    let h = sig / 128;
    let r = sig % 128;
    let q = round_half_even(sig);
    let low = 128 * q - 64;
    let high = 128 * q + 64;
    if root * root == x {
        // the root is exact
        assert(sig == root);
        if r == 0 {
            assert(q == h);
            lemma_square_lt(low, sig);
            lemma_square_lt(sig, high);
        } else if r < 64 {
            assert(q == h);
            lemma_square_lt(low, sig);
            lemma_square_lt(sig, high);
        } else if r == 64 {
            if h % 2 == 0 {
                assert(q == h && sig == high);
                lemma_square_lt(low, sig);
            } else {
                assert(q == h + 1 && sig == low);
                lemma_square_lt(sig, high);
            }
        } else {
            assert(q == h + 1);
            lemma_square_lt(low, sig);
            lemma_square_lt(sig, high);
        }
    } else {
        // the root is not exact: the significand is odd, and the root lies
        // strictly between its even neighbours
        assert(sig % 2 == 1);
        assert(root == sig || root == sig - 1);
        assert(r != 0 && r != 64);
        if r < 64 {
            assert(q == h);
            assert(low <= root && root + 1 <= high);
        } else {
            assert(q == h + 1);
            assert(low <= root && root + 1 <= high);
        }
        lemma_square_le(low, root);
        lemma_square_le(root + 1, high);
    }
}

/// Exponent of the root, less one: half the unbiased exponent, biased
/// again.
pub open spec fn sqrt_exp(a: u32) -> int {
    (norm_exp(a) - 0x7F) / 2 + 0x7E
}

/// The number under the root, times the square of the weight that one
/// unit of the root's significand has, is the magnitude of the operand in
/// units of `2^-298`.
proof fn lemma_sqrt_weight(a: u32)
    requires
        is_finite(a),
        !is_zero(a),
    ensures
        sqrt_exp(a) >= 7,
        sqrt_exp(a) < 0xFD,
        sqrt_radicand(a) * (pow2((sqrt_exp(a) - 7) as nat) * pow2((sqrt_exp(a) - 7) as nat))
            == units(a) * pow2(149),
{
    lemma2_to64();
    lemma_units_normalized(a);
    lemma_norm_bounds(a);
    let sa = norm_sig(a);
    let ea = norm_exp(a);
    let exp = sqrt_exp(a);
    let x = sqrt_radicand(a);
    let w = pow2((exp - 7) as nat) as int;
    let ww = w * w;
    let pa = pow2(norm_up(a)) as int;
    let za = pow2(norm_down(a)) as int;
    lemma_pow2_pos(norm_up(a));
    lemma_pow2_pos(norm_down(a));
    let lead: nat = if ea % 2 == 1 {
        37
    } else {
        38
    };
    let c = pow2(lead) as int;
    lemma_pow2_adds(32, 5);
    lemma_pow2_adds(32, 6);
    assert(x == sa * c);
    let twice = ((exp - 7) + (exp - 7)) as nat;
    lemma_pow2_adds((exp - 7) as nat, (exp - 7) as nat);
    lemma_pow2_adds(lead, twice);
    lemma_pow2_adds(lead + twice, norm_down(a));
    lemma_pow2_adds(norm_up(a), 149);
    assert(lead + twice + norm_down(a) == norm_up(a) + 149);
    let total = pow2(norm_up(a) + 149) as int;
    assert((c * ww) * za == total && pa * pow2(149) == total);
    let v = units(a) * pow2(149);
    let ua = units(a);
    let k = pow2(149) as int;
    assert((x * ww) * za == sa * ((c * ww) * za)) by (nonlinear_arith)
        requires
            x == sa * c,
    ;
    assert(v * za == (ua * za) * k) by (nonlinear_arith)
        requires
            v == ua * k,
    ;
    assert((sa * pa) * k == sa * (pa * k)) by (nonlinear_arith);
    assert((x * ww) * za == v * za);
    assert(x * ww == v) by (nonlinear_arith)
        requires
            (x * ww) * za == v * za,
            za > 0,
    ;
}

/// A pattern is nearest to a root when the number under the root, in
/// units of the significand, lies between the squares of the midpoints
/// around the rounded significand `q`.
proof fn lemma_root_nearest(exp: int, q: int, x: int, w: int, v: int)
    requires
        7 <= exp < 0xFD,
        0x80_0000 <= q <= 0x100_0000,
        exp == 0xFC ==> q < 0x100_0000,
        w == pow2((exp - 7) as nat),
        x * (w * w) == v,
        x >= 0x1000_0000_0000_0000,
        (128 * q - 64) * (128 * q - 64) <= x <= (128 * q + 64) * (128 * q + 64),
        q % 2 == 1 ==> (128 * q - 64) * (128 * q - 64) < x < (128 * q + 64) * (128 * q + 64),
    ensures
        is_nearest_even_root(exp * 0x80_0000 + q, v),
{
    lemma2_to64();
    let m = exp * 0x80_0000 + q;
    let g = pow2(exp as nat) as int;
    let ww = w * w;
    lemma_pow2_pos((exp - 7) as nat);
    lemma_pow2_adds(7, (exp - 7) as nat);
    assert(g == 128 * w);
    lemma_pow2_pos(exp as nat);
    lemma_units_of_normal(exp, q);
    lemma_gaps_of_normal(exp, q);
    lemma_units_step(m);
    lemma_units_step(m - 1);
    let um = units_of(m);
    let low = 128 * q - 64;
    let high = 128 * q + 64;
    let above = um + units_of(m + 1);
    let below = units_of(m - 1) + um;
    assert(((2 * q + 1) * g) * ((2 * q + 1) * g) == 4 * ((high * high) * ww)) by (nonlinear_arith)
        requires
            g == 128 * w,
            ww == w * w,
            high == 128 * q + 64,
    ;
    assert(((2 * q - 1) * g) * ((2 * q - 1) * g) == 4 * ((low * low) * ww)) by (nonlinear_arith)
        requires
            g == 128 * w,
            ww == w * w,
            low == 128 * q - 64,
    ;
    assert(ww > 0) by (nonlinear_arith)
        requires
            ww == w * w,
            w > 0,
    ;
    assert((2 * q + 1) * g == 2 * um + g && (2 * q - 1) * g == 2 * um - g) by (nonlinear_arith)
        requires
            um == q * g,
    ;
    assert(um >= 0 && g > 0);
    lemma_scale_le(x, high * high, ww);
    lemma_square_le(2 * um + g, above);
    assert(4 * v <= above * above);
    if q > 0x80_0000 {
        lemma_scale_le(low * low, x, ww);
        assert(below == 2 * um - g);
        assert(below * below <= 4 * v);
        if q % 2 == 1 {
            lemma_scale_lt(low * low, x, ww);
            lemma_scale_lt(x, high * high, ww);
            assert(below * below < 4 * v);
            assert(4 * v < (2 * um + g) * (2 * um + g));
        }
    } else {
        // at the bottom of its exponent the root is not below the pattern itself
        assert((2 * um) * (2 * um) <= 4 * (x * ww)) by (nonlinear_arith)
            requires
                um == 0x80_0000 * g,
                g == 128 * w,
                ww == w * w,
                x >= 0x1000_0000_0000_0000,
                ww > 0,
        ;
        assert(0 <= below <= 2 * um);
        lemma_square_le(below, 2 * um);
    }
}

/// Square root rounds correctly: the root of a positive finite number is
/// positive, and its magnitude is the one nearest to the square root of
/// the magnitude of the operand, ties to even.
pub proof fn lemma_sqrt_correctly_rounded(a: u32)
    requires
        sign_of(a) == 0,
        is_finite(a),
        !is_zero(a),
    ensures
        0 <= f32_sqrt_spec(a) < 0x7F80_0000,
        is_nearest_even_root(f32_sqrt_spec(a), units(a) * pow2(149)),
{
    lemma_fields_compose(a);
    lemma_norm_bounds(a);
    let exp = sqrt_exp(a);
    let x = sqrt_radicand(a);
    let root = int_sqrt(x);
    assert(0x1000_0000_0000_0000 <= x < 0x4000_0000_0000_0000);
    lemma_int_sqrt_exists(x);
    lemma_root_bounds(x, root);
    let sig = if root * root != x && root % 2 == 0 {
        root + 1
    } else {
        root
    };
    lemma_sqrt_weight(a);
    assert(f32_sqrt_spec(a) == round_pack_spec(0, exp, sig));
    lemma_round_half_even_bounds(sig);
    let q = round_half_even(sig);
    assert(f32_sqrt_spec(a) == exp * 0x80_0000 + q);
    lemma_root_brackets(x, root, sig);
    let w = pow2((exp - 7) as nat) as int;
    lemma_root_nearest(exp, q, x, w, units(a) * pow2(149));
}

/// There is only one pattern nearest to a root.
pub proof fn lemma_nearest_even_root_unique(m1: int, m2: int, v: int)
    requires
        is_nearest_even_root(m1, v),
        is_nearest_even_root(m2, v),
    ensures
        m1 == m2,
{
    lemma_root_not_above(m1, m2, v);
    lemma_root_not_above(m2, m1, v);
}

/// Of two patterns nearest to a root the second does not exceed the
/// first.
proof fn lemma_root_not_above(m1: int, m2: int, v: int)
    requires
        is_nearest_even_root(m1, v),
        is_nearest_even_root(m2, v),
    ensures
        m2 <= m1,
{
    if m1 < m2 {
        let up = units_of(m1) + units_of(m1 + 1);
        let low = units_of(m2 - 1) + units_of(m2);
        lemma_units_step(m1);
        lemma_units_step(m2 - 1);
        if m1 + 1 < m2 {
            lemma_units_increase(m1, m2 - 1);
            lemma_units_increase(m1 + 1, m2);
            lemma_square_lt(up, low);
        } else {
            assert(up == low);
        }
    }
}

} // verus!
