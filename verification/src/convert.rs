//! Rounding to an integral value, and conversions from and to `i32`.

use vstd::prelude::*;
use vstd::arithmetic::power2::{
    pow2, lemma2_to64, lemma_pow2_pos, lemma_pow2_strictly_increases, lemma_pow2_unfold,
};
use vstd::bits::{lemma_u32_shl_is_mul, lemma_u32_shr_is_div};
use crate::bits::{
    bits_of, exp_of, f32_exp, f32_frac, f32_is_nan, f32_pack, f32_sign, frac_of, is_nan, magnitude,
    sign_of,
};
use crate::nan::{f32_propagate_nan, propagate_nan_spec, quieted, lemma_propagate_nan_is_nan};
use crate::shift::{
    bit_length, f32_count_leading_zero, lemma_bit_length_bounds, lemma_bit_length_u32,
};

verus! {

/// The pattern rounded to an integral value, to nearest with ties to
/// even.
///
/// Below one half the result is a zero of the same sign, from one half to
/// one it is zero (for one half itself) or one. From `2^23` on every
/// number is integral already. In between, `unit` is the weight that the
/// value 1 has in the pattern: half of it is added, and the pattern is
/// cut down to a multiple of `unit`, or of twice `unit` in a tie. A NaN
/// comes back with its quiet bit set.
pub open spec fn f32_round_spec(a: u32) -> int {
    let exp = exp_of(a);
    if exp <= 0x7E {
        if magnitude(a) == 0 {
            a as int
        } else if exp == 0x7E && frac_of(a) != 0 {
            bits_of(sign_of(a), 0x7F, 0)
        } else {
            bits_of(sign_of(a), 0, 0)
        }
    } else if exp >= 0x96 {
        if is_nan(a) {
            propagate_nan_spec(a, a) as int
        } else {
            a as int
        }
    } else {
        let unit = pow2((0x96 - exp) as nat) as int;
        cut_of(a + unit / 2, unit)
    }
}

/// The sign bit alone, and the pattern of one with that sign, in arithmetic.
proof fn lemma_round_small(a: u32)
    by (bit_vector)
    ensures
        (a << 1 == 0) <==> a % 0x8000_0000 == 0,
        a & 0x8000_0000 == (a / 0x8000_0000) * 0x8000_0000,
        (a & 0x8000_0000) | 0x3F80_0000 == (a / 0x8000_0000) * 0x8000_0000 + 0x3F80_0000,
{
}

/// Clearing the bits below a unit, and the unit bit with them, in arithmetic.
proof fn lemma_round_masks(r: u32, k: u32, unit: u32, low: u32, both: u32)
    by (bit_vector)
    requires
        1 <= k <= 23,
        unit == 1u32 << k,
        low == unit - 1,
        both == unit * 2 - 1,
    ensures
        unit >> 1 == unit / 2,
        r & !low == r - (r & low),
        (r & !unit) & !low == r - (r & both),
{
}

/// Rounds a number to the nearest integral value, ties to even.
pub fn f32_round(a: u32) -> (r: u32)
    ensures
        r == f32_round_spec(a),
        is_nan(a) ==> is_nan(r) && r == quieted(a),
        !is_nan(a) ==> sign_of(r) == sign_of(a) && !is_nan(r) && is_integral(r) && integer_part(r)
            == nearest_integer(a),
{
    proof {
        if !is_nan(a) {
            lemma_round_is_nearest_integer(a);
        } else {
            lemma_propagate_nan_is_nan(a, a);
        }
    }
    let a_exp = f32_exp(a);
    let a_frac = f32_frac(a);

    if a_exp <= 0x7E {
        proof {
            lemma_round_small(a);
        }
        if (a << 1) == 0 {
            return a;
        }
        let mut z = a & 0x8000_0000;
        if a_frac != 0 && a_exp == 0x7E {
            z = z | 0x3F80_0000;
        }
        return z;
    }
    if 0x96 <= a_exp {
        if a_exp == 0xFF && a_frac != 0 {
            return f32_propagate_nan(a, a);
        }
        return a;
    }
    let dist = (0x96 - a_exp) as u32;
    proof {
        lemma2_to64();
        lemma_pow2_pos(dist as nat);
        lemma_pow2_strictly_increases(dist as nat, 24);
        lemma_pow2_unfold((dist + 1) as nat);
        lemma_u32_shl_is_mul(1, dist);
    }
    let last_bit_mask: u32 = 1u32 << dist;
    let round_bits_mask = last_bit_mask - 1;
    proof {
        lemma_round_masks(0, dist, last_bit_mask, round_bits_mask, (2 * last_bit_mask - 1) as u32);
    }
    let mut r = a + (last_bit_mask >> 1);
    proof {
        lemma_round_masks(r, dist, last_bit_mask, round_bits_mask, (2 * last_bit_mask - 1) as u32);
        vstd::bits::lemma_u32_low_bits_mask_is_mod(r, dist as nat);
        vstd::bits::lemma_u32_low_bits_mask_is_mod(r, (dist + 1) as nat);
    }
    if (r & round_bits_mask) == 0 {
        r = r & !last_bit_mask;
    }
    r = r & !round_bits_mask;
    r
}

/// Magnitude of an `i32`, as a natural number.
pub open spec fn abs_of(n: int) -> nat {
    if n < 0 {
        (-n) as nat
    } else {
        n as nat
    }
}

/// The pattern made from an integer.
///
/// Zero gives positive zero. Otherwise the magnitude is shifted so that
/// its leading one comes to stand at bit 23, which makes it the implicit
/// bit; the exponent is the position that the leading one had, plus the
/// bias. A magnitude of more than 24 bits loses its low bits.
pub open spec fn from_int32_spec(n: i32) -> int {
    if n == 0 {
        0
    } else {
        let mag = abs_of(n as int);
        let len = bit_length(mag);
        let sig = if len <= 24 {
            mag * pow2((24 - len) as nat)
        } else {
            mag / pow2((len - 24) as nat)
        };
        bits_of(
            if n < 0 {
                1
            } else {
                0
            },
            len - 1 + 0x7F,
            sig - 0x80_0000,
        )
    }
}

/// The shifted magnitude has its leading one at bit 23.
pub proof fn lemma_from_int32_sig(mag: nat)
    requires
        0 < mag <= 0x8000_0000,
    ensures
        1 <= bit_length(mag) <= 32,
        bit_length(mag) <= 24 ==> 0x80_0000 <= mag * pow2((24 - bit_length(mag)) as nat)
            < 0x100_0000,
        bit_length(mag) > 24 ==> 0x80_0000 <= mag / pow2((bit_length(mag) - 24) as nat)
            < 0x100_0000,
{
    lemma2_to64();
    lemma_bit_length_u32(mag as u32);
    lemma_bit_length_bounds(mag);
    let len = bit_length(mag);
    if len <= 24 {
        let s = (24 - len) as nat;
        crate::shift::lemma_bit_length_scaled(mag, s);
        lemma_bit_length_bounds(mag * pow2(s));
    } else {
        let s = (len - 24) as nat;
        let d = pow2(s) as int;
        lemma_pow2_pos(s);
        vstd::arithmetic::power2::lemma_pow2_adds(23, s);
        vstd::arithmetic::power2::lemma_pow2_adds(24, s);
        vstd::arithmetic::div_mod::lemma_fundamental_div_mod(mag as int, d);
        let q = mag as int / d;
        let m = mag as int % d;
        assert(0x80_0000 <= q < 0x100_0000) by (nonlinear_arith)
            requires
                mag == d * q + m,
                0 <= m < d,
                0x80_0000 * d <= mag < 0x100_0000 * d,
                d > 0,
        ;
    }
}

/// Converts an integer to the number of the same value. Integers of more
/// than 24 significant bits keep their 24 leading bits.
pub fn from_int32(a: i32) -> (r: u32)
    ensures
        r == from_int32_spec(a),
        !is_nan(r),
        is_integral(r),
        sign_of(r) == (if a < 0 {
            1int
        } else {
            0int
        }),
        integer_part(r) == leading_24_bits(abs_of(a as int)),
{
    proof {
        lemma_from_int32_value(a);
    }
    if a == 0 {
        return 0;
    }
    let frac: u32 = if a == i32::MIN {
        0x8000_0000
    } else if a < 0 {
        (-a) as u32
    } else {
        a as u32
    };
    proof {
        lemma_from_int32_sig(frac as nat);
        lemma_bit_length_u32(frac);
    }
    let leading_zero = f32_count_leading_zero(frac);
    let shift = 32 - leading_zero - 1;
    let exp = shift + 0x7F;
    let sign = if a < 0 {
        1
    } else {
        0
    };
    let sig = if shift <= 23 {
        proof {
            lemma_u32_shl_is_mul(frac, (23 - shift) as u32);
        }
        frac << ((23 - shift) as u32)
    } else {
        proof {
            lemma_u32_shr_is_div(frac, (shift - 23) as u32);
        }
        frac >> ((shift - 23) as u32)
    };
    f32_pack(sign, exp, sig as i32)
}

/// Significand of a pattern: the fraction, with the implicit one in front
/// unless the exponent field is zero.
pub open spec fn significand(a: u32) -> int {
    if exp_of(a) == 0 {
        frac_of(a)
    } else {
        0x80_0000 + frac_of(a)
    }
}

/// The power of two that scales the significand: the magnitude of a
/// finite number is `significand * 2^(scale_exp - 150)`.
pub open spec fn scale_exp(a: u32) -> int {
    if exp_of(a) == 0 {
        1
    } else {
        exp_of(a)
    }
}

/// `n / d` rounded to the nearest integer, a tie going to the even one.
pub open spec fn div_round_half_even(n: int, d: int) -> int {
    let q = n / d;
    let m = n % d;
    if 2 * m > d || (2 * m == d && q % 2 == 1) {
        q + 1
    } else {
        q
    }
}

/// The magnitude of a number, rounded to the nearest integer, ties to
/// even. For infinity this is `2^128`.
pub open spec fn nearest_integer(a: u32) -> int {
    if scale_exp(a) >= 150 {
        significand(a) * pow2((scale_exp(a) - 150) as nat)
    } else {
        div_round_half_even(significand(a), pow2((150 - scale_exp(a)) as nat) as int)
    }
}

/// The integer part of the magnitude of a number.
pub open spec fn integer_part(a: u32) -> int {
    if scale_exp(a) >= 150 {
        significand(a) * pow2((scale_exp(a) - 150) as nat)
    } else {
        significand(a) / (pow2((150 - scale_exp(a)) as nat) as int)
    }
}

/// The number has no fractional part.
pub open spec fn is_integral(a: u32) -> bool {
    scale_exp(a) < 150 ==> significand(a) % (pow2((150 - scale_exp(a)) as nat) as int) == 0
}

/// An integer magnitude with all but its 24 leading bits cleared.
pub open spec fn leading_24_bits(mag: nat) -> int {
    if bit_length(mag) <= 24 {
        mag as int
    } else {
        mag - mag % pow2((bit_length(mag) - 24) as nat)
    }
}

/// The integer nearest to a number, ties to even, held to the range of
/// `i32`; the largest `i32` for a NaN.
pub open spec fn to_int32_spec(a: u32) -> int {
    if is_nan(a) {
        i32::MAX as int
    } else if sign_of(a) == 0 {
        if nearest_integer(a) > i32::MAX {
            i32::MAX as int
        } else {
            nearest_integer(a)
        }
    } else {
        if -nearest_integer(a) < i32::MIN {
            i32::MIN as int
        } else {
            -nearest_integer(a)
        }
    }
}

/// Adding half a unit to `base + sig` and cutting the sum down to a
/// multiple of the unit, or of two units in a tie, rounds `sig` to the
/// nearest multiple of the unit, ties to even. `base` is a multiple of
/// two units.
proof fn lemma_round_to_unit(c: int, sig: int, half: int)
    requires
        half >= 1,
        sig >= 0,
    ensures
        ({
            let unit = 2 * half;
            let base = c * (2 * unit);
            let raised = base + sig + half;
            cut_of(raised, unit) == base + div_round_half_even(sig, unit) * unit
        }),
{
    let unit = 2 * half;
    let base = c * (2 * unit);
    let raised = base + sig + half;
    let q = sig / unit;
    let m = sig % unit;
    let cut = cut_of(raised, unit);
    vstd::arithmetic::div_mod::lemma_fundamental_div_mod(sig, unit);
    if m + half < unit {
        assert(raised == (2 * c + q) * unit + (m + half)) by (nonlinear_arith)
            requires
                raised == c * (2 * unit) + sig + half,
                sig == unit * q + m,
        ;
        vstd::arithmetic::div_mod::lemma_fundamental_div_mod_converse(
            raised,
            unit,
            2 * c + q,
            m + half,
        );
        assert(cut == base + q * unit) by (nonlinear_arith)
            requires
                cut == raised - (m + half),
                raised == (2 * c + q) * unit + (m + half),
                base == c * (2 * unit),
        ;
    } else if m + half > unit {
        assert(raised == (2 * c + q + 1) * unit + (m + half - unit)) by (nonlinear_arith)
            requires
                raised == c * (2 * unit) + sig + half,
                sig == unit * q + m,
        ;
        vstd::arithmetic::div_mod::lemma_fundamental_div_mod_converse(
            raised,
            unit,
            2 * c + q + 1,
            m + half - unit,
        );
        assert(cut == base + (q + 1) * unit) by (nonlinear_arith)
            requires
                cut == raised - (m + half - unit),
                raised == (2 * c + q + 1) * unit + (m + half - unit),
                base == c * (2 * unit),
        ;
    } else {
        assert(raised == (2 * c + q + 1) * unit + 0) by (nonlinear_arith)
            requires
                raised == c * (2 * unit) + sig + half,
                sig == unit * q + m,
                m + half == unit,
        ;
        vstd::arithmetic::div_mod::lemma_fundamental_div_mod_converse(
            raised,
            unit,
            2 * c + q + 1,
            0,
        );
        let up = (q + 1) / 2;
        if (q + 1) % 2 == 0 {
            assert(raised == (c + up) * (2 * unit) + 0) by (nonlinear_arith)
                requires
                    raised == (2 * c + q + 1) * unit + 0,
                    q + 1 == 2 * up,
            ;
            vstd::arithmetic::div_mod::lemma_fundamental_div_mod_converse(
                raised,
                2 * unit,
                c + up,
                0,
            );
            assert(cut == base + (q + 1) * unit) by (nonlinear_arith)
                requires
                    cut == raised,
                    raised == (2 * c + q + 1) * unit + 0,
                    base == c * (2 * unit),
            ;
        } else {
            assert(raised == (c + up) * (2 * unit) + unit) by (nonlinear_arith)
                requires
                    raised == (2 * c + q + 1) * unit + 0,
                    q + 1 == 2 * up + 1,
            ;
            vstd::arithmetic::div_mod::lemma_fundamental_div_mod_converse(
                raised,
                2 * unit,
                c + up,
                unit,
            );
            assert(cut == base + q * unit) by (nonlinear_arith)
                requires
                    cut == raised - unit,
                    raised == (2 * c + q + 1) * unit + 0,
                    base == c * (2 * unit),
            ;
        }
    }
}

/// A pattern with half a unit added, cut down to a multiple of the unit,
/// or of two units where it already is a multiple of one.
pub open spec fn cut_of(raised: int, unit: int) -> int {
    if raised % unit == 0 {
        raised - raised % (2 * unit)
    } else {
        raised - raised % unit
    }
}

/// What rounding to an integral value means for the value: the result
/// keeps the sign, is no NaN, has no fractional part, and its magnitude
/// is the integer nearest to the magnitude of the operand, ties to even.
pub proof fn lemma_round_is_nearest_integer(a: u32)
    requires
        !is_nan(a),
    ensures
        0 <= f32_round_spec(a) <= u32::MAX,
        sign_of(f32_round_spec(a) as u32) == sign_of(a),
        !is_nan(f32_round_spec(a) as u32),
        integer_part(f32_round_spec(a) as u32) == nearest_integer(a),
        is_integral(f32_round_spec(a) as u32),
{
    let e = exp_of(a);
    let f = frac_of(a);
    let s = sign_of(a);
    lemma2_to64();
    if e <= 0x7E {
        let d = pow2((150 - scale_exp(a)) as nat) as int;
        if scale_exp(a) < 126 {
            lemma_pow2_strictly_increases(24, (150 - scale_exp(a)) as nat);
        }
        let sig = significand(a);
        vstd::arithmetic::div_mod::lemma_fundamental_div_mod_converse(sig, d, 0, sig);
        let p = f32_round_spec(a) as u32;
        if e == 0x7E && f != 0 {
            assert(p == bits_of(s, 0x7F, 0));
            assert(exp_of(p) == 0x7F && frac_of(p) == 0);
            assert(0x80_0000int / 0x80_0000 == 1 && 0x80_0000int % 0x80_0000 == 0);
        } else {
            assert(significand(p) == 0);
            let dp = pow2(149) as int;
            lemma_pow2_pos(149);
            vstd::arithmetic::div_mod::lemma_fundamental_div_mod_converse(0, dp, 0, 0);
            if e == 0x7E {
            } else {
                if scale_exp(a) < 125 {
                    lemma_pow2_strictly_increases(25, (150 - scale_exp(a)) as nat);
                }
            }
        }
    } else if e >= 0x96 {
    } else {
        let k = (150 - e) as nat;
        let unit = pow2(k) as int;
        let half = pow2((k - 1) as nat) as int;
        lemma_pow2_unfold(k);
        lemma_pow2_pos((k - 1) as nat);
        let sig = 0x80_0000 + f;
        let c = if k <= 22 {
            s * pow2((30 - k) as nat) + (e - 1) * pow2((22 - k) as nat)
        } else {
            s * 128 + 63
        };
        let base = s * 0x8000_0000 + (e - 1) * 0x80_0000;
        if k <= 22 {
            vstd::arithmetic::power2::lemma_pow2_adds((30 - k) as nat, k + 1);
            vstd::arithmetic::power2::lemma_pow2_adds((22 - k) as nat, k + 1);
            lemma_pow2_unfold(k + 1);
            let x = pow2((30 - k) as nat) as int;
            let y = pow2((22 - k) as nat) as int;
            assert(c * (2 * unit) == base) by (nonlinear_arith)
                requires
                    c == s * x + (e - 1) * y,
                    x * (2 * unit) == 0x8000_0000,
                    y * (2 * unit) == 0x80_0000,
                    base == s * 0x8000_0000 + (e - 1) * 0x80_0000,
            ;
        }
        if k == 23 {
            assert(unit == 0x80_0000 && e == 127);
            assert(c * (2 * unit) == base) by (nonlinear_arith)
                requires
                    c == s * 128 + 63,
                    unit == 0x80_0000,
                    base == s * 0x8000_0000 + 126 * 0x80_0000,
            ;
        }
        lemma_round_to_unit(c, sig, half);
        assert(a + unit / 2 == base + sig + half);
        let n = div_round_half_even(sig, unit);
        assert(f32_round_spec(a) == base + n * unit);
        // the rounded significand lies between 2^23 and 2^24
        let lo = pow2((23 - k) as nat) as int;
        vstd::arithmetic::power2::lemma_pow2_adds((23 - k) as nat, k);
        vstd::arithmetic::div_mod::lemma_fundamental_div_mod(sig, unit);
        let q = sig / unit;
        let m = sig % unit;
        assert(lo <= q < 2 * lo) by (nonlinear_arith)
            requires
                sig == unit * q + m,
                0 <= m < unit,
                lo * unit == 0x80_0000,
                0x80_0000 <= sig < 0x100_0000,
                unit > 0,
        ;
        let r = n * unit;
        assert(0x80_0000 <= r <= 0x100_0000 && (r == 0x100_0000 <==> n == 2 * lo))
            by (nonlinear_arith)
            requires
                r == n * unit,
                lo <= n <= 2 * lo,
                lo * unit == 0x80_0000,
                unit > 0,
        ;
        let p = f32_round_spec(a) as u32;
        if r < 0x100_0000 {
            assert(p == bits_of(s, e, r - 0x80_0000));
            assert(exp_of(p) == e && frac_of(p) == r - 0x80_0000 && sign_of(p) == s);
            assert((n * unit) / unit == n && (n * unit) % unit == 0) by (nonlinear_arith)
                requires
                    unit > 0,
            ;
        } else {
            assert(p == bits_of(s, e + 1, 0));
            assert(exp_of(p) == e + 1 && frac_of(p) == 0 && sign_of(p) == s);
            if k == 1 {
            } else {
                assert(n * half == 0x80_0000) by (nonlinear_arith)
                    requires
                        n * unit == 0x100_0000,
                        unit == 2 * half,
                ;
                assert((n * half) / half == n && (n * half) % half == 0) by (nonlinear_arith)
                    requires
                        half > 0,
                ;
            }
        }
    }
}

/// Converts a number to the nearest integer, ties to even. A result
/// outside the range of `i32` becomes the nearest bound of that range,
/// and a NaN the largest `i32`.
pub fn to_int32(a: u32) -> (r: i32)
    ensures
        r == to_int32_spec(a),
{
    if f32_is_nan(a) {
        return i32::MAX;
    }
    proof {
        lemma_round_is_nearest_integer(a);
        lemma2_to64();
    }
    let p = f32_round(a);
    let sign = f32_sign(p);
    let exp = f32_exp(p);
    let frac = f32_frac(p) as u32;
    let ghost n = nearest_integer(a);

    if exp < 0x7F {
        proof {
            // an integral value below one is zero
            let d = pow2((150 - scale_exp(p)) as nat) as int;
            lemma_pow2_pos((150 - scale_exp(p)) as nat);
            if scale_exp(p) < 126 {
                lemma_pow2_strictly_increases(24, (150 - scale_exp(p)) as nat);
            }
            vstd::arithmetic::div_mod::lemma_fundamental_div_mod_converse(
                significand(p),
                d,
                0,
                significand(p),
            );
        }
        return 0;
    }
    let sig = frac + 0x0080_0000;
    if exp >= 0x9E {
        proof {
            let d = pow2((exp - 150) as nat) as int;
            if exp > 0x9E {
                lemma_pow2_strictly_increases(8, (exp - 150) as nat);
            }
            assert(sig * d >= 0x8000_0000) by (nonlinear_arith)
                requires
                    sig >= 0x80_0000,
                    d >= 0x100,
            ;
        }
        return if sign != 0 {
            i32::MIN
        } else {
            i32::MAX
        };
    }
    let mag: u32 = if exp >= 0x96 {
        proof {
            let d = pow2((exp - 150) as nat) as int;
            if exp < 0x9D {
                lemma_pow2_strictly_increases((exp - 150) as nat, 7);
            }
            lemma_pow2_pos((exp - 150) as nat);
            assert(sig * d < 0x8000_0000) by (nonlinear_arith)
                requires
                    sig < 0x100_0000,
                    0 < d <= 0x80,
            ;
            lemma_u32_shl_is_mul(sig, (exp - 0x96) as u32);
        }
        sig << ((exp - 0x96) as u32)
    } else {
        proof {
            lemma_u32_shr_is_div(sig, (0x96 - exp) as u32);
        }
        sig >> ((0x96 - exp) as u32)
    };
    if sign != 0 {
        -(mag as i32)
    } else {
        mag as i32
    }
}

/// What the conversion from an integer means for the value: the result
/// is an integral number of the integer's sign, whose magnitude is that
/// of the integer with all but its 24 leading bits cleared.
pub proof fn lemma_from_int32_value(n: i32)
    ensures
        0 <= from_int32_spec(n) <= u32::MAX,
        !is_nan(from_int32_spec(n) as u32),
        is_integral(from_int32_spec(n) as u32),
        sign_of(from_int32_spec(n) as u32) == (if n < 0 {
            1int
        } else {
            0int
        }),
        integer_part(from_int32_spec(n) as u32) == leading_24_bits(abs_of(n as int)),
{
    lemma2_to64();
    if n == 0 {
        lemma_pow2_pos(149);
        let d = pow2(149) as int;
        vstd::arithmetic::div_mod::lemma_fundamental_div_mod_converse(0, d, 0, 0);
        assert(exp_of(0) == 0 && frac_of(0) == 0 && sign_of(0) == 0);
        assert(bit_length(0) == 0);
    } else {
        let mag = abs_of(n as int);
        let len = bit_length(mag);
        lemma_from_int32_sig(mag);
        let sig: int = if len <= 24 {
            (mag * pow2((24 - len) as nat)) as int
        } else {
            (mag / pow2((len - 24) as nat)) as int
        };
        let s: int = if n < 0 {
            1
        } else {
            0
        };
        let p = from_int32_spec(n) as u32;
        assert(from_int32_spec(n) == bits_of(s, len - 1 + 0x7F, sig - 0x80_0000));
        assert(exp_of(p) == len + 126 && frac_of(p) == sig - 0x80_0000 && sign_of(p) == s);
        if len > 24 {
            let d = pow2((len - 24) as nat) as int;
            lemma_pow2_pos((len - 24) as nat);
            vstd::arithmetic::div_mod::lemma_fundamental_div_mod(mag as int, d);
            assert(sig * d == mag - mag as int % d) by (nonlinear_arith)
                requires
                    mag == d * sig + mag as int % d,
            ;
        } else if len == 24 {
            assert(sig == mag * pow2(0));
            assert(integer_part(p) == sig * pow2(0));
        } else {
            let d = pow2((24 - len) as nat) as int;
            lemma_pow2_pos((24 - len) as nat);
            assert((mag * d) / d == mag && (mag * d) % d == 0) by (nonlinear_arith)
                requires
                    d > 0,
                    mag >= 0,
            ;
        }
    }
}

} // verus!
