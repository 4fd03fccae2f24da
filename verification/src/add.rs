//! Addition and subtraction.
//!
//! Both are built from two operations on magnitudes, each of which takes
//! the sign of its result from the first operand: the sum of the
//! magnitudes, and their difference. Addition of operands with unlike
//! signs is a difference of magnitudes, subtraction of operands with
//! unlike signs a sum.

use vstd::prelude::*;
use vstd::arithmetic::power2::{
    pow2, lemma2_to64, lemma_pow2_adds, lemma_pow2_pos, lemma_pow2_strictly_increases,
    lemma_pow2_unfold,
};
use crate::bits::{
    bits_of, exp_of, f32_exp, f32_frac, f32_pack_raw, f32_sign, frac_of, is_finite, is_nan,
    magnitude, sign_of, lemma_fields_compose, DEFAULT_NAN,
};
use crate::nan::{f32_propagate_nan, propagate_nan_spec, lemma_propagate_nan_is_nan};
use crate::nearest::{
    is_nearest_even, stands_for, units, units_ef, units_of, lemma_exact_is_nearest,
    lemma_jam_stands_for, lemma_nearest_same_value, lemma_round_pack_nearest,
    lemma_stands_for_coarser, lemma_stands_for_doubled, lemma_stands_for_itself,
    lemma_stands_for_offset, lemma_stands_for_reflected, lemma_stands_for_scaled,
    lemma_units_by_fields,
};
use crate::round::{
    f32_norm_round_and_pack, f32_pack_carry, f32_round_and_pack, norm_round_pack_spec,
    round_pack_spec, lemma_norm_shift, lemma_round_half_even_bounds, lemma_round_pack_range,
};
use crate::shift::{
    f32_shift_right_jam, leading_zeros, shift_right_jam_spec, lemma_double, lemma_jam_bounds,
    lemma_significand_shifts,
};

verus! {

/// The significand of the operand with the smaller exponent, scaled by
/// `unit` and with its leading one (or, for a subnormal number, doubled
/// instead), then shifted right with jamming by the exponent distance.
pub open spec fn aligned_sig(exp: int, frac: int, unit: int, dist: int) -> int {
    shift_right_jam_spec(
        if exp != 0 {
            0x80_0000 * unit + frac * unit
        } else {
            frac * unit * 2
        },
        dist as nat,
    )
}

/// Sum of two magnitudes whose exponents differ; `hi` names the operand
/// with the larger exponent.
pub open spec fn add_aligned_spec(
    sign: int,
    a: u32,
    b: u32,
    exp_hi: int,
    frac_hi: int,
    exp_lo: int,
    frac_lo: int,
) -> int {
    if exp_hi == 0xFF {
        if frac_hi != 0 {
            propagate_nan_spec(a, b) as int
        } else {
            bits_of(sign, 0xFF, 0)
        }
    } else {
        let sum = 0x2000_0000 + frac_hi * 0x40 + aligned_sig(
            exp_lo,
            frac_lo,
            0x40,
            exp_hi - exp_lo,
        );
        if sum < 0x4000_0000 {
            round_pack_spec(sign, exp_hi - 1, sum * 2)
        } else {
            round_pack_spec(sign, exp_hi, sum)
        }
    }
}

/// Sum of the magnitudes of `a` and `b`, with the sign of `a`.
pub open spec fn add_mags_spec(a: u32, b: u32) -> int {
    let sign = sign_of(a);
    if exp_of(a) == exp_of(b) {
        if exp_of(a) == 0 {
            bits_of(sign, 0, 0) + frac_of(a) + frac_of(b)
        } else if exp_of(a) == 0xFF {
            if frac_of(a) != 0 || frac_of(b) != 0 {
                propagate_nan_spec(a, b) as int
            } else {
                bits_of(sign, 0xFF, 0)
            }
        } else {
            round_pack_spec(sign, exp_of(a), (0x100_0000 + frac_of(a) + frac_of(b)) * 0x40)
        }
    } else if exp_of(a) < exp_of(b) {
        add_aligned_spec(sign, a, b, exp_of(b), frac_of(b), exp_of(a), frac_of(a))
    } else {
        add_aligned_spec(sign, a, b, exp_of(a), frac_of(a), exp_of(b), frac_of(b))
    }
}

/// Difference of two magnitudes whose exponents differ; `hi` names the
/// operand with the larger exponent, whose sign the result has.
pub open spec fn sub_aligned_spec(
    sign: int,
    a: u32,
    b: u32,
    exp_hi: int,
    frac_hi: int,
    exp_lo: int,
    frac_lo: int,
) -> int {
    if exp_hi == 0xFF {
        if frac_hi != 0 {
            propagate_nan_spec(a, b) as int
        } else {
            bits_of(sign, 0xFF, 0)
        }
    } else {
        norm_round_pack_spec(
            sign,
            exp_hi - 1,
            (0x4000_0000 + frac_hi * 0x80 - aligned_sig(exp_lo, frac_lo, 0x80, exp_hi - exp_lo))
                as u32,
        )
    }
}

/// Magnitude of `a` less magnitude of `b`, with the sign of `a` where the
/// magnitude of `a` is the larger, and the opposite sign where it is the
/// smaller. Equal magnitudes give positive zero; two infinities are an
/// invalid operation and give the default NaN.
pub open spec fn sub_mags_spec(a: u32, b: u32) -> int {
    let sign = sign_of(a);
    if exp_of(a) == exp_of(b) {
        if exp_of(a) == 0xFF {
            if frac_of(a) != 0 || frac_of(b) != 0 {
                propagate_nan_spec(a, b) as int
            } else {
                DEFAULT_NAN as int
            }
        } else if frac_of(a) == frac_of(b) {
            0
        } else {
            let exp = if exp_of(a) == 0 {
                1
            } else {
                exp_of(a)
            };
            if frac_of(a) > frac_of(b) {
                norm_round_pack_spec(sign, exp - 1, ((frac_of(a) - frac_of(b)) * 0x80) as u32)
            } else {
                norm_round_pack_spec(1 - sign, exp - 1, ((frac_of(b) - frac_of(a)) * 0x80) as u32)
            }
        }
    } else if exp_of(a) > exp_of(b) {
        sub_aligned_spec(sign, a, b, exp_of(a), frac_of(a), exp_of(b), frac_of(b))
    } else {
        sub_aligned_spec(1 - sign, a, b, exp_of(b), frac_of(b), exp_of(a), frac_of(a))
    }
}

/// The sum `a + b`.
pub open spec fn f32_add_spec(a: u32, b: u32) -> int {
    if sign_of(a) == sign_of(b) {
        add_mags_spec(a, b)
    } else {
        sub_mags_spec(a, b)
    }
}

/// The difference `a - b`.
pub open spec fn f32_sub_spec(a: u32, b: u32) -> int {
    if sign_of(a) == sign_of(b) {
        sub_mags_spec(a, b)
    } else {
        add_mags_spec(a, b)
    }
}

/// Setting bit 30 of a smaller value adds `2^30`.
proof fn lemma_implicit_bit(x: u32)
    by (bit_vector)
    requires
        x < 0x4000_0000,
    ensures
        x | 0x4000_0000 == x + 0x4000_0000,
{
}

/// The bitwise or of two values is zero only where both are.
proof fn lemma_either_fraction(x: u32, y: u32)
    by (bit_vector)
    ensures
        x | y != 0 <==> x != 0 || y != 0,
{
}

/// The aligned significand of the smaller operand stays below the
/// implicit bit of the larger one.
pub proof fn lemma_aligned_sig_bounds(exp: int, frac: int, unit: int, dist: int)
    requires
        0 <= frac < 0x80_0000,
        unit == 0x40 || unit == 0x80,
        dist >= 1,
    ensures
        0 <= aligned_sig(exp, frac, unit, dist) < 0x80_0000 * unit,
{
    let wide = if exp != 0 {
        0x80_0000 * unit + frac * unit
    } else {
        frac * unit * 2
    };
    vstd::arithmetic::power2::lemma2_to64();
    vstd::arithmetic::power2::lemma_pow2_pos(dist as nat);
    if dist > 1 {
        vstd::arithmetic::power2::lemma_pow2_strictly_increases(1, dist as nat);
    }
    let d = vstd::arithmetic::power2::pow2(dist as nat) as int;
    let limit = 0x80_0000 * unit;
    assert(wide < limit * d) by (nonlinear_arith)
        requires
            wide < limit * 2,
            d >= 2,
            limit > 0,
    ;
    lemma_jam_bounds(wide, dist as nat, limit);
}

/// Adds the magnitudes of two operands and gives the sum the sign of the
/// first.
pub fn f32_add_mags(a: u32, b: u32) -> (r: u32)
    ensures
        r == add_mags_spec(a, b),
{
    let r_sign = f32_sign(a);
    let a_exp = f32_exp(a);
    let b_exp = f32_exp(b);
    let mut a_frac = f32_frac(a) as u32;
    let mut b_frac = f32_frac(b) as u32;
    let mut r_exp: i32;
    let mut r_frac: u32;

    let diff_exp = a_exp - b_exp;

    if diff_exp == 0 {
        if a_exp == 0 {
            return f32_pack_carry(r_sign, 0, a_frac + b_frac);
        }
        if a_exp == 0xFF {
            proof {
                lemma_either_fraction(a_frac, b_frac);
            }
            if (a_frac | b_frac) != 0 {
                return f32_propagate_nan(a, b);
            }
            return f32_pack_raw(r_sign, 0xFF, 0);
        }
        r_exp = a_exp;
        r_frac = 0x0100_0000 + a_frac + b_frac;
        proof {
            lemma_significand_shifts(r_frac);
            lemma_round_half_even_bounds(r_frac * 0x40);
        }
        if (r_frac & 1) == 0 && r_exp < 0xFE {
            return f32_pack_carry(r_sign, r_exp, r_frac >> 1);
        }
        r_frac = r_frac << 6;
    } else {
        proof {
            lemma_significand_shifts(a_frac);
            lemma_significand_shifts(b_frac);
        }
        a_frac = a_frac << 6;
        b_frac = b_frac << 6;

        if diff_exp < 0 {
            if b_exp == 0xFF {
                if b_frac != 0 {
                    return f32_propagate_nan(a, b);
                }
                return f32_pack_raw(r_sign, 0xFF, 0);
            }
            r_exp = b_exp;
            a_frac = a_frac + if a_exp != 0 {
                0x2000_0000
            } else {
                a_frac
            };
            proof {
                lemma_aligned_sig_bounds(a_exp as int, frac_of(a), 0x40, -diff_exp as int);
            }
            a_frac = f32_shift_right_jam(a_frac, (-diff_exp) as u32);
        } else {
            if a_exp == 0xFF {
                if a_frac != 0 {
                    return f32_propagate_nan(a, b);
                }
                return f32_pack_raw(r_sign, 0xFF, 0);
            }
            r_exp = a_exp;
            b_frac = b_frac + if b_exp != 0 {
                0x2000_0000
            } else {
                b_frac
            };
            proof {
                lemma_aligned_sig_bounds(b_exp as int, frac_of(b), 0x40, diff_exp as int);
            }
            b_frac = f32_shift_right_jam(b_frac, diff_exp as u32);
        }
        r_frac = 0x2000_0000 + a_frac + b_frac;

        if r_frac < 0x4000_0000 {
            proof {
                lemma_double(r_frac);
            }
            r_exp = r_exp - 1;
            r_frac = r_frac << 1;
        }
    }
    f32_round_and_pack(r_sign, r_exp, r_frac)
}

/// Subtracts the magnitude of the second operand from that of the first.
/// The result has the sign of the first operand where its magnitude is
/// the larger one, and the opposite sign otherwise.
pub fn f32_sub_mags(a: u32, b: u32) -> (r: u32)
    ensures
        r == sub_mags_spec(a, b),
{
    let mut r_sign = f32_sign(a);
    let mut a_exp = f32_exp(a);
    let mut b_exp = f32_exp(b);
    let mut a_frac = f32_frac(a) as u32;
    let mut b_frac = f32_frac(b) as u32;
    let r_exp: i32;
    let r_frac: u32;

    let diff_exp = a_exp - b_exp;

    proof {
        lemma_significand_shifts(a_frac);
        lemma_significand_shifts(b_frac);
    }
    a_frac = a_frac << 7;
    b_frac = b_frac << 7;

    if diff_exp == 0 {
        if a_exp == 0xFF {
            proof {
                lemma_either_fraction(a_frac, b_frac);
            }
            if (a_frac | b_frac) != 0 {
                return f32_propagate_nan(a, b);
            }
            return DEFAULT_NAN;
        }
        if a_exp == 0 {
            a_exp = 1;
            b_exp = 1;
        }
        if a_frac > b_frac {
            r_exp = a_exp;
            r_frac = a_frac - b_frac;
        } else if b_frac > a_frac {
            r_sign = 1 - r_sign;
            r_exp = b_exp;
            r_frac = b_frac - a_frac;
        } else {
            return f32_pack_raw(0, 0, 0);
        }
    } else if diff_exp > 0 {
        if a_exp == 0xFF {
            if a_frac != 0 {
                return f32_propagate_nan(a, b);
            }
            return f32_pack_raw(r_sign, 0xFF, 0);
        }
        b_frac = b_frac + if b_exp != 0 {
            0x4000_0000
        } else {
            b_frac
        };
        proof {
            lemma_aligned_sig_bounds(b_exp as int, frac_of(b), 0x80, diff_exp as int);
            lemma_implicit_bit(a_frac);
        }
        b_frac = f32_shift_right_jam(b_frac, diff_exp as u32);
        a_frac = a_frac | 0x4000_0000;

        r_exp = a_exp;
        r_frac = a_frac - b_frac;
    } else {
        r_sign = 1 - r_sign;
        if b_exp == 0xFF {
            if b_frac != 0 {
                return f32_propagate_nan(a, b);
            }
            return f32_pack_raw(r_sign, 0xFF, 0);
        }
        a_frac = a_frac + if a_exp != 0 {
            0x4000_0000
        } else {
            a_frac
        };
        proof {
            lemma_aligned_sig_bounds(a_exp as int, frac_of(a), 0x80, -diff_exp as int);
            lemma_implicit_bit(b_frac);
        }
        a_frac = f32_shift_right_jam(a_frac, (-diff_exp) as u32);
        b_frac = b_frac | 0x4000_0000;

        r_exp = b_exp;
        r_frac = b_frac - a_frac;
    }
    f32_norm_round_and_pack(r_sign, r_exp - 1, r_frac)
}

/// Adds two numbers.
///
/// Operands of like sign have their magnitudes added; operands of unlike
/// sign have them subtracted.
pub fn f32_add(a: u32, b: u32) -> (r: u32)
    ensures
        r == f32_add_spec(a, b),
        is_nan(a) || is_nan(b) ==> is_nan(r),
        is_finite(a) && is_finite(b) ==> is_rounded_sum(r, a, b, sign_of(b)),
{
    proof {
        if is_finite(a) && is_finite(b) {
            lemma_add_correctly_rounded(a, b);
        }
        if is_nan(a) || is_nan(b) {
            lemma_propagate_nan_is_nan(a, b);
        }
    }
    if f32_sign(a) != f32_sign(b) {
        f32_sub_mags(a, b)
    } else {
        f32_add_mags(a, b)
    }
}

/// Subtracts the second number from the first.
///
/// Operands of like sign have their magnitudes subtracted; operands of
/// unlike sign have them added.
pub fn f32_sub(a: u32, b: u32) -> (r: u32)
    ensures
        r == f32_sub_spec(a, b),
        is_nan(a) || is_nan(b) ==> is_nan(r),
        is_finite(a) && is_finite(b) ==> is_rounded_sum(r, a, b, 1 - sign_of(b)),
{
    proof {
        if is_finite(a) && is_finite(b) {
            lemma_sub_correctly_rounded(a, b);
        }
        if is_nan(a) || is_nan(b) {
            lemma_propagate_nan_is_nan(a, b);
        }
    }
    if f32_sign(a) != f32_sign(b) {
        f32_add_mags(a, b)
    } else {
        f32_sub_mags(a, b)
    }
}

/// `r` is the correctly rounded sum of `a` and of `b` taken with the sign
/// `sign_b`, both finite.
///
/// Where the two signs agree, `r` has that sign, and its magnitude is the
/// one nearest to the sum of the two magnitudes. Where they differ and
/// the magnitudes are equal, `r` is positive zero. Where they differ
/// otherwise, `r` has the sign of the operand of larger magnitude, and
/// its magnitude is the one nearest to the difference of the two.
pub open spec fn is_rounded_sum(r: u32, a: u32, b: u32, sign_b: int) -> bool {
    if sign_of(a) == sign_b {
        sign_of(r) == sign_of(a) && is_nearest_even(magnitude(r), units(a) + units(b), 1)
    } else if units(a) == units(b) {
        r == 0
    } else if units(a) > units(b) {
        sign_of(r) == sign_of(a) && is_nearest_even(magnitude(r), units(a) - units(b), 1)
    } else {
        sign_of(r) == sign_b && is_nearest_even(magnitude(r), units(b) - units(a), 1)
    }
}

/// The wide significand of the smaller operand, times the weight of the
/// larger exponent, is the magnitude of the smaller operand times the
/// power of two of the distance and the scale.
proof fn lemma_aligned_units(exp_hi: int, exp_lo: int, frac_lo: int, scale: int)
    requires
        0 <= exp_lo < exp_hi,
        0 <= frac_lo < 0x80_0000,
    ensures
        (if exp_lo != 0 {
            0x80_0000 * scale + frac_lo * scale
        } else {
            frac_lo * scale * 2
        }) * pow2((exp_hi - 1) as nat) == units_ef(exp_lo, frac_lo) * (pow2(
            (exp_hi - exp_lo) as nat,
        ) * scale),
        units_ef(exp_lo, frac_lo) < 0x80_0000 * pow2((exp_hi - 1) as nat),
{
    let gh = pow2((exp_hi - 1) as nat) as int;
    let p = pow2((exp_hi - exp_lo) as nat) as int;
    lemma_pow2_pos((exp_hi - 1) as nat);
    lemma2_to64();
    if exp_lo != 0 {
        let gl = pow2((exp_lo - 1) as nat) as int;
        lemma_pow2_pos((exp_lo - 1) as nat);
        lemma_pow2_adds((exp_lo - 1) as nat, (exp_hi - exp_lo) as nat);
        lemma_pow2_unfold((exp_hi - exp_lo) as nat);
        lemma_pow2_pos((exp_hi - exp_lo - 1) as nat);
        assert(gh == gl * p);
        let sig = 0x80_0000 + frac_lo;
        assert((0x80_0000 * scale + frac_lo * scale) * gh == (sig * gl) * (p * scale))
            by (nonlinear_arith)
            requires
                gh == gl * p,
                sig == 0x80_0000 + frac_lo,
        ;
        assert(sig * gl < 0x80_0000 * gh) by (nonlinear_arith)
            requires
                gh == gl * p,
                p >= 2,
                sig < 0x100_0000,
                gl > 0,
        ;
    } else {
        lemma_pow2_unfold(exp_hi as nat);
        assert(p == 2 * gh);
        assert((frac_lo * scale * 2) * gh == frac_lo * (p * scale)) by (nonlinear_arith)
            requires
                p == 2 * gh,
        ;
        assert(frac_lo < 0x80_0000 * gh) by (nonlinear_arith)
            requires
                frac_lo < 0x80_0000,
                gh >= 1,
        ;
    }
}

/// The sum of two magnitudes with unlike exponents is rounded correctly.
proof fn lemma_add_aligned_nearest(
    sign: int,
    a: u32,
    b: u32,
    exp_hi: int,
    frac_hi: int,
    exp_lo: int,
    frac_lo: int,
)
    requires
        0 <= sign <= 1,
        0 <= exp_lo < exp_hi < 0xFF,
        0 <= frac_hi < 0x80_0000,
        0 <= frac_lo < 0x80_0000,
    ensures
        0 <= add_aligned_spec(sign, a, b, exp_hi, frac_hi, exp_lo, frac_lo) <= u32::MAX,
        sign_of(add_aligned_spec(sign, a, b, exp_hi, frac_hi, exp_lo, frac_lo) as u32) == sign,
        is_nearest_even(
            add_aligned_spec(sign, a, b, exp_hi, frac_hi, exp_lo, frac_lo) - sign * 0x8000_0000,
            units_ef(exp_hi, frac_hi) + units_ef(exp_lo, frac_lo),
            1,
        ),
{
    lemma2_to64();
    let dist = (exp_hi - exp_lo) as nat;
    let p = pow2(dist) as int;
    lemma_pow2_pos(dist);
    let gh = pow2((exp_hi - 1) as nat) as int;
    lemma_pow2_pos((exp_hi - 1) as nat);
    let wide = if exp_lo != 0 {
        0x80_0000 * 0x40 + frac_lo * 0x40
    } else {
        frac_lo * 0x40 * 2
    };
    let low = aligned_sig(exp_lo, frac_lo, 0x40, exp_hi - exp_lo);
    lemma_aligned_sig_bounds(exp_lo, frac_lo, 0x40, exp_hi - exp_lo);
    lemma_jam_stands_for(wide, dist);
    let head = 0x2000_0000 + frac_hi * 0x40;
    lemma_stands_for_offset(low, wide, p, 2, head);
    let sum = head + low;
    let n = head * p + wide;
    let uh = units_ef(exp_hi, frac_hi);
    let ul = units_ef(exp_lo, frac_lo);
    lemma_aligned_units(exp_hi, exp_lo, frac_lo, 0x40);
    assert(head * gh == uh * 0x40) by (nonlinear_arith)
        requires
            head == (0x80_0000 + frac_hi) * 0x40,
            uh == (0x80_0000 + frac_hi) * gh,
    ;
    let result = add_aligned_spec(sign, a, b, exp_hi, frac_hi, exp_lo, frac_lo);
    if sum < 0x4000_0000 {
        lemma_stands_for_doubled(sum, n, p, 2);
        lemma_stands_for_coarser(2 * sum, 2 * n, p, 4, 16);
        lemma_round_pack_range(sign, exp_hi - 1, 2 * sum);
        lemma_round_pack_nearest(sign, exp_hi - 1, 2 * sum, 2 * n, p, (exp_hi - 1) as nat, 7);
        let n1 = (2 * n) * gh;
        let d1 = p * 128;
        assert(n1 * 1 == (uh + ul) * d1) by (nonlinear_arith)
            requires
                n1 == (2 * (head * p + wide)) * gh,
                d1 == p * 128,
                head * gh == uh * 0x40,
                wide * gh == ul * (p * 0x40),
        ;
        lemma_nearest_same_value(result - sign * 0x8000_0000, n1, d1, uh + ul, 1);
    } else {
        lemma_stands_for_coarser(sum, n, p, 2, 32);
        lemma_round_pack_range(sign, exp_hi, sum);
        lemma_round_pack_nearest(sign, exp_hi, sum, n, p, (exp_hi - 1) as nat, 6);
        let n1 = n * gh;
        let d1 = p * 64;
        assert(n1 * 1 == (uh + ul) * d1) by (nonlinear_arith)
            requires
                n1 == (head * p + wide) * gh,
                d1 == p * 64,
                head * gh == uh * 0x40,
                wide * gh == ul * (p * 0x40),
        ;
        lemma_nearest_same_value(result - sign * 0x8000_0000, n1, d1, uh + ul, 1);
    }
}

/// The sum of two magnitudes is rounded correctly: for finite operands,
/// the result has the sign of the first operand, and its magnitude is the
/// one nearest to the sum of the two magnitudes, ties to even.
pub proof fn lemma_add_mags_correctly_rounded(a: u32, b: u32)
    requires
        exp_of(a) != 0xFF,
        exp_of(b) != 0xFF,
    ensures
        0 <= add_mags_spec(a, b) <= u32::MAX,
        sign_of(add_mags_spec(a, b) as u32) == sign_of(a),
        is_nearest_even(magnitude(add_mags_spec(a, b) as u32), units(a) + units(b), 1),
{
    lemma2_to64();
    lemma_units_by_fields(a);
    lemma_units_by_fields(b);
    lemma_fields_compose(a);
    lemma_fields_compose(b);
    let sign = sign_of(a);
    let e = exp_of(a);
    let fa = frac_of(a);
    let fb = frac_of(b);
    if e == exp_of(b) {
        if e == 0 {
            let m = fa + fb;
            lemma_exact_is_nearest(m);
            if m >= 0x80_0000 {
                assert(m / 0x80_0000 == 1 && m % 0x80_0000 == m - 0x80_0000);
                assert(units_of(m) == (0x80_0000 + (m - 0x80_0000)) * pow2(0));
            }
        } else {
            let sum = 0x100_0000 + fa + fb;
            let sig = sum * 0x40;
            let g = pow2((e - 1) as nat) as int;
            lemma_pow2_pos((e - 1) as nat);
            lemma_stands_for_itself(sig);
            lemma_stands_for_coarser(sig, sig, 1, 1, 64);
            lemma_round_pack_range(sign, e, sig);
            lemma_round_pack_nearest(sign, e, sig, sig, 1, (e - 1) as nat, 6);
            let n1 = sig * g;
            assert(n1 * 1 == (units(a) + units(b)) * 64) by (nonlinear_arith)
                requires
                    n1 == ((0x100_0000 + fa + fb) * 0x40) * g,
                    units(a) == (0x80_0000 + fa) * g,
                    units(b) == (0x80_0000 + fb) * g,
            ;
            lemma_nearest_same_value(
                magnitude(add_mags_spec(a, b) as u32),
                n1,
                64,
                units(a) + units(b),
                1,
            );
        }
    } else if e < exp_of(b) {
        lemma_add_aligned_nearest(sign, a, b, exp_of(b), fb, e, fa);
    } else {
        lemma_add_aligned_nearest(sign, a, b, e, fa, exp_of(b), fb);
    }
}

/// A multiple of 128 shifted right by at most seven bits loses nothing.
proof fn lemma_short_shift_exact(wide: int, dist: nat)
    requires
        wide >= 0,
        wide % 128 == 0,
        1 <= dist <= 7,
    ensures
        wide % (pow2(dist) as int) == 0,
{
    lemma2_to64();
    let p = pow2(dist) as int;
    if dist == 1 {
        assert(p == 2 && wide % 2 == 0);
    } else if dist == 2 {
        assert(p == 4 && wide % 4 == 0);
    } else if dist == 3 {
        assert(p == 8 && wide % 8 == 0);
    } else if dist == 4 {
        assert(p == 16 && wide % 16 == 0);
    } else if dist == 5 {
        assert(p == 32 && wide % 32 == 0);
    } else if dist == 6 {
        assert(p == 64 && wide % 64 == 0);
    } else {
        assert(p == 128 && wide % 128 == 0);
    }
}

/// A power of two below 4 is 1 or 2.
proof fn lemma_small_power(shift: nat)
    requires
        pow2(shift) < 4,
    ensures
        shift <= 1,
{
    lemma2_to64();
    if shift > 2 {
        lemma_pow2_strictly_increases(2, shift);
    }
}

/// The difference of two magnitudes with unlike exponents is rounded
/// correctly.
proof fn lemma_sub_aligned_nearest(
    sign: int,
    a: u32,
    b: u32,
    exp_hi: int,
    frac_hi: int,
    exp_lo: int,
    frac_lo: int,
)
    requires
        0 <= sign <= 1,
        0 <= exp_lo < exp_hi < 0xFF,
        0 <= frac_hi < 0x80_0000,
        0 <= frac_lo < 0x80_0000,
    ensures
        0 <= sub_aligned_spec(sign, a, b, exp_hi, frac_hi, exp_lo, frac_lo) <= u32::MAX,
        sign_of(sub_aligned_spec(sign, a, b, exp_hi, frac_hi, exp_lo, frac_lo) as u32) == sign,
        units_ef(exp_hi, frac_hi) > units_ef(exp_lo, frac_lo),
        is_nearest_even(
            sub_aligned_spec(sign, a, b, exp_hi, frac_hi, exp_lo, frac_lo) - sign * 0x8000_0000,
            units_ef(exp_hi, frac_hi) - units_ef(exp_lo, frac_lo),
            1,
        ),
{
    lemma2_to64();
    let dist = (exp_hi - exp_lo) as nat;
    let p = pow2(dist) as int;
    lemma_pow2_pos(dist);
    let gh = pow2((exp_hi - 1) as nat) as int;
    lemma_pow2_pos((exp_hi - 1) as nat);
    let wide = if exp_lo != 0 {
        0x80_0000 * 0x80 + frac_lo * 0x80
    } else {
        frac_lo * 0x80 * 2
    };
    let low = aligned_sig(exp_lo, frac_lo, 0x80, exp_hi - exp_lo);
    lemma_aligned_sig_bounds(exp_lo, frac_lo, 0x80, exp_hi - exp_lo);
    let head = 0x4000_0000 + frac_hi * 0x80;
    let diff = head - low;
    let n = head * p - wide;
    let uh = units_ef(exp_hi, frac_hi);
    let ul = units_ef(exp_lo, frac_lo);
    lemma_aligned_units(exp_hi, exp_lo, frac_lo, 0x80);
    assert(head * gh == uh * 0x80) by (nonlinear_arith)
        requires
            head == (0x80_0000 + frac_hi) * 0x80,
            uh == (0x80_0000 + frac_hi) * gh,
    ;
    assert(uh >= 0x80_0000 * gh) by (nonlinear_arith)
        requires
            uh == (0x80_0000 + frac_hi) * gh,
            frac_hi >= 0,
            gh > 0,
    ;
    let shift = (leading_zeros(diff as u32) - 1) as nat;
    let s = pow2(shift) as int;
    lemma_pow2_pos(shift);
    lemma_norm_shift(diff as u32);
    let sig = diff * s;
    let scaled = n * s;
    // the normalized difference stands for the exact one
    if wide % p == 0 {
        // nothing is lost in the alignment
        vstd::arithmetic::div_mod::lemma_fundamental_div_mod(wide, p);
        assert(low == wide / p);
        assert(wide == low * p) by (nonlinear_arith)
            requires
                wide == p * (wide / p) + wide % p,
                wide % p == 0,
                low == wide / p,
        ;
        assert(low % 1 == 0 && head % 1 == 0);
        assert(stands_for(low, wide, p, 1));
        lemma_stands_for_reflected(low, wide, p, 1, head);
        lemma_stands_for_scaled(diff, n, p, s);
        lemma_stands_for_coarser(sig, scaled, p, 1, 64);
    } else {
        // something is lost: the distance is 8 at least, and at most one bit cancels
        if dist <= 7 {
            lemma_short_shift_exact(wide, dist);
        }
        if dist > 8 {
            lemma_pow2_strictly_increases(8, dist);
        }
        assert(wide < 0x80_0000 * p) by (nonlinear_arith)
            requires
                wide < 0x8000_0000,
                p >= 0x100,
        ;
        lemma_jam_bounds(wide, dist, 0x80_0000);
        assert(diff > 0x2000_0000);
        assert(s < 4) by (nonlinear_arith)
            requires
                diff * s < 0x8000_0000,
                diff > 0x2000_0000,
                s > 0,
        ;
        lemma_small_power(shift);
        lemma_jam_stands_for(wide, dist);
        lemma_stands_for_reflected(low, wide, p, 2, head);
        if shift == 0 {
            assert(sig == diff && scaled == n) by (nonlinear_arith)
                requires
                    sig == diff * s,
                    scaled == n * s,
                    s == 1,
            ;
            lemma_stands_for_coarser(sig, scaled, p, 2, 32);
        } else {
            assert(sig == 2 * diff && scaled == 2 * n) by (nonlinear_arith)
                requires
                    sig == diff * s,
                    scaled == n * s,
                    s == 2,
            ;
            lemma_stands_for_doubled(diff, n, p, 2);
            lemma_stands_for_coarser(sig, scaled, p, 4, 16);
        }
    }
    let result = sub_aligned_spec(sign, a, b, exp_hi, frac_hi, exp_lo, frac_lo);
    let exp = exp_hi - 1 - shift;
    assert(result == round_pack_spec(sign, exp, sig));
    lemma_round_pack_range(sign, exp, sig);
    lemma_round_pack_nearest(sign, exp, sig, scaled, p, (exp_hi - 1) as nat, 7 + shift);
    lemma_pow2_adds(7, shift);
    let n1 = scaled * gh;
    let d1 = p * (128 * s);
    assert(d1 > 0) by (nonlinear_arith)
        requires
            d1 == p * (128 * s),
            p > 0,
            s > 0,
    ;
    assert(n1 * 1 == (uh - ul) * d1) by (nonlinear_arith)
        requires
            n1 == ((head * p - wide) * s) * gh,
            d1 == p * (128 * s),
            head * gh == uh * 0x80,
            wide * gh == ul * (p * 0x80),
    ;
    lemma_nearest_same_value(result - sign * 0x8000_0000, n1, d1, uh - ul, 1);
}

/// The difference of two magnitudes is rounded correctly: for finite
/// operands, equal magnitudes give positive zero; otherwise the result
/// has the sign of the first operand where its magnitude is the larger,
/// the opposite sign where it is the smaller, and its magnitude is the
/// one nearest to the difference of the two magnitudes, ties to even.
pub proof fn lemma_sub_mags_correctly_rounded(a: u32, b: u32)
    requires
        exp_of(a) != 0xFF,
        exp_of(b) != 0xFF,
    ensures
        0 <= sub_mags_spec(a, b) <= u32::MAX,
        units(a) == units(b) ==> sub_mags_spec(a, b) == 0,
        units(a) > units(b) ==> sign_of(sub_mags_spec(a, b) as u32) == sign_of(a)
            && is_nearest_even(magnitude(sub_mags_spec(a, b) as u32), units(a) - units(b), 1),
        units(a) < units(b) ==> sign_of(sub_mags_spec(a, b) as u32) == 1 - sign_of(a)
            && is_nearest_even(magnitude(sub_mags_spec(a, b) as u32), units(b) - units(a), 1),
{
    lemma2_to64();
    lemma_units_by_fields(a);
    lemma_units_by_fields(b);
    lemma_fields_compose(a);
    lemma_fields_compose(b);
    let sign = sign_of(a);
    let e = exp_of(a);
    let fa = frac_of(a);
    let fb = frac_of(b);
    if e == exp_of(b) {
        let exp = if e == 0 {
            1
        } else {
            e
        };
        let g = pow2((exp - 1) as nat) as int;
        lemma_pow2_pos((exp - 1) as nat);
        assert(units(a) - units(b) == (fa - fb) * g) by (nonlinear_arith)
            requires
                units(a) == (if e == 0 {
                    fa
                } else {
                    (0x80_0000 + fa) * g
                }),
                units(b) == (if e == 0 {
                    fb
                } else {
                    (0x80_0000 + fb) * g
                }),
                e == 0 ==> g == 1,
        ;
        if fa != fb {
            let gap = if fa > fb {
                fa - fb
            } else {
                fb - fa
            };
            let out_sign = if fa > fb {
                sign
            } else {
                1 - sign
            };
            assert(gap * g > 0) by (nonlinear_arith)
                requires
                    gap > 0,
                    g > 0,
            ;
            if fa > fb {
                assert(units(a) - units(b) == gap * g);
            } else {
                assert(units(b) - units(a) == gap * g) by (nonlinear_arith)
                    requires
                        units(a) - units(b) == (fa - fb) * g,
                        gap == fb - fa,
                ;
            }
            let diff = gap * 0x80;
            let shift = (leading_zeros(diff as u32) - 1) as nat;
            let s = pow2(shift) as int;
            lemma_pow2_pos(shift);
            lemma_norm_shift(diff as u32);
            let sig = diff * s;
            lemma_stands_for_itself(sig);
            lemma_stands_for_coarser(sig, sig, 1, 1, 64);
            let result = sub_mags_spec(a, b);
            assert(result == round_pack_spec(out_sign, exp - 1 - shift, sig));
            lemma_round_pack_range(out_sign, exp - 1 - shift, sig);
            lemma_round_pack_nearest(
                out_sign,
                exp - 1 - shift,
                sig,
                sig,
                1,
                (exp - 1) as nat,
                7 + shift,
            );
            lemma_pow2_adds(7, shift);
            let n1 = sig * g;
            let d1 = 128 * s;
            assert(n1 * 1 == (gap * g) * d1) by (nonlinear_arith)
                requires
                    n1 == ((gap * 0x80) * s) * g,
                    d1 == 128 * s,
            ;
            lemma_nearest_same_value(magnitude(result as u32), n1, d1, gap * g, 1);
        }
    } else if e > exp_of(b) {
        lemma_sub_aligned_nearest(sign, a, b, e, fa, exp_of(b), fb);
    } else {
        lemma_sub_aligned_nearest(1 - sign, a, b, exp_of(b), fb, e, fa);
    }
}

/// Addition rounds correctly: the sum of two finite numbers is the
/// number nearest to their exact sum, ties to even, and an exact sum of
/// zero is positive zero unless both operands are negative zero.
pub proof fn lemma_add_correctly_rounded(a: u32, b: u32)
    requires
        is_finite(a),
        is_finite(b),
    ensures
        0 <= f32_add_spec(a, b) <= u32::MAX,
        is_rounded_sum(f32_add_spec(a, b) as u32, a, b, sign_of(b)),
{
    lemma_fields_compose(a);
    lemma_fields_compose(b);
    if sign_of(a) == sign_of(b) {
        lemma_add_mags_correctly_rounded(a, b);
    } else {
        lemma_sub_mags_correctly_rounded(a, b);
    }
}

/// Subtraction rounds correctly: the difference of two finite numbers is
/// the number nearest to their exact difference, ties to even, that is to
/// the sum of the first operand and of the second with its sign
/// reversed.
pub proof fn lemma_sub_correctly_rounded(a: u32, b: u32)
    requires
        is_finite(a),
        is_finite(b),
    ensures
        0 <= f32_sub_spec(a, b) <= u32::MAX,
        is_rounded_sum(f32_sub_spec(a, b) as u32, a, b, 1 - sign_of(b)),
{
    lemma_fields_compose(a);
    lemma_fields_compose(b);
    if sign_of(a) == sign_of(b) {
        lemma_sub_mags_correctly_rounded(a, b);
    } else {
        lemma_add_mags_correctly_rounded(a, b);
    }
}

} // verus!
