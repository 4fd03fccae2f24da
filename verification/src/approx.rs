//! Fast reciprocal and reciprocal square root: an estimate from a table
//! of sixteen entries, corrected linearly and refined by one
//! Newton-Raphson step, and then settled by the remainder, so that what
//! is returned is the quotient, or the root, rounded down.

use vstd::prelude::*;
use crate::root::{int_sqrt, lemma_int_sqrt_exists, CORRECTION_STEPS};

verus! {

/// What the reciprocal is taken of: `2^63`.
pub open spec fn recip_numerator() -> int {
    0x8000_0000_0000_0000
}

/// The reciprocal of `a`: the quotient `2^63 / a` rounded down, held to
/// 32 bits. For `a` with its leading one at bit 31 and another bit set,
/// the quotient has its leading one at bit 31 too.
pub open spec fn approx_recip_spec(a: u32) -> int {
    if a == 0 || recip_numerator() / (a as int) > 0xFFFF_FFFF {
        0xFFFF_FFFF
    } else {
        recip_numerator() / (a as int)
    }
}

/// What the reciprocal square root is taken of: `2^94` where the
/// exponent that belongs to the operand is even, `2^95` where it is odd.
pub open spec fn recip_sqrt_numerator(odd_exp: u32) -> int {
    if odd_exp == 0 {
        0x4000_0000_0000_0000_0000_0000
    } else {
        0x8000_0000_0000_0000_0000_0000
    }
}

/// The reciprocal square root of `a`: the square root of the quotient
/// `2^94 / a`, or `2^95 / a`, rounded down, and held to 32 bits with the
/// leading one at bit 31.
pub open spec fn approx_recip_sqrt_spec(odd_exp: u32, a: u32) -> int {
    if a == 0 {
        0xFFFF_FFFF
    } else {
        let root = int_sqrt(recip_sqrt_numerator(odd_exp) / (a as int));
        if root > 0xFFFF_FFFF {
            0xFFFF_FFFF
        } else if root < 0x8000_0000 {
            0x8000_0000
        } else {
            root
        }
    }
}

/// Index and slope bits of the tables, and the complement, in arithmetic.
proof fn lemma_approx_index(a: u32)
    by (bit_vector)
    ensures
        (a >> 27) & 0xF == (a / 0x800_0000) % 0x10,
        (a >> 27) & 0xE == (a / 0x800_0000) % 0x10 - (a / 0x800_0000) % 2,
        (a >> 11) & 0xFFFF == (a / 0x800) % 0x1_0000,
        (a >> 12) & 0xFFFF == (a / 0x1000) % 0x1_0000,
        !a == 0xFFFF_FFFF - a,
{
}

/// Right shifts and truncation of a 64-bit value, in arithmetic.
proof fn lemma_approx_bits(x: u64)
    by (bit_vector)
    ensures
        (x as u32) as u64 == x % 0x1_0000_0000,
        x >> 1 == x / 2,
        x >> 3 == x / 8,
        x >> 20 == x / 0x10_0000,
        x >> 24 == x / 0x100_0000,
        x >> 25 == x / 0x200_0000,
        x >> 32 == x / 0x1_0000_0000,
        x >> 48 == x / 0x1_0000_0000_0000,
        x & 0x8000_0000 == 0 <==> x % 0x1_0000_0000 < 0x8000_0000,
{
}

/// Left shifts of a value of 32 bits inside a 64-bit word, in arithmetic.
proof fn lemma_approx_shifts(x: u64)
    by (bit_vector)
    requires
        x < 0x1_0000_0000,
    ensures
        x << 14 == x * 0x4000,
        x << 16 == x * 0x1_0000,
{
}

/// A product of two bounded factors is bounded by the product of the bounds.
proof fn lemma_product_fits(x: int, y: int, bx: int, by: int)
    by (nonlinear_arith)
    requires
        0 <= x <= bx,
        0 <= y <= by,
    ensures
        0 <= x * y <= bx * by,
{
}

/// Estimates the reciprocal: a seed from the table, less the slope times
/// the sixteen bits below the index bits, and one Newton-Raphson step.
/// Nothing is claimed of the estimate: whatever it is, it is settled by
/// the remainder afterwards.
fn recip_estimate(a: u32) -> (r: u32) {
    let k0s: [u64; 16] = [
        0xFFC4,
        0xF0BE,
        0xE363,
        0xD76F,
        0xCCAD,
        0xC2F0,
        0xBA16,
        0xB201,
        0xAA97,
        0xA3C6,
        0x9D7A,
        0x97A6,
        0x923C,
        0x8D32,
        0x887E,
        0x8417,
    ];
    let k1s: [u64; 16] = [
        0xF0F1,
        0xD62C,
        0xBFA1,
        0xAC77,
        0x9C0A,
        0x8DDB,
        0x8185,
        0x76BA,
        0x6D3B,
        0x64D4,
        0x5D5C,
        0x56B1,
        0x50B6,
        0x4B55,
        0x4679,
        0x4211,
    ];
    proof {
        lemma_approx_index(a);
    }
    let index = ((a >> 27) & 0xF) as usize;
    let eps = ((a >> 11) & 0xFFFF) as u64;
    let k0 = k0s[index];
    let k1 = k1s[index];
    proof {
        lemma_product_fits(k1 as int, eps as int, 0xFFFF, 0xFFFF);
    }
    let slope = k1 * eps;
    proof {
        lemma_approx_bits(slope);
    }
    let r0: u64 = k0 - (slope >> 20);
    proof {
        lemma_product_fits(r0 as int, a as int, 0xFFFF, 0xFFFF_FFFF);
    }
    let scaled = (r0 * a as u64) >> 7;
    let sigma0: u64 = (!(scaled as u32)) as u64;
    proof {
        lemma_product_fits(r0 as int, sigma0 as int, 0xFFFF, 0xFFFF_FFFF);
        lemma_product_fits(sigma0 as int, sigma0 as int, 0xFFFF_FFFF, 0xFFFF_FFFF);
        lemma_approx_bits((r0 * sigma0) as u64);
        lemma_approx_bits((sigma0 * sigma0) as u64);
        lemma_approx_shifts(r0);
    }
    let r: u64 = (r0 << 16) + ((r0 * sigma0) >> 24);
    let sqr_sigma0: u64 = (sigma0 * sigma0) >> 32;
    proof {
        lemma_product_fits((r as u32) as int, sqr_sigma0 as int, 0xFFFF_FFFF, 0xFFFF_FFFF);
    }
    let share = ((r as u32) as u64 * sqr_sigma0) >> 48;
    proof {
        lemma_approx_bits(((r as u32) * sqr_sigma0) as u64);
    }
    (r + share) as u32
}

/// A product with `a` does not exceed `bound` where the other factor does
/// not exceed the quotient `bound / a`, and only there.
proof fn lemma_fits_quotient(x: int, a: int, bound: int)
    requires
        a > 0,
        bound >= 0,
        x >= 0,
    ensures
        x * a <= bound <==> x <= bound / a,
{
    vstd::arithmetic::div_mod::lemma_fundamental_div_mod(bound, a);
    let q = bound / a;
    let m = bound % a;
    if x <= q {
        assert(x * a <= q * a) by (nonlinear_arith)
            requires
                x <= q,
                a > 0,
        ;
        assert(q * a == a * q) by (nonlinear_arith);
    } else {
        assert(x * a >= (q + 1) * a) by (nonlinear_arith)
            requires
                x >= q + 1,
                a > 0,
        ;
        assert((q + 1) * a == a * q + a) by (nonlinear_arith);
    }
}

/// For `a` with its leading one at bit 31 the reciprocal times `a` falls
/// short of `2^63` by less than `a`, but for `2^31` itself, whose
/// reciprocal `2^32` is held to 32 bits.
proof fn lemma_recip_bounds(a: u32)
    ensures
        a >= 0x8000_0000 ==> approx_recip_spec(a) * a <= recip_numerator() <= (approx_recip_spec(
            a,
        ) + 1) * a,
        a > 0x8000_0000 ==> recip_numerator() < (approx_recip_spec(a) + 1) * a,
{
    if a >= 0x8000_0000 {
        let q = recip_numerator() / (a as int);
        lemma_fits_quotient(q, a as int, recip_numerator());
        lemma_fits_quotient(q + 1, a as int, recip_numerator());
        lemma_fits_quotient(0xFFFF_FFFF, a as int, recip_numerator());
        lemma_fits_quotient(0x1_0000_0000, a as int, recip_numerator());
        assert(q >= 0) by (nonlinear_arith)
            requires
                q == recip_numerator() / (a as int),
                a > 0,
        ;
        assert(0x1_0000_0000 * a >= recip_numerator());
        if a > 0x8000_0000 {
            assert(0x1_0000_0000 * a > recip_numerator());
        }
    }
}

/// Approximates the reciprocal of `a`: returns `2^63 / a` rounded down,
/// or the largest 32-bit value where the quotient does not fit. For `a`
/// with its leading one at bit 31 the result times `a` falls short of
/// `2^63` by less than `a`.
pub fn f32_approx_recip(a: u32) -> (r: u32)
    ensures
        r == approx_recip_spec(a),
        a >= 0x8000_0000 ==> r * a <= recip_numerator() <= (r + 1) * a,
        a > 0x8000_0000 ==> recip_numerator() < (r + 1) * a,
{
    let target: u64 = 0x8000_0000_0000_0000;
    let wide = a as u64;
    let mut r: u64 = recip_estimate(a) as u64;
    let mut steps: u32 = 0;
    while steps < CORRECTION_STEPS
        invariant
            r <= 0xFFFF_FFFF,
            wide == a,
            target == recip_numerator(),
            steps <= CORRECTION_STEPS,
        decreases CORRECTION_STEPS - steps,
    {
        proof {
            lemma_product_fits(r as int, wide as int, 0xFFFF_FFFF, 0xFFFF_FFFF);
            lemma_product_fits(r + 1, wide as int, 0x1_0000_0000, 0xFFFF_FFFF);
            if a > 0 {
                lemma_fits_quotient(r as int, a as int, recip_numerator());
                lemma_fits_quotient(r + 1, a as int, recip_numerator());
            }
            lemma_recip_bounds(a);
        }
        if r * wide > target {
            r = r - 1;
        } else if r < 0xFFFF_FFFF && (r + 1) * wide <= target {
            r = r + 1;
        } else {
            return r as u32;
        }
        steps = steps + 1;
    }
    if a == 0 {
        return 0xFFFF_FFFF;
    }
    proof {
        lemma_recip_bounds(a);
    }
    let quotient = target / wide;
    if quotient > 0xFFFF_FFFF {
        0xFFFF_FFFF
    } else {
        quotient as u32
    }
}

/// Looks up the seed of the reciprocal square root and corrects it by the
/// slope.
fn recip_sqrt_seed_of(odd_exp: u32, a: u32) -> (r0: u64)
    requires
        odd_exp <= 1,
    ensures
        0x7000 <= r0 <= 0xFFFF,
{
    let k0s: [u64; 16] = [
        0xB4C9,
        0xFFAB,
        0xAA7D,
        0xF11C,
        0xA1C5,
        0xE4C7,
        0x9A43,
        0xDA29,
        0x93B5,
        0xD0E5,
        0x8DED,
        0xC8B7,
        0x88C6,
        0xC16D,
        0x8424,
        0xBAE1,
    ];
    let k1s: [u64; 16] = [
        0xA5A5,
        0xEA42,
        0x8C21,
        0xC62D,
        0x788F,
        0xAA7F,
        0x6928,
        0x94B6,
        0x5CC7,
        0x8335,
        0x52A6,
        0x74E2,
        0x4A3E,
        0x68FE,
        0x432B,
        0x5EFD,
    ];
    proof {
        lemma_approx_index(a);
    }
    let index = (((a >> 27) & 0xE) + odd_exp) as usize;
    let eps = ((a >> 12) & 0xFFFF) as u64;
    let k0 = k0s[index];
    let k1 = k1s[index];
    let slope = k1 * eps;
    proof {
        lemma_approx_bits(slope);
    }
    k0 - (slope >> 20)
}

/// Computes what the square of the seed times `a` lacks of a power of
/// two.
fn recip_sqrt_sigma_of(odd_exp: u32, a: u32, r0: u64) -> (sigma0: u64)
    requires
        odd_exp <= 1,
        r0 <= 0xFFFF,
    ensures
        sigma0 <= 0xFFFF_FFFF,
{
    proof {
        lemma_product_fits(r0 as int, r0 as int, 0xFFFF, 0xFFFF);
    }
    let mut e_sqr_r0: u64 = r0 * r0;
    if odd_exp == 0 {
        e_sqr_r0 = e_sqr_r0 << 1;
    }
    proof {
        lemma_product_fits((e_sqr_r0 as u32) as int, a as int, 0xFFFF_FFFF, 0xFFFF_FFFF);
    }
    let wide = (e_sqr_r0 as u32) as u64 * a as u64;
    let scaled = wide >> 23;
    (!(scaled as u32)) as u64
}

/// Carries out the Newton-Raphson step on the seed.
fn recip_sqrt_refine_of(r0: u64, sigma0: u64) -> (r: u32)
    requires
        r0 <= 0xFFFF,
        sigma0 <= 0xFFFF_FFFF,
    ensures
        r >= 0x8000_0000,
{
    proof {
        lemma_product_fits(r0 as int, sigma0 as int, 0xFFFF, 0xFFFF_FFFF);
        lemma_product_fits(sigma0 as int, sigma0 as int, 0xFFFF_FFFF, 0xFFFF_FFFF);
        lemma_approx_shifts(r0);
    }
    let correction = r0 * sigma0;
    let square = sigma0 * sigma0;
    proof {
        lemma_approx_bits(correction);
        lemma_approx_bits(square);
    }
    let r: u64 = (r0 << 16) + (correction >> 25);
    let sqr_sigma0: u64 = square >> 32;
    proof {
        lemma_approx_bits(r);
    }
    let wide_step: u64 = (r >> 1) + (r >> 3) - (r0 << 14);
    let step: u64 = (wide_step as u32) as u64;
    proof {
        lemma_product_fits(step as int, sqr_sigma0 as int, 0xFFFF_FFFF, 0xFFFF_FFFF);
    }
    let share = step * sqr_sigma0;
    proof {
        lemma_approx_bits(share);
    }
    let refined: u64 = r + (share >> 48);
    proof {
        lemma_approx_bits(refined);
    }
    if refined & 0x8000_0000 == 0 {
        0x8000_0000
    } else {
        refined as u32
    }
}

/// The square of `x`, times `a`, does not exceed `bound` where `x` does
/// not exceed the integer square root of the quotient `bound / a`, and
/// only there.
proof fn lemma_fits_root(x: int, a: int, bound: int)
    requires
        a > 0,
        bound >= 0,
        x >= 0,
    ensures
        (x * x) * a <= bound <==> x <= int_sqrt(bound / a),
{
    let q = bound / a;
    assert(q >= 0) by (nonlinear_arith)
        requires
            bound >= 0,
            a > 0,
            q == bound / a,
    ;
    lemma_int_sqrt_exists(q);
    let s = int_sqrt(q);
    assert(x * x >= 0) by (nonlinear_arith);
    lemma_fits_quotient(x * x, a, bound);
    if x <= s {
        assert(x * x <= s * s) by (nonlinear_arith)
            requires
                0 <= x <= s,
        ;
    } else {
        assert(x * x >= (s + 1) * (s + 1)) by (nonlinear_arith)
            requires
                x >= s + 1,
                s >= 0,
        ;
    }
}

/// Finds the reciprocal square root bit by bit, from the top: the
/// largest 32-bit value whose square, times `a`, does not exceed
/// `bound`.
fn recip_sqrt_by_bits(a: u32, bound: u128) -> (r: u32)
    requires
        a > 0,
        bound <= 0x8000_0000_0000_0000_0000_0000,
    ensures
        int_sqrt(bound as int / (a as int)) <= 0xFFFF_FFFF ==> r == int_sqrt(
            bound as int / (a as int),
        ),
        int_sqrt(bound as int / (a as int)) > 0xFFFF_FFFF ==> r == 0xFFFF_FFFF,
{
    let wide = a as u128;
    let ghost root = int_sqrt(bound as int / (a as int));
    let ghost held = if root > 0xFFFF_FFFF {
        0xFFFF_FFFFint
    } else {
        root
    };
    proof {
        lemma_fits_root(0, a as int, bound as int);
        vstd::arithmetic::power2::lemma2_to64();
    }
    let mut r: u64 = 0;
    let mut k: u32 = 32;
    while k > 0
        invariant
            k <= 32,
            wide == a,
            a > 0,
            bound <= 0x8000_0000_0000_0000_0000_0000,
            root == int_sqrt(bound as int / (a as int)),
            held == (if root > 0xFFFF_FFFF {
                0xFFFF_FFFFint
            } else {
                root
            }),
            r <= held < r + vstd::arithmetic::power2::pow2(k as nat),
            r + vstd::arithmetic::power2::pow2(k as nat) <= 0x1_0000_0000,
        decreases k,
    {
        k = k - 1;
        proof {
            vstd::arithmetic::power2::lemma_pow2_unfold((k + 1) as nat);
            vstd::arithmetic::power2::lemma_pow2_pos(k as nat);
            vstd::bits::lemma_u64_shl_is_mul(1, k as u64);
            vstd::arithmetic::power2::lemma2_to64();
            if k < 31 {
                vstd::arithmetic::power2::lemma_pow2_strictly_increases(k as nat, 31);
            }
        }
        let bit: u64 = 1u64 << k;
        let t = r + bit;
        proof {
            lemma_product_fits(t as int, t as int, 0xFFFF_FFFF, 0xFFFF_FFFF);
            lemma_product_fits(
                t * t,
                wide as int,
                0xFFFF_FFFE_0000_0001,
                0xFFFF_FFFF,
            );
            lemma_fits_root(t as int, a as int, bound as int);
        }
        let square = (t as u128) * (t as u128);
        if square * wide <= bound {
            r = t;
        }
    }
    proof {
        vstd::arithmetic::power2::lemma2_to64();
    }
    r as u32
}

/// Estimates the reciprocal square root: a seed from the table, and one
/// Newton-Raphson step. Of the estimate no more is claimed than that its
/// leading one is at bit 31: it is settled by the remainder afterwards.
fn recip_sqrt_estimate(odd_exp: u32, a: u32) -> (r: u32)
    requires
        odd_exp <= 1,
    ensures
        r >= 0x8000_0000,
{
    let r0 = recip_sqrt_seed_of(odd_exp, a);
    let sigma0 = recip_sqrt_sigma_of(odd_exp, a, r0);
    recip_sqrt_refine_of(r0, sigma0)
}

/// For `a` with its leading one at bit 31 the reciprocal square root
/// needs no holding from below, and from above only where it is `2^32`
/// exactly.
proof fn lemma_recip_sqrt_bracket(odd_exp: u32, a: u32)
    requires
        a > 0,
    ensures
        a >= 0x8000_0000 ==> 0x8000_0000 <= int_sqrt(recip_sqrt_numerator(odd_exp) / (a as int))
            <= 0x1_0000_0000,
{
    let bound = recip_sqrt_numerator(odd_exp);
    if a >= 0x8000_0000 {
        lemma_fits_root(0x8000_0000, a as int, bound);
        lemma_fits_root(0x1_0000_0001, a as int, bound);
        assert((0x8000_0000int * 0x8000_0000) * a <= bound) by (nonlinear_arith)
            requires
                a <= 0xFFFF_FFFF,
                bound >= 0x4000_0000_0000_0000_0000_0000,
        ;
        assert((0x1_0000_0001int * 0x1_0000_0001) * a > bound) by (nonlinear_arith)
            requires
                a >= 0x8000_0000,
                bound <= 0x8000_0000_0000_0000_0000_0000,
        ;
    }
}

/// For `a` with its leading one at bit 31 the square of the reciprocal
/// square root, times `a`, does not exceed the power of two it is taken
/// of, and the square of the next integer, times `a`, is not below it.
proof fn lemma_recip_sqrt_bounds(odd_exp: u32, a: u32)
    requires
        odd_exp <= 1,
    ensures
        a >= 0x8000_0000 ==> (approx_recip_sqrt_spec(odd_exp, a) * approx_recip_sqrt_spec(
            odd_exp,
            a,
        )) * a <= recip_sqrt_numerator(odd_exp) <= ((approx_recip_sqrt_spec(odd_exp, a) + 1) * (
        approx_recip_sqrt_spec(odd_exp, a) + 1)) * a,
{
    if a >= 0x8000_0000 {
        let bound = recip_sqrt_numerator(odd_exp);
        let root = int_sqrt(bound / (a as int));
        let q = approx_recip_sqrt_spec(odd_exp, a);
        lemma_recip_sqrt_bracket(odd_exp, a);
        lemma_fits_root(q, a as int, bound);
        lemma_fits_root(q + 1, a as int, bound);
        if root > 0xFFFF_FFFF {
            assert((0x1_0000_0000int * 0x1_0000_0000) * a >= bound) by (nonlinear_arith)
                requires
                    a >= 0x8000_0000,
                    bound <= 0x8000_0000_0000_0000_0000_0000,
            ;
        }
    }
}

/// Approximates the reciprocal square root of `a`. `odd_exp` is 1 where
/// the exponent that belongs to `a` is odd, else 0. Returned is the
/// square root of `2^94 / a`, or of `2^95 / a` for an odd exponent,
/// rounded down and held between `2^31` and the largest 32-bit value.
/// For `a` with its leading one at bit 31 the square of the result,
/// times `a`, does not exceed that power of two, and the square of the
/// next integer, times `a`, is not below it.
pub fn f32_approx_recip_sqrt(odd_exp: u32, a: u32) -> (r: u32)
    requires
        odd_exp <= 1,
    ensures
        r == approx_recip_sqrt_spec(odd_exp, a),
        r >= 0x8000_0000,
        a >= 0x8000_0000 ==> (r * r) * a <= recip_sqrt_numerator(odd_exp) <= ((r + 1) * (r + 1))
            * a,
{
    let bound: u128 = if odd_exp == 0 {
        0x4000_0000_0000_0000_0000_0000
    } else {
        0x8000_0000_0000_0000_0000_0000
    };
    let wide = a as u128;
    let mut r: u64 = recip_sqrt_estimate(odd_exp, a) as u64;
    let mut steps: u32 = 0;
    while steps < CORRECTION_STEPS
        invariant
            odd_exp <= 1,
            0x8000_0000 <= r <= 0xFFFF_FFFF,
            wide == a,
            bound == recip_sqrt_numerator(odd_exp),
            steps <= CORRECTION_STEPS,
        decreases CORRECTION_STEPS - steps,
    {
        proof {
            lemma_product_fits(r as int, r as int, 0xFFFF_FFFF, 0xFFFF_FFFF);
            lemma_product_fits(r + 1, r + 1, 0x1_0000_0000, 0x1_0000_0000);
            lemma_product_fits(r * r, wide as int, 0xFFFF_FFFE_0000_0001, 0xFFFF_FFFF);
            lemma_product_fits(
                (r + 1) * (r + 1),
                wide as int,
                0x1_0000_0000_0000_0000,
                0xFFFF_FFFF,
            );
            if a > 0 {
                lemma_fits_root(r as int, a as int, bound as int);
                lemma_fits_root(r + 1, a as int, bound as int);
            }
            lemma_recip_sqrt_bounds(odd_exp, a);
        }
        let square = (r as u128) * (r as u128);
        let next = ((r + 1) as u128) * ((r + 1) as u128);
        if square * wide > bound {
            if r == 0x8000_0000 {
                return 0x8000_0000;
            }
            r = r - 1;
        } else if r < 0xFFFF_FFFF && next * wide <= bound {
            r = r + 1;
        } else {
            return r as u32;
        }
        steps = steps + 1;
    }
    if a == 0 {
        return 0xFFFF_FFFF;
    }
    proof {
        lemma_recip_sqrt_bounds(odd_exp, a);
    }
    let root = recip_sqrt_by_bits(a, bound);
    if root < 0x8000_0000 {
        0x8000_0000
    } else {
        root
    }
}

} // verus!
