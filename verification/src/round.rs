//! The rounding engine: from a sign, a wide exponent and a significand
//! with seven extra low bits to the packed result, rounding to nearest
//! with ties to even.

use vstd::prelude::*;
use vstd::arithmetic::power2::{
    pow2, lemma2_to64, lemma_pow2_adds, lemma_pow2_pos, lemma_pow2_strictly_increases,
};
use vstd::bits::lemma_u32_shl_is_mul;
use crate::bits::{f32_pack_raw, lemma_field_masks};
use crate::shift::{
    f32_count_leading_zero, f32_shift_right_jam, leading_zeros, shift_right_jam_spec,
    lemma_bit_length_bounds, lemma_bit_length_scaled, lemma_bit_length_u32,
};

verus! {

/// What is added to a significand before its seven extra bits are cut
/// off: half of what the lowest kept bit weighs. The library rounds to
/// nearest, ties to even, and in no other way; results too small for a
/// normal number are found tiny after rounding.
pub const ROUND_INCREMENT: u32 = 0x40;

/// A significand with seven extra low bits, rounded to nearest with those
/// bits dropped; a tie goes to the even result.
pub open spec fn round_half_even(sig: int) -> int {
    let q = (sig + 0x40) / 0x80;
    if sig % 0x80 == 0x40 {
        q - q % 2
    } else {
        q
    }
}

/// The packed result of the rounding engine.
///
/// `sig` carries its leading one at bit 30 and seven extra bits at the
/// bottom, and `exp` is one less than the biased exponent of that leading
/// one. A negative exponent makes the result subnormal or zero: the
/// significand is first shifted right with jamming. An exponent too large
/// gives infinity. The rounded significand is added to the exponent
/// field, so that its leading one, or a carry out of the rounding, raises
/// the exponent.
pub open spec fn round_pack_spec(sign: int, exp: int, sig: int) -> int {
    if exp < 0 {
        sign * 0x8000_0000 + round_half_even(shift_right_jam_spec(sig, (-exp) as nat))
    } else if exp > 0xFD || (exp == 0xFD && sig + 0x40 >= 0x8000_0000) {
        sign * 0x8000_0000 + 0x7F80_0000
    } else {
        let q = round_half_even(sig);
        sign * 0x8000_0000 + (if q == 0 {
            0
        } else {
            exp * 0x80_0000
        }) + q
    }
}

/// The packed result for a significand that is not yet normalized: its
/// leading one is first brought to bit 30, and the exponent lowered by
/// the distance.
pub open spec fn norm_round_pack_spec(sign: int, exp: int, sig: u32) -> int {
    let shift = leading_zeros(sig) - 1;
    round_pack_spec(sign, exp - shift, sig * pow2(shift as nat))
}

/// A significand below `2^31` rounds to at most `2^24`.
pub proof fn lemma_round_half_even_bounds(sig: int)
    requires
        0 <= sig < 0x8000_0000,
    ensures
        0 <= round_half_even(sig) <= 0x100_0000,
        sig + 0x40 < 0x8000_0000 ==> round_half_even(sig) < 0x100_0000,
        sig < 0x4000_0000 ==> round_half_even(sig) <= 0x80_0000,
        sig >= 0x4000_0000 ==> round_half_even(sig) >= 0x80_0000,
        sig % 0x80 == 0 ==> round_half_even(sig) == sig / 0x80,
{
}

/// The engine always yields a 32-bit pattern with the sign given.
pub proof fn lemma_round_pack_range(sign: int, exp: int, sig: int)
    requires
        0 <= sign <= 1,
        0 <= sig < 0x8000_0000,
    ensures
        0 <= round_pack_spec(sign, exp, sig) <= u32::MAX,
        crate::bits::sign_of(round_pack_spec(sign, exp, sig) as u32) == sign,
        !crate::bits::is_nan(round_pack_spec(sign, exp, sig) as u32),
{
    if exp < 0 {
        lemma_jam_below(sig, (-exp) as nat);
        lemma_round_half_even_bounds(shift_right_jam_spec(sig, (-exp) as nat));
    } else {
        lemma_round_half_even_bounds(sig);
    }
}

/// A value below `2^31` shifted right by at least one bit, with jamming,
/// stays below `2^30`.
pub proof fn lemma_jam_below(sig: int, dist: nat)
    requires
        0 <= sig < 0x8000_0000,
        dist >= 1,
    ensures
        0 <= shift_right_jam_spec(sig, dist) <= 0x4000_0000,
        shift_right_jam_spec(sig, dist) + 0x40 < 0x8000_0000,
{
    lemma2_to64();
    lemma_pow2_pos(dist);
    if dist > 1 {
        lemma_pow2_strictly_increases(1, dist);
    }
    let d = pow2(dist) as int;
    vstd::arithmetic::div_mod::lemma_fundamental_div_mod(sig, d);
    let q = sig / d;
    let m = sig % d;
    assert(0 <= q < 0x4000_0000) by (nonlinear_arith)
        requires
            sig == d * q + m,
            0 <= m < d,
            0 <= sig < 0x8000_0000,
            d >= 2,
    ;
}

/// Beyond 32 bits every jammed shift of a 32-bit value gives the same.
pub proof fn lemma_jam_far(sig: int, dist: nat)
    requires
        0 <= sig < 0x1_0000_0000,
        dist >= 32,
    ensures
        shift_right_jam_spec(sig, dist) == shift_right_jam_spec(sig, 32),
        shift_right_jam_spec(sig, dist) == (if sig != 0 {
            1int
        } else {
            0int
        }),
{
    lemma2_to64();
    if dist > 32 {
        lemma_pow2_strictly_increases(32, dist);
    }
    let d = pow2(dist) as int;
    let d32 = pow2(32) as int;
    assert(sig / d == 0 && sig % d == sig) by (nonlinear_arith)
        requires
            0 <= sig < d,
    ;
    assert(sig / d32 == 0 && sig % d32 == sig) by (nonlinear_arith)
        requires
            0 <= sig < d32,
    ;
}

/// The shifts and masks of the rounding engine, in arithmetic.
proof fn lemma_round_bits(x: u32)
    by (bit_vector)
    ensures
        x & 0x7F == x % 0x80,
        x >> 7 == x / 0x80,
        x & 0xFFFF_FFFE == x - x % 2,
{
}

/// Packs a significand that may reach above the fraction field: what
/// lies above bit 22 is carried into the exponent, so that the fields
/// handed to the packer never overlap.
pub fn f32_pack_carry(in_sign: i32, in_exp: i32, in_frac: u32) -> (r: u32)
    requires
        0 <= in_sign <= 1,
        0 <= in_exp,
        in_exp + in_frac / 0x80_0000 <= 0xFF,
    ensures
        r == in_sign * 0x8000_0000 + in_exp * 0x80_0000 + in_frac,
{
    proof {
        lemma_field_masks(in_frac);
    }
    f32_pack_raw(in_sign, in_exp + (in_frac >> 23) as i32, (in_frac & 0x7F_FFFF) as i32)
}

/// Rounds a wide result to nearest, ties to even, and packs it.
///
/// `in_frac` holds the significand with its leading one at bit 30 and
/// seven extra bits at the bottom; `in_exp` is one less than the biased
/// exponent that belongs to that leading one, and may be negative or too
/// large. Underflow gives a subnormal number or zero, overflow gives
/// infinity.
pub fn f32_round_and_pack(in_sign: i32, in_exp: i32, in_frac: u32) -> (r: u32)
    requires
        0 <= in_sign <= 1,
        in_frac < 0x8000_0000,
    ensures
        r == round_pack_spec(in_sign as int, in_exp as int, in_frac as int),
{
    let mut exp = in_exp;
    let mut frac = in_frac;

    if exp < 0 {
        let dist: u32 = if exp <= -32 {
            32
        } else {
            (-exp) as u32
        };
        proof {
            if exp <= -32 {
                lemma_jam_far(frac as int, (-exp) as nat);
            }
            lemma_jam_below(frac as int, (-exp) as nat);
        }
        frac = f32_shift_right_jam(frac, dist);
        exp = 0;
    } else if exp > 0xFD || (exp == 0xFD && frac + ROUND_INCREMENT >= 0x8000_0000) {
        return f32_pack_raw(in_sign, 0xFF, 0);
    }
    proof {
        lemma_round_bits(frac);
        lemma_round_bits((frac + ROUND_INCREMENT) as u32);
        lemma_round_bits(((frac + ROUND_INCREMENT) / 0x80) as u32);
        lemma_round_half_even_bounds(frac as int);
    }
    let round_bits = frac & 0x7F;
    frac = (frac + ROUND_INCREMENT) >> 7;
    if round_bits == 0x40 {
        frac = frac & 0xFFFF_FFFE;
    }
    if frac == 0 {
        exp = 0;
    }
    f32_pack_carry(in_sign, exp, frac)
}

/// Normalizes a significand that cancellation may have left with leading
/// zeros, then rounds and packs it.
///
/// When the exponent stays inside the normal range and at least seven
/// bits are gained, the low bits are all zero and the result is packed
/// without rounding.
pub fn f32_norm_round_and_pack(in_sign: i32, in_exp: i32, in_frac: u32) -> (r: u32)
    requires
        0 <= in_sign <= 1,
        in_frac < 0x8000_0000,
        in_exp - 31 >= i32::MIN,
    ensures
        r == norm_round_pack_spec(in_sign as int, in_exp as int, in_frac),
{
    proof {
        lemma_bit_length_u32(in_frac);
        lemma_norm_shift(in_frac);
    }
    let shift_count = f32_count_leading_zero(in_frac) - 1;
    let exp = in_exp - shift_count;
    let ghost wide = in_frac * pow2(shift_count as nat);

    if 7 <= shift_count && 0 <= exp && exp < 0xFD {
        proof {
            lemma2_to64();
            lemma_pow2_adds((shift_count - 7) as nat, 7);
            let low = in_frac * pow2((shift_count - 7) as nat);
            assert(wide == low * 0x80) by (nonlinear_arith)
                requires
                    wide == in_frac * pow2(shift_count as nat),
                    low == in_frac * pow2((shift_count - 7) as nat),
                    pow2(shift_count as nat) == pow2((shift_count - 7) as nat) * 0x80,
            ;
            lemma_u32_shl_is_mul(in_frac, (shift_count - 7) as u32);
            lemma_round_half_even_bounds(wide as int);
        }
        let frac = in_frac << ((shift_count - 7) as u32);
        f32_pack_carry(in_sign, if frac == 0 {
            0
        } else {
            exp
        }, frac)
    } else {
        proof {
            lemma_u32_shl_is_mul(in_frac, shift_count as u32);
        }
        f32_round_and_pack(in_sign, exp, in_frac << (shift_count as u32))
    }
}

/// Shifting a value below `2^31` left by one less than its count of
/// leading zeros brings its leading one to bit 30.
pub proof fn lemma_norm_shift(sig: u32)
    requires
        sig < 0x8000_0000,
    ensures
        0 <= leading_zeros(sig) - 1 <= 31,
        sig * pow2((leading_zeros(sig) - 1) as nat) < 0x8000_0000,
        sig > 0 ==> sig * pow2((leading_zeros(sig) - 1) as nat) >= 0x4000_0000,
{
    lemma2_to64();
    lemma_bit_length_u32(sig);
    if sig > 0 {
        lemma_bit_length_bounds(sig as nat);
        let s = (leading_zeros(sig) - 1) as nat;
        lemma_bit_length_scaled(sig as nat, s);
        lemma_bit_length_bounds(sig as nat * pow2(s));
    } else {
        assert(sig * pow2(31) == 0);
    }
}

} // verus!
