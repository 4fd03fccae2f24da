use soft_f32::{
    f32_add, f32_add_mags, f32_count_leading_zero, f32_div, f32_exp, f32_frac, f32_frac_old,
    f32_is_frac_nan, f32_is_nan, f32_mul, f32_norm_round_and_pack, f32_norm_subnormal_frac,
    f32_pack, f32_pack_carry, f32_pack_raw, f32_propagate_nan, f32_round, f32_round_and_pack,
    f32_shift_right_jam, f32_short_shift_right_jam64, f32_sign, f32_sqrt, f32_sub, f32_sub_mags,
};

fn next(seed: &mut u32) -> u32 {
    *seed ^= *seed << 13;
    *seed ^= *seed >> 17;
    *seed ^= *seed << 5;
    *seed
}

#[test]
fn fields_of_a_pattern() {
    // -0.1
    assert_eq!(f32_sign(0xBDCCCCCD), 1);
    assert_eq!(f32_exp(0xBDCCCCCD), 0x7B);
    assert_eq!(f32_frac(0xBDCCCCCD), 0x4CCCCD);
    assert_eq!(f32_frac_old(0xBDCCCCCD), 0xCCCCCD);
    assert_eq!(f32_sign(0x7FFFFFFF), 0);
    assert_eq!(f32_exp(0x7FFFFFFF), 0xFF);
    assert_eq!(f32_frac(0x7FFFFFFF), 0x7FFFFF);
    assert_eq!(f32_sign(0x80000000), 1);
    assert_eq!(f32_exp(0x80000000), 0);
    assert_eq!(f32_frac(0x80000000), 0);
    assert_eq!(f32_frac_old(0), 0x800000);
}

#[test]
fn pack_and_unpack_round_trip() {
    let mut seed: u32 = 0xDEAD_BEEF;
    for _ in 0..10_000 {
        let a = next(&mut seed);
        assert_eq!(f32_pack_raw(f32_sign(a), f32_exp(a), f32_frac(a)), a);
        assert_eq!(f32_pack(f32_sign(a), f32_exp(a), f32_frac(a)), a);
    }
}

#[test]
fn pack_masks_exponent_and_fraction() {
    assert_eq!(f32_pack(0, 0x7F, 0), 0x3F800000);
    assert_eq!(f32_pack(1, 0x7F, 0), 0xBF800000);
    // what lies above the field is dropped
    assert_eq!(f32_pack(0, 0x17F, 0), 0x3F800000);
    assert_eq!(f32_pack(0, 0x7F, 0x0080_0001), 0x3F800001);
    assert_eq!(f32_pack(1, 0x100, 0x0080_0000), 0x80000000);
    // negative values keep their low bits
    assert_eq!(f32_pack(0, -1, 0), 0x7F800000);
    assert_eq!(f32_pack(0, 0, -1), 0x007FFFFF);
    assert_eq!(f32_pack(1, -1, -1), 0xFFFFFFFF);
    assert_eq!(f32_pack(0, i32::MIN, i32::MIN), 0);
    assert_eq!(f32_pack(0, i32::MAX, i32::MAX), 0x7FFFFFFF);
}

#[test]
fn pack_carry_raises_the_exponent() {
    assert_eq!(f32_pack_carry(0, 0x7E, 0x0080_0000), 0x3F800000);
    assert_eq!(f32_pack_carry(1, 0x7D, 0x0100_0000), 0xBF800000);
    assert_eq!(f32_pack_carry(0, 0, 0x007F_FFFF), 0x007FFFFF);
    assert_eq!(f32_pack_carry(0, 0, 0x0080_0000), 0x00800000);
    assert_eq!(f32_pack_carry(0, 0xFD, 0x00FF_FFFF), 0x7F7FFFFF);
}

#[test]
fn nan_classes() {
    // infinities and finite numbers are no NaNs
    for a in [0u32, 0x80000000, 0x3F800000, 0x7F7FFFFF, 0x7F800000, 0xFF800000] {
        assert_eq!(f32_is_nan(a), false);
        assert_eq!(f32_is_frac_nan(a), false);
    }
    // quiet
    for a in [0x7FC00000u32, 0xFFC00000, 0x7FC00001, 0xFFFFFFFF] {
        assert_eq!(f32_is_nan(a), true);
        assert_eq!(f32_is_frac_nan(a), false);
    }
    // signaling
    for a in [0x7F800001u32, 0xFF800001, 0x7FBFFFFF, 0xFFBFFFFF] {
        assert_eq!(f32_is_nan(a), true);
        assert_eq!(f32_is_frac_nan(a), true);
    }
}

#[test]
fn propagate_nan_prefers_the_one_signaling_operand() {
    // signaling against quiet, either way round: the signaling one, quieted
    assert_eq!(f32_propagate_nan(0x7F800001, 0x7FFFFFFF), 0x7FC00001);
    assert_eq!(f32_propagate_nan(0x7FFFFFFF, 0x7F800001), 0x7FC00001);
    assert_eq!(f32_propagate_nan(0xFF800123, 0x7FC00000), 0xFFC00123);
    // signaling against a number
    assert_eq!(f32_propagate_nan(0x7F800001, 0x3F800000), 0x7FC00001);
    assert_eq!(f32_propagate_nan(0x3FFFFFFF, 0xFF800001), 0xFFC00001);
    assert_eq!(f32_propagate_nan(0x7F800001, 0x7F800000), 0x7FC00001);
}

#[test]
fn propagate_nan_compares_fractions_then_patterns() {
    // the larger fraction wins, whatever the sign
    assert_eq!(f32_propagate_nan(0x7FC00001, 0xFFC00002), 0xFFC00002);
    assert_eq!(f32_propagate_nan(0xFFC00002, 0x7FC00001), 0xFFC00002);
    assert_eq!(f32_propagate_nan(0xFFFFF114, 0xFFFFF514), 0xFFFFF514);
    // two signaling NaNs are compared by their quieted fractions
    assert_eq!(f32_propagate_nan(0x7F800001, 0x7F800002), 0x7FC00002);
    assert_eq!(f32_propagate_nan(0xFF800002, 0x7F800001), 0xFFC00002);
    // equal fractions: the smaller pattern
    assert_eq!(f32_propagate_nan(0xFFC00001, 0x7FC00001), 0x7FC00001);
    assert_eq!(f32_propagate_nan(0x7FC00001, 0xFFC00001), 0x7FC00001);
    assert_eq!(f32_propagate_nan(0x7F800001, 0xFF800001), 0x7FC00001);
    // infinity, quieted, has the fraction of the default NaN
    assert_eq!(f32_propagate_nan(0x7FC00000, 0xFF800000), 0x7FC00000);
    assert_eq!(f32_propagate_nan(0xFFC00000, 0x7F800000), 0x7FC00000);
}

#[test]
fn a_number_never_wins_over_a_nan() {
    // the default NaN against numbers whose fraction, quieted, is as large or larger
    for x in [0u32, 0x80000000, 0x00000001, 0x3F800000, 0xBF800000, 0x3FE00000, 0x7F7FFFFF] {
        assert_eq!(f32_propagate_nan(0x7FC00000, x), 0x7FC00000);
        assert_eq!(f32_propagate_nan(x, 0x7FC00000), 0x7FC00000);
        assert_eq!(f32_propagate_nan(0xFFC00000, x), 0xFFC00000);
        assert_eq!(f32_add(0x7FC00000, x), 0x7FC00000);
        assert_eq!(f32_add(x, 0x7FC00000), 0x7FC00000);
        assert_eq!(f32_sub(0x7FC00000, x), 0x7FC00000);
        assert_eq!(f32_sub(x, 0xFFC00000), 0xFFC00000);
        assert_eq!(f32_mul(x, 0x7FC00000), 0x7FC00000);
        assert_eq!(f32_mul(0xFFC00000, x), 0xFFC00000);
        assert_eq!(f32_div(0x7FC00000, x), 0x7FC00000);
        assert_eq!(f32_div(x, 0x7FC00000), 0x7FC00000);
        // a signaling NaN comes back quieted
        assert_eq!(f32_add(0x7F800001, x), 0x7FC00001);
        assert_eq!(f32_mul(x, 0xFF800001), 0xFFC00001);
    }
}

#[test]
fn every_operator_answers_a_nan_with_a_nan() {
    let mut seed: u32 = 0x600D_CAFE;
    for i in 0..200_000u32 {
        let nan = next(&mut seed) | 0x7F80_0000;
        if !f32_is_nan(nan) {
            continue;
        }
        let other = if i % 8 == 0 { next(&mut seed) | 0x7F80_0000 } else { next(&mut seed) };
        let quiet = nan | 0x0040_0000;
        for r in [
            f32_add(nan, other),
            f32_add(other, nan),
            f32_sub(nan, other),
            f32_sub(other, nan),
            f32_mul(nan, other),
            f32_mul(other, nan),
            f32_div(nan, other),
            f32_div(other, nan),
            f32_propagate_nan(nan, other),
        ] {
            assert!(f32_is_nan(r), "{:#010x} with {:#010x} gave {:#010x}", nan, other, r);
            assert!(r & 0x0040_0000 != 0);
            assert!(r == quiet || r == other | 0x0040_0000);
        }
        assert_eq!(f32_sqrt(nan), quiet);
        assert_eq!(f32_round(nan), quiet);
    }
}

#[test]
fn the_root_and_the_rounding_of_a_nan_are_that_nan_quieted() {
    assert_eq!(f32_sqrt(0x7FC00000), 0x7FC00000);
    assert_eq!(f32_sqrt(0xFFC00000), 0xFFC00000);
    assert_eq!(f32_sqrt(0x7F800001), 0x7FC00001);
    assert_eq!(f32_sqrt(0xFFBFFFFF), 0xFFFFFFFF);
    assert_eq!(f32_round(0x7FC00000), 0x7FC00000);
    assert_eq!(f32_round(0xFFC00000), 0xFFC00000);
    assert_eq!(f32_round(0xFF800001), 0xFFC00001);
}

#[test]
fn shift_right_jam_keeps_what_was_lost() {
    assert_eq!(f32_shift_right_jam(0b1000, 3), 0b1);
    assert_eq!(f32_shift_right_jam(0b1001, 3), 0b1);
    assert_eq!(f32_shift_right_jam(0b10000, 3), 0b10);
    assert_eq!(f32_shift_right_jam(0b10001, 3), 0b11);
    assert_eq!(f32_shift_right_jam(0b10100, 3), 0b11);
    assert_eq!(f32_shift_right_jam(0b11000, 3), 0b11);
    assert_eq!(f32_shift_right_jam(12345, 0), 12345);
    assert_eq!(f32_shift_right_jam(0, 5), 0);
    assert_eq!(f32_shift_right_jam(0x8000_0000, 31), 1);
    assert_eq!(f32_shift_right_jam(0xFFFF_FFFF, 31), 1);
    assert_eq!(f32_shift_right_jam(0x7FFF_FFFF, 31), 1);
    assert_eq!(f32_shift_right_jam(1, 31), 1);
    assert_eq!(f32_shift_right_jam(1, 32), 1);
    assert_eq!(f32_shift_right_jam(0xFFFF_FFFF, 32), 1);
    assert_eq!(f32_shift_right_jam(0xFFFF_FFFF, 1000), 1);
    assert_eq!(f32_shift_right_jam(0, 1000), 0);
    assert_eq!(f32_shift_right_jam(0x4000_0000, 30), 1);
    assert_eq!(f32_shift_right_jam(0x4000_0001, 30), 1);
    assert_eq!(f32_shift_right_jam(0x8000_0001, 30), 3);
}

#[test]
fn short_shift_right_jam64_keeps_what_was_lost() {
    assert_eq!(f32_short_shift_right_jam64(0x1_0000_0000, 32), 1);
    assert_eq!(f32_short_shift_right_jam64(0x2_0000_0000, 32), 2);
    assert_eq!(f32_short_shift_right_jam64(0x2_0000_0001, 32), 3);
    assert_eq!(f32_short_shift_right_jam64(0x3_0000_0001, 32), 3);
    assert_eq!(f32_short_shift_right_jam64(1, 1), 1);
    // a distance of nothing changes nothing
    assert_eq!(f32_short_shift_right_jam64(0, 0), 0);
    assert_eq!(f32_short_shift_right_jam64(6, 0), 6);
    assert_eq!(f32_short_shift_right_jam64(u64::MAX, 0), u64::MAX);
    assert_eq!(f32_short_shift_right_jam64(0, 63), 0);
    assert_eq!(f32_short_shift_right_jam64(u64::MAX, 63), 1);
    assert_eq!(f32_short_shift_right_jam64(0x8000_0000_0000_0000, 63), 1);
}

#[test]
fn count_leading_zero_at_every_position() {
    assert_eq!(f32_count_leading_zero(0), 32);
    for bit in 0..32u32 {
        let x = 1u32 << bit;
        assert_eq!(f32_count_leading_zero(x), (31 - bit) as i32);
        assert_eq!(f32_count_leading_zero(x | (x >> 1) | 1), (31 - bit) as i32);
        assert_eq!(f32_count_leading_zero(x | (x - 1)), x.leading_zeros() as i32);
    }
}

#[test]
fn norm_subnormal_frac_brings_the_leading_one_to_bit_23() {
    assert_eq!(f32_norm_subnormal_frac(1), (-22, 0x80_0000));
    assert_eq!(f32_norm_subnormal_frac(3), (-21, 0xC0_0000));
    assert_eq!(f32_norm_subnormal_frac(0x40_0000), (0, 0x80_0000));
    assert_eq!(f32_norm_subnormal_frac(0x7F_FFFF), (0, 0xFF_FFFE));
    assert_eq!(f32_norm_subnormal_frac(0x80_0000), (1, 0x80_0000));
    assert_eq!(f32_norm_subnormal_frac(0xFF_FFFF), (1, 0xFF_FFFF));
}

#[test]
fn round_and_pack_rounds_to_nearest_even() {
    // 1.0: leading one at bit 30, exponent one less than 0x7F
    assert_eq!(f32_round_and_pack(0, 0x7E, 0x4000_0000), 0x3F800000);
    assert_eq!(f32_round_and_pack(1, 0x7E, 0x4000_0000), 0xBF800000);
    // below half: down; half: to even; above half: up
    assert_eq!(f32_round_and_pack(0, 0x7E, 0x4000_003F), 0x3F800000);
    assert_eq!(f32_round_and_pack(0, 0x7E, 0x4000_0040), 0x3F800000);
    assert_eq!(f32_round_and_pack(0, 0x7E, 0x4000_0041), 0x3F800001);
    assert_eq!(f32_round_and_pack(0, 0x7E, 0x4000_00BF), 0x3F800001);
    assert_eq!(f32_round_and_pack(0, 0x7E, 0x4000_00C0), 0x3F800002);
    assert_eq!(f32_round_and_pack(0, 0x7E, 0x4000_00C1), 0x3F800002);
    // a carry out of the rounding raises the exponent
    assert_eq!(f32_round_and_pack(0, 0x7E, 0x7FFF_FFC0), 0x40000000);
    assert_eq!(f32_round_and_pack(0, 0x7E, 0x7FFF_FFBF), 0x3FFFFFFF);
}

#[test]
fn round_and_pack_overflows_to_infinity() {
    assert_eq!(f32_round_and_pack(0, 0xFD, 0x7FFF_FF80), 0x7F7FFFFF);
    assert_eq!(f32_round_and_pack(0, 0xFD, 0x7FFF_FFBF), 0x7F7FFFFF);
    assert_eq!(f32_round_and_pack(0, 0xFD, 0x7FFF_FFC0), 0x7F800000);
    assert_eq!(f32_round_and_pack(1, 0xFD, 0x7FFF_FFC0), 0xFF800000);
    assert_eq!(f32_round_and_pack(0, 0xFE, 0x4000_0000), 0x7F800000);
    assert_eq!(f32_round_and_pack(1, 0x1000, 0x4000_0000), 0xFF800000);
    assert_eq!(f32_round_and_pack(0, i32::MAX, 0), 0x7F800000);
}

#[test]
fn round_and_pack_underflows_to_subnormal_numbers_and_zero() {
    // the smallest normal number
    assert_eq!(f32_round_and_pack(0, 0, 0x4000_0000), 0x00800000);
    // half of it: the exponent is -1, the significand is shifted by one
    assert_eq!(f32_round_and_pack(0, -1, 0x4000_0000), 0x00400000);
    // the smallest subnormal number, and half of it, which is a tie and goes to zero
    assert_eq!(f32_round_and_pack(0, -23, 0x4000_0000), 0x00000001);
    assert_eq!(f32_round_and_pack(0, -24, 0x4000_0000), 0x00000000);
    assert_eq!(f32_round_and_pack(0, -24, 0x4000_0001), 0x00000001);
    assert_eq!(f32_round_and_pack(1, -24, 0x6000_0000), 0x80000001);
    assert_eq!(f32_round_and_pack(1, -25, 0x7FFF_FFFF), 0x80000000);
    assert_eq!(f32_round_and_pack(0, -31, 0x7FFF_FFFF), 0);
    assert_eq!(f32_round_and_pack(0, -32, 0x7FFF_FFFF), 0);
    assert_eq!(f32_round_and_pack(0, i32::MIN, 0x7FFF_FFFF), 0);
    assert_eq!(f32_round_and_pack(1, i32::MIN, 0x7FFF_FFFF), 0x80000000);
    // rounding up out of the subnormal range
    assert_eq!(f32_round_and_pack(0, -1, 0x7FFF_FFFF), 0x00800000);
    // a zero significand is zero at any exponent within range
    assert_eq!(f32_round_and_pack(0, 0x50, 0), 0);
    assert_eq!(f32_round_and_pack(1, 0x50, 0), 0x80000000);
}

#[test]
fn norm_round_and_pack_removes_leading_zeros() {
    // 1.0 with the leading one at bit 30, and at lower bits
    assert_eq!(f32_norm_round_and_pack(0, 0x7E, 0x4000_0000), 0x3F800000);
    assert_eq!(f32_norm_round_and_pack(0, 0x7E, 0x2000_0000), 0x3F000000);
    assert_eq!(f32_norm_round_and_pack(1, 0x7E, 0x0000_0001), 0xB0800000);
    assert_eq!(f32_norm_round_and_pack(0, 0x7E, 0x0000_0003), 0x31400000);
    // fewer than seven bits gained: the low bits are rounded
    assert_eq!(f32_norm_round_and_pack(0, 0x7E, 0x2000_0021), 0x3F000001);
    assert_eq!(f32_norm_round_and_pack(0, 0x7E, 0x2000_0020), 0x3F000000);
    // down into the subnormal numbers
    assert_eq!(f32_norm_round_and_pack(0, 0x10, 0x0000_0001), 0x00000200);
    assert_eq!(f32_norm_round_and_pack(0, 0, 0x2000_0000), 0x00400000);
    // nothing at all
    assert_eq!(f32_norm_round_and_pack(0, 0x7E, 0), 0);
    assert_eq!(f32_norm_round_and_pack(1, 0x7E, 0), 0x80000000);
}

#[test]
fn magnitudes_take_the_sign_of_the_first_operand() {
    // |1| + |-2| with the sign of 1
    assert_eq!(f32_add_mags(0x3F800000, 0xC0000000), 0x40400000);
    assert_eq!(f32_add_mags(0xBF800000, 0x40000000), 0xC0400000);
    // |1| - |-2| is negative, |-2| - |1| keeps the sign of -2
    assert_eq!(f32_sub_mags(0x3F800000, 0xC0000000), 0xBF800000);
    assert_eq!(f32_sub_mags(0xC0000000, 0x3F800000), 0xBF800000);
    assert_eq!(f32_sub_mags(0x40000000, 0x3F800000), 0x3F800000);
    // equal magnitudes give positive zero
    assert_eq!(f32_sub_mags(0xC0000000, 0x40000000), 0);
    assert_eq!(f32_sub_mags(0xC0000000, 0xC0000000), 0);
}

#[test]
fn subtraction_of_unlike_signs_adds() {
    // 1 - (-1) = 2, -1 - 1 = -2
    assert_eq!(f32_sub(0x3F800000, 0xBF800000), 0x40000000);
    assert_eq!(f32_sub(0xBF800000, 0x3F800000), 0xC0000000);
    // 0 - (-0.1) = 0.1
    assert_eq!(f32_sub(0x0, 0xBDCCCCCE), 0x3DCCCCCE);
    // -0 - 0 = -0, 0 - 0 = 0, -0 - (-0) = 0
    assert_eq!(f32_sub(0x80000000, 0), 0x80000000);
    assert_eq!(f32_sub(0x80000000, 0x80000000), 0);
    // Inf - (-Inf) = Inf
    assert_eq!(f32_sub(0x7F800000, 0xFF800000), 0x7F800000);
}

#[test]
fn addition_and_multiplication_commute() {
    let mut seed: u32 = 0xA5A5_5A5A;
    for _ in 0..100_000 {
        let a = next(&mut seed);
        let b = next(&mut seed) ^ (a & 0x7F80_0000);
        assert_eq!(f32_add(a, b), f32_add(b, a));
        assert_eq!(f32_mul(a, b), f32_mul(b, a));
    }
    assert_eq!(f32_add(0x7FC00000, 0x3FE00000), f32_add(0x3FE00000, 0x7FC00000));
    assert_eq!(f32_add(0x7F800001, 0xFFFFFFFF), f32_add(0xFFFFFFFF, 0x7F800001));
}

#[test]
fn zero_and_one_are_identities() {
    let mut seed: u32 = 0x0F0F_1234;
    for i in 0..100_000u32 {
        let mut a = next(&mut seed);
        if i % 4 == 0 {
            a &= 0x80FF_FFFF;
        }
        if f32_is_nan(a) {
            continue;
        }
        if a != 0x80000000 {
            assert_eq!(f32_add(a, 0), a);
        }
        assert_eq!(f32_mul(a, 0x3F800000), a);
    }
    // negative zero plus positive zero is positive zero
    assert_eq!(f32_add(0x80000000, 0), 0);
    assert_eq!(f32_add(0x80000000, 0x80000000), 0x80000000);
    assert_eq!(f32_mul(0x80000000, 0x3F800000), 0x80000000);
    assert_eq!(f32_mul(0xFF800000, 0x3F800000), 0xFF800000);
}

#[test]
fn a_number_less_itself_is_positive_zero() {
    let mut seed: u32 = 0x1357_9BDF;
    for _ in 0..100_000 {
        let a = next(&mut seed);
        if f32_exp(a) == 0xFF {
            continue;
        }
        assert_eq!(f32_sub(a, a), 0);
    }
    assert_eq!(f32_sub(0x80000000, 0x80000000), 0);
    assert_eq!(f32_sub(0x807FFFFF, 0x807FFFFF), 0);
    assert_eq!(f32_sub(0xFF7FFFFF, 0xFF7FFFFF), 0);
}
