use soft_f32::{f32_round, from_int32, to_int32};

#[test]
fn test_f32_round() {
    // round(0.01) = 0
    assert_eq!(f32_round(0x3C23D70A), 0x00000000);
    // round(4) = 4
    assert_eq!(f32_round(0x40800000), 0x40800000);
}

#[test]
fn test_f32_to_i32() {
    // round(0.01) = 0
    assert_eq!(to_int32(0x3C23D70A), 0);
    // round(4) = 4
    assert_eq!(to_int32(0x40800000), 4);
    // round(244.5) = 244
    assert_eq!(to_int32(0x43748000), 244);
    // round(128.2) = 128
    assert_eq!(to_int32(0x43003333), 128);
}

#[test]
fn test_i32_to_f32() {
    // from_int32(0) = 0.0
    assert_eq!(from_int32(0), 0x0);

    // from_int32(4) = 4.0
    assert_eq!(from_int32(4), 0x40800000);

    // from_int32(-4) = -4.0
    assert_eq!(from_int32(-4), 0xC0800000);

    // from_int32(80235) = 0x479CB580
    assert_eq!(from_int32(80235), 0x479CB580);

    // from_int32(-80235) = 0xC79CB580
    assert_eq!(from_int32(-80235), 0xC79CB580);
}

#[test]
fn round_goes_to_nearest_and_ties_to_even() {
    // 0.5 -> 0, 0.75 -> 1, 1.5 -> 2, 2.5 -> 2, 3.5 -> 4
    assert_eq!(f32_round(0x3F000000), 0x00000000);
    assert_eq!(f32_round(0x3F400000), 0x3F800000);
    assert_eq!(f32_round(0x3FC00000), 0x40000000);
    assert_eq!(f32_round(0x40200000), 0x40000000);
    assert_eq!(f32_round(0x40600000), 0x40800000);
    // -0.25 -> -0, -0.5 -> -0, -0.75 -> -1, -2.5 -> -2
    assert_eq!(f32_round(0xBE800000), 0x80000000);
    assert_eq!(f32_round(0xBF000000), 0x80000000);
    assert_eq!(f32_round(0xBF400000), 0xBF800000);
    assert_eq!(f32_round(0xC0200000), 0xC0000000);
    // zeros, infinities and large numbers are left alone
    assert_eq!(f32_round(0), 0);
    assert_eq!(f32_round(0x80000000), 0x80000000);
    assert_eq!(f32_round(0x7F800000), 0x7F800000);
    assert_eq!(f32_round(0xFF800000), 0xFF800000);
    assert_eq!(f32_round(0x4B000001), 0x4B000001);
    // 8388607.5 -> 8388608
    assert_eq!(f32_round(0x4AFFFFFF), 0x4B000000);
    // a signaling NaN is quieted
    assert_eq!(f32_round(0x7F800001), 0x7FC00001);
}

#[test]
fn round_agrees_with_hardware() {
    let mut seed: u32 = 0x1234_5678;
    for i in 0..500_000u32 {
        seed = seed.wrapping_mul(1664525).wrapping_add(1013904223);
        // keep the exponent near the range where rounding does something
        let a = if i % 2 == 0 {
            seed
        } else {
            (seed & 0x807F_FFFF) | ((0x70 + (seed >> 23) % 0x30) << 23)
        };
        let x = f32::from_bits(a);
        if x.is_nan() {
            continue;
        }
        assert_eq!(f32_round(a), x.round_ties_even().to_bits(), "round({:#010x})", a);
    }
}

#[test]
fn to_int32_saturates() {
    // 2^31 and above
    assert_eq!(to_int32(0x4F000000), i32::MAX);
    assert_eq!(to_int32(0x7F7FFFFF), i32::MAX);
    // -2^31 exactly, and below
    assert_eq!(to_int32(0xCF000000), i32::MIN);
    assert_eq!(to_int32(0xCF000001), i32::MIN);
    assert_eq!(to_int32(0xFF7FFFFF), i32::MIN);
    // the largest number below 2^31
    assert_eq!(to_int32(0x4EFFFFFF), 2147483520);
    assert_eq!(to_int32(0xCEFFFFFF), -2147483520);
    // infinities
    assert_eq!(to_int32(0x7F800000), i32::MAX);
    assert_eq!(to_int32(0xFF800000), i32::MIN);
    // NaNs of every sort
    assert_eq!(to_int32(0x7FC00000), i32::MAX);
    assert_eq!(to_int32(0xFFC00000), i32::MAX);
    assert_eq!(to_int32(0x7F800001), i32::MAX);
    assert_eq!(to_int32(0xFFFFFFFF), i32::MAX);
    // zeros and numbers that round to zero
    assert_eq!(to_int32(0), 0);
    assert_eq!(to_int32(0x80000000), 0);
    assert_eq!(to_int32(0x00000001), 0);
    assert_eq!(to_int32(0x3F000000), 0);
    assert_eq!(to_int32(0xBF000000), 0);
    // 0.75 -> 1, -1.5 -> -2, 245.5 -> 246
    assert_eq!(to_int32(0x3F400000), 1);
    assert_eq!(to_int32(0xBFC00000), -2);
    assert_eq!(to_int32(0x43758000), 246);
}

#[test]
fn to_int32_agrees_with_hardware() {
    let mut seed: u32 = 0x0BAD_5EED;
    for i in 0..500_000u32 {
        seed = seed.wrapping_mul(1664525).wrapping_add(1013904223);
        let a = if i % 2 == 0 {
            seed
        } else {
            (seed & 0x807F_FFFF) | ((0x70 + (seed >> 23) % 0x38) << 23)
        };
        let x = f32::from_bits(a);
        if x.is_nan() {
            continue;
        }
        // `as` saturates
        assert_eq!(to_int32(a), x.round_ties_even() as i32, "to_int32({:#010x})", a);
    }
}

#[test]
fn from_int32_is_exact_up_to_24_bits() {
    let mut n: i32 = -0x0100_0000;
    while n <= 0x0100_0000 {
        assert_eq!(from_int32(n), (n as f32).to_bits(), "from_int32({})", n);
        n += 997;
    }
    assert_eq!(from_int32(0x0100_0000), 0x4B800000);
    assert_eq!(from_int32(-0x0100_0000), 0xCB800000);
    assert_eq!(from_int32(1), 0x3F800000);
    assert_eq!(from_int32(-1), 0xBF800000);
}

#[test]
fn from_int32_keeps_the_leading_bits_of_wide_integers() {
    // 2^24 + 1 loses its last bit
    assert_eq!(from_int32(0x0100_0001), 0x4B800000);
    // 2^24 + 3 is cut down to 2^24 + 2
    assert_eq!(from_int32(0x0100_0003), 0x4B800001);
    assert_eq!(from_int32(i32::MAX), 0x4EFFFFFF);
    assert_eq!(from_int32(i32::MIN), 0xCF000000);
    assert_eq!(from_int32(i32::MIN + 1), 0xCEFFFFFF);
}

#[test]
fn integers_up_to_24_bits_round_trip() {
    let mut n: i32 = -0x0100_0000;
    while n <= 0x0100_0000 {
        assert_eq!(to_int32(from_int32(n)), n);
        n += 1009;
    }
    for n in [0, 1, -1, 0x00FF_FFFF, -0x00FF_FFFF, 0x0100_0000, -0x0100_0000] {
        assert_eq!(to_int32(from_int32(n)), n);
    }
}
