use soft_f32::{f32_eq, f32_ge, f32_gt, f32_le, f32_lt, f32_ne};

#[test]
fn test_f32_eq() {
    // 0.3 == 0.2 - false
    assert_eq!(f32_eq(0x3E99999A, 0x3E4CCCCD), false);

    // 0.2 == 0.3 - false
    assert_eq!(f32_eq(0x3E4CCCCD, 0x3E99999A), false);

    // -0.1 == -0.2 - false
    assert_eq!(f32_eq(0xBDCCCCCD, 0xBE4CCCCD), false);

    // -0.2 == -0.1 - false
    assert_eq!(f32_eq(0xBE4CCCCD, 0xBDCCCCCD), false);

    // 0.2 == 0.2 - true
    assert_eq!(f32_eq(0x3E4CCCCD, 0x3E4CCCCD), true);

    // -0.2 == 0.2 - false
    assert_eq!(f32_eq(0xBE4CCCCD, 0x3E4CCCCD), false);

    // Inf == 0.004 - false
    assert_eq!(f32_eq(0x7F800000, 0x3B83126F), false);

    // -Inf == 0.004 - false
    assert_eq!(f32_eq(0xFF800000, 0x3B83126F), false);

    // -Inf == Inf - false
    assert_eq!(f32_eq(0xFF800000, 0x7F800000), false);

    // -Inf == Nan - false
    assert_eq!(f32_eq(0xFF800000, 0xFFFFFFFF), false);

    // Inf == Nan - false
    assert_eq!(f32_eq(0x7F800000, 0xFFFFFFFF), false);

    // Nan == Nan - false
    assert_eq!(f32_eq(0xFFFFFFFF, 0xFFFFFFFF), false);

    // -Inf == -Inf - true
    assert_eq!(f32_eq(0xFF800000, 0xFF800000), true);

    // Inf == Inf - true
    assert_eq!(f32_eq(0x7F800000, 0x7F800000), true);
}

#[test]
fn test_f32_lt() {
    // 0.3 < 0.2 - false
    assert_eq!(f32_lt(0x3E99999A, 0x3E4CCCCD), false);

    // 0.2 < 0.3 - true
    assert_eq!(f32_lt(0x3E4CCCCD, 0x3E99999A), true);

    // -0.1 < -0.2 - false
    assert_eq!(f32_lt(0xBDCCCCCD, 0xBE4CCCCD), false);

    // -0.2 < -0.1 - true
    assert_eq!(f32_lt(0xBE4CCCCD, 0xBDCCCCCD), true);

    // 0.2 < 0.2 - false
    assert_eq!(f32_lt(0x3E4CCCCD, 0x3E4CCCCD), false);

    // -0.2 < 0.2 - true
    assert_eq!(f32_lt(0xBE4CCCCD, 0x3E4CCCCD), true);

    // Inf < 0.004 - false
    assert_eq!(f32_lt(0x7F800000, 0x3B83126F), false);

    // -Inf < 0.004 - true
    assert_eq!(f32_lt(0xFF800000, 0x3B83126F), true);

    // -Inf < Inf - true
    assert_eq!(f32_lt(0xFF800000, 0x7F800000), true);

    // -Inf < Nan - false
    assert_eq!(f32_lt(0xFF800000, 0xFFFFFFFF), false);

    // Inf < Nan - false
    assert_eq!(f32_lt(0x7F800000, 0xFFFFFFFF), false);

    // Nan < Nan - false
    assert_eq!(f32_lt(0xFFFFFFFF, 0xFFFFFFFF), false);
}

#[test]
fn test_f32_le() {
    // 0.3 <= 0.2 - false
    assert_eq!(f32_le(0x3E99999A, 0x3E4CCCCD), false);

    // 0.2 <= 0.3 - true
    assert_eq!(f32_le(0x3E4CCCCD, 0x3E99999A), true);

    // -0.1 <= -0.2 - false
    assert_eq!(f32_le(0xBDCCCCCD, 0xBE4CCCCD), false);

    // -0.2 <= -0.1 - true
    assert_eq!(f32_le(0xBE4CCCCD, 0xBDCCCCCD), true);

    // 0.2 <= 0.2 - true
    assert_eq!(f32_le(0x3E4CCCCD, 0x3E4CCCCD), true);

    // -0.2 <= 0.2 - true
    assert_eq!(f32_le(0xBE4CCCCD, 0x3E4CCCCD), true);

    // Inf <= 0.004 - false
    assert_eq!(f32_le(0x7F800000, 0x3B83126F), false);

    // -Inf <= 0.004 - true
    assert_eq!(f32_le(0xFF800000, 0x3B83126F), true);

    // -Inf <= Inf - true
    assert_eq!(f32_le(0xFF800000, 0x7F800000), true);

    // -Inf <= Nan - false
    assert_eq!(f32_le(0xFF800000, 0xFFFFFFFF), false);

    // Inf <= Nan - false
    assert_eq!(f32_le(0x7F800000, 0xFFFFFFFF), false);

    // Nan <= Nan - false
    assert_eq!(f32_le(0xFFFFFFFF, 0xFFFFFFFF), false);
}

#[test]
fn relations_are_false_on_nan_and_ne_too() {
    for nan in [0x7FC00000u32, 0xFFC00000, 0x7F800001, 0xFFFFFFFF] {
        for x in [0u32, 0x80000000, 0x3F800000, 0x7F800000, 0xFF800000, nan] {
            assert_eq!(f32_eq(nan, x), false);
            assert_eq!(f32_ne(nan, x), false);
            assert_eq!(f32_lt(nan, x), false);
            assert_eq!(f32_le(nan, x), false);
            assert_eq!(f32_gt(nan, x), false);
            assert_eq!(f32_ge(nan, x), false);
            assert_eq!(f32_eq(x, nan), false);
            assert_eq!(f32_ne(x, nan), false);
            assert_eq!(f32_lt(x, nan), false);
            assert_eq!(f32_le(x, nan), false);
            assert_eq!(f32_gt(x, nan), false);
            assert_eq!(f32_ge(x, nan), false);
        }
    }
}

#[test]
fn zeros_of_either_sign_are_equal() {
    assert_eq!(f32_eq(0, 0x80000000), true);
    assert_eq!(f32_ne(0, 0x80000000), false);
    assert_eq!(f32_lt(0x80000000, 0), false);
    assert_eq!(f32_le(0x80000000, 0), true);
    assert_eq!(f32_gt(0, 0x80000000), false);
    assert_eq!(f32_ge(0, 0x80000000), true);
}

#[test]
fn exactly_one_of_lt_eq_gt_holds() {
    let samples = [
        0u32, 0x80000000, 1, 0x80000001, 0x007FFFFF, 0x00800000, 0x3F800000, 0xBF800000,
        0x3DCCCCCD, 0xBE4CCCCD, 0x7F7FFFFF, 0xFF7FFFFF, 0x7F800000, 0xFF800000,
    ];
    for &a in samples.iter() {
        for &b in samples.iter() {
            let n = f32_lt(a, b) as u32 + f32_eq(a, b) as u32 + f32_gt(a, b) as u32;
            assert_eq!(n, 1);
            assert_eq!(f32_ne(a, b), !f32_eq(a, b));
            assert_eq!(f32_le(a, b), f32_lt(a, b) || f32_eq(a, b));
            assert_eq!(f32_ge(a, b), f32_gt(a, b) || f32_eq(a, b));
            let x = f32::from_bits(a);
            let y = f32::from_bits(b);
            assert_eq!(f32_lt(a, b), x < y);
            assert_eq!(f32_eq(a, b), x == y);
            assert_eq!(f32_gt(a, b), x > y);
        }
    }
}
