use soft_f32::{f32_add, f32_div, f32_is_nan, f32_mul, f32_sub, test_nan};

#[test]
fn soft_f32_test_f32_add() {
    // 0.1 + 0.2 = 0.3
    assert_eq!(f32_add(0x3DCCCCCD, 0x3E4CCCCD), 0x3E99999A);
    // -0.1 + -0.2 = -0.3
    assert_eq!(f32_add(0xBDCCCCCD, 0xBE4CCCCD), 0xBE99999A);

    // 12345 + 67890 = 80235
    assert_eq!(f32_add(0x4640E400, 0x47849900), 0x479CB580);
    // -12345 + -67890 = -80235
    assert_eq!(f32_add(0xC640E400, 0xC7849900), 0xC79CB580);

    // 0.002 + 0.002 = 0.004
    assert_eq!(f32_add(0x3B03126F, 0x3B03126F), 0x3B83126F);
    // -0.002 + -0.002 = -0.004
    assert_eq!(f32_add(0xBB03126F, 0xBB03126F), 0xBB83126F);

    // -0.1 + 0.2 = 0.1
    assert_eq!(f32_add(0xBDCCCCCD, 0x3E4CCCCD), 0x3DCCCCCD);
    // 0.1 + -0.2 = -0.1
    assert_eq!(f32_add(0x3DCCCCCD, 0xBE4CCCCD), 0xBDCCCCCD);
}

#[test]
fn soft_f32_test_f32_sub() {
    // 80235 - 67890 = 12345
    assert_eq!(f32_sub(0x479CB580, 0x47849900), 0x4640E400);

    // 0.004 - 0.004 = 0
    assert_eq!(f32_sub(0x3B83126F, 0x3B83126F), 0x00000000);
}

#[test]
fn soft_f32_test_f32_add_inf_nan() {
    // Inf + 1 = Inf
    assert_eq!(f32_add(0x7F800000, 0x3F800000), 0x7F800000);

    // -Inf + 1 = -Inf
    assert_eq!(f32_add(0xFF800000, 0x3F800000), 0xFF800000);

    // -Inf + Inf = NaN
    assert_eq!(f32_is_nan(f32_add(0xFF800000, 0x7F800000)), true);

    // Inf + -1 = Inf
    assert_eq!(f32_add(0x7F800000, 0x3F800000), 0x7F800000);

    // -Inf + -1 = -Inf
    assert_eq!(f32_add(0xFF800000, 0x3F800000), 0xFF800000);

    // NaN + 1 = NaN
    assert_eq!(f32_add(0xFFFFFFFF, 0x3F800000), 0xFFFFFFFF);

    // NaN + -1 = NaN
    assert_eq!(f32_is_nan(f32_add(0xFFFFFFFF, 0x3F800000)), true);

    // NaN + Inf = NaN
    assert_eq!(f32_is_nan(f32_add(0xFFFFFFFF, 0x7F800000)), true);

    // NaN + -Inf = NaN
    assert_eq!(f32_is_nan(f32_add(0xFFFFFFFF, 0xFF800000)), true);
}

#[test]
fn soft_f32_add_test_f32_add() {
    // 0.1 + 0.2 = 0.3
    assert_eq!(f32_add(0x3DCCCCCD, 0x3E4CCCCD), 0x3E99999A);
    // -0.1 + -0.2 = -0.3
    assert_eq!(f32_add(0xBDCCCCCD, 0xBE4CCCCD), 0xBE99999A);

    // 12345 + 67890 = 80235
    assert_eq!(f32_add(0x4640E400, 0x47849900), 0x479CB580);
    // -12345 + -67890 = -80235
    assert_eq!(f32_add(0xC640E400, 0xC7849900), 0xC79CB580);

    // 0.002 + 0.002 = 0.004
    assert_eq!(f32_add(0x3B03126F, 0x3B03126F), 0x3B83126F);
    // -0.002 + -0.002 = -0.004
    assert_eq!(f32_add(0xBB03126F, 0xBB03126F), 0xBB83126F);

    // -0.1 + 0.2 = 0.1
    assert_eq!(f32_add(0xBDCCCCCD, 0x3E4CCCCD), 0x3DCCCCCD);
    // 0.1 + -0.2 = -0.1
    assert_eq!(f32_add(0x3DCCCCCD, 0xBE4CCCCD), 0xBDCCCCCD);

    // 3.4028235E38 + 1.701412E38 = Inf
    assert_eq!(f32_add(0x7F7FFFFF, 0x7F000001), 0x7F800000);
}

#[test]
fn soft_f32_add_test_f32_add_inf_nan() {
    // Inf + 1 = Inf
    assert_eq!(f32_add(0x7F800000, 0x3F800000), 0x7F800000);

    // -Inf + 1 = -Inf
    assert_eq!(f32_add(0xFF800000, 0x3F800000), 0xFF800000);

    // -Inf + Inf = NaN
    assert_eq!(f32_is_nan(f32_add(0xFF800000, 0x7F800000)), true);

    // Inf + -1 = Inf
    assert_eq!(f32_add(0x7F800000, 0x3F800000), 0x7F800000);

    // -Inf + -1 = -Inf
    assert_eq!(f32_add(0xFF800000, 0x3F800000), 0xFF800000);

    // common tests about NaN
    assert!(test_nan(f32_add));

    // NaN + 1 = NaN
    assert_eq!(f32_add(0xFFFFFFFF, 0x3F800000), 0xFFFFFFFF);

    // NaN + -1 = NaN
    assert_eq!(f32_is_nan(f32_add(0xFFFFFFFF, 0x3F800000)), true);

    // NaN + Inf = NaN
    assert_eq!(f32_is_nan(f32_add(0xFFFFFFFF, 0x7F800000)), true);

    // NaN + -Inf = NaN
    assert_eq!(f32_is_nan(f32_add(0xFFFFFFFF, 0xFF800000)), true);
}

#[test]
fn soft_f32_sub_test_f32_sub() {
    // 0.3 - 0.2 = 0.1
    assert_eq!(f32_sub(0x3E99999A, 0x3E4CCCCD), 0x3DCCCCCE);

    // 0.2 - 0.3 = -0.1
    assert_eq!(f32_sub(0x3E4CCCCD, 0x3E99999A), 0xBDCCCCCE);

    // 80235 - 67890 = 12345
    assert_eq!(f32_sub(0x479CB580, 0x47849900), 0x4640E400);

    // 0.004 - 0.004 = 0
    assert_eq!(f32_sub(0x3B83126F, 0x3B83126F), 0x00000000);

    assert_eq!(f32_sub(0x0, 0x3DCCCCCE), 0xBDCCCCCE);
    assert_eq!(f32_sub(0x0, 0x0), 0x0);
    assert_eq!(f32_sub(0x0, 0x80000000), 0x0);
}

#[test]
fn test_f32_mul() {
    // 0.1 x 0.2 = 0.02
    assert_eq!(f32_mul(0x3DCCCCCD, 0x3E4CCCCD), 0x3CA3D70B);
    // -0.1 x -0.2 = 0.02
    assert_eq!(f32_mul(0xBDCCCCCD, 0xBE4CCCCD), 0x3CA3D70B);

    // 12345 x 67890 = 8.381021E8
    assert_eq!(f32_mul(0x4640E400, 0x47849900), 0x4E47D1B1);
    // -12345 x -67890 = 8.381021E8
    assert_eq!(f32_mul(0xC640E400, 0xC7849900), 0x4E47D1B1);

    // -0.1 x 0.2 = -0.02
    assert_eq!(f32_mul(0xBDCCCCCD, 0x3E4CCCCD), 0xBCA3D70B);
    // 0.1 x -0.2 = -0.02
    assert_eq!(f32_mul(0x3DCCCCCD, 0xBE4CCCCD), 0xBCA3D70B);
}

#[test]
fn test_f32_mul_inf_nan() {
    // Inf x 1 = Inf
    assert_eq!(f32_mul(0x7F800000, 0x3F800000), 0x7F800000);

    // -Inf x 1 = -Inf
    assert_eq!(f32_mul(0xFF800000, 0x3F800000), 0xFF800000);

    // -Inf x Inf = -Inf
    assert_eq!(f32_mul(0xFF800000, 0x7F800000), 0xFF800000);

    // Inf x -1 = -Inf
    assert_eq!(f32_mul(0x7F800000, 0xBF800000), 0xFF800000);

    // -Inf x -1 = Inf
    assert_eq!(f32_mul(0xFF800000, 0xBF800000), 0x7F800000);

    // NaN x 1 = NaN
    assert_eq!(f32_is_nan(f32_mul(0xFFFFFFFF, 0x3F800000)), true);

    // NaN x -1 = NaN
    assert_eq!(f32_is_nan(f32_mul(0xFFFFFFFF, 0x3F800000)), true);

    // NaN x Inf = NaN
    assert_eq!(f32_is_nan(f32_mul(0xFFFFFFFF, 0x7F800000)), true);

    // NaN x -Inf = NaN
    assert_eq!(f32_is_nan(f32_mul(0xFFFFFFFF, 0xFF800000)), true);
}

#[test]
fn test_f32_div() {
    // 0.1 / 0.2 = 0.5
    assert_eq!(f32_div(0x3DCCCCCD, 0x3E4CCCCD), 0x3F000000);
    // -0.1 / -0.2 = 0.5
    assert_eq!(f32_div(0xBDCCCCCD, 0xBE4CCCCD), 0x3F000000);

    // 12345 / 67890 = 0.18183827
    assert_eq!(f32_div(0x4640E400, 0x47849900), 0x3E3A33D0);
    // -12345 / -67890 = 0.18183827
    assert_eq!(f32_div(0xC640E400, 0xC7849900), 0x3E3A33D0);

    // -0.1 / 0.2 = -0.5
    assert_eq!(f32_div(0xBDCCCCCD, 0x3E4CCCCD), 0xBF000000);
    // 0.1 / -0.2 = -0.5
    assert_eq!(f32_div(0x3DCCCCCD, 0xBE4CCCCD), 0xBF000000);
}

#[test]
fn test_f32_div_inf_nan() {
    // 1 / 0 = Inf
    assert_eq!(f32_div(0x3F800000, 0x00000000), 0x7F800000);

    //  1 / -0 = -Inf
    assert_eq!(f32_div(0x3F800000, 0x80000000), 0xFF800000);

    // Inf / 1 = Inf
    assert_eq!(f32_div(0x7F800000, 0x3F800000), 0x7F800000);

    // -Inf / 1 = -Inf
    assert_eq!(f32_div(0xFF800000, 0x3F800000), 0xFF800000);

    // -Inf / Inf is invalid
    assert_eq!(f32_is_nan(f32_div(0xFF800000, 0x7F800000)), true);

    // Inf / -1 = -Inf
    assert_eq!(f32_div(0x7F800000, 0xBF800000), 0xFF800000);

    // -Inf / -1 = Inf
    assert_eq!(f32_div(0xFF800000, 0xBF800000), 0x7F800000);

    // NaN / 1 = NaN
    assert_eq!(f32_is_nan(f32_div(0xFFFFFFFF, 0x3F800000)), true);

    // NaN / -1 = NaN
    assert_eq!(f32_is_nan(f32_div(0xFFFFFFFF, 0x3F800000)), true);

    // NaN / Inf = NaN
    assert_eq!(f32_is_nan(f32_div(0xFFFFFFFF, 0x7F800000)), true);

    // NaN / -Inf = NaN
    assert_eq!(f32_is_nan(f32_div(0xFFFFFFFF, 0xFF800000)), true);
}

#[test]
fn every_operator_passes_the_nan_probe() {
    assert!(test_nan(f32_add));
    assert!(test_nan(f32_sub));
    assert!(test_nan(f32_mul));
    assert!(test_nan(f32_div));
    assert!(test_nan(|a, _b| a));
}

#[test]
fn the_nan_probe_fails_an_operation_that_loses_the_nan() {
    assert!(!test_nan(|_a, _b| 0x3F800000));
    assert!(!test_nan(|_a, b| b));
    // infinity for a NaN against infinity, NaN elsewhere
    assert!(!test_nan(|a, b| if b == 0x7F800000 { b } else { a }));
    // only the last probe fails
    assert!(!test_nan(|a, _b| if a == 0xFFFFF114 { 0 } else { a }));
}
