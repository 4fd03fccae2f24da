use soft_f32::{
    f32_approx_recip, f32_approx_recip_sqrt, f32_correct_root, f32_is_nan, f32_root_by_bits,
    f32_sqrt,
};

fn next(seed: &mut u32) -> u32 {
    *seed ^= *seed << 13;
    *seed ^= *seed >> 17;
    *seed ^= *seed << 5;
    *seed
}

// An operand with its leading one at bit 31, and now and then one without.
fn operand(i: u32, seed: &mut u32) -> u32 {
    if i % 16 == 0 {
        next(seed) >> (i % 32)
    } else {
        next(seed) | 0x8000_0000
    }
}

#[test]
fn test_f32_sqrt() {
    // sqrt(0.01) = 0.1
    assert_eq!(f32_sqrt(0x3C23D70A), 0x3DCCCCCD);
    // sqrt(4) = 2
    assert_eq!(f32_sqrt(0x40800000), 0x40000000);

    // sqrt(0) = 0
    assert_eq!(f32_sqrt(0x00), 0x00);
    // sqrt(-0) = -0
    assert_eq!(f32_sqrt(0x80000000), 0x80000000);
}

#[test]
fn test_f32_sqrt_inf_nan() {
    // sqrt(Inf) = Inf
    assert_eq!(f32_sqrt(0x7F800000), 0x7F800000);
    // sqrt(-Inf) and sqrt(-1) are invalid
    assert_eq!(f32_sqrt(0xFF800000), 0x7FC00000);
    assert_eq!(f32_sqrt(0xBF800000), 0x7FC00000);
    assert_eq!(f32_sqrt(0x80000001), 0x7FC00000);
    // a NaN stays one, and a signaling one is quieted
    assert_eq!(f32_sqrt(0xFFFFFFFF), 0xFFFFFFFF);
    assert_eq!(f32_sqrt(0x7F800001), 0x7FC00001);
    assert_eq!(f32_is_nan(f32_sqrt(0xFFC12345)), true);
}

#[test]
fn sqrt_agrees_with_hardware() {
    let mut seed: u32 = 0x3C6E_F372;
    for i in 0..1_000_000u32 {
        let mut a = next(&mut seed) & 0x7FFF_FFFF;
        if i % 8 == 0 {
            // subnormal numbers and the smallest normal ones
            a &= 0x00FF_FFFF;
        }
        let x = f32::from_bits(a);
        if x.is_nan() {
            continue;
        }
        assert_eq!(f32_sqrt(a), x.sqrt().to_bits(), "sqrt({:#010x})", a);
    }
}

#[test]
fn sqrt_of_squares_is_exact() {
    for n in 1..4096u32 {
        let square = ((n * n) as f32).to_bits();
        assert_eq!(f32_sqrt(square), (n as f32).to_bits());
    }
    // the smallest subnormal number, the largest finite one
    assert_eq!(f32_sqrt(0x00000001), 0x1A3504F3);
    assert_eq!(f32_sqrt(0x7F7FFFFF), 0x5F7FFFFF);
    // sqrt(2)
    assert_eq!(f32_sqrt(0x40000000), 0x3FB504F3);
}

#[test]
fn correct_root_settles_any_estimate() {
    assert_eq!(f32_correct_root(0, 0), 0);
    assert_eq!(f32_correct_root(0, 5), 0);
    assert_eq!(f32_correct_root(1, 0), 1);
    assert_eq!(f32_correct_root(24, 100), 4);
    assert_eq!(f32_correct_root(25, 0), 5);
    assert_eq!(f32_correct_root(26, 7), 5);
    assert_eq!(f32_correct_root(0x3FFF_FFFF_FFFF_FFFF, u64::MAX), 0x7FFF_FFFF);
    assert_eq!(f32_correct_root(0x3FFF_FFFF_0000_0001, 0x7FFF_FFF0), 0x7FFF_FFFF);
    assert_eq!(f32_correct_root(0x3FFF_FFFF_0000_0000, 0x7FFF_FFFF), 0x7FFF_FFFE);
    assert_eq!(f32_correct_root(0x1000_0000_0000_0000, 0x4000_0003), 0x4000_0000);
}

#[test]
fn root_by_bits_is_the_integer_square_root() {
    assert_eq!(f32_root_by_bits(0), 0);
    assert_eq!(f32_root_by_bits(1), 1);
    assert_eq!(f32_root_by_bits(2), 1);
    assert_eq!(f32_root_by_bits(3), 1);
    assert_eq!(f32_root_by_bits(4), 2);
    assert_eq!(f32_root_by_bits(99), 9);
    assert_eq!(f32_root_by_bits(100), 10);
    assert_eq!(f32_root_by_bits(0x3FFF_FFFF_FFFF_FFFF), 0x7FFF_FFFF);
    assert_eq!(f32_root_by_bits(0x3FFF_FFFF_0000_0001), 0x7FFF_FFFF);
    assert_eq!(f32_root_by_bits(0x3FFF_FFFF_0000_0000), 0x7FFF_FFFE);
    let mut seed: u32 = 0x0BAD_CAFE;
    for _ in 0..50_000 {
        let x = (((next(&mut seed) as u64) << 32) | next(&mut seed) as u64) >> 2;
        let s = f32_root_by_bits(x);
        assert!(s * s <= x && x < (s + 1) * (s + 1));
        assert_eq!(f32_correct_root(x, next(&mut seed) as u64), s);
        assert_eq!(f32_correct_root(x, s + 3), s);
        assert_eq!(f32_correct_root(x, s.saturating_sub(4)), s);
        assert_eq!(f32_correct_root(x, s + 5), s);
    }
}

#[test]
fn root_estimate_is_within_two_of_the_root() {
    let mut seed: u32 = 0x7F4A_7C15;
    for _ in 0..500_000u32 {
        let r = next(&mut seed);
        let sig24 = 0x80_0000 | (r & 0x7F_FFFF);
        let odd = (r >> 31) & 1;
        let sig = sig24 << 8;
        let recip = f32_approx_recip_sqrt(odd, sig);
        assert!(recip >= 0x8000_0000);
        let mut estimate = (sig as u64 * recip as u64) >> 32;
        let radicand = if odd != 0 {
            estimate >>= 1;
            (sig24 as u64) << 37
        } else {
            (sig24 as u64) << 38
        };
        let root = f32_correct_root(radicand, estimate);
        let gap = if root > estimate { root - estimate } else { estimate - root };
        assert!(gap <= 2, "estimate {:#x} of root {:#x}", estimate, root);
    }
}

#[test]
fn recip_is_the_quotient_rounded_down() {
    let mut seed: u32 = 0x5851_F42D;
    for i in 0..500_000u32 {
        let a = operand(i, &mut seed);
        let r = f32_approx_recip(a) as u64;
        let exact = if a == 0 {
            0xFFFF_FFFF
        } else {
            (0x8000_0000_0000_0000u64 / a as u64).min(0xFFFF_FFFF)
        };
        assert_eq!(r, exact, "recip({:#010x})", a);
        if a > 0x8000_0000 {
            assert!(r * a as u64 <= 0x8000_0000_0000_0000);
            assert!((r + 1) * a as u64 > 0x8000_0000_0000_0000);
        }
    }
}

#[test]
fn recip_sqrt_is_the_root_of_the_quotient_rounded_down() {
    let mut seed: u32 = 0x2C1B_3C6D;
    for i in 0..500_000u32 {
        let a = operand(i, &mut seed);
        let odd = next(&mut seed) & 1;
        let r = f32_approx_recip_sqrt(odd, a) as u128;
        let bound: u128 = 1u128 << (94 + odd);
        assert!(r >= 0x8000_0000);
        if a >= 0x8000_0000 {
            assert!(r * r * a as u128 <= bound, "recip_sqrt({}, {:#010x}) = {:#x}", odd, a, r);
            assert!((r + 1) * (r + 1) * a as u128 >= bound);
            if r < 0xFFFF_FFFF {
                assert!((r + 1) * (r + 1) * a as u128 > bound);
            }
        } else if r > 0x8000_0000 {
            assert!(r * r * a as u128 <= bound);
            assert!(r == 0xFFFF_FFFF || (r + 1) * (r + 1) * a as u128 > bound);
        } else {
            assert!((r + 1) * (r + 1) * a as u128 > bound);
        }
    }
}

#[test]
fn approximations_at_chosen_arguments() {
    assert_eq!(f32_approx_recip(0x8000_0000), 0xFFFF_FFFF);
    assert_eq!(f32_approx_recip(0x8000_0001), 0xFFFF_FFFE);
    assert_eq!(f32_approx_recip(0xFFFF_FFFF), 0x8000_0000);
    assert_eq!(f32_approx_recip(0xC000_0000), 0xAAAA_AAAA);
    assert_eq!(f32_approx_recip(0x8000_0100), 0xFFFF_FE00);
    // operands without their leading one at bit 31: the quotient does not fit
    assert_eq!(f32_approx_recip(0), 0xFFFF_FFFF);
    assert_eq!(f32_approx_recip(1), 0xFFFF_FFFF);
    assert_eq!(f32_approx_recip(0x1234_5678), 0xFFFF_FFFF);
    assert_eq!(f32_approx_recip_sqrt(0, 0x8000_0000), 0xB504_F333);
    assert_eq!(f32_approx_recip_sqrt(1, 0x8000_0000), 0xFFFF_FFFF);
    assert_eq!(f32_approx_recip_sqrt(0, 0xFFFF_FFFF), 0x8000_0000);
    assert_eq!(f32_approx_recip_sqrt(1, 0xFFFF_FFFF), 0xB504_F334);
    assert_eq!(f32_approx_recip_sqrt(0, 0xC000_0000), 0x93CD_3A2C);
    assert_eq!(f32_approx_recip_sqrt(1, 0xC000_0000), 0xD105_EB80);
    assert_eq!(f32_approx_recip_sqrt(0, 0x8000_0100), 0xB504_F27E);
    assert_eq!(f32_approx_recip_sqrt(1, 0x8000_0100), 0xFFFF_FF00);
    assert_eq!(f32_approx_recip_sqrt(0, 0), 0xFFFF_FFFF);
    assert_eq!(f32_approx_recip_sqrt(1, 1), 0xFFFF_FFFF);
    assert_eq!(f32_approx_recip_sqrt(0, 0x1234_5678), 0xFFFF_FFFF);
}
