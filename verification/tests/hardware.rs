use soft_f32::{f32_add, f32_div, f32_is_nan, f32_mul, f32_sub};

fn next(seed: &mut u32) -> u32 {
    *seed ^= *seed << 13;
    *seed ^= *seed >> 17;
    *seed ^= *seed << 5;
    *seed
}

// A pattern whose exponent lies near that of `a`, so that sums cancel and
// align in every way; now and then an edge of the exponent range.
fn neighbour(a: u32, r: u32) -> u32 {
    let exp = (a >> 23) & 0xFF;
    let delta = (r >> 8) % 60;
    let e = match r % 8 {
        0 => 0,
        1 => 1,
        2 => 0xFE,
        3 => (exp + delta) & 0xFF,
        4 => exp.wrapping_sub(delta) & 0xFF,
        5 => exp,
        6 => (exp + delta % 3) & 0xFF,
        _ => (r >> 23) & 0xFF,
    };
    let frac = match (r >> 3) % 4 {
        0 => 0,
        1 => 0x7F_FFFF,
        2 => a & 0x7F_FFFF,
        _ => (r >> 9) & 0x7F_FFFF,
    };
    (r & 0x8000_0000) | (e << 23) | frac
}

fn operand(i: u32, seed: &mut u32) -> u32 {
    if i % 4 == 0 {
        neighbour(next(seed), next(seed))
    } else {
        next(seed)
    }
}

fn check(name: &str, a: u32, b: u32, got: u32, want: f32) {
    if want.is_nan() {
        assert!(f32_is_nan(got), "{}({:#010x}, {:#010x}) = {:#010x}, want a NaN", name, a, b, got);
    } else {
        assert_eq!(got, want.to_bits(), "{}({:#010x}, {:#010x})", name, a, b);
    }
}

fn is_nan(a: u32) -> bool {
    f32::from_bits(a).is_nan()
}

#[test]
fn add_and_sub_agree_with_hardware() {
    let mut seed: u32 = 0x2545_F491;
    for i in 0..1_000_000u32 {
        let a = operand(i, &mut seed);
        let b = neighbour(a, next(&mut seed));
        if is_nan(a) || is_nan(b) {
            continue;
        }
        let x = f32::from_bits(a);
        let y = f32::from_bits(b);
        check("add", a, b, f32_add(a, b), x + y);
        check("sub", a, b, f32_sub(a, b), x - y);
    }
}

#[test]
fn mul_agrees_with_hardware() {
    let mut seed: u32 = 0x9E37_79B9;
    for i in 0..1_000_000u32 {
        let a = operand(i, &mut seed);
        let b = if i % 2 == 0 {
            // exponents that bring the product near the ends of the range
            let spread = next(&mut seed) % 170;
            let e = (0xFEu32 + 0x7F).wrapping_sub((a >> 23) & 0xFF).wrapping_sub(spread) & 0xFF;
            (next(&mut seed) & 0x807F_FFFF) | (e << 23)
        } else {
            neighbour(a, next(&mut seed))
        };
        if is_nan(a) || is_nan(b) {
            continue;
        }
        check("mul", a, b, f32_mul(a, b), f32::from_bits(a) * f32::from_bits(b));
    }
}

#[test]
fn div_agrees_with_hardware() {
    let mut seed: u32 = 0x6C07_8965;
    for i in 0..1_000_000u32 {
        let a = operand(i, &mut seed);
        let b = if i % 2 == 0 {
            let spread = next(&mut seed) % 170;
            let e = ((a >> 23) & 0xFF).wrapping_add(spread).wrapping_sub(0x7F + 20) & 0xFF;
            (next(&mut seed) & 0x807F_FFFF) | (e << 23)
        } else {
            neighbour(a, next(&mut seed))
        };
        if is_nan(a) || is_nan(b) {
            continue;
        }
        check("div", a, b, f32_div(a, b), f32::from_bits(a) / f32::from_bits(b));
    }
}

#[test]
fn subnormal_results_agree_with_hardware() {
    let mut seed: u32 = 0x1F12_3BB5;
    for _ in 0..500_000u32 {
        // two small numbers
        let a = (next(&mut seed) & 0x807F_FFFF) | ((next(&mut seed) % 4) << 23);
        let b = (next(&mut seed) & 0x807F_FFFF) | ((next(&mut seed) % 4) << 23);
        let x = f32::from_bits(a);
        let y = f32::from_bits(b);
        check("add", a, b, f32_add(a, b), x + y);
        check("sub", a, b, f32_sub(a, b), x - y);
        check("div", a, b, f32_div(a, b), x / y);
        // a product that lands among the subnormal numbers
        let c = (next(&mut seed) & 0x807F_FFFF) | ((0x30 + next(&mut seed) % 0x40) << 23);
        let d = (next(&mut seed) & 0x807F_FFFF) | ((0x30 + next(&mut seed) % 0x40) << 23);
        check("mul", c, d, f32_mul(c, d), f32::from_bits(c) * f32::from_bits(d));
        check("mul", a, d, f32_mul(a, d), x * f32::from_bits(d));
    }
}

#[test]
fn invalid_operations_give_the_default_nan() {
    let inf = 0x7F800000u32;
    let neg_inf = 0xFF800000u32;
    let zero = 0u32;
    let neg_zero = 0x80000000u32;
    // infinity minus infinity
    assert_eq!(f32_add(inf, neg_inf), 0x7FC00000);
    assert_eq!(f32_add(neg_inf, inf), 0x7FC00000);
    assert_eq!(f32_sub(inf, inf), 0x7FC00000);
    assert_eq!(f32_sub(neg_inf, neg_inf), 0x7FC00000);
    // infinity times zero
    assert_eq!(f32_mul(inf, zero), 0x7FC00000);
    assert_eq!(f32_mul(neg_zero, inf), 0x7FC00000);
    assert_eq!(f32_mul(neg_inf, neg_zero), 0x7FC00000);
    // zero by zero, infinity by infinity
    assert_eq!(f32_div(zero, zero), 0x7FC00000);
    assert_eq!(f32_div(neg_zero, zero), 0x7FC00000);
    assert_eq!(f32_div(inf, inf), 0x7FC00000);
    assert_eq!(f32_div(neg_inf, inf), 0x7FC00000);
}

#[test]
fn overflow_gives_infinity_and_underflow_zero() {
    // largest + largest
    assert_eq!(f32_add(0x7F7FFFFF, 0x7F7FFFFF), 0x7F800000);
    assert_eq!(f32_add(0xFF7FFFFF, 0xFF7FFFFF), 0xFF800000);
    assert_eq!(f32_sub(0x7F7FFFFF, 0xFF7FFFFF), 0x7F800000);
    // largest + half an ulp of it rounds up to infinity, a little less does not
    assert_eq!(f32_add(0x7F7FFFFF, 0x73000000), 0x7F800000);
    assert_eq!(f32_add(0x7F7FFFFF, 0x72FFFFFF), 0x7F7FFFFF);
    assert_eq!(f32_mul(0x7F7FFFFF, 0x40000000), 0x7F800000);
    assert_eq!(f32_mul(0x7F7FFFFF, 0xC0000000), 0xFF800000);
    assert_eq!(f32_div(0x7F7FFFFF, 0x3F000000), 0x7F800000);
    // smallest * one half is a tie and goes to zero; * 0.75 rounds back up
    assert_eq!(f32_mul(0x00000001, 0x3F000000), 0x00000000);
    assert_eq!(f32_mul(0x80000001, 0x3F000000), 0x80000000);
    assert_eq!(f32_mul(0x00000001, 0x3F400000), 0x00000001);
    assert_eq!(f32_div(0x00000001, 0x40000000), 0x00000000);
    assert_eq!(f32_div(0x00000003, 0x40000000), 0x00000002);
    // the largest subnormal number plus the smallest is the smallest normal one
    assert_eq!(f32_add(0x007FFFFF, 0x00000001), 0x00800000);
    assert_eq!(f32_sub(0x00800000, 0x00000001), 0x007FFFFF);
}
