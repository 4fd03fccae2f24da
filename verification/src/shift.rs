//! Shifts that keep rounding information, and normalization by leading
//! zeros.

use vstd::prelude::*;
use vstd::arithmetic::div_mod::lemma_fundamental_div_mod;
use vstd::arithmetic::power2::{
    pow2, lemma2_to64, lemma_pow2_adds, lemma_pow2_pos, lemma_pow2_unfold,
};
use vstd::bits::{
    lemma_u32_shl_is_mul, lemma_u32_shr_is_div, lemma_u64_shl_is_mul, lemma_u64_shr_is_div,
};

verus! {

/// `a` shifted right by `dist` bits, with the lowest bit of the result
/// forced to one if any one bit was shifted out.
pub open spec fn shift_right_jam_spec(a: int, dist: nat) -> int {
    let q = a / (pow2(dist) as int);
    if a % (pow2(dist) as int) != 0 && q % 2 == 0 {
        q + 1
    } else {
        q
    }
}

/// Number of binary digits of `x`: 0 for 0, and `n` when
/// `2^(n-1) <= x < 2^n`.
pub open spec fn bit_length(x: nat) -> nat
    decreases x,
{
    if x == 0 {
        0
    } else {
        1 + bit_length(x / 2)
    }
}

/// Number of zero bits above the leading one of a 32-bit value; 32 for 0.
pub open spec fn leading_zeros(x: u32) -> int {
    32 - bit_length(x as nat)
}

/// A nonzero value lies between the two powers of two that its bit length
/// names.
pub proof fn lemma_bit_length_bounds(x: nat)
    requires
        x > 0,
    ensures
        bit_length(x) >= 1,
        pow2((bit_length(x) - 1) as nat) <= x < pow2(bit_length(x)),
    decreases x,
{
    lemma2_to64();
    if x == 1 {
        assert(bit_length(1) == 1 + bit_length(0));
    } else {
        lemma_bit_length_bounds(x / 2);
        lemma_pow2_unfold(bit_length(x));
        lemma_pow2_unfold(bit_length(x / 2));
    }
}

/// The bit length is the only `n` with `2^(n-1) <= x < 2^n`.
pub proof fn lemma_bit_length_unique(x: nat, n: nat)
    requires
        n >= 1,
        pow2((n - 1) as nat) <= x < pow2(n),
    ensures
        bit_length(x) == n,
    decreases n,
{
    lemma2_to64();
    lemma_pow2_pos((n - 1) as nat);
    if n == 1 {
        assert(x == 1);
        assert(bit_length(1) == 1 + bit_length(0));
    } else {
        lemma_pow2_unfold(n);
        lemma_pow2_unfold((n - 1) as nat);
        lemma_bit_length_unique(x / 2, (n - 1) as nat);
    }
}

/// Multiplying a nonzero value by `2^k` adds `k` to its bit length.
pub proof fn lemma_bit_length_scaled(x: nat, k: nat)
    requires
        x > 0,
    ensures
        bit_length(x * pow2(k)) == bit_length(x) + k,
{
    lemma_bit_length_bounds(x);
    let n = bit_length(x);
    let lo = pow2((n - 1) as nat);
    let hi = pow2(n);
    let p = pow2(k);
    lemma_pow2_pos(k);
    lemma_pow2_adds((n - 1) as nat, k);
    lemma_pow2_adds(n, k);
    assert(lo * p <= x * p < hi * p) by (nonlinear_arith)
        requires
            lo <= x < hi,
            p > 0,
    ;
    lemma_bit_length_unique(x * p, n + k);
}

/// Every 32-bit value has at most 32 binary digits.
pub proof fn lemma_bit_length_u32(x: u32)
    ensures
        bit_length(x as nat) <= 32,
        0 <= leading_zeros(x) <= 32,
        x == 0 <==> leading_zeros(x) == 32,
        x >= 0x8000_0000 <==> leading_zeros(x) == 0,
{
    lemma2_to64();
    if x > 0 {
        lemma_bit_length_bounds(x as nat);
        let n = bit_length(x as nat);
        if n > 32 {
            vstd::arithmetic::power2::lemma_pow2_strictly_increases(32, (n - 1) as nat);
        }
        if n == 32 {
        } else {
            if n < 32 {
                if n < 31 {
                    vstd::arithmetic::power2::lemma_pow2_strictly_increases(n, 31);
                }
            }
        }
    }
}

/// Setting the lowest bit adds one to an even value and leaves an odd one.
pub proof fn lemma_set_low_bit(q: u64)
    by (bit_vector)
    ensures
        q % 2 == 0 ==> q | 1 == q + 1,
        q % 2 != 0 ==> q | 1 == q,
{
}

/// Shifts of a significand by a few bits, and its lowest bit, in
/// arithmetic.
pub proof fn lemma_significand_shifts(x: u32)
    by (bit_vector)
    requires
        x < 0x200_0000,
    ensures
        x << 6 == x * 0x40,
        x >> 1 == x / 2,
        x & 1 == x % 2,
        x < 0x100_0000 ==> x << 7 == x * 0x80,
        x < 0x100_0000 ==> x << 8 == x * 0x100,
{
}

/// A shift left by one bit doubles.
pub proof fn lemma_double(x: u32)
    by (bit_vector)
    requires
        x < 0x8000_0000,
    ensures
        x << 1 == x * 2,
{
}

/// Shifts `a` right by `dist` bits. If any bit shifted out is one, the
/// lowest bit of the result is set, so that a later rounding still sees
/// that the value was not exact.
pub fn f32_shift_right_jam(a: u32, dist: u32) -> (r: u32)
    ensures
        r == shift_right_jam_spec(a as int, dist as nat),
        r <= a,
{
    proof {
        lemma_pow2_pos(dist as nat);
        lemma_fundamental_div_mod(a as int, pow2(dist as nat) as int);
    }
    let ghost d = pow2(dist as nat) as int;
    if dist == 0 {
        proof {
            lemma2_to64();
        }
        a
    } else if dist < 32 {
        let q = a >> dist;
        proof {
            lemma_u32_shr_is_div(a, dist);
            assert(q * d <= a && q <= a) by (nonlinear_arith)
                requires
                    a == d * q + (a as int % d),
                    0 <= a as int % d,
                    d > 0,
                    q >= 0,
            ;
            lemma_u32_shl_is_mul(q, dist);
            lemma_set_low_bit(q as u64);
            assert((q | 1) as u64 == (q as u64) | 1);
            assert(d * q == q * d) by (nonlinear_arith);
            lemma_pow2_unfold(dist as nat);
            lemma_pow2_pos((dist - 1) as nat);
            assert(q * d != a ==> q + 1 <= a) by (nonlinear_arith)
                requires
                    q * d <= a,
                    d >= 2,
                    q >= 0,
            ;
        }
        if (q << dist) != a {
            q | 1
        } else {
            q
        }
    } else {
        proof {
            lemma2_to64();
            if dist > 32 {
                vstd::arithmetic::power2::lemma_pow2_strictly_increases(32, dist as nat);
            }
            assert(a as int / d == 0 && a as int % d == a) by (nonlinear_arith)
                requires
                    0 <= a < d,
            ;
        }
        if a != 0 {
            1
        } else {
            0
        }
    }
}

/// The same on a 64-bit value, for a distance inside the word.
pub fn f32_short_shift_right_jam64(a: u64, dist: u32) -> (r: u64)
    requires
        dist < 64,
    ensures
        r == shift_right_jam_spec(a as int, dist as nat),
        r <= a,
{
    let ghost d = pow2(dist as nat) as int;
    proof {
        lemma_pow2_pos(dist as nat);
        lemma_fundamental_div_mod(a as int, d);
    }
    if dist == 0 {
        proof {
            lemma2_to64();
            assert(pow2(0) == 1 && d == 1);
            assert(a as int / 1 == a && a as int % 1 == 0);
        }
        return a;
    }
    let q = a >> dist;
    proof {
        lemma_u64_shr_is_div(a, dist as u64);
        assert(q * d <= a && q <= a) by (nonlinear_arith)
            requires
                a == d * q + (a as int % d),
                0 <= a as int % d,
                d > 0,
                q >= 0,
        ;
        lemma_u64_shl_is_mul(q, dist as u64);
        lemma_set_low_bit(q);
        assert(d * q == q * d) by (nonlinear_arith);
        lemma_pow2_unfold(dist as nat);
        lemma_pow2_pos((dist - 1) as nat);
        assert(q * d != a ==> q + 1 <= a) by (nonlinear_arith)
            requires
                q * d <= a,
                d >= 2,
                q >= 0,
        ;
    }
    if (q << dist) != a {
        q | 1
    } else {
        q
    }
}

/// Shifting nothing leaves nothing.
pub proof fn lemma_jam_zero(dist: nat)
    ensures
        shift_right_jam_spec(0, dist) == 0,
{
    lemma_pow2_pos(dist);
    let d = pow2(dist) as int;
    assert(0int / d == 0 && 0int % d == 0) by (nonlinear_arith)
        requires
            d > 0,
    ;
}

/// A multiple of `2^dist` loses no bit.
pub proof fn lemma_jam_exact(x: int, dist: nat)
    requires
        x >= 0,
    ensures
        shift_right_jam_spec(x * pow2(dist), dist) == x,
{
    lemma_pow2_pos(dist);
    let d = pow2(dist) as int;
    assert((x * d) / d == x && (x * d) % d == 0) by (nonlinear_arith)
        requires
            d > 0,
            x >= 0,
    ;
}

/// A jammed shift never exceeds the value divided, rounded up, and is zero
/// only for zero.
pub proof fn lemma_jam_bounds(a: int, dist: nat, limit: int)
    requires
        0 <= a < limit * pow2(dist),
    ensures
        0 <= shift_right_jam_spec(a, dist) <= limit,
        a > 0 ==> shift_right_jam_spec(a, dist) > 0,
        shift_right_jam_spec(a, dist) < limit || limit % 2 == 1,
{
    lemma_pow2_pos(dist);
    let d = pow2(dist) as int;
    lemma_fundamental_div_mod(a, d);
    let q = a / d;
    let m = a % d;
    assert(0 <= q < limit && (a > 0 && q == 0 ==> m != 0)) by (nonlinear_arith)
        requires
            a == d * q + m,
            0 <= m < d,
            0 <= a < limit * d,
            d > 0,
    ;
}

/// Shifting a scaled value further adds the two distances.
proof fn lemma_scale_step(x: u32, k: nat, j: u32, y: u32)
    requires
        y == x * pow2(k),
        j < 32,
        y * pow2(j as nat) <= u32::MAX,
    ensures
        y << j == x * pow2(k + j as nat),
{
    lemma_u32_shl_is_mul(y, j);
    lemma_pow2_adds(k, j as nat);
    let pk = pow2(k) as int;
    let pj = pow2(j as nat) as int;
    assert((x * pk) * pj == x * (pk * pj)) by (nonlinear_arith);
}

/// Counts the zero bits above the leading one; 32 for zero.
pub fn f32_count_leading_zero(in_frac: u32) -> (r: i32)
    ensures
        r == leading_zeros(in_frac),
        0 <= r <= 32,
{
    proof {
        lemma_bit_length_u32(in_frac);
        lemma2_to64();
    }
    if in_frac == 0 {
        return 32;
    }
    let mut count: i32 = 0;
    let mut frac = in_frac;
    assert(frac == in_frac * pow2(0)) by {
        lemma2_to64();
    }
    if frac < 0x1_0000 {
        proof {
            assert(frac * pow2(16) <= u32::MAX) by {
                lemma2_to64();
            }
            lemma_scale_step(in_frac, count as nat, 16, frac);
            lemma_u32_shl_is_mul(frac, 16);
        }
        count = 16;
        frac = frac << 16;
    }
    assert(frac == in_frac * pow2(count as nat) && frac >= 0x1_0000);
    if frac < 0x100_0000 {
        proof {
            assert(frac * pow2(8) <= u32::MAX) by {
                lemma2_to64();
            }
            lemma_scale_step(in_frac, count as nat, 8, frac);
            lemma_u32_shl_is_mul(frac, 8);
        }
        count = count + 8;
        frac = frac << 8;
    }
    assert(frac == in_frac * pow2(count as nat) && frac >= 0x100_0000);
    if frac < 0x1000_0000 {
        proof {
            assert(frac * pow2(4) <= u32::MAX) by {
                lemma2_to64();
            }
            lemma_scale_step(in_frac, count as nat, 4, frac);
            lemma_u32_shl_is_mul(frac, 4);
        }
        count = count + 4;
        frac = frac << 4;
    }
    assert(frac == in_frac * pow2(count as nat) && frac >= 0x1000_0000);
    if frac < 0x4000_0000 {
        proof {
            assert(frac * pow2(2) <= u32::MAX) by {
                lemma2_to64();
            }
            lemma_scale_step(in_frac, count as nat, 2, frac);
            lemma_u32_shl_is_mul(frac, 2);
        }
        count = count + 2;
        frac = frac << 2;
    }
    assert(frac == in_frac * pow2(count as nat) && frac >= 0x4000_0000);
    if frac < 0x8000_0000 {
        proof {
            assert(frac * pow2(1) <= u32::MAX) by {
                lemma2_to64();
            }
            lemma_scale_step(in_frac, count as nat, 1, frac);
            lemma_u32_shl_is_mul(frac, 1);
        }
        count = count + 1;
        frac = frac << 1;
    }
    proof {
        assert(frac == in_frac * pow2(count as nat) && frac >= 0x8000_0000);
        lemma_bit_length_u32(frac);
        lemma_bit_length_scaled(in_frac as nat, count as nat);
    }
    count
}

/// The shift that brings the leading one of a subnormal fraction to the
/// implicit-bit position (bit 23).
pub open spec fn subnormal_shift(frac: u32) -> int {
    leading_zeros(frac) - 8
}

/// A nonzero fraction below `2^24`, shifted by its subnormal shift, has
/// its leading one at bit 23.
pub proof fn lemma_subnormal_shift(frac: u32)
    requires
        0 < frac < 0x100_0000,
    ensures
        0 <= subnormal_shift(frac) <= 23,
        0x80_0000 <= frac * pow2(subnormal_shift(frac) as nat) < 0x100_0000,
        frac >= 0x80_0000 <==> subnormal_shift(frac) == 0,
{
    lemma2_to64();
    lemma_bit_length_bounds(frac as nat);
    let n = bit_length(frac as nat);
    if n > 24 {
        if n > 25 {
            vstd::arithmetic::power2::lemma_pow2_strictly_increases(24, (n - 1) as nat);
        }
    }
    let s = (24 - n) as nat;
    lemma_bit_length_scaled(frac as nat, s);
    lemma_bit_length_bounds(frac as nat * pow2(s));
    if n < 24 {
        if n < 23 {
            vstd::arithmetic::power2::lemma_pow2_strictly_increases(n, 23);
        }
    }
}

/// Normalizes the fraction of a subnormal number: returns the exponent
/// `1 - shift` and the fraction shifted left so that its leading one is at
/// the implicit-bit position.
pub fn f32_norm_subnormal_frac(frac: u32) -> (r: (i32, u32))
    requires
        0 < frac < 0x100_0000,
    ensures
        r.0 == 1 - subnormal_shift(frac),
        r.1 == frac * pow2(subnormal_shift(frac) as nat),
        0x80_0000 <= r.1 < 0x100_0000,
{
    proof {
        lemma_subnormal_shift(frac);
    }
    let shift_count = f32_count_leading_zero(frac) - 8;
    proof {
        lemma_u32_shl_is_mul(frac, shift_count as u32);
    }
    (1 - shift_count, frac << (shift_count as u32))
}

} // verus!
