//! What it means to round correctly: the result is the number nearest to
//! the exact value, and of two numbers equally near the one whose pattern
//! is even.
//!
//! Values are measured in units of the smallest subnormal number,
//! `2^-149`, in which every finite number is an integer. An exact value
//! is a quotient `n / d` of such units.

use vstd::prelude::*;
use vstd::arithmetic::div_mod::lemma_fundamental_div_mod;
use vstd::arithmetic::power2::{
    pow2, lemma2_to64, lemma_pow2_adds, lemma_pow2_pos, lemma_pow2_strictly_increases,
    lemma_pow2_unfold,
};
use crate::bits::{exp_of, frac_of, magnitude, lemma_fields_compose};
use crate::round::{round_half_even, round_pack_spec, lemma_jam_below, lemma_round_half_even_bounds};
use crate::shift::shift_right_jam_spec;

verus! {

/// Value of a magnitude pattern (a pattern without its sign bit) in
/// units of `2^-149`. The pattern of infinity stands for `2^128`, the
/// number that would follow the largest finite one.
pub open spec fn units_of(m: int) -> int {
    if m < 0x80_0000 {
        m
    } else {
        (0x80_0000 + m % 0x80_0000) * pow2((m / 0x80_0000 - 1) as nat)
    }
}

/// Magnitude of a pattern in units of `2^-149`.
pub open spec fn units(a: u32) -> int {
    units_of(magnitude(a))
}

/// Magnitude, in units of `2^-149`, of the finite number with the given
/// exponent and fraction fields.
pub open spec fn units_ef(exp: int, frac: int) -> int {
    if exp == 0 {
        frac
    } else {
        (0x80_0000 + frac) * pow2((exp - 1) as nat)
    }
}

/// The magnitude of a pattern by its fields.
pub proof fn lemma_units_by_fields(a: u32)
    ensures
        units(a) == units_ef(exp_of(a), frac_of(a)),
        units(a) >= 0,
{
    lemma_fields_compose(a);
    let m = magnitude(a);
    let e = exp_of(a);
    let f = frac_of(a);
    assert(m == e * 0x80_0000 + f);
    if e != 0 {
        assert(m / 0x80_0000 == e && m % 0x80_0000 == f);
        let g = pow2((e - 1) as nat) as int;
        lemma_pow2_pos((e - 1) as nat);
        assert((0x80_0000 + f) * g >= 0) by (nonlinear_arith)
            requires
                f >= 0,
                g > 0,
        ;
    }
}

/// Distance from the number with magnitude pattern `m` to the next
/// larger one, in units.
pub open spec fn gap_above(m: int) -> int {
    if m < 0x100_0000 {
        1
    } else {
        pow2((m / 0x80_0000 - 1) as nat) as int
    }
}

/// `m` is the magnitude pattern nearest to the value `n / d`: the value
/// lies between the midpoints from `m` to its two neighbours, and not on
/// a midpoint unless `m` is even. Past the midpoint between the largest
/// finite number and `2^128` the nearest pattern is that of infinity.
pub open spec fn is_nearest_even(m: int, n: int, d: int) -> bool {
    &&& 0 <= m <= 0x7F80_0000
    &&& m > 0 ==> (units_of(m - 1) + units_of(m)) * d <= 2 * n
    &&& m < 0x7F80_0000 ==> 2 * n <= (units_of(m) + units_of(m + 1)) * d
    &&& m % 2 == 1 ==> (units_of(m - 1) + units_of(m)) * d < 2 * n < (units_of(m) + units_of(m
        + 1)) * d
}

/// From one magnitude pattern to the next the value grows by the gap.
pub proof fn lemma_units_step(m: int)
    requires
        m >= 0,
    ensures
        units_of(m + 1) == units_of(m) + gap_above(m),
        gap_above(m) >= 1,
        units_of(m) >= 0,
{
    lemma2_to64();
    if m >= 0x80_0000 {
        let e = m / 0x80_0000;
        let f = m % 0x80_0000;
        let g = pow2((e - 1) as nat) as int;
        lemma_pow2_pos((e - 1) as nat);
        assert((0x80_0000 + f) * g >= 0) by (nonlinear_arith)
            requires
                f >= 0,
                g > 0,
        ;
        if f + 1 < 0x80_0000 {
            assert((m + 1) / 0x80_0000 == e && (m + 1) % 0x80_0000 == f + 1);
            assert((0x80_0000 + f + 1) * g == (0x80_0000 + f) * g + g) by (nonlinear_arith);
        } else {
            assert((m + 1) / 0x80_0000 == e + 1 && (m + 1) % 0x80_0000 == 0);
            lemma_pow2_unfold(e as nat);
            assert(0x80_0000 * (2 * g) == (0x80_0000 + f) * g + g) by (nonlinear_arith)
                requires
                    f == 0x7F_FFFF,
            ;
        }
        if e == 1 {
            assert(g == 1);
        }
    } else if m + 1 == 0x80_0000 {
        assert((m + 1) / 0x80_0000 == 1 && (m + 1) % 0x80_0000 == 0);
        assert(units_of(m + 1) == 0x80_0000 * pow2(0));
    }
}

/// Larger patterns have larger values.
pub proof fn lemma_units_increase(m1: int, m2: int)
    requires
        0 <= m1 < m2,
    ensures
        units_of(m1) < units_of(m2),
    decreases m2 - m1,
{
    lemma_units_step(m1);
    if m1 + 1 < m2 {
        lemma_units_increase(m1 + 1, m2);
    }
}

/// The value of a pattern made of an exponent and a significand of 24
/// bits: `exp` is one less than the exponent field that belongs to the
/// leading one of `q`, and `q` itself may be `2^24`, which is the leading
/// one of the next exponent.
pub proof fn lemma_units_of_normal(exp: int, q: int)
    requires
        exp >= 0,
        0x80_0000 <= q <= 0x100_0000,
    ensures
        units_of(exp * 0x80_0000 + q) == q * pow2(exp as nat),
{
    let m = exp * 0x80_0000 + q;
    let g = pow2(exp as nat) as int;
    if q < 0x100_0000 {
        assert(m / 0x80_0000 == exp + 1 && m % 0x80_0000 == q - 0x80_0000);
    } else {
        assert(m / 0x80_0000 == exp + 2 && m % 0x80_0000 == 0);
        lemma_pow2_unfold((exp + 1) as nat);
        assert(0x80_0000 * (2 * g) == 0x100_0000 * g) by (nonlinear_arith);
    }
}

/// Of two nearest patterns the second does not exceed the first.
proof fn lemma_nearest_not_above(m1: int, m2: int, n: int, d: int)
    requires
        d > 0,
        is_nearest_even(m1, n, d),
        is_nearest_even(m2, n, d),
    ensures
        m2 <= m1,
{
    if m1 < m2 {
        // the upper midpoint of m1 does not exceed the lower midpoint of m2
        let up = units_of(m1) + units_of(m1 + 1);
        let low = units_of(m2 - 1) + units_of(m2);
        if m1 + 1 < m2 {
            lemma_units_increase(m1, m2 - 1);
            lemma_units_increase(m1 + 1, m2);
            assert(up * d < low * d) by (nonlinear_arith)
                requires
                    up < low,
                    d > 0,
            ;
        } else {
            // neighbours: the value is on their midpoint, and one of them is odd
            assert(up == low);
        }
    }
}

/// There is only one nearest pattern.
pub proof fn lemma_nearest_even_unique(m1: int, m2: int, n: int, d: int)
    requires
        d > 0,
        is_nearest_even(m1, n, d),
        is_nearest_even(m2, n, d),
    ensures
        m1 == m2,
{
    lemma_nearest_not_above(m1, m2, n, d);
    lemma_nearest_not_above(m2, m1, n, d);
}

/// Distance between the value of the magnitude pattern `m` and the value
/// `n / d`, times `d`.
pub open spec fn distance(m: int, n: int, d: int) -> int {
    if n >= units_of(m) * d {
        n - units_of(m) * d
    } else {
        units_of(m) * d - n
    }
}

/// The nearest pattern is the closest: no pattern has a value that
/// differs less from `n / d`.
pub proof fn lemma_nearest_is_closest(m: int, t: int, n: int, d: int)
    requires
        d > 0,
        is_nearest_even(m, n, d),
        0 <= t <= 0x7F80_0000,
    ensures
        distance(m, n, d) <= distance(t, n, d),
{
    let um = units_of(m);
    let ut = units_of(t);
    lemma_units_step(m);
    if t > m {
        // the value does not exceed the midpoint above `m`, and `t` lies
        // at or above the neighbour above `m`
        let next = units_of(m + 1);
        if t > m + 1 {
            lemma_units_increase(m + 1, t);
        }
        lemma_units_increase(m, t);
        lemma_scale_le(next, ut, d);
        lemma_scale_le(um, ut, d);
        assert((um + next) * d == um * d + next * d) by (nonlinear_arith);
    } else if t < m {
        let prev = units_of(m - 1);
        if t < m - 1 {
            lemma_units_increase(t, m - 1);
        }
        lemma_units_increase(t, m);
        lemma_scale_le(ut, prev, d);
        lemma_scale_le(ut, um, d);
        assert((prev + um) * d == prev * d + um * d) by (nonlinear_arith);
    }
}

/// A working significand `sig` stands for the value `n / d`, up to cells
/// of width `c`: where `sig` is a multiple of `c` the value is `sig`
/// itself, and otherwise the value lies strictly inside the cell of width
/// `c` in which `sig` lies. A sticky bit makes cells of width 2.
pub open spec fn stands_for(sig: int, n: int, d: int, c: int) -> bool {
    if sig % c == 0 {
        n == sig * d
    } else {
        (sig - sig % c) * d < n < (sig - sig % c + c) * d
    }
}

/// Products keep the order of their first factors.
pub proof fn lemma_scale_le(a: int, b: int, d: int)
    by (nonlinear_arith)
    requires
        a <= b,
        d >= 0,
    ensures
        a * d <= b * d,
{
}

/// Products by a positive factor keep the strict order.
pub proof fn lemma_scale_lt(a: int, b: int, d: int)
    by (nonlinear_arith)
    requires
        a < b,
        d > 0,
    ensures
        a * d < b * d,
{
}

/// A value shifted right with jamming stands for the exact quotient, up
/// to cells of width 2.
pub proof fn lemma_jam_stands_for(a: int, dist: nat)
    requires
        a >= 0,
    ensures
        stands_for(shift_right_jam_spec(a, dist), a, pow2(dist) as int, 2),
{
    let d = pow2(dist) as int;
    lemma_pow2_pos(dist);
    lemma_fundamental_div_mod(a, d);
    let q = a / d;
    let m = a % d;
    let j = shift_right_jam_spec(a, dist);
    assert(q * d == d * q) by (nonlinear_arith);
    assert((q + 1) * d == d * q + d) by (nonlinear_arith);
    assert((q + 2) * d == d * q + 2 * d) by (nonlinear_arith);
    assert((q - 1) * d == d * q - d) by (nonlinear_arith);
    if m == 0 {
        assert(j == q);
    } else if q % 2 == 0 {
        assert(j == q + 1);
        assert(j - j % 2 == q);
    } else {
        assert(j == q);
        assert(j - j % 2 == q - 1);
    }
}

/// A quotient with a sticky bit stands for the exact quotient, up to
/// cells of width 2.
pub proof fn lemma_sticky_stands_for(num: int, den: int, sticky: int)
    requires
        num >= 0,
        den > 0,
        sticky == (if num % den != 0 && (num / den) % 2 == 0 {
            num / den + 1
        } else {
            num / den
        }),
    ensures
        stands_for(sticky, num, den, 2),
{
    lemma_fundamental_div_mod(num, den);
    let q = num / den;
    let m = num % den;
    assert(q * den == den * q) by (nonlinear_arith);
    assert((q + 1) * den == den * q + den) by (nonlinear_arith);
    assert((q + 2) * den == den * q + 2 * den) by (nonlinear_arith);
    assert((q - 1) * den == den * q - den) by (nonlinear_arith);
    if m == 0 {
        assert(sticky == q);
    } else if q % 2 == 0 {
        assert(sticky == q + 1);
        assert(sticky - sticky % 2 == q);
    } else {
        assert(sticky == q);
        assert(sticky - sticky % 2 == q - 1);
    }
}

/// A wide significand that stands for a value still does so in every
/// coarser division into cells.
pub proof fn lemma_stands_for_coarser(sig: int, n: int, d: int, c: int, factor: int)
    requires
        d > 0,
        c >= 1,
        factor >= 1,
        stands_for(sig, n, d, c),
    ensures
        stands_for(sig, n, d, c * factor),
{
    let big = c * factor;
    assert(big >= 1 && big >= c) by (nonlinear_arith)
        requires
            big == c * factor,
            c >= 1,
            factor >= 1,
    ;
    let lo = sig - sig % c;
    let lo2 = sig - sig % big;
    // the cell of width c lies inside the cell of width c * factor
    let k = sig / c;
    let k2 = sig / big;
    let t = factor * k2;
    lemma_fundamental_div_mod(sig, c);
    lemma_fundamental_div_mod(sig, big);
    assert(lo == c * k && lo2 == big * k2);
    assert(lo2 == c * t) by (nonlinear_arith)
        requires
            lo2 == big * k2,
            big == c * factor,
            t == factor * k2,
    ;
    assert(lo2 + big == c * (t + factor)) by (nonlinear_arith)
        requires
            lo2 == c * t,
            big == c * factor,
    ;
    assert(lo + c == c * (k + 1)) by (nonlinear_arith)
        requires
            lo == c * k,
    ;
    assert(t <= k) by (nonlinear_arith)
        requires
            c * t <= sig,
            sig < c * (k + 1),
            c >= 1,
    ;
    assert(t + factor >= k + 1) by (nonlinear_arith)
        requires
            c * (t + factor) > sig,
            sig >= c * k,
            c >= 1,
    ;
    lemma_scale_le(t, k, c);
    lemma_scale_le(k + 1, t + factor, c);
    assert(c * t == t * c && c * k == k * c && c * (k + 1) == (k + 1) * c && c * (t + factor) == (t
        + factor) * c) by (nonlinear_arith);
    assert(lo2 <= lo && lo + c <= lo2 + big);
    if sig % big != 0 {
        lemma_scale_le(lo2, lo, d);
        lemma_scale_le(lo + c, lo2 + big, d);
        if sig % c == 0 {
            lemma_scale_lt(lo2, sig, d);
            lemma_scale_lt(sig, lo2 + big, d);
        }
    }
}

/// Adding a multiple of the cell width to significand and value alike
/// keeps the one standing for the other.
pub proof fn lemma_stands_for_offset(sig: int, n: int, d: int, c: int, offset: int)
    requires
        c >= 1,
        offset % c == 0,
        stands_for(sig, n, d, c),
    ensures
        stands_for(offset + sig, offset * d + n, d, c),
{
    lemma_fundamental_div_mod(sig, c);
    lemma_fundamental_div_mod(offset, c);
    let k = sig / c;
    let r = sig % c;
    let j = offset / c;
    assert(offset + sig == (j + k) * c + r) by (nonlinear_arith)
        requires
            offset == c * j,
            sig == c * k + r,
    ;
    vstd::arithmetic::div_mod::lemma_fundamental_div_mod_converse(offset + sig, c, j + k, r);
    assert((offset + sig) * d == offset * d + sig * d) by (nonlinear_arith);
    assert((offset + sig - r) * d == offset * d + (sig - r) * d) by (nonlinear_arith);
    assert((offset + sig - r + c) * d == offset * d + (sig - r + c) * d) by (nonlinear_arith);
}

/// Subtracting significand and value alike from a multiple of the cell
/// width keeps the one standing for the other.
pub proof fn lemma_stands_for_reflected(sig: int, n: int, d: int, c: int, from: int)
    requires
        c >= 1,
        from % c == 0,
        stands_for(sig, n, d, c),
    ensures
        stands_for(from - sig, from * d - n, d, c),
{
    lemma_fundamental_div_mod(sig, c);
    lemma_fundamental_div_mod(from, c);
    let k = sig / c;
    let r = sig % c;
    let j = from / c;
    assert((from - sig) * d == from * d - sig * d) by (nonlinear_arith);
    if r == 0 {
        assert(from - sig == (j - k) * c + 0) by (nonlinear_arith)
            requires
                from == c * j,
                sig == c * k,
        ;
        vstd::arithmetic::div_mod::lemma_fundamental_div_mod_converse(from - sig, c, j - k, 0);
    } else {
        assert(from - sig == (j - k - 1) * c + (c - r)) by (nonlinear_arith)
            requires
                from == c * j,
                sig == c * k + r,
        ;
        vstd::arithmetic::div_mod::lemma_fundamental_div_mod_converse(
            from - sig,
            c,
            j - k - 1,
            c - r,
        );
        let lo = from - sig - (c - r);
        assert(lo * d == from * d - (sig - r + c) * d) by (nonlinear_arith)
            requires
                lo == from - (sig - r + c),
        ;
        assert((lo + c) * d == from * d - (sig - r) * d) by (nonlinear_arith)
            requires
                lo + c == from - (sig - r),
        ;
    }
}

/// A significand stands for its own value, exactly.
pub proof fn lemma_stands_for_itself(sig: int)
    ensures
        stands_for(sig, sig, 1, 1),
{
    assert(sig % 1 == 0);
    assert(sig * 1 == sig);
}

/// An exact significand stays exact when it and the value are scaled
/// alike.
pub proof fn lemma_stands_for_scaled(sig: int, n: int, d: int, factor: int)
    requires
        stands_for(sig, n, d, 1),
    ensures
        stands_for(sig * factor, n * factor, d, 1),
{
    assert(sig % 1 == 0);
    assert((sig * factor) % 1 == 0);
    assert((sig * factor) * d == (sig * d) * factor) by (nonlinear_arith);
}

/// Doubling significand and value doubles the width of the cells.
pub proof fn lemma_stands_for_doubled(sig: int, n: int, d: int, c: int)
    requires
        c >= 1,
        stands_for(sig, n, d, c),
    ensures
        stands_for(2 * sig, 2 * n, d, 2 * c),
{
    lemma_fundamental_div_mod(sig, c);
    let k = sig / c;
    let r = sig % c;
    assert(2 * sig == k * (2 * c) + 2 * r) by (nonlinear_arith)
        requires
            sig == c * k + r,
    ;
    vstd::arithmetic::div_mod::lemma_fundamental_div_mod_converse(2 * sig, 2 * c, k, 2 * r);
    assert((2 * sig) * d == 2 * (sig * d)) by (nonlinear_arith);
    assert((2 * sig - 2 * r) * d == 2 * ((sig - r) * d)) by (nonlinear_arith);
    assert((2 * sig - 2 * r + 2 * c) * d == 2 * ((sig - r + c) * d)) by (nonlinear_arith);
}

/// Products of a sum of multiples of 64 with a divisor, written out.
proof fn lemma_expand_cell(h: int, d: int, offset: int)
    by (nonlinear_arith)
    ensures
        (128 * h + offset) * d == 128 * (h * d) + offset * d,
{
}

/// The value behind a working significand, bracketed by the midpoints
/// around the rounded significand: `n / d` lies between
/// `128 * q - 64` and `128 * q + 64`, where `q` is `sig` rounded to
/// nearest even, and strictly so where `q` is odd.
pub proof fn lemma_rounded_brackets(sig: int, n: int, d: int)
    requires
        sig >= 0,
        d > 0,
        stands_for(sig, n, d, 64),
    ensures
        (128 * round_half_even(sig) - 64) * d <= n <= (128 * round_half_even(sig) + 64) * d,
        round_half_even(sig) % 2 == 1 ==> (128 * round_half_even(sig) - 64) * d < n < (128
            * round_half_even(sig) + 64) * d,
{
    let h = sig / 128;
    let r = sig % 128;
    let q = round_half_even(sig);
    let hd = h * d;
    let cell = sig - sig % 64;
    lemma_expand_cell(h, d, -64);
    lemma_expand_cell(h, d, 0);
    lemma_expand_cell(h, d, 64);
    lemma_expand_cell(h, d, 128);
    lemma_expand_cell(h, d, 192);
    let low = (128 * q - 64) * d;
    let high = (128 * q + 64) * d;
    if r == 0 {
        assert(q == h && sig == 128 * h + 0);
        assert(low == 128 * hd - 64 * d && high == 128 * hd + 64 * d);
        assert(sig % 64 == 0);
        assert(n == 128 * hd);
    } else if r < 64 {
        assert(q == h && cell == 128 * h + 0 && cell + 64 == 128 * h + 64);
        assert(low == 128 * hd - 64 * d && high == 128 * hd + 64 * d);
        assert(sig % 64 != 0);
        assert(128 * hd < n < 128 * hd + 64 * d);
    } else if r == 64 {
        assert(sig == 128 * h + 64 && sig % 64 == 0);
        assert(n == 128 * hd + 64 * d);
        if h % 2 == 0 {
            assert(q == h);
            assert(low == 128 * hd - 64 * d && high == 128 * hd + 64 * d);
        } else {
            assert(q == h + 1);
            assert(128 * q - 64 == 128 * h + 64 && 128 * q + 64 == 128 * h + 192);
            assert(low == 128 * hd + 64 * d && high == 128 * hd + 192 * d);
        }
    } else {
        assert(q == h + 1 && cell == 128 * h + 64 && cell + 64 == 128 * h + 128);
        assert(128 * q - 64 == 128 * h + 64 && 128 * q + 64 == 128 * h + 192);
        assert(low == 128 * hd + 64 * d && high == 128 * hd + 192 * d);
        assert(sig % 64 != 0);
        assert(128 * hd + 64 * d < n < 128 * hd + 128 * d);
    }
}

/// A bound that is a multiple of the cell width holds of the value as it
/// holds of the significand.
pub proof fn lemma_stands_for_bounds(sig: int, n: int, d: int, c: int, bound: int)
    requires
        d > 0,
        c >= 1,
        bound % c == 0,
        stands_for(sig, n, d, c),
    ensures
        sig >= bound ==> n >= bound * d,
        sig < bound ==> n < bound * d,
{
    let lo = sig - sig % c;
    lemma_fundamental_div_mod(sig, c);
    lemma_fundamental_div_mod(bound, c);
    let k = sig / c;
    let b = bound / c;
    assert(c * (k + 1) == c * k + c) by (nonlinear_arith);
    if sig >= bound {
        assert(b <= k) by (nonlinear_arith)
            requires
                c * b <= sig,
                sig < c * (k + 1),
                c >= 1,
        ;
        lemma_scale_le(b, k, c);
        assert(b * c == c * b && k * c == c * k) by (nonlinear_arith);
        lemma_scale_le(bound, lo, d);
        lemma_scale_le(lo, sig, d);
    } else {
        assert(k + 1 <= b) by (nonlinear_arith)
            requires
                c * b > sig,
                sig >= c * k,
                c >= 1,
        ;
        lemma_scale_le(k + 1, b, c);
        assert(b * c == c * b && (k + 1) * c == c * k + c) by (nonlinear_arith);
        lemma_scale_le(lo + c, bound, d);
        lemma_scale_lt(sig, bound, d);
    }
}

/// Shifting right with jamming keeps a working significand standing for
/// its value, the divisor growing by the power of two.
pub proof fn lemma_jam_keeps_standing(sig: int, n: int, d: int, dist: nat)
    requires
        sig >= 0,
        d > 0,
        dist >= 1,
        stands_for(sig, n, d, 64),
    ensures
        stands_for(shift_right_jam_spec(sig, dist), n, d * pow2(dist), 64),
{
    let p = pow2(dist) as int;
    lemma_pow2_pos(dist);
    lemma_fundamental_div_mod(sig, p);
    let q = sig / p;
    let r = sig % p;
    let j = shift_right_jam_spec(sig, dist);
    lemma_fundamental_div_mod(j, 64);
    let k = j / 64;
    let lo = 64 * k;
    assert(q >= 0) by (nonlinear_arith)
        requires
            sig == p * q + r,
            0 <= r < p,
            sig >= 0,
    ;
    if j % 64 == 0 {
        // nothing was lost, and the significand was a multiple of 64 itself
        assert(j == q && r == 0);
        assert(sig == 64 * (k * p)) by (nonlinear_arith)
            requires
                sig == p * q,
                q == 64 * k,
        ;
        assert(sig % 64 == 0);
        assert(j * (d * p) == sig * d) by (nonlinear_arith)
            requires
                sig == p * j,
        ;
    } else {
        // the significand lies strictly inside the cell of the shifted one
        assert(lo * p < sig && sig < (lo + 64) * p) by (nonlinear_arith)
            requires
                sig == p * q + r,
                0 <= r < p,
                lo < j <= lo + 63,
                j == q || (j == q + 1 && r != 0),
        ;
        assert(lo * (d * p) == (lo * p) * d && (lo + 64) * (d * p) == ((lo + 64) * p) * d)
            by (nonlinear_arith);
        if sig % 64 == 0 {
            lemma_scale_lt(lo * p, sig, d);
            lemma_scale_lt(sig, (lo + 64) * p, d);
        } else {
            lemma_fundamental_div_mod(sig, 64);
            let g = sig / 64;
            let kp = k * p;
            assert(lo * p == 64 * kp && (lo + 64) * p == 64 * (kp + p)) by (nonlinear_arith)
                requires
                    lo == 64 * k,
                    kp == k * p,
            ;
            assert(lo * p <= 64 * g && 64 * g + 64 <= (lo + 64) * p);
            lemma_scale_le(lo * p, 64 * g, d);
            lemma_scale_le(64 * g + 64, (lo + 64) * p, d);
        }
    }
}

/// Gaps around a pattern made of an exponent and a significand of 24
/// bits.
pub proof fn lemma_gaps_of_normal(exp: int, q: int)
    requires
        exp >= 0,
        0x80_0000 <= q <= 0x100_0000,
    ensures
        gap_above(exp * 0x80_0000 + q) >= pow2(exp as nat),
        q > 0x80_0000 ==> gap_above(exp * 0x80_0000 + q - 1) == pow2(exp as nat),
        gap_above(exp * 0x80_0000 + q - 1) >= 1,
{
    lemma2_to64();
    let m = exp * 0x80_0000 + q;
    lemma_pow2_pos(exp as nat);
    if q < 0x100_0000 {
        assert(m / 0x80_0000 == exp + 1);
    } else {
        assert(m / 0x80_0000 == exp + 2);
        lemma_pow2_strictly_increases(exp as nat, (exp + 1) as nat);
    }
    if q > 0x80_0000 {
        assert((m - 1) / 0x80_0000 == exp + 1);
    }
    lemma_units_step(m - 1);
}

/// The rounding engine rounds correctly.
///
/// `sig` is a normalized working significand that stands for the value
/// `n / d`, and one unit of that value weighs `2^(exp - 7)` units of
/// `2^-149`; the weight is given as `2^up / 2^down`. Then the magnitude
/// of the pattern that the engine packs is the one nearest to
/// `n / d * 2^(exp - 7)`, ties to even.
pub proof fn lemma_round_pack_nearest(
    sign: int,
    exp: int,
    sig: int,
    n: int,
    d: int,
    up: nat,
    down: nat,
)
    requires
        0 <= sign <= 1,
        0x4000_0000 <= sig < 0x8000_0000,
        d > 0,
        stands_for(sig, n, d, 64),
        up - down == exp - 7,
    ensures
        is_nearest_even(
            round_pack_spec(sign, exp, sig) - sign * 0x8000_0000,
            n * pow2(up),
            d * pow2(down),
        ),
{
    lemma2_to64();
    let t = pow2(up) as int;
    let big_n = n * t;
    let big_d = d * pow2(down);
    let m = round_pack_spec(sign, exp, sig) - sign * 0x8000_0000;
    lemma_pow2_pos(up);
    lemma_pow2_pos(down);
    lemma_stands_for_bounds(sig, n, d, 64, 0x4000_0000);
    assert(n >= 0x4000_0000 * d);
    if exp < 0 {
        let dist = (-exp) as nat;
        let p = pow2(dist) as int;
        lemma_pow2_pos(dist);
        let low_d = d * p;
        assert(low_d > 0) by (nonlinear_arith)
            requires
                low_d == d * p,
                d > 0,
                p > 0,
        ;
        let jammed = shift_right_jam_spec(sig, dist);
        lemma_jam_keeps_standing(sig, n, d, dist);
        lemma_jam_below(sig, dist);
        lemma_round_half_even_bounds(jammed);
        lemma_rounded_brackets(jammed, n, low_d);
        assert(m == round_half_even(jammed));
        assert(0 <= m <= 0x80_0000);
        // the divisor of the exact value is 128 times that of the shifted significand
        lemma_pow2_adds(dist, up);
        lemma_pow2_adds(7, dist + up);
        assert(big_d == (128 * low_d) * t) by (nonlinear_arith)
            requires
                big_d == d * (128 * (p * t)),
                low_d == d * p,
        ;
        if m == 0x80_0000 {
            assert(m / 0x80_0000 == 1 && m % 0x80_0000 == 0);
            assert(units_of(m) == 0x80_0000 * pow2(0));
        }
        assert(units_of(m) == m);
        assert(units_of(m + 1) == m + 1) by {
            lemma_units_step(m);
        }
        if m > 0 {
            assert(units_of(m - 1) == m - 1);
        }
        let low = (128 * m - 64) * low_d;
        let high = (128 * m + 64) * low_d;
        assert((2 * m - 1) * big_d == (2 * low) * t && (2 * m + 1) * big_d == (2 * high) * t)
            by (nonlinear_arith)
            requires
                big_d == (128 * low_d) * t,
                low == (128 * m - 64) * low_d,
                high == (128 * m + 64) * low_d,
        ;
        assert(2 * big_n == (2 * n) * t) by (nonlinear_arith)
            requires
                big_n == n * t,
        ;
        lemma_scale_le(2 * low, 2 * n, t);
        lemma_scale_le(2 * n, 2 * high, t);
        if m % 2 == 1 {
            lemma_scale_lt(2 * low, 2 * n, t);
            lemma_scale_lt(2 * n, 2 * high, t);
        }
    } else if exp > 0xFD || (exp == 0xFD && sig + 0x40 >= 0x8000_0000) {
        assert(m == 0x7F80_0000);
        lemma_units_of_normal(0xFD, 0x100_0000);
        lemma_units_of_normal(0xFD, 0xFF_FFFF);
        let g = pow2(0xFD) as int;
        lemma_pow2_pos(0xFD);
        assert(units_of(m - 1) + units_of(m) == 0x1FF_FFFF * g) by (nonlinear_arith)
            requires
                units_of(m) == 0x100_0000 * g,
                units_of(m - 1) == 0xFF_FFFF * g,
        ;
        // the weight of one unit of the significand is at least 2^246
        let w = pow2((exp - 7) as nat) as int;
        lemma_pow2_adds(down, (exp - 7) as nat);
        assert(t == pow2(down) * w);
        lemma_pow2_adds(7, 246);
        assert(pow2(253) == 128 * pow2(246));
        let w0 = pow2(246) as int;
        lemma_pow2_pos(246);
        let pd = pow2(down) as int;
        if exp == 0xFD {
            lemma_stands_for_bounds(sig, n, d, 64, 0x7FFF_FFC0);
            assert(n >= 0x7FFF_FFC0 * d);
            assert(0x1FF_FFFF * g * big_d <= 2 * big_n) by (nonlinear_arith)
                requires
                    g == 128 * w0,
                    big_d == d * pd,
                    big_n == n * (pd * w0),
                    n >= 0x7FFF_FFC0 * d,
                    d > 0,
                    pd > 0,
                    w0 > 0,
            ;
        } else {
            if exp > 0xFE {
                lemma_pow2_strictly_increases(247, (exp - 7) as nat);
            }
            lemma_pow2_unfold(247);
            assert(w >= 2 * w0);
            assert(0x1FF_FFFF * g * big_d <= 2 * big_n) by (nonlinear_arith)
                requires
                    g == 128 * w0,
                    big_d == d * pd,
                    big_n == n * (pd * w),
                    w >= 2 * w0,
                    n >= 0x4000_0000 * d,
                    d > 0,
                    pd > 0,
                    w0 > 0,
            ;
        }
        assert((units_of(m - 1) + units_of(m)) * big_d == 0x1FF_FFFF * g * big_d);
    } else {
        let q = round_half_even(sig);
        lemma_round_half_even_bounds(sig);
        assert(m == exp * 0x80_0000 + q);
        let g = pow2(exp as nat) as int;
        lemma_pow2_pos(exp as nat);
        lemma_units_of_normal(exp, q);
        lemma_gaps_of_normal(exp, q);
        lemma_units_step(m);
        lemma_units_step(m - 1);
        lemma_rounded_brackets(sig, n, d);
        let pd = pow2(down) as int;
        // 128 * 2^up == 2^down * 2^exp
        lemma_pow2_adds(7, up);
        lemma_pow2_adds(down, exp as nat);
        assert(128 * t == pd * g);
        let um = units_of(m);
        let low = (128 * q - 64) * d;
        let high = (128 * q + 64) * d;
        assert((2 * um + g) * big_d == (2 * high) * t && (2 * um - g) * big_d == (2 * low) * t)
            by (nonlinear_arith)
            requires
                um == q * g,
                big_d == d * pd,
                128 * t == pd * g,
                low == (128 * q - 64) * d,
                high == (128 * q + 64) * d,
        ;
        assert(2 * big_n == (2 * n) * t) by (nonlinear_arith)
            requires
                big_n == n * t,
        ;
        assert(big_d > 0) by (nonlinear_arith)
            requires
                big_d == d * pd,
                d > 0,
                pd > 0,
        ;
        lemma_scale_le(2 * n, 2 * high, t);
        lemma_scale_le(2 * um + g, um + units_of(m + 1), big_d);
        if q > 0x80_0000 {
            lemma_scale_le(2 * low, 2 * n, t);
            if q % 2 == 1 {
                lemma_scale_lt(2 * low, 2 * n, t);
                lemma_scale_lt(2 * n, 2 * high, t);
            }
        } else {
            // at the bottom of its exponent the value is not below the pattern itself
            assert((2 * um) * big_d <= 2 * big_n) by (nonlinear_arith)
                requires
                    um == 0x80_0000 * g,
                    big_d == d * pd,
                    128 * t == pd * g,
                    big_n == n * t,
                    n >= 0x4000_0000 * d,
                    t > 0,
            ;
            lemma_scale_le(units_of(m - 1) + um, 2 * um, big_d);
        }
    }
}

/// Being nearest depends on the value alone, not on the quotient that
/// names it.
pub proof fn lemma_nearest_same_value(m: int, n: int, d: int, n2: int, d2: int)
    requires
        d > 0,
        d2 > 0,
        n * d2 == n2 * d,
        is_nearest_even(m, n, d),
    ensures
        is_nearest_even(m, n2, d2),
{
    lemma_units_step(m);
    let up = units_of(m) + units_of(m + 1);
    if m < 0x7F80_0000 {
        assert(2 * n2 <= up * d2) by (nonlinear_arith)
            requires
                2 * n <= up * d,
                n * d2 == n2 * d,
                d > 0,
                d2 > 0,
        ;
        if m % 2 == 1 {
            assert(2 * n2 < up * d2) by (nonlinear_arith)
                requires
                    2 * n < up * d,
                    n * d2 == n2 * d,
                    d > 0,
                    d2 > 0,
            ;
        }
    }
    if m > 0 {
        let low = units_of(m - 1) + units_of(m);
        assert(low * d2 <= 2 * n2) by (nonlinear_arith)
            requires
                low * d <= 2 * n,
                n * d2 == n2 * d,
                d > 0,
                d2 > 0,
        ;
        if m % 2 == 1 {
            assert(low * d2 < 2 * n2) by (nonlinear_arith)
                requires
                    low * d < 2 * n,
                    n * d2 == n2 * d,
                    d > 0,
                    d2 > 0,
            ;
        }
    }
}

/// A value that is a number is its own nearest number.
pub proof fn lemma_exact_is_nearest(m: int)
    requires
        0 <= m <= 0x7F80_0000,
    ensures
        is_nearest_even(m, units_of(m), 1),
{
    lemma_units_step(m);
    if m > 0 {
        lemma_units_step(m - 1);
    }
}

} // verus!
