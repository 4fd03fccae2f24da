//! Field codec and classifier for binary32 bit patterns.

use vstd::prelude::*;

verus! {

/// Positive infinity.
pub const INF: u32 = 0x7F80_0000;

/// Negative infinity.
pub const NEG_INF: u32 = 0xFF80_0000;

/// The NaN produced by an invalid operation.
pub const DEFAULT_NAN: u32 = 0x7FC0_0000;

/// Sign field of a pattern: 0 or 1.
pub open spec fn sign_of(a: u32) -> int {
    a as int / 0x8000_0000
}

/// Biased exponent field of a pattern: 0..=255.
pub open spec fn exp_of(a: u32) -> int {
    (a as int / 0x80_0000) % 0x100
}

/// Fraction field of a pattern: 0..2^23.
pub open spec fn frac_of(a: u32) -> int {
    a as int % 0x80_0000
}

/// The pattern with the given fields, as an integer.
pub open spec fn bits_of(sign: int, exp: int, frac: int) -> int {
    sign * 0x8000_0000 + exp * 0x80_0000 + frac
}

/// The fields fit their widths, so that they occupy disjoint bits.
pub open spec fn fields_fit(sign: int, exp: int, frac: int) -> bool {
    &&& 0 <= sign <= 1
    &&& 0 <= exp <= 0xFF
    &&& 0 <= frac < 0x80_0000
}

/// Exponent all ones and fraction nonzero.
pub open spec fn is_nan(a: u32) -> bool {
    exp_of(a) == 0xFF && frac_of(a) != 0
}

/// A NaN whose quiet bit is clear.
pub open spec fn is_signaling(a: u32) -> bool {
    is_nan(a) && frac_of(a) < 0x40_0000
}

/// Exponent all ones and fraction zero.
pub open spec fn is_inf(a: u32) -> bool {
    exp_of(a) == 0xFF && frac_of(a) == 0
}

/// Neither infinity nor a NaN.
pub open spec fn is_finite(a: u32) -> bool {
    exp_of(a) != 0xFF
}

/// Exponent and fraction both zero.
pub open spec fn is_zero(a: u32) -> bool {
    exp_of(a) == 0 && frac_of(a) == 0
}

/// The pattern without its sign bit: exponent and fraction as one number,
/// which grows with the magnitude of the value.
pub open spec fn magnitude(a: u32) -> int {
    a as int % 0x8000_0000
}

/// Every pattern is the composition of its three fields.
pub proof fn lemma_fields_compose(a: u32)
    ensures
        fields_fit(sign_of(a), exp_of(a), frac_of(a)),
        bits_of(sign_of(a), exp_of(a), frac_of(a)) == a,
{
}

/// The masks and shifts that take a pattern apart, in arithmetic.
pub proof fn lemma_field_masks(a: u32)
    by (bit_vector)
    ensures
        (a >> 31) & 1 == a / 0x8000_0000,
        (a >> 23) & 0xFF == (a / 0x80_0000) % 0x100,
        a >> 23 == a / 0x80_0000,
        a & 0x7F_FFFF == a % 0x80_0000,
        (a & 0x7F_FFFF) | 0x80_0000 == a % 0x80_0000 + 0x80_0000,
        (a & 0x7F80_0000) == 0x7F80_0000 <==> (a / 0x80_0000) % 0x100 == 0xFF,
        (a & 0x7FC0_0000) == 0x7F80_0000 <==> ((a / 0x80_0000) % 0x100 == 0xFF && a % 0x80_0000
            < 0x40_0000),
        a & 0x3F_FFFF == a % 0x40_0000,
{
}

/// Sign field.
pub fn f32_sign(a: u32) -> (r: i32)
    ensures
        r == sign_of(a),
{
    proof {
        lemma_field_masks(a);
    }
    ((a >> 31) & 1) as i32
}

/// Biased exponent field.
pub fn f32_exp(a: u32) -> (r: i32)
    ensures
        r == exp_of(a),
{
    proof {
        lemma_field_masks(a);
    }
    ((a >> 23) & 0xFF) as i32
}

/// Fraction field.
pub fn f32_frac(a: u32) -> (r: i32)
    ensures
        r == frac_of(a),
{
    proof {
        lemma_field_masks(a);
    }
    (a & 0x7F_FFFF) as i32
}

/// Fraction field with the implicit leading one of a normal number put in
/// front of it.
pub fn f32_frac_old(a: u32) -> (r: i32)
    ensures
        r == frac_of(a) + 0x80_0000,
{
    proof {
        lemma_field_masks(a);
    }
    ((a & 0x7F_FFFF) | 0x80_0000) as i32
}

/// Fields that fit their widths are combined by bitwise or as by addition.
proof fn lemma_disjoint_or(s: u32, e: u32, f: u32)
    by (bit_vector)
    requires
        s <= 1,
        e <= 0xFF,
        f < 0x80_0000,
    ensures
        (s << 31) | (e << 23) | f == s * 0x8000_0000 + e * 0x80_0000 + f,
{
}

/// Masking a signed value keeps its remainder by the power of two.
proof fn lemma_low_bits_signed(e: i32, f: i32)
    by (bit_vector)
    ensures
        0 <= e & 0xFF <= 0xFF,
        e & 0xFF == (e as int) % 0x100,
        0 <= f & 0x7F_FFFF < 0x80_0000,
        f & 0x7F_FFFF == (f as int) % 0x80_0000,
{
}

/// Combines the three fields by bitwise or. The caller guarantees that
/// each field fits its width, so that no bits overlap.
pub fn f32_pack_raw(in_sign: i32, in_exp: i32, in_frac: i32) -> (r: u32)
    requires
        fields_fit(in_sign as int, in_exp as int, in_frac as int),
    ensures
        r == bits_of(in_sign as int, in_exp as int, in_frac as int),
{
    let s = in_sign as u32;
    let e = in_exp as u32;
    let f = in_frac as u32;
    proof {
        lemma_disjoint_or(s, e, f);
    }
    (s << 31) | (e << 23) | f
}

/// Combines the three fields after masking the exponent to 8 bits and the
/// fraction to 23 bits, so that out-of-range intermediate values cannot
/// disturb a neighbouring field.
pub fn f32_pack(in_sign: i32, in_exp: i32, in_frac: i32) -> (r: u32)
    requires
        0 <= in_sign <= 1,
    ensures
        r == bits_of(in_sign as int, (in_exp as int) % 0x100, (in_frac as int) % 0x80_0000),
{
    proof {
        lemma_low_bits_signed(in_exp, in_frac);
    }
    f32_pack_raw(in_sign, in_exp & 0xFF, in_frac & 0x7F_FFFF)
}

/// True when the pattern is a NaN, quiet or signaling.
pub fn f32_is_nan(a: u32) -> (r: bool)
    ensures
        r == is_nan(a),
{
    proof {
        lemma_field_masks(a);
    }
    let is_exp_nan = (a & 0x7F80_0000) == 0x7F80_0000;
    let is_frac_nan = (a & 0x007F_FFFF) != 0;
    is_exp_nan && is_frac_nan
}

/// True when the pattern is a signaling NaN: exponent all ones, quiet bit
/// clear, and the rest of the fraction nonzero.
pub fn f32_is_frac_nan(a: u32) -> (r: bool)
    ensures
        r == is_signaling(a),
{
    proof {
        lemma_field_masks(a);
    }
    let is_exp_nan = (a & 0x7FC0_0000) == 0x7F80_0000;
    let is_frac_nan = (a & 0x003F_FFFF) != 0;
    is_exp_nan && is_frac_nan
}

} // verus!
