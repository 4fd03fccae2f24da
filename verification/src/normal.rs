//! Operands made normal: a finite number other than zero, as a
//! significand whose leading one stands at bit 23 and an exponent that
//! may fall below 1.

use vstd::prelude::*;
use vstd::arithmetic::power2::{pow2, lemma2_to64, lemma_pow2_pos};
use crate::bits::{exp_of, frac_of, is_finite, is_zero, magnitude, lemma_fields_compose};
use crate::nearest::units;
use crate::shift::{subnormal_shift, lemma_subnormal_shift};

verus! {

/// Biased exponent of a finite nonzero number once its significand is
/// normalized; below 1 for a subnormal number.
pub open spec fn norm_exp(a: u32) -> int {
    if exp_of(a) != 0 {
        exp_of(a)
    } else {
        1 - subnormal_shift(frac_of(a) as u32)
    }
}

/// Significand of a finite nonzero number with its leading one at bit 23.
pub open spec fn norm_sig(a: u32) -> int {
    if exp_of(a) != 0 {
        0x80_0000 + frac_of(a)
    } else {
        frac_of(a) * pow2(subnormal_shift(frac_of(a) as u32) as nat)
    }
}

/// The normalized significand has 24 bits, and the normalized exponent is
/// at least -22.
pub proof fn lemma_norm_bounds(a: u32)
    requires
        !is_zero(a),
    ensures
        0x80_0000 <= norm_sig(a) < 0x100_0000,
        -22 <= norm_exp(a) <= 0xFF,
        exp_of(a) != 0 ==> norm_exp(a) >= 1,
{
    if exp_of(a) == 0 {
        lemma_subnormal_shift(frac_of(a) as u32);
    }
}

/// Power of two by which the normalized significand is to be multiplied
/// to give the magnitude in units, together with `norm_down`.
pub open spec fn norm_up(a: u32) -> nat {
    if exp_of(a) != 0 {
        (exp_of(a) - 1) as nat
    } else {
        0
    }
}

/// Power of two by which the normalized significand is to be divided.
pub open spec fn norm_down(a: u32) -> nat {
    if exp_of(a) != 0 {
        0
    } else {
        subnormal_shift(frac_of(a) as u32) as nat
    }
}

/// The magnitude of a finite nonzero number is its normalized
/// significand times `2^(norm_exp - 1)`, the power being written as a
/// quotient of two powers.
pub proof fn lemma_units_normalized(a: u32)
    requires
        is_finite(a),
        !is_zero(a),
    ensures
        units(a) * pow2(norm_down(a)) == norm_sig(a) * pow2(norm_up(a)),
        norm_exp(a) - 1 == norm_up(a) - norm_down(a),
        units(a) > 0,
{
    lemma2_to64();
    lemma_fields_compose(a);
    let m = magnitude(a);
    let e = exp_of(a);
    let f = frac_of(a);
    assert(m == e * 0x80_0000 + f);
    if e != 0 {
        assert(m / 0x80_0000 == e && m % 0x80_0000 == f);
        let g = pow2((e - 1) as nat) as int;
        lemma_pow2_pos((e - 1) as nat);
        assert((0x80_0000 + f) * g > 0) by (nonlinear_arith)
            requires
                f >= 0,
                g > 0,
        ;
        assert(units(a) * pow2(0) == units(a)) by (nonlinear_arith)
            requires
                pow2(0) == 1,
        ;
    } else {
        lemma_subnormal_shift(f as u32);
        assert(norm_sig(a) * pow2(0) == norm_sig(a)) by (nonlinear_arith)
            requires
                pow2(0) == 1,
        ;
    }
}

} // verus!
