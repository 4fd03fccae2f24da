//! The integer square root, and how an estimate of it is settled.

use vstd::prelude::*;
use vstd::arithmetic::power2::{pow2, lemma2_to64, lemma_pow2_pos, lemma_pow2_unfold};
use vstd::bits::lemma_u64_shl_is_mul;

verus! {

/// How often an estimate is moved by one before it is dropped and the
/// result found anew, exactly. The estimates made in this library are
/// meant to lie within two of the result; that is not proved, and no
/// result depends on it.
pub const CORRECTION_STEPS: u32 = 4;

/// `s` is the integer square root of `x`: the largest integer whose
/// square does not exceed `x`.
pub open spec fn is_int_sqrt(x: int, s: int) -> bool {
    s >= 0 && s * s <= x < (s + 1) * (s + 1)
}

/// The integer square root of `x`.
pub open spec fn int_sqrt(x: int) -> int {
    choose|s: int| is_int_sqrt(x, s)
}

/// There is only one integer square root.
pub proof fn lemma_int_sqrt_unique(x: int, s: int)
    requires
        is_int_sqrt(x, s),
    ensures
        int_sqrt(x) == s,
{
    let t = int_sqrt(x);
    assert(is_int_sqrt(x, t));
    assert(s == t) by (nonlinear_arith)
        requires
            s >= 0,
            t >= 0,
            s * s <= x < (s + 1) * (s + 1),
            t * t <= x < (t + 1) * (t + 1),
    ;
}

/// Every number that is not negative has an integer square root.
pub proof fn lemma_int_sqrt_exists(x: int)
    requires
        x >= 0,
    ensures
        is_int_sqrt(x, int_sqrt(x)),
    decreases x,
{
    if x == 0 {
        assert(is_int_sqrt(0, 0));
    } else {
        lemma_int_sqrt_exists(x / 4);
        let s = int_sqrt(x / 4);
        let t = 2 * s;
        // the root of x is 2s or 2s + 1
        assert(t * t <= x && x < (t + 2) * (t + 2)) by (nonlinear_arith)
            requires
                s >= 0,
                t == 2 * s,
                s * s <= x / 4,
                x / 4 < (s + 1) * (s + 1),
                4 * (x / 4) <= x < 4 * (x / 4) + 4,
        ;
        if (t + 1) * (t + 1) <= x {
            assert(is_int_sqrt(x, t + 1)) by (nonlinear_arith)
                requires
                    t >= 0,
                    (t + 1) * (t + 1) <= x,
                    x < (t + 2) * (t + 2),
            ;
        } else {
            assert(is_int_sqrt(x, t));
        }
    }
}

/// The integer square root of a number of 61 or 62 bits has 31 bits.
pub proof fn lemma_root_bounds(x: int, s: int)
    requires
        0x1000_0000_0000_0000 <= x < 0x4000_0000_0000_0000,
        is_int_sqrt(x, s),
    ensures
        0x4000_0000 <= s < 0x8000_0000,
{
    assert(0x4000_0000 <= s < 0x8000_0000) by (nonlinear_arith)
        requires
            0x1000_0000_0000_0000 <= x < 0x4000_0000_0000_0000,
            s >= 0,
            s * s <= x < (s + 1) * (s + 1),
    ;
}

/// Finds the integer square root bit by bit, from the top.
pub fn f32_root_by_bits(x: u64) -> (s: u64)
    requires
        x < 0x4000_0000_0000_0000,
    ensures
        is_int_sqrt(x as int, s as int),
        s < 0x8000_0000,
{
    let mut s: u64 = 0;
    let mut k: u32 = 31;
    proof {
        lemma2_to64();
        assert(0 * 0 == 0) by (nonlinear_arith);
    }
    while k > 0
        invariant
            k <= 31,
            s * s <= x,
            x < (s + pow2(k as nat)) * (s + pow2(k as nat)),
            s + pow2(k as nat) <= 0x8000_0000,
        decreases k,
    {
        let ghost span = pow2(k as nat) as int;
        k = k - 1;
        proof {
            lemma_pow2_unfold((k + 1) as nat);
            lemma_pow2_pos(k as nat);
            lemma_u64_shl_is_mul(1, k as u64);
        }
        let bit: u64 = 1u64 << k;
        let t = s + bit;
        proof {
            assert(t * t < 0x8000_0000 * 0x8000_0000) by (nonlinear_arith)
                requires
                    0 <= t < 0x8000_0000,
            ;
        }
        if t * t <= x {
            s = t;
        }
    }
    proof {
        lemma2_to64();
    }
    s
}

/// Settles an estimate of a square root by the remainder: where the
/// square of the estimate exceeds the number the estimate is lowered by
/// one, where the square of the next integer does not exceed it the
/// estimate is raised by one. An estimate that is still not the root
/// after a few such steps is dropped, and the root found bit by bit.
pub fn f32_correct_root(x: u64, estimate: u64) -> (s: u64)
    requires
        x < 0x4000_0000_0000_0000,
    ensures
        is_int_sqrt(x as int, s as int),
        s < 0x8000_0000,
{
    let mut s: u64 = if estimate > 0x7FFF_FFFF {
        0x7FFF_FFFF
    } else {
        estimate
    };
    let mut steps: u32 = 0;
    while steps < CORRECTION_STEPS
        invariant
            x < 0x4000_0000_0000_0000,
            s <= 0x7FFF_FFFF,
            steps <= CORRECTION_STEPS,
        decreases CORRECTION_STEPS - steps,
    {
        proof {
            assert(s * s <= 0x7FFF_FFFF * 0x7FFF_FFFF && (s + 1) * (s + 1) <= 0x8000_0000
                * 0x8000_0000) by (nonlinear_arith)
                requires
                    0 <= s <= 0x7FFF_FFFF,
            ;
        }
        if s * s > x {
            proof {
                assert(s > 0) by (nonlinear_arith)
                    requires
                        s * s > x,
                        x >= 0,
                        s >= 0,
                ;
            }
            s = s - 1;
        } else if (s + 1) * (s + 1) <= x {
            proof {
                assert(s + 1 <= 0x7FFF_FFFF) by (nonlinear_arith)
                    requires
                        (s + 1) * (s + 1) <= x,
                        x < 0x4000_0000_0000_0000,
                        s >= 0,
                ;
            }
            s = s + 1;
        } else {
            return s;
        }
        steps = steps + 1;
    }
    proof {
        assert(s * s <= 0x7FFF_FFFF * 0x7FFF_FFFF && (s + 1) * (s + 1) <= 0x8000_0000
            * 0x8000_0000) by (nonlinear_arith)
            requires
                0 <= s <= 0x7FFF_FFFF,
        ;
    }
    if s * s <= x && x < (s + 1) * (s + 1) {
        s
    } else {
        f32_root_by_bits(x)
    }
}

} // verus!
