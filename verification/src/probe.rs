//! A probe for operations on two operands: does the operation answer a
//! NaN with a NaN?

use vstd::prelude::*;
use crate::bits::{f32_is_nan, is_nan, INF, NEG_INF};

verus! {

/// One.
pub const ONE: u32 = 0x3F80_0000;

/// Minus one.
pub const NEG_ONE: u32 = 0xBF80_0000;

/// `f` can answer the operands `a` and `b` with a NaN.
pub open spec fn answers_nan<F: Fn(u32, u32) -> u32>(f: F, a: u32, b: u32) -> bool {
    exists|r: u32| #[trigger] f.ensures((a, b), r) && is_nan(r)
}

/// `f` can answer the operands `a` and `b` with something that is no NaN.
pub open spec fn answers_other<F: Fn(u32, u32) -> u32>(f: F, a: u32, b: u32) -> bool {
    exists|r: u32| #[trigger] f.ensures((a, b), r) && !is_nan(r)
}

/// Applies `f` to five pairs of operands with a NaN among them, and tells
/// whether every result was a NaN. The probes are a NaN with all bits set
/// against one, minus one, infinity and negative infinity, and two quiet
/// NaNs against each other.
///
/// A true answer means that `f` gave a NaN on each probe; a false one
/// that on some probe it gave a result that is no NaN.
pub fn test_nan<F>(f: F) -> (ok: bool) where F: Fn(u32, u32) -> u32
    requires
        forall|a: u32, b: u32| f.requires((a, b)),
    ensures
        ok ==> answers_nan(f, 0xFFFF_FFFF, ONE) && answers_nan(f, 0xFFFF_FFFF, NEG_ONE)
            && answers_nan(f, 0xFFFF_FFFF, INF) && answers_nan(f, 0xFFFF_FFFF, NEG_INF)
            && answers_nan(f, 0xFFFF_F114, 0xFFFF_F514),
        !ok ==> answers_other(f, 0xFFFF_FFFF, ONE) || answers_other(f, 0xFFFF_FFFF, NEG_ONE)
            || answers_other(f, 0xFFFF_FFFF, INF) || answers_other(f, 0xFFFF_FFFF, NEG_INF)
            || answers_other(f, 0xFFFF_F114, 0xFFFF_F514),
{
    let r0 = f(0xFFFF_FFFF, ONE);
    let r1 = f(0xFFFF_FFFF, NEG_ONE);
    let r2 = f(0xFFFF_FFFF, INF);
    let r3 = f(0xFFFF_FFFF, NEG_INF);
    let r4 = f(0xFFFF_F114, 0xFFFF_F514);
    f32_is_nan(r0) && f32_is_nan(r1) && f32_is_nan(r2) && f32_is_nan(r3) && f32_is_nan(r4)
}

} // verus!
