//! A value type around the raw pattern, with operator syntax. Every
//! operator hands its operands to the function of the same meaning and
//! adds nothing of its own.

use vstd::prelude::*;
use core::cmp::Ordering;
use crate::add::{f32_add, f32_add_spec, f32_sub, f32_sub_spec};
use crate::comp::{
    f32_eq, f32_eq_spec, f32_ge, f32_ge_spec, f32_gt, f32_gt_spec, f32_le, f32_le_spec, f32_lt,
    f32_lt_spec, f32_ne, f32_ne_spec,
};
use crate::div::{f32_div, f32_div_spec};
use crate::mul::{f32_mul, f32_mul_spec};

verus! {

/// A binary32 number, held as its bit pattern.
pub struct F32 {
    value: u32,
}

impl View for F32 {
    type V = u32;

    closed spec fn view(&self) -> u32 {
        self.value
    }
}

impl F32 {
    /// The number with the given bit pattern.
    pub fn from_u32(value: u32) -> (r: F32)
        ensures
            r@ == value,
    {
        F32 { value: value }
    }

    /// The bit pattern of the number.
    pub fn value(self) -> (r: u32)
        ensures
            r == self@,
    {
        self.value
    }
}

impl core::ops::Add<F32> for F32 {
    type Output = F32;

    /// `self + other`.
    fn add(self, other: F32) -> (r: F32)
        ensures
            r@ == f32_add_spec(self@, other@),
    {
        F32 { value: f32_add(self.value, other.value) }
    }
}

impl core::ops::Sub<F32> for F32 {
    type Output = F32;

    /// `self - other`.
    fn sub(self, other: F32) -> (r: F32)
        ensures
            r@ == f32_sub_spec(self@, other@),
    {
        F32 { value: f32_sub(self.value, other.value) }
    }
}

impl core::ops::Mul<F32> for F32 {
    type Output = F32;

    /// `self * other`.
    fn mul(self, other: F32) -> (r: F32)
        ensures
            r@ == f32_mul_spec(self@, other@),
    {
        F32 { value: f32_mul(self.value, other.value) }
    }
}

impl core::ops::Div<F32> for F32 {
    type Output = F32;

    /// `self / other`.
    fn div(self, other: F32) -> (r: F32)
        ensures
            r@ == f32_div_spec(self@, other@),
    {
        F32 { value: f32_div(self.value, other.value) }
    }
}

impl vstd::std_specs::ops::AddSpecImpl<F32> for F32 {
    open spec fn obeys_add_spec() -> bool {
        true
    }

    open spec fn add_req(self, other: F32) -> bool {
        true
    }

    closed spec fn add_spec(self, other: F32) -> F32 {
        F32 { value: f32_add_spec(self.value, other.value) as u32 }
    }
}

impl vstd::std_specs::ops::SubSpecImpl<F32> for F32 {
    open spec fn obeys_sub_spec() -> bool {
        true
    }

    open spec fn sub_req(self, other: F32) -> bool {
        true
    }

    closed spec fn sub_spec(self, other: F32) -> F32 {
        F32 { value: f32_sub_spec(self.value, other.value) as u32 }
    }
}

impl vstd::std_specs::ops::MulSpecImpl<F32> for F32 {
    open spec fn obeys_mul_spec() -> bool {
        true
    }

    open spec fn mul_req(self, other: F32) -> bool {
        true
    }

    closed spec fn mul_spec(self, other: F32) -> F32 {
        F32 { value: f32_mul_spec(self.value, other.value) as u32 }
    }
}

impl vstd::std_specs::ops::DivSpecImpl<F32> for F32 {
    open spec fn obeys_div_spec() -> bool {
        true
    }

    open spec fn div_req(self, other: F32) -> bool {
        true
    }

    closed spec fn div_spec(self, other: F32) -> F32 {
        F32 { value: f32_div_spec(self.value, other.value) as u32 }
    }
}

impl PartialEq for F32 {
    /// `self == other`: false when an operand is a NaN.
    fn eq(&self, other: &Self) -> (r: bool)
        ensures
            r == f32_eq_spec(self@, other@),
    {
        f32_eq(self.value, other.value)
    }

    /// `self != other`: false, too, when an operand is a NaN.
    fn ne(&self, other: &Self) -> (r: bool)
        ensures
            r == f32_ne_spec(self@, other@),
    {
        f32_ne(self.value, other.value)
    }
}

/// Not-equal is not the negation of equal: both are false when an operand
/// is a NaN. So the type does not claim the usual law.
impl vstd::std_specs::cmp::PartialEqSpecImpl for F32 {
    open spec fn obeys_eq_spec() -> bool {
        false
    }

    open spec fn eq_spec(&self, other: &Self) -> bool {
        f32_eq_spec(self@, other@)
    }
}

impl PartialOrd for F32 {
    /// The order of two numbers; none when an operand is a NaN.
    fn partial_cmp(&self, other: &Self) -> (r: Option<Ordering>) {
        if f32_eq(self.value, other.value) {
            return Some(Ordering::Equal);
        }
        if f32_lt(self.value, other.value) {
            return Some(Ordering::Less);
        }
        if f32_gt(self.value, other.value) {
            return Some(Ordering::Greater);
        }
        None
    }

    /// `self > other`.
    fn gt(&self, other: &Self) -> (r: bool)
        ensures
            r == f32_gt_spec(self@, other@),
    {
        f32_gt(self.value, other.value)
    }

    /// `self < other`.
    fn lt(&self, other: &Self) -> (r: bool)
        ensures
            r == f32_lt_spec(self@, other@),
    {
        f32_lt(self.value, other.value)
    }

    /// `self >= other`.
    fn ge(&self, other: &Self) -> (r: bool)
        ensures
            r == f32_ge_spec(self@, other@),
    {
        f32_ge(self.value, other.value)
    }

    /// `self <= other`.
    fn le(&self, other: &Self) -> (r: bool)
        ensures
            r == f32_le_spec(self@, other@),
    {
        f32_le(self.value, other.value)
    }
}

impl vstd::std_specs::cmp::PartialOrdSpecImpl for F32 {
    open spec fn obeys_partial_cmp_spec() -> bool {
        true
    }

    open spec fn partial_cmp_spec(&self, other: &Self) -> Option<Ordering> {
        if f32_eq_spec(self@, other@) {
            Some(Ordering::Equal)
        } else if f32_lt_spec(self@, other@) {
            Some(Ordering::Less)
        } else if f32_gt_spec(self@, other@) {
            Some(Ordering::Greater)
        } else {
            None
        }
    }
}

} // verus!
