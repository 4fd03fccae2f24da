//! IEEE-754 binary32 arithmetic carried out on 32-bit integer bit patterns.
//!
//! Every operation takes and returns raw `u32` patterns (bit 31 sign,
//! bits 30..23 biased exponent, bits 22..0 fraction) and is a pure, total
//! function; no hardware floating point is involved anywhere. Rounding is
//! to nearest, ties to even.
//!
//! Each operation comes with a function of the specification language
//! that says which pattern it returns. For finite operands the
//! arithmetic operations are proved, beyond that, to return the number
//! nearest to the exact result: see [`nearest`] for what that means and
//! for the proof that the rounding engine achieves it, and the modules
//! of the operations for the theorems. [`laws`] holds the algebraic laws
//! of the arithmetic. With a NaN among its operands every arithmetic
//! operation returns a NaN.

pub mod bits;
pub mod nan;
pub mod shift;
pub mod round;
pub mod nearest;
pub mod normal;
pub mod add;
pub mod mul;
pub mod div;
pub mod root;
pub mod approx;
pub mod sqrt;
pub mod comp;
pub mod convert;
pub mod value;
pub mod probe;
pub mod laws;

pub use add::{f32_add, f32_add_mags, f32_sub, f32_sub_mags};
pub use approx::{f32_approx_recip, f32_approx_recip_sqrt};
pub use bits::{
    f32_exp, f32_frac, f32_frac_old, f32_is_frac_nan, f32_is_nan, f32_pack, f32_pack_raw, f32_sign,
};
pub use comp::{f32_eq, f32_ge, f32_gt, f32_le, f32_lt, f32_ne};
pub use convert::{f32_round, from_int32, to_int32};
pub use div::f32_div;
pub use mul::f32_mul;
pub use nan::f32_propagate_nan;
pub use probe::test_nan;
pub use round::{f32_norm_round_and_pack, f32_pack_carry, f32_round_and_pack};
pub use shift::{
    f32_count_leading_zero, f32_norm_subnormal_frac, f32_shift_right_jam,
    f32_short_shift_right_jam64,
};
pub use root::{f32_correct_root, f32_root_by_bits};
pub use sqrt::f32_sqrt;
pub use value::F32;
