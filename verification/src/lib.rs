//! 8-bit and sub-byte floating point formats, modelled bit by bit.
mod bitfacts;
mod bits;
mod class_laws;
mod compare;
mod convert;
mod format;
mod formats;
mod integral;
mod laws;
mod micro;
mod ops;
mod order_laws;
mod rounding_laws;
mod sign_laws;
mod value;
mod whole;

pub use crate::bits::{
    abs_bits, classify_bits, exponent_field, infinity_bits, is_infinity_bits, is_nan_bits,
    is_negative_bits, magnitude_bits, mantissa_field, max_finite_bits, nan_bits, neg_zero_bits,
    negate_bits, next_down_bits, next_up_bits, one_bits, overflow_bits, total_key, Class,
};
pub use crate::convert::{decode_f32, encode_e8m0, encode_f32, exp2i};
pub use crate::format::{Format, Layout, NanEncoding, Overflow, SignMode, ZeroMode};
pub use crate::formats::{
    f4e2m1fn, f6e2m3fn, f6e3m2fn, f8e3m4, f8e4m3, f8e4m3b11fnuz, f8e4m3fn, f8e4m3fnuz, f8e5m2,
    f8e5m2fnuz, f8e8m0fnu,
};
pub use crate::formats::{
    Float4E2M1FnFormat, Float6E2M3FnFormat, Float6E3M2FnFormat, Float8E3M4Format,
    Float8E4M3B11FnuzFormat, Float8E4M3FnFormat, Float8E4M3FnuzFormat, Float8E4M3Format,
    Float8E5M2FnuzFormat, Float8E5M2Format, Float8E8M0FnuFormat,
};
pub use crate::micro::{FpCategory, MicroFloat};
pub use crate::ops::floored_remainder_f32;
