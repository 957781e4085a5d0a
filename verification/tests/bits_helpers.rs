use microfloat::{
    exp2i,
    infinity_bits, is_negative_bits, magnitude_bits, max_finite_bits, nan_bits, neg_zero_bits,
    one_bits, Float4E2M1FnFormat, Float6E2M3FnFormat, Float6E3M2FnFormat, Float8E3M4Format,
    Float8E4M3B11FnuzFormat, Float8E4M3FnFormat, Float8E4M3FnuzFormat, Float8E4M3Format,
    Float8E5M2FnuzFormat, Float8E5M2Format, Float8E8M0FnuFormat,
};

#[test]
fn max_finite_bits_zero_mode_none_returns_0xfe() {
    assert_eq!(max_finite_bits::<Float8E8M0FnuFormat>(false), 0xfe);
    assert_eq!(max_finite_bits::<Float8E8M0FnuFormat>(true), 0xfe);
}

#[test]
fn max_finite_bits_saturate_formats_dont_return_0xfe() {
    assert_ne!(max_finite_bits::<Float4E2M1FnFormat>(false), 0xfe);
    assert_ne!(max_finite_bits::<Float6E2M3FnFormat>(false), 0xfe);
    assert_ne!(max_finite_bits::<Float6E3M2FnFormat>(false), 0xfe);
}

#[test]
fn max_finite_bits_outer_nan_encoding_decrements_mantissa() {
    assert_eq!(max_finite_bits::<Float8E4M3FnFormat>(false), 0x7e);
    assert_eq!(max_finite_bits::<Float8E4M3FnFormat>(true), 0xfe);
}

#[test]
fn max_finite_bits_single_nan_encoding_no_decrement() {
    assert_eq!(max_finite_bits::<Float8E4M3B11FnuzFormat>(false), 0x7f);
    assert_eq!(max_finite_bits::<Float8E4M3B11FnuzFormat>(true), 0xff);
}

#[test]
fn one_bits_zero_mode_none_returns_exponent_bias() {
    assert_eq!(one_bits::<Float8E8M0FnuFormat>(), 0x7f);
}

#[test]
fn one_bits_zero_mode_signed_returns_bias_shifted() {
    assert_eq!(one_bits::<Float8E4M3Format>(), 0x38);
    assert_eq!(one_bits::<Float4E2M1FnFormat>(), 0x02);
    assert_eq!(one_bits::<Float6E3M2FnFormat>(), 0x0c);
}

#[test]
fn one_bits_zero_mode_unsigned_returns_bias_shifted() {
    assert_eq!(one_bits::<Float8E4M3FnuzFormat>(), 0x40);
    assert_eq!(one_bits::<Float8E5M2FnuzFormat>(), 0x40);
}

#[test]
fn neg_zero_bits_zero_mode_signed() {
    assert_eq!(neg_zero_bits::<Float8E4M3Format>(), 0x80);
    assert_eq!(neg_zero_bits::<Float4E2M1FnFormat>(), 0x08);
}

#[test]
fn neg_zero_bits_zero_mode_unsigned() {
    assert_eq!(neg_zero_bits::<Float8E4M3FnuzFormat>(), 0x00);
    assert_eq!(neg_zero_bits::<Float8E4M3B11FnuzFormat>(), 0x00);
}

#[test]
fn neg_zero_bits_zero_mode_none_returns_nan() {
    assert_eq!(
        neg_zero_bits::<Float8E8M0FnuFormat>(),
        nan_bits::<Float8E8M0FnuFormat>(false)
    );
}

#[test]
fn infinity_bits_overflow_infinity_positive() {
    assert_eq!(infinity_bits::<Float8E3M4Format>(false), 0x70);
    assert_eq!(infinity_bits::<Float8E4M3Format>(false), 0x78);
    assert_eq!(infinity_bits::<Float8E5M2Format>(false), 0x7C);
}

#[test]
fn infinity_bits_overflow_infinity_negative() {
    assert_eq!(infinity_bits::<Float8E3M4Format>(true), 0xF0);
    assert_eq!(infinity_bits::<Float8E4M3Format>(true), 0xF8);
    assert_eq!(infinity_bits::<Float8E5M2Format>(true), 0xFC);
}

#[test]
fn infinity_bits_overflow_nan_positive() {
    assert_eq!(infinity_bits::<Float4E2M1FnFormat>(false), 0x07);
    assert_eq!(infinity_bits::<Float6E2M3FnFormat>(false), 0x1F);
    assert_eq!(infinity_bits::<Float6E3M2FnFormat>(false), 0x1F);
    assert_eq!(infinity_bits::<Float8E4M3FnFormat>(false), 0x7F);
    assert_eq!(infinity_bits::<Float8E4M3FnuzFormat>(false), 0x80);
    assert_eq!(infinity_bits::<Float8E5M2FnuzFormat>(false), 0x80);
    assert_eq!(infinity_bits::<Float8E4M3B11FnuzFormat>(false), 0x80);
}

#[test]
fn infinity_bits_overflow_nan_negative() {
    assert_eq!(infinity_bits::<Float4E2M1FnFormat>(true), 0x0F);
    assert_eq!(infinity_bits::<Float6E2M3FnFormat>(true), 0x3F);
    assert_eq!(infinity_bits::<Float6E3M2FnFormat>(true), 0x3F);
    assert_eq!(infinity_bits::<Float8E4M3FnFormat>(true), 0xFF);
    assert_eq!(infinity_bits::<Float8E4M3FnuzFormat>(true), 0x80);
    assert_eq!(infinity_bits::<Float8E5M2FnuzFormat>(true), 0x80);
    assert_eq!(infinity_bits::<Float8E4M3B11FnuzFormat>(true), 0x80);
}

#[test]
fn infinity_bits_overflow_saturate_positive() {
    assert_eq!(infinity_bits::<Float4E2M1FnFormat>(false), 0x07);
    assert_eq!(infinity_bits::<Float6E2M3FnFormat>(false), 0x1F);
    assert_eq!(infinity_bits::<Float6E3M2FnFormat>(false), 0x1F);
}

#[test]
fn infinity_bits_overflow_saturate_negative() {
    assert_eq!(infinity_bits::<Float4E2M1FnFormat>(true), 0x0F);
    assert_eq!(infinity_bits::<Float6E2M3FnFormat>(true), 0x3F);
    assert_eq!(infinity_bits::<Float6E3M2FnFormat>(true), 0x3F);
}

#[test]
fn is_negative_bits_unsigned_returns_false() {
    assert!(!is_negative_bits::<Float8E8M0FnuFormat>(0x00));
    assert!(!is_negative_bits::<Float8E8M0FnuFormat>(0xff));
}

#[test]
fn magnitude_bits_unsigned_returns_bits() {
    assert_eq!(magnitude_bits::<Float8E8M0FnuFormat>(0x00), 0x00);
    assert_eq!(magnitude_bits::<Float8E8M0FnuFormat>(0xff), 0xff);
}

#[test]
fn exp2i_unreachable_by_formats() {
    // Below minimum f32 denormal: returns 0.0
    assert_eq!(f32::from_bits(exp2i(-150)), 0.0);
    assert_eq!(f32::from_bits(exp2i(-500)), 0.0);
    // Just at boundary: smallest f32 denormal (1 << 0)
    assert_eq!(f32::from_bits(exp2i(-149)), f32::from_bits(1u32));
    // Denormal range: -148 ..=-127 produces f32 denormals
    assert_eq!(f32::from_bits(exp2i(-128)), f32::from_bits(1u32 << 21));
    assert_eq!(f32::from_bits(exp2i(-127)), f32::from_bits(1u32 << 22));
    // exp = -126: boundary between denormal and normal branches (both give same value)
    assert_eq!(f32::from_bits(exp2i(-126)), f32::MIN_POSITIVE);
    // Normal range: exp = -125 uses the normal branch
    assert_eq!(f32::from_bits(exp2i(-125)), f32::from_bits((2u32) << 23));
    // Normal range: exp = 127 uses the normal branch
    assert_eq!(f32::from_bits(exp2i(127)), f32::from_bits(0x7F00_0000));
    // Above maximum f32 normal: returns INFINITY
    assert_eq!(f32::from_bits(exp2i(128)), f32::INFINITY);
    assert_eq!(f32::from_bits(exp2i(500)), f32::INFINITY);
}
