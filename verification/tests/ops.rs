use microfloat::{
    f4e2m1fn, f8e4m3, f8e4m3b11fnuz, f8e8m0fnu, floored_remainder_f32, Format, MicroFloat,
};

/// The remainder with the sign of the divisor, as NumPy computes it in `f32`.
fn floored_remainder(lhs: f32, rhs: f32) -> f32 {
    let difference = lhs - (lhs / rhs).floor() * rhs;
    f32::from_bits(floored_remainder_f32(lhs.to_bits(), rhs.to_bits(), difference.to_bits()))
}

/// The library's division and remainder seen through `f32`.
trait FloatApi: Sized {
    fn from_f32(value: f32) -> Self;
    fn to_f32(self) -> f32;
    fn divided_by(self, rhs: Self) -> Self;
    fn remainder(self, rhs: Self) -> Self;
}

impl<F: Format> FloatApi for MicroFloat<F> {
    fn from_f32(value: f32) -> Self {
        Self::from_f32_bits(value.to_bits())
    }

    fn to_f32(self) -> f32 {
        f32::from_bits(self.to_f32_bits())
    }

    fn divided_by(self, rhs: Self) -> Self {
        self.div_result(rhs, (self.to_f32() / rhs.to_f32()).to_bits())
    }

    fn remainder(self, rhs: Self) -> Self {
        self.rem_result(rhs, floored_remainder(self.to_f32(), rhs.to_f32()).to_bits())
    }
}

#[test]
fn remainder_special_values() {
    assert!((f8e4m3::nan().remainder(f8e4m3::one())).is_nan());
    assert!((f8e4m3::infinity().remainder(f8e4m3::from_f32(2.0))).is_nan());
    assert_eq!(
        (f8e4m3::zero().remainder(f8e4m3::neg_infinity())).to_bits(),
        f8e4m3::neg_zero().to_bits()
    );
    assert_eq!(f8e4m3::one().remainder(f8e4m3::infinity()), f8e4m3::one());
    assert_eq!(f8e4m3::from_f32(-1.0).remainder(f8e4m3::infinity()), f8e4m3::infinity());
}

#[test]
fn zero_division_and_remainder_nan_modes() {
    assert_eq!(f4e2m1fn::zero().divided_by(f4e2m1fn::zero()), f4e2m1fn::zero());
    assert_eq!(
        (f8e4m3::zero().divided_by(f8e4m3::zero())).to_bits(),
        f8e4m3::from_bits(0xfc).to_bits()
    );
    assert_eq!(
        (f8e4m3b11fnuz::zero().divided_by(f8e4m3b11fnuz::zero())).to_bits(),
        f8e4m3b11fnuz::nan().to_bits()
    );

    assert_eq!(f4e2m1fn::one().remainder(f4e2m1fn::zero()), f4e2m1fn::neg_zero());
    assert_eq!(
        (f8e4m3b11fnuz::one().remainder(f8e4m3b11fnuz::zero())).to_bits(),
        f8e4m3b11fnuz::nan().to_bits()
    );
    assert_eq!(f8e8m0fnu::zero().divided_by(f8e8m0fnu::zero()), f8e8m0fnu::one());
    assert_eq!((f8e4m3::one().remainder(f8e4m3::nan())).to_bits(), f8e4m3::nan().to_bits());
    assert_eq!((f8e4m3::nan().remainder(f8e4m3::nan())).to_bits(), f8e4m3::nan().to_bits());
    assert_eq!(
        (f8e4m3::one().remainder(f8e4m3::from_f32(-0.5))).to_bits(),
        f8e4m3::neg_zero().to_bits()
    );
}


#[test]
fn floored_remainder_special_values() {
    let r = floored_remainder;
    assert_eq!(r(f32::INFINITY, 2.0).to_bits(), 0xffc0_0000);
    assert_eq!(r(0.0, f32::NEG_INFINITY).to_bits(), (-0.0f32).to_bits());
    assert_eq!(r(1.0, f32::INFINITY), 1.0);
    assert_eq!(r(-1.0, f32::INFINITY), f32::INFINITY);
    assert_eq!(r(-1.0, f32::NEG_INFINITY), -1.0);
    assert_eq!(r(1.0, -0.5).to_bits(), (-0.0f32).to_bits());
    assert_eq!(r(-1.0, 0.5).to_bits(), 0.0f32.to_bits());
    assert_eq!(r(5.0, 3.0), 2.0);
    assert_eq!(r(-5.0, 3.0), 1.0);
    assert_eq!(r(5.0, -3.0), -1.0);
}
