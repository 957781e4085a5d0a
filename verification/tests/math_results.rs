use microfloat::{f4e2m1fn, f6e3m2fn, f8e4m3, f8e4m3fn, f8e4m3fnuz, f8e5m2, f8e8m0fnu};

fn bits(value: f32) -> u32 {
    value.to_bits()
}

#[test]
fn unary_results_keep_nan_and_round_the_rest() {
    let nan = f8e4m3::from_bits(0xfd);
    assert_eq!(nan.unary_result(bits(1.0)).to_bits(), 0xfd);
    assert_eq!(f8e4m3::one().unary_result(bits(1.5)).to_bits(), 0x3c);
    // The reciprocal of three rounds to 11/32.
    let three = f8e4m3::from_bits(0x44);
    assert_eq!(three.recip(bits(1.0 / 3.0)).to_bits(), 0x2b);
    assert_eq!(f8e4m3::zero().recip(bits(f32::INFINITY)).to_bits(), 0x78);
}

#[test]
fn arithmetic_results() {
    let one = f8e4m3::one();
    let two = f8e4m3::from_bits(0x40);
    assert_eq!(one.add_result(two, bits(3.0)).to_bits(), 0x44);
    assert_eq!(one.sub_result(two, bits(-1.0)).to_bits(), 0xb8);
    assert_eq!(two.mul_result(two, bits(4.0)).to_bits(), 0x48);
    assert_eq!(one.div_result(two, bits(0.5)).to_bits(), 0x30);
    // A NaN right operand gives the canonical NaN in a sum, itself in a product.
    let nan = f8e4m3::from_bits(0xfd);
    assert_eq!(one.add_result(nan, bits(f32::NAN)).to_bits(), 0x7c);
    assert_eq!(one.mul_result(nan, bits(f32::NAN)).to_bits(), 0xfd);
    // Zero over zero, and a remainder by zero, follow the NaN encoding.
    assert_eq!(f8e4m3::zero().div_result(f8e4m3::neg_zero(), 0).to_bits(), 0xfc);
    assert_eq!(f8e4m3fn::zero().div_result(f8e4m3fn::zero(), 0).to_bits(), 0xff);
    assert_eq!(f8e4m3fnuz::zero().div_result(f8e4m3fnuz::zero(), 0).to_bits(), 0x80);
    assert_eq!(f4e2m1fn::zero().div_result(f4e2m1fn::zero(), 0).to_bits(), 0x00);
    assert_eq!(f4e2m1fn::one().rem_result(f4e2m1fn::zero(), 0).to_bits(), 0x08);
    assert_eq!(f8e5m2::one().rem_result(f8e5m2::zero(), 0).to_bits(), 0x7e);
    // Of two NaNs, the remainder is negative only where both are.
    let neg_nan = f8e4m3::from_bits(0xfc);
    let pos_nan = f8e4m3::from_bits(0x7c);
    assert_eq!(neg_nan.rem_result(neg_nan, 0).to_bits(), 0xfc);
    assert_eq!(neg_nan.rem_result(pos_nan, 0).to_bits(), 0x7c);
    assert_eq!(one.rem_result(two, bits(1.0)).to_bits(), 0x38);
}

#[test]
fn domain_restricted_results() {
    let minus_two = f4e2m1fn::from_bits(0x0c);
    assert_eq!(minus_two.nonnegative_domain_result(bits(f32::NAN)).to_bits(), 0x00);
    let minus_two_e4m3 = f8e4m3::from_bits(0xc0);
    assert_eq!(minus_two_e4m3.nonnegative_domain_result(bits(f32::NAN)).to_bits(), 0x7c);
    assert_eq!(f8e4m3::from_bits(0x48).nonnegative_domain_result(bits(2.0)).to_bits(), 0x40);
    assert_eq!(minus_two_e4m3.log10_result(bits(f32::NAN)).to_bits(), 0x7c);
    assert_eq!(f8e4m3::from_bits(0x38).log10_result(bits(0.0)).to_bits(), 0x00);
    // Below minus one, `ln(1 + x)` has no value; zero stands in where there is no NaN.
    assert_eq!(minus_two.ln_1p_result(bits(f32::NAN)).to_bits(), 0x00);
    assert_eq!(f4e2m1fn::from_bits(0x0a).ln_1p_result(bits(f32::NEG_INFINITY)).to_bits(), 0x0f);
    // Outside `[-1, 1]`, arcsine and arccosine give NaN where NaN carries a sign.
    assert_eq!(minus_two_e4m3.unit_domain_result(bits(f32::NAN)).to_bits(), 0x7c);
    assert_eq!(f8e4m3fnuz::from_bits(0xc8).unit_domain_result(bits(f32::NAN)).to_bits(), 0x80);
    assert_eq!(f8e4m3::one().unit_domain_result(bits(0.0)).to_bits(), 0x00);
}

#[test]
fn two_argument_results() {
    let inf = f8e4m3::infinity();
    let nan = f8e4m3::from_bits(0xfd);
    let three = f8e4m3::from_bits(0x44);
    let four = f8e4m3::from_bits(0x48);
    assert_eq!(nan.hypot_result(inf, bits(f32::INFINITY)).to_bits(), 0x78);
    assert_eq!(nan.hypot_result(three, bits(f32::NAN)).to_bits(), 0xfd);
    assert_eq!(three.hypot_result(four, bits(5.0)).to_bits(), 0x4a);
    assert_eq!(three.atan2_result(nan, bits(f32::NAN)).to_bits(), 0xfd);
    assert_eq!(f8e4m3::one().atan2_result(f8e4m3::one(), bits(core::f32::consts::FRAC_PI_4)).to_bits(), 0x35);
}

#[test]
fn power_results() {
    let nan = f8e4m3::from_bits(0xfd);
    let neg_nan = f8e4m3::from_bits(0xfd);
    let zero = f8e4m3::zero();
    let three = f8e4m3::from_bits(0x44);
    let half = f8e4m3::from_bits(0x30);
    // A NaN base with a zero exponent gives one.
    assert_eq!(nan.powf_result(zero, bits(1.0)).to_bits(), 0x38);
    // A negative NaN base with an odd whole exponent gives the positive NaN.
    assert_eq!(neg_nan.powf_result(three, bits(f32::NAN)).to_bits(), 0x7c);
    assert_eq!(f8e4m3::from_bits(0x7d).powf_result(three, bits(f32::NAN)).to_bits(), 0x7d);
    assert_eq!(neg_nan.powf_result(half, bits(f32::NAN)).to_bits(), 0xfd);
    // A negative base with a fractional exponent has no real power: zero where there is no
    // NaN.
    let minus_four = f6e3m2fn::from_bits(0x34);
    let half_f6 = f6e3m2fn::from_bits(0x08);
    assert_eq!(minus_four.powf_result(half_f6, bits(f32::NAN)).to_bits(), 0x00);
    let two_f6 = f6e3m2fn::from_bits(0x10);
    assert_eq!(minus_four.powf_result(two_f6, bits(16.0)).to_bits(), 0x1c);
    assert_eq!(three.powf_result(three, bits(27.0)).to_bits(), 0x5e);
    // The scale format's one is a whole odd number; its largest value is whole.
    let scale_nan = f8e8m0fnu::nan();
    assert_eq!(scale_nan.powf_result(f8e8m0fnu::from_bits(0x7f), bits(f32::NAN)).to_bits(), 0xff);
}

#[test]
fn sum_of_one_and_a_half_and_two() {
    let x = f8e4m3::from_f32_bits(1.5f32.to_bits());
    let y = f8e4m3::from_f32_bits(2.0f32.to_bits());
    let sum = f32::from_bits(x.to_f32_bits()) + f32::from_bits(y.to_f32_bits());
    let z = x.add_result(y, sum.to_bits());
    assert_eq!(f32::from_bits(z.to_f32_bits()), 3.5);
}
