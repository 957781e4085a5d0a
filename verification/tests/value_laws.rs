use core::cmp::Ordering;
use microfloat::{
    f4e2m1fn, f8e3m4, f8e4m3, f8e4m3fn, f8e4m3fnuz, f8e5m2, f8e8m0fnu, negate_bits,
    next_down_bits, next_up_bits, Format, MicroFloat, ZeroMode,
};

fn dec<F: Format>(value: MicroFloat<F>) -> f32 {
    f32::from_bits(value.to_f32_bits())
}

fn check_signed_format<F: Format>(storage_mask: u8) {
    for a in 0..=storage_mask {
        let x = MicroFloat::<F>::from_bits(a);
        // Negating twice gives the pattern back; negation flips the value.
        assert_eq!((-(-x)).to_bits(), a);
        if !x.is_nan() {
            let n = -x;
            assert!(!n.is_nan());
            assert_eq!(dec(n), -dec(x));
            let abs = x.abs();
            assert!(!abs.is_sign_negative());
            assert_eq!(dec(abs), dec(x).abs());
        }
        assert_eq!((-x).abs().to_bits(), x.abs().to_bits());
        for b in 0..=storage_mask {
            let y = MicroFloat::<F>::from_bits(b);
            // `==` is equality of values; the total order tells patterns apart and
            // follows the order of values.
            assert_eq!(x == y, !x.is_nan() && !y.is_nan() && dec(x) == dec(y));
            assert_eq!(x.total_cmp(&y) == Ordering::Equal, a == b);
            if !x.is_nan() && !y.is_nan() && dec(x) < dec(y) {
                assert_eq!(x.total_cmp(&y), Ordering::Less);
                assert!(x < y);
            }
            let lo = x.min(y);
            let hi = x.max(y);
            assert!(lo.to_bits() == a || lo.to_bits() == b);
            assert!(hi.to_bits() == a || hi.to_bits() == b);
            if !x.is_nan() && !y.is_nan() {
                assert!(dec(lo) <= dec(x) && dec(lo) <= dec(y));
                assert!(dec(hi) >= dec(x) && dec(hi) >= dec(y));
            } else if !x.is_nan() || !y.is_nan() {
                assert!(!lo.is_nan() && !hi.is_nan());
            }
            if !x.is_nan() {
                let c = x.copysign(y);
                assert_eq!(c.is_sign_negative(), y.is_sign_negative());
            }
        }
    }
}

#[test]
fn negation_absolute_value_and_order_laws() {
    check_signed_format::<microfloat::Float8E3M4Format>(0xff);
    check_signed_format::<microfloat::Float8E4M3Format>(0xff);
    check_signed_format::<microfloat::Float8E4M3FnFormat>(0xff);
    check_signed_format::<microfloat::Float8E4M3FnuzFormat>(0xff);
    check_signed_format::<microfloat::Float8E5M2Format>(0xff);
    check_signed_format::<microfloat::Float4E2M1FnFormat>(0x0f);
    check_signed_format::<microfloat::Float6E2M3FnFormat>(0x3f);
    check_signed_format::<microfloat::Float6E3M2FnFormat>(0x3f);
}

#[test]
fn the_scale_format_has_no_negative_values() {
    let one = f8e8m0fnu::one();
    assert!((-one).is_nan());
    assert!((-(-one)).is_nan());
    // Its total order reads the top bit as a sign, so 2.0 sorts below 1.0.
    assert_eq!(f8e8m0fnu::from_bits(0x80).total_cmp(&f8e8m0fnu::from_bits(0x7f)), Ordering::Less);
    assert!(f8e8m0fnu::from_bits(0x80) > f8e8m0fnu::from_bits(0x7f));
}

#[test]
fn zeros_are_equal_and_ordered_apart() {
    assert!(f8e4m3::zero() == f8e4m3::neg_zero());
    assert_eq!(f8e4m3::neg_zero().total_cmp(&f8e4m3::zero()), Ordering::Less);
    assert!(f8e4m3::nan() != f8e4m3::nan());
    assert_eq!(f8e4m3::nan().partial_cmp(&f8e4m3::one()), None);
    assert_eq!(f8e4m3::default().to_bits(), 0);
}

#[test]
fn min_max_pass_over_nan() {
    let nan = f8e4m3::nan();
    let one = f8e4m3::one();
    assert_eq!(nan.min(one).to_bits(), one.to_bits());
    assert_eq!(one.max(nan).to_bits(), one.to_bits());
    assert_eq!(f8e4m3::zero().min(f8e4m3::neg_zero()).to_bits(), 0x80);
    assert_eq!(f8e4m3::zero().max(f8e4m3::neg_zero()).to_bits(), 0x80);
}

#[test]
fn clamp_stays_within_bounds() {
    let lo = f8e4m3::from_bits(0xc0);
    let hi = f8e4m3::from_bits(0x40);
    for bits in 0..=255u8 {
        let x = f8e4m3::from_bits(bits);
        let c = x.clamp(lo, hi);
        if x.is_nan() {
            assert!(c.is_nan());
        } else {
            assert!(dec(c) >= -2.0 && dec(c) <= 2.0);
            if dec(x) >= -2.0 && dec(x) <= 2.0 {
                assert_eq!(c.to_bits(), bits);
            }
        }
    }
}

#[test]
fn next_up_and_next_down_step_to_neighbours() {
    assert_eq!(f8e4m3::one().next_up().to_bits(), 0x39);
    assert_eq!(f8e4m3::one().next_down().to_bits(), 0x37);
    assert_eq!(f8e4m3::max_value().next_up().to_bits(), 0x78);
    assert_eq!(f8e4m3fn::max_value().next_up().to_bits(), 0x7f);
    assert_eq!(f4e2m1fn::max_value().next_up().to_bits(), 0x07);
    assert_eq!(f8e8m0fnu::from_bits(0x7f).next_up().to_bits(), 0x80);
}

#[test]
fn epsilon_is_the_step_above_one() {
    assert_eq!(dec(f8e3m4::epsilon()), 0.0625);
    assert_eq!(dec(f8e4m3::epsilon()), 0.125);
    assert_eq!(dec(f8e5m2::epsilon()), 0.25);
    assert_eq!(dec(f4e2m1fn::epsilon()), 0.5);
    assert_eq!(dec(f8e4m3fnuz::epsilon()), 0.125);
    assert_eq!(dec(f8e8m0fnu::epsilon()), 1.0);
    assert_eq!(dec(f8e4m3::one().next_up()) - 1.0, dec(f8e4m3::epsilon()));
    assert_eq!(dec(f8e3m4::one().next_up()) - 1.0, dec(f8e3m4::epsilon()));
}

#[test]
fn named_values_and_parameters() {
    assert_eq!(f8e4m3::min_positive_subnormal().to_bits(), 0x01);
    assert_eq!(f8e4m3::max_subnormal().to_bits(), 0x07);
    assert_eq!(f8e4m3::min_positive().to_bits(), 0x08);
    assert_eq!(f8e4m3::min_value().to_bits(), 0xf7);
    assert_eq!(f8e4m3::neg_one().to_bits(), 0xb8);
    assert_eq!(f8e8m0fnu::min_value().to_bits(), 0x00);
    assert_eq!(f8e4m3::radix(), 2);
    assert_eq!(f8e4m3::storage_bits(), 8);
    assert_eq!(f4e2m1fn::storage_bits(), 4);
    assert_eq!(f8e5m2::exponent_bits(), 5);
    assert_eq!(f8e5m2::mantissa_bits(), 2);
    assert_eq!(f8e5m2::digits(), 3);
    assert_eq!(f8e5m2::mantissa_digits(), 3);
    assert_eq!(f8e5m2::exponent_bias(), 15);
    assert_eq!(f8e4m3::from_le_bytes([0x3c]).to_be_bytes(), [0x3c]);
    assert_eq!(f8e4m3::from_ne_bytes([0x11]).to_ne_bytes(), [0x11]);
    assert_eq!(f8e4m3::from_be_bytes([0x22]).to_le_bytes(), [0x22]);
}

#[test]
fn signum_and_copysign_values() {
    assert_eq!(f8e4m3::from_bits(0xc4).signum().to_bits(), 0xb8);
    assert_eq!(f8e4m3::from_bits(0x44).signum().to_bits(), 0x38);
    assert_eq!(f8e4m3::neg_zero().signum().to_bits(), 0x80);
    assert_eq!(f8e4m3::one().copysign(f8e4m3::neg_zero()).to_bits(), 0xb8);
    assert_eq!(f8e4m3fnuz::nan().copysign(f8e4m3fnuz::one()).to_bits(), 0x80);
    assert_eq!(f8e8m0fnu::one().copysign(f8e8m0fnu::nan()).to_bits(), 0x7f);
    assert_eq!(f8e4m3fnuz::nan().abs().to_bits(), 0x80);
}

fn stepping_laws<F: Format>(storage_mask: u8) {
    let signed_zero = F::layout().zero == ZeroMode::Signed;
    for b in 0..=storage_mask {
        let x = MicroFloat::<F>::from_bits(b);
        let d = next_down_bits::<F>(b);
        if !x.is_nan() && !(signed_zero && b == 0) && d != b
            && !MicroFloat::<F>::from_bits(d).is_nan()
        {
            assert_eq!(next_up_bits::<F>(d), b);
        }
        if signed_zero {
            let mirrored = negate_bits::<F>(next_down_bits::<F>(negate_bits::<F>(b)));
            assert_eq!(next_up_bits::<F>(b), mirrored);
        }
    }
}

#[test]
fn stepping_up_undoes_and_mirrors_stepping_down() {
    stepping_laws::<microfloat::Float8E3M4Format>(0xff);
    stepping_laws::<microfloat::Float8E4M3Format>(0xff);
    stepping_laws::<microfloat::Float8E4M3B11FnuzFormat>(0xff);
    stepping_laws::<microfloat::Float8E4M3FnFormat>(0xff);
    stepping_laws::<microfloat::Float8E4M3FnuzFormat>(0xff);
    stepping_laws::<microfloat::Float8E5M2Format>(0xff);
    stepping_laws::<microfloat::Float8E5M2FnuzFormat>(0xff);
    stepping_laws::<microfloat::Float8E8M0FnuFormat>(0xff);
    stepping_laws::<microfloat::Float4E2M1FnFormat>(0x0f);
    stepping_laws::<microfloat::Float6E2M3FnFormat>(0x3f);
    stepping_laws::<microfloat::Float6E3M2FnFormat>(0x3f);
}
