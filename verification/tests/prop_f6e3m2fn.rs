use microfloat::{f6e3m2fn, Format, MicroFloat};

/// The library's conversions and arithmetic seen through `f32`: the `f32` operation is
/// done here, and the library decides what the format makes of it.
trait FloatApi: Sized {
    fn to_f32(self) -> f32;
    fn plus(self, rhs: Self) -> Self;
    fn minus(self, rhs: Self) -> Self;
    fn times(self, rhs: Self) -> Self;
    fn powf(self, n: Self) -> Self;
}

impl<F: Format> FloatApi for MicroFloat<F> {
    fn to_f32(self) -> f32 {
        f32::from_bits(self.to_f32_bits())
    }

    fn plus(self, rhs: Self) -> Self {
        self.add_result(rhs, (self.to_f32() + rhs.to_f32()).to_bits())
    }

    fn minus(self, rhs: Self) -> Self {
        self.sub_result(rhs, (self.to_f32() - rhs.to_f32()).to_bits())
    }

    fn times(self, rhs: Self) -> Self {
        self.mul_result(rhs, (self.to_f32() * rhs.to_f32()).to_bits())
    }

    fn powf(self, n: Self) -> Self {
        self.powf_result(n, self.to_f32().powf(n.to_f32()).to_bits())
    }
}

#[test]
fn prop_f6e3m2fn_roundtrip_from_bits_to_bits() {
    for bits in 0..=255u8 {
        let v = f6e3m2fn::from_bits(bits);
        assert_eq!(v.to_bits(), bits);
    }
}

#[test]
fn prop_f6e3m2fn_default_is_zero() {
    let default = f6e3m2fn::default();
    assert!(default.to_f32() == 0.0 || default.to_f32() == -0.0);
}

#[test]
fn prop_f6e3m2fn_add_zero_identity() {
    for bits in 0..=255u8 {
        let v = f6e3m2fn::from_bits(bits);
        if v.is_finite() {
            let result = v.plus(f6e3m2fn::zero());
            if result.is_finite() {
                let diff = (result.to_f32() - v.to_f32()).abs();
                assert!(diff <= 1.0);
            }
        }
    }
}

#[test]
fn prop_f6e3m2fn_mul_one_identity() {
    for bits in 0..=255u8 {
        let v = f6e3m2fn::from_bits(bits);
        if v.is_finite() {
            let result = v.times(f6e3m2fn::one());
            if result.is_finite() {
                let diff = (result.to_f32() - v.to_f32()).abs();
                assert!(diff <= 1.0);
            }
        }
    }
}

#[test]
fn prop_f6e3m2fn_neg_twice_identity() {
    for bits in 0..=255u8 {
        let v = f6e3m2fn::from_bits(bits);
        if v.is_finite() {
            let result = -(-v);
            let diff = (result.to_f32() - v.to_f32()).abs();
            assert!(diff <= 1.0);
        }
    }
}

#[test]
fn prop_f6e3m2fn_abs_non_negative() {
    for bits in 0..=255u8 {
        let v = f6e3m2fn::from_bits(bits);
        if v.is_finite() {
            let abs = v.abs();
            assert!(!abs.is_sign_negative());
        }
    }
}

#[test]
fn prop_f6e3m2fn_floor_ceil_ordering() {
    for bits in 0..=255u8 {
        let v = f6e3m2fn::from_bits(bits);
        if v.is_finite() {
            let f = v.floor();
            let c = v.ceil();
            let fv = v.to_f32();
            if f.is_finite() {
                assert!(f.to_f32() <= fv);
            }
            if c.is_finite() {
                assert!(c.to_f32() >= fv);
            }
        }
    }
}

#[test]
fn prop_f6e3m2fn_total_cmp_reflexive() {
    for bits in 0..=255u8 {
        let v = f6e3m2fn::from_bits(bits);
        if !v.is_nan() {
            assert_eq!(v.total_cmp(&v), core::cmp::Ordering::Equal);
        }
    }
}

#[test]
fn prop_f6e3m2fn_one_is_finite() {
    assert!(f6e3m2fn::one().is_finite());
    assert!(f6e3m2fn::one().is_normal());
}
