use microfloat::{f8e3m4, Format, MicroFloat};

/// The library's conversions and arithmetic seen through `f32`: the `f32` operation is
/// done here, and the library decides what the format makes of it.
trait FloatApi: Sized {
    fn to_f32(self) -> f32;
    fn plus(self, rhs: Self) -> Self;
    fn minus(self, rhs: Self) -> Self;
    fn times(self, rhs: Self) -> Self;
    fn powf(self, n: Self) -> Self;
}

impl<F: Format> FloatApi for MicroFloat<F> {
    fn to_f32(self) -> f32 {
        f32::from_bits(self.to_f32_bits())
    }

    fn plus(self, rhs: Self) -> Self {
        self.add_result(rhs, (self.to_f32() + rhs.to_f32()).to_bits())
    }

    fn minus(self, rhs: Self) -> Self {
        self.sub_result(rhs, (self.to_f32() - rhs.to_f32()).to_bits())
    }

    fn times(self, rhs: Self) -> Self {
        self.mul_result(rhs, (self.to_f32() * rhs.to_f32()).to_bits())
    }

    fn powf(self, n: Self) -> Self {
        self.powf_result(n, self.to_f32().powf(n.to_f32()).to_bits())
    }
}

#[test]
fn prop_f8e3m4_roundtrip_from_bits_to_bits() {
    for bits in 0..=255u8 {
        let v = f8e3m4::from_bits(bits);
        assert_eq!(v.to_bits(), bits);
    }
}

#[test]
fn from_bits_zero_is_zero() {
    let zero = f8e3m4::from_bits(0);
    assert!(zero.to_f32() == 0.0 || zero.to_f32() == -0.0);
}

#[test]
fn prop_f8e3m4_default_is_zero() {
    let default = f8e3m4::default();
    assert!(default.to_f32() == 0.0 || default.to_f32() == -0.0);
}

#[test]
fn prop_f8e3m4_add_zero_identity() {
    for bits in 0..=255u8 {
        let v = f8e3m4::from_bits(bits);
        if v.is_finite() {
            let result = v.plus(f8e3m4::zero());
            if result.is_finite() {
                let diff = (result.to_f32() - v.to_f32()).abs();
                assert!(diff <= 1.0);
            }
        }
    }
}

#[test]
fn prop_f8e3m4_mul_one_identity() {
    for bits in 0..=255u8 {
        let v = f8e3m4::from_bits(bits);
        if v.is_finite() {
            let result = v.times(f8e3m4::one());
            if result.is_finite() {
                let diff = (result.to_f32() - v.to_f32()).abs();
                assert!(diff <= 1.0);
            }
        }
    }
}

#[test]
fn prop_f8e3m4_neg_twice_identity() {
    for bits in 0..=255u8 {
        let v = f8e3m4::from_bits(bits);
        if v.is_finite() {
            let result = -(-v);
            let diff = (result.to_f32() - v.to_f32()).abs();
            assert!(diff <= 1.0);
        }
    }
}

#[test]
fn neg_zero_is_zero() {
    let neg = -f8e3m4::zero();
    assert!(neg.to_f32() == 0.0 || neg.to_f32() == -0.0);
}

#[test]
fn prop_f8e3m4_abs_non_negative() {
    for bits in 0..=255u8 {
        let v = f8e3m4::from_bits(bits);
        if v.is_finite() {
            let abs = v.abs();
            assert!(!abs.is_sign_negative());
        }
    }
}

#[test]
fn abs_symmetric() {
    for bits in 0..=255u8 {
        let v = f8e3m4::from_bits(bits);
        if v.is_finite() && v.to_f32() != 0.0 {
            let a = v.abs();
            let neg = -v;
            let b = neg.abs();
            assert_eq!(a.to_f32().abs().to_bits(), b.to_f32().abs().to_bits());
        }
    }
}

#[test]
fn abs_of_zero_is_zero() {
    let result = f8e3m4::zero().abs();
    assert!(result.to_f32() == 0.0 || result.to_f32() == -0.0);
}

#[test]
fn prop_f8e3m4_floor_ceil_ordering() {
    for bits in 0..=255u8 {
        let v = f8e3m4::from_bits(bits);
        if v.is_finite() {
            let f = v.floor();
            let c = v.ceil();
            let fv = v.to_f32();
            if f.is_finite() {
                assert!(f.to_f32() <= fv);
            }
            if c.is_finite() {
                assert!(c.to_f32() >= fv);
            }
        }
    }
}

#[test]
fn trunc_towards_zero() {
    for bits in 0..=255u8 {
        let v = f8e3m4::from_bits(bits);
        if v.is_finite() {
            let t = v.trunc();
            let fv = v.to_f32();
            if t.is_finite() {
                let abs_trunc = t.to_f32().abs();
                let abs_orig = fv.abs();
                assert!(abs_trunc <= abs_orig + 1.0);
            }
        }
    }
}

#[test]
fn powf_one_identity() {
    for bits in 0..=255u8 {
        let v = f8e3m4::from_bits(bits);
        if v.is_finite() {
            let result = v.powf(f8e3m4::one());
            let diff = (result.to_f32() - v.to_f32()).abs();
            assert!(diff <= 1.0);
        }
    }
}

#[test]
fn prop_f8e3m4_total_cmp_reflexive() {
    for bits in 0..=255u8 {
        let v = f8e3m4::from_bits(bits);
        if !v.is_nan() {
            assert_eq!(v.total_cmp(&v), core::cmp::Ordering::Equal);
        }
    }
}

#[test]
fn partial_eq_nan_returns_false() {
    for bits in 0..=255u8 {
        let v = f8e3m4::from_bits(bits);
        if v.is_nan() {
            assert!(!v.eq(&v));
        }
    }
}

#[test]
fn nan_is_nan() {
    assert!(f8e3m4::nan().is_nan());
}

#[test]
fn infinity_is_infinite() {
    assert!(f8e3m4::infinity().is_infinite());
}

#[test]
fn neg_infinity_is_infinite() {
    assert!(f8e3m4::neg_infinity().is_infinite());
}

#[test]
fn neg_infinity_of_infinity() {
    let neg_inf = -f8e3m4::infinity();
    assert!(neg_inf.is_infinite());
}

#[test]
fn zero_is_not_infinite() {
    assert!(!f8e3m4::zero().is_infinite());
    assert!(!f8e3m4::default().is_infinite());
}

#[test]
fn max_is_finite() {
    assert!(f8e3m4::max_value().is_finite());
}

#[test]
fn min_is_finite() {
    assert!(f8e3m4::min_value().is_finite());
}

#[test]
fn prop_f8e3m4_one_is_finite() {
    assert!(f8e3m4::one().is_finite());
    assert!(f8e3m4::one().is_normal());
}

#[test]
fn epsilon_positive() {
    assert!(f8e3m4::epsilon().to_f32() > 0.0);
}

#[test]
fn prop_f8e3m4_nan_propagates_on_add() {
    for bits in 0..=255u8 {
        let v = f8e3m4::from_bits(bits);
        assert!((v.plus(f8e3m4::nan())).is_nan());
        assert!((f8e3m4::nan().plus(v)).is_nan());
    }
}

#[test]
fn prop_f8e3m4_nan_propagates_on_sub() {
    for bits in 0..=255u8 {
        let v = f8e3m4::from_bits(bits);
        assert!((v.minus(f8e3m4::nan())).is_nan());
        assert!((f8e3m4::nan().minus(v)).is_nan());
    }
}

#[test]
fn prop_f8e3m4_nan_propagates_on_mul() {
    for bits in 0..=255u8 {
        let v = f8e3m4::from_bits(bits);
        assert!((v.times(f8e3m4::nan())).is_nan());
        assert!((f8e3m4::nan().times(v)).is_nan());
    }
}
