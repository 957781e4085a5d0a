//! The decisions around arithmetic and math functions. The `f32` computation itself is
//! done by the caller, which hands its result over as an `f32` bit pattern; what NaN, zero
//! or special value comes out, and the rounding of the `f32` result, is decided here.
use vstd::prelude::*;
use crate::bits::{magnitude_bits, nan_bits, neg_zero_bits, one_bits};
use crate::compare::signed_magnitude;
use crate::convert::{
    f32_exponent, f32_fraction, f32_is_infinite, f32_magnitude_value, f32_sign, f32_signed_value,
};
use crate::format::{Format, Layout, NanEncoding};
use crate::value::pow2;
use crate::micro::{FpCategory, MicroFloat};

verus! {

impl Layout {
    /// `0 / 0`: zero where there is no NaN, negative NaN where NaN carries a sign, and
    /// the single NaN otherwise.
    pub open spec fn spec_zero_over_zero(self) -> u8 {
        match self.nan {
            NanEncoding::Absent => 0,
            NanEncoding::Ieee | NanEncoding::Outer => self.spec_nan_bits(true),
            NanEncoding::Single(_) => self.spec_nan_bits(false),
        }
    }

    /// `x % 0`: negative zero where there is no NaN, otherwise the positive NaN.
    pub open spec fn spec_remainder_by_zero(self) -> u8 {
        match self.nan {
            NanEncoding::Absent => self.spec_neg_zero_bits(),
            _ => self.spec_nan_bits(false),
        }
    }

    /// The value is negative and not zero.
    pub open spec fn spec_is_negative_nonzero(self, b: u8) -> bool {
        self.spec_is_negative(b) && !self.spec_classify(b).is_zero
    }
}

impl<F: Format> MicroFloat<F> {
    /// The result of a one-argument function evaluated in `f32`: a NaN argument is
    /// returned as it is; otherwise the `f32` result is rounded to the format.
    pub fn unary_result(self, result: u32) -> (r: Self)
        ensures
            Self::layout().spec_is_nan(self@) ==> r@ == self@,
            !Self::layout().spec_is_nan(self@) ==> crate::convert::spec_encodes(
                Self::layout(),
                result,
                r@,
            ),
    {
        if self.is_nan() {
            self
        } else {
            Self::from_f32_bits(result)
        }
    }

    /// The reciprocal `1 / self`, given the `f32` quotient `1 / self`: as `unary_result`,
    /// a NaN is returned as it is and any other quotient is rounded to the format.
    pub fn recip(self, quotient: u32) -> (r: Self)
        ensures
            Self::layout().spec_is_nan(self@) ==> r@ == self@,
            !Self::layout().spec_is_nan(self@) ==> crate::convert::spec_encodes(
                Self::layout(),
                quotient,
                r@,
            ),
    {
        self.unary_result(quotient)
    }

    /// `self + rhs`, given the `f32` sum of the two values: a NaN `self` is returned, a
    /// NaN `rhs` gives the canonical NaN, and otherwise the sum is rounded.
    pub fn add_result(self, rhs: Self, sum: u32) -> (r: Self)
        ensures
            Self::layout().spec_is_nan(self@) ==> r@ == self@,
            !Self::layout().spec_is_nan(self@) && Self::layout().spec_is_nan(rhs@) ==> r@
                == Self::layout().spec_nan_bits(false),
            !Self::layout().spec_is_nan(self@) && !Self::layout().spec_is_nan(rhs@)
                ==> crate::convert::spec_encodes(Self::layout(), sum, r@),
    {
        if self.is_nan() {
            self
        } else if rhs.is_nan() {
            Self::from_bits(nan_bits::<F>(false))
        } else {
            Self::from_f32_bits(sum)
        }
    }

    /// `self - rhs`, given the `f32` difference: as `add_result`.
    pub fn sub_result(self, rhs: Self, difference: u32) -> (r: Self)
        ensures
            Self::layout().spec_is_nan(self@) ==> r@ == self@,
            !Self::layout().spec_is_nan(self@) && Self::layout().spec_is_nan(rhs@) ==> r@
                == Self::layout().spec_nan_bits(false),
            !Self::layout().spec_is_nan(self@) && !Self::layout().spec_is_nan(rhs@)
                ==> crate::convert::spec_encodes(Self::layout(), difference, r@),
    {
        if self.is_nan() {
            self
        } else if rhs.is_nan() {
            Self::from_bits(nan_bits::<F>(false))
        } else {
            Self::from_f32_bits(difference)
        }
    }

    /// `self * rhs`, given the `f32` product: a NaN `rhs` is returned, then a NaN `self`,
    /// and otherwise the product is rounded.
    pub fn mul_result(self, rhs: Self, product: u32) -> (r: Self)
        ensures
            Self::layout().spec_is_nan(rhs@) ==> r@ == rhs@,
            !Self::layout().spec_is_nan(rhs@) && Self::layout().spec_is_nan(self@) ==> r@
                == self@,
            !Self::layout().spec_is_nan(self@) && !Self::layout().spec_is_nan(rhs@)
                ==> crate::convert::spec_encodes(Self::layout(), product, r@),
    {
        if rhs.is_nan() {
            rhs
        } else if self.is_nan() {
            self
        } else {
            Self::from_f32_bits(product)
        }
    }

    /// `self / rhs`, given the `f32` quotient: zero over zero is decided by the format's
    /// NaN encoding; otherwise the quotient is rounded.
    pub fn div_result(self, rhs: Self, quotient: u32) -> (r: Self)
        ensures
            Self::layout().spec_classify(self@).is_zero && Self::layout().spec_classify(
                rhs@,
            ).is_zero ==> r@ == Self::layout().spec_zero_over_zero(),
            !(Self::layout().spec_classify(self@).is_zero && Self::layout().spec_classify(
                rhs@,
            ).is_zero) ==> crate::convert::spec_encodes(Self::layout(), quotient, r@),
    {
        if self.classify() == FpCategory::Zero && rhs.classify() == FpCategory::Zero {
            proof {
                F::lemma_layout_wf();
            }
            let p = F::layout();
            return match p.nan {
                NanEncoding::Absent => Self::zero(),
                NanEncoding::Ieee | NanEncoding::Outer => Self::from_bits(nan_bits::<F>(true)),
                NanEncoding::Single(_) => Self::nan(),
            };
        }
        Self::from_f32_bits(quotient)
    }

    /// `self % rhs` (the remainder with the sign of `rhs`), given it computed in `f32`: a
    /// zero divisor is decided by the format's NaN encoding; of two NaNs, the NaN signed
    /// only where both are negative; a NaN operand is returned, `rhs` first; otherwise the
    /// remainder is rounded.
    pub fn rem_result(self, rhs: Self, remainder: u32) -> (r: Self)
        ensures
            Self::layout().spec_classify(rhs@).is_zero ==> r@
                == Self::layout().spec_remainder_by_zero(),
            !Self::layout().spec_classify(rhs@).is_zero ==> {
                let p = Self::layout();
                if p.spec_is_nan(self@) && p.spec_is_nan(rhs@) {
                    r@ == p.spec_nan_bits(p.spec_is_negative(self@) && p.spec_is_negative(rhs@))
                } else if p.spec_is_nan(rhs@) {
                    r@ == rhs@
                } else if p.spec_is_nan(self@) {
                    r@ == self@
                } else {
                    crate::convert::spec_encodes(p, remainder, r@)
                }
            },
    {
        if rhs.classify() == FpCategory::Zero {
            proof {
                F::lemma_layout_wf();
            }
            let p = F::layout();
            return match p.nan {
                NanEncoding::Absent => Self::from_bits(neg_zero_bits::<F>()),
                _ => Self::from_bits(nan_bits::<F>(false)),
            };
        }
        if self.is_nan() && rhs.is_nan() {
            return Self::from_bits(
                nan_bits::<F>(self.is_sign_negative() && rhs.is_sign_negative()),
            );
        }
        if rhs.is_nan() {
            return rhs;
        }
        if self.is_nan() {
            return self;
        }
        Self::from_f32_bits(remainder)
    }

    /// A function whose real domain is the values from zero up (square root, natural and
    /// binary logarithm), given its `f32` result: in a format without NaN, a negative
    /// nonzero argument gives zero; otherwise as `unary_result`.
    pub fn nonnegative_domain_result(self, result: u32) -> (r: Self)
        ensures
            !Self::layout().spec_has_nan() && Self::layout().spec_is_negative_nonzero(self@)
                ==> r@ == 0,
            !(!Self::layout().spec_has_nan() && Self::layout().spec_is_negative_nonzero(self@))
                ==> {
                &&& Self::layout().spec_is_nan(self@) ==> r@ == self@
                &&& !Self::layout().spec_is_nan(self@) ==> crate::convert::spec_encodes(
                    Self::layout(),
                    result,
                    r@,
                )
            },
    {
        if !Self::has_nan() && self.is_sign_negative() && self.classify() != FpCategory::Zero {
            return Self::zero();
        }
        self.unary_result(result)
    }

    /// The base-10 logarithm, given its `f32` result: where NaN carries a sign, a
    /// negative nonzero number gives the positive NaN; otherwise as `unary_result`.
    pub fn log10_result(self, result: u32) -> (r: Self)
        ensures
            ({
                let p = Self::layout();
                let invalid = !p.spec_is_nan(self@) && (p.nan == NanEncoding::Ieee || p.nan
                    == NanEncoding::Outer) && p.spec_is_negative_nonzero(self@);
                &&& invalid ==> r@ == p.spec_nan_bits(false)
                &&& !invalid && p.spec_is_nan(self@) ==> r@ == self@
                &&& !invalid && !p.spec_is_nan(self@) ==> crate::convert::spec_encodes(
                    p,
                    result,
                    r@,
                )
            }),
    {
        proof {
            F::lemma_layout_wf();
        }
        let p = F::layout();
        if !self.is_nan() && matches!(p.nan, NanEncoding::Ieee | NanEncoding::Outer)
            && self.is_sign_negative() && self.classify() != FpCategory::Zero {
            return Self::nan();
        }
        self.unary_result(result)
    }

    /// `sqrt(self^2 + other^2)`, given it computed in `f32`: an infinite argument gives
    /// infinity, then a NaN argument is returned, `self` first; otherwise the result is
    /// rounded.
    pub fn hypot_result(self, other: Self, result: u32) -> (r: Self)
        ensures
            ({
                let p = Self::layout();
                let inf = (p.spec_is_infinity(self@) && !p.spec_is_nan(self@)) || (
                p.spec_is_infinity(other@) && !p.spec_is_nan(other@));
                &&& inf ==> r@ == p.spec_infinity_bits(false)
                &&& !inf && p.spec_is_nan(self@) ==> r@ == self@
                &&& !inf && !p.spec_is_nan(self@) && p.spec_is_nan(other@) ==> r@ == other@
                &&& !inf && !p.spec_is_nan(self@) && !p.spec_is_nan(other@)
                    ==> crate::convert::spec_encodes(p, result, r@)
            }),
    {
        if self.is_infinite() || other.is_infinite() {
            return Self::infinity();
        }
        if self.is_nan() {
            return self;
        }
        if other.is_nan() {
            return other;
        }
        Self::from_f32_bits(result)
    }

    /// `ln(1 + self)`, given its `f32` result: in a format without NaN, a value below
    /// `-1` gives zero; otherwise as `unary_result`.
    pub fn ln_1p_result(self, result: u32) -> (r: Self)
        ensures
            ({
                let p = Self::layout();
                let below = !p.spec_has_nan() && p.spec_value(self@).lt(
                    p.spec_value(p.spec_negate(p.spec_one_bits())),
                );
                &&& below ==> r@ == 0
                &&& !below && p.spec_is_nan(self@) ==> r@ == self@
                &&& !below && !p.spec_is_nan(self@) ==> crate::convert::spec_encodes(
                    p,
                    result,
                    r@,
                )
            }),
    {
        proof {
            F::lemma_layout_wf();
        }
        if !Self::has_nan() {
            let neg_one = Self::neg_one();
            proof {
                let p = F::spec_layout();
                assert(!p.spec_is_nan(self@));
                assert(!p.spec_is_nan(neg_one@));
                crate::value::lemma_value_order(p, self@, neg_one@);
            }
            if signed_magnitude::<F>(self.to_bits()) < signed_magnitude::<F>(neg_one.to_bits()) {
                return Self::zero();
            }
        }
        self.unary_result(result)
    }

    /// The arcsine or arccosine, given its `f32` result: where NaN carries a sign, a
    /// number of magnitude above one gives the positive NaN; otherwise as `unary_result`.
    pub fn unit_domain_result(self, result: u32) -> (r: Self)
        ensures
            ({
                let p = Self::layout();
                let outside = (p.nan == NanEncoding::Ieee || p.nan == NanEncoding::Outer)
                    && !p.spec_is_nan(self@) && p.spec_value(p.spec_one_bits()).lt(
                    p.spec_value(p.spec_magnitude(self@)),
                );
                &&& outside ==> r@ == p.spec_nan_bits(false)
                &&& !outside && p.spec_is_nan(self@) ==> r@ == self@
                &&& !outside && !p.spec_is_nan(self@) ==> crate::convert::spec_encodes(
                    p,
                    result,
                    r@,
                )
            }),
    {
        proof {
            F::lemma_layout_wf();
        }
        let p = F::layout();
        if matches!(p.nan, NanEncoding::Ieee | NanEncoding::Outer) && !self.is_nan() {
            let mag = magnitude_bits::<F>(self.to_bits());
            let one = one_bits::<F>();
            proof {
                let l = F::spec_layout();
                crate::bits::lemma_fields(l, self@);
                crate::laws::lemma_signed_pattern(l, mag, false);
                crate::bits::lemma_fields(l, mag);
                assert(l.spec_exponent_field(mag) == l.spec_exponent_field(self@));
                assert(l.spec_mantissa_field(mag) == l.spec_mantissa_field(self@));
                assert(!l.spec_is_nan(mag));
                crate::convert::lemma_max_finite_facts(l);
                crate::bits::lemma_sign_bit_facts(l);
                assert(one == l.spec_one_bits());
                lemma_one_is_finite(l);
                crate::laws::lemma_signed_pattern(l, one, false);
                crate::value::lemma_value_order(l, one, mag);
            }
            if mag > one {
                return Self::nan();
            }
        }
        self.unary_result(result)
    }

    /// `self` raised to the power `n`, given the `f32` power of the two values: a NaN base
    /// gives one for a zero exponent, the positive NaN for a negative sign and an odd whole
    /// exponent, and is otherwise returned; in a format without NaN, a negative nonzero
    /// base with an exponent that is not a whole number gives zero; otherwise the power is
    /// rounded.
    pub fn powf_result(self, n: Self, power: u32) -> (r: Self)
        ensures
            ({
                let p = Self::layout();
                let no_root = !p.spec_is_nan(self@) && !p.spec_has_nan()
                    && p.spec_is_negative_nonzero(self@) && !p.spec_is_integer(n@);
                &&& p.spec_is_nan(self@) ==> r@ == if p.spec_classify(n@).is_zero {
                    p.spec_one_bits()
                } else if p.spec_is_negative(self@) && p.spec_is_odd_integer(n@) {
                    p.spec_nan_bits(false)
                } else {
                    self@
                }
                &&& no_root ==> r@ == 0
                &&& !p.spec_is_nan(self@) && !no_root ==> crate::convert::spec_encodes(
                    p,
                    power,
                    r@,
                )
            }),
    {
        let (n_integer, n_odd) = crate::integral::integer_kind::<F>(n.to_bits());
        if self.is_nan() {
            if n.classify() == FpCategory::Zero {
                return Self::one();
            }
            if self.is_sign_negative() && n_odd {
                return Self::nan();
            }
            return self;
        }
        if !Self::has_nan() && self.is_sign_negative() && self.classify() != FpCategory::Zero
            && !n_integer {
            return Self::zero();
        }
        Self::from_f32_bits(power)
    }

    /// The four-quadrant arctangent of `self` and `other`, given it computed in `f32`: a
    /// NaN argument is returned, `self` first; otherwise the result is rounded.
    pub fn atan2_result(self, other: Self, result: u32) -> (r: Self)
        ensures
            Self::layout().spec_is_nan(self@) ==> r@ == self@,
            !Self::layout().spec_is_nan(self@) && Self::layout().spec_is_nan(other@) ==> r@
                == other@,
            !Self::layout().spec_is_nan(self@) && !Self::layout().spec_is_nan(other@)
                ==> crate::convert::spec_encodes(Self::layout(), result, r@),
    {
        if self.is_nan() {
            return self;
        }
        if other.is_nan() {
            return other;
        }
        Self::from_f32_bits(result)
    }
}

/// The remainder with the sign of the divisor, as NumPy computes it on `f32` values, given
/// `lhs - floor(lhs / rhs) * rhs` computed in `f32`: an infinite dividend over a finite
/// divisor gives the negative quiet NaN; a finite dividend over an infinite divisor gives
/// a zero with the divisor's sign for a zero dividend, the dividend where the signs agree,
/// and the divisor otherwise; in every other case the computed difference, with a zero
/// taking the divisor's sign.
pub open spec fn spec_floored_remainder(lhs: u32, rhs: u32, difference: u32) -> u32 {
    let rhs_signed_zero = if f32_sign(rhs) { 0x8000_0000u32 } else { 0u32 };
    if f32_is_infinite(lhs) && f32_exponent(rhs) != 255 {
        0xffc0_0000
    } else if f32_is_infinite(rhs) && f32_exponent(lhs) != 255 {
        if f32_magnitude_value(lhs) == 0 {
            rhs_signed_zero
        } else if f32_sign(lhs) == f32_sign(rhs) {
            lhs
        } else {
            rhs
        }
    } else if f32_magnitude_value(difference) == 0 {
        rhs_signed_zero
    } else {
        difference
    }
}

/// The pattern is a zero of either sign.
proof fn lemma_f32_zero(x: u32)
    ensures
        (x & 0x7fff_ffff == 0) == (f32_magnitude_value(x) == 0),
{
    crate::convert::lemma_f32_fields(x);
    let e = f32_exponent(x);
    if e != 0 {
        vstd::arithmetic::power2::lemma_pow2_pos((e - 1) as nat);
        assert(f32_magnitude_value(x) > 0) by (nonlinear_arith)
            requires
                f32_magnitude_value(x) == (0x80_0000 + crate::convert::f32_fraction(x)) * pow2(
                    (e - 1) as nat,
                ),
                pow2((e - 1) as nat) > 0,
        ;
    }
}

/// Returns the NumPy-style remainder of two `f32` patterns, given the difference
/// `lhs - floor(lhs / rhs) * rhs` computed in `f32`.
pub fn floored_remainder_f32(lhs: u32, rhs: u32, difference: u32) -> (r: u32)
    ensures
        r == spec_floored_remainder(lhs, rhs, difference),
        f32_exponent(lhs) != 255 && f32_exponent(rhs) != 255 && f32_magnitude_value(
            difference,
        ) != 0 ==> r == difference,
        f32_exponent(lhs) != 255 && f32_exponent(rhs) != 255 && f32_magnitude_value(difference)
            == 0 ==> f32_magnitude_value(r) == 0 && f32_sign(r) == f32_sign(rhs),
{
    proof {
        if f32_exponent(lhs) != 255 && f32_exponent(rhs) != 255 {
            lemma_floored_remainder_of_finite(lhs, rhs, difference);
        }
        crate::convert::lemma_f32_fields(lhs);
        crate::convert::lemma_f32_fields(rhs);
        lemma_f32_zero(lhs);
        lemma_f32_zero(difference);
    }
    let lhs_exponent = ((lhs & 0x7fff_ffff) >> 23) & 0xff;
    let rhs_exponent = ((rhs & 0x7fff_ffff) >> 23) & 0xff;
    let lhs_infinite = lhs_exponent == 255 && (lhs & 0x7fff_ffff) & 0x7f_ffff == 0;
    let rhs_infinite = rhs_exponent == 255 && (rhs & 0x7fff_ffff) & 0x7f_ffff == 0;
    let rhs_signed_zero: u32 = if rhs >= 0x8000_0000 { 0x8000_0000 } else { 0 };
    if lhs_infinite && rhs_exponent != 255 {
        0xffc0_0000
    } else if rhs_infinite && lhs_exponent != 255 {
        if lhs & 0x7fff_ffff == 0 {
            rhs_signed_zero
        } else if (lhs >= 0x8000_0000) == (rhs >= 0x8000_0000) {
            lhs
        } else {
            rhs
        }
    } else if difference & 0x7fff_ffff == 0 {
        rhs_signed_zero
    } else {
        difference
    }
}

/// For a finite dividend and a finite divisor, the remainder is the computed difference
/// `lhs - floor(lhs / rhs) * rhs` itself whenever that is not zero, and otherwise a zero
/// with the sign of the divisor: in either case it has the difference's value, its sign
/// unless it is zero, and its size against the divisor. So where the difference is the
/// floored remainder (zero or of the divisor's sign, smaller than the divisor, and short
/// of the dividend by a whole multiple of the divisor), so is the result.
pub proof fn lemma_floored_remainder_of_finite(lhs: u32, rhs: u32, difference: u32)
    requires
        f32_exponent(lhs) != 255,
        f32_exponent(rhs) != 255,
    ensures
        ({
            let r = spec_floored_remainder(lhs, rhs, difference);
            &&& f32_magnitude_value(difference) != 0 ==> r == difference
            &&& f32_magnitude_value(difference) == 0 ==> f32_magnitude_value(r) == 0 && f32_sign(r)
                == f32_sign(rhs)
            &&& f32_signed_value(r) == f32_signed_value(difference)
            &&& f32_magnitude_value(difference) < f32_magnitude_value(rhs)
                ==> f32_magnitude_value(r) < f32_magnitude_value(rhs)
            &&& f32_magnitude_value(r) == 0 || f32_sign(r) == f32_sign(difference)
        }),
{
    let r = spec_floored_remainder(lhs, rhs, difference);
    assert(!f32_is_infinite(lhs));
    assert(!f32_is_infinite(rhs));
    if f32_magnitude_value(difference) == 0 {
        let z: u32 = if f32_sign(rhs) { 0x8000_0000u32 } else { 0u32 };
        assert(r == z);
        crate::convert::lemma_f32_fields(z);
        assert(f32_exponent(z) == 0);
        assert(f32_fraction(z) == 0);
        assert(f32_magnitude_value(z) == 0);
    }
}

/// With an infinite operand and a finite one: an infinite dividend gives the negative
/// quiet NaN `0xffc0_0000`; an infinite divisor gives a zero with the divisor's sign for
/// a zero dividend, the dividend where the two signs agree, and the divisor (an infinity
/// of the divisor's sign) where they differ.
pub proof fn lemma_floored_remainder_of_infinite(lhs: u32, rhs: u32, difference: u32)
    ensures
        ({
            let r = spec_floored_remainder(lhs, rhs, difference);
            &&& f32_is_infinite(lhs) && f32_exponent(rhs) != 255 ==> r == 0xffc0_0000u32
            &&& f32_is_infinite(rhs) && f32_exponent(lhs) != 255 && f32_magnitude_value(lhs) == 0
                ==> f32_magnitude_value(r) == 0 && f32_sign(r) == f32_sign(rhs)
                && f32_exponent(r) == 0
            &&& f32_is_infinite(rhs) && f32_exponent(lhs) != 255 && f32_magnitude_value(lhs) != 0
                && f32_sign(lhs) == f32_sign(rhs) ==> r == lhs
            &&& f32_is_infinite(rhs) && f32_exponent(lhs) != 255 && f32_magnitude_value(lhs) != 0
                && f32_sign(lhs) != f32_sign(rhs) ==> r == rhs && f32_is_infinite(r)
        }),
{
    let z: u32 = if f32_sign(rhs) { 0x8000_0000u32 } else { 0u32 };
    crate::convert::lemma_f32_fields(z);
    assert(f32_exponent(z) == 0);
    assert(f32_fraction(z) == 0);
}

/// One is a finite positive pattern below the sign bit.
pub proof fn lemma_one_is_finite(p: Layout)
    requires
        p.wf(),
        p.sign == crate::format::SignMode::Signed,
    ensures
        p.spec_one_bits() < p.spec_sign_bit(),
        !p.spec_is_nan(p.spec_one_bits()),
        !p.spec_is_infinity(p.spec_one_bits()),
        !p.spec_is_negative(p.spec_one_bits()),
        p.spec_one_bits() >> p.mantissa_bits == p.exponent_bias as u8,
        p.spec_one_bits() & p.spec_mantissa_mask() == 0,
{
    crate::bits::lemma_sign_bit_facts(p);
    let m = p.mantissa_bits;
    let e = p.exponent_bits;
    let b = p.exponent_bias as u8;
    let k = (p.storage_bits - 1) as u8;
    crate::bitfacts::lemma_shift_masks(e);
    assert(1 <= m <= 4 && 2 <= e && e + m <= 7 && 1 <= b && b < ((1u16 << e) - 1) as u8 ==> {
        &&& (b << m) < (1u8 << (e + m))
        &&& (b << m) >> m == b
        &&& (b << m) & ((1u8 << m) - 1) as u8 == 0
    }) by (bit_vector);
    let one = p.spec_one_bits();
    crate::convert::lemma_max_finite_facts(p);
    crate::laws::lemma_signed_pattern(p, one, false);
    crate::bits::lemma_fields(p, one);
}

} // verus!
