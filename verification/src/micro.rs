//! `MicroFloat`: a value of a microfloat format, held as its raw byte.
use vstd::prelude::*;
use core::marker::PhantomData;
use crate::bits::{
    abs_bits, classify_bits, infinity_bits, is_negative_bits, max_finite_bits, nan_bits,
    neg_zero_bits, negate_bits, next_down_bits, next_up_bits, one_bits, Class,
};
use crate::format::{Format, Layout, NanEncoding, SignMode, ZeroMode};

verus! {

/// The category of a value, in the manner of `core::num::FpCategory`.
#[derive(Clone, Copy, Debug, PartialEq, Eq, Structural)]
pub enum FpCategory {
    Nan,
    Infinite,
    Zero,
    Subnormal,
    Normal,
}

impl Class {
    /// The category that a classification names.
    pub open spec fn spec_category(self) -> FpCategory {
        if self.is_nan {
            FpCategory::Nan
        } else if self.is_infinite {
            FpCategory::Infinite
        } else if self.is_zero {
            FpCategory::Zero
        } else if self.is_subnormal {
            FpCategory::Subnormal
        } else {
            FpCategory::Normal
        }
    }
}

/// A value of the format `F`, stored as its raw byte.
#[derive(Copy, Debug)]
pub struct MicroFloat<F: Format> {
    pub bits: u8,
    /// The format, as a type only.
    pub format: PhantomData<F>,
}

impl<F: Format> Clone for MicroFloat<F> {
    fn clone(&self) -> (r: Self)
        ensures
            r == *self,
    {
        *self
    }
}

impl<F: Format> View for MicroFloat<F> {
    type V = u8;

    /// The raw byte.
    open spec fn view(&self) -> u8 {
        self.bits
    }
}

impl Layout {
    /// `copysign`: the magnitude of `a` with the sign of `s`. A single-pattern NaN stays as
    /// it is, and an unsigned format has no sign to copy.
    pub open spec fn spec_copysign(self, a: u8, s: u8) -> u8 {
        if (self.nan is Single) && self.spec_is_nan(a) {
            a
        } else if self.sign == SignMode::Unsigned {
            a
        } else if self.spec_is_negative(s) {
            self.spec_abs(a) | self.spec_sign_bit()
        } else {
            self.spec_abs(a)
        }
    }
}

impl Layout {
    /// `signum`: NaN and zero stay as they are; otherwise one with the value's sign.
    pub open spec fn spec_signum(self, a: u8) -> u8 {
        if self.spec_is_nan(a) || self.spec_classify(a).is_zero {
            a
        } else if self.spec_is_negative(a) {
            self.spec_negate(self.spec_one_bits())
        } else {
            self.spec_one_bits()
        }
    }
}

impl Layout {
    /// Epsilon: the pattern whose value is the step from one to the next larger value.
    pub open spec fn spec_epsilon_bits(self) -> u8 {
        if self.zero == ZeroMode::Absent {
            self.spec_one_bits()
        } else if self.exponent_bias > self.mantissa_bits {
            (((self.exponent_bias - self.mantissa_bits) as u8) << self.mantissa_bits) as u8
        } else {
            (1u8 << (self.exponent_bias - 1) as u8) as u8
        }
    }

    /// Negation: a single-pattern NaN stays as it is; otherwise the sign is flipped.
    pub open spec fn spec_neg(self, a: u8) -> u8 {
        if (self.nan is Single) && self.spec_is_nan(a) {
            a
        } else {
            self.spec_negate(a)
        }
    }

    /// `abs`: the sign cleared; a single-pattern NaN stays as it is.
    pub open spec fn spec_abs_value(self, a: u8) -> u8 {
        if (self.nan is Single) && self.spec_is_nan(a) {
            a
        } else {
            self.spec_abs(a)
        }
    }
}

impl<F: Format> MicroFloat<F> {
    /// The layout of the format.
    pub open spec fn layout() -> Layout {
        F::spec_layout()
    }

    /// The value with the given raw byte.
    pub closed spec fn from_bits_spec(bits: u8) -> Self {
        MicroFloat { bits, format: PhantomData }
    }

    /// Creates a value from its raw storage bits. All eight bits are kept.
    pub fn from_bits(bits: u8) -> (r: Self)
        ensures
            r@ == bits,
            r == Self::from_bits_spec(bits),
    {
        MicroFloat { bits, format: PhantomData }
    }

    /// Returns the raw storage bits.
    pub fn to_bits(self) -> (r: u8)
        ensures
            r == self@,
    {
        self.bits
    }

    /// Creates a value from its little-endian byte representation.
    pub fn from_le_bytes(bytes: [u8; 1]) -> (r: Self)
        ensures
            r@ == bytes[0],
    {
        Self::from_bits(bytes[0])
    }

    /// Creates a value from its big-endian byte representation.
    pub fn from_be_bytes(bytes: [u8; 1]) -> (r: Self)
        ensures
            r@ == bytes[0],
    {
        Self::from_bits(bytes[0])
    }

    /// Creates a value from its native-endian byte representation.
    pub fn from_ne_bytes(bytes: [u8; 1]) -> (r: Self)
        ensures
            r@ == bytes[0],
    {
        Self::from_bits(bytes[0])
    }

    /// Returns the little-endian byte representation.
    pub fn to_le_bytes(self) -> (r: [u8; 1])
        ensures
            r[0] == self@,
    {
        [self.bits]
    }

    /// Returns the big-endian byte representation.
    pub fn to_be_bytes(self) -> (r: [u8; 1])
        ensures
            r[0] == self@,
    {
        [self.bits]
    }

    /// Returns the native-endian byte representation.
    pub fn to_ne_bytes(self) -> (r: [u8; 1])
        ensures
            r[0] == self@,
    {
        [self.bits]
    }

    /// Returns `true` if this format can represent infinity.
    pub fn has_inf() -> (r: bool)
        ensures
            r == Self::layout().spec_has_inf(),
    {
        F::has_inf()
    }

    /// Returns `true` if this format can represent NaN values.
    pub fn has_nan() -> (r: bool)
        ensures
            r == Self::layout().spec_has_nan(),
    {
        F::has_nan()
    }

    /// Returns `true` if this format saturates on overflow (finite-only).
    pub fn is_finite_only() -> (r: bool)
        ensures
            r == Self::layout().spec_has_finite_only(),
    {
        F::has_finite_only()
    }

    /// Returns `true` if this value is NaN.
    pub fn is_nan(self) -> (r: bool)
        ensures
            r == Self::layout().spec_is_nan(self@),
    {
        classify_bits::<F>(self.bits).is_nan
    }

    /// Returns `true` if this value is positive or negative infinity.
    pub fn is_infinite(self) -> (r: bool)
        ensures
            r == (Self::layout().spec_is_infinity(self@) && !Self::layout().spec_is_nan(self@)),
    {
        classify_bits::<F>(self.bits).is_infinite
    }

    /// Returns `true` if this value is neither infinite nor NaN.
    pub fn is_finite(self) -> (r: bool)
        ensures
            r == (!Self::layout().spec_is_nan(self@) && !Self::layout().spec_is_infinity(self@)),
    {
        !self.is_nan() && !self.is_infinite()
    }

    /// Returns `true` if this value is finite, nonzero, and not subnormal.
    pub fn is_normal(self) -> (r: bool)
        ensures
            r == (Self::layout().spec_classify(self@).spec_category() == FpCategory::Normal),
    {
        self.classify() == FpCategory::Normal
    }

    /// Returns the floating point category of this value.
    pub fn classify(self) -> (r: FpCategory)
        ensures
            r == Self::layout().spec_classify(self@).spec_category(),
    {
        let class = classify_bits::<F>(self.bits);
        if class.is_nan {
            FpCategory::Nan
        } else if class.is_infinite {
            FpCategory::Infinite
        } else if class.is_zero {
            FpCategory::Zero
        } else if class.is_subnormal {
            FpCategory::Subnormal
        } else {
            FpCategory::Normal
        }
    }

    /// Returns `true` if this value has a positive sign. Unsigned formats always do.
    pub fn is_sign_positive(self) -> (r: bool)
        ensures
            r == !Self::layout().spec_is_negative(self@),
    {
        !self.is_sign_negative()
    }

    /// Returns `true` if this value has a negative sign. Unsigned formats never do.
    pub fn is_sign_negative(self) -> (r: bool)
        ensures
            r == Self::layout().spec_is_negative(self@),
    {
        is_negative_bits::<F>(self.bits)
    }

    /// Returns a value with the magnitude of `self` and the sign of `sign`.
    pub fn copysign(self, sign: Self) -> (r: Self)
        ensures
            r@ == Self::layout().spec_copysign(self@, sign@),
    {
        proof {
            F::lemma_layout_wf();
        }
        let p = F::layout();
        if matches!(p.nan, NanEncoding::Single(_)) && self.is_nan() {
            return self;
        }
        if p.sign == SignMode::Unsigned {
            self
        } else if sign.is_sign_negative() {
            Self::from_bits(abs_bits::<F>(self.bits) | p.sign_bit())
        } else {
            Self::from_bits(abs_bits::<F>(self.bits))
        }
    }

    /// Returns a number representing the sign of `self`; NaN and zero are returned
    /// unchanged.
    pub fn signum(self) -> (r: Self)
        ensures
            r@ == Self::layout().spec_signum(self@),
    {
        if self.is_nan() || self.classify() == FpCategory::Zero {
            self
        } else if self.is_sign_negative() {
            Self::neg_one()
        } else {
            Self::one()
        }
    }

    /// Returns the absolute value of `self`.
    pub fn abs(self) -> (r: Self)
        ensures
            r@ == Self::layout().spec_abs_value(self@),
    {
        proof {
            F::lemma_layout_wf();
        }
        let p = F::layout();
        if matches!(p.nan, NanEncoding::Single(_)) && self.is_nan() {
            return self;
        }
        Self::from_bits(abs_bits::<F>(self.bits))
    }

    /// Returns the least value greater than `self`.
    pub fn next_up(self) -> (r: Self)
        ensures
            r@ == Self::layout().spec_next_up(self@),
    {
        Self::from_bits(next_up_bits::<F>(self.bits))
    }

    /// Returns the greatest value less than `self`.
    pub fn next_down(self) -> (r: Self)
        ensures
            r@ == Self::layout().spec_next_down(self@),
    {
        Self::from_bits(next_down_bits::<F>(self.bits))
    }

    /// Zero (`+0.0`; for a format without zero, its smallest value).
    pub fn zero() -> (r: Self)
        ensures
            r@ == 0,
    {
        Self::from_bits(0)
    }

    /// Negative zero (aliases zero where zero is unsigned, and NaN where there is none).
    pub fn neg_zero() -> (r: Self)
        ensures
            r@ == Self::layout().spec_neg_zero_bits(),
    {
        Self::from_bits(neg_zero_bits::<F>())
    }

    /// One (`1.0`).
    pub fn one() -> (r: Self)
        ensures
            r@ == Self::layout().spec_one_bits(),
    {
        Self::from_bits(one_bits::<F>())
    }

    /// Negative one (NaN in an unsigned format).
    pub fn neg_one() -> (r: Self)
        ensures
            r@ == Self::layout().spec_negate(Self::layout().spec_one_bits()),
    {
        Self::from_bits(negate_bits::<F>(one_bits::<F>()))
    }

    /// Positive infinity, or what the format uses in its place.
    pub fn infinity() -> (r: Self)
        ensures
            r@ == Self::layout().spec_infinity_bits(false),
    {
        Self::from_bits(infinity_bits::<F>(false))
    }

    /// Negative infinity, or what the format uses in its place.
    pub fn neg_infinity() -> (r: Self)
        ensures
            r@ == Self::layout().spec_infinity_bits(true),
    {
        Self::from_bits(infinity_bits::<F>(true))
    }

    /// The canonical NaN (negative zero in a format without NaN).
    pub fn nan() -> (r: Self)
        ensures
            r@ == Self::layout().spec_nan_bits(false),
    {
        Self::from_bits(nan_bits::<F>(false))
    }

    /// Converts the bit pattern of an `f32` to this format: the value is rounded to the
    /// nearest representable one, ties to even, and values beyond the finite range follow
    /// the format's overflow rule.
    pub fn from_f32_bits(x: u32) -> (r: Self)
        ensures
            crate::convert::spec_encodes(Self::layout(), x, r@),
    {
        Self::from_bits(crate::convert::encode_f32::<F>(x))
    }

    /// Returns the bit pattern of the `f32` with this value.
    pub fn to_f32_bits(self) -> (r: u32)
        ensures
            crate::convert::spec_decodes(Self::layout(), self@, r),
    {
        crate::convert::decode_f32::<F>(self.bits)
    }

    /// The least positive value (a format without zero has no subnormals; its least value).
    pub fn min_positive_subnormal() -> (r: Self)
        ensures
            r@ == if Self::layout().zero == ZeroMode::Absent { 0u8 } else { 1u8 },
    {
        proof {
            F::lemma_layout_wf();
        }
        if F::layout().zero == ZeroMode::Absent {
            Self::from_bits(0)
        } else {
            Self::from_bits(1)
        }
    }

    /// The largest subnormal value: all mantissa bits set under a zero exponent.
    pub fn max_subnormal() -> (r: Self)
        ensures
            r@ == if Self::layout().zero == ZeroMode::Absent {
                0u8
            } else {
                Self::layout().spec_mantissa_mask()
            },
    {
        proof {
            F::lemma_layout_wf();
        }
        let p = F::layout();
        if p.zero == ZeroMode::Absent {
            Self::from_bits(0)
        } else {
            Self::from_bits(p.mantissa_mask())
        }
    }

    /// The least positive normal value: exponent field one, zero mantissa.
    pub fn min_positive() -> (r: Self)
        ensures
            r@ == if Self::layout().zero == ZeroMode::Absent {
                0u8
            } else {
                (1u8 << Self::layout().mantissa_bits) as u8
            },
    {
        proof {
            F::lemma_layout_wf();
        }
        let p = F::layout();
        if p.zero == ZeroMode::Absent {
            Self::from_bits(0)
        } else {
            Self::from_bits(1u8 << p.mantissa_bits)
        }
    }

    /// The least finite value: the negative of the largest in a signed format.
    pub fn min_value() -> (r: Self)
        ensures
            r@ == if Self::layout().zero == ZeroMode::Absent {
                0u8
            } else {
                Self::layout().spec_max_finite_bits(true)
            },
    {
        proof {
            F::lemma_layout_wf();
        }
        if F::layout().zero == ZeroMode::Absent {
            Self::from_bits(0)
        } else {
            Self::from_bits(max_finite_bits::<F>(true))
        }
    }

    /// The difference between one and the next larger value: `2^-M`, the value whose
    /// magnitude is the bias's power of two on the format's own scale.
    pub fn epsilon() -> (r: Self)
        ensures
            r@ == Self::layout().spec_epsilon_bits(),
    {
        proof {
            F::lemma_layout_wf();
        }
        let p = F::layout();
        if p.zero == ZeroMode::Absent {
            return Self::one();
        }
        let bias = p.exponent_bias as u8;
        if bias > p.mantissa_bits {
            let e = bias - p.mantissa_bits;
            proof {
                crate::bitfacts::lemma_shift_masks(p.exponent_bits);
            }
            Self::from_bits(e << p.mantissa_bits)
        } else {
            Self::from_bits(1u8 << (bias - 1))
        }
    }

    /// The radix of the representation.
    pub fn radix() -> (r: u32)
        ensures
            r == 2,
    {
        2
    }

    /// The number of storage bits.
    pub fn storage_bits() -> (r: u32)
        ensures
            r == Self::layout().storage_bits,
    {
        F::layout().storage_bits as u32
    }

    /// The number of exponent bits.
    pub fn exponent_bits() -> (r: u32)
        ensures
            r == Self::layout().exponent_bits,
    {
        F::layout().exponent_bits as u32
    }

    /// The number of stored mantissa bits.
    pub fn mantissa_bits() -> (r: u32)
        ensures
            r == Self::layout().mantissa_bits,
    {
        F::layout().mantissa_bits as u32
    }

    /// The number of significant binary digits: the stored mantissa bits and the hidden one.
    pub fn digits() -> (r: u32)
        ensures
            r == Self::layout().mantissa_bits + 1,
    {
        F::layout().mantissa_bits as u32 + 1
    }

    /// The number of significant binary digits of the mantissa, as `digits`.
    pub fn mantissa_digits() -> (r: u32)
        ensures
            r == Self::layout().mantissa_bits + 1,
    {
        Self::digits()
    }

    /// The exponent bias.
    pub fn exponent_bias() -> (r: i32)
        ensures
            r == Self::layout().exponent_bias,
    {
        F::layout().exponent_bias
    }

    /// The largest finite value.
    pub fn max_value() -> (r: Self)
        ensures
            r@ == Self::layout().spec_max_finite_bits(false),
    {
        Self::from_bits(max_finite_bits::<F>(false))
    }
}

impl<F: Format> Default for MicroFloat<F> {
    /// Zero, as `zero`.
    fn default() -> (r: Self)
        ensures
            r@ == 0,
    {
        Self::zero()
    }
}

impl<F: Format> core::ops::Neg for MicroFloat<F> {
    type Output = Self;

    fn neg(self) -> (r: Self) {
        proof {
            F::lemma_layout_wf();
        }
        let p = F::layout();
        if matches!(p.nan, NanEncoding::Single(_)) && self.is_nan() {
            return self;
        }
        Self::from_bits(negate_bits::<F>(self.bits))
    }
}

impl<F: Format> vstd::std_specs::ops::NegSpecImpl for MicroFloat<F> {
    open spec fn obeys_neg_spec() -> bool {
        true
    }

    open spec fn neg_req(self) -> bool {
        true
    }

    open spec fn neg_spec(self) -> Self {
        Self::from_bits_spec(F::spec_layout().spec_neg(self@))
    }
}

} // verus!
