//! Equality and order of microfloat values.
use vstd::prelude::*;
use core::cmp::Ordering;
use vstd::std_specs::cmp::{PartialEqSpecImpl, PartialOrdSpecImpl};
use crate::bits::{is_nan_bits, is_negative_bits, magnitude_bits, total_key};
use crate::format::{Format, Layout};
use crate::micro::{FpCategory, MicroFloat};

verus! {

impl Layout {
    /// `==` on values: never for a NaN, always for two zeros (of either sign), otherwise
    /// for the same byte.
    pub open spec fn spec_eq(self, a: u8, b: u8) -> bool {
        &&& !self.spec_is_nan(a)
        &&& !self.spec_is_nan(b)
        &&& (self.spec_classify(a).is_zero && self.spec_classify(b).is_zero) || a == b
    }

    /// The order of two values, or none where either is NaN.
    pub open spec fn value_order(self, a: u8, b: u8) -> Option<Ordering> {
        if self.spec_is_nan(a) || self.spec_is_nan(b) {
            None
        } else if self.spec_value(a).lt(self.spec_value(b)) {
            Some(Ordering::Less)
        } else if self.spec_value(a) == self.spec_value(b) {
            Some(Ordering::Equal)
        } else {
            Some(Ordering::Greater)
        }
    }

    /// `a` comes before `b`: neither is NaN and `a` has the smaller value.
    pub open spec fn spec_lt(self, a: u8, b: u8) -> bool {
        !self.spec_is_nan(a) && !self.spec_is_nan(b) && self.spec_value(a).lt(self.spec_value(b))
    }

    /// The smaller of two values, ignoring a NaN when the other is a number; of two NaNs
    /// the first, and of two equal values the second.
    pub open spec fn spec_min(self, a: u8, b: u8) -> u8 {
        if self.spec_is_nan(a) && self.spec_is_nan(b) {
            a
        } else if self.spec_is_nan(a) {
            b
        } else if self.spec_is_nan(b) || self.spec_lt(a, b) {
            a
        } else {
            b
        }
    }

    /// The larger of two values, ignoring a NaN when the other is a number; of two NaNs
    /// the first, and of two equal values the second.
    pub open spec fn spec_max(self, a: u8, b: u8) -> u8 {
        if self.spec_is_nan(a) && self.spec_is_nan(b) {
            a
        } else if self.spec_is_nan(a) {
            b
        } else if self.spec_is_nan(b) || self.spec_lt(b, a) {
            a
        } else {
            b
        }
    }

    /// `a` restricted to the interval `[lo, hi]`; a NaN stays as it is.
    pub open spec fn spec_clamp(self, a: u8, lo: u8, hi: u8) -> u8 {
        if self.spec_lt(a, lo) {
            lo
        } else if self.spec_lt(hi, a) {
            hi
        } else {
            a
        }
    }
}

/// The sign and magnitude as one signed integer; its order is the order of values.
pub(crate) fn signed_magnitude<F: Format>(bits: u8) -> (r: i16)
    ensures
        r == F::spec_layout().spec_signed_magnitude(bits),
{
    let mag = magnitude_bits::<F>(bits) as i16;
    if is_negative_bits::<F>(bits) {
        -mag
    } else {
        mag
    }
}

impl<F: Format> PartialEq for MicroFloat<F> {
    fn eq(&self, other: &Self) -> (r: bool) {
        if self.is_nan() || other.is_nan() {
            false
        } else if self.classify() == FpCategory::Zero && other.classify() == FpCategory::Zero {
            true
        } else {
            self.to_bits() == other.to_bits()
        }
    }
}

impl<F: Format> PartialEqSpecImpl for MicroFloat<F> {
    open spec fn obeys_eq_spec() -> bool {
        true
    }

    open spec fn eq_spec(&self, other: &Self) -> bool {
        F::spec_layout().spec_eq(self@, other@)
    }
}

impl<F: Format> PartialOrd for MicroFloat<F> {
    fn partial_cmp(&self, other: &Self) -> (r: Option<Ordering>) {
        let a = self.to_bits();
        let b = other.to_bits();
        if is_nan_bits::<F>(a) || is_nan_bits::<F>(b) {
            return None;
        }
        proof {
            F::lemma_layout_wf();
            crate::value::lemma_value_order(F::spec_layout(), a, b);
        }
        let ka = signed_magnitude::<F>(a);
        let kb = signed_magnitude::<F>(b);
        if ka < kb {
            Some(Ordering::Less)
        } else if ka == kb {
            Some(Ordering::Equal)
        } else {
            Some(Ordering::Greater)
        }
    }
}

impl<F: Format> PartialOrdSpecImpl for MicroFloat<F> {
    open spec fn obeys_partial_cmp_spec() -> bool {
        true
    }

    open spec fn partial_cmp_spec(&self, other: &Self) -> Option<Ordering> {
        F::spec_layout().value_order(self@, other@)
    }
}

impl<F: Format> MicroFloat<F> {
    /// Returns the minimum of `self` and `other`, ignoring NaN when possible: if exactly
    /// one argument is NaN, the other is returned.
    pub fn min(self, other: Self) -> (r: Self)
        ensures
            r@ == F::spec_layout().spec_min(self@, other@),
    {
        if self.is_nan() && other.is_nan() {
            self
        } else if self.is_nan() {
            other
        } else if other.is_nan() || self < other {
            self
        } else {
            other
        }
    }

    /// Returns the maximum of `self` and `other`, ignoring NaN when possible: if exactly
    /// one argument is NaN, the other is returned.
    pub fn max(self, other: Self) -> (r: Self)
        ensures
            r@ == F::spec_layout().spec_max(self@, other@),
    {
        if self.is_nan() && other.is_nan() {
            self
        } else if self.is_nan() {
            other
        } else if other.is_nan() || self > other {
            self
        } else {
            other
        }
    }

    /// Restricts `self` to the interval `[min, max]`. Neither bound may be NaN, and `min`
    /// may not exceed `max`.
    pub fn clamp(self, min: Self, max: Self) -> (r: Self)
        requires
            !F::spec_layout().spec_is_nan(min@),
            !F::spec_layout().spec_is_nan(max@),
            F::spec_layout().spec_value(min@).le(F::spec_layout().spec_value(max@)),
        ensures
            r@ == F::spec_layout().spec_clamp(self@, min@, max@),
            !F::spec_layout().spec_is_nan(self@) && F::spec_layout().spec_value(max@).lt(
                F::spec_layout().spec_value(self@),
            ) ==> r@ == max@,
            !F::spec_layout().spec_is_nan(self@) && F::spec_layout().spec_value(self@).lt(
                F::spec_layout().spec_value(min@),
            ) ==> r@ == min@,
            F::spec_layout().spec_is_nan(self@) ==> r@ == self@,
    {
        proof {
            F::lemma_layout_wf();
            if !F::spec_layout().spec_is_nan(self@) {
                crate::order_laws::lemma_clamp_within(F::spec_layout(), self@, min@, max@);
            }
        }
        if self < min {
            min
        } else if self > max {
            max
        } else {
            self
        }
    }

    /// Returns the order of `self` and `other` in the total order over all patterns of
    /// the format, which tells the two zeros apart and gives each NaN a fixed place.
    pub fn total_cmp(&self, other: &Self) -> (r: Ordering)
        ensures
            (r == Ordering::Less) == (F::spec_layout().spec_total_key(self@) < F::spec_layout().spec_total_key(other@)),
            (r == Ordering::Equal) == (F::spec_layout().spec_total_key(self@) == F::spec_layout().spec_total_key(other@)),
    {
        let a = total_key::<F>(self.to_bits());
        let b = total_key::<F>(other.to_bits());
        if a < b {
            Ordering::Less
        } else if a == b {
            Ordering::Equal
        } else {
            Ordering::Greater
        }
    }
}

} // verus!
