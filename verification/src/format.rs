//! Layout parameters of a microfloat format and the `Format` trait that names one.
use vstd::prelude::*;

verus! {

/// How the format encodes NaN.
#[derive(Clone, Copy, Debug, PartialEq, Eq, Structural)]
pub enum NanEncoding {
    /// The format has no NaN.
    Absent,
    /// All-ones exponent with a nonzero mantissa is NaN (the all-zero mantissa is infinity).
    Ieee,
    /// Only the all-ones exponent and all-ones mantissa (either sign) is NaN.
    Outer,
    /// Exactly this byte is NaN.
    Single(u8),
}

/// What a value too large for the format becomes.
#[derive(Clone, Copy, Debug, PartialEq, Eq, Structural)]
pub enum Overflow {
    Infinity,
    Nan,
    Saturate,
}

/// Whether the top storage bit is a sign bit.
#[derive(Clone, Copy, Debug, PartialEq, Eq, Structural)]
pub enum SignMode {
    Signed,
    Unsigned,
}

/// How zero is encoded.
#[derive(Clone, Copy, Debug, PartialEq, Eq, Structural)]
pub enum ZeroMode {
    /// `+0` and `-0` both exist.
    Signed,
    /// A single zero; the negative-zero pattern is NaN.
    Unsigned,
    /// There is no zero at all.
    Absent,
}

/// The parameters of a microfloat format: field widths, bias, and special-value rules.
#[derive(Clone, Copy, Debug, PartialEq, Eq, Structural)]
pub struct Layout {
    pub storage_bits: u8,
    pub exponent_bits: u8,
    pub mantissa_bits: u8,
    pub exponent_bias: i32,
    pub sign: SignMode,
    pub zero: ZeroMode,
    pub nan: NanEncoding,
    pub overflow: Overflow,
}

impl Layout {
    /// The layouts this library works with: the fields fill the storage exactly, and the
    /// special-value rules fit together the way the formats of the library combine them.
    pub open spec fn wf(self) -> bool {
        &&& 2 <= self.storage_bits <= 8
        &&& 1 <= self.exponent_bits
        &&& self.mantissa_bits <= 4
        &&& self.sign == SignMode::Signed ==> self.exponent_bits + self.mantissa_bits + 1
            == self.storage_bits
        &&& self.sign == SignMode::Unsigned ==> {
            &&& self.exponent_bits == 8
            &&& self.mantissa_bits == 0
            &&& self.storage_bits == 8
            &&& self.zero == ZeroMode::Absent
            &&& self.nan == NanEncoding::Single(0xff)
            &&& self.overflow == Overflow::Nan
            &&& self.exponent_bias == 127
        }
        &&& self.zero == ZeroMode::Absent ==> self.sign == SignMode::Unsigned
        &&& self.sign == SignMode::Signed ==> 1 <= self.exponent_bias < self.spec_max_exponent_field()
        &&& self.zero == ZeroMode::Unsigned ==> {
            &&& self.storage_bits == 8
            &&& self.nan == NanEncoding::Single(0x80)
            &&& self.overflow == Overflow::Nan
        }
        &&& (self.nan is Single) ==> self.zero != ZeroMode::Signed
        &&& (self.nan == NanEncoding::Ieee) == (self.overflow == Overflow::Infinity)
        &&& (self.nan == NanEncoding::Absent) == (self.overflow == Overflow::Saturate)
        &&& self.nan == NanEncoding::Ieee ==> self.mantissa_bits >= 1
        &&& self.nan == NanEncoding::Outer ==> self.mantissa_bits >= 2
        &&& self.sign == SignMode::Signed ==> self.mantissa_bits >= 1 && self.exponent_bits >= 2
    }

    /// The sign bit, or 0 for an unsigned format.
    pub open spec fn spec_sign_bit(self) -> u8 {
        if self.sign == SignMode::Signed {
            (1u8 << (self.storage_bits - 1) as u8) as u8
        } else {
            0
        }
    }

    /// The bits that belong to the stored value.
    pub open spec fn spec_storage_mask(self) -> u8 {
        if self.storage_bits == 8 {
            0xff
        } else {
            ((1u8 << self.storage_bits) - 1) as u8
        }
    }

    /// The low `mantissa_bits` bits.
    pub open spec fn spec_mantissa_mask(self) -> u8 {
        ((1u8 << self.mantissa_bits) - 1) as u8
    }

    /// The largest exponent field, all exponent bits set.
    pub open spec fn spec_max_exponent_field(self) -> u8 {
        ((1u16 << self.exponent_bits) - 1) as u8
    }

    /// The exponent field in place, above the mantissa.
    pub open spec fn spec_exponent_mask(self) -> u8 {
        ((((1u16 << self.exponent_bits) - 1) as u16) << self.mantissa_bits) as u8
    }

    pub open spec fn spec_has_inf(self) -> bool {
        self.overflow == Overflow::Infinity
    }

    pub open spec fn spec_has_nan(self) -> bool {
        self.nan != NanEncoding::Absent
    }

    pub open spec fn spec_has_finite_only(self) -> bool {
        self.overflow == Overflow::Saturate
    }

    pub(crate) fn sign_bit(&self) -> (r: u8)
        requires
            self.wf(),
        ensures
            r == self.spec_sign_bit(),
    {
        if self.sign == SignMode::Signed {
            1u8 << (self.storage_bits - 1)
        } else {
            0
        }
    }

    pub(crate) fn storage_mask(&self) -> (r: u8)
        requires
            self.wf(),
        ensures
            r == self.spec_storage_mask(),
    {
        if self.storage_bits == 8 {
            0xff
        } else {
            let one: u8 = 1;
            let s = self.storage_bits;
            proof {
                crate::bitfacts::lemma_shift_masks(s);
            }
            (one << s) - 1
        }
    }

    pub(crate) fn mantissa_mask(&self) -> (r: u8)
        requires
            self.wf(),
        ensures
            r == self.spec_mantissa_mask(),
    {
        let m = self.mantissa_bits;
        proof {
            crate::bitfacts::lemma_shift_masks(m);
        }
        (1u8 << m) - 1
    }

    pub(crate) fn max_exponent_field(&self) -> (r: u8)
        requires
            self.wf(),
        ensures
            r == self.spec_max_exponent_field(),
    {
        let e = self.exponent_bits;
        proof {
            crate::bitfacts::lemma_shift_masks(e);
        }
        ((1u16 << e) - 1) as u8
    }

    pub(crate) fn exponent_mask(&self) -> (r: u8)
        requires
            self.wf(),
        ensures
            r == self.spec_exponent_mask(),
    {
        let e = self.exponent_bits;
        let m = self.mantissa_bits;
        proof {
            crate::bitfacts::lemma_shift_masks(e);
        }
        (((1u16 << e) - 1) << m) as u8
    }

    pub fn has_inf(&self) -> (r: bool)
        ensures
            r == self.spec_has_inf(),
    {
        self.overflow == Overflow::Infinity
    }

    pub fn has_nan(&self) -> (r: bool)
        ensures
            r == self.spec_has_nan(),
    {
        !(self.nan == NanEncoding::Absent)
    }

    pub fn has_finite_only(&self) -> (r: bool)
        ensures
            r == self.spec_has_finite_only(),
    {
        self.overflow == Overflow::Saturate
    }
}

/// A microfloat format: a type that names one well-formed `Layout`.
pub trait Format: Copy + Sized {
    /// The layout of this format.
    spec fn spec_layout() -> Layout;

    /// The layout of this format, at run time.
    fn layout() -> (l: Layout)
        ensures
            l == Self::spec_layout(),
    ;

    /// The layout of every format is well formed.
    proof fn lemma_layout_wf()
        ensures
            Self::spec_layout().wf(),
    ;

    /// The format's name, as the library's types spell it.
    spec fn spec_name() -> Seq<char>;

    /// The format's name, as the library's types spell it.
    fn name() -> (r: &'static str)
        ensures
            r@ == Self::spec_name(),
    ;

    /// Returns `true` if this format can represent infinity.
    fn has_inf() -> (r: bool)
        ensures
            r == Self::spec_layout().spec_has_inf(),
    {
        Self::layout().has_inf()
    }

    /// Returns `true` if this format can represent NaN values.
    fn has_nan() -> (r: bool)
        ensures
            r == Self::spec_layout().spec_has_nan(),
    {
        Self::layout().has_nan()
    }

    /// Returns `true` if this format saturates on overflow.
    fn has_finite_only() -> (r: bool)
        ensures
            r == Self::spec_layout().spec_has_finite_only(),
    {
        Self::layout().has_finite_only()
    }
}

} // verus!
