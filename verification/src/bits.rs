//! Bit-level operations on encoded microfloat values.
use vstd::prelude::*;
use crate::format::{Format, Layout, NanEncoding, Overflow, SignMode, ZeroMode};

verus! {

// ---------------------------------------------------------------------------
// The meaning of a byte in a layout.
// ---------------------------------------------------------------------------

impl Layout {
    /// The byte has its sign bit set. In a sub-byte format, any byte at or above the sign bit
    /// counts as negative. Unsigned formats have no negative values.
    pub open spec fn spec_is_negative(self, b: u8) -> bool {
        self.sign == SignMode::Signed && b >= self.spec_sign_bit()
    }
}

impl Layout {
    /// The byte without its sign: the bits below the sign bit.
    pub open spec fn spec_magnitude(self, b: u8) -> u8 {
        if self.sign == SignMode::Signed {
            (b % self.spec_sign_bit()) as u8
        } else {
            b
        }
    }
}

impl Layout {
    /// The exponent field of the magnitude.
    pub open spec fn spec_exponent_field(self, b: u8) -> u8 {
        self.spec_magnitude(b) >> self.mantissa_bits
    }
}

impl Layout {
    /// The mantissa field of the magnitude.
    pub open spec fn spec_mantissa_field(self, b: u8) -> u8 {
        self.spec_magnitude(b) & self.spec_mantissa_mask()
    }
}

pub proof fn lemma_sign_bit_facts(p: Layout)
    requires
        p.wf(),
    ensures
        p.sign == SignMode::Signed ==> p.spec_sign_bit() >= 2 && p.spec_sign_bit() <= 0x80,
        p.sign == SignMode::Signed && p.storage_bits == 8 ==> p.spec_sign_bit() == 0x80,
{
    let k = (p.storage_bits - 1) as u8;
    crate::bitfacts::lemma_shift_masks(k);
}

/// Returns `true` if the byte has its sign bit set.
pub fn is_negative_bits<F: Format>(bits: u8) -> (r: bool)
    ensures
        r == F::spec_layout().spec_is_negative(bits),
{
    proof {
        F::lemma_layout_wf();
    }
    let p = F::layout();
    match p.sign {
        SignMode::Unsigned => false,
        SignMode::Signed => {
            let sb = p.sign_bit();
            proof {
                lemma_sign_bit_facts(p);
            }
            if p.storage_bits < 8 {
                bits >= sb
            } else {
                proof {
                    crate::bitfacts::lemma_byte_facts(bits, 0, 0);
                }
                (bits & sb) != 0
            }
        },
    }
}

/// Returns the byte with its sign bit cleared.
pub fn magnitude_bits<F: Format>(bits: u8) -> (r: u8)
    ensures
        r == F::spec_layout().spec_magnitude(bits),
{
    proof {
        F::lemma_layout_wf();
    }
    let p = F::layout();
    match p.sign {
        SignMode::Unsigned => bits,
        SignMode::Signed => {
            let sb = p.sign_bit();
            proof {
                lemma_sign_bit_facts(p);
            }
            let k = (p.storage_bits - 1) as u8;
            assert(sb == 1u8 << k);
            if p.storage_bits < 8 {
                assert(bits & ((sb - 1) as u8) == bits % sb) by (bit_vector)
                    requires
                        sb == 1u8 << k,
                        k < 7,
                ;
                bits & (sb - 1)
            } else {
                proof {
                    crate::bitfacts::lemma_byte_facts(bits, 0, 0);
                }
                bits & !sb
            }
        },
    }
}


/// The magnitude fits below the sign bit, and its fields decompose it.
pub proof fn lemma_fields(p: Layout, b: u8)
    requires
        p.wf(),
    ensures
        p.sign == SignMode::Signed ==> p.spec_magnitude(b) < p.spec_sign_bit(),
        p.spec_exponent_field(b) <= p.spec_max_exponent_field(),
        p.spec_mantissa_field(b) <= p.spec_mantissa_mask(),
        p.spec_magnitude(b) == ((p.spec_exponent_field(b) as u16) << p.mantissa_bits) as u8
            | p.spec_mantissa_field(b),
        (p.spec_magnitude(b) & p.spec_exponent_mask()) >> p.mantissa_bits
            == p.spec_exponent_field(b),
{
    lemma_sign_bit_facts(p);
    let mag = p.spec_magnitude(b);
    let e = p.exponent_bits;
    let m = p.mantissa_bits;
    if p.sign == SignMode::Signed {
        let k = (p.storage_bits - 1) as u8;
        assert(k == e + m);
        let sb = p.spec_sign_bit();
        assert(mag < sb);
        assert((mag >> m) <= ((1u16 << e) - 1) as u8
            && (mag & ((1u8 << m) - 1) as u8) <= ((1u8 << m) - 1) as u8
            && mag == (((mag >> m) as u16) << m) as u8 | (mag & ((1u8 << m) - 1) as u8)
            && (mag & ((((1u16 << e) - 1) as u16) << m) as u8) >> m == mag >> m) by (bit_vector)
            requires
                1 <= e,
                m <= 4,
                k == e + m,
                k <= 7,
                sb == 1u8 << k,
                mag < sb,
        ;
    } else {
        assert(e == 8 && m == 0);
        assert((mag >> 0u8) <= ((1u16 << 8u8) - 1) as u8
            && (mag & ((1u8 << 0u8) - 1) as u8) <= ((1u8 << 0u8) - 1) as u8
            && mag == (((mag >> 0u8) as u16) << 0u8) as u8 | (mag & ((1u8 << 0u8) - 1) as u8)
            && (mag & ((((1u16 << 8u8) - 1) as u16) << 0u8) as u8) >> 0u8 == mag >> 0u8) by (bit_vector);
    }
}

/// Returns the exponent field of the byte.
pub fn exponent_field<F: Format>(bits: u8) -> (r: u8)
    ensures
        r == F::spec_layout().spec_exponent_field(bits),
        r <= F::spec_layout().spec_max_exponent_field(),
{
    proof {
        F::lemma_layout_wf();
        lemma_fields(F::spec_layout(), bits);
    }
    let p = F::layout();
    (magnitude_bits::<F>(bits) & p.exponent_mask()) >> p.mantissa_bits
}

/// Returns the mantissa field of the byte.
pub fn mantissa_field<F: Format>(bits: u8) -> (r: u8)
    ensures
        r == F::spec_layout().spec_mantissa_field(bits),
        r <= F::spec_layout().spec_mantissa_mask(),
{
    proof {
        F::lemma_layout_wf();
        lemma_fields(F::spec_layout(), bits);
    }
    let p = F::layout();
    magnitude_bits::<F>(bits) & p.mantissa_mask()
}

impl Layout {
    /// The absolute value of a byte: its magnitude in a signed format, itself otherwise.
    pub open spec fn spec_abs(self, b: u8) -> u8 {
        self.spec_magnitude(b)
    }
}

/// Returns the byte with its sign cleared.
pub fn abs_bits<F: Format>(bits: u8) -> (r: u8)
    ensures
        r == F::spec_layout().spec_abs(bits),
{
    proof {
        F::lemma_layout_wf();
    }
    let p = F::layout();
    match p.sign {
        SignMode::Unsigned => bits,
        SignMode::Signed => magnitude_bits::<F>(bits),
    }
}


// ---------------------------------------------------------------------------
// NaN, negation and special patterns.
// ---------------------------------------------------------------------------

impl Layout {
    /// The NaN pattern with a clear sign bit (for a format without NaN, its negative zero).
    pub open spec fn spec_positive_nan(self) -> u8 {
        match self.nan {
            NanEncoding::Absent => self.spec_sign_bit(),
            NanEncoding::Ieee => self.spec_exponent_mask() | (1u8 << (self.mantissa_bits - 1) as u8),
            NanEncoding::Outer => self.spec_exponent_mask() | self.spec_mantissa_mask(),
            NanEncoding::Single(n) => n,
        }
    }
}

impl Layout {
    /// Negation: flip the sign bit. An unsigned format has no negative values, so negating
    /// gives its NaN; a format with a single zero keeps zero as it is.
    pub open spec fn spec_negate(self, b: u8) -> u8 {
        if self.sign == SignMode::Unsigned {
            self.spec_positive_nan()
        } else if self.zero == ZeroMode::Unsigned && self.spec_magnitude(b) == 0 {
            self.spec_magnitude(b)
        } else {
            b ^ self.spec_sign_bit()
        }
    }
}

impl Layout {
    /// The canonical NaN with the requested sign, where the format's NaN can carry one.
    pub open spec fn spec_nan_bits(self, negative: bool) -> u8 {
        match self.nan {
            NanEncoding::Absent => self.spec_sign_bit(),
            NanEncoding::Single(n) => n,
            _ => if negative {
                self.spec_negate(self.spec_positive_nan())
            } else {
                self.spec_positive_nan()
            },
        }
    }
}

impl Layout {
    /// The byte is a NaN of the format.
    pub open spec fn spec_is_nan(self, b: u8) -> bool {
        match self.nan {
            NanEncoding::Absent => false,
            NanEncoding::Ieee => self.spec_exponent_field(b) == self.spec_max_exponent_field()
                && self.spec_mantissa_field(b) != 0,
            NanEncoding::Outer => self.spec_exponent_field(b) == self.spec_max_exponent_field()
                && self.spec_mantissa_field(b) == self.spec_mantissa_mask(),
            NanEncoding::Single(n) => b == n,
        }
    }
}

impl Layout {
    /// The byte is an infinity of the format.
    pub open spec fn spec_is_infinity(self, b: u8) -> bool {
        self.spec_has_inf() && self.spec_exponent_field(b) == self.spec_max_exponent_field()
            && self.spec_mantissa_field(b) == 0
    }
}

fn positive_nan_bits(p: &Layout) -> (r: u8)
    requires
        p.wf(),
    ensures
        r == (*p).spec_positive_nan(),
{
    match p.nan {
        NanEncoding::Absent => p.sign_bit(),
        NanEncoding::Ieee => p.exponent_mask() | (1u8 << (p.mantissa_bits - 1)),
        NanEncoding::Outer => p.exponent_mask() | p.mantissa_mask(),
        NanEncoding::Single(n) => n,
    }
}

/// Returns the negation of the byte.
pub fn negate_bits<F: Format>(bits: u8) -> (r: u8)
    ensures
        r == F::spec_layout().spec_negate(bits),
{
    proof {
        F::lemma_layout_wf();
    }
    let p = F::layout();
    match p.sign {
        SignMode::Unsigned => positive_nan_bits(&p),
        SignMode::Signed => {
            let sb = p.sign_bit();
            if p.zero == ZeroMode::Unsigned && (bits & !sb) == 0 {
                proof {
                    lemma_sign_bit_facts(p);
                }
                proof {
                    crate::bitfacts::lemma_byte_facts(bits, 0, 0);
                }
                bits & !sb
            } else {
                proof {
                    lemma_sign_bit_facts(p);
                }
                if p.zero == ZeroMode::Unsigned {
                    proof {
                        crate::bitfacts::lemma_byte_facts(bits, 0, 0);
                    }
                }
                bits ^ sb
            }
        },
    }
}

/// Returns the canonical NaN with the requested sign.
pub fn nan_bits<F: Format>(negative: bool) -> (r: u8)
    ensures
        r == F::spec_layout().spec_nan_bits(negative),
{
    proof {
        F::lemma_layout_wf();
    }
    let p = F::layout();
    match p.nan {
        NanEncoding::Absent => p.sign_bit(),
        NanEncoding::Ieee | NanEncoding::Outer => {
            let bits = positive_nan_bits(&p);
            if negative {
                negate_bits::<F>(bits)
            } else {
                bits
            }
        },
        NanEncoding::Single(bits) => bits,
    }
}

/// Returns `true` if the byte is a NaN of the format.
pub fn is_nan_bits<F: Format>(bits: u8) -> (r: bool)
    ensures
        r == F::spec_layout().spec_is_nan(bits),
{
    proof {
        F::lemma_layout_wf();
    }
    let p = F::layout();
    match p.nan {
        NanEncoding::Absent => false,
        NanEncoding::Ieee => exponent_field::<F>(bits) == p.max_exponent_field()
            && mantissa_field::<F>(bits) != 0,
        NanEncoding::Outer => exponent_field::<F>(bits) == p.max_exponent_field()
            && mantissa_field::<F>(bits) == p.mantissa_mask(),
        NanEncoding::Single(nan) => bits == nan,
    }
}

/// Returns `true` if the byte is an infinity of the format.
pub fn is_infinity_bits<F: Format>(bits: u8) -> (r: bool)
    ensures
        r == F::spec_layout().spec_is_infinity(bits),
{
    proof {
        F::lemma_layout_wf();
    }
    let p = F::layout();
    p.has_inf() && exponent_field::<F>(bits) == p.max_exponent_field() && mantissa_field::<F>(
        bits,
    ) == 0
}

// ---------------------------------------------------------------------------
// Classification.
// ---------------------------------------------------------------------------

/// The classification of a byte, in the manner of `core::num::FpCategory`: at most one
/// of the flags is set, and a value with none set is normal.
#[derive(Clone, Copy, Debug, PartialEq, Eq, Structural)]
pub struct Class {
    pub is_zero: bool,
    pub is_subnormal: bool,
    pub is_infinite: bool,
    pub is_nan: bool,
}

impl Layout {
    /// How a byte classifies: NaN, infinity, zero, subnormal (nonzero magnitude with a zero
    /// exponent field), or otherwise normal. A format without zero has only normal values
    /// besides its NaN.
    pub open spec fn spec_classify(self, b: u8) -> Class {
        if self.spec_is_nan(b) {
            Class { is_zero: false, is_subnormal: false, is_infinite: false, is_nan: true }
        } else if self.spec_is_infinity(b) {
            Class { is_zero: false, is_subnormal: false, is_infinite: true, is_nan: false }
        } else if self.zero == ZeroMode::Absent {
            Class { is_zero: false, is_subnormal: false, is_infinite: false, is_nan: false }
        } else {
            Class {
                is_zero: self.spec_magnitude(b) == 0,
                is_subnormal: self.spec_magnitude(b) != 0 && self.spec_exponent_field(b) == 0,
                is_infinite: false,
                is_nan: false,
            }
        }
    }
}

/// Classifies the byte.
pub fn classify_bits<F: Format>(bits: u8) -> (r: Class)
    ensures
        r == F::spec_layout().spec_classify(bits),
{
    proof {
        F::lemma_layout_wf();
    }
    let p = F::layout();
    if is_nan_bits::<F>(bits) {
        return Class { is_zero: false, is_subnormal: false, is_infinite: false, is_nan: true };
    }
    if is_infinity_bits::<F>(bits) {
        return Class { is_zero: false, is_subnormal: false, is_infinite: true, is_nan: false };
    }
    match p.zero {
        ZeroMode::Absent => {
            return Class {
                is_zero: false,
                is_subnormal: false,
                is_infinite: false,
                is_nan: false,
            };
        },
        ZeroMode::Signed | ZeroMode::Unsigned => {},
    }
    let mag = magnitude_bits::<F>(bits);
    Class {
        is_zero: mag == 0,
        is_subnormal: mag != 0 && exponent_field::<F>(bits) == 0,
        is_infinite: false,
        is_nan: false,
    }
}

// ---------------------------------------------------------------------------
// Named patterns.
// ---------------------------------------------------------------------------

impl Layout {
    /// One: exponent field equal to the bias, zero mantissa, clear sign.
    pub open spec fn spec_one_bits(self) -> u8 {
        ((self.exponent_bias as u8) << self.mantissa_bits) as u8
    }
}

/// The pattern of one.
pub fn one_bits<F: Format>() -> (r: u8)
    ensures
        r == F::spec_layout().spec_one_bits(),
{
    proof {
        F::lemma_layout_wf();
    }
    let p = F::layout();
    match p.zero {
        ZeroMode::Absent => {
            let b = p.exponent_bias as u8;
            proof {
                crate::bitfacts::lemma_byte_facts(b, 0, 0);
            }
            return b;
        },
        ZeroMode::Signed | ZeroMode::Unsigned => {},
    }
    let exponent_bias = p.exponent_bias as u8;
    let mask = p.storage_mask();
    let e = p.exponent_bits;
    let m = p.mantissa_bits;
    let s = p.storage_bits;
    proof {
        assert(exponent_bias < ((1u16 << e) - 1) as u8 && e + m + 1 == s && s <= 8 ==> ((
        exponent_bias << m) & (if s == 8 {
            0xffu8
        } else {
            ((1u8 << s) - 1) as u8
        })) == exponent_bias << m) by (bit_vector);
    }
    (exponent_bias << p.mantissa_bits) & mask
}

impl Layout {
    /// Negative zero: the sign bit alone where zero is signed, zero itself where it is
    /// unsigned, and NaN where the format has no zero.
    pub open spec fn spec_neg_zero_bits(self) -> u8 {
        match self.zero {
            ZeroMode::Signed => self.spec_sign_bit(),
            ZeroMode::Unsigned => 0,
            ZeroMode::Absent => self.spec_nan_bits(false),
        }
    }
}

/// The pattern of negative zero.
pub fn neg_zero_bits<F: Format>() -> (r: u8)
    ensures
        r == F::spec_layout().spec_neg_zero_bits(),
{
    proof {
        F::lemma_layout_wf();
    }
    let p = F::layout();
    match p.zero {
        ZeroMode::Signed => p.sign_bit(),
        ZeroMode::Unsigned => 0,
        ZeroMode::Absent => nan_bits::<F>(false),
    }
}

impl Layout {
    /// The largest finite magnitude: all exponent and mantissa bits set, less the one step
    /// that the NaN or infinity encoding takes from the top.
    pub open spec fn spec_max_finite_magnitude(self) -> u8 {
        match self.nan {
            NanEncoding::Ieee => (((self.spec_max_exponent_field() - 1) as u8) << self.mantissa_bits)
                | self.spec_mantissa_mask(),
            NanEncoding::Outer => (self.spec_max_exponent_field() << self.mantissa_bits) | ((
            self.spec_mantissa_mask() - 1) as u8),
            _ => (self.spec_max_exponent_field() << self.mantissa_bits) | self.spec_mantissa_mask(),
        }
    }
}

impl Layout {
    /// The largest finite value with the requested sign (a format without zero has one
    /// largest value for both).
    pub open spec fn spec_max_finite_bits(self, negative: bool) -> u8 {
        if self.zero == ZeroMode::Absent {
            0xfe
        } else if negative {
            self.spec_negate(self.spec_max_finite_magnitude())
        } else {
            self.spec_max_finite_magnitude()
        }
    }
}

/// The pattern of the largest finite value with the requested sign.
pub fn max_finite_bits<F: Format>(negative: bool) -> (r: u8)
    ensures
        r == F::spec_layout().spec_max_finite_bits(negative),
{
    proof {
        F::lemma_layout_wf();
    }
    let p = F::layout();
    match p.zero {
        ZeroMode::Absent => return 0xfe,
        ZeroMode::Signed | ZeroMode::Unsigned => {},
    }
    let mut exp = p.max_exponent_field();
    let mut mant = p.mantissa_mask();
    let e = p.exponent_bits;
    let m = p.mantissa_bits;
    proof {
        crate::bitfacts::lemma_shift_masks(e);
        crate::bitfacts::lemma_shift_masks(m);
        lemma_sign_bit_facts(p);
    }
    match p.nan {
        NanEncoding::Ieee => {
            exp -= 1;
        },
        NanEncoding::Outer => {
            mant -= 1;
        },
        NanEncoding::Single(nan) => {
            let mag = nan & !p.sign_bit();
            proof {
                assert(nan == 0x80u8 ==> nan & !0x80u8 == 0) by (bit_vector);
                assert(1 <= e && e <= 8 && m <= 4 ==> ((((1u16 << e) - 1) as u8) << m) | ((1u8
                    << m) - 1) as u8 != 0) by (bit_vector);
            }
            if mag == ((exp << p.mantissa_bits) | mant) {
                mant -= 1;
            }
        },
        NanEncoding::Absent => {},
    }
    let bits = (exp << p.mantissa_bits) | mant;
    if negative {
        negate_bits::<F>(bits)
    } else {
        bits
    }
}

impl Layout {
    /// Infinity with the requested sign; where the format has no infinity, what an infinite
    /// value becomes: its NaN, or its largest finite value.
    pub open spec fn spec_infinity_bits(self, negative: bool) -> u8 {
        match self.overflow {
            Overflow::Infinity => if negative {
                self.spec_negate(self.spec_exponent_mask())
            } else {
                self.spec_exponent_mask()
            },
            Overflow::Nan => self.spec_nan_bits(negative),
            Overflow::Saturate => self.spec_max_finite_bits(negative),
        }
    }
}

/// The pattern of infinity with the requested sign.
pub fn infinity_bits<F: Format>(negative: bool) -> (r: u8)
    ensures
        r == F::spec_layout().spec_infinity_bits(negative),
{
    proof {
        F::lemma_layout_wf();
    }
    let p = F::layout();
    match p.overflow {
        Overflow::Infinity => {
            let bits = p.exponent_mask();
            if negative {
                negate_bits::<F>(bits)
            } else {
                bits
            }
        },
        Overflow::Nan => nan_bits::<F>(negative),
        Overflow::Saturate => max_finite_bits::<F>(negative),
    }
}

impl Layout {
    /// What a value too large for the format becomes: infinity, NaN (signed only where NaN
    /// carries a sign), or the largest finite value.
    pub open spec fn spec_overflow_bits(self, negative: bool) -> u8 {
        match self.overflow {
            Overflow::Infinity => self.spec_infinity_bits(negative),
            Overflow::Nan => match self.nan {
                NanEncoding::Outer => self.spec_nan_bits(negative),
                _ => self.spec_nan_bits(false),
            },
            Overflow::Saturate => self.spec_max_finite_bits(negative),
        }
    }
}

/// The pattern that a value too large for the format becomes.
pub fn overflow_bits<F: Format>(negative: bool) -> (r: u8)
    ensures
        r == F::spec_layout().spec_overflow_bits(negative),
{
    proof {
        F::lemma_layout_wf();
    }
    let p = F::layout();
    match p.overflow {
        Overflow::Infinity => infinity_bits::<F>(negative),
        Overflow::Nan => match p.nan {
            NanEncoding::Outer => nan_bits::<F>(negative),
            _ => nan_bits::<F>(false),
        },
        Overflow::Saturate => max_finite_bits::<F>(negative),
    }
}


// ---------------------------------------------------------------------------
// Stepping to neighbouring values.
// ---------------------------------------------------------------------------

impl Layout {
    /// The byte reduced to the format's storage bits.
    pub open spec fn spec_canonical(self, b: u8) -> u8 {
        b & self.spec_storage_mask()
    }
}

impl Layout {
    /// The next representable value above the byte's value: NaN and positive infinity stay
    /// as they are, negative infinity steps to the most negative finite value, any zero steps
    /// to the least positive value, and the largest finite value steps to infinity (or what
    /// the format uses in its place). Bytes outside the storage are first reduced to it.
    pub open spec fn spec_next_up(self, b: u8) -> u8 {
        let c = self.spec_canonical(b);
        let class = self.spec_classify(c);
        if class.is_nan {
            c
        } else if class.is_infinite {
            if self.spec_is_negative(c) {
                self.spec_max_finite_bits(true)
            } else {
                c
            }
        } else if class.is_zero {
            1
        } else if self.sign == SignMode::Unsigned || !self.spec_is_negative(c) {
            if c == self.spec_max_finite_bits(false) {
                self.spec_infinity_bits(false)
            } else {
                (c + 1) as u8
            }
        } else if self.spec_magnitude(c) == 1 {
            self.spec_neg_zero_bits()
        } else {
            (c - 1) as u8
        }
    }
}

impl Layout {
    /// The next representable value below the byte's value, the mirror of `spec_next_up`:
    /// any zero steps to the negative of the least positive value (in an unsigned format, to
    /// what negative infinity becomes), and the smallest value steps to negative infinity.
    pub open spec fn spec_next_down(self, b: u8) -> u8 {
        let c = self.spec_canonical(b);
        let class = self.spec_classify(c);
        if class.is_nan {
            c
        } else if class.is_infinite {
            if self.spec_is_negative(c) {
                c
            } else {
                self.spec_max_finite_bits(false)
            }
        } else if class.is_zero {
            if self.sign == SignMode::Signed {
                self.spec_negate(1)
            } else {
                self.spec_infinity_bits(true)
            }
        } else if self.sign == SignMode::Unsigned {
            if c == 0 {
                self.spec_infinity_bits(true)
            } else {
                (c - 1) as u8
            }
        } else if self.spec_is_negative(c) {
            if c == self.spec_max_finite_bits(true) {
                self.spec_infinity_bits(true)
            } else {
                (c + 1) as u8
            }
        } else if self.spec_magnitude(c) == 1 {
            0
        } else {
            (c - 1) as u8
        }
    }
}

/// Below the storage mask, 0xff is either a NaN or the most negative finite value.
proof fn lemma_top_byte(p: Layout)
    requires
        p.wf(),
    ensures
        p.spec_storage_mask() == 0xff ==> p.spec_is_nan(0xff) || 0xff == p.spec_max_finite_bits(true),
        p.spec_storage_mask() < 0xff ==> p.storage_bits < 8,
{
    lemma_sign_bit_facts(p);
    lemma_fields(p, 0xff);
    let e = p.exponent_bits;
    let m = p.mantissa_bits;
    if p.storage_bits < 8 {
        let s = p.storage_bits;
        crate::bitfacts::lemma_shift_masks(s);
    }
    if p.storage_bits == 8 && p.sign == SignMode::Signed {
        assert(e + m == 7);
        assert(e + m == 7 && 1 <= e ==> (0xffu8 % 0x80u8) >> m == ((1u16 << e) - 1) as u8 && (
        0xffu8 % 0x80u8) & ((1u8 << m) - 1) as u8 == ((1u8 << m) - 1) as u8 && (((((1u16 << e)
            - 1) as u8) << m) | ((1u8 << m) - 1) as u8) ^ 0x80u8 == 0xff && (((((1u16 << e)
            - 1) as u8) << m) | ((1u8 << m) - 1) as u8) % 0x80u8 != 0 && (1 <= m ==> ((1u8 << m)
            - 1) as u8 != 0)) by (bit_vector);
        assert(p.spec_magnitude(0xff) == 0xffu8 % 0x80u8);
        assert(p.spec_exponent_field(0xff) == p.spec_max_exponent_field());
        assert(p.spec_mantissa_field(0xff) == p.spec_mantissa_mask());
        match p.nan {
            NanEncoding::Ieee => {
                assert(p.spec_is_nan(0xff));
            },
            NanEncoding::Outer => {
                assert(p.spec_is_nan(0xff));
            },
            _ => {
                let mx = p.spec_max_finite_magnitude();
                assert(mx == (p.spec_max_exponent_field() << p.mantissa_bits)
                    | p.spec_mantissa_mask());
                assert(p.spec_magnitude(mx) != 0);
                assert(p.spec_negate(mx) == mx ^ 0x80u8);
            },
        }
    }
}

/// Returns the next representable value above the byte's value.
pub fn next_up_bits<F: Format>(bits: u8) -> (r: u8)
    ensures
        r == F::spec_layout().spec_next_up(bits),
        ({
            let l = F::spec_layout();
            bits & l.spec_storage_mask() == bits && !l.spec_is_nan(bits) && (l.sign
                == SignMode::Signed ==> bits != l.spec_max_finite_bits(false) && !(
            l.spec_is_infinity(bits) && !l.spec_is_negative(bits))) && (l.sign
                == SignMode::Unsigned ==> bits != 0xfe) ==> {
                &&& !l.spec_is_nan(r)
                &&& l.spec_value(bits).lt(l.spec_value(r))
                &&& forall|v: u8|
                    !l.spec_is_nan(v) && l.spec_value(bits).lt(#[trigger] l.spec_value(v))
                        ==> l.spec_value(r).le(l.spec_value(v))
            }
        }),
{
    proof {
        F::lemma_layout_wf();
        lemma_sign_bit_facts(F::spec_layout());
        lemma_top_byte(F::spec_layout());
        let l = F::spec_layout();
        if bits & l.spec_storage_mask() == bits && !l.spec_is_nan(bits) && (l.sign
            == SignMode::Signed ==> bits != l.spec_max_finite_bits(false) && !(l.spec_is_infinity(
        bits) && !l.spec_is_negative(bits))) && (l.sign == SignMode::Unsigned ==> bits != 0xfe) {
            crate::laws::lemma_next_up_is_successor(l, bits);
        }
    }
    let p = F::layout();
    let c = bits & p.storage_mask();
    let class = classify_bits::<F>(c);
    if class.is_nan {
        return c;
    }
    if class.is_infinite {
        return if is_negative_bits::<F>(c) {
            max_finite_bits::<F>(true)
        } else {
            c
        };
    }
    if class.is_zero {
        return 1;
    }
    match p.sign {
        SignMode::Unsigned => {
            return if c == max_finite_bits::<F>(false) {
                infinity_bits::<F>(false)
            } else {
                c + 1
            };
        },
        SignMode::Signed => {},
    }
    if is_negative_bits::<F>(c) {
        if magnitude_bits::<F>(c) == 1 {
            neg_zero_bits::<F>()
        } else {
            c - 1
        }
    } else if c == max_finite_bits::<F>(false) {
        infinity_bits::<F>(false)
    } else {
        c + 1
    }
}

/// Returns the next representable value below the byte's value.
pub fn next_down_bits<F: Format>(bits: u8) -> (r: u8)
    ensures
        r == F::spec_layout().spec_next_down(bits),
        ({
            let l = F::spec_layout();
            bits & l.spec_storage_mask() == bits && !l.spec_is_nan(bits) && (l.sign
                == SignMode::Signed ==> bits != l.spec_max_finite_bits(true) && !(
            l.spec_is_infinity(bits) && l.spec_is_negative(bits))) && (l.sign
                == SignMode::Unsigned ==> bits != 0) ==> {
                &&& !l.spec_is_nan(r)
                &&& l.spec_value(r).lt(l.spec_value(bits))
                &&& forall|v: u8|
                    !l.spec_is_nan(v) && (#[trigger] l.spec_value(v)).lt(l.spec_value(bits))
                        ==> l.spec_value(v).le(l.spec_value(r))
            }
        }),
{
    proof {
        F::lemma_layout_wf();
        lemma_sign_bit_facts(F::spec_layout());
        lemma_top_byte(F::spec_layout());
        let l = F::spec_layout();
        if bits & l.spec_storage_mask() == bits && !l.spec_is_nan(bits) && (l.sign
            == SignMode::Signed ==> bits != l.spec_max_finite_bits(true) && !(l.spec_is_infinity(
        bits) && l.spec_is_negative(bits))) && (l.sign == SignMode::Unsigned ==> bits != 0) {
            crate::laws::lemma_next_down_is_predecessor(l, bits);
        }
    }
    let p = F::layout();
    let raw = bits;
    let c = bits & p.storage_mask();
    proof {
        let s = p.storage_bits;
        assert(s < 8 ==> raw & ((1u8 << s) - 1) as u8 <= ((1u8 << s) - 1) as u8) by (bit_vector);
    }
    let class = classify_bits::<F>(c);
    if class.is_nan {
        return c;
    }
    if class.is_infinite {
        return if is_negative_bits::<F>(c) {
            c
        } else {
            max_finite_bits::<F>(false)
        };
    }
    if class.is_zero {
        return match p.sign {
            SignMode::Signed => negate_bits::<F>(1),
            SignMode::Unsigned => infinity_bits::<F>(true),
        };
    }
    match p.sign {
        SignMode::Unsigned => {
            return if c == 0 {
                infinity_bits::<F>(true)
            } else {
                c - 1
            };
        },
        SignMode::Signed => {},
    }
    if is_negative_bits::<F>(c) {
        if c == max_finite_bits::<F>(true) {
            infinity_bits::<F>(true)
        } else {
            c + 1
        }
    } else if magnitude_bits::<F>(c) == 1 {
        0
    } else {
        let sb = p.sign_bit();
        assert(c < sb ==> c % sb == c) by (bit_vector);
        c - 1
    }
}


// ---------------------------------------------------------------------------
// Total order.
// ---------------------------------------------------------------------------

impl Layout {
    /// The byte's storage bits moved to the top of the byte, so that the sign bit is bit 7.
    pub open spec fn spec_widened(self, b: u8) -> u8 {
        if self.storage_bits < 8 {
            ((b & self.spec_storage_mask()) << (8 - self.storage_bits) as u8) as u8
        } else {
            b
        }
    }
}

impl Layout {
    /// The key of the total order: with the sign bit on top, negative patterns are ordered
    /// by their complement and positive ones are placed above all of them.
    pub open spec fn spec_total_key(self, b: u8) -> i16 {
        let w = self.spec_widened(b);
        if w >= 0x80 {
            (!w) as i16
        } else {
            (w | 0x80u8) as i16
        }
    }
}

/// Returns the key whose integer order is the total order over the format's patterns.
pub fn total_key<F: Format>(bits: u8) -> (r: i16)
    ensures
        r == F::spec_layout().spec_total_key(bits),
{
    proof {
        F::lemma_layout_wf();
    }
    let p = F::layout();
    let widened = if p.storage_bits < 8 {
        (bits & p.storage_mask()) << (8 - p.storage_bits)
    } else {
        bits
    };
    let signed = widened as i8;
    assert((widened as i8) < 0 <==> widened >= 0x80) by (bit_vector);
    if signed < 0 {
        (!widened) as i16
    } else {
        (widened | 0x80) as i16
    }
}

} // verus!
