//! The formats of the library, each a marker type with its layout.
use vstd::prelude::*;
use crate::micro::MicroFloat;
use crate::format::{Format, Layout, NanEncoding, Overflow, SignMode, ZeroMode};

verus! {

/// Signed 8-bit E3M4, bias 3, IEEE-like NaN and infinity.
#[derive(Clone, Copy, Debug)]
pub struct Float8E3M4Format;

impl Format for Float8E3M4Format {
    open spec fn spec_layout() -> Layout {
        Layout { storage_bits: 8, exponent_bits: 3, mantissa_bits: 4, exponent_bias: 3, sign: SignMode::Signed, zero: ZeroMode::Signed, nan: NanEncoding::Ieee, overflow: Overflow::Infinity }
    }

    fn layout() -> (l: Layout) {
        Layout { storage_bits: 8, exponent_bits: 3, mantissa_bits: 4, exponent_bias: 3, sign: SignMode::Signed, zero: ZeroMode::Signed, nan: NanEncoding::Ieee, overflow: Overflow::Infinity }
    }

    proof fn lemma_layout_wf() {
        crate::bitfacts::lemma_shift_masks(3);
    }

    open spec fn spec_name() -> Seq<char> {
        seq!['f', '8', 'e', '3', 'm', '4']
    }

    fn name() -> (r: &'static str) {
        proof {
            reveal_strlit("f8e3m4");
        }
        "f8e3m4"
    }
}

/// Signed 8-bit E4M3, bias 7, IEEE-like NaN and infinity.
#[derive(Clone, Copy, Debug)]
pub struct Float8E4M3Format;

impl Format for Float8E4M3Format {
    open spec fn spec_layout() -> Layout {
        Layout { storage_bits: 8, exponent_bits: 4, mantissa_bits: 3, exponent_bias: 7, sign: SignMode::Signed, zero: ZeroMode::Signed, nan: NanEncoding::Ieee, overflow: Overflow::Infinity }
    }

    fn layout() -> (l: Layout) {
        Layout { storage_bits: 8, exponent_bits: 4, mantissa_bits: 3, exponent_bias: 7, sign: SignMode::Signed, zero: ZeroMode::Signed, nan: NanEncoding::Ieee, overflow: Overflow::Infinity }
    }

    proof fn lemma_layout_wf() {
        crate::bitfacts::lemma_shift_masks(4);
    }

    open spec fn spec_name() -> Seq<char> {
        seq!['f', '8', 'e', '4', 'm', '3']
    }

    fn name() -> (r: &'static str) {
        proof {
            reveal_strlit("f8e4m3");
        }
        "f8e4m3"
    }
}

/// Signed 8-bit E4M3, bias 11, finite-only, unsigned zero, a single NaN.
#[derive(Clone, Copy, Debug)]
pub struct Float8E4M3B11FnuzFormat;

impl Format for Float8E4M3B11FnuzFormat {
    open spec fn spec_layout() -> Layout {
        Layout { storage_bits: 8, exponent_bits: 4, mantissa_bits: 3, exponent_bias: 11, sign: SignMode::Signed, zero: ZeroMode::Unsigned, nan: NanEncoding::Single(0x80), overflow: Overflow::Nan }
    }

    fn layout() -> (l: Layout) {
        Layout { storage_bits: 8, exponent_bits: 4, mantissa_bits: 3, exponent_bias: 11, sign: SignMode::Signed, zero: ZeroMode::Unsigned, nan: NanEncoding::Single(0x80), overflow: Overflow::Nan }
    }

    proof fn lemma_layout_wf() {
        crate::bitfacts::lemma_shift_masks(4);
    }

    open spec fn spec_name() -> Seq<char> {
        seq!['f', '8', 'e', '4', 'm', '3', 'b', '1', '1', 'f', 'n', 'u', 'z']
    }

    fn name() -> (r: &'static str) {
        proof {
            reveal_strlit("f8e4m3b11fnuz");
        }
        "f8e4m3b11fnuz"
    }
}

/// Signed 8-bit E4M3, bias 7, finite-only, NaN at both outer patterns.
#[derive(Clone, Copy, Debug)]
pub struct Float8E4M3FnFormat;

impl Format for Float8E4M3FnFormat {
    open spec fn spec_layout() -> Layout {
        Layout { storage_bits: 8, exponent_bits: 4, mantissa_bits: 3, exponent_bias: 7, sign: SignMode::Signed, zero: ZeroMode::Signed, nan: NanEncoding::Outer, overflow: Overflow::Nan }
    }

    fn layout() -> (l: Layout) {
        Layout { storage_bits: 8, exponent_bits: 4, mantissa_bits: 3, exponent_bias: 7, sign: SignMode::Signed, zero: ZeroMode::Signed, nan: NanEncoding::Outer, overflow: Overflow::Nan }
    }

    proof fn lemma_layout_wf() {
        crate::bitfacts::lemma_shift_masks(4);
    }

    open spec fn spec_name() -> Seq<char> {
        seq!['f', '8', 'e', '4', 'm', '3', 'f', 'n']
    }

    fn name() -> (r: &'static str) {
        proof {
            reveal_strlit("f8e4m3fn");
        }
        "f8e4m3fn"
    }
}

/// Signed 8-bit E4M3, bias 8, finite-only, unsigned zero, a single NaN.
#[derive(Clone, Copy, Debug)]
pub struct Float8E4M3FnuzFormat;

impl Format for Float8E4M3FnuzFormat {
    open spec fn spec_layout() -> Layout {
        Layout { storage_bits: 8, exponent_bits: 4, mantissa_bits: 3, exponent_bias: 8, sign: SignMode::Signed, zero: ZeroMode::Unsigned, nan: NanEncoding::Single(0x80), overflow: Overflow::Nan }
    }

    fn layout() -> (l: Layout) {
        Layout { storage_bits: 8, exponent_bits: 4, mantissa_bits: 3, exponent_bias: 8, sign: SignMode::Signed, zero: ZeroMode::Unsigned, nan: NanEncoding::Single(0x80), overflow: Overflow::Nan }
    }

    proof fn lemma_layout_wf() {
        crate::bitfacts::lemma_shift_masks(4);
    }

    open spec fn spec_name() -> Seq<char> {
        seq!['f', '8', 'e', '4', 'm', '3', 'f', 'n', 'u', 'z']
    }

    fn name() -> (r: &'static str) {
        proof {
            reveal_strlit("f8e4m3fnuz");
        }
        "f8e4m3fnuz"
    }
}

/// Signed 8-bit E5M2, bias 15, IEEE-like NaN and infinity.
#[derive(Clone, Copy, Debug)]
pub struct Float8E5M2Format;

impl Format for Float8E5M2Format {
    open spec fn spec_layout() -> Layout {
        Layout { storage_bits: 8, exponent_bits: 5, mantissa_bits: 2, exponent_bias: 15, sign: SignMode::Signed, zero: ZeroMode::Signed, nan: NanEncoding::Ieee, overflow: Overflow::Infinity }
    }

    fn layout() -> (l: Layout) {
        Layout { storage_bits: 8, exponent_bits: 5, mantissa_bits: 2, exponent_bias: 15, sign: SignMode::Signed, zero: ZeroMode::Signed, nan: NanEncoding::Ieee, overflow: Overflow::Infinity }
    }

    proof fn lemma_layout_wf() {
        crate::bitfacts::lemma_shift_masks(5);
    }

    open spec fn spec_name() -> Seq<char> {
        seq!['f', '8', 'e', '5', 'm', '2']
    }

    fn name() -> (r: &'static str) {
        proof {
            reveal_strlit("f8e5m2");
        }
        "f8e5m2"
    }
}

/// Signed 8-bit E5M2, bias 16, finite-only, unsigned zero, a single NaN.
#[derive(Clone, Copy, Debug)]
pub struct Float8E5M2FnuzFormat;

impl Format for Float8E5M2FnuzFormat {
    open spec fn spec_layout() -> Layout {
        Layout { storage_bits: 8, exponent_bits: 5, mantissa_bits: 2, exponent_bias: 16, sign: SignMode::Signed, zero: ZeroMode::Unsigned, nan: NanEncoding::Single(0x80), overflow: Overflow::Nan }
    }

    fn layout() -> (l: Layout) {
        Layout { storage_bits: 8, exponent_bits: 5, mantissa_bits: 2, exponent_bias: 16, sign: SignMode::Signed, zero: ZeroMode::Unsigned, nan: NanEncoding::Single(0x80), overflow: Overflow::Nan }
    }

    proof fn lemma_layout_wf() {
        crate::bitfacts::lemma_shift_masks(5);
    }

    open spec fn spec_name() -> Seq<char> {
        seq!['f', '8', 'e', '5', 'm', '2', 'f', 'n', 'u', 'z']
    }

    fn name() -> (r: &'static str) {
        proof {
            reveal_strlit("f8e5m2fnuz");
        }
        "f8e5m2fnuz"
    }
}

/// Unsigned 8-bit E8M0 scale, bias 127, no zero, a single NaN.
#[derive(Clone, Copy, Debug)]
pub struct Float8E8M0FnuFormat;

impl Format for Float8E8M0FnuFormat {
    open spec fn spec_layout() -> Layout {
        Layout { storage_bits: 8, exponent_bits: 8, mantissa_bits: 0, exponent_bias: 127, sign: SignMode::Unsigned, zero: ZeroMode::Absent, nan: NanEncoding::Single(0xff), overflow: Overflow::Nan }
    }

    fn layout() -> (l: Layout) {
        Layout { storage_bits: 8, exponent_bits: 8, mantissa_bits: 0, exponent_bias: 127, sign: SignMode::Unsigned, zero: ZeroMode::Absent, nan: NanEncoding::Single(0xff), overflow: Overflow::Nan }
    }

    proof fn lemma_layout_wf() {
        crate::bitfacts::lemma_shift_masks(8);
    }

    open spec fn spec_name() -> Seq<char> {
        seq!['f', '8', 'e', '8', 'm', '0', 'f', 'n', 'u']
    }

    fn name() -> (r: &'static str) {
        proof {
            reveal_strlit("f8e8m0fnu");
        }
        "f8e8m0fnu"
    }
}

/// Signed 4-bit E2M1, bias 1, finite-only, saturating, stored in a byte.
#[derive(Clone, Copy, Debug)]
pub struct Float4E2M1FnFormat;

impl Format for Float4E2M1FnFormat {
    open spec fn spec_layout() -> Layout {
        Layout { storage_bits: 4, exponent_bits: 2, mantissa_bits: 1, exponent_bias: 1, sign: SignMode::Signed, zero: ZeroMode::Signed, nan: NanEncoding::Absent, overflow: Overflow::Saturate }
    }

    fn layout() -> (l: Layout) {
        Layout { storage_bits: 4, exponent_bits: 2, mantissa_bits: 1, exponent_bias: 1, sign: SignMode::Signed, zero: ZeroMode::Signed, nan: NanEncoding::Absent, overflow: Overflow::Saturate }
    }

    proof fn lemma_layout_wf() {
        crate::bitfacts::lemma_shift_masks(2);
    }

    open spec fn spec_name() -> Seq<char> {
        seq!['f', '4', 'e', '2', 'm', '1', 'f', 'n']
    }

    fn name() -> (r: &'static str) {
        proof {
            reveal_strlit("f4e2m1fn");
        }
        "f4e2m1fn"
    }
}

/// Signed 6-bit E2M3, bias 1, finite-only, saturating, stored in a byte.
#[derive(Clone, Copy, Debug)]
pub struct Float6E2M3FnFormat;

impl Format for Float6E2M3FnFormat {
    open spec fn spec_layout() -> Layout {
        Layout { storage_bits: 6, exponent_bits: 2, mantissa_bits: 3, exponent_bias: 1, sign: SignMode::Signed, zero: ZeroMode::Signed, nan: NanEncoding::Absent, overflow: Overflow::Saturate }
    }

    fn layout() -> (l: Layout) {
        Layout { storage_bits: 6, exponent_bits: 2, mantissa_bits: 3, exponent_bias: 1, sign: SignMode::Signed, zero: ZeroMode::Signed, nan: NanEncoding::Absent, overflow: Overflow::Saturate }
    }

    proof fn lemma_layout_wf() {
        crate::bitfacts::lemma_shift_masks(2);
    }

    open spec fn spec_name() -> Seq<char> {
        seq!['f', '6', 'e', '2', 'm', '3', 'f', 'n']
    }

    fn name() -> (r: &'static str) {
        proof {
            reveal_strlit("f6e2m3fn");
        }
        "f6e2m3fn"
    }
}

/// Signed 6-bit E3M2, bias 3, finite-only, saturating, stored in a byte.
#[derive(Clone, Copy, Debug)]
pub struct Float6E3M2FnFormat;

impl Format for Float6E3M2FnFormat {
    open spec fn spec_layout() -> Layout {
        Layout { storage_bits: 6, exponent_bits: 3, mantissa_bits: 2, exponent_bias: 3, sign: SignMode::Signed, zero: ZeroMode::Signed, nan: NanEncoding::Absent, overflow: Overflow::Saturate }
    }

    fn layout() -> (l: Layout) {
        Layout { storage_bits: 6, exponent_bits: 3, mantissa_bits: 2, exponent_bias: 3, sign: SignMode::Signed, zero: ZeroMode::Signed, nan: NanEncoding::Absent, overflow: Overflow::Saturate }
    }

    proof fn lemma_layout_wf() {
        crate::bitfacts::lemma_shift_masks(3);
    }

    open spec fn spec_name() -> Seq<char> {
        seq!['f', '6', 'e', '3', 'm', '2', 'f', 'n']
    }

    fn name() -> (r: &'static str) {
        proof {
            reveal_strlit("f6e3m2fn");
        }
        "f6e3m2fn"
    }
}

/// A value of the `f8e3m4` format.
#[allow(non_camel_case_types)]
pub type f8e3m4 = MicroFloat<Float8E3M4Format>;

/// A value of the `f8e4m3` format.
#[allow(non_camel_case_types)]
pub type f8e4m3 = MicroFloat<Float8E4M3Format>;

/// A value of the `f8e4m3b11fnuz` format.
#[allow(non_camel_case_types)]
pub type f8e4m3b11fnuz = MicroFloat<Float8E4M3B11FnuzFormat>;

/// A value of the `f8e4m3fn` format.
#[allow(non_camel_case_types)]
pub type f8e4m3fn = MicroFloat<Float8E4M3FnFormat>;

/// A value of the `f8e4m3fnuz` format.
#[allow(non_camel_case_types)]
pub type f8e4m3fnuz = MicroFloat<Float8E4M3FnuzFormat>;

/// A value of the `f8e5m2` format.
#[allow(non_camel_case_types)]
pub type f8e5m2 = MicroFloat<Float8E5M2Format>;

/// A value of the `f8e5m2fnuz` format.
#[allow(non_camel_case_types)]
pub type f8e5m2fnuz = MicroFloat<Float8E5M2FnuzFormat>;

/// A value of the `f8e8m0fnu` format.
#[allow(non_camel_case_types)]
pub type f8e8m0fnu = MicroFloat<Float8E8M0FnuFormat>;

/// A value of the `f4e2m1fn` format.
#[allow(non_camel_case_types)]
pub type f4e2m1fn = MicroFloat<Float4E2M1FnFormat>;

/// A value of the `f6e2m3fn` format.
#[allow(non_camel_case_types)]
pub type f6e2m3fn = MicroFloat<Float6E2M3FnFormat>;

/// A value of the `f6e3m2fn` format.
#[allow(non_camel_case_types)]
pub type f6e3m2fn = MicroFloat<Float6E3M2FnFormat>;

} // verus!
