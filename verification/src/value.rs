//! The numeric value of a byte, as an exact integer multiple of the format's least step,
//! and the order that it puts on the format's patterns.
use vstd::prelude::*;
use crate::format::{Layout, NanEncoding, Overflow, SignMode, ZeroMode};

verus! {

/// Two to the `e`.
pub open spec fn pow2(e: nat) -> nat {
    vstd::arithmetic::power2::pow2(e)
}

/// A value on the extended number line. NaN has no place on it.
#[derive(PartialEq, Eq, Structural)]
pub enum ExtValue {
    NegInf,
    Finite(int),
    PosInf,
}

impl ExtValue {
    /// The strict order of the extended number line.
    pub open spec fn lt(self, other: ExtValue) -> bool {
        match (self, other) {
            (ExtValue::NegInf, ExtValue::NegInf) => false,
            (ExtValue::NegInf, _) => true,
            (ExtValue::Finite(a), ExtValue::Finite(b)) => a < b,
            (ExtValue::Finite(_), ExtValue::PosInf) => true,
            _ => false,
        }
    }

    pub open spec fn le(self, other: ExtValue) -> bool {
        self == other || self.lt(other)
    }

    /// The value with its sign flipped.
    pub open spec fn neg(self) -> ExtValue {
        match self {
            ExtValue::NegInf => ExtValue::PosInf,
            ExtValue::Finite(v) => ExtValue::Finite(-v),
            ExtValue::PosInf => ExtValue::NegInf,
        }
    }

    /// The distance from zero.
    pub open spec fn abs(self) -> ExtValue {
        match self {
            ExtValue::Finite(v) => ExtValue::Finite(if v < 0 { -v } else { v }),
            _ => ExtValue::PosInf,
        }
    }
}

impl Layout {
    /// The value of a magnitude, as a multiple of `2^-(bias + mantissa_bits)`: a normal
    /// value `(2^M + m) * 2^e`, a subnormal one `2 * m` (its exponent taken as 1), and in
    /// a format without zero, where every value is a power of two, `2^e`.
    pub open spec fn spec_magnitude_value(self, mag: u8) -> nat {
        let e = (mag >> self.mantissa_bits) as nat;
        let m = (mag & self.spec_mantissa_mask()) as nat;
        if self.zero == ZeroMode::Absent {
            pow2(e)
        } else if e == 0 {
            2 * m
        } else {
            (pow2(self.mantissa_bits as nat) + m) * pow2(e)
        }
    }

    /// The value of a byte that is not NaN: an infinity, or its magnitude's value with
    /// the byte's sign.
    pub open spec fn spec_value(self, b: u8) -> ExtValue {
        if self.spec_is_infinity(b) {
            if self.spec_is_negative(b) {
                ExtValue::NegInf
            } else {
                ExtValue::PosInf
            }
        } else {
            let v = self.spec_magnitude_value(self.spec_magnitude(b)) as int;
            ExtValue::Finite(if self.spec_is_negative(b) { -v } else { v })
        }
    }

    /// The sign and magnitude read as one signed integer.
    pub open spec fn spec_signed_magnitude(self, b: u8) -> int {
        if self.spec_is_negative(b) {
            -(self.spec_magnitude(b) as int)
        } else {
            self.spec_magnitude(b) as int
        }
    }
}

/// The magnitude splits into its exponent and mantissa fields.
pub proof fn lemma_magnitude_split(p: Layout, mag: u8)
    requires
        p.wf(),
    ensures
        mag as int == (mag >> p.mantissa_bits) as int * pow2(p.mantissa_bits as nat) + (mag
            & p.spec_mantissa_mask()) as int,
        ((mag & p.spec_mantissa_mask()) as int) < pow2(p.mantissa_bits as nat),
        pow2(p.mantissa_bits as nat) == (1u8 << p.mantissa_bits) as nat,
{
    let m = p.mantissa_bits;
    vstd::bits::lemma_u8_pow2_no_overflow(m as nat);
    vstd::bits::lemma_u8_shl_is_mul(1, m);
    vstd::arithmetic::power2::lemma_pow2_pos(m as nat);
    let q = mag >> m;
    let r = mag & ((1u8 << m) - 1) as u8;
    let t = 1u8 << m;
    assert(m <= 4 ==> (q as u16) * (t as u16) + (r as u16) == mag as u16 && r < t && t >= 1)
        by (bit_vector)
        requires
            q == mag >> m,
            r == mag & ((1u8 << m) - 1) as u8,
            t == 1u8 << m,
    ;
}

/// A bigger magnitude has a bigger value.
pub proof fn lemma_magnitude_value_strictly_increases(p: Layout, a: u8, b: u8)
    requires
        p.wf(),
        a < b,
    ensures
        p.spec_magnitude_value(a) < p.spec_magnitude_value(b),
{
    lemma_magnitude_split(p, a);
    lemma_magnitude_split(p, b);
    let pm = pow2(p.mantissa_bits as nat) as int;
    let ea = (a >> p.mantissa_bits) as int;
    let eb = (b >> p.mantissa_bits) as int;
    let ma = (a & p.spec_mantissa_mask()) as int;
    let mb = (b & p.spec_mantissa_mask()) as int;
    assert(ea <= eb) by (nonlinear_arith)
        requires
            a as int == ea * pm + ma,
            b as int == eb * pm + mb,
            0 <= ma < pm,
            0 <= mb < pm,
            a < b,
            ea >= 0,
            eb >= 0,
    ;
    if p.zero == ZeroMode::Absent {
        assert(p.mantissa_bits == 0);
        vstd::arithmetic::power2::lemma2_to64();
        assert(pm == 1);
        assert(ea < eb);
        vstd::arithmetic::power2::lemma_pow2_strictly_increases(ea as nat, eb as nat);
    } else if ea == eb {
        assert(ma < mb);
        if ea != 0 {
            let pe = pow2(ea as nat) as int;
            vstd::arithmetic::power2::lemma_pow2_pos(ea as nat);
            assert((pm + ma) * pe < (pm + mb) * pe) by (nonlinear_arith)
                requires
                    ma < mb,
                    pe > 0,
            ;
        }
    } else {
        // ea < eb: the value of `a` stays below 2^M * 2^(ea + 1) <= 2^M * 2^eb <= value of b.
        let pb = pow2(eb as nat) as int;
        vstd::arithmetic::power2::lemma_pow2_pos(eb as nat);
        assert(eb >= 1);
        assert(p.spec_magnitude_value(b) as int == (pm + mb) * pb);
        assert((pm + mb) * pb >= pm * pb) by (nonlinear_arith)
            requires
                mb >= 0,
                pb > 0,
        ;
        if ea == 0 {
            vstd::arithmetic::power2::lemma2_to64();
            if eb > 1 {
                vstd::arithmetic::power2::lemma_pow2_strictly_increases(1, eb as nat);
            }
            assert(pb >= 2);
            assert(2 * ma < pm * pb) by (nonlinear_arith)
                requires
                    0 <= ma < pm,
                    pb >= 2,
            ;
        } else {
            let pa = pow2(ea as nat) as int;
            let pa1 = pow2((ea + 1) as nat) as int;
            vstd::arithmetic::power2::lemma_pow2_pos(ea as nat);
            vstd::arithmetic::power2::lemma_pow2_unfold((ea + 1) as nat);
            if ea + 1 < eb {
                vstd::arithmetic::power2::lemma_pow2_strictly_increases((ea + 1) as nat, eb as nat);
            }
            assert(pa1 <= pb);
            assert(pa1 == 2 * pa);
            assert((pm + ma) * pa < pm * pb) by (nonlinear_arith)
                requires
                    ma < pm,
                    pa > 0,
                    2 * pa <= pb,
                    pm > 0,
            ;
        }
    }
}


/// Only zero has the value zero.
pub proof fn lemma_magnitude_value_zero(p: Layout, mag: u8)
    requires
        p.wf(),
        p.zero != ZeroMode::Absent,
    ensures
        (p.spec_magnitude_value(mag) == 0) == (mag == 0),
{
    let k = p.mantissa_bits;
    let mask = p.spec_mantissa_mask();
    crate::bitfacts::lemma_byte_facts(0, k, mask);
    if mag > 0 {
        lemma_magnitude_value_strictly_increases(p, 0, mag);
    }
}

/// An infinity has the magnitude of the top exponent with a zero mantissa, and every
/// other pattern that is not NaN has a smaller magnitude.
pub proof fn lemma_infinity_magnitude_is_top(p: Layout, a: u8, b: u8)
    requires
        p.wf(),
        p.spec_is_infinity(a),
        !p.spec_is_infinity(b),
        !p.spec_is_nan(b),
    ensures
        p.spec_magnitude(b) < p.spec_magnitude(a),
{
    crate::bits::lemma_fields(p, a);
    crate::bits::lemma_fields(p, b);
    let ma = p.spec_magnitude(a);
    let mb = p.spec_magnitude(b);
    lemma_magnitude_split(p, ma);
    lemma_magnitude_split(p, mb);
    let pm = pow2(p.mantissa_bits as nat) as int;
    let ea = (ma >> p.mantissa_bits) as int;
    let eb = (mb >> p.mantissa_bits) as int;
    let fa = (ma & p.spec_mantissa_mask()) as int;
    let fb = (mb & p.spec_mantissa_mask()) as int;
    assert(p.nan == NanEncoding::Ieee);
    assert(fa == 0);
    assert(eb < ea);
    assert(eb * pm + fb < ea * pm) by (nonlinear_arith)
        requires
            eb < ea,
            0 <= fb < pm,
    ;
}

/// An infinity has a nonzero magnitude.
pub proof fn lemma_infinity_magnitude_positive(p: Layout, a: u8)
    requires
        p.wf(),
        p.spec_is_infinity(a),
    ensures
        p.spec_magnitude(a) > 0,
{
    crate::bits::lemma_fields(p, a);
    let ma = p.spec_magnitude(a);
    lemma_magnitude_split(p, ma);
    vstd::arithmetic::power2::lemma_pow2_pos(p.mantissa_bits as nat);
    let e = p.exponent_bits;
    crate::bitfacts::lemma_shift_masks(e);
    let pm = pow2(p.mantissa_bits as nat) as int;
    let ea = (ma >> p.mantissa_bits) as int;
    assert(ea >= 1);
    assert(ea * pm >= 1) by (nonlinear_arith)
        requires
            ea >= 1,
            pm >= 1,
    ;
}

/// On the patterns that are not NaN, the order of values is the order of sign and
/// magnitude read as one signed integer.
pub proof fn lemma_value_order(p: Layout, a: u8, b: u8)
    requires
        p.wf(),
        !p.spec_is_nan(a),
        !p.spec_is_nan(b),
    ensures
        p.spec_value(a).lt(p.spec_value(b)) == (p.spec_signed_magnitude(a)
            < p.spec_signed_magnitude(b)),
        (p.spec_value(a) == p.spec_value(b)) == (p.spec_signed_magnitude(a)
            == p.spec_signed_magnitude(b)),
{
    let ma = p.spec_magnitude(a);
    let mb = p.spec_magnitude(b);
    let va = p.spec_magnitude_value(ma) as int;
    let vb = p.spec_magnitude_value(mb) as int;
    if ma < mb {
        lemma_magnitude_value_strictly_increases(p, ma, mb);
    } else if mb < ma {
        lemma_magnitude_value_strictly_increases(p, mb, ma);
    }
    if p.zero != ZeroMode::Absent {
        lemma_magnitude_value_zero(p, ma);
        lemma_magnitude_value_zero(p, mb);
    }
    if p.spec_is_infinity(a) && !p.spec_is_infinity(b) {
        lemma_infinity_magnitude_is_top(p, a, b);
    }
    if p.spec_is_infinity(b) && !p.spec_is_infinity(a) {
        lemma_infinity_magnitude_is_top(p, b, a);
    }
    if p.spec_is_infinity(a) && p.spec_is_infinity(b) {
        crate::bits::lemma_fields(p, a);
        crate::bits::lemma_fields(p, b);
        assert(ma == mb);
        lemma_infinity_magnitude_positive(p, a);
    }
    let na = p.spec_is_negative(a);
    let nb = p.spec_is_negative(b);
    let sa = p.spec_signed_magnitude(a);
    let sb = p.spec_signed_magnitude(b);
    if !p.spec_is_infinity(a) && !p.spec_is_infinity(b) {
        assert(p.spec_value(a) == ExtValue::Finite(if na { -va } else { va }));
        assert(p.spec_value(b) == ExtValue::Finite(if nb { -vb } else { vb }));
        if na || nb {
            assert(p.sign == SignMode::Signed);
            assert(p.zero != ZeroMode::Absent);
        }
        if na && !nb {
            assert((-va < vb) == (sa < sb));
            assert((-va == vb) == (sa == sb));
        }
        if !na && nb {
            assert((va < -vb) == (sa < sb));
            assert((va == -vb) == (sa == sb));
        }
    }
}

} // verus!
