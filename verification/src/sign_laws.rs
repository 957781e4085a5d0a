//! Properties of negation, absolute value and `copysign`.
use vstd::prelude::*;
use crate::format::{Layout, NanEncoding, SignMode, ZeroMode};
use crate::value::{pow2, ExtValue};

verus! {

/// The sign bit and the storage mask of a signed layout, in the shape the bit facts use.
proof fn lemma_sign_layout(p: Layout)
    requires
        p.wf(),
        p.sign == SignMode::Signed,
    ensures
        p.storage_bits - 1 <= 7,
        p.storage_bits == 8 ==> p.spec_sign_bit() == 0x80,
        2 <= p.spec_sign_bit() <= 0x80,
        p.spec_sign_bit() == 1u8 << (p.storage_bits - 1) as u8,
        p.spec_storage_mask() == (if (p.storage_bits - 1) as u8 == 7 {
            0xffu8
        } else {
            ((1u8 << ((p.storage_bits - 1) as u8 + 1)) - 1) as u8
        }),
{
    crate::bits::lemma_sign_bit_facts(p);
}

/// Negating twice gives back the same pattern, in every signed format.
pub proof fn lemma_neg_involution(p: Layout, a: u8)
    requires
        p.wf(),
        p.sign == SignMode::Signed,
    ensures
        p.spec_neg(p.spec_neg(a)) == a,
{
    lemma_sign_layout(p);
    let sb = p.spec_sign_bit();
    let k = (p.storage_bits - 1) as u8;
    crate::bitfacts::lemma_flip_sign(a, sb, k, p.spec_storage_mask());
    if (p.nan is Single) && p.spec_is_nan(a) {
        return;
    }
    if p.zero == ZeroMode::Unsigned && p.spec_magnitude(a) == 0 {
        // The only other pattern with a zero magnitude is the NaN.
        assert(sb == 0x80);
        crate::bitfacts::lemma_byte_facts(a, 0, 0);
        assert(a == 0);
        return;
    }
    let n = a ^ sb;
    crate::bitfacts::lemma_flip_sign(n, sb, k, p.spec_storage_mask());
    assert(p.spec_neg(a) == n);
    if p.nan is Single {
        assert(p.zero == ZeroMode::Unsigned);
        assert(n != 0x80u8);
    }
}

/// Negation flips the sign of the value and never makes a NaN, for any pattern within
/// the storage bits of a signed format that is not NaN.
pub proof fn lemma_neg_value(p: Layout, a: u8)
    requires
        p.wf(),
        p.sign == SignMode::Signed,
        a & p.spec_storage_mask() == a,
        !p.spec_is_nan(a),
    ensures
        !p.spec_is_nan(p.spec_neg(a)),
        p.spec_value(p.spec_neg(a)) == p.spec_value(a).neg(),
{
    lemma_sign_layout(p);
    let sb = p.spec_sign_bit();
    let k = (p.storage_bits - 1) as u8;
    crate::bitfacts::lemma_flip_sign(a, sb, k, p.spec_storage_mask());
    if p.zero == ZeroMode::Unsigned && p.spec_magnitude(a) == 0 {
        assert(sb == 0x80);
        assert(a == 0);
        crate::bitfacts::lemma_byte_facts(0, 0, 0);
        assert(p.spec_neg(a) == 0);
        crate::value::lemma_magnitude_value_zero(p, 0);
        return;
    }
    let n = a ^ sb;
    assert(p.spec_neg(a) == n);
    assert(p.spec_magnitude(n) == p.spec_magnitude(a));
    if p.nan is Single {
        assert(p.zero == ZeroMode::Unsigned);
        assert(n != 0x80u8);
    }
}

/// `abs` of a number gives a pattern that is not negative, is not NaN, and whose value is
/// the number's distance from zero.
pub proof fn lemma_abs_value(p: Layout, a: u8)
    requires
        p.wf(),
        !p.spec_is_nan(a),
    ensures
        !p.spec_is_nan(p.spec_abs_value(a)),
        !p.spec_is_negative(p.spec_abs_value(a)),
        p.spec_value(p.spec_abs_value(a)) == p.spec_value(a).abs(),
{
    if p.sign == SignMode::Unsigned {
        return;
    }
    lemma_sign_layout(p);
    let sb = p.spec_sign_bit();
    let k = (p.storage_bits - 1) as u8;
    let m = p.spec_magnitude(a);
    crate::bitfacts::lemma_flip_sign(a, sb, k, p.spec_storage_mask());
    crate::bitfacts::lemma_sign_and_magnitude(m, sb, k);
    assert(p.spec_abs_value(a) == m);
    assert(p.spec_magnitude(m) == m);
    if p.nan is Single {
        crate::bits::lemma_sign_bit_facts(p);
        assert(m != 0x80u8);
    }
}

/// The absolute value of a negated pattern is the absolute value of the pattern, in every
/// signed format.
pub proof fn lemma_abs_of_neg(p: Layout, a: u8)
    requires
        p.wf(),
        p.sign == SignMode::Signed,
    ensures
        p.spec_abs_value(p.spec_neg(a)) == p.spec_abs_value(a),
{
    lemma_sign_layout(p);
    let sb = p.spec_sign_bit();
    let k = (p.storage_bits - 1) as u8;
    crate::bitfacts::lemma_flip_sign(a, sb, k, p.spec_storage_mask());
    if (p.nan is Single) && p.spec_is_nan(a) {
        return;
    }
    if p.zero == ZeroMode::Unsigned && p.spec_magnitude(a) == 0 {
        assert(sb == 0x80);
        crate::bitfacts::lemma_byte_facts(a, 0, 0);
        assert(a == 0);
        return;
    }
    let n = a ^ sb;
    assert(p.spec_neg(a) == n);
    if p.nan is Single {
        assert(p.zero == ZeroMode::Unsigned);
        assert(n != 0x80u8);
        assert(a != 0x80u8);
    }
}

/// `copysign` keeps the magnitude of its first argument and takes the sign of its second,
/// in every signed format, unless the first is a single-pattern NaN.
pub proof fn lemma_copysign(p: Layout, a: u8, s: u8)
    requires
        p.wf(),
        p.sign == SignMode::Signed,
        !((p.nan is Single) && p.spec_is_nan(a)),
    ensures
        p.spec_magnitude(p.spec_copysign(a, s)) == p.spec_magnitude(a),
        p.spec_is_negative(p.spec_copysign(a, s)) == p.spec_is_negative(s),
{
    lemma_sign_layout(p);
    let sb = p.spec_sign_bit();
    let k = (p.storage_bits - 1) as u8;
    let m = p.spec_magnitude(a);
    crate::bitfacts::lemma_flip_sign(a, sb, k, p.spec_storage_mask());
    crate::bitfacts::lemma_sign_and_magnitude(m, sb, k);
    assert(m | sb == m ^ sb) by (bit_vector)
        requires
            k <= 7,
            sb == 1u8 << k,
            m < sb,
    ;
}

/// Stepping up is the mirror of stepping down: in a format with two zeros, the step up
/// from a pattern within the storage bits is the negation of the step down from its
/// negation, for every pattern, zeros, infinities and NaNs included.
pub proof fn lemma_next_up_mirrors_next_down(p: Layout, b: u8)
    requires
        p.wf(),
        p.sign == SignMode::Signed,
        p.zero == ZeroMode::Signed,
        b & p.spec_storage_mask() == b,
    ensures
        p.spec_next_up(b) == p.spec_negate(p.spec_next_down(p.spec_negate(b))),
{
    lemma_sign_layout(p);
    crate::convert::lemma_max_finite_facts(p);
    let sb = p.spec_sign_bit();
    let k = (p.storage_bits - 1) as u8;
    let mask = p.spec_storage_mask();
    let mx = p.spec_max_finite_magnitude();
    let n = b ^ sb;
    crate::bitfacts::lemma_flip_sign(b, sb, k, mask);
    crate::bitfacts::lemma_flip_sign(n, sb, k, mask);
    assert(p.spec_negate(b) == n);
    assert(p.spec_canonical(b) == b);
    assert(p.spec_canonical(n) == n);
    let m = p.spec_magnitude(b);
    crate::bitfacts::lemma_sign_and_magnitude(m, sb, k);
    crate::bitfacts::lemma_sign_and_magnitude(mx, sb, k);
    crate::bitfacts::lemma_flip_sign(1, sb, k, mask);
    crate::bitfacts::lemma_flip_sign(0, sb, k, mask);
    crate::bitfacts::lemma_sign_and_magnitude(1, sb, k);
    crate::bitfacts::lemma_sign_and_magnitude(0, sb, k);
    crate::laws::lemma_canonical_split(p, b);
    let class = p.spec_classify(b);
    if class.is_nan || class.is_infinite || class.is_zero {
        if class.is_infinite {
            crate::sign_laws::lemma_neg_involution(p, p.spec_max_finite_bits(false));
        }
        return;
    }
    crate::convert::lemma_finite_magnitude_bound(p, b);
    if !p.spec_is_negative(b) {
        if b == mx {
            // The largest value steps to infinity (or what stands in its place), the most
            // negative one to its negation.
            let i = p.spec_infinity_bits(false);
            crate::bitfacts::lemma_flip_sign(i, sb, k, mask);
            if p.nan == crate::format::NanEncoding::Outer {
                crate::bitfacts::lemma_flip_sign(p.spec_positive_nan(), sb, k, mask);
            }
            crate::bitfacts::lemma_flip_sign(p.spec_exponent_mask(), sb, k, mask);
            crate::bitfacts::lemma_flip_sign(mx, sb, k, mask);
        } else {
            crate::bitfacts::lemma_sign_and_magnitude((m + 1) as u8, sb, k);
        }
    } else if m != 1 {
        crate::bitfacts::lemma_sign_and_magnitude((m - 1) as u8, sb, k);
    }
}

/// The value of one is the format's unit `2^(bias + M)` of least steps, and its pattern is
/// a number that is neither negative nor infinite, in every format.
pub proof fn lemma_one_value(p: Layout)
    requires
        p.wf(),
    ensures
        !p.spec_is_nan(p.spec_one_bits()),
        !p.spec_is_negative(p.spec_one_bits()),
        p.spec_value(p.spec_one_bits()) == ExtValue::Finite(p.spec_value_scale() as int),
        p.spec_value_scale() > 0,
{
    let one = p.spec_one_bits();
    let m = p.mantissa_bits;
    let b = p.exponent_bias;
    vstd::arithmetic::power2::lemma_pow2_pos((b + m) as nat);
    if p.sign == SignMode::Unsigned {
        crate::bitfacts::lemma_byte_facts(127, 0, 0);
        assert(one == 127);
        assert(p.spec_magnitude(one) == 127);
        assert(p.spec_magnitude_value(127) == pow2(127));
        return;
    }
    crate::ops::lemma_one_is_finite(p);
    crate::convert::lemma_magnitude_of_negate(p, one);
    let mask = p.spec_mantissa_mask();
    assert(one >> m == b as u8);
    assert(one & mask == 0);
    assert(p.spec_magnitude(one) == one);
    vstd::arithmetic::power2::lemma_pow2_adds(m as nat, b as nat);
    assert(p.spec_magnitude_value(one) == (pow2(m as nat) + 0) * pow2(b as nat));
}

/// `signum` of a number other than zero is one with the number's sign: the result is not
/// NaN, it is negative exactly when the number is, and its value is `1` or `-1`, for any
/// pattern within the storage bits of every format.
pub proof fn lemma_signum_is_unit(p: Layout, a: u8)
    requires
        p.wf(),
        a & p.spec_storage_mask() == a,
        !p.spec_is_nan(a),
        !p.spec_classify(a).is_zero,
    ensures
        !p.spec_is_nan(p.spec_signum(a)),
        p.spec_is_negative(p.spec_signum(a)) == p.spec_is_negative(a),
        p.spec_value(p.spec_signum(a)) == (if p.spec_is_negative(a) {
            ExtValue::Finite(-(p.spec_value_scale() as int))
        } else {
            ExtValue::Finite(p.spec_value_scale() as int)
        }),
{
    lemma_one_value(p);
    let one = p.spec_one_bits();
    if p.spec_is_negative(a) {
        assert(p.sign == SignMode::Signed);
        crate::ops::lemma_one_is_finite(p);
        lemma_sign_layout(p);
        let sb = p.spec_sign_bit();
        let k = (p.storage_bits - 1) as u8;
        crate::bitfacts::lemma_flip_sign(one, sb, k, p.spec_storage_mask());
        lemma_neg_value(p, one);
        assert(p.spec_neg(one) == p.spec_negate(one));
        let n = p.spec_negate(one);
        assert(p.spec_value(n) == ExtValue::Finite(-(p.spec_value_scale() as int)));
        assert(!p.spec_is_infinity(n));
        assert(p.spec_is_negative(n));
    }
}

/// `signum` leaves a NaN and a zero as they are.
pub proof fn lemma_signum_of_nan_or_zero(p: Layout, a: u8)
    requires
        p.wf(),
        p.spec_is_nan(a) || p.spec_value(a) == ExtValue::Finite(0),
    ensures
        p.spec_signum(a) == a,
{
    if !p.spec_is_nan(a) && !p.spec_is_infinity(a) {
        if p.zero == ZeroMode::Absent {
            vstd::arithmetic::power2::lemma_pow2_pos((p.spec_magnitude(a) >> p.mantissa_bits) as nat);
        } else {
            crate::value::lemma_magnitude_value_zero(p, p.spec_magnitude(a));
        }
    }
}

} // verus!
