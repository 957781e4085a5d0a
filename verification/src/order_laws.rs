//! Properties of equality, the order of values, the total order and the selections
//! `min`, `max` and `clamp`.
use vstd::prelude::*;
use crate::format::{Layout, NanEncoding, SignMode, ZeroMode};
use crate::value::ExtValue;

verus! {

/// Two values are `==` exactly when neither is NaN and their values are the same, for
/// patterns within the storage bits: the two zeros are equal, and any other value is
/// equal only to its own pattern.
pub proof fn lemma_eq_is_value_equality(p: Layout, a: u8, b: u8)
    requires
        p.wf(),
        a & p.spec_storage_mask() == a,
        b & p.spec_storage_mask() == b,
    ensures
        p.spec_eq(a, b) == (!p.spec_is_nan(a) && !p.spec_is_nan(b) && p.spec_value(a)
            == p.spec_value(b)),
        p.spec_eq(a, b) == (p.value_order(a, b) == Some(core::cmp::Ordering::Equal)),
{
    if p.spec_is_nan(a) || p.spec_is_nan(b) {
        return;
    }
    crate::value::lemma_value_order(p, a, b);
    if p.sign == SignMode::Signed {
        crate::laws::lemma_canonical_split(p, a);
        crate::laws::lemma_canonical_split(p, b);
    }
}

/// A smaller value has a smaller key in the total order, in every signed format, for
/// patterns within the storage bits.
pub proof fn lemma_total_key_orders_values(p: Layout, a: u8, b: u8)
    requires
        p.wf(),
        p.sign == SignMode::Signed,
        a & p.spec_storage_mask() == a,
        b & p.spec_storage_mask() == b,
        !p.spec_is_nan(a),
        !p.spec_is_nan(b),
        p.spec_value(a).lt(p.spec_value(b)),
    ensures
        p.spec_total_key(a) < p.spec_total_key(b),
{
    crate::value::lemma_value_order(p, a, b);
    crate::laws::lemma_canonical_split(p, a);
    crate::laws::lemma_canonical_split(p, b);
    crate::bits::lemma_sign_bit_facts(p);
    crate::bitfacts::lemma_total_key_bits(a, b, p.storage_bits, p.spec_storage_mask());
}

/// The total order tells apart any two patterns within the storage bits.
pub proof fn lemma_total_key_injective(p: Layout, a: u8, b: u8)
    requires
        p.wf(),
        a & p.spec_storage_mask() == a,
        b & p.spec_storage_mask() == b,
        a != b,
    ensures
        p.spec_total_key(a) != p.spec_total_key(b),
{
    crate::bitfacts::lemma_total_key_bits(a, b, p.storage_bits, p.spec_storage_mask());
}

/// `min` and `max` return one of their arguments; a NaN is passed over when the other is
/// a number, and of two NaNs the first is returned; of two numbers, `min` is at or below
/// both and `max` at or above both, and of two equal values both return the second.
pub proof fn lemma_min_max(p: Layout, a: u8, b: u8)
    requires
        p.wf(),
    ensures
        p.spec_min(a, b) == a || p.spec_min(a, b) == b,
        p.spec_max(a, b) == a || p.spec_max(a, b) == b,
        !p.spec_is_nan(a) || !p.spec_is_nan(b) ==> !p.spec_is_nan(p.spec_min(a, b))
            && !p.spec_is_nan(p.spec_max(a, b)),
        !p.spec_is_nan(a) && !p.spec_is_nan(b) ==> {
            &&& p.spec_value(p.spec_min(a, b)).le(p.spec_value(a))
            &&& p.spec_value(p.spec_min(a, b)).le(p.spec_value(b))
            &&& p.spec_value(a).le(p.spec_value(p.spec_max(a, b)))
            &&& p.spec_value(b).le(p.spec_value(p.spec_max(a, b)))
        },
        p.spec_is_nan(a) && p.spec_is_nan(b) ==> p.spec_min(a, b) == a && p.spec_max(a, b) == a,
        p.spec_is_nan(a) && !p.spec_is_nan(b) ==> p.spec_min(a, b) == b && p.spec_max(a, b) == b,
        !p.spec_is_nan(a) && p.spec_is_nan(b) ==> p.spec_min(a, b) == a && p.spec_max(a, b) == a,
        !p.spec_is_nan(a) && !p.spec_is_nan(b) && p.spec_value(a) == p.spec_value(b)
            ==> p.spec_min(a, b) == b && p.spec_max(a, b) == b,
{
    lemma_ext_total(p.spec_value(a), p.spec_value(b));
}

/// The order of the extended number line is total and transitive.
proof fn lemma_ext_total(x: ExtValue, y: ExtValue)
    ensures
        x.lt(y) || x == y || y.lt(x),
        !(x.lt(y) && y.lt(x)),
        !x.lt(x),
{
}

proof fn lemma_ext_transitive(x: ExtValue, y: ExtValue, z: ExtValue)
    ensures
        x.le(y) && y.le(z) ==> x.le(z),
        x.lt(y) && y.le(z) ==> x.lt(z),
        x.le(y) && y.lt(z) ==> x.lt(z),
{
}

/// `clamp` keeps a number within its bounds, and leaves one already within them as it
/// is; a number above the upper bound gives the upper bound, and one below the lower
/// bound gives the lower bound. So the value of the result is `max(lo, min(a, hi))`.
pub proof fn lemma_clamp_within(p: Layout, a: u8, lo: u8, hi: u8)
    requires
        p.wf(),
        !p.spec_is_nan(lo),
        !p.spec_is_nan(hi),
        p.spec_value(lo).le(p.spec_value(hi)),
        !p.spec_is_nan(a),
    ensures
        !p.spec_is_nan(p.spec_clamp(a, lo, hi)),
        p.spec_value(lo).le(p.spec_value(p.spec_clamp(a, lo, hi))),
        p.spec_value(p.spec_clamp(a, lo, hi)).le(p.spec_value(hi)),
        p.spec_value(lo).le(p.spec_value(a)) && p.spec_value(a).le(p.spec_value(hi)) ==> p.spec_clamp(
            a,
            lo,
            hi,
        ) == a,
        p.spec_value(hi).lt(p.spec_value(a)) ==> p.spec_clamp(a, lo, hi) == hi,
        p.spec_value(a).lt(p.spec_value(lo)) ==> p.spec_clamp(a, lo, hi) == lo,
{
    let va = p.spec_value(a);
    let vl = p.spec_value(lo);
    let vh = p.spec_value(hi);
    lemma_ext_total(va, vl);
    lemma_ext_total(va, vh);
    lemma_ext_total(vl, vh);
    lemma_ext_transitive(va, vl, vh);
    lemma_ext_transitive(vl, vh, va);
    lemma_ext_transitive(vl, va, vh);
}

/// The canonical NaN of a format with NaN is a NaN, with either sign; so are the results
/// of the invalid operations `0 / 0` and `x % 0`.
pub proof fn lemma_nan_bits_is_nan(p: Layout, negative: bool)
    requires
        p.wf(),
        p.spec_has_nan(),
    ensures
        p.spec_is_nan(p.spec_nan_bits(negative)),
        p.spec_is_nan(p.spec_zero_over_zero()),
        p.spec_is_nan(p.spec_remainder_by_zero()),
{
    lemma_nan_bits_one_sign(p, negative);
    lemma_nan_bits_one_sign(p, true);
    lemma_nan_bits_one_sign(p, false);
}

proof fn lemma_nan_bits_one_sign(p: Layout, negative: bool)
    requires
        p.wf(),
        p.spec_has_nan(),
    ensures
        p.spec_is_nan(p.spec_nan_bits(negative)),
{
    if p.zero == ZeroMode::Absent || (p.nan is Single) {
        return;
    }
    lemma_positive_nan_below_sign(p);
}

/// The positive NaN of a format whose NaN carries a sign lies below the sign bit, and is
/// a NaN with either sign.
pub(crate) proof fn lemma_positive_nan_below_sign(p: Layout)
    requires
        p.wf(),
        p.nan == NanEncoding::Ieee || p.nan == NanEncoding::Outer,
    ensures
        p.spec_positive_nan() < p.spec_sign_bit(),
        p.spec_is_nan(p.spec_nan_bits(false)),
        p.spec_is_nan(p.spec_nan_bits(true)),
{
    crate::bits::lemma_sign_bit_facts(p);
    let e = p.exponent_bits;
    let m = p.mantissa_bits;
    let sb = p.spec_sign_bit();
    let k = (p.storage_bits - 1) as u8;
    assert(sb == 1u8 << k);
    assert(k == e + m);
    let em = p.spec_exponent_mask();
    let me = p.spec_max_exponent_field();
    let mask = p.spec_mantissa_mask();
    let pos = p.spec_positive_nan();
    assert(1 <= m <= 4 && 2 <= e && e + m <= 7 && em == ((((1u16 << e) - 1) as u16) << m) as u8
        && me == ((1u16 << e) - 1) as u8 && mask == ((1u8 << m) - 1) as u8 && sb == 1u8 << (e
        + m) && (pos == em | (1u8 << (m - 1) as u8) || pos == em | mask) ==> {
        &&& pos < sb
        &&& pos % sb == pos
        &&& (pos ^ sb) % sb == pos
        &&& pos >> m == me
        &&& pos & mask != 0
        &&& (pos == em | mask ==> pos & mask == mask)
    }) by (bit_vector);
}

} // verus!
