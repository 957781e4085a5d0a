//! Properties that hold across the operations of the library.
use vstd::prelude::*;
use crate::format::{Layout, NanEncoding, SignMode, ZeroMode};

verus! {

/// A pattern within the storage bits is its magnitude, with the sign bit added when it is
/// negative.
pub proof fn lemma_canonical_split(p: Layout, b: u8)
    requires
        p.wf(),
        p.sign == SignMode::Signed,
        b & p.spec_storage_mask() == b,
    ensures
        p.spec_magnitude(b) < p.spec_sign_bit(),
        p.spec_is_negative(b) ==> b == p.spec_sign_bit() + p.spec_magnitude(b),
        !p.spec_is_negative(b) ==> b == p.spec_magnitude(b),
{
    crate::bits::lemma_sign_bit_facts(p);
    let sb = p.spec_sign_bit();
    let k = (p.storage_bits - 1) as u8;
    let s = p.storage_bits;
    assert(sb == 1u8 << k);
    assert(sb == 1u8 << k && k + 1 == s && s <= 8 && b & (if s == 8 {
        0xffu8
    } else {
        ((1u8 << s) - 1) as u8
    }) == b ==> (b >= sb ==> b == sb + b % sb) && (b < sb ==> b == b % sb) && b % sb < sb)
        by (bit_vector);
}

/// A magnitude up to the largest finite one is neither NaN nor infinite, with either
/// sign, except the negative zero of a format whose zero is unsigned.
pub proof fn lemma_finite_below_max(p: Layout, b: u8)
    requires
        p.wf(),
        p.sign == SignMode::Signed,
        p.spec_magnitude(b) <= p.spec_max_finite_magnitude(),
        !(p.zero == ZeroMode::Unsigned && p.spec_is_negative(b) && p.spec_magnitude(b) == 0),
    ensures
        !p.spec_is_nan(b),
        !p.spec_is_infinity(b),
{
    crate::bits::lemma_fields(p, b);
    crate::bits::lemma_sign_bit_facts(p);
    let k = (p.storage_bits - 1) as u8;
    assert(p.spec_sign_bit() == 1u8 << k);
    crate::bitfacts::lemma_magnitude_fields_below(p.spec_magnitude(b), p.exponent_bits, p.mantissa_bits);
    crate::bitfacts::lemma_shift_masks(p.exponent_bits);
    if p.nan == NanEncoding::Single(0x80) {
        if b == 0x80 {
            assert(p.spec_is_negative(b));
            crate::bitfacts::lemma_byte_facts(b, 0, 0);
        }
    }
}

/// The sign, magnitude and class of a pattern built from a sign and a magnitude.
pub proof fn lemma_signed_pattern(p: Layout, m: u8, negative: bool)
    requires
        p.wf(),
        p.sign == SignMode::Signed,
        m < p.spec_sign_bit(),
    ensures
        ({
            let b = if negative { (p.spec_sign_bit() + m) as u8 } else { m };
            &&& p.spec_magnitude(b) == m
            &&& p.spec_is_negative(b) == negative
            &&& b & p.spec_storage_mask() == b
            &&& negative ==> b == m ^ p.spec_sign_bit()
            &&& p.spec_signed_magnitude(b) == if negative { -(m as int) } else { m as int }
        }),
{
    crate::bits::lemma_sign_bit_facts(p);
    let sb = p.spec_sign_bit();
    let k = (p.storage_bits - 1) as u8;
    let s = p.storage_bits;
    assert(sb == 1u8 << k);
    crate::bitfacts::lemma_sign_and_magnitude(m, sb, k);
    assert(sb == 1u8 << k && k + 1 == s && s <= 8 && m < sb ==> (m & (if s == 8 {
        0xffu8
    } else {
        ((1u8 << s) - 1) as u8
    })) == m && ((sb + m) as u8 & (if s == 8 {
        0xffu8
    } else {
        ((1u8 << s) - 1) as u8
    })) == (sb + m) as u8) by (bit_vector);
}

/// Stepping up moves the signed magnitude up by one and never lands on NaN, from any
/// pattern that is not NaN and not the top of the format.
pub proof fn lemma_next_up_steps_by_one(p: Layout, b: u8)
    requires
        p.wf(),
        b & p.spec_storage_mask() == b,
        !p.spec_is_nan(b),
        p.sign == SignMode::Signed ==> b != p.spec_max_finite_bits(false) && !(p.spec_is_infinity(
            b,
        ) && !p.spec_is_negative(b)),
        p.sign == SignMode::Unsigned ==> b != 0xfe,
    ensures
        !p.spec_is_nan(p.spec_next_up(b)),
        p.spec_signed_magnitude(p.spec_next_up(b)) == p.spec_signed_magnitude(b) + 1,
        p.spec_next_up(b) & p.spec_storage_mask() == p.spec_next_up(b),
{
    let r = p.spec_next_up(b);
    assert(p.spec_canonical(b) == b);
    if p.sign == SignMode::Unsigned {
        assert(p.spec_magnitude(b) == b);
        assert(r == b + 1);
        crate::bitfacts::lemma_byte_facts(r, 0, 0);
        return;
    }
    crate::bits::lemma_sign_bit_facts(p);
    crate::convert::lemma_max_finite_facts(p);
    lemma_canonical_split(p, b);
    let sb = p.spec_sign_bit();
    let mx = p.spec_max_finite_magnitude();
    let mag = p.spec_magnitude(b);
    let neg = p.spec_is_negative(b);
    let class = p.spec_classify(b);
    if class.is_infinite {
        assert(neg);
        // Infinity sits one step above the largest finite magnitude.
        crate::bits::lemma_fields(p, b);
        crate::value::lemma_magnitude_split(p, mag);
        crate::value::lemma_magnitude_split(p, mx);
        assert(p.nan == NanEncoding::Ieee);
        let pm = crate::value::pow2(p.mantissa_bits as nat) as int;
        let me = p.spec_max_exponent_field() as int;
        assert(mag as int == me * pm);
        assert(mx as int == (me - 1) * pm + (pm - 1));
        assert((me - 1) * pm + pm == me * pm) by (nonlinear_arith);
        assert(mag as int == mx as int + 1);
        lemma_signed_pattern(p, mx, true);
        lemma_finite_below_max(p, (sb + mx) as u8);
    } else if class.is_zero {
        lemma_signed_pattern(p, 1, false);
        lemma_finite_below_max(p, 1);
    } else {
        crate::convert::lemma_finite_magnitude_bound(p, b);
        if !neg {
            assert(mag < mx);
            lemma_signed_pattern(p, (mag + 1) as u8, false);
            lemma_finite_below_max(p, (mag + 1) as u8);
        } else if mag == 1 {
            if p.zero == ZeroMode::Signed {
                lemma_signed_pattern(p, 0, true);
                lemma_finite_below_max(p, sb);
            } else {
                lemma_signed_pattern(p, 0, false);
                lemma_finite_below_max(p, 0);
            }
        } else {
            lemma_signed_pattern(p, (mag - 1) as u8, true);
            lemma_finite_below_max(p, (sb + mag - 1) as u8);
        }
    }
}


/// Stepping down moves the signed magnitude down by one and never lands on NaN, from any
/// pattern that is not NaN and not the bottom of the format.
pub proof fn lemma_next_down_steps_by_one(p: Layout, b: u8)
    requires
        p.wf(),
        b & p.spec_storage_mask() == b,
        !p.spec_is_nan(b),
        p.sign == SignMode::Signed ==> b != p.spec_max_finite_bits(true) && !(p.spec_is_infinity(
            b,
        ) && p.spec_is_negative(b)),
        p.sign == SignMode::Unsigned ==> b != 0,
    ensures
        !p.spec_is_nan(p.spec_next_down(b)),
        p.spec_signed_magnitude(p.spec_next_down(b)) == p.spec_signed_magnitude(b) - 1,
        p.spec_next_down(b) & p.spec_storage_mask() == p.spec_next_down(b),
{
    let r = p.spec_next_down(b);
    assert(p.spec_canonical(b) == b);
    if p.sign == SignMode::Unsigned {
        assert(p.spec_magnitude(b) == b);
        assert(r == b - 1);
        crate::bitfacts::lemma_byte_facts(r, 0, 0);
        return;
    }
    crate::bits::lemma_sign_bit_facts(p);
    crate::convert::lemma_max_finite_facts(p);
    lemma_canonical_split(p, b);
    let sb = p.spec_sign_bit();
    let mx = p.spec_max_finite_magnitude();
    let mag = p.spec_magnitude(b);
    let neg = p.spec_is_negative(b);
    let class = p.spec_classify(b);
    if class.is_infinite {
        assert(!neg);
        crate::bits::lemma_fields(p, b);
        crate::value::lemma_magnitude_split(p, mag);
        crate::value::lemma_magnitude_split(p, mx);
        let pm = crate::value::pow2(p.mantissa_bits as nat) as int;
        let me = p.spec_max_exponent_field() as int;
        assert(mag as int == me * pm);
        assert(mx as int == (me - 1) * pm + (pm - 1));
        assert((me - 1) * pm + pm == me * pm) by (nonlinear_arith);
        lemma_signed_pattern(p, mx, false);
        lemma_finite_below_max(p, mx);
    } else if class.is_zero {
        lemma_signed_pattern(p, 1, true);
        lemma_finite_below_max(p, (sb + 1) as u8);
    } else {
        crate::convert::lemma_finite_magnitude_bound(p, b);
        if neg {
            lemma_signed_pattern(p, mx, true);
            lemma_signed_pattern(p, mx, false);
            assert(p.spec_max_finite_bits(true) == p.spec_negate(mx));
            assert(p.spec_negate(mx) == mx ^ sb);
            assert(mag < mx);
            lemma_signed_pattern(p, (mag + 1) as u8, true);
            lemma_finite_below_max(p, (sb + mag + 1) as u8);
        } else if mag == 1 {
            lemma_signed_pattern(p, 0, false);
            lemma_finite_below_max(p, 0);
        } else {
            lemma_signed_pattern(p, (mag - 1) as u8, false);
            lemma_finite_below_max(p, (mag - 1) as u8);
        }
    }
}

/// `next_up` gives the least value above: its result is not NaN, lies above the
/// starting value, and every value above the starting one is at or above it.
pub proof fn lemma_next_up_is_successor(p: Layout, b: u8)
    requires
        p.wf(),
        b & p.spec_storage_mask() == b,
        !p.spec_is_nan(b),
        p.sign == SignMode::Signed ==> b != p.spec_max_finite_bits(false) && !(p.spec_is_infinity(
            b,
        ) && !p.spec_is_negative(b)),
        p.sign == SignMode::Unsigned ==> b != 0xfe,
    ensures
        !p.spec_is_nan(p.spec_next_up(b)),
        p.spec_value(b).lt(p.spec_value(p.spec_next_up(b))),
        forall|c: u8|
            !p.spec_is_nan(c) && p.spec_value(b).lt(#[trigger] p.spec_value(c)) ==> p.spec_value(
                p.spec_next_up(b),
            ).le(p.spec_value(c)),
{
    let r = p.spec_next_up(b);
    lemma_next_up_steps_by_one(p, b);
    crate::value::lemma_value_order(p, b, r);
    assert forall|c: u8|
        !p.spec_is_nan(c) && p.spec_value(b).lt(#[trigger] p.spec_value(c)) implies p.spec_value(
            r,
        ).le(p.spec_value(c)) by {
        crate::value::lemma_value_order(p, b, c);
        crate::value::lemma_value_order(p, r, c);
    }
}

/// `next_down` gives the greatest value below: its result is not NaN, lies below the
/// starting value, and every value below the starting one is at or below it.
pub proof fn lemma_next_down_is_predecessor(p: Layout, b: u8)
    requires
        p.wf(),
        b & p.spec_storage_mask() == b,
        !p.spec_is_nan(b),
        p.sign == SignMode::Signed ==> b != p.spec_max_finite_bits(true) && !(p.spec_is_infinity(
            b,
        ) && p.spec_is_negative(b)),
        p.sign == SignMode::Unsigned ==> b != 0,
    ensures
        !p.spec_is_nan(p.spec_next_down(b)),
        p.spec_value(p.spec_next_down(b)).lt(p.spec_value(b)),
        forall|c: u8|
            !p.spec_is_nan(c) && (#[trigger] p.spec_value(c)).lt(p.spec_value(b)) ==> p.spec_value(
                c,
            ).le(p.spec_value(p.spec_next_down(b))),
{
    let r = p.spec_next_down(b);
    lemma_next_down_steps_by_one(p, b);
    crate::value::lemma_value_order(p, r, b);
    assert forall|c: u8|
        !p.spec_is_nan(c) && (#[trigger] p.spec_value(c)).lt(p.spec_value(b)) implies p.spec_value(
            c,
        ).le(p.spec_value(r)) by {
        crate::value::lemma_value_order(p, c, b);
        crate::value::lemma_value_order(p, c, r);
    }
}


/// Epsilon is the step from one to the next larger value: the three are finite and
/// positive, and the value above one is one plus epsilon.
pub proof fn lemma_epsilon_is_step_above_one(p: Layout)
    requires
        p.wf(),
    ensures
        ({
            let one = p.spec_one_bits();
            let up = p.spec_next_up(one);
            let eps = p.spec_epsilon_bits();
            &&& !p.spec_is_nan(one) && !p.spec_is_infinity(one) && !p.spec_is_negative(one)
            &&& !p.spec_is_nan(up) && !p.spec_is_infinity(up) && !p.spec_is_negative(up)
            &&& !p.spec_is_nan(eps) && !p.spec_is_infinity(eps) && !p.spec_is_negative(eps)
            &&& p.spec_magnitude_value(p.spec_magnitude(up)) == p.spec_magnitude_value(
                p.spec_magnitude(one),
            ) + p.spec_magnitude_value(p.spec_magnitude(eps))
        }),
{
    let one = p.spec_one_bits();
    let eps = p.spec_epsilon_bits();
    let b = p.exponent_bias as u8;
    let m = p.mantissa_bits;
    let e = p.exponent_bits;
    vstd::arithmetic::power2::lemma2_to64();
    if p.zero == ZeroMode::Absent {
        assert(m == 0);
        crate::bitfacts::lemma_byte_facts(b, 0, 0);
        assert(one == 127);
        assert(p.spec_magnitude(one) == one);
        assert(p.spec_magnitude(128) == 128);
        assert(p.spec_next_up(one) == 128) by {
            assert(p.spec_canonical(one) == one);
        }
        crate::bitfacts::lemma_byte_facts(128, 0, 0);
        assert(p.spec_magnitude_value(127) == crate::value::pow2(127));
        assert(p.spec_magnitude_value(128) == crate::value::pow2(128));
        vstd::arithmetic::power2::lemma_pow2_unfold(128);
        return;
    }
    crate::bits::lemma_sign_bit_facts(p);
    crate::ops::lemma_one_is_finite(p);
    crate::convert::lemma_max_finite_facts(p);
    crate::bitfacts::lemma_shift_masks(e);
    crate::bitfacts::lemma_shift_masks(m);
    let k = (p.storage_bits - 1) as u8;
    assert(1 <= m <= 4 && 2 <= e && e + m <= 7 && 1 <= b && b < ((1u16 << e) - 1) as u8 ==> {
        &&& ((b << m) + 1) as u8 >> m == b
        &&& ((b << m) + 1) as u8 & ((1u8 << m) - 1) as u8 == 1
        &&& (b << m) as int + 1 < (1u8 << (e + m)) as int
        &&& (b > m ==> ((b - m) as u8) << m < (1u8 << (e + m)) && (((b - m) as u8) << m) >> m
            == (b - m) as u8 && (((b - m) as u8) << m) & ((1u8 << m) - 1) as u8 == 0)
        &&& (b <= m ==> (1u8 << (b - 1) as u8) < (1u8 << m) && (1u8 << (b - 1) as u8) >> m == 0
            && (1u8 << (b - 1) as u8) & ((1u8 << m) - 1) as u8 == (1u8 << (b - 1) as u8))
    }) by (bit_vector);
    let up = (one + 1) as u8;
    let mx = p.spec_max_finite_magnitude();
    let sb = p.spec_sign_bit();
    assert(sb == 1u8 << k);
    assert(k == e + m);
    crate::value::lemma_magnitude_split(p, mx);
    crate::value::lemma_magnitude_split(p, one);
    crate::value::lemma_magnitude_split(p, up);
    crate::value::lemma_magnitude_split(p, eps);
    let pm = crate::value::pow2(m as nat) as int;
    let emx = (mx >> m) as int;
    assert(one as int == b * pm) by (nonlinear_arith)
        requires
            one as int == (one >> m) as int * pm + (one & p.spec_mantissa_mask()) as int,
            (one >> m) == b,
            (one & p.spec_mantissa_mask()) == 0,
    ;
    assert(b as int <= emx);
    assert(one != mx) by {
        if one == mx {
            assert((mx >> m) == b);
        }
    }
    crate::laws::lemma_signed_pattern(p, one, false);
    assert(p.spec_canonical(one) == one);
    assert(p.spec_magnitude(one) == one);
    assert(b * pm >= 1) by (nonlinear_arith)
        requires
            b >= 1,
            pm >= 1,
    ;
    assert(!p.spec_classify(one).is_zero);
    crate::convert::lemma_finite_magnitude_bound(p, one);
    assert(p.spec_next_up(one) == up);
    assert((up >> m) == b && (up & p.spec_mantissa_mask()) == 1);
    assert(up < sb);
    lemma_signed_pattern(p, up, false);
    assert(up as int <= mx as int);
    lemma_finite_below_max(p, up);
    if b > m {
        assert(eps == ((b - m) as u8) << m);
        assert((eps >> m) == (b - m) as u8 && (eps & p.spec_mantissa_mask()) == 0);
        assert(eps as int == (b - m) * pm) by (nonlinear_arith)
            requires
                eps as int == (eps >> m) as int * pm + (eps & p.spec_mantissa_mask()) as int,
                (eps >> m) as int == b - m,
                (eps & p.spec_mantissa_mask()) == 0,
        ;
        assert((b - m) * pm <= emx * pm) by (nonlinear_arith)
            requires
                b - m <= emx,
                pm >= 1,
        ;
    } else {
        assert(eps == (1u8 << (b - 1) as u8));
        assert((eps >> m) == 0 && (eps & p.spec_mantissa_mask()) == eps);
        assert(pm <= emx * pm) by (nonlinear_arith)
            requires
                1 <= emx,
                pm >= 1,
        ;
    }
    assert(eps < sb);
    lemma_signed_pattern(p, eps, false);
    assert(eps as int <= mx as int);
    lemma_finite_below_max(p, eps);
    let pb = crate::value::pow2(b as nat) as int;
    assert(p.spec_magnitude_value(one) == pm * pb);
    assert(p.spec_magnitude_value(up) == (pm + 1) * pb);
    assert((pm + 1) * pb == pm * pb + pb) by (nonlinear_arith);
    if b > m {
        vstd::arithmetic::power2::lemma_pow2_adds(m as nat, (b - m) as nat);
        assert(p.spec_magnitude_value(eps) == (pm + 0) * crate::value::pow2((b - m) as nat));
    } else {
        vstd::bits::lemma_u8_pow2_no_overflow((b - 1) as nat);
        vstd::bits::lemma_u8_shl_is_mul(1, (b - 1) as u8);
        vstd::arithmetic::power2::lemma_pow2_unfold(b as nat);
        assert(p.spec_magnitude_value(eps) == 2 * crate::value::pow2((b - 1) as nat));
    }
}

/// Two patterns within the storage bits with the same sign and magnitude read as one signed
/// integer are the same pattern, where a zero also agrees in sign.
proof fn lemma_same_signed_magnitude(p: Layout, x: u8, y: u8)
    requires
        p.wf(),
        x & p.spec_storage_mask() == x,
        y & p.spec_storage_mask() == y,
        p.spec_signed_magnitude(x) == p.spec_signed_magnitude(y),
        p.spec_signed_magnitude(x) == 0 ==> p.spec_is_negative(x) == p.spec_is_negative(y),
    ensures
        x == y,
{
    if p.sign == SignMode::Signed {
        lemma_canonical_split(p, x);
        lemma_canonical_split(p, y);
    }
}

/// The patterns of infinity in a format that has one: the exponent mask, and the same with
/// the sign bit set, both within the storage bits.
proof fn lemma_infinity_patterns(p: Layout)
    requires
        p.wf(),
        p.overflow == crate::format::Overflow::Infinity,
    ensures
        ({
            let em = p.spec_exponent_mask();
            let sb = p.spec_sign_bit();
            &&& p.spec_infinity_bits(false) == em
            &&& p.spec_infinity_bits(true) == em ^ sb
            &&& em < sb
            &&& em & p.spec_storage_mask() == em
            &&& (em ^ sb) & p.spec_storage_mask() == em ^ sb
            &&& p.spec_is_infinity(em) && !p.spec_is_nan(em) && !p.spec_is_negative(em)
            &&& p.spec_is_infinity(em ^ sb) && !p.spec_is_nan(em ^ sb) && p.spec_is_negative(
                em ^ sb,
            )
        }),
{
    crate::bits::lemma_sign_bit_facts(p);
    let e = p.exponent_bits;
    let m = p.mantissa_bits;
    let sb = p.spec_sign_bit();
    let k = (p.storage_bits - 1) as u8;
    assert(sb == 1u8 << k);
    assert(k == e + m);
    let em = p.spec_exponent_mask();
    let me = p.spec_max_exponent_field();
    let mask = p.spec_mantissa_mask();
    assert(1 <= m <= 4 && 2 <= e && e + m <= 7 && em == ((((1u16 << e) - 1) as u16) << m) as u8
        && me == ((1u16 << e) - 1) as u8 && mask == ((1u8 << m) - 1) as u8 && sb == 1u8 << (e
        + m) ==> em < sb && em % sb == em && em >> m == me && em & mask == 0) by (bit_vector);
    crate::bitfacts::lemma_flip_sign(em, sb, k, p.spec_storage_mask());
    assert(p.spec_negate(em) == em ^ sb);
}

/// Stepping up undoes stepping down: from any pattern within the storage bits that is not
/// NaN, where stepping down moved to a pattern that is not NaN, stepping up comes back.
/// Positive zero is left out where the format has two zeros: below it lies the negative of
/// the least positive value, and above that, negative zero.
pub proof fn lemma_next_up_undoes_next_down(p: Layout, b: u8)
    requires
        p.wf(),
        b & p.spec_storage_mask() == b,
        !p.spec_is_nan(b),
        !(p.zero == ZeroMode::Signed && b == 0),
        p.spec_next_down(b) != b,
        !p.spec_is_nan(p.spec_next_down(b)),
    ensures
        p.spec_next_up(p.spec_next_down(b)) == b,
{
    let d = p.spec_next_down(b);
    assert(p.spec_canonical(b) == b);
    if p.sign == SignMode::Unsigned {
        crate::bitfacts::lemma_byte_facts(b, 0, 0);
        if b == 0 {
            assert(d == p.spec_nan_bits(true));
            assert(false);
        }
        lemma_next_down_steps_by_one(p, b);
        lemma_next_up_steps_by_one(p, d);
        lemma_same_signed_magnitude(p, p.spec_next_up(d), b);
        return;
    }
    crate::bits::lemma_sign_bit_facts(p);
    crate::convert::lemma_max_finite_facts(p);
    lemma_canonical_split(p, b);
    let sb = p.spec_sign_bit();
    let mx = p.spec_max_finite_magnitude();
    lemma_signed_pattern(p, mx, false);
    lemma_signed_pattern(p, mx, true);
    lemma_finite_below_max(p, mx);
    let inf = p.spec_is_infinity(b);
    if inf && !p.spec_is_negative(b) {
        // From positive infinity down to the largest value, and back.
        lemma_infinity_patterns(p);
        crate::bits::lemma_fields(p, b);
        let e = p.exponent_bits;
        let m = p.mantissa_bits;
        let me = p.spec_max_exponent_field();
        let em = p.spec_exponent_mask();
        assert(2 <= e && e + m <= 7 && me == ((1u16 << e) - 1) as u8 && em == ((((1u16 << e)
            - 1) as u16) << m) as u8 ==> (((me as u16) << m) as u8 | 0u8) == em) by (bit_vector);
        assert(b == em);
        assert(d == mx);
        assert(mx != 0);
        return;
    }
    if inf {
        assert(d == b);
        return;
    }
    if b == p.spec_max_finite_bits(true) {
        // From the most negative value down to negative infinity, and back; elsewhere the
        // step lands on NaN or stays.
        if p.overflow == crate::format::Overflow::Infinity {
            lemma_infinity_patterns(p);
        } else if p.overflow == crate::format::Overflow::Nan {
            crate::order_laws::lemma_nan_bits_is_nan(p, true);
        }
        return;
    }
    lemma_next_down_steps_by_one(p, b);
    crate::convert::lemma_finite_magnitude_bound(p, b);
    if d == p.spec_max_finite_bits(false) {
        assert(p.spec_signed_magnitude(d) == mx);
        assert(false);
    }
    if p.spec_is_infinity(d) && !p.spec_is_negative(d) {
        crate::value::lemma_value_order(p, d, b);
        assert(false);
    }
    lemma_next_up_steps_by_one(p, d);
    let r = p.spec_next_up(d);
    if p.spec_signed_magnitude(b) == 0 {
        // `b` is negative zero (or the single zero), and `d` the negative least value.
        lemma_canonical_split(p, d);
        assert(p.spec_magnitude(d) == 1);
        lemma_finite_below_max(p, d);
        crate::bitfacts::lemma_byte_facts(sb, 0, 0);
        if p.zero == ZeroMode::Signed {
            assert(b == sb);
            assert(r == sb);
        } else {
            assert(b == 0);
            assert(r == 0);
        }
    }
    lemma_same_signed_magnitude(p, r, b);
}

} // verus!
