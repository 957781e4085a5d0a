//! Properties of rounding an `f32` to a format.
use vstd::prelude::*;
use crate::convert::{
    f32_is_infinite, f32_is_nan, f32_magnitude_value, f32_sign, f32_signed_value, spec_encodes,
};
use crate::format::{Layout, NanEncoding, Overflow, SignMode, ZeroMode};
use crate::value::ExtValue;

verus! {

/// Rounding to nearest, ties to even, keeps the order of what it rounds: a larger value
/// never rounds to a smaller magnitude.
pub proof fn lemma_nearest_even_monotone(p: Layout, c1: u8, c2: u8, v1: nat, v2: nat)
    requires
        p.wf(),
        p.sign == SignMode::Signed,
        p.spec_nearest_even(c1, v1),
        p.spec_nearest_even(c2, v2),
        v1 <= v2,
    ensures
        c1 <= c2,
{
    if c2 < c1 {
        crate::convert::lemma_scaled_value_strictly_increases(p, c2, c1);
        let s1 = p.spec_scaled_value(c1) as int;
        let s2 = p.spec_scaled_value(c2) as int;
        // `c1` is no farther from `v1` than `c2` is, so `v1` lies at or above the midpoint;
        // `c2` is no farther from `v2` than `c1` is, so `v2` lies at or below it.
        assert(p.spec_distance(c1, v1) <= p.spec_distance(c2, v1));
        assert(p.spec_distance(c2, v2) <= p.spec_distance(c1, v2));
        assert(2 * v1 >= s1 + s2);
        assert(2 * v2 <= s1 + s2);
        assert(v1 == v2);
        crate::convert::lemma_nearest_even_unique(p, c1, c2, v1);
    }
}

/// The pattern that holds infinity, in a format that has one, is positive infinity.
proof fn lemma_positive_infinity_value(p: Layout)
    requires
        p.wf(),
        p.overflow == Overflow::Infinity,
    ensures
        !p.spec_is_nan(p.spec_overflow_bits(false)),
        p.spec_value(p.spec_overflow_bits(false)) == ExtValue::PosInf,
        p.spec_overflow_bits(false) < p.spec_sign_bit(),
{
    crate::bits::lemma_sign_bit_facts(p);
    let e = p.exponent_bits;
    let m = p.mantissa_bits;
    let sb = p.spec_sign_bit();
    let k = (p.storage_bits - 1) as u8;
    assert(sb == 1u8 << k);
    assert(k == e + m);
    let em = p.spec_exponent_mask();
    let me = p.spec_max_exponent_field();
    let mask = p.spec_mantissa_mask();
    assert(1 <= m <= 4 && 2 <= e && e + m <= 7 && em == ((((1u16 << e) - 1) as u16) << m) as u8
        && me == ((1u16 << e) - 1) as u8 && mask == ((1u8 << m) - 1) as u8 && sb == 1u8 << (e
        + m) ==> em < sb && em % sb == em && em >> m == me && em & mask == 0) by (bit_vector);
    assert(p.spec_infinity_bits(false) == em);
}

/// The value of a pattern that is a finite magnitude of a signed format.
proof fn lemma_magnitude_pattern_value(p: Layout, c: u8)
    requires
        p.wf(),
        p.sign == SignMode::Signed,
        c <= p.spec_max_finite_magnitude(),
    ensures
        !p.spec_is_nan(c),
        p.spec_value(c) == ExtValue::Finite(p.spec_magnitude_value(c) as int),
{
    crate::convert::lemma_max_finite_facts(p);
    crate::bits::lemma_sign_bit_facts(p);
    let k = (p.storage_bits - 1) as u8;
    crate::bitfacts::lemma_sign_and_magnitude(c, p.spec_sign_bit(), k);
    crate::laws::lemma_finite_below_max(p, c);
}

/// Rounding keeps order on the nonnegative numbers: of two `f32` values that are not NaN
/// and carry no minus sign, the larger rounds to a value at or above the one the smaller
/// rounds to, in any format with zero, wherever neither rounds to NaN.
pub proof fn lemma_encode_monotone_nonnegative(p: Layout, x: u32, y: u32, r1: u8, r2: u8)
    requires
        p.wf(),
        p.zero != ZeroMode::Absent,
        !f32_sign(x),
        !f32_sign(y),
        !f32_is_nan(x),
        !f32_is_nan(y),
        f32_magnitude_value(x) <= f32_magnitude_value(y),
        spec_encodes(p, x, r1),
        spec_encodes(p, y, r2),
        !p.spec_is_nan(r1),
        !p.spec_is_nan(r2),
    ensures
        p.spec_value(r1).le(p.spec_value(r2)),
{
    let vx = f32_magnitude_value(x);
    let vy = f32_magnitude_value(y);
    let t = p.spec_overflow_threshold();
    let mx = p.spec_max_finite_magnitude();
    crate::convert::lemma_max_finite_facts(p);
    vstd::arithmetic::power2::lemma_pow2_pos(254);
    if f32_is_infinite(x) && !f32_is_infinite(y) {
        lemma_f32_infinity_is_top(x, y);
    }
    if p.overflow == Overflow::Nan {
        crate::order_laws::lemma_nan_bits_is_nan(p, false);
    }
    if p.overflow == Overflow::Infinity {
        lemma_positive_infinity_value(p);
    }
    lemma_magnitude_pattern_value(p, mx);
    let over1 = f32_is_infinite(x) || (vx != 0 && vx >= t);
    let over2 = f32_is_infinite(y) || (vy != 0 && vy >= t);
    if over1 {
        assert(over2);
        assert(r1 == r2);
        return;
    }
    // What `r2` is worth: nothing below zero, and at least the largest finite value
    // where `y` overflows.
    if vx == 0 {
        assert(r1 == 0);
        lemma_magnitude_pattern_value(p, 0);
        crate::value::lemma_magnitude_value_zero(p, 0);
        if vy == 0 {
            assert(!f32_is_infinite(y)) by {
                if f32_is_infinite(y) {
                    assert(vy == 0x80_0000 * crate::value::pow2(254));
                }
            }
            assert(r2 == 0);
        } else if !over2 {
            let c2 = p.spec_magnitude(r2);
            assert(r2 == c2);
            lemma_magnitude_pattern_value(p, c2);
        }
        return;
    }
    let c1 = p.spec_magnitude(r1);
    assert(r1 == c1);
    lemma_magnitude_pattern_value(p, c1);
    if over2 {
        if c1 < mx {
            crate::value::lemma_magnitude_value_strictly_increases(p, c1, mx);
        }
    } else {
        let c2 = p.spec_magnitude(r2);
        assert(r2 == c2);
        lemma_magnitude_pattern_value(p, c2);
        lemma_nearest_even_monotone(p, c1, c2, vx, vy);
        if c1 < c2 {
            crate::value::lemma_magnitude_value_strictly_increases(p, c1, c2);
        }
    }
}

/// Every finite `f32` is smaller in magnitude than infinity.
proof fn lemma_f32_infinity_is_top(x: u32, y: u32)
    requires
        f32_is_infinite(x),
        !f32_is_infinite(y),
        !f32_is_nan(y),
    ensures
        f32_magnitude_value(y) < f32_magnitude_value(x),
{
    crate::convert::lemma_f32_fields(y);
    let ey = crate::convert::f32_exponent(y);
    let fy = crate::convert::f32_fraction(y);
    assert(ey < 255);
    vstd::arithmetic::power2::lemma_pow2_pos(253);
    let top = crate::value::pow2(253) as int;
    if ey == 0 {
        vstd::arithmetic::power2::lemma2_to64();
        vstd::arithmetic::power2::lemma_pow2_strictly_increases(23, 253);
        assert(0x80_0000 * 2 * top > fy) by (nonlinear_arith)
            requires
                top > 0x80_0000,
                fy < 0x80_0000,
        ;
    } else {
        let py = crate::value::pow2((ey - 1) as nat) as int;
        if ey - 1 < 253 {
            vstd::arithmetic::power2::lemma_pow2_strictly_increases((ey - 1) as nat, 253);
        }
        vstd::arithmetic::power2::lemma_pow2_pos((ey - 1) as nat);
        assert((0x80_0000 + fy) * py < 0x80_0000 * 2 * top) by (nonlinear_arith)
            requires
                py <= top,
                py > 0,
                fy < 0x80_0000,
        ;
    }
    vstd::arithmetic::power2::lemma_pow2_unfold(254);
    assert(crate::value::pow2(254) == 2 * top);
    assert(crate::convert::f32_exponent(x) == 255 && crate::convert::f32_fraction(x) == 0);
    assert(f32_magnitude_value(x) == 0x80_0000 * crate::value::pow2(254));
    let p254 = crate::value::pow2(254) as int;
    assert(0x80_0000 * p254 == 0x80_0000 * 2 * top) by (nonlinear_arith)
        requires
            p254 == 2 * top,
    ;
    if ey == 0 {
        assert(f32_magnitude_value(y) == fy);
    } else {
        assert(f32_magnitude_value(y) == (0x80_0000 + fy) * crate::value::pow2((ey - 1) as nat));
    }
}

/// What overflow gives in one direction is the negation of what it gives in the other.
proof fn lemma_overflow_bits_negate(p: Layout)
    requires
        p.wf(),
        p.sign == SignMode::Signed,
    ensures
        p.spec_overflow_bits(true) == p.spec_neg(p.spec_overflow_bits(false)),
        p.spec_overflow_bits(false) == p.spec_neg(p.spec_overflow_bits(true)),
{
    let o = p.spec_overflow_bits(false);
    crate::sign_laws::lemma_neg_involution(p, o);
    if p.overflow == Overflow::Nan {
        crate::order_laws::lemma_nan_bits_is_nan(p, false);
        crate::order_laws::lemma_nan_bits_is_nan(p, true);
    }
    if p.overflow == Overflow::Infinity {
        lemma_positive_infinity_value(p);
    }
    if p.overflow == Overflow::Saturate {
        crate::convert::lemma_max_finite_facts(p);
        lemma_magnitude_pattern_value(p, p.spec_max_finite_magnitude());
    }
}

/// Rounding is symmetric: an `f32` with its sign flipped rounds to the negation of what
/// the `f32` rounds to, in every signed format.
pub proof fn lemma_encode_negation(p: Layout, x: u32, r: u8)
    requires
        p.wf(),
        p.sign == SignMode::Signed,
        !f32_is_nan(x),
        spec_encodes(p, x, r),
    ensures
        spec_encodes(p, x ^ 0x8000_0000u32, p.spec_neg(r)),
{
    let y = x ^ 0x8000_0000u32;
    assert((y % 0x8000_0000 == x % 0x8000_0000) && (y % 0x80_0000 == x % 0x80_0000) && ((y
        >= 0x8000_0000) == !(x >= 0x8000_0000))) by (bit_vector)
        requires
            y == x ^ 0x8000_0000u32,
    ;
    assert(f32_magnitude_value(y) == f32_magnitude_value(x));
    let v = f32_magnitude_value(x);
    lemma_overflow_bits_negate(p);
    crate::bits::lemma_sign_bit_facts(p);
    crate::convert::lemma_max_finite_facts(p);
    let sb = p.spec_sign_bit();
    let k = (p.storage_bits - 1) as u8;
    crate::bitfacts::lemma_sign_and_magnitude(0, sb, k);
    if f32_is_infinite(x) || (v != 0 && v >= p.spec_overflow_threshold()) {
        return;
    }
    if v == 0 {
        crate::bitfacts::lemma_byte_facts(sb, 0, 0);
        crate::bitfacts::lemma_byte_facts(0, 0, 0);
        return;
    }
    let c = p.spec_magnitude(r);
    lemma_magnitude_pattern_value(p, c);
    crate::convert::lemma_magnitude_of_negate(p, c);
    crate::sign_laws::lemma_neg_involution(p, c);
    let n = p.spec_negate(c);
    if p.nan is Single {
        // Neither `c` nor its negation is the NaN: the only magnitude whose negation is
        // the NaN's pattern would be that of a negative zero, which this format lacks.
        assert(p.zero == ZeroMode::Unsigned);
        assert(c != 0x80u8);
        if c != 0 {
            crate::bitfacts::lemma_flip_sign(c, sb, k, p.spec_storage_mask());
            assert(n != 0x80u8);
        }
    }
    assert(p.spec_neg(c) == n);
    assert(p.spec_neg(n) == c);
}

/// A pattern below the sign bit, and its negation, lie within the storage bits.
proof fn lemma_negate_canonical(p: Layout, m: u8)
    requires
        p.wf(),
        p.sign == SignMode::Signed,
        m < p.spec_sign_bit(),
    ensures
        m & p.spec_storage_mask() == m,
        p.spec_negate(m) & p.spec_storage_mask() == p.spec_negate(m),
{
    crate::bits::lemma_sign_bit_facts(p);
    let sb = p.spec_sign_bit();
    let k = (p.storage_bits - 1) as u8;
    crate::bitfacts::lemma_flip_sign(m, sb, k, p.spec_storage_mask());
    crate::bitfacts::lemma_flip_sign(0, sb, k, p.spec_storage_mask());
}

/// Rounding never sets a bit above the format's storage bits.
pub proof fn lemma_encode_canonical(p: Layout, x: u32, r: u8)
    requires
        p.wf(),
        spec_encodes(p, x, r),
    ensures
        r & p.spec_storage_mask() == r,
{
    if p.sign == SignMode::Unsigned {
        crate::bitfacts::lemma_byte_facts(r, 0, 0);
        return;
    }
    crate::bits::lemma_sign_bit_facts(p);
    crate::convert::lemma_max_finite_facts(p);
    let sb = p.spec_sign_bit();
    crate::bitfacts::lemma_byte_facts(sb, 0, 0);
    lemma_negate_canonical(p, 0);
    lemma_negate_canonical(p, p.spec_max_finite_magnitude());
    if p.nan == NanEncoding::Ieee || p.nan == NanEncoding::Outer {
        crate::order_laws::lemma_positive_nan_below_sign(p);
        lemma_negate_canonical(p, p.spec_positive_nan());
    }
    if p.overflow == Overflow::Infinity {
        lemma_positive_infinity_value(p);
        lemma_negate_canonical(p, p.spec_exponent_mask());
    }
    if p.nan is Single {
        crate::bitfacts::lemma_byte_facts(0x80, 0, 0);
    }
    let v = f32_magnitude_value(x);
    if !f32_is_nan(x) && !f32_is_infinite(x) && v != 0 && v < p.spec_overflow_threshold() {
        lemma_negate_canonical(p, p.spec_magnitude(r));
    }
}

/// Rounding keeps order: of two `f32` values that are not NaN, the larger rounds to a
/// value at or above the one the smaller rounds to, in every format, wherever neither
/// rounds to NaN.
pub proof fn lemma_encode_monotone(p: Layout, x: u32, y: u32, r1: u8, r2: u8)
    requires
        p.wf(),
        !f32_is_nan(x),
        !f32_is_nan(y),
        f32_signed_value(x) <= f32_signed_value(y),
        spec_encodes(p, x, r1),
        spec_encodes(p, y, r2),
        !p.spec_is_nan(r1),
        !p.spec_is_nan(r2),
    ensures
        p.spec_value(r1).le(p.spec_value(r2)),
{
    let sx = f32_sign(x);
    let sy = f32_sign(y);
    if p.sign == SignMode::Unsigned {
        // The scale format: NaN for anything but a positive finite number, and patterns
        // that grow with the value.
        assert(r1 == crate::convert::spec_encode_e8m0(x, 127));
        assert(r2 == crate::convert::spec_encode_e8m0(y, 127));
        assert(r1 != 0xff && r2 != 0xff);
        lemma_encode_e8m0_monotone(x, y, 127);
        crate::value::lemma_value_order(p, r1, r2);
        return;
    }
    if !sx && !sy {
        lemma_encode_monotone_nonnegative(p, x, y, r1, r2);
        return;
    }
    lemma_encode_canonical(p, x, r1);
    lemma_encode_canonical(p, y, r2);
    crate::sign_laws::lemma_neg_value(p, r1);
    crate::sign_laws::lemma_neg_value(p, r2);
    let nx = x ^ 0x8000_0000u32;
    let ny = y ^ 0x8000_0000u32;
    lemma_encode_negation(p, x, r1);
    lemma_encode_negation(p, y, r2);
    assert((nx % 0x8000_0000 == x % 0x8000_0000) && (nx % 0x80_0000 == x % 0x80_0000) && ((nx
        >= 0x8000_0000) == !(x >= 0x8000_0000))) by (bit_vector)
        requires
            nx == x ^ 0x8000_0000u32,
    ;
    assert((ny % 0x8000_0000 == y % 0x8000_0000) && (ny % 0x80_0000 == y % 0x80_0000) && ((ny
        >= 0x8000_0000) == !(y >= 0x8000_0000))) by (bit_vector)
        requires
            ny == y ^ 0x8000_0000u32,
    ;
    assert(f32_magnitude_value(nx) == f32_magnitude_value(x));
    assert(f32_magnitude_value(ny) == f32_magnitude_value(y));
    let zero = 0u32;
    crate::convert::lemma_max_finite_facts(p);
    lemma_magnitude_pattern_value(p, 0);
    crate::value::lemma_magnitude_value_zero(p, 0);
    assert(spec_encodes(p, zero, 0u8));
    assert(f32_magnitude_value(zero) == 0);
    if sx && sy {
        lemma_encode_monotone_nonnegative(p, ny, nx, p.spec_neg(r2), p.spec_neg(r1));
    } else if sx {
        // A negative number rounds to a value at or below zero, a nonnegative one to a
        // value at or above it.
        lemma_encode_monotone_nonnegative(p, zero, nx, 0u8, p.spec_neg(r1));
        lemma_encode_monotone_nonnegative(p, zero, y, 0u8, r2);
    } else {
        // Both are zeros.
        lemma_encode_monotone_nonnegative(p, zero, x, 0u8, r1);
        lemma_encode_monotone_nonnegative(p, x, zero, r1, 0u8);
        lemma_encode_monotone_nonnegative(p, zero, ny, 0u8, p.spec_neg(r2));
        lemma_encode_monotone_nonnegative(p, ny, zero, p.spec_neg(r2), 0u8);
    }
}

/// A finite `f32` pattern is fixed by its sign and the magnitude it holds.
pub proof fn lemma_f32_pattern_unique(x: u32, y: u32)
    requires
        crate::convert::f32_exponent(x) != 255,
        crate::convert::f32_exponent(y) != 255,
        f32_sign(x) == f32_sign(y),
        f32_magnitude_value(x) == f32_magnitude_value(y),
    ensures
        x == y,
{
    crate::convert::lemma_f32_fields(x);
    crate::convert::lemma_f32_fields(y);
    let ex = crate::convert::f32_exponent(x);
    let ey = crate::convert::f32_exponent(y);
    let fx = crate::convert::f32_fraction(x);
    let fy = crate::convert::f32_fraction(y);
    if ex != ey || fx != fy {
        // Each magnitude lies in its exponent's binade: below 2^23 for exponent 0, and in
        // [2^(22+e), 2^(23+e)) otherwise, so the exponents agree and then the fractions.
        lemma_f32_binade(x);
        lemma_f32_binade(y);
        if ex == ey {
            if ex != 0 {
                let pe = crate::value::pow2((ex - 1) as nat) as int;
                vstd::arithmetic::power2::lemma_pow2_pos((ex - 1) as nat);
                assert((0x80_0000 + fx) * pe != (0x80_0000 + fy) * pe) by (nonlinear_arith)
                    requires
                        pe > 0,
                        fx != fy,
                ;
            }
        } else {
            vstd::arithmetic::power2::lemma2_to64();
            let (lo_e, hi_e) = if ex < ey {
                (ex, ey)
            } else {
                (ey, ex)
            };
            // The smaller binade ends at or below where the larger one starts.
            let top = if lo_e == 0 {
                23nat
            } else {
                (lo_e + 23) as nat
            };
            let bottom = (hi_e + 22) as nat;
            if top < bottom {
                vstd::arithmetic::power2::lemma_pow2_strictly_increases(top, bottom);
            }
        }
    }
}

/// Where an `f32` magnitude lies: below `2^23` for a zero exponent field, and within
/// `[2^(22 + e), 2^(23 + e))` for an exponent field `e` of at least one.
proof fn lemma_f32_binade(x: u32)
    requires
        crate::convert::f32_exponent(x) != 255,
    ensures
        crate::convert::f32_exponent(x) == 0 ==> f32_magnitude_value(x) < 0x80_0000,
        crate::convert::f32_exponent(x) >= 1 ==> {
            let e = crate::convert::f32_exponent(x);
            &&& crate::value::pow2((e + 22) as nat) <= f32_magnitude_value(x)
            &&& f32_magnitude_value(x) < crate::value::pow2((e + 23) as nat)
        },
{
    crate::convert::lemma_f32_fields(x);
    let e = crate::convert::f32_exponent(x);
    let f = crate::convert::f32_fraction(x);
    if e >= 1 {
        vstd::arithmetic::power2::lemma2_to64();
        vstd::arithmetic::power2::lemma_pow2_adds(23, (e - 1) as nat);
        vstd::arithmetic::power2::lemma_pow2_adds(24, (e - 1) as nat);
        let pe = crate::value::pow2((e - 1) as nat) as int;
        vstd::arithmetic::power2::lemma_pow2_pos((e - 1) as nat);
        assert(0x80_0000 * pe <= (0x80_0000 + f) * pe && (0x80_0000 + f) * pe < 0x100_0000 * pe)
            by (nonlinear_arith)
            requires
                pe > 0,
                f < 0x80_0000,
        ;
    }
}

/// Decoding gives one `f32` pattern for each byte.
pub proof fn lemma_decodes_unique(p: Layout, b: u8, r1: u32, r2: u32)
    requires
        p.wf(),
        crate::convert::spec_decodes(p, b, r1),
        crate::convert::spec_decodes(p, b, r2),
    ensures
        r1 == r2,
{
    if !p.spec_is_nan(b) && !p.spec_is_infinity(b) {
        lemma_f32_pattern_unique(r1, r2);
    }
}

/// Every positive whole number lies between two consecutive powers of two.
proof fn lemma_log2_exists(v: nat) -> (e: nat)
    requires
        v >= 1,
    ensures
        crate::value::pow2(e) <= v < crate::value::pow2(e + 1),
    decreases v,
{
    vstd::arithmetic::power2::lemma2_to64();
    if v == 1 {
        0
    } else {
        let h = v / 2;
        let e = lemma_log2_exists(h);
        vstd::arithmetic::power2::lemma_pow2_unfold(e + 1);
        vstd::arithmetic::power2::lemma_pow2_unfold(e + 2);
        e + 1
    }
}

/// The scale format's rounding keeps order: of two positive finite `f32` values, the
/// larger gives a pattern at or above the one the smaller gives.
pub proof fn lemma_encode_e8m0_monotone(x: u32, y: u32, bias: int)
    requires
        1 <= bias <= 127,
        !f32_sign(x),
        !f32_sign(y),
        crate::convert::f32_exponent(x) != 255,
        crate::convert::f32_exponent(y) != 255,
        0 < f32_magnitude_value(x) <= f32_magnitude_value(y),
    ensures
        crate::convert::spec_encode_e8m0(x, bias) <= crate::convert::spec_encode_e8m0(y, bias),
        crate::convert::spec_encode_e8m0(y, bias) != 0xff,
{
    let vx = f32_magnitude_value(x);
    let vy = f32_magnitude_value(y);
    let wx = lemma_log2_exists(vx);
    let wy = lemma_log2_exists(vy);
    assert(crate::convert::f32_log2_brackets(x, wx - 149));
    assert(crate::convert::f32_log2_brackets(y, wy - 149));
    let ex = crate::convert::f32_floor_log2(x);
    let ey = crate::convert::f32_floor_log2(y);
    crate::convert::lemma_floor_log2_unique(vx, ex + 149, wx as int);
    crate::convert::lemma_floor_log2_unique(vy, ey + 149, wy as int);
    if ey < ex {
        vstd::arithmetic::power2::lemma_pow2_strictly_increases((ey + 149) as nat, (ex + 149) as nat);
        if ey + 1 < ex {
            vstd::arithmetic::power2::lemma_pow2_strictly_increases((ey + 150) as nat, (ex + 149) as nat);
        }
    }
    assert(ex <= ey);
}

} // verus!
