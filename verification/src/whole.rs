//! Rounding an `f32` pattern to a whole number: floor, ceiling, truncation and rounding to
//! nearest with ties to even, on the bit patterns.
use vstd::prelude::*;
use crate::convert::{
    f32_exponent, f32_fraction, f32_magnitude_value, f32_sign, f32_signed_value, spec_decodes,
    spec_encodes,
};
use crate::format::Format;
use crate::micro::MicroFloat;
use crate::value::pow2;

verus! {

/// `r` is the floor of `x`: the greatest whole number at or below it, as a finite pattern
/// (a zero keeps the sign of `x`); infinities and NaN stay as they are.
pub open spec fn spec_f32_floor(x: u32, r: u32) -> bool {
    if f32_exponent(x) == 255 {
        r == x
    } else {
        &&& f32_exponent(r) != 255
        &&& f32_signed_value(r) == (f32_signed_value(x) / pow2(149) as int) * pow2(149) as int
        &&& f32_magnitude_value(r) == 0 ==> f32_sign(r) == f32_sign(x)
    }
}

/// `r` is the ceiling of `x`: the least whole number at or above it, as a finite pattern
/// (a zero keeps the sign of `x`); infinities and NaN stay as they are.
pub open spec fn spec_f32_ceil(x: u32, r: u32) -> bool {
    if f32_exponent(x) == 255 {
        r == x
    } else {
        &&& f32_exponent(r) != 255
        &&& f32_signed_value(r) == -(((-f32_signed_value(x)) / pow2(149) as int) * pow2(149) as int)
        &&& f32_magnitude_value(r) == 0 ==> f32_sign(r) == f32_sign(x)
    }
}

/// `r` is `x` with its fractional part dropped: the whole number toward zero, with the
/// sign of `x`; infinities and NaN stay as they are.
pub open spec fn spec_f32_trunc(x: u32, r: u32) -> bool {
    if f32_exponent(x) == 255 {
        r == x
    } else {
        &&& f32_exponent(r) != 255
        &&& f32_magnitude_value(r) == (f32_magnitude_value(x) / pow2(149)) * pow2(149)
        &&& f32_sign(r) == f32_sign(x)
    }
}

/// `r` is the whole number nearest to `x`, halfway cases to the even one, with the sign of
/// `x`; infinities and NaN stay as they are.
pub open spec fn spec_f32_round_even(x: u32, r: u32) -> bool {
    if f32_exponent(x) == 255 {
        r == x
    } else {
        &&& f32_exponent(r) != 255
        &&& f32_magnitude_value(r) == crate::convert::spec_round_half_even(
            f32_magnitude_value(x),
            149,
        ) * pow2(149)
        &&& f32_sign(r) == f32_sign(x)
    }
}

/// A pattern assembled from a sign, an exponent field and a fraction field.
proof fn lemma_f32_from_fields(r: u32, s: bool, e: nat, f: nat)
    requires
        e < 256,
        f < 0x80_0000,
        r == (if s { 0x8000_0000int } else { 0 }) + e * 0x80_0000 + f,
    ensures
        f32_sign(r) == s,
        f32_exponent(r) == e,
        f32_fraction(r) == f,
{
    let t = e * 0x80_0000 + f;
    assert(t < 0x8000_0000);
    assert(r % 0x8000_0000 == t) by {
        vstd::arithmetic::div_mod::lemma_fundamental_div_mod_converse(
            r as int,
            0x8000_0000,
            if s { 1int } else { 0int },
            t as int,
        );
    }
    vstd::arithmetic::div_mod::lemma_fundamental_div_mod_converse(t as int, 0x80_0000, e as int, f as int);
    vstd::arithmetic::div_mod::lemma_fundamental_div_mod_converse(
        r as int,
        0x80_0000,
        (if s { 0x100int } else { 0int }) + e as int,
        f as int,
    );
}

/// The magnitude of a normal pattern and the scale of its exponent.
proof fn lemma_f32_normal_value(x: u32)
    requires
        1 <= f32_exponent(x) < 255,
    ensures
        f32_magnitude_value(x) == (0x80_0000 + f32_fraction(x)) * pow2((f32_exponent(x) - 1) as nat),
{
}

/// Returns the floor of an `f32` pattern.
pub fn f32_floor(x: u32) -> (r: u32)
    ensures
        spec_f32_floor(x, r),
{
    proof {
        crate::convert::lemma_f32_fields(x);
        vstd::arithmetic::power2::lemma2_to64();
    }
    let e = ((x & 0x7fff_ffff) >> 23) & 0xff;
    let f = (x & 0x7fff_ffff) & 0x7f_ffff;
    let negative = x >= 0x8000_0000;
    let ghost p = pow2(149) as int;
    let ghost sv = f32_signed_value(x);
    if e == 255 {
        return x;
    }
    if e >= 150 {
        // A whole number already.
        proof {
            let q = pow2((e - 150) as nat) as int;
            vstd::arithmetic::power2::lemma_pow2_adds(149, (e - 150) as nat);
            vstd::arithmetic::power2::lemma_pow2_pos((e - 150) as nat);
            let m = (0x80_0000 + f) as int;
            assert(f32_magnitude_value(x) == m * (p * q)) by {
                lemma_f32_normal_value(x);
            }
            let k = if negative { -(m * q) } else { m * q };
            assert(sv == k * p) by (nonlinear_arith)
                requires
                    sv == if negative { -(m * (p * q)) } else { m * (p * q) },
                    k == if negative { -(m * q) } else { m * q },
            ;
            vstd::arithmetic::power2::lemma_pow2_pos(149);
            vstd::arithmetic::div_mod::lemma_div_multiples_vanish(k, p);
            assert(k * p == p * k) by (nonlinear_arith);
        }
        return x;
    }
    if e < 127 {
        // Below one in magnitude: zero, or minus one for a negative number.
        if x & 0x7fff_ffff == 0 {
            return x;
        }
        proof {
            vstd::arithmetic::power2::lemma_pow2_pos(149);
            assert(0 < f32_magnitude_value(x) < p) by {
                if e == 0 {
                    vstd::arithmetic::power2::lemma_pow2_strictly_increases(23, 149);
                } else {
                    lemma_f32_normal_value(x);
                    let q = pow2((e - 1) as nat) as int;
                    vstd::arithmetic::power2::lemma_pow2_pos((e - 1) as nat);
                    vstd::arithmetic::power2::lemma_pow2_adds(24, (e - 1) as nat);
                    if e + 23 < 149 {
                        vstd::arithmetic::power2::lemma_pow2_strictly_increases((e + 23) as nat, 149);
                    }
                    assert((0x80_0000 + f) * q < 0x100_0000 * q) by (nonlinear_arith)
                        requires
                            q > 0,
                            f < 0x80_0000,
                    ;
                    assert(0 < (0x80_0000 + f) * q) by (nonlinear_arith)
                        requires
                            q > 0,
                    ;
                }
            }
        }
        if negative {
            proof {
                lemma_f32_from_fields(0xbf80_0000, true, 127, 0);
                vstd::arithmetic::power2::lemma_pow2_adds(23, 126);
                assert(sv / p == -1) by {
                    vstd::arithmetic::div_mod::lemma_fundamental_div_mod_converse(sv, p, -1, sv + p);
                }
            }
            return 0xbf80_0000;
        } else {
            proof {
                lemma_f32_from_fields(0, false, 0, 0);
                vstd::arithmetic::div_mod::lemma_fundamental_div_mod_converse(sv, p, 0, sv);
            }
            return 0;
        }
    }
    // The whole part is the significand with its lowest `k` bits cleared.
    let k = 150 - e;
    let d = 1u32 << k;
    proof {
        vstd::bits::lemma_u32_pow2_no_overflow(k as nat);
        vstd::bits::lemma_u32_shl_is_mul(1, k);
    }
    let rem = f % d;
    proof {
        lemma_whole_steps(x, k as nat, d as nat, rem as nat);
    }
    let ghost a = (0x80_0000 + f) as int / d as int;
    let ghost q = pow2((e - 1) as nat) as int;
    if rem == 0 {
        // A whole number already.
        proof {
            let w = if negative { -a } else { a };
            assert(rem * q == 0) by (nonlinear_arith)
                requires
                    rem == 0,
            ;
            assert(sv == w * p) by (nonlinear_arith)
                requires
                    sv == if negative { -(a * p) } else { a * p },
                    w == if negative { -a } else { a },
            ;
            vstd::arithmetic::div_mod::lemma_div_multiples_vanish(w, p);
            assert(w * p == p * w) by (nonlinear_arith);
        }
        return x;
    }
    proof {
        assert(0 < rem * q) by (nonlinear_arith)
            requires
                rem > 0,
                q > 0,
        ;
    }
    if negative {
        // `sv` lies strictly between `-(a + 1) * p` and `-a * p`.
        proof {
            assert(sv == p * (-(a + 1)) + (p - rem * q)) by (nonlinear_arith)
                requires
                    sv == -(a * p + rem * q),
            ;
            vstd::arithmetic::div_mod::lemma_fundamental_div_mod_converse(
                sv,
                p,
                -(a + 1),
                p - rem * q,
            );
            assert(-((a + 1) * p) == (-(a + 1)) * p) by (nonlinear_arith);
        }
        x - rem + d
    } else {
        proof {
            assert(sv == p * a + rem * q) by (nonlinear_arith)
                requires
                    sv == a * p + rem * q,
            ;
            vstd::arithmetic::div_mod::lemma_fundamental_div_mod_converse(sv, p, a, rem * q);
        }
        x - rem
    }
}

/// A pattern with exponent field `e` in `[127, 149]` holds `m = 2^23 + f` steps of
/// `q = 2^(e - 1)`, of which `2^k` (with `k = 150 - e`) make one. Splitting `m` into `a`
/// whole ones and a remainder `rem`: the pattern with the remainder cleared holds exactly
/// `a`, and the one with a further step of `2^k` added holds exactly `a + 1`; both keep the
/// sign.
proof fn lemma_whole_steps(x: u32, k: nat, d: nat, rem: nat)
    requires
        127 <= f32_exponent(x) <= 149,
        k == 150 - f32_exponent(x),
        d == pow2(k),
        rem == f32_fraction(x) % d,
    ensures
        ({
            let e = f32_exponent(x);
            let f = f32_fraction(x);
            let q = pow2((e - 1) as nat) as int;
            let p = pow2(149) as int;
            let a = (0x80_0000 + f) as int / d as int;
            let down = (x - rem) as u32;
            let up = (x - rem + d) as u32;
            &&& q > 0
            &&& 2 <= d <= 0x80_0000
            &&& p == d * q
            &&& 0x80_0000 + f == d * a + rem
            &&& 0 <= rem < d
            &&& a >= 1
            &&& f32_magnitude_value(x) == a * p + rem * q
            &&& 0 <= rem * q < p
            &&& x - rem >= 0
            &&& x - rem + d <= 0xffff_ffff
            &&& f32_sign(down) == f32_sign(x) && f32_exponent(down) != 255
            &&& f32_magnitude_value(down) == a * p
            &&& f32_sign(up) == f32_sign(x) && f32_exponent(up) != 255
            &&& f32_magnitude_value(up) == (a + 1) * p
            &&& (a + 1) * p > 0
        }),
{
    crate::convert::lemma_f32_fields(x);
    vstd::arithmetic::power2::lemma2_to64();
    let e = f32_exponent(x);
    let f = f32_fraction(x);
    let p = pow2(149) as int;
    let q = pow2((e - 1) as nat) as int;
    let t = pow2((23 - k) as nat) as int;
    vstd::arithmetic::power2::lemma_pow2_adds(k, (e - 1) as nat);
    vstd::arithmetic::power2::lemma_pow2_adds(k, (23 - k) as nat);
    vstd::arithmetic::power2::lemma_pow2_pos((e - 1) as nat);
    vstd::arithmetic::power2::lemma_pow2_pos((23 - k) as nat);
    vstd::arithmetic::power2::lemma_pow2_pos(k);
    if k > 1 {
        vstd::arithmetic::power2::lemma_pow2_strictly_increases(1, k);
    }
    if k < 23 {
        vstd::arithmetic::power2::lemma_pow2_strictly_increases(k, 23);
    }
    assert(p == d * q);
    assert(0x80_0000 == d * t);
    lemma_f32_normal_value(x);
    let m = (0x80_0000 + f) as int;
    let a = m / d as int;
    // The significand is `a` whole steps of `2^k` and the remainder of the fraction.
    assert(m % d as int == rem) by {
        vstd::arithmetic::div_mod::lemma_mod_multiples_vanish(t, f as int, d as int);
        assert(d * t == t * d) by (nonlinear_arith);
    }
    vstd::arithmetic::div_mod::lemma_fundamental_div_mod(m, d as int);
    assert(m == d * a + rem);
    // The whole part of the fraction stays at least one step below the hidden bit.
    let fq = f as int / d as int;
    vstd::arithmetic::div_mod::lemma_fundamental_div_mod(f as int, d as int);
    assert(f - rem == d * fq);
    assert(fq < t) by (nonlinear_arith)
        requires
            d * fq <= f,
            f < d * t,
            d > 0,
    ;
    assert(f - rem + d <= 0x80_0000) by (nonlinear_arith)
        requires
            f - rem == d * fq,
            fq < t,
            0x80_0000 == d * t,
    ;
    assert(f32_magnitude_value(x) == (d * a + rem) * q);
    assert((d * a + rem) * q == a * p + rem * q) by (nonlinear_arith)
        requires
            p == d * q,
    ;
    assert(0 <= rem * q < p) by (nonlinear_arith)
        requires
            p == d * q,
            0 <= rem < d,
            q > 0,
    ;
    assert(a >= 1) by (nonlinear_arith)
        requires
            m == d * a + rem,
            rem < d,
            m >= 0x80_0000,
            d <= 0x80_0000,
    ;
    let s = f32_sign(x);
    let down = (x - rem) as u32;
    let up = (x - rem + d) as u32;
    lemma_f32_from_fields(down, s, e, (f - rem) as nat);
    assert((0x80_0000 + f - rem) * q == a * p) by (nonlinear_arith)
        requires
            0x80_0000 + f == d * a + rem,
            p == d * q,
    ;
    assert((0x80_0000 + f - rem + d) * q == (a + 1) * p) by (nonlinear_arith)
        requires
            0x80_0000 + f == d * a + rem,
            p == d * q,
    ;
    if f - rem + d < 0x80_0000 {
        lemma_f32_from_fields(up, s, e, (f - rem + d) as nat);
    } else {
        lemma_f32_from_fields(up, s, (e + 1) as nat, 0);
        vstd::arithmetic::power2::lemma_pow2_unfold(e);
        assert(0x80_0000 * (2 * q) == (0x80_0000 + f - rem + d) * q) by (nonlinear_arith)
            requires
                f - rem + d == 0x80_0000,
        ;
    }
    assert((a + 1) * p > 0) by (nonlinear_arith)
        requires
            a >= 1,
            p > 0,
    ;
}

/// The pattern with its sign bit flipped, and with it cleared, keep the exponent and
/// fraction fields.
proof fn lemma_f32_sign_bit(x: u32)
    ensures
        f32_exponent(x ^ 0x8000_0000u32) == f32_exponent(x),
        f32_fraction(x ^ 0x8000_0000u32) == f32_fraction(x),
        f32_sign(x ^ 0x8000_0000u32) == !f32_sign(x),
        f32_exponent(x & 0x7fff_ffffu32) == f32_exponent(x),
        f32_fraction(x & 0x7fff_ffffu32) == f32_fraction(x),
        !f32_sign(x & 0x7fff_ffffu32),
{
    assert(((x ^ 0x8000_0000u32) % 0x8000_0000 == x % 0x8000_0000) && ((x ^ 0x8000_0000u32)
        % 0x80_0000 == x % 0x80_0000) && (((x ^ 0x8000_0000u32) >= 0x8000_0000) == !(x
        >= 0x8000_0000)) && ((x & 0x7fff_ffffu32) % 0x8000_0000 == x % 0x8000_0000) && ((x
        & 0x7fff_ffffu32) % 0x80_0000 == x % 0x80_0000) && (x & 0x7fff_ffffu32) < 0x8000_0000)
        by (bit_vector);
}

/// Returns the ceiling of an `f32` pattern: the floor of its negation, negated.
pub fn f32_ceil(x: u32) -> (r: u32)
    ensures
        spec_f32_ceil(x, r),
{
    proof {
        crate::convert::lemma_f32_fields(x);
    }
    if ((x & 0x7fff_ffff) >> 23) & 0xff == 255 {
        return x;
    }
    let y = x ^ 0x8000_0000;
    let fl = f32_floor(y);
    proof {
        lemma_f32_sign_bit(x);
        lemma_f32_sign_bit(fl);
        assert(f32_signed_value(y) == -f32_signed_value(x));
        assert((fl ^ 0x8000_0000u32) ^ 0x8000_0000u32 == fl) by (bit_vector);
    }
    fl ^ 0x8000_0000
}

/// Returns an `f32` pattern with its fractional part dropped: the floor of its magnitude,
/// with its sign.
pub fn f32_trunc(x: u32) -> (r: u32)
    ensures
        spec_f32_trunc(x, r),
{
    proof {
        crate::convert::lemma_f32_fields(x);
    }
    if ((x & 0x7fff_ffff) >> 23) & 0xff == 255 {
        return x;
    }
    let y = x & 0x7fff_ffff;
    let fl = f32_floor(y);
    let r = fl | (x & 0x8000_0000);
    proof {
        lemma_f32_sign_bit(x);
        let p = pow2(149) as int;
        vstd::arithmetic::power2::lemma_pow2_pos(149);
        let v = f32_magnitude_value(x) as int;
        assert(f32_signed_value(y) == v);
        vstd::arithmetic::div_mod::lemma_div_pos_is_pos(v, p);
        assert((v / p) * p >= 0) by (nonlinear_arith)
            requires
                v / p >= 0,
                p > 0,
        ;
        assert(!f32_sign(fl));
        assert(fl < 0x8000_0000);
        assert((fl < 0x8000_0000 ==> (fl | (x & 0x8000_0000u32)) % 0x8000_0000 == fl % 0x8000_0000
            && (fl | (x & 0x8000_0000u32)) % 0x80_0000 == fl % 0x80_0000 && ((fl | (x
            & 0x8000_0000u32)) >= 0x8000_0000) == (x >= 0x8000_0000))) by (bit_vector);
    }
    r
}

/// Returns the whole number nearest to an `f32` pattern, halfway cases to the even one,
/// with its sign.
pub fn f32_round_even(x: u32) -> (r: u32)
    ensures
        spec_f32_round_even(x, r),
{
    proof {
        crate::convert::lemma_f32_fields(x);
        vstd::arithmetic::power2::lemma2_to64();
        vstd::arithmetic::power2::lemma_pow2_pos(149);
        vstd::arithmetic::power2::lemma_pow2_unfold(149);
    }
    let e = ((x & 0x7fff_ffff) >> 23) & 0xff;
    let f = (x & 0x7fff_ffff) & 0x7f_ffff;
    let sign = x & 0x8000_0000;
    let ghost p = pow2(149) as int;
    let ghost h = pow2(148) as int;
    let ghost v = f32_magnitude_value(x) as int;
    proof {
        assert(sign == 0 || sign == 0x8000_0000) by (bit_vector)
            requires
                sign == x & 0x8000_0000u32,
        ;
        assert((sign == 0) == (x < 0x8000_0000)) by (bit_vector)
            requires
                sign == x & 0x8000_0000u32,
        ;
    }
    if e == 255 {
        return x;
    }
    if e >= 150 {
        // A whole number already.
        proof {
            let q = pow2((e - 150) as nat) as int;
            vstd::arithmetic::power2::lemma_pow2_adds(149, (e - 150) as nat);
            vstd::arithmetic::power2::lemma_pow2_pos((e - 150) as nat);
            let m = (0x80_0000 + f) as int;
            lemma_f32_normal_value(x);
            assert(v == (m * q) * p) by (nonlinear_arith)
                requires
                    v == m * (p * q),
            ;
            vstd::arithmetic::div_mod::lemma_fundamental_div_mod_converse(v, p, m * q, 0);
            assert(v == p * (m * q) + 0) by (nonlinear_arith)
                requires
                    v == (m * q) * p,
            ;
        }
        return x;
    }
    if e <= 126 {
        // Below one in magnitude: zero, or one from just above a half.
        proof {
            assert(v < p) by {
                if e == 0 {
                    vstd::arithmetic::power2::lemma_pow2_strictly_increases(23, 149);
                } else {
                    lemma_f32_normal_value(x);
                    let q = pow2((e - 1) as nat) as int;
                    vstd::arithmetic::power2::lemma_pow2_pos((e - 1) as nat);
                    vstd::arithmetic::power2::lemma_pow2_adds(24, (e - 1) as nat);
                    if e + 23 < 149 {
                        vstd::arithmetic::power2::lemma_pow2_strictly_increases((e + 23) as nat, 149);
                    }
                    assert((0x80_0000 + f) * q < 0x100_0000 * q) by (nonlinear_arith)
                        requires
                            q > 0,
                            f < 0x80_0000,
                    ;
                }
            }
            vstd::arithmetic::div_mod::lemma_fundamental_div_mod_converse(v, p, 0, v);
        }
        if e == 126 && f != 0 {
            let r = sign | 0x3f80_0000;
            proof {
                lemma_f32_normal_value(x);
                vstd::arithmetic::power2::lemma_pow2_adds(23, 125);
                assert(v > h) by (nonlinear_arith)
                    requires
                        v == (0x80_0000 + f) * pow2(125),
                        h == 0x80_0000 * pow2(125),
                        f > 0,
                        pow2(125) > 0,
                ;
                assert(r == sign + 127 * 0x80_0000) by (bit_vector)
                    requires
                        sign == 0 || sign == 0x8000_0000,
                        r == sign | 0x3f80_0000u32,
                ;
                lemma_f32_from_fields(r, sign != 0, 127, 0);
                vstd::arithmetic::power2::lemma_pow2_adds(23, 126);
                let w = f32_magnitude_value(x);
                assert(w / pow2(149) == 0);
                assert(w % pow2(149) == w);
                assert(crate::convert::spec_round_half_even(w, 149) == 1);
                assert(f32_magnitude_value(r) == pow2(149));
                assert(f32_exponent(r) != 255);
                assert(f32_sign(r) == f32_sign(x));
                let n = crate::convert::spec_round_half_even(w, 149);
                assert(n * pow2(149) == pow2(149)) by (nonlinear_arith)
                    requires
                        n == 1,
                ;
            }
            return r;
        }
        proof {
            if e == 126 {
                lemma_f32_normal_value(x);
                vstd::arithmetic::power2::lemma_pow2_adds(23, 125);
            } else if e >= 1 {
                lemma_f32_normal_value(x);
                let q = pow2((e - 1) as nat) as int;
                vstd::arithmetic::power2::lemma_pow2_pos((e - 1) as nat);
                vstd::arithmetic::power2::lemma_pow2_adds(24, (e - 1) as nat);
                if e + 23 < 148 {
                    vstd::arithmetic::power2::lemma_pow2_strictly_increases((e + 23) as nat, 148);
                }
                assert((0x80_0000 + f) * q < 0x100_0000 * q) by (nonlinear_arith)
                    requires
                        q > 0,
                        f < 0x80_0000,
                ;
            } else {
                vstd::arithmetic::power2::lemma_pow2_strictly_increases(23, 148);
            }
            assert(v <= h);
            lemma_f32_from_fields(sign, sign != 0, 0, 0);
        }
        return sign;
    }
    // Round the significand to a multiple of `2^k`.
    let k = 150 - e;
    let d = 1u32 << k;
    proof {
        vstd::bits::lemma_u32_pow2_no_overflow(k as nat);
        vstd::bits::lemma_u32_shl_is_mul(1, k);
    }
    let rem = f % d;
    proof {
        lemma_whole_steps(x, k as nat, d as nat, rem as nat);
    }
    let half = d / 2;
    let a = (0x80_0000 + f) / d;
    let up = rem > half || (rem == half && a % 2 == 1);
    proof {
        let q = pow2((e - 1) as nat) as int;
        let ai = a as int;
        vstd::arithmetic::power2::lemma_pow2_unfold(k as nat);
        assert(half * 2 == d);
        vstd::arithmetic::power2::lemma_pow2_adds((k - 1) as nat, (e - 1) as nat);
        assert(h == half * q);
        vstd::arithmetic::div_mod::lemma_fundamental_div_mod_converse(v, p, ai, rem * q);
        assert(v == p * ai + rem * q) by (nonlinear_arith)
            requires
                v == ai * p + rem * q,
        ;
        assert((rem * q > h) == (rem > half)) by (nonlinear_arith)
            requires
                h == half * q,
                q > 0,
        ;
        assert((rem * q == h) == (rem == half)) by (nonlinear_arith)
            requires
                h == half * q,
                q > 0,
        ;
    }
    if up {
        x - rem + d
    } else {
        x - rem
    }
}

/// Two finite patterns that hold the same signed value are the same pattern, but for the
/// sign of a zero.
proof fn lemma_f32_same_value(x: u32, y: u32)
    requires
        f32_exponent(x) != 255,
        f32_exponent(y) != 255,
        f32_signed_value(x) == f32_signed_value(y),
        f32_magnitude_value(x) == 0 ==> f32_sign(x) == f32_sign(y),
    ensures
        x == y,
{
    crate::rounding_laws::lemma_f32_pattern_unique(x, y);
}

/// Each of the four roundings to a whole number gives one pattern for each `f32`.
pub proof fn lemma_whole_roundings_unique(x: u32, r1: u32, r2: u32)
    ensures
        spec_f32_floor(x, r1) && spec_f32_floor(x, r2) ==> r1 == r2,
        spec_f32_ceil(x, r1) && spec_f32_ceil(x, r2) ==> r1 == r2,
        spec_f32_trunc(x, r1) && spec_f32_trunc(x, r2) ==> r1 == r2,
        spec_f32_round_even(x, r1) && spec_f32_round_even(x, r2) ==> r1 == r2,
{
    if f32_exponent(x) != 255 && f32_exponent(r1) != 255 && f32_exponent(r2) != 255 {
        if f32_signed_value(r1) == f32_signed_value(r2) && (f32_magnitude_value(r1) == 0
            ==> f32_sign(r1) == f32_sign(r2)) {
            lemma_f32_same_value(r1, r2);
        }
        if f32_magnitude_value(r1) == f32_magnitude_value(r2) && f32_sign(r1) == f32_sign(r2) {
            crate::rounding_laws::lemma_f32_pattern_unique(r1, r2);
        }
    }
}

impl<F: Format> MicroFloat<F> {
    /// Returns the greatest whole number at or below `self`, rounded to this format: a NaN
    /// is returned as it is; otherwise the floor of the value, taken as an `f32`, is
    /// rounded.
    pub fn floor(self) -> (r: Self)
        ensures
            Self::layout().spec_is_nan(self@) ==> r@ == self@,
            !Self::layout().spec_is_nan(self@) ==> forall|d: u32, w: u32|
                spec_decodes(Self::layout(), self@, d) && #[trigger] spec_f32_floor(d, w)
                    ==> spec_encodes(Self::layout(), w, r@),
    {
        if self.is_nan() {
            return self;
        }
        let d0 = self.to_f32_bits();
        let w0 = f32_floor(d0);
        let r = Self::from_f32_bits(w0);
        proof {
            let p = Self::layout();
            F::lemma_layout_wf();
            assert forall|d: u32, w: u32|
                spec_decodes(p, self@, d) && #[trigger] spec_f32_floor(d, w) implies spec_encodes(
                    p,
                    w,
                    r@,
                ) by {
                crate::rounding_laws::lemma_decodes_unique(p, self@, d, d0);
                lemma_whole_roundings_unique(d0, w, w0);
            }
        }
        r
    }

    /// Returns the least whole number at or above `self`, rounded to this format: a NaN is
    /// returned as it is; otherwise the ceiling of the value, taken as an `f32`, is rounded.
    pub fn ceil(self) -> (r: Self)
        ensures
            Self::layout().spec_is_nan(self@) ==> r@ == self@,
            !Self::layout().spec_is_nan(self@) ==> forall|d: u32, w: u32|
                spec_decodes(Self::layout(), self@, d) && #[trigger] spec_f32_ceil(d, w)
                    ==> spec_encodes(Self::layout(), w, r@),
    {
        if self.is_nan() {
            return self;
        }
        let d0 = self.to_f32_bits();
        let w0 = f32_ceil(d0);
        let r = Self::from_f32_bits(w0);
        proof {
            let p = Self::layout();
            F::lemma_layout_wf();
            assert forall|d: u32, w: u32|
                spec_decodes(p, self@, d) && #[trigger] spec_f32_ceil(d, w) implies spec_encodes(
                    p,
                    w,
                    r@,
                ) by {
                crate::rounding_laws::lemma_decodes_unique(p, self@, d, d0);
                lemma_whole_roundings_unique(d0, w, w0);
            }
        }
        r
    }

    /// Returns the integer part of `self`, rounded toward zero and then to this format: a
    /// NaN is returned as it is; otherwise the value, taken as an `f32`, has its fractional
    /// part dropped and is rounded.
    pub fn trunc(self) -> (r: Self)
        ensures
            Self::layout().spec_is_nan(self@) ==> r@ == self@,
            !Self::layout().spec_is_nan(self@) ==> forall|d: u32, w: u32|
                spec_decodes(Self::layout(), self@, d) && #[trigger] spec_f32_trunc(d, w)
                    ==> spec_encodes(Self::layout(), w, r@),
    {
        if self.is_nan() {
            return self;
        }
        let d0 = self.to_f32_bits();
        let w0 = f32_trunc(d0);
        let r = Self::from_f32_bits(w0);
        proof {
            let p = Self::layout();
            F::lemma_layout_wf();
            assert forall|d: u32, w: u32|
                spec_decodes(p, self@, d) && #[trigger] spec_f32_trunc(d, w) implies spec_encodes(
                    p,
                    w,
                    r@,
                ) by {
                crate::rounding_laws::lemma_decodes_unique(p, self@, d, d0);
                lemma_whole_roundings_unique(d0, w, w0);
            }
        }
        r
    }

    /// Returns `self` rounded to the nearest whole number, halfway cases to the even one,
    /// and then to this format: a NaN is returned as it is.
    pub fn round_ties_even(self) -> (r: Self)
        ensures
            Self::layout().spec_is_nan(self@) ==> r@ == self@,
            !Self::layout().spec_is_nan(self@) ==> forall|d: u32, w: u32|
                spec_decodes(Self::layout(), self@, d) && #[trigger] spec_f32_round_even(d, w)
                    ==> spec_encodes(Self::layout(), w, r@),
    {
        if self.is_nan() {
            return self;
        }
        let d0 = self.to_f32_bits();
        let w0 = f32_round_even(d0);
        let r = Self::from_f32_bits(w0);
        proof {
            let p = Self::layout();
            F::lemma_layout_wf();
            assert forall|d: u32, w: u32|
                spec_decodes(p, self@, d) && #[trigger] spec_f32_round_even(d, w)
                    implies spec_encodes(p, w, r@) by {
                crate::rounding_laws::lemma_decodes_unique(p, self@, d, d0);
                lemma_whole_roundings_unique(d0, w, w0);
            }
        }
        r
    }
}

/// What decoding a number gives is a number, and rounding it back gives the pattern again.
proof fn lemma_decoded_number(p: crate::format::Layout, b: u8, d: u32)
    requires
        p.wf(),
        b & p.spec_storage_mask() == b,
        !p.spec_is_nan(b),
        spec_decodes(p, b, d),
    ensures
        !crate::convert::f32_is_nan(d),
        spec_encodes(p, d, b),
        f32_sign(d) == p.spec_is_negative(b),
{
    crate::convert::lemma_decode_then_encode(p, b, d);
    crate::convert::lemma_f32_fields(d);
}

/// The floor of a number is at or below it, wherever it does not round to NaN.
pub proof fn lemma_floor_at_or_below(p: crate::format::Layout, b: u8, d: u32, w: u32, r: u8)
    requires
        p.wf(),
        b & p.spec_storage_mask() == b,
        !p.spec_is_nan(b),
        spec_decodes(p, b, d),
        spec_f32_floor(d, w),
        spec_encodes(p, w, r),
        !p.spec_is_nan(r),
    ensures
        p.spec_value(r).le(p.spec_value(b)),
{
    lemma_decoded_number(p, b, d);
    if f32_exponent(d) != 255 {
        let sv = f32_signed_value(d);
        let q = pow2(149) as int;
        vstd::arithmetic::power2::lemma_pow2_pos(149);
        vstd::arithmetic::div_mod::lemma_fundamental_div_mod(sv, q);
        assert((sv / q) * q <= sv) by (nonlinear_arith)
            requires
                sv == q * (sv / q) + sv % q,
                sv % q >= 0,
        ;
    }
    crate::rounding_laws::lemma_encode_monotone(p, w, d, r, b);
}

/// The ceiling of a number is at or above it, wherever it does not round to NaN.
pub proof fn lemma_ceil_at_or_above(p: crate::format::Layout, b: u8, d: u32, w: u32, r: u8)
    requires
        p.wf(),
        b & p.spec_storage_mask() == b,
        !p.spec_is_nan(b),
        spec_decodes(p, b, d),
        spec_f32_ceil(d, w),
        spec_encodes(p, w, r),
        !p.spec_is_nan(r),
    ensures
        p.spec_value(b).le(p.spec_value(r)),
{
    lemma_decoded_number(p, b, d);
    if f32_exponent(d) != 255 {
        let sv = -f32_signed_value(d);
        let q = pow2(149) as int;
        vstd::arithmetic::power2::lemma_pow2_pos(149);
        vstd::arithmetic::div_mod::lemma_fundamental_div_mod(sv, q);
        assert((sv / q) * q <= sv) by (nonlinear_arith)
            requires
                sv == q * (sv / q) + sv % q,
                sv % q >= 0,
        ;
    }
    crate::rounding_laws::lemma_encode_monotone(p, d, w, b, r);
}

/// Truncation moves toward zero: it is at or below a nonnegative number and at or above a
/// negative one, wherever it does not round to NaN.
pub proof fn lemma_trunc_toward_zero(p: crate::format::Layout, b: u8, d: u32, w: u32, r: u8)
    requires
        p.wf(),
        b & p.spec_storage_mask() == b,
        !p.spec_is_nan(b),
        spec_decodes(p, b, d),
        spec_f32_trunc(d, w),
        spec_encodes(p, w, r),
        !p.spec_is_nan(r),
    ensures
        !p.spec_is_negative(b) ==> p.spec_value(r).le(p.spec_value(b)),
        p.spec_is_negative(b) ==> p.spec_value(b).le(p.spec_value(r)),
{
    lemma_decoded_number(p, b, d);
    if f32_exponent(d) != 255 {
        let v = f32_magnitude_value(d) as int;
        let q = pow2(149) as int;
        vstd::arithmetic::power2::lemma_pow2_pos(149);
        vstd::arithmetic::div_mod::lemma_fundamental_div_mod(v, q);
        assert((v / q) * q <= v) by (nonlinear_arith)
            requires
                v == q * (v / q) + v % q,
                v % q >= 0,
        ;
    }
    if p.spec_is_negative(b) {
        crate::rounding_laws::lemma_encode_monotone(p, d, w, b, r);
    } else {
        crate::rounding_laws::lemma_encode_monotone(p, w, d, r, b);
    }
}

} // verus!
