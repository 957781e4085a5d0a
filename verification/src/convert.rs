//! Conversion between a format's bytes and the bit patterns of `f32`, computed exactly
//! on integers.
use vstd::prelude::*;
use crate::format::{Format, Layout, NanEncoding, Overflow, SignMode, ZeroMode};
use crate::value::pow2;

verus! {

// ---------------------------------------------------------------------------
// Rounding a quotient by a power of two to the nearest integer, ties to even.
// ---------------------------------------------------------------------------

/// `v / 2^k` rounded to the nearest integer, halfway cases to the even neighbour.
pub open spec fn spec_round_half_even(v: nat, k: nat) -> nat {
    if k == 0 {
        v
    } else {
        let q = v / pow2(k);
        let r = v % pow2(k);
        let h = pow2((k - 1) as nat);
        if r > h || (r == h && q % 2 == 1) {
            q + 1
        } else {
            q
        }
    }
}

/// Returns `value / 2^shift` rounded to the nearest integer, ties to even.
pub(crate) fn round_right_shift(value: u64, shift: i32) -> (r: u64)
    requires
        shift >= 1,
        shift >= 64 ==> value <= 0x8000_0000_0000_0000,
    ensures
        r as nat == spec_round_half_even(value as nat, shift as nat),
{
    if shift >= 64 {
        proof {
            let k = shift as nat;
            vstd::arithmetic::power2::lemma2_to64_rest();
            if k > 64 {
                vstd::arithmetic::power2::lemma_pow2_strictly_increases(64, k);
            }
            vstd::arithmetic::power2::lemma_pow2_unfold(k);
            vstd::arithmetic::div_mod::lemma_small_div_converse(value as int, pow2(k) as int);
            assert(value as nat / pow2(k) == 0) by {
                vstd::arithmetic::div_mod::lemma_basic_div(value as int, pow2(k) as int);
            }
            vstd::arithmetic::div_mod::lemma_small_mod(value as nat, pow2(k));
            if k > 64 {
                vstd::arithmetic::power2::lemma_pow2_strictly_increases(63, (k - 1) as nat);
            }
        }
        return 0;
    }
    let shift = shift as u32;
    let s = shift as u64;
    proof {
        vstd::bits::lemma_u64_shr_is_div(value, s);
        vstd::bits::lemma_u64_pow2_no_overflow(s as nat);
        vstd::bits::lemma_u64_shl_is_mul(1, s);
        vstd::bits::lemma_u64_pow2_no_overflow((s - 1) as nat);
        vstd::bits::lemma_u64_shl_is_mul(1, (s - 1) as u64);
        vstd::bits::lemma_u64_low_bits_mask_is_mod(value, s as nat);
        vstd::arithmetic::power2::lemma_pow2_pos(s as nat);
    }
    let quotient = value >> shift;
    let mask = (1u64 << shift) - 1;
    assert(mask == vstd::bits::low_bits_mask(s as nat));
    let remainder = value & mask;
    let halfway = 1u64 << (shift - 1);
    proof {
        vstd::arithmetic::div_mod::lemma_div_is_ordered_by_denominator(value as int, 1, pow2(s as nat) as int);
        vstd::arithmetic::power2::lemma2_to64();
        assert(pow2(s as nat) >= 2) by {
            if s > 1 {
                vstd::arithmetic::power2::lemma_pow2_strictly_increases(1, s as nat);
            }
        }
        vstd::arithmetic::div_mod::lemma_div_is_ordered_by_denominator(value as int, 2, pow2(s as nat) as int);
    }
    if remainder > halfway || (remainder == halfway && quotient & 1 == 1) {
        proof {
            crate::bitfacts::lemma_parity_u64(quotient);
        }
        quotient + 1
    } else {
        proof {
            crate::bitfacts::lemma_parity_u64(quotient);
        }
        quotient
    }
}


// ---------------------------------------------------------------------------
// The bit patterns of `f32`.
// ---------------------------------------------------------------------------

/// The sign bit of an `f32` pattern.
pub open spec fn f32_sign(x: u32) -> bool {
    x >= 0x8000_0000
}

/// The biased exponent field of an `f32` pattern.
pub open spec fn f32_exponent(x: u32) -> nat {
    ((x % 0x8000_0000) / 0x80_0000) as nat
}

/// The fraction field of an `f32` pattern.
pub open spec fn f32_fraction(x: u32) -> nat {
    (x % 0x80_0000) as nat
}

pub open spec fn f32_is_nan(x: u32) -> bool {
    f32_exponent(x) == 255 && f32_fraction(x) != 0
}

pub open spec fn f32_is_infinite(x: u32) -> bool {
    f32_exponent(x) == 255 && f32_fraction(x) == 0
}

/// The magnitude of a finite `f32` pattern, as a multiple of `2^-149`, the least positive
/// `f32`.
pub open spec fn f32_magnitude_value(x: u32) -> nat {
    if f32_exponent(x) == 0 {
        f32_fraction(x)
    } else {
        (0x80_0000 + f32_fraction(x)) * pow2((f32_exponent(x) - 1) as nat)
    }
}

/// The value of a finite or infinite `f32` pattern, as a signed multiple of `2^-149`;
/// infinity reads as a magnitude beyond every finite one.
pub open spec fn f32_signed_value(x: u32) -> int {
    if f32_sign(x) {
        -(f32_magnitude_value(x) as int)
    } else {
        f32_magnitude_value(x) as int
    }
}

/// The fields of an `f32` pattern, read with shifts and masks.
pub(crate) proof fn lemma_f32_fields(x: u32)
    ensures
        ((x & 0x7fff_ffff) >> 23) & 0xff == f32_exponent(x),
        (x & 0x7fff_ffff) & 0x7f_ffff == f32_fraction(x),
        f32_exponent(x) <= 255,
        f32_fraction(x) < 0x80_0000,
        (x & 0x7fff_ffff) == f32_exponent(x) * 0x80_0000 + f32_fraction(x),
        x == (if f32_sign(x) { 0x8000_0000int } else { 0 }) + f32_exponent(x) * 0x80_0000
            + f32_fraction(x),
{
    crate::bitfacts::lemma_word_facts(x);
}

/// Returns `floor(log2(|x|))` for a finite, nonzero `f32` pattern.
pub(crate) fn floor_log2_f32(x: u32) -> (r: i32)
    requires
        f32_exponent(x) != 255,
        f32_magnitude_value(x) != 0,
    ensures
        r + 149 >= 0,
        pow2((r + 149) as nat) <= f32_magnitude_value(x) < pow2((r + 150) as nat),
        f32_exponent(x) != 0 ==> r == f32_exponent(x) - 127,
{
    proof {
        lemma_f32_fields(x);
    }
    let bits = x & 0x7fff_ffff;
    let exp = ((bits >> 23) & 0xff) as i32;
    if exp == 0 {
        let fraction = bits & 0x7f_ffff;
        // The position of the highest set bit of the fraction.
        let mut top: u32 = 0;
        proof {
            vstd::bits::lemma_u32_shr_is_div(fraction, 0);
            vstd::arithmetic::power2::lemma2_to64();
        }
        while top < 22 && (fraction >> (top + 1)) != 0
            invariant
                top <= 22,
                fraction != 0,
                fraction < 0x80_0000,
                (fraction >> top) != 0,
            decreases 22 - top,
        {
            top = top + 1;
        }
        proof {
            vstd::bits::lemma_u32_shr_is_div(fraction, top);
            vstd::bits::lemma_u32_shr_is_div(fraction, (top + 1) as u32);
            vstd::arithmetic::power2::lemma_pow2_pos(top as nat);
            vstd::arithmetic::power2::lemma_pow2_pos((top + 1) as nat);
            if top == 22 {
                crate::bitfacts::lemma_word_facts(fraction);
            }
            assert(fraction as nat / pow2(top as nat) != 0);
            assert(fraction as nat / pow2((top + 1) as nat) == 0);
            if (fraction as nat) < pow2(top as nat) {
                vstd::arithmetic::div_mod::lemma_basic_div(fraction as int, pow2(top as nat) as int);
            }
            vstd::arithmetic::div_mod::lemma_div_pos_is_pos(fraction as int, pow2((top + 1) as nat) as int);
            vstd::arithmetic::div_mod::lemma_fundamental_div_mod(fraction as int, pow2((top + 1) as nat) as int);
        }
        top as i32 - 149
    } else {
        proof {
            let e = f32_exponent(x);
            let pe = pow2((e - 1) as nat);
            vstd::arithmetic::power2::lemma_pow2_pos((e - 1) as nat);
            vstd::arithmetic::power2::lemma_pow2_adds(23, (e - 1) as nat);
            vstd::arithmetic::power2::lemma_pow2_adds(24, (e - 1) as nat);
            vstd::arithmetic::power2::lemma2_to64();
            assert(pow2(23) == 0x80_0000);
            assert(pow2(24) == 0x100_0000);
            assert(0x80_0000 * pe <= (0x80_0000 + f32_fraction(x)) * pe) by (nonlinear_arith);
            assert((0x80_0000 + f32_fraction(x)) * pe < 0x100_0000 * pe) by (nonlinear_arith)
                requires
                    f32_fraction(x) < 0x80_0000,
                    pe > 0,
            ;
            vstd::arithmetic::power2::lemma_pow2_pos((e - 1) as nat);
        }
        exp - 127
    }
}


/// Scaling a number and its divisor by the same power of two leaves the rounded quotient
/// unchanged.
proof fn lemma_round_half_even_scale(v: nat, k: nat, a: nat)
    requires
        k >= 1,
    ensures
        spec_round_half_even(v * pow2(a), k + a) == spec_round_half_even(v, k),
{
    let pk = pow2(k) as int;
    let pa = pow2(a) as int;
    let pka = pow2(k + a) as int;
    let hk = pow2((k - 1) as nat) as int;
    let hka = pow2((k + a - 1) as nat) as int;
    vstd::arithmetic::power2::lemma_pow2_adds(k, a);
    vstd::arithmetic::power2::lemma_pow2_adds((k - 1) as nat, a);
    assert((k + a - 1) as nat == ((k - 1) as nat + a) as nat);
    vstd::arithmetic::power2::lemma_pow2_pos(k);
    vstd::arithmetic::power2::lemma_pow2_pos(a);
    let q = v as int / pk;
    let r = v as int % pk;
    vstd::arithmetic::div_mod::lemma_fundamental_div_mod(v as int, pk);
    vstd::arithmetic::div_mod::lemma_mod_bound(v as int, pk);
    let w = (v * pow2(a)) as int;
    assert(w == q * pka + r * pa) by (nonlinear_arith)
        requires
            v == pk * q + r,
            w == v * pa,
            pka == pk * pa,
    ;
    assert(0 <= r * pa < pka) by (nonlinear_arith)
        requires
            0 <= r < pk,
            pa > 0,
            pka == pk * pa,
    ;
    vstd::arithmetic::div_mod::lemma_fundamental_div_mod_converse_div(w, pka, q, r * pa);
    vstd::arithmetic::div_mod::lemma_fundamental_div_mod_converse_mod(w, pka, q, r * pa);
    assert((r * pa > hka) == (r > hk) && (r * pa == hka) == (r == hk)) by (nonlinear_arith)
        requires
            hka == hk * pa,
            pa > 0,
    ;
}

/// Returns `|x| / 2^scale_exp` rounded to the nearest integer, ties to even, for a finite
/// `f32` pattern `x`.
pub(crate) fn round_to_integer(x: u32, scale_exp: i32) -> (r: u64)
    requires
        f32_exponent(x) != 255,
        -148 <= scale_exp <= 200,
        f32_magnitude_value(x) < pow2((scale_exp + 149 + 32) as nat),
    ensures
        r as nat == spec_round_half_even(f32_magnitude_value(x), (scale_exp + 149) as nat),
{
    proof {
        lemma_f32_fields(x);
    }
    let bits = x & 0x7fff_ffff;
    let exp = ((bits >> 23) & 0xff) as i32;
    let fraction = bits & 0x7f_ffff;
    let (significand, power): (u64, i32) = if exp == 0 {
        (fraction as u64, -149)
    } else {
        (((1u32 << 23) | fraction) as u64, exp - 150)
    };
    let ghost a: nat = (power + 149) as nat;
    let ghost k: nat = (scale_exp + 149) as nat;
    proof {
        crate::bitfacts::lemma_word_facts(x);
        vstd::arithmetic::power2::lemma2_to64();
        assert(exp == f32_exponent(x));
        assert(fraction == f32_fraction(x));
        if exp == 0 {
            assert(a == 0);
            assert(significand == fraction);
            assert(pow2(0) == 1);
            assert(f32_magnitude_value(x) == f32_fraction(x));
            assert(f32_magnitude_value(x) == significand * pow2(a));
        } else {
            assert(a == f32_exponent(x) - 1);
            assert(significand == 0x80_0000 + f32_fraction(x));
            assert(f32_magnitude_value(x) == significand * pow2(a));
        }
        assert(significand < 0x100_0000);
    }
    let shift = power - scale_exp;
    if shift >= 0 {
        let sh = shift as u64;
        proof {
            let t = sh as nat;
            vstd::arithmetic::power2::lemma_pow2_adds(t, k);
            assert(a == t + k);
            vstd::arithmetic::power2::lemma_pow2_pos(k);
            vstd::arithmetic::power2::lemma_pow2_pos(t);
            let pt = pow2(t) as int;
            let pk = pow2(k) as int;
            assert(f32_magnitude_value(x) == (significand * pt) * pk) by (nonlinear_arith)
                requires
                    f32_magnitude_value(x) == significand * pow2(a),
                    pow2(a) == pt * pk,
            ;
            vstd::arithmetic::power2::lemma_pow2_adds(k, 32);
            vstd::arithmetic::power2::lemma2_to64();
            assert(significand * pt < 0x1_0000_0000) by (nonlinear_arith)
                requires
                    (significand * pt) * pk < pk * 0x1_0000_0000,
                    pk > 0,
            ;
            if significand == 0 {
                assert(f32_magnitude_value(x) == 0);
            }
            assert(sh < 64) by {
                if sh >= 64 {
                    vstd::arithmetic::power2::lemma2_to64_rest();
                    vstd::arithmetic::power2::lemma_pow2_strictly_increases(32, t);
                    assert(significand * pt >= pt) by (nonlinear_arith)
                        requires
                            significand >= 1,
                            pt > 0,
                    ;
                }
            }
            vstd::bits::lemma_u64_shl_is_mul(significand, sh);
            vstd::arithmetic::div_mod::lemma_fundamental_div_mod_converse_div(
                f32_magnitude_value(x) as int,
                pk,
                significand * pt,
                0,
            );
            vstd::arithmetic::div_mod::lemma_fundamental_div_mod_converse_mod(
                f32_magnitude_value(x) as int,
                pk,
                significand * pt,
                0,
            );
            vstd::arithmetic::power2::lemma_pow2_pos((k - 1) as nat);
        }
        significand << sh
    } else {
        proof {
            let t = (-shift) as nat;
            assert(k == t + a);
            lemma_round_half_even_scale(significand as nat, t, a);
        }
        round_right_shift(significand, -shift)
    }
}


// ---------------------------------------------------------------------------
// Rounding to the nearest value of a format.
// ---------------------------------------------------------------------------

/// The rounded quotient is within half a step of the exact one, and no other multiple of
/// the step is nearer; where one is as near, the rounded quotient is even.
proof fn lemma_round_half_even_nearest(v: nat, k: nat, j: nat)
    requires
        k >= 1,
    ensures
        ({
            let q = spec_round_half_even(v, k) as int;
            let u = pow2(k) as int;
            let dq = if q * u >= v { q * u - v } else { v - q * u };
            let dj = if j * u >= v { j * u - v } else { v - j * u };
            &&& dq <= pow2((k - 1) as nat)
            &&& dq <= dj
            &&& (dq == dj && j != q) ==> q % 2 == 0
        }),
{
    let u = pow2(k) as int;
    let h = pow2((k - 1) as nat) as int;
    vstd::arithmetic::power2::lemma_pow2_unfold(k);
    vstd::arithmetic::power2::lemma_pow2_pos(k);
    let qq = v as int / u;
    let r = v as int % u;
    vstd::arithmetic::div_mod::lemma_fundamental_div_mod(v as int, u);
    vstd::arithmetic::div_mod::lemma_mod_bound(v as int, u);
    let q = spec_round_half_even(v, k) as int;
    assert(v == qq * u + r) by (nonlinear_arith)
        requires
            v == u * qq + r,
    ;
    let ji = j as int;
    if ji <= qq {
        assert(ji * u <= qq * u) by (nonlinear_arith)
            requires
                ji <= qq,
                u > 0,
        ;
        if ji < qq {
            assert(ji * u <= qq * u - u) by (nonlinear_arith)
                requires
                    ji < qq,
                    u > 0,
            ;
        }
    } else {
        assert(ji * u >= qq * u + u) by (nonlinear_arith)
            requires
                ji > qq,
                u > 0,
        ;
        if ji > qq + 1 {
            assert(ji * u >= qq * u + 2 * u) by (nonlinear_arith)
                requires
                    ji > qq + 1,
                    u > 0,
            ;
        }
    }
    assert((qq + 1) * u == qq * u + u) by (nonlinear_arith);
}

impl Layout {
    /// How far the format's value grid sits below the `f32` one: a format value of
    /// `n * 2^-(bias + M)` is `n * 2^D` multiples of `2^-149`.
    pub open spec fn spec_f32_shift(self) -> nat {
        (149 - self.exponent_bias - self.mantissa_bits) as nat
    }

    /// The value of a magnitude as a multiple of `2^-149`.
    pub open spec fn spec_scaled_value(self, mag: u8) -> nat {
        self.spec_magnitude_value(mag) * pow2(self.spec_f32_shift())
    }

    /// Where rounding stops giving the largest finite value: halfway between it and the
    /// value one step above it. Magnitudes at or beyond it overflow.
    pub open spec fn spec_overflow_threshold(self) -> nat {
        let mx = self.spec_max_finite_magnitude();
        let top = self.spec_scaled_value(mx);
        let below = self.spec_scaled_value((mx - 1) as u8);
        top + ((top - below) / 2) as nat
    }

    /// The distance from the magnitude's value to `v`, both multiples of `2^-149`.
    pub open spec fn spec_distance(self, mag: u8, v: nat) -> nat {
        let w = self.spec_scaled_value(mag);
        if w >= v {
            (w - v) as nat
        } else {
            (v - w) as nat
        }
    }

    /// `c` is the finite magnitude nearest to `v`; where another is as near, `c` has an
    /// even mantissa.
    pub open spec fn spec_nearest_even(self, c: u8, v: nat) -> bool {
        &&& c <= self.spec_max_finite_magnitude()
        &&& forall|d: u8|
            d <= self.spec_max_finite_magnitude() ==> {
                ||| self.spec_distance(c, v) < #[trigger] self.spec_distance(d, v)
                ||| self.spec_distance(c, v) == self.spec_distance(d, v) && (d == c || (c
                    & self.spec_mantissa_mask()) % 2 == 0)
            }
    }
}


/// Scaled values grow with the magnitude.
pub(crate) proof fn lemma_scaled_value_strictly_increases(p: Layout, a: u8, b: u8)
    requires
        p.wf(),
        a < b,
    ensures
        p.spec_scaled_value(a) < p.spec_scaled_value(b),
{
    crate::value::lemma_magnitude_value_strictly_increases(p, a, b);
    vstd::arithmetic::power2::lemma_pow2_pos(p.spec_f32_shift());
    let pd = pow2(p.spec_f32_shift()) as int;
    let va = p.spec_magnitude_value(a) as int;
    let vb = p.spec_magnitude_value(b) as int;
    assert(va * pd < vb * pd) by (nonlinear_arith)
        requires
            va < vb,
            pd > 0,
    ;
}

/// Where the magnitudes from `lo` to `hi` lie on an evenly spaced grid that holds `v`,
/// the magnitude at the rounded grid position is the nearest one, ties to even.
proof fn lemma_grid_nearest(p: Layout, c: u8, v: nat, k: nat, lo: u8, hi: u8, jlo: nat)
    requires
        p.wf(),
        k >= 1,
        lo <= c <= hi,
        c <= p.spec_max_finite_magnitude(),
        forall|d: u8|
            lo <= d <= hi ==> #[trigger] p.spec_scaled_value(d) == (d - lo + jlo) * pow2(k),
        p.spec_scaled_value(lo) <= v <= p.spec_scaled_value(hi),
        c - lo + jlo == spec_round_half_even(v, k),
        (c & p.spec_mantissa_mask()) % 2 == spec_round_half_even(v, k) % 2,
    ensures
        p.spec_nearest_even(c, v),
{
    let q = spec_round_half_even(v, k);
    let u = pow2(k) as int;
    assert forall|d: u8| d <= p.spec_max_finite_magnitude() implies {
        ||| p.spec_distance(c, v) < #[trigger] p.spec_distance(d, v)
        ||| p.spec_distance(c, v) == p.spec_distance(d, v) && (d == c || (c
            & p.spec_mantissa_mask()) % 2 == 0)
    } by {
        if lo <= d <= hi {
            let j = (d - lo + jlo) as nat;
            lemma_round_half_even_nearest(v, k, j);
            if d != c {
                assert(j != q);
            }
        } else if d < lo {
            lemma_scaled_value_strictly_increases(p, d, lo);
            lemma_round_half_even_nearest(v, k, jlo);
        } else {
            lemma_scaled_value_strictly_increases(p, hi, d);
            lemma_round_half_even_nearest(v, k, (hi - lo + jlo) as nat);
        }
    }
}


/// The magnitudes up to the least normal one lie on a grid of step `2^(D+1)`.
proof fn lemma_subnormal_grid(p: Layout)
    requires
        p.wf(),
        p.sign == SignMode::Signed,
    ensures
        forall|d: u8|
            d <= pow2(p.mantissa_bits as nat) ==> #[trigger] p.spec_scaled_value(d) == d * pow2(
                p.spec_f32_shift() + 1,
            ),
{
    let mb = p.mantissa_bits;
    let pm = pow2(mb as nat);
    let pd = pow2(p.spec_f32_shift()) as int;
    vstd::arithmetic::power2::lemma_pow2_adds(p.spec_f32_shift(), 1);
    vstd::arithmetic::power2::lemma2_to64();
    assert forall|d: u8| d <= pow2(p.mantissa_bits as nat) implies #[trigger] p.spec_scaled_value(d)
        == d * pow2(p.spec_f32_shift() + 1) by {
        crate::value::lemma_magnitude_split(p, d);
        let e = (d >> mb) as int;
        let m = (d & p.spec_mantissa_mask()) as int;
        if (d as int) < pm {
            assert(e == 0) by (nonlinear_arith)
                requires
                    d == e * pm + m,
                    0 <= m,
                    d < pm,
                    e >= 0,
            ;
            assert(e * pm == 0) by (nonlinear_arith)
                requires
                    e == 0,
            ;
            assert(m == d);
            assert(p.zero != ZeroMode::Absent);
            assert(p.spec_magnitude_value(d) == 2 * d);
        } else {
            assert(e == 1 && m == 0) by (nonlinear_arith)
                requires
                    d == e * pm + m,
                    0 <= m < pm,
                    d == pm,
                    e >= 0,
            ;
            assert(((d >> mb) as nat) == 1);
            assert(pow2(1) == 2);
            assert(p.spec_magnitude_value(d) == (pm + 0) * 2);
            assert(p.spec_magnitude_value(d) == 2 * d);
        }
        assert(p.spec_scaled_value(d) == p.spec_magnitude_value(d) * pd);
        assert(2 * d * pd == d * (pd * 2)) by (nonlinear_arith);
    }
}

/// The magnitudes of one binade, and the first of the next, lie on a grid of step
/// `2^(e+D)`, counted from `2^M` at the start of the binade.
proof fn lemma_normal_grid(p: Layout, e: nat)
    requires
        p.wf(),
        p.sign == SignMode::Signed,
        e >= 1,
        (e + 1) * pow2(p.mantissa_bits as nat) <= 0x80,
    ensures
        forall|d: u8|
            e * pow2(p.mantissa_bits as nat) <= d <= (e + 1) * pow2(p.mantissa_bits as nat)
                ==> #[trigger] p.spec_scaled_value(d) == (d - e * pow2(p.mantissa_bits as nat)
                + pow2(p.mantissa_bits as nat)) * pow2(e + p.spec_f32_shift()),
{
    let mb = p.mantissa_bits;
    let pm = pow2(mb as nat) as int;
    let pd = pow2(p.spec_f32_shift()) as int;
    let pe = pow2(e) as int;
    vstd::arithmetic::power2::lemma_pow2_adds(e, p.spec_f32_shift());
    vstd::arithmetic::power2::lemma_pow2_adds(e, 1);
    vstd::arithmetic::power2::lemma_pow2_adds(mb as nat, 1);
    vstd::arithmetic::power2::lemma2_to64();
    assert forall|d: u8|
        e * pow2(p.mantissa_bits as nat) <= d <= (e + 1) * pow2(p.mantissa_bits as nat) implies #[trigger] p.spec_scaled_value(d)
        == (d - e * pow2(p.mantissa_bits as nat) + pow2(p.mantissa_bits as nat)) * pow2(e + p.spec_f32_shift()) by {
        crate::value::lemma_magnitude_split(p, d);
        let ed = (d >> mb) as int;
        let m = (d & p.spec_mantissa_mask()) as int;
        let ei = e as int;
        if (d as int) < (ei + 1) * pm {
            assert(ed == ei && m == d - ei * pm) by (nonlinear_arith)
                requires
                    d == ed * pm + m,
                    0 <= m < pm,
                    ei * pm <= d < (ei + 1) * pm,
                    ed >= 0,
            ;
            assert(p.spec_magnitude_value(d) == (pm + m) * pe);
            assert((pm + m) * pe * pd == (pm + m) * (pe * pd)) by (nonlinear_arith);
        } else {
            assert(ed == ei + 1 && m == 0) by (nonlinear_arith)
                requires
                    d == ed * pm + m,
                    0 <= m < pm,
                    d == (ei + 1) * pm,
                    ed >= 0,
            ;
            assert(p.spec_magnitude_value(d) == (pm + 0) * pow2((e + 1) as nat));
            assert(pow2((e + 1) as nat) == pe * 2);
            assert((pm * (pe * 2)) * pd == (pm + pm) * (pe * pd)) by (nonlinear_arith);
            assert(d - ei * pm + pm == pm + pm) by (nonlinear_arith)
                requires
                    d == (ei + 1) * pm,
            ;
        }
    }
}


/// The largest finite magnitude of a signed format: its exponent and mantissa fields, and
/// the overflow threshold half a step above it.
pub proof fn lemma_max_finite_facts(p: Layout)
    requires
        p.wf(),
        p.sign == SignMode::Signed,
    ensures
        ({
            let mx = p.spec_max_finite_magnitude();
            let pm = pow2(p.mantissa_bits as nat);
            let emx = (mx >> p.mantissa_bits) as nat;
            let mmx = (mx & p.spec_mantissa_mask()) as nat;
            &&& emx >= 1
            &&& 1 <= mmx < pm
            &&& mx == emx * pm + mmx
            &&& (emx + 1) * pm <= 0x80
            &&& mx < p.spec_sign_bit()
            &&& p.nan == NanEncoding::Ieee ==> emx == p.spec_max_exponent_field() - 1 && mmx == pm - 1
            &&& p.nan == NanEncoding::Outer ==> emx == p.spec_max_exponent_field() && mmx == pm - 2
            &&& p.nan != NanEncoding::Ieee && p.nan != NanEncoding::Outer ==> emx == p.spec_max_exponent_field() && mmx == pm - 1
            &&& p.spec_mantissa_mask() == pm - 1
            &&& p.spec_scaled_value(mx) == (pm + mmx) * pow2(emx + p.spec_f32_shift())
            &&& p.spec_overflow_threshold() == (pm + mmx) * pow2(emx + p.spec_f32_shift())
                + pow2((emx + p.spec_f32_shift() - 1) as nat)
        }),
{
    let mx = p.spec_max_finite_magnitude();
    let m = p.mantissa_bits;
    let e = p.exponent_bits;
    let k = (p.storage_bits - 1) as u8;
    let sb = p.spec_sign_bit();
    crate::bits::lemma_sign_bit_facts(p);
    assert(sb == 1u8 << k);
    assert(k == e + m);
    let me = p.spec_max_exponent_field();
    let mask = p.spec_mantissa_mask();
    assert(1 <= m <= 4 && 2 <= e && e + m <= 7 && me == ((1u16 << e) - 1) as u8 && mask == ((
    1u8 << m) - 1) as u8 && sb == 1u8 << (e + m) ==> {
        &&& ((((me - 1) as u8) << m) | mask) >> m == (me - 1) as u8
        &&& ((((me - 1) as u8) << m) | mask) & mask == mask
        &&& ((((me - 1) as u8) << m) | mask) < sb
        &&& ((me << m) | ((mask - 1) as u8)) >> m == me
        &&& (2 <= m ==> ((me << m) | ((mask - 1) as u8)) & mask == (mask - 1) as u8)
        &&& ((me << m) | ((mask - 1) as u8)) < sb
        &&& ((me << m) | mask) >> m == me
        &&& ((me << m) | mask) & mask == mask
        &&& ((me << m) | mask) < sb
        &&& me >= 3
        &&& mask >= 1
        &&& (2 <= m ==> mask >= 3)
    }) by (bit_vector);
    crate::value::lemma_magnitude_split(p, mx);
    let pm = pow2(m as nat) as int;
    let emx = (mx >> m) as nat;
    let mmx = (mx & mask) as nat;
    vstd::bits::lemma_u8_pow2_no_overflow(k as nat);
    vstd::bits::lemma_u8_shl_is_mul(1, k);
    vstd::arithmetic::power2::lemma_pow2_adds(e as nat, m as nat);
    vstd::bits::lemma_u16_pow2_no_overflow(e as nat);
    vstd::bits::lemma_u16_shl_is_mul(1, e as u16);
    assert(me as int + 1 == pow2(e as nat)) by {
        crate::bitfacts::lemma_shift_masks(e);
    }
    assert(emx <= me);
    assert((emx + 1) * pm <= pow2(e as nat) * pm) by (nonlinear_arith)
        requires
            emx + 1 <= pow2(e as nat),
            pm > 0,
    ;
    assert(sb as int == pow2(k as nat));
    assert(pow2(k as nat) <= 0x80) by {
        vstd::arithmetic::power2::lemma2_to64();
        if k < 7 {
            vstd::arithmetic::power2::lemma_pow2_strictly_increases(k as nat, 7);
        }
    }
    lemma_normal_grid(p, emx);
    assert((emx + 1) * pm == emx * pm + pm) by (nonlinear_arith);
    assert(emx * pm <= mx <= (emx + 1) * pm);
    assert(emx * pm <= (mx - 1) as u8 <= (emx + 1) * pm);
    let u = pow2(emx + p.spec_f32_shift()) as int;
    vstd::arithmetic::power2::lemma_pow2_unfold(emx + p.spec_f32_shift());
    assert(p.spec_scaled_value(mx) - p.spec_scaled_value((mx - 1) as u8) == u) by (nonlinear_arith)
        requires
            p.spec_scaled_value(mx) == (mx - emx * pm + pm) * u,
            p.spec_scaled_value((mx - 1) as u8) == ((mx - 1) - emx * pm + pm) * u,
    ;
}


/// A magnitude below the least normal value rounds, on the subnormal grid, to the
/// nearest finite magnitude.
proof fn lemma_encode_subnormal(p: Layout, v: nat, q: nat)
    requires
        p.wf(),
        p.sign == SignMode::Signed,
        v < pow2(p.mantissa_bits as nat + p.spec_f32_shift() + 1),
        q == spec_round_half_even(v, p.spec_f32_shift() + 1),
    ensures
        q <= pow2(p.mantissa_bits as nat),
        p.spec_nearest_even(q as u8, v),
{
    let k = p.spec_f32_shift() + 1;
    let mb = p.mantissa_bits;
    let pm = pow2(mb as nat) as int;
    let u = pow2(k) as int;
    vstd::arithmetic::power2::lemma_pow2_adds(mb as nat, k);
    vstd::arithmetic::power2::lemma_pow2_unfold(k);
    vstd::arithmetic::power2::lemma_pow2_pos(k);
    lemma_round_half_even_nearest(v, k, 0);
    let h = pow2((k - 1) as nat) as int;
    assert(q <= pm) by (nonlinear_arith)
        requires
            q * u <= v + h,
            v < pm * u,
            u == 2 * h,
            h > 0,
    ;
    lemma_max_finite_facts(p);
    lemma_subnormal_grid(p);
    let mx = p.spec_max_finite_magnitude();
    let emx = (mx >> mb) as nat;
    assert(pm <= emx * pm) by (nonlinear_arith)
        requires
            emx >= 1,
            pm > 0,
    ;
    vstd::bits::lemma_u8_pow2_no_overflow(mb as nat);
    vstd::bits::lemma_u8_shl_is_mul(1, mb);
    let c = q as u8;
    let hi = pm as u8;
    let mask = p.spec_mantissa_mask();
    assert(1 <= mb <= 4 && c <= (1u8 << mb) && mask == ((1u8 << mb) - 1) as u8 ==> (c & mask)
        % 2 == c % 2) by (bit_vector);
    assert(p.spec_scaled_value(0) == 0);
    assert(p.spec_scaled_value(hi) == pm * u);
    assert forall|d: u8| 0 <= d <= hi implies #[trigger] p.spec_scaled_value(d) == (d - 0 + 0)
        * pow2(k) by {}
    lemma_grid_nearest(p, c, v, k, 0, hi, 0);
}

/// A magnitude from the least normal value up rounds, on the grid of its binade, to the
/// nearest finite magnitude; rounding up out of the binade gives the first magnitude of
/// the next one.
proof fn lemma_encode_normal(p: Layout, v: nat, e: nat, q: nat)
    requires
        p.wf(),
        p.sign == SignMode::Signed,
        e >= 1,
        pow2(p.mantissa_bits as nat + e + p.spec_f32_shift()) <= v,
        v < pow2(p.mantissa_bits as nat + e + p.spec_f32_shift() + 1),
        v < p.spec_overflow_threshold(),
        q == spec_round_half_even(v, e + p.spec_f32_shift()),
    ensures
        ({
            let pm = pow2(p.mantissa_bits as nat);
            let mx = p.spec_max_finite_magnitude();
            let emx = (mx >> p.mantissa_bits) as nat;
            &&& pm <= q <= 2 * pm
            &&& e <= emx
            &&& q == 2 * pm ==> e < emx
            &&& (e + 1) * pm <= 0x80
            &&& p.spec_nearest_even(
                (if q == 2 * pm {
                    ((e + 1) * pm) as int
                } else {
                    e * pm + q - pm
                }) as u8,
                v,
            )
        }),
{
    let k = e + p.spec_f32_shift();
    let mb = p.mantissa_bits;
    let pm = pow2(mb as nat) as int;
    let u = pow2(k) as int;
    let h = pow2((k - 1) as nat) as int;
    vstd::arithmetic::power2::lemma_pow2_adds(mb as nat, k);
    vstd::arithmetic::power2::lemma_pow2_adds(mb as nat + k, 1);
    vstd::arithmetic::power2::lemma_pow2_unfold(k);
    vstd::arithmetic::power2::lemma_pow2_pos(k);
    vstd::arithmetic::power2::lemma_pow2_pos(mb as nat);
    vstd::arithmetic::power2::lemma2_to64();
    assert(pow2(1) == 2);
    lemma_round_half_even_nearest(v, k, 0);
    assert(pm <= q <= 2 * pm) by (nonlinear_arith)
        requires
            q * u <= v + h,
            v - h <= q * u,
            pm * u <= v,
            v < pm * u * 2,
            u == 2 * h,
            h > 0,
    ;
    lemma_max_finite_facts(p);
    let mx = p.spec_max_finite_magnitude();
    let emx = (mx >> mb) as nat;
    let mmx = (mx & p.spec_mantissa_mask()) as nat;
    let ux = pow2(emx + p.spec_f32_shift()) as int;
    let hx = pow2((emx + p.spec_f32_shift() - 1) as nat) as int;
    vstd::arithmetic::power2::lemma_pow2_unfold(emx + p.spec_f32_shift());
    vstd::arithmetic::power2::lemma_pow2_pos(emx + p.spec_f32_shift());
    if e > emx {
        vstd::arithmetic::power2::lemma_pow2_adds(emx + p.spec_f32_shift() + 1, (e - emx - 1) as nat);
        vstd::arithmetic::power2::lemma_pow2_pos((e - emx - 1) as nat);
        vstd::arithmetic::power2::lemma_pow2_unfold(emx + p.spec_f32_shift() + 1);
        assert(emx + p.spec_f32_shift() + 1 + (e - emx - 1) as nat == k);
        let big = pow2(emx + p.spec_f32_shift() + 1) as int;
        let rest = pow2((e - emx - 1) as nat) as int;
        assert(u == big * rest);
        assert(big == 2 * ux);
        assert(u >= 2 * ux) by (nonlinear_arith)
            requires
                u == big * rest,
                rest >= 1,
                big == 2 * ux,
                ux > 0,
        ;
        assert(false) by (nonlinear_arith)
            requires
                pm * u <= v,
                v < (pm + mmx) * ux + hx,
                u >= 2 * ux,
                ux == 2 * hx,
                hx > 0,
                mmx < pm,
        ;
    }
    if e == emx {
        assert(q < pm + mmx + 1) by (nonlinear_arith)
            requires
                q * u <= v + h,
                v < (pm + mmx) * u + h,
                u == 2 * h,
                h > 0,
        ;
    }
    if e < emx {
        assert((e + 1) * pm <= emx * pm) by (nonlinear_arith)
            requires
                e + 1 <= emx,
                pm > 0,
        ;
    }
    assert((e + 1) * pm <= (emx + 1) * pm) by (nonlinear_arith)
        requires
            e <= emx,
            pm > 0,
    ;
    lemma_normal_grid(p, e);
    assert((e + 1) * pm == e * pm + pm) by (nonlinear_arith);
    assert(e * pm >= 0) by (nonlinear_arith)
        requires
            pm > 0,
    ;
    let lo = (e * pm) as u8;
    let hi = ((e + 1) * pm) as u8;
    assert(lo == e * pm);
    assert(hi == (e + 1) * pm);
    let c = (if q == 2 * pm {
        ((e + 1) * pm) as int
    } else {
        e * pm + q - pm
    }) as u8;
    assert(p.spec_scaled_value(lo) == (lo - e * pm + pm) * u);
    assert(p.spec_scaled_value(hi) == (hi - e * pm + pm) * u);
    assert(p.spec_scaled_value(lo) == pm * u);
    assert(p.spec_scaled_value(hi) == (pm + pm) * u);
    assert((pm + pm) * u == pm * u * 2) by (nonlinear_arith);
    assert(c <= mx) by {
        if e == emx {
            assert(e * pm + q - pm <= emx * pm + mmx);
        }
    }
    // The mantissa field of `c` has the parity of `q`.
    let mask = p.spec_mantissa_mask();
    vstd::bits::lemma_u8_pow2_no_overflow(mb as nat);
    vstd::bits::lemma_u8_shl_is_mul(1, mb);
    crate::value::lemma_magnitude_split(p, c);
    let ec = (c >> mb) as int;
    let mc = (c & mask) as int;
    if q == 2 * pm {
        assert(ec == e + 1 && mc == 0) by (nonlinear_arith)
            requires
                c == ec * pm + mc,
                0 <= mc < pm,
                c == (e + 1) * pm,
                ec >= 0,
        ;
        assert(q % 2 == 0);
    } else {
        assert(ec == e && mc == q - pm) by (nonlinear_arith)
            requires
                c == ec * pm + mc,
                0 <= mc < pm,
                c == e * pm + q - pm,
                pm <= q < 2 * pm,
                ec >= 0,
        ;
        assert(pm % 2 == 0) by {
            vstd::arithmetic::power2::lemma_pow2_unfold(mb as nat);
        }
        assert((q - pm) % 2 == q % 2) by (nonlinear_arith)
            requires
                pm % 2 == 0,
                q >= pm,
        ;
    }
    lemma_grid_nearest(p, c, v, k, lo, hi, pm as nat);
}


/// A finite `f32` magnitude is below `2^277`.
proof fn lemma_f32_magnitude_bound(x: u32)
    requires
        f32_exponent(x) != 255,
    ensures
        f32_magnitude_value(x) < pow2(277),
{
    lemma_f32_fields(x);
    vstd::arithmetic::power2::lemma2_to64();
    let e = f32_exponent(x);
    if e == 0 {
        vstd::arithmetic::power2::lemma_pow2_strictly_increases(23, 277);
    } else {
        let pe = pow2((e - 1) as nat) as int;
        vstd::arithmetic::power2::lemma_pow2_pos((e - 1) as nat);
        if e - 1 < 253 {
            vstd::arithmetic::power2::lemma_pow2_strictly_increases((e - 1) as nat, 253);
        }
        vstd::arithmetic::power2::lemma_pow2_adds(24, 253);
        let p253 = pow2(253) as int;
        assert((0x80_0000 + f32_fraction(x)) * pe < 0x100_0000 * p253) by (nonlinear_arith)
            requires
                f32_fraction(x) < 0x80_0000,
                0 < pe <= p253,
        ;
    }
}

/// Placing an exponent field above a mantissa field gives their combined magnitude.
proof fn lemma_pack_fields(p: Layout, ex: u8, mant: u8)
    requires
        p.wf(),
        p.sign == SignMode::Signed,
        (mant as int) < pow2(p.mantissa_bits as nat),
        ex * pow2(p.mantissa_bits as nat) + mant < p.spec_sign_bit(),
    ensures
        ((ex << p.mantissa_bits) | mant) & p.spec_storage_mask() == ex * pow2(
            p.mantissa_bits as nat,
        ) + mant,
{
    let m = p.mantissa_bits;
    let s = p.storage_bits;
    let sb = p.spec_sign_bit();
    crate::bits::lemma_sign_bit_facts(p);
    vstd::bits::lemma_u8_pow2_no_overflow(m as nat);
    vstd::bits::lemma_u8_shl_is_mul(1, m);
    let pm = 1u8 << m;
    assert(pm as int == pow2(m as nat));
    assert((ex as int) * (pm as int) < 0x80) by (nonlinear_arith)
        requires
            ex * pow2(m as nat) + mant < sb,
            sb <= 0x80,
            pm as int == pow2(m as nat),
            mant >= 0,
    ;
    let prod = ((ex as int) * (pm as int)) as u8;
    assert(1 <= m <= 4 && mant < pm && pm == 1u8 << m && (ex as u16) * (pm as u16) < 0x80
        ==> (ex << m) | mant == (ex as u16 * pm as u16 + mant as u16) as u8) by (bit_vector);
    let c = ((ex << m) | mant) as u8;
    assert(c as int == ex * pow2(m as nat) + mant);
    let k = (s - 1) as u8;
    assert(sb == 1u8 << k);
    assert(c < sb && sb == 1u8 << k && k + 1 == s && s <= 8 ==> c & (if s == 8 {
        0xffu8
    } else {
        ((1u8 << s) - 1) as u8
    }) == c) by (bit_vector);
}

/// Returns the finite magnitude nearest to a positive finite `f32` below the overflow
/// threshold, halfway cases to the even mantissa.
pub(crate) fn encode_positive_finite<F: Format>(x: u32) -> (r: u8)
    requires
        F::spec_layout().sign == SignMode::Signed,
        f32_exponent(x) != 255,
        f32_magnitude_value(x) > 0,
        f32_magnitude_value(x) < F::spec_layout().spec_overflow_threshold(),
    ensures
        F::spec_layout().spec_nearest_even(r, f32_magnitude_value(x)),
{
    proof {
        F::lemma_layout_wf();
        lemma_f32_magnitude_bound(x);
        vstd::arithmetic::power2::lemma2_to64();
    }
    let ghost p = F::spec_layout();
    let ghost v = f32_magnitude_value(x);
    let layout = F::layout();
    let mb = layout.mantissa_bits;
    let bias = layout.exponent_bias;
    proof {
        let e = layout.exponent_bits;
        crate::bitfacts::lemma_shift_masks(e);
        assert(bias <= 63);
    }
    let mantissa_bits = mb as i32;
    let min_normal_exp = 1 - bias;
    let exp = floor_log2_f32(x);
    proof {
        if exp + 149 >= 277 {
            vstd::arithmetic::power2::lemma_pow2_strictly_increases(277, (exp + 149) as nat);
        }
        assert(exp < 128);
    }
    if exp < min_normal_exp {
        let scale = min_normal_exp - mantissa_bits;
        proof {
            let k = p.spec_f32_shift() + 1;
            assert((scale + 149) as nat == k);
            if exp + 150 < mb + k {
                vstd::arithmetic::power2::lemma_pow2_strictly_increases((exp + 150) as nat, mb as nat + k);
            }
            assert(v < pow2(mb as nat + k));
            vstd::arithmetic::power2::lemma_pow2_strictly_increases(mb as nat + k, (scale + 149 + 32) as nat);
        }
        let scaled = round_to_integer(x, scale);
        proof {
            lemma_encode_subnormal(p, v, scaled as nat);
            vstd::bits::lemma_u64_pow2_no_overflow(mb as nat);
            vstd::bits::lemma_u64_shl_is_mul(1, mb as u64);
        }
        let cap = 1u64 << mb;
        let r = if scaled < cap {
            scaled
        } else {
            cap
        };
        return r as u8;
    }
    let ghost e: nat = (exp + bias) as nat;
    let mut value_exp = exp;
    let scale = value_exp - mantissa_bits;
    proof {
        let k = e + p.spec_f32_shift();
        assert((scale + 149) as nat == k);
        assert((exp + 149) as nat == mb as nat + e + p.spec_f32_shift());
        vstd::arithmetic::power2::lemma_pow2_strictly_increases((mb as nat + k + 1) as nat, (scale + 149 + 32) as nat);
    }
    let mut significand = round_to_integer(x, scale);
    proof {
        lemma_encode_normal(p, v, e, significand as nat);
        vstd::bits::lemma_u64_pow2_no_overflow(mb as nat);
        vstd::bits::lemma_u64_shl_is_mul(1, mb as u64);
        vstd::bits::lemma_u64_pow2_no_overflow((mb + 1) as nat);
        vstd::bits::lemma_u64_shl_is_mul(1, (mb + 1) as u64);
        vstd::arithmetic::power2::lemma_pow2_unfold((mb + 1) as nat);
        lemma_max_finite_facts(p);
    }
    let hidden_bit = 1u64 << mb;
    let ghost q = significand as nat;
    assert(hidden_bit << 1 == 1u64 << ((mb + 1) as u64)) by (bit_vector)
        requires
            hidden_bit == 1u64 << mb,
            mb <= 4,
    ;
    assert(hidden_bit == pow2(mb as nat));
    assert((hidden_bit << 1) == 2 * pow2(mb as nat));
    if significand >= hidden_bit << 1 {
        assert(q == 2 * pow2(mb as nat));
        proof {
            vstd::bits::lemma_u64_shr_is_div(significand, 1);
        }
        significand = significand >> 1;
        assert(significand == hidden_bit);
        value_exp = value_exp + 1;
    }
    let exponent = value_exp + bias;
    let mantissa = significand - hidden_bit;
    let exponent = exponent as u8;
    let mantissa = mantissa as u8;
    proof {
        let pm = pow2(mb as nat);
        let mx = p.spec_max_finite_magnitude();
        let ci = if q == 2 * pm {
            ((e + 1) * pm) as int
        } else {
            e * pm + q - pm
        };
        assert(e * pm + pm == (e + 1) * pm) by (nonlinear_arith);
        assert(0 <= ci <= 0x80) by (nonlinear_arith)
            requires
                ci == (if q == 2 * pm { ((e + 1) * pm) as int } else { e * pm + q - pm }),
                (e + 1) * pm <= 0x80,
                pm <= q <= 2 * pm,
                e * pm + pm == (e + 1) * pm,
                e >= 0,
                pm >= 0,
        ;
        let c = (if q == 2 * pm {
            ((e + 1) * pm) as int
        } else {
            e * pm + q - pm
        }) as u8;
        if q == 2 * pm {
            assert(exponent == e + 1);
            assert(mantissa == 0);
        } else {
            assert(exponent == e);
            assert(mantissa == q - pm);
        }
        assert(c <= mx);
        assert(c == ci);
        assert(exponent * pm + mantissa == ci);
        lemma_pack_fields(p, exponent, mantissa);
    }
    ((exponent << layout.mantissa_bits) | mantissa) & layout.storage_mask()
}


/// Returns `true` if the positive finite `f32` magnitude is at or beyond the overflow
/// threshold of the format.
pub(crate) fn is_overflowing_finite<F: Format>(x: u32) -> (r: bool)
    requires
        F::spec_layout().sign == SignMode::Signed,
        f32_exponent(x) != 255,
        f32_magnitude_value(x) > 0,
    ensures
        r == (f32_magnitude_value(x) >= F::spec_layout().spec_overflow_threshold()),
{
    proof {
        F::lemma_layout_wf();
        lemma_f32_magnitude_bound(x);
        lemma_f32_fields(x);
        vstd::arithmetic::power2::lemma2_to64();
    }
    let ghost p = F::spec_layout();
    let ghost v = f32_magnitude_value(x);
    let layout = F::layout();
    let mb = layout.mantissa_bits;
    let bias = layout.exponent_bias;
    proof {
        let e = layout.exponent_bits;
        crate::bitfacts::lemma_shift_masks(e);
        lemma_max_finite_facts(p);
    }
    let max_bits = crate::bits::max_finite_bits::<F>(false);
    let emx = max_bits >> mb;
    let mmx = max_bits & layout.mantissa_mask();
    let top_exp = emx as i32 - bias;
    let exp = floor_log2_f32(x);
    let ghost pm = pow2(mb as nat) as int;
    let ghost j: nat = (emx + p.spec_f32_shift() - 1) as nat;
    let ghost u = pow2((j + 1) as nat) as int;
    let ghost h = pow2(j) as int;
    let ghost t = p.spec_overflow_threshold() as int;
    proof {
        vstd::arithmetic::power2::lemma_pow2_unfold((j + 1) as nat);
        vstd::arithmetic::power2::lemma_pow2_pos(j);
        vstd::arithmetic::power2::lemma_pow2_adds(mb as nat, (j + 1) as nat);
        vstd::arithmetic::power2::lemma_pow2_adds((mb + 1) as nat, (j + 1) as nat);
        vstd::arithmetic::power2::lemma_pow2_unfold((mb + 1) as nat);
        assert(t == (pm + mmx) * u + h);
        assert(t < 2 * pm * u) by (nonlinear_arith)
            requires
                t == (pm + mmx) * u + h,
                mmx < pm,
                u == 2 * h,
                h > 0,
        ;
        assert(t >= pm * u) by (nonlinear_arith)
            requires
                t == (pm + mmx) * u + h,
                mmx >= 0,
                h > 0,
                u == 2 * h,
        ;
    }
    if exp > top_exp {
        proof {
            assert((exp + 149) as nat >= (mb as nat + (j + 1) + 1) as nat);
            if ((exp + 149) as nat) > ((mb as nat + (j + 1) + 1) as nat) {
                vstd::arithmetic::power2::lemma_pow2_strictly_increases((mb as nat + (j + 1) + 1) as nat, (exp + 149) as nat);
            }
            assert(pow2((mb + 1) as nat + (j + 1) as nat) == 2 * pm * u) by (nonlinear_arith)
                requires
                    pow2((mb + 1) as nat + (j + 1) as nat) == pow2((mb + 1) as nat) * u,
                    pow2((mb + 1) as nat) == 2 * pm,
            ;
        }
        return true;
    }
    if exp < top_exp {
        proof {
            assert((exp + 150) as nat <= (mb as nat + (j + 1)) as nat);
            if ((exp + 150) as nat) < ((mb as nat + (j + 1)) as nat) {
                vstd::arithmetic::power2::lemma_pow2_strictly_increases((exp + 150) as nat, (mb as nat + (j + 1)) as nat);
            }
        }
        return false;
    }
    // The magnitude lies in the binade of the largest finite value: compare it with the
    // threshold in units of half a step of that binade.
    proof {
        assert(f32_exponent(x) != 0) by {
            if f32_exponent(x) == 0 {
                vstd::arithmetic::power2::lemma_pow2_strictly_increases(23, (exp + 149) as nat);
            }
        }
    }
    let sig = 0x80_0000u32 | (x & 0x7f_ffff);
    proof {
        vstd::bits::lemma_u32_pow2_no_overflow((mb + 1) as nat);
        vstd::bits::lemma_u32_shl_is_mul(2, mb as u32);
        assert(pm <= 16) by {
            if mb < 4 {
                vstd::arithmetic::power2::lemma_pow2_strictly_increases(mb as nat, 4);
            }
        }
    }
    let limit = ((2u32 << mb) + 2 * (mmx as u32) + 1);
    proof {
        crate::bitfacts::lemma_word_facts(x);
        assert(x & 0x7f_ffff == f32_fraction(x));
        assert(limit as int == 2 * pm + 2 * mmx + 1);
        assert(t == limit * h) by (nonlinear_arith)
            requires
                t == (pm + mmx) * u + h,
                u == 2 * h,
                limit as int == 2 * pm + 2 * mmx + 1,
        ;
        // v = sig * 2^(E - 1), and h = 2^(E - 1) * 2^(22 - M).
        let ef = f32_exponent(x);
        assert(j == (ef - 1) as nat + (22 - mb) as nat);
        vstd::arithmetic::power2::lemma_pow2_adds((ef - 1) as nat, (22 - mb) as nat);
        let ps = pow2((22 - mb) as nat) as int;
        let pe = pow2((ef - 1) as nat) as int;
        vstd::arithmetic::power2::lemma_pow2_pos((22 - mb) as nat);
        vstd::arithmetic::power2::lemma_pow2_pos((ef - 1) as nat);
        assert(h == pe * ps);
        assert(v == sig * pe);
        vstd::bits::lemma_u32_shr_is_div(sig, (22 - mb) as u32);
        let fl = (sig as int) / ps;
        vstd::arithmetic::div_mod::lemma_fundamental_div_mod(sig as int, ps);
        vstd::arithmetic::div_mod::lemma_mod_bound(sig as int, ps);
        let rm = (sig as int) % ps;
        if fl >= limit {
            assert(v >= limit * h) by (nonlinear_arith)
                requires
                    v == sig * pe,
                    sig == ps * fl + rm,
                    h == pe * ps,
                    fl >= limit,
                    ps >= 1,
                    rm >= 0,
                    pe > 0,
            ;
        } else {
            assert(v < limit * h) by (nonlinear_arith)
                requires
                    v == sig * pe,
                    sig == ps * fl + rm,
                    h == pe * ps,
                    fl + 1 <= limit,
                    0 <= rm < ps,
                    pe > 0,
            ;
        }
    }
    (sig >> (22 - mb as u32)) >= limit
}


// ---------------------------------------------------------------------------
// Powers of two as `f32` patterns, and the E8M0 scale format.
// ---------------------------------------------------------------------------

/// The binary exponent of a finite, nonzero `f32` magnitude: `floor(log2(|x|))`.
pub open spec fn f32_floor_log2(x: u32) -> int {
    choose|e: int| #[trigger] f32_log2_brackets(x, e)
}

/// `2^e <= |x| < 2^(e+1)`.
pub open spec fn f32_log2_brackets(x: u32, e: int) -> bool {
    e + 149 >= 0 && pow2((e + 149) as nat) <= f32_magnitude_value(x) < pow2((e + 150) as nat)
}

/// Only one exponent brackets a magnitude between consecutive powers of two.
pub(crate) proof fn lemma_floor_log2_unique(v: nat, e1: int, e2: int)
    requires
        e1 >= 0,
        e2 >= 0,
        pow2(e1 as nat) <= v < pow2((e1 + 1) as nat),
        pow2(e2 as nat) <= v < pow2((e2 + 1) as nat),
    ensures
        e1 == e2,
{
    if e1 < e2 {
        if e1 + 1 < e2 {
            vstd::arithmetic::power2::lemma_pow2_strictly_increases((e1 + 1) as nat, e2 as nat);
        }
    }
    if e2 < e1 {
        if e2 + 1 < e1 {
            vstd::arithmetic::power2::lemma_pow2_strictly_increases((e2 + 1) as nat, e1 as nat);
        }
    }
}

/// `2^exp` as an `f32` pattern: zero below the least subnormal, infinity above the largest
/// power, and otherwise exactly.
pub fn exp2i(exp: i32) -> (r: u32)
    ensures
        exp < -149 ==> r == 0,
        exp > 127 ==> r == 0x7f80_0000,
        -149 <= exp <= 127 ==> !f32_sign(r) && f32_exponent(r) != 255 && f32_magnitude_value(r)
            == pow2((exp + 149) as nat),
{
    if exp < -149 {
        0
    } else if exp > 127 {
        0x7f80_0000
    } else if exp >= -126 {
        let biased = (exp + 127) as u32;
        proof {
            vstd::arithmetic::power2::lemma2_to64();
            vstd::bits::lemma_u32_shl_is_mul(biased, 23);
            assert(biased * 0x80_0000 < 0x8000_0000);
            let r = biased * 0x80_0000;
            assert((r as u32 % 0x8000_0000) / 0x80_0000 == biased && r as u32 % 0x80_0000 == 0) by (nonlinear_arith)
                requires
                    r == biased * 0x80_0000,
                    r < 0x8000_0000,
                    biased >= 1,
            ;
            vstd::arithmetic::power2::lemma_pow2_adds(23, (biased - 1) as nat);
        }
        biased << 23
    } else {
        let sh = (exp + 149) as u32;
        proof {
            vstd::bits::lemma_u32_pow2_no_overflow(sh as nat);
            vstd::bits::lemma_u32_shl_is_mul(1, sh);
            vstd::arithmetic::power2::lemma2_to64();
            assert(pow2(sh as nat) < 0x80_0000) by {
                if sh < 23 {
                    vstd::arithmetic::power2::lemma_pow2_strictly_increases(sh as nat, 23);
                }
            }
        }
        1u32 << sh
    }
}

/// What the E8M0 scale rule makes of an `f32`, with exponent bias `bias`: NaN for anything
/// that is not a positive finite number; otherwise the power of two nearest in linear
/// distance (halfway cases up), with everything below `2^-bias` going to `2^-bias` and
/// everything from `2^(254 - bias)` up to `2^(254 - bias)`.
pub open spec fn spec_encode_e8m0(x: u32, bias: int) -> u8 {
    if f32_exponent(x) == 255 || f32_sign(x) || f32_magnitude_value(x) == 0 {
        0xff
    } else {
        let e = f32_floor_log2(x);
        if e < -bias {
            0
        } else {
            let up = f32_magnitude_value(x) >= 3 * pow2((e + 148) as nat);
            let rounded = if up { e + 1 } else { e };
            if rounded + bias > 254 { 254 } else { (rounded + bias) as u8 }
        }
    }
}

/// The bias of every format lies between one and 127.
pub(crate) proof fn lemma_bias_range(p: Layout)
    requires
        p.wf(),
    ensures
        1 <= p.exponent_bias <= 127,
{
    if p.sign == SignMode::Signed {
        crate::bitfacts::lemma_shift_masks(p.exponent_bits);
    }
}

/// Encodes an `f32` pattern into an E8M0 scale.
pub fn encode_e8m0<F: Format>(x: u32) -> (r: u8)
    ensures
        r == spec_encode_e8m0(x, F::spec_layout().exponent_bias as int),
{
    proof {
        F::lemma_layout_wf();
        lemma_bias_range(F::spec_layout());
        lemma_f32_fields(x);
        vstd::arithmetic::power2::lemma2_to64();
    }
    let bits = x & 0x7fff_ffff;
    let exponent = (bits >> 23) & 0xff;
    let fraction = bits & 0x7f_ffff;
    if exponent == 255 || x >= 0x8000_0000 || bits == 0 {
        proof {
            if bits == 0 {
                assert(f32_magnitude_value(x) == 0);
            }
        }
        return 0xff;
    }
    proof {
        if exponent == 0 {
            assert(f32_magnitude_value(x) == f32_fraction(x));
            assert(f32_fraction(x) != 0);
        } else {
            vstd::arithmetic::power2::lemma_pow2_pos((exponent - 1) as nat);
            assert(f32_magnitude_value(x) > 0) by (nonlinear_arith)
                requires
                    f32_magnitude_value(x) == (0x80_0000 + f32_fraction(x)) * pow2((exponent - 1) as nat),
                    pow2((exponent - 1) as nat) > 0,
            ;
        }
        lemma_f32_magnitude_bound(x);
    }
    let exp = floor_log2_f32(x);
    proof {
        let e = f32_floor_log2(x);
        assert(f32_log2_brackets(x, exp as int));
        lemma_floor_log2_unique(f32_magnitude_value(x), e + 149, exp + 149);
        if exp + 149 >= 277 {
            vstd::arithmetic::power2::lemma_pow2_strictly_increases(277, (exp + 149) as nat);
        }
    }
    let bias = F::layout().exponent_bias;
    if exp < -bias {
        return 0;
    }
    // Round up where the magnitude is at least one and a half times its power of two,
    // that is, where the bit below the leading one is set.
    let up = if exponent == 0 {
        fraction >= 0x60_0000
    } else {
        fraction >= 0x40_0000
    };
    proof {
        let v = f32_magnitude_value(x);
        let k = (exp + 148) as nat;
        vstd::arithmetic::power2::lemma_pow2_unfold((exp + 149) as nat);
        if exponent == 0 {
            // Only the top subnormal binade reaches this point.
            assert(exp >= -127);
            if exp + 149 > 23 {
                vstd::arithmetic::power2::lemma_pow2_strictly_increases(23, (exp + 149) as nat);
            }
            assert(exp == -127);
            assert(pow2(21) == 0x20_0000);
            assert(v == fraction);
        } else {
            assert(exp == exponent - 127);
            let pe = pow2((exponent - 1) as nat) as int;
            vstd::arithmetic::power2::lemma_pow2_adds((exponent - 1) as nat, 22);
            assert(k == (exponent - 1) as nat + 22);
            assert(pow2(22) == 0x40_0000);
            assert(pow2(k) == pe * 0x40_0000);
            vstd::arithmetic::power2::lemma_pow2_pos((exponent - 1) as nat);
            assert((v >= 3 * pow2(k)) == (fraction >= 0x40_0000)) by (nonlinear_arith)
                requires
                    v == (0x80_0000 + fraction) * pe,
                    pow2(k) == pe * 0x40_0000,
                    pe > 0,
            ;
        }
    }
    let rounded_exp = if up {
        exp + 1
    } else {
        exp
    };
    let bits = rounded_exp + bias;
    let bits = if bits < 0 {
        0
    } else if bits > 254 {
        254
    } else {
        bits
    };
    bits as u8
}


// ---------------------------------------------------------------------------
// Decoding to `f32`.
// ---------------------------------------------------------------------------

/// An `f32` pattern put together from a sign, an exponent field and a fraction field.
proof fn lemma_f32_assemble(sign: u32, ef: u32, frac: u32)
    requires
        sign == 0 || sign == 0x8000_0000,
        ef < 256,
        frac < 0x80_0000,
    ensures
        ({
            let r = sign | (ef << 23) | frac;
            &&& f32_exponent(r) == ef
            &&& f32_fraction(r) == frac
            &&& f32_sign(r) == (sign != 0)
        }),
{
    assert((sign == 0 || sign == 0x8000_0000) && ef < 256 && frac < 0x80_0000 ==> {
        let r = sign | (ef << 23) | frac;
        &&& (r % 0x8000_0000) / 0x80_0000 == ef
        &&& r % 0x80_0000 == frac
        &&& (r >= 0x8000_0000) == (sign != 0)
    }) by (bit_vector);
}

/// How a byte reads as an `f32`: a NaN as the quiet NaN with the byte's sign, an infinity
/// as the infinity of that sign, and any other value as the `f32` of the same sign and
/// exactly the same magnitude.
pub open spec fn spec_decodes(p: Layout, b: u8, r: u32) -> bool {
    if p.spec_is_nan(b) {
        r == (if p.spec_is_negative(b) { 0xffc0_0000u32 } else { 0x7fc0_0000u32 })
    } else if p.spec_is_infinity(b) {
        r == (if p.spec_is_negative(b) { 0xff80_0000u32 } else { 0x7f80_0000u32 })
    } else {
        &&& f32_sign(r) == p.spec_is_negative(b)
        &&& f32_exponent(r) != 255
        &&& f32_magnitude_value(r) == p.spec_scaled_value(p.spec_magnitude(b))
    }
}

/// Returns the `f32` pattern of the byte's value.
pub fn decode_f32<F: Format>(bits: u8) -> (r: u32)
    ensures
        spec_decodes(F::spec_layout(), bits, r),
{
    proof {
        F::lemma_layout_wf();
        vstd::arithmetic::power2::lemma2_to64();
    }
    let ghost p = F::spec_layout();
    let layout = F::layout();
    let bias = layout.exponent_bias;
    if layout.zero == ZeroMode::Absent {
        if bits == 0xff {
            return 0x7fc0_0000;
        }
        let r = exp2i(bits as i32 - bias);
        proof {
            assert(p.spec_magnitude(bits) == bits);
            crate::bitfacts::lemma_byte_facts(bits, 0, 0);
            assert(p.spec_magnitude_value(bits) == pow2(bits as nat));
            vstd::arithmetic::power2::lemma_pow2_adds(bits as nat, 22);
            assert(p.spec_f32_shift() == 22);
        }
        return r;
    }
    let negative = crate::bits::is_negative_bits::<F>(bits);
    let sign: u32 = if negative {
        0x8000_0000
    } else {
        0
    };
    if crate::bits::is_nan_bits::<F>(bits) {
        proof {
            crate::bitfacts::lemma_word_facts(sign);
        }
        return sign | 0x7fc0_0000;
    }
    if crate::bits::is_infinity_bits::<F>(bits) {
        return if negative {
            0xff80_0000
        } else {
            0x7f80_0000
        };
    }
    let mag = crate::bits::magnitude_bits::<F>(bits);
    if mag == 0 {
        proof {
            assert(p.spec_magnitude_value(0) == 0) by {
                let k = p.mantissa_bits;
                let mask = p.spec_mantissa_mask();
                crate::bitfacts::lemma_byte_facts(0, k, mask);
            }
            lemma_f32_assemble(sign, 0, 0);
            crate::bitfacts::lemma_word_facts(sign);
        }
        return sign;
    }
    let e = crate::bits::exponent_field::<F>(bits);
    let m = crate::bits::mantissa_field::<F>(bits);
    let mb = layout.mantissa_bits;
    proof {
        crate::bits::lemma_fields(p, bits);
        crate::value::lemma_magnitude_split(p, mag);
        let me = layout.exponent_bits;
        crate::bitfacts::lemma_shift_masks(me);
        assert(mb <= 4);
        vstd::bits::lemma_u8_pow2_no_overflow(mb as nat);
        assert(pow2(mb as nat) <= 16) by {
            if mb < 4 {
                vstd::arithmetic::power2::lemma_pow2_strictly_increases(mb as nat, 4);
            }
        }
    }
    if e != 0 {
        let ef = (e as i32 - bias + 127) as u32;
        let sh = 23 - mb as u32;
        proof {
            vstd::bits::lemma_u32_pow2_no_overflow(sh as nat);
            vstd::arithmetic::power2::lemma_pow2_adds(mb as nat, sh as nat);
            assert(mb as nat + sh as nat == 23);
            assert((m as int) * pow2(sh as nat) < 0x80_0000) by (nonlinear_arith)
                requires
                    m < pow2(mb as nat),
                    pow2(mb as nat) * pow2(sh as nat) == 0x80_0000,
                    m >= 0,
            ;
            vstd::bits::lemma_u32_shl_is_mul(m as u32, sh);
        }
        let frac = (m as u32) << sh;
        proof {
            lemma_f32_assemble(sign, ef, frac);
            let r = sign | (ef << 23) | frac;
            let ps = pow2(sh as nat) as int;
            let pm = pow2(mb as nat) as int;
            let pe = pow2(e as nat) as int;
            let pf = pow2((ef - 1) as nat) as int;
            let pd = pow2(p.spec_f32_shift()) as int;
            assert((ef - 1) as nat + sh as nat == e as nat + p.spec_f32_shift());
            vstd::arithmetic::power2::lemma_pow2_adds((ef - 1) as nat, sh as nat);
            vstd::arithmetic::power2::lemma_pow2_adds(e as nat, p.spec_f32_shift());
            assert(p.spec_magnitude_value(mag) == (pm + m) * pe);
            assert(f32_magnitude_value(r) == (0x80_0000 + m * ps) * pf);
            assert((0x80_0000 + m * ps) * pf == ((pm + m) * pe) * pd) by (nonlinear_arith)
                requires
                    pm * ps == 0x80_0000,
                    pf * ps == pe * pd,
            ;
        }
        return sign | (ef << 23) | frac;
    }
    // A subnormal magnitude: normalize by the position of its highest set bit.
    let mut top: u32 = 0;
    proof {
        vstd::bits::lemma_u8_shr_is_div(m, 0);
        assert(e == 0);
        assert((mag >> mb) == e);
        assert((mag & p.spec_mantissa_mask()) == m);
        assert(mag as int == (mag >> mb) as int * pow2(mb as nat) + m as int);
        assert((mag >> mb) as int * pow2(mb as nat) == 0) by (nonlinear_arith)
            requires
                (mag >> mb) as int == 0,
        ;
        assert(m == mag);
    }
    while top < 3 && (m >> ((top + 1) as u8)) != 0
        invariant
            top <= 3,
            m != 0,
            m < 16,
            (m >> (top as u8)) != 0,
        decreases 3 - top,
    {
        top = top + 1;
    }
    let ghost t = top as nat;
    proof {
        vstd::bits::lemma_u8_shr_is_div(m, top as u8);
        vstd::bits::lemma_u8_shr_is_div(m, (top + 1) as u8);
        vstd::arithmetic::power2::lemma_pow2_pos(t);
        vstd::arithmetic::power2::lemma_pow2_pos(t + 1);
        if top == 3 {
            crate::bitfacts::lemma_byte_facts(m, 0, 0);
        }
        if (m as nat) < pow2(t) {
            vstd::arithmetic::div_mod::lemma_basic_div(m as int, pow2(t) as int);
        }
        vstd::arithmetic::div_mod::lemma_fundamental_div_mod(m as int, pow2(t + 1) as int);
        assert(pow2(t) <= m < pow2(t + 1));
        assert(m < pow2(mb as nat));
        if t >= mb {
            if t > mb {
                vstd::arithmetic::power2::lemma_pow2_strictly_increases(mb as nat, t);
            }
        }
        assert(t < mb);
        vstd::bits::lemma_u32_pow2_no_overflow(t);
        vstd::bits::lemma_u32_shl_is_mul(1, top);
    }
    let ef = (top as i32 + 1 - bias - mb as i32 + 127) as u32;
    let lead = 1u32 << top;
    let sh = 23 - top;
    let rest = m as u32 - lead;
    proof {
        vstd::bits::lemma_u32_pow2_no_overflow(sh as nat);
        vstd::arithmetic::power2::lemma_pow2_adds(t, sh as nat);
        assert(t + sh as nat == 23);
        assert((rest as int) * pow2(sh as nat) < 0x80_0000) by (nonlinear_arith)
            requires
                rest + pow2(t) == m,
                m < 2 * pow2(t),
                pow2(t) * pow2(sh as nat) == 0x80_0000,
                rest >= 0,
        ;
        vstd::bits::lemma_u32_shl_is_mul(rest, sh);
    }
    let frac = rest << sh;
    proof {
        lemma_f32_assemble(sign, ef, frac);
        let r = sign | (ef << 23) | frac;
        let ps = pow2(sh as nat) as int;
        let pt = pow2(t) as int;
        let pf = pow2((ef - 1) as nat) as int;
        let pd = pow2(p.spec_f32_shift()) as int;
        assert((ef - 1) as nat + sh as nat == p.spec_f32_shift() + 1);
        vstd::arithmetic::power2::lemma_pow2_adds((ef - 1) as nat, sh as nat);
        vstd::arithmetic::power2::lemma_pow2_adds(p.spec_f32_shift(), 1);
        assert(p.spec_magnitude_value(mag) == 2 * m);
        assert(f32_magnitude_value(r) == (0x80_0000 + rest * ps) * pf);
        assert((0x80_0000 + rest * ps) * pf == (2 * m) * pd) by (nonlinear_arith)
            requires
                pt * ps == 0x80_0000,
                rest + pt == m,
                pf * ps == pd * 2,
        ;
    }
    sign | (ef << 23) | frac
}


// ---------------------------------------------------------------------------
// Encoding from `f32`.
// ---------------------------------------------------------------------------

/// What a format makes of an `f32`: the E8M0 rules for a format without zero; NaN as the
/// format's NaN (signed where the encoding carries a sign); infinity, and any magnitude
/// at or beyond the overflow threshold, as the format's overflow pattern of that sign;
/// zero as zero; and any other value as the nearest finite magnitude (ties to even) with
/// the value's sign.
pub open spec fn spec_encodes(p: Layout, x: u32, r: u8) -> bool {
    if p.zero == ZeroMode::Absent {
        r == spec_encode_e8m0(x, p.exponent_bias as int)
    } else if f32_is_nan(x) {
        r == match p.nan {
            NanEncoding::Absent => p.spec_sign_bit(),
            NanEncoding::Ieee | NanEncoding::Outer => p.spec_nan_bits(f32_sign(x)),
            NanEncoding::Single(_) => p.spec_nan_bits(false),
        }
    } else if f32_is_infinite(x) {
        r == p.spec_overflow_bits(f32_sign(x))
    } else if f32_magnitude_value(x) == 0 {
        r == match p.zero {
            ZeroMode::Signed => if f32_sign(x) { p.spec_sign_bit() } else { 0 },
            ZeroMode::Unsigned => 0,
            ZeroMode::Absent => p.spec_nan_bits(false),
        }
    } else if f32_magnitude_value(x) >= p.spec_overflow_threshold() {
        r == p.spec_overflow_bits(f32_sign(x))
    } else {
        &&& p.spec_nearest_even(p.spec_magnitude(r), f32_magnitude_value(x))
        &&& r == (if f32_sign(x) {
            p.spec_negate(p.spec_magnitude(r))
        } else {
            p.spec_magnitude(r)
        })
    }
}

/// The magnitude of a magnitude, and of its negation, is itself.
pub(crate) proof fn lemma_magnitude_of_negate(p: Layout, c: u8)
    requires
        p.wf(),
        p.sign == SignMode::Signed,
        c < p.spec_sign_bit(),
    ensures
        p.spec_magnitude(c) == c,
        p.spec_magnitude(p.spec_negate(c)) == c,
{
    crate::bits::lemma_sign_bit_facts(p);
    let sb = p.spec_sign_bit();
    let k = (p.storage_bits - 1) as u8;
    assert(sb == 1u8 << k);
    assert(c < sb && sb == 1u8 << k && k <= 7 ==> c % sb == c && (c ^ sb) % sb == c) by (bit_vector);
}

/// Encodes an `f32` pattern in the format.
pub fn encode_f32<F: Format>(x: u32) -> (r: u8)
    ensures
        spec_encodes(F::spec_layout(), x, r),
{
    proof {
        F::lemma_layout_wf();
        lemma_f32_fields(x);
        vstd::arithmetic::power2::lemma2_to64();
    }
    let ghost p = F::spec_layout();
    let layout = F::layout();
    if layout.zero == ZeroMode::Absent {
        return encode_e8m0::<F>(x);
    }
    let negative = x >= 0x8000_0000;
    let abs = x & 0x7fff_ffff;
    let exponent = (abs >> 23) & 0xff;
    let fraction = abs & 0x7f_ffff;
    if exponent == 255 && fraction != 0 {
        return match layout.nan {
            NanEncoding::Absent => layout.sign_bit(),
            NanEncoding::Ieee | NanEncoding::Outer => crate::bits::nan_bits::<F>(negative),
            NanEncoding::Single(_) => crate::bits::nan_bits::<F>(false),
        };
    }
    if exponent == 255 {
        return crate::bits::overflow_bits::<F>(negative);
    }
    proof {
        crate::bitfacts::lemma_word_facts(x);
        crate::bitfacts::lemma_word_facts(abs);
        assert(f32_exponent(abs) == f32_exponent(x));
        assert(f32_fraction(abs) == f32_fraction(x));
        assert(!f32_sign(abs));
        assert(f32_magnitude_value(abs) == f32_magnitude_value(x));
        if f32_exponent(x) != 0 {
            vstd::arithmetic::power2::lemma_pow2_pos((f32_exponent(x) - 1) as nat);
            assert(f32_magnitude_value(x) > 0) by (nonlinear_arith)
                requires
                    f32_magnitude_value(x) == (0x80_0000 + f32_fraction(x)) * pow2((f32_exponent(x) - 1) as nat),
                    pow2((f32_exponent(x) - 1) as nat) > 0,
            ;
        }
    }
    if abs == 0 {
        return match layout.zero {
            ZeroMode::Signed => {
                if negative {
                    layout.sign_bit()
                } else {
                    0
                }
            },
            ZeroMode::Unsigned => 0,
            ZeroMode::Absent => crate::bits::nan_bits::<F>(false),
        };
    }
    if is_overflowing_finite::<F>(abs) {
        return crate::bits::overflow_bits::<F>(negative);
    }
    let bits = encode_positive_finite::<F>(abs);
    proof {
        lemma_max_finite_facts(p);
        lemma_magnitude_of_negate(p, bits);
    }
    if negative {
        crate::bits::negate_bits::<F>(bits)
    } else {
        bits
    }
}


// ---------------------------------------------------------------------------
// Encoding is a function, and it undoes decoding.
// ---------------------------------------------------------------------------

/// Neighbouring magnitudes have mantissas of different parity.
proof fn lemma_adjacent_parity(p: Layout, c: u8)
    requires
        p.wf(),
        p.sign == SignMode::Signed,
        c < 0xff,
    ensures
        ((c + 1) as u8 & p.spec_mantissa_mask()) % 2 != (c & p.spec_mantissa_mask()) % 2,
{
    let m = p.mantissa_bits;
    let mask = p.spec_mantissa_mask();
    assert(1 <= m <= 4 && mask == ((1u8 << m) - 1) as u8 && c < 0xff ==> (((c + 1) as u8)
        & mask) % 2 != (c & mask) % 2) by (bit_vector);
}

/// At most one finite magnitude is nearest to a value with ties to even.
pub proof fn lemma_nearest_even_unique(p: Layout, c1: u8, c2: u8, v: nat)
    requires
        p.wf(),
        p.sign == SignMode::Signed,
        p.spec_nearest_even(c1, v),
        p.spec_nearest_even(c2, v),
    ensures
        c1 == c2,
{
    let d1 = p.spec_distance(c1, v);
    let d2 = p.spec_distance(c2, v);
    assert(d1 <= d2 && d2 <= d1);
    if c1 != c2 {
        let (a, b) = if c1 < c2 {
            (c1, c2)
        } else {
            (c2, c1)
        };
        assert(p.spec_nearest_even(a, v));
        let sa = p.spec_scaled_value(a) as int;
        let sb = p.spec_scaled_value(b) as int;
        lemma_scaled_value_strictly_increases(p, a, b);
        assert((a & p.spec_mantissa_mask()) % 2 == 0);
        assert((b & p.spec_mantissa_mask()) % 2 == 0);
        assert(sa < v < sb);
        if a + 1 < b {
            let m = (a + 1) as u8;
            lemma_scaled_value_strictly_increases(p, a, m);
            lemma_scaled_value_strictly_increases(p, m, b);
            assert(p.spec_distance(m, v) < p.spec_distance(a, v));
            assert(false);
        }
        lemma_adjacent_parity(p, a);
    }
}

/// A finite pattern within the storage bits has a magnitude no larger than the largest
/// finite one.
pub proof fn lemma_finite_magnitude_bound(p: Layout, b: u8)
    requires
        p.wf(),
        p.sign == SignMode::Signed,
        !p.spec_is_nan(b),
        !p.spec_is_infinity(b),
    ensures
        p.spec_magnitude(b) <= p.spec_max_finite_magnitude(),
{
    crate::bits::lemma_fields(p, b);
    crate::bits::lemma_sign_bit_facts(p);
    let mag = p.spec_magnitude(b);
    let m = p.mantissa_bits;
    let e = p.exponent_bits;
    let k = (p.storage_bits - 1) as u8;
    let sb = p.spec_sign_bit();
    let me = p.spec_max_exponent_field();
    let mask = p.spec_mantissa_mask();
    assert(sb == 1u8 << k);
    assert(k == e + m);
    assert(1 <= m <= 4 && 2 <= e && e + m <= 7 && me == ((1u16 << e) - 1) as u8 && mask == ((
    1u8 << m) - 1) as u8 && sb == 1u8 << (e + m) && mag < sb ==> {
        &&& mag <= ((me << m) | mask)
        &&& (mag >> m < me ==> mag <= ((((me - 1) as u8) << m) | mask))
        &&& ((mag >> m == me ==> mag & mask != mask) ==> mag <= ((me << m) | ((mask - 1) as u8)))
    }) by (bit_vector);
    match p.nan {
        NanEncoding::Ieee => {
            assert(mag >> m != me);
        },
        _ => {},
    }
}

/// Encoding gives one pattern for each `f32`.
pub proof fn lemma_encodes_unique(p: Layout, x: u32, r1: u8, r2: u8)
    requires
        p.wf(),
        spec_encodes(p, x, r1),
        spec_encodes(p, x, r2),
    ensures
        r1 == r2,
{
    if p.zero != ZeroMode::Absent && !f32_is_nan(x) && !f32_is_infinite(x) && f32_magnitude_value(
        x,
    ) != 0 && f32_magnitude_value(x) < p.spec_overflow_threshold() {
        lemma_nearest_even_unique(p, p.spec_magnitude(r1), p.spec_magnitude(r2), f32_magnitude_value(x));
    }
}

/// Decoding a pattern that is not NaN and lies within the storage bits, then encoding the
/// result, gives back the same pattern.
pub proof fn lemma_decode_then_encode(p: Layout, b: u8, x: u32)
    requires
        p.wf(),
        !p.spec_is_nan(b),
        b & p.spec_storage_mask() == b,
        spec_decodes(p, b, x),
    ensures
        spec_encodes(p, x, b),
        forall|r: u8| spec_encodes(p, x, r) ==> r == b,
{
    vstd::arithmetic::power2::lemma2_to64();
    lemma_f32_fields(x);
    if p.zero == ZeroMode::Absent {
        // Every pattern but NaN is a power of two, which encodes back to itself.
        assert(p.spec_magnitude(b) == b);
        crate::bitfacts::lemma_byte_facts(b, 0, 0);
        assert(p.spec_magnitude_value(b) == pow2(b as nat));
        vstd::arithmetic::power2::lemma_pow2_adds(b as nat, 22);
        assert(f32_magnitude_value(x) == pow2(b as nat + 22));
        vstd::arithmetic::power2::lemma_pow2_pos(b as nat + 22);
        let e = f32_floor_log2(x);
        let ei = b as int - 127;
        vstd::arithmetic::power2::lemma_pow2_strictly_increases(b as nat + 22, b as nat + 23);
        assert(f32_log2_brackets(x, ei));
        lemma_floor_log2_unique(f32_magnitude_value(x), e + 149, ei + 149);
        vstd::arithmetic::power2::lemma_pow2_unfold(b as nat + 22);
        assert(b != 0xff);
        assert(spec_encode_e8m0(x, p.exponent_bias as int) == b);
        assert(spec_encodes(p, x, b));
    } else {
        crate::bits::lemma_sign_bit_facts(p);
        let mag = p.spec_magnitude(b);
        let sb = p.spec_sign_bit();
        let k = (p.storage_bits - 1) as u8;
        let s = p.storage_bits;
        assert(sb == 1u8 << k);
        // A pattern within the storage bits is its sign bit plus its magnitude.
        assert(sb == 1u8 << k && k + 1 == s && s <= 8 && b & (if s == 8 {
            0xffu8
        } else {
            ((1u8 << s) - 1) as u8
        }) == b ==> (b >= sb ==> b == (b % sb) ^ sb) && (b < sb ==> b == b % sb)) by (bit_vector);
        if p.spec_is_infinity(b) {
            crate::bits::lemma_fields(p, b);
            let m = p.mantissa_bits;
            let me = p.spec_max_exponent_field();
            let mask = p.spec_mantissa_mask();
            let em = p.spec_exponent_mask();
            let e = p.exponent_bits;
            assert(2 <= e && e + m <= 7 && me == ((1u16 << e) - 1) as u8 && em == ((((1u16 << e)
                - 1) as u16) << m) as u8 ==> (((me as u16) << m) as u8 | 0u8) == em) by (bit_vector);
            assert(mag == em);
            assert(p.spec_overflow_bits(f32_sign(x)) == b);
            assert(spec_encodes(p, x, b));
        } else if mag == 0 {
            assert(p.spec_magnitude_value(0) == 0) by {
                let km = p.mantissa_bits;
                let mask = p.spec_mantissa_mask();
                crate::bitfacts::lemma_byte_facts(0, km, mask);
            }
            assert(f32_magnitude_value(x) == 0);
            crate::bitfacts::lemma_byte_facts(sb, 0, 0);
            if b >= sb {
                assert(b == sb);
            } else {
                assert(b == 0);
            }
            if p.zero == ZeroMode::Unsigned {
                assert(b == 0);
            }
            assert(spec_encodes(p, x, b));
        } else {
            lemma_finite_magnitude_bound(p, b);
            lemma_max_finite_facts(p);
            let mx = p.spec_max_finite_magnitude();
            crate::value::lemma_magnitude_value_zero(p, mag);
            vstd::arithmetic::power2::lemma_pow2_pos(p.spec_f32_shift());
            let v = f32_magnitude_value(x);
            assert(v > 0) by (nonlinear_arith)
                requires
                    v == p.spec_magnitude_value(mag) * pow2(p.spec_f32_shift()),
                    p.spec_magnitude_value(mag) > 0,
                    pow2(p.spec_f32_shift()) > 0,
            ;
            if mag < mx {
                lemma_scaled_value_strictly_increases(p, mag, mx);
            }
            vstd::arithmetic::power2::lemma_pow2_pos(((mx >> p.mantissa_bits) as nat + p.spec_f32_shift() - 1) as nat);
            assert(v < p.spec_overflow_threshold());
            assert forall|d: u8| d <= p.spec_max_finite_magnitude() implies {
                ||| p.spec_distance(mag, v) < #[trigger] p.spec_distance(d, v)
                ||| p.spec_distance(mag, v) == p.spec_distance(d, v) && (d == mag || (mag
                    & p.spec_mantissa_mask()) % 2 == 0)
            } by {
                if d < mag {
                    lemma_scaled_value_strictly_increases(p, d, mag);
                } else if mag < d {
                    lemma_scaled_value_strictly_increases(p, mag, d);
                }
            }
            assert(p.spec_nearest_even(mag, v));
            lemma_magnitude_of_negate(p, mag);
            if p.zero == ZeroMode::Unsigned {
                assert(p.spec_negate(mag) == mag ^ sb);
            }
            assert(spec_encodes(p, x, b));
        }
    }
    assert forall|r: u8| spec_encodes(p, x, r) implies r == b by {
        lemma_encodes_unique(p, x, r, b);
    }
}

} // verus!
