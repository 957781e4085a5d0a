//! Whether a value is a whole number, and an odd one: what raising to a power depends on.
use vstd::prelude::*;
use crate::bits::{exponent_field, is_infinity_bits, is_nan_bits, magnitude_bits, mantissa_field};
use crate::format::{Format, Layout, SignMode, ZeroMode};
use crate::value::pow2;

verus! {

impl Layout {
    /// The magnitude value of one: values are multiples of `1 / 2^(bias + M)`.
    pub open spec fn spec_value_scale(self) -> nat {
        pow2((self.exponent_bias + self.mantissa_bits) as nat)
    }

    /// The value is a whole number. Infinity counts as one; NaN does not.
    pub open spec fn spec_is_integer(self, b: u8) -> bool {
        &&& !self.spec_is_nan(b)
        &&& self.spec_is_infinity(b) || self.spec_magnitude_value(self.spec_magnitude(b))
            % self.spec_value_scale() == 0
    }

    /// The value is a finite odd whole number.
    pub open spec fn spec_is_odd_integer(self, b: u8) -> bool {
        let v = self.spec_magnitude_value(self.spec_magnitude(b));
        &&& !self.spec_is_nan(b)
        &&& !self.spec_is_infinity(b)
        &&& v % self.spec_value_scale() == 0
        &&& (v / self.spec_value_scale()) % 2 == 1
    }
}

/// `sig * 2^e` against the scale `2^s`: a whole multiple exactly when the low `s - e` bits
/// of `sig` are clear, with the quotient `sig / 2^(s - e)`.
proof fn lemma_scaled_quotient(sig: nat, e: nat, s: nat)
    requires
        e < s,
    ensures
        (sig * pow2(e)) % pow2(s) == pow2(e) * (sig % pow2((s - e) as nat)),
        (sig * pow2(e)) / pow2(s) == sig / pow2((s - e) as nat),
        ((sig * pow2(e)) % pow2(s) == 0) == (sig % pow2((s - e) as nat) == 0),
{
    let k = (s - e) as nat;
    let pe = pow2(e) as int;
    let pk = pow2(k) as int;
    vstd::arithmetic::power2::lemma_pow2_adds(e, k);
    vstd::arithmetic::power2::lemma_pow2_pos(e);
    vstd::arithmetic::power2::lemma_pow2_pos(k);
    assert(sig * pe == pe * sig) by (nonlinear_arith);
    vstd::arithmetic::div_mod::lemma_truncate_middle(sig as int, pe, pk);
    vstd::arithmetic::div_mod::lemma_div_denominator(pe * sig, pe, pk);
    vstd::arithmetic::div_mod::lemma_div_multiples_vanish(sig as int, pe);
    vstd::arithmetic::div_mod::lemma_mod_pos_bound(sig as int, pk);
    let si = sig as int;
    assert((pe * (si % pk) == 0) == (si % pk == 0)) by (nonlinear_arith)
        requires
            pe > 0,
            si % pk >= 0,
    ;
}

/// `sig * 2^e` against the scale `2^s` where `e >= s`: a whole multiple, with quotient
/// `sig * 2^(e - s)`, odd only when `e == s` and `sig` is odd.
proof fn lemma_scaled_whole(sig: nat, e: nat, s: nat)
    requires
        s <= e,
    ensures
        (sig * pow2(e)) % pow2(s) == 0,
        ((sig * pow2(e)) / pow2(s)) % 2 == 1 <==> (e == s && sig % 2 == 1),
{
    let k = (e - s) as nat;
    let ps = pow2(s) as int;
    let pk = pow2(k) as int;
    vstd::arithmetic::power2::lemma_pow2_adds(s, k);
    vstd::arithmetic::power2::lemma_pow2_pos(s);
    vstd::arithmetic::power2::lemma_pow2_pos(k);
    let q = sig as int * pk;
    assert(sig * pow2(e) == ps * q) by (nonlinear_arith)
        requires
            pow2(e) == ps * pk,
            q == sig * pk,
    ;
    vstd::arithmetic::div_mod::lemma_mod_multiples_basic(q, ps);
    assert(ps * q == q * ps) by (nonlinear_arith);
    vstd::arithmetic::div_mod::lemma_div_multiples_vanish(q, ps);
    if k == 0 {
        assert(pk == 1) by {
            vstd::arithmetic::power2::lemma2_to64();
        }
        assert(q == sig);
    } else {
        vstd::arithmetic::power2::lemma_pow2_unfold(k);
        let ph = pow2((k - 1) as nat) as int;
        assert(q == 2 * (sig * ph)) by (nonlinear_arith)
            requires
                pk == 2 * ph,
                q == sig * pk,
        ;
    }
}

/// Returns whether the value of the byte is a whole number (infinity counts as one), and
/// whether it is a finite odd whole number.
pub(crate) fn integer_kind<F: Format>(bits: u8) -> (r: (bool, bool))
    ensures
        r.0 == F::spec_layout().spec_is_integer(bits),
        r.1 == F::spec_layout().spec_is_odd_integer(bits),
{
    proof {
        F::lemma_layout_wf();
    }
    let p = F::layout();
    if is_nan_bits::<F>(bits) {
        return (false, false);
    }
    if is_infinity_bits::<F>(bits) {
        return (true, false);
    }
    let ghost scale = p.spec_value_scale();
    let ghost v = p.spec_magnitude_value(p.spec_magnitude(bits));
    if p.zero == ZeroMode::Absent {
        // Every value is `2^(bits - 127)`.
        proof {
            assert(p.spec_magnitude(bits) == bits);
            crate::bitfacts::lemma_byte_facts(bits, 0, 0);
            assert(v == pow2(bits as nat));
            assert(scale == pow2(127));
            if bits >= 127 {
                lemma_scaled_whole(1, bits as nat, 127);
                assert(1 * pow2(bits as nat) == v);
            } else {
                vstd::arithmetic::power2::lemma_pow2_strictly_increases(bits as nat, 127);
                vstd::arithmetic::power2::lemma_pow2_pos(bits as nat);
                vstd::arithmetic::div_mod::lemma_small_mod(v, scale);
            }
        }
        return (bits >= 127, bits == 127);
    }
    let e = exponent_field::<F>(bits);
    let m = mantissa_field::<F>(bits);
    let mb = p.mantissa_bits;
    // The value is `sig * 2^x / 2^s`.
    proof {
        crate::bits::lemma_fields(p, bits);
        crate::bitfacts::lemma_shift_masks(mb);
        vstd::bits::lemma_u8_pow2_no_overflow(mb as nat);
        vstd::bits::lemma_u8_shl_is_mul(1, mb);
        vstd::arithmetic::power2::lemma2_to64();
        assert(m <= p.spec_mantissa_mask());
        vstd::bits::lemma_u32_pow2_no_overflow(mb as nat);
        vstd::bits::lemma_u32_shl_is_mul(1, mb as u32);
        assert(pow2(mb as nat) <= 16) by {
            if mb < 4 {
                vstd::arithmetic::power2::lemma_pow2_strictly_increases(mb as nat, 4);
            }
        }
    }
    let sig: u32 = if e == 0 { 2 * m as u32 } else { (1u32 << mb as u32) + m as u32 };
    let x: u32 = if e == 0 { 0 } else { e as u32 };
    let s: u32 = (p.exponent_bias as u32) + (mb as u32);
    proof {
        assert(sig < 32);
        assert(v == sig * pow2(x as nat)) by {
            if e == 0 {
                assert(pow2(0) == 1);
            }
        }
        assert(scale == pow2(s as nat));
    }
    if x >= s {
        proof {
            lemma_scaled_whole(sig as nat, x as nat, s as nat);
        }
        (true, x == s && sig % 2 == 1)
    } else {
        let k = s - x;
        proof {
            lemma_scaled_quotient(sig as nat, x as nat, s as nat);
        }
        if k >= 6 {
            proof {
                vstd::arithmetic::power2::lemma_pow2_strictly_increases(5, k as nat);
                vstd::arithmetic::div_mod::lemma_small_mod(sig as nat, pow2(k as nat));
                vstd::arithmetic::div_mod::lemma_basic_div(sig as int, pow2(k as nat) as int);
            }
            (sig == 0, false)
        } else {
            let d = 1u32 << k;
            proof {
                vstd::bits::lemma_u32_pow2_no_overflow(k as nat);
                vstd::bits::lemma_u32_shl_is_mul(1, k);
            }
            (sig % d == 0, sig % d == 0 && (sig / d) % 2 == 1)
        }
    }
}

} // verus!
