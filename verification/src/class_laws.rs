//! Properties of classification: it looks at the magnitude alone, and the line between
//! subnormal and normal numbers is the least normal value.
use vstd::prelude::*;
use crate::format::{Layout, SignMode, ZeroMode};
use crate::micro::FpCategory;
use crate::value::{pow2, ExtValue};

verus! {

/// A number and its negation fall in the same category, for any pattern within the
/// storage bits of a signed format that is not NaN.
pub proof fn lemma_classify_ignores_sign(p: Layout, a: u8)
    requires
        p.wf(),
        p.sign == SignMode::Signed,
        a & p.spec_storage_mask() == a,
        !p.spec_is_nan(a),
    ensures
        !p.spec_is_nan(p.spec_neg(a)),
        p.spec_classify(p.spec_neg(a)).spec_category() == p.spec_classify(a).spec_category(),
{
    crate::sign_laws::lemma_neg_value(p, a);
    crate::bits::lemma_sign_bit_facts(p);
    let sb = p.spec_sign_bit();
    let k = (p.storage_bits - 1) as u8;
    crate::bitfacts::lemma_flip_sign(a, sb, k, p.spec_storage_mask());
    assert(p.spec_magnitude(p.spec_neg(a)) == p.spec_magnitude(a)) by {
        if p.zero == ZeroMode::Unsigned && p.spec_magnitude(a) == 0 {
            crate::bitfacts::lemma_byte_facts(0, 0, 0);
        }
    }
}

/// A number other than zero or an infinity is subnormal exactly when its magnitude lies
/// below that of the least normal value, `2^(M + 1)` least steps (exponent field one,
/// mantissa zero), and normal exactly when it does not.
pub proof fn lemma_subnormal_below_least_normal(p: Layout, a: u8)
    requires
        p.wf(),
        p.zero != ZeroMode::Absent,
        !p.spec_is_nan(a),
        !p.spec_is_infinity(a),
        !p.spec_classify(a).is_zero,
    ensures
        p.spec_magnitude_value(1u8 << p.mantissa_bits) == pow2((p.mantissa_bits + 1) as nat),
        (p.spec_classify(a).spec_category() == FpCategory::Subnormal) == (p.spec_magnitude_value(
            p.spec_magnitude(a),
        ) < pow2((p.mantissa_bits + 1) as nat)),
        (p.spec_classify(a).spec_category() == FpCategory::Normal) == (p.spec_magnitude_value(
            p.spec_magnitude(a),
        ) >= pow2((p.mantissa_bits + 1) as nat)),
{
    let m = p.mantissa_bits;
    let mag = p.spec_magnitude(a);
    let e = (mag >> m) as nat;
    let f = (mag & p.spec_mantissa_mask()) as nat;
    let pm = pow2(m as nat);
    crate::value::lemma_magnitude_split(p, mag);
    vstd::arithmetic::power2::lemma_pow2_unfold((m + 1) as nat);
    vstd::arithmetic::power2::lemma_pow2_pos(m as nat);
    vstd::arithmetic::power2::lemma2_to64();
    let least = 1u8 << m;
    assert(least >> m == 1 && least & ((1u8 << m) - 1) as u8 == 0) by (bit_vector)
        requires
            m <= 4,
            least == 1u8 << m,
    ;
    assert(p.spec_magnitude_value(least) == (pm + 0) * pow2(1));
    if e == 0 {
        assert(p.spec_magnitude_value(mag) == 2 * f);
    } else {
        let pe = pow2(e);
        vstd::arithmetic::power2::lemma_pow2_pos(e);
        if e > 1 {
            vstd::arithmetic::power2::lemma_pow2_strictly_increases(1, e);
        }
        assert(pe >= 2);
        assert((pm + f) * pe >= pm * 2) by (nonlinear_arith)
            requires
                pe >= 2,
                f >= 0,
                pm > 0,
        ;
    }
}

/// The categories other than subnormal and normal: NaN for exactly the NaN patterns,
/// infinite for exactly the infinities, and zero for exactly the numbers whose value is
/// zero.
pub proof fn lemma_classify_categories(p: Layout, a: u8)
    requires
        p.wf(),
    ensures
        (p.spec_classify(a).spec_category() == FpCategory::Nan) == p.spec_is_nan(a),
        (p.spec_classify(a).spec_category() == FpCategory::Infinite) == (!p.spec_is_nan(a)
            && p.spec_is_infinity(a)),
        (p.spec_classify(a).spec_category() == FpCategory::Zero) == (!p.spec_is_nan(a)
            && p.spec_value(a) == ExtValue::Finite(0)),
{
    if !p.spec_is_nan(a) && !p.spec_is_infinity(a) {
        if p.zero == ZeroMode::Absent {
            vstd::arithmetic::power2::lemma_pow2_pos((p.spec_magnitude(a) >> p.mantissa_bits) as nat);
        } else {
            crate::value::lemma_magnitude_value_zero(p, p.spec_magnitude(a));
        }
    }
}

} // verus!
