use microfloat::{
    Float4E2M1FnFormat, Float6E2M3FnFormat, Float6E3M2FnFormat, Float8E3M4Format,
    Float8E4M3B11FnuzFormat, Float8E4M3FnFormat, Float8E4M3FnuzFormat, Float8E4M3Format,
    Float8E5M2FnuzFormat, Float8E5M2Format, Float8E8M0FnuFormat, Format,
};

#[test]
fn single_nan_unsigned_zero_b11_format() {
    assert!(!<Float8E4M3B11FnuzFormat as Format>::has_inf());
    assert!(<Float8E4M3B11FnuzFormat as Format>::has_nan());
    assert!(!<Float8E4M3B11FnuzFormat as Format>::has_finite_only());
}

#[test]
fn ieee_formats_has_inf_nan() {
    assert!(<Float8E5M2Format as Format>::has_inf());
    assert!(<Float8E5M2Format as Format>::has_nan());
    assert!(!<Float8E5M2Format as Format>::has_finite_only());

    assert!(<Float8E4M3Format as Format>::has_inf());
    assert!(<Float8E4M3Format as Format>::has_nan());
    assert!(!<Float8E4M3Format as Format>::has_finite_only());

    assert!(<Float8E3M4Format as Format>::has_inf());
    assert!(<Float8E3M4Format as Format>::has_nan());
    assert!(!<Float8E3M4Format as Format>::has_finite_only());
}

#[test]
fn outer_nan_formats_has_nan() {
    assert!(!<Float8E4M3FnFormat as Format>::has_inf());
    assert!(<Float8E4M3FnFormat as Format>::has_nan());
    assert!(!<Float8E4M3FnFormat as Format>::has_finite_only());
}

#[test]
fn single_nan_unsigned_zero_formats() {
    assert!(!<Float8E4M3FnuzFormat as Format>::has_inf());
    assert!(<Float8E4M3FnuzFormat as Format>::has_nan());
    assert!(!<Float8E4M3FnuzFormat as Format>::has_finite_only());

    assert!(!<Float8E5M2FnuzFormat as Format>::has_inf());
    assert!(<Float8E5M2FnuzFormat as Format>::has_nan());
    assert!(!<Float8E5M2FnuzFormat as Format>::has_finite_only());
}

#[test]
fn unsigned_e8m0_format() {
    assert!(!<Float8E8M0FnuFormat as Format>::has_inf());
    assert!(<Float8E8M0FnuFormat as Format>::has_nan());
    assert!(!<Float8E8M0FnuFormat as Format>::has_finite_only());
}

#[test]
fn saturate_formats_finite_only() {
    assert!(!<Float4E2M1FnFormat as Format>::has_inf());
    assert!(!<Float4E2M1FnFormat as Format>::has_nan());
    assert!(<Float4E2M1FnFormat as Format>::has_finite_only());

    assert!(!<Float6E2M3FnFormat as Format>::has_inf());
    assert!(!<Float6E2M3FnFormat as Format>::has_nan());
    assert!(<Float6E2M3FnFormat as Format>::has_finite_only());

    assert!(!<Float6E3M2FnFormat as Format>::has_inf());
    assert!(!<Float6E3M2FnFormat as Format>::has_nan());
    assert!(<Float6E3M2FnFormat as Format>::has_finite_only());
}
