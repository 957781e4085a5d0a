# microfloat

8-bit and sub-byte floating point formats (`f8e3m4`, `f8e4m3`, `f8e4m3b11fnuz`,
`f8e4m3fn`, `f8e4m3fnuz`, `f8e5m2`, `f8e5m2fnuz`, `f8e8m0fnu`, `f4e2m1fn`, `f6e2m3fn`,
`f6e3m2fn`), with every bit-level operation proved correct by Verus.

## Layout

- `src/` is the verified library. A format is a `Layout` (field widths, bias, and the
  rules for zero, NaN and overflow); a value is a `MicroFloat<F>` holding its raw byte.
  - `format.rs`, `formats.rs`: layouts and the eleven formats.
  - `bits.rs`: classification, special patterns, negation, stepping, the total-order key.
  - `value.rs`: the exact value of a pattern, and the order it induces.
  - `convert.rs`: rounding an `f32` to a format (nearest, ties to even) and decoding.
  - `whole.rs`: floor, ceiling, truncation and ties-to-even rounding to whole numbers.
  - `micro.rs`, `compare.rs`, `ops.rs`, `integral.rs`: the methods of `MicroFloat`,
    equality and order, and the decisions around arithmetic and math functions, which
    take the `f32` result of the computation and round it.
  - `laws.rs`, `sign_laws.rs`, `order_laws.rs`, `rounding_laws.rs`: properties that span
    operations (round trips, neighbours, negation, order, monotone rounding).
- `app/` holds the user-facing types, which evaluate arithmetic and the other math
  functions in `f32` (with `libm`) and implement formatting, parsing and the traits of `num-traits`,
  `serde`, `bytemuck`, `rkyv` and `rand`.
- `tests/` runs the library on concrete values.
