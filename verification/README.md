# floating_bar

Floating-bar rational numbers in 32 bits, verified with Verus.

An `r32` packs a sign bit, a five-bit denominator width and a 26-bit
fraction into one `u32`. The fraction holds the denominator (its leading one
implied) in its low bits and the numerator above it, so the bar between them
floats. A width of 26 is a subnormal whose numerator is one; a larger width
is `NaN`.

Layout of `src/`:

- `encoding.rs`: the bit layout and the facts that packing and unpacking
  the fields rest on.
- `gcd_facts.rs`: the greatest common divisor (computed by the `gcd` crate),
  Bezout's identity, and the uniqueness of fractions in lowest terms.
- `r32_t.rs`: the type, its fields, `from_parts`, `simplify`, rounding,
  `recip`, and the sign predicates.
- `ops.rs`: negation, `+ - * / %` and their checked and overflowing forms,
  and `pow`.
- `cmp.rs`: `==`, `partial_cmp`, `max`, `min`.
- `convert.rs`, `parse.rs`, `fmt.rs`: conversions from small integers,
  reading from text, writing to text.
- `laws.rs`, `ord_laws.rs`, `roundtrip.rs`: properties that relate several
  operations, such as `==` being equality of values, the exactness of the
  arithmetic, and that parsing the written text gives the number back.

`app/` holds what cannot be verified here: conversions to floats and
`Display`/`Debug` through a wrapper type.
