//! Floating-bar rational numbers packed into 32 bits.
//!
//! An `r32` stores a sign, a numerator and a denominator in one word; the
//! bar between numerator and denominator floats, so that small denominators
//! leave room for large numerators. Results of arithmetic are cancelled to
//! lowest terms and must fit back into the word.
mod encoding;
mod gcd_facts;
mod r32_t;
mod ops;
mod cmp;
mod convert;
mod parse;
mod fmt;
mod laws;
mod ord_laws;
mod roundtrip;
mod fit_laws;

pub use encoding::{denom_width, low_mask, packed_fraction, sign_word, parts_fit, frac_fits};
pub use gcd_facts::{
    spec_gcd, bezout, divides, lemma_gcd_divides, lemma_bezout, lemma_gcd_greatest,
    lemma_coprime_divides, lemma_gcd_reduced, lemma_reduced_unique, lemma_gcd_comm,
};
pub use r32_t::r32;
pub use ops::{reduce, wrapped, power, power_fits, pow_base, exponent};
pub use convert::magnitude;
pub use parse::{
    RatioErrKind, ParseRatioErr, is_digit, all_digits, digits_value, parse_u32_spec, first_bar,
    bit_len, ratio_spec, whole_spec, body_spec, parse_spec,
};
pub use fmt::{decimal, nan_text, ascii_chars, debug_text, display_text};
pub use laws::{
    lemma_eq_iff_same_value, frac_fits_parts, lemma_mul_value, lemma_mul_commutes,
    lemma_add_value, lemma_add_commutes, eq_key, lemma_eq_equivalence, lemma_neg,
    lemma_sub_value, lemma_div_value, lemma_rem_value, lemma_simplify_idempotent,
    lemma_trunc_plus_fract, lemma_recip_involutive, lemma_abs, lemma_from_i16_value,
    lemma_from_u16_value, lemma_from_i8_value, lemma_mul_recip, lemma_pow_value,
    lemma_from_u8_value, lemma_sign_predicates,
};
pub use ord_laws::{
    lemma_cmp_equal_iff_eq, reversed, lemma_cmp_antisymmetric, lemma_cmp_is_value_order,
    lemma_cmp_transitive,
    lemma_max_min_select, lemma_max_min_value,
};
pub use fit_laws::{
    lemma_frac_fits_exact, lemma_reduced_fits_exact, lemma_add_fits_exact, lemma_mul_fits_exact,
    lemma_rem_fits_exact, lemma_div_sign_free, lemma_div_fits_exact,
};
pub use roundtrip::{
    lemma_display_parse, is_space, lemma_whitespace_refused, lemma_ratio_value, lemma_whole_value,
};
