//! Bit-level facts about the 32-bit floating-bar word.
//!
//! A word is laid out as `s | size:5 | fraction:26`: the sign bit, the number
//! of fraction bits that belong to the denominator, and the fraction itself.
//! The low `size` bits of the fraction hold the denominator without its
//! leading one; the bits above them hold the numerator.
use vstd::prelude::*;
use vstd::std_specs::bits::{
    u32_leading_zeros, axiom_u32_leading_zeros, u64_leading_zeros, axiom_u64_leading_zeros,
};

verus! {

/// Number of fraction bits that a denominator `d > 0` occupies, that is the
/// position of its highest set bit.
pub open spec fn denom_width(d: u32) -> u32 {
    (31 - u32_leading_zeros(d)) as u32
}

/// Mask of the low `s` bits of a word.
pub open spec fn low_mask(s: u32) -> u32 {
    !(0xFFFF_FFFFu32 << s)
}

/// The 26-bit fraction field that `from_parts` builds from a numerator and a
/// denominator of width `s`.
pub open spec fn packed_fraction(s: u32, n: u32, d: u32) -> u32 {
    ((((low_mask(s) ^ 0x03FF_FFFFu32) >> s) & n) << s) | (d & low_mask(s))
}

/// The word of the sign bit alone.
pub open spec fn sign_word(sign: bool) -> u32 {
    if sign { 0x8000_0000u32 } else { 0u32 }
}

/// A denominator `d` and numerator `n` can be stored exactly in one word: the
/// denominator takes at most 26 bits, and the numerator fits in the fraction
/// bits left over, except for the subnormal width 26, whose numerator is
/// always one.
pub open spec fn parts_fit(n: u32, d: u32) -> bool {
    &&& d > 0
    &&& d < 0x0800_0000u32
    &&& (denom_width(d) < 26 ==> n >> (26 - denom_width(d)) as u32 == 0)
    &&& (denom_width(d) == 26 ==> n == 1)
}

/// The highest set bit of `d > 0` is at `denom_width(d)`.
pub proof fn lemma_denom_width(d: u32)
    requires
        d > 0,
    ensures
        denom_width(d) <= 31,
        (d >> denom_width(d)) & 1 == 1,
        denom_width(d) < 31 ==> d >> (denom_width(d) + 1) as u32 == 0,
        d < 0x0800_0000u32 ==> denom_width(d) <= 26,
        d < 0x0400_0000u32 ==> denom_width(d) < 26,
        d >= 0x0400_0000u32 ==> denom_width(d) >= 26,
{
    axiom_u32_leading_zeros(d);
    let lz = u32_leading_zeros(d);
    let s = denom_width(d);
    assert(s == 31u32 - lz);
    assert((d >> (31u32 - lz) as u32) & 1u32 != 0u32);
    assert(d >> (32u32 - lz) as u32 == 0);
    assert((d >> s) & 1u32 != 0u32 ==> (d >> s) & 1 == 1) by (bit_vector);
    assert(s < 31 && d >> (32u32 - lz) as u32 == 0 && s == 31u32 - lz ==> d >> (s + 1) as u32
        == 0) by (bit_vector);
    assert((d >> s) & 1 == 1 && s <= 31 && (s < 31 ==> d >> (s + 1) as u32 == 0) ==> (d
        < 0x0800_0000u32 ==> s <= 26) && (d < 0x0400_0000u32 ==> s < 26) && (d
        >= 0x0400_0000u32 ==> s >= 26)) by (bit_vector);
}

/// Packing a sign, a denominator of width `s` and a numerator that fits
/// beside it yields a word whose fields decode back to the same parts.
pub proof fn lemma_pack_fields(sign_w: u32, s: u32, n: u32, d: u32)
    by (bit_vector)
    requires
        sign_w == 0 || sign_w == 0x8000_0000u32,
        s <= 26,
        (d >> s) & 1 == 1,
        d >> (s + 1) as u32 == 0,
    ensures
        ({
            let field = !(0xFFFF_FFFFu32 << s);
            let b = sign_w | (s << 26u32) | (((((field ^ 0x03FF_FFFFu32) >> s) & n) << s) | (d
                & field));
            &&& (b & 0x7C00_0000u32) >> 26u32 == s
            &&& b & 0x8000_0000u32 == sign_w
            &&& (b & !(0xFFFF_FFFFu32 << s)) | (1u32 << s) == d
            &&& (s < 26 && n >> (26 - s) as u32 == 0) ==> (b & 0x03FF_FFFFu32) >> s == n
        }),
{
}

/// The position of the highest set bit is unique.
pub proof fn lemma_top_bit_unique(d: u32, a: u32, b: u32)
    by (bit_vector)
    requires
        a <= 31,
        b <= 31,
        (d >> a) & 1 == 1,
        (d >> b) & 1 == 1,
        a < 31 ==> d >> (a + 1) as u32 == 0,
        b < 31 ==> d >> (b + 1) as u32 == 0,
    ensures
        a == b,
{
}

/// Facts about the fields of a word `b` with size field `s`.
pub proof fn lemma_word_fields(b: u32, s: u32)
    by (bit_vector)
    requires
        s == (b & 0x7C00_0000u32) >> 26u32,
    ensures
        s <= 31,
        (b & 0x03FF_FFFFu32) >> s <= 0x03FF_FFFFu32,
        s > 26 ==> (b & 0x03FF_FFFFu32) >> s == 0,
        ({
            let den = (b & !(0xFFFF_FFFFu32 << s)) | (1u32 << s);
            &&& den > 0
            &&& (den >> s) & 1 == 1
            &&& s < 31 ==> den >> (s + 1) as u32 == 0
            &&& s <= 26 ==> den < 0x0800_0000u32
            &&& s < 26 ==> ((b & 0x03FF_FFFFu32) >> s) >> (26 - s) as u32 == 0
            &&& s < 26 ==> (b & 0x8000_0000u32) | (s << 26u32) | (((((!(0xFFFF_FFFFu32 << s)
                ^ 0x03FF_FFFFu32) >> s) & ((b & 0x03FF_FFFFu32) >> s)) << s) | (den & !(
            0xFFFF_FFFFu32 << s))) == b
            &&& s == 26 ==> (b & 0x8000_0000u32) | (s << 26u32) | (((((!(0xFFFF_FFFFu32 << s)
                ^ 0x03FF_FFFFu32) >> s) & 1u32) << s) | (den & !(0xFFFF_FFFFu32 << s))) == b
        }),
{
}

/// Shrinking a number keeps it under a power-of-two bound.
pub proof fn lemma_shr_zero_mono(a: u32, b: u32, k: u32)
    by (bit_vector)
    requires
        a <= b,
        b >> k == 0,
    ensures
        a >> k == 0,
{
}

/// A number at most `d` has its top bit no higher than `d`'s.
pub proof fn lemma_top_bit_mono(a: u32, d: u32, x: u32, y: u32)
    by (bit_vector)
    requires
        a <= d,
        x <= 31,
        y <= 31,
        (a >> x) & 1 == 1,
        y < 31 ==> d >> (y + 1) as u32 == 0,
    ensures
        x <= y,
{
}

/// A whole number below `2^26` fits over the denominator one.
pub proof fn lemma_whole_fits(n: u32)
    requires
        n <= 0x03FF_FFFF,
    ensures
        denom_width(1) == 0,
        parts_fit(n, 1),
{
    lemma_denom_width(1);
    assert((1u32 >> 0u32) & 1 == 1 && 1u32 >> 1u32 == 0) by (bit_vector);
    lemma_top_bit_unique(1, 0, denom_width(1));
    assert(n <= 0x03FF_FFFF ==> n >> 26u32 == 0) by (bit_vector);
}

/// Swapping numerator and denominator of a fitting, non-subnormal fraction
/// with a nonzero numerator gives a fitting fraction.
pub proof fn lemma_swap_fits(n: u32, d: u32)
    requires
        n > 0,
        parts_fit(n, d),
        denom_width(d) < 26,
    ensures
        parts_fit(d, n),
{
    lemma_denom_width(d);
    lemma_denom_width(n);
    let s = denom_width(d);
    let t = denom_width(n);
    assert(n >> (26 - s) as u32 == 0 && (n >> t) & 1 == 1 && d >> (s + 1) as u32 == 0 && s < 26
        && t <= 31 ==> t < 26 && d >> (26 - t) as u32 == 0 && n < 0x0800_0000u32) by (bit_vector);
}

/// A reduced fraction `n / d` held in 64-bit words fits in one `r32`: the
/// width of the denominator plus the bit length of the numerator is at most
/// the 26 fraction bits.
pub open spec fn frac_fits(n: u64, d: u64) -> bool {
    (63 - u64_leading_zeros(d)) + (64 - u64_leading_zeros(n)) <= 26
}

/// A fraction that passes `frac_fits` can be stored by `from_parts`.
pub proof fn lemma_frac_fits(n: u64, d: u64)
    requires
        d > 0,
        n == 0 ==> d == 1,
        frac_fits(n, d),
    ensures
        n < 0x0400_0000,
        d < 0x0800_0000,
        parts_fit(n as u32, d as u32),
{
    axiom_u64_leading_zeros(d);
    axiom_u64_leading_zeros(n);
    let ld = u64_leading_zeros(d);
    let ln = u64_leading_zeros(n);
    let w = (63 - ld) as u64;
    let k = (64 - ln) as u64;
    assert(d >> (w + 1) as u64 == 0);
    assert((d >> w) & 1u64 != 0u64);
    assert(n >> k == 0);
    assert(w + k <= 26);
    assert(d >> (w + 1) as u64 == 0 && (d >> w) & 1u64 != 0u64 && n >> k == 0 && w + k <= 26 ==> d
        < 0x0800_0000u64 && n < 0x0400_0000u64 && ((d as u32) >> (w as u32)) & 1 == 1 && (d as u32)
        >> (w + 1) as u32 == 0 && (w < 26 ==> (n as u32) >> (26 - w) as u32 == 0) && (w == 26 ==> n
        == 0)) by (bit_vector);
    let d32 = d as u32;
    lemma_denom_width(d32);
    lemma_top_bit_unique(d32, w as u32, denom_width(d32));
    if w == 26 {
        assert(n == 0);
        assert(d == 1);
        assert(false) by (bit_vector)
            requires
                d == 1,
                (d >> w) & 1u64 != 0u64,
                w == 26,
        ;
    }
}

} // verus!
