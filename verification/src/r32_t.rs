//! The 32-bit floating-bar type.
use vstd::prelude::*;
use crate::encoding::{
    denom_width, low_mask, packed_fraction, sign_word, parts_fit, lemma_denom_width,
    lemma_pack_fields, lemma_top_bit_unique, lemma_word_fields, lemma_whole_fits, lemma_swap_fits,
    lemma_shr_zero_mono, lemma_top_bit_mono,
};
use crate::gcd_facts::{spec_gcd, gcd_u32, lemma_gcd_reduced};
use vstd::arithmetic::div_mod::{
    lemma_mod_decreases, lemma_small_mod, lemma_fundamental_div_mod,
    lemma_fundamental_div_mod_converse,
};

verus! {

/// The 32-bit floating bar type.
///
/// A value is a sign, a numerator and a denominator packed into one word:
/// bit 31 is the sign, bits 26 to 30 give the number of fraction bits that
/// belong to the denominator, and bits 0 to 25 are the fraction. The
/// denominator's leading one is implied; a denominator width of 26 leaves no
/// room for the numerator, which is then one (a subnormal), and a width above
/// 26 is `NaN`.
#[allow(non_camel_case_types)]
#[derive(Clone, Copy, Debug, Eq, Hash)]
pub struct r32(pub u32);

const SIGN_BIT: u32 = 0x8000_0000;
const SIZE_FIELD: u32 = 0x7C00_0000;
const FRACTION_FIELD: u32 = 0x03FF_FFFF;
const FRACTION_SIZE: u32 = 26;

impl r32 {
    /// The words of zero, of one and of the `NaN` that `nan` returns.
    pub proof fn lemma_zero_and_nan_words()
        ensures
            r32(0).size_spec() == 0,
            r32(0).numer_spec() == 0,
            r32(0).denom_spec() == 1,
            !r32(0).sign_spec(),
            !r32(0).nan_spec(),
            r32(0x7C00_0000).nan_spec(),
            r32(1).num() == 1,
            r32(1).den() == 1,
            !r32(1).nan_spec(),
    {
        assert((0u32 & 0x7C00_0000u32) >> 26u32 == 0 && (0u32 & 0x03FF_FFFFu32) >> 0u32 == 0 && 0u32
            & 0x8000_0000u32 == 0 && (0u32 & !(0xFFFF_FFFFu32 << 0u32)) | (1u32 << 0u32) == 1
            && (0x7C00_0000u32 & 0x7C00_0000u32) >> 26u32 == 31 && (1u32 & 0x7C00_0000u32) >> 26u32
            == 0 && (1u32 & 0x03FF_FFFFu32) >> 0u32 == 1 && 1u32 & 0x8000_0000u32 == 0 && (1u32
            & !(0xFFFF_FFFFu32 << 0u32)) | (1u32 << 0u32) == 1) by (bit_vector);
    }

    /// Not a number.
    pub fn nan() -> (r: r32)
        ensures
            r.0 == 0x7C00_0000u32,
            r.nan_spec(),
    {
        proof {
            r32::lemma_zero_and_nan_words();
        }
        r32(0x7C00_0000)
    }

    /// The largest value, `67108863`.
    pub fn max_value() -> (r: r32)
        ensures
            r.0 == 0x03FF_FFFFu32,
            r.num() == 0x03FF_FFFF,
            r.den() == 1,
    {
        let r = r32(0x03FF_FFFF);
        assert((0x03FF_FFFFu32 & 0x7C00_0000u32) >> 26u32 == 0 && (0x03FF_FFFFu32 & 0x03FF_FFFFu32)
            >> 0u32 == 0x03FF_FFFF && 0x03FF_FFFFu32 & 0x8000_0000u32 == 0 && (0x03FF_FFFFu32
            & !(0xFFFF_FFFFu32 << 0u32)) | (1u32 << 0u32) == 1) by (bit_vector);
        r
    }

    /// The smallest value, `-67108863`.
    pub fn min_value() -> (r: r32)
        ensures
            r.0 == 0x83FF_FFFFu32,
            r.num() == -0x03FF_FFFF,
            r.den() == 1,
    {
        let r = r32(0x83FF_FFFF);
        assert((0x83FF_FFFFu32 & 0x7C00_0000u32) >> 26u32 == 0 && (0x83FF_FFFFu32 & 0x03FF_FFFFu32)
            >> 0u32 == 0x03FF_FFFF && 0x83FF_FFFFu32 & 0x8000_0000u32 != 0 && (0x83FF_FFFFu32
            & !(0xFFFF_FFFFu32 << 0u32)) | (1u32 << 0u32) == 1) by (bit_vector);
        r
    }

    /// The smallest positive value, `1/134217727`.
    pub fn min_positive() -> (r: r32)
        ensures
            r.0 == 0x6BFF_FFFFu32,
            r.num() == 1,
            r.den() == 0x07FF_FFFF,
    {
        let r = r32(0x6BFF_FFFF);
        assert((0x6BFF_FFFFu32 & 0x7C00_0000u32) >> 26u32 == 26 && 0x6BFF_FFFFu32 & 0x8000_0000u32
            == 0 && (0x6BFF_FFFFu32 & !(0xFFFF_FFFFu32 << 26u32)) | (1u32 << 26u32) == 0x07FF_FFFF)
            by (bit_vector);
        r
    }

    /// The number of fraction bits given to the denominator.
    pub open spec fn size_spec(self) -> u32 {
        (self.0 & 0x7C00_0000u32) >> 26u32
    }

    /// The numerator that the word encodes.
    pub open spec fn numer_spec(self) -> u32 {
        if self.size_spec() == 26 {
            1
        } else {
            (self.0 & 0x03FF_FFFFu32) >> self.size_spec()
        }
    }

    /// The denominator that the word encodes: its low bits, under an implied
    /// leading one.
    pub open spec fn denom_spec(self) -> u32 {
        (self.0 & low_mask(self.size_spec())) | (1u32 << self.size_spec())
    }

    /// The sign bit is set.
    pub open spec fn sign_spec(self) -> bool {
        self.0 & 0x8000_0000u32 != 0
    }

    pub open spec fn nan_spec(self) -> bool {
        self.size_spec() > 26
    }

    /// A number, not `NaN`, whose sign bit is clear (`+0` included).
    pub open spec fn positive_spec(self) -> bool {
        !self.nan_spec() && !self.sign_spec()
    }

    /// A number, not `NaN`, whose sign bit is set (`-0` included).
    pub open spec fn negative_spec(self) -> bool {
        !self.nan_spec() && self.sign_spec()
    }

    /// The signed numerator of the value `num / den`.
    pub open spec fn num(self) -> int {
        if self.sign_spec() {
            -(self.numer_spec() as int)
        } else {
            self.numer_spec() as int
        }
    }

    /// The magnitude of the numerator, as an integer.
    pub open spec fn mag(self) -> int {
        self.numer_spec() as int
    }

    /// The denominator of the value `num / den`.
    pub open spec fn den(self) -> int {
        self.denom_spec() as int
    }

    /// The word that `from_parts` builds.
    pub open spec fn from_parts_spec(sign: bool, numer: u32, denom: u32) -> r32 {
        let s = denom_width(denom);
        r32(sign_word(sign) | (s << 26u32) | packed_fraction(s, numer, denom))
    }

    /// The magnitude of a signed numerator.
    pub open spec fn magnitude_i32(num: i32) -> u32 {
        (if num < 0 { -num } else { num as int }) as u32
    }

    /// The word that `new` builds: the sign of `num`, the width of `den`,
    /// and the fraction of `from_parts` kept to its 26 bits.
    pub open spec fn new_spec(num: i32, den: u32) -> r32 {
        let s = denom_width(den);
        r32(sign_word(num < 0) | (s << 26u32) | (packed_fraction(s, r32::magnitude_i32(num), den)
            & 0x03FF_FFFFu32))
    }

    /// `new` of a numerator and denominator that fit is `from_parts` of the
    /// sign and magnitude: the same word, which decodes back to those parts.
    pub proof fn lemma_new_is_from_parts(num: i32, den: u32)
        requires
            den > 0,
            parts_fit(r32::magnitude_i32(num), den),
        ensures
            r32::new_spec(num, den) == r32::from_parts_spec(
                num < 0,
                r32::magnitude_i32(num),
                den,
            ),
            r32::new_spec(num, den).numer_spec() == r32::magnitude_i32(num),
            r32::new_spec(num, den).denom_spec() == den,
            r32::new_spec(num, den).sign_spec() == (num < 0),
    {
        lemma_denom_width(den);
        let size = denom_width(den);
        let mag = r32::magnitude_i32(num);
        let f = packed_fraction(size, mag, den);
        // a denominator of at most 26 fraction bits keeps the fraction in its field
        assert(f & 0x03FF_FFFFu32 == f) by (bit_vector)
            requires
                size <= 26,
                f == ((((!(0xFFFF_FFFFu32 << size) ^ 0x03FF_FFFFu32) >> size) & mag) << size) | (
                den & !(0xFFFF_FFFFu32 << size)),
        ;
        r32::lemma_from_parts_decode(num < 0, mag, den);
    }

    #[inline]
    fn new(num: i32, den: u32) -> (r: r32)
        requires
            den > 0,
            num != i32::MIN,
        ensures
            r == r32::new_spec(num, den),
            parts_fit(r32::magnitude_i32(num), den) ==> r == r32::from_parts_spec(
                num < 0,
                r32::magnitude_i32(num),
                den,
            ),
    {
        proof {
            lemma_denom_width(den);
        }
        let size = 32 - den.leading_zeros() - 1;
        assert(1u32 << size >= 1) by (bit_vector)
            requires
                size <= 31,
        ;
        let denom_field: u32 = (1 << size) - 1;
        let mag: u32 = if num < 0 {
            (-num) as u32
        } else {
            num as u32
        };
        let r = r32(0).set_sign(num < 0).set_denom_size(size).set_fraction(
            ((denom_field ^ FRACTION_FIELD) >> size & mag) << size | den & denom_field,
        );
        proof {
            let sw = sign_word(num < 0);
            assert(size == denom_width(den));
            assert(denom_field == low_mask(size)) by (bit_vector)
                requires
                    size <= 31,
                    denom_field + 1 == 1u32 << size,
            ;
            assert(((0u32 & !0x8000_0000u32) | sw) & !0x7C00_0000u32 | ((size & 0x1f) << 26u32)
                == sw | (size << 26u32)) by (bit_vector)
                requires
                    size <= 31,
                    sw == 0 || sw == 0x8000_0000u32,
            ;
            let f = packed_fraction(size, mag, den);
            assert((sw | (size << 26u32)) & !0x03FF_FFFFu32 | (f & 0x03FF_FFFFu32) == sw | (size
                << 26u32) | (f & 0x03FF_FFFFu32)) by (bit_vector)
                requires
                    size <= 31,
                    sw == 0 || sw == 0x8000_0000u32,
            ;
            if parts_fit(mag, den) {
                r32::lemma_new_is_from_parts(num, den);
            }
        }
        r
    }

    #[inline]
    pub(crate) fn denom_size(self) -> (r: u32)
        ensures
            r == self.size_spec(),
            r <= 31,
    {
        let b = self.0;
        let r = (b & SIZE_FIELD) >> FRACTION_SIZE;
        assert(r <= 31) by (bit_vector)
            requires
                r == (b & 0x7C00_0000u32) >> 26u32,
        ;
        r
    }

    /// Returns the numerator value for this rational number.
    #[inline]
    pub fn numer(self) -> (r: u32)
        ensures
            r == self.numer_spec(),
    {
        if self.denom_size() == FRACTION_SIZE {
            1
        } else {
            (self.0 & FRACTION_FIELD) >> self.denom_size()
        }
    }

    /// Returns the denominator value for this rational number.
    #[inline]
    pub fn denom(self) -> (r: u32)
        ensures
            r == self.denom_spec(),
    {
        let s = self.denom_size();
        assert(1u32 << s >= 1) by (bit_vector)
            requires
                s <= 31,
        ;
        let denom_region: u32 = (1 << s) - 1;
        let b = self.0;
        let r = b & denom_region | 1 << s;
        assert(r == (b & !(0xFFFF_FFFFu32 << s)) | (1u32 << s)) by (bit_vector)
            requires
                s <= 31,
                denom_region + 1 == 1u32 << s,
                r == (b & denom_region) | (1u32 << s),
        ;
        r
    }

    /// Sets sign bit to the value given.
    ///
    /// If `true`, sign bit is set. Otherwise, it's unset.
    #[inline]
    fn set_sign(self, sign: bool) -> (r: r32)
        ensures
            r.0 == (self.0 & !0x8000_0000u32) | sign_word(sign),
    {
        let bit: u32 = if sign {
            1
        } else {
            0
        };
        let r = r32(self.0 & !SIGN_BIT | bit << 31);
        assert(bit << 31u32 == sign_word(sign)) by (bit_vector)
            requires
                bit == 0 || bit == 1,
                sign_word(sign) == if bit == 1 { 0x8000_0000u32 } else { 0u32 },
        ;
        r
    }

    #[inline]
    fn set_denom_size(self, size: u32) -> (r: r32)
        ensures
            r.0 == (self.0 & !0x7C00_0000u32) | ((size & 0x1f) << 26u32),
    {
        r32(self.0 & !SIZE_FIELD | (size & 0x1f) << FRACTION_SIZE)
    }

    #[inline]
    fn set_fraction(self, frac: u32) -> (r: r32)
        ensures
            r.0 == (self.0 & !0x03FF_FFFFu32) | (frac & 0x03FF_FFFFu32),
    {
        r32(self.0 & !FRACTION_FIELD | frac & FRACTION_FIELD)
    }

    /// Builds the word of a sign, a numerator and a denominator.
    ///
    /// The parts are stored as they are, without cancelling common factors;
    /// they are decoded back exactly when they fit (see `parts_fit`).
    #[inline]
    pub fn from_parts(sign: bool, numer: u32, denom: u32) -> (r: r32)
        requires
            denom > 0,
        ensures
            r == r32::from_parts_spec(sign, numer, denom),
            parts_fit(numer, denom) ==> {
                &&& r.numer_spec() == numer
                &&& r.denom_spec() == denom
                &&& r.sign_spec() == sign
                &&& r.size_spec() == denom_width(denom)
                &&& !r.nan_spec()
            },
    {
        proof {
            lemma_denom_width(denom);
        }
        let size = 32 - denom.leading_zeros() - 1;
        assert(1u32 << size >= 1) by (bit_vector)
            requires
                size <= 31,
        ;
        let denom_field: u32 = (1 << size) - 1;
        let r = r32(
            (if sign {
                SIGN_BIT
            } else {
                0
            }) | size << FRACTION_SIZE | ((denom_field ^ FRACTION_FIELD) >> size & numer) << size
                | denom & denom_field,
        );
        proof {
            assert(denom_field == low_mask(size)) by (bit_vector)
                requires
                    size <= 31,
                    denom_field + 1 == 1u32 << size,
            ;
            r32::lemma_from_parts_decode(sign, numer, denom);
            let sw = sign_word(sign);
            assert(r.0 == sw | (size << 26u32) | packed_fraction(size, numer, denom)) by {
                let b = r.0;
                assert(b == sw | (size << 26u32) | (((((low_mask(size) ^ 0x03FF_FFFFu32) >> size)
                    & numer) << size) | (denom & low_mask(size)))) by (bit_vector)
                    requires
                        b == sw | (size << 26u32) | (((low_mask(size) ^ 0x03FF_FFFFu32) >> size)
                            & numer) << size | (denom & low_mask(size)),
                ;
            }
        }
        r
    }

    /// What the fields of `from_parts_spec` decode to when the parts fit.
    pub proof fn lemma_from_parts_decode(sign: bool, numer: u32, denom: u32)
        requires
            denom > 0,
        ensures
            parts_fit(numer, denom) ==> {
                let r = r32::from_parts_spec(sign, numer, denom);
                &&& r.numer_spec() == numer
                &&& r.denom_spec() == denom
                &&& r.sign_spec() == sign
                &&& r.size_spec() == denom_width(denom)
                &&& !r.nan_spec()
            },
    {
        if parts_fit(numer, denom) {
            lemma_denom_width(denom);
            let s = denom_width(denom);
            lemma_pack_fields(sign_word(sign), s, numer, denom);
        }
    }
}

impl r32 {
    /// What the fields of any word decode to; a word that is not `NaN` is
    /// exactly `from_parts` of its own sign, numerator and denominator.
    pub proof fn lemma_decode(self)
        ensures
            self.size_spec() <= 31,
            self.numer_spec() <= 0x03FF_FFFF,
            self.nan_spec() ==> self.numer_spec() == 0,
            self.denom_spec() > 0,
            !self.nan_spec() ==> {
                &&& parts_fit(self.numer_spec(), self.denom_spec())
                &&& denom_width(self.denom_spec()) == self.size_spec()
                &&& r32::from_parts_spec(self.sign_spec(), self.numer_spec(), self.denom_spec())
                    == self
            },
    {
        let b = self.0;
        let s = self.size_spec();
        lemma_word_fields(b, s);
        let den = self.denom_spec();
        lemma_denom_width(den);
        if !self.nan_spec() {
            lemma_top_bit_unique(den, s, denom_width(den));
            let sw = sign_word(self.sign_spec());
            assert(sw == b & 0x8000_0000u32) by (bit_vector)
                requires
                    sw == (if b & 0x8000_0000u32 != 0 { 0x8000_0000u32 } else { 0u32 }),
            ;
        }
    }
}

impl r32 {
    /// Two words that differ at most in the sign bit have the same magnitude
    /// fields.
    pub proof fn lemma_same_magnitude(self, other: r32)
        requires
            self.0 & 0x7FFF_FFFFu32 == other.0 & 0x7FFF_FFFFu32,
        ensures
            self.size_spec() == other.size_spec(),
            self.numer_spec() == other.numer_spec(),
            self.denom_spec() == other.denom_spec(),
            self.nan_spec() == other.nan_spec(),
    {
        let b = self.0;
        let c = other.0;
        let s = self.size_spec();
        assert(b & 0x7FFF_FFFFu32 == c & 0x7FFF_FFFFu32 ==> (b & 0x7C00_0000u32) == (c
            & 0x7C00_0000u32) && (b & 0x03FF_FFFFu32) == (c & 0x03FF_FFFFu32)) by (bit_vector);
        lemma_word_fields(b, s);
        assert(b & 0x7FFF_FFFFu32 == c & 0x7FFF_FFFFu32 && s <= 31 ==> (b & !(0xFFFF_FFFFu32
            << s)) == (c & !(0xFFFF_FFFFu32 << s))) by (bit_vector);
    }

    /// The cancelled form of a number that `simplify` returns.
    pub open spec fn simplify_spec(self) -> r32 {
        if self.nan_spec() {
            self
        } else if self.numer_spec() == 0 {
            r32(0)
        } else {
            let n = self.numer_spec() as nat;
            let d = self.denom_spec() as nat;
            let g = spec_gcd(n, d);
            r32::from_parts_spec(self.negative_spec(), (n / g) as u32, (d / g) as u32)
        }
    }

    /// The integer part that `trunc` returns, with the sign of `self`.
    pub open spec fn trunc_spec(self) -> r32 {
        r32::from_parts_spec(
            self.negative_spec(),
            (self.numer_spec() / self.denom_spec()) as u32,
            1,
        )
    }

    /// The fractional part that `fract` returns, with the sign of `self`.
    pub open spec fn fract_spec(self) -> r32 {
        r32::from_parts_spec(
            self.negative_spec(),
            self.numer_spec() % self.denom_spec(),
            self.denom_spec(),
        )
    }

    #[inline]
    pub(crate) fn is_sign_positive(self) -> (r: bool)
        ensures
            r == !self.sign_spec(),
    {
        self.0 & SIGN_BIT == 0
    }

    #[inline]
    pub(crate) fn is_sign_negative(self) -> (r: bool)
        ensures
            r == self.sign_spec(),
    {
        self.0 & SIGN_BIT != 0
    }

    // BEGIN related float stuff
    /// Returns the integer part of a number.
    #[inline]
    pub fn trunc(self) -> (r: r32)
        ensures
            r == self.trunc_spec(),
            r.numer_spec() == self.numer_spec() / self.denom_spec(),
            r.denom_spec() == 1,
            r.sign_spec() == self.negative_spec(),
            !r.nan_spec(),
    {
        proof {
            self.lemma_decode();
            lemma_whole_fits(self.numer_spec() / self.denom_spec());
        }
        r32::from_parts(self.is_negative(), self.numer() / self.denom(), 1)
    }

    /// Returns the fractional part of a number.
    #[inline]
    pub fn fract(self) -> (r: r32)
        ensures
            r == self.fract_spec(),
            !self.nan_spec() ==> {
                &&& r.numer_spec() == self.numer_spec() % self.denom_spec()
                &&& r.denom_spec() == self.denom_spec()
                &&& r.sign_spec() == self.sign_spec()
                &&& !r.nan_spec()
            },
    {
        proof {
            self.lemma_decode();
            let n = self.numer_spec();
            let d = self.denom_spec();
            if !self.nan_spec() {
                lemma_mod_decreases(n as nat, d as nat);
                if denom_width(d) < 26 {
                    lemma_shr_zero_mono(n % d, n, (26 - denom_width(d)) as u32);
                } else {
                    assert(d >= 0x0400_0000) by {
                        lemma_denom_width(d);
                    }
                    lemma_small_mod(1, d as nat);
                }
            }
        }
        let d = self.denom();
        r32::from_parts(self.is_negative(), self.numer() % d, d)
    }

    /// Computes the absolute value of `self`. Returns NaN if the number is NaN.
    #[inline]
    pub fn abs(self) -> (r: r32)
        ensures
            r.0 == self.0 & !0x8000_0000u32,
            !r.sign_spec(),
            r.numer_spec() == self.numer_spec(),
            r.denom_spec() == self.denom_spec(),
            r.nan_spec() == self.nan_spec(),
    {
        let r = self.set_sign(false);
        proof {
            let b = self.0;
            let c = r.0;
            assert(c == (b & !0x8000_0000u32) | 0u32 ==> c & 0x7FFF_FFFFu32 == b & 0x7FFF_FFFFu32
                && c & 0x8000_0000u32 == 0 && c == b & !0x8000_0000u32) by (bit_vector);
            self.lemma_same_magnitude(r);
        }
        r
    }

    /// Returns a number that represents the sign of `self`.
    ///
    /// * `1` if the number is positive
    /// * `-1` if the number is negative
    /// * `0` if the number is `+0`, `-0`, or `NaN`
    #[inline]
    pub fn signum(self) -> (r: r32)
        ensures
            r.0 == (if self.numer_spec() == 0 || self.nan_spec() {
                0u32
            } else {
                (self.0 & 0x8000_0000u32) | 1
            }),
            r.num() == (if self.numer_spec() == 0 || self.nan_spec() {
                0int
            } else if self.sign_spec() {
                -1int
            } else {
                1int
            }),
            r.den() == 1,
    {
        let r = if self.numer() == 0 || self.is_nan() {
            r32(0)
        } else {
            r32(self.0 & SIGN_BIT | 1)
        };
        proof {
            let b = self.0;
            r32::lemma_zero_and_nan_words();
            let c = (b & 0x8000_0000u32) | 1;
            assert((c & 0x7C00_0000u32) >> 26u32 == 0 && (c & 0x03FF_FFFFu32) >> 0u32 == 1 && (c
                & !(0xFFFF_FFFFu32 << 0u32)) | (1u32 << 0u32) == 1 && (c & 0x8000_0000u32 != 0)
                == (b & 0x8000_0000u32 != 0)) by (bit_vector)
                requires
                    c == (b & 0x8000_0000u32) | 1,
            ;
        }
        r
    }

    /// Returns `true` if this value is `NaN` and `false` otherwise.
    #[inline]
    pub fn is_nan(self) -> (r: bool)
        ensures
            r == self.nan_spec(),
    {
        self.denom_size() > FRACTION_SIZE
    }

    /// Returns `true` if the number is neither zero, subnormal, or `NaN`.
    #[inline]
    pub fn is_normal(self) -> (r: bool)
        ensures
            r == (self.numer_spec() != 0 && self.size_spec() < 26),
    {
        self.numer() != 0 && self.denom_size() < FRACTION_SIZE
    }

    /// Returns `true` if and only if `self` has a positive sign, including
    /// `+0.0` (but not NaNs with positive sign bit).
    #[inline]
    pub fn is_positive(self) -> (r: bool)
        ensures
            r == self.positive_spec(),
    {
        !self.is_nan() && self.is_sign_positive()
    }

    /// Returns `true` if and only if self has a negative sign, including
    /// `-0.0` (but not NaNs with negative sign bit).
    #[inline]
    pub fn is_negative(self) -> (r: bool)
        ensures
            r == self.negative_spec(),
    {
        !self.is_nan() && self.is_sign_negative()
    }

    /// Takes the reciprocal (inverse) of a number, `1/x`.
    ///
    /// # Panics
    ///
    /// Panics when trying to set a numerator of zero as denominator.
    #[inline]
    pub fn recip(self) -> (r: r32)
        requires
            self.numer_spec() != 0,
            self.size_spec() < 26,
        ensures
            r == r32::from_parts_spec(self.negative_spec(), self.denom_spec(), self.numer_spec()),
            r.numer_spec() == self.denom_spec(),
            r.denom_spec() == self.numer_spec(),
            r.sign_spec() == self.sign_spec(),
            !r.nan_spec(),
    {
        proof {
            self.lemma_decode();
            lemma_swap_fits(self.numer_spec(), self.denom_spec());
        }
        r32::from_parts(self.is_negative(), self.denom(), self.numer())
    }

    /// Raw transmutation to `u32`.
    #[inline]
    pub fn to_bits(self) -> (r: u32)
        ensures
            r == self.0,
    {
        self.0
    }

    /// Raw transmutation from `u32`.
    #[inline]
    pub fn from_bits(bits: u32) -> (r: r32)
        ensures
            r.0 == bits,
    {
        r32(bits)
    }

    /// Cancels out common factors between the numerator and the denominator.
    pub fn simplify(self) -> (r: r32)
        ensures
            r == self.simplify_spec(),
            self.nan_spec() ==> r == self,
            !self.nan_spec() ==> {
                &&& !r.nan_spec()
                &&& r.num() * self.den() == self.num() * r.den()
                &&& spec_gcd(r.numer_spec() as nat, r.denom_spec() as nat) == 1
                &&& (self.numer_spec() == 0 ==> r.0 == 0)
                &&& (self.numer_spec() != 0 ==> r.sign_spec() == self.sign_spec()
                    && r.numer_spec() != 0)
            },
    {
        if self.is_nan() {
            return self;
        }
        proof {
            self.lemma_decode();
        }
        if self.numer() == 0 {
            proof {
                r32::lemma_zero_and_nan_words();
                assert(spec_gcd(0, 1) == 1) by {
                    assert(spec_gcd(1, 0) == 1);
                    assert(0nat % 1nat == 0);
                }
                assert(r32(0).num() == 0);
                assert(0 * self.den() == 0);
                assert(self.num() * 1 == 0);
            }
            return r32(0);
        }
        let n = self.numer();
        let d = self.denom();
        // cancel out common factors
        let gcd = gcd_u32(n, d);
        proof {
            lemma_gcd_reduced(n as nat, d as nat);
            self.lemma_simplify_fits(gcd);
        }
        r32::from_parts(self.is_negative(), n / gcd, d / gcd)
    }

    /// The cancelled parts of a nonzero number still fit, and keep its value.
    proof fn lemma_simplify_fits(self, g: u32)
        requires
            !self.nan_spec(),
            self.numer_spec() != 0,
            g as nat == spec_gcd(self.numer_spec() as nat, self.denom_spec() as nat),
        ensures
            g > 0,
            parts_fit(self.numer_spec() / g, self.denom_spec() / g),
            ({
                let r = r32::from_parts_spec(
                    self.negative_spec(),
                    self.numer_spec() / g,
                    self.denom_spec() / g,
                );
                &&& !r.nan_spec()
                &&& r.num() * self.den() == self.num() * r.den()
                &&& spec_gcd(r.numer_spec() as nat, r.denom_spec() as nat) == 1
                &&& r.sign_spec() == self.sign_spec()
                &&& r.numer_spec() != 0
            }),
    {
        let n = self.numer_spec();
        let d = self.denom_spec();
        self.lemma_decode();
        lemma_gcd_reduced(n as nat, d as nat);
        let n2 = n / g;
        let d2 = d / g;
        lemma_fundamental_div_mod(n as int, g as int);
        lemma_fundamental_div_mod(d as int, g as int);
        assert(n2 <= n && d2 <= d && d2 > 0 && n2 > 0) by (nonlinear_arith)
            requires
                n == g * n2,
                d == g * d2,
                g > 0,
                n > 0,
                d > 0,
        ;
        lemma_denom_width(d);
        lemma_denom_width(d2);
        let s = denom_width(d);
        let s2 = denom_width(d2);
        lemma_top_bit_mono(d2, d, s2, s);
        if s < 26 {
            lemma_shr_zero_mono(n2, n, (26 - s) as u32);
            assert(n2 >> (26 - s2) as u32 == 0) by (bit_vector)
                requires
                    n2 >> (26 - s) as u32 == 0,
                    s2 <= s,
                    s < 26,
            ;
        } else {
            // a subnormal has numerator one, so nothing cancels
            assert(n == 1);
            assert(g == 1) by (nonlinear_arith)
                requires
                    n == g * n2,
                    n2 > 0,
                    g > 0,
                    n == 1,
            ;
            assert(n2 == 1 && d2 == d);
        }
        assert(d2 < 0x0800_0000u32);
        r32::lemma_from_parts_decode(self.negative_spec(), n2, d2);
        let r = r32::from_parts_spec(self.negative_spec(), n2, d2);
        assert(n2 as int * d as int == n as int * d2 as int) by (nonlinear_arith)
            requires
                n == g * n2,
                d == g * d2,
        ;
        if self.sign_spec() {
            assert(r.num() == -(n2 as int));
            assert(self.num() == -(n as int));
            assert(-(n2 as int) * d as int == -(n as int) * d2 as int) by (nonlinear_arith)
                requires
                    n2 as int * d as int == n as int * d2 as int,
            ;
        }
    }
}

impl r32 {
    /// What `simplify` gives of a number that is neither `NaN` nor zero: a
    /// fraction in lowest terms with the same sign and the same magnitude.
    pub proof fn lemma_simplify_spec(self)
        requires
            !self.nan_spec(),
            self.numer_spec() != 0,
        ensures
            ({
                let s = self.simplify_spec();
                &&& !s.nan_spec()
                &&& s.sign_spec() == self.sign_spec()
                &&& s.numer_spec() != 0
                &&& s.denom_spec() > 0
                &&& s.numer_spec() as int * self.denom_spec() as int == self.numer_spec() as int
                    * s.denom_spec() as int
                &&& spec_gcd(s.numer_spec() as nat, s.denom_spec() as nat) == 1
                &&& s == r32::from_parts_spec(self.negative_spec(), s.numer_spec(), s.denom_spec())
            }),
    {
        let n = self.numer_spec() as nat;
        let d = self.denom_spec() as nat;
        let g = spec_gcd(n, d);
        self.lemma_decode();
        lemma_gcd_reduced(n, d);
        lemma_fundamental_div_mod(d as int, g as int);
        assert(g <= d) by (nonlinear_arith)
            requires
                d == g * (d / g),
                d > 0,
                g > 0,
        ;
        self.lemma_simplify_fits(g as u32);
        let n2 = n / g;
        let d2 = d / g;
        lemma_fundamental_div_mod(n as int, g as int);
        lemma_fundamental_div_mod(d as int, g as int);
        assert(n2 * d == n * d2) by (nonlinear_arith)
            requires
                n == g * n2,
                d == g * d2,
        ;
        r32::lemma_from_parts_decode(self.negative_spec(), n2 as u32, d2 as u32);
    }
}

/// Dividing a negated number rounds the quotient the other way.
proof fn lemma_neg_div(n: int, d: int)
    requires
        n >= 0,
        d > 0,
    ensures
        (-n) / d == -((n + d - 1) / d),
        (n + d - 1) / d <= n || n == 0,
        n == 0 ==> (n + d - 1) / d == 0,
{
    let q = (n + d - 1) / d;
    let r = (n + d - 1) % d;
    lemma_fundamental_div_mod(n + d - 1, d);
    assert(-n == (-q) * d + (d - 1 - r)) by (nonlinear_arith)
        requires
            n + d - 1 == d * q + r,
    ;
    lemma_fundamental_div_mod_converse(-n, d, -q, d - 1 - r);
    if n > 0 {
        assert(q <= n) by (nonlinear_arith)
            requires
                n + d - 1 == d * q + r,
                0 <= r < d,
                n > 0,
                d > 0,
        ;
    } else {
        lemma_small_mod((d - 1) as nat, d as nat);
        lemma_fundamental_div_mod_converse(d - 1, d, 0, d - 1);
    }
}

/// Rounding to the nearest whole number never grows a nonzero magnitude.
proof fn lemma_round_bound(n: int, d: int)
    requires
        n >= 0,
        d > 0,
    ensures
        0 <= (2 * n + d) / (2 * d) <= n || n == 0,
        n == 0 ==> (2 * n + d) / (2 * d) == 0,
{
    let q = (2 * n + d) / (2 * d);
    let r = (2 * n + d) % (2 * d);
    lemma_fundamental_div_mod(2 * n + d, 2 * d);
    assert(0 <= r < 2 * d) by {
        vstd::arithmetic::div_mod::lemma_mod_bound(2 * n + d, 2 * d);
    }
    assert(0 <= q) by (nonlinear_arith)
        requires
            2 * n + d == (2 * d) * q + r,
            r < 2 * d,
            n >= 0,
            d > 0,
    ;
    if n > 0 {
        assert(q <= n) by (nonlinear_arith)
            requires
                2 * n + d == (2 * d) * q + r,
                0 <= r,
                n > 0,
                d > 0,
        ;
    } else {
        lemma_fundamental_div_mod_converse(d, 2 * d, 0, d);
    }
}

impl r32 {
    /// `floor` of a number: `NaN` stays; otherwise the whole number below or
    /// at the value, with the sign of `self`.
    pub open spec fn floor_spec(self) -> r32 {
        if self.nan_spec() {
            self
        } else {
            let n = self.numer_spec() as int;
            let d = self.denom_spec() as int;
            r32::from_parts_spec(
                self.sign_spec(),
                (if self.sign_spec() { (n + d - 1) / d } else { n / d }) as u32,
                1,
            )
        }
    }

    pub open spec fn ceil_spec(self) -> r32 {
        if self.nan_spec() {
            self
        } else {
            let n = self.numer_spec() as int;
            let d = self.denom_spec() as int;
            r32::from_parts_spec(
                self.sign_spec(),
                (if self.sign_spec() { n / d } else { (n + d - 1) / d }) as u32,
                1,
            )
        }
    }

    pub open spec fn round_spec(self) -> r32 {
        if self.nan_spec() {
            self
        } else {
            let n = self.numer_spec() as int;
            let d = self.denom_spec() as int;
            r32::from_parts_spec(self.sign_spec(), ((2 * n + d) / (2 * d)) as u32, 1)
        }
    }

    /// Returns the largest integer less than or equal to a number.
    ///
    /// `NaN` is returned unchanged.
    #[inline]
    pub fn floor(self) -> (r: r32)
        ensures
            r == self.floor_spec(),
            !self.nan_spec() ==> r.num() == self.num() / self.den() && r.den() == 1
                && !r.nan_spec(),
    {
        if self.is_nan() {
            return self;
        }
        proof {
            self.lemma_decode();
            lemma_neg_div(self.numer_spec() as int, self.denom_spec() as int);
        }
        let n = self.numer();
        let d = self.denom();
        let q = if self.is_sign_negative() {
            (n + d - 1) / d
        } else {
            n / d
        };
        proof {
            lemma_whole_fits(q);
        }
        r32::from_parts(self.is_sign_negative(), q, 1)
    }

    /// Returns the smallest integer greater than or equal to a number.
    ///
    /// `NaN` is returned unchanged.
    #[inline]
    pub fn ceil(self) -> (r: r32)
        ensures
            r == self.ceil_spec(),
            !self.nan_spec() ==> r.num() == -((-self.num()) / self.den()) && r.den() == 1
                && !r.nan_spec(),
    {
        if self.is_nan() {
            return self;
        }
        proof {
            self.lemma_decode();
            lemma_neg_div(self.numer_spec() as int, self.denom_spec() as int);
        }
        let n = self.numer();
        let d = self.denom();
        let q = if self.is_sign_negative() {
            n / d
        } else {
            (n + d - 1) / d
        };
        proof {
            lemma_whole_fits(q);
            let nn = n as int;
            let dd = d as int;
            if !self.sign_spec() {
                assert(-((-self.num()) / self.den()) == (nn + dd - 1) / dd);
            } else {
                assert(-self.num() == nn);
            }
        }
        r32::from_parts(self.is_sign_negative(), q, 1)
    }

    /// Returns the nearest integer to a number. Round half-way cases away from `0`.
    ///
    /// `NaN` is returned unchanged.
    #[inline]
    pub fn round(self) -> (r: r32)
        ensures
            r == self.round_spec(),
            !self.nan_spec() ==> {
                let n = self.numer_spec() as int;
                let d = self.denom_spec() as int;
                &&& r.numer_spec() == (2 * n + d) / (2 * d)
                &&& r.den() == 1
                &&& r.sign_spec() == self.sign_spec()
                &&& !r.nan_spec()
            },
    {
        if self.is_nan() {
            return self;
        }
        proof {
            self.lemma_decode();
            lemma_round_bound(self.numer_spec() as int, self.denom_spec() as int);
        }
        let n = self.numer();
        let d = self.denom();
        let q = (2 * n + d) / (2 * d);
        proof {
            lemma_whole_fits(q);
        }
        r32::from_parts(self.is_sign_negative(), q, 1)
    }
}

impl r32 {
    /// The value of `self` is below that of `other`: `a/b < c/d`, that is
    /// `a * d < c * b` with positive denominators.
    pub open spec fn less_value(self, other: r32) -> bool {
        self.num() * other.den() < other.num() * self.den()
    }

    /// The signed cross products `self.num() * other.den()` and
    /// `other.num() * self.den()`, which order the two values.
    pub(crate) fn signed_cross(self, other: r32) -> (r: (i64, i64))
        ensures
            r.0 == self.num() * other.den(),
            r.1 == other.num() * self.den(),
    {
        proof {
            self.lemma_decode();
            other.lemma_decode();
        }
        let a = self.numer() as i64;
        let b = self.denom() as i64;
        let c = other.numer() as i64;
        let d = other.denom() as i64;
        let sa: i64 = if self.is_sign_negative() {
            -a
        } else {
            a
        };
        let sc: i64 = if other.is_sign_negative() {
            -c
        } else {
            c
        };
        assert(-0x0400_0000_0000_0000 < sa * d < 0x0400_0000_0000_0000) by (nonlinear_arith)
            requires
                -0x0400_0000 < sa < 0x0400_0000,
                0 <= d <= 0xFFFF_FFFF,
        ;
        assert(-0x0400_0000_0000_0000 < sc * b < 0x0400_0000_0000_0000) by (nonlinear_arith)
            requires
                -0x0400_0000 < sc < 0x0400_0000,
                0 <= b <= 0xFFFF_FFFF,
        ;
        (sa * d, sc * b)
    }

    /// Compares the values of two numbers by cross multiplication.
    pub(crate) fn value_less(self, other: r32) -> (r: bool)
        ensures
            r == self.less_value(other),
    {
        let (l, r) = self.signed_cross(other);
        l < r
    }
}

impl Default for r32 {
    /// Zero.
    fn default() -> (r: r32)
        ensures
            r.0 == 0,
    {
        r32(0)
    }
}

} // verus!
