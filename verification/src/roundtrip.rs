//! Reading back what was written: `parse` of the `{}` text of a number gives
//! the number in lowest terms.
use vstd::prelude::*;
use crate::r32_t::r32;
use crate::encoding::{denom_width, parts_fit, lemma_denom_width};
use crate::parse::{
    is_digit, all_digits, digits_value, parse_u32_spec, first_bar, bit_len, ratio_spec,
    whole_spec, body_spec, parse_spec,
};
use crate::fmt::{decimal, nan_text, display_text};
use vstd::std_specs::bits::{u32_leading_zeros, axiom_u32_leading_zeros};

verus! {

/// The digits of `n` read back as `n`.
proof fn lemma_decimal_reads_back(n: nat)
    requires
        n <= u32::MAX,
    ensures
        decimal(n).len() > 0,
        all_digits(decimal(n)),
        digits_value(decimal(n)) == n,
        parse_u32_spec(decimal(n)) == Ok::<u32, crate::parse::RatioErrKind>(n as u32),
    decreases n,
{
    if n >= 10 {
        lemma_decimal_reads_back(n / 10);
        let s = decimal(n / 10);
        let t = decimal(n);
        assert(t == s.push((48 + n % 10) as u8));
        assert(t.drop_last() =~= s);
        assert forall|i: int| 0 <= i < t.len() implies is_digit(#[trigger] t[i]) by {
            if i < s.len() {
                assert(t[i] == s[i]);
            }
        }
        assert(t[0] == s[0]);
        assert(t.last() == (48 + n % 10) as u8);
        assert(digits_value(t) == digits_value(s) * 10 + (n % 10));
    } else {
        let t = decimal(n);
        assert(t.drop_last() =~= Seq::<u8>::empty());
        assert(digits_value(Seq::<u8>::empty()) == 0);
        assert(t.last() == (48 + n) as u8);
        assert(((48 + n) as u8 - 48) as nat == n);
        assert(digits_value(t) == 0 * 10 + n);
    }
    let t = decimal(n);
    assert(is_digit(t[0]));
    assert(t[0] != 43);
}

/// A number whose bits end below `k` has at most `k` bits.
proof fn lemma_bit_len_bound(n: u32, k: u32)
    requires
        k <= 32,
        k < 32 ==> n >> k == 0,
    ensures
        bit_len(n) <= k,
{
    axiom_u32_leading_zeros(n);
    let lz = u32_leading_zeros(n);
    if lz < 32 {
        assert((n >> (31u32 - lz) as u32) & 1u32 != 0u32);
        assert(k <= 32 && (k < 32 ==> n >> k == 0) && lz < 32 && (n >> (31u32 - lz) as u32) & 1u32
            != 0u32 ==> 32 - lz <= k) by (bit_vector);
    }
}

/// The text of zero reads back as zero.
proof fn lemma_display_parse_zero(x: r32)
    requires
        !x.nan_spec(),
        x.numer_spec() == 0,
    ensures
        parse_spec(display_text(x)) == Ok::<r32, crate::parse::ParseRatioErr>(x.simplify_spec()),
{
    let s = x.simplify_spec();
    let t = display_text(x);
    let z = r32(0);
    r32::lemma_zero_and_nan_words();
    assert(s == z);
    lemma_decimal_reads_back(0);
    assert(t =~= decimal(0));
    assert(t[0] == 48);
    assert(t != nan_text());
    assert(!exists|i: int| first_bar(t, i)) by {
        if exists|i: int| first_bar(t, i) {
            let i = choose|i: int| first_bar(t, i);
            assert(is_digit(t[i]));
        }
    }
    assert(0u32 >> 26u32 == 0) by (bit_vector);
    lemma_bit_len_bound(0, 26);
    crate::encoding::lemma_whole_fits(0);
    let p = r32::from_parts_spec(false, 0, 1);
    assert(p.0 == 0) by {
        assert(denom_width(1) == 0);
        assert(crate::encoding::sign_word(false) | (0u32 << 26u32)
            | crate::encoding::packed_fraction(0, 0, 1) == 0) by (bit_vector);
    }
    assert(parse_spec(t) == body_spec(false, t));
}

/// The body of the text of a nonzero number, its digits and the bar with the
/// denominator's digits when that is not one, reads back as the number.
proof fn lemma_body_reads_back(neg: bool, n: u32, d: u32, size: u32)
    requires
        n != 0,
        parts_fit(n, d),
        size == denom_width(d),
    ensures
        body_spec(neg, decimal(n as nat) + (if size > 0 {
            seq![47u8] + decimal(d as nat)
        } else {
            Seq::<u8>::empty()
        })) == Ok::<r32, crate::parse::ParseRatioErr>(r32::from_parts_spec(neg, n, d)),
{
    lemma_decimal_reads_back(n as nat);
    lemma_decimal_reads_back(d as nat);
    let dn = decimal(n as nat);
    let dd = decimal(d as nat);
    lemma_denom_width(d);
    if size > 0 {
        let body = dn + (seq![47u8] + dd);
        let pos = dn.len() as int;
        assert(body[pos] == 47);
        assert forall|j: int| 0 <= j < pos implies body[j] != 47 by {
            assert(body[j] == dn[j]);
            assert(is_digit(dn[j]));
        }
        assert(first_bar(body, pos));
        assert forall|i: int| first_bar(body, i) implies i == pos by {
            if i < pos {
                assert(body[i] == dn[i]);
                assert(is_digit(dn[i]));
            }
            if i > pos {
                assert(body[pos] == 47);
            }
        }
        assert(body.take(pos) =~= dn);
        assert(body.skip(pos + 1) =~= dd);
        assert(pos != body.len() - 1);
        if denom_width(d) < 26 {
            lemma_bit_len_bound(n, (26 - denom_width(d)) as u32);
        }
    } else {
        let body = dn + Seq::<u8>::empty();
        assert(body =~= dn);
        assert(d == 1) by {
            assert((d >> 0u32) & 1 == 1 && d >> 1u32 == 0 ==> d == 1) by (bit_vector);
        }
        assert(!exists|i: int| first_bar(body, i)) by {
            if exists|i: int| first_bar(body, i) {
                let i = choose|i: int| first_bar(body, i);
                assert(is_digit(dn[i]));
            }
        }
        lemma_bit_len_bound(n, 26);
    }
}

/// Writing a number with `{}` and parsing the text gives the number in
/// lowest terms (`NaN` for `NaN`).
pub proof fn lemma_display_parse(x: r32)
    ensures
        parse_spec(display_text(x)) == if x.nan_spec() {
            Ok::<r32, crate::parse::ParseRatioErr>(r32(0x7C00_0000))
        } else {
            Ok(x.simplify_spec())
        },
{
    x.lemma_decode();
    if x.nan_spec() {
        return;
    }
    if x.numer_spec() == 0 {
        lemma_display_parse_zero(x);
        return;
    }
    let s = x.simplify_spec();
    let t = display_text(x);
    x.lemma_simplify_spec();
    s.lemma_decode();
    let n = s.numer_spec();
    let d = s.denom_spec();
    let neg = x.sign_spec();
    assert(s.negative_spec() == neg);
    lemma_decimal_reads_back(n as nat);
    let dn = decimal(n as nat);
    let tail = if s.size_spec() > 0 {
        seq![47u8] + decimal(d as nat)
    } else {
        Seq::<u8>::empty()
    };
    let body = dn + tail;
    let prefix = if neg {
        seq![45u8]
    } else {
        Seq::<u8>::empty()
    };
    assert(t == prefix + dn + tail);
    assert(t != nan_text()) by {
        if neg {
            assert(t[0] == 45);
        } else {
            assert(t[0] == dn[0]);
            assert(is_digit(dn[0]));
        }
    }
    if neg {
        assert(t.drop_first() =~= body);
    } else {
        assert(t =~= body);
        assert(t[0] == dn[0]);
        assert(is_digit(dn[0]));
    }
    assert(parse_spec(t) == body_spec(neg, body));
    lemma_body_reads_back(neg, n, d, s.size_spec());
}

/// ASCII whitespace: space, tab, line feed, vertical tab, form feed,
/// carriage return.
pub open spec fn is_space(c: u8) -> bool {
    c == 32 || 9 <= c <= 13
}

/// A numeral that starts with a byte that is neither `+` nor a digit is
/// refused.
proof fn lemma_bad_start(s: Seq<u8>)
    requires
        s.len() > 0,
        !is_digit(s[0]),
        s[0] != 43,
    ensures
        parse_u32_spec(s) is Err,
{
    assert(!all_digits(s));
}

/// A numeral that ends with a byte that is not a digit is refused.
proof fn lemma_bad_end(s: Seq<u8>)
    requires
        s.len() > 0,
        !is_digit(s.last()),
    ensures
        parse_u32_spec(s) is Err,
{
    let body = if s.len() > 0 && s[0] == 43 {
        s.drop_first()
    } else {
        s
    };
    if body.len() > 0 {
        assert(body[body.len() - 1] == s.last());
        assert(!all_digits(body));
    }
}

/// Leading and trailing whitespace represent an error.
pub proof fn lemma_whitespace_refused(src: Seq<u8>)
    requires
        src.len() > 0,
        is_space(src[0]) || is_space(src.last()),
    ensures
        parse_spec(src) is Err,
{
    assert(src != nan_text()) by {
        if src == nan_text() {
            assert(src[0] == 78 && src.last() == 78);
        }
    }
    let neg = src[0] == 45;
    let body = if src[0] == 43 || src[0] == 45 {
        src.drop_first()
    } else {
        src
    };
    assert(parse_spec(src) == body_spec(neg, body));
    if body.len() == 0 {
        assert(!exists|i: int| first_bar(body, i));
        assert(parse_u32_spec(body) is Err);
        return;
    }
    assert(body.last() == src.last());
    if exists|i: int| first_bar(body, i) {
        let pos = choose|i: int| first_bar(body, i);
        if pos != body.len() - 1 {
            if is_space(src[0]) {
                assert(body =~= src);
                if pos == 0 {
                    assert(body[0] == 47);
                } else {
                    lemma_bad_start(body.take(pos));
                }
            } else {
                let den = body.skip(pos + 1);
                assert(den.last() == body.last());
                lemma_bad_end(den);
            }
        }
    } else {
        if is_space(src[0]) {
            assert(body =~= src);
            lemma_bad_start(body);
        } else {
            lemma_bad_end(body);
        }
    }
}

/// A number with at most `k` bits ends below `k`.
proof fn lemma_bit_len_shift(n: u32, k: u32)
    requires
        k < 32,
        bit_len(n) <= k,
    ensures
        n >> k == 0,
{
    axiom_u32_leading_zeros(n);
    let lz = u32_leading_zeros(n);
    let j = (32u32 - lz) as u32;
    assert(n >> j == 0);
    assert(j <= k);
    assert(n >> j == 0 && j <= k && k < 32 ==> n >> k == 0) by (bit_vector);
}

/// A fraction `n/d` that parses is stored with the value written, `±n / d`.
pub proof fn lemma_ratio_value(neg: bool, n: u32, d: u32)
    ensures
        match ratio_spec(neg, n, d) {
            Ok(r) => !r.nan_spec() && r.num() * d == (if neg {
                -(n as int)
            } else {
                n as int
            }) * r.den(),
            Err(_) => true,
        },
{
    if d == 0 {
        return;
    }
    lemma_denom_width(d);
    let w = denom_width(d);
    if n == 1 && w == 26 {
        assert(d < 0x0800_0000u32) by (bit_vector)
            requires
                d >> 27u32 == 0,
        ;
        r32::lemma_from_parts_decode(neg, 1, d);
        let r = r32::from_parts_spec(neg, 1, d);
        assert(r.num() * d == (if neg { -1int } else { 1int }) * r.den()) by (nonlinear_arith)
            requires
                r.num() == (if neg { -1int } else { 1int }),
                r.den() == d as int,
        ;
    } else if n == 0 && w == 26 {
        crate::encoding::lemma_whole_fits(0);
        r32::lemma_from_parts_decode(neg, 0, 1);
        let r = r32::from_parts_spec(neg, 0, 1);
        assert(r.num() == 0);
    } else if w + bit_len(n) <= 26 {
        axiom_u32_leading_zeros(n);
        if w == 26 {
            assert(bit_len(n) == 0);
            assert(n == 0);
        }
        assert(d < 0x0800_0000u32) by (bit_vector)
            requires
                w <= 26,
                d >> (w + 1) as u32 == 0,
        ;
        if w < 26 {
            lemma_bit_len_shift(n, (26 - w) as u32);
        }
        r32::lemma_from_parts_decode(neg, n, d);
        let r = r32::from_parts_spec(neg, n, d);
        if neg {
            assert(r.num() * d == -(n as int) * r.den()) by (nonlinear_arith)
                requires
                    r.num() == -(n as int),
                    r.den() == d as int,
            ;
        } else {
            assert(r.num() * d == (n as int) * r.den()) by (nonlinear_arith)
                requires
                    r.num() == n as int,
                    r.den() == d as int,
            ;
        }
    }
}

/// A whole number that parses is stored with the value written, `±n`.
pub proof fn lemma_whole_value(neg: bool, n: u32)
    ensures
        match whole_spec(neg, n) {
            Ok(r) => !r.nan_spec() && r.num() == (if neg {
                -(n as int)
            } else {
                n as int
            }) && r.den() == 1,
            Err(_) => true,
        },
{
    if bit_len(n) <= 26 {
        lemma_bit_len_shift(n, 26);
        assert(n >> 26u32 == 0 ==> n <= 0x03FF_FFFF) by (bit_vector);
        crate::encoding::lemma_whole_fits(n);
        r32::lemma_from_parts_decode(neg, n, 1);
    }
}

} // verus!
