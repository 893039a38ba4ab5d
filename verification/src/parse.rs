//! Reading floating-bar numbers from text such as `157/50`, `-25` or `NaN`.
use vstd::prelude::*;
use crate::r32_t::r32;
use crate::encoding::denom_width;
use vstd::string::StringSliceAdditionalSpecFns;
use vstd::std_specs::bits::{u32_leading_zeros, axiom_u32_leading_zeros};

verus! {

/// What went wrong when parsing a ratio.
#[derive(Clone, Copy, Debug, PartialEq, Eq, Structural)]
pub enum RatioErrKind {
    /// The text is empty.
    Empty,
    /// The text is not a number: a part that is not an optional `+` and
    /// digits, a bar with nothing after it, or a zero denominator.
    Invalid,
    /// The number does not fit in a floating-bar word.
    Overflow,
}

/// An error returned when parsing a floating-bar number fails.
#[derive(Clone, Copy, Debug, PartialEq, Eq, Structural)]
pub struct ParseRatioErr {
    pub kind: RatioErrKind,
}

pub open spec fn is_digit(c: u8) -> bool {
    48 <= c <= 57
}

pub open spec fn all_digits(s: Seq<u8>) -> bool {
    forall|i: int| 0 <= i < s.len() ==> is_digit(#[trigger] s[i])
}

/// The number that a string of decimal digits denotes.
pub open spec fn digits_value(s: Seq<u8>) -> nat
    decreases s.len(),
{
    if s.len() == 0 {
        0
    } else {
        digits_value(s.drop_last()) * 10 + (s.last() - 48) as nat
    }
}

/// Reading a `u32` as `str::parse` does: an optional `+`, then at least one
/// digit; a value above `u32::MAX` overflows.
pub open spec fn parse_u32_spec(s: Seq<u8>) -> Result<u32, RatioErrKind> {
    let body = if s.len() > 0 && s[0] == 43 {
        s.drop_first()
    } else {
        s
    };
    if body.len() == 0 || !all_digits(body) {
        Err(RatioErrKind::Invalid)
    } else if digits_value(body) > u32::MAX {
        Err(RatioErrKind::Overflow)
    } else {
        Ok(digits_value(body) as u32)
    }
}

/// `i` is the position of the first `/` in `s`.
pub open spec fn first_bar(s: Seq<u8>, i: int) -> bool {
    &&& 0 <= i < s.len()
    &&& s[i] == 47
    &&& forall|j: int| 0 <= j < i ==> s[j] != 47
}

/// The number of bits of `n`.
pub open spec fn bit_len(n: u32) -> u32 {
    (32 - u32_leading_zeros(n)) as u32
}

/// The number that a sign, a numerator and a denominator written with a bar
/// denote: a zero denominator is invalid; a subnormal `1/d` and a zero over a
/// subnormal-width denominator are stored as the values they denote; otherwise
/// the parts must fit beside each other in the 26 fraction bits.
pub open spec fn ratio_spec(neg: bool, n: u32, d: u32) -> Result<r32, ParseRatioErr> {
    if d == 0 {
        Err(ParseRatioErr { kind: RatioErrKind::Invalid })
    } else if n == 1 && denom_width(d) == 26 {
        Ok(r32::from_parts_spec(neg, 1, d))
    } else if n == 0 && denom_width(d) == 26 {
        Ok(r32::from_parts_spec(neg, 0, 1))
    } else if denom_width(d) + bit_len(n) > 26 {
        Err(ParseRatioErr { kind: RatioErrKind::Overflow })
    } else {
        Ok(r32::from_parts_spec(neg, n, d))
    }
}

/// The number that a sign and a whole number denote.
pub open spec fn whole_spec(neg: bool, n: u32) -> Result<r32, ParseRatioErr> {
    if bit_len(n) > 26 {
        Err(ParseRatioErr { kind: RatioErrKind::Overflow })
    } else {
        Ok(r32::from_parts_spec(neg, n, 1))
    }
}

/// What the text after the sign denotes: a numerator, a `/` and a
/// denominator, or else a whole number.
pub open spec fn body_spec(neg: bool, body: Seq<u8>) -> Result<r32, ParseRatioErr> {
    if exists|i: int| first_bar(body, i) {
        let pos = choose|i: int| first_bar(body, i);
        if pos == body.len() - 1 {
            Err(ParseRatioErr { kind: RatioErrKind::Invalid })
        } else {
            match parse_u32_spec(body.take(pos)) {
                Err(k) => Err(ParseRatioErr { kind: k }),
                Ok(n) => match parse_u32_spec(body.skip(pos + 1)) {
                    Err(k) => Err(ParseRatioErr { kind: k }),
                    Ok(d) => ratio_spec(neg, n, d),
                },
            }
        }
    } else {
        match parse_u32_spec(body) {
            Err(k) => Err(ParseRatioErr { kind: k }),
            Ok(n) => whole_spec(neg, n),
        }
    }
}

/// What parsing the bytes of a string gives: `NaN` is `NaN`; otherwise an
/// optional sign, then the body (`body_spec`).
pub open spec fn parse_spec(src: Seq<u8>) -> Result<r32, ParseRatioErr> {
    if src.len() == 0 {
        Err(ParseRatioErr { kind: RatioErrKind::Empty })
    } else if src == seq![78u8, 97u8, 78u8] {
        Ok(r32(0x7C00_0000))
    } else if src[0] == 43 || src[0] == 45 {
        body_spec(src[0] == 45, src.drop_first())
    } else {
        body_spec(false, src)
    }
}

/// Reading one more digit extends the value of the digits read so far.
proof fn lemma_digits_step(s: Seq<u8>, k: int)
    requires
        0 <= k < s.len(),
    ensures
        digits_value(s.take(k + 1)) == digits_value(s.take(k)) * 10 + (s[k] - 48) as nat,
{
    assert(s.take(k + 1).drop_last() =~= s.take(k));
}

/// The value of the digits never shrinks as more are read.
proof fn lemma_digits_grow(s: Seq<u8>, k: int)
    requires
        0 <= k <= s.len(),
        all_digits(s),
    ensures
        digits_value(s.take(k)) <= digits_value(s),
    decreases s.len() - k,
{
    if k < s.len() {
        lemma_digits_step(s, k);
        lemma_digits_grow(s, k + 1);
    } else {
        assert(s.take(k) =~= s);
    }
}

/// Reads the `u32` in `b[start..end]` (see `parse_u32_spec`).
fn parse_u32(b: &[u8], start: usize, end: usize) -> (r: Result<u32, RatioErrKind>)
    requires
        start <= end <= b@.len(),
    ensures
        r == parse_u32_spec(b@.subrange(start as int, end as int)),
{
    let ghost s = b@.subrange(start as int, end as int);
    let mut i = start;
    if i < end && b[i] == 43 {
        i = i + 1;
    }
    let ghost body = b@.subrange(i as int, end as int);
    assert(body =~= if s.len() > 0 && s[0] == 43 {
        s.drop_first()
    } else {
        s
    });
    if i == end {
        return Err(RatioErrKind::Invalid);
    }
    let mut j = i;
    while j < end
        invariant
            i <= j <= end <= b@.len(),
            body == b@.subrange(i as int, end as int),
            s == b@.subrange(start as int, end as int),
            body == (if s.len() > 0 && s[0] == 43 {
                s.drop_first()
            } else {
                s
            }),
            body.len() > 0,
            forall|k: int| i <= k < j ==> is_digit(#[trigger] b@[k]),
        decreases end - j,
    {
        if b[j] < 48 || b[j] > 57 {
            assert(!is_digit(body[j - i]));
            assert(!all_digits(body));
            return Err(RatioErrKind::Invalid);
        }
        j = j + 1;
    }
    assert(all_digits(body));
    let mut acc: u64 = 0;
    let mut k = i;
    while k < end
        invariant
            i <= k <= end <= b@.len(),
            body == b@.subrange(i as int, end as int),
            s == b@.subrange(start as int, end as int),
            body == (if s.len() > 0 && s[0] == 43 {
                s.drop_first()
            } else {
                s
            }),
            body.len() > 0,
            all_digits(body),
            acc == digits_value(body.take(k - i)),
            acc <= u32::MAX,
        decreases end - k,
    {
        proof {
            lemma_digits_step(body, k - i);
            assert(body[k - i] == b@[k as int]);
            assert(is_digit(body[k - i]));
        }
        acc = acc * 10 + (b[k] - 48) as u64;
        assert(acc == digits_value(body.take(k - i + 1)));
        if acc > 0xFFFF_FFFF {
            proof {
                lemma_digits_grow(body, k - i + 1);
            }
            assert(digits_value(body) > u32::MAX);
            return Err(RatioErrKind::Overflow);
        }
        k = k + 1;
    }
    assert(body.take(end - i) =~= body);
    Ok(acc as u32)
}

impl r32 {
    /// Converts a string in base 10 to a rational (see `parse_spec`).
    ///
    /// This function accepts strings such as
    ///
    /// * '157/50'
    /// * '-157/50'
    /// * '25', or equivalently, '25/1'
    /// * 'NaN'
    ///
    /// Leading and trailing whitespace represent an error.
    ///
    /// # Return value
    ///
    /// `Err(ParseRatioError)` if the string did not represent a valid number.
    /// Otherwise, `Ok(n)` where `n` is the floating-bar number represented by
    /// `src`.
    pub fn parse(src: &str) -> (r: Result<r32, ParseRatioErr>)
        ensures
            r == parse_spec(src.spec_bytes()),
    {
        let b = src.as_bytes();
        let len = b.len();
        if len == 0 {
            return Err(ParseRatioErr { kind: RatioErrKind::Empty });
        }
        if len == 3 && b[0] == 78 && b[1] == 97 && b[2] == 78 {
            assert(b@ =~= seq![78u8, 97u8, 78u8]);
            return Ok(r32::nan());
        }
        assert(b@ != seq![78u8, 97u8, 78u8]) by {
            if b@ == seq![78u8, 97u8, 78u8] {
                assert(b@[0] == 78 && b@[1] == 97 && b@[2] == 78 && b@.len() == 3);
            }
        }
        // set sign
        let s = b[0] == 45;
        // skip sign if set
        if b[0] == 43 || b[0] == 45 {
            assert(b@.subrange(1, len as int) =~= b@.drop_first());
            r32::parse_body(b, 1, s)
        } else {
            assert(b@.subrange(0, len as int) =~= b@);
            r32::parse_body(b, 0, false)
        }
    }

    /// Reads `b[start..]`, the text after the sign (see `body_spec`).
    fn parse_body(b: &[u8], start: usize, s: bool) -> (r: Result<r32, ParseRatioErr>)
        requires
            start <= b@.len(),
        ensures
            r == body_spec(s, b@.subrange(start as int, b@.len() as int)),
    {
        let len = b.len();
        let ghost body = b@.subrange(start as int, len as int);
        // if bar exists, parse as fraction, otherwise as integer.
        let mut pos = start;
        while pos < len && b[pos] != 47
            invariant
                start <= pos <= len == b@.len(),
                body == b@.subrange(start as int, len as int),
                forall|j: int| start <= j < pos ==> b@[j] != 47,
            decreases len - pos,
        {
            pos = pos + 1;
        }
        if pos < len {
            let ghost p = pos - start;
            assert(first_bar(body, p)) by {
                assert forall|j: int| 0 <= j < p implies body[j] != 47 by {
                    assert(body[j] == b@[start + j]);
                }
            }
            assert forall|i: int| first_bar(body, i) implies i == p by {
                if i < p {
                    assert(body[i] == b@[start + i]);
                }
                if i > p {
                    assert(body[p] == 47);
                }
            }
            // bar is at the end. invalid.
            if pos == len - 1 {
                return Err(ParseRatioErr { kind: RatioErrKind::Invalid });
            }
            assert(body.take(p) =~= b@.subrange(start as int, pos as int));
            assert(body.skip(p + 1) =~= b@.subrange(pos + 1, len as int));
            let numerator = match parse_u32(b, start, pos) {
                Ok(n) => n,
                Err(k) => {
                    return Err(ParseRatioErr { kind: k });
                },
            };
            let denominator = match parse_u32(b, pos + 1, len) {
                Ok(d) => d,
                Err(k) => {
                    return Err(ParseRatioErr { kind: k });
                },
            };
            r32::read_ratio(s, numerator, denominator)
        } else {
            assert(!exists|i: int| first_bar(body, i)) by {
                if exists|i: int| first_bar(body, i) {
                    let i = choose|i: int| first_bar(body, i);
                    assert(body[i] == b@[start + i]);
                }
            }
            let numerator = match parse_u32(b, start, len) {
                Ok(n) => n,
                Err(k) => {
                    return Err(ParseRatioErr { kind: k });
                },
            };
            proof {
                axiom_u32_leading_zeros(numerator);
            }
            let frac_size = 32 - numerator.leading_zeros();
            if frac_size > 26 {
                return Err(ParseRatioErr { kind: RatioErrKind::Overflow });
            }
            Ok(r32::from_parts(s, numerator, 1))
        }
    }

    /// The number written as `numerator/denominator` (see `ratio_spec`).
    fn read_ratio(s: bool, numerator: u32, denominator: u32) -> (r: Result<r32, ParseRatioErr>)
        ensures
            r == ratio_spec(s, numerator, denominator),
    {
        if denominator == 0 {
            return Err(ParseRatioErr { kind: RatioErrKind::Invalid });
        }
        proof {
            axiom_u32_leading_zeros(denominator);
            axiom_u32_leading_zeros(numerator);
        }
        let denom_size = 32 - denominator.leading_zeros() - 1;
        // subnormals
        if numerator == 1 && denom_size == 26 {
            Ok(r32::from_parts(s, 1, denominator))
        } else if numerator == 0 && denom_size == 26 {
            Ok(r32::from_parts(s, 0, 1))
        } else {
            let frac_size = denom_size + (32 - numerator.leading_zeros());
            if frac_size > 26 {
                Err(ParseRatioErr { kind: RatioErrKind::Overflow })
            } else {
                Ok(r32::from_parts(s, numerator, denominator))
            }
        }
    }
}

impl std::str::FromStr for r32 {
    type Err = ParseRatioErr;

    /// Converts a string in base 10 to a rational; see `r32::parse`.
    fn from_str(src: &str) -> (r: Result<r32, ParseRatioErr>)
        ensures
            r == parse_spec(src.spec_bytes()),
    {
        r32::parse(src)
    }
}

} // verus!
