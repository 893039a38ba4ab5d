//! Writing floating-bar numbers as text: `-3/2`, `5`, `NaN`.
use vstd::prelude::*;
use crate::r32_t::r32;

verus! {

/// The decimal digits of `n`, as ASCII bytes.
pub open spec fn decimal(n: nat) -> Seq<u8>
    decreases n,
{
    if n < 10 {
        seq![(48 + n) as u8]
    } else {
        decimal(n / 10).push((48 + n % 10) as u8)
    }
}

/// The bytes `NaN`.
pub open spec fn nan_text() -> Seq<u8> {
    seq![78u8, 97u8, 78u8]
}

/// The characters of ASCII bytes.
pub open spec fn ascii_chars(s: Seq<u8>) -> Seq<char> {
    s.map_values(|c: u8| c as char)
}

/// The text of `{:?}`: `NaN`, or the sign bit as `-` and the stored
/// numerator and denominator, `numer/denom`.
pub open spec fn debug_text(x: r32) -> Seq<u8> {
    if x.nan_spec() {
        nan_text()
    } else {
        (if x.sign_spec() {
            seq![45u8]
        } else {
            Seq::<u8>::empty()
        }) + decimal(x.numer_spec() as nat) + seq![47u8] + decimal(x.denom_spec() as nat)
    }
}

/// The text of `{}`: `NaN`, or the cancelled number, with `-` when it is
/// negative and `/denom` unless its denominator is one.
pub open spec fn display_text(x: r32) -> Seq<u8> {
    if x.nan_spec() {
        nan_text()
    } else {
        let s = x.simplify_spec();
        (if s.negative_spec() {
            seq![45u8]
        } else {
            Seq::<u8>::empty()
        }) + decimal(s.numer_spec() as nat) + (if s.size_spec() > 0 {
            seq![47u8] + decimal(s.denom_spec() as nat)
        } else {
            Seq::<u8>::empty()
        })
    }
}

pub open spec fn is_ascii_bytes(s: Seq<u8>) -> bool {
    forall|i: int| 0 <= i < s.len() ==> #[trigger] s[i] < 128
}

proof fn lemma_decimal_ascii(n: nat)
    ensures
        is_ascii_bytes(decimal(n)),
        decimal(n).len() > 0,
    decreases n,
{
    if n >= 10 {
        lemma_decimal_ascii(n / 10);
    }
}

/// Calls `String::from_utf8`, which returns the string whose bytes are the
/// given ones when they are valid UTF-8. ASCII bytes always are, and each one
/// is then one character, the character of that code; the contract claims
/// this. The call cannot fail under the precondition, so its `unwrap` does not
/// panic.
#[verifier::external_body]
fn ascii_string(bytes: Vec<u8>) -> (s: String)
    requires
        is_ascii_bytes(bytes@),
    ensures
        s@ == ascii_chars(bytes@),
{
    String::from_utf8(bytes).unwrap()
}

/// Appends the decimal digits of `n`.
fn push_decimal(out: &mut Vec<u8>, n: u32)
    ensures
        final(out)@ == old(out)@ + decimal(n as nat),
    decreases n,
{
    if n >= 10 {
        push_decimal(out, n / 10);
    }
    out.push(48 + (n % 10) as u8);
    proof {
        if n >= 10 {
            assert(decimal(n as nat) == decimal((n / 10) as nat).push((48 + n % 10) as u8));
        }
    }
    assert(out@ =~= old(out)@ + decimal(n as nat));
}

impl r32 {
    /// The text that `{:?}` writes: `NaN`, or `numer/denom` with `-` in front
    /// when the sign bit is set.
    pub fn debug_string(self) -> (r: String)
        ensures
            r@ == ascii_chars(debug_text(self)),
    {
        let mut out: Vec<u8> = Vec::new();
        if self.is_nan() {
            out.push(78);
            out.push(97);
            out.push(78);
            assert(out@ =~= nan_text());
        } else {
            if self.is_sign_negative() {
                out.push(45);
            }
            push_decimal(&mut out, self.numer());
            out.push(47);
            push_decimal(&mut out, self.denom());
            assert(out@ =~= debug_text(self));
        }
        proof {
            lemma_decimal_ascii(self.numer_spec() as nat);
            lemma_decimal_ascii(self.denom_spec() as nat);
        }
        ascii_string(out)
    }

    /// The text that `{}` writes: `NaN`, or the number in lowest terms,
    /// `-3/2` or `5`.
    pub fn display_string(self) -> (r: String)
        ensures
            r@ == ascii_chars(display_text(self)),
    {
        let mut out: Vec<u8> = Vec::new();
        if self.is_nan() {
            out.push(78);
            out.push(97);
            out.push(78);
            assert(out@ =~= nan_text());
        } else {
            let norm = self.simplify();
            if norm.is_negative() {
                out.push(45);
            }
            push_decimal(&mut out, norm.numer());
            if norm.denom_size() > 0 {
                out.push(47);
                push_decimal(&mut out, norm.denom());
            }
            assert(out@ =~= display_text(self));
            proof {
                lemma_decimal_ascii(norm.numer_spec() as nat);
                lemma_decimal_ascii(norm.denom_spec() as nat);
            }
        }
        ascii_string(out)
    }
}

} // verus!
