//! The greatest common divisor and the facts about it that reduced fractions
//! rest on.
use vstd::prelude::*;
use vstd::arithmetic::div_mod::{
    lemma_fundamental_div_mod, lemma_mod_multiples_basic, lemma_small_mod,
};
use vstd::arithmetic::mul::lemma_mul_is_commutative;
use gcd::Gcd;

verus! {

/// The greatest common divisor, by Euclid's algorithm; `spec_gcd(0, 0) == 0`.
pub open spec fn spec_gcd(a: nat, b: nat) -> nat
    decreases b,
{
    if b == 0 {
        a
    } else {
        spec_gcd(b, a % b)
    }
}

/// Calls `<u32 as gcd::Gcd>::gcd`, which returns the greatest common divisor
/// of its arguments, zero for `(0, 0)` (the crate computes it with the binary
/// algorithm). The contract claims that the result is the number that Euclid's
/// algorithm gives, which is the same greatest common divisor.
#[verifier::external_body]
pub(crate) fn gcd_u32(a: u32, b: u32) -> (g: u32)
    ensures
        g as nat == spec_gcd(a as nat, b as nat),
{
    a.gcd(b)
}

/// Calls `<u64 as gcd::Gcd>::gcd`; the same claim as for `gcd_u32`.
#[verifier::external_body]
pub(crate) fn gcd_u64(a: u64, b: u64) -> (g: u64)
    ensures
        g as nat == spec_gcd(a as nat, b as nat),
{
    a.gcd(b)
}

/// Bezout coefficients `(x, y)` with `a * x + b * y == spec_gcd(a, b)`.
pub open spec fn bezout(a: nat, b: nat) -> (int, int)
    decreases b,
{
    if b == 0 {
        (1, 0)
    } else {
        let (x, y) = bezout(b, a % b);
        (y, x - (a / b) as int * y)
    }
}

/// `k` divides `a`.
pub open spec fn divides(k: int, a: int) -> bool {
    exists|q: int| a == #[trigger] (k * q)
}

proof fn lemma_divides_mod(k: int, a: int)
    requires
        k > 0,
    ensures
        divides(k, a) <==> a % k == 0,
{
    lemma_fundamental_div_mod(a, k);
    if a % k == 0 {
        assert(a == k * (a / k));
    }
    if divides(k, a) {
        let q = choose|q: int| a == #[trigger] (k * q);
        lemma_mul_is_commutative(k, q);
        lemma_mod_multiples_basic(q, k);
    }
}

proof fn lemma_divides_linear(k: int, a: int, b: int, x: int, y: int)
    requires
        divides(k, a),
        divides(k, b),
    ensures
        divides(k, a * x + b * y),
{
    let qa = choose|q: int| a == #[trigger] (k * q);
    let qb = choose|q: int| b == #[trigger] (k * q);
    assert(a * x + b * y == k * (qa * x + qb * y)) by (nonlinear_arith)
        requires
            a == k * qa,
            b == k * qb,
    ;
}

/// The gcd divides both arguments, and is positive unless both are zero.
pub proof fn lemma_gcd_divides(a: nat, b: nat)
    ensures
        divides(spec_gcd(a, b) as int, a as int),
        divides(spec_gcd(a, b) as int, b as int),
        (a > 0 || b > 0) <==> spec_gcd(a, b) > 0,
    decreases b,
{
    let g = spec_gcd(a, b);
    if b == 0 {
        assert(a as int == g * 1);
        assert(0int == g * 0);
    } else {
        lemma_gcd_divides(b, a % b);
        lemma_fundamental_div_mod(a as int, b as int);
        lemma_divides_linear(g as int, b as int, (a % b) as int, (a / b) as int, 1);
        assert(a as int == b as int * (a / b) as int + (a % b) as int * 1);
    }
}

/// Bezout's identity.
pub proof fn lemma_bezout(a: nat, b: nat)
    ensures
        a as int * bezout(a, b).0 + b as int * bezout(a, b).1 == spec_gcd(a, b) as int,
    decreases b,
{
    if b > 0 {
        lemma_bezout(b, a % b);
        let (x, y) = bezout(b, a % b);
        let q = (a / b) as int;
        let r = (a % b) as int;
        lemma_fundamental_div_mod(a as int, b as int);
        assert(a as int == b as int * q + r);
        assert(a as int * y + b as int * (x - q * y) == b as int * x + r * y) by (nonlinear_arith)
            requires
                a as int == b as int * q + r,
        ;
        assert(b as int * x + r * y == spec_gcd(b, a % b) as int);
        assert(bezout(a, b) == (y, x - q * y));
    } else {
        assert(bezout(a, b) == (1int, 0int));
        assert(a as int * 1 + 0 * 0 == a as int);
    }
}

/// Every common divisor divides the gcd.
pub proof fn lemma_gcd_greatest(a: nat, b: nat, k: int)
    requires
        divides(k, a as int),
        divides(k, b as int),
    ensures
        divides(k, spec_gcd(a, b) as int),
{
    lemma_bezout(a, b);
    lemma_divides_linear(k, a as int, b as int, bezout(a, b).0, bezout(a, b).1);
}

/// Euclid's lemma, in Gauss's form: a divisor of `b * c` that is coprime to
/// `b` divides `c`.
pub proof fn lemma_coprime_divides(a: nat, b: nat, c: nat)
    requires
        spec_gcd(a, b) == 1,
        divides(a as int, b as int * c as int),
    ensures
        divides(a as int, c as int),
{
    lemma_bezout(a, b);
    let (x, y) = bezout(a, b);
    assert(divides(a as int, a as int)) by {
        assert(a as int == a as int * 1);
    }
    lemma_divides_linear(a as int, a as int, b as int * c as int, x * c as int, y);
    assert(a as int * (x * c as int) + (b as int * c as int) * y == c as int) by (
    nonlinear_arith)
        requires
            a as int * x + b as int * y == 1,
    ;
}

/// Dividing both arguments by their gcd leaves coprime numbers.
pub proof fn lemma_gcd_reduced(a: nat, b: nat)
    requires
        a > 0 || b > 0,
    ensures
        spec_gcd(a, b) > 0,
        a % spec_gcd(a, b) == 0,
        b % spec_gcd(a, b) == 0,
        spec_gcd(a / spec_gcd(a, b), b / spec_gcd(a, b)) == 1,
{
    let g = spec_gcd(a, b);
    lemma_gcd_divides(a, b);
    lemma_divides_mod(g as int, a as int);
    lemma_divides_mod(g as int, b as int);
    let a2 = a / g;
    let b2 = b / g;
    lemma_fundamental_div_mod(a as int, g as int);
    lemma_fundamental_div_mod(b as int, g as int);
    assert(a as int == g * a2);
    assert(b as int == g * b2);
    assert(a2 > 0 || b2 > 0) by {
        if a2 == 0 && b2 == 0 {
            assert(g * a2 == 0) by (nonlinear_arith)
                requires
                    a2 == 0,
            ;
            assert(g * b2 == 0) by (nonlinear_arith)
                requires
                    b2 == 0,
            ;
        }
    }
    let h = spec_gcd(a2, b2);
    lemma_gcd_divides(a2, b2);
    // h * g divides both a and b, hence g.
    let qa = choose|q: int| a2 as int == #[trigger] (h as int * q);
    let qb = choose|q: int| b2 as int == #[trigger] (h as int * q);
    assert(a as int == (h * g) as int * qa) by (nonlinear_arith)
        requires
            a as int == g * a2,
            a2 as int == h as int * qa,
    ;
    assert(b as int == (h * g) as int * qb) by (nonlinear_arith)
        requires
            b as int == g * b2,
            b2 as int == h as int * qb,
    ;
    lemma_gcd_greatest(a, b, (h * g) as int);
    let t = choose|q: int| g as int == #[trigger] ((h * g) as int * q);
    assert(h == 1) by (nonlinear_arith)
        requires
            g as int == (h * g) as int * t,
            g > 0,
            h > 0,
    ;
}

/// Two fractions in lowest terms with positive denominators that are equal as
/// values have equal numerators and denominators.
pub proof fn lemma_reduced_unique(a: nat, b: nat, c: nat, d: nat)
    requires
        spec_gcd(a, b) == 1,
        spec_gcd(c, d) == 1,
        b > 0,
        d > 0,
        a * d == c * b,
    ensures
        a == c,
        b == d,
{
    if a == 0 {
        assert(c * b == 0);
        assert(c == 0) by (nonlinear_arith)
            requires
                c * b == 0,
                b > 0,
        ;
        assert(spec_gcd(0, b) == b) by {
            lemma_gcd_zero_left(b);
        }
        assert(spec_gcd(0, d) == d) by {
            lemma_gcd_zero_left(d);
        }
    } else {
        // a divides c * b and is coprime to b, so a divides c; symmetrically
        // c divides a.
        assert(divides(a as int, b as int * c as int)) by {
            assert(b as int * c as int == a as int * d as int) by (nonlinear_arith)
                requires
                    a * d == c * b,
            ;
        }
        lemma_gcd_comm(a, b);
        lemma_coprime_divides(a, b, c);
        assert(c > 0) by (nonlinear_arith)
            requires
                a * d == c * b,
                a > 0,
                d > 0,
        ;
        assert(divides(c as int, d as int * a as int)) by {
            assert(d as int * a as int == c as int * b as int) by (nonlinear_arith)
                requires
                    a * d == c * b,
            ;
        }
        lemma_coprime_divides(c, d, a);
        let p = choose|q: int| c as int == #[trigger] (a as int * q);
        let q = choose|q: int| a as int == #[trigger] (c as int * q);
        assert(a == c) by (nonlinear_arith)
            requires
                c as int == a as int * p,
                a as int == c as int * q,
                a > 0,
                c > 0,
        ;
        assert(b == d) by (nonlinear_arith)
            requires
                a * d == c * b,
                a == c,
                a > 0,
        ;
    }
}

pub proof fn lemma_gcd_zero_left(b: nat)
    ensures
        spec_gcd(0, b) == b,
{
    if b > 0 {
        lemma_small_mod(0, b);
        assert(spec_gcd(b, 0) == b);
    }
}

/// The gcd does not depend on the order of its arguments.
pub proof fn lemma_gcd_comm(a: nat, b: nat)
    ensures
        spec_gcd(a, b) == spec_gcd(b, a),
{
    lemma_gcd_divides(a, b);
    lemma_gcd_divides(b, a);
    let g = spec_gcd(a, b);
    let h = spec_gcd(b, a);
    lemma_gcd_greatest(b, a, g as int);
    lemma_gcd_greatest(a, b, h as int);
    if g > 0 && h > 0 {
        let p = choose|q: int| h as int == #[trigger] (g as int * q);
        let q = choose|q: int| g as int == #[trigger] (h as int * q);
        assert(g == h) by (nonlinear_arith)
            requires
                h as int == g as int * p,
                g as int == h as int * q,
                g > 0,
                h > 0,
        ;
    }
}

} // verus!
