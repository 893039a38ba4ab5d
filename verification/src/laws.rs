//! Properties of floating-bar numbers that relate several operations.
use vstd::prelude::*;
use crate::r32_t::r32;
use crate::gcd_facts::{spec_gcd, lemma_reduced_unique};
use crate::ops::{lemma_reduce, lemma_u32_product, reduce};
use crate::encoding::lemma_frac_fits;
use vstd::math::abs;
use vstd::arithmetic::power::pow;
use crate::ops::{power, power_fits, pow_base, exponent};
use vstd::std_specs::convert::FromSpec;

verus! {

/// Two magnitudes `n1/d1` and `n2/d2` that are equal as values keep equal
/// values after each is replaced by an equal fraction.
proof fn lemma_cross_transfer(n1: int, d1: int, m1: int, e1: int, n2: int, d2: int, m2: int, e2: int)
    requires
        d1 > 0,
        d2 > 0,
        e1 > 0,
        e2 > 0,
        m1 * d1 == n1 * e1,
        m2 * d2 == n2 * e2,
        n1 * d2 == n2 * d1,
    ensures
        m1 * e2 == m2 * e1,
{
    assert(m1 * e2 * (d1 * d2) == (m1 * d1) * (e2 * d2)) by (nonlinear_arith);
    assert(m2 * e1 * (d1 * d2) == (m2 * d2) * (e1 * d1)) by (nonlinear_arith);
    assert((n1 * e1) * (e2 * d2) == (n1 * d2) * (e1 * e2)) by (nonlinear_arith);
    assert((n2 * e2) * (e1 * d1) == (n2 * d1) * (e1 * e2)) by (nonlinear_arith);
    assert(d1 * d2 > 0) by (nonlinear_arith)
        requires
            d1 > 0,
            d2 > 0,
    ;
    assert(m1 * e2 == m2 * e1) by (nonlinear_arith)
        requires
            m1 * e2 * (d1 * d2) == m2 * e1 * (d1 * d2),
            d1 * d2 > 0,
    ;
}

/// `==` on floating-bar numbers is equality of values: two numbers are equal
/// when both are zero (`NaN` counting as zero, as its numerator is zero), or
/// when neither is `NaN` and `a/b == c/d`, that is `a * d == c * b`.
pub proof fn lemma_eq_iff_same_value(x: r32, y: r32)
    ensures
        x.eq_r32(y) <==> (x.numer_spec() == 0 && y.numer_spec() == 0 || !x.nan_spec()
            && !y.nan_spec() && x.num() * y.den() == y.num() * x.den()),
{
    x.lemma_decode();
    y.lemma_decode();
    if x.numer_spec() == 0 && y.numer_spec() == 0 {
        return;
    }
    if x.nan_spec() || y.nan_spec() {
        if x.nan_spec() {
            y.lemma_simplify_spec();
            assert(x.simplify_spec() == x);
            assert(x.simplify_spec().0 != y.simplify_spec().0);
        } else {
            x.lemma_simplify_spec();
            assert(y.simplify_spec() == y);
            assert(x.simplify_spec().0 != y.simplify_spec().0);
        }
        return;
    }
    if x.numer_spec() == 0 || y.numer_spec() == 0 {
        let z = r32(0);
        r32::lemma_zero_and_nan_words();
        assert(z.numer_spec() == 0);
        if x.numer_spec() == 0 {
            y.lemma_simplify_spec();
            assert(x.simplify_spec() == z);
            assert(x.simplify_spec().0 != y.simplify_spec().0);
            assert(x.num() == 0);
            assert(y.num() != 0);
            assert(y.num() * x.den() != 0) by (nonlinear_arith)
                requires
                    y.num() != 0,
                    x.den() > 0,
            ;
        } else {
            x.lemma_simplify_spec();
            assert(y.simplify_spec() == z);
            assert(x.simplify_spec().0 != y.simplify_spec().0);
            assert(y.num() == 0);
            assert(x.num() != 0);
            assert(x.num() * y.den() != 0) by (nonlinear_arith)
                requires
                    x.num() != 0,
                    y.den() > 0,
            ;
        }
        return;
    }
    // both are nonzero numbers
    x.lemma_simplify_spec();
    y.lemma_simplify_spec();
    let sx = x.simplify_spec();
    let sy = y.simplify_spec();
    let nx = x.numer_spec() as int;
    let dx = x.denom_spec() as int;
    let ny = y.numer_spec() as int;
    let dy = y.denom_spec() as int;
    let a = sx.numer_spec() as int;
    let b = sx.denom_spec() as int;
    let c = sy.numer_spec() as int;
    let d = sy.denom_spec() as int;
    if x.eq_r32(y) {
        assert(sx == sy);
        lemma_cross_transfer(a, b, nx, dx, a, b, ny, dy);
        assert(nx * dy == ny * dx);
        if x.sign_spec() {
            assert(x.num() * y.den() == -(nx * dy)) by (nonlinear_arith)
                requires
                    x.num() == -nx,
                    y.den() == dy,
            ;
            assert(y.num() * x.den() == -(ny * dx)) by (nonlinear_arith)
                requires
                    y.num() == -ny,
                    x.den() == dx,
            ;
        }
    }
    if x.num() * y.den() == y.num() * x.den() {
        // equal values have equal signs
        assert(x.sign_spec() == y.sign_spec()) by {
            if x.sign_spec() != y.sign_spec() {
                assert(nx * dy > 0 && ny * dx > 0) by (nonlinear_arith)
                    requires
                        nx > 0,
                        ny > 0,
                        dx > 0,
                        dy > 0,
                ;
                if x.sign_spec() {
                    assert(x.num() * y.den() == -(nx * dy)) by (nonlinear_arith)
                        requires
                            x.num() == -nx,
                            y.den() == dy,
                    ;
                } else {
                    assert(y.num() * x.den() == -(ny * dx)) by (nonlinear_arith)
                        requires
                            y.num() == -ny,
                            x.den() == dx,
                    ;
                }
            }
        }
        assert(nx * dy == ny * dx) by {
            if x.sign_spec() {
                assert(x.num() * y.den() == -(nx * dy)) by (nonlinear_arith)
                    requires
                        x.num() == -nx,
                        y.den() == dy,
                ;
                assert(y.num() * x.den() == -(ny * dx)) by (nonlinear_arith)
                    requires
                        y.num() == -ny,
                        x.den() == dx,
                ;
            }
        }
        lemma_cross_transfer(nx, dx, a, b, ny, dy, c, d);
        lemma_reduced_unique(a as nat, b as nat, c as nat, d as nat);
        assert(sx == sy);
    }
}

/// The numerator times the signum is the signed numerator.
proof fn lemma_signed_numer(x: r32)
    ensures
        x.numer_spec() as int * x.signum_int() == x.num(),
{
    x.lemma_decode();
}

/// A cancelled fraction `n / d` that passes the overflow check is stored
/// exactly, and the stored number has the value `±n / d` of the exact
/// result `±nn / dd`.
proof fn lemma_store_value(sign: bool, nn: nat, dd: nat, signed: int)
    requires
        dd > 0,
        nn <= 0xFFFF_FFFF_FFFF_FFFF,
        dd <= 0xFFFF_FFFF_FFFF_FFFF,
        signed == (if sign { -(nn as int) } else { nn as int }),
        frac_fits_parts(reduce(nn, dd)),
    ensures
        ({
            let r = r32::from_parts_spec(sign, reduce(nn, dd).0 as u32, reduce(nn, dd).1 as u32);
            &&& !r.nan_spec()
            &&& r.numer_spec() == reduce(nn, dd).0
            &&& r.denom_spec() == reduce(nn, dd).1
            &&& r.sign_spec() == sign
            &&& r.num() * dd == signed * r.den()
            &&& spec_gcd(r.numer_spec() as nat, r.denom_spec() as nat) == 1
        }),
{
    let g = spec_gcd(nn, dd);
    lemma_reduce(nn, dd, g);
    let n2 = nn / g;
    let d2 = dd / g;
    lemma_frac_fits(n2 as u64, d2 as u64);
    r32::lemma_from_parts_decode(sign, n2 as u32, d2 as u32);
    let r = r32::from_parts_spec(sign, n2 as u32, d2 as u32);
    if sign {
        assert(r.num() * dd == signed * r.den()) by (nonlinear_arith)
            requires
                r.num() == -(n2 as int),
                signed == -(nn as int),
                r.den() == d2 as int,
                n2 * dd == nn * d2,
        ;
    } else {
        assert(r.num() * dd == signed * r.den()) by (nonlinear_arith)
            requires
                r.num() == n2 as int,
                signed == nn as int,
                r.den() == d2 as int,
                n2 * dd == nn * d2,
        ;
    }
}

/// The overflow check on a pair of cancelled parts.
pub open spec fn frac_fits_parts(p: (nat, nat)) -> bool {
    crate::encoding::frac_fits(p.0 as u64, p.1 as u64)
}

/// Multiplication is exact: when the product fits, its value is the product
/// of the values, `r.num / r.den == (a.num * b.num) / (a.den * b.den)`, in
/// lowest terms.
pub proof fn lemma_mul_value(a: r32, b: r32)
    requires
        a.mul_fits(b),
    ensures
        ({
            let r = a.product_spec(b);
            &&& !r.nan_spec()
            &&& r.num() * (a.den() * b.den()) == (a.num() * b.num()) * r.den()
            &&& spec_gcd(r.numer_spec() as nat, r.denom_spec() as nat) == 1
        }),
{
    a.lemma_decode();
    b.lemma_decode();
    lemma_u32_product(a.numer_spec(), b.numer_spec());
    lemma_u32_product(a.denom_spec(), b.denom_spec());
    let nn = a.numer_spec() as nat * b.numer_spec() as nat;
    let dd = a.denom_spec() as nat * b.denom_spec() as nat;
    assert(dd > 0) by (nonlinear_arith)
        requires
            a.denom_spec() > 0,
            b.denom_spec() > 0,
            dd == a.denom_spec() as nat * b.denom_spec() as nat,
    ;
    let sign = a.product_sign(b);
    let signed = if sign { -(nn as int) } else { nn as int };
    lemma_store_value(sign, nn, dd, signed);
    assert(a.den() * b.den() == dd as int);
    assert(signed == a.num() * b.num()) by {
        if a.numer_spec() == 0 || b.numer_spec() == 0 {
            assert(nn == 0) by (nonlinear_arith)
                requires
                    a.numer_spec() == 0 || b.numer_spec() == 0,
                    nn == a.numer_spec() as nat * b.numer_spec() as nat,
            ;
            assert(a.num() * b.num() == 0) by (nonlinear_arith)
                requires
                    a.num() == 0 || b.num() == 0,
            ;
        } else {
            let x = a.numer_spec() as int;
            let y = b.numer_spec() as int;
            assert((-x) * (-y) == x * y && (-x) * y == -(x * y) && x * (-y) == -(x * y))
                by (nonlinear_arith);
        }
    }
}

/// Multiplication commutes, to the bit.
pub proof fn lemma_mul_commutes(a: r32, b: r32)
    ensures
        a.product_spec(b) == b.product_spec(a),
        a.mul_fits(b) == b.mul_fits(a),
{
    assert(a.numer_spec() as nat * b.numer_spec() as nat == b.numer_spec() as nat
        * a.numer_spec() as nat) by (nonlinear_arith);
    assert(a.denom_spec() as nat * b.denom_spec() as nat == b.denom_spec() as nat
        * a.denom_spec() as nat) by (nonlinear_arith);
}

/// Addition is exact: when the sum fits, its value is the sum of the values,
/// `r.num / r.den == (a.num * b.den + b.num * a.den) / (a.den * b.den)`, in
/// lowest terms.
pub proof fn lemma_add_value(a: r32, b: r32)
    requires
        a.add_fits(b),
    ensures
        ({
            let r = a.sum_spec(b);
            &&& !r.nan_spec()
            &&& r.num() * (a.den() * b.den()) == (a.num() * b.den() + b.num() * a.den()) * r.den()
            &&& spec_gcd(r.numer_spec() as nat, r.denom_spec() as nat) == 1
        }),
{
    a.lemma_decode();
    b.lemma_decode();
    lemma_signed_numer(a);
    lemma_signed_numer(b);
    lemma_u32_product(a.denom_spec(), b.denom_spec());
    let dd = a.denom_spec() as nat * b.denom_spec() as nat;
    assert(dd > 0) by (nonlinear_arith)
        requires
            a.denom_spec() > 0,
            b.denom_spec() > 0,
            dd == a.denom_spec() as nat * b.denom_spec() as nat,
    ;
    let sum = a.sum_num(b);
    assert(sum == a.num() * b.den() + b.num() * a.den()) by (nonlinear_arith)
        requires
            sum == a.numer_spec() as int * a.signum_int() * b.denom_spec() as int
                + a.denom_spec() as int * (b.numer_spec() as int * b.signum_int()),
            a.numer_spec() as int * a.signum_int() == a.num(),
            b.numer_spec() as int * b.signum_int() == b.num(),
            a.den() == a.denom_spec() as int,
            b.den() == b.denom_spec() as int,
    ;
    assert(-0x0400_0000 < a.num() < 0x0400_0000 && -0x0400_0000 < b.num() < 0x0400_0000);
    assert(abs(sum) <= 0xFFFF_FFFF_FFFF_FFFF) by (nonlinear_arith)
        requires
            sum == a.num() * b.den() + b.num() * a.den(),
            -0x0400_0000 < a.num() < 0x0400_0000,
            -0x0400_0000 < b.num() < 0x0400_0000,
            0 < a.den() <= 0xFFFF_FFFF,
            0 < b.den() <= 0xFFFF_FFFF,
    ;
    lemma_store_value(a.sum_sign(b), abs(sum), dd, sum);
}

/// Addition commutes, to the bit.
pub proof fn lemma_add_commutes(a: r32, b: r32)
    ensures
        a.sum_spec(b) == b.sum_spec(a),
        a.add_fits(b) == b.add_fits(a),
{
    assert(a.sum_num(b) == b.sum_num(a)) by (nonlinear_arith)
        requires
            a.sum_num(b) == a.numer_spec() as int * a.signum_int() * b.denom_spec() as int
                + a.denom_spec() as int * (b.numer_spec() as int * b.signum_int()),
            b.sum_num(a) == b.numer_spec() as int * b.signum_int() * a.denom_spec() as int
                + b.denom_spec() as int * (a.numer_spec() as int * a.signum_int()),
    ;
    assert(a.denom_spec() as nat * b.denom_spec() as nat == b.denom_spec() as nat
        * a.denom_spec() as nat) by (nonlinear_arith);
}

/// What `==` compares: zero for every number whose numerator is zero
/// (`NaN` among them), otherwise the cancelled word.
pub open spec fn eq_key(x: r32) -> Option<u32> {
    if x.numer_spec() == 0 {
        None
    } else {
        Some(x.simplify_spec().0)
    }
}

pub(crate) proof fn lemma_eq_key(x: r32, y: r32)
    ensures
        x.eq_r32(y) <==> eq_key(x) == eq_key(y),
{
    x.lemma_decode();
    y.lemma_decode();
    let z = r32(0);
    r32::lemma_zero_and_nan_words();
    assert(z.numer_spec() == 0);
    if x.numer_spec() != 0 && y.numer_spec() == 0 {
        x.lemma_simplify_spec();
        assert(y.nan_spec() ==> y.simplify_spec() == y);
        assert(!y.nan_spec() ==> y.simplify_spec() == z);
        assert(x.simplify_spec().0 != y.simplify_spec().0);
    }
    if x.numer_spec() == 0 && y.numer_spec() != 0 {
        y.lemma_simplify_spec();
        assert(x.nan_spec() ==> x.simplify_spec() == x);
        assert(!x.nan_spec() ==> x.simplify_spec() == z);
        assert(x.simplify_spec().0 != y.simplify_spec().0);
    }
}

/// `==` is an equivalence relation: reflexive, symmetric and transitive.
pub proof fn lemma_eq_equivalence(x: r32, y: r32, z: r32)
    ensures
        x.eq_r32(x),
        x.eq_r32(y) ==> y.eq_r32(x),
        x.eq_r32(y) && y.eq_r32(z) ==> x.eq_r32(z),
{
    lemma_eq_key(x, x);
    lemma_eq_key(x, y);
    lemma_eq_key(y, x);
    lemma_eq_key(y, z);
    lemma_eq_key(x, z);
}

/// Negation flips the sign bit only: it undoes itself, and negates the
/// value.
pub proof fn lemma_neg(x: r32)
    ensures
        x.negate_spec().negate_spec() == x,
        x.negate_spec().num() == -x.num(),
        x.negate_spec().den() == x.den(),
        x.negate_spec().nan_spec() == x.nan_spec(),
        x.negate_spec().numer_spec() == x.numer_spec(),
        x.negate_spec().denom_spec() == x.denom_spec(),
        x.negate_spec().size_spec() == x.size_spec(),
        x.negate_spec().sign_spec() == !x.sign_spec(),
{
    let b = x.0;
    let c = x.negate_spec().0;
    assert(c == b ^ 0x8000_0000u32 ==> c ^ 0x8000_0000u32 == b && c & 0x7FFF_FFFFu32 == b
        & 0x7FFF_FFFFu32 && (c & 0x8000_0000u32 != 0) == !(b & 0x8000_0000u32 != 0)) by (
    bit_vector);
    x.lemma_same_magnitude(x.negate_spec());
}

/// Subtraction is exact: when the difference fits, its value is the
/// difference of the values.
pub proof fn lemma_sub_value(a: r32, b: r32)
    requires
        a.add_fits(b.negate_spec()),
    ensures
        ({
            let r = a.sum_spec(b.negate_spec());
            &&& !r.nan_spec()
            &&& r.num() * (a.den() * b.den()) == (a.num() * b.den() - b.num() * a.den()) * r.den()
        }),
{
    lemma_neg(b);
    lemma_add_value(a, b.negate_spec());
    assert((-b.num()) * a.den() == -(b.num() * a.den())) by (nonlinear_arith);
}

/// Division is exact: when the quotient fits, it is the product with the
/// reciprocal, whose value is `b.den / b.num`.
pub proof fn lemma_div_value(a: r32, b: r32)
    requires
        b.divisor_ok(),
        a.div_fits(b),
    ensures
        ({
            let r = a.quotient_spec(b);
            &&& !r.nan_spec()
            &&& r.num() * (a.den() * b.num()) == (a.num() * b.den()) * r.den()
        }),
{
    b.lemma_decode();
    crate::encoding::lemma_swap_fits(b.numer_spec(), b.denom_spec());
    r32::lemma_from_parts_decode(b.negative_spec(), b.denom_spec(), b.numer_spec());
    let c = b.recip_spec();
    lemma_mul_value(a, c);
    let r = a.quotient_spec(b);
    // c = b.den / b.num with the sign of b
    let n = b.numer_spec() as int;
    let d = b.denom_spec() as int;
    if b.sign_spec() {
        assert(c.num() == -d && c.den() == n && b.num() == -n);
        assert(r.num() * (a.den() * b.num()) == (a.num() * b.den()) * r.den()) by (nonlinear_arith)
            requires
                r.num() * (a.den() * n) == (a.num() * (-d)) * r.den(),
                b.num() == -n,
                b.den() == d,
        ;
    } else {
        assert(c.num() == d && c.den() == n && b.num() == n);
        assert(r.num() * (a.den() * b.num()) == (a.num() * b.den()) * r.den()) by (nonlinear_arith)
            requires
                r.num() * (a.den() * n) == (a.num() * d) * r.den(),
                b.num() == n,
                b.den() == d,
        ;
    }
}

/// The remainder is what is left of `|a|` after taking out the whole number
/// `q` of `|b|`s that fit: over the common denominator `a.den * b.den`,
/// `|a| = q * |b| + |r|` with `0 <= |r| < |b|`; `r` has the sign of `a`.
pub proof fn lemma_rem_value(a: r32, b: r32)
    requires
        b.divisor_ok(),
        a.rem_fits(b),
    ensures
        ({
            let r = a.remainder_spec(b);
            let whole = a.mag() * b.den();
            let unit = b.mag() * a.den();
            &&& !r.nan_spec()
            &&& r.sign_spec() == a.negative_spec()
            &&& r.mag() * (a.den() * b.den()) == (whole % unit) * r.den()
            &&& whole == (whole / unit) * unit + whole % unit
            &&& 0 <= whole % unit < unit
        }),
{
    a.lemma_decode();
    b.lemma_decode();
    lemma_u32_product(a.numer_spec(), b.denom_spec());
    lemma_u32_product(b.numer_spec(), a.denom_spec());
    lemma_u32_product(a.denom_spec(), b.denom_spec());
    let whole = a.mag() * b.den();
    let unit = b.mag() * a.den();
    assert(unit > 0) by (nonlinear_arith)
        requires
            unit == b.mag() * a.den(),
            b.mag() > 0,
            a.den() > 0,
    ;
    let dd = a.denom_spec() as nat * b.denom_spec() as nat;
    assert(dd > 0) by (nonlinear_arith)
        requires
            a.denom_spec() > 0,
            b.denom_spec() > 0,
            dd == a.denom_spec() as nat * b.denom_spec() as nat,
    ;
    let m = (whole % unit) as nat;
    vstd::arithmetic::div_mod::lemma_fundamental_div_mod(whole, unit);
    vstd::arithmetic::div_mod::lemma_mod_bound(whole, unit);
    assert(m <= 0xFFFF_FFFF_FFFF_FFFF);
    let sign = a.negative_spec();
    assert(whole == (a.numer_spec() as nat * b.denom_spec() as nat) as int);
    assert(unit == (b.numer_spec() as nat * a.denom_spec() as nat) as int);
    assert(a.rem_parts(b) == reduce(m, dd));
    assert(a.den() * b.den() == dd as int);
    lemma_store_value(sign, m, dd, if sign { -(m as int) } else { m as int });
    let r = a.remainder_spec(b);
    crate::ops::lemma_reduce(m, dd, spec_gcd(m, dd));
    assert(r.mag() * dd == m * r.den()) by (nonlinear_arith)
        requires
            r.mag() == reduce(m, dd).0,
            r.den() == reduce(m, dd).1,
            reduce(m, dd).0 * dd == m * reduce(m, dd).1,
    ;
}

/// Cancelling twice is cancelling once.
pub proof fn lemma_simplify_idempotent(x: r32)
    ensures
        x.simplify_spec().simplify_spec() == x.simplify_spec(),
        x.eq_r32(x.simplify_spec()),
{
    x.lemma_decode();
    let z = r32(0);
    r32::lemma_zero_and_nan_words();
    if !x.nan_spec() && x.numer_spec() != 0 {
        x.lemma_simplify_spec();
        let s = x.simplify_spec();
        let n = s.numer_spec() as nat;
        let d = s.denom_spec() as nat;
        assert(n / 1 == n && d / 1 == d);
        assert(s.simplify_spec() == r32::from_parts_spec(s.negative_spec(), n as u32, d as u32));
    }
    lemma_eq_key(x, x.simplify_spec());
}

/// The integer and fractional parts add up to the number:
/// `trunc(x) + fract(x) == x`, both with the sign of `x`.
pub proof fn lemma_trunc_plus_fract(x: r32)
    requires
        !x.nan_spec(),
    ensures
        x.trunc_spec().den() == 1,
        x.fract_spec().den() == x.den(),
        x.trunc_spec().num() * x.den() + x.fract_spec().num() == x.num(),
{
    x.lemma_decode();
    let n = x.numer_spec();
    let d = x.denom_spec();
    crate::encoding::lemma_whole_fits(n / d);
    r32::lemma_from_parts_decode(x.negative_spec(), n / d, 1);
    // the fractional part fits as `fract` shows
    vstd::arithmetic::div_mod::lemma_mod_decreases(n as nat, d as nat);
    if crate::encoding::denom_width(d) < 26 {
        crate::encoding::lemma_shr_zero_mono(n % d, n, (26 - crate::encoding::denom_width(d)) as u32);
    } else {
        crate::encoding::lemma_denom_width(d);
        vstd::arithmetic::div_mod::lemma_small_mod(1, d as nat);
    }
    r32::lemma_from_parts_decode(x.negative_spec(), n % d, d);
    vstd::arithmetic::div_mod::lemma_fundamental_div_mod(n as int, d as int);
    let q = (n / d) as int;
    let m = (n % d) as int;
    assert(q * d as int + m == n as int);
    if x.sign_spec() {
        assert((-q) * d as int + (-m) == -(n as int)) by (nonlinear_arith)
            requires
                q * d as int + m == n as int,
        ;
    }
}

/// The reciprocal of the reciprocal is the number itself.
pub proof fn lemma_recip_involutive(x: r32)
    requires
        x.numer_spec() != 0,
        x.size_spec() < 26,
    ensures
        x.recip_spec().numer_spec() != 0,
        x.recip_spec().size_spec() < 26,
        x.recip_spec().recip_spec() == x,
{
    x.lemma_decode();
    let n = x.numer_spec();
    let d = x.denom_spec();
    crate::encoding::lemma_swap_fits(n, d);
    r32::lemma_from_parts_decode(x.negative_spec(), d, n);
    let c = x.recip_spec();
    crate::encoding::lemma_denom_width(n);
    assert(n < 0x0400_0000u32 ==> crate::encoding::denom_width(n) < 26);
}

/// `abs` clears the sign bit: it is idempotent and ignores negation.
pub proof fn lemma_abs(x: r32)
    ensures
        r32(r32(x.0 & !0x8000_0000u32).0 & !0x8000_0000u32) == r32(x.0 & !0x8000_0000u32),
        r32(x.negate_spec().0 & !0x8000_0000u32) == r32(x.0 & !0x8000_0000u32),
{
    let b = x.0;
    assert((b & !0x8000_0000u32) & !0x8000_0000u32 == b & !0x8000_0000u32 && (b ^ 0x8000_0000u32)
        & !0x8000_0000u32 == b & !0x8000_0000u32) by (bit_vector);
}

/// Converting a small signed integer keeps its value: `r32::from(v)` has
/// the numerator `v` over the denominator one.
pub proof fn lemma_from_i16_value(v: i16)
    ensures
        <r32 as FromSpec<i16>>::from_spec(v).num() == v,
        <r32 as FromSpec<i16>>::from_spec(v).den() == 1,
        !<r32 as FromSpec<i16>>::from_spec(v).nan_spec(),
        r32::from_parts_spec(v < 0, crate::convert::magnitude(v as int), 1).num() == v,
        r32::from_parts_spec(v < 0, crate::convert::magnitude(v as int), 1).den() == 1,
{
    let n = crate::convert::magnitude(v as int);
    assert(n <= 32768);
    crate::encoding::lemma_whole_fits(n);
    r32::lemma_from_parts_decode(v < 0, n, 1);
}

/// Converting a small unsigned integer keeps its value: `r32::from(v)` has
/// the numerator `v` over the denominator one.
pub proof fn lemma_from_u16_value(v: u16)
    ensures
        <r32 as FromSpec<u16>>::from_spec(v).num() == v,
        <r32 as FromSpec<u16>>::from_spec(v).den() == 1,
        r32(v as u32).num() == v,
        r32(v as u32).den() == 1,
        !r32(v as u32).nan_spec(),
{
    let b = v as u32;
    assert(b <= 0xFFFF ==> (b & 0x7C00_0000u32) >> 26u32 == 0 && (b & 0x03FF_FFFFu32) >> 0u32 == b
        && b & 0x8000_0000u32 == 0 && (b & !(0xFFFF_FFFFu32 << 0u32)) | (1u32 << 0u32) == 1) by (
    bit_vector);
}

/// Converting a signed byte keeps its value: `r32::from(v)` has the
/// numerator `v` over the denominator one.
pub proof fn lemma_from_i8_value(v: i8)
    ensures
        <r32 as FromSpec<i8>>::from_spec(v).num() == v,
        <r32 as FromSpec<i8>>::from_spec(v).den() == 1,
        !<r32 as FromSpec<i8>>::from_spec(v).nan_spec(),
        r32::from_parts_spec(v < 0, crate::convert::magnitude(v as int), 1).num() == v,
        r32::from_parts_spec(v < 0, crate::convert::magnitude(v as int), 1).den() == 1,
{
    lemma_from_i16_value(v as i16);
}

/// Converting a byte keeps its value: `r32::from(v)` has the numerator `v`
/// over the denominator one.
pub proof fn lemma_from_u8_value(v: u8)
    ensures
        <r32 as FromSpec<u8>>::from_spec(v).num() == v,
        <r32 as FromSpec<u8>>::from_spec(v).den() == 1,
        !<r32 as FromSpec<u8>>::from_spec(v).nan_spec(),
{
    lemma_from_u16_value(v as u16);
}

/// The sign predicates say what the sign bit says: a number that is not
/// `NaN` is either positive (sign bit clear, value at least zero) or negative
/// (sign bit set, value at most zero), never both; a nonzero number is
/// positive exactly when its value is above zero; negation swaps the two;
/// `NaN` is neither.
pub proof fn lemma_sign_predicates(x: r32)
    ensures
        x.nan_spec() ==> !x.positive_spec() && !x.negative_spec(),
        !x.nan_spec() ==> (x.positive_spec() <==> !x.negative_spec()),
        x.positive_spec() ==> x.num() >= 0 && x.0 & 0x8000_0000u32 == 0,
        x.negative_spec() ==> x.num() <= 0 && x.0 & 0x8000_0000u32 != 0,
        !x.nan_spec() && x.numer_spec() != 0 ==> (x.positive_spec() <==> x.num() > 0),
        !x.nan_spec() && x.numer_spec() != 0 ==> (x.negative_spec() <==> x.num() < 0),
        x.positive_spec() <==> x.negate_spec().negative_spec(),
        x.positive_spec() ==> x.signum_int() >= 0,
        x.negative_spec() ==> x.signum_int() <= 0,
{
    lemma_neg(x);
}

/// A number times its reciprocal is exactly one.
pub proof fn lemma_mul_recip(x: r32)
    requires
        x.numer_spec() != 0,
        x.size_spec() < 26,
    ensures
        x.mul_fits(x.recip_spec()),
        x.product_spec(x.recip_spec()) == r32(1),
{
    x.lemma_decode();
    let n = x.numer_spec();
    let d = x.denom_spec();
    crate::encoding::lemma_swap_fits(n, d);
    r32::lemma_from_parts_decode(x.negative_spec(), d, n);
    let c = x.recip_spec();
    let k = n as nat * d as nat;
    assert(x.numer_spec() as nat * c.numer_spec() as nat == k && x.denom_spec() as nat
        * c.denom_spec() as nat == k) by (nonlinear_arith)
        requires
            c.numer_spec() == d,
            c.denom_spec() == n,
            x.numer_spec() == n,
            x.denom_spec() == d,
            k == n as nat * d as nat,
    ;
    assert(k > 0) by (nonlinear_arith)
        requires
            n > 0,
            d > 0,
            k == n as nat * d as nat,
    ;
    assert(spec_gcd(k, k) == k) by {
        vstd::arithmetic::div_mod::lemma_mod_self_0(k as int);
        assert(spec_gcd(k, 0) == k);
    }
    assert(k / k == 1) by {
        vstd::arithmetic::div_mod::lemma_div_by_self(k as int);
    }
    assert(x.product_parts(c) == (1nat, 1nat));
    vstd::std_specs::bits::axiom_u64_leading_zeros(1);
    let lz = vstd::std_specs::bits::u64_leading_zeros(1);
    let l = lz as u64;
    assert((1u64 >> (63u64 - l) as u64) & 1u64 != 0u64);
    assert(l < 64 && (1u64 >> (63u64 - l) as u64) & 1u64 != 0u64 ==> l == 63) by (bit_vector);
    assert(crate::encoding::frac_fits(1, 1));
    assert(x.product_sign(c) == false);
    crate::encoding::lemma_whole_fits(1);
    let p = r32::from_parts_spec(false, 1, 1);
    assert(p.0 == 1) by {
        assert(crate::encoding::denom_width(1) == 0);
        assert(crate::encoding::sign_word(false) | (0u32 << 26u32)
            | crate::encoding::packed_fraction(0, 1, 1) == 1) by (bit_vector);
    }
}

/// Repeated multiplication by a base of value `a / b` multiplies the value
/// by `a / b` each time.
proof fn lemma_power_value(r: r32, a: int, b: int, k: nat)
    requires
        power_fits(r, k),
        r.num() * b == a * r.den(),
    ensures
        power(r, k).num() * pow(b, k) == pow(a, k) * power(r, k).den(),
    decreases k,
{
    reveal(pow);
    if k == 0 {
        r32::lemma_zero_and_nan_words();
    } else {
        let j = (k - 1) as nat;
        let p = power(r, j);
        assert(power_fits(r, j));
        assert(p.mul_fits(r));
        lemma_power_value(r, a, b, j);
        lemma_mul_value(p, r);
        p.lemma_decode();
        r.lemma_decode();
        let q = power(r, k);
        assert(q == p.product_spec(r));
        let bb = pow(b, j);
        let aa = pow(a, j);
        assert(pow(b, k) == b * bb && pow(a, k) == a * aa);
        let (pn, pd, rn, rd, qn, qd) = (p.num(), p.den(), r.num(), r.den(), q.num(), q.den());
        let w = pd * rd;
        let lhs = qn * (b * bb);
        let rhs = (a * aa) * qd;
        assert(w * lhs == (qn * w) * (b * bb)) by (nonlinear_arith)
            requires
                w == pd * rd,
                lhs == qn * (b * bb),
        ;
        assert((qn * w) * (b * bb) == ((pn * rn) * qd) * (b * bb)) by {
            assert(qn * w == (pn * rn) * qd);
        }
        assert(((pn * rn) * qd) * (b * bb) == (pn * bb) * (rn * b) * qd) by (nonlinear_arith);
        assert((pn * bb) * (rn * b) * qd == (aa * pd) * (a * rd) * qd) by {
            assert(pn * bb == aa * pd);
            assert(rn * b == a * rd);
        }
        assert((aa * pd) * (a * rd) * qd == w * rhs) by (nonlinear_arith)
            requires
                w == pd * rd,
                rhs == (a * aa) * qd,
        ;
        assert(w > 0) by (nonlinear_arith)
            requires
                pd > 0,
                rd > 0,
                w == pd * rd,
        ;
        assert(lhs == rhs) by (nonlinear_arith)
            requires
                w * lhs == w * rhs,
                w > 0,
        ;
    }
}

/// `pow` raises the value: `x.pow(n)` has the value `(x.num / x.den)^n`, for
/// a negative `n` too.
pub proof fn lemma_pow_value(x: r32, n: i32)
    requires
        n < 0 ==> x.numer_spec() != 0 && x.size_spec() < 26,
        power_fits(pow_base(x, n), exponent(n)),
    ensures
        ({
            let p = power(pow_base(x, n), exponent(n));
            let k = abs(n as int);
            &&& n >= 0 ==> p.num() * pow(x.den(), k) == pow(x.num(), k) * p.den()
            &&& n < 0 ==> p.num() * pow(x.num(), k) == pow(x.den(), k) * p.den()
        }),
{
    let k = exponent(n);
    if n >= 0 {
        assert(x.num() * x.den() == x.num() * x.den());
        lemma_power_value(x, x.num(), x.den(), k);
    } else {
        x.lemma_decode();
        crate::encoding::lemma_swap_fits(x.numer_spec(), x.denom_spec());
        r32::lemma_from_parts_decode(x.negative_spec(), x.denom_spec(), x.numer_spec());
        let c = x.recip_spec();
        let nn = x.mag();
        let dd = x.den();
        if x.sign_spec() {
            assert(c.num() == -dd && x.num() == -nn && c.den() == nn);
            assert(c.num() * x.num() == dd * c.den()) by (nonlinear_arith)
                requires
                    c.num() == -dd,
                    x.num() == -nn,
                    c.den() == nn,
            ;
        } else {
            assert(c.num() == dd && x.num() == nn && c.den() == nn);
            assert(c.num() * x.num() == dd * c.den()) by (nonlinear_arith)
                requires
                    c.num() == dd,
                    x.num() == nn,
                    c.den() == nn,
            ;
        }
        lemma_power_value(c, x.den(), x.num(), k);
    }
}

} // verus!
