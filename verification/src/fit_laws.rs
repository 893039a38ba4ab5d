//! When an arithmetic result fits: the overflow check refuses a cancelled
//! fraction `n / d` exactly when `n * 2^k >= 2^26`, where `2^k <= d < 2^(k+1)`
//! is the power of two that the denominator's leading one stands for.
use vstd::prelude::*;
use vstd::arithmetic::power2::{pow2, lemma_pow2_adds, lemma_pow2_strictly_increases, lemma_pow2_pos};
use vstd::arithmetic::div_mod::lemma_fundamental_div_mod;
use vstd::bits::lemma_u64_shr_is_div;
use vstd::std_specs::bits::{u64_leading_zeros, axiom_u64_leading_zeros};
use crate::r32_t::r32;
use crate::encoding::frac_fits;
use crate::ops::{reduce, lemma_reduce, lemma_u32_product};
use crate::gcd_facts::spec_gcd;
use vstd::math::abs;

verus! {

proof fn lemma_odd_nonzero(q: u64)
    by (bit_vector)
    requires
        q & 1 != 0,
    ensures
        q >= 1,
{
}

/// A bit set at `s` makes a number at least `2^s`.
proof fn lemma_top_bit_pow2(x: u64, s: u64)
    requires
        s < 64,
        (x >> s) & 1 != 0,
    ensures
        x >= pow2(s as nat),
{
    lemma_odd_nonzero(x >> s);
    lemma_u64_shr_is_div(x, s);
    lemma_pow2_pos(s as nat);
    lemma_fundamental_div_mod(x as int, pow2(s as nat) as int);
    assert(x >= pow2(s as nat)) by (nonlinear_arith)
        requires
            x as int == pow2(s as nat) * (x as int / pow2(s as nat) as int) + x as int % pow2(
                s as nat,
            ) as int,
            x as int / pow2(s as nat) as int >= 1,
            x as int % pow2(s as nat) as int >= 0,
            pow2(s as nat) > 0,
    ;
}

/// A number with no bits from `s` up is below `2^s`.
proof fn lemma_no_bits_pow2(x: u64, s: u64)
    requires
        s < 64,
        x >> s == 0,
    ensures
        x < pow2(s as nat),
{
    lemma_u64_shr_is_div(x, s);
    lemma_pow2_pos(s as nat);
    lemma_fundamental_div_mod(x as int, pow2(s as nat) as int);
}

/// Every 64-bit number is below `2^64`.
proof fn lemma_below_pow2_64(x: u64)
    ensures
        x < pow2(64),
{
    vstd::arithmetic::power2::lemma2_to64();
}

/// The overflow check is exact: a fraction `n / d` with `2^k <= d < 2^(k+1)`
/// and `n > 0` fits exactly when `n * 2^k < 2^26`, that is when the numerator
/// fits in the fraction bits that the denominator leaves.
pub proof fn lemma_frac_fits_exact(n: u64, d: u64, k: nat)
    requires
        n > 0,
        pow2(k) <= d,
        d < pow2(k + 1),
    ensures
        frac_fits(n, d) <==> n * pow2(k) < pow2(26),
{
    lemma_pow2_pos(k);
    axiom_u64_leading_zeros(d);
    axiom_u64_leading_zeros(n);
    let ld = u64_leading_zeros(d);
    let ln = u64_leading_zeros(n);
    assert(d != 0 && n != 0);
    // the denominator's top bit is at k
    let w = (63 - ld) as u64;
    lemma_top_bit_pow2(d, w);
    if w < 63 {
        assert(d >> (w + 1) as u64 == 0);
        lemma_no_bits_pow2(d, (w + 1) as u64);
        if (k as int) < w as int {
            lemma_pow2_strictly_increases(k + 1, w as nat);
            assert(k + 1 == w as nat || k + 1 < w as nat);
        }
        if (k as int) > w as int {
            lemma_pow2_strictly_increases((w + 1) as nat, k);
            assert(w + 1 == k || (w + 1) < k);
        }
    } else {
        lemma_below_pow2_64(d);
        if k < 63 {
            lemma_pow2_strictly_increases(k + 1, 63);
            assert(k + 1 == 63 || k + 1 < 63);
        }
        if k > 63 {
            lemma_pow2_strictly_increases(64, k);
            assert(64 == k || 64 < k);
        }
    }
    assert(k == w as nat);
    // the numerator takes j bits
    let j = (64 - ln) as nat;
    assert(j >= 1);
    lemma_top_bit_pow2(n, (j - 1) as u64);
    if j < 64 {
        lemma_no_bits_pow2(n, j as u64);
    } else {
        lemma_below_pow2_64(n);
    }
    assert(n < pow2(j));
    assert(frac_fits(n, d) <==> k + j <= 26);
    lemma_pow2_adds(k, j);
    lemma_pow2_adds((j - 1) as nat, k);
    assert(n * pow2(k) < pow2(j) * pow2(k)) by (nonlinear_arith)
        requires
            n < pow2(j),
            pow2(k) > 0,
    ;
    assert(pow2((j - 1) as nat) * pow2(k) <= n * pow2(k)) by (nonlinear_arith)
        requires
            pow2((j - 1) as nat) <= n,
            pow2(k) > 0,
    ;
    if k + j <= 26 {
        if k + j < 26 {
            lemma_pow2_strictly_increases(k + j, 26);
        }
    } else {
        if (j - 1 + k) as nat > 26 {
            lemma_pow2_strictly_increases(26, (j - 1 + k) as nat);
        }
        assert((j - 1 + k) as nat >= 26);
    }
}

/// A cancelled fraction fits exactly when it is zero or its numerator fits
/// beside its denominator (`n * 2^k < 2^26`).
pub proof fn lemma_reduced_fits_exact(nn: nat, dd: nat, k: nat)
    requires
        dd > 0,
        nn <= 0xFFFF_FFFF_FFFF_FFFF,
        dd <= 0xFFFF_FFFF_FFFF_FFFF,
        pow2(k) <= reduce(nn, dd).1,
        reduce(nn, dd).1 < pow2(k + 1),
    ensures
        frac_fits(reduce(nn, dd).0 as u64, reduce(nn, dd).1 as u64) <==> (reduce(nn, dd).0 == 0
            || reduce(nn, dd).0 * pow2(k) < pow2(26)),
{
    lemma_reduce(nn, dd, spec_gcd(nn, dd));
    let n = reduce(nn, dd).0;
    let d = reduce(nn, dd).1;
    if n == 0 {
        assert(d == 1);
        axiom_u64_leading_zeros(0);
        axiom_u64_leading_zeros(1);
        assert(u64_leading_zeros(0) == 64);
        let l = u64_leading_zeros(1);
        assert(l < 64);
        if l < 63 {
            lemma_top_bit_pow2(1, (63 - l) as u64);
            lemma_pow2_strictly_increases(0, (63 - l) as nat);
            vstd::arithmetic::power2::lemma2_to64();
        }
    } else {
        lemma_frac_fits_exact(n as u64, d as u64, k);
    }
}

/// `+` (and `checked_add`) succeeds exactly when the cancelled sum
/// `n / d`, with `2^k <= d < 2^(k+1)`, is zero or has `n * 2^k < 2^26`.
pub proof fn lemma_add_fits_exact(a: r32, b: r32, k: nat)
    requires
        pow2(k) <= a.sum_parts(b).1,
        a.sum_parts(b).1 < pow2(k + 1),
    ensures
        a.add_fits(b) <==> (a.sum_parts(b).0 == 0 || a.sum_parts(b).0 * pow2(k) < pow2(26)),
{
    a.lemma_decode();
    b.lemma_decode();
    lemma_u32_product(a.denom_spec(), b.denom_spec());
    let dd = a.denom_spec() as nat * b.denom_spec() as nat;
    assert(dd > 0) by (nonlinear_arith)
        requires
            a.denom_spec() > 0,
            b.denom_spec() > 0,
            dd == a.denom_spec() as nat * b.denom_spec() as nat,
    ;
    let s = a.sum_num(b);
    assert(abs(s) <= 0xFFFF_FFFF_FFFF_FFFF) by (nonlinear_arith)
        requires
            s == a.numer_spec() as int * a.signum_int() * b.denom_spec() as int
                + a.denom_spec() as int * (b.numer_spec() as int * b.signum_int()),
            a.numer_spec() <= 0x03FF_FFFF,
            b.numer_spec() <= 0x03FF_FFFF,
            -1 <= a.signum_int() <= 1,
            -1 <= b.signum_int() <= 1,
            a.denom_spec() <= 0xFFFF_FFFF,
            b.denom_spec() <= 0xFFFF_FFFF,
    ;
    lemma_reduced_fits_exact(abs(s), dd, k);
}

/// `*` (and `checked_mul`) succeeds exactly when the cancelled product
/// `n / d`, with `2^k <= d < 2^(k+1)`, is zero or has `n * 2^k < 2^26`.
pub proof fn lemma_mul_fits_exact(a: r32, b: r32, k: nat)
    requires
        pow2(k) <= a.product_parts(b).1,
        a.product_parts(b).1 < pow2(k + 1),
    ensures
        a.mul_fits(b) <==> (a.product_parts(b).0 == 0 || a.product_parts(b).0 * pow2(k) < pow2(
            26,
        )),
{
    a.lemma_decode();
    b.lemma_decode();
    lemma_u32_product(a.numer_spec(), b.numer_spec());
    lemma_u32_product(a.denom_spec(), b.denom_spec());
    let dd = a.denom_spec() as nat * b.denom_spec() as nat;
    assert(dd > 0) by (nonlinear_arith)
        requires
            a.denom_spec() > 0,
            b.denom_spec() > 0,
            dd == a.denom_spec() as nat * b.denom_spec() as nat,
    ;
    lemma_reduced_fits_exact(a.numer_spec() as nat * b.numer_spec() as nat, dd, k);
}

/// `%` (and `checked_rem`) by a nonzero divisor succeeds exactly when the
/// cancelled remainder `n / d`, with `2^k <= d < 2^(k+1)`, is zero or has
/// `n * 2^k < 2^26`.
pub proof fn lemma_rem_fits_exact(a: r32, b: r32, k: nat)
    requires
        b.divisor_ok(),
        pow2(k) <= a.rem_parts(b).1,
        a.rem_parts(b).1 < pow2(k + 1),
    ensures
        a.rem_fits(b) <==> (a.rem_parts(b).0 == 0 || a.rem_parts(b).0 * pow2(k) < pow2(26)),
{
    a.lemma_decode();
    b.lemma_decode();
    lemma_u32_product(a.numer_spec(), b.denom_spec());
    lemma_u32_product(b.numer_spec(), a.denom_spec());
    lemma_u32_product(a.denom_spec(), b.denom_spec());
    let dd = a.denom_spec() as nat * b.denom_spec() as nat;
    assert(dd > 0) by (nonlinear_arith)
        requires
            a.denom_spec() > 0,
            b.denom_spec() > 0,
            dd == a.denom_spec() as nat * b.denom_spec() as nat,
    ;
    let unit = b.numer_spec() as nat * a.denom_spec() as nat;
    assert(unit > 0) by (nonlinear_arith)
        requires
            b.numer_spec() > 0,
            a.denom_spec() > 0,
            unit == b.numer_spec() as nat * a.denom_spec() as nat,
    ;
    let m = (a.numer_spec() as nat * b.denom_spec() as nat) % unit;
    vstd::arithmetic::div_mod::lemma_mod_bound((a.numer_spec() as nat * b.denom_spec() as nat) as int, unit as int);
    lemma_reduced_fits_exact(m, dd, k);
}

/// Division does not care about the sign of the divisor: dividing by `-b`
/// succeeds exactly when dividing by `b` does, and gives the negated
/// quotient's magnitude with the other sign.
pub proof fn lemma_div_sign_free(a: r32, b: r32)
    requires
        b.divisor_ok(),
    ensures
        b.negate_spec().divisor_ok(),
        a.div_fits(b) == a.div_fits(b.negate_spec()),
        b.size_spec() < 26 ==> a.product_parts(b.recip_spec()) == a.product_parts(
            b.negate_spec().recip_spec(),
        ),
{
    crate::laws::lemma_neg(b);
    let c = b.negate_spec();
    if b.size_spec() < 26 {
        b.lemma_decode();
        c.lemma_decode();
        crate::encoding::lemma_swap_fits(b.numer_spec(), b.denom_spec());
        r32::lemma_from_parts_decode(b.negative_spec(), b.denom_spec(), b.numer_spec());
        r32::lemma_from_parts_decode(c.negative_spec(), c.denom_spec(), c.numer_spec());
    }
}

/// `/` (and `checked_div`) by a nonzero divisor that has a reciprocal
/// succeeds exactly when the cancelled quotient `n / d`, with
/// `2^k <= d < 2^(k+1)`, is zero or has `n * 2^k < 2^26`, whatever the signs.
pub proof fn lemma_div_fits_exact(a: r32, b: r32, k: nat)
    requires
        b.divisor_ok(),
        b.size_spec() < 26,
        pow2(k) <= a.product_parts(b.recip_spec()).1,
        a.product_parts(b.recip_spec()).1 < pow2(k + 1),
    ensures
        a.div_fits(b) <==> (a.product_parts(b.recip_spec()).0 == 0 || a.product_parts(
            b.recip_spec(),
        ).0 * pow2(k) < pow2(26)),
{
    lemma_mul_fits_exact(a, b.recip_spec(), k);
}

} // verus!
