//! Arithmetic on floating-bar numbers: negation, the four operations and the
//! remainder, with their checked and overflowing forms.
//!
//! Every result is cancelled to lowest terms before it is stored; it
//! overflows when the cancelled fraction does not fit in the 26 fraction bits
//! (`frac_fits`).
use vstd::prelude::*;
use vstd::math::abs;
use std::ops::Neg;
use crate::r32_t::r32;
use crate::encoding::{frac_fits, lemma_frac_fits};
use crate::gcd_facts::{spec_gcd, gcd_u64, lemma_gcd_reduced, lemma_gcd_zero_left};
use vstd::arithmetic::div_mod::lemma_fundamental_div_mod;
use vstd::std_specs::bits::axiom_u64_leading_zeros;

verus! {

/// A fraction `n / d` cancelled to lowest terms.
pub open spec fn reduce(n: nat, d: nat) -> (nat, nat) {
    (n / spec_gcd(n, d), d / spec_gcd(n, d))
}

/// The value that an overflowing operation hands back: the cancelled parts
/// truncated to 32 bits and stored as they are, or `NaN` where the truncated
/// denominator is zero.
pub open spec fn wrapped(sign: bool, n: nat, d: nat) -> r32 {
    if d as u32 == 0 {
        r32(0x7C00_0000)
    } else {
        r32::from_parts_spec(sign, n as u32, d as u32)
    }
}

/// Cancelling `n / d` by its gcd `g`.
pub(crate) proof fn lemma_reduce(n: nat, d: nat, g: nat)
    requires
        d > 0,
        g == spec_gcd(n, d),
    ensures
        g > 0,
        d / g > 0,
        n / g <= n,
        d / g <= d,
        n / g == 0 ==> d / g == 1,
        (n / g) * d == n * (d / g),
        spec_gcd(n / g, d / g) == 1,
        reduce(n, d) == (n / g, d / g),
{
    lemma_gcd_reduced(n, d);
    lemma_fundamental_div_mod(n as int, g as int);
    lemma_fundamental_div_mod(d as int, g as int);
    let n2 = n / g;
    let d2 = d / g;
    assert(n2 <= n && d2 <= d && d2 > 0 && n2 * d == n * d2) by (nonlinear_arith)
        requires
            n == g * n2,
            d == g * d2,
            g > 0,
            d > 0,
    ;
    if n2 == 0 {
        assert(n == 0) by (nonlinear_arith)
            requires
                n == g * n2,
                n2 == 0,
        ;
        lemma_gcd_zero_left(d);
        assert(d2 == 1) by (nonlinear_arith)
            requires
                d == g * d2,
                g == d,
                d > 0,
        ;
    }
}

/// Exact product of two numbers below `2^32`.
pub(crate) proof fn lemma_u32_product(a: u32, b: u32)
    ensures
        a as nat * b as nat <= 0xFFFF_FFFE_0000_0001,
{
    assert(a as nat * b as nat <= 0xFFFF_FFFFnat * 0xFFFF_FFFFnat) by (nonlinear_arith)
        requires
            a <= 0xFFFF_FFFF,
            b <= 0xFFFF_FFFF,
    ;
}

impl r32 {
    /// Negation flips the sign bit.
    pub open spec fn negate_spec(self) -> r32 {
        r32(self.0 ^ 0x8000_0000u32)
    }

    /// The reciprocal that `recip` returns.
    pub open spec fn recip_spec(self) -> r32 {
        r32::from_parts_spec(self.negative_spec(), self.denom_spec(), self.numer_spec())
    }

    /// `-1`, `0` or `1`: the sign of a nonzero number, zero for zero and `NaN`.
    pub open spec fn signum_int(self) -> int {
        if self.numer_spec() == 0 || self.nan_spec() {
            0
        } else if self.sign_spec() {
            -1
        } else {
            1
        }
    }

    // ---- multiplication
    /// The cancelled magnitude of the product.
    pub open spec fn product_parts(self, other: r32) -> (nat, nat) {
        reduce(
            self.numer_spec() as nat * other.numer_spec() as nat,
            self.denom_spec() as nat * other.denom_spec() as nat,
        )
    }

    pub open spec fn product_sign(self, other: r32) -> bool {
        self.negative_spec() != other.negative_spec()
    }

    /// The product fits in one word.
    pub open spec fn mul_fits(self, other: r32) -> bool {
        frac_fits(self.product_parts(other).0 as u64, self.product_parts(other).1 as u64)
    }

    /// The product, stored by `from_parts`.
    pub open spec fn product_spec(self, other: r32) -> r32 {
        r32::from_parts_spec(
            self.product_sign(other),
            self.product_parts(other).0 as u32,
            self.product_parts(other).1 as u32,
        )
    }

    // ---- addition
    /// The signed numerator of the sum over the denominator `self.den() * other.den()`.
    pub open spec fn sum_num(self, other: r32) -> int {
        self.numer_spec() as int * self.signum_int() * other.denom_spec() as int
            + self.denom_spec() as int * (other.numer_spec() as int * other.signum_int())
    }

    /// The cancelled magnitude of the sum.
    pub open spec fn sum_parts(self, other: r32) -> (nat, nat) {
        reduce(abs(self.sum_num(other)), self.denom_spec() as nat * other.denom_spec() as nat)
    }

    pub open spec fn sum_sign(self, other: r32) -> bool {
        self.sum_num(other) < 0
    }

    /// The sum fits in one word.
    pub open spec fn add_fits(self, other: r32) -> bool {
        frac_fits(self.sum_parts(other).0 as u64, self.sum_parts(other).1 as u64)
    }

    /// The sum, stored by `from_parts`.
    pub open spec fn sum_spec(self, other: r32) -> r32 {
        r32::from_parts_spec(
            self.sum_sign(other),
            self.sum_parts(other).0 as u32,
            self.sum_parts(other).1 as u32,
        )
    }

    // ---- division
    /// The divisor is not zero (nor `NaN`, whose numerator is zero).
    pub open spec fn divisor_ok(self) -> bool {
        self.numer_spec() != 0
    }

    /// The quotient fits in one word: the divisor has a reciprocal, and the
    /// product with it fits.
    pub open spec fn div_fits(self, other: r32) -> bool {
        other.size_spec() < 26 && self.mul_fits(other.recip_spec())
    }

    pub open spec fn quotient_spec(self, other: r32) -> r32 {
        self.product_spec(other.recip_spec())
    }

    // ---- remainder
    /// The cancelled magnitude of `self - other * trunc(self / other)`.
    pub open spec fn rem_parts(self, other: r32) -> (nat, nat) {
        reduce(
            (self.numer_spec() as nat * other.denom_spec() as nat) % (other.numer_spec() as nat
                * self.denom_spec() as nat),
            self.denom_spec() as nat * other.denom_spec() as nat,
        )
    }

    pub open spec fn rem_fits(self, other: r32) -> bool {
        frac_fits(self.rem_parts(other).0 as u64, self.rem_parts(other).1 as u64)
    }

    /// The remainder, with the sign of `self`.
    pub open spec fn remainder_spec(self, other: r32) -> r32 {
        r32::from_parts_spec(
            self.negative_spec(),
            self.rem_parts(other).0 as u32,
            self.rem_parts(other).1 as u32,
        )
    }

    /// The overflow check on cancelled parts held in 64 bits (see `frac_fits`).
    fn fits(n: u64, d: u64) -> (r: bool)
        requires
            d > 0,
        ensures
            r == frac_fits(n, d),
    {
        proof {
            axiom_u64_leading_zeros(d);
            axiom_u64_leading_zeros(n);
        }
        (64 - d.leading_zeros() - 1) + (64 - n.leading_zeros()) <= 26
    }

    /// Cancels `n / d` with the gcd.
    fn cancel(n: u64, d: u64) -> (r: (u64, u64))
        requires
            d > 0,
        ensures
            r.0 == reduce(n as nat, d as nat).0,
            r.1 == reduce(n as nat, d as nat).1,
            r.1 > 0,
            r.0 == 0 ==> r.1 == 1,
    {
        let gcd = gcd_u64(n, d);
        proof {
            lemma_reduce(n as nat, d as nat, gcd as nat);
        }
        (n / gcd, d / gcd)
    }

    /// Stores a cancelled fraction; see `wrapped` for what happens when it
    /// does not fit.
    fn store(sign: bool, n: u64, d: u64) -> (r: r32)
        requires
            d > 0,
            n == 0 ==> d == 1,
        ensures
            frac_fits(n, d) ==> r == r32::from_parts_spec(sign, n as u32, d as u32),
            r == wrapped(sign, n as nat, d as nat),
    {
        proof {
            if frac_fits(n, d) {
                lemma_frac_fits(n, d);
            }
        }
        if (d as u32) == 0 {
            r32(0x7C00_0000)
        } else {
            r32::from_parts(sign, n as u32, d as u32)
        }
    }

    /// The sign and cancelled magnitude of the product.
    fn product_core(self, other: r32) -> (r: (bool, u64, u64))
        ensures
            r.0 == self.product_sign(other),
            r.1 == self.product_parts(other).0,
            r.2 == self.product_parts(other).1,
            r.2 > 0,
            r.1 == 0 ==> r.2 == 1,
    {
        proof {
            self.lemma_decode();
            other.lemma_decode();
            lemma_u32_product(self.numer_spec(), other.numer_spec());
            lemma_u32_product(self.denom_spec(), other.denom_spec());
            assert(self.denom_spec() as nat * other.denom_spec() as nat > 0) by (nonlinear_arith)
                requires
                    self.denom_spec() > 0,
                    other.denom_spec() > 0,
            ;
        }
        let s = self.is_negative() != other.is_negative();
        let n = self.numer() as u64 * other.numer() as u64;
        let d = self.denom() as u64 * other.denom() as u64;
        let (n, d) = r32::cancel(n, d);
        (s, n, d)
    }

    /// The signum of `self` as an `i64`: `(self.signum().0 as i32).signum()`.
    fn sign_of(self) -> (r: i64)
        ensures
            r == self.signum_int(),
    {
        let bits = self.signum().0;
        proof {
            let b = self.0;
            assert(((b & 0x8000_0000u32) | 1) != 0 && (((b & 0x8000_0000u32) | 1) & 0x8000_0000u32
                != 0) == (b & 0x8000_0000u32 != 0)) by (bit_vector);
        }
        if bits == 0 {
            0
        } else if bits & 0x8000_0000 != 0 {
            -1
        } else {
            1
        }
    }

    /// The sign and cancelled magnitude of the sum.
    fn sum_core(self, other: r32) -> (r: (bool, u64, u64))
        ensures
            r.0 == self.sum_sign(other),
            r.1 == self.sum_parts(other).0,
            r.2 == self.sum_parts(other).1,
            r.2 > 0,
            r.1 == 0 ==> r.2 == 1,
    {
        proof {
            self.lemma_decode();
            other.lemma_decode();
            lemma_u32_product(self.denom_spec(), other.denom_spec());
            assert(self.denom_spec() as nat * other.denom_spec() as nat > 0) by (nonlinear_arith)
                requires
                    self.denom_spec() > 0,
                    other.denom_spec() > 0,
            ;
        }
        // self = a/b, other = c/d
        let selfsign = self.sign_of();
        let othersign = other.sign_of();
        let a = self.numer() as i64;
        let b = self.denom() as i64;
        let c = other.numer() as i64;
        let d = other.denom() as i64;
        assert(-0x0400_0000 < a * selfsign < 0x0400_0000) by (nonlinear_arith)
            requires
                0 <= a <= 0x03FF_FFFF,
                -1 <= selfsign <= 1,
        ;
        assert(-0x0400_0000 < c * othersign < 0x0400_0000) by (nonlinear_arith)
            requires
                0 <= c <= 0x03FF_FFFF,
                -1 <= othersign <= 1,
        ;
        let ac = a * selfsign;
        let cc = c * othersign;
        assert(-0x0400_0000_0000_0000 < ac * d < 0x0400_0000_0000_0000) by (nonlinear_arith)
            requires
                -0x0400_0000 < ac < 0x0400_0000,
                0 <= d <= 0xFFFF_FFFF,
        ;
        assert(-0x0400_0000_0000_0000 < b * cc < 0x0400_0000_0000_0000) by (nonlinear_arith)
            requires
                -0x0400_0000 < cc < 0x0400_0000,
                0 <= b <= 0xFFFF_FFFF,
        ;
        // num = ad + bc
        let num = ac * d + b * cc;
        // den = bd
        let den = self.denom() as u64 * other.denom() as u64;
        let s = num < 0;
        let mag: u64 = if num < 0 {
            (-num) as u64
        } else {
            num as u64
        };
        let (n, dd) = r32::cancel(mag, den);
        (s, n, dd)
    }

    /// The sign and cancelled magnitude of the remainder.
    fn rem_core(self, other: r32) -> (r: (bool, u64, u64))
        requires
            other.divisor_ok(),
        ensures
            r.0 == self.negative_spec(),
            r.1 == self.rem_parts(other).0,
            r.2 == self.rem_parts(other).1,
            r.2 > 0,
            r.1 == 0 ==> r.2 == 1,
    {
        proof {
            self.lemma_decode();
            other.lemma_decode();
            lemma_u32_product(self.numer_spec(), other.denom_spec());
            lemma_u32_product(other.numer_spec(), self.denom_spec());
            lemma_u32_product(self.denom_spec(), other.denom_spec());
            assert(self.denom_spec() as nat * other.denom_spec() as nat > 0) by (nonlinear_arith)
                requires
                    self.denom_spec() > 0,
                    other.denom_spec() > 0,
            ;
            assert(other.numer_spec() as nat * self.denom_spec() as nat > 0) by (nonlinear_arith)
                requires
                    self.denom_spec() > 0,
                    other.numer_spec() > 0,
            ;
        }
        let s = self.is_negative();
        let n = (self.numer() as u64 * other.denom() as u64) % (other.numer() as u64
            * self.denom() as u64);
        let d = self.denom() as u64 * other.denom() as u64;
        let (n, d) = r32::cancel(n, d);
        (s, n, d)
    }

    // BEGIN related integer stuff
    /// Checked integer addition. Computes `self + rhs`, returning `None` if
    /// overflow occurred.
    pub fn checked_add(self, rhs: r32) -> (r: Option<r32>)
        ensures
            r == if self.add_fits(rhs) {
                Some(self.sum_spec(rhs))
            } else {
                None
            },
    {
        let (s, n, d) = self.sum_core(rhs);
        if r32::fits(n, d) {
            proof {
                lemma_frac_fits(n, d);
            }
            Some(r32::from_parts(s, n as u32, d as u32))
        } else {
            None
        }
    }

    /// Checked integer subtraction. Computes `self - rhs`, returning `None` if
    /// overflow occurred.
    pub fn checked_sub(self, rhs: r32) -> (r: Option<r32>)
        ensures
            r == if self.add_fits(rhs.negate_spec()) {
                Some(self.sum_spec(rhs.negate_spec()))
            } else {
                None
            },
    {
        self.checked_add(rhs.neg())
    }

    /// Checked integer multiplication. Computes `self * rhs`, returning `None`
    /// if overflow occurred.
    pub fn checked_mul(self, rhs: r32) -> (r: Option<r32>)
        ensures
            r == if self.mul_fits(rhs) {
                Some(self.product_spec(rhs))
            } else {
                None
            },
    {
        let (s, n, d) = self.product_core(rhs);
        if r32::fits(n, d) {
            proof {
                lemma_frac_fits(n, d);
            }
            Some(r32::from_parts(s, n as u32, d as u32))
        } else {
            None
        }
    }

    /// Checked integer division. Computes `self / rhs`, returning `None` if
    /// `rhs == 0` or the division results in overflow.
    pub fn checked_div(self, rhs: r32) -> (r: Option<r32>)
        ensures
            r == if rhs.divisor_ok() && self.div_fits(rhs) {
                Some(self.quotient_spec(rhs))
            } else {
                None
            },
    {
        if rhs.numer() == 0 || rhs.denom_size() >= 26 {
            return None;
        }
        self.checked_mul(rhs.recip())
    }

    /// Checked integer remainder. Computes `self % rhs`, returning `None` if
    /// `rhs == 0` or the division results in overflow.
    pub fn checked_rem(self, rhs: r32) -> (r: Option<r32>)
        ensures
            r == if rhs.divisor_ok() && self.rem_fits(rhs) {
                Some(self.remainder_spec(rhs))
            } else {
                None
            },
    {
        if rhs.numer() == 0 {
            return None;
        }
        let (s, n, d) = self.rem_core(rhs);
        if r32::fits(n, d) {
            proof {
                lemma_frac_fits(n, d);
            }
            Some(r32::from_parts(s, n as u32, d as u32))
        } else {
            None
        }
    }

    /// Calculates `self` + `rhs`
    ///
    /// Returns a tuple of the addition along with a boolean indicating whether
    /// an arithmetic overflow would occur. If an overflow would have occurred
    /// then the wrapped value is returned.
    pub fn overflowing_add(self, rhs: r32) -> (r: (r32, bool))
        ensures
            r.1 == !self.add_fits(rhs),
            r.0 == if self.add_fits(rhs) {
                self.sum_spec(rhs)
            } else {
                wrapped(self.sum_sign(rhs), self.sum_parts(rhs).0, self.sum_parts(rhs).1)
            },
    {
        let (s, n, d) = self.sum_core(rhs);
        let ok = r32::fits(n, d);
        (r32::store(s, n, d), !ok)
    }

    /// Calculates `self` - `rhs`
    ///
    /// Returns a tuple of the subtraction along with a boolean indicating
    /// whether an arithmetic overflow would occur. If an overflow would have
    /// occurred then the wrapped value is returned.
    pub fn overflowing_sub(self, rhs: r32) -> (r: (r32, bool))
        ensures
            r.1 == !self.add_fits(rhs.negate_spec()),
            r.0 == if self.add_fits(rhs.negate_spec()) {
                self.sum_spec(rhs.negate_spec())
            } else {
                wrapped(
                    self.sum_sign(rhs.negate_spec()),
                    self.sum_parts(rhs.negate_spec()).0,
                    self.sum_parts(rhs.negate_spec()).1,
                )
            },
    {
        self.overflowing_add(rhs.neg())
    }

    /// Calculates the multiplication of `self` and `rhs`.
    ///
    /// Returns a tuple of the multiplication along with a boolean indicating
    /// whether an arithmetic overflow would occur. If an overflow would have
    /// occurred then the wrapped value is returned.
    pub fn overflowing_mul(self, rhs: r32) -> (r: (r32, bool))
        ensures
            r.1 == !self.mul_fits(rhs),
            r.0 == if self.mul_fits(rhs) {
                self.product_spec(rhs)
            } else {
                wrapped(
                    self.product_sign(rhs),
                    self.product_parts(rhs).0,
                    self.product_parts(rhs).1,
                )
            },
    {
        let (s, n, d) = self.product_core(rhs);
        let ok = r32::fits(n, d);
        (r32::store(s, n, d), !ok)
    }

    /// Calculates the divisor when `self` is divided by `rhs`.
    ///
    /// Returns a tuple of the divisor along with a boolean indicating whether
    /// an arithmetic overflow would occur. If an overflow would occur then self
    /// is returned.
    ///
    /// # Panics
    ///
    /// This function will panic if `rhs` is 0.
    pub fn overflowing_div(self, rhs: r32) -> (r: (r32, bool))
        requires
            rhs.divisor_ok(),
        ensures
            r == if self.div_fits(rhs) {
                (self.quotient_spec(rhs), false)
            } else {
                (self, true)
            },
    {
        if rhs.denom_size() >= 26 {
            return (self, true);
        }
        match self.checked_mul(rhs.recip()) {
            Some(q) => (q, false),
            None => (self, true),
        }
    }

    /// Calculates the remainder when `self` is divided by `rhs`.
    ///
    /// Returns a tuple of the remainder after dividing along with a boolean
    /// indicating whether an arithmetic overflow would occur. If an overflow
    /// would occur then 0 is returned.
    ///
    /// # Panics
    ///
    /// This function will panic if `rhs` is 0.
    pub fn overflowing_rem(self, rhs: r32) -> (r: (r32, bool))
        requires
            rhs.divisor_ok(),
        ensures
            r == if self.rem_fits(rhs) {
                (self.remainder_spec(rhs), false)
            } else {
                (r32(0), true)
            },
    {
        match self.checked_rem(rhs) {
            Some(q) => (q, false),
            None => (r32(0), true),
        }
    }
}

/// `base` multiplied into one `k` times, as `pow` computes it.
pub open spec fn power(base: r32, k: nat) -> r32
    decreases k,
{
    if k == 0 {
        r32(1)
    } else {
        power(base, (k - 1) as nat).product_spec(base)
    }
}

/// Each of the `k` multiplications of `power(base, k)` fits.
pub open spec fn power_fits(base: r32, k: nat) -> bool {
    forall|j: nat| j < k ==> (#[trigger] power(base, j)).mul_fits(base)
}

/// The base that `pow` multiplies: `self`, or its reciprocal for a negative
/// exponent.
pub open spec fn pow_base(x: r32, n: i32) -> r32 {
    if n < 0 {
        x.recip_spec()
    } else {
        x
    }
}

/// The magnitude of the exponent.
pub open spec fn exponent(n: i32) -> nat {
    abs(n as int)
}

impl r32 {
    /// Raises a number to an integer power.
    ///
    /// The power is the product of `|n|` factors, each the number itself, or
    /// its reciprocal when `n` is negative; `x.pow(0)` is one. Every partial
    /// product must fit, as for `*`.
    #[inline]
    pub fn pow(self, n: i32) -> (r: r32)
        requires
            n < 0 ==> self.numer_spec() != 0 && self.size_spec() < 26,
            power_fits(pow_base(self, n), exponent(n)),
        ensures
            r == power(pow_base(self, n), exponent(n)),
    {
        let base = if n < 0 {
            self.recip()
        } else {
            self
        };
        let e: u32 = if n < 0 {
            (-(n as i64)) as u32
        } else {
            n as u32
        };
        let mut acc = r32(1);
        let mut k: u32 = 0;
        while k < e
            invariant
                k <= e,
                e as nat == exponent(n),
                base == pow_base(self, n),
                power_fits(base, e as nat),
                acc == power(base, k as nat),
            decreases e - k,
        {
            assert(power(base, k as nat).mul_fits(base));
            acc = acc * base;
            k = k + 1;
        }
        acc
    }
}

impl std::ops::Neg for r32 {
    type Output = r32;

    fn neg(self) -> r32 {
        r32(self.0 ^ 0x8000_0000)
    }
}

impl vstd::std_specs::ops::NegSpecImpl for r32 {
    open spec fn obeys_neg_spec() -> bool {
        true
    }

    open spec fn neg_req(self) -> bool {
        true
    }

    open spec fn neg_spec(self) -> r32 {
        r32(self.0 ^ 0x8000_0000u32)
    }
}

impl std::ops::Mul for r32 {
    type Output = r32;

    fn mul(self, other: r32) -> r32 {
        let (s, n, d) = self.product_core(other);
        proof {
            lemma_frac_fits(n, d);
        }
        r32::from_parts(s, n as u32, d as u32)
    }
}

impl vstd::std_specs::ops::MulSpecImpl for r32 {
    open spec fn obeys_mul_spec() -> bool {
        true
    }

    /// The product must fit; a product that does not is an overflow.
    open spec fn mul_req(self, rhs: r32) -> bool {
        self.mul_fits(rhs)
    }

    open spec fn mul_spec(self, rhs: r32) -> r32 {
        self.product_spec(rhs)
    }
}

impl std::ops::Div for r32 {
    type Output = r32;

    fn div(self, other: r32) -> r32 {
        self * other.recip()
    }
}

impl vstd::std_specs::ops::DivSpecImpl for r32 {
    open spec fn obeys_div_spec() -> bool {
        true
    }

    /// The divisor must be nonzero and have a reciprocal, and the product with
    /// the reciprocal must fit.
    open spec fn div_req(self, rhs: r32) -> bool {
        rhs.divisor_ok() && self.div_fits(rhs)
    }

    open spec fn div_spec(self, rhs: r32) -> r32 {
        self.quotient_spec(rhs)
    }
}

impl std::ops::Add for r32 {
    type Output = r32;

    fn add(self, other: r32) -> r32 {
        let (s, n, d) = self.sum_core(other);
        proof {
            lemma_frac_fits(n, d);
        }
        r32::from_parts(s, n as u32, d as u32)
    }
}

impl vstd::std_specs::ops::AddSpecImpl for r32 {
    open spec fn obeys_add_spec() -> bool {
        true
    }

    /// The sum must fit; a sum that does not is an overflow.
    open spec fn add_req(self, rhs: r32) -> bool {
        self.add_fits(rhs)
    }

    open spec fn add_spec(self, rhs: r32) -> r32 {
        self.sum_spec(rhs)
    }
}

impl std::ops::Sub for r32 {
    type Output = r32;

    fn sub(self, other: r32) -> r32 {
        self + other.neg()
    }
}

impl vstd::std_specs::ops::SubSpecImpl for r32 {
    open spec fn obeys_sub_spec() -> bool {
        true
    }

    open spec fn sub_req(self, rhs: r32) -> bool {
        self.add_fits(rhs.negate_spec())
    }

    open spec fn sub_spec(self, rhs: r32) -> r32 {
        self.sum_spec(rhs.negate_spec())
    }
}

impl std::ops::Rem for r32 {
    type Output = r32;

    fn rem(self, other: r32) -> r32 {
        let (s, n, d) = self.rem_core(other);
        proof {
            lemma_frac_fits(n, d);
        }
        r32::from_parts(s, n as u32, d as u32)
    }
}

impl vstd::std_specs::ops::RemSpecImpl for r32 {
    open spec fn obeys_rem_spec() -> bool {
        true
    }

    /// The divisor must be nonzero and the remainder must fit.
    open spec fn rem_req(self, rhs: r32) -> bool {
        rhs.divisor_ok() && self.rem_fits(rhs)
    }

    open spec fn rem_spec(self, rhs: r32) -> r32 {
        self.remainder_spec(rhs)
    }
}

} // verus!
