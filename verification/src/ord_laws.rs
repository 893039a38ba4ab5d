//! How `partial_cmp` relates to `==` and to the order of values.
use vstd::prelude::*;
use crate::r32_t::r32;
use crate::laws::lemma_eq_iff_same_value;
use std::cmp::Ordering;

verus! {

/// `partial_cmp` reports `Equal` exactly for the pairs that `==` calls equal.
pub proof fn lemma_cmp_equal_iff_eq(x: r32, y: r32)
    ensures
        x.compare_r32(y) == Some(Ordering::Equal) <==> x.eq_r32(y),
{
    lemma_eq_iff_same_value(x, y);
}

/// The reverse of an ordering.
pub open spec fn reversed(o: Option<Ordering>) -> Option<Ordering> {
    match o {
        Some(Ordering::Less) => Some(Ordering::Greater),
        Some(Ordering::Greater) => Some(Ordering::Less),
        other => other,
    }
}

/// Comparing in the other order reverses the result.
pub proof fn lemma_cmp_antisymmetric(x: r32, y: r32)
    ensures
        y.compare_r32(x) == reversed(x.compare_r32(y)),
{
}

/// For numbers that are not `NaN`, of either sign, `partial_cmp` is the
/// order of their values `num / den`.
pub proof fn lemma_cmp_is_value_order(x: r32, y: r32)
    requires
        !x.nan_spec(),
        !y.nan_spec(),
    ensures
        x.compare_r32(y) == Some(Ordering::Less) <==> x.num() * y.den() < y.num() * x.den(),
        x.compare_r32(y) == Some(Ordering::Equal) <==> x.num() * y.den() == y.num() * x.den(),
        x.compare_r32(y) == Some(Ordering::Greater) <==> x.num() * y.den() > y.num() * x.den(),
{
    if x.numer_spec() == 0 && y.numer_spec() == 0 {
        assert(x.num() == 0 && y.num() == 0);
        assert(x.num() * y.den() == 0 && y.num() * x.den() == 0) by (nonlinear_arith)
            requires
                x.num() == 0,
                y.num() == 0,
        ;
    }
}

/// Ordering is transitive: `x < y` and `y < z` give `x < z`, and likewise for
/// `Equal`.
pub proof fn lemma_cmp_transitive(x: r32, y: r32, z: r32, o: Ordering)
    requires
        x.compare_r32(y) == Some(o),
        y.compare_r32(z) == Some(o),
    ensures
        x.compare_r32(z) == Some(o),
{
    x.lemma_decode();
    y.lemma_decode();
    z.lemma_decode();
    if o == Ordering::Equal {
        lemma_cmp_equal_iff_eq(x, y);
        lemma_cmp_equal_iff_eq(y, z);
        lemma_cmp_equal_iff_eq(x, z);
        crate::laws::lemma_eq_equivalence(x, y, z);
    } else {
        // neither `Less` nor `Greater` involves a `NaN`
        lemma_cmp_is_value_order(x, y);
        lemma_cmp_is_value_order(y, z);
        lemma_cmp_is_value_order(x, z);
        let (a, b) = (x.num(), x.den());
        let (c, d) = (y.num(), y.den());
        let (e, f) = (z.num(), z.den());
        if o == Ordering::Less {
            assert(a * f < e * b) by (nonlinear_arith)
                requires
                    a * d < c * b,
                    c * f < e * d,
                    b > 0,
                    d > 0,
                    f > 0,
            ;
        } else {
            assert(a * f > e * b) by (nonlinear_arith)
                requires
                    a * d > c * b,
                    c * f > e * d,
                    b > 0,
                    d > 0,
                    f > 0,
            ;
        }
    }
}

/// `max` and `min` return one of their arguments, the one that is a number
/// when the other is `NaN`, and `NaN` only when both are.
pub proof fn lemma_max_min_select(x: r32, y: r32)
    ensures
        x.max_r32(y) == x || x.max_r32(y) == y || (x.nan_spec() && y.nan_spec()),
        x.min_r32(y) == x || x.min_r32(y) == y || (x.nan_spec() && y.nan_spec()),
        x.nan_spec() && !y.nan_spec() ==> x.max_r32(y) == y && x.min_r32(y) == y,
        !x.nan_spec() && y.nan_spec() ==> x.max_r32(y) == x && x.min_r32(y) == x,
        x.nan_spec() && y.nan_spec() ==> x.max_r32(y).nan_spec() && x.min_r32(y).nan_spec(),
{
    r32::lemma_zero_and_nan_words();
}

/// Of two numbers, `max` returns one whose value is at least both and `min`
/// one whose value is at most both; on equal values both return `self`.
pub proof fn lemma_max_min_value(x: r32, y: r32)
    requires
        !x.nan_spec(),
        !y.nan_spec(),
    ensures
        !x.max_r32(y).less_value(x),
        !x.max_r32(y).less_value(y),
        !x.less_value(x.min_r32(y)),
        !y.less_value(x.min_r32(y)),
        x.num() * y.den() == y.num() * x.den() ==> x.max_r32(y) == x && x.min_r32(y) == x,
{
}

} // verus!
