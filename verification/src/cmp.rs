//! Equality and ordering of floating-bar numbers.
use vstd::prelude::*;
use crate::r32_t::r32;
use std::cmp::Ordering;
use vstd::std_specs::cmp::{PartialEqSpecImpl, PartialOrdSpecImpl};

verus! {

impl r32 {
    /// What `==` computes: both `NaN`, both zero (any `NaN` has a zero
    /// numerator), or the same word after cancelling.
    pub open spec fn eq_r32(self, other: r32) -> bool {
        ||| self.nan_spec() && other.nan_spec()
        ||| self.numer_spec() == 0 && other.numer_spec() == 0
        ||| self.simplify_spec().0 == other.simplify_spec().0
    }

    /// What `partial_cmp` computes: equal when both are `NaN` or both are
    /// zero, unordered when only one is `NaN`; otherwise the order of the
    /// values.
    pub open spec fn compare_r32(self, other: r32) -> Option<Ordering> {
        if self.nan_spec() && other.nan_spec() || self.numer_spec() == 0 && other.numer_spec()
            == 0 {
            Some(Ordering::Equal)
        } else if self.nan_spec() || other.nan_spec() {
            None
        } else if self.less_value(other) {
            Some(Ordering::Less)
        } else if other.less_value(self) {
            Some(Ordering::Greater)
        } else {
            Some(Ordering::Equal)
        }
    }

    /// What `max` returns: `NaN` for two `NaN`s, the other argument when one
    /// is `NaN`, otherwise the argument with the larger value (`self` on a
    /// tie).
    pub open spec fn max_r32(self, other: r32) -> r32 {
        if self.nan_spec() && other.nan_spec() {
            r32(0x7C00_0000)
        } else if self.nan_spec() {
            other
        } else if other.nan_spec() {
            self
        } else if self.less_value(other) {
            other
        } else {
            self
        }
    }

    /// What `min` returns: as `max_r32`, with the smaller value.
    pub open spec fn min_r32(self, other: r32) -> r32 {
        if self.nan_spec() && other.nan_spec() {
            r32(0x7C00_0000)
        } else if self.nan_spec() {
            other
        } else if other.nan_spec() {
            self
        } else if other.less_value(self) {
            other
        } else {
            self
        }
    }

    /// Returns the maximum of the two numbers.
    ///
    /// If one of the arguments is `NaN`, then the other argument is returned.
    #[inline]
    pub fn max(self, other: r32) -> (r: r32)
        ensures
            r == self.max_r32(other),
    {
        match (self.is_nan(), other.is_nan()) {
            // this clobbers any "payload" bits being used.
            (true, true) => r32::nan(),
            (true, false) => other,
            (false, true) => self,
            (false, false) => if self.value_less(other) {
                other
            } else {
                // return self by default
                self
            },
        }
    }

    /// Returns the minimum of the two numbers.
    ///
    /// If one of the arguments is `NaN`, then the other argument is returned.
    #[inline]
    pub fn min(self, other: r32) -> (r: r32)
        ensures
            r == self.min_r32(other),
    {
        match (self.is_nan(), other.is_nan()) {
            // this clobbers any "payload" bits being used.
            (true, true) => r32::nan(),
            (true, false) => other,
            (false, true) => self,
            (false, false) => if other.value_less(self) {
                other
            } else {
                // return self by default
                self
            },
        }
    }
}

impl PartialEq for r32 {
    fn eq(&self, other: &r32) -> (r: bool) {
        self.is_nan() && other.is_nan() || self.numer() == 0 && other.numer() == 0
            || self.simplify().0 == other.simplify().0
    }
}

impl PartialEqSpecImpl for r32 {
    open spec fn obeys_eq_spec() -> bool {
        true
    }

    open spec fn eq_spec(&self, other: &r32) -> bool {
        self.eq_r32(*other)
    }
}

impl PartialOrd for r32 {
    fn partial_cmp(&self, other: &r32) -> (r: Option<Ordering>) {
        // both are nan or both are zero
        if self.is_nan() && other.is_nan() || self.numer() == 0 && other.numer() == 0 {
            return Some(Ordering::Equal);
        }
        // only one of them is nan
        if self.is_nan() || other.is_nan() {
            return None;
        }
        // compare values
        // a/b < c/d <=> ad < cb
        // when b and d are > 0
        let (l, r) = self.signed_cross(*other);
        if l < r {
            Some(Ordering::Less)
        } else if r < l {
            Some(Ordering::Greater)
        } else {
            Some(Ordering::Equal)
        }
    }
}

impl PartialOrdSpecImpl for r32 {
    open spec fn obeys_partial_cmp_spec() -> bool {
        true
    }

    open spec fn partial_cmp_spec(&self, other: &r32) -> Option<Ordering> {
        self.compare_r32(*other)
    }
}

} // verus!
