//! A closed interval of scalars.

use vstd::prelude::*;
use crate::scalar::{Scalar, INFINITY_BITS, SIGN_BIT};

verus! {

#[derive(Clone, Copy, Debug, PartialEq, Eq, Structural)]
pub struct Interval {
    pub min: Scalar,
    pub max: Scalar,
}

impl Interval {
    /// `min <= x <= max`.
    pub open spec fn spec_contains(self, x: Scalar) -> bool {
        self.min.spec_le(x) && x.spec_le(self.max)
    }

    /// `min < x < max`.
    pub open spec fn spec_surrounds(self, x: Scalar) -> bool {
        self.min.spec_lt(x) && x.spec_lt(self.max)
    }

    /// `x` moved to the nearer bound where it lies outside.
    pub open spec fn spec_clamp(self, x: Scalar) -> Scalar {
        if x.spec_lt(self.min) {
            self.min
        } else if self.max.spec_lt(x) {
            self.max
        } else {
            x
        }
    }

    /// The smallest interval that holds both `a` and `b`.
    pub open spec fn hull(a: Interval, b: Interval) -> Interval {
        Interval { min: a.min.spec_min(b.min), max: a.max.spec_max(b.max) }
    }

    /// The interval without extent: from plus infinity to minus infinity.
    pub open spec fn spec_empty() -> Interval {
        Interval {
            min: Scalar { bits: INFINITY_BITS },
            max: Scalar { bits: (INFINITY_BITS + SIGN_BIT) as u64 },
        }
    }

    /// The interval of all numbers.
    pub open spec fn spec_universe() -> Interval {
        Interval {
            min: Scalar { bits: (INFINITY_BITS + SIGN_BIT) as u64 },
            max: Scalar { bits: INFINITY_BITS },
        }
    }

    pub fn new(min: Scalar, max: Scalar) -> (r: Interval)
        ensures
            r.min == min,
            r.max == max,
    {
        Interval { min, max }
    }

    pub fn from_intervals(a: Interval, b: Interval) -> (r: Interval)
        ensures
            r == Interval::hull(a, b),
    {
        Interval { min: a.min.min(b.min), max: a.max.max(b.max) }
    }

    /// The interval of all numbers: from minus infinity to plus infinity.
    pub fn universe() -> (r: Interval)
        ensures
            r == Interval::spec_universe(),
    {
        Interval { min: Scalar::neg_infinity(), max: Scalar::infinity() }
    }

    pub fn empty() -> (r: Interval)
        ensures
            r == Interval::spec_empty(),
    {
        Interval { min: Scalar::infinity(), max: Scalar::neg_infinity() }
    }

    pub fn contains(&self, x: Scalar) -> (r: bool)
        ensures
            r == self.spec_contains(x),
    {
        self.min.le(x) && x.le(self.max)
    }

    pub fn surrounds(&self, x: Scalar) -> (r: bool)
        ensures
            r == self.spec_surrounds(x),
    {
        self.min.lt(x) && x.lt(self.max)
    }

    pub fn clamp(&self, x: Scalar) -> (r: Scalar)
        ensures
            r == self.spec_clamp(x),
    {
        if x.lt(self.min) {
            return self.min;
        }
        if x.gt(self.max) {
            return self.max;
        }
        x
    }
}

/// The empty interval holds nothing, and joining it to an interval of numbers
/// leaves the bounds where they rank.
pub proof fn lemma_empty_interval(a: Interval, x: Scalar)
    ensures
        !Interval::spec_empty().spec_contains(x),
        !Interval::spec_empty().spec_surrounds(x),
        !a.min.is_nan() ==> Interval::hull(Interval::spec_empty(), a).min.rank() == a.min.rank(),
        !a.max.is_nan() ==> Interval::hull(Interval::spec_empty(), a).max.rank() == a.max.rank(),
{
}

/// The interval of all numbers holds every number.
pub proof fn lemma_universe_holds_all(x: Scalar)
    ensures
        Interval::spec_universe().spec_contains(x) <==> !x.is_nan(),
{
}

/// What either interval holds, their hull holds.
pub proof fn lemma_hull_contains(a: Interval, b: Interval, x: Scalar)
    requires
        !a.min.is_nan(),
        !a.max.is_nan(),
        !b.min.is_nan(),
        !b.max.is_nan(),
        a.spec_contains(x) || b.spec_contains(x),
    ensures
        Interval::hull(a, b).spec_contains(x),
{
}

/// A clamped number lies inside an interval whose bounds are in order.
pub proof fn lemma_clamp_inside(a: Interval, x: Scalar)
    requires
        a.min.spec_le(a.max),
        !x.is_nan(),
    ensures
        a.spec_contains(a.spec_clamp(x)),
        a.spec_contains(x) ==> a.spec_clamp(x) == x,
{
}

} // verus!
