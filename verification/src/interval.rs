//! Closed scalar ranges, used for valid hit distances and color clamping.

use crate::scalar::Scalar;
use vstd::prelude::*;

verus! {

#[derive(Clone, Copy, PartialEq, Eq, Structural, Debug)]
pub struct Interval {
    pub min: Scalar,
    pub max: Scalar,
}

/// Saturation of a raw value into a raw range.
pub open spec fn clamp_spec(min: int, max: int, x: int) -> int {
    if x < min {
        min
    } else if x > max {
        max
    } else {
        x
    }
}

impl Interval {
    pub fn new(min: Scalar, max: Scalar) -> (r: Interval)
        ensures
            r.min == min,
            r.max == max,
    {
        Interval { min, max }
    }

    /// Containment, inclusive at both bounds.
    pub fn contains(self, x: Scalar) -> (r: bool)
        ensures
            r == (self.min@ <= x@ <= self.max@),
    {
        self.min.raw <= x.raw && x.raw <= self.max.raw
    }

    /// Strict interior, exclusive at both bounds.
    pub fn surrounds(self, x: Scalar) -> (r: bool)
        ensures
            r == (self.min@ < x@ < self.max@),
    {
        self.min.raw < x.raw && x.raw < self.max.raw
    }

    /// The value saturated into the range.
    pub fn clamp(self, x: Scalar) -> (r: Scalar)
        ensures
            r@ == clamp_spec(self.min@, self.max@, x@),
    {
        if x.raw < self.min.raw {
            self.min
        } else if x.raw > self.max.raw {
            self.max
        } else {
            x
        }
    }
}

/// Clamping lands inside the range, and leaves values already inside as
/// they are.
pub proof fn lemma_clamp_in_range(min: int, max: int, x: int)
    requires
        min <= max,
    ensures
        min <= clamp_spec(min, max, x) <= max,
        min <= x <= max ==> clamp_spec(min, max, x) == x,
{
}

} // verus!
