//! Closed ranges of scalars.

use crate::fixed::{Fixed, MAX_RAW, MIN_RAW};
use vstd::prelude::*;

verus! {

/// The range `[min, max]`.
#[derive(Clone, Copy, Debug, PartialEq, Eq, Structural)]
pub struct Interval {
    pub min: Fixed,
    pub max: Fixed,
}

impl Interval {
    /// Whether `x` lies in the range, bounds included.
    pub open spec fn contains_spec(self, x: Fixed) -> bool {
        self.min.raw <= x.raw && x.raw <= self.max.raw
    }

    /// Whether `x` lies strictly between the bounds.
    pub open spec fn surrounds_spec(self, x: Fixed) -> bool {
        self.min.raw < x.raw && x.raw < self.max.raw
    }

    /// The scalar nearest to `x` among `min`, `x` and `max`: `min` for an
    /// `x` below it, else `max` for an `x` above it, else `x`.
    pub open spec fn clamp_spec(self, x: Fixed) -> Fixed {
        if x.raw < self.min.raw {
            self.min
        } else if x.raw > self.max.raw {
            self.max
        } else {
            x
        }
    }

    /// The range from plus infinity down to minus infinity.
    pub open spec fn empty_spec() -> Interval {
        Interval { min: Fixed { raw: MAX_RAW }, max: Fixed { raw: MIN_RAW } }
    }

    /// The range from minus infinity to plus infinity.
    pub open spec fn universe_spec() -> Interval {
        Interval { min: Fixed { raw: MIN_RAW }, max: Fixed { raw: MAX_RAW } }
    }

    /// The range from plus infinity down to minus infinity, which
    /// holds no scalar.
    #[verifier::when_used_as_spec(empty_spec)]
    pub fn empty() -> (i: Interval)
        ensures
            i == Interval::empty_spec(),
            forall|x: Fixed| !i.contains(x),
    {
        Interval { min: Fixed { raw: MAX_RAW }, max: Fixed { raw: MIN_RAW } }
    }

    /// The range from minus infinity to plus infinity, which holds
    /// every scalar that the arithmetic produces.
    #[verifier::when_used_as_spec(universe_spec)]
    pub fn universe() -> (i: Interval)
        ensures
            i == Interval::universe_spec(),
            forall|x: Fixed| x.wf() ==> i.contains(x),
    {
        Interval { min: Fixed { raw: MIN_RAW }, max: Fixed { raw: MAX_RAW } }
    }

    /// Whether `x` lies in the range, bounds included.
    #[verifier::when_used_as_spec(contains_spec)]
    pub fn contains(self, x: Fixed) -> (b: bool)
        ensures
            b == self.contains_spec(x),
    {
        self.min.raw <= x.raw && x.raw <= self.max.raw
    }

    /// Whether `x` lies strictly between the bounds.
    #[verifier::when_used_as_spec(surrounds_spec)]
    pub fn surrounds(self, x: Fixed) -> (b: bool)
        ensures
            b == self.surrounds_spec(x),
    {
        self.min.raw < x.raw && x.raw < self.max.raw
    }

    /// The scalar of the range nearest to `x`.
    #[verifier::when_used_as_spec(clamp_spec)]
    pub fn clamp(self, x: Fixed) -> (y: Fixed)
        ensures
            y == self.clamp_spec(x),
            self.min.raw <= self.max.raw ==> self.contains(y),
            self.contains(x) ==> y == x,
    {
        if x.raw < self.min.raw {
            self.min
        } else if x.raw > self.max.raw {
            self.max
        } else {
            x
        }
    }
}

} // verus!
