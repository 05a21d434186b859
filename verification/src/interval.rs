//! Acceptance windows for ray parameters.
//!
//! The default interval spans the whole representable parameter line; hit
//! searches narrow it, and the strict `surrounds` test is what rejects a
//! bounced ray's own origin as a hit.

use vstd::prelude::*;

verus! {

/// Bound on interval ends (10^7 in real units); `INFINITY_T` stands in for
/// an unbounded end.
pub const INFINITY_T: i64 = 10_000_000_000_000;

#[derive(Clone, Copy, Debug, PartialEq, Eq, Structural)]
pub struct Interval {
    pub min: i64,
    pub max: i64,
}

impl Interval {
    /// A well-formed window: ordered ends within the representable
    /// parameter line.
    pub open spec fn wf(self) -> bool {
        -INFINITY_T <= self.min <= self.max <= INFINITY_T
    }

    /// Strict open-interval membership.
    pub open spec fn spec_surrounds(self, x: int) -> bool {
        self.min < x && x < self.max
    }

    /// Closed-interval membership.
    pub open spec fn spec_contains(self, x: int) -> bool {
        self.min <= x && x <= self.max
    }

    pub fn new(min: i64, max: i64) -> (r: Interval)
        requires
            -INFINITY_T <= min <= max <= INFINITY_T,
        ensures
            r.min == min,
            r.max == max,
            r.wf(),
    {
        Interval { min, max }
    }

    /// Whether `x` lies strictly inside the window.
    pub fn surrounds(&self, x: i64) -> (r: bool)
        ensures
            r == self.spec_surrounds(x as int),
    {
        self.min < x && x < self.max
    }

    /// Whether `x` lies in the closed window.
    pub fn contains(&self, x: i64) -> (r: bool)
        ensures
            r == self.spec_contains(x as int),
    {
        self.min <= x && x <= self.max
    }
}

impl Default for Interval {
    /// The full representable parameter line.
    fn default() -> (r: Interval)
        ensures
            r.min == -INFINITY_T,
            r.max == INFINITY_T,
            r.wf(),
    {
        Interval { min: -INFINITY_T, max: INFINITY_T }
    }
}

} // verus!
