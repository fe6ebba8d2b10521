//! Intervals of fixed-point scalars.
use vstd::prelude::*;

verus! {

/// The range `[min, max]` of a fixed-point parameter.
#[derive(Clone, Copy, Debug, PartialEq, Eq, Structural)]
pub struct Interval {
    pub min: i64,
    pub max: i64,
}

impl Interval {
    /// The interval that holds every representable value.
    pub fn new() -> (r: Interval)
        ensures
            r.min == i64::MIN && r.max == i64::MAX,
    {
        Interval { min: i64::MIN, max: i64::MAX }
    }

    pub fn with(min: i64, max: i64) -> (r: Interval)
        ensures
            r.min == min && r.max == max,
    {
        Interval { min, max }
    }

    /// The interval that holds no value.
    pub fn empty() -> (r: Interval)
        ensures
            r.min == i64::MAX && r.max == i64::MIN,
    {
        Interval { min: i64::MAX, max: i64::MIN }
    }

    /// The same as `new`: every representable value.
    pub fn universe() -> (r: Interval)
        ensures
            r.min == i64::MIN && r.max == i64::MAX,
    {
        Interval::new()
    }

    pub open spec fn spec_contains(self, v: int) -> bool {
        self.min <= v <= self.max
    }

    pub open spec fn spec_surrounds(self, v: int) -> bool {
        self.min < v < self.max
    }

    pub open spec fn spec_clamp(self, v: int) -> int {
        if v < self.min {
            self.min as int
        } else if v > self.max {
            self.max as int
        } else {
            v
        }
    }

    /// `val` lies in the closed interval.
    pub fn contains(&self, val: i64) -> (r: bool)
        ensures
            r == self.spec_contains(val as int),
    {
        self.min <= val && val <= self.max
    }

    /// `val` lies in the open interval.
    pub fn surrounds(&self, val: i64) -> (r: bool)
        ensures
            r == self.spec_surrounds(val as int),
    {
        self.min < val && val < self.max
    }

    /// The nearest value to `x` in the interval (checked against `min` first).
    pub fn clamp(&self, x: i64) -> (r: i64)
        ensures
            r == self.spec_clamp(x as int),
    {
        if x < self.min {
            self.min
        } else if x > self.max {
            self.max
        } else {
            x
        }
    }
}

} // verus!
