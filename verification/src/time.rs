//! Points and spans of time, in nanoseconds.
//!
//! The library reads no clock: whoever drives it says what time it is.
use vstd::prelude::*;

verus! {

/// A span of time.
#[derive(Debug, Clone, Copy, PartialEq, Eq, Structural)]
pub struct Duration {
    /// The length of the span in nanoseconds.
    pub nanos: u128,
}

/// A point in time.
#[derive(Debug, Clone, Copy, PartialEq, Eq, Structural)]
pub struct Instant {
    /// The nanoseconds from a starting point that the driver picks once and keeps.
    pub nanos: u128,
}

/// The span from `earlier` to `later`, or the empty span where `later` comes first.
pub open spec fn elapsed(later: Instant, earlier: Instant) -> Duration {
    Duration {
        nanos: if later.nanos >= earlier.nanos {
            (later.nanos - earlier.nanos) as u128
        } else {
            0
        },
    }
}

impl Duration {
    /// A span of `millis` milliseconds.
    pub fn from_millis(millis: u64) -> (d: Duration)
        ensures
            d.nanos == millis * 1_000_000,
    {
        Duration { nanos: (millis as u128) * 1_000_000 }
    }

    /// Whether the span is empty.
    pub fn is_zero(&self) -> (r: bool)
        ensures
            r == (self.nanos == 0),
    {
        self.nanos == 0
    }

    /// Whether the span is longer than `other`.
    pub fn exceeds(&self, other: &Duration) -> (r: bool)
        ensures
            r == (self.nanos > other.nanos),
    {
        self.nanos > other.nanos
    }
}

impl Instant {
    /// The span since `earlier`, or the empty span where `earlier` is later.
    pub fn duration_since(&self, earlier: Instant) -> (d: Duration)
        ensures
            d == elapsed(*self, earlier),
    {
        if self.nanos >= earlier.nanos {
            Duration { nanos: self.nanos - earlier.nanos }
        } else {
            Duration { nanos: 0 }
        }
    }
}

/// A span is the difference of two points in time; there is none before its start.
pub proof fn elapsed_is_difference(later: Instant, earlier: Instant)
    ensures
        later.nanos >= earlier.nanos ==> earlier.nanos + elapsed(later, earlier).nanos
            == later.nanos,
        later.nanos < earlier.nanos ==> elapsed(later, earlier).nanos == 0,
{
}

/// Spans that follow each other add up.
pub proof fn elapsed_adds_up(first: Instant, second: Instant, third: Instant)
    requires
        first.nanos <= second.nanos <= third.nanos,
    ensures
        elapsed(third, first).nanos == elapsed(third, second).nanos + elapsed(
            second,
            first,
        ).nanos,
{
}

} // verus!
