//! Points and spans of time, counted in whole nanoseconds.

use vstd::prelude::*;

verus! {

/// Span of time.
#[derive(Debug, Clone, Copy, PartialEq, Eq, Structural)]
pub struct Duration {
    /// Length of the span in nanoseconds.
    pub nanos: u128,
}

impl Duration {
    /// Span of so many nanoseconds.
    pub fn from_nanos(nanos: u128) -> (r: Self)
        ensures
            r.nanos == nanos,
    {
        Duration { nanos }
    }

    /// Span of so many milliseconds.
    pub fn from_millis(millis: u64) -> (r: Self)
        ensures
            r.nanos == millis * 1_000_000,
    {
        Duration { nanos: millis as u128 * 1_000_000 }
    }

    /// Span of so many seconds.
    pub fn from_secs(secs: u64) -> (r: Self)
        ensures
            r.nanos == secs * 1_000_000_000,
    {
        Duration { nanos: secs as u128 * 1_000_000_000 }
    }
}

/// Point in time, as the span that has passed since a start which all points
/// have in common.
#[derive(Debug, Clone, Copy, PartialEq, Eq, Structural)]
pub struct Instant {
    /// Nanoseconds since the common start.
    pub nanos: u128,
}

impl Instant {
    /// Point so many nanoseconds after the common start.
    pub fn from_nanos(nanos: u128) -> (r: Self)
        ensures
            r.nanos == nanos,
    {
        Instant { nanos }
    }

    /// Span from `earlier` to this point, or no time at all where `earlier` is
    /// the later of the two.
    pub open spec fn since(self, earlier: Instant) -> nat {
        if self.nanos >= earlier.nanos {
            (self.nanos - earlier.nanos) as nat
        } else {
            0
        }
    }

    /// Gives the span from `earlier` to this point, or no time at all where
    /// `earlier` is the later of the two.
    pub fn saturating_duration_since(self, earlier: Instant) -> (r: Duration)
        ensures
            r.nanos == self.since(earlier),
    {
        if self.nanos >= earlier.nanos {
            Duration { nanos: self.nanos - earlier.nanos }
        } else {
            Duration { nanos: 0 }
        }
    }

    /// Whether the point that lies `span` after this one can be told.
    pub open spec fn reaches(self, span: Duration) -> bool {
        self.nanos + span.nanos <= u128::MAX
    }

    /// Point that lies `span` after this one.
    pub open spec fn plus(self, span: Duration) -> Instant {
        Instant { nanos: (self.nanos + span.nanos) as u128 }
    }

    /// Gives the point that lies `span` after this one.
    pub fn later_by(self, span: Duration) -> (r: Instant)
        requires
            self.reaches(span),
        ensures
            r == self.plus(span),
    {
        Instant { nanos: self.nanos + span.nanos }
    }
}

}
