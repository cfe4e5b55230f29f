//! Estimate of how long a packet takes to a peer and back.

use crate::time::Duration;
use vstd::prelude::*;

verus! {

/// Estimate of the round-trip time to a peer.
#[derive(Debug, Clone, Copy)]
pub struct RttEstimator {
    pto: Duration,
}

impl View for RttEstimator {
    type V = Duration;

    closed spec fn view(&self) -> Duration {
        self.pto
    }
}

impl RttEstimator {
    /// Makes an estimate which gives this probe timeout.
    pub fn new(pto: Duration) -> (r: Self)
        ensures
            r@ == pto,
    {
        RttEstimator { pto }
    }

    /// Gets the probe timeout: how long to wait for an acknowledgement before
    /// sending again.
    pub fn pto(&self) -> (r: Duration)
        ensures
            r == self@,
    {
        self.pto
    }
}

}
