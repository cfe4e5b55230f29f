//! Lanes, along which messages are sent with different guarantees.

use crate::size::MinSize;
use vstd::prelude::*;

verus! {

/// Index of a lane on a transport.
#[derive(Debug, Clone, Copy, PartialEq, Eq, Hash, Structural)]
pub struct LaneIndex(pub MinSize);

impl LaneIndex {
    /// Makes an index from its number.
    pub fn new(n: u32) -> (r: Self)
        ensures
            r.0.0 == n,
    {
        LaneIndex(MinSize(n))
    }
}

/// What a lane guarantees of its messages.
#[derive(Debug, Clone, Copy, PartialEq, Eq, Hash, Structural)]
pub enum LaneKind {
    /// Messages may be lost, and may arrive in any order.
    UnreliableUnordered,
    /// Messages may be lost, but none arrives after one sent later.
    UnreliableSequenced,
    /// Messages are not lost, but may arrive in any order.
    ReliableUnordered,
    /// Messages are not lost, and arrive in the order in which they were sent.
    ReliableOrdered,
}

/// Whether a lane guarantees that its messages arrive.
#[derive(Debug, Clone, Copy, PartialEq, Eq, Hash, Structural)]
pub enum LaneReliability {
    /// Messages may be lost.
    Unreliable,
    /// Messages are sent again until the peer acknowledges them.
    Reliable,
}

impl LaneKind {
    /// Whether messages on such a lane are sent again until acknowledged.
    pub open spec fn is_reliable(self) -> bool {
        self == LaneKind::ReliableUnordered || self == LaneKind::ReliableOrdered
    }

    /// Gets whether such a lane guarantees that its messages arrive.
    pub fn reliability(self) -> (r: LaneReliability)
        ensures
            r == if self.is_reliable() {
                LaneReliability::Reliable
            } else {
                LaneReliability::Unreliable
            },
    {
        match self {
            LaneKind::UnreliableUnordered | LaneKind::UnreliableSequenced => {
                LaneReliability::Unreliable
            },
            LaneKind::ReliableUnordered | LaneKind::ReliableOrdered => LaneReliability::Reliable,
        }
    }
}

}
