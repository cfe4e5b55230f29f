//! Sizes and indices as they travel between peers.

use vstd::prelude::*;

verus! {

/// Size or index which is the same number on every machine.
#[derive(Debug, Clone, Copy, PartialEq, Eq, Hash, Structural)]
pub struct MinSize(pub u32);

impl MinSize {
    /// Makes a size from its number.
    pub fn new(n: u32) -> (r: Self)
        ensures
            r.0 == n,
    {
        MinSize(n)
    }

    /// Gives the size which stands for `n`, if there is one.
    pub fn from_usize(n: usize) -> (r: Option<Self>)
        ensures
            match r {
                Some(s) => s.0 == n,
                None => n > u32::MAX,
            },
    {
        if n as u64 <= u32::MAX as u64 {
            Some(MinSize(n as u32))
        } else {
            None
        }
    }

    /// Gives the number that this size stands for.
    pub fn to_usize(self) -> (r: usize)
        ensures
            r == self.0,
    {
        self.0 as usize
    }
}

}
