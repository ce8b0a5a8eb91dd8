//! The number of tiles moved since the last shuffle.

use vstd::prelude::*;

verus! {

/// Counts the moves made by the player.
#[derive(Debug)]
pub struct MoveCounter(usize);

impl Default for MoveCounter {
    fn default() -> (r: MoveCounter)
        ensures
            r.count() == 0,
    {
        MoveCounter(0)
    }
}

impl MoveCounter {
    pub closed spec fn count(&self) -> nat {
        self.0 as nat
    }

    /// The current count.
    pub fn value(&self) -> (r: usize)
        ensures
            r == self.count(),
    {
        self.0
    }

    /// Adds one move.
    pub fn incr(&mut self)
        requires
            old(self).count() < usize::MAX,
        ensures
            final(self).count() == old(self).count() + 1,
    {
        self.0 = self.0 + 1;
    }

    /// Back to zero.
    pub fn reset(&mut self)
        ensures
            final(self).count() == 0,
    {
        self.0 = 0;
    }
}

} // verus!
