//! A wrapping generation counter, bumped on every mutation.

use vstd::prelude::*;

verus! {

#[derive(Debug, Clone, Copy, Eq, PartialEq, Structural)]
pub struct MutationGeneration(pub u64);

impl MutationGeneration {
    pub closed spec fn value(&self) -> u64 {
        self.0
    }

    pub fn new() -> (r: Self)
        ensures
            r.value() == 0,
    {
        MutationGeneration(0)
    }

    pub fn current(self) -> (r: u64)
        ensures
            r == self.value(),
    {
        self.0
    }

    /// Advances the counter, wrapping back to zero at the top of the range.
    pub fn next(&mut self) -> (r: u64)
        ensures
            final(self).value() == (if old(self).value() == u64::MAX {
                0u64
            } else {
                (old(self).value() + 1) as u64
            }),
            r == final(self).value(),
    {
        if self.0 == u64::MAX {
            self.0 = 0;
        } else {
            self.0 = self.0 + 1;
        }
        self.0
    }
}

} // verus!
