//! The timestamped epoch model: a monotonically advancing frontier.
//! An epoch is stable once the frontier has moved past it; only then
//! may a consumer finalize output for it.

use vstd::prelude::*;

verus! {

/// The frontier of logical time: no further updates will arrive below
/// it.
pub struct EpochFrontier {
    pub frontier: u64,
}

impl EpochFrontier {
    /// Start at epoch 0: nothing is stable yet.
    pub fn new() -> (f: Self)
        ensures
            f.frontier == 0,
    {
        EpochFrontier { frontier: 0 }
    }

    /// Declare that no further updates below `e` will be sent. The
    /// frontier never moves backwards.
    pub fn advance_to(&mut self, e: u64)
        requires
            e >= old(self).frontier,
        ensures
            final(self).frontier == e,
    {
        self.frontier = e;
    }

    /// May a consumer finalize output for epoch `e`? Exactly when the
    /// frontier has advanced past it.
    pub fn is_stable(&self, e: u64) -> (r: bool)
        ensures
            r <==> e < self.frontier,
    {
        e < self.frontier
    }
}

} // verus!
