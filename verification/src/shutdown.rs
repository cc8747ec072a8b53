//! The cooperative shutdown signal, as one subscriber sees it.
//!
//! The signal is fired once, by the top-level driver; every subscriber
//! observes it at its next check and from then on forever: no operation
//! ever clears the flag, so a subscriber that saw the signal treats every
//! later check as already fired without waiting again.  The surrounding
//! process owns the broadcast channel and calls `note_fired` when its
//! receiver yields.

use vstd::prelude::*;

verus! {

/// One subscriber's sticky view of the shutdown signal.
pub struct ShutdownSignal {
    observed: bool,
}

impl ShutdownSignal {
    /// Whether this subscriber has observed the signal.
    pub closed spec fn observed(&self) -> bool {
        self.observed
    }

    /// A fresh subscriber that has not observed the signal.
    pub fn new() -> (r: Self)
        ensures
            !r.observed(),
    {
        ShutdownSignal { observed: false }
    }

    /// Non-blocking check: has the signal already been observed?
    pub fn is_shutdown(&self) -> (r: bool)
        ensures
            r == self.observed(),
    {
        self.observed
    }

    /// Record that the broadcast fired; the flag sticks.
    pub fn note_fired(&mut self)
        ensures
            final(self).observed(),
    {
        self.observed = true;
    }
}

} // verus!
