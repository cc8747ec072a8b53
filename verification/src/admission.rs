//! Admission control: at most one active synchronization session.
//!
//! One permit exists.  A connection may begin protocol handling only after
//! `try_acquire` granted it the permit; a second connection is refused
//! until the first handler has released it on its way out, whichever way
//! it exits.  The surrounding process performs the waiting; this type
//! decides.

use vstd::prelude::*;

verus! {

/// The single-permit admission control.
pub struct AdmissionGate {
    permits: u8,
}

impl AdmissionGate {
    /// How many permits are free: one or none.
    pub closed spec fn permits(&self) -> nat {
        self.permits as nat
    }

    /// Never more than the one permit.
    pub open spec fn wf(&self) -> bool {
        self.permits() <= 1
    }

    /// A fresh instance with its permit free.
    pub fn new() -> (r: Self)
        ensures
            r.wf(),
            r.permits() == 1,
    {
        AdmissionGate { permits: 1 }
    }

    /// Take the permit if it is free.
    ///
    /// The permit is granted exactly when it was free, so a second caller
    /// before the matching `release` is always refused.
    pub fn try_acquire(&mut self) -> (granted: bool)
        requires
            old(self).wf(),
        ensures
            final(self).wf(),
            granted == (old(self).permits() == 1),
            final(self).permits() == if granted {
                0int
            } else {
                old(self).permits() as int
            },
    {
        if self.permits == 1 {
            self.permits = 0;
            true
        } else {
            false
        }
    }

    /// Return the permit; to be called on every exit path of a handler.
    pub fn release(&mut self)
        requires
            old(self).permits() == 0,
        ensures
            final(self).wf(),
            final(self).permits() == 1,
    {
        self.permits = 1;
    }
}

} // verus!
