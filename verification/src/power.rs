//! Keep-awake bookkeeping for the streaming task: the assertion id handed
//! back by the platform, and the rule for when to ask for a new one. The
//! platform call itself is made by the host loop, which hands its outcome
//! in.

use vstd::prelude::*;

verus! {

/// A held (or failed) keep-awake assertion.
pub struct PowerAssertion {
    id: Option<u32>,
}

impl PowerAssertion {
    /// The platform id held, if the acquisition succeeded.
    pub closed spec fn held(&self) -> Option<u32> {
        self.id
    }

    /// Whether an assertion is held.
    pub fn is_held(&self) -> (r: bool)
        ensures
            r == (self.held() is Some),
    {
        self.id.is_some()
    }

    /// Keep a held assertion; adopt the new outcome only when none is
    /// held.
    pub fn ensure(&mut self, acquired: Option<u32>)
        ensures
            final(self).held() == if old(self).held() is Some {
                old(self).held()
            } else {
                acquired
            },
    {
        if self.id.is_none() {
            self.id = acquired;
        }
    }
}

/// Wrap a fresh acquisition outcome.
pub fn new(acquired: Option<u32>) -> (r: PowerAssertion)
    ensures
        r.held() == acquired,
{
    PowerAssertion { id: acquired }
}

} // verus!
