//! Listener-side decisions.
//!
//! The accept loop runs outside the library; what it decides is verified
//! here: the exponential backoff after accept failures, and the connection
//! budget that caps how many handlers are alive at once.

use vstd::prelude::*;

verus! {

/// Maximum number of concurrent connections the server accepts.
pub const MAX_CONNECTIONS: u64 = 250;

/// The wait after one more consecutive accept failure: waits double from
/// 1 s up to 64 s; a failure after the 64 s wait gives up.
pub fn next_backoff(backoff: u64) -> (r: Option<u64>)
    ensures
        backoff > 64 ==> r is None,
        backoff <= 64 ==> r == Some::<u64>((backoff * 2) as u64),
{
    if backoff > 64 {
        None
    } else {
        Some(backoff * 2)
    }
}

/// The connection budget: one permit per live handler, at most
/// `MAX_CONNECTIONS` permits out at any time. The accept loop takes a
/// permit before accepting and each handler returns its permit on exit, so
/// one more connection can be accepted only after some handler ends.
pub struct ConnLimiter {
    available: u64,
}

impl ConnLimiter {
    /// Permits not handed out.
    pub closed spec fn spec_available(&self) -> u64 {
        self.available
    }

    /// Handlers currently alive under this budget.
    pub open spec fn spec_outstanding(&self) -> int {
        MAX_CONNECTIONS - self.spec_available()
    }

    pub open spec fn wf(&self) -> bool {
        self.spec_available() <= MAX_CONNECTIONS
    }

    /// A full budget: no handler is alive.
    pub fn new() -> (r: ConnLimiter)
        ensures
            r.wf(),
            r.spec_available() == MAX_CONNECTIONS,
            r.spec_outstanding() == 0,
    {
        ConnLimiter { available: MAX_CONNECTIONS }
    }

    /// Take a permit if one is left. With all permits out the accept loop
    /// must wait for a release: the budget never exceeds `MAX_CONNECTIONS`.
    pub fn try_acquire(&mut self) -> (granted: bool)
        requires
            old(self).wf(),
        ensures
            final(self).wf(),
            granted == (old(self).spec_available() > 0),
            granted ==> final(self).spec_available() == old(self).spec_available() - 1
                && final(self).spec_outstanding() == old(self).spec_outstanding() + 1,
            !granted ==> *final(self) == *old(self),
            final(self).spec_outstanding() <= MAX_CONNECTIONS,
    {
        if self.available > 0 {
            self.available = self.available - 1;
            true
        } else {
            false
        }
    }

    /// Return one handler's permit.
    pub fn release(&mut self)
        requires
            old(self).wf(),
            old(self).spec_outstanding() > 0,
        ensures
            final(self).wf(),
            final(self).spec_available() == old(self).spec_available() + 1,
            final(self).spec_outstanding() == old(self).spec_outstanding() - 1,
    {
        self.available = self.available + 1;
    }
}

} // verus!
