//! The per-connection shutdown latch.
//!
//! Each connection watches one broadcast of the shutdown notice. The
//! latch is false until the notice is observed and true forever after;
//! the task that awaits the notice calls `observe` when it fires.

use vstd::prelude::*;

verus! {

/// Remembers whether the shutdown notice has been observed.
pub struct Shutdown {
    is_shutdown: bool,
}

impl Shutdown {
    /// True once the notice has been observed; it never goes back.
    pub closed spec fn seen(self) -> bool {
        self.is_shutdown
    }

    /// A fresh latch: the notice has not been seen.
    pub fn new() -> (r: Shutdown)
        ensures
            !r.seen(),
    {
        Shutdown { is_shutdown: false }
    }

    /// Whether the shutdown notice has been observed.
    pub fn is_shutdown(&self) -> (r: bool)
        ensures
            r == self.seen(),
    {
        self.is_shutdown
    }

    /// Latches the notice: from here on `is_shutdown` stays true.
    pub fn observe(&mut self)
        ensures
            final(self).seen(),
    {
        self.is_shutdown = true;
    }
}

} // verus!
