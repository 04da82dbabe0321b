//! Decisions of the accept loop.
//!
//! The listener admits at most `MAX_CONNECTIONS` connections at once and
//! retries failed accepts under exponential backoff: one second after
//! the first failure, doubling each time, and giving up once the wait
//! would pass `MAX_BACKOFF_SECS`.

use vstd::prelude::*;

verus! {

/// How many connections the server serves at once; the next client
/// waits until one of them ends.
pub const MAX_CONNECTIONS: usize = 250;

/// The longest accept-retry wait, in seconds.
pub const MAX_BACKOFF_SECS: u64 = 64;

/// The step the accept loop takes after a failed accept, given the
/// current backoff in seconds: wait that long and double it, or give up
/// once the current backoff passes the cap.
pub fn accept_retry(backoff: u64) -> (r: Option<u64>)
    requires
        1 <= backoff <= 2 * MAX_BACKOFF_SECS,
    ensures
        r == if backoff > MAX_BACKOFF_SECS {
            None::<u64>
        } else {
            Some((backoff * 2) as u64)
        },
{
    if backoff > MAX_BACKOFF_SECS {
        None
    } else {
        Some(backoff * 2)
    }
}

} // verus!
