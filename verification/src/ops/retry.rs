//! Which failed requests are retried.
use vstd::prelude::*;

verus! {

pub const MAX_ATTEMPTS: u32 = 5;

/// Whether an HTTP status, or its absence for a network-level error,
/// warrants a retry: 5xx and network errors are retried, nothing else.
pub fn should_retry(status: Option<u16>) -> (r: bool)
    ensures
        r == match status {
            None => true,
            Some(s) => 500 <= s < 600,
        },
{
    match status {
        None => true,
        Some(s) => 500 <= s && s < 600,
    }
}

} // verus!
