//! The retry rule of the fetch-with-retry operation the scraper uses: on a
//! rate-limit or service-unavailable answer the fetch waits and tries
//! again, for a bounded number of attempts, before one last unconditional
//! attempt whose result stands.

use vstd::prelude::*;

verus! {

/// How many attempts may be followed by a retry wait; the attempt after
/// the last of these is final.
pub const RETRY_ATTEMPTS: u32 = 3;

/// The wait in seconds when the server names none.
pub const DEFAULT_RETRY_DELAY: u64 = 5;

/// Decides what follows one fetch attempt: `Some(delay)` orders a wait of
/// that many seconds and another attempt, `None` lets the attempt's result
/// stand. A retry is ordered exactly when attempts remain and the status is
/// 429 or 503; the delay is the one the server supplied, or the default.
pub fn retry_decision(attempt: u32, status: u16, retry_after: Option<u64>) -> (r: Option<u64>)
    ensures
        r is Some <==> attempt < RETRY_ATTEMPTS && (status == 429 || status == 503),
        r matches Some(d) ==> d == (match retry_after {
            Some(v) => v,
            None => DEFAULT_RETRY_DELAY,
        }),
{
    if attempt < RETRY_ATTEMPTS && (status == 429 || status == 503) {
        match retry_after {
            Some(v) => Some(v),
            None => Some(DEFAULT_RETRY_DELAY),
        }
    } else {
        None
    }
}

} // verus!
