//! The backoff policy: a per-worker state machine that turns "no work
//! found" into an increasing idle delay, reset on success.
//!
//! The policy is a knob, not a correctness mechanism: termination detection
//! rests solely on the active-work counter. A worker calls [`BackoffPolicy::reset`]
//! after any successful fetch and [`BackoffPolicy::snooze`] after a fetch
//! attempt that found all sources empty. Each snooze roughly doubles the
//! delay — `2^step` busy spins while the step is at most [`SPIN_LIMIT`], a
//! spin followed by yielding the processor beyond it — and the step stops
//! rising once it passes [`YIELD_LIMIT`], the point where
//! [`BackoffPolicy::is_completed`] advises parking the thread instead.

use vstd::prelude::*;

verus! {

/// Steps up to this limit are pure busy spins of `2^step` iterations.
pub const SPIN_LIMIT: u32 = 6;

/// Steps beyond this limit no longer grow; the policy is then "completed".
pub const YIELD_LIMIT: u32 = 10;

/// The delay state of one worker, counted in snooze steps since the last
/// reset.
pub struct BackoffPolicy {
    step: u32,
}

impl BackoffPolicy {
    /// How many failed fetch attempts the policy has seen since the last
    /// reset, capped one past [`YIELD_LIMIT`].
    pub closed spec fn step_count(&self) -> nat {
        self.step as nat
    }

    /// True once the delay schedule is exhausted; a caller that wants to
    /// block rather than burn the processor should do so now.
    pub open spec fn completed(&self) -> bool {
        self.step_count() > YIELD_LIMIT
    }

    /// A fresh policy, at the minimum delay.
    pub fn new() -> (b: BackoffPolicy)
        ensures
            b.step_count() == 0,
    {
        BackoffPolicy { step: 0 }
    }

    /// Returns the policy to its minimum delay; called after any
    /// successful task fetch.
    pub fn reset(&mut self)
        ensures
            final(self).step_count() == 0,
    {
        self.step = 0;
    }

    /// Records one failed fetch attempt across all sources: the delay
    /// roughly doubles, and the step stops rising once past the limit.
    pub fn snooze(&mut self)
        ensures
            final(self).step_count() == if old(self).step_count() <= YIELD_LIMIT {
                old(self).step_count() + 1
            } else {
                old(self).step_count()
            },
    {
        if self.step <= YIELD_LIMIT {
            self.step = self.step + 1;
        }
    }

    /// True once the step has passed [`YIELD_LIMIT`].
    pub fn is_completed(&self) -> (r: bool)
        ensures
            r == self.completed(),
    {
        self.step > YIELD_LIMIT
    }
}

} // verus!
