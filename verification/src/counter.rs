//! The active-work counter used by the termination-detection protocol.
//!
//! A worker takes a token before it starts draining work and releases the
//! token when it has drained every reachable source. The counter therefore
//! tallies the workers that are currently mid-burst, and a zero reading is
//! the quiescence signal: no worker is draining, so no worker can create new
//! work. This module gives the counter a sequential model: the scheduler in
//! this crate owns one counter and drives every worker turn through it.

use vstd::prelude::*;

verus! {

/// Tally of the drain bursts currently in progress.
///
/// Invariant of the protocol (kept by the scheduler, visible in the
/// contracts): the tally equals the number of outstanding [`ActiveToken`]s,
/// so it is zero exactly when no worker is mid-burst.
pub struct ActiveCounter {
    count: usize,
}

/// A scoped handle bound to one increment of the counter.
///
/// Releasing the token performs the matching decrement exactly once; the
/// token is consumed by [`ActiveToken::release`], so a second decrement
/// through the same token is impossible, and its private field keeps a
/// caller from forging a token it never took.
pub struct ActiveToken {
    held: (),
}

impl ActiveCounter {
    /// The current tally, as a mathematical number.
    pub closed spec fn active(&self) -> nat {
        self.count as nat
    }

    /// Creates a counter with no outstanding tokens.
    pub fn new() -> (c: ActiveCounter)
        ensures
            c.active() == 0,
    {
        ActiveCounter { count: 0 }
    }

    /// Begins a drain burst: increments the tally and hands out the token
    /// bound to that increment.
    pub fn take_token(&mut self) -> (t: ActiveToken)
        requires
            old(self).active() < usize::MAX,
        ensures
            final(self).active() == old(self).active() + 1,
    {
        self.count = self.count + 1;
        ActiveToken { held: () }
    }

    /// True exactly when no worker holds a token: the quiescence signal.
    pub fn is_zero(&self) -> (z: bool)
        ensures
            z <==> self.active() == 0,
    {
        self.count == 0
    }

    /// The current tally.
    pub fn current_count(&self) -> (n: usize)
        ensures
            n == self.active(),
    {
        self.count
    }
}

impl ActiveToken {
    /// Ends the drain burst this token belongs to: decrements the tally of
    /// the counter the token was taken from. Consumes the token, so the
    /// decrement happens exactly once per token.
    pub fn release(self, counter: &mut ActiveCounter)
        requires
            old(counter).active() >= 1,
        ensures
            final(counter).active() == old(counter).active() - 1,
    {
        let ActiveToken { held: () } = self;
        counter.count = counter.count - 1;
    }
}

} // verus!
