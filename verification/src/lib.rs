//! A generic parallel graph-walking work-stealing scheduler.
//!
//! Given a set of initial work items and a job contract that processes one
//! item at a time — optionally emitting an output and discovering new items —
//! the scheduler processes the transitively discovered item set to completion
//! and returns the aggregated outputs.

pub mod backoff;
pub mod content;
pub mod counter;
pub mod job;
pub mod queues;
pub mod retry;
pub mod walk;
