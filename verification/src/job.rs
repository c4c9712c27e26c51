//! The job contract: the interface a caller implements to process one work
//! item and optionally discover more items.
//!
//! Processing an item yields `Ok(Some(out))` to contribute an output,
//! `Ok(None)` to contribute nothing, or `Err(e)`; the scheduler swallows
//! errors without retrying or surfacing them. While processing, the job may
//! push any number of newly discovered items through the handle it is given;
//! the scheduler moves them onto the calling worker's local queue.

use vstd::prelude::*;

verus! {

/// Result of processing one item: an optional output, or an error.
pub type JobResult<T, E> = Result<Option<T>, E>;

/// The handle through which a job enqueues newly discovered items.
///
/// The scheduler hands a fresh handle to every invocation and flushes its
/// contents onto the calling worker's local queue afterwards, so a push can
/// never happen outside an active drain burst.
pub struct PushHandle<IN> {
    items: Vec<IN>,
}

impl<IN> View for PushHandle<IN> {
    type V = Seq<IN>;

    closed spec fn view(&self) -> Seq<IN> {
        self.items@
    }
}

impl<IN> PushHandle<IN> {
    /// An empty handle.
    pub fn new() -> (h: PushHandle<IN>)
        ensures
            h@ == Seq::<IN>::empty(),
    {
        PushHandle { items: Vec::new() }
    }

    /// Enqueues one newly discovered item.
    pub fn push(&mut self, item: IN)
        ensures
            final(self)@ == old(self)@.push(item),
    {
        self.items.push(item);
    }

    /// Hands the enqueued items back to the scheduler, in push order.
    pub fn into_items(self) -> (v: Vec<IN>)
        ensures
            v@ == self@,
    {
        self.items
    }
}

/// A job that can be processed by a worker.
///
/// An implementation fixes, through its spec functions, what it returns
/// for each item, which items it discovers, and how deep discovery can go;
/// `process` is its executable side, bound to those functions by its
/// contract. The spec functions carry placeholder defaults so that an
/// implementation written outside the verifier provides only `process` and
/// the erased law; a verified implementation overrides them, since the
/// contract of `process` cannot be met against the defaults. The
/// scheduler's guarantees hold for implementations that meet this contract;
/// one that draws on outside effects stands outside it.
pub trait GraphJob<IN, OUT, E>: Sized {
    /// What processing `item` returns.
    open spec fn result_of(&self, item: IN) -> JobResult<OUT, E> {
        vstd::pervasive::arbitrary()
    }

    /// The items discovered while processing `item`, in push order.
    open spec fn pushes_of(&self, item: IN) -> Seq<IN> {
        Seq::empty()
    }

    /// A bound on the discovery depth below an item.
    ///
    /// Together with [`GraphJob::pushes_shrink`] this is the finiteness
    /// premise of the scheduler: discovery stops after a bounded depth, so
    /// the discovered graph is finite and every walk terminates. A job that
    /// stops discovering below some depth `d` can use the remaining depth as
    /// the rank.
    open spec fn rank_of(&self, item: IN) -> nat {
        0
    }

    /// Law: every item discovered while processing `item` sits strictly
    /// deeper than `item` itself.
    proof fn pushes_shrink(&self, item: IN)
        ensures
            forall|j: int|
                0 <= j < self.pushes_of(item).len() ==> #[trigger] self.rank_of(
                    self.pushes_of(item)[j],
                ) < self.rank_of(item),
    ;

    /// Processes one item: pushes the discovered items through the handle
    /// and returns either `Some(output)`, `None`, or an error.
    fn process(&self, input: IN, worker: &mut PushHandle<IN>) -> (r: JobResult<OUT, E>)
        ensures
            r == self.result_of(input),
            final(worker)@ == old(worker)@ + self.pushes_of(input),
    ;
}

/// A named piece of work: a label and the arguments it applies to.
pub struct Job<T>(pub String, pub Vec<T>);

impl<T> Job<T> {
    /// Bundles a label with its arguments.
    pub fn new(name: String, args: Vec<T>) -> (j: Self)
        ensures
            j.0@ == name@,
            j.1@ == args@,
    {
        Self(name, args)
    }

    /// Runs the given function on this job and hands back its result.
    pub fn run<R, E2, F: Fn(&Self) -> Result<R, E2>>(&self, run_fn: F) -> (r: Result<R, E2>)
        requires
            call_requires(run_fn, (self,)),
        ensures
            call_ensures(run_fn, (self,), r),
    {
        run_fn(self)
    }
}

} // verus!
