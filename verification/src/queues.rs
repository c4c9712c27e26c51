//! The queue topology: one local FIFO queue per worker, one shared overflow
//! (injector) queue seeded with the initial items, and one steal handle per
//! worker.
//!
//! The queues themselves are the work-stealing deques of `crossbeam_deque`.
//! A [`Topology`] owns every handle — the injector, all local queues and all
//! steal handles — and every operation goes through a `&mut self` method, so
//! no two operations can overlap. The trusted contracts below therefore
//! state the single-owner semantics of each `crossbeam_deque` call, which its
//! source gives deterministically: FIFO local queues push at the back and pop
//! at the front, steals take from the front, and a batch steal moves a prefix
//! of the injector into the destination queue.

use vstd::prelude::*;

use crossbeam_deque::{Injector, Steal, Stealer, Worker};

verus! {

#[verifier::external_type_specification]
#[verifier::external_body]
#[verifier::reject_recursive_types(T)]
pub struct ExWorker<T>(Worker<T>);

#[verifier::external_type_specification]
#[verifier::external_body]
#[verifier::reject_recursive_types(T)]
pub struct ExInjector<T>(Injector<T>);

#[verifier::external_type_specification]
#[verifier::external_body]
#[verifier::reject_recursive_types(T)]
pub struct ExStealer<T>(Stealer<T>);

/// Outcome of one steal attempt, mirroring the three outcomes of a
/// `crossbeam_deque` steal: nothing there, one task taken, or a transient
/// conflict that asks the caller to try again.
pub enum StealResult<T> {
    Empty,
    Taken(T),
    Retry,
}

/// The whole queue topology of one scheduler run.
#[verifier::reject_recursive_types(T)]
pub struct Topology<T> {
    injector: Injector<T>,
    locals: Vec<Worker<T>>,
    stealers: Vec<Stealer<T>>,
    inj_view: Ghost<Seq<T>>,
    local_views: Ghost<Seq<Seq<T>>>,
}

/// The concatenation of a sequence of queues, front to back.
pub open spec fn concat_all<T>(qs: Seq<Seq<T>>) -> Seq<T>
    decreases qs.len(),
{
    if qs.len() == 0 {
        Seq::empty()
    } else {
        qs[0] + concat_all(qs.drop_first())
    }
}

/// The ghost view a fresh overflow queue starts from; the trusted
/// constructor below cannot build a ghost value inside its own body.
fn ghost_empty_seq<T>() -> (g: Ghost<Seq<T>>)
    ensures
        g@ == Seq::<T>::empty(),
{
    Ghost(Seq::empty())
}

/// The ghost view a fresh set of local queues starts from.
fn ghost_empty_queues<T>(n: usize) -> (g: Ghost<Seq<Seq<T>>>)
    ensures
        g@ == Seq::new(n as nat, |i: int| Seq::<T>::empty()),
{
    Ghost(Seq::new(n as nat, |i: int| Seq::empty()))
}

impl<T> Topology<T> {
    /// The items currently in the overflow queue, front to back.
    pub closed spec fn injector_items(&self) -> Seq<T> {
        self.inj_view@
    }

    /// The local queues, one per worker, each front to back.
    pub closed spec fn locals_view(&self) -> Seq<Seq<T>> {
        self.local_views@
    }

    /// How many workers the topology was built for.
    pub open spec fn num_workers(&self) -> nat {
        self.locals_view().len()
    }

    /// The items of worker `w`'s local queue, front to back.
    pub open spec fn local_items(&self, w: int) -> Seq<T> {
        self.locals_view()[w]
    }

    /// Every item currently queued anywhere in the topology.
    pub open spec fn total(&self) -> Seq<T> {
        self.injector_items() + concat_all(self.locals_view())
    }

    /// True when every queue of the topology is empty.
    pub open spec fn all_empty(&self) -> bool {
        &&& self.injector_items().len() == 0
        &&& forall|w: int|
            0 <= w < self.num_workers() ==> #[trigger] self.local_items(w).len() == 0
    }

    /// Relies on `crossbeam_deque::Injector::new`, `Worker::new_fifo` and
    /// `Worker::stealer`: a fresh injector and fresh local queues hold
    /// nothing, and each steal handle is a view into its worker's queue.
    #[verifier::external_body]
    pub fn new(num_workers: usize) -> (t: Topology<T>)
        ensures
            t.injector_items() == Seq::<T>::empty(),
            t.locals_view() == Seq::new(num_workers as nat, |i: int| Seq::<T>::empty()),
    {
        let injector = Injector::new();
        let mut locals: Vec<Worker<T>> = Vec::new();
        let mut stealers: Vec<Stealer<T>> = Vec::new();
        for _ in 0..num_workers {
            let w = Worker::new_fifo();
            stealers.push(w.stealer());
            locals.push(w);
        }
        Topology {
            injector,
            locals,
            stealers,
            inj_view: ghost_empty_seq(),
            local_views: ghost_empty_queues(num_workers),
        }
    }

    /// Relies on `crossbeam_deque::Injector::push`: appends the task at the
    /// back of the overflow queue.
    #[verifier::external_body]
    pub fn seed(&mut self, item: T)
        ensures
            final(self).injector_items() == old(self).injector_items().push(item),
            final(self).locals_view() == old(self).locals_view(),
    {
        self.injector.push(item);
    }

    /// Relies on `crossbeam_deque::Worker::push`: appends the task at the
    /// back of worker `w`'s local queue.
    #[verifier::external_body]
    pub fn push_local(&mut self, w: usize, item: T)
        requires
            w < old(self).num_workers(),
        ensures
            final(self).injector_items() == old(self).injector_items(),
            final(self).locals_view() == old(self).locals_view().update(
                w as int,
                old(self).local_items(w as int).push(item),
            ),
    {
        self.locals[w].push(item);
    }

    /// Relies on `crossbeam_deque::Worker::pop` on a FIFO queue: removes and
    /// returns the task at the front of worker `w`'s own queue, or reports
    /// the queue empty.
    #[verifier::external_body]
    pub fn pop_local(&mut self, w: usize) -> (r: Option<T>)
        requires
            w < old(self).num_workers(),
        ensures
            final(self).injector_items() == old(self).injector_items(),
            match r {
                Some(x) => {
                    &&& old(self).local_items(w as int).len() > 0
                    &&& x == old(self).local_items(w as int)[0]
                    &&& final(self).locals_view() == old(self).locals_view().update(
                        w as int,
                        old(self).local_items(w as int).drop_first(),
                    )
                },
                None => {
                    &&& old(self).local_items(w as int).len() == 0
                    &&& final(self).locals_view() == old(self).locals_view()
                },
            },
    {
        self.locals[w].pop()
    }

    /// Relies on `crossbeam_deque::Stealer::steal`: takes the task at the
    /// front of the victim's local queue. `Retry` reports that a concurrent
    /// operation moved the front first; the steal uses a strong
    /// compare-exchange, which fails only when the front really moved, and
    /// the topology owns every handle and is driven through `&mut self`, so
    /// no other operation exists and the contract rules `Retry` out.
    #[verifier::external_body]
    pub fn steal_local(&mut self, victim: usize) -> (r: StealResult<T>)
        requires
            victim < old(self).num_workers(),
        ensures
            final(self).injector_items() == old(self).injector_items(),
            match r {
                StealResult::Taken(x) => {
                    &&& old(self).local_items(victim as int).len() > 0
                    &&& x == old(self).local_items(victim as int)[0]
                    &&& final(self).locals_view() == old(self).locals_view().update(
                        victim as int,
                        old(self).local_items(victim as int).drop_first(),
                    )
                },
                StealResult::Empty => {
                    &&& old(self).local_items(victim as int).len() == 0
                    &&& final(self).locals_view() == old(self).locals_view()
                },
                StealResult::Retry => false,
            },
    {
        match self.stealers[victim].steal() {
            Steal::Success(x) => StealResult::Taken(x),
            Steal::Empty => StealResult::Empty,
            Steal::Retry => StealResult::Retry,
        }
    }

    /// Relies on `crossbeam_deque::Injector::steal_batch_and_pop`: when the
    /// overflow queue is not empty it returns the front task and moves some
    /// (possibly empty) prefix of the rest onto the back of worker `w`'s
    /// local queue, leaving the remainder in the overflow queue. The call
    /// signals `Retry` on a failed head compare-exchange, and the weak
    /// variant it uses may fail spuriously even without contention, so the
    /// body retries until the answer settles — the loop every caller of
    /// these queues runs — and never hands `Retry` out. A failed exchange
    /// moves nothing.
    #[verifier::external_body]
    pub fn steal_batch_and_pop(&mut self, w: usize) -> (r: StealResult<T>)
        requires
            w < old(self).num_workers(),
        ensures
            match r {
                StealResult::Taken(x) => {
                    &&& old(self).injector_items().len() > 0
                    &&& x == old(self).injector_items()[0]
                    &&& exists|k: int|
                        {
                            &&& 1 <= k <= old(self).injector_items().len()
                            &&& final(self).injector_items() == old(self).injector_items()
                                .subrange(k, old(self).injector_items().len() as int)
                            &&& final(self).locals_view() == old(self).locals_view().update(
                                w as int,
                                old(self).local_items(w as int) + old(
                                    self,
                                ).injector_items().subrange(1, k),
                            )
                        }
                },
                StealResult::Empty => {
                    &&& old(self).injector_items().len() == 0
                    &&& final(self).injector_items() == old(self).injector_items()
                    &&& final(self).locals_view() == old(self).locals_view()
                },
                StealResult::Retry => false,
            },
    {
        loop {
            match self.injector.steal_batch_and_pop(&self.locals[w]) {
                Steal::Success(x) => return StealResult::Taken(x),
                Steal::Empty => return StealResult::Empty,
                Steal::Retry => {}
            }
        }
    }
}

} // verus!
