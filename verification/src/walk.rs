//! The scheduler: walks a lazily discovered task graph to completion and
//! aggregates the outputs.
//!
//! The contract of [`walk`] pins the result down through the notion of a
//! discovery order: a sequence listing every processed item in the order it
//! was taken. A discovery order is valid when (a) every prefix only consumes
//! items that the initial seed or the already processed items had made
//! available, and (b) at the end, every available item — initial or
//! discovered — was consumed exactly once. The returned collection is then
//! exactly the non-empty outputs of the job over that order, and
//! [`lemma_runs_agree`] shows the multiset of processed items is the same
//! for every valid order, so the outcome does not depend on how many workers
//! took part or how the work was interleaved.

use vstd::prelude::*;

use vstd::multiset::Multiset;
use vstd::seq_lib::lemma_multiset_commutative;
use vstd::seq_lib::to_multiset_build;
use vstd::seq_lib::to_multiset_remove;

use vstd::pervasive::unreached;

use crate::backoff::BackoffPolicy;
use crate::counter::ActiveCounter;
use crate::job::{GraphJob, PushHandle};
use crate::queues::{concat_all, StealResult, Topology};

verus! {

broadcast use {
    vstd::multiset::group_multiset_axioms,
    vstd::seq_lib::group_to_multiset_ensures,
};

/// Everything the job discovers over a whole sequence of items, in
/// processing order.
pub open spec fn pushes_flat<IN, OUT, E, J: GraphJob<IN, OUT, E>>(
    job: &J,
    items: Seq<IN>,
) -> Seq<IN>
    decreases items.len(),
{
    if items.len() == 0 {
        Seq::empty()
    } else {
        pushes_flat(job, items.drop_last()) + job.pushes_of(items.last())
    }
}

/// The non-empty outputs the job yields over a sequence of items.
pub open spec fn outputs_of<IN, OUT, E, J: GraphJob<IN, OUT, E>>(
    job: &J,
    items: Seq<IN>,
) -> Multiset<OUT>
    decreases items.len(),
{
    if items.len() == 0 {
        Multiset::empty()
    } else {
        let rest = outputs_of(job, items.drop_last());
        match job.result_of(items.last()) {
            Ok(Some(out)) => rest.insert(out),
            _ => rest,
        }
    }
}

/// The errors the job yields over a sequence of items.
pub open spec fn errors_of<IN, OUT, E, J: GraphJob<IN, OUT, E>>(
    job: &J,
    items: Seq<IN>,
) -> Multiset<E>
    decreases items.len(),
{
    if items.len() == 0 {
        Multiset::empty()
    } else {
        let rest = errors_of(job, items.drop_last());
        match job.result_of(items.last()) {
            Err(e) => rest.insert(e),
            _ => rest,
        }
    }
}

/// Every prefix of the order consumes only items that the initial seed or
/// the items processed before it had made available.
pub open spec fn ordered_discovery<IN, OUT, E, J: GraphJob<IN, OUT, E>>(
    job: &J,
    initial: Seq<IN>,
    order: Seq<IN>,
) -> bool {
    forall|k: int|
        0 < k <= order.len() ==> #[trigger] order.subrange(0, k).to_multiset().subset_of(
            initial.to_multiset().add(pushes_flat(job, order.subrange(0, k - 1)).to_multiset()),
        )
}

/// A complete run of the scheduler: the order consumes items as they become
/// available, and in the end every available item — initial or discovered —
/// was processed exactly once.
pub open spec fn valid_run<IN, OUT, E, J: GraphJob<IN, OUT, E>>(
    job: &J,
    initial: Seq<IN>,
    order: Seq<IN>,
) -> bool {
    &&& order.to_multiset() == initial.to_multiset().add(
        pushes_flat(job, order).to_multiset(),
    )
    &&& ordered_discovery(job, initial, order)
}

/// Appending an item to an order appends its discoveries to the flattened
/// discovery sequence.
proof fn lemma_pushes_flat_push<IN, OUT, E, J: GraphJob<IN, OUT, E>>(
    job: &J,
    items: Seq<IN>,
    item: IN,
)
    ensures
        pushes_flat(job, items.push(item)) == pushes_flat(job, items) + job.pushes_of(item),
{
    assert(items.push(item).drop_last() =~= items);
    assert(items.push(item).last() == item);
}

/// Filtering law: an item for which the job yields `Ok(Some(out))`
/// contributes exactly `out` to the collected outputs, and one for which it
/// yields `Ok(None)` or an error contributes nothing.
pub proof fn lemma_outputs_push<IN, OUT, E, J: GraphJob<IN, OUT, E>>(
    job: &J,
    items: Seq<IN>,
    item: IN,
)
    ensures
        outputs_of(job, items.push(item)) == (match job.result_of(item) {
            Ok(Some(out)) => outputs_of(job, items).insert(out),
            _ => outputs_of(job, items),
        }),
{
    assert(items.push(item).drop_last() =~= items);
    assert(items.push(item).last() == item);
}

/// An item for which the job fails contributes exactly its error to the
/// collected errors; any other item contributes none.
pub proof fn lemma_errors_push<IN, OUT, E, J: GraphJob<IN, OUT, E>>(
    job: &J,
    items: Seq<IN>,
    item: IN,
)
    ensures
        errors_of(job, items.push(item)) == (match job.result_of(item) {
            Err(e) => errors_of(job, items).insert(e),
            _ => errors_of(job, items),
        }),
{
    assert(items.push(item).drop_last() =~= items);
    assert(items.push(item).last() == item);
}

/// A topology whose queues are all empty holds nothing at all.
proof fn lemma_concat_all_empty<T>(qs: Seq<Seq<T>>)
    requires
        forall|i: int| 0 <= i < qs.len() ==> #[trigger] qs[i].len() == 0,
    ensures
        concat_all(qs) == Seq::<T>::empty(),
    decreases qs.len(),
{
    if qs.len() > 0 {
        lemma_concat_all_empty(qs.drop_first());
        assert(qs[0] =~= Seq::<T>::empty());
        assert(concat_all(qs) =~= Seq::<T>::empty());
    }
}

/// Counting an element in the items of two concatenated queues adds the
/// two counts.
proof fn lemma_seq_add_ms_counts<T>(a: Seq<T>, b: Seq<T>)
    ensures
        forall|e: T| #[trigger] (a + b).to_multiset().count(e) == a.to_multiset().count(e)
            + b.to_multiset().count(e),
{
    lemma_multiset_commutative(a, b);
    assert forall|e: T| #[trigger] (a + b).to_multiset().count(e) == a.to_multiset().count(e)
        + b.to_multiset().count(e) by {
        assert(a.to_multiset().add(b.to_multiset()).count(e) == a.to_multiset().count(e)
            + b.to_multiset().count(e));
    }
}

/// Replacing one queue exchanges its old items for the new ones in the
/// concatenation of all queues.
proof fn lemma_concat_all_update<T>(qs: Seq<Seq<T>>, w: int, l: Seq<T>)
    requires
        0 <= w < qs.len(),
    ensures
        forall|e: T| #[trigger] concat_all(qs.update(w, l)).to_multiset().count(e) + qs[
            w
        ].to_multiset().count(e) == concat_all(qs).to_multiset().count(e) + l.to_multiset().count(
            e,
        ),
    decreases w,
{
    let qs2 = qs.update(w, l);
    if w == 0 {
        assert(qs2.drop_first() =~= qs.drop_first());
        assert(concat_all(qs2) == l + concat_all(qs.drop_first()));
        assert(concat_all(qs) == qs[0] + concat_all(qs.drop_first()));
        lemma_seq_add_ms_counts(l, concat_all(qs.drop_first()));
        lemma_seq_add_ms_counts(qs[0], concat_all(qs.drop_first()));
    } else {
        assert(qs2.drop_first() =~= qs.drop_first().update(w - 1, l));
        lemma_concat_all_update(qs.drop_first(), w - 1, l);
        assert(qs2[0] == qs[0]);
        assert(concat_all(qs2) == qs[0] + concat_all(qs2.drop_first()));
        assert(concat_all(qs) == qs[0] + concat_all(qs.drop_first()));
        lemma_seq_add_ms_counts(qs[0], concat_all(qs2.drop_first()));
        lemma_seq_add_ms_counts(qs[0], concat_all(qs.drop_first()));
        assert(qs.drop_first()[w - 1] == qs[w]);
        assert forall|e: T| #[trigger] concat_all(qs2).to_multiset().count(e) + qs[
            w
        ].to_multiset().count(e) == concat_all(qs).to_multiset().count(e) + l.to_multiset().count(
            e,
        ) by {
            assert(concat_all(qs2.drop_first()) == concat_all(qs.drop_first().update(w - 1, l)));
            assert(concat_all(qs.drop_first().update(w - 1, l)).to_multiset().count(e)
                + qs.drop_first()[w - 1].to_multiset().count(e) == concat_all(
                qs.drop_first(),
            ).to_multiset().count(e) + l.to_multiset().count(e));
        }
    }
}

/// Adding one queue at the back appends its items to the concatenation.
proof fn lemma_concat_all_push<T>(qs: Seq<Seq<T>>, l: Seq<T>)
    ensures
        concat_all(qs.push(l)) == concat_all(qs) + l,
    decreases qs.len(),
{
    if qs.len() == 0 {
        assert(qs.push(l).drop_first() =~= Seq::<Seq<T>>::empty());
        assert(concat_all(Seq::<Seq<T>>::empty()) == Seq::<T>::empty());
        assert(concat_all(qs.push(l)) == l + Seq::<T>::empty());
        assert(concat_all(qs.push(l)) =~= concat_all(qs) + l);
    } else {
        assert(qs.push(l).drop_first() =~= qs.drop_first().push(l));
        lemma_concat_all_push(qs.drop_first(), l);
        assert(concat_all(qs.push(l)) == qs[0] + (concat_all(qs.drop_first()) + l));
        assert(concat_all(qs.push(l)) =~= concat_all(qs) + l);
    }
}

/// Taking the front task of queue `w` removes exactly that one occurrence
/// from the items of the whole topology.
proof fn lemma_total_after_front_steal<T>(
    inj: Seq<T>,
    lv: Seq<Seq<T>>,
    lv2: Seq<Seq<T>>,
    w: int,
    x: T,
)
    requires
        0 <= w < lv.len(),
        lv[w].len() > 0,
        x == lv[w][0],
        lv2 == lv.update(w, lv[w].drop_first()),
    ensures
        (inj + concat_all(lv)).to_multiset() == (inj + concat_all(lv2)).to_multiset().insert(x),
{
    let d = lv[w].drop_first();
    assert(d =~= lv[w].remove(0));
    to_multiset_remove(lv[w], 0);
    assert(lv[w].contains(x)) by {
        assert(lv[w][0] == x);
    }
    lemma_concat_all_update(lv, w, d);
    lemma_seq_add_ms_counts(inj, concat_all(lv));
    lemma_seq_add_ms_counts(inj, concat_all(lv2));
    assert forall|e: T| (inj + concat_all(lv)).to_multiset().count(e) == (inj + concat_all(
        lv2,
    )).to_multiset().insert(x).count(e) by {
        assert(concat_all(lv2).to_multiset().count(e) + lv[w].to_multiset().count(e) == concat_all(
            lv,
        ).to_multiset().count(e) + d.to_multiset().count(e));
        assert(d.to_multiset().count(e) == lv[w].to_multiset().sub(
            Multiset::singleton(x),
        ).count(e));
        assert(lv[w].to_multiset().count(x) > 0);
        assert((inj + concat_all(lv2)).to_multiset().insert(x).count(e) == (inj + concat_all(
            lv2,
        )).to_multiset().add(Multiset::singleton(x)).count(e));
    }
    assert((inj + concat_all(lv)).to_multiset() =~= (inj + concat_all(
        lv2,
    )).to_multiset().insert(x));
}

/// Pushing one task at the back of queue `w` adds exactly that occurrence
/// to the items of the whole topology.
proof fn lemma_total_after_push<T>(inj: Seq<T>, lv: Seq<Seq<T>>, lv2: Seq<Seq<T>>, w: int, x: T)
    requires
        0 <= w < lv.len(),
        lv2 == lv.update(w, lv[w].push(x)),
    ensures
        (inj + concat_all(lv2)).to_multiset() == (inj + concat_all(lv)).to_multiset().insert(x),
{
    lemma_concat_all_update(lv, w, lv[w].push(x));
    lemma_seq_add_ms_counts(inj, concat_all(lv));
    lemma_seq_add_ms_counts(inj, concat_all(lv2));
    assert forall|e: T| (inj + concat_all(lv2)).to_multiset().count(e) == (inj + concat_all(
        lv,
    )).to_multiset().insert(x).count(e) by {
        assert(concat_all(lv2).to_multiset().count(e) + lv[w].to_multiset().count(e) == concat_all(
            lv,
        ).to_multiset().count(e) + lv[w].push(x).to_multiset().count(e));
        assert(lv[w].push(x).to_multiset().count(e) == lv[w].to_multiset().insert(x).count(e));
        assert(lv[w].to_multiset().insert(x).count(e) == lv[w].to_multiset().add(
            Multiset::singleton(x),
        ).count(e));
        assert((inj + concat_all(lv)).to_multiset().insert(x).count(e) == (inj + concat_all(
            lv,
        )).to_multiset().add(Multiset::singleton(x)).count(e));
    }
    assert((inj + concat_all(lv2)).to_multiset() =~= (inj + concat_all(
        lv,
    )).to_multiset().insert(x));
}

/// The work one item still implies: processing it and everything it will
/// transitively discover. The guard on the rank keeps the definition total;
/// for jobs, whose discoveries shrink the rank, the guard is always taken.
pub open spec fn weight<IN, OUT, E, J: GraphJob<IN, OUT, E>>(job: &J, item: IN) -> nat
    decreases job.rank_of(item), 1int, 0int,
{
    1 + weight_sum(job, job.pushes_of(item), job.rank_of(item))
}

/// The combined weight of the given items whose rank lies below `bound`.
pub open spec fn weight_sum<IN, OUT, E, J: GraphJob<IN, OUT, E>>(
    job: &J,
    items: Seq<IN>,
    bound: nat,
) -> nat
    decreases bound, 0int, items.len(),
{
    if items.len() == 0 {
        0
    } else {
        (if job.rank_of(items[0]) < bound {
            weight(job, items[0])
        } else {
            0
        }) + weight_sum(job, items.drop_first(), bound)
    }
}

/// The work a sequence of pending items still implies; the measure by which
/// every walk terminates.
pub open spec fn pending_weight<IN, OUT, E, J: GraphJob<IN, OUT, E>>(
    job: &J,
    items: Seq<IN>,
) -> nat
    decreases items.len(),
{
    if items.len() == 0 {
        0
    } else {
        weight(job, items[0]) + pending_weight(job, items.drop_first())
    }
}

/// When every item of the sequence sits below the bound, the bounded sum is
/// the plain sum of weights.
proof fn lemma_weight_sum_all_small<IN, OUT, E, J: GraphJob<IN, OUT, E>>(
    job: &J,
    items: Seq<IN>,
    bound: nat,
)
    requires
        forall|j: int| 0 <= j < items.len() ==> #[trigger] job.rank_of(items[j]) < bound,
    ensures
        weight_sum(job, items, bound) == pending_weight(job, items),
    decreases items.len(),
{
    if items.len() > 0 {
        assert(job.rank_of(items[0]) < bound);
        assert forall|j: int|
            0 <= j < items.drop_first().len() implies #[trigger] job.rank_of(
            items.drop_first()[j],
        ) < bound by {
            assert(items.drop_first()[j] == items[j + 1]);
        }
        lemma_weight_sum_all_small(job, items.drop_first(), bound);
    }
}

/// Pending weight adds up over concatenation.
proof fn lemma_pending_weight_concat<IN, OUT, E, J: GraphJob<IN, OUT, E>>(
    job: &J,
    a: Seq<IN>,
    b: Seq<IN>,
)
    ensures
        pending_weight(job, a + b) == pending_weight(job, a) + pending_weight(job, b),
    decreases a.len(),
{
    if a.len() == 0 {
        assert(a + b =~= b);
        assert(pending_weight(job, a) == 0);
    } else {
        assert((a + b).drop_first() =~= a.drop_first() + b);
        assert((a + b)[0] == a[0]);
        assert((a + b).len() > 0);
        lemma_pending_weight_concat(job, a.drop_first(), b);
    }
}

/// Pending weight of a one-item sequence is that item's weight.
proof fn lemma_pending_weight_single<IN, OUT, E, J: GraphJob<IN, OUT, E>>(job: &J, item: IN)
    ensures
        pending_weight(job, seq![item]) == weight(job, item),
{
    assert(seq![item].drop_first() =~= Seq::<IN>::empty());
    assert(pending_weight(job, Seq::<IN>::empty()) == 0);
}

/// Taking one item out of the pending sequence takes out its weight.
proof fn lemma_pending_weight_remove<IN, OUT, E, J: GraphJob<IN, OUT, E>>(
    job: &J,
    items: Seq<IN>,
    i: int,
)
    requires
        0 <= i < items.len(),
    ensures
        pending_weight(job, items.remove(i)) + weight(job, items[i]) == pending_weight(job, items),
{
    let a = items.subrange(0, i);
    let m = seq![items[i]];
    let b = items.subrange(i + 1, items.len() as int);
    assert(items =~= a + m + b);
    assert(items.remove(i) =~= a + b);
    lemma_pending_weight_concat(job, a + m, b);
    lemma_pending_weight_concat(job, a, m);
    lemma_pending_weight_concat(job, a, b);
    lemma_pending_weight_single(job, items[i]);
}

/// The pending weight is the same however the pending items are arranged.
proof fn lemma_pending_weight_permutation<IN, OUT, E, J: GraphJob<IN, OUT, E>>(
    job: &J,
    s1: Seq<IN>,
    s2: Seq<IN>,
)
    requires
        s1.to_multiset() == s2.to_multiset(),
    ensures
        pending_weight(job, s1) == pending_weight(job, s2),
    decreases s1.len(),
{
    if s1.len() == 0 {
        assert(s1.to_multiset().len() == 0);
        assert(s2.to_multiset().len() == 0);
        assert(s2.len() == 0);
    } else {
        let x = s1[0];
        assert(s1.contains(x));
        assert(s2.to_multiset().count(x) > 0);
        assert(s2.contains(x));
        let i = choose|i: int| 0 <= i < s2.len() && s2[i] == x;
        to_multiset_remove(s1, 0);
        to_multiset_remove(s2, i);
        lemma_pending_weight_remove(job, s1, 0);
        lemma_pending_weight_remove(job, s2, i);
        lemma_pending_weight_permutation(job, s1.remove(0), s2.remove(i));
    }
}

/// Exchanging a pending arrangement for one with one more occurrence of an
/// item raises the pending weight by that item's weight.
proof fn lemma_pending_weight_insert<IN, OUT, E, J: GraphJob<IN, OUT, E>>(
    job: &J,
    s1: Seq<IN>,
    s2: Seq<IN>,
    item: IN,
)
    requires
        s1.to_multiset() == s2.to_multiset().insert(item),
    ensures
        pending_weight(job, s1) == pending_weight(job, s2) + weight(job, item),
{
    assert(s2.push(item) =~= s2 + seq![item]);
    lemma_pending_weight_concat(job, s2, seq![item]);
    lemma_pending_weight_single(job, item);
    lemma_pending_weight_permutation(job, s1, s2.push(item));
}

/// Fetches the next available task for worker `w`: from the front of its
/// local queue if possible, otherwise by batch-stealing from the overflow
/// queue, otherwise by stealing from a peer. Returns nothing only when every
/// queue of the topology is empty.
fn find_task<T>(t: &mut Topology<T>, w: usize, n: usize) -> (r: Option<T>)
    requires
        old(t).num_workers() == n,
        w < n,
    ensures
        final(t).num_workers() == n,
        match r {
            Some(x) => old(t).total().to_multiset() == final(t).total().to_multiset().insert(x),
            None => {
                &&& final(t).injector_items() == old(t).injector_items()
                &&& final(t).locals_view() == old(t).locals_view()
                &&& final(t).all_empty()
            },
        },
{
    let popped = t.pop_local(w);
    match popped {
        Some(x) => {
            proof {
                lemma_total_after_front_steal(
                    old(t).injector_items(),
                    old(t).locals_view(),
                    t.locals_view(),
                    w as int,
                    x,
                );
            }
            return Some(x);
        },
        None => {},
    }
    let ghost t_pre = *t;
    match t.steal_batch_and_pop(w) {
        StealResult::Taken(x) => {
            proof {
                let inj = t_pre.injector_items();
                let lv = t_pre.locals_view();
                let k = choose|k: int|
                    {
                        &&& 1 <= k <= inj.len()
                        &&& t.injector_items() == inj.subrange(k, inj.len() as int)
                        &&& t.locals_view() == lv.update(w as int, lv[w as int] + inj.subrange(1, k))
                    };
                let mid = inj.subrange(1, k);
                let rest = inj.subrange(k, inj.len() as int);
                lemma_concat_all_update(lv, w as int, lv[w as int] + mid);
                lemma_seq_add_ms_counts(lv[w as int], mid);
                assert(inj =~= seq![x] + mid + rest);
                lemma_seq_add_ms_counts(seq![x] + mid, rest);
                lemma_seq_add_ms_counts(seq![x], mid);
                assert(seq![x] =~= Seq::<T>::empty().push(x));
                to_multiset_build(Seq::<T>::empty(), x);
                lemma_seq_add_ms_counts(inj, concat_all(lv));
                lemma_seq_add_ms_counts(rest, concat_all(t.locals_view()));
                assert forall|e: T| t_pre.total().to_multiset().count(e) == t.total().to_multiset().insert(
                    x,
                ).count(e) by {
                    assert(concat_all(t.locals_view()).to_multiset().count(e) + lv[w as int].to_multiset().count(
                        e,
                    ) == concat_all(lv).to_multiset().count(e) + (lv[w as int]
                        + mid).to_multiset().count(e));
                    assert(inj.to_multiset().count(e) == (seq![x] + mid + rest).to_multiset().count(
                        e,
                    ));
                    assert(Seq::<T>::empty().push(x).to_multiset() =~= Multiset::<
                        T,
                    >::empty().insert(x));
                    assert(seq![x].to_multiset().count(e) == Multiset::<T>::empty().insert(
                        x,
                    ).count(e));
                    assert(Multiset::<T>::empty().insert(x).count(e) == Multiset::<
                        T,
                    >::empty().add(Multiset::singleton(x)).count(e));
                    assert(t.total().to_multiset().insert(x).count(e) == t.total().to_multiset().add(
                        Multiset::singleton(x),
                    ).count(e));
                }
                assert(t_pre.total().to_multiset() =~= t.total().to_multiset().insert(x));
            }
            return Some(x);
        },
        StealResult::Retry => {
            return unreached();
        },
        StealResult::Empty => {},
    }
    let mut victim: usize = 0;
    while victim < n
        invariant
            w < n,
            victim <= n,
            t.num_workers() == n,
            t.injector_items() == old(t).injector_items(),
            t.locals_view() == old(t).locals_view(),
            t.injector_items().len() == 0,
            forall|v: int| 0 <= v < victim ==> #[trigger] t.locals_view()[v].len() == 0,
        decreases n - victim,
    {
        let ghost t_mid = *t;
        match t.steal_local(victim) {
            StealResult::Taken(x) => {
                proof {
                    lemma_total_after_front_steal(
                        t_mid.injector_items(),
                        t_mid.locals_view(),
                        t.locals_view(),
                        victim as int,
                        x,
                    );
                }
                return Some(x);
            },
            StealResult::Retry => {
                return unreached();
            },
            StealResult::Empty => {},
        }
        assert(t.locals_view()[victim as int].len() == 0);
        victim = victim + 1;
    }
    None
}

/// Merges the per-worker output collections, in worker order, into the
/// final collection.
pub fn merge_outputs<OUT>(parts: Vec<Vec<OUT>>) -> (out: Vec<OUT>)
    ensures
        out@ == concat_all(parts@.map_values(|v: Vec<OUT>| v@)),
{
    let ghost whole = parts@.map_values(|v: Vec<OUT>| v@);
    let mut rest = parts;
    let mut out: Vec<OUT> = Vec::new();
    proof {
        assert(out@ + concat_all(rest@.map_values(|v: Vec<OUT>| v@)) =~= concat_all(whole));
    }
    while rest.len() > 0
        invariant
            out@ + concat_all(rest@.map_values(|v: Vec<OUT>| v@)) == concat_all(whole),
        decreases rest@.len(),
    {
        let ghost views = rest@.map_values(|v: Vec<OUT>| v@);
        let mut part = rest.remove(0);
        let ghost out0 = out@;
        out.append(&mut part);
        proof {
            assert(rest@.map_values(|v: Vec<OUT>| v@) =~= views.drop_first());
            assert(concat_all(views) == views[0] + concat_all(views.drop_first()));
            assert(out@ + concat_all(views.drop_first()) =~= (out0 + concat_all(views)).subrange(
                out0.len() as int,
                out0.len() as int,
            ) + out@ + concat_all(views.drop_first()));
            assert(out@ + concat_all(views.drop_first()) =~= out0 + concat_all(views));
        }
    }
    proof {
        assert(rest@.map_values(|v: Vec<OUT>| v@) =~= Seq::<Seq<OUT>>::empty());
        assert(concat_all(Seq::<Seq<OUT>>::empty()) == Seq::<OUT>::empty());
        assert(out@ =~= concat_all(whole));
    }
    out
}

/// The engine behind [`walk`] and [`walk_strict`]: walks the task graph
/// spanned by the job contract from the initial items to completion and
/// returns the non-empty outputs and the errors, both unordered.
///
/// The engine owns one queue topology sized to `num_workers` and drives the
/// worker turns through the termination-detection protocol: each turn takes
/// a token, drains the local queue, the overflow queue and the peers until
/// all are empty, releases the token, and leaves on a zero counter reading.
/// The contract: some valid discovery order exists whose outputs and errors
/// are exactly the returned collections. [`lemma_runs_agree`] lifts this to
/// worker-count invariance. Every loop below carries a termination
/// measure — the total weight of the pending items, which falls by one for
/// each processed item because discoveries shrink the job's rank — so a
/// walk over any job meeting the contract returns.
fn walk_engine<IN, OUT, E, J: GraphJob<IN, OUT, E>>(
    initial: Vec<IN>,
    num_workers: usize,
    job: &J,
) -> (r: (Vec<OUT>, Vec<E>))
    requires
        1 <= num_workers,
    ensures
        exists|order: Seq<IN>|
            #[trigger] valid_run(job, initial@, order) && order.len() == pending_weight(
                job,
                initial@,
            ) && r.0@.to_multiset() == outputs_of(job, order) && r.1@.to_multiset() == errors_of(
                job,
                order,
            ),
        initial@.len() == 0 ==> r.0@.len() == 0 && r.1@.len() == 0,
{
    let ghost initial_view = initial@;
    let mut topo = Topology::<IN>::new(num_workers);
    let mut rest = initial;
    proof {
        assert(topo.injector_items() + rest@ =~= initial_view);
    }
    while rest.len() > 0
        invariant
            topo.locals_view() == Seq::new(num_workers as nat, |i: int| Seq::<IN>::empty()),
            topo.injector_items() + rest@ == initial_view,
        decreases rest@.len(),
    {
        let ghost inj0 = topo.injector_items();
        let ghost rest0 = rest@;
        let item = rest.remove(0);
        topo.seed(item);
        proof {
            assert(topo.injector_items() + rest@ =~= inj0 + rest0);
        }
    }
    let mut counter = ActiveCounter::new();
    let mut parts: Vec<Vec<OUT>> = Vec::new();
    let mut parts_err: Vec<Vec<E>> = Vec::new();
    let ghost mut order = Seq::<IN>::empty();
    proof {
        assert(topo.num_workers() == num_workers as nat);
        lemma_concat_all_empty(topo.locals_view());
        assert(topo.total() =~= initial_view);
        assert(pushes_flat(job, order) == Seq::<IN>::empty());
        assert(order.to_multiset().add(topo.total().to_multiset()) =~= initial_view.to_multiset().add(
            pushes_flat(job, order).to_multiset(),
        ));
        assert(parts@.map_values(|v: Vec<OUT>| v@) =~= Seq::<Seq<OUT>>::empty());
        assert(concat_all(Seq::<Seq<OUT>>::empty()) == Seq::<OUT>::empty());
        assert(outputs_of(job, order) == Multiset::<OUT>::empty());
        assert(concat_all(parts@.map_values(|v: Vec<OUT>| v@)).to_multiset() =~= outputs_of(
            job,
            order,
        ));
        assert(parts_err@.map_values(|v: Vec<E>| v@) =~= Seq::<Seq<E>>::empty());
        assert(concat_all(Seq::<Seq<E>>::empty()) == Seq::<E>::empty());
        assert(errors_of(job, order) == Multiset::<E>::empty());
        assert(concat_all(parts_err@.map_values(|v: Vec<E>| v@)).to_multiset() =~= errors_of(
            job,
            order,
        ));
        assert(pending_weight(job, topo.total()) == pending_weight(job, initial_view));
    }
    let mut w: usize = 0;
    while w < num_workers
        invariant
            w <= num_workers,
            1 <= num_workers,
            counter.active() == 0,
            topo.num_workers() == num_workers as nat,
            order.to_multiset().add(topo.total().to_multiset())
                == initial_view.to_multiset().add(pushes_flat(job, order).to_multiset()),
            ordered_discovery(job, initial_view, order),
            concat_all(parts@.map_values(|v: Vec<OUT>| v@)).to_multiset() == outputs_of(
                job,
                order,
            ),
            concat_all(parts_err@.map_values(|v: Vec<E>| v@)).to_multiset() == errors_of(
                job,
                order,
            ),
            order.len() + pending_weight(job, topo.total()) == pending_weight(job, initial_view),
            w > 0 ==> topo.all_empty(),
        decreases num_workers - w,
    {
        let mut backoff = BackoffPolicy::new();
        let mut wr: Vec<OUT> = Vec::new();
        let mut we: Vec<E> = Vec::new();
        let ghost parts_view = concat_all(parts@.map_values(|v: Vec<OUT>| v@));
        let ghost parts_err_view = concat_all(parts_err@.map_values(|v: Vec<E>| v@));
        let mut turn_done = false;
        while !turn_done
            invariant
                counter.active() == 0,
                w < num_workers,
                topo.num_workers() == num_workers as nat,
                order.to_multiset().add(topo.total().to_multiset())
                    == initial_view.to_multiset().add(pushes_flat(job, order).to_multiset()),
                ordered_discovery(job, initial_view, order),
                (parts_view + wr@).to_multiset() == outputs_of(job, order),
                (parts_err_view + we@).to_multiset() == errors_of(job, order),
                order.len() + pending_weight(job, topo.total()) == pending_weight(
                    job,
                    initial_view,
                ),
                turn_done ==> topo.all_empty(),
            decreases (if turn_done { 0int } else { 1int }),
        {
            let tok = counter.take_token();
            let mut done = false;
            while !done
                invariant
                    counter.active() == 1,
                    w < num_workers,
                    topo.num_workers() == num_workers as nat,
                    order.to_multiset().add(topo.total().to_multiset())
                        == initial_view.to_multiset().add(pushes_flat(job, order).to_multiset()),
                    ordered_discovery(job, initial_view, order),
                    (parts_view + wr@).to_multiset() == outputs_of(job, order),
                    (parts_err_view + we@).to_multiset() == errors_of(job, order),
                    order.len() + pending_weight(job, topo.total()) == pending_weight(
                        job,
                        initial_view,
                    ),
                    done ==> topo.all_empty(),
                decreases pending_weight(job, topo.total()), (if done { 0int } else { 1int }),
            {
                let ghost topo_pre = topo;
                let ghost order0 = order;
                let ghost pw_start = pending_weight(job, topo_pre.total());
                let found = find_task(&mut topo, w, num_workers);
                match found {
                    None => {
                        done = true;
                    },
                    Some(item) => {
                        backoff.reset();
                        let ghost item_g = item;
                        proof {
                            lemma_pending_weight_insert(job, topo_pre.total(), topo.total(), item_g);
                        }
                        let ghost pw1 = pending_weight(job, topo.total());
                        let mut handle = PushHandle::new();
                        let res = job.process(item, &mut handle);
                        proof {
                            assert(handle@ =~= job.pushes_of(item_g));
                            order = order0.push(item_g);
                            lemma_pushes_flat_push(job, order0, item_g);
                            lemma_outputs_push(job, order0, item_g);
                            lemma_errors_push(job, order0, item_g);
                            lemma_seq_add_ms_counts(pushes_flat(job, order0), job.pushes_of(item_g));
                            assert(order0.push(item_g).to_multiset() =~= order0.to_multiset().insert(
                                item_g,
                            ));
                            assert(topo_pre.total().to_multiset().count(item_g) > 0);
                            // the new prefix only consumes what was available
                            assert forall|k: int|
                                0 < k <= order.len() implies #[trigger] order.subrange(
                                0,
                                k,
                            ).to_multiset().subset_of(
                                initial_view.to_multiset().add(
                                    pushes_flat(job, order.subrange(0, k - 1)).to_multiset(),
                                ),
                            ) by {
                                if k <= order0.len() {
                                    assert(order.subrange(0, k) =~= order0.subrange(0, k));
                                    assert(order.subrange(0, k - 1) =~= order0.subrange(0, k - 1));
                                    assert(order0.subrange(0, k).to_multiset().subset_of(
                                        initial_view.to_multiset().add(
                                            pushes_flat(job, order0.subrange(0, k - 1)).to_multiset(),
                                        ),
                                    ));
                                } else {
                                    assert(order.subrange(0, k) =~= order);
                                    assert(order.subrange(0, k - 1) =~= order0);
                                    assert forall|e: IN|
                                        order.to_multiset().count(e)
                                            <= initial_view.to_multiset().add(
                                            pushes_flat(job, order0).to_multiset(),
                                        ).count(e) by {
                                        assert(order.to_multiset().count(e) == order0.to_multiset().add(
                                            Multiset::singleton(item_g),
                                        ).count(e));
                                        assert(order0.to_multiset().add(
                                            topo_pre.total().to_multiset(),
                                        ).count(e) == initial_view.to_multiset().add(
                                            pushes_flat(job, order0).to_multiset(),
                                        ).count(e));
                                    }
                                }
                            }
                        }
                        let mut news = handle.into_items();
                        proof {
                            assert forall|e: IN|
                                order.to_multiset().add(topo.total().to_multiset()).add(
                                    news@.to_multiset(),
                                ).count(e) == initial_view.to_multiset().add(
                                pushes_flat(job, order).to_multiset(),
                            ).count(e) by {
                                assert(order.to_multiset().count(e) == order0.to_multiset().add(
                                    Multiset::singleton(item_g),
                                ).count(e));
                                assert(topo.total().to_multiset().insert(item_g).count(e)
                                    == topo.total().to_multiset().add(
                                    Multiset::singleton(item_g),
                                ).count(e));
                                assert(order0.to_multiset().add(
                                    topo_pre.total().to_multiset(),
                                ).count(e) == initial_view.to_multiset().add(
                                    pushes_flat(job, order0).to_multiset(),
                                ).count(e));
                                assert(pushes_flat(job, order).to_multiset().count(e) == pushes_flat(
                                    job,
                                    order0,
                                ).to_multiset().count(e) + job.pushes_of(item_g).to_multiset().count(
                                    e,
                                ));
                            }
                            assert(order.to_multiset().add(topo.total().to_multiset()).add(
                                news@.to_multiset(),
                            ) =~= initial_view.to_multiset().add(
                                pushes_flat(job, order).to_multiset(),
                            ));
                        }
                        while news.len() > 0
                            invariant
                                w < num_workers,
                                topo.num_workers() == num_workers as nat,
                                order.to_multiset().add(topo.total().to_multiset()).add(
                                    news@.to_multiset(),
                                ) == initial_view.to_multiset().add(
                                    pushes_flat(job, order).to_multiset(),
                                ),
                                pending_weight(job, topo.total()) + pending_weight(job, news@) == pw1
                                    + pending_weight(job, job.pushes_of(item_g)),
                            decreases news@.len(),
                        {
                            let ghost topo_mid = topo;
                            let ghost news0 = news@;
                            let task = news.remove(0);
                            topo.push_local(w, task);
                            proof {
                                lemma_total_after_push(
                                    topo_mid.injector_items(),
                                    topo_mid.locals_view(),
                                    topo.locals_view(),
                                    w as int,
                                    task,
                                );
                                lemma_pending_weight_insert(
                                    job,
                                    topo.total(),
                                    topo_mid.total(),
                                    task,
                                );
                                lemma_pending_weight_remove(job, news0, 0);
                                assert(news@ =~= news0.remove(0));
                                to_multiset_remove(news0, 0);
                                assert(news0.contains(task)) by {
                                    assert(news0[0] == task);
                                }
                                assert forall|e: IN|
                                    order.to_multiset().add(topo.total().to_multiset()).add(
                                        news@.to_multiset(),
                                    ).count(e) == initial_view.to_multiset().add(
                                    pushes_flat(job, order).to_multiset(),
                                ).count(e) by {
                                    assert(topo.total().to_multiset().count(e)
                                        == topo_mid.total().to_multiset().add(
                                        Multiset::singleton(task),
                                    ).count(e));
                                    assert(news@.to_multiset().count(e)
                                        == news0.to_multiset().sub(Multiset::singleton(task)).count(e));
                                    assert(news0.to_multiset().count(task) > 0);
                                }
                            }
                        }
                        proof {
                            assert(news@ =~= Seq::<IN>::empty());
                            assert(pending_weight(job, news@) == 0);
                            job.pushes_shrink(item_g);
                            lemma_weight_sum_all_small(
                                job,
                                job.pushes_of(item_g),
                                job.rank_of(item_g),
                            );
                            assert(weight(job, item_g) == 1 + pending_weight(
                                job,
                                job.pushes_of(item_g),
                            ));
                            assert(pending_weight(job, topo.total()) + 1 == pw_start);
                        }
                        match res {
                            Ok(opt) => match opt {
                                Some(v) => {
                                    let ghost wr0 = wr@;
                                    wr.push(v);
                                    proof {
                                        lemma_seq_add_ms_counts(parts_view, wr0);
                                        lemma_seq_add_ms_counts(parts_view, wr@);
                                        assert forall|e: OUT|
                                            (parts_view + wr@).to_multiset().count(e) == outputs_of(
                                            job,
                                            order,
                                        ).count(e) by {
                                            assert(wr@.to_multiset().count(e) == wr0.to_multiset().insert(
                                                v,
                                            ).count(e));
                                            assert(wr0.to_multiset().insert(v).count(e)
                                                == wr0.to_multiset().add(
                                                Multiset::singleton(v),
                                            ).count(e));
                                            assert(outputs_of(job, order).count(e) == outputs_of(
                                                job,
                                                order0,
                                            ).add(Multiset::singleton(v)).count(e));
                                        }
                                        assert((parts_view + wr@).to_multiset() =~= outputs_of(
                                            job,
                                            order,
                                        ));
                                    }
                                },
                                None => {},
                            },
                            Err(e) => {
                                let ghost e_g = e;
                                let ghost we0 = we@;
                                we.push(e);
                                proof {
                                    lemma_seq_add_ms_counts(parts_err_view, we0);
                                    lemma_seq_add_ms_counts(parts_err_view, we@);
                                    assert forall|x: E|
                                        (parts_err_view + we@).to_multiset().count(x) == errors_of(
                                        job,
                                        order,
                                    ).count(x) by {
                                        assert(we@.to_multiset().count(x) == we0.to_multiset().insert(
                                            e_g,
                                        ).count(x));
                                        assert(we0.to_multiset().insert(e_g).count(x)
                                            == we0.to_multiset().add(
                                            Multiset::singleton(e_g),
                                        ).count(x));
                                        assert(errors_of(job, order).count(x) == errors_of(
                                            job,
                                            order0,
                                        ).add(Multiset::singleton(e_g)).count(x));
                                    }
                                    assert((parts_err_view + we@).to_multiset() =~= errors_of(
                                        job,
                                        order,
                                    ));
                                }
                            },
                        }
                    },
                }
            }
            tok.release(&mut counter);
            // The quiescence check of the termination protocol: the worker
            // leaves its loop only on a zero counter reading, and otherwise
            // backs off before looking for work again.
            if counter.is_zero() {
                turn_done = true;
            } else {
                backoff.snooze();
            }
        }
        let ghost parts0 = parts@.map_values(|v: Vec<OUT>| v@);
        parts.push(wr);
        proof {
            assert(parts@.map_values(|v: Vec<OUT>| v@) =~= parts0.push(wr@));
            lemma_concat_all_push(parts0, wr@);
        }
        let ghost parts_err0 = parts_err@.map_values(|v: Vec<E>| v@);
        parts_err.push(we);
        proof {
            assert(parts_err@.map_values(|v: Vec<E>| v@) =~= parts_err0.push(we@));
            lemma_concat_all_push(parts_err0, we@);
        }
        w = w + 1;
    }
    proof {
        assert forall|i: int|
            0 <= i < topo.locals_view().len() implies #[trigger] topo.locals_view()[i].len()
            == 0 by {
            assert(topo.local_items(i).len() == 0);
        }
        lemma_concat_all_empty(topo.locals_view());
        assert(topo.total() =~= Seq::<IN>::empty());
        assert forall|e: IN|
            order.to_multiset().count(e) == initial_view.to_multiset().add(
            pushes_flat(job, order).to_multiset(),
        ).count(e) by {
            assert(!Seq::<IN>::empty().contains(e));
            assert(topo.total().to_multiset().count(e) == 0);
            assert(order.to_multiset().add(topo.total().to_multiset()).count(e)
                == initial_view.to_multiset().add(pushes_flat(job, order).to_multiset()).count(e));
        }
        assert(order.to_multiset() =~= initial_view.to_multiset().add(
            pushes_flat(job, order).to_multiset(),
        ));
        assert(valid_run(job, initial_view, order));
    }
    let out = merge_outputs(parts);
    let errs = merge_outputs(parts_err);
    proof {
        assert(pending_weight(job, Seq::<IN>::empty()) == 0);
        assert(order.len() == pending_weight(job, initial_view));
        assert(valid_run(job, initial_view, order) && order.len() == pending_weight(
            job,
            initial_view,
        ) && out@.to_multiset() == outputs_of(job, order) && errs@.to_multiset() == errors_of(
            job,
            order,
        ));
        if initial_view.len() == 0 {
            assert(initial_view =~= Seq::<IN>::empty());
            lemma_empty_input(job, order);
            assert(outputs_of(job, order) == Multiset::<OUT>::empty());
            assert(out@.to_multiset().len() == 0);
            assert(out@.len() == 0);
            assert(errors_of(job, order) == Multiset::<E>::empty());
            assert(errs@.to_multiset().len() == 0);
            assert(errs@.len() == 0);
        }
    }
    (out, errs)
}

/// Walks the task graph spanned by the job contract from the initial items
/// to completion and returns all non-empty outputs, unordered. Errors from
/// the job are swallowed; [`walk_strict`] surfaces them instead.
///
/// The run is finite by contract: the discovery order behind the result
/// has exactly `pending_weight(initial)` items — the size of the tree the
/// seed spans — and by [`lemma_runs_agree`] every complete run of the same
/// job and seed has that length.
pub fn walk<IN, OUT, E, J: GraphJob<IN, OUT, E>>(
    initial: Vec<IN>,
    num_workers: usize,
    job: J,
) -> (out: Vec<OUT>)
    requires
        1 <= num_workers,
    ensures
        exists|order: Seq<IN>|
            #[trigger] valid_run(&job, initial@, order) && order.len() == pending_weight(
                &job,
                initial@,
            ) && out@.to_multiset() == outputs_of(&job, order),
        initial@.len() == 0 ==> out@.len() == 0,
{
    let ghost initial_view = initial@;
    let r = walk_engine(initial, num_workers, &job);
    proof {
        let order = choose|order: Seq<IN>|
            #[trigger] valid_run(&job, initial_view, order) && order.len() == pending_weight(
                &job,
                initial_view,
            ) && r.0@.to_multiset() == outputs_of(&job, order) && r.1@.to_multiset() == errors_of(
                &job,
                order,
            );
        assert(valid_run(&job, initial_view, order) && order.len() == pending_weight(
            &job,
            initial_view,
        ) && r.0@.to_multiset() == outputs_of(&job, order));
    }
    r.0
}

/// Like [`walk`], but surfaces what the baseline swallows: alongside the
/// outputs it returns every error the job yielded over the same run, also
/// unordered.
pub fn walk_strict<IN, OUT, E, J: GraphJob<IN, OUT, E>>(
    initial: Vec<IN>,
    num_workers: usize,
    job: J,
) -> (r: (Vec<OUT>, Vec<E>))
    requires
        1 <= num_workers,
    ensures
        exists|order: Seq<IN>|
            #[trigger] valid_run(&job, initial@, order) && order.len() == pending_weight(
                &job,
                initial@,
            ) && r.0@.to_multiset() == outputs_of(&job, order) && r.1@.to_multiset() == errors_of(
                &job,
                order,
            ),
        initial@.len() == 0 ==> r.0@.len() == 0 && r.1@.len() == 0,
{
    walk_engine(initial, num_workers, &job)
}


/// Error for a configuration the scheduler rejects.
#[derive(Clone, Copy, Debug, PartialEq, Eq, Structural)]
pub enum ConfigError {
    ZeroWorkers,
}

/// Like [`walk`], but rejects an invalid worker count with a configuration
/// error instead of ruling it out: zero workers would leave a non-empty
/// seed with nobody to drain it.
pub fn walk_checked<IN, OUT, E, J: GraphJob<IN, OUT, E>>(
    initial: Vec<IN>,
    num_workers: usize,
    job: J,
) -> (r: Result<Vec<OUT>, ConfigError>)
    ensures
        num_workers == 0 <==> r is Err,
        r matches Err(e) ==> e == ConfigError::ZeroWorkers,
        r matches Ok(out) ==> exists|order: Seq<IN>|
            #[trigger] valid_run(&job, initial@, order) && out@.to_multiset() == outputs_of(
                &job,
                order,
            ),
{
    if num_workers == 0 {
        Err(ConfigError::ZeroWorkers)
    } else {
        Ok(walk(initial, num_workers, job))
    }
}

/// The discoveries over two concatenated orders are the discoveries of the
/// first followed by those of the second.
proof fn lemma_pushes_flat_concat<IN, OUT, E, J: GraphJob<IN, OUT, E>>(
    job: &J,
    a: Seq<IN>,
    b: Seq<IN>,
)
    ensures
        pushes_flat(job, a + b) == pushes_flat(job, a) + pushes_flat(job, b),
    decreases b.len(),
{
    if b.len() == 0 {
        assert(a + b =~= a);
        assert(pushes_flat(job, b) == Seq::<IN>::empty());
        assert(pushes_flat(job, a) + pushes_flat(job, b) =~= pushes_flat(job, a));
    } else {
        assert((a + b).drop_last() =~= a + b.drop_last());
        assert((a + b).last() == b.last());
        lemma_pushes_flat_concat(job, a, b.drop_last());
        assert(pushes_flat(job, a + b) == (pushes_flat(job, a) + pushes_flat(job, b.drop_last()))
            + job.pushes_of(b.last()));
        assert(pushes_flat(job, a + b) =~= pushes_flat(job, a) + pushes_flat(job, b));
    }
}

/// Taking one item out of an order takes exactly its discoveries out of the
/// flattened discovery sequence, counted as a multiset.
proof fn lemma_pushes_flat_remove<IN, OUT, E, J: GraphJob<IN, OUT, E>>(
    job: &J,
    items: Seq<IN>,
    i: int,
)
    requires
        0 <= i < items.len(),
    ensures
        forall|e: IN| #[trigger] pushes_flat(job, items.remove(i)).to_multiset().count(e)
            + job.pushes_of(items[i]).to_multiset().count(e) == pushes_flat(
            job,
            items,
        ).to_multiset().count(e),
{
    let a = items.subrange(0, i);
    let m = seq![items[i]];
    let b = items.subrange(i + 1, items.len() as int);
    assert(items =~= (a + m) + b);
    assert(items.remove(i) =~= a + b);
    lemma_pushes_flat_concat(job, a + m, b);
    lemma_pushes_flat_concat(job, a, m);
    lemma_pushes_flat_concat(job, a, b);
    assert(m.drop_last() =~= Seq::<IN>::empty());
    assert(pushes_flat(job, Seq::<IN>::empty()) == Seq::<IN>::empty());
    assert(pushes_flat(job, m) == Seq::<IN>::empty() + job.pushes_of(items[i]));
    assert(pushes_flat(job, m) =~= job.pushes_of(items[i]));
    lemma_seq_add_ms_counts(pushes_flat(job, a + m), pushes_flat(job, b));
    lemma_seq_add_ms_counts(pushes_flat(job, a), pushes_flat(job, m));
    lemma_seq_add_ms_counts(pushes_flat(job, a), pushes_flat(job, b));
}

/// An order that consumes no more occurrences of any item discovers no more
/// occurrences of any item either.
proof fn lemma_pushes_flat_monotone<IN, OUT, E, J: GraphJob<IN, OUT, E>>(
    job: &J,
    s1: Seq<IN>,
    s2: Seq<IN>,
)
    requires
        s1.to_multiset().subset_of(s2.to_multiset()),
    ensures
        pushes_flat(job, s1).to_multiset().subset_of(pushes_flat(job, s2).to_multiset()),
    decreases s1.len(),
{
    if s1.len() == 0 {
        assert(pushes_flat(job, s1) == Seq::<IN>::empty());
        assert forall|e: IN|
            pushes_flat(job, s1).to_multiset().count(e) <= pushes_flat(
                job,
                s2,
            ).to_multiset().count(e) by {
            assert(!Seq::<IN>::empty().contains(e));
        }
    } else {
        let x = s1.last();
        let s1p = s1.drop_last();
        assert(s1.to_multiset().count(x) > 0) by {
            assert(s1.contains(x));
        }
        assert(s2.to_multiset().count(x) > 0);
        assert(s2.contains(x));
        let i = choose|i: int| 0 <= i < s2.len() && s2[i] == x;
        let s2p = s2.remove(i);
        to_multiset_remove(s2, i);
        assert(s1p =~= s1.remove(s1.len() - 1));
        to_multiset_remove(s1, s1.len() - 1);
        assert forall|e: IN| s1p.to_multiset().count(e) <= s2p.to_multiset().count(e) by {
            assert(s1.to_multiset().count(e) <= s2.to_multiset().count(e));
        }
        lemma_pushes_flat_monotone(job, s1p, s2p);
        lemma_pushes_flat_remove(job, s2, i);
        assert(s1p.push(x) =~= s1);
        lemma_pushes_flat_push(job, s1p, x);
        lemma_seq_add_ms_counts(pushes_flat(job, s1p), job.pushes_of(x));
        assert forall|e: IN|
            pushes_flat(job, s1).to_multiset().count(e) <= pushes_flat(
                job,
                s2,
            ).to_multiset().count(e) by {
            assert(pushes_flat(job, s1).to_multiset().count(e) == pushes_flat(
                job,
                s1p,
            ).to_multiset().count(e) + job.pushes_of(x).to_multiset().count(e));
            assert(pushes_flat(job, s2p).to_multiset().count(e) + job.pushes_of(
                x,
            ).to_multiset().count(e) == pushes_flat(job, s2).to_multiset().count(e));
            assert(pushes_flat(job, s1p).to_multiset().count(e) <= pushes_flat(
                job,
                s2p,
            ).to_multiset().count(e));
        }
    }
}

/// Every prefix of an order that consumes items as they become available is
/// contained in any complete run of the same job and seed.
proof fn lemma_run_dominates<IN, OUT, E, J: GraphJob<IN, OUT, E>>(
    job: &J,
    initial: Seq<IN>,
    o1: Seq<IN>,
    o2: Seq<IN>,
    k: int,
)
    requires
        ordered_discovery(job, initial, o1),
        valid_run(job, initial, o2),
        0 <= k <= o1.len(),
    ensures
        o1.subrange(0, k).to_multiset().subset_of(o2.to_multiset()),
    decreases k,
{
    if k == 0 {
        assert forall|e: IN|
            o1.subrange(0, 0).to_multiset().count(e) <= o2.to_multiset().count(e) by {
            assert(o1.subrange(0, 0) =~= Seq::<IN>::empty());
            assert(!Seq::<IN>::empty().contains(e));
            assert(Seq::<IN>::empty().to_multiset().count(e) == 0);
        }
    } else {
        lemma_run_dominates(job, initial, o1, o2, k - 1);
        lemma_pushes_flat_monotone(job, o1.subrange(0, k - 1), o2);
        assert(o1.subrange(0, k).to_multiset().subset_of(
            initial.to_multiset().add(pushes_flat(job, o1.subrange(0, k - 1)).to_multiset()),
        )) by {
            assert(0 < k <= o1.len());
        }
        assert forall|e: IN|
            o1.subrange(0, k).to_multiset().count(e) <= o2.to_multiset().count(e) by {
            assert(o1.subrange(0, k).to_multiset().count(e) <= initial.to_multiset().add(
                pushes_flat(job, o1.subrange(0, k - 1)).to_multiset(),
            ).count(e));
            assert(pushes_flat(job, o1.subrange(0, k - 1)).to_multiset().count(e) <= pushes_flat(
                job,
                o2,
            ).to_multiset().count(e));
            assert(o2.to_multiset().count(e) == initial.to_multiset().add(
                pushes_flat(job, o2).to_multiset(),
            ).count(e));
        }
    }
}

/// The outputs over two concatenated orders combine.
proof fn lemma_outputs_concat<IN, OUT, E, J: GraphJob<IN, OUT, E>>(job: &J, a: Seq<IN>, b: Seq<IN>)
    ensures
        outputs_of(job, a + b) == outputs_of(job, a).add(outputs_of(job, b)),
    decreases b.len(),
{
    if b.len() == 0 {
        assert(a + b =~= a);
        assert(outputs_of(job, b) == Multiset::<OUT>::empty());
        assert(outputs_of(job, a + b) =~= outputs_of(job, a).add(outputs_of(job, b)));
    } else {
        assert((a + b).drop_last() =~= a + b.drop_last());
        assert((a + b).last() == b.last());
        lemma_outputs_concat(job, a, b.drop_last());
        assert(outputs_of(job, a + b) =~= outputs_of(job, a).add(outputs_of(job, b)));
    }
}

/// The outputs of a job over an order depend only on which items were
/// processed how often, not on their arrangement.
proof fn lemma_outputs_permutation<IN, OUT, E, J: GraphJob<IN, OUT, E>>(
    job: &J,
    s1: Seq<IN>,
    s2: Seq<IN>,
)
    requires
        s1.to_multiset() == s2.to_multiset(),
    ensures
        outputs_of(job, s1) == outputs_of(job, s2),
    decreases s1.len(),
{
    if s1.len() == 0 {
        assert(s1.to_multiset().len() == 0);
        assert(s2.to_multiset().len() == 0);
        assert(s2.len() == 0);
    } else {
        let x = s1.last();
        assert(s1.contains(x));
        assert(s2.to_multiset().count(x) > 0);
        assert(s2.contains(x));
        let i = choose|i: int| 0 <= i < s2.len() && s2[i] == x;
        let s1p = s1.drop_last();
        let s2a = s2.subrange(0, i);
        let s2b = s2.subrange(i + 1, s2.len() as int);
        assert(s2 =~= (s2a + seq![x]) + s2b);
        assert(s2.remove(i) =~= s2a + s2b);
        assert(s1p =~= s1.remove(s1.len() - 1));
        to_multiset_remove(s1, s1.len() - 1);
        to_multiset_remove(s2, i);
        lemma_outputs_permutation(job, s1p, s2.remove(i));
        lemma_outputs_concat(job, s2a + seq![x], s2b);
        lemma_outputs_concat(job, s2a, seq![x]);
        lemma_outputs_concat(job, s2a, s2b);
        assert(seq![x].drop_last() =~= Seq::<IN>::empty());
        assert(outputs_of(job, Seq::<IN>::empty()) == Multiset::<OUT>::empty());
        assert(s1p.push(x) =~= s1);
        lemma_outputs_push(job, s1p, x);
        assert forall|e: OUT| outputs_of(job, s1).count(e) == outputs_of(job, s2).count(e) by {
            assert(outputs_of(job, seq![x]) == (match job.result_of(x) {
                Ok(Some(out)) => Multiset::<OUT>::empty().insert(out),
                _ => Multiset::<OUT>::empty(),
            }));
            match job.result_of(x) {
                Ok(Some(out)) => {
                    assert(outputs_of(job, s1).count(e) == outputs_of(job, s1p).add(
                        Multiset::singleton(out),
                    ).count(e));
                    assert(outputs_of(job, seq![x]).count(e) == Multiset::<OUT>::empty().add(
                        Multiset::singleton(out),
                    ).count(e));
                },
                _ => {},
            }
        }
        assert(outputs_of(job, s1) =~= outputs_of(job, s2));
    }
}

/// Worker-count invariance: any two complete runs of one job from one seed
/// process the same items the same number of times and yield the same
/// outputs. The collection [`walk`] returns is therefore fixed, as a
/// multiset, by the job and the seed alone — however many workers took part
/// and however the items were interleaved.
pub proof fn lemma_runs_agree<IN, OUT, E, J: GraphJob<IN, OUT, E>>(
    job: &J,
    initial: Seq<IN>,
    o1: Seq<IN>,
    o2: Seq<IN>,
)
    requires
        valid_run(job, initial, o1),
        valid_run(job, initial, o2),
    ensures
        o1.to_multiset() == o2.to_multiset(),
        o1.len() == o2.len(),
        outputs_of(job, o1) == outputs_of(job, o2),
{
    lemma_run_dominates(job, initial, o1, o2, o1.len() as int);
    lemma_run_dominates(job, initial, o2, o1, o2.len() as int);
    assert(o1.subrange(0, o1.len() as int) =~= o1);
    assert(o2.subrange(0, o2.len() as int) =~= o2);
    assert(o1.to_multiset() =~= o2.to_multiset());
    assert(o1.len() == o1.to_multiset().len());
    assert(o2.len() == o2.to_multiset().len());
    lemma_outputs_permutation(job, o1, o2);
}

/// Empty-input law: a run seeded with nothing processes nothing, so the
/// walk returns an empty collection and the job is never invoked.
pub proof fn lemma_empty_input<IN, OUT, E, J: GraphJob<IN, OUT, E>>(job: &J, order: Seq<IN>)
    requires
        valid_run(job, Seq::<IN>::empty(), order),
    ensures
        order == Seq::<IN>::empty(),
{
    if order.len() > 0 {
        assert(order.subrange(0, 1).to_multiset().subset_of(
            Seq::<IN>::empty().to_multiset().add(
                pushes_flat(job, order.subrange(0, 1 - 1)).to_multiset(),
            ),
        ));
        assert(order.subrange(0, 0) =~= Seq::<IN>::empty());
        assert(pushes_flat(job, Seq::<IN>::empty()) == Seq::<IN>::empty());
        let x = order[0];
        assert(order.subrange(0, 1) =~= seq![x]);
        assert(seq![x].to_multiset().count(x) > 0) by {
            assert(seq![x][0] == x);
            assert(seq![x].contains(x));
        }
        assert(!Seq::<IN>::empty().contains(x));
        assert(Seq::<IN>::empty().to_multiset().count(x) == 0);
        assert(false);
    }
    assert(order =~= Seq::<IN>::empty());
}

/// A chain of discoveries: each link was pushed while processing the link
/// before it.
pub open spec fn discovery_chain<IN, OUT, E, J: GraphJob<IN, OUT, E>>(
    job: &J,
    initial: Seq<IN>,
    chain: Seq<IN>,
) -> bool {
    &&& chain.len() > 0
    &&& initial.contains(chain[0])
    &&& forall|i: int|
        0 < i < chain.len() ==> job.pushes_of(chain[i - 1]).contains(#[trigger] chain[i])
}

/// Completeness: every item reachable from the initial seed through a chain
/// of discoveries is processed in every complete run; together with the
/// exactly-once equation of [`valid_run`] the run processes the reachable
/// items and nothing else.
pub proof fn lemma_completeness<IN, OUT, E, J: GraphJob<IN, OUT, E>>(
    job: &J,
    initial: Seq<IN>,
    order: Seq<IN>,
    chain: Seq<IN>,
)
    requires
        valid_run(job, initial, order),
        discovery_chain(job, initial, chain),
    ensures
        order.contains(chain.last()),
    decreases chain.len(),
{
    if chain.len() == 1 {
        assert(initial.to_multiset().count(chain[0]) > 0);
        assert(order.to_multiset().count(chain[0]) == initial.to_multiset().add(
            pushes_flat(job, order).to_multiset(),
        ).count(chain[0]));
        assert(order.to_multiset().count(chain.last()) > 0);
    } else {
        let prev = chain[chain.len() - 2];
        assert(chain.drop_last().last() == prev);
        assert forall|i: int|
            0 < i < chain.drop_last().len() implies job.pushes_of(
            chain.drop_last()[i - 1],
        ).contains(#[trigger] chain.drop_last()[i]) by {
            assert(chain.drop_last()[i] == chain[i]);
            assert(chain.drop_last()[i - 1] == chain[i - 1]);
        }
        lemma_completeness(job, initial, order, chain.drop_last());
        assert(order.contains(prev));
        let i = choose|i: int| 0 <= i < order.len() && order[i] == prev;
        lemma_pushes_flat_remove(job, order, i);
        let x = chain.last();
        assert(job.pushes_of(prev).contains(x));
        assert(job.pushes_of(prev).to_multiset().count(x) > 0);
        assert(pushes_flat(job, order).to_multiset().count(x) > 0) by {
            assert(pushes_flat(job, order.remove(i)).to_multiset().count(x) + job.pushes_of(
                order[i],
            ).to_multiset().count(x) == pushes_flat(job, order).to_multiset().count(x));
        }
        assert(order.to_multiset().count(x) == initial.to_multiset().add(
            pushes_flat(job, order).to_multiset(),
        ).count(x));
        assert(order.to_multiset().count(x) > 0);
    }
}

/// Somewhere in the order, some item discovered this one.
proof fn lemma_pushes_flat_witness<IN, OUT, E, J: GraphJob<IN, OUT, E>>(
    job: &J,
    s: Seq<IN>,
    x: IN,
)
    requires
        pushes_flat(job, s).to_multiset().count(x) > 0,
    ensures
        exists|j: int| 0 <= j < s.len() && #[trigger] job.pushes_of(s[j]).contains(x),
    decreases s.len(),
{
    assert(s.len() > 0) by {
        if s.len() == 0 {
            assert(pushes_flat(job, s) == Seq::<IN>::empty());
            assert(!Seq::<IN>::empty().contains(x));
        }
    }
    lemma_seq_add_ms_counts(pushes_flat(job, s.drop_last()), job.pushes_of(s.last()));
    if job.pushes_of(s.last()).to_multiset().count(x) > 0 {
        let j = s.len() - 1;
        assert(job.pushes_of(s[j]).contains(x));
    } else {
        lemma_pushes_flat_witness(job, s.drop_last(), x);
        let j = choose|j: int| 0 <= j < s.drop_last().len() && #[trigger] job.pushes_of(
            s.drop_last()[j],
        ).contains(x);
        assert(s.drop_last()[j] == s[j]);
        assert(job.pushes_of(s[j]).contains(x));
    }
}

/// The converse of [`lemma_completeness`]: every item a complete run
/// processes is reachable from the initial seed through a chain of
/// discoveries, so the run processes the reachable items and nothing else.
pub proof fn lemma_processed_reachable<IN, OUT, E, J: GraphJob<IN, OUT, E>>(
    job: &J,
    initial: Seq<IN>,
    order: Seq<IN>,
    k: int,
) -> (chain: Seq<IN>)
    requires
        valid_run(job, initial, order),
        0 <= k < order.len(),
    ensures
        discovery_chain(job, initial, chain),
        chain.last() == order[k],
    decreases k,
{
    let prefix = order.subrange(0, k + 1);
    assert(prefix.to_multiset().subset_of(
        initial.to_multiset().add(pushes_flat(job, order.subrange(0, k)).to_multiset()),
    )) by {
        assert(0 < k + 1 <= order.len());
        assert(order.subrange(0, k + 1 - 1) == order.subrange(0, k));
    }
    let x = order[k];
    assert(prefix.to_multiset().count(x) > 0) by {
        assert(prefix[k] == x);
        assert(prefix.contains(x));
    }
    if initial.to_multiset().count(x) > 0 {
        let chain = seq![x];
        assert(initial.contains(x));
        assert(chain.last() == x);
        chain
    } else {
        assert(pushes_flat(job, order.subrange(0, k)).to_multiset().count(x) > 0);
        lemma_pushes_flat_witness(job, order.subrange(0, k), x);
        let j = choose|j: int| 0 <= j < order.subrange(0, k).len() && #[trigger] job.pushes_of(
            order.subrange(0, k)[j],
        ).contains(x);
        assert(order.subrange(0, k)[j] == order[j]);
        let prev_chain = lemma_processed_reachable(job, initial, order, j);
        let chain = prev_chain.push(x);
        assert(chain[0] == prev_chain[0]);
        assert(chain.last() == x);
        assert forall|i: int|
            0 < i < chain.len() implies job.pushes_of(chain[i - 1]).contains(
            #[trigger] chain[i],
        ) by {
            if i < chain.len() - 1 {
                assert(chain[i] == prev_chain[i]);
                assert(chain[i - 1] == prev_chain[i - 1]);
            } else {
                assert(chain[i - 1] == prev_chain.last());
                assert(prev_chain.last() == order[j]);
                assert(chain[i] == x);
            }
        }
        chain
    }
}

} // verus!
