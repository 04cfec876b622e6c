//! What holds of the queue across calls, stated over the multiset of stored
//! pairs that the contracts of `MinMax` speak of.

use crate::order::{
    greatest, is_greatest, is_least, least, lemma_greatest_exists, lemma_least_exists,
    lemma_remove_len, pair_le,
};
use crate::sorted::{
    ascending, descending, lemma_ascending_arranges, lemma_descending_arranges,
    lemma_descending_is_reverse, payloads,
};
use vstd::multiset::*;
use vstd::prelude::*;

verus! {

/// One call that changes a queue by a single entry.
pub enum Step {
    /// `insert(priority, payload)`.
    Insert(i64, i64),
    /// `pop_min()`.
    PopMin,
    /// `pop_max()`.
    PopMax,
}

impl Step {
    /// Whether the step is one of the two pops.
    pub open spec fn is_pop(self) -> bool {
        self is PopMin || self is PopMax
    }
}

/// What a queue holding `m` holds after `step`, as the contracts of
/// `insert`, `pop_min` and `pop_max` give it.
pub open spec fn after(m: Multiset<(i64, i64)>, step: Step) -> Multiset<(i64, i64)> {
    match step {
        Step::Insert(priority, payload) => m.insert((priority, payload)),
        Step::PopMin => if m.len() == 0 {
            m
        } else {
            m.remove(least(m))
        },
        Step::PopMax => if m.len() == 0 {
            m
        } else {
            m.remove(greatest(m))
        },
    }
}

/// What a queue holding `m` holds after `steps`, taken from the first to
/// the last.
pub open spec fn run(m: Multiset<(i64, i64)>, steps: Seq<Step>) -> Multiset<(i64, i64)>
    decreases steps.len(),
{
    if steps.len() == 0 {
        m
    } else {
        after(run(m, steps.drop_last()), steps.last())
    }
}

/// How many of `steps` are inserts.
pub open spec fn inserts(steps: Seq<Step>) -> nat
    decreases steps.len(),
{
    if steps.len() == 0 {
        0
    } else if steps.last().is_pop() {
        inserts(steps.drop_last())
    } else {
        inserts(steps.drop_last()) + 1
    }
}

/// How many of `steps` are pops.
pub open spec fn pops(steps: Seq<Step>) -> nat
    decreases steps.len(),
{
    if steps.len() == 0 {
        0
    } else if steps.last().is_pop() {
        pops(steps.drop_last()) + 1
    } else {
        pops(steps.drop_last())
    }
}

/// No pop among `steps`, made on a queue that starts with `m`, meets an
/// empty queue.
pub open spec fn every_pop_served(m: Multiset<(i64, i64)>, steps: Seq<Step>) -> bool {
    forall|i: int|
        0 <= i < steps.len() && (#[trigger] steps[i]).is_pop() ==> run(m, steps.take(i)).len() > 0
}

/// The entry that `peek_min` shows has the least priority of all stored
/// entries, and the entry that `peek_max` shows has the greatest.
pub proof fn lemma_ends_bound_priorities(m: Multiset<(i64, i64)>, e: (i64, i64))
    requires
        m.contains(e),
    ensures
        is_least(least(m), m),
        is_greatest(greatest(m), m),
        least(m).0 <= e.0 <= greatest(m).0,
{
    broadcast use group_multiset_axioms;

    lemma_least_exists(m);
    lemma_greatest_exists(m);
}

/// After `k` inserts and `j` single pops, none of which met an empty queue,
/// the queue holds `k - j` entries more than before; on a new queue, `k - j`
/// entries.
pub proof fn lemma_size_accounting(m: Multiset<(i64, i64)>, steps: Seq<Step>)
    requires
        every_pop_served(m, steps),
    ensures
        pops(steps) <= m.len() + inserts(steps),
        run(m, steps).len() == m.len() + inserts(steps) - pops(steps),
    decreases steps.len(),
{
    broadcast use group_multiset_axioms;

    if steps.len() > 0 {
        let front = steps.drop_last();
        assert forall|i: int| 0 <= i < front.len() && (#[trigger] front[i]).is_pop() implies run(
            m,
            front.take(i),
        ).len() > 0 by {
            assert(steps[i].is_pop());
            assert(front.take(i) =~= steps.take(i));
        }
        lemma_size_accounting(m, front);
        let before = run(m, front);
        if steps.last().is_pop() {
            assert(steps[steps.len() - 1].is_pop());
            assert(steps.take(steps.len() - 1) =~= front);
            lemma_least_exists(before);
            lemma_greatest_exists(before);
            lemma_remove_len(before, least(before));
            lemma_remove_len(before, greatest(before));
        }
    }
}

/// Pops on an empty queue, however many, each meet an empty queue and leave
/// it empty.
pub proof fn lemma_pops_on_empty(steps: Seq<Step>)
    requires
        forall|i: int| 0 <= i < steps.len() ==> (#[trigger] steps[i]).is_pop(),
    ensures
        run(Multiset::empty(), steps) == Multiset::<(i64, i64)>::empty(),
        forall|i: int|
            0 <= i < steps.len() ==> run(Multiset::empty(), #[trigger] steps.take(i)).len() == 0,
    decreases steps.len(),
{
    broadcast use group_multiset_axioms;

    if steps.len() > 0 {
        let front = steps.drop_last();
        assert forall|i: int| 0 <= i < front.len() implies (#[trigger] front[i]).is_pop() by {
            assert(steps[i].is_pop());
        }
        lemma_pops_on_empty(front);
        assert(steps[steps.len() - 1].is_pop());
        assert forall|i: int| 0 <= i < steps.len() implies run(
            Multiset::empty(),
            #[trigger] steps.take(i),
        ).len() == 0 by {
            if i < front.len() {
                assert(front.take(i) =~= steps.take(i));
            } else {
                assert(steps.take(i) =~= front);
            }
        }
    }
}

/// The two sorted readings of a queue: each lists every stored entry once
/// for each time it is stored; the ascending one never steps down in
/// priority, the descending one never steps up; and the descending one is
/// the ascending one read backwards, pair by pair and payload by payload.
pub proof fn lemma_sorted_readings(m: Multiset<(i64, i64)>)
    ensures
        ascending(m).to_multiset() == m,
        descending(m).to_multiset() == m,
        payloads(ascending(m)).len() == m.len(),
        payloads(descending(m)).len() == m.len(),
        forall|i: int, j: int|
            0 <= i < j < ascending(m).len() ==> ascending(m)[i].0 <= ascending(m)[j].0,
        forall|i: int, j: int|
            0 <= i < j < descending(m).len() ==> descending(m)[i].0 >= descending(m)[j].0,
        descending(m) == ascending(m).reverse(),
        payloads(descending(m)) == payloads(ascending(m)).reverse(),
{
    lemma_ascending_arranges(m);
    lemma_descending_arranges(m);
    lemma_descending_is_reverse(m);
    assert forall|i: int, j: int| 0 <= i < j < ascending(m).len() implies ascending(m)[i].0
        <= ascending(m)[j].0 by {
        assert(pair_le(ascending(m)[i], ascending(m)[j]));
    }
    assert forall|i: int, j: int| 0 <= i < j < descending(m).len() implies descending(m)[i].0
        >= descending(m)[j].0 by {
        assert(pair_le(descending(m)[j], descending(m)[i]));
    }
    assert(payloads(ascending(m).reverse()) =~= payloads(ascending(m)).reverse());
}

} // verus!
