//! The queue itself.

use crate::entry::{entries, Entry};
use crate::order::{
    greatest, least, lemma_greatest_unique, lemma_least_unique, lemma_remove_len,
};
use crate::sorted::{
    ascending, descending, is_ascending, is_descending, lemma_ascending_arranges,
    lemma_ascending_step, lemma_ascending_unique, lemma_descending_arranges,
    lemma_descending_step, lemma_descending_unique, payloads,
};
use crate::store::{
    heap_clear, heap_clone, heap_into_vec, heap_into_vec_asc, heap_into_vec_desc, heap_is_empty,
    heap_len, heap_new, heap_order, heap_peek_max, heap_peek_min, heap_pop_max, heap_pop_min,
    heap_push, max_slot,
};
use vstd::multiset::*;
use vstd::prelude::*;
use vstd::seq_lib::*;

verus! {

/// A double-ended priority queue of `(priority, payload)` pairs.
///
/// Its view is the multiset of the pairs it holds. What the queue returns
/// depends on that multiset alone, except for `each`, which follows the
/// order of the backing array, `order()`.
pub struct MinMax {
    heap: min_max_heap::MinMaxHeap<(i64, i64)>,
}

impl View for MinMax {
    type V = Multiset<(i64, i64)>;

    open spec fn view(&self) -> Multiset<(i64, i64)> {
        self.order().to_multiset()
    }
}

impl MinMax {
    /// The stored pairs in the order of the backing array: the root first,
    /// then level by level.
    pub closed spec fn order(&self) -> Seq<(i64, i64)> {
        heap_order(self.heap)
    }

    /// The backing array has one slot for each stored pair.
    pub proof fn lemma_order_len(&self)
        ensures
            self.order().len() == self@.len(),
    {
        to_multiset_len(self.order());
    }

    /// An empty queue.
    pub fn new() -> (h: MinMax)
        ensures
            h.order() == Seq::<(i64, i64)>::empty(),
            h@ == Multiset::<(i64, i64)>::empty(),
    {
        let h = MinMax { heap: heap_new() };
        proof {
            lemma_empty_order(h.order());
        }
        h
    }

    /// Adds one entry. Any priority and any payload is accepted, and an entry
    /// that is already there is stored once more.
    pub fn insert(&mut self, priority: i64, payload: i64)
        ensures
            final(self)@ == old(self)@.insert((priority, payload)),
            final(self)@.len() == old(self)@.len() + 1,
    {
        heap_push(&mut self.heap, (priority, payload));
        proof {
            lemma_insert_len(old(self)@, (priority, payload));
        }
    }

    /// The number of stored entries.
    pub fn size(&self) -> (n: usize)
        ensures
            n == self@.len(),
    {
        proof {
            self.lemma_order_len();
        }
        heap_len(&self.heap)
    }

    /// Whether the queue holds nothing.
    pub fn is_empty(&self) -> (b: bool)
        ensures
            b == (self@.len() == 0),
    {
        proof {
            self.lemma_order_len();
        }
        heap_is_empty(&self.heap)
    }

    /// Discards every entry.
    pub fn clear(&mut self)
        ensures
            final(self).order() == Seq::<(i64, i64)>::empty(),
            final(self)@ == Multiset::<(i64, i64)>::empty(),
    {
        heap_clear(&mut self.heap);
        proof {
            lemma_empty_order(self.order());
        }
    }

    /// The entry of least priority, which stands at the root of the backing
    /// array; among entries of that priority, the one of least payload.
    /// Nothing if the queue is empty. The queue is not changed.
    pub fn peek_min(&self) -> (r: Option<Entry>)
        ensures
            self@.len() == 0 ==> r is None,
            self@.len() > 0 ==> r == Some(Entry::of(least(self@))) && r == Some(
                Entry::of(self.order()[0]),
            ),
            forall|e: (i64, i64)| self@.contains(e) ==> r is Some && r.unwrap().priority <= e.0,
    {
        proof {
            self.lemma_order_len();
            broadcast use group_multiset_axioms;
        }
        match heap_peek_min(&self.heap) {
            Some(p) => {
                proof {
                    lemma_least_unique(p, self@);
                }
                Some(Entry { priority: p.0, payload: p.1 })
            },
            None => None,
        }
    }

    /// The entry of greatest priority; among entries of that priority, the
    /// one of greatest payload. It is the only entry if there is one, the
    /// second of two, and otherwise the greater of the root's two children.
    /// Nothing if the queue is empty. The queue is not changed.
    pub fn peek_max(&self) -> (r: Option<Entry>)
        ensures
            self@.len() == 0 ==> r is None,
            self@.len() > 0 ==> r == Some(Entry::of(greatest(self@))) && r == Some(
                Entry::of(self.order()[max_slot(self.order())]),
            ),
            forall|e: (i64, i64)| self@.contains(e) ==> r is Some && r.unwrap().priority >= e.0,
    {
        proof {
            self.lemma_order_len();
            broadcast use group_multiset_axioms;
        }
        match heap_peek_max(&self.heap) {
            Some(p) => {
                proof {
                    lemma_greatest_unique(p, self@);
                }
                Some(Entry { priority: p.0, payload: p.1 })
            },
            None => None,
        }
    }

    /// Removes and returns the entry that `peek_min` shows: the root. An
    /// empty queue gives nothing and is left as it is.
    pub fn pop_min(&mut self) -> (r: Option<Entry>)
        ensures
            old(self)@.len() == 0 ==> r is None && final(self).order() == old(self).order(),
            old(self)@.len() > 0 ==> r == Some(Entry::of(least(old(self)@))) && r == Some(
                Entry::of(old(self).order()[0]),
            ),
            old(self)@.len() > 0 ==> final(self)@ == old(self)@.remove(least(old(self)@))
                && final(self)@.len() == old(self)@.len() - 1,
    {
        proof {
            self.lemma_order_len();
        }
        match heap_pop_min(&mut self.heap) {
            Some(p) => {
                proof {
                    lemma_least_unique(p, old(self)@);
                    lemma_remove_len(old(self)@, p);
                }
                Some(Entry { priority: p.0, payload: p.1 })
            },
            None => None,
        }
    }

    /// Removes and returns the entry that `peek_max` shows. An empty queue
    /// gives nothing and is left as it is.
    pub fn pop_max(&mut self) -> (r: Option<Entry>)
        ensures
            old(self)@.len() == 0 ==> r is None && final(self).order() == old(self).order(),
            old(self)@.len() > 0 ==> r == Some(Entry::of(greatest(old(self)@))) && r == Some(
                Entry::of(old(self).order()[max_slot(old(self).order())]),
            ),
            old(self)@.len() > 0 ==> final(self)@ == old(self)@.remove(greatest(old(self)@))
                && final(self)@.len() == old(self)@.len() - 1,
    {
        proof {
            self.lemma_order_len();
        }
        match heap_pop_max(&mut self.heap) {
            Some(p) => {
                proof {
                    lemma_greatest_unique(p, old(self)@);
                    lemma_remove_len(old(self)@, p);
                }
                Some(Entry { priority: p.0, payload: p.1 })
            },
            None => None,
        }
    }

    /// Adds every pair of `values`, each as `(priority, payload)`, from the
    /// first to the last.
    pub fn push(&mut self, values: &Vec<(i64, i64)>)
        ensures
            final(self)@ == old(self)@.add(values@.to_multiset()),
            final(self)@.len() == old(self)@.len() + values@.len(),
    {
        let mut i: usize = 0;
        proof {
            broadcast use group_multiset_axioms;

            assert(values@.take(0) =~= Seq::<(i64, i64)>::empty());
            lemma_empty_order(values@.take(0));
            assert(self@ =~= old(self)@.add(values@.take(0).to_multiset()));
        }
        while i < values.len()
            invariant
                0 <= i <= values.len(),
                self@ == old(self)@.add(values@.take(i as int).to_multiset()),
            decreases values.len() - i,
        {
            let pair = values[i];
            self.insert(pair.0, pair.1);
            proof {
                broadcast use group_multiset_axioms;

                assert(values@.take(i + 1) =~= values@.take(i as int).push(values@[i as int]));
                to_multiset_build(values@.take(i as int), values@[i as int]);
                assert(self@ =~= old(self)@.add(values@.take(i + 1).to_multiset()));
            }
            i = i + 1;
        }
        proof {
            broadcast use group_multiset_axioms;

            assert(values@.take(values.len() as int) =~= values@);
            to_multiset_len(values@);
        }
    }

    /// Removes up to `count` entries from the least upwards and returns them
    /// in the order in which they left. It stops early when the queue runs
    /// empty, so `taken(count, size)` entries come out; a `count` of zero or
    /// less takes nothing.
    pub fn pop_min_count(&mut self, count: i32) -> (r: Vec<Entry>)
        ensures
            r@ == entries(
                ascending(old(self)@).take(taken(count as int, old(self)@.len()) as int),
            ),
            final(self)@ == ascending(old(self)@).skip(
                taken(count as int, old(self)@.len()) as int,
            ).to_multiset(),
            final(self)@.len() == old(self)@.len() - taken(count as int, old(self)@.len()),
            taken(count as int, old(self)@.len()) == 0 ==> final(self).order() == old(
                self,
            ).order(),
    {
        let ghost asc = ascending(self@);
        let mut out: Vec<Entry> = Vec::new();
        let mut i: i32 = 0;
        proof {
            lemma_ascending_arranges(self@);
            assert(asc.skip(0) =~= asc);
            assert(out@ =~= entries(asc.take(0)));
        }
        while i < count
            invariant
                0 <= i <= asc.len(),
                i <= count || i == 0,
                is_ascending(asc),
                asc.len() == old(self)@.len(),
                out@ == entries(asc.take(i as int)),
                self@ == asc.skip(i as int).to_multiset(),
                i == 0 ==> self.order() == old(self).order(),
            ensures
                i == taken(count as int, asc.len()),
            decreases count - i,
        {
            proof {
                self.lemma_order_len();
                to_multiset_len(asc.skip(i as int));
            }
            let ghost before = self@;
            match heap_pop_min(&mut self.heap) {
                Some(p) => {
                    proof {
                        lemma_ascending_step(asc, i as int);
                        lemma_least_unique(p, before);
                        lemma_least_unique(asc[i as int], before);
                        assert(asc.take(i + 1) =~= asc.take(i as int).push(asc[i as int]));
                        assert(entries(asc.take(i + 1)) =~= entries(asc.take(i as int)).push(
                            Entry::of(p),
                        ));
                    }
                    out.push(Entry { priority: p.0, payload: p.1 });
                },
                None => {
                    break ;
                },
            }
            i = i + 1;
        }
        proof {
            to_multiset_len(asc.skip(i as int));
        }
        out
    }

    /// Removes up to `count` entries from the greatest downwards and returns
    /// them in the order in which they left. It stops early when the queue
    /// runs empty, so `taken(count, size)` entries come out; a `count` of
    /// zero or less takes nothing.
    pub fn pop_max_count(&mut self, count: i32) -> (r: Vec<Entry>)
        ensures
            r@ == entries(
                descending(old(self)@).take(taken(count as int, old(self)@.len()) as int),
            ),
            final(self)@ == descending(old(self)@).skip(
                taken(count as int, old(self)@.len()) as int,
            ).to_multiset(),
            final(self)@.len() == old(self)@.len() - taken(count as int, old(self)@.len()),
            taken(count as int, old(self)@.len()) == 0 ==> final(self).order() == old(
                self,
            ).order(),
    {
        let ghost desc = descending(self@);
        let mut out: Vec<Entry> = Vec::new();
        let mut i: i32 = 0;
        proof {
            lemma_descending_arranges(self@);
            assert(desc.skip(0) =~= desc);
            assert(out@ =~= entries(desc.take(0)));
        }
        while i < count
            invariant
                0 <= i <= desc.len(),
                i <= count || i == 0,
                is_descending(desc),
                desc.len() == old(self)@.len(),
                out@ == entries(desc.take(i as int)),
                self@ == desc.skip(i as int).to_multiset(),
                i == 0 ==> self.order() == old(self).order(),
            ensures
                i == taken(count as int, desc.len()),
            decreases count - i,
        {
            proof {
                self.lemma_order_len();
                to_multiset_len(desc.skip(i as int));
            }
            let ghost before = self@;
            match heap_pop_max(&mut self.heap) {
                Some(p) => {
                    proof {
                        lemma_descending_step(desc, i as int);
                        lemma_greatest_unique(p, before);
                        lemma_greatest_unique(desc[i as int], before);
                        assert(desc.take(i + 1) =~= desc.take(i as int).push(desc[i as int]));
                        assert(entries(desc.take(i + 1)) =~= entries(desc.take(i as int)).push(
                            Entry::of(p),
                        ));
                    }
                    out.push(Entry { priority: p.0, payload: p.1 });
                },
                None => {
                    break ;
                },
            }
            i = i + 1;
        }
        proof {
            to_multiset_len(desc.skip(i as int));
        }
        out
    }

    /// The payloads of all entries as the backing array holds them at the
    /// time of the call, the root first. The result is a copy: nothing that
    /// happens to the queue later shows in it.
    pub fn each(&self) -> (r: Vec<i64>)
        ensures
            r@ == payloads(self.order()),
    {
        let copy = heap_clone(&self.heap);
        let items = heap_into_vec(copy);
        payloads_of(&items)
    }

    /// The payloads of all entries by ascending priority: the payloads that
    /// `pop_min` would return, call after call, until the queue is empty.
    /// The queue is not changed.
    pub fn to_a_asc(&self) -> (r: Vec<i64>)
        ensures
            r@ == payloads(ascending(self@)),
    {
        let copy = heap_clone(&self.heap);
        let items = heap_into_vec_asc(copy);
        proof {
            lemma_ascending_unique(items@);
        }
        payloads_of(&items)
    }

    /// The payloads of all entries by descending priority: the payloads that
    /// `pop_max` would return, call after call, until the queue is empty.
    /// The queue is not changed.
    pub fn to_a_desc(&self) -> (r: Vec<i64>)
        ensures
            r@ == payloads(descending(self@)),
    {
        let copy = heap_clone(&self.heap);
        let items = heap_into_vec_desc(copy);
        proof {
            lemma_descending_unique(items@);
        }
        payloads_of(&items)
    }
}

/// How many entries a counted pop takes from a queue of `len` entries:
/// `count` of them, but none for a `count` below zero and never more than
/// there are.
pub open spec fn taken(count: int, len: nat) -> nat {
    if count <= 0 {
        0
    } else if count <= len {
        count as nat
    } else {
        len
    }
}

/// The second component of each pair, in the same order.
fn payloads_of(items: &Vec<(i64, i64)>) -> (r: Vec<i64>)
    ensures
        r@ == payloads(items@),
{
    let mut out: Vec<i64> = Vec::new();
    let mut i: usize = 0;
    while i < items.len()
        invariant
            0 <= i <= items.len(),
            out@ == payloads(items@.take(i as int)),
        decreases items.len() - i,
    {
        out.push(items[i].1);
        proof {
            assert(items@.take(i + 1) =~= items@.take(i as int).push(items@[i as int]));
            assert(out@ =~= payloads(items@.take(i + 1)));
        }
        i = i + 1;
    }
    proof {
        assert(items@.take(items.len() as int) =~= items@);
    }
    out
}

/// A backing array without slots holds the empty multiset.
proof fn lemma_empty_order(s: Seq<(i64, i64)>)
    requires
        s == Seq::<(i64, i64)>::empty(),
    ensures
        s.to_multiset() == Multiset::<(i64, i64)>::empty(),
{
    broadcast use group_multiset_axioms;

    to_multiset_len(s);
    assert(s.to_multiset() =~= Multiset::empty());
}

} // verus!
