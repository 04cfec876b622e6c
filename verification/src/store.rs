//! The storage of the queue: `min_max_heap::MinMaxHeap` holding
//! `(priority, payload)` pairs.
//!
//! Nothing in this file is proved. Each function below makes one call into
//! `min_max_heap` and states what that crate's source and documentation say
//! of the call; the rest of the crate is proved from these statements.
//!
//! The heap ranks its items by `Ord`, which for `(i64, i64)` compares the
//! first components and, where they are equal, the second: `pair_le`. So
//! "least" and "greatest" below mean least and greatest under `pair_le`.

use crate::order::{is_greatest, is_least, pair_le};
use vstd::prelude::*;

verus! {

/// `min_max_heap::MinMaxHeap<T>`, carried as an opaque value: what it holds
/// is known only through `heap_order`.
#[verifier::external_type_specification]
#[verifier::external_body]
#[verifier::reject_recursive_types(T)]
pub struct ExMinMaxHeap<T>(min_max_heap::MinMaxHeap<T>);

/// The pairs that a heap holds, in the order of its backing vector (the
/// order in which `MinMaxHeap::into_vec` hands them out).
pub uninterp spec fn heap_order(h: min_max_heap::MinMaxHeap<(i64, i64)>) -> Seq<(i64, i64)>;

/// Where `MinMaxHeap::peek_max` looks for the greatest item of a heap with
/// backing vector `s`: at the root if there is nothing else, at the only
/// child if there is one, otherwise at the greater of the root's two children.
pub open spec fn max_slot(s: Seq<(i64, i64)>) -> int {
    if s.len() <= 1 {
        0
    } else if s.len() == 2 {
        1
    } else if !pair_le(s[1], s[2]) {
        1
    } else {
        2
    }
}

/// `MinMaxHeap::new`. The new heap holds nothing.
#[verifier::external_body]
pub(crate) fn heap_new() -> (h: min_max_heap::MinMaxHeap<(i64, i64)>)
    ensures
        heap_order(h) == Seq::<(i64, i64)>::empty(),
{
    min_max_heap::MinMaxHeap::new()
}

/// `MinMaxHeap::len`. The number of items is the length of the backing
/// vector.
#[verifier::external_body]
pub(crate) fn heap_len(h: &min_max_heap::MinMaxHeap<(i64, i64)>) -> (n: usize)
    ensures
        n == heap_order(*h).len(),
{
    h.len()
}

/// `MinMaxHeap::is_empty`. True exactly when the backing vector is empty.
#[verifier::external_body]
pub(crate) fn heap_is_empty(h: &min_max_heap::MinMaxHeap<(i64, i64)>) -> (b: bool)
    ensures
        b == (heap_order(*h).len() == 0),
{
    h.is_empty()
}

/// `MinMaxHeap::push`. The heap gains one occurrence of `e` and keeps
/// everything else; where the items then stand in the backing vector is not
/// stated. Like `Vec::push` it gives up only when memory runs out.
#[verifier::external_body]
pub(crate) fn heap_push(h: &mut min_max_heap::MinMaxHeap<(i64, i64)>, e: (i64, i64))
    ensures
        heap_order(*final(h)).to_multiset() == heap_order(*old(h)).to_multiset().insert(e),
{
    h.push(e)
}

/// `MinMaxHeap::peek_min`. Nothing for an empty heap; otherwise the item at
/// the root of the backing vector, which is the least item of the heap.
#[verifier::external_body]
pub(crate) fn heap_peek_min(h: &min_max_heap::MinMaxHeap<(i64, i64)>) -> (r: Option<(i64, i64)>)
    ensures
        heap_order(*h).len() == 0 ==> r is None,
        heap_order(*h).len() > 0 ==> r == Some(heap_order(*h)[0]) && is_least(
            r.unwrap(),
            heap_order(*h).to_multiset(),
        ),
{
    h.peek_min().copied()
}

/// `MinMaxHeap::peek_max`. Nothing for an empty heap; otherwise the item at
/// `max_slot` of the backing vector, which is the greatest item of the heap.
#[verifier::external_body]
pub(crate) fn heap_peek_max(h: &min_max_heap::MinMaxHeap<(i64, i64)>) -> (r: Option<(i64, i64)>)
    ensures
        heap_order(*h).len() == 0 ==> r is None,
        heap_order(*h).len() > 0 ==> r == Some(heap_order(*h)[max_slot(heap_order(*h))])
            && is_greatest(r.unwrap(), heap_order(*h).to_multiset()),
{
    h.peek_max().copied()
}

/// `MinMaxHeap::pop_min`. An empty heap gives nothing and stays as it is;
/// any other heap gives the item at the root of its backing vector, which is
/// its least item, and loses one occurrence of it.
#[verifier::external_body]
pub(crate) fn heap_pop_min(h: &mut min_max_heap::MinMaxHeap<(i64, i64)>) -> (r: Option<(i64, i64)>)
    ensures
        heap_order(*old(h)).len() == 0 ==> r is None && heap_order(*final(h)) == heap_order(
            *old(h),
        ),
        heap_order(*old(h)).len() > 0 ==> r == Some(heap_order(*old(h))[0]) && is_least(
            r.unwrap(),
            heap_order(*old(h)).to_multiset(),
        ) && heap_order(*final(h)).to_multiset() == heap_order(*old(h)).to_multiset().remove(
            r.unwrap(),
        ),
{
    h.pop_min()
}

/// `MinMaxHeap::pop_max`. An empty heap gives nothing and stays as it is;
/// any other heap gives the item at `max_slot` of its backing vector, which
/// is its greatest item, and loses one occurrence of it.
#[verifier::external_body]
pub(crate) fn heap_pop_max(h: &mut min_max_heap::MinMaxHeap<(i64, i64)>) -> (r: Option<(i64, i64)>)
    ensures
        heap_order(*old(h)).len() == 0 ==> r is None && heap_order(*final(h)) == heap_order(
            *old(h),
        ),
        heap_order(*old(h)).len() > 0 ==> r == Some(
            heap_order(*old(h))[max_slot(heap_order(*old(h)))],
        ) && is_greatest(r.unwrap(), heap_order(*old(h)).to_multiset()) && heap_order(
            *final(h),
        ).to_multiset() == heap_order(*old(h)).to_multiset().remove(r.unwrap()),
{
    h.pop_max()
}

/// `MinMaxHeap::clear`. The heap holds nothing afterwards.
#[verifier::external_body]
pub(crate) fn heap_clear(h: &mut min_max_heap::MinMaxHeap<(i64, i64)>)
    ensures
        heap_order(*final(h)) == Seq::<(i64, i64)>::empty(),
{
    h.clear()
}

/// `Clone::clone` as `MinMaxHeap` derives it. The copy holds the same items
/// in the same order.
#[verifier::external_body]
pub(crate) fn heap_clone(h: &min_max_heap::MinMaxHeap<(i64, i64)>) -> (c: min_max_heap::MinMaxHeap<
    (i64, i64),
>)
    ensures
        heap_order(c) == heap_order(*h),
{
    h.clone()
}

/// `MinMaxHeap::into_vec`. The backing vector itself.
#[verifier::external_body]
pub(crate) fn heap_into_vec(h: min_max_heap::MinMaxHeap<(i64, i64)>) -> (v: Vec<(i64, i64)>)
    ensures
        v@ == heap_order(h),
{
    h.into_vec()
}

/// `MinMaxHeap::into_vec_asc`. The items of the heap, each as often as the
/// heap holds it, from the least to the greatest.
#[verifier::external_body]
pub(crate) fn heap_into_vec_asc(h: min_max_heap::MinMaxHeap<(i64, i64)>) -> (v: Vec<(i64, i64)>)
    ensures
        v@.to_multiset() == heap_order(h).to_multiset(),
        forall|i: int, j: int| 0 <= i < j < v@.len() ==> pair_le(v@[i], v@[j]),
{
    h.into_vec_asc()
}

/// `MinMaxHeap::into_vec_desc`. The items of the heap, each as often as the
/// heap holds it, from the greatest to the least.
#[verifier::external_body]
pub(crate) fn heap_into_vec_desc(h: min_max_heap::MinMaxHeap<(i64, i64)>) -> (v: Vec<(i64, i64)>)
    ensures
        v@.to_multiset() == heap_order(h).to_multiset(),
        forall|i: int, j: int| 0 <= i < j < v@.len() ==> pair_le(v@[j], v@[i]),
{
    h.into_vec_desc()
}

} // verus!
