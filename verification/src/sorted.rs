//! The two sorted arrangements of a multiset of pairs, and the facts that
//! tie them to each other and to any sorted sequence.

use crate::order::{
    greatest, is_greatest, is_least, least, lemma_greatest_exists, lemma_least_exists,
    lemma_remove_len, pair_le,
};
use vstd::multiset::*;
use vstd::prelude::*;
use vstd::relations::{sorted_by, total_ordering};
use vstd::seq_lib::*;

verus! {

/// No pair of `s` ranks earlier than one that stands before it.
pub open spec fn is_ascending(s: Seq<(i64, i64)>) -> bool {
    forall|i: int, j: int| 0 <= i < j < s.len() ==> pair_le(s[i], s[j])
}

/// No pair of `s` ranks later than one that stands before it.
pub open spec fn is_descending(s: Seq<(i64, i64)>) -> bool {
    forall|i: int, j: int| 0 <= i < j < s.len() ==> pair_le(s[j], s[i])
}

/// The members of `m` from the least to the greatest: what comes out when
/// the least member is taken again and again until none is left.
pub open spec fn ascending(m: Multiset<(i64, i64)>) -> Seq<(i64, i64)>
    decreases m.len(),
    via ascending_decreases
{
    if m.len() == 0 {
        Seq::empty()
    } else {
        seq![least(m)] + ascending(m.remove(least(m)))
    }
}

#[via_fn]
proof fn ascending_decreases(m: Multiset<(i64, i64)>) {
    if m.len() != 0 {
        lemma_least_exists(m);
        lemma_remove_len(m, least(m));
    }
}

/// The members of `m` from the greatest to the least: what comes out when
/// the greatest member is taken again and again until none is left.
pub open spec fn descending(m: Multiset<(i64, i64)>) -> Seq<(i64, i64)>
    decreases m.len(),
    via descending_decreases
{
    if m.len() == 0 {
        Seq::empty()
    } else {
        seq![greatest(m)] + descending(m.remove(greatest(m)))
    }
}

#[via_fn]
proof fn descending_decreases(m: Multiset<(i64, i64)>) {
    if m.len() != 0 {
        lemma_greatest_exists(m);
        lemma_remove_len(m, greatest(m));
    }
}

/// The second components of `s`, in the same order.
pub open spec fn payloads(s: Seq<(i64, i64)>) -> Seq<i64> {
    s.map_values(|p: (i64, i64)| p.1)
}

/// Putting a member back in front of the rest gives the multiset back.
proof fn lemma_front_multiset(x: (i64, i64), rest: Seq<(i64, i64)>, m: Multiset<(i64, i64)>)
    requires
        m.contains(x),
        rest.to_multiset() == m.remove(x),
    ensures
        (seq![x] + rest).to_multiset() == m,
{
    broadcast use group_multiset_axioms;

    lemma_multiset_commutative(seq![x], rest);
    assert(seq![x] =~= Seq::<(i64, i64)>::empty().push(x));
    to_multiset_build(Seq::<(i64, i64)>::empty(), x);
    assert(Seq::<(i64, i64)>::empty().to_multiset() =~= Multiset::empty()) by {
        to_multiset_len(Seq::<(i64, i64)>::empty());
    }
    assert((seq![x] + rest).to_multiset() =~= m);
}

/// `ascending(m)` holds exactly the members of `m`, each as often as `m`
/// does, and is sorted from the least to the greatest.
pub proof fn lemma_ascending_arranges(m: Multiset<(i64, i64)>)
    ensures
        ascending(m).to_multiset() == m,
        ascending(m).len() == m.len(),
        is_ascending(ascending(m)),
    decreases m.len(),
{
    broadcast use group_multiset_axioms;

    if m.len() == 0 {
        assert(m =~= Multiset::empty());
        to_multiset_len(ascending(m));
        assert(ascending(m).to_multiset() =~= Multiset::empty());
    } else {
        let x = least(m);
        let rest = m.remove(x);
        lemma_least_exists(m);
        lemma_remove_len(m, x);
        lemma_ascending_arranges(rest);
        let tail = ascending(rest);
        lemma_front_multiset(x, tail, m);
        assert forall|i: int, j: int| 0 <= i < j < ascending(m).len() implies pair_le(
            ascending(m)[i],
            ascending(m)[j],
        ) by {
            to_multiset_contains(tail, tail[j - 1]);
            assert(tail.contains(tail[j - 1]));
            assert(rest.count(tail[j - 1]) <= m.count(tail[j - 1]));
            if i > 0 {
                assert(pair_le(tail[i - 1], tail[j - 1]));
            }
        }
    }
}

/// `descending(m)` holds exactly the members of `m`, each as often as `m`
/// does, and is sorted from the greatest to the least.
pub proof fn lemma_descending_arranges(m: Multiset<(i64, i64)>)
    ensures
        descending(m).to_multiset() == m,
        descending(m).len() == m.len(),
        is_descending(descending(m)),
    decreases m.len(),
{
    broadcast use group_multiset_axioms;

    if m.len() == 0 {
        assert(m =~= Multiset::empty());
        to_multiset_len(descending(m));
        assert(descending(m).to_multiset() =~= Multiset::empty());
    } else {
        let x = greatest(m);
        let rest = m.remove(x);
        lemma_greatest_exists(m);
        lemma_remove_len(m, x);
        lemma_descending_arranges(rest);
        let tail = descending(rest);
        lemma_front_multiset(x, tail, m);
        assert forall|i: int, j: int| 0 <= i < j < descending(m).len() implies pair_le(
            descending(m)[j],
            descending(m)[i],
        ) by {
            to_multiset_contains(tail, tail[j - 1]);
            assert(tail.contains(tail[j - 1]));
            assert(rest.count(tail[j - 1]) <= m.count(tail[j - 1]));
            if i > 0 {
                assert(pair_le(tail[j - 1], tail[i - 1]));
            }
        }
    }
}

/// `pair_le` is a total order.
proof fn lemma_pair_le_total()
    ensures
        total_ordering(|a: (i64, i64), b: (i64, i64)| pair_le(a, b)),
{
}

/// A sequence sorted from the least to the greatest is the ascending
/// arrangement of what it holds: there is no second way to sort a multiset.
pub proof fn lemma_ascending_unique(s: Seq<(i64, i64)>)
    requires
        is_ascending(s),
    ensures
        s == ascending(s.to_multiset()),
{
    let leq = |a: (i64, i64), b: (i64, i64)| pair_le(a, b);
    let t = ascending(s.to_multiset());
    lemma_ascending_arranges(s.to_multiset());
    lemma_pair_le_total();
    assert(sorted_by(s, leq));
    assert(sorted_by(t, leq));
    lemma_sorted_unique(s, t, leq);
}

/// Reading a sequence backwards twice gives it back.
proof fn lemma_reverse_twice(s: Seq<(i64, i64)>)
    ensures
        s.reverse().reverse() == s,
{
    assert(s.reverse().reverse() =~= s);
}

/// The descending arrangement is the ascending one read backwards.
pub proof fn lemma_descending_is_reverse(m: Multiset<(i64, i64)>)
    ensures
        descending(m) == ascending(m).reverse(),
{
    let d = descending(m);
    lemma_descending_arranges(m);
    let r = d.reverse();
    d.lemma_reverse_to_multiset();
    assert(is_ascending(r));
    lemma_ascending_unique(r);
    lemma_reverse_twice(d);
}

/// A sequence sorted from the greatest to the least is the descending
/// arrangement of what it holds.
pub proof fn lemma_descending_unique(s: Seq<(i64, i64)>)
    requires
        is_descending(s),
    ensures
        s == descending(s.to_multiset()),
{
    let r = s.reverse();
    s.lemma_reverse_to_multiset();
    assert(is_ascending(r));
    lemma_ascending_unique(r);
    lemma_descending_is_reverse(s.to_multiset());
    lemma_reverse_twice(s);
}

/// In a sequence sorted upwards, the pair at `i` is the least of those from
/// `i` on, and without it those from `i + 1` on are left.
pub proof fn lemma_ascending_step(s: Seq<(i64, i64)>, i: int)
    requires
        is_ascending(s),
        0 <= i < s.len(),
    ensures
        is_least(s[i], s.skip(i).to_multiset()),
        s.skip(i + 1).to_multiset() == s.skip(i).to_multiset().remove(s[i]),
{
    let t = s.skip(i);
    assert(t[0] == s[i]);
    assert(t.contains(s[i]));
    to_multiset_contains(t, s[i]);
    assert forall|y: (i64, i64)| t.to_multiset().contains(y) implies pair_le(s[i], y) by {
        to_multiset_contains(t, y);
        let j = choose|j: int| 0 <= j < t.len() && t[j] == y;
        assert(y == s[i + j]);
    }
    assert(s.skip(i + 1) =~= t.remove(0));
    to_multiset_remove(t, 0);
}

/// In a sequence sorted downwards, the pair at `i` is the greatest of those
/// from `i` on, and without it those from `i + 1` on are left.
pub proof fn lemma_descending_step(s: Seq<(i64, i64)>, i: int)
    requires
        is_descending(s),
        0 <= i < s.len(),
    ensures
        is_greatest(s[i], s.skip(i).to_multiset()),
        s.skip(i + 1).to_multiset() == s.skip(i).to_multiset().remove(s[i]),
{
    let t = s.skip(i);
    assert(t[0] == s[i]);
    assert(t.contains(s[i]));
    to_multiset_contains(t, s[i]);
    assert forall|y: (i64, i64)| t.to_multiset().contains(y) implies pair_le(y, s[i]) by {
        to_multiset_contains(t, y);
        let j = choose|j: int| 0 <= j < t.len() && t[j] == y;
        assert(y == s[i + j]);
    }
    assert(s.skip(i + 1) =~= t.remove(0));
    to_multiset_remove(t, 0);
}

} // verus!
