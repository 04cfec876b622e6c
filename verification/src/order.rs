//! The order in which the queue ranks its entries, and the least and the
//! greatest member of a multiset under it.

use vstd::multiset::*;
use vstd::prelude::*;

verus! {

/// `a` ranks no later than `b`: its priority is smaller, or the priorities are
/// equal and its payload is no greater.
///
/// This is the order of Rust's `(i64, i64)`. The priority decides wherever two
/// priorities differ; the payload only breaks ties, which makes the order total.
pub open spec fn pair_le(a: (i64, i64), b: (i64, i64)) -> bool {
    a.0 < b.0 || (a.0 == b.0 && a.1 <= b.1)
}

/// `x` is a member of `m` that ranks no later than any member.
pub open spec fn is_least(x: (i64, i64), m: Multiset<(i64, i64)>) -> bool {
    m.contains(x) && forall|y: (i64, i64)| m.contains(y) ==> pair_le(x, y)
}

/// `x` is a member of `m` that ranks no earlier than any member.
pub open spec fn is_greatest(x: (i64, i64), m: Multiset<(i64, i64)>) -> bool {
    m.contains(x) && forall|y: (i64, i64)| m.contains(y) ==> pair_le(y, x)
}

/// The least member of `m`; meaningful where `m` is not empty.
pub open spec fn least(m: Multiset<(i64, i64)>) -> (i64, i64) {
    choose|x: (i64, i64)| is_least(x, m)
}

/// The greatest member of `m`; meaningful where `m` is not empty.
pub open spec fn greatest(m: Multiset<(i64, i64)>) -> (i64, i64) {
    choose|x: (i64, i64)| is_greatest(x, m)
}

/// Taking one occurrence of a member out of `m` makes it smaller by one.
pub proof fn lemma_remove_len(m: Multiset<(i64, i64)>, x: (i64, i64))
    requires
        m.contains(x),
    ensures
        m.remove(x).len() == m.len() - 1,
        m.len() > 0,
{
    broadcast use group_multiset_axioms;

    assert(Multiset::singleton(x).subset_of(m)) by {
        assert forall|v: (i64, i64)| Multiset::singleton(x).count(v) <= m.count(v) by {
            if v != x {
                assert(Multiset::singleton(x).count(v) == 0);
            }
        }
    }
}

/// A multiset that is not empty has a least member.
pub proof fn lemma_least_exists(m: Multiset<(i64, i64)>)
    requires
        m.len() > 0,
    ensures
        is_least(least(m), m),
    decreases m.len(),
{
    broadcast use group_multiset_axioms;

    let x = m.choose();
    let rest = m.remove(x);
    lemma_remove_len(m, x);
    if rest.len() == 0 {
        assert(rest =~= Multiset::empty());
        assert forall|y: (i64, i64)| m.contains(y) implies pair_le(x, y) by {
            if y != x {
                assert(rest.count(y) == m.count(y));
            }
        }
        assert(is_least(x, m));
    } else {
        lemma_least_exists(rest);
        let l = least(rest);
        if pair_le(x, l) {
            assert forall|y: (i64, i64)| m.contains(y) implies pair_le(x, y) by {
                if y != x {
                    assert(rest.count(y) == m.count(y));
                    assert(pair_le(l, y));
                }
            }
            assert(is_least(x, m));
        } else {
            assert(rest.count(l) <= m.count(l));
            assert forall|y: (i64, i64)| m.contains(y) implies pair_le(l, y) by {
                if y != x {
                    assert(rest.count(y) == m.count(y));
                }
            }
            assert(is_least(l, m));
        }
    }
}

/// A multiset that is not empty has a greatest member.
pub proof fn lemma_greatest_exists(m: Multiset<(i64, i64)>)
    requires
        m.len() > 0,
    ensures
        is_greatest(greatest(m), m),
    decreases m.len(),
{
    broadcast use group_multiset_axioms;

    let x = m.choose();
    let rest = m.remove(x);
    lemma_remove_len(m, x);
    if rest.len() == 0 {
        assert(rest =~= Multiset::empty());
        assert forall|y: (i64, i64)| m.contains(y) implies pair_le(y, x) by {
            if y != x {
                assert(rest.count(y) == m.count(y));
            }
        }
        assert(is_greatest(x, m));
    } else {
        lemma_greatest_exists(rest);
        let g = greatest(rest);
        if pair_le(g, x) {
            assert forall|y: (i64, i64)| m.contains(y) implies pair_le(y, x) by {
                if y != x {
                    assert(rest.count(y) == m.count(y));
                    assert(pair_le(y, g));
                }
            }
            assert(is_greatest(x, m));
        } else {
            assert(rest.count(g) <= m.count(g));
            assert forall|y: (i64, i64)| m.contains(y) implies pair_le(y, g) by {
                if y != x {
                    assert(rest.count(y) == m.count(y));
                }
            }
            assert(is_greatest(g, m));
        }
    }
}

/// The least member is the only one: whatever is least in `m` is `least(m)`.
pub proof fn lemma_least_unique(x: (i64, i64), m: Multiset<(i64, i64)>)
    requires
        is_least(x, m),
    ensures
        x == least(m),
{
    let l = least(m);
    assert(is_least(l, m));
    assert(pair_le(x, l) && pair_le(l, x));
}

/// The greatest member is the only one: whatever is greatest in `m` is
/// `greatest(m)`.
pub proof fn lemma_greatest_unique(x: (i64, i64), m: Multiset<(i64, i64)>)
    requires
        is_greatest(x, m),
    ensures
        x == greatest(m),
{
    let g = greatest(m);
    assert(is_greatest(g, m));
    assert(pair_le(x, g) && pair_le(g, x));
}

} // verus!
