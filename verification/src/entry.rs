//! One stored item: a priority and the payload that travels with it.

use vstd::prelude::*;

verus! {

/// A priority and its payload. Two entries are equal when both fields are;
/// the queue ranks entries by priority and looks at the payload only to
/// settle a tie.
#[derive(Clone, Copy, Debug, PartialEq, Eq, Structural)]
pub struct Entry {
    pub priority: i64,
    pub payload: i64,
}

impl Entry {
    /// The entry as the pair `(priority, payload)`.
    pub open spec fn pair(self) -> (i64, i64) {
        (self.priority, self.payload)
    }

    /// The entry that the pair `(priority, payload)` stands for.
    pub open spec fn of(p: (i64, i64)) -> Entry {
        Entry { priority: p.0, payload: p.1 }
    }
}

/// The entries that the pairs of `s` stand for, in the same order.
pub open spec fn entries(s: Seq<(i64, i64)>) -> Seq<Entry> {
    s.map_values(|p: (i64, i64)| Entry::of(p))
}

} // verus!
