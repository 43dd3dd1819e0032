use crate::history::dag::{index_of, DagView, EntryView};
use vstd::prelude::*;

verus! {

/// The state of a walk through a history: which positions have been seen, and the
/// positions collected so far, in the order of collection.
pub struct Walk {
    pub visited: Seq<bool>,
    pub order: Seq<int>,
}

/// The walk after visiting the entry at position `node`: an entry not seen before is
/// collected after all its parents.
pub open spec fn visit<T>(entries: Seq<EntryView<T>>, w: Walk, node: int) -> Walk
    decreases node, 1int, 0int,
{
    if !(0 <= node < entries.len()) || node >= w.visited.len() || w.visited[node] {
        w
    } else {
        let after = visit_parents(entries, w, node, 0);
        Walk { visited: after.visited.update(node, true), order: after.order.push(node) }
    }
}

/// The walk after visiting the parents of the entry at position `node`, from its
/// `k`-th parent on.
pub open spec fn visit_parents<T>(entries: Seq<EntryView<T>>, w: Walk, node: int, k: int) -> Walk
    decreases node, 0int, entries[node].parents.len() - k,
{
    if !(0 <= node < entries.len()) || k < 0 || k >= entries[node].parents.len() {
        w
    } else {
        match index_of(entries, entries[node].parents[k]) {
            Some(j) => if 0 <= j < node {
                visit_parents(entries, visit(entries, w, j), node, k + 1)
            } else {
                visit_parents(entries, w, node, k + 1)
            },
            None => visit_parents(entries, w, node, k + 1),
        }
    }
}

/// The walk after visiting the heads from the `a`-th on.
pub open spec fn visit_heads<T>(entries: Seq<EntryView<T>>, heads: Seq<int>, w: Walk, a: int) -> Walk
    decreases heads.len() - a,
{
    if a < 0 || a >= heads.len() {
        w
    } else {
        visit_heads(entries, heads, visit(entries, w, heads[a]), a + 1)
    }
}

/// For each entry of `entries`, whether `other` knows an entry of that identity.
pub open spec fn known_to<T>(entries: Seq<EntryView<T>>, other: DagView<T>) -> Seq<bool> {
    Seq::new(entries.len(), |i: int| other.contains(entries[i].id))
}

impl<T> DagView<T> {
    /// The positions of the entries that `other` lacks, parents before children: a
    /// depth-first walk from the heads that treats what `other` knows as seen.
    pub open spec fn diff_positions(self, other: DagView<T>) -> Seq<int> {
        visit_heads(
            self.entries,
            self.heads,
            Walk { visited: known_to(self.entries, other), order: Seq::empty() },
            0,
        ).order
    }

    /// The entries that `other` lacks, parents before children.
    pub open spec fn diff(self, other: DagView<T>) -> Seq<EntryView<T>> {
        self.diff_positions(other).map_values(|i: int| self.entries[i])
    }
}

} // verus!
