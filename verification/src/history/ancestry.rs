use crate::history::convergence::{compatible, lemma_contains, lemma_parent_at, parent_at};
use crate::history::dag::{
    index_of, lemma_index_of, lemma_index_of_own, lemma_index_of_push, DagView, EntryView,
};
use vstd::prelude::*;

verus! {

/// Whether the entry at position `j` is reached from the entry at position `i` by way
/// of its parents from the `k`-th on: one of them is that entry, or is reached from it.
pub open spec fn reached_from<T>(entries: Seq<EntryView<T>>, i: int, j: int, k: int) -> bool
    decreases i, 1 + entries[i].parents.len() - k,
{
    if !(0 <= i < entries.len()) || k < 0 || k >= entries[i].parents.len() {
        false
    } else {
        step_reaches(entries, i, j, k) || reached_from(entries, i, j, k + 1)
    }
}

/// Whether the `k`-th parent of the entry at position `i` is known and stands before
/// it, and is the entry at position `j` or reaches it.
pub open spec fn step_reaches<T>(entries: Seq<EntryView<T>>, i: int, j: int, k: int) -> bool
    decreases i, 0int,
    when 0 <= i < entries.len() && 0 <= k < entries[i].parents.len()
{
    index_of(entries, entries[i].parents[k]) matches Some(p) && 0 <= p < i && (p == j
        || reached_from(entries, p, j, 0))
}

/// Whether the entry at position `j` comes before the entry at position `i` in the
/// order of cause: it is a parent of that entry, or a parent of a parent, and so on.
pub open spec fn is_ancestor<T>(entries: Seq<EntryView<T>>, i: int, j: int) -> bool {
    reached_from(entries, i, j, 0)
}

/// Whether the `k`-th parent of the entry at position `i` is the entry at position
/// `j` or has it as an ancestor.
pub open spec fn by_parent<T>(entries: Seq<EntryView<T>>, i: int, j: int, k: int) -> bool {
    0 <= i < entries.len() && 0 <= k < entries[i].parents.len() && step_reaches(entries, i, j, k)
}

/// What is reached by way of the parents from the `k`-th on is reached by one of them.
pub proof fn lemma_reached_by<T>(entries: Seq<EntryView<T>>, i: int, j: int, k: int)
    requires
        reached_from(entries, i, j, k),
    ensures
        exists|k2: int| k <= k2 && #[trigger] by_parent(entries, i, j, k2),
    decreases entries[i].parents.len() - k,
{
    if step_reaches(entries, i, j, k) {
        assert(by_parent(entries, i, j, k));
    } else {
        lemma_reached_by(entries, i, j, k + 1);
        let k2 = choose|k2: int| k + 1 <= k2 && #[trigger] by_parent(entries, i, j, k2);
        assert(by_parent(entries, i, j, k2));
    }
}

/// What is reached by a parent is reached by way of the parents from any earlier one
/// on.
pub proof fn lemma_by_parent_reached<T>(entries: Seq<EntryView<T>>, i: int, j: int, k: int, k2: int)
    requires
        0 <= k <= k2,
        by_parent(entries, i, j, k2),
    ensures
        reached_from(entries, i, j, k),
    decreases k2 - k,
{
    if k < k2 {
        lemma_by_parent_reached(entries, i, j, k + 1, k2);
    }
}

/// An ancestor stands before its descendant.
pub proof fn lemma_ancestor_before<T>(entries: Seq<EntryView<T>>, i: int, j: int)
    requires
        is_ancestor(entries, i, j),
    ensures
        0 <= j < i < entries.len(),
    decreases i,
{
    lemma_reached_by(entries, i, j, 0);
    let k = choose|k: int| 0 <= k && #[trigger] by_parent(entries, i, j, k);
    let p = parent_at(entries, i, k);
    if p != j {
        lemma_ancestor_before(entries, p, j);
    }
}

/// An ancestor of an ancestor is an ancestor.
pub proof fn lemma_ancestor_transitive<T>(entries: Seq<EntryView<T>>, i: int, j: int, x: int)
    requires
        is_ancestor(entries, i, j),
        is_ancestor(entries, j, x),
    ensures
        is_ancestor(entries, i, x),
    decreases i,
{
    lemma_reached_by(entries, i, j, 0);
    let k = choose|k: int| 0 <= k && #[trigger] by_parent(entries, i, j, k);
    let p = parent_at(entries, i, k);
    if p != j {
        lemma_ancestor_transitive(entries, p, j, x);
    }
    assert(by_parent(entries, i, x, k));
    lemma_by_parent_reached(entries, i, x, 0, k);
}

/// In a well-formed history every entry is a head or an ancestor of a head.
pub proof fn lemma_heads_cover<T>(h: DagView<T>, x: int)
    requires
        h.wf(),
        0 <= x < h.entries.len(),
    ensures
        exists|a: int|
            0 <= a < h.heads.len() && (#[trigger] h.heads[a] == x || is_ancestor(
                h.entries,
                h.heads[a],
                x,
            )),
    decreases h.entries.len() - x,
{
    if h.heads.contains(x) {
        let a = choose|a: int| 0 <= a < h.heads.len() && h.heads[a] == x;
        assert(h.heads[a] == x);
    } else {
        assert(h.has_child(x));
        let (j, k) = choose|j: int, k: int| h.is_parent_slot(x, j, k);
        lemma_parent_at(h, j, k);
        lemma_index_of_own(h, x);
        assert(by_parent(h.entries, j, x, k));
        lemma_by_parent_reached(h.entries, j, x, 0, k);
        lemma_heads_cover(h, j);
        let a = choose|a: int|
            0 <= a < h.heads.len() && (#[trigger] h.heads[a] == j || is_ancestor(
                h.entries,
                h.heads[a],
                j,
            ));
        if h.heads[a] != j {
            lemma_ancestor_transitive(h.entries, h.heads[a], j, x);
        }
        assert(h.heads[a] == x || is_ancestor(h.entries, h.heads[a], x));
    }
}

/// Appending an entry changes nothing about who is whose ancestor among the entries
/// that were there.
pub proof fn lemma_ancestor_push<T>(entries: Seq<EntryView<T>>, e: EntryView<T>, i: int, j: int, k: int)
    requires
        0 <= i < entries.len(),
        0 <= k,
    ensures
        reached_from(entries.push(e), i, j, k) == reached_from(entries, i, j, k),
    decreases i, entries[i].parents.len() - k,
{
    let longer = entries.push(e);
    assert(longer[i] == entries[i]);
    if k < entries[i].parents.len() {
        lemma_index_of_push(entries, e, entries[i].parents[k]);
        lemma_index_of(entries, entries[i].parents[k]);
        lemma_ancestor_push(entries, e, i, j, k + 1);
        match index_of(entries, entries[i].parents[k]) {
            Some(p) => {
                if 0 <= p < i {
                    lemma_ancestor_push(entries, e, p, j, 0);
                }
            },
            None => {},
        }
        assert(step_reaches(longer, i, j, k) == step_reaches(entries, i, j, k));
    } else {
        assert(!reached_from(longer, i, j, k));
        assert(!reached_from(entries, i, j, k));
    }
}

/// The entry that a local operation makes has every entry that was known as an
/// ancestor.
pub proof fn lemma_local_entry_covers<T>(h: DagView<T>, value: T, x: int)
    requires
        h.wf(),
        0 <= x < h.entries.len(),
    ensures
        is_ancestor(h.add_local(value).entries, h.entries.len() as int, x),
{
    let g = h.add_local(value);
    let n = h.entries.len() as int;
    let e = h.local_entry(value);
    lemma_heads_cover(h, x);
    let a = choose|a: int|
        0 <= a < h.heads.len() && (#[trigger] h.heads[a] == x || is_ancestor(
            h.entries,
            h.heads[a],
            x,
        ));
    assert(g.entries[n] == e);
    assert(e.parents[a] == h.entries[h.heads[a]].id);
    lemma_index_of_own(h, h.heads[a]);
    lemma_index_of_push(h.entries, e, e.parents[a]);
    lemma_ancestor_push(h.entries, e, h.heads[a], x, 0);
    assert(by_parent(g.entries, n, x, a));
    lemma_by_parent_reached(g.entries, n, x, 0, a);
}

/// A history that knows the parents of an entry of a history that it is compatible
/// with knows all ancestors of the entry.
pub proof fn lemma_ancestors_known<T>(s: DagView<T>, r: DagView<T>, i: int, j: int)
    requires
        s.wf(),
        r.wf(),
        compatible(s, r),
        0 <= i < s.entries.len(),
        r.contains_all(s.entries[i].parents),
        is_ancestor(s.entries, i, j),
    ensures
        r.contains(s.entries[j].id),
    decreases i,
{
    lemma_reached_by(s.entries, i, j, 0);
    let k = choose|k: int| 0 <= k && #[trigger] by_parent(s.entries, i, j, k);
    let id = s.entries[i].parents[k];
    lemma_index_of(s.entries, id);
    let p = index_of(s.entries, id)->0;
    assert(r.contains(s.entries[i].parents[k]));
    if p != j {
        lemma_contains(r, id);
        let q = choose|q: int| 0 <= q < r.entries.len() && (#[trigger] r.entries[q]).id == id;
        assert(r.entries[q] == s.entries[p]);
        assert forall|k2: int| 0 <= k2 < s.entries[p].parents.len() implies r.contains(
            #[trigger] s.entries[p].parents[k2],
        ) by {
            assert(index_of(r.entries, r.entries[q].parents[k2]) is Some);
        }
        lemma_ancestors_known(s, r, p, j);
    }
}

/// An entry that two compatible histories hold has the same ancestors in both.
pub proof fn lemma_ancestor_carries<T>(s: DagView<T>, r: DagView<T>, i: int, q: int, j: int)
    requires
        s.wf(),
        r.wf(),
        compatible(s, r),
        0 <= i < s.entries.len(),
        0 <= q < r.entries.len(),
        r.entries[q] == s.entries[i],
        is_ancestor(s.entries, i, j),
    ensures
        exists|j2: int| #[trigger]
            is_ancestor(r.entries, q, j2) && 0 <= j2 < r.entries.len() && r.entries[j2]
                == s.entries[j],
    decreases i,
{
    lemma_reached_by(s.entries, i, j, 0);
    let k = choose|k: int| 0 <= k && #[trigger] by_parent(s.entries, i, j, k);
    let id = s.entries[i].parents[k];
    lemma_index_of(s.entries, id);
    let p = index_of(s.entries, id)->0;
    assert(index_of(r.entries, r.entries[q].parents[k]) is Some);
    lemma_index_of(r.entries, id);
    let q2 = index_of(r.entries, id)->0;
    assert(s.entries[p].id == r.entries[q2].id);
    assert(s.entries[p] == r.entries[q2]);
    if p == j {
        assert(by_parent(r.entries, q, q2, k));
        lemma_by_parent_reached(r.entries, q, q2, 0, k);
        assert(is_ancestor(r.entries, q, q2));
    } else {
        lemma_ancestor_carries(s, r, p, q2, j);
        let j2 = choose|j2: int| #[trigger]
            is_ancestor(r.entries, q2, j2) && 0 <= j2 < r.entries.len() && r.entries[j2]
                == s.entries[j];
        assert(by_parent(r.entries, q, j2, k));
        lemma_by_parent_reached(r.entries, q, j2, 0, k);
        assert(is_ancestor(r.entries, q, j2));
    }
}

} // verus!
