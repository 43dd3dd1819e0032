use crate::history::dag::{
    index_of, lemma_add_remote_wf, lemma_index_of, lemma_index_of_own, DagView, EntryView, IdView,
};
use crate::history::diff::{known_to, visit, visit_heads, visit_parents, Walk};
use vstd::prelude::*;

verus! {

/// Two histories agree where they overlap: entries with one identity are one entry.
pub open spec fn compatible<T>(h: DagView<T>, o: DagView<T>) -> bool {
    forall|i: int, j: int|
        0 <= i < h.entries.len() && 0 <= j < o.entries.len() && (#[trigger] h.entries[i]).id == (
        #[trigger] o.entries[j]).id ==> h.entries[i] == o.entries[j]
}

/// The position of the `k`-th parent of the entry at position `p`.
pub open spec fn parent_at<T>(entries: Seq<EntryView<T>>, p: int, k: int) -> int {
    index_of(entries, entries[p].parents[k])->0
}

/// A history knows an identity exactly if one of its entries has it.
pub proof fn lemma_contains<T>(h: DagView<T>, id: IdView)
    ensures
        h.contains(id) <==> exists|i: int| 0 <= i < h.entries.len() && (#[trigger] h.entries[i]).id == id,
{
    lemma_index_of(h.entries, id);
    if h.contains(id) {
        let i = index_of(h.entries, id)->0;
        assert(h.entries[i].id == id);
    }
}

/// In a well-formed history the parents of an entry lie before it.
pub proof fn lemma_parent_at<T>(h: DagView<T>, p: int, k: int)
    requires
        h.wf(),
        0 <= p < h.entries.len(),
        0 <= k < h.entries[p].parents.len(),
    ensures
        0 <= parent_at(h.entries, p, k) < p,
        h.entries[parent_at(h.entries, p, k)].id == h.entries[p].parents[k],
{
    lemma_index_of(h.entries, h.entries[p].parents[k]);
    assert(index_of(h.entries, h.entries[p].parents[k]) is Some);
}

/// What holds of a walk through `h` that started from what `o` knows: a position is
/// seen exactly if `o` knows its entry or the walk has collected it; the parents of
/// what is seen are seen; nothing is collected twice or although `o` knows it; and
/// every parent of a collected entry is known to `o` or was collected before it.
pub open spec fn sound<T>(h: DagView<T>, o: DagView<T>, w: Walk) -> bool {
    &&& w.visited.len() == h.entries.len()
    &&& forall|p: int|
        0 <= p < h.entries.len() ==> (#[trigger] w.visited[p] <==> (o.contains(h.entries[p].id)
            || w.order.contains(p)))
    &&& forall|p: int, k: int|
        0 <= p < h.entries.len() && 0 <= k < h.entries[p].parents.len() && w.visited[p]
            ==> w.visited[#[trigger] parent_at(h.entries, p, k)]
    &&& w.order.no_duplicates()
    &&& forall|i: int|
        0 <= i < w.order.len() ==> 0 <= #[trigger] w.order[i] < h.entries.len() && !o.contains(
            h.entries[w.order[i]].id,
        )
    &&& forall|i: int, k: int|
        0 <= i < w.order.len() && 0 <= k < h.entries[w.order[i]].parents.len() ==> {
            let j = #[trigger] parent_at(h.entries, w.order[i], k);
            o.contains(h.entries[j].id) || w.order.take(i).contains(j)
        }
}

/// A walk that went on from another: it has seen what the other had seen and has
/// collected what the other had collected, in the same order, and maybe more.
pub open spec fn extends(w: Walk, later: Walk) -> bool {
    &&& later.visited.len() == w.visited.len()
    &&& later.order.len() >= w.order.len()
    &&& later.order.take(w.order.len() as int) == w.order
    &&& forall|p: int| 0 <= p < w.visited.len() && w.visited[p] ==> #[trigger] later.visited[p]
}

/// Going on twice is going on.
pub proof fn lemma_extends_transitive(a: Walk, b: Walk, c: Walk)
    requires
        extends(a, b),
        extends(b, c),
    ensures
        extends(a, c),
{
    assert(c.order.take(a.order.len() as int) =~= c.order.take(b.order.len() as int).take(
        a.order.len() as int,
    ));
    assert forall|p: int| 0 <= p < a.visited.len() && a.visited[p] implies #[trigger] c.visited[p] by {
        assert(b.visited[p]);
    }
}

/// Visiting an entry keeps a walk sound, sees the entry, and changes nothing behind it.
pub proof fn lemma_visit_sound<T>(h: DagView<T>, o: DagView<T>, w: Walk, node: int)
    requires
        h.wf(),
        sound(h, o, w),
        0 <= node < h.entries.len(),
    ensures
        sound(h, o, visit(h.entries, w, node)),
        visit(h.entries, w, node).visited[node],
        extends(w, visit(h.entries, w, node)),
        forall|p: int|
            node < p < h.entries.len() ==> visit(h.entries, w, node).visited[p] == w.visited[p],
    decreases node, 1int, 0int,
{
    let e = h.entries;
    if w.visited[node] {
        assert(w.order.take(w.order.len() as int) =~= w.order);
    } else {
        let w1 = visit_parents(e, w, node, 0);
        lemma_visit_parents_sound(h, o, w, node, 0);
        let w2 = visit(e, w, node);
        assert(w2.visited == w1.visited.update(node, true));
        assert(w2.order == w1.order.push(node));
        let last = w1.order.len() as int;
        assert(!w1.visited[node]);
        assert(!w1.order.contains(node));
        assert(!o.contains(e[node].id));
        assert forall|p: int| 0 <= p < e.len() implies (#[trigger] w2.visited[p] <==> (o.contains(
            e[p].id,
        ) || w2.order.contains(p))) by {
            if p == node {
                assert(w2.order[last] == node);
            } else {
                assert(w2.visited[p] == w1.visited[p]);
                if w1.order.contains(p) {
                    let i = choose|i: int| 0 <= i < w1.order.len() && w1.order[i] == p;
                    assert(w2.order[i] == p);
                }
                if w2.order.contains(p) {
                    let i = choose|i: int| 0 <= i < w2.order.len() && w2.order[i] == p;
                    assert(w1.order[i] == p);
                }
            }
        }
        assert forall|p: int, k: int|
            0 <= p < e.len() && 0 <= k < e[p].parents.len() && w2.visited[p] implies w2.visited[
        #[trigger] parent_at(e, p, k)] by {
            lemma_parent_at(h, p, k);
            if p != node {
                assert(w1.visited[p]);
                assert(w1.visited[parent_at(e, p, k)]);
            }
        }
        assert forall|a: int, b: int|
            0 <= a < w2.order.len() && 0 <= b < w2.order.len() && a != b implies w2.order[a]
            != w2.order[b] by {
            if a < last && b < last {
                assert(w1.order[a] != w1.order[b]);
            } else if a < last {
                assert(w1.order.contains(w1.order[a]));
            } else {
                assert(w1.order.contains(w1.order[b]));
            }
        }
        assert forall|i: int| 0 <= i < w2.order.len() implies 0 <= #[trigger] w2.order[i] < e.len()
            && !o.contains(e[w2.order[i]].id) by {
            if i < last {
                assert(w2.order[i] == w1.order[i]);
            }
        }
        assert forall|i: int, k: int|
            0 <= i < w2.order.len() && 0 <= k < e[w2.order[i]].parents.len() implies {
            let j = #[trigger] parent_at(e, w2.order[i], k);
            o.contains(e[j].id) || w2.order.take(i).contains(j)
        } by {
            let j = parent_at(e, w2.order[i], k);
            if i < last {
                assert(w2.order[i] == w1.order[i]);
                assert(w2.order.take(i) =~= w1.order.take(i));
            } else {
                lemma_parent_at(h, node, k);
                assert(w1.visited[j]);
                assert(w2.order.take(i) =~= w1.order);
            }
        }
        assert(w2.order.take(last) =~= w1.order);
        assert(w2.order.take(w.order.len() as int) =~= w1.order.take(w.order.len() as int));
        assert forall|p: int| 0 <= p < w.visited.len() && w.visited[p] implies #[trigger] w2.visited[p] by {
            assert(w1.visited[p]);
        }
    }
}

/// Visiting the parents of an entry keeps a walk sound, sees every parent that was
/// still to visit, and changes nothing from the entry on.
pub proof fn lemma_visit_parents_sound<T>(h: DagView<T>, o: DagView<T>, w: Walk, node: int, k: int)
    requires
        h.wf(),
        sound(h, o, w),
        0 <= node < h.entries.len(),
        0 <= k <= h.entries[node].parents.len(),
    ensures
        sound(h, o, visit_parents(h.entries, w, node, k)),
        extends(w, visit_parents(h.entries, w, node, k)),
        forall|p: int|
            node <= p < h.entries.len() ==> visit_parents(h.entries, w, node, k).visited[p]
                == w.visited[p],
        forall|k2: int|
            k <= k2 < h.entries[node].parents.len() ==> visit_parents(
                h.entries,
                w,
                node,
                k,
            ).visited[#[trigger] parent_at(h.entries, node, k2)],
    decreases node, 0int, h.entries[node].parents.len() - k,
{
    let e = h.entries;
    if k < e[node].parents.len() {
        lemma_parent_at(h, node, k);
        let j = parent_at(e, node, k);
        let w1 = visit(e, w, j);
        lemma_visit_sound(h, o, w, j);
        lemma_visit_parents_sound(h, o, w1, node, k + 1);
        let w2 = visit_parents(e, w1, node, k + 1);
        assert(visit_parents(e, w, node, k) == w2);
        lemma_extends_transitive(w, w1, w2);
        assert forall|k2: int| k <= k2 < e[node].parents.len() implies w2.visited[
        #[trigger] parent_at(e, node, k2)] by {
            if k2 == k {
                assert(w1.visited[j]);
            }
        }
    } else {
        assert(w.order.take(w.order.len() as int) =~= w.order);
    }
}

/// Visiting the heads keeps a walk sound and sees every head that was still to visit.
pub proof fn lemma_visit_heads_sound<T>(h: DagView<T>, o: DagView<T>, w: Walk, a: int)
    requires
        h.wf(),
        sound(h, o, w),
        0 <= a <= h.heads.len(),
    ensures
        sound(h, o, visit_heads(h.entries, h.heads, w, a)),
        extends(w, visit_heads(h.entries, h.heads, w, a)),
        forall|a2: int|
            a <= a2 < h.heads.len() ==> visit_heads(h.entries, h.heads, w, a).visited[
            #[trigger] h.heads[a2]],
    decreases h.heads.len() - a,
{
    if a < h.heads.len() {
        let w1 = visit(h.entries, w, h.heads[a]);
        lemma_visit_sound(h, o, w, h.heads[a]);
        lemma_visit_heads_sound(h, o, w1, a + 1);
        let w2 = visit_heads(h.entries, h.heads, w1, a + 1);
        lemma_extends_transitive(w, w1, w2);
        assert forall|a2: int| a <= a2 < h.heads.len() implies w2.visited[#[trigger] h.heads[a2]] by {
            if a2 == a {
                assert(w1.visited[h.heads[a]]);
            }
        }
    } else {
        assert(w.order.take(w.order.len() as int) =~= w.order);
    }
}

/// A sound walk that has seen every head has seen everything.
pub proof fn lemma_all_seen<T>(h: DagView<T>, o: DagView<T>, w: Walk, x: int)
    requires
        h.wf(),
        sound(h, o, w),
        forall|a: int| 0 <= a < h.heads.len() ==> w.visited[#[trigger] h.heads[a]],
        0 <= x < h.entries.len(),
    ensures
        w.visited[x],
    decreases h.entries.len() - x,
{
    if h.heads.contains(x) {
        let a = choose|a: int| 0 <= a < h.heads.len() && h.heads[a] == x;
        assert(w.visited[h.heads[a]]);
    } else {
        assert(h.has_child(x));
        let (j, k) = choose|j: int, k: int| h.is_parent_slot(x, j, k);
        lemma_parent_at(h, j, k);
        lemma_index_of_own(h, x);
        lemma_all_seen(h, o, w, j);
        assert(w.visited[parent_at(h.entries, j, k)]);
    }
}

/// The walk that starts from what `o` knows and has collected nothing.
pub open spec fn start<T>(h: DagView<T>, o: DagView<T>) -> Walk {
    Walk { visited: known_to(h.entries, o), order: Seq::empty() }
}

/// The walk from what a compatible history knows is sound before it goes anywhere.
pub proof fn lemma_start_sound<T>(h: DagView<T>, o: DagView<T>)
    requires
        h.wf(),
        o.wf(),
        compatible(h, o),
    ensures
        sound(h, o, start(h, o)),
{
    let w = start(h, o);
    let e = h.entries;
    assert forall|p: int, k: int|
        0 <= p < e.len() && 0 <= k < e[p].parents.len() && w.visited[p] implies w.visited[
    #[trigger] parent_at(e, p, k)] by {
        lemma_parent_at(h, p, k);
        lemma_index_of(o.entries, e[p].id);
        let q = index_of(o.entries, e[p].id)->0;
        assert(o.entries[q] == e[p]);
        assert(index_of(o.entries, o.entries[q].parents[k]) is Some);
    }
}

/// What one history has for another that it is compatible with: each entry that the
/// other lacks, once, and none that it knows; and each after those of its parents that
/// the other lacks.
pub proof fn lemma_diff_sound<T>(h: DagView<T>, o: DagView<T>)
    requires
        h.wf(),
        o.wf(),
        compatible(h, o),
    ensures
        sound(h, o, visit_heads(h.entries, h.heads, start(h, o), 0)),
        forall|p: int|
            0 <= p < h.entries.len() ==> o.contains((#[trigger] h.entries[p]).id)
                || h.diff_positions(o).contains(p),
{
    let w = visit_heads(h.entries, h.heads, start(h, o), 0);
    lemma_start_sound(h, o);
    lemma_visit_heads_sound(h, o, start(h, o), 0);
    assert forall|p: int| 0 <= p < h.entries.len() implies o.contains((#[trigger] h.entries[p]).id)
        || h.diff_positions(o).contains(p) by {
        lemma_all_seen(h, o, w, p);
    }
}

/// Whether `batch` names the entry with identity `id` before its `i`-th entry.
pub open spec fn named_before<T>(batch: Seq<EntryView<T>>, i: int, id: IdView) -> bool {
    exists|j: int| 0 <= j < i && (#[trigger] batch[j]).id == id
}

/// Whether `batch` is what `h` has for `o`: entries of `h` that `o` lacks, each once;
/// all of them; and each behind those of its parents that `o` lacks.
pub open spec fn is_diff<T>(h: DagView<T>, o: DagView<T>, batch: Seq<EntryView<T>>) -> bool {
    &&& forall|i: int|
        0 <= i < batch.len() ==> h.entries.contains(#[trigger] batch[i]) && !o.contains(
            batch[i].id,
        )
    &&& forall|i: int, j: int|
        0 <= i < j < batch.len() ==> (#[trigger] batch[i]).id != (#[trigger] batch[j]).id
    &&& forall|p: int|
        0 <= p < h.entries.len() && !o.contains((#[trigger] h.entries[p]).id) ==> batch.contains(
            h.entries[p],
        )
    &&& forall|i: int, k: int|
        0 <= i < batch.len() && 0 <= k < batch[i].parents.len() ==> o.contains(
            #[trigger] batch[i].parents[k],
        ) || named_before(batch, i, batch[i].parents[k])
}

/// What one history has for another that it is compatible with is what the other
/// lacks, parents before children.
pub proof fn lemma_diff_is_diff<T>(h: DagView<T>, o: DagView<T>)
    requires
        h.wf(),
        o.wf(),
        compatible(h, o),
    ensures
        is_diff(h, o, h.diff(o)),
{
    let batch = h.diff(o);
    let ord = h.diff_positions(o);
    lemma_diff_sound(h, o);
    assert forall|i: int| 0 <= i < batch.len() implies h.entries.contains(#[trigger] batch[i])
        && !o.contains(batch[i].id) by {
        assert(batch[i] == h.entries[ord[i]]);
    }
    assert forall|i: int, j: int| 0 <= i < j < batch.len() implies (#[trigger] batch[i]).id != (
    #[trigger] batch[j]).id by {
        assert(batch[i] == h.entries[ord[i]]);
        assert(batch[j] == h.entries[ord[j]]);
        assert(ord[i] != ord[j]);
    }
    assert forall|p: int|
        0 <= p < h.entries.len() && !o.contains((#[trigger] h.entries[p]).id) implies batch.contains(
        h.entries[p],
    ) by {
        assert(ord.contains(p));
        let b = choose|b: int| 0 <= b < ord.len() && ord[b] == p;
        assert(batch[b] == h.entries[p]);
    }
    assert forall|i: int, k: int|
        0 <= i < batch.len() && 0 <= k < batch[i].parents.len() implies o.contains(
        #[trigger] batch[i].parents[k],
    ) || named_before(batch, i, batch[i].parents[k]) by {
        assert(batch[i] == h.entries[ord[i]]);
        lemma_parent_at(h, ord[i], k);
        let j = parent_at(h.entries, ord[i], k);
        if !o.contains(h.entries[j].id) {
            assert(ord.take(i).contains(j));
            let b = choose|b: int| 0 <= b < ord.take(i).len() && ord.take(i)[b] == j;
            assert(batch[b] == h.entries[j]);
        }
    }
}

/// The history after the entries `batch[i..]` arrived in turn.
pub open spec fn add_all<T>(h: DagView<T>, batch: Seq<EntryView<T>>, i: int) -> DagView<T>
    decreases batch.len() - i,
{
    if i < 0 || i >= batch.len() {
        h
    } else {
        add_all(h.add_remote(batch[i]), batch, i + 1)
    }
}

/// Whether two histories hold the same entries, in whatever order.
pub open spec fn same_entries<T>(h: DagView<T>, o: DagView<T>) -> bool {
    forall|e: EntryView<T>| #[trigger] h.entries.contains(e) <==> o.entries.contains(e)
}

/// A history that has taken in the first `i` entries of what a compatible history has
/// for it can take in the next: the entry is new to it, and its parents are known.
pub proof fn lemma_diff_step<T>(h: DagView<T>, o: DagView<T>, cur: DagView<T>, i: int)
    requires
        h.wf(),
        o.wf(),
        compatible(h, o),
        0 <= i < h.diff(o).len(),
        cur.entries == o.entries + h.diff(o).take(i),
    ensures
        cur.accepts(h.diff(o)[i]),
        cur.add_remote(h.diff(o)[i]).entries == o.entries + h.diff(o).take(i + 1),
{
    let batch = h.diff(o);
    let ord = h.diff_positions(o);
    lemma_diff_sound(h, o);
    let e = batch[i];
    assert(e == h.entries[ord[i]]);
    assert(!cur.contains(e.id)) by {
        lemma_contains(cur, e.id);
        lemma_contains(o, e.id);
        if cur.contains(e.id) {
            let c = choose|c: int| 0 <= c < cur.entries.len() && (#[trigger] cur.entries[c]).id
                == e.id;
            if c < o.entries.len() {
                assert(o.entries[c].id == e.id);
            } else {
                let b = c - o.entries.len();
                assert(cur.entries[c] == batch[b]);
                assert(batch[b] == h.entries[ord[b]]);
                assert(ord[b] != ord[i]);
            }
        }
    }
    assert(cur.contains_all(e.parents)) by {
        assert forall|k: int| 0 <= k < e.parents.len() implies cur.contains(
            #[trigger] e.parents[k],
        ) by {
            lemma_parent_at(h, ord[i], k);
            let j = parent_at(h.entries, ord[i], k);
            lemma_contains(cur, e.parents[k]);
            lemma_contains(o, e.parents[k]);
            if o.contains(h.entries[j].id) {
                let c = choose|c: int| 0 <= c < o.entries.len() && (#[trigger] o.entries[c]).id
                    == e.parents[k];
                assert(cur.entries[c].id == e.parents[k]);
            } else {
                assert(ord.take(i).contains(j));
                let b = choose|b: int| 0 <= b < ord.take(i).len() && ord.take(i)[b] == j;
                assert(batch[b] == h.entries[j]);
                assert(cur.entries[o.entries.len() + b] == batch[b]);
            }
        }
    }
    assert(cur.add_remote(e).entries =~= o.entries + batch.take(i + 1));
}

/// Taking in what a compatible history has for it, a history takes in every entry of
/// the batch: it then holds its own entries followed by the batch, and is well-formed.
pub proof fn lemma_add_all_diff<T>(h: DagView<T>, o: DagView<T>, cur: DagView<T>, i: int)
    requires
        h.wf(),
        o.wf(),
        compatible(h, o),
        0 <= i <= h.diff(o).len(),
        cur.wf(),
        cur.entries == o.entries + h.diff(o).take(i),
    ensures
        add_all(cur, h.diff(o), i).wf(),
        add_all(cur, h.diff(o), i).entries == o.entries + h.diff(o),
    decreases h.diff(o).len() - i,
{
    let batch = h.diff(o);
    if i < batch.len() {
        lemma_diff_step(h, o, cur, i);
        lemma_add_remote_wf(cur, batch[i]);
        lemma_add_all_diff(h, o, cur.add_remote(batch[i]), i + 1);
    } else {
        assert(batch.take(i) =~= batch);
    }
}

/// After taking in what each has for the other, two compatible histories hold the
/// same entries.
pub proof fn lemma_exchange_same_entries<T>(h: DagView<T>, o: DagView<T>)
    requires
        h.wf(),
        o.wf(),
        compatible(h, o),
    ensures
        add_all(h, o.diff(h), 0).wf(),
        add_all(o, h.diff(o), 0).wf(),
        same_entries(add_all(h, o.diff(h), 0), add_all(o, h.diff(o), 0)),
{
    lemma_compatible_symmetric(h, o);
    assert(h.entries + o.diff(h).take(0) =~= h.entries);
    assert(o.entries + h.diff(o).take(0) =~= o.entries);
    lemma_add_all_diff(o, h, h, 0);
    lemma_add_all_diff(h, o, o, 0);
    let h2 = add_all(h, o.diff(h), 0);
    let o2 = add_all(o, h.diff(o), 0);
    assert forall|e: EntryView<T>| #[trigger] h2.entries.contains(e) <==> o2.entries.contains(e) by {
        lemma_union_entries(o, h, e);
        lemma_union_entries(h, o, e);
    }
}

/// Compatibility does not depend on which of the two histories is named first.
pub proof fn lemma_compatible_symmetric<T>(h: DagView<T>, o: DagView<T>)
    requires
        compatible(h, o),
    ensures
        compatible(o, h),
{
    assert forall|i: int, j: int|
        0 <= i < o.entries.len() && 0 <= j < h.entries.len() && (#[trigger] o.entries[i]).id == (
        #[trigger] h.entries[j]).id implies o.entries[i] == h.entries[j] by {
        assert(h.entries[j].id == o.entries[i].id);
    }
}

/// The entries of a history followed by what a compatible history has for it are the
/// entries of the one or the other.
pub proof fn lemma_union_entries<T>(h: DagView<T>, o: DagView<T>, e: EntryView<T>)
    requires
        h.wf(),
        o.wf(),
        compatible(h, o),
    ensures
        (o.entries + h.diff(o)).contains(e) <==> (o.entries.contains(e) || h.entries.contains(e)),
{
    let batch = h.diff(o);
    let ord = h.diff_positions(o);
    let all = o.entries + batch;
    lemma_diff_sound(h, o);
    if all.contains(e) {
        let c = choose|c: int| 0 <= c < all.len() && all[c] == e;
        if c < o.entries.len() {
            assert(o.entries[c] == e);
        } else {
            let b = c - o.entries.len();
            assert(batch[b] == e);
            assert(h.entries[ord[b]] == e);
        }
    }
    if o.entries.contains(e) {
        let c = choose|c: int| 0 <= c < o.entries.len() && o.entries[c] == e;
        assert(all[c] == e);
    }
    if h.entries.contains(e) && !o.entries.contains(e) {
        let p = choose|p: int| 0 <= p < h.entries.len() && h.entries[p] == e;
        lemma_contains(o, e.id);
        if o.contains(h.entries[p].id) {
            let c = choose|c: int| 0 <= c < o.entries.len() && (#[trigger] o.entries[c]).id
                == e.id;
            assert(h.entries[p] == o.entries[c]);
        }
        assert(ord.contains(p));
        let b = choose|b: int| 0 <= b < ord.len() && ord[b] == p;
        assert(batch[b] == e);
        assert(all[o.entries.len() + b] == e);
    }
}

/// Two well-formed histories that hold the same entries have the same heads.
pub proof fn lemma_same_heads<T>(h: DagView<T>, o: DagView<T>)
    requires
        h.wf(),
        o.wf(),
        same_entries(h, o),
    ensures
        h.head_set() == o.head_set(),
{
    assert forall|id: IdView| h.head_set().contains(id) <==> o.head_set().contains(id) by {
        if h.head_set().contains(id) {
            lemma_head_carries(h, o, id);
        }
        if o.head_set().contains(id) {
            assert forall|e: EntryView<T>| #[trigger] o.entries.contains(e) <==> h.entries.contains(
                e,
            ) by {}
            lemma_head_carries(o, h, id);
        }
    }
    assert(h.head_set() =~= o.head_set());
}

/// A head of one history is a head of another that holds the same entries.
pub proof fn lemma_head_carries<T>(h: DagView<T>, o: DagView<T>, id: IdView)
    requires
        h.wf(),
        o.wf(),
        same_entries(h, o),
        h.head_set().contains(id),
    ensures
        o.head_set().contains(id),
{
    let a = choose|a: int| 0 <= a < h.head_ids().len() && h.head_ids()[a] == id;
    let i = h.heads[a];
    assert(h.heads.contains(i));
    assert(!h.has_child(i));
    assert(h.entries.contains(h.entries[i]));
    assert(o.entries.contains(h.entries[i]));
    let j = choose|j: int| 0 <= j < o.entries.len() && o.entries[j] == h.entries[i];
    if o.has_child(j) {
        let (c, k) = choose|c: int, k: int| o.is_parent_slot(j, c, k);
        assert(o.entries.contains(o.entries[c]));
        assert(h.entries.contains(o.entries[c]));
        let c2 = choose|c2: int| 0 <= c2 < h.entries.len() && h.entries[c2] == o.entries[c];
        assert(h.is_parent_slot(i, c2, k));
    }
    assert(o.heads.contains(j));
    let b = choose|b: int| 0 <= b < o.heads.len() && o.heads[b] == j;
    assert(o.head_ids()[b] == id);
}

/// Convergence of the frontier: after two compatible histories have each taken in
/// what the other had for it, they know the same entries and have the same heads.
pub proof fn lemma_exchange_same_heads<T>(h: DagView<T>, o: DagView<T>)
    requires
        h.wf(),
        o.wf(),
        compatible(h, o),
    ensures
        same_entries(add_all(h, o.diff(h), 0), add_all(o, h.diff(o), 0)),
        add_all(h, o.diff(h), 0).head_set() == add_all(o, h.diff(o), 0).head_set(),
{
    lemma_exchange_same_entries(h, o);
    lemma_same_heads(add_all(h, o.diff(h), 0), add_all(o, h.diff(o), 0));
}

} // verus!
