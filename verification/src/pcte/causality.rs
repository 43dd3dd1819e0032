use crate::history::ancestry::{
    is_ancestor, lemma_ancestor_before, lemma_ancestor_carries, lemma_ancestor_push,
    lemma_ancestors_known, lemma_local_entry_covers,
};
use crate::history::convergence::{
    compatible, lemma_compatible_symmetric, lemma_contains, lemma_diff_sound, lemma_diff_step,
};
use crate::history::dag::{lemma_add_remote_wf, DagView, EntryView};
use crate::pcte::model::{root_id, MessageView, NodeId, PcteView};
use crate::pcte::record::{lemma_after_entry_recorded, lemma_after_entry_wf};
use vstd::prelude::*;

verus! {

/// The identity of the character that an entry inserts, if it inserts one.
pub open spec fn inserted_id(e: EntryView<MessageView>) -> Option<NodeId> {
    match e.value {
        MessageView::Insert { id, .. } => Some(id),
        MessageView::Delete { .. } => None,
    }
}

/// Whether the character `id` was there for the entry at position `i`: it is the root,
/// or an ancestor of the entry inserts it.
pub open spec fn origin_known(entries: Seq<EntryView<MessageView>>, i: int, id: NodeId) -> bool {
    id == root_id() || exists|j: int| #[trigger]
        is_ancestor(entries, i, j) && inserted_id(entries[j]) == Some(id)
}

/// Whether the characters that the entry at position `i` names were there for it: the
/// origins of an insertion, which does not insert the root, and the character of a
/// deletion.
pub open spec fn entry_grounded(entries: Seq<EntryView<MessageView>>, i: int) -> bool {
    match entries[i].value {
        MessageView::Insert { id, left, right, .. } => id != root_id() && origin_known(
            entries,
            i,
            left,
        ) && origin_known(entries, i, right),
        MessageView::Delete { id } => origin_known(entries, i, id),
    }
}

/// Origin causality: every entry names only characters that its ancestors insert, and
/// no character is inserted by two entries.
pub open spec fn causal(h: DagView<MessageView>) -> bool {
    &&& forall|i: int| 0 <= i < h.entries.len() ==> #[trigger] entry_grounded(h.entries, i)
    &&& forall|i: int, j: int|
        0 <= i < h.entries.len() && 0 <= j < h.entries.len() && inserted_id(
            #[trigger] h.entries[i],
        ) is Some && inserted_id(h.entries[i]) == inserted_id(#[trigger] h.entries[j]) ==> i == j
}

/// Whether two histories agree: they are compatible, and entries of the two that
/// insert the same character are one entry.
pub open spec fn agree(s: DagView<MessageView>, r: DagView<MessageView>) -> bool {
    &&& compatible(s, r)
    &&& forall|i: int, j: int|
        0 <= i < s.entries.len() && 0 <= j < r.entries.len() && inserted_id(
            #[trigger] s.entries[i],
        ) is Some && inserted_id(s.entries[i]) == inserted_id(#[trigger] r.entries[j])
            ==> s.entries[i] == r.entries[j]
}

/// Agreement does not depend on which of the two histories is named first.
pub proof fn lemma_agree_symmetric(s: DagView<MessageView>, r: DagView<MessageView>)
    requires
        agree(s, r),
    ensures
        agree(r, s),
{
    lemma_compatible_symmetric(s, r);
    assert forall|i: int, j: int|
        0 <= i < r.entries.len() && 0 <= j < s.entries.len() && inserted_id(
            #[trigger] r.entries[i],
        ) is Some && inserted_id(r.entries[i]) == inserted_id(
            #[trigger] s.entries[j],
        ) implies r.entries[i] == s.entries[j] by {
        assert(inserted_id(s.entries[j]) == inserted_id(r.entries[i]));
    }
}

/// Whether the history holds an entry that inserts the character `id`, or `id` is the
/// root.
pub open spec fn placed_by(h: DagView<MessageView>, id: NodeId) -> bool {
    id == root_id() || exists|x: int|
        0 <= x < h.entries.len() && inserted_id(#[trigger] h.entries[x]) == Some(id)
}

/// Whether a local operation with the given value names only characters that the
/// history has placed, and inserts none that it has placed.
pub open spec fn fits_history(h: DagView<MessageView>, value: MessageView) -> bool {
    match value {
        MessageView::Insert { id, left, right, .. } => id != root_id() && placed_by(h, left)
            && placed_by(h, right) && forall|x: int|
            0 <= x < h.entries.len() ==> inserted_id(#[trigger] h.entries[x]) != Some(id),
        MessageView::Delete { id } => placed_by(h, id),
    }
}

/// What was there for an entry is there for it when another entry follows.
pub proof fn lemma_grounded_push(
    entries: Seq<EntryView<MessageView>>,
    e: EntryView<MessageView>,
    i: int,
)
    requires
        0 <= i < entries.len(),
        entry_grounded(entries, i),
    ensures
        entry_grounded(entries.push(e), i),
{
    let longer = entries.push(e);
    assert(longer[i] == entries[i]);
    assert forall|id: NodeId| origin_known(entries, i, id) implies origin_known(longer, i, id) by {
        if id != root_id() {
            let j = choose|j: int| #[trigger]
                is_ancestor(entries, i, j) && inserted_id(entries[j]) == Some(id);
            lemma_ancestor_before(entries, i, j);
            lemma_ancestor_push(entries, e, i, j, 0);
            assert(longer[j] == entries[j]);
            assert(is_ancestor(longer, i, j));
        }
    }
}

/// A local operation that fits the history keeps the history causal.
pub proof fn lemma_add_local_causal(h: DagView<MessageView>, value: MessageView)
    requires
        h.wf(),
        causal(h),
        fits_history(h, value),
    ensures
        causal(h.add_local(value)),
{
    let g = h.add_local(value);
    let n = h.entries.len() as int;
    let e = h.local_entry(value);
    assert(g.entries[n] == e);
    assert forall|id: NodeId| placed_by(h, id) implies origin_known(g.entries, n, id) by {
        if id != root_id() {
            let x = choose|x: int|
                0 <= x < h.entries.len() && inserted_id(#[trigger] h.entries[x]) == Some(id);
            lemma_local_entry_covers(h, value, x);
            assert(g.entries[x] == h.entries[x]);
        }
    }
    assert forall|i: int| 0 <= i < g.entries.len() implies #[trigger] entry_grounded(
        g.entries,
        i,
    ) by {
        if i < n {
            lemma_grounded_push(h.entries, e, i);
        }
    }
    assert forall|i: int, j: int|
        0 <= i < g.entries.len() && 0 <= j < g.entries.len() && inserted_id(
            #[trigger] g.entries[i],
        ) is Some && inserted_id(g.entries[i]) == inserted_id(
            #[trigger] g.entries[j],
        ) implies i == j by {
        if i < n {
            assert(g.entries[i] == h.entries[i]);
        }
        if j < n {
            assert(g.entries[j] == h.entries[j]);
        }
    }
}

/// Taking in an entry of a causal history that it agrees with keeps a history causal
/// and in agreement.
pub proof fn lemma_add_remote_causal(s: DagView<MessageView>, cur: DagView<MessageView>, i: int)
    requires
        s.wf(),
        causal(s),
        cur.wf(),
        causal(cur),
        agree(s, cur),
        0 <= i < s.entries.len(),
        cur.accepts(s.entries[i]),
    ensures
        causal(cur.add_remote(s.entries[i])),
        agree(s, cur.add_remote(s.entries[i])),
{
    let e = s.entries[i];
    let next = cur.add_remote(e);
    let n = cur.entries.len() as int;
    lemma_add_remote_wf(cur, e);
    lemma_contains(cur, e.id);
    assert(next.entries[n] == e);
    assert forall|a: int| 0 <= a < n implies next.entries[a] == cur.entries[a] by {}
    assert(compatible(s, next)) by {
        assert forall|a: int, b: int|
            0 <= a < s.entries.len() && 0 <= b < next.entries.len() && (
            #[trigger] s.entries[a]).id == (#[trigger] next.entries[b]).id implies s.entries[a]
            == next.entries[b] by {
            if b < n {
                assert(next.entries[b] == cur.entries[b]);
            }
        }
    }
    assert(agree(s, next)) by {
        assert forall|a: int, b: int|
            0 <= a < s.entries.len() && 0 <= b < next.entries.len() && inserted_id(
                #[trigger] s.entries[a],
            ) is Some && inserted_id(s.entries[a]) == inserted_id(
                #[trigger] next.entries[b],
            ) implies s.entries[a] == next.entries[b] by {
            if b < n {
                assert(next.entries[b] == cur.entries[b]);
            } else {
                assert(inserted_id(s.entries[a]) == inserted_id(s.entries[i]));
            }
        }
    }
    assert forall|id: NodeId| origin_known(s.entries, i, id) implies origin_known(
        next.entries,
        n,
        id,
    ) by {
        if id != root_id() {
            let j = choose|j: int| #[trigger]
                is_ancestor(s.entries, i, j) && inserted_id(s.entries[j]) == Some(id);
            lemma_ancestor_carries(s, next, i, n, j);
        }
    }
    assert(entry_grounded(s.entries, i));
    assert forall|a: int| 0 <= a < next.entries.len() implies #[trigger] entry_grounded(
        next.entries,
        a,
    ) by {
        if a < n {
            lemma_grounded_push(cur.entries, e, a);
        }
    }
    assert forall|a: int, b: int|
        0 <= a < next.entries.len() && 0 <= b < next.entries.len() && inserted_id(
            #[trigger] next.entries[a],
        ) is Some && inserted_id(next.entries[a]) == inserted_id(
            #[trigger] next.entries[b],
        ) implies a == b by {
        if a < n && b == n {
            assert(inserted_id(s.entries[i]) == inserted_id(cur.entries[a]));
            assert(cur.entries[a].id == e.id);
        }
        if b < n && a == n {
            assert(inserted_id(s.entries[i]) == inserted_id(cur.entries[b]));
            assert(cur.entries[b].id == e.id);
        }
        if a < n && b < n {
            assert(next.entries[a] == cur.entries[a] && next.entries[b] == cur.entries[b]);
        }
    }
}

/// In a recorded replica the history has placed every character node.
pub proof fn lemma_node_placed(v: PcteView, k: int)
    requires
        v.shaped(),
        v.recorded(),
        0 <= k < v.nodes.len(),
    ensures
        placed_by(v.history, v.nodes[k].id),
{
    if k >= 1 {
        assert(v.was_inserted(k));
        let i = choose|i: int| #[trigger] v.entry_inserts(i, k);
        assert(inserted_id(v.history.entries[i]) == Some(v.nodes[k].id));
    }
}

/// In a recorded replica the history inserts no character under an identity that the
/// identity map lacks.
pub proof fn lemma_free_identity(v: PcteView, id: NodeId)
    requires
        v.shaped(),
        v.recorded(),
        v.lookup(id) is None,
    ensures
        id != root_id(),
        forall|x: int|
            0 <= x < v.history.entries.len() ==> inserted_id(#[trigger] v.history.entries[x])
                != Some(id),
{
    v.lemma_lookup_own(0);
    assert forall|x: int| 0 <= x < v.history.entries.len() implies inserted_id(
        #[trigger] v.history.entries[x],
    ) != Some(id) by {
        assert(v.entry_applied(x));
    }
}

/// What a local insertion records fits the history of a recorded replica.
pub proof fn lemma_insert_fits(v: PcteView, index: int, character: char)
    requires
        v.shaped(),
        v.placed(),
        v.recorded(),
        0 <= index,
        v.insert_local(index, character) is Ok,
    ensures
        fits_history(v.history, v.local_insert_message(index, character)),
{
    let seen = v.seen();
    let s = v.text_order(0);
    v.lemma_text_order_unique();
    assert forall|i: int| 0 <= i < seen.len() implies 0 <= v.tree_nodes[#[trigger] seen[i]].node
        < v.nodes.len() by {
        assert(seen.contains(seen[i]));
        s.lemma_filter_contains_rev(|t: int| v.shows(t), seen[i]);
        let a = choose|a: int| 0 <= a < s.len() && s[a] == seen[i];
        assert(v.tree_nodes[s[a]].node == s[a] / 2);
    }
    if index > 0 {
        assert(0 <= v.tree_nodes[seen[index - 1]].node < v.nodes.len());
    }
    if index < seen.len() {
        assert(0 <= v.tree_nodes[seen[index]].node < v.nodes.len());
    }
    lemma_node_placed(v, v.left_origin(index));
    lemma_node_placed(v, v.right_origin(index));
    lemma_free_identity(v, (v.replica_id, (v.counter + 1) as usize));
}

/// What a local deletion records fits the history of a recorded replica.
pub proof fn lemma_delete_fits(v: PcteView, index: int)
    requires
        v.shaped(),
        v.placed(),
        v.recorded(),
        0 <= index,
        v.delete_local(index) is Ok,
    ensures
        fits_history(
            v.history,
            MessageView::Delete { id: v.nodes[v.tree_nodes[v.seen()[index]].node].id },
        ),
{
    let seen = v.seen();
    let s = v.text_order(0);
    v.lemma_text_order_unique();
    assert(seen.contains(seen[index]));
    s.lemma_filter_contains_rev(|t: int| v.shows(t), seen[index]);
    let a = choose|a: int| 0 <= a < s.len() && s[a] == seen[index];
    assert(v.tree_nodes[s[a]].node == s[a] / 2);
    lemma_node_placed(v, v.tree_nodes[seen[index]].node);
}

/// A recorded replica has placed what was there for an entry of a history that it
/// agrees with, once it knows the parents of the entry.
pub proof fn lemma_origin_placed(s: DagView<MessageView>, cur: PcteView, i: int, id: NodeId)
    requires
        s.wf(),
        cur.wf(),
        cur.recorded(),
        agree(s, cur.history),
        0 <= i < s.entries.len(),
        cur.history.contains_all(s.entries[i].parents),
        origin_known(s.entries, i, id),
    ensures
        cur.lookup(id) is Some,
{
    if id == root_id() {
        cur.lemma_lookup_own(0);
    } else {
        let j = choose|j: int| #[trigger]
            is_ancestor(s.entries, i, j) && inserted_id(s.entries[j]) == Some(id);
        lemma_ancestor_before(s.entries, i, j);
        lemma_ancestors_known(s, cur.history, i, j);
        lemma_contains(cur.history, s.entries[j].id);
        let q = choose|q: int|
            0 <= q < cur.history.entries.len() && (#[trigger] cur.history.entries[q]).id
                == s.entries[j].id;
        assert(cur.history.entries[q] == s.entries[j]);
        assert(cur.entry_applied(q));
    }
}

/// A recorded replica takes in an entry of a causal history that it agrees with, once
/// it knows the parents of the entry.
pub proof fn lemma_entry_applies(s: DagView<MessageView>, cur: PcteView, i: int)
    requires
        s.wf(),
        causal(s),
        cur.wf(),
        cur.recorded(),
        agree(s, cur.history),
        0 <= i < s.entries.len(),
        cur.history.accepts(s.entries[i]),
    ensures
        cur.apply_entry(s.entries[i]) is Ok,
{
    let e = s.entries[i];
    assert(entry_grounded(s.entries, i));
    match e.value {
        MessageView::Insert { id, left, right, .. } => {
            lemma_origin_placed(s, cur, i, left);
            lemma_origin_placed(s, cur, i, right);
            if cur.lookup(id) is Some {
                cur.lemma_lookup(id);
                let k = cur.lookup(id)->0;
                assert(cur.nodes[0].id == root_id());
                assert(cur.was_inserted(k));
                let m = choose|m: int| #[trigger] cur.entry_inserts(m, k);
                assert(inserted_id(s.entries[i]) == inserted_id(cur.history.entries[m]));
                assert(s.entries[i] == cur.history.entries[m]);
                lemma_contains(cur.history, e.id);
            }
        },
        MessageView::Delete { id } => {
            lemma_origin_placed(s, cur, i, id);
        },
    }
}

/// A recorded replica with a causal history takes in without an error what a causal
/// history that it agrees with has for it, and stays recorded and causal.
pub proof fn lemma_batch_applies(s: DagView<MessageView>, r: DagView<MessageView>, cur: PcteView, i: int)
    requires
        s.wf(),
        causal(s),
        r.wf(),
        compatible(s, r),
        0 <= i <= s.diff(r).len(),
        cur.wf(),
        cur.recorded(),
        causal(cur.history),
        agree(s, cur.history),
        cur.history.entries == r.entries + s.diff(r).take(i),
    ensures
        cur.error_from(s.diff(r), i) is None,
        cur.apply_from(s.diff(r), i).recorded(),
        causal(cur.apply_from(s.diff(r), i).history),
    decreases s.diff(r).len() - i,
{
    let batch = s.diff(r);
    if i < batch.len() {
        let ord = s.diff_positions(r);
        lemma_diff_sound(s, r);
        let e = batch[i];
        assert(e == s.entries[ord[i]]);
        lemma_diff_step(s, r, cur.history, i);
        lemma_entry_applies(s, cur, ord[i]);
        lemma_after_entry_wf(cur, e);
        lemma_after_entry_recorded(cur, e);
        lemma_add_remote_causal(s, cur.history, ord[i]);
        let next = cur.after_entry(e);
        assert(next.history == cur.history.add_remote(e));
        lemma_batch_applies(s, r, next, i + 1);
    }
}

/// Origin causality keeps synchronisation from failing: two recorded replicas with
/// causal histories that agree are brought up to date with each other without an
/// error, and are recorded and causal afterwards.
pub proof fn lemma_synchronize_succeeds(a: PcteView, b: PcteView)
    requires
        a.wf(),
        b.wf(),
        a.recorded(),
        b.recorded(),
        causal(a.history),
        causal(b.history),
        agree(a.history, b.history),
    ensures
        a.error_from(b.pending_for(a), 0) is None,
        b.error_from(a.pending_for(b), 0) is None,
        causal(a.apply_batch(b.pending_for(a)).history),
        causal(b.apply_batch(a.pending_for(b)).history),
{
    lemma_agree_symmetric(a.history, b.history);
    assert(a.history.entries + b.history.diff(a.history).take(0) =~= a.history.entries);
    assert(b.history.entries + a.history.diff(b.history).take(0) =~= b.history.entries);
    lemma_batch_applies(b.history, a.history, a, 0);
    lemma_batch_applies(a.history, b.history, b, 0);
}

} // verus!
