use crate::history::convergence::same_entries;
use crate::history::dag::EntryView;
use crate::pcte::model::{slot_for, slot_of, MessageView, NodeId, NodeView, PcteView, SlotView};
use crate::history::dag::lemma_add_remote_wf;
use crate::pcte::placement::lemma_text_len;
use crate::pcte::shape::{lemma_erase_wf, lemma_place_wf, lemma_same_arenas, lemma_slot_of};
use vstd::prelude::*;
use vstd::set_lib::lemma_map_size;

verus! {

/// Whether a character node holds what an insertion of `character` leaves: the
/// character, or nothing once it was deleted.
pub open spec fn holds(node: NodeView, character: char) -> bool {
    node.character is None || node.character == Some(character)
}

impl PcteView {
    /// Whether the history entry at position `i` records the insertion of the
    /// character node at position `k`.
    pub open spec fn entry_inserts(self, i: int, k: int) -> bool {
        &&& 0 <= i < self.history.entries.len()
        &&& self.history.entries[i].value matches MessageView::Insert { id, character, .. }
        &&& id == self.nodes[k].id
        &&& holds(self.nodes[k], character)
    }

    /// Whether the history entry at position `i` records the deletion of the character
    /// node at position `k`.
    pub open spec fn entry_deletes(self, i: int, k: int) -> bool {
        &&& 0 <= i < self.history.entries.len()
        &&& self.history.entries[i].value == (MessageView::Delete { id: self.nodes[k].id })
    }

    /// Whether the replica shows what the history entry at position `i` records: the
    /// character of an insertion is placed, and the character of a deletion is gone.
    pub open spec fn entry_applied(self, i: int) -> bool {
        match self.history.entries[i].value {
            MessageView::Insert { id, character, .. } => self.lookup(id) matches Some(k) && 1 <= k
                && holds(self.nodes[k], character),
            MessageView::Delete { id } => self.lookup(id) matches Some(k)
                && self.nodes[k].character is None,
        }
    }

    /// Whether the characters of the replica are those that its history records: every
    /// character was inserted by an entry, every deleted character was deleted by an
    /// entry, and every entry has been applied.
    pub open spec fn recorded(self) -> bool {
        &&& forall|k: int| 1 <= k < self.nodes.len() ==> #[trigger] self.was_inserted(k)
        &&& forall|i: int| 0 <= i < self.history.entries.len() ==> #[trigger] self.entry_applied(i)
        &&& forall|k: int|
            1 <= k < self.nodes.len() && self.nodes[k].character is None
                ==> #[trigger] self.was_deleted(k)
    }

    /// Whether some history entry records the insertion of the character node at
    /// position `k`.
    pub open spec fn was_inserted(self, k: int) -> bool {
        exists|i: int| #[trigger] self.entry_inserts(i, k)
    }

    /// Whether some history entry records the deletion of the character node at
    /// position `k`.
    pub open spec fn was_deleted(self, k: int) -> bool {
        exists|i: int| #[trigger] self.entry_deletes(i, k)
    }

    /// Whether the replica shows `character` under the identity `id`.
    pub open spec fn shows_character(self, id: NodeId, character: char) -> bool {
        self.lookup(id) matches Some(k) && self.nodes[k].character == Some(character)
    }

    /// In a shaped replica the identity map finds every character node under its
    /// identity, and what it finds has the identity asked for.
    pub proof fn lemma_lookup(self, id: NodeId)
        requires
            self.shaped(),
        ensures
            match self.lookup(id) {
                Some(k) => 0 <= k < self.nodes.len() && self.nodes[k].id == id,
                None => forall|k: int| 0 <= k < self.nodes.len() ==> (#[trigger] self.nodes[k]).id != id,
            },
    {
        lemma_slot_of(self.id_to_node, id);
        match self.lookup(id) {
            Some(k) => {
                assert(self.id_to_node[k] == slot_for(self.nodes[k], k));
            },
            None => {
                self.lemma_lookup_none(id);
            },
        }
    }

    /// In a shaped replica the identity map finds a character node under its own
    /// identity.
    pub proof fn lemma_lookup_own(self, k: int)
        requires
            self.shaped(),
            0 <= k < self.nodes.len(),
        ensures
            self.lookup(self.nodes[k].id) == Some(k),
    {
        self.lemma_lookup(self.nodes[k].id);
    }
}

/// The position of a line in an identity map with one more line behind it.
pub proof fn lemma_slot_of_push(slots: Seq<SlotView>, one: SlotView, id: NodeId)
    ensures
        slot_of(slots.push(one), id) == match slot_of(slots, id) {
            Some(k) => Some(k),
            None => if one.id == id {
                Some(slots.len() as int)
            } else {
                None
            },
        },
{
    assert(slots.push(one).drop_last() =~= slots);
}

/// A replica that places a new character and records its insertion stays recorded.
pub proof fn lemma_recorded_insert(
    v: PcteView,
    w: PcteView,
    node: NodeView,
    e: EntryView<MessageView>,
)
    requires
        v.shaped(),
        v.recorded(),
        v.lookup(node.id) is None,
        w.nodes == v.nodes.push(node),
        w.id_to_node == v.id_to_node.push(slot_for(node, v.nodes.len() as int)),
        w.history.entries == v.history.entries.push(e),
        e.value matches MessageView::Insert { id, character, .. } && id == node.id
            && node.character == Some(character),
    ensures
        w.recorded(),
{
    let n = v.nodes.len() as int;
    let m = v.history.entries.len() as int;
    assert forall|k: int| 1 <= k < w.nodes.len() implies #[trigger] w.was_inserted(k) by {
        if k < n {
            assert(v.was_inserted(k));
            let i = choose|i: int| #[trigger] v.entry_inserts(i, k);
            assert(w.history.entries[i] == v.history.entries[i]);
            assert(w.nodes[k] == v.nodes[k]);
            assert(w.entry_inserts(i, k));
        } else {
            assert(w.entry_inserts(m, k));
        }
    }
    assert forall|i: int| 0 <= i < w.history.entries.len() implies #[trigger] w.entry_applied(
        i,
    ) by {
        if i < m {
            assert(v.entry_applied(i));
            assert(w.history.entries[i] == v.history.entries[i]);
            match v.history.entries[i].value {
                MessageView::Insert { id, .. } => {
                    lemma_slot_of_push(v.id_to_node, slot_for(node, n), id);
                    lemma_slot_of(v.id_to_node, id);
                    assert(w.nodes[v.lookup(id)->0] == v.nodes[v.lookup(id)->0]);
                },
                MessageView::Delete { id } => {
                    lemma_slot_of_push(v.id_to_node, slot_for(node, n), id);
                    lemma_slot_of(v.id_to_node, id);
                    assert(w.nodes[v.lookup(id)->0] == v.nodes[v.lookup(id)->0]);
                },
            }
        } else {
            lemma_slot_of_push(v.id_to_node, slot_for(node, n), node.id);
        }
    }
    assert forall|k: int|
        1 <= k < w.nodes.len() && w.nodes[k].character is None implies #[trigger] w.was_deleted(
        k,
    ) by {
        assert(w.nodes[k] == v.nodes[k]);
        assert(v.was_deleted(k));
        let i = choose|i: int| #[trigger] v.entry_deletes(i, k);
        assert(w.history.entries[i] == v.history.entries[i]);
        assert(w.entry_deletes(i, k));
    }
}

/// A replica that deletes a character and records the deletion stays recorded.
pub proof fn lemma_recorded_delete(v: PcteView, w: PcteView, k: int, e: EntryView<MessageView>)
    requires
        v.shaped(),
        v.recorded(),
        0 <= k < v.nodes.len(),
        w.nodes == v.erase(k).nodes,
        w.id_to_node == v.id_to_node,
        w.history.entries == v.history.entries.push(e),
        e.value == (MessageView::Delete { id: v.nodes[k].id }),
    ensures
        w.recorded(),
{
    let m = v.history.entries.len() as int;
    assert forall|j: int| 1 <= j < w.nodes.len() implies #[trigger] w.was_inserted(j) by {
        assert(v.was_inserted(j));
        let i = choose|i: int| #[trigger] v.entry_inserts(i, j);
        assert(w.history.entries[i] == v.history.entries[i]);
        assert(w.entry_inserts(i, j));
    }
    assert forall|i: int| 0 <= i < w.history.entries.len() implies #[trigger] w.entry_applied(
        i,
    ) by {
        if i < m {
            assert(v.entry_applied(i));
            assert(w.history.entries[i] == v.history.entries[i]);
            match v.history.entries[i].value {
                MessageView::Insert { id, .. } => {
                    v.lemma_lookup(id);
                    let j = v.lookup(id)->0;
                    assert(w.nodes[j].character is None || w.nodes[j] == v.nodes[j]);
                },
                MessageView::Delete { id } => {
                    v.lemma_lookup(id);
                    let j = v.lookup(id)->0;
                    assert(w.nodes[j].character is None);
                },
            }
        } else {
            v.lemma_lookup_own(k);
            assert(w.nodes[k].character is None);
        }
    }
    assert forall|j: int|
        1 <= j < w.nodes.len() && w.nodes[j].character is None implies #[trigger] w.was_deleted(
        j,
    ) by {
        if j == k {
            assert(w.entry_deletes(m, j));
        } else {
            assert(w.nodes[j] == v.nodes[j]);
            assert(v.was_deleted(j));
            let i = choose|i: int| #[trigger] v.entry_deletes(i, j);
            assert(w.history.entries[i] == v.history.entries[i]);
            assert(w.entry_deletes(i, j));
        }
    }
}

/// A local insertion keeps a replica recorded.
pub proof fn lemma_insert_local_recorded(v: PcteView, index: int, character: char)
    requires
        v.shaped(),
        v.recorded(),
        v.insert_local(index, character) is Ok,
    ensures
        v.insert_local(index, character)->Ok_0.recorded(),
{
    let w = v.insert_local(index, character)->Ok_0;
    let node = NodeView {
        id: (v.replica_id, (v.counter + 1) as usize),
        character: Some(character),
    };
    lemma_recorded_insert(v, w, node, v.recorded_insert(index, character));
}

/// A local deletion keeps a replica recorded.
pub proof fn lemma_delete_local_recorded(v: PcteView, index: int)
    requires
        v.shaped(),
        v.placed(),
        v.recorded(),
        0 <= index,
        v.delete_local(index) is Ok,
    ensures
        v.delete_local(index)->Ok_0.recorded(),
{
    let w = v.delete_local(index)->Ok_0;
    let seen = v.seen();
    let s = v.text_order(0);
    v.lemma_text_order_unique();
    assert(seen.contains(seen[index]));
    s.lemma_filter_contains_rev(|t: int| v.shows(t), seen[index]);
    let a = choose|a: int| 0 <= a < s.len() && s[a] == seen[index];
    assert(v.tree_nodes[s[a]].node == s[a] / 2);
    let k = v.tree_nodes[seen[index]].node;
    lemma_recorded_delete(
        v,
        w,
        k,
        v.history.local_entry(MessageView::Delete { id: v.nodes[k].id }),
    );
}

/// An entry that arrives leaves a well-formed replica well-formed.
pub proof fn lemma_after_entry_wf(v: PcteView, e: EntryView<MessageView>)
    requires
        v.wf(),
    ensures
        v.after_entry(e).wf(),
{
    if v.apply_entry(e) is Ok && !v.history.contains(e.id) {
        let applied = v.apply_message(e.value)->Ok_0;
        lemma_add_remote_wf(v.history, e);
        match e.value {
            MessageView::Insert { id, left, right, character } => {
                v.lemma_lookup(left);
                v.lemma_lookup(right);
                v.lemma_lookup(id);
                lemma_place_wf(
                    v,
                    NodeView { id, character: Some(character) },
                    2 * v.lookup(left)->0,
                    2 * v.lookup(right)->0 + 1,
                );
            },
            MessageView::Delete { id } => {
                v.lemma_lookup(id);
                lemma_erase_wf(v, v.lookup(id)->0);
            },
        }
        lemma_same_arenas(applied, v.after_entry(e));
    }
}

/// An entry that arrives leaves a recorded replica recorded.
pub proof fn lemma_after_entry_recorded(v: PcteView, e: EntryView<MessageView>)
    requires
        v.shaped(),
        v.recorded(),
    ensures
        v.after_entry(e).recorded(),
{
    if v.apply_entry(e) is Ok && !v.history.contains(e.id) {
        let w = v.after_entry(e);
        match e.value {
            MessageView::Insert { id, left, right, character } => {
                lemma_recorded_insert(v, w, NodeView { id, character: Some(character) }, e);
            },
            MessageView::Delete { id } => {
                v.lemma_lookup(id);
                lemma_recorded_delete(v, w, v.lookup(id)->0, e);
            },
        }
    }
}

/// A batch that arrives leaves a well-formed and recorded replica so.
pub proof fn lemma_after_batch(v: PcteView, batch: Seq<EntryView<MessageView>>, i: int)
    requires
        v.wf(),
        0 <= i,
    ensures
        v.apply_from(batch, i).wf(),
        v.recorded() ==> v.apply_from(batch, i).recorded(),
    decreases batch.len() - i,
{
    if i < batch.len() {
        lemma_after_entry_wf(v, batch[i]);
        if v.recorded() {
            lemma_after_entry_recorded(v, batch[i]);
        }
        if v.apply_entry(batch[i]) is Ok {
            lemma_after_batch(v.after_entry(batch[i]), batch, i + 1);
        }
    }
}

/// A character that one recorded replica shows is shown, under the same identity, by
/// every recorded replica whose history holds the same entries.
pub proof fn lemma_character_carries(a: PcteView, b: PcteView, id: NodeId, character: char)
    requires
        a.shaped(),
        b.shaped(),
        a.recorded(),
        b.recorded(),
        same_entries(a.history, b.history),
        a.shows_character(id, character),
    ensures
        b.shows_character(id, character),
{
    a.lemma_lookup(id);
    let k = a.lookup(id)->0;
    assert(a.nodes[0].character is None);
    assert(a.was_inserted(k));
    let i = choose|i: int| #[trigger] a.entry_inserts(i, k);
    let e = a.history.entries[i];
    assert(a.history.entries.contains(e));
    assert(b.history.entries.contains(e));
    let j = choose|j: int| 0 <= j < b.history.entries.len() && b.history.entries[j] == e;
    assert(b.entry_applied(j));
    b.lemma_lookup(id);
    let k2 = b.lookup(id)->0;
    if b.nodes[k2].character is None {
        assert(b.was_deleted(k2));
        let j2 = choose|j2: int| #[trigger] b.entry_deletes(j2, k2);
        let d = b.history.entries[j2];
        assert(b.history.entries.contains(d));
        assert(a.history.entries.contains(d));
        let i2 = choose|i2: int| 0 <= i2 < a.history.entries.len() && a.history.entries[i2] == d;
        assert(a.entry_applied(i2));
    }
}

/// Two recorded replicas whose histories hold the same entries show the same
/// characters under the same identities, and texts of the same length.
pub proof fn lemma_same_characters(a: PcteView, b: PcteView)
    requires
        a.shaped(),
        a.placed(),
        b.shaped(),
        b.placed(),
        a.recorded(),
        b.recorded(),
        same_entries(a.history, b.history),
    ensures
        forall|id: NodeId, character: char| #[trigger]
            a.shows_character(id, character) <==> b.shows_character(id, character),
        a.text().len() == b.text().len(),
{
    assert(same_entries(b.history, a.history)) by {
        assert forall|e: EntryView<MessageView>| #[trigger]
            b.history.entries.contains(e) <==> a.history.entries.contains(e) by {}
    }
    assert forall|id: NodeId, character: char| #[trigger]
        a.shows_character(id, character) <==> b.shows_character(id, character) by {
        if a.shows_character(id, character) {
            lemma_character_carries(a, b, id, character);
        }
        if b.shows_character(id, character) {
            lemma_character_carries(b, a, id, character);
        }
    }
    let twin = |k: int| b.lookup(a.nodes[k].id)->0;
    assert forall|k: int| a.live_nodes().contains(k) implies b.live_nodes().contains(twin(k))
        && b.nodes[twin(k)].id == a.nodes[k].id by {
        a.lemma_lookup_own(k);
        assert(a.shows_character(a.nodes[k].id, a.nodes[k].character->0));
        assert(b.shows_character(a.nodes[k].id, a.nodes[k].character->0));
        b.lemma_lookup(a.nodes[k].id);
    }
    assert(a.live_nodes().map(twin) =~= b.live_nodes()) by {
        assert forall|k2: int| b.live_nodes().contains(k2) implies a.live_nodes().map(
            twin,
        ).contains(k2) by {
            b.lemma_lookup_own(k2);
            assert(b.shows_character(b.nodes[k2].id, b.nodes[k2].character->0));
            assert(a.shows_character(b.nodes[k2].id, b.nodes[k2].character->0));
            a.lemma_lookup(b.nodes[k2].id);
            let k = a.lookup(b.nodes[k2].id)->0;
            assert(a.live_nodes().contains(k));
            assert(twin(k) == k2);
        }
    }
    assert(vstd::relations::injective_on(twin, a.live_nodes())) by {
        assert forall|k1: int, k2: int|
            a.live_nodes().contains(k1) && a.live_nodes().contains(k2) && #[trigger] twin(k1)
                == #[trigger] twin(k2) implies k1 == k2 by {
            assert(b.live_nodes().contains(twin(k1)));
            assert(b.live_nodes().contains(twin(k2)));
        }
    }
    lemma_text_len(a);
    lemma_text_len(b);
    lemma_map_size(a.live_nodes(), b.live_nodes(), twin);
}

} // verus!
