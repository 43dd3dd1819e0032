use crate::history::dag::{lemma_index_of_push, DagView, EntryView};
use crate::history::convergence::{add_all, compatible, lemma_exchange_same_heads, same_entries};
use crate::history::diff::{known_to, visit, visit_heads, visit_parents, Walk};
use crate::pcte::model::{MessageView, NodeId, PcteView};
use crate::pcte::record::{lemma_after_batch, lemma_same_characters};
use vstd::prelude::*;

verus! {

impl PcteView {
    /// The replica after an entry arrived, whether it could be taken in or not.
    pub open spec fn after_entry(self, e: EntryView<MessageView>) -> PcteView {
        match self.apply_entry(e) {
            Ok(next) => next,
            Err(_) => self,
        }
    }
}

/// An entry that arrives a second time changes nothing: the replica is then what it
/// was after the first time.
pub proof fn lemma_apply_entry_idempotent(v: PcteView, e: EntryView<MessageView>)
    ensures
        v.after_entry(e).after_entry(e) == v.after_entry(e),
{
    if v.apply_entry(e) is Ok && !v.history.contains(e.id) {
        lemma_index_of_push(v.history.entries, e, e.id);
    }
}

/// Two replicas that each take in a batch end in the same two states whichever of
/// them goes first, and so show the same two texts: what one takes in leaves the other
/// as it is.
pub proof fn lemma_exchange_commutes(
    a: PcteView,
    b: PcteView,
    for_a: Seq<EntryView<MessageView>>,
    for_b: Seq<EntryView<MessageView>>,
)
    ensures
        exchange_b(exchange_a((a, b), for_a), for_b) == exchange_a(
            exchange_b((a, b), for_b),
            for_a,
        ),
        exchange_b(exchange_a((a, b), for_a), for_b).0.text() == a.apply_batch(for_a).text(),
        exchange_b(exchange_a((a, b), for_a), for_b).1.text() == b.apply_batch(for_b).text(),
{
}

/// A pair of replicas after the first has taken in `batch`.
pub open spec fn exchange_a(pair: (PcteView, PcteView), batch: Seq<EntryView<MessageView>>) -> (
    PcteView,
    PcteView,
) {
    (pair.0.apply_batch(batch), pair.1)
}

/// A pair of replicas after the second has taken in `batch`.
pub open spec fn exchange_b(pair: (PcteView, PcteView), batch: Seq<EntryView<MessageView>>) -> (
    PcteView,
    PcteView,
) {
    (pair.0, pair.1.apply_batch(batch))
}

/// Visiting the parents of an entry changes nothing in a walk that has seen every
/// position before the entry.
pub proof fn lemma_parents_all_seen<T>(entries: Seq<EntryView<T>>, w: Walk, node: int, k: int)
    requires
        0 <= node < entries.len(),
        w.visited.len() == entries.len(),
        forall|j: int| 0 <= j < node ==> w.visited[j],
    ensures
        visit_parents(entries, w, node, k) == w,
    decreases entries[node].parents.len() - k,
{
    if 0 <= k < entries[node].parents.len() {
        lemma_parents_all_seen(entries, w, node, k + 1);
        match crate::history::dag::index_of(entries, entries[node].parents[k]) {
            Some(j) => {
                if 0 <= j < node {
                    assert(w.visited[j]);
                    assert(visit(entries, w, j) == w);
                }
            },
            None => {},
        }
    }
}

/// What a history that has just recorded a local value has for a history that knows
/// everything else of it: the new entry, and nothing more.
pub proof fn lemma_diff_after_local<T>(h: DagView<T>, other: DagView<T>, value: T)
    requires
        h.wf(),
        h.counter < usize::MAX,
        forall|i: int| 0 <= i < h.entries.len() ==> other.contains(#[trigger] h.entries[i].id),
        !other.contains(h.local_entry(value).id),
    ensures
        h.add_local(value).diff(other) == seq![h.local_entry(value)],
{
    let g = h.add_local(value);
    let n = h.entries.len() as int;
    let start = Walk { visited: known_to(g.entries, other), order: Seq::empty() };
    assert forall|j: int| 0 <= j < n implies start.visited[j] by {
        assert(g.entries[j] == h.entries[j]);
    }
    assert(g.entries[n] == h.local_entry(value));
    lemma_parents_all_seen(g.entries, start, n, 0);
    let after = visit(g.entries, start, n);
    assert(after.order == start.order.push(n));
    assert(visit_heads(g.entries, g.heads, after, 1) == after);
    assert(visit_heads(g.entries, g.heads, start, 0) == after);
    assert(g.diff_positions(other) =~= seq![n]);
    assert(g.diff(other) =~= seq![h.local_entry(value)]);
}

/// A local insertion reaches a replica that is brought up to date as it would have
/// reached it directly: for a replica that knows everything else of this one, what is
/// pending after the insertion is the one entry recorded for it, and taking in what is
/// pending is taking in that entry.
pub proof fn lemma_local_insert_reaches(a: PcteView, b: PcteView, index: int, character: char)
    requires
        a.wf(),
        a.history.counter < usize::MAX,
        a.insert_local(index, character) is Ok,
        forall|i: int|
            0 <= i < a.history.entries.len() ==> b.history.contains(
                #[trigger] a.history.entries[i].id,
            ),
        !b.history.contains(a.recorded_insert(index, character).id),
    ensures
        a.insert_local(index, character)->Ok_0.pending_for(b) == seq![
            a.recorded_insert(index, character),
        ],
        b.apply_batch(a.insert_local(index, character)->Ok_0.pending_for(b)) == b.after_entry(
            a.recorded_insert(index, character),
        ),
        b.apply_batch(a.insert_local(index, character)->Ok_0.pending_for(b)).text()
            == b.after_entry(a.recorded_insert(index, character)).text(),
{
    let e = a.recorded_insert(index, character);
    lemma_diff_after_local(a.history, b.history, a.local_insert_message(index, character));
    let batch = seq![e];
    assert(b.apply_from(batch, 0) == match b.apply_entry(batch[0]) {
        Ok(next) => next.apply_from(batch, 1),
        Err(_) => b,
    });
}

impl PcteView {
    /// The entry that the history records for a local insertion of `character` at
    /// `index`.
    pub open spec fn recorded_insert(self, index: int, character: char) -> EntryView<MessageView> {
        self.history.local_entry(self.local_insert_message(index, character))
    }
}

/// A replica that takes in a batch without an error takes every entry of the batch
/// into its history.
pub proof fn lemma_history_after_batch(v: PcteView, batch: Seq<EntryView<MessageView>>, i: int)
    requires
        0 <= i,
        v.error_from(batch, i) is None,
    ensures
        v.apply_from(batch, i).history == add_all(v.history, batch, i),
    decreases batch.len() - i,
{
    if i < batch.len() {
        let next = v.apply_entry(batch[i])->Ok_0;
        lemma_history_after_batch(next, batch, i + 1);
    }
}

/// Convergence of the frontier: after two replicas with compatible histories have
/// been brought up to date with each other without an error, their histories hold the
/// same entries and have the same heads.
pub proof fn lemma_synchronized_heads(a: PcteView, b: PcteView)
    requires
        a.wf(),
        b.wf(),
        compatible(a.history, b.history),
        a.error_from(b.pending_for(a), 0) is None,
        b.error_from(a.pending_for(b), 0) is None,
    ensures
        same_entries(
            a.apply_batch(b.pending_for(a)).history,
            b.apply_batch(a.pending_for(b)).history,
        ),
        a.apply_batch(b.pending_for(a)).history.head_set() == b.apply_batch(
            a.pending_for(b),
        ).history.head_set(),
{
    lemma_history_after_batch(a, b.pending_for(a), 0);
    lemma_history_after_batch(b, a.pending_for(b), 0);
    lemma_exchange_same_heads(a.history, b.history);
}

/// Convergence of the characters: after two recorded replicas with compatible
/// histories have been brought up to date with each other without an error, they show
/// the same characters under the same identities, and their texts have the same
/// length.
pub proof fn lemma_synchronized_characters(a: PcteView, b: PcteView)
    requires
        a.wf(),
        b.wf(),
        a.recorded(),
        b.recorded(),
        compatible(a.history, b.history),
        a.error_from(b.pending_for(a), 0) is None,
        b.error_from(a.pending_for(b), 0) is None,
    ensures
        forall|id: NodeId, character: char| #[trigger]
            a.apply_batch(b.pending_for(a)).shows_character(id, character) <==> b.apply_batch(
                a.pending_for(b),
            ).shows_character(id, character),
        a.apply_batch(b.pending_for(a)).text().len() == b.apply_batch(
            a.pending_for(b),
        ).text().len(),
{
    lemma_synchronized_heads(a, b);
    lemma_after_batch(a, b.pending_for(a), 0);
    lemma_after_batch(b, a.pending_for(b), 0);
    lemma_same_characters(a.apply_batch(b.pending_for(a)), b.apply_batch(a.pending_for(b)));
}

} // verus!
