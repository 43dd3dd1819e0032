use crate::handle_vec::{Handle, HandleVec};
use std::rc::Rc;
use vstd::prelude::*;

verus! {

/// What an entry identity is in specifications: the name of the replica that emitted
/// the entry, and the value of that replica's history counter when it did.
pub type IdView = (Seq<char>, usize);

/// The identity of a history entry.
#[derive(Debug)]
pub struct EntryId {
    pub replica_id: Rc<String>,
    pub counter: usize,
}

impl View for EntryId {
    type V = IdView;

    open spec fn view(&self) -> IdView {
        (self.replica_id@, self.counter)
    }
}

impl Clone for EntryId {
    fn clone(&self) -> (res: Self)
        ensures
            res == *self,
    {
        EntryId { replica_id: self.replica_id.clone(), counter: self.counter }
    }
}

impl EntryId {
    /// Whether two identities name the same entry.
    pub fn same(&self, other: &EntryId) -> (res: bool)
        ensures
            res == (self@ == other@),
    {
        self.counter == other.counter && *self.replica_id == *other.replica_id
    }
}

/// One record of the causal history: a value, and the identities of the entries that
/// were the emitter's heads when the record was made.
#[derive(Debug)]
pub struct DAGHistoryEntry<T> {
    pub id: EntryId,
    pub value: T,
    pub parents: Vec<EntryId>,
}

/// An entry as specifications see it, with the value as specifications see it.
pub struct EntryView<T> {
    pub id: IdView,
    pub value: T,
    pub parents: Seq<IdView>,
}

impl<T: View> View for DAGHistoryEntry<T> {
    type V = EntryView<T::V>;

    open spec fn view(&self) -> EntryView<T::V> {
        EntryView {
            id: self.id@,
            value: self.value@,
            parents: self.parents@.map_values(|p: EntryId| p@),
        }
    }
}

/// The causal history of one replica: every entry it knows, in the order in which it
/// came to know them, and the current frontier.
#[derive(Debug)]
pub struct DAGHistory<T> {
    pub replica_id: Rc<String>,
    pub counter: usize,
    pub heads: Vec<Handle<Rc<DAGHistoryEntry<T>>>>,
    pub history: HandleVec<Rc<DAGHistoryEntry<T>>>,
}

/// A history as specifications see it. `heads` holds positions in `entries`.
pub struct DagView<T> {
    pub replica_id: Seq<char>,
    pub counter: usize,
    pub heads: Seq<int>,
    pub entries: Seq<EntryView<T>>,
}

impl<T: View> View for DAGHistory<T> {
    type V = DagView<T::V>;

    open spec fn view(&self) -> DagView<T::V> {
        DagView {
            replica_id: self.replica_id@,
            counter: self.counter,
            heads: self.heads@.map_values(|h: Handle<Rc<DAGHistoryEntry<T>>>| h.0 as int),
            entries: self.history@.map_values(|e: Rc<DAGHistoryEntry<T>>| e@),
        }
    }
}

/// The position of the first entry with identity `id`, if there is one.
pub open spec fn index_of<T>(entries: Seq<EntryView<T>>, id: IdView) -> Option<int>
    decreases entries.len(),
{
    if entries.len() == 0 {
        None
    } else {
        match index_of(entries.drop_last(), id) {
            Some(i) => Some(i),
            None => if entries.last().id == id {
                Some(entries.len() - 1)
            } else {
                None
            },
        }
    }
}

/// What `index_of` finds is an entry with the identity asked for, and it misses none.
pub proof fn lemma_index_of<T>(entries: Seq<EntryView<T>>, id: IdView)
    ensures
        match index_of(entries, id) {
            Some(i) => 0 <= i < entries.len() && entries[i].id == id && forall|j: int|
                0 <= j < i ==> entries[j].id != id,
            None => forall|j: int| 0 <= j < entries.len() ==> entries[j].id != id,
        },
    decreases entries.len(),
{
    if entries.len() > 0 {
        let init = entries.drop_last();
        lemma_index_of(init, id);
        assert forall|j: int| 0 <= j < init.len() implies (entries[j].id != id <==> init[j].id
            != id) by {
            assert(init[j] == entries[j]);
        }
    }
}

/// Appending an entry changes no earlier answer of `index_of`.
pub proof fn lemma_index_of_push<T>(entries: Seq<EntryView<T>>, e: EntryView<T>, id: IdView)
    ensures
        index_of(entries.push(e), id) == match index_of(entries, id) {
            Some(i) => Some(i),
            None => if e.id == id {
                Some(entries.len() as int)
            } else {
                None
            },
        },
{
    assert(entries.push(e).drop_last() =~= entries);
}

impl<T> DagView<T> {
    /// Whether an entry with identity `id` is known.
    pub open spec fn contains(self, id: IdView) -> bool {
        index_of(self.entries, id) is Some
    }

    /// Whether every identity in `ids` is known.
    pub open spec fn contains_all(self, ids: Seq<IdView>) -> bool {
        forall|k: int| 0 <= k < ids.len() ==> self.contains(#[trigger] ids[k])
    }

    /// Whether entry `j` names the entry at position `i` as its `k`-th parent.
    pub open spec fn is_parent_slot(self, i: int, j: int, k: int) -> bool {
        &&& 0 <= j < self.entries.len()
        &&& 0 <= k < self.entries[j].parents.len()
        &&& self.entries[j].parents[k] == self.entries[i].id
    }

    /// Whether some known entry names the entry at position `i` as a parent.
    pub open spec fn has_child(self, i: int) -> bool {
        exists|j: int, k: int| self.is_parent_slot(i, j, k)
    }

    /// No two entries share an identity.
    pub open spec fn ids_unique(self) -> bool {
        forall|i: int, j: int|
            0 <= i < self.entries.len() && 0 <= j < self.entries.len() && self.entries[i].id
                == self.entries[j].id ==> i == j
    }

    /// Every parent of every entry is known, and was known before the entry.
    pub open spec fn closed(self) -> bool {
        forall|i: int, k: int|
            0 <= i < self.entries.len() && 0 <= k < self.entries[i].parents.len() ==> (
            #[trigger] index_of(self.entries, self.entries[i].parents[k]) matches Some(j) && j < i)
    }

    /// The heads are exactly the entries that no known entry names as a parent.
    pub open spec fn heads_maximal(self) -> bool {
        &&& self.heads.no_duplicates()
        &&& forall|a: int| 0 <= a < self.heads.len() ==> 0 <= #[trigger] self.heads[a] < self.entries.len()
        &&& forall|i: int|
            0 <= i < self.entries.len() ==> (self.heads.contains(i) <==> !#[trigger] self.has_child(i))
    }

    /// No entry of this replica's own making is ahead of the replica's counter.
    pub open spec fn counter_covers(self) -> bool {
        forall|i: int|
            0 <= i < self.entries.len() && (#[trigger] self.entries[i]).id.0 == self.replica_id
                ==> self.entries[i].id.1 <= self.counter
    }

    /// The invariant of a causal history.
    pub open spec fn wf(self) -> bool {
        &&& self.ids_unique()
        &&& self.closed()
        &&& self.heads_maximal()
        &&& self.counter_covers()
    }

    /// The identities of the heads, in the order in which `heads` holds them.
    pub open spec fn head_ids(self) -> Seq<IdView> {
        Seq::new(self.heads.len(), |a: int| self.entries[self.heads[a]].id)
    }

    /// The set of identities of the heads.
    pub open spec fn head_set(self) -> Set<IdView> {
        self.head_ids().to_set()
    }
}

/// The heads that stay heads when an entry with the given parents arrives: those that
/// the entry does not name.
pub open spec fn surviving_heads<T>(
    heads: Seq<int>,
    entries: Seq<EntryView<T>>,
    parents: Seq<IdView>,
) -> Seq<int>
    decreases heads.len(),
{
    if heads.len() == 0 {
        Seq::empty()
    } else {
        let rest = surviving_heads(heads.drop_last(), entries, parents);
        if parents.contains(entries[heads.last()].id) {
            rest
        } else {
            rest.push(heads.last())
        }
    }
}

/// `surviving_heads` keeps exactly the heads that are not named, each once.
pub proof fn lemma_surviving_heads<T>(
    heads: Seq<int>,
    entries: Seq<EntryView<T>>,
    parents: Seq<IdView>,
)
    requires
        heads.no_duplicates(),
    ensures
        surviving_heads(heads, entries, parents).no_duplicates(),
        forall|x: int|
            #[trigger] surviving_heads(heads, entries, parents).contains(x) <==> (heads.contains(
                x,
            ) && !parents.contains(entries[x].id)),
    decreases heads.len(),
{
    let out = surviving_heads(heads, entries, parents);
    if heads.len() > 0 {
        let init = heads.drop_last();
        let last = heads.last();
        let rest = surviving_heads(init, entries, parents);
        let named = parents.contains(entries[last].id);
        lemma_surviving_heads(init, entries, parents);
        assert(!init.contains(last)) by {
            if init.contains(last) {
                let a = choose|a: int| 0 <= a < init.len() && init[a] == last;
                assert(heads[a] == heads[heads.len() - 1]);
            }
        }
        assert forall|x: int| #[trigger] out.contains(x) <==> (heads.contains(x)
            && !parents.contains(entries[x].id)) by {
            if out.contains(x) {
                let a = choose|a: int| 0 <= a < out.len() && out[a] == x;
                if a < rest.len() {
                    assert(rest[a] == x);
                    assert(rest.contains(x));
                    let c = choose|c: int| 0 <= c < init.len() && init[c] == x;
                    assert(heads[c] == x);
                } else {
                    assert(x == last);
                    assert(heads[heads.len() - 1] == x);
                }
            }
            if heads.contains(x) && !parents.contains(entries[x].id) {
                let a = choose|a: int| 0 <= a < heads.len() && heads[a] == x;
                if a < init.len() {
                    assert(init[a] == x);
                    assert(init.contains(x));
                    assert(rest.contains(x));
                    let c = choose|c: int| 0 <= c < rest.len() && rest[c] == x;
                    assert(out[c] == x);
                } else {
                    assert(out[rest.len() as int] == x);
                }
            }
        }
        assert forall|a: int, b: int| 0 <= a < out.len() && 0 <= b < out.len() && a != b implies out[a]
            != out[b] by {
            if a < rest.len() && b < rest.len() {
                assert(rest[a] != rest[b]);
            } else if a < rest.len() {
                assert(rest.contains(rest[a]));
            } else {
                assert(rest.contains(rest[b]));
            }
        }
    }
}

impl<T> DagView<T> {
    /// The entry that a local operation with the given value makes: it takes the next
    /// counter value of this replica and names the current heads as its parents.
    pub open spec fn local_entry(self, value: T) -> EntryView<T> {
        EntryView {
            id: (self.replica_id, (self.counter + 1) as usize),
            value,
            parents: self.head_ids(),
        }
    }

    /// The history after a local operation: the new entry is the only head.
    pub open spec fn add_local(self, value: T) -> DagView<T> {
        DagView {
            replica_id: self.replica_id,
            counter: (self.counter + 1) as usize,
            heads: seq![self.entries.len() as int],
            entries: self.entries.push(self.local_entry(value)),
        }
    }

    /// Whether a foreign entry can be taken in: it is new, and its parents are known.
    pub open spec fn accepts(self, e: EntryView<T>) -> bool {
        !self.contains(e.id) && self.contains_all(e.parents)
    }

    /// The history after an entry arrived from elsewhere. An entry that cannot be taken
    /// in changes nothing. Otherwise it becomes a head in place of its parents, and the
    /// counter moves up to it if it carries this replica's own name.
    pub open spec fn add_remote(self, e: EntryView<T>) -> DagView<T> {
        if self.accepts(e) {
            DagView {
                replica_id: self.replica_id,
                counter: if e.id.0 == self.replica_id && e.id.1 > self.counter {
                    e.id.1
                } else {
                    self.counter
                },
                heads: surviving_heads(self.heads, self.entries, e.parents).push(
                    self.entries.len() as int,
                ),
                entries: self.entries.push(e),
            }
        } else {
            self
        }
    }
}

/// In a well-formed history an entry is found at its own position.
pub proof fn lemma_index_of_own<T>(h: DagView<T>, i: int)
    requires
        h.ids_unique(),
        0 <= i < h.entries.len(),
    ensures
        index_of(h.entries, h.entries[i].id) == Some(i),
{
    lemma_index_of(h.entries, h.entries[i].id);
}

/// A local operation keeps the history well-formed.
pub proof fn lemma_add_local_wf<T>(h: DagView<T>, value: T)
    requires
        h.wf(),
        h.counter < usize::MAX,
    ensures
        h.add_local(value).wf(),
{
    let g = h.add_local(value);
    let e = h.local_entry(value);
    let n = h.entries.len() as int;
    assert forall|i: int| 0 <= i < n implies g.entries[i] == h.entries[i] && h.entries[i].id
        != e.id by {}
    assert(g.entries[n] == e);
    assert forall|i: int, k: int|
        0 <= i < g.entries.len() && 0 <= k < g.entries[i].parents.len() implies (
    #[trigger] index_of(g.entries, g.entries[i].parents[k]) matches Some(j) && j < i) by {
        let p = g.entries[i].parents[k];
        lemma_index_of_push(h.entries, e, p);
        if i == n {
            lemma_index_of_own(h, h.heads[k]);
        } else {
            assert(index_of(h.entries, h.entries[i].parents[k]) is Some);
        }
    }
    assert forall|i: int| 0 <= i < g.entries.len() implies (g.heads.contains(i) <==> !#[trigger] g.has_child(
        i,
    )) by {
        if i == n {
            assert(g.heads[0] == n);
            if g.has_child(i) {
                let (j, k) = choose|j: int, k: int| g.is_parent_slot(i, j, k);
                if j == n {
                    assert(e.parents[k] == h.entries[h.heads[k]].id);
                } else {
                    lemma_index_of(h.entries, h.entries[j].parents[k]);
                    assert(index_of(h.entries, h.entries[j].parents[k]) is Some);
                }
            }
        } else {
            if h.heads.contains(i) {
                let a = choose|a: int| 0 <= a < h.heads.len() && h.heads[a] == i;
                assert(g.is_parent_slot(i, n, a));
            } else {
                assert(h.has_child(i));
                let (j, k) = choose|j: int, k: int| h.is_parent_slot(i, j, k);
                assert(g.is_parent_slot(i, j, k));
            }
        }
    }
    assert(g.heads.no_duplicates());
}

/// Taking in a foreign entry keeps the history well-formed.
pub proof fn lemma_add_remote_wf<T>(h: DagView<T>, e: EntryView<T>)
    requires
        h.wf(),
    ensures
        h.add_remote(e).wf(),
{
    if h.accepts(e) {
        let g = h.add_remote(e);
        let n = h.entries.len() as int;
        let kept = surviving_heads(h.heads, h.entries, e.parents);
        lemma_surviving_heads(h.heads, h.entries, e.parents);
        lemma_index_of(h.entries, e.id);
        assert forall|i: int| 0 <= i < n implies g.entries[i] == h.entries[i] && h.entries[i].id
            != e.id by {}
        assert(g.entries[n] == e);
        assert forall|i: int, k: int|
            0 <= i < g.entries.len() && 0 <= k < g.entries[i].parents.len() implies (
        #[trigger] index_of(g.entries, g.entries[i].parents[k]) matches Some(j) && j < i) by {
            let p = g.entries[i].parents[k];
            lemma_index_of_push(h.entries, e, p);
            lemma_index_of(h.entries, p);
            if i == n {
                assert(h.contains(e.parents[k]));
            } else {
                assert(index_of(h.entries, h.entries[i].parents[k]) is Some);
            }
        }
        assert forall|a: int| 0 <= a < g.heads.len() implies 0 <= #[trigger] g.heads[a]
            < g.entries.len() by {
            if a < kept.len() {
                assert(kept.contains(kept[a]));
                let b = choose|b: int| 0 <= b < h.heads.len() && h.heads[b] == kept[a];
            }
        }
        assert(g.heads.no_duplicates()) by {
            assert forall|a: int, b: int|
                0 <= a < g.heads.len() && 0 <= b < g.heads.len() && a != b implies g.heads[a]
                != g.heads[b] by {
                if a < kept.len() {
                    assert(kept.contains(kept[a]));
                    let c = choose|c: int| 0 <= c < h.heads.len() && h.heads[c] == kept[a];
                }
                if b < kept.len() {
                    assert(kept.contains(kept[b]));
                    let c = choose|c: int| 0 <= c < h.heads.len() && h.heads[c] == kept[b];
                }
            }
        }
        assert forall|i: int| 0 <= i < g.entries.len() implies (g.heads.contains(i) <==> !#[trigger] g.has_child(
            i,
        )) by {
            if i == n {
                assert(g.heads[kept.len() as int] == n);
                if g.has_child(i) {
                    let (j, k) = choose|j: int, k: int| g.is_parent_slot(i, j, k);
                    if j == n {
                        assert(h.contains(e.parents[k]));
                    } else {
                        lemma_index_of(h.entries, h.entries[j].parents[k]);
                        assert(index_of(h.entries, h.entries[j].parents[k]) is Some);
                    }
                }
            } else {
                let named = e.parents.contains(h.entries[i].id);
                assert(g.heads.contains(i) <==> kept.contains(i)) by {
                    if g.heads.contains(i) {
                        let a = choose|a: int| 0 <= a < g.heads.len() && g.heads[a] == i;
                        assert(kept[a] == i);
                    }
                    if kept.contains(i) {
                        let a = choose|a: int| 0 <= a < kept.len() && kept[a] == i;
                        assert(g.heads[a] == i);
                    }
                }
                assert(g.has_child(i) <==> (h.has_child(i) || named)) by {
                    if g.has_child(i) {
                        let (j, k) = choose|j: int, k: int| g.is_parent_slot(i, j, k);
                        if j == n {
                            assert(e.parents[k] == h.entries[i].id);
                        } else {
                            assert(h.is_parent_slot(i, j, k));
                        }
                    }
                    if h.has_child(i) {
                        let (j, k) = choose|j: int, k: int| h.is_parent_slot(i, j, k);
                        assert(g.is_parent_slot(i, j, k));
                    }
                    if named {
                        let k = choose|k: int|
                            0 <= k < e.parents.len() && e.parents[k] == h.entries[i].id;
                        assert(g.is_parent_slot(i, n, k));
                    }
                }
                assert(kept.contains(i) <==> (h.heads.contains(i) && !named));
            }
        }
    }
}

/// A local operation moves the counter of the replica up, and the entry made for it
/// names every head that the history had: it comes after all of them.
pub proof fn lemma_add_local_dominates<T>(h: DagView<T>, value: T)
    requires
        h.wf(),
        h.counter < usize::MAX,
    ensures
        h.add_local(value).counter > h.counter,
        h.local_entry(value).id == (h.replica_id, h.add_local(value).counter),
        forall|a: int|
            0 <= a < h.heads.len() ==> h.local_entry(value).parents.contains(
                #[trigger] h.entries[h.heads[a]].id,
            ),
        h.add_local(value).head_ids() == seq![h.local_entry(value).id],
{
    assert forall|a: int| 0 <= a < h.heads.len() implies h.local_entry(value).parents.contains(
        #[trigger] h.entries[h.heads[a]].id,
    ) by {
        assert(h.local_entry(value).parents[a] == h.entries[h.heads[a]].id);
    }
    assert(h.add_local(value).head_ids() =~= seq![h.local_entry(value).id]);
}

} // verus!
