use crate::handle_vec::{Handle, HandleVec};
use crate::history::dag::{
    index_of, lemma_add_local_wf, lemma_add_remote_wf, lemma_index_of, surviving_heads,
    DAGHistory, DAGHistoryEntry, DagView, EntryId, EntryView, IdView,
};
use crate::history::convergence::{compatible, is_diff, lemma_diff_is_diff};
use crate::history::diff::{known_to, visit, visit_heads, visit_parents, Walk};
use crate::history::History;
use std::rc::Rc;
use vstd::prelude::*;

verus! {

/// The positions that a vector of handles holds.
pub open spec fn positions<T>(handles: Seq<Handle<T>>) -> Seq<int> {
    handles.map_values(|h: Handle<T>| h.0 as int)
}

/// The identities that a vector of identities holds.
pub open spec fn id_views(ids: Seq<EntryId>) -> Seq<IdView> {
    ids.map_values(|p: EntryId| p@)
}

/// The entries behind a vector of shared entries.
pub open spec fn entry_views<T: View>(entries: Seq<Rc<DAGHistoryEntry<T>>>) -> Seq<
    EntryView<T::V>,
> {
    entries.map_values(|e: Rc<DAGHistoryEntry<T>>| e@)
}

impl<T: View> DAGHistory<T> {
    /// The position of the entry with identity `id`, if it is known.
    pub fn position(&self, id: &EntryId) -> (res: Option<Handle<Rc<DAGHistoryEntry<T>>>>)
        ensures
            match res {
                Some(h) => index_of(self@.entries, id@) == Some(h.0 as int),
                None => index_of(self@.entries, id@) is None,
            },
    {
        let n = self.history.len();
        let mut i: usize = 0;
        while i < n
            invariant
                n == self.history@.len(),
                i <= n,
                index_of(self@.entries.take(i as int), id@) is None,
            decreases n - i,
        {
            let h = Handle(i, std::marker::PhantomData);
            proof {
                assert(self@.entries.take(i + 1).drop_last() =~= self@.entries.take(i as int));
            }
            if self.history.index(h).id.same(id) {
                proof {
                    lemma_index_of(self@.entries, id@);
                    lemma_index_of(self@.entries.take(i as int), id@);
                    let found = index_of(self@.entries, id@);
                    assert(self@.entries[i as int].id == id@);
                    assert(found is Some);
                    if found->0 < i {
                        assert(self@.entries.take(i as int)[found->0].id == id@);
                    }
                }
                return Some(h);
            }
            i += 1;
        }
        proof {
            assert(self@.entries.take(n as int) =~= self@.entries);
        }
        None
    }

    /// Whether an entry with identity `id` is known.
    pub fn contains(&self, id: &EntryId) -> (res: bool)
        ensures
            res == self@.contains(id@),
    {
        self.position(id).is_some()
    }

    /// Whether every identity in `ids` is known.
    pub fn contains_all(&self, ids: &Vec<EntryId>) -> (res: bool)
        ensures
            res == self@.contains_all(id_views(ids@)),
    {
        let mut k: usize = 0;
        while k < ids.len()
            invariant
                k <= ids.len(),
                forall|j: int| 0 <= j < k ==> self@.contains(#[trigger] id_views(ids@)[j]),
            decreases ids.len() - k,
        {
            if !self.contains(&ids[k]) {
                assert(!self@.contains(id_views(ids@)[k as int]));
                return false;
            }
            k += 1;
        }
        true
    }

    /// Whether `id` occurs in `ids`.
    pub fn names(ids: &Vec<EntryId>, id: &EntryId) -> (res: bool)
        ensures
            res == id_views(ids@).contains(id@),
    {
        let mut k: usize = 0;
        while k < ids.len()
            invariant
                k <= ids.len(),
                forall|j: int| 0 <= j < k ==> id_views(ids@)[j] != id@,
            decreases ids.len() - k,
        {
            if ids[k].same(id) {
                assert(id_views(ids@)[k as int] == id@);
                return true;
            }
            k += 1;
        }
        false
    }

    /// The identities of the current heads.
    pub fn head_ids(&self) -> (res: Vec<EntryId>)
        requires
            self@.wf(),
        ensures
            id_views(res@) == self@.head_ids(),
    {
        let mut res: Vec<EntryId> = Vec::new();
        let mut a: usize = 0;
        while a < self.heads.len()
            invariant
                self@.wf(),
                a <= self.heads.len(),
                res@.len() == a,
                forall|j: int| 0 <= j < a ==> (#[trigger] res@[j])@ == self@.head_ids()[j],
            decreases self.heads.len() - a,
        {
            assert(0 <= self@.heads[a as int] < self@.entries.len());
            res.push(self.history.index(self.heads[a]).id.clone());
            a += 1;
        }
        assert(id_views(res@) =~= self@.head_ids());
        res
    }
}

/// The walk that a vector of flags and a vector of collected handles stand for.
pub open spec fn walk_of<T>(visited: Seq<bool>, order: Seq<Handle<T>>) -> Walk {
    Walk { visited, order: positions(order) }
}

/// Whether every handle in `order` addresses one of `n` entries.
pub open spec fn in_range<T>(order: Seq<Handle<T>>, n: nat) -> bool {
    forall|c: int| 0 <= c < order.len() ==> (#[trigger] order[c]).0 < n
}

impl<T: View> DAGHistory<T> {
    /// Visits the entry at `node` in the walk that `visited` and `order` hold: unless it
    /// was seen before, its parents are visited first and then it is collected.
    pub fn visit(
        &self,
        order: &mut Vec<Handle<Rc<DAGHistoryEntry<T>>>>,
        visited: &mut Vec<bool>,
        node: Handle<Rc<DAGHistoryEntry<T>>>,
    )
        requires
            self@.wf(),
            node.0 < self@.entries.len(),
            old(visited)@.len() == self@.entries.len(),
            in_range(old(order)@, self@.entries.len()),
        ensures
            final(visited)@.len() == self@.entries.len(),
            in_range(final(order)@, self@.entries.len()),
            walk_of(final(visited)@, final(order)@) == visit(
                self@.entries,
                walk_of(old(visited)@, old(order)@),
                node.0 as int,
            ),
        decreases node.0,
    {
        if visited[node.0] {
            return ;
        }
        let ghost start = walk_of(visited@, order@);
        let entry = self.history.index(node);
        let mut k: usize = 0;
        while k < entry.parents.len()
            invariant
                self@.wf(),
                node.0 < self@.entries.len(),
                *entry == self.history@[node.0 as int],
                k <= entry.parents.len(),
                visited@.len() == self@.entries.len(),
                in_range(order@, self@.entries.len()),
                visit_parents(
                    self@.entries,
                    walk_of(visited@, order@),
                    node.0 as int,
                    k as int,
                ) == visit_parents(self@.entries, start, node.0 as int, 0),
            decreases entry.parents.len() - k,
        {
            proof {
                assert(self@.entries[node.0 as int].parents[k as int] == entry.parents@[k as int]@);
                assert(index_of(self@.entries, self@.entries[node.0 as int].parents[k as int])
                    is Some);
            }
            match self.position(&entry.parents[k]) {
                Some(parent) => {
                    self.visit(order, visited, parent);
                },
                None => {},
            }
            k += 1;
        }
        let ghost before = positions(order@);
        order.push(node);
        visited.set(node.0, true);
        proof {
            assert(positions(order@) =~= before.push(node.0 as int));
        }
    }
}

impl<T: View> History<T> for DAGHistory<T> {
    type Item = Rc<DAGHistoryEntry<T>>;

    open spec fn wf(&self) -> bool {
        self@.wf()
    }

    open spec fn can_add_value(&self) -> bool {
        self.counter < usize::MAX
    }

    open spec fn can_diff(&self) -> bool {
        true
    }

    /// A history without entries, whose entries will carry the name `replica_id`.
    fn new(replica_id: String) -> (res: Self)
        ensures
            res@ == (DagView::<T::V> {
                replica_id: replica_id@,
                counter: 0,
                heads: Seq::empty(),
                entries: Seq::empty(),
            }),
    {
        let res = DAGHistory {
            replica_id: Rc::new(replica_id),
            counter: 0,
            heads: Vec::new(),
            history: HandleVec::new(),
        };
        proof {
            assert(res@.heads =~= Seq::empty());
            assert(res@.entries =~= Seq::empty());
        }
        res
    }

    /// Takes in an entry that was made elsewhere. An entry that is known already, or
    /// that has a parent that is not known, changes nothing; any other becomes a head
    /// in place of those of its parents that were heads.
    fn add_entry(&mut self, entry: Self::Item) -> (known: bool)
        ensures
            final(self)@ == old(self)@.add_remote(entry@),
            known == (old(self)@.contains(entry@.id) || old(self)@.contains_all(entry@.parents)),
    {
        proof {
            lemma_add_remote_wf(self@, entry@);
        }
        if self.contains(&entry.id) {
            return true;
        }
        if !self.contains_all(&entry.parents) {
            return false;
        }
        let mut kept: Vec<Handle<Rc<DAGHistoryEntry<T>>>> = Vec::new();
        let mut a: usize = 0;
        while a < self.heads.len()
            invariant
                self@.wf(),
                a <= self.heads.len(),
                positions(kept@) == surviving_heads(
                    self@.heads.take(a as int),
                    self@.entries,
                    entry@.parents,
                ),
            decreases self.heads.len() - a,
        {
            let head = self.heads[a];
            proof {
                assert(0 <= self@.heads[a as int] < self@.entries.len());
                assert(self@.heads.take(a + 1).drop_last() =~= self@.heads.take(a as int));
            }
            let ghost before = positions(kept@);
            if !Self::names(&entry.parents, &self.history.index(head).id) {
                kept.push(head);
                proof {
                    assert(positions(kept@) =~= before.push(head.0 as int));
                }
            }
            a += 1;
        }
        proof {
            assert(self@.heads.take(self.heads.len() as int) =~= self@.heads);
        }
        if *entry.id.replica_id == *self.replica_id && entry.id.counter > self.counter {
            self.counter = entry.id.counter;
        }
        let ghost before = positions(kept@);
        let ghost entries = self@.entries;
        let handle = self.history.push(entry);
        kept.push(handle);
        self.heads = kept;
        proof {
            assert(self@.heads =~= before.push(entries.len() as int));
            assert(self@.entries =~= entries.push(entry@));
        }
        true
    }

    /// Records a local value: the entry made for it takes the next counter value,
    /// names the heads as its parents, and is the only head afterwards.
    fn add_value(&mut self, value: T) -> (entry: Self::Item)
        ensures
            final(self)@ == old(self)@.add_local(value@),
            entry@ == old(self)@.local_entry(value@),
    {
        proof {
            lemma_add_local_wf(self@, value@);
        }
        let parents = self.head_ids();
        self.counter = self.counter + 1;
        let entry = Rc::new(
            DAGHistoryEntry {
                id: EntryId { replica_id: self.replica_id.clone(), counter: self.counter },
                value,
                parents,
            },
        );
        let ghost entries = self@.entries;
        let handle = self.history.push(entry.clone());
        let mut heads = Vec::new();
        heads.push(handle);
        self.heads = heads;
        proof {
            assert(self@.heads =~= seq![entries.len() as int]);
            assert(self@.entries =~= entries.push(entry@));
        }
        entry
    }

    /// The entries that `other` lacks, parents before children; see `diff_to`.
    fn new_for_other(&mut self, other: &Self) -> (news: Vec<Self::Item>)
        ensures
            *final(self) == *old(self),
            entry_views(news@) == old(self)@.diff(other@),
            compatible(old(self)@, other@) ==> is_diff(old(self)@, other@, entry_views(news@)),
    {
        self.diff_to(other)
    }
}

impl<T: View> DAGHistory<T> {
    /// The entries that `other` lacks, parents before children: a depth-first walk
    /// from the heads of this history that treats what `other` knows as seen.
    pub fn diff_to(&self, other: &Self) -> (news: Vec<Rc<DAGHistoryEntry<T>>>)
        requires
            self@.wf(),
        ensures
            entry_views(news@) == self@.diff(other@),
            other@.wf() && compatible(self@, other@) ==> is_diff(
                self@,
                other@,
                entry_views(news@),
            ),
    {
        proof {
            if other@.wf() && compatible(self@, other@) {
                lemma_diff_is_diff(self@, other@);
            }
        }
        let n = self.history.len();
        let mut visited: Vec<bool> = Vec::new();
        let mut i: usize = 0;
        while i < n
            invariant
                n == self.history@.len(),
                i <= n,
                visited@.len() == i,
                forall|j: int| 0 <= j < i ==> visited@[j] == other@.contains(self@.entries[j].id),
            decreases n - i,
        {
            let h = Handle(i, std::marker::PhantomData);
            visited.push(other.contains(&self.history.index(h).id));
            i += 1;
        }
        proof {
            assert(visited@ =~= known_to(self@.entries, other@));
        }
        let mut order: Vec<Handle<Rc<DAGHistoryEntry<T>>>> = Vec::new();
        let ghost start = walk_of(visited@, order@);
        proof {
            assert(start.order =~= Seq::empty());
        }
        let mut a: usize = 0;
        while a < self.heads.len()
            invariant
                self@.wf(),
                a <= self.heads.len(),
                visited@.len() == self@.entries.len(),
                in_range(order@, self@.entries.len()),
                visit_heads(self@.entries, self@.heads, walk_of(visited@, order@), a as int)
                    == visit_heads(self@.entries, self@.heads, start, 0),
            decreases self.heads.len() - a,
        {
            proof {
                assert(0 <= self@.heads[a as int] < self@.entries.len());
            }
            self.visit(&mut order, &mut visited, self.heads[a]);
            a += 1;
        }
        let mut news: Vec<Rc<DAGHistoryEntry<T>>> = Vec::new();
        let mut b: usize = 0;
        while b < order.len()
            invariant
                b <= order.len(),
                news@.len() == b,
                in_range(order@, self@.entries.len()),
                forall|c: int|
                    0 <= c < b ==> (#[trigger] news@[c])@ == self@.entries[order@[c].0 as int],
            decreases order.len() - b,
        {
            news.push(self.history.index(order[b]).clone());
            b += 1;
        }
        proof {
            assert(entry_views(news@) =~= self@.diff(other@));
        }
        news
    }
}

} // verus!
