use crate::history::clock_model::{get, lemma_raised_get, raised, relation, ClockRelation};
use crate::history::vector_clock::{relation_order, VectorClock};
use crate::history::History;
use std::cmp::Ordering;
use std::rc::Rc;
use vstd::prelude::*;

verus! {

/// An entry of a history that orders its entries by vector clocks: a value, and the
/// clock of the replica when the value was recorded.
#[derive(Debug)]
pub struct VectorClockHistoryEntry<T> {
    pub value: T,
    pub clock: VectorClock,
}

impl<T> PartialEq for VectorClockHistoryEntry<T> {
    fn eq(&self, other: &Self) -> (res: bool) {
        self.clock == other.clock
    }
}

impl<T> vstd::std_specs::cmp::PartialEqSpecImpl for VectorClockHistoryEntry<T> {
    open spec fn obeys_eq_spec() -> bool {
        true
    }

    open spec fn eq_spec(&self, other: &Self) -> bool {
        self.clock@ == other.clock@
    }
}

impl<T> PartialOrd for VectorClockHistoryEntry<T> {
    fn partial_cmp(&self, other: &Self) -> (res: Option<Ordering>) {
        self.clock.partial_cmp(&other.clock)
    }
}

impl<T> vstd::std_specs::cmp::PartialOrdSpecImpl for VectorClockHistoryEntry<T> {
    open spec fn obeys_partial_cmp_spec() -> bool {
        true
    }

    open spec fn partial_cmp_spec(&self, other: &Self) -> Option<Ordering> {
        relation_order(relation(self.clock@, other.clock@))
    }
}

/// A history that orders its entries by vector clocks.
#[derive(Debug)]
pub struct VectorClockHistory<T> {
    pub heads: Vec<Rc<VectorClockHistoryEntry<T>>>,
    pub history: Vec<Rc<VectorClockHistoryEntry<T>>>,
    pub clock: VectorClock,
    pub replica_id: String,
}

/// Whether `head` stays a head when `entry` arrives: it is not below `entry`.
pub open spec fn stays<T>(
    head: Rc<VectorClockHistoryEntry<T>>,
    entry: Rc<VectorClockHistoryEntry<T>>,
) -> bool {
    relation(head.clock@, entry.clock@) != ClockRelation::Before
}

/// Whether one of `heads` has the clock of `entry`.
pub open spec fn holds<T>(
    heads: Seq<Rc<VectorClockHistoryEntry<T>>>,
    entry: Rc<VectorClockHistoryEntry<T>>,
) -> bool {
    exists|k: int| 0 <= k < heads.len() && (#[trigger] heads[k]).clock@ == entry.clock@
}

/// The heads after `entry` arrived: those that stay, and `entry` unless one of them
/// has its clock.
pub open spec fn heads_with<T>(
    heads: Seq<Rc<VectorClockHistoryEntry<T>>>,
    entry: Rc<VectorClockHistoryEntry<T>>,
) -> Seq<Rc<VectorClockHistoryEntry<T>>> {
    let kept = heads.filter(|head: Rc<VectorClockHistoryEntry<T>>| stays(head, entry));
    if holds(kept, entry) {
        kept
    } else {
        kept.push(entry)
    }
}

/// Whether `head` is at or above `entry`.
pub open spec fn covers<T>(
    head: Rc<VectorClockHistoryEntry<T>>,
    entry: Rc<VectorClockHistoryEntry<T>>,
) -> bool {
    relation(head.clock@, entry.clock@) == ClockRelation::After || relation(
        head.clock@,
        entry.clock@,
    ) == ClockRelation::Same
}

/// Whether a history with the given heads is to be sent `entry`: it has no heads, or
/// one of its heads is not at or above `entry`.
pub open spec fn lacks<T>(
    heads: Seq<Rc<VectorClockHistoryEntry<T>>>,
    entry: Rc<VectorClockHistoryEntry<T>>,
) -> bool {
    heads.len() == 0 || exists|k: int| 0 <= k < heads.len() && !covers(#[trigger] heads[k], entry)
}

impl<T> VectorClockHistory<T> {
    /// Whether a history with the given heads is to be sent `entry`.
    pub fn is_lacking(
        heads: &Vec<Rc<VectorClockHistoryEntry<T>>>,
        entry: &Rc<VectorClockHistoryEntry<T>>,
    ) -> (res: bool)
        ensures
            res == lacks(heads@, *entry),
    {
        if heads.len() == 0 {
            return true;
        }
        let mut k: usize = 0;
        while k < heads.len()
            invariant
                k <= heads.len(),
                forall|j: int| 0 <= j < k ==> covers(#[trigger] heads@[j], *entry),
            decreases heads.len() - k,
        {
            match heads[k].clock.relate(&entry.clock) {
                ClockRelation::After => {},
                ClockRelation::Same => {},
                _ => {
                    assert(!covers(heads@[k as int], *entry));
                    return true;
                },
            }
            k += 1;
        }
        false
    }
}

impl<T> History<T> for VectorClockHistory<T> {
    type Item = Rc<VectorClockHistoryEntry<T>>;

    open spec fn wf(&self) -> bool {
        get(self.clock@, self.replica_id@) is Some
    }

    open spec fn can_add_value(&self) -> bool {
        true
    }

    open spec fn can_diff(&self) -> bool {
        get(self.clock@, self.replica_id@) matches Some(x) && x < usize::MAX
    }

    /// A history without entries, whose clock holds `1` for `replica_id`.
    fn new(replica_id: String) -> (res: Self)
        ensures
            res.replica_id@ == replica_id@,
            res.clock@ == seq![(replica_id@, 1usize)],
            res.heads@.len() == 0,
            res.history@.len() == 0,
    {
        VectorClockHistory {
            replica_id: replica_id.clone(),
            heads: Vec::new(),
            history: Vec::new(),
            clock: VectorClock::single(replica_id, 1),
        }
    }

    /// Takes in an entry that was made elsewhere: the heads below it give way to it,
    /// and the clock of the history is raised to the clock of the entry.
    fn add_entry(&mut self, entry: Self::Item) -> (known: bool)
        ensures
            known,
            final(self).history@ == old(self).history@.push(entry),
            final(self).heads@ == heads_with(old(self).heads@, entry),
            final(self).clock@ == crate::history::clock_model::merged(
                old(self).clock@,
                entry.clock@,
            ),
            final(self).replica_id == old(self).replica_id,
    {
        self.history.push(entry.clone());
        let mut kept: Vec<Rc<VectorClockHistoryEntry<T>>> = Vec::new();
        let mut present = false;
        let ghost heads = self.heads@;
        let ghost pred = |head: Rc<VectorClockHistoryEntry<T>>| stays(head, entry);
        let mut a: usize = 0;
        proof {
            reveal_with_fuel(Seq::filter, 1);
            assert(heads.take(0) =~= Seq::empty());
        }
        while a < self.heads.len()
            invariant
                heads == self.heads@,
                pred == |head: Rc<VectorClockHistoryEntry<T>>| stays(head, entry),
                a <= self.heads.len(),
                kept@ == heads.take(a as int).filter(pred),
                present == holds(kept@, entry),
            decreases self.heads.len() - a,
        {
            let head = &self.heads[a];
            let ghost before = kept@;
            proof {
                reveal_with_fuel(Seq::filter, 1);
                assert(heads.take(a + 1).drop_last() =~= heads.take(a as int));
                assert(heads.take(a + 1).last() == heads[a as int]);
            }
            match head.clock.relate(&entry.clock) {
                ClockRelation::Before => {},
                _ => {
                    kept.push(head.clone());
                    if head.clock == entry.clock {
                        present = true;
                    }
                },
            }
            proof {
                if kept@.len() > before.len() {
                    assert(kept@ == before.push(heads[a as int]));
                    if holds(before, entry) {
                        let k = choose|k: int|
                            0 <= k < before.len() && (#[trigger] before[k]).clock@ == entry.clock@;
                        assert(kept@[k].clock@ == entry.clock@);
                    }
                    if holds(kept@, entry) && !present {
                        let k = choose|k: int|
                            0 <= k < kept@.len() && (#[trigger] kept@[k]).clock@ == entry.clock@;
                        if k < before.len() {
                            assert(before[k].clock@ == entry.clock@);
                        }
                    }
                    if present && !holds(before, entry) {
                        assert(kept@[before.len() as int].clock@ == entry.clock@);
                    }
                }
            }
            a += 1;
        }
        proof {
            assert(heads.take(a as int) =~= heads);
        }
        if !present {
            kept.push(entry.clone());
        }
        self.clock.update_with(&entry.clock);
        self.heads = kept;
        true
    }

    /// Records a local value under the clock of the history; the entry made for it is
    /// the only head afterwards.
    fn add_value(&mut self, value: T) -> (entry: Self::Item)
        ensures
            entry.value == value,
            entry.clock@ == old(self).clock@,
            final(self).history@ == old(self).history@.push(entry),
            final(self).heads@ == seq![entry],
            final(self).clock == old(self).clock,
            final(self).replica_id == old(self).replica_id,
    {
        let entry = Rc::new(VectorClockHistoryEntry { value, clock: self.clock.clone() });
        self.history.push(entry.clone());
        let mut heads = Vec::new();
        heads.push(entry.clone());
        self.heads = heads;
        entry
    }

    /// The entries to send to `other`, in the order in which they were recorded:
    /// all where `other` has no heads, else those that some head of `other` is not at
    /// or above. Asking moves the own component of the clock up by one.
    fn new_for_other(&mut self, other: &Self) -> (news: Vec<Self::Item>)
        ensures
            news@ == old(self).history@.filter(
                |entry: Rc<VectorClockHistoryEntry<T>>| lacks(other.heads@, entry),
            ),
            final(self).clock@ == raised(old(self).clock@, old(self).replica_id@),
            final(self).history == old(self).history,
            final(self).heads == old(self).heads,
            final(self).replica_id == old(self).replica_id,
    {
        proof {
            lemma_raised_get(self.clock@, self.replica_id@, self.replica_id@);
        }
        self.clock.raise(self.replica_id.as_str());
        let ghost pred = |entry: Rc<VectorClockHistoryEntry<T>>| lacks(other.heads@, entry);
        let mut news: Vec<Rc<VectorClockHistoryEntry<T>>> = Vec::new();
        let mut i: usize = 0;
        proof {
            reveal_with_fuel(Seq::filter, 1);
            assert(self.history@.take(0) =~= Seq::empty());
        }
        while i < self.history.len()
            invariant
                pred == |entry: Rc<VectorClockHistoryEntry<T>>| lacks(other.heads@, entry),
                i <= self.history.len(),
                news@ == self.history@.take(i as int).filter(pred),
            decreases self.history.len() - i,
        {
            proof {
                reveal_with_fuel(Seq::filter, 1);
                assert(self.history@.take(i + 1).drop_last() =~= self.history@.take(i as int));
                assert(self.history@.take(i + 1).last() == self.history@[i as int]);
            }
            if Self::is_lacking(&other.heads, &self.history[i]) {
                news.push(self.history[i].clone());
            }
            i += 1;
        }
        proof {
            assert(self.history@.take(i as int) =~= self.history@);
        }
        news
    }
}

} // verus!
