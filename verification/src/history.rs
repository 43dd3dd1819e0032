use vstd::prelude::*;

pub mod ancestry;
pub mod clock_model;
pub mod convergence;
pub mod dag;
pub mod dag_exec;
pub mod diff;
pub mod vector_clock;
pub mod vector_history;

pub use crate::history::dag::{DAGHistory, DAGHistoryEntry, EntryId};
pub use crate::history::vector_clock::VectorClock;
pub use crate::history::vector_history::{VectorClockHistory, VectorClockHistoryEntry};

verus! {

/// A causal history of values of type `T`: it records local values, takes in entries
/// made elsewhere, and tells which of its entries another history lacks.
pub trait History<T>: Sized {
    /// What is handed between histories.
    type Item;

    /// The invariant of the history.
    spec fn wf(&self) -> bool;

    /// Whether the history can still record a local value.
    spec fn can_add_value(&self) -> bool;

    /// Whether the history can still be asked what another one lacks.
    spec fn can_diff(&self) -> bool;

    /// An empty history for the replica with the given name.
    fn new(replica_id: String) -> (res: Self)
        ensures
            res.wf(),
    ;

    /// Takes in an entry that was made elsewhere. The result tells whether the entry
    /// is known afterwards.
    fn add_entry(&mut self, entry: Self::Item) -> (known: bool)
        requires
            old(self).wf(),
        ensures
            final(self).wf(),
    ;

    /// Records a local value and returns the entry made for it.
    fn add_value(&mut self, value: T) -> (entry: Self::Item)
        requires
            old(self).wf(),
            old(self).can_add_value(),
        ensures
            final(self).wf(),
    ;

    /// The entries of this history that `other` lacks, in an order in which they can
    /// be taken in.
    fn new_for_other(&mut self, other: &Self) -> (news: Vec<Self::Item>)
        requires
            old(self).wf(),
            old(self).can_diff(),
            other.wf(),
        ensures
            final(self).wf(),
    ;
}

} // verus!
