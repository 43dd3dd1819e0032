use crate::pcte::model::PcteView;
use crate::pcte::Pcte;
use std::rc::Rc;
use vstd::prelude::*;
use vstd::std_specs::iter::IteratorSpec;
use vstd::string::*;

verus! {

/// One edit of a text by position.
#[derive(Debug, Clone, Copy, PartialEq, Eq, Structural)]
pub enum FixtureOperation {
    Insert { position: usize, character: char },
    Delete { position: usize },
}

/// A sequence of edits to try on one replica.
#[derive(Debug)]
pub struct FixtureOperations {
    pub operations: Vec<FixtureOperation>,
}

/// The length of a text of length `size` after `operation`.
pub open spec fn size_after(operation: FixtureOperation, size: int) -> int {
    match operation {
        FixtureOperation::Insert { .. } => size + 1,
        FixtureOperation::Delete { .. } => size - 1,
    }
}

/// Whether `operation` fits a text of length `size`: an insertion may go behind the
/// last character, a deletion needs a character to delete.
pub open spec fn fits(operation: FixtureOperation, size: int) -> bool {
    match operation {
        FixtureOperation::Insert { position, .. } => position <= size,
        FixtureOperation::Delete { position } => position < size,
    }
}

/// Whether the operations from the `i`-th on fit in turn, starting from a text of
/// length `size`.
pub open spec fn all_fit(operations: Seq<FixtureOperation>, i: int, size: int) -> bool
    decreases operations.len() - i,
{
    if i < 0 || i >= operations.len() {
        true
    } else {
        fits(operations[i], size) && all_fit(operations, i + 1, size_after(operations[i], size))
    }
}

/// The first of the operations from the `i`-th on that the replica refuses or after
/// which its text is not the text before with the edit made, if there is one.
pub open spec fn first_mismatch_from(v: PcteView, operations: Seq<FixtureOperation>, i: int) -> Option<
    int,
>
    decreases operations.len() - i,
{
    if i < 0 || i >= operations.len() {
        None
    } else {
        match operations[i] {
            FixtureOperation::Insert { position, character } => match v.insert_local(
                position as int,
                character,
            ) {
                Ok(after) => if after.text() == v.text().insert(position as int, character) {
                    first_mismatch_from(after, operations, i + 1)
                } else {
                    Some(i)
                },
                Err(_) => Some(i),
            },
            FixtureOperation::Delete { position } => match v.delete_local(position as int) {
                Ok(after) => if after.text() == v.text().remove(position as int) {
                    first_mismatch_from(after, operations, i + 1)
                } else {
                    Some(i)
                },
                Err(_) => Some(i),
            },
        }
    }
}

/// Whether a string holds exactly the characters of `reference`, in order.
pub fn same_text(text: &str, reference: &Vec<char>) -> (res: bool)
    ensures
        res == (text@ == reference@),
{
    broadcast use group_string_axioms;

    let mut rest = text.chars();
    let ghost mut left: Seq<char> = text@;
    let mut i: usize = 0;
    loop
        invariant
            i <= reference.len(),
            rest.remaining() == left,
            text@ == reference@.take(i as int) + left,
        decreases left.len(),
    {
        match rest.next() {
            None => {
                proof {
                    assert(text@ =~= reference@.take(i as int));
                    if i < reference.len() {
                        assert(text@.len() != reference@.len());
                    } else {
                        assert(reference@.take(i as int) =~= reference@);
                    }
                }
                return i == reference.len();
            },
            Some(c) => {
                if i >= reference.len() {
                    proof {
                        assert(text@.len() > reference@.len());
                    }
                    return false;
                }
                if c != reference[i] {
                    proof {
                        assert(text@[i as int] == c);
                    }
                    return false;
                }
                proof {
                    assert(reference@.take(i + 1) =~= reference@.take(i as int).push(c));
                    assert(left =~= seq![c] + left.drop_first());
                    assert(reference@.take(i as int) + left =~= reference@.take(i + 1)
                        + left.drop_first());
                    left = left.drop_first();
                }
                i += 1;
            },
        }
    }
}

impl FixtureOperation {
    /// Whether a text of length `size` leaves a choice between inserting and
    /// deleting: an empty text can only be inserted into.
    pub fn may_delete(size: usize) -> (res: bool)
        ensures
            res == (size > 0),
    {
        size != 0
    }

    /// The largest position at which a text of length `size` can be inserted into.
    pub fn insert_limit(size: usize) -> (res: usize)
        ensures
            res == size,
            forall|position: usize, character: char|
                position <= res <==> fits(FixtureOperation::Insert { position, character }, size as int),
    {
        size
    }

    /// The largest position at which a text of length `size` has a character to
    /// delete.
    pub fn delete_limit(size: usize) -> (res: usize)
        requires
            size > 0,
        ensures
            res == size - 1,
            forall|position: usize|
                position <= res <==> fits(FixtureOperation::Delete { position }, size as int),
    {
        size - 1
    }

    /// The character with the given code.
    pub fn character_of(code: u8) -> (res: char)
        ensures
            res as int == code as int,
    {
        code as char
    }

    /// The length of a text of length `size` after this operation, which must fit it.
    pub fn size_after(&self, size: usize) -> (res: usize)
        requires
            fits(*self, size as int),
            size < usize::MAX,
        ensures
            res as int == size_after(*self, size as int),
    {
        match self {
            FixtureOperation::Insert { .. } => size + 1,
            FixtureOperation::Delete { .. } => size - 1,
        }
    }
}

impl FixtureOperations {
    /// Whether every operation fits the text as the operations before it leave it,
    /// starting from the empty text.
    pub fn all_fit(&self) -> (res: bool)
        ensures
            res == all_fit(self.operations@, 0, 0),
    {
        let mut size: usize = 0;
        let mut i: usize = 0;
        while i < self.operations.len()
            invariant
                i <= self.operations.len(),
                size <= i,
                all_fit(self.operations@, i as int, size as int) == all_fit(
                    self.operations@,
                    0,
                    0,
                ),
            decreases self.operations.len() - i,
        {
            match self.operations[i] {
                FixtureOperation::Insert { position, .. } => {
                    if position > size {
                        return false;
                    }
                    size += 1;
                },
                FixtureOperation::Delete { position } => {
                    if position >= size {
                        return false;
                    }
                    size -= 1;
                },
            }
            i += 1;
        }
        true
    }

    /// Tries the operations in turn on a new replica with the given name and keeps a
    /// plain sequence of characters beside it. Returns the position of the first
    /// operation that the replica refuses or after which its text differs from the
    /// sequence, or `None` if the replica follows the sequence to the end.
    pub fn first_mismatch(&self, replica_id: Rc<String>) -> (res: Option<usize>)
        ensures
            match res {
                Some(i) => first_mismatch_from(PcteView::fresh(replica_id@), self.operations@, 0)
                    == Some(i as int),
                None => first_mismatch_from(PcteView::fresh(replica_id@), self.operations@, 0)
                    is None,
            },
    {
        let mut pcte = Pcte::new(replica_id);
        let mut reference: Vec<char> = Vec::new();
        let ghost start = pcte@;
        let mut i: usize = 0;
        proof {
            start.lemma_fresh_text();
        }
        while i < self.operations.len()
            invariant
                i <= self.operations.len(),
                start == PcteView::fresh(replica_id@),
                pcte@.wf(),
                pcte.counter <= i,
                pcte.history.counter <= i,
                reference@ == pcte@.text(),
                first_mismatch_from(pcte@, self.operations@, i as int) == first_mismatch_from(
                    start,
                    self.operations@,
                    0,
                ),
            decreases self.operations.len() - i,
        {
            let ghost before = pcte@;
            proof {
                assert(first_mismatch_from(before, self.operations@, i as int)
                    == match self.operations@[i as int] {
                    FixtureOperation::Insert { position, character } => match before.insert_local(
                        position as int,
                        character,
                    ) {
                        Ok(after) => if after.text() == before.text().insert(
                            position as int,
                            character,
                        ) {
                            first_mismatch_from(after, self.operations@, i + 1)
                        } else {
                            Some(i as int)
                        },
                        Err(_) => Some(i as int),
                    },
                    FixtureOperation::Delete { position } => match before.delete_local(
                        position as int,
                    ) {
                        Ok(after) => if after.text() == before.text().remove(position as int) {
                            first_mismatch_from(after, self.operations@, i + 1)
                        } else {
                            Some(i as int)
                        },
                        Err(_) => Some(i as int),
                    },
                });
            }
            match self.operations[i] {
                FixtureOperation::Insert { position, character } => {
                    if pcte.insert(position, character).is_err() {
                        return Some(i);
                    }
                    reference.insert(position, character);
                },
                FixtureOperation::Delete { position } => {
                    if pcte.delete(position).is_err() {
                        return Some(i);
                    }
                    reference.remove(position);
                },
            }
            if !same_text(pcte.text().as_str(), &reference) {
                return Some(i);
            }
            i += 1;
        }
        None
    }
}

} // verus!
