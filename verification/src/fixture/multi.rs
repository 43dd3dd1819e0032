use crate::pcte::model::PcteView;
use crate::pcte::Pcte;
use std::rc::Rc;
use vstd::prelude::*;
use vstd::string::*;

verus! {

/// One step in the life of a group of replicas.
#[derive(Debug, Clone, Copy, PartialEq, Eq, Structural)]
pub enum FixtureOperation {
    /// One more replica joins the group.
    CreateReplica,
    /// The replica `index` inserts `character`; `position` is reduced to its text.
    Insert { index: usize, position: usize, character: char },
    /// The replica `index` deletes a character, if it has any; `position` is reduced
    /// to its text.
    Delete { index: usize, position: usize },
    /// The replicas `index1` and `index2` are brought up to date with each other.
    Synchronize { index1: usize, index2: usize },
}

/// A sequence of steps to try on a group of replicas.
#[derive(Debug)]
pub struct FixtureOperations {
    pub operations: Vec<FixtureOperation>,
}

/// The decimal digits of `n`.
pub open spec fn decimal(n: nat) -> Seq<char>
    decreases n,
{
    if n < 10 {
        seq![(48 + n) as u8 as char]
    } else {
        decimal(n / 10).push((48 + n % 10) as u8 as char)
    }
}

/// The name of the `n`-th replica of a group: the word `replica` and the number.
pub open spec fn replica_name(n: usize) -> Seq<char> {
    "replica"@ + decimal(n as nat)
}

/// Writes the name of the `n`-th replica: `format!` with the word `replica` and the
/// number, which it writes in decimal digits.
#[verifier::external_body]
fn name_replica(n: usize) -> (res: String)
    ensures
        res@ == replica_name(n),
{
    format!("replica{}", n)
}

/// The replicas that a group of replicas stands for.
pub open spec fn views(replicas: Seq<Pcte>) -> Seq<PcteView> {
    replicas.map_values(|r: Pcte| r@)
}

/// Whether a replica can still record an operation of its own.
pub open spec fn has_room(v: PcteView) -> bool {
    v.counter < usize::MAX && v.history.counter < usize::MAX
}

/// The group after one step, or `None` where the step fails: it names a replica that
/// the group does not have, or names one replica twice; a replica has no room or
/// refuses; or two replicas that were brought up to date show different texts.
pub open spec fn step(group: Seq<PcteView>, operation: FixtureOperation) -> Option<Seq<PcteView>> {
    match operation {
        FixtureOperation::CreateReplica => Some(
            group.push(PcteView::fresh(replica_name(group.len() as usize))),
        ),
        FixtureOperation::Insert { index, position, character } => if index < group.len()
            && has_room(group[index as int]) {
            let v = group[index as int];
            match v.insert_local(position as int % (v.text().len() as int + 1), character) {
                Ok(after) => Some(group.update(index as int, after)),
                Err(_) => None,
            }
        } else {
            None
        },
        FixtureOperation::Delete { index, position } => if index < group.len() && has_room(
            group[index as int],
        ) {
            let v = group[index as int];
            if v.text().len() == 0 {
                Some(group)
            } else {
                match v.delete_local(position as int % (v.text().len() as int)) {
                    Ok(after) => Some(group.update(index as int, after)),
                    Err(_) => None,
                }
            }
        } else {
            None
        },
        FixtureOperation::Synchronize { index1, index2 } => if index1 < group.len() && index2
            < group.len() && index1 != index2 {
            let a = group[index1 as int];
            let b = group[index2 as int];
            let a2 = a.apply_batch(b.pending_for(a));
            let b2 = b.apply_batch(a.pending_for(b));
            if a.error_from(b.pending_for(a), 0) is None && b.error_from(a.pending_for(b), 0)
                is None && a2.text() == b2.text() {
                Some(group.update(index1 as int, a2).update(index2 as int, b2))
            } else {
                None
            }
        } else {
            None
        },
    }
}

/// The first of the steps from the `i`-th on that fails, if there is one.
pub open spec fn first_failure_from(
    group: Seq<PcteView>,
    operations: Seq<FixtureOperation>,
    i: int,
) -> Option<int>
    decreases operations.len() - i,
{
    if i < 0 || i >= operations.len() {
        None
    } else {
        match step(group, operations[i]) {
            Some(next) => first_failure_from(next, operations, i + 1),
            None => Some(i),
        }
    }
}

/// Whether every replica of the group is well-formed.
pub open spec fn all_wf(replicas: Seq<Pcte>) -> bool {
    forall|r: int| 0 <= r < replicas.len() ==> (#[trigger] replicas[r])@.wf()
}

/// One more replica joins the group.
fn create(replicas: &mut Vec<Pcte>)
    requires
        all_wf(old(replicas)@),
    ensures
        all_wf(final(replicas)@),
        Some(views(final(replicas)@)) == step(
            views(old(replicas)@),
            FixtureOperation::CreateReplica,
        ),
{
    let ghost before = views(replicas@);
    let replica = Pcte::new(Rc::new(name_replica(replicas.len())));
    replicas.push(replica);
    proof {
        assert(views(replicas@) =~= before.push(
            PcteView::fresh(replica_name(before.len() as usize)),
        ));
    }
}

/// Takes the replica at `index` out of the group for a while.
fn take_out(replicas: &mut Vec<Pcte>, index: usize) -> (replica: Pcte)
    requires
        all_wf(old(replicas)@),
        index < old(replicas)@.len(),
    ensures
        replica == old(replicas)@[index as int],
        replica@.wf(),
        final(replicas)@ == old(replicas)@.remove(index as int),
        all_wf(final(replicas)@),
{
    let replica = replicas.remove(index);
    proof {
        assert forall|r: int| 0 <= r < replicas@.len() implies (#[trigger] replicas@[r])@.wf() by {
            if r < index {
                assert(replicas@[r] == old(replicas)@[r]);
            } else {
                assert(replicas@[r] == old(replicas)@[r + 1]);
            }
        }
    }
    replica
}

/// Puts a replica into the group at `index`.
fn put_in(replicas: &mut Vec<Pcte>, index: usize, replica: Pcte)
    requires
        all_wf(old(replicas)@),
        index <= old(replicas)@.len(),
        replica@.wf(),
    ensures
        final(replicas)@ == old(replicas)@.insert(index as int, replica),
        all_wf(final(replicas)@),
{
    replicas.insert(index, replica);
    proof {
        assert forall|r: int| 0 <= r < replicas@.len() implies (#[trigger] replicas@[r])@.wf() by {
            if r < index {
                assert(replicas@[r] == old(replicas)@[r]);
            } else if r > index {
                assert(replicas@[r] == old(replicas)@[r - 1]);
            }
        }
    }
}

/// The replica `index` inserts `character` at `position`, reduced to its text.
fn insert_at(replicas: &mut Vec<Pcte>, index: usize, position: usize, character: char) -> (done:
    bool)
    requires
        all_wf(old(replicas)@),
    ensures
        all_wf(final(replicas)@),
        done == step(
            views(old(replicas)@),
            FixtureOperation::Insert { index, position, character },
        ) is Some,
        done ==> Some(views(final(replicas)@)) == step(
            views(old(replicas)@),
            FixtureOperation::Insert { index, position, character },
        ),
{
    let ghost before = views(replicas@);
    if index >= replicas.len() {
        return false;
    }
    let mut replica = take_out(replicas, index);
    let ghost taken = replica@;
    let done = if replica.counter < usize::MAX && replica.history.counter < usize::MAX {
        let length = replica.text().as_str().unicode_len();
        if length < usize::MAX {
            replica.insert(position % (length + 1), character).is_ok()
        } else {
            proof {
                vstd::arithmetic::div_mod::lemma_small_mod(
                    position as nat,
                    (taken.text().len() + 1) as nat,
                );
            }
            replica.insert(position, character).is_ok()
        }
    } else {
        false
    };
    put_in(replicas, index, replica);
    proof {
        assert(taken == before[index as int]);
        if done {
            assert(views(replicas@) =~= before.update(index as int, replica@));
        }
    }
    done
}

/// The replica `index` deletes the character at `position`, reduced to its text, if
/// it has any text.
fn delete_at(replicas: &mut Vec<Pcte>, index: usize, position: usize) -> (done: bool)
    requires
        all_wf(old(replicas)@),
    ensures
        all_wf(final(replicas)@),
        done == step(views(old(replicas)@), FixtureOperation::Delete { index, position })
            is Some,
        done ==> Some(views(final(replicas)@)) == step(
            views(old(replicas)@),
            FixtureOperation::Delete { index, position },
        ),
{
    let ghost before = views(replicas@);
    if index >= replicas.len() {
        return false;
    }
    let mut replica = take_out(replicas, index);
    let ghost taken = replica@;
    let done = if replica.counter < usize::MAX && replica.history.counter < usize::MAX {
        let length = replica.text().as_str().unicode_len();
        if length != 0 {
            replica.delete(position % length).is_ok()
        } else {
            true
        }
    } else {
        false
    };
    put_in(replicas, index, replica);
    proof {
        assert(taken == before[index as int]);
        if done {
            assert(views(replicas@) =~= before.update(index as int, replica@));
        }
    }
    done
}

/// Takes two different replicas out of the group for a while: first the one at `high`,
/// then the one at `low`.
fn take_two(replicas: &mut Vec<Pcte>, low: usize, high: usize) -> (pair: (Pcte, Pcte))
    requires
        all_wf(old(replicas)@),
        low < high < old(replicas)@.len(),
    ensures
        pair.0 == old(replicas)@[low as int],
        pair.1 == old(replicas)@[high as int],
        pair.0@.wf(),
        pair.1@.wf(),
        final(replicas)@ == old(replicas)@.remove(high as int).remove(low as int),
        all_wf(final(replicas)@),
{
    let upper = take_out(replicas, high);
    let lower = take_out(replicas, low);
    (lower, upper)
}

/// Puts two replicas back where `take_two` took them from.
fn put_two(replicas: &mut Vec<Pcte>, low: usize, high: usize, lower: Pcte, upper: Pcte, Ghost(
    whole,
): Ghost<Seq<Pcte>>)
    requires
        all_wf(old(replicas)@),
        low < high < whole.len(),
        old(replicas)@ == whole.remove(high as int).remove(low as int),
        lower@.wf(),
        upper@.wf(),
    ensures
        final(replicas)@ == whole.update(low as int, lower).update(high as int, upper),
        all_wf(final(replicas)@),
{
    put_in(replicas, low, lower);
    put_in(replicas, high, upper);
    proof {
        assert(replicas@ =~= whole.update(low as int, lower).update(high as int, upper));
    }
}

/// The replicas `index1` and `index2` are brought up to date with each other,
/// `index1` first.
fn synchronize_pair(replicas: &mut Vec<Pcte>, index1: usize, index2: usize) -> (done: bool)
    requires
        all_wf(old(replicas)@),
    ensures
        all_wf(final(replicas)@),
        done == step(views(old(replicas)@), FixtureOperation::Synchronize { index1, index2 })
            is Some,
        done ==> Some(views(final(replicas)@)) == step(
            views(old(replicas)@),
            FixtureOperation::Synchronize { index1, index2 },
        ),
{
    let ghost whole = replicas@;
    if index1 >= replicas.len() || index2 >= replicas.len() || index1 == index2 {
        return false;
    }
    let ghost a = whole[index1 as int]@;
    let ghost b = whole[index2 as int]@;
    let done;
    if index1 < index2 {
        let (mut first, mut second) = take_two(replicas, index1, index2);
        let synchronized = first.synchronize(&mut second);
        done = synchronized.is_ok() && first.text() == second.text();
        put_two(replicas, index1, index2, first, second, Ghost(whole));
    } else {
        let (mut second, mut first) = take_two(replicas, index2, index1);
        let synchronized = first.synchronize(&mut second);
        done = synchronized.is_ok() && first.text() == second.text();
        put_two(replicas, index2, index1, second, first, Ghost(whole));
    }
    proof {
        if done {
            let a2 = a.apply_batch(b.pending_for(a));
            let b2 = b.apply_batch(a.pending_for(b));
            assert(views(replicas@) =~= views(whole).update(index1 as int, a2).update(
                index2 as int,
                b2,
            ));
        }
    }
    done
}

impl FixtureOperation {
    /// The largest number that stands for a kind of step in a group of `replica_count`
    /// replicas: `0` for an insertion, `1` for a deletion, `2` for a new replica and,
    /// where there are two replicas to bring up to date, `3` for that.
    pub fn last_kind(replica_count: usize) -> (res: u8)
        ensures
            res == if replica_count >= 2 {
                3u8
            } else {
                2u8
            },
    {
        if replica_count >= 2 {
            3
        } else {
            2
        }
    }

    /// The second replica of a pair, from the first and a number drawn below the
    /// number of the other replicas: the number itself, or the last replica where the
    /// number is the first replica's.
    pub fn second_index(index1: usize, drawn: usize, replica_count: usize) -> (res: usize)
        requires
            index1 < replica_count,
            drawn + 1 < replica_count,
        ensures
            res < replica_count,
            res != index1,
            res == if drawn == index1 {
                (replica_count - 1) as usize
            } else {
                drawn
            },
    {
        if drawn == index1 {
            replica_count - 1
        } else {
            drawn
        }
    }

    /// Makes this step on the group and returns whether it succeeded.
    pub fn run(&self, replicas: &mut Vec<Pcte>) -> (done: bool)
        requires
            all_wf(old(replicas)@),
        ensures
            all_wf(final(replicas)@),
            done == step(views(old(replicas)@), *self) is Some,
            done ==> Some(views(final(replicas)@)) == step(views(old(replicas)@), *self),
    {
        match *self {
            FixtureOperation::CreateReplica => {
                create(replicas);
                true
            },
            FixtureOperation::Insert { index, position, character } => insert_at(
                replicas,
                index,
                position,
                character,
            ),
            FixtureOperation::Delete { index, position } => delete_at(replicas, index, position),
            FixtureOperation::Synchronize { index1, index2 } => synchronize_pair(
                replicas,
                index1,
                index2,
            ),
        }
    }
}

impl FixtureOperations {
    /// Makes the steps in turn on a group that starts without replicas. Returns the
    /// position of the first step that fails, or `None` if all succeed.
    pub fn first_failure(&self) -> (res: Option<usize>)
        ensures
            match res {
                Some(i) => first_failure_from(Seq::empty(), self.operations@, 0) == Some(i as int),
                None => first_failure_from(Seq::empty(), self.operations@, 0) is None,
            },
    {
        let mut replicas: Vec<Pcte> = Vec::new();
        let mut i: usize = 0;
        proof {
            assert(views(replicas@) =~= Seq::empty());
        }
        while i < self.operations.len()
            invariant
                i <= self.operations.len(),
                all_wf(replicas@),
                first_failure_from(views(replicas@), self.operations@, i as int)
                    == first_failure_from(Seq::empty(), self.operations@, 0),
            decreases self.operations.len() - i,
        {
            if !self.operations[i].run(&mut replicas) {
                return Some(i);
            }
            i += 1;
        }
        None
    }
}

} // verus!
