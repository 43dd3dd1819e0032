use crate::handle_vec::{Handle, HandleVec};
use crate::history::convergence::{compatible, is_diff};
use crate::history::dag::{lemma_add_local_wf, DAGHistory, DAGHistoryEntry};
use crate::history::dag_exec::{entry_views, positions};
use crate::history::History;
use crate::lexical::string_sign;
use crate::pcte::append::lemma_append_text;
use crate::pcte::causality::{
    agree, causal, lemma_add_local_causal, lemma_delete_fits, lemma_insert_fits,
    lemma_synchronize_succeeds,
};
use crate::pcte::editing::{lemma_delete_text, lemma_insert_len};
use crate::pcte::laws::{lemma_synchronized_characters, lemma_synchronized_heads};
use crate::pcte::model::{
    find, find_below, first_with_node, insert_position, key_before, order, order_children,
    slot_for, slot_of, MessageView, NodeId, NodeView, PcteView, SlotView, SortKey, TreeNodeView,
};
use crate::pcte::record::{
    lemma_after_batch, lemma_after_entry_recorded, lemma_delete_local_recorded,
    lemma_insert_local_recorded,
};
use crate::pcte::shape::{lemma_erase_wf, lemma_place_wf, lemma_same_arenas, lemma_slot_of};
use crate::pcte::sorting::in_order;
use crate::pcte::text::pick;
use crate::pcte::tree::{count, lemma_order_len};
use std::rc::Rc;
use vstd::prelude::*;
use vstd::string::StringExecFns;

pub mod append;
pub mod causality;
pub mod editing;
pub mod laws;
pub mod model;
pub mod ops;
pub mod placement;
pub mod record;
pub mod shape;
pub mod sorting;
pub mod text;
pub mod tree;

verus! {

/// An operation on the text, as replicas exchange it.
#[derive(Debug)]
pub enum Message {
    Insert(InsertMessage),
    Delete(DeleteMessage),
}

/// The insertion of one character between the characters named as its origins.
#[derive(Debug)]
pub struct InsertMessage {
    pub left_replica_id: Rc<String>,
    pub left_counter: usize,
    pub right_replica_id: Rc<String>,
    pub right_counter: usize,
    pub replica_id: Rc<String>,
    pub counter: usize,
    pub character: char,
}

/// The deletion of the character with the given identity.
#[derive(Debug)]
pub struct DeleteMessage {
    pub replica_id: Rc<String>,
    pub counter: usize,
}

/// Why an operation was refused.
#[derive(Debug, Clone, Copy, PartialEq, Eq, Structural)]
pub enum PcteError {
    /// The index lies outside the text.
    IndexOutOfRange,
    /// The operation refers to a character or to a history entry that is not known.
    CausalityViolation,
    /// The identity of the new character is already taken.
    IdentityCollision,
}

/// A character with its identity. `character` is `None` once it has been deleted.
#[derive(Debug)]
pub struct PcteNode {
    pub replica_id: Rc<String>,
    pub counter: usize,
    pub character: Option<char>,
}

impl Clone for PcteNode {
    fn clone(&self) -> (res: Self)
        ensures
            res == *self,
    {
        PcteNode {
            replica_id: self.replica_id.clone(),
            counter: self.counter,
            character: self.character,
        }
    }
}

/// The place of a character in one of the two trees.
#[derive(Debug)]
pub struct PcteTreeNode {
    pub node_handle: Handle<PcteNode>,
    pub children: Vec<Handle<PcteTreeNode>>,
}

/// One line of the identity map: an identity, and its places in the two trees.
#[derive(Debug)]
pub struct IdSlot {
    pub replica_id: Rc<String>,
    pub counter: usize,
    pub left: Handle<PcteTreeNode>,
    pub right: Handle<PcteTreeNode>,
}

/// One replica of the text.
#[derive(Debug)]
pub struct Pcte {
    pub replica_id: Rc<String>,
    pub counter: usize,
    pub history: DAGHistory<Message>,
    pub nodes: HandleVec<PcteNode>,
    pub tree_nodes: HandleVec<PcteTreeNode>,
    pub id_to_node: Vec<IdSlot>,
    pub left_origin_tree: Handle<PcteTreeNode>,
    pub right_origin_tree: Handle<PcteTreeNode>,
}

impl View for Message {
    type V = MessageView;

    open spec fn view(&self) -> MessageView {
        match *self {
            Message::Insert(m) => MessageView::Insert {
                id: (m.replica_id@, m.counter),
                left: (m.left_replica_id@, m.left_counter),
                right: (m.right_replica_id@, m.right_counter),
                character: m.character,
            },
            Message::Delete(m) => MessageView::Delete { id: (m.replica_id@, m.counter) },
        }
    }
}

impl View for PcteNode {
    type V = NodeView;

    open spec fn view(&self) -> NodeView {
        NodeView { id: (self.replica_id@, self.counter), character: self.character }
    }
}

impl View for PcteTreeNode {
    type V = TreeNodeView;

    open spec fn view(&self) -> TreeNodeView {
        TreeNodeView { node: self.node_handle.0 as int, children: positions(self.children@) }
    }
}

impl View for IdSlot {
    type V = SlotView;

    open spec fn view(&self) -> SlotView {
        SlotView {
            id: (self.replica_id@, self.counter),
            left: self.left.0 as int,
            right: self.right.0 as int,
        }
    }
}

impl View for Pcte {
    type V = PcteView;

    open spec fn view(&self) -> PcteView {
        PcteView {
            replica_id: self.replica_id@,
            counter: self.counter,
            history: self.history@,
            nodes: self.nodes@.map_values(|n: PcteNode| n@),
            tree_nodes: self.tree_nodes@.map_values(|t: PcteTreeNode| t@),
            id_to_node: self.id_to_node@.map_values(|s: IdSlot| s@),
            left_origin_tree: self.left_origin_tree.0 as int,
            right_origin_tree: self.right_origin_tree.0 as int,
        }
    }
}

/// The key of a tree node among its siblings, as the sort holds it.
#[derive(Debug)]
pub struct NodeKey {
    pub index: usize,
    pub replica_id: Rc<String>,
    pub counter: usize,
}

impl View for NodeKey {
    type V = SortKey;

    open spec fn view(&self) -> SortKey {
        SortKey { index: self.index as int, id: (self.replica_id@, self.counter) }
    }
}

impl NodeKey {
    /// Whether a sibling with this key comes before one with the key `other`.
    pub fn before(&self, other: &NodeKey) -> (res: bool)
        ensures
            res == key_before(self@, other@),
    {
        if self.index != other.index {
            return self.index > other.index;
        }
        let sign = string_sign(self.replica_id.as_str(), other.replica_id.as_str());
        if sign != 0 {
            return sign < 0;
        }
        self.counter < other.counter
    }
}

/// The keys that a vector of keys holds.
pub open spec fn key_views(keys: Seq<NodeKey>) -> Seq<SortKey> {
    keys.map_values(|k: NodeKey| k@)
}

/// Where a sibling with key `x` goes among the sorted `keys`.
pub fn find_insert_position(keys: &Vec<NodeKey>, x: &NodeKey) -> (res: usize)
    ensures
        res as int == insert_position(key_views(keys@), x@),
        res <= keys@.len(),
{
    let mut j: usize = keys.len();
    proof {
        assert(key_views(keys@).take(j as int) =~= key_views(keys@));
    }
    while j > 0 && x.before(&keys[j - 1])
        invariant
            j <= keys@.len(),
            insert_position(key_views(keys@).take(j as int), x@) == insert_position(
                key_views(keys@),
                x@,
            ),
        decreases j,
    {
        proof {
            assert(key_views(keys@).take(j as int).drop_last() =~= key_views(keys@).take(j - 1));
        }
        j -= 1;
    }
    j
}

/// Appends one character to a string: `String::push`, which puts the character behind
/// all that the string holds.
#[verifier::external_body]
fn push_char(text: &mut String, character: char)
    ensures
        final(text)@ == old(text)@.push(character),
{
    text.push(character);
}

impl Pcte {
    /// A replica with the given name and an empty text.
    pub fn new(replica_id: Rc<String>) -> (res: Self)
        ensures
            res@ == PcteView::fresh(replica_id@),
            res@.wf(),
            res@.recorded(),
            causal(res@.history),
    {
        let root_replica_id = Rc::new(String::new());
        let mut nodes = HandleVec::new();
        let handle = nodes.push(
            PcteNode { character: None, replica_id: root_replica_id.clone(), counter: 0 },
        );
        let mut tree_nodes = HandleVec::new();
        let left_origin_tree = tree_nodes.push(
            PcteTreeNode { node_handle: handle, children: Vec::new() },
        );
        let right_origin_tree = tree_nodes.push(
            PcteTreeNode { node_handle: handle, children: Vec::new() },
        );
        let mut id_to_node = Vec::new();
        id_to_node.push(
            IdSlot {
                replica_id: root_replica_id,
                counter: 0,
                left: left_origin_tree,
                right: right_origin_tree,
            },
        );
        let history = DAGHistory::new((*replica_id).clone());
        let res = Pcte {
            replica_id,
            counter: 0,
            history,
            nodes,
            tree_nodes,
            id_to_node,
            left_origin_tree,
            right_origin_tree,
        };
        proof {
            let v = PcteView::fresh(replica_id@);
            assert(res@.nodes =~= v.nodes);
            assert forall|t: int| 0 <= t < 2 implies res@.tree_nodes[t] == v.tree_nodes[t] by {
                assert(res@.tree_nodes[t].children =~= v.tree_nodes[t].children);
            }
            assert(res@.tree_nodes =~= v.tree_nodes);
            assert(res@.id_to_node =~= v.id_to_node);
            PcteView::lemma_fresh_wf(replica_id@);
        }
        res
    }

    /// The text of the replica.
    pub fn text(&self) -> (res: String)
        requires
            self@.wf(),
        ensures
            res@ == self@.text(),
    {
        self.text_tree_node(self.left_origin_tree)
    }

    /// Inserts `character` at `index`: the new character takes the visible character
    /// before `index` as its left origin and the visible character at `index` as its
    /// right origin, the root standing in at either end of the text. The text grows by
    /// the character; at the end of the text the character comes last.
    /// Fails with `IndexOutOfRange` if `index` is beyond the end of the text, and with
    /// `IdentityCollision` if the identity that the character would get is taken; the
    /// replica is then left as it was.
    pub fn insert(&mut self, index: usize, character: char) -> (res: Result<(), PcteError>)
        requires
            old(self)@.wf(),
            old(self).counter < usize::MAX,
            old(self).history.counter < usize::MAX,
        ensures
            final(self)@.wf(),
            match old(self)@.insert_local(index as int, character) {
                Ok(after) => res is Ok && final(self)@ == after,
                Err(error) => res == Err::<(), PcteError>(error) && final(self)@ == old(self)@,
            },
            index > old(self)@.text().len() <==> res == Err::<(), PcteError>(
                PcteError::IndexOutOfRange,
            ),
            res is Ok ==> final(self)@.text().len() == old(self)@.text().len() + 1,
            res is Ok && index == old(self)@.text().len()
                ==> final(self)@.text() == old(self)@.text().push(character),
            old(self)@.recorded() ==> final(self)@.recorded(),
            old(self)@.recorded() && causal(old(self)@.history) ==> causal(final(self)@.history),
    {
        let ghost before = self@;
        proof {
            if before.insert_local(index as int, character) is Ok {
                lemma_insert_len(before, index as int, character);
                if before.recorded() {
                    lemma_insert_local_recorded(before, index as int, character);
                    if causal(before.history) {
                        lemma_insert_fits(before, index as int, character);
                        lemma_add_local_causal(
                            before.history,
                            before.local_insert_message(index as int, character),
                        );
                    }
                }
                if index == before.text().len() {
                    lemma_append_text(before, character);
                }
            }
        }
        proof {
            assert(before.tree_nodes[0].node == 0int / 2);
            assert(before.tree_nodes[1].node == 1int / 2);
        }
        let right_node = match self.node_at_index(self.left_origin_tree, index) {
            Ok(found) => {
                proof {
                    assert(before.tree_nodes[found.0 as int].node == found.0 as int / 2);
                }
                self.tree_nodes.index(found).node_handle
            },
            Err(rest) => {
                if rest > 0 {
                    return Err(PcteError::IndexOutOfRange);
                }
                self.tree_nodes.index(self.right_origin_tree).node_handle
            },
        };
        let fresh = self.counter + 1;
        if self.locate_by_id(&self.replica_id, fresh).is_some() {
            return Err(PcteError::IdentityCollision);
        }
        let left_node = if index == 0 {
            self.tree_nodes.index(self.left_origin_tree).node_handle
        } else {
            match self.node_at_index(self.left_origin_tree, index - 1) {
                Ok(found) => {
                    proof {
                        assert(before.tree_nodes[found.0 as int].node == found.0 as int / 2);
                    }
                    self.tree_nodes.index(found).node_handle
                },
                Err(_) => {
                    return Err(PcteError::IndexOutOfRange);
                },
            }
        };
        proof {
            assert(left_node.0 == before.left_origin(index as int));
            assert(right_node.0 == before.right_origin(index as int));
            assert(before.id_to_node[left_node.0 as int] == slot_for(
                before.nodes[left_node.0 as int],
                left_node.0 as int,
            ));
            assert(before.id_to_node[right_node.0 as int] == slot_for(
                before.nodes[right_node.0 as int],
                right_node.0 as int,
            ));
        }
        let left_parent = self.id_to_node[left_node.0].left;
        let right_parent = self.id_to_node[right_node.0].right;
        let left = self.nodes.index(left_node);
        let right = self.nodes.index(right_node);
        let message = Message::Insert(
            InsertMessage {
                left_replica_id: left.replica_id.clone(),
                left_counter: left.counter,
                right_replica_id: right.replica_id.clone(),
                right_counter: right.counter,
                replica_id: self.replica_id.clone(),
                counter: fresh,
                character,
            },
        );
        let node = PcteNode {
            character: Some(character),
            replica_id: self.replica_id.clone(),
            counter: fresh,
        };
        proof {
            assert(message@ == before.local_insert_message(index as int, character));
            before.lemma_lookup_none(node@.id);
            lemma_place_wf(before, node@, left_parent.0 as int, right_parent.0 as int);
            lemma_add_local_wf(before.history, message@);
        }
        self.counter = fresh;
        self.place(node, left_parent, right_parent);
        self.history.add_value(message);
        proof {
            lemma_same_arenas(
                before.place(node@, left_parent.0 as int, right_parent.0 as int),
                self@,
            );
        }
        Ok(())
    }

    /// Deletes the `index`-th character of the text. Fails with `IndexOutOfRange` if
    /// the text has no such character; the replica is then left as it was.
    pub fn delete(&mut self, index: usize) -> (res: Result<(), PcteError>)
        requires
            old(self)@.wf(),
            old(self).history.counter < usize::MAX,
        ensures
            final(self)@.wf(),
            match old(self)@.delete_local(index as int) {
                Ok(after) => res is Ok && final(self)@ == after,
                Err(error) => res == Err::<(), PcteError>(error) && final(self)@ == old(self)@,
            },
            res is Ok <==> index < old(self)@.text().len(),
            res is Ok ==> final(self)@.text() == old(self)@.text().remove(index as int),
            old(self)@.recorded() ==> final(self)@.recorded(),
            old(self)@.recorded() && causal(old(self)@.history) ==> causal(final(self)@.history),
    {
        let ghost before = self@;
        proof {
            if index < before.text().len() {
                lemma_delete_text(before, index as int);
                if before.recorded() {
                    lemma_delete_local_recorded(before, index as int);
                    if causal(before.history) {
                        lemma_delete_fits(before, index as int);
                        lemma_add_local_causal(
                            before.history,
                            MessageView::Delete {
                                id: before.nodes[before.tree_nodes[before.seen()[index as int]].node].id,
                            },
                        );
                    }
                }
            }
        }
        let found = match self.node_at_index(self.left_origin_tree, index) {
            Ok(found) => found,
            Err(_) => {
                return Err(PcteError::IndexOutOfRange);
            },
        };
        let node = self.tree_nodes.index(found).node_handle;
        let target = self.nodes.index(node);
        let message = Message::Delete(
            DeleteMessage { replica_id: target.replica_id.clone(), counter: target.counter },
        );
        proof {
            assert(before.tree_nodes[found.0 as int].node == found.0 as int / 2);
            lemma_erase_wf(before, node.0 as int);
            lemma_add_local_wf(before.history, message@);
        }
        self.history.add_value(message);
        self.erase(node);
        proof {
            lemma_same_arenas(before.erase(node.0 as int), self@);
        }
        Ok(())
    }

    /// Brings two replicas up to date with each other: each takes in what the other
    /// has and it lacks. What each side is to take in is settled before either changes.
    /// This replica goes first; if it fails, `other` is left as it was.
    pub fn synchronize(&mut self, other: &mut Self) -> (res: Result<(), PcteError>)
        requires
            old(self)@.wf(),
            old(other)@.wf(),
        ensures
            final(self)@.wf(),
            final(other)@.wf(),
            final(self)@ == old(self)@.apply_batch(old(other)@.pending_for(old(self)@)),
            match old(self)@.error_from(old(other)@.pending_for(old(self)@), 0) {
                Some(error) => res == Err::<(), PcteError>(error) && final(other)@ == old(other)@,
                None => final(other)@ == old(other)@.apply_batch(
                    old(self)@.pending_for(old(other)@),
                ) && res == match old(other)@.error_from(old(self)@.pending_for(old(other)@), 0) {
                    None => Ok::<(), PcteError>(()),
                    Some(error) => Err::<(), PcteError>(error),
                },
            },
            res is Ok && compatible(old(self)@.history, old(other)@.history)
                ==> final(self)@.history.head_set() == final(other)@.history.head_set(),
            old(self)@.recorded() ==> final(self)@.recorded(),
            old(other)@.recorded() ==> final(other)@.recorded(),
            res is Ok && compatible(old(self)@.history, old(other)@.history)
                && old(self)@.recorded() && old(other)@.recorded()
                ==> final(self)@.text().len() == final(other)@.text().len(),
            old(self)@.recorded() && old(other)@.recorded() && causal(old(self)@.history)
                && causal(old(other)@.history) && agree(old(self)@.history, old(other)@.history)
                ==> res is Ok && causal(final(self)@.history) && causal(final(other)@.history),
    {
        proof {
            if self@.recorded() && other@.recorded() && causal(self@.history) && causal(
                other@.history,
            ) && agree(self@.history, other@.history) {
                lemma_synchronize_succeeds(self@, other@);
            }
            if compatible(self@.history, other@.history) && self@.error_from(
                other@.pending_for(self@),
                0,
            ) is None && other@.error_from(self@.pending_for(other@), 0) is None {
                lemma_synchronized_heads(self@, other@);
                if self@.recorded() && other@.recorded() {
                    lemma_synchronized_characters(self@, other@);
                }
            }
        }
        let new_for_self = other.pending_for(self);
        let new_for_other = self.pending_for(other);
        match self.apply_batch(&new_for_self) {
            Ok(()) => {},
            Err(error) => {
                return Err(error);
            },
        }
        other.apply_batch(&new_for_other)
    }

    /// The entries of this replica's history that `other` lacks, in an order in which
    /// `other` can take them in.
    pub fn pending_for(&self, other: &Pcte) -> (batch: Vec<Rc<DAGHistoryEntry<Message>>>)
        requires
            self@.wf(),
        ensures
            entry_views(batch@) == self@.pending_for(other@),
            other@.history.wf() && compatible(self@.history, other@.history) ==> is_diff(
                self@.history,
                other@.history,
                entry_views(batch@),
            ),
    {
        self.history.diff_to(&other.history)
    }

    /// Takes in a batch of entries in turn, up to the first that fails.
    pub fn apply_batch(&mut self, batch: &Vec<Rc<DAGHistoryEntry<Message>>>) -> (res: Result<
        (),
        PcteError,
    >)
        requires
            old(self)@.wf(),
        ensures
            final(self)@.wf(),
            final(self)@ == old(self)@.apply_batch(entry_views(batch@)),
            res == match old(self)@.error_from(entry_views(batch@), 0) {
                None => Ok::<(), PcteError>(()),
                Some(error) => Err::<(), PcteError>(error),
            },
            old(self)@.recorded() ==> final(self)@.recorded(),
    {
        let ghost before = self@;
        let ghost entries = entry_views(batch@);
        proof {
            lemma_after_batch(before, entries, 0);
        }
        let mut i: usize = 0;
        while i < batch.len()
            invariant
                self@.wf(),
                before == old(self)@,
                before.recorded() ==> before.apply_from(entries, 0).recorded(),
                entries == entry_views(batch@),
                i <= batch.len(),
                self@.apply_from(entries, i as int) == before.apply_from(entries, 0),
                self@.error_from(entries, i as int) == before.error_from(entries, 0),
            decreases batch.len() - i,
        {
            let ghost here = self@;
            proof {
                assert(entries[i as int] == batch@[i as int]@);
                assert(here.apply_from(entries, i as int) == match here.apply_entry(
                    entries[i as int],
                ) {
                    Ok(next) => next.apply_from(entries, i + 1),
                    Err(_) => here,
                });
                assert(here.error_from(entries, i as int) == match here.apply_entry(
                    entries[i as int],
                ) {
                    Ok(next) => next.error_from(entries, i + 1),
                    Err(error) => Some(error),
                });
            }
            match self.apply_entry(&batch[i]) {
                Ok(()) => {},
                Err(error) => {
                    return Err(error);
                },
            }
            i += 1;
        }
        Ok(())
    }

    /// Takes in one entry of another replica's history: applies its operation and
    /// records the entry. An entry that is known already changes nothing. Fails with
    /// `CausalityViolation` if a parent of the entry or a character that the operation
    /// names is not known, and with `IdentityCollision` if it inserts a character whose
    /// identity is taken; the replica is then left as it was.
    pub fn apply_entry(&mut self, entry: &Rc<DAGHistoryEntry<Message>>) -> (res: Result<
        (),
        PcteError,
    >)
        requires
            old(self)@.wf(),
        ensures
            final(self)@.wf(),
            match old(self)@.apply_entry(entry@) {
                Ok(after) => res is Ok && final(self)@ == after,
                Err(error) => res == Err::<(), PcteError>(error) && final(self)@ == old(self)@,
            },
            old(self)@.recorded() ==> final(self)@.recorded(),
    {
        proof {
            if self@.recorded() {
                lemma_after_entry_recorded(self@, entry@);
            }
        }
        if self.history.contains(&entry.id) {
            return Ok(());
        }
        if !self.history.contains_all(&entry.parents) {
            return Err(PcteError::CausalityViolation);
        }
        let applied = match &entry.value {
            Message::Insert(insert) => self.insert_remote(insert),
            Message::Delete(delete) => self.delete_remote(delete),
        };
        match applied {
            Ok(()) => {},
            Err(error) => {
                return Err(error);
            },
        }
        let ghost applied_view = self@;
        self.history.add_entry(entry.clone());
        proof {
            lemma_same_arenas(applied_view, self@);
        }
        Ok(())
    }

    /// Applies an insertion that was made elsewhere. Fails with `CausalityViolation`
    /// if an origin is not known and with `IdentityCollision` if the identity is taken;
    /// the replica is then left as it was.
    pub fn insert_remote(&mut self, insert: &InsertMessage) -> (res: Result<(), PcteError>)
        requires
            old(self)@.wf(),
        ensures
            final(self)@.wf(),
            match old(self)@.insert_remote(
                (insert.replica_id@, insert.counter),
                (insert.left_replica_id@, insert.left_counter),
                (insert.right_replica_id@, insert.right_counter),
                insert.character,
            ) {
                Ok(after) => res is Ok && final(self)@ == after,
                Err(error) => res == Err::<(), PcteError>(error) && final(self)@ == old(self)@,
            },
    {
        let left = self.locate_by_id(&insert.left_replica_id, insert.left_counter);
        let right = self.locate_by_id(&insert.right_replica_id, insert.right_counter);
        let (left_parent, right_parent) = match (left, right) {
            (Some(l), Some(r)) => (l.0, r.1),
            _ => {
                return Err(PcteError::CausalityViolation);
            },
        };
        if self.locate_by_id(&insert.replica_id, insert.counter).is_some() {
            return Err(PcteError::IdentityCollision);
        }
        let node = PcteNode {
            character: Some(insert.character),
            replica_id: insert.replica_id.clone(),
            counter: insert.counter,
        };
        proof {
            lemma_slot_of(self@.id_to_node, (insert.left_replica_id@, insert.left_counter));
            lemma_slot_of(self@.id_to_node, (insert.right_replica_id@, insert.right_counter));
            self@.lemma_lookup_none(node@.id);
            lemma_place_wf(self@, node@, left_parent.0 as int, right_parent.0 as int);
        }
        self.place(node, left_parent, right_parent);
        Ok(())
    }

    /// Applies a deletion that was made elsewhere. Fails with `CausalityViolation` if
    /// the character is not known; the replica is then left as it was.
    pub fn delete_remote(&mut self, delete: &DeleteMessage) -> (res: Result<(), PcteError>)
        requires
            old(self)@.wf(),
        ensures
            final(self)@.wf(),
            match old(self)@.delete_remote((delete.replica_id@, delete.counter)) {
                Ok(after) => res is Ok && final(self)@ == after,
                Err(error) => res == Err::<(), PcteError>(error) && final(self)@ == old(self)@,
            },
    {
        let places = match self.locate_by_id(&delete.replica_id, delete.counter) {
            Some(places) => places,
            None => {
                return Err(PcteError::CausalityViolation);
            },
        };
        proof {
            lemma_slot_of(self@.id_to_node, (delete.replica_id@, delete.counter));
        }
        let node = self.tree_nodes.index(places.0).node_handle;
        proof {
            let k = self@.lookup((delete.replica_id@, delete.counter))->0;
            assert(self@.id_to_node[k].left == 2 * k);
            assert(self@.tree_nodes[2 * k].node == (2 * k) / 2);
            assert(node.0 == k);
            lemma_erase_wf(self@, k);
        }
        self.erase(node);
        Ok(())
    }

    /// The two places of the character with the given identity, if it is known: first
    /// the one in the left-origin tree, then the one in the right-origin tree.
    pub fn locate_by_id(&self, replica_id: &String, counter: usize) -> (res: Option<
        (Handle<PcteTreeNode>, Handle<PcteTreeNode>),
    >)
        ensures
            match res {
                Some(places) => self@.lookup((replica_id@, counter)) matches Some(k)
                    && self@.id_to_node[k].left == places.0.0 && self@.id_to_node[k].right
                    == places.1.0,
                None => self@.lookup((replica_id@, counter)) is None,
            },
    {
        let ghost id: NodeId = (replica_id@, counter);
        let ghost slots = self@.id_to_node;
        let n = self.id_to_node.len();
        let mut i: usize = 0;
        while i < n
            invariant
                n == self.id_to_node@.len(),
                slots == self@.id_to_node,
                id == (replica_id@, counter),
                i <= n,
                slot_of(slots.take(i as int), id) is None,
            decreases n - i,
        {
            let slot = &self.id_to_node[i];
            proof {
                assert(slots.take(i + 1).drop_last() =~= slots.take(i as int));
                assert(slots[i as int] == slot@);
            }
            if slot.counter == counter && *slot.replica_id == *replica_id {
                proof {
                    lemma_slot_of(slots, id);
                    lemma_slot_of(slots.take(i as int), id);
                    let found = slot_of(slots, id);
                    assert(found is Some);
                    if found->0 < i {
                        assert(slots.take(i as int)[found->0].id == id);
                    }
                }
                return Some((slot.left, slot.right));
            }
            i += 1;
        }
        proof {
            assert(slots.take(n as int) =~= slots);
        }
        None
    }

    /// The `index`-th visible tree node below and including `node`: `Ok` with it, or
    /// `Err` with what is left of `index` after all that is visible there.
    pub fn node_at_index(&self, node: Handle<PcteTreeNode>, index: usize) -> (res: Result<
        Handle<PcteTreeNode>,
        usize,
    >)
        requires
            self@.wf(),
            node.0 < self@.tree_nodes.len(),
        ensures
            match res {
                Ok(found) => self@.locate(node.0 as int, index as int) == Ok::<int, int>(
                    found.0 as int,
                ) && found.0 < self@.tree_nodes.len(),
                Err(rest) => self@.locate(node.0 as int, index as int) == Err::<int, int>(
                    rest as int,
                ),
            },
        decreases self@.tree_nodes.len() - node.0,
    {
        let mut remaining = index;
        let character = self.tree_nodes.index(node).node_handle;
        let children = self.sorted_children(node);
        let ghost kids = self@.sorted_kids();
        let ghost list = positions(children@);
        let ghost below = order_children(kids, list, node.0 as int, 0);
        proof {
            assert(self@.tree_nodes[node.0 as int].node == character.0);
            assert(self@.tree_nodes[node.0 as int].node == node.0 as int / 2);
            self@.lemma_visible_one(node.0 as int);
            self@.lemma_visible_add(seq![node.0 as int], below);
        }
        if let Some(_) = self.nodes.index(character).character {
            if remaining == 0 {
                return Ok(node);
            }
            remaining -= 1;
        }
        let mut i: usize = 0;
        while i < children.len()
            invariant
                self@.wf(),
                node.0 < self@.tree_nodes.len(),
                kids == self@.sorted_kids(),
                list == positions(children@),
                i <= children.len(),
                forall|j: int|
                    0 <= j < children@.len() ==> node.0 < (#[trigger] children@[j]).0
                        < self@.tree_nodes.len(),
                pick(
                    self@.visible(order_children(kids, list, node.0 as int, i as int)),
                    remaining as int,
                ) == self@.locate(node.0 as int, index as int),
            decreases children.len() - i,
        {
            let child = children[i];
            let ghost first = self@.visible(order(kids, child.0 as int));
            let ghost rest = self@.visible(order_children(kids, list, node.0 as int, i + 1));
            proof {
                assert(list[i as int] == child.0);
                self@.lemma_visible_add(
                    order(kids, child.0 as int),
                    order_children(kids, list, node.0 as int, i + 1),
                );
                assert(self@.visible(order_children(kids, list, node.0 as int, i as int)) == first
                    + rest);
            }
            match self.node_at_index(child, remaining) {
                Ok(found) => {
                    proof {
                        assert((first + rest)[remaining as int] == first[remaining as int]);
                    }
                    return Ok(found);
                },
                Err(left) => {
                    remaining = left;
                },
            }
            i += 1;
        }
        proof {
            self@.lemma_visible_none();
        }
        Err(remaining)
    }

    /// The text below and including the tree node `this`.
    pub fn text_tree_node(&self, this: Handle<PcteTreeNode>) -> (res: String)
        requires
            self@.wf(),
            this.0 < self@.tree_nodes.len(),
        ensures
            res@ == self@.text_from(this.0 as int),
        decreases self@.tree_nodes.len() - this.0,
    {
        let mut result = String::new();
        let node = self.tree_nodes.index(this).node_handle;
        proof {
            assert(self@.tree_nodes[this.0 as int].node == node.0);
            assert(self@.tree_nodes[this.0 as int].node == this.0 as int / 2);
            self@.lemma_chars_one(this.0 as int);
        }
        if let Some(character) = self.nodes.index(node).character {
            push_char(&mut result, character);
        }
        let children = self.sorted_children(this);
        let ghost kids = self@.sorted_kids();
        let ghost list = positions(children@);
        proof {
            self@.lemma_chars_add(
                seq![this.0 as int],
                order_children(kids, list, this.0 as int, 0),
            );
        }
        let mut i: usize = 0;
        while i < children.len()
            invariant
                self@.wf(),
                this.0 < self@.tree_nodes.len(),
                kids == self@.sorted_kids(),
                list == positions(children@),
                i <= children.len(),
                forall|j: int|
                    0 <= j < children@.len() ==> this.0 < (#[trigger] children@[j]).0
                        < self@.tree_nodes.len(),
                result@ + self@.chars_of(order_children(kids, list, this.0 as int, i as int))
                    == self@.text_from(this.0 as int),
            decreases children.len() - i,
        {
            let child = children[i];
            let below = self.text_tree_node(child);
            proof {
                assert(list[i as int] == child.0);
                self@.lemma_chars_add(
                    order(kids, child.0 as int),
                    order_children(kids, list, this.0 as int, i + 1),
                );
                assert(result@ + (below@ + self@.chars_of(
                    order_children(kids, list, this.0 as int, i + 1),
                )) =~= (result@ + below@) + self@.chars_of(
                    order_children(kids, list, this.0 as int, i + 1),
                ));
            }
            result.append(below.as_str());
            i += 1;
        }
        proof {
            self@.lemma_visible_none();
            assert(result@ + Seq::<char>::empty() =~= result@);
        }
        result
    }

    /// The children of the tree node `t` in the order in which the text visits them.
    pub fn sorted_children(&self, t: Handle<PcteTreeNode>) -> (res: Vec<Handle<PcteTreeNode>>)
        requires
            self@.wf(),
            t.0 < self@.tree_nodes.len(),
        ensures
            positions(res@) == self@.sorted(self@.tree_nodes[t.0 as int].children),
            positions(res@) == self@.sorted_kids()[t.0 as int],
            in_order(self@.sort_keys(positions(res@))),
            forall|i: int| 0 <= i < res@.len() ==> t.0 < (#[trigger] res@[i]).0 < self@.tree_nodes.len(),
    {
        let tree_node = self.tree_nodes.index(t);
        let ghost list = self@.tree_nodes[t.0 as int].children;
        proof {
            self@.lemma_sorted_in_order(list);
        }
        let mut out: Vec<Handle<PcteTreeNode>> = Vec::new();
        let mut keys: Vec<NodeKey> = Vec::new();
        let mut i: usize = 0;
        proof {
            assert(list.take(0) =~= Seq::<int>::empty());
            assert(positions(out@) =~= Seq::<int>::empty());
            assert(key_views(keys@) =~= self@.sort_keys(positions(out@)));
        }
        while i < tree_node.children.len()
            invariant
                self@.wf(),
                t.0 < self@.tree_nodes.len(),
                list == positions(tree_node.children@),
                list == self@.tree_nodes[t.0 as int].children,
                i <= tree_node.children.len(),
                positions(out@) == self@.sorted(list.take(i as int)),
                key_views(keys@) == self@.sort_keys(positions(out@)),
                forall|j: int| 0 <= j < out@.len() ==> t.0 < (#[trigger] out@[j]).0 < self@.tree_nodes.len(),
            decreases tree_node.children.len() - i,
        {
            let child = tree_node.children[i];
            proof {
                assert(self@.tree_nodes[t.0 as int].children[i as int] == child.0);
                assert(list.take(i + 1).drop_last() =~= list.take(i as int));
                assert(list.take(i + 1).last() == child.0);
            }
            let key = self.sort_key(child);
            let at = find_insert_position(&keys, &key);
            let ghost before = positions(out@);
            let ghost keys_before = key_views(keys@);
            out.insert(at, child);
            keys.insert(at, key);
            proof {
                assert(positions(out@) =~= before.insert(at as int, child.0 as int));
                assert(key_views(keys@) =~= keys_before.insert(at as int, key@));
                assert(key_views(keys@) =~= self@.sort_keys(positions(out@)));
            }
            i += 1;
        }
        proof {
            assert(list.take(i as int) =~= list);
        }
        out
    }

    /// The key by which the tree node `t` is ordered among its siblings.
    pub fn sort_key(&self, t: Handle<PcteTreeNode>) -> (res: NodeKey)
        requires
            self@.wf(),
            t.0 < self@.tree_nodes.len(),
        ensures
            res@ == self@.sort_key(t.0 as int),
    {
        let node = self.tree_nodes.index(t).node_handle;
        let total = self.tree_nodes.len();
        proof {
            assert(self@.tree_nodes[t.0 as int].node == node.0);
            assert(self@.tree_nodes[t.0 as int].node == t.0 as int / 2);
            assert forall|x: int| count(order(self@.kids(), 1), x) <= 1 by {}
            lemma_order_len(self@.kids(), 1);
        }
        let index = match self.node_last_node_and_index_including_deleted_of_node(
            self.right_origin_tree,
            node,
            0,
        ) {
            Ok(found) => found.1,
            Err(next) => next,
        };
        let character = self.nodes.index(node);
        NodeKey { index, replica_id: character.replica_id.clone(), counter: character.counter }
    }

    /// Searches the subtree of `this` for the tree node of the character `node`,
    /// counting from `index`. Returns `Ok` with the tree node and the count at which the
    /// search stood there, or `Err` with the count after the whole subtree.
    pub fn node_last_node_and_index_including_deleted_of_node(
        &self,
        this: Handle<PcteTreeNode>,
        node: Handle<PcteNode>,
        index: usize,
    ) -> (res: Result<(Handle<PcteTreeNode>, usize), usize>)
        requires
            self@.shaped(),
            this.0 < self@.tree_nodes.len(),
            index + order(self@.kids(), this.0 as int).len() <= usize::MAX,
        ensures
            match res {
                Ok(found) => find(self@.tree_nodes, this.0 as int, node.0 as int, index as int)
                    == Ok::<(int, int), int>((found.0.0 as int, found.1 as int)),
                Err(next) => find(self@.tree_nodes, this.0 as int, node.0 as int, index as int)
                    == Err::<(int, int), int>(next as int) && next == index + order(
                    self@.kids(),
                    this.0 as int,
                ).len(),
            },
        decreases self@.tree_nodes.len() - this.0,
    {
        let tree_node = self.tree_nodes.index(this);
        let ghost list = self@.tree_nodes[this.0 as int].children;
        proof {
            assert(list == positions(tree_node.children@));
            assert(self@.kids()[this.0 as int] == list);
        }
        if tree_node.node_handle == node {
            return Ok((this, index));
        }
        let below = index + 1;
        let mut i: usize = 0;
        while i < tree_node.children.len()
            invariant
                self@.shaped(),
                this.0 < self@.tree_nodes.len(),
                list == positions(tree_node.children@),
                list == self@.tree_nodes[this.0 as int].children,
                self@.tree_nodes[this.0 as int].node != node.0,
                below == index + 1,
                i <= tree_node.children.len(),
                first_with_node(self@.tree_nodes, list.take(i as int), node.0 as int) is None,
            decreases tree_node.children.len() - i,
        {
            let child = tree_node.children[i];
            proof {
                assert(list.take(i + 1).drop_last() =~= list.take(i as int));
                assert(self@.tree_nodes[this.0 as int].children[i as int] == child.0);
            }
            if self.tree_nodes.index(child).node_handle == node {
                proof {
                    assert(self@.tree_nodes[child.0 as int].node == node.0);
                    assert(list.take(i + 1).last() == child.0);
                    assert(first_with_node(self@.tree_nodes, list.take(i + 1), node.0 as int)
                        == Some(child.0 as int));
                    lemma_first_with_node_prefix(self@.tree_nodes, list, node.0 as int, i + 1);
                }
                return Ok((child, below));
            }
            i += 1;
        }
        proof {
            assert(list.take(i as int) =~= list);
        }
        let mut current = below;
        let mut i: usize = 0;
        while i < tree_node.children.len()
            invariant
                self@.shaped(),
                this.0 < self@.tree_nodes.len(),
                list == positions(tree_node.children@),
                list == self@.tree_nodes[this.0 as int].children,
                list == self@.kids()[this.0 as int],
                self@.tree_nodes[this.0 as int].node != node.0,
                first_with_node(self@.tree_nodes, list, node.0 as int) is None,
                below == index + 1,
                i <= tree_node.children.len(),
                find_below(self@.tree_nodes, this.0 as int, node.0 as int, current as int, i as int)
                    == find_below(self@.tree_nodes, this.0 as int, node.0 as int, below as int, 0),
                current + order_children(self@.kids(), list, this.0 as int, i as int).len() == below
                    + order_children(self@.kids(), list, this.0 as int, 0).len(),
                below + order_children(self@.kids(), list, this.0 as int, 0).len() <= usize::MAX,
            decreases tree_node.children.len() - i,
        {
            let child = tree_node.children[i];
            proof {
                assert(self@.tree_nodes[this.0 as int].children[i as int] == child.0);
            }
            match self.node_last_node_and_index_including_deleted_of_node(child, node, current) {
                Ok(found) => {
                    return Ok(found);
                },
                Err(next) => {
                    current = next;
                },
            }
            i += 1;
        }
        Err(current)
    }

    /// Adds a character node and places it under `left_parent` in the left-origin tree
    /// and under `right_parent` in the right-origin tree.
    fn place(
        &mut self,
        node: PcteNode,
        left_parent: Handle<PcteTreeNode>,
        right_parent: Handle<PcteTreeNode>,
    )
        requires
            old(self)@.shaped(),
            left_parent.0 < old(self)@.tree_nodes.len(),
            right_parent.0 < old(self)@.tree_nodes.len(),
            left_parent.0 != right_parent.0,
        ensures
            final(self)@ == old(self)@.place(node@, left_parent.0 as int, right_parent.0 as int),
    {
        let ghost before = self@;
        let slot_replica_id = node.replica_id.clone();
        let slot_counter = node.counter;
        let node_handle = self.nodes.push(node);
        let left = self.tree_nodes.push(PcteTreeNode { node_handle, children: Vec::new() });
        let right = self.tree_nodes.push(PcteTreeNode { node_handle, children: Vec::new() });
        self.tree_nodes.index_mut(left_parent).children.push(left);
        self.tree_nodes.index_mut(right_parent).children.push(right);
        self.id_to_node.push(
            IdSlot { replica_id: slot_replica_id, counter: slot_counter, left, right },
        );
        proof {
            let after = before.place(node@, left_parent.0 as int, right_parent.0 as int);
            assert(self@.nodes =~= after.nodes);
            assert(self@.id_to_node =~= after.id_to_node);
            assert(self@.tree_nodes.len() == after.tree_nodes.len());
            assert forall|t: int| 0 <= t < after.tree_nodes.len() implies self@.tree_nodes[t]
                == after.tree_nodes[t] by {
                assert(self@.tree_nodes[t].children =~= after.tree_nodes[t].children);
            }
            assert(self@.tree_nodes =~= after.tree_nodes);
        }
    }

    /// Marks the character of the character node `node` as deleted.
    fn erase(&mut self, node: Handle<PcteNode>)
        requires
            node.0 < old(self)@.nodes.len(),
        ensures
            final(self)@ == old(self)@.erase(node.0 as int),
    {
        let ghost before = self@;
        self.nodes.index_mut(node).character = None;
        proof {
            assert(self@.nodes =~= before.erase(node.0 as int).nodes);
        }
    }
}

/// What is first in a prefix of a list is first in the list.
pub proof fn lemma_first_with_node_prefix(
    tree_nodes: Seq<TreeNodeView>,
    list: Seq<int>,
    node: int,
    n: int,
)
    requires
        0 <= n <= list.len(),
        first_with_node(tree_nodes, list.take(n), node) is Some,
    ensures
        first_with_node(tree_nodes, list, node) == first_with_node(tree_nodes, list.take(n), node),
    decreases list.len() - n,
{
    if n < list.len() {
        assert(list.take(n + 1).drop_last() =~= list.take(n));
        lemma_first_with_node_prefix(tree_nodes, list, node, n + 1);
    } else {
        assert(list.take(n) =~= list);
    }
}

} // verus!
