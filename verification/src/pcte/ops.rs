use crate::history::dag::EntryView;
use crate::pcte::model::{slot_for, MessageView, NodeId, NodeView, PcteView, TreeNodeView};
use crate::pcte::PcteError;
use vstd::prelude::*;

verus! {

/// A tree node with one more child behind those it has.
pub open spec fn with_child(t: TreeNodeView, child: int) -> TreeNodeView {
    TreeNodeView { node: t.node, children: t.children.push(child) }
}

/// A tree node without children that places the character node at position `k`.
pub open spec fn leaf(k: int) -> TreeNodeView {
    TreeNodeView { node: k, children: Seq::empty() }
}

impl PcteView {
    /// The replica with one more character node, placed under `left_parent` in the
    /// left-origin tree and under `right_parent` in the right-origin tree.
    pub open spec fn place(self, node: NodeView, left_parent: int, right_parent: int) -> PcteView {
        let k = self.nodes.len() as int;
        PcteView {
            nodes: self.nodes.push(node),
            tree_nodes: self.tree_nodes.update(
                left_parent,
                with_child(self.tree_nodes[left_parent], 2 * k),
            ).update(right_parent, with_child(self.tree_nodes[right_parent], 2 * k + 1)).push(
                leaf(k),
            ).push(leaf(k)),
            id_to_node: self.id_to_node.push(slot_for(node, k)),
            ..self
        }
    }

    /// The replica with the character of the character node at position `k` gone.
    pub open spec fn erase(self, k: int) -> PcteView {
        PcteView {
            nodes: self.nodes.update(k, NodeView { id: self.nodes[k].id, character: None }),
            ..self
        }
    }

    /// The replica after an insertion that was made elsewhere. Both origins must be
    /// known and the identity must be free; the character goes under the left-tree
    /// position of its left origin and the right-tree position of its right origin.
    pub open spec fn insert_remote(self, id: NodeId, left: NodeId, right: NodeId, character: char) -> Result<
        PcteView,
        PcteError,
    > {
        match (self.lookup(left), self.lookup(right)) {
            (Some(l), Some(r)) => if self.lookup(id) is Some {
                Err(PcteError::IdentityCollision)
            } else {
                Ok(self.place(NodeView { id, character: Some(character) }, 2 * l, 2 * r + 1))
            },
            _ => Err(PcteError::CausalityViolation),
        }
    }

    /// The replica after a deletion that was made elsewhere. The character must be
    /// known; that it is gone already is no error.
    pub open spec fn delete_remote(self, id: NodeId) -> Result<PcteView, PcteError> {
        match self.lookup(id) {
            Some(k) => Ok(self.erase(k)),
            None => Err(PcteError::CausalityViolation),
        }
    }

    /// The replica after an operation that was made elsewhere.
    pub open spec fn apply_message(self, m: MessageView) -> Result<PcteView, PcteError> {
        match m {
            MessageView::Insert { id, left, right, character } => self.insert_remote(
                id,
                left,
                right,
                character,
            ),
            MessageView::Delete { id } => self.delete_remote(id),
        }
    }

    /// The visible tree nodes of the left-origin tree, in text order.
    pub open spec fn seen(self) -> Seq<int> {
        self.visible(self.text_order(self.left_origin_tree))
    }

    /// The character node that a character inserted at `index` has as its left origin:
    /// the visible character before `index`, or the root at the start of the text.
    pub open spec fn left_origin(self, index: int) -> int {
        if index == 0 {
            0
        } else {
            self.tree_nodes[self.seen()[index - 1]].node
        }
    }

    /// The character node that a character inserted at `index` has as its right origin:
    /// the visible character at `index`, or the root at the end of the text.
    pub open spec fn right_origin(self, index: int) -> int {
        if index < self.seen().len() {
            self.tree_nodes[self.seen()[index]].node
        } else {
            0
        }
    }

    /// The operation that a local insertion of `character` at `index` records.
    pub open spec fn local_insert_message(self, index: int, character: char) -> MessageView {
        MessageView::Insert {
            id: (self.replica_id, (self.counter + 1) as usize),
            left: self.nodes[self.left_origin(index)].id,
            right: self.nodes[self.right_origin(index)].id,
            character,
        }
    }

    /// The replica after the local insertion of `character` at `index`. The index may
    /// be the length of the text, not more, and the next counter value of this replica
    /// must be free as an identity. The new character goes under the left-tree position
    /// of its left origin and under the right-tree position of its right origin, and
    /// the operation is recorded in the history.
    pub open spec fn insert_local(self, index: int, character: char) -> Result<PcteView, PcteError> {
        let id = (self.replica_id, (self.counter + 1) as usize);
        if index > self.seen().len() {
            Err(PcteError::IndexOutOfRange)
        } else if self.lookup(id) is Some {
            Err(PcteError::IdentityCollision)
        } else {
            let placed = self.place(
                NodeView { id, character: Some(character) },
                2 * self.left_origin(index),
                2 * self.right_origin(index) + 1,
            );
            Ok(
                PcteView {
                    counter: (self.counter + 1) as usize,
                    history: self.history.add_local(self.local_insert_message(index, character)),
                    ..placed
                },
            )
        }
    }

    /// The replica after the local deletion of the visible character at `index`. The
    /// operation is recorded in the history.
    pub open spec fn delete_local(self, index: int) -> Result<PcteView, PcteError> {
        let seen = self.seen();
        if index >= seen.len() {
            Err(PcteError::IndexOutOfRange)
        } else {
            let k = self.tree_nodes[seen[index]].node;
            Ok(
                PcteView {
                    history: self.history.add_local(MessageView::Delete { id: self.nodes[k].id }),
                    ..self.erase(k)
                },
            )
        }
    }

    /// The replica after an entry of another replica's history arrived. An entry that
    /// is known already changes nothing. Otherwise its parents must be known; its
    /// operation is applied and the entry joins the history. Where that fails, the
    /// replica stays as it was.
    pub open spec fn apply_entry(self, e: EntryView<MessageView>) -> Result<PcteView, PcteError> {
        if self.history.contains(e.id) {
            Ok(self)
        } else if !self.history.contains_all(e.parents) {
            Err(PcteError::CausalityViolation)
        } else {
            match self.apply_message(e.value) {
                Ok(applied) => Ok(PcteView { history: self.history.add_remote(e), ..applied }),
                Err(error) => Err(error),
            }
        }
    }

    /// The replica after the entries `batch[i..]` arrived in turn, up to the first that
    /// fails.
    pub open spec fn apply_from(self, batch: Seq<EntryView<MessageView>>, i: int) -> PcteView
        decreases batch.len() - i,
    {
        if i < 0 || i >= batch.len() {
            self
        } else {
            match self.apply_entry(batch[i]) {
                Ok(next) => next.apply_from(batch, i + 1),
                Err(_) => self,
            }
        }
    }

    /// The first error among the entries `batch[i..]` arriving in turn, if any fails.
    pub open spec fn error_from(self, batch: Seq<EntryView<MessageView>>, i: int) -> Option<PcteError>
        decreases batch.len() - i,
    {
        if i < 0 || i >= batch.len() {
            None
        } else {
            match self.apply_entry(batch[i]) {
                Ok(next) => next.error_from(batch, i + 1),
                Err(error) => Some(error),
            }
        }
    }

    /// The replica after a whole batch arrived.
    pub open spec fn apply_batch(self, batch: Seq<EntryView<MessageView>>) -> PcteView {
        self.apply_from(batch, 0)
    }

    /// The entries that this replica has and `other` lacks, parents before children.
    pub open spec fn pending_for(self, other: PcteView) -> Seq<EntryView<MessageView>> {
        self.history.diff(other.history)
    }
}

} // verus!
