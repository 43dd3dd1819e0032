use crate::history::dag::DagView;
use crate::pcte::model::{
    kids_ordered, order, root_node, slot_for, slot_of, MessageView, NodeId, NodeView, PcteView,
    SlotView,
};
use crate::pcte::ops::leaf;
use crate::pcte::tree::{
    count, lemma_count_one, lemma_leaf_count, lemma_with_leaf_ordered, with_leaf,
};
use vstd::prelude::*;

verus! {

/// The children lists of a shaped replica keep children behind their parents.
pub proof fn lemma_shaped_ordered(v: PcteView)
    requires
        v.shaped(),
    ensures
        kids_ordered(v.kids()),
        v.kids().len() == v.tree_nodes.len(),
{
    assert forall|p: int, i: int| 0 <= p < v.kids().len() && 0 <= i < v.kids()[p].len() implies p
        < #[trigger] v.kids()[p][i] < v.kids().len() by {
        assert(v.kids()[p][i] == v.tree_nodes[p].children[i]);
    }
}

/// Placing a new character keeps the layout and the double placement.
pub proof fn lemma_place_wf(v: PcteView, node: NodeView, left_parent: int, right_parent: int)
    requires
        v.shaped(),
        v.placed(),
        0 <= left_parent < v.tree_nodes.len(),
        left_parent % 2 == 0,
        0 <= right_parent < v.tree_nodes.len(),
        right_parent % 2 == 1,
        forall|k: int| 0 <= k < v.nodes.len() ==> (#[trigger] v.nodes[k]).id != node.id,
    ensures
        v.place(node, left_parent, right_parent).shaped(),
        v.place(node, left_parent, right_parent).placed(),
{
    let w = v.place(node, left_parent, right_parent);
    let n = v.tree_nodes.len() as int;
    let k = v.nodes.len() as int;
    assert forall|t: int| 0 <= t < w.tree_nodes.len() implies (#[trigger] w.tree_nodes[t]).node == t
        / 2 by {
        if t < n {
            assert(v.tree_nodes[t].node == t / 2);
        }
    }
    assert forall|j: int| 0 <= j < w.nodes.len() implies #[trigger] w.id_to_node[j]
        == slot_for(w.nodes[j], j) by {
        if j < k {
            assert(v.id_to_node[j] == slot_for(v.nodes[j], j));
        }
    }
    assert forall|i: int, j: int|
        0 <= i < w.nodes.len() && 0 <= j < w.nodes.len() && (#[trigger] w.nodes[i]).id == (
        #[trigger] w.nodes[j]).id implies i == j by {
        if i < k {
            assert(w.nodes[i] == v.nodes[i]);
        }
        if j < k {
            assert(w.nodes[j] == v.nodes[j]);
        }
    }
    assert forall|p: int, i: int|
        0 <= p < w.tree_nodes.len() && 0 <= i < w.tree_nodes[p].children.len() implies {
        let c = #[trigger] w.tree_nodes[p].children[i];
        p < c < w.tree_nodes.len() && c % 2 == p % 2
    } by {
        if p < n && i < v.tree_nodes[p].children.len() {
            let c = v.tree_nodes[p].children[i];
            assert(p < c < n && c % 2 == p % 2);
        }
    }
    assert(w.nodes[0] == v.nodes[0]);
    assert(w.shaped());

    let kids = v.kids();
    let once = with_leaf(kids, left_parent);
    let twice = with_leaf(once, right_parent);
    lemma_shaped_ordered(v);
    lemma_with_leaf_ordered(kids, left_parent);
    assert(w.kids() =~= twice) by {
        assert(w.kids().len() == twice.len());
        assert forall|t: int| 0 <= t < twice.len() implies w.kids()[t] == twice[t] by {
            assert(w.kids()[t] == w.tree_nodes[t].children);
            if t < n {
                assert(kids[t] == v.tree_nodes[t].children);
            }
        }
    }
    assert forall|t: int, x: int| 0 <= t < w.tree_nodes.len() implies #[trigger] count(
        order(w.kids(), t),
        x,
    ) <= 1 by {
        lemma_leaf_count(once, right_parent, t, x);
        if t <= n {
            lemma_leaf_count(kids, left_parent, t, x);
            lemma_leaf_count(kids, left_parent, t, right_parent);
            if t < n {
                assert(count(order(kids, t), x) <= 1);
                assert(count(order(kids, t), left_parent) <= 1);
                assert(count(order(kids, t), right_parent) <= 1);
            }
        }
    }
    assert forall|x: int| 0 <= x < w.tree_nodes.len() implies #[trigger] count(
        order(w.kids(), x % 2),
        x,
    ) == 1 by {
        let r = x % 2;
        lemma_leaf_count(once, right_parent, r, x);
        lemma_leaf_count(kids, left_parent, r, x);
        lemma_leaf_count(kids, left_parent, r, right_parent);
        if x < n {
            assert(count(order(kids, x % 2), x) == 1);
        } else if x == n {
            assert(count(order(kids, left_parent % 2), left_parent) == 1);
        } else {
            assert(count(order(kids, right_parent % 2), right_parent) == 1);
        }
    }
}

/// Deleting a character keeps the layout and the double placement.
pub proof fn lemma_erase_wf(v: PcteView, k: int)
    requires
        v.shaped(),
        v.placed(),
        0 <= k < v.nodes.len(),
    ensures
        v.erase(k).shaped(),
        v.erase(k).placed(),
{
    let w = v.erase(k);
    assert forall|j: int| 0 <= j < w.nodes.len() implies #[trigger] w.id_to_node[j]
        == slot_for(w.nodes[j], j) by {
        assert(v.id_to_node[j] == slot_for(v.nodes[j], j));
    }
    assert forall|i: int, j: int|
        0 <= i < w.nodes.len() && 0 <= j < w.nodes.len() && (#[trigger] w.nodes[i]).id == (
        #[trigger] w.nodes[j]).id implies i == j by {
        assert(w.nodes[i].id == v.nodes[i].id);
        assert(w.nodes[j].id == v.nodes[j].id);
    }
    assert(w.kids() == v.kids());
}

/// What `slot_of` finds is a line with the identity asked for, and it misses none.
pub proof fn lemma_slot_of(slots: Seq<SlotView>, id: NodeId)
    ensures
        match slot_of(slots, id) {
            Some(i) => 0 <= i < slots.len() && slots[i].id == id && forall|j: int|
                0 <= j < i ==> (#[trigger] slots[j]).id != id,
            None => forall|j: int| 0 <= j < slots.len() ==> (#[trigger] slots[j]).id != id,
        },
    decreases slots.len(),
{
    if slots.len() > 0 {
        let init = slots.drop_last();
        lemma_slot_of(init, id);
        assert forall|j: int| 0 <= j < init.len() implies (slots[j].id != id <==> init[j].id
            != id) by {
            assert(init[j] == slots[j]);
        }
    }
}

impl PcteView {
    /// The replica as it is made: the root alone, in both trees, and an empty history.
    pub open spec fn fresh(replica_id: Seq<char>) -> PcteView {
        PcteView {
            replica_id,
            counter: 0,
            history: DagView::<MessageView> {
                replica_id,
                counter: 0,
                heads: Seq::empty(),
                entries: Seq::empty(),
            },
            nodes: seq![root_node()],
            tree_nodes: seq![leaf(0), leaf(0)],
            id_to_node: seq![slot_for(root_node(), 0)],
            left_origin_tree: 0,
            right_origin_tree: 1,
        }
    }

    /// A replica is well-formed when it is made.
    pub proof fn lemma_fresh_wf(replica_id: Seq<char>)
        ensures
            Self::fresh(replica_id).wf(),
    {
        let v = Self::fresh(replica_id);
        let kids = v.kids();
        assert forall|t: int, x: int| 0 <= t < 2 implies #[trigger] count(order(kids, t), x)
            <= 1 by {
            assert(order(kids, t) =~= seq![t]);
            lemma_count_one(t, x);
        }
        assert forall|x: int| 0 <= x < 2 implies #[trigger] count(order(kids, x % 2), x) == 1 by {
            assert(order(kids, x) =~= seq![x]);
            lemma_count_one(x, x);
        }
        assert(v.history.heads_maximal());
    }

    /// A replica has no text when it is made.
    pub proof fn lemma_fresh_text(self)
        requires
            exists|replica_id: Seq<char>| self == Self::fresh(replica_id),
        ensures
            self.text() == Seq::<char>::empty(),
    {
        let kids = self.sorted_kids();
        assert(self.sorted(Seq::<int>::empty()) == Seq::<int>::empty());
        assert(crate::pcte::model::order_children(kids, kids[0], 0, 0) =~= Seq::<int>::empty());
        assert(self.text_order(0) =~= seq![0int]);
        self.lemma_chars_one(0);
    }

    /// In a shaped replica an identity that the identity map lacks is the identity of
    /// no character node.
    pub proof fn lemma_lookup_none(self, id: NodeId)
        requires
            self.shaped(),
            self.lookup(id) is None,
        ensures
            forall|k: int| 0 <= k < self.nodes.len() ==> (#[trigger] self.nodes[k]).id != id,
    {
        lemma_slot_of(self.id_to_node, id);
        assert forall|k: int| 0 <= k < self.nodes.len() implies (#[trigger] self.nodes[k]).id
            != id by {
            assert(self.id_to_node[k] == slot_for(self.nodes[k], k));
        }
    }
}

/// The layout and the double placement speak of the arenas alone: a replica with the
/// same arenas has them too.
pub proof fn lemma_same_arenas(v: PcteView, w: PcteView)
    requires
        v.shaped(),
        v.placed(),
        w.nodes == v.nodes,
        w.tree_nodes == v.tree_nodes,
        w.id_to_node == v.id_to_node,
        w.left_origin_tree == v.left_origin_tree,
        w.right_origin_tree == v.right_origin_tree,
    ensures
        w.shaped(),
        w.placed(),
{
    assert(w.kids() == v.kids());
}

} // verus!
