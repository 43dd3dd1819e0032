use crate::history::dag::DagView;
use crate::lexical::lex_lt;
use crate::pcte::text::pick;
use crate::pcte::tree::count;
use vstd::prelude::*;

verus! {

/// The identity of a character in specifications: the name of the replica that
/// inserted it, and the value of that replica's counter when it did.
pub type NodeId = (Seq<char>, usize);

/// A character node as specifications see it. `character` is `None` once the
/// character has been deleted.
pub struct NodeView {
    pub id: NodeId,
    pub character: Option<char>,
}

/// A tree node as specifications see it: the position of its character node, and the
/// positions of its children in the order in which they were appended.
pub struct TreeNodeView {
    pub node: int,
    pub children: Seq<int>,
}

/// One line of the identity map: an identity and the two tree nodes that place it.
pub struct SlotView {
    pub id: NodeId,
    pub left: int,
    pub right: int,
}

/// An operation as specifications see it.
pub enum MessageView {
    /// The character `id` goes between the characters `left` and `right`.
    Insert { id: NodeId, left: NodeId, right: NodeId, character: char },
    /// The character `id` goes away.
    Delete { id: NodeId },
}

/// A replica as specifications see it.
pub struct PcteView {
    pub replica_id: Seq<char>,
    pub counter: usize,
    pub history: DagView<MessageView>,
    pub nodes: Seq<NodeView>,
    pub tree_nodes: Seq<TreeNodeView>,
    pub id_to_node: Seq<SlotView>,
    pub left_origin_tree: int,
    pub right_origin_tree: int,
}

/// The identity of the root: the empty name and counter zero.
pub open spec fn root_id() -> NodeId {
    (Seq::empty(), 0usize)
}

/// The children lists of a forest, one per tree node.
pub type Kids = Seq<Seq<int>>;

/// Every child has a larger position than its parent, within the forest.
pub open spec fn kids_ordered(kids: Kids) -> bool {
    forall|p: int, i: int|
        0 <= p < kids.len() && 0 <= i < kids[p].len() ==> p < #[trigger] kids[p][i] < kids.len()
}

/// The tree nodes below and including `t`, parents before children and the children
/// of one node in the order of its list.
pub open spec fn order(kids: Kids, t: int) -> Seq<int>
    decreases kids.len() - t, 1int, 0int,
{
    if 0 <= t < kids.len() {
        seq![t] + order_children(kids, kids[t], t, 0)
    } else {
        Seq::empty()
    }
}

/// The tree nodes below the children `list[i..]` of `t`.
pub open spec fn order_children(kids: Kids, list: Seq<int>, t: int, i: int) -> Seq<int>
    decreases kids.len() - t, 0int, list.len() - i,
{
    if i < 0 || i >= list.len() {
        Seq::empty()
    } else if t < list[i] < kids.len() {
        order(kids, list[i]) + order_children(kids, list, t, i + 1)
    } else {
        order_children(kids, list, t, i + 1)
    }
}

/// The first of `list` whose character node is `node`, if there is one.
pub open spec fn first_with_node(tree_nodes: Seq<TreeNodeView>, list: Seq<int>, node: int) -> Option<int>
    decreases list.len(),
{
    if list.len() == 0 {
        None
    } else {
        match first_with_node(tree_nodes, list.drop_last(), node) {
            Some(c) => Some(c),
            None => if tree_nodes[list.last()].node == node {
                Some(list.last())
            } else {
                None
            },
        }
    }
}

/// The search for the tree node of character node `node` below `this`, counting from
/// `index`. A tree node that is found comes with the count at which the search stood
/// there: `this` itself at `index`, each child of one tree node at the count after
/// its parent's. A search that finds nothing gives the count after the whole subtree.
pub open spec fn find(tree_nodes: Seq<TreeNodeView>, this: int, node: int, index: int) -> Result<
    (int, int),
    int,
>
    decreases tree_nodes.len() - this, 1int, 0int,
{
    if !(0 <= this < tree_nodes.len()) {
        Err(index)
    } else if tree_nodes[this].node == node {
        Ok((this, index))
    } else {
        match first_with_node(tree_nodes, tree_nodes[this].children, node) {
            Some(c) => Ok((c, index + 1)),
            None => find_below(tree_nodes, this, node, index + 1, 0),
        }
    }
}

/// The search of `find` through the subtrees of the children of `this`, from the
/// `i`-th child on.
pub open spec fn find_below(
    tree_nodes: Seq<TreeNodeView>,
    this: int,
    node: int,
    index: int,
    i: int,
) -> Result<(int, int), int>
    decreases tree_nodes.len() - this, 0int, tree_nodes[this].children.len() - i,
{
    if !(0 <= this < tree_nodes.len()) || i < 0 || i >= tree_nodes[this].children.len() {
        Err(index)
    } else {
        let c = tree_nodes[this].children[i];
        if this < c < tree_nodes.len() {
            match find(tree_nodes, c, node, index) {
                Ok(found) => Ok(found),
                Err(next) => find_below(tree_nodes, this, node, next, i + 1),
            }
        } else {
            find_below(tree_nodes, this, node, index, i + 1)
        }
    }
}

/// What siblings in the left-origin tree are ordered by: the count at which the search
/// through the right-origin tree reaches the character, and the character's identity.
pub struct SortKey {
    pub index: int,
    pub id: NodeId,
}

/// Whether a sibling with key `a` comes before one with key `b`: the larger count
/// first, then the smaller replica name, then the smaller counter.
pub open spec fn key_before(a: SortKey, b: SortKey) -> bool {
    ||| a.index > b.index
    ||| a.index == b.index && lex_lt(a.id.0, b.id.0)
    ||| a.index == b.index && a.id.0 == b.id.0 && a.id.1 < b.id.1
}

/// `x` put into the sorted `keys` behind every key that it does not come before.
pub open spec fn insert_position(keys: Seq<SortKey>, x: SortKey) -> int
    decreases keys.len(),
{
    if keys.len() == 0 {
        0
    } else if key_before(x, keys.last()) {
        insert_position(keys.drop_last(), x)
    } else {
        keys.len() as int
    }
}

impl PcteView {
    /// The children lists in the order in which the children were appended.
    pub open spec fn kids(self) -> Kids {
        self.tree_nodes.map_values(|t: TreeNodeView| t.children)
    }

    /// The count at which the search through the right-origin tree reaches the
    /// character node `node`.
    pub open spec fn right_index(self, node: int) -> int {
        match find(self.tree_nodes, self.right_origin_tree, node, 0) {
            Ok(found) => found.1,
            Err(next) => next,
        }
    }

    /// The key by which the tree node `t` is ordered among its siblings.
    pub open spec fn sort_key(self, t: int) -> SortKey {
        let node = self.tree_nodes[t].node;
        SortKey { index: self.right_index(node), id: self.nodes[node].id }
    }

    /// The keys of the tree nodes in `list`.
    pub open spec fn sort_keys(self, list: Seq<int>) -> Seq<SortKey> {
        list.map_values(|t: int| self.sort_key(t))
    }

    /// `list` in the order of the keys; tree nodes with the same key keep their order.
    pub open spec fn sorted(self, list: Seq<int>) -> Seq<int>
        decreases list.len(),
    {
        if list.len() == 0 {
            Seq::empty()
        } else {
            let rest = self.sorted(list.drop_last());
            rest.insert(
                insert_position(self.sort_keys(rest), self.sort_key(list.last())),
                list.last(),
            )
        }
    }

    /// The children lists in the order in which the text visits them.
    pub open spec fn sorted_kids(self) -> Kids {
        self.tree_nodes.map_values(|t: TreeNodeView| self.sorted(t.children))
    }

    /// The tree nodes of the left-origin tree below and including `t`, in text order.
    pub open spec fn text_order(self, t: int) -> Seq<int> {
        order(self.sorted_kids(), t)
    }

    /// Whether the character of tree node `t` is still there.
    pub open spec fn shows(self, t: int) -> bool {
        self.nodes[self.tree_nodes[t].node].character is Some
    }

    /// The tree nodes among `list` whose characters are still there.
    pub open spec fn visible(self, list: Seq<int>) -> Seq<int> {
        list.filter(|t: int| self.shows(t))
    }

    /// The characters of the tree nodes in `list` that are still there.
    pub open spec fn chars_of(self, list: Seq<int>) -> Seq<char> {
        self.visible(list).map_values(|t: int| self.nodes[self.tree_nodes[t].node].character->0)
    }

    /// The text below and including tree node `t`.
    pub open spec fn text_from(self, t: int) -> Seq<char> {
        self.chars_of(self.text_order(t))
    }

    /// The text of the replica.
    pub open spec fn text(self) -> Seq<char> {
        self.text_from(self.left_origin_tree)
    }

    /// The `index`-th visible tree node below and including `t`, or, where there are
    /// not that many, by how much `index` exceeds their number.
    pub open spec fn locate(self, t: int, index: int) -> Result<int, int> {
        pick(self.visible(self.text_order(t)), index)
    }

    /// The position of the character node with identity `id`, if there is one.
    pub open spec fn lookup(self, id: NodeId) -> Option<int> {
        slot_of(self.id_to_node, id)
    }
}

/// The position of the first line of the identity map that holds `id`.
pub open spec fn slot_of(slots: Seq<SlotView>, id: NodeId) -> Option<int>
    decreases slots.len(),
{
    if slots.len() == 0 {
        None
    } else {
        match slot_of(slots.drop_last(), id) {
            Some(i) => Some(i),
            None => if slots.last().id == id {
                Some(slots.len() - 1)
            } else {
                None
            },
        }
    }
}

/// The root as it is from creation on.
pub open spec fn root_node() -> NodeView {
    NodeView { id: root_id(), character: None }
}

/// The line of the identity map for the character node at position `k`.
pub open spec fn slot_for(node: NodeView, k: int) -> SlotView {
    SlotView { id: node.id, left: 2 * k, right: 2 * k + 1 }
}

impl PcteView {
    /// The layout of the arenas: the character node at position `k` is placed by the
    /// tree nodes `2 * k` in the left-origin tree and `2 * k + 1` in the right-origin
    /// tree, the identity map says so, and no two character nodes share an identity.
    pub open spec fn shaped(self) -> bool {
        &&& self.nodes.len() >= 1
        &&& self.tree_nodes.len() == 2 * self.nodes.len()
        &&& self.id_to_node.len() == self.nodes.len()
        &&& self.left_origin_tree == 0
        &&& self.right_origin_tree == 1
        &&& self.nodes[0] == root_node()
        &&& forall|t: int|
            0 <= t < self.tree_nodes.len() ==> (#[trigger] self.tree_nodes[t]).node == t / 2
        &&& forall|k: int|
            0 <= k < self.nodes.len() ==> #[trigger] self.id_to_node[k] == slot_for(
                self.nodes[k],
                k,
            )
        &&& forall|j: int, k: int|
            0 <= j < self.nodes.len() && 0 <= k < self.nodes.len() && (#[trigger] self.nodes[j]).id
                == (#[trigger] self.nodes[k]).id ==> j == k
        &&& forall|p: int, i: int|
            0 <= p < self.tree_nodes.len() && 0 <= i < self.tree_nodes[p].children.len() ==> {
                let c = #[trigger] self.tree_nodes[p].children[i];
                p < c < self.tree_nodes.len() && c % 2 == p % 2
            }
    }

    /// Double placement: below no tree node does anything occur twice, and every tree
    /// node occurs once below the root of its own tree.
    pub open spec fn placed(self) -> bool {
        &&& forall|t: int, x: int|
            0 <= t < self.tree_nodes.len() ==> #[trigger] count(order(self.kids(), t), x) <= 1
        &&& forall|x: int|
            0 <= x < self.tree_nodes.len() ==> #[trigger] count(order(self.kids(), x % 2), x) == 1
    }

    /// The invariant of a replica.
    pub open spec fn wf(self) -> bool {
        &&& self.shaped()
        &&& self.placed()
        &&& self.history.wf()
    }
}

} // verus!
