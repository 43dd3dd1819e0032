use crate::pcte::model::{
    find, find_below, first_with_node, insert_position, order, order_children, PcteView,
    TreeNodeView,
};
use crate::pcte::placement::{lemma_insert_position_range, lemma_order_children_concat};
use crate::pcte::tree::{
    count, lemma_count_add, lemma_count_contains, lemma_count_one, lemma_order_children_range,
};
use vstd::prelude::*;

verus! {

/// The search finds what lies below where it starts.
pub proof fn lemma_find_ok(v: PcteView, this: int, node: int, index: int, t: int)
    requires
        v.shaped(),
        0 <= this < v.tree_nodes.len(),
        order(v.kids(), this).contains(t),
        v.tree_nodes[t].node == node,
    ensures
        find(v.tree_nodes, this, node, index) is Ok,
    decreases v.tree_nodes.len() - this, 1int, 0int,
{
    let tn = v.tree_nodes;
    if tn[this].node != node && first_with_node(tn, tn[this].children, node) is None {
        let below = order_children(v.kids(), v.kids()[this], this, 0);
        let i = choose|i: int| 0 <= i < order(v.kids(), this).len() && order(v.kids(), this)[i] == t;
        assert(i > 0);
        assert(below[i - 1] == t);
        assert(v.kids()[this] == tn[this].children);
        lemma_find_below_ok(v, this, node, index + 1, 0, t);
    }
}

/// The search through the children finds what lies below them.
pub proof fn lemma_find_below_ok(v: PcteView, this: int, node: int, index: int, i: int, t: int)
    requires
        v.shaped(),
        0 <= this < v.tree_nodes.len(),
        0 <= i,
        order_children(v.kids(), v.tree_nodes[this].children, this, i).contains(t),
        v.tree_nodes[t].node == node,
    ensures
        find_below(v.tree_nodes, this, node, index, i) is Ok,
    decreases v.tree_nodes.len() - this, 0int, v.tree_nodes[this].children.len() - i,
{
    let tn = v.tree_nodes;
    let list = tn[this].children;
    let kids = v.kids();
    if i < list.len() {
        let c = tn[this].children[i];
        assert(this < c < tn.len());
        let first = order(kids, c);
        let rest = order_children(kids, list, this, i + 1);
        let both = order_children(kids, list, this, i);
        assert(both == first + rest);
        let j = choose|j: int| 0 <= j < both.len() && both[j] == t;
        match find(tn, c, node, index) {
            Ok(_) => {},
            Err(next) => {
                if j < first.len() {
                    assert(first[j] == t);
                    lemma_find_ok(v, c, node, index, t);
                } else {
                    assert(rest[j - first.len()] == t);
                    lemma_find_below_ok(v, this, node, next, i + 1, t);
                }
            },
        }
    } else {
        assert(order_children(kids, list, this, i) =~= Seq::<int>::empty());
    }
}

/// The search finds every character node from the root of the right-origin tree.
pub proof fn lemma_right_index_ok(v: PcteView, node: int)
    requires
        v.shaped(),
        v.placed(),
        0 <= node < v.nodes.len(),
    ensures
        find(v.tree_nodes, 1, node, 0) is Ok,
{
    let t = 2 * node + 1;
    assert(count(order(v.kids(), t % 2), t) == 1);
    lemma_count_contains(order(v.kids(), 1), t);
    assert(v.tree_nodes[t].node == t / 2);
    lemma_find_ok(v, 1, node, 0, t);
}

/// Whether `w` is `v` with one more character node, placed under `p` in the
/// left-origin tree and under the root in the right-origin tree.
#[verifier::opaque]
pub open spec fn appended(v: PcteView, w: PcteView, p: int) -> bool {
    &&& v.shaped()
    &&& 0 <= p < v.tree_nodes.len()
    &&& p % 2 == 0
    &&& w.nodes.len() == v.nodes.len() + 1
    &&& forall|k: int| 0 <= k < v.nodes.len() ==> #[trigger] w.nodes[k] == v.nodes[k]
    &&& w.tree_nodes == v.place(w.nodes[v.nodes.len() as int], p, 1).tree_nodes
    &&& w.left_origin_tree == 0
    &&& w.right_origin_tree == 1
}

/// What `appended` says of the tree nodes, one by one.
pub proof fn lemma_appended_nodes(v: PcteView, w: PcteView, p: int)
    requires
        appended(v, w, p),
    ensures
        v.shaped(),
        0 <= p < v.tree_nodes.len(),
        p % 2 == 0,
        w.left_origin_tree == 0,
        w.right_origin_tree == 1,
        w.nodes.len() == v.nodes.len() + 1,
        forall|k: int| 0 <= k < v.nodes.len() ==> #[trigger] w.nodes[k] == v.nodes[k],
        w.tree_nodes.len() == v.tree_nodes.len() + 2,
        forall|t: int|
            0 <= t < v.tree_nodes.len() ==> (#[trigger] w.tree_nodes[t]).node
                == v.tree_nodes[t].node,
        forall|t: int|
            0 <= t < v.tree_nodes.len() && t != p && t != 1 ==> #[trigger] w.tree_nodes[t]
                == v.tree_nodes[t],
        w.tree_nodes[p].children == v.tree_nodes[p].children.push(v.tree_nodes.len() as int),
        w.tree_nodes[1].children == v.tree_nodes[1].children.push(v.tree_nodes.len() as int + 1),
        w.tree_nodes[v.tree_nodes.len() as int].children == Seq::<int>::empty(),
        w.tree_nodes[v.tree_nodes.len() as int + 1].children == Seq::<int>::empty(),
        w.tree_nodes[v.tree_nodes.len() as int].node == v.nodes.len(),
        w.tree_nodes[v.tree_nodes.len() as int + 1].node == v.nodes.len(),
{
    reveal(appended);
}

/// The first of a list with a given character node does not depend on anything but
/// the character nodes of the tree nodes in the list.
pub proof fn lemma_first_with_node_same(
    a: Seq<TreeNodeView>,
    b: Seq<TreeNodeView>,
    list: Seq<int>,
    node: int,
)
    requires
        forall|i: int| 0 <= i < list.len() ==> a[#[trigger] list[i]].node == b[list[i]].node,
    ensures
        first_with_node(a, list, node) == first_with_node(b, list, node),
    decreases list.len(),
{
    if list.len() > 0 {
        let init = list.drop_last();
        assert forall|i: int| 0 <= i < init.len() implies a[#[trigger] init[i]].node
            == b[init[i]].node by {
            assert(init[i] == list[i]);
        }
        lemma_first_with_node_same(a, b, init, node);
        assert(list[list.len() - 1] == list.last());
    }
}

/// Below a tree node of the right-origin tree other than its root, the search goes in
/// the grown replica as it went before.
pub proof fn lemma_find_same(v: PcteView, w: PcteView, p: int, c: int, node: int, index: int)
    requires
        appended(v, w, p),
        1 < c < v.tree_nodes.len(),
        c % 2 == 1,
    ensures
        find(w.tree_nodes, c, node, index) == find(v.tree_nodes, c, node, index),
    decreases v.tree_nodes.len() - c, 1int, 0int,
{
    lemma_appended_nodes(v, w, p);
    let list = v.tree_nodes[c].children;
    assert(w.tree_nodes[c] == v.tree_nodes[c]);
    assert forall|i: int| 0 <= i < list.len() implies w.tree_nodes[#[trigger] list[i]].node
        == v.tree_nodes[list[i]].node by {
        let x = v.tree_nodes[c].children[i];
    }
    lemma_first_with_node_same(w.tree_nodes, v.tree_nodes, list, node);
    lemma_find_below_same(v, w, p, c, node, index + 1, 0);
}

/// The statement of `lemma_find_same` for the search through the children of `c`.
pub proof fn lemma_find_below_same(
    v: PcteView,
    w: PcteView,
    p: int,
    c: int,
    node: int,
    index: int,
    i: int,
)
    requires
        appended(v, w, p),
        1 < c < v.tree_nodes.len(),
        c % 2 == 1,
        0 <= i,
    ensures
        find_below(w.tree_nodes, c, node, index, i) == find_below(
            v.tree_nodes,
            c,
            node,
            index,
            i,
        ),
    decreases v.tree_nodes.len() - c, 0int, v.tree_nodes[c].children.len() - i,
{
    lemma_appended_nodes(v, w, p);
    assert(w.tree_nodes[c] == v.tree_nodes[c]);
    let list = v.tree_nodes[c].children;
    if i < list.len() {
        let d = v.tree_nodes[c].children[i];
        assert(c < d < v.tree_nodes.len() && d % 2 == c % 2);
        lemma_find_same(v, w, p, d, node, index);
        match find(v.tree_nodes, d, node, index) {
            Ok(_) => {},
            Err(next) => {
                lemma_find_below_same(v, w, p, c, node, next, i + 1);
            },
        }
    }
}

/// The first of a list with one more tree node behind it.
pub proof fn lemma_first_with_node_push(tn: Seq<TreeNodeView>, list: Seq<int>, x: int, node: int)
    ensures
        first_with_node(tn, list.push(x), node) == match first_with_node(tn, list, node) {
            Some(c) => Some(c),
            None => if tn[x].node == node {
                Some(x)
            } else {
                None
            },
        },
{
    assert(list.push(x).drop_last() =~= list);
}

/// From the root of the right-origin tree, the search for a character node that was
/// there before goes through the children in the grown replica as it went before.
pub proof fn lemma_find_root_below_same(
    v: PcteView,
    w: PcteView,
    p: int,
    node: int,
    index: int,
    i: int,
)
    requires
        appended(v, w, p),
        0 <= i,
        find_below(v.tree_nodes, 1, node, index, i) is Ok,
    ensures
        find_below(w.tree_nodes, 1, node, index, i) == find_below(v.tree_nodes, 1, node, index, i),
    decreases v.tree_nodes[1].children.len() - i,
{
    lemma_appended_nodes(v, w, p);
    let list = v.tree_nodes[1].children;
    if i < list.len() {
        let d = v.tree_nodes[1].children[i];
        assert(1 < d < v.tree_nodes.len() && d % 2 == 1int % 2);
        assert(w.tree_nodes[1].children[i] == d);
        lemma_find_same(v, w, p, d, node, index);
        match find(v.tree_nodes, d, node, index) {
            Ok(_) => {},
            Err(next) => {
                lemma_find_root_below_same(v, w, p, node, next, i + 1);
            },
        }
    }
}

/// A character node that was there before is reached at the same count in the grown
/// replica.
pub proof fn lemma_right_index_same(v: PcteView, w: PcteView, p: int, node: int)
    requires
        appended(v, w, p),
        v.placed(),
        0 <= node < v.nodes.len(),
    ensures
        w.right_index(node) == v.right_index(node),
{
    lemma_appended_nodes(v, w, p);
    lemma_right_index_ok(v, node);
    let list = v.tree_nodes[1].children;
    let r = v.tree_nodes.len() as int + 1;
    assert(v.tree_nodes[1].node == 1int / 2);
    if node != 0 {
        assert forall|i: int| 0 <= i < list.len() implies w.tree_nodes[#[trigger] list[i]].node
            == v.tree_nodes[list[i]].node by {
            let x = v.tree_nodes[1].children[i];
        }
        lemma_first_with_node_same(w.tree_nodes, v.tree_nodes, list, node);
        lemma_first_with_node_push(w.tree_nodes, list, r, node);
        if first_with_node(v.tree_nodes, list, node) is None {
            lemma_find_root_below_same(v, w, p, node, 1, 0);
        }
    }
}

impl PcteView {
    /// A tree node that was there before has the same key in the grown replica.
    pub proof fn lemma_sort_key_same(self, w: PcteView, p: int, t: int)
        requires
            appended(self, w, p),
            self.placed(),
            0 <= t < self.tree_nodes.len(),
        ensures
            w.sort_key(t) == self.sort_key(t),
    {
        lemma_appended_nodes(self, w, p);
        assert(self.tree_nodes[t].node == t / 2);
        lemma_right_index_same(self, w, p, t / 2);
    }

    /// A list of tree nodes that were there before is sorted in the grown replica as
    /// it was before.
    pub proof fn lemma_sorted_same(self, w: PcteView, p: int, list: Seq<int>)
        requires
            appended(self, w, p),
            self.placed(),
            forall|i: int| 0 <= i < list.len() ==> 0 <= #[trigger] list[i] < self.tree_nodes.len(),
        ensures
            w.sorted(list) == self.sorted(list),
            w.sort_keys(self.sorted(list)) == self.sort_keys(self.sorted(list)),
        decreases list.len(),
    {
        if list.len() > 0 {
            let init = list.drop_last();
            assert forall|i: int| 0 <= i < init.len() implies 0 <= #[trigger] init[i]
                < self.tree_nodes.len() by {
                assert(init[i] == list[i]);
            }
            self.lemma_sorted_same(w, p, init);
            self.lemma_sort_key_same(w, p, list.last());
        }
        let out = self.sorted(list);
        self.lemma_sorted_members(list);
        assert forall|i: int| 0 <= i < out.len() implies w.sort_key(out[i]) == self.sort_key(
            out[i],
        ) by {
            assert(out.contains(out[i]));
            let j = choose|j: int| 0 <= j < list.len() && list[j] == out[i];
            self.lemma_sort_key_same(w, p, out[i]);
        }
        assert(w.sort_keys(out) =~= self.sort_keys(out));
    }
}

/// Whether `longer` is `s` with `x` put in somewhere behind `mark`.
pub open spec fn put_behind(s: Seq<int>, longer: Seq<int>, x: int, mark: int) -> bool {
    exists|k: int| 0 <= k <= s.len() && s.take(k).contains(mark) && longer == #[trigger] s.insert(k, x)
}

/// Whether all of `list` are tree nodes of `v` behind `t`.
pub open spec fn children_of(v: PcteView, list: Seq<int>, t: int) -> bool {
    forall|i: int| 0 <= i < list.len() ==> t < #[trigger] list[i] < v.tree_nodes.len()
}

impl PcteView {
    /// The sorted children of a tree node are tree nodes behind it.
    pub proof fn lemma_sorted_kids_valid(self, t: int)
        requires
            self.shaped(),
            0 <= t < self.tree_nodes.len(),
        ensures
            children_of(self, self.tree_nodes[t].children, t),
            children_of(self, self.sorted_kids()[t], t),
    {
        let list = self.tree_nodes[t].children;
        assert forall|i: int| 0 <= i < list.len() implies t < #[trigger] list[i]
            < self.tree_nodes.len() by {
            let c = self.tree_nodes[t].children[i];
        }
        let out = self.sorted(list);
        self.lemma_sorted_members(list);
        assert forall|i: int| 0 <= i < out.len() implies t < #[trigger] out[i]
            < self.tree_nodes.len() by {
            assert(out.contains(out[i]));
            let j = choose|j: int| 0 <= j < list.len() && list[j] == out[i];
        }
    }

    /// How the grown replica sorts its children: as before, with the new tree node put
    /// in among the children of `p`.
    pub proof fn lemma_sorted_kids_grown(self, w: PcteView, p: int)
        requires
            appended(self, w, p),
            self.placed(),
        ensures
            w.sorted_kids().len() == self.tree_nodes.len() + 2,
            forall|t: int|
                0 <= t < self.tree_nodes.len() && t != p && t != 1 ==> #[trigger] w.sorted_kids()[t]
                    == self.sorted_kids()[t],
            exists|at: int|
                0 <= at <= self.sorted_kids()[p].len() && w.sorted_kids()[p]
                    == #[trigger] self.sorted_kids()[p].insert(at, self.tree_nodes.len() as int),
            w.sorted_kids()[self.tree_nodes.len() as int] == Seq::<int>::empty(),
    {
        lemma_appended_nodes(self, w, p);
        let leaf = self.tree_nodes.len() as int;
        assert forall|t: int| 0 <= t < self.tree_nodes.len() && t != p && t != 1 implies #[trigger] w.sorted_kids()[t]
            == self.sorted_kids()[t] by {
            self.lemma_sorted_kids_valid(t);
            self.lemma_sorted_same(w, p, self.tree_nodes[t].children);
        }
        let list = self.tree_nodes[p].children;
        self.lemma_sorted_kids_valid(p);
        self.lemma_sorted_same(w, p, list);
        assert(list.push(leaf).drop_last() =~= list);
        let rest = self.sorted(list);
        let at = insert_position(w.sort_keys(rest), w.sort_key(leaf));
        lemma_insert_position_range(w.sort_keys(rest), w.sort_key(leaf));
        assert(w.sorted_kids()[p] == rest.insert(at, leaf));
    }

    /// What lies below a list of children that were there before and have nothing of
    /// `p` below them is in the grown replica what it was before.
    pub proof fn lemma_grown_children_same(self, w: PcteView, p: int, list: Seq<int>, t: int, i: int)
        requires
            appended(self, w, p),
            self.placed(),
            0 <= t < self.tree_nodes.len(),
            t % 2 == 0,
            0 <= i,
            children_of(self, list, t),
            forall|j: int| 0 <= j < list.len() ==> (#[trigger] list[j]) % 2 == 0,
            count(order_children(self.sorted_kids(), list, t, i), p) == 0,
        ensures
            order_children(w.sorted_kids(), list, t, i) == order_children(
                self.sorted_kids(),
                list,
                t,
                i,
            ),
        decreases self.tree_nodes.len() - t, 0int, list.len() - i,
    {
        let sk = self.sorted_kids();
        if i < list.len() {
            let c = list[i];
            self.lemma_sorted_kids_grown(w, p);
            lemma_count_add(order(sk, c), order_children(sk, list, t, i + 1), p);
            self.lemma_grown_order(w, p, c);
            self.lemma_grown_children_same(w, p, list, t, i + 1);
        }
    }

    /// The text order of the grown replica below a tree node that was there before: as
    /// before where `p` does not lie below the tree node, and with the new tree node
    /// put in behind `p` where `p` lies there once.
    pub proof fn lemma_grown_order(self, w: PcteView, p: int, t: int)
        requires
            appended(self, w, p),
            self.placed(),
            0 <= t < self.tree_nodes.len(),
            t % 2 == 0,
        ensures
            count(order(self.sorted_kids(), t), p) == 0 ==> order(w.sorted_kids(), t) == order(
                self.sorted_kids(),
                t,
            ),
            count(order(self.sorted_kids(), t), p) == 1 ==> put_behind(
                order(self.sorted_kids(), t),
                order(w.sorted_kids(), t),
                self.tree_nodes.len() as int,
                p,
            ),
        decreases self.tree_nodes.len() - t, 1int, 0int,
    {
        let sk = self.sorted_kids();
        let wk = w.sorted_kids();
        let leaf = self.tree_nodes.len() as int;
        let list = sk[t];
        lemma_appended_nodes(self, w, p);
        self.lemma_sorted_kids_grown(w, p);
        self.lemma_sorted_kids_valid(t);
        self.lemma_sorted_kids_even(t);
        lemma_count_one(t, p);
        lemma_count_add(seq![t], order_children(sk, list, t, 0), p);
        let s = order(sk, t);
        let below = order_children(sk, list, t, 0);
        if t != p {
            self.lemma_grown_children(w, p, list, t, 0);
            if count(s, p) == 1 {
                let k = choose|k: int|
                    0 <= k <= below.len() && below.take(k).contains(p) && order_children(
                        wk,
                        list,
                        t,
                        0,
                    ) == #[trigger] below.insert(k, leaf);
                assert(s.insert(k + 1, leaf) =~= seq![t] + below.insert(k, leaf));
                let x = choose|x: int| 0 <= x < below.take(k).len() && below.take(k)[x] == p;
                assert(s.take(k + 1)[x + 1] == p);
            }
        } else {
            let at = choose|at: int|
                0 <= at <= list.len() && wk[p] == #[trigger] list.insert(at, leaf);
            let head = list.take(at);
            let tail = list.skip(at);
            assert(list.insert(at, leaf) =~= (head + seq![leaf]) + tail);
            assert(list =~= head + tail);
            lemma_order_children_concat(wk, head + seq![leaf], tail, t);
            lemma_order_children_concat(wk, head, seq![leaf], t);
            lemma_order_children_concat(sk, head, tail, t);
            lemma_order_children_range(sk, head, t, 0);
            lemma_order_children_range(sk, tail, t, 0);
            lemma_count_contains(order_children(sk, head, t, 0), p);
            lemma_count_contains(order_children(sk, tail, t, 0), p);
            assert(children_of(self, head, t)) by {
                assert forall|i: int| 0 <= i < head.len() implies t < #[trigger] head[i]
                    < self.tree_nodes.len() by {
                    assert(head[i] == list[i]);
                }
            }
            assert(children_of(self, tail, t)) by {
                assert forall|i: int| 0 <= i < tail.len() implies t < #[trigger] tail[i]
                    < self.tree_nodes.len() by {
                    assert(tail[i] == list[i + at]);
                }
            }
            assert forall|j: int| 0 <= j < head.len() implies (#[trigger] head[j]) % 2 == 0 by {
                assert(head[j] == list[j]);
            }
            assert forall|j: int| 0 <= j < tail.len() implies (#[trigger] tail[j]) % 2 == 0 by {
                assert(tail[j] == list[j + at]);
            }
            self.lemma_grown_children_same(w, p, head, t, 0);
            self.lemma_grown_children_same(w, p, tail, t, 0);
            let a = order_children(sk, head, t, 0);
            let b = order_children(sk, tail, t, 0);
            assert(order_children(wk, wk[leaf], leaf, 0) =~= Seq::<int>::empty());
            assert(order(wk, leaf) =~= seq![leaf]);
            assert(order_children(wk, seq![leaf], t, 1) =~= Seq::<int>::empty());
            assert(order_children(wk, seq![leaf], t, 0) =~= seq![leaf]);
            assert(order(wk, t) =~= s.insert(1 + a.len() as int, leaf));
            assert(s.take(1 + a.len() as int)[0] == p);
        }
    }

    /// The statement of `lemma_grown_order` for what lies below the children in `list`
    /// from the `i`-th on.
    pub proof fn lemma_grown_children(self, w: PcteView, p: int, list: Seq<int>, t: int, i: int)
        requires
            appended(self, w, p),
            self.placed(),
            0 <= t < self.tree_nodes.len(),
            t % 2 == 0,
            0 <= i,
            children_of(self, list, t),
            forall|j: int| 0 <= j < list.len() ==> (#[trigger] list[j]) % 2 == 0,
        ensures
            count(order_children(self.sorted_kids(), list, t, i), p) == 0 ==> order_children(
                w.sorted_kids(),
                list,
                t,
                i,
            ) == order_children(self.sorted_kids(), list, t, i),
            count(order_children(self.sorted_kids(), list, t, i), p) == 1 ==> put_behind(
                order_children(self.sorted_kids(), list, t, i),
                order_children(w.sorted_kids(), list, t, i),
                self.tree_nodes.len() as int,
                p,
            ),
        decreases self.tree_nodes.len() - t, 0int, list.len() - i,
    {
        let sk = self.sorted_kids();
        let wk = w.sorted_kids();
        let leaf = self.tree_nodes.len() as int;
        if i < list.len() {
            let c = list[i];
            self.lemma_sorted_kids_grown(w, p);
            let first = order(sk, c);
            let rest = order_children(sk, list, t, i + 1);
            let both = order_children(sk, list, t, i);
            lemma_count_add(first, rest, p);
            self.lemma_grown_order(w, p, c);
            self.lemma_grown_children(w, p, list, t, i + 1);
            if count(both, p) == 1 {
                if count(first, p) == 1 {
                    let k = choose|k: int|
                        0 <= k <= first.len() && first.take(k).contains(p) && order(wk, c)
                            == #[trigger] first.insert(k, leaf);
                    assert(both.insert(k, leaf) =~= first.insert(k, leaf) + rest);
                    assert(both.take(k) =~= first.take(k));
                } else {
                    let k = choose|k: int|
                        0 <= k <= rest.len() && rest.take(k).contains(p) && order_children(
                            wk,
                            list,
                            t,
                            i + 1,
                        ) == #[trigger] rest.insert(k, leaf);
                    assert(both.insert(first.len() + k, leaf) =~= first + rest.insert(k, leaf));
                    let x = choose|x: int| 0 <= x < rest.take(k).len() && rest.take(k)[x] == p;
                    assert(both.take(first.len() + k)[first.len() + x] == p);
                }
            }
        }
    }

    /// The sorted children of a tree node of the left-origin tree belong to that tree.
    pub proof fn lemma_sorted_kids_even(self, t: int)
        requires
            self.shaped(),
            0 <= t < self.tree_nodes.len(),
            t % 2 == 0,
        ensures
            forall|j: int|
                0 <= j < self.sorted_kids()[t].len() ==> (#[trigger] self.sorted_kids()[t][j]) % 2
                    == 0,
    {
        let list = self.tree_nodes[t].children;
        let out = self.sorted(list);
        self.lemma_sorted_members(list);
        assert forall|j: int| 0 <= j < out.len() implies (#[trigger] out[j]) % 2 == 0 by {
            assert(out.contains(out[j]));
            let i = choose|i: int| 0 <= i < list.len() && list[i] == out[j];
            let c = self.tree_nodes[t].children[i];
        }
    }
}

/// Whether all of `list` are tree nodes of the left-origin tree of `v`.
pub open spec fn left_nodes(v: PcteView, list: Seq<int>) -> bool {
    forall|i: int|
        0 <= i < list.len() ==> 0 <= #[trigger] list[i] < v.tree_nodes.len() && list[i] % 2 == 0
}

/// Of the tree nodes that were there before, the grown replica shows those that were
/// shown before, with the characters that they had.
pub proof fn lemma_grown_visible(v: PcteView, w: PcteView, p: int, list: Seq<int>)
    requires
        appended(v, w, p),
        left_nodes(v, list),
    ensures
        w.visible(list) == v.visible(list),
        w.chars_of(list) == v.chars_of(list),
{
    lemma_appended_nodes(v, w, p);
    let keep = |t: int| v.shows(t);
    let keep_w = |t: int| w.shows(t);
    assert forall|i: int| 0 <= i < list.len() implies keep_w(#[trigger] list[i]) == keep(
        list[i],
    ) by {
        let t = list[i];
        assert(v.tree_nodes[t].node == t / 2);
        assert(w.tree_nodes[t].node == v.tree_nodes[t].node);
        assert(w.nodes[t / 2] == v.nodes[t / 2]);
    }
    crate::pcte::editing::lemma_filter_same(list, keep_w, keep);
    let seen = v.visible(list);
    assert forall|i: int| 0 <= i < seen.len() implies w.nodes[w.tree_nodes[seen[i]].node].character
        == v.nodes[v.tree_nodes[seen[i]].node].character by {
        assert(seen.contains(seen[i]));
        list.lemma_filter_contains_rev(keep, seen[i]);
        let a = choose|a: int| 0 <= a < list.len() && list[a] == seen[i];
        let t = list[a];
        assert(v.tree_nodes[t].node == t / 2);
        assert(w.tree_nodes[t].node == v.tree_nodes[t].node);
        assert(w.nodes[t / 2] == v.nodes[t / 2]);
    }
    assert(w.chars_of(list) =~= v.chars_of(list));
}

/// In a sequence without duplicates, nothing behind the last element that passes a
/// test passes it.
pub proof fn lemma_nothing_behind_last(
    s: Seq<int>,
    keep: spec_fn(int) -> bool,
    k: int,
    mark: int,
)
    requires
        s.no_duplicates(),
        0 <= k <= s.len(),
        s.take(k).contains(mark),
        s.filter(keep).len() > 0 ==> s.filter(keep).last() == mark,
    ensures
        s.skip(k).filter(keep).len() == 0,
        s.take(k).filter(keep) == s.filter(keep),
{
    let head = s.take(k);
    let tail = s.skip(k);
    assert(s =~= head + tail);
    Seq::filter_distributes_over_add(head, tail, keep);
    if tail.filter(keep).len() > 0 {
        let x = tail.filter(keep).last();
        assert((head.filter(keep) + tail.filter(keep)).last() == x);
        assert(x == mark);
        assert(tail.filter(keep).contains(x));
        tail.lemma_filter_contains_rev(keep, x);
        let a = choose|a: int| 0 <= a < head.len() && head[a] == mark;
        let b = choose|b: int| 0 <= b < tail.len() && tail[b] == mark;
        assert(s[a] == mark && s[b + k] == mark);
    }
    assert(head.filter(keep) + tail.filter(keep) =~= head.filter(keep));
}

/// The tree node under which a character that is inserted at the end of the text is
/// placed in the left-origin tree is the last that the text shows, if it shows any.
pub proof fn lemma_last_seen(v: PcteView)
    requires
        v.shaped(),
        v.placed(),
    ensures
        0 <= 2 * v.left_origin(v.text().len() as int) < v.tree_nodes.len(),
        v.seen().len() == v.text().len(),
        v.seen().len() > 0 ==> v.seen().last() == 2 * v.left_origin(v.text().len() as int),
{
    let index = v.text().len() as int;
    let s = v.text_order(0);
    let seen = v.seen();
    v.lemma_text_order_unique();
    if index > 0 {
        let last = seen[index - 1];
        assert(seen.contains(last));
        s.lemma_filter_contains_rev(|t: int| v.shows(t), last);
        let a = choose|a: int| 0 <= a < s.len() && s[a] == last;
        assert(v.tree_nodes[s[a]].node == s[a] / 2);
    }
}

/// Putting an element that passes a test into a sequence behind which nothing passes
/// it puts the element behind all that passes.
pub proof fn lemma_filter_insert_last(s: Seq<int>, keep: spec_fn(int) -> bool, k: int, x: int)
    requires
        0 <= k <= s.len(),
        keep(x),
        s.skip(k).filter(keep).len() == 0,
    ensures
        s.insert(k, x).filter(keep) == s.filter(keep).push(x),
{
    let head = s.take(k);
    let tail = s.skip(k);
    assert(s =~= head + tail);
    assert(s.insert(k, x) =~= (head + seq![x]) + tail);
    Seq::filter_distributes_over_add(head, tail, keep);
    Seq::filter_distributes_over_add(head + seq![x], tail, keep);
    Seq::filter_distributes_over_add(head, seq![x], keep);
    assert(seq![x].filter(keep) =~= seq![x]) by {
        reveal_with_fuel(Seq::filter, 2);
        assert(seq![x].drop_last() =~= Seq::<int>::empty());
    }
    assert(tail.filter(keep) =~= Seq::<int>::empty());
    assert((head.filter(keep) + seq![x]) + tail.filter(keep) =~= (head.filter(keep)
        + tail.filter(keep)).push(x));
}

/// What the grown replica shows: what was shown before, and then the new tree node.
pub proof fn lemma_grown_seen(v: PcteView, w: PcteView, p: int)
    requires
        appended(v, w, p),
        v.placed(),
        v.seen().len() > 0 ==> v.seen().last() == p,
        w.nodes[v.nodes.len() as int].character is Some,
    ensures
        w.seen() == v.seen().push(v.tree_nodes.len() as int),
        w.text() == v.text().push(w.nodes[v.nodes.len() as int].character->0),
{
    let leaf = v.tree_nodes.len() as int;
    let s = v.text_order(0);
    let keep = |t: int| v.shows(t);
    let keep_w = |t: int| w.shows(t);
    lemma_appended_nodes(v, w, p);
    v.lemma_text_order_unique();
    assert(count(s, p) == 1) by {
        v.lemma_text_order_count(0, p);
        assert(count(order(v.kids(), p % 2), p) == 1);
    }
    v.lemma_grown_order(w, p, 0);
    let longer = w.text_order(0);
    let k = choose|k: int|
        0 <= k <= s.len() && s.take(k).contains(p) && longer == #[trigger] s.insert(k, leaf);
    lemma_nothing_behind_last(s, keep, k, p);
    assert(left_nodes(v, s));
    lemma_grown_visible(v, w, p, s);
    assert(keep_w(leaf));
    assert(s.skip(k).filter(keep_w).len() == 0) by {
        let tail = s.skip(k);
        assert(left_nodes(v, tail)) by {
            assert forall|i: int| 0 <= i < tail.len() implies 0 <= #[trigger] tail[i]
                < v.tree_nodes.len() && tail[i] % 2 == 0 by {
                assert(tail[i] == s[i + k]);
            }
        }
        lemma_grown_visible(v, w, p, tail);
    }
    lemma_filter_insert_last(s, keep_w, k, leaf);
    assert(w.seen() == v.seen().push(leaf));
    lemma_grown_chars(v, w, p, v.seen());
}

/// The characters of what was shown before and then the new tree node are the text
/// before and then the new character.
pub proof fn lemma_grown_chars(v: PcteView, w: PcteView, p: int, seen: Seq<int>)
    requires
        appended(v, w, p),
        seen == v.seen(),
        w.seen() == seen.push(v.tree_nodes.len() as int),
        w.nodes[v.nodes.len() as int].character is Some,
        left_nodes(v, v.text_order(0)),
    ensures
        w.text() == v.text().push(w.nodes[v.nodes.len() as int].character->0),
{
    lemma_appended_nodes(v, w, p);
    let s = v.text_order(0);
    let keep = |t: int| v.shows(t);
    assert forall|i: int| 0 <= i < seen.len() implies w.nodes[w.tree_nodes[seen[i]].node].character
        == v.nodes[v.tree_nodes[seen[i]].node].character by {
        assert(seen.contains(seen[i]));
        s.lemma_filter_contains_rev(keep, seen[i]);
        let a = choose|a: int| 0 <= a < s.len() && s[a] == seen[i];
        let t = s[a];
        assert(v.tree_nodes[t].node == t / 2);
        assert(w.tree_nodes[t].node == v.tree_nodes[t].node);
        assert(w.nodes[t / 2] == v.nodes[t / 2]);
    }
    assert(w.text() =~= v.text().push(w.nodes[v.nodes.len() as int].character->0));
}

/// A local insertion at the end of the text appends the character: the text is then
/// the text before with the character behind it.
pub proof fn lemma_append_text(v: PcteView, character: char)
    requires
        v.shaped(),
        v.placed(),
        v.insert_local(v.text().len() as int, character) is Ok,
    ensures
        v.insert_local(v.text().len() as int, character)->Ok_0.text() == v.text().push(character),
{
    let index = v.text().len() as int;
    let w = v.insert_local(index, character)->Ok_0;
    let p = 2 * v.left_origin(index);
    lemma_last_seen(v);
    assert(appended(v, w, p)) by {
        reveal(appended);
        assert(w.tree_nodes =~= v.place(w.nodes[v.nodes.len() as int], p, 1).tree_nodes);
    }
    lemma_grown_seen(v, w, p);
}

} // verus!
