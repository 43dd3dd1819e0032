use crate::pcte::model::{insert_position, order, order_children, Kids, PcteView, SortKey};
use crate::pcte::shape::{lemma_shaped_ordered, lemma_slot_of};
use crate::pcte::tree::{
    count, lemma_count_add, lemma_count_contains, lemma_count_unique, lemma_order_children_push,
    lemma_order_range,
};
use vstd::prelude::*;

verus! {

/// Where every child has the parity of its parent, all that lies below a tree node
/// has its parity.
pub proof fn lemma_order_parity(kids: Kids, t: int)
    requires
        forall|p: int, i: int|
            0 <= p < kids.len() && 0 <= i < kids[p].len() ==> (#[trigger] kids[p][i]) % 2 == p % 2,
    ensures
        forall|i: int| 0 <= i < order(kids, t).len() ==> (#[trigger] order(kids, t)[i]) % 2 == t % 2,
    decreases kids.len() - t, 1int, 0int,
{
    if 0 <= t < kids.len() {
        let below = order_children(kids, kids[t], t, 0);
        lemma_order_children_parity(kids, t, 0);
        assert forall|i: int| 0 <= i < order(kids, t).len() implies (#[trigger] order(kids, t)[i])
            % 2 == t % 2 by {
            if i > 0 {
                assert(order(kids, t)[i] == below[i - 1]);
            }
        }
    }
}

/// The statement of `lemma_order_parity` for what lies below the children of `t` from
/// the `i`-th on.
pub proof fn lemma_order_children_parity(kids: Kids, t: int, i: int)
    requires
        0 <= t < kids.len(),
        forall|p: int, i: int|
            0 <= p < kids.len() && 0 <= i < kids[p].len() ==> (#[trigger] kids[p][i]) % 2 == p % 2,
    ensures
        forall|j: int|
            0 <= j < order_children(kids, kids[t], t, i).len() ==> (#[trigger] order_children(
                kids,
                kids[t],
                t,
                i,
            )[j]) % 2 == t % 2,
    decreases kids.len() - t, 0int, kids[t].len() - i,
{
    let list = kids[t];
    if 0 <= i < list.len() {
        let rest = order_children(kids, list, t, i + 1);
        lemma_order_children_parity(kids, t, i + 1);
        if t < list[i] < kids.len() {
            let first = order(kids, list[i]);
            lemma_order_parity(kids, list[i]);
            assert(list[i] % 2 == t % 2);
            assert forall|j: int| 0 <= j < (first + rest).len() implies (#[trigger] (first
                + rest)[j]) % 2 == t % 2 by {
                if j < first.len() {
                    assert((first + rest)[j] == first[j]);
                } else {
                    assert((first + rest)[j] == rest[j - first.len()]);
                }
            }
        }
    }
}

/// What lies below the children in `a + b` is what lies below those in `a`, then what
/// lies below those in `b`.
pub proof fn lemma_order_children_concat(kids: Kids, a: Seq<int>, b: Seq<int>, t: int)
    ensures
        order_children(kids, a + b, t, 0) == order_children(kids, a, t, 0) + order_children(
            kids,
            b,
            t,
            0,
        ),
    decreases b.len(),
{
    if b.len() == 0 {
        assert(a + b =~= a);
        assert(order_children(kids, a, t, 0) + Seq::<int>::empty() =~= order_children(
            kids,
            a,
            t,
            0,
        ));
    } else {
        let init = b.drop_last();
        let c = b.last();
        lemma_order_children_concat(kids, a, init, t);
        assert(a + b =~= (a + init).push(c));
        assert(b =~= init.push(c));
        lemma_order_children_push(kids, a + init, c, t, 0);
        lemma_order_children_push(kids, init, c, t, 0);
        let tail = if t < c < kids.len() {
            order(kids, c)
        } else {
            Seq::<int>::empty()
        };
        assert((order_children(kids, a, t, 0) + order_children(kids, init, t, 0)) + tail
            =~= order_children(kids, a, t, 0) + (order_children(kids, init, t, 0) + tail));
    }
}

/// Putting one more child into a list adds what lies below that child, wherever the
/// child is put.
pub proof fn lemma_order_children_insert(
    kids: Kids,
    list: Seq<int>,
    at: int,
    c: int,
    t: int,
    x: int,
)
    requires
        0 <= at <= list.len(),
    ensures
        count(order_children(kids, list.insert(at, c), t, 0), x) == count(
            order_children(kids, list.push(c), t, 0),
            x,
        ),
{
    let head = list.take(at);
    let tail = list.skip(at);
    assert(list.insert(at, c) =~= (head + seq![c]) + tail);
    assert(list.push(c) =~= (head + tail) + seq![c]);
    lemma_order_children_concat(kids, head + seq![c], tail, t);
    lemma_order_children_concat(kids, head, seq![c], t);
    lemma_order_children_concat(kids, head + tail, seq![c], t);
    lemma_order_children_concat(kids, head, tail, t);
    let h = order_children(kids, head, t, 0);
    let m = order_children(kids, seq![c], t, 0);
    let l = order_children(kids, tail, t, 0);
    lemma_count_add(h + m, l, x);
    lemma_count_add(h, m, x);
    lemma_count_add(h + l, m, x);
    lemma_count_add(h, l, x);
}

/// Where a key is put among sorted keys lies within them.
pub proof fn lemma_insert_position_range(keys: Seq<SortKey>, x: SortKey)
    ensures
        0 <= insert_position(keys, x) <= keys.len(),
    decreases keys.len(),
{
    if keys.len() > 0 {
        lemma_insert_position_range(keys.drop_last(), x);
    }
}

impl PcteView {
    /// Sorting a list of tree nodes keeps its length.
    pub proof fn lemma_sorted_len(self, list: Seq<int>)
        ensures
            self.sorted(list).len() == list.len(),
        decreases list.len(),
    {
        if list.len() > 0 {
            let rest = self.sorted(list.drop_last());
            self.lemma_sorted_len(list.drop_last());
            lemma_insert_position_range(self.sort_keys(rest), self.sort_key(list.last()));
        }
    }

    /// What lies below a list of children does not depend on the order of the list:
    /// sorted or not, everything occurs as often.
    pub proof fn lemma_sorted_same_count(self, kids: Kids, list: Seq<int>, t: int, x: int)
        ensures
            count(order_children(kids, self.sorted(list), t, 0), x) == count(
                order_children(kids, list, t, 0),
                x,
            ),
        decreases list.len(),
    {
        if list.len() > 0 {
            let init = list.drop_last();
            let c = list.last();
            let rest = self.sorted(init);
            let at = insert_position(self.sort_keys(rest), self.sort_key(c));
            self.lemma_sorted_len(init);
            lemma_insert_position_range(self.sort_keys(rest), self.sort_key(c));
            self.lemma_sorted_same_count(kids, init, t, x);
            lemma_order_children_insert(kids, rest, at, c, t, x);
            lemma_order_children_push(kids, rest, c, t, 0);
            lemma_order_children_push(kids, init, c, t, 0);
            assert(list =~= init.push(c));
            let tail = if t < c < kids.len() {
                order(kids, c)
            } else {
                Seq::<int>::empty()
            };
            lemma_count_add(order_children(kids, rest, t, 0), tail, x);
            lemma_count_add(order_children(kids, init, t, 0), tail, x);
        }
    }

    /// Below a tree node everything occurs as often in text order as in the order in
    /// which the children were appended.
    pub proof fn lemma_text_order_count(self, t: int, x: int)
        ensures
            count(order(self.sorted_kids(), t), x) == count(order(self.kids(), t), x),
        decreases self.tree_nodes.len() - t, 1int, 0int,
    {
        let sk = self.sorted_kids();
        let pk = self.kids();
        if 0 <= t < self.tree_nodes.len() {
            let list = pk[t];
            assert(sk[t] == self.sorted(list));
            self.lemma_text_children_count(sk[t], t, 0, x);
            self.lemma_sorted_same_count(pk, list, t, x);
            lemma_count_add(seq![t], order_children(sk, sk[t], t, 0), x);
            lemma_count_add(seq![t], order_children(pk, list, t, 0), x);
        }
    }

    /// The statement of `lemma_text_order_count` for what lies below the tree nodes in
    /// `list` from the `i`-th on.
    pub proof fn lemma_text_children_count(self, list: Seq<int>, t: int, i: int, x: int)
        requires
            0 <= t < self.tree_nodes.len(),
        ensures
            count(order_children(self.sorted_kids(), list, t, i), x) == count(
                order_children(self.kids(), list, t, i),
                x,
            ),
        decreases self.tree_nodes.len() - t, 0int, list.len() - i,
    {
        let sk = self.sorted_kids();
        let pk = self.kids();
        if 0 <= i < list.len() {
            self.lemma_text_children_count(list, t, i + 1, x);
            if t < list[i] < self.tree_nodes.len() {
                self.lemma_text_order_count(list[i], x);
                lemma_count_add(order(sk, list[i]), order_children(sk, list, t, i + 1), x);
                lemma_count_add(order(pk, list[i]), order_children(pk, list, t, i + 1), x);
            }
        }
    }

    /// The character nodes whose characters are still there.
    pub open spec fn live_nodes(self) -> Set<int> {
        Set::new(|k: int| 0 <= k < self.nodes.len() && self.nodes[k].character is Some)
    }
}

/// Double placement: in a well-formed replica every character node is placed once in
/// the left-origin tree and once in the right-origin tree, by the two tree nodes that
/// the identity map gives for its identity and by no other tree node.
pub proof fn lemma_double_placement(v: PcteView, k: int)
    requires
        v.wf(),
        0 <= k < v.nodes.len(),
    ensures
        v.lookup(v.nodes[k].id) == Some(k),
        v.id_to_node[k].left == 2 * k,
        v.id_to_node[k].right == 2 * k + 1,
        v.tree_nodes[2 * k].node == k,
        v.tree_nodes[2 * k + 1].node == k,
        forall|t: int| 0 <= t < v.tree_nodes.len() && v.tree_nodes[t].node == k ==> t == 2 * k || t
            == 2 * k + 1,
        count(order(v.kids(), v.left_origin_tree), 2 * k) == 1,
        count(order(v.kids(), v.left_origin_tree), 2 * k + 1) == 0,
        count(order(v.kids(), v.right_origin_tree), 2 * k + 1) == 1,
        count(order(v.kids(), v.right_origin_tree), 2 * k) == 0,
        count(v.text_order(v.left_origin_tree), 2 * k) == 1,
{
    lemma_slot_of(v.id_to_node, v.nodes[k].id);
    assert(v.id_to_node[k] == crate::pcte::model::slot_for(v.nodes[k], k));
    let found = v.lookup(v.nodes[k].id)->0;
    assert(v.id_to_node[found] == crate::pcte::model::slot_for(v.nodes[found], found));
    assert(v.tree_nodes[2 * k].node == (2 * k) / 2);
    assert(v.tree_nodes[2 * k + 1].node == (2 * k + 1) / 2);
    assert forall|t: int| 0 <= t < v.tree_nodes.len() && v.tree_nodes[t].node == k implies t == 2
        * k || t == 2 * k + 1 by {
        assert(v.tree_nodes[t].node == t / 2);
    }
    assert(count(order(v.kids(), (2 * k) % 2), 2 * k) == 1);
    assert(count(order(v.kids(), (2 * k + 1) % 2), 2 * k + 1) == 1);
    lemma_kids_parity(v);
    lemma_order_parity(v.kids(), 0);
    lemma_order_parity(v.kids(), 1);
    lemma_count_contains(order(v.kids(), 0), 2 * k + 1);
    lemma_count_contains(order(v.kids(), 1), 2 * k);
    v.lemma_text_order_count(0, 2 * k);
}

/// In a shaped replica every child has the parity of its parent.
pub proof fn lemma_kids_parity(v: PcteView)
    requires
        v.shaped(),
    ensures
        forall|p: int, i: int|
            0 <= p < v.kids().len() && 0 <= i < v.kids()[p].len() ==> (#[trigger] v.kids()[p][i])
                % 2 == p % 2,
{
    assert forall|p: int, i: int| 0 <= p < v.kids().len() && 0 <= i < v.kids()[p].len() implies (
    #[trigger] v.kids()[p][i]) % 2 == p % 2 by {
        assert(v.kids()[p][i] == v.tree_nodes[p].children[i]);
    }
}

/// Taking some elements out of a sequence without duplicates leaves no duplicates, and
/// leaves exactly the elements that were to stay.
pub proof fn lemma_filter_unique(s: Seq<int>, keep: spec_fn(int) -> bool)
    requires
        s.no_duplicates(),
    ensures
        s.filter(keep).no_duplicates(),
        forall|x: int| #[trigger] s.filter(keep).contains(x) <==> s.contains(x) && keep(x),
    decreases s.len(),
{
    reveal_with_fuel(Seq::filter, 1);
    let out = s.filter(keep);
    if s.len() > 0 {
        let init = s.drop_last();
        let last = s.last();
        let rest = init.filter(keep);
        lemma_filter_unique(init, keep);
        assert(!init.contains(last)) by {
            if init.contains(last) {
                let a = choose|a: int| 0 <= a < init.len() && init[a] == last;
                assert(s[a] == s[s.len() - 1]);
            }
        }
        assert forall|x: int| #[trigger] out.contains(x) <==> s.contains(x) && keep(x) by {
            if out.contains(x) {
                let a = choose|a: int| 0 <= a < out.len() && out[a] == x;
                if a < rest.len() {
                    assert(rest[a] == x);
                    assert(rest.contains(x));
                    let c = choose|c: int| 0 <= c < init.len() && init[c] == x;
                    assert(s[c] == x);
                } else {
                    assert(s[s.len() - 1] == x);
                }
            }
            if s.contains(x) && keep(x) {
                let a = choose|a: int| 0 <= a < s.len() && s[a] == x;
                if a < init.len() {
                    assert(init[a] == x);
                    assert(init.contains(x));
                    assert(rest.contains(x));
                    let c = choose|c: int| 0 <= c < rest.len() && rest[c] == x;
                    assert(out[c] == x);
                } else {
                    assert(out[rest.len() as int] == x);
                }
            }
        }
        assert forall|a: int, b: int| 0 <= a < out.len() && 0 <= b < out.len() && a != b implies out[a]
            != out[b] by {
            if a < rest.len() && b < rest.len() {
                assert(rest[a] != rest[b]);
            } else if a < rest.len() {
                assert(rest.contains(rest[a]));
            } else {
                assert(rest.contains(rest[b]));
            }
        }
    }
}

/// Linearisation length: the text of a well-formed replica has as many characters as
/// the replica has character nodes whose characters are still there.
pub proof fn lemma_text_len(v: PcteView)
    requires
        v.shaped(),
        v.placed(),
    ensures
        v.live_nodes().finite(),
        v.text().len() == v.live_nodes().len(),
{
    let s = v.text_order(0);
    let n = v.tree_nodes.len() as int;
    lemma_shaped_ordered(v);
    lemma_kids_parity(v);
    lemma_order_parity(v.kids(), 0);
    lemma_order_range(v.kids(), 0);
    assert forall|x: int| count(s, x) == if 0 <= x < n && x % 2 == 0 {
        1nat
    } else {
        0nat
    } by {
        v.lemma_text_order_count(0, x);
        lemma_count_contains(order(v.kids(), 0), x);
        if 0 <= x < n && x % 2 == 0 {
            assert(count(order(v.kids(), x % 2), x) == 1);
        }
    }
    lemma_count_unique(s);
    let keep = |t: int| v.shows(t);
    let seen = s.filter(keep);
    assert(seen == v.visible(s));
    lemma_filter_unique(s, keep);
    let half = |t: int| t / 2;
    let live = seen.map_values(half);
    assert forall|i: int| 0 <= i < seen.len() implies 0 <= #[trigger] seen[i] < n && seen[i] % 2 == 0
        && v.shows(seen[i]) by {
        assert(seen.contains(seen[i]));
        lemma_count_contains(s, seen[i]);
    }
    assert forall|i: int, j: int| 0 <= i < live.len() && 0 <= j < live.len() && i != j implies live[i]
        != live[j] by {
        assert(seen[i] != seen[j]);
    }
    assert(live.to_set() =~= v.live_nodes()) by {
        assert forall|k: int| live.to_set().contains(k) <==> v.live_nodes().contains(k) by {
            if live.to_set().contains(k) {
                let i = choose|i: int| 0 <= i < live.len() && live[i] == k;
                assert(v.tree_nodes[seen[i]].node == seen[i] / 2);
            }
            if v.live_nodes().contains(k) {
                assert(v.tree_nodes[2 * k].node == (2 * k) / 2);
                assert(count(s, 2 * k) == 1);
                lemma_count_contains(s, 2 * k);
                assert(keep(2 * k));
                assert(seen.contains(2 * k));
                let i = choose|i: int| 0 <= i < seen.len() && seen[i] == 2 * k;
                assert(live[i] == k);
            }
        }
    }
    live.unique_seq_to_set();
    assert(v.text().len() == seen.len());
}

} // verus!
