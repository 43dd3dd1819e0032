use crate::pcte::model::{order, PcteView};
use crate::pcte::placement::{
    lemma_filter_unique, lemma_kids_parity, lemma_order_parity, lemma_text_len,
};
use crate::pcte::shape::{lemma_place_wf, lemma_same_arenas, lemma_shaped_ordered};
use crate::pcte::tree::{count, lemma_count_contains, lemma_count_unique, lemma_order_range};
use vstd::prelude::*;

verus! {

/// Two tests that agree on every element of a sequence keep the same elements of it.
pub proof fn lemma_filter_same(s: Seq<int>, p: spec_fn(int) -> bool, q: spec_fn(int) -> bool)
    requires
        forall|i: int| 0 <= i < s.len() ==> p(#[trigger] s[i]) == q(s[i]),
    ensures
        s.filter(p) == s.filter(q),
    decreases s.len(),
{
    reveal_with_fuel(Seq::filter, 1);
    if s.len() > 0 {
        let init = s.drop_last();
        assert forall|i: int| 0 <= i < init.len() implies p(#[trigger] init[i]) == q(init[i]) by {
            assert(init[i] == s[i]);
        }
        lemma_filter_same(init, p, q);
        assert(p(s[s.len() - 1]) == q(s[s.len() - 1]));
    }
}

/// Keeping what passes a test and is not `x` is taking `x` out of what passes the
/// test, where `x` passes it and occurs once.
pub proof fn lemma_filter_without(s: Seq<int>, p: spec_fn(int) -> bool, x: int, index: int)
    requires
        s.no_duplicates(),
        0 <= index < s.filter(p).len(),
        s.filter(p)[index] == x,
    ensures
        s.filter(|t: int| p(t) && t != x) == s.filter(p).remove(index),
    decreases s.len(),
{
    reveal_with_fuel(Seq::filter, 1);
    let q = |t: int| p(t) && t != x;
    let kept = s.filter(p);
    if s.len() > 0 {
        let init = s.drop_last();
        let last = s.last();
        let rest = init.filter(p);
        lemma_filter_unique(s, p);
        lemma_filter_unique(init, p);
        assert(!init.contains(last)) by {
            if init.contains(last) {
                let a = choose|a: int| 0 <= a < init.len() && init[a] == last;
                assert(s[a] == s[s.len() - 1]);
            }
        }
        if index < rest.len() {
            assert(rest[index] == x);
            lemma_filter_without(init, p, x, index);
            assert(rest.contains(x));
            assert(last != x);
            if p(last) {
                assert(rest.remove(index).push(last) =~= kept.remove(index));
            }
        } else {
            assert(p(last) && last == x);
            assert(init.filter(q) == rest) by {
                assert forall|i: int| 0 <= i < init.len() implies q(#[trigger] init[i]) == p(
                    init[i],
                ) by {
                    assert(init.contains(init[i]));
                }
                lemma_filter_same(init, q, p);
            }
            assert(kept.remove(index) =~= rest);
        }
    }
}

impl PcteView {
    /// In a well-formed replica the text order visits every tree node of the
    /// left-origin tree once, and nothing else.
    pub proof fn lemma_text_order_unique(self)
        requires
            self.shaped(),
            self.placed(),
        ensures
            self.text_order(0).no_duplicates(),
            forall|i: int|
                0 <= i < self.text_order(0).len() ==> 0 <= #[trigger] self.text_order(0)[i]
                    < self.tree_nodes.len() && self.text_order(0)[i] % 2 == 0,
    {
        let s = self.text_order(0);
        let n = self.tree_nodes.len() as int;
        lemma_shaped_ordered(self);
        lemma_kids_parity(self);
        lemma_order_parity(self.kids(), 0);
        lemma_order_range(self.kids(), 0);
        assert forall|x: int| count(s, x) == if 0 <= x < n && x % 2 == 0 {
            1nat
        } else {
            0nat
        } by {
            self.lemma_text_order_count(0, x);
            lemma_count_contains(order(self.kids(), 0), x);
            if 0 <= x < n && x % 2 == 0 {
                assert(count(order(self.kids(), x % 2), x) == 1);
            }
        }
        lemma_count_unique(s);
        assert forall|i: int| 0 <= i < s.len() implies 0 <= #[trigger] s[i] < n && s[i] % 2
            == 0 by {
            assert(s.contains(s[i]));
            lemma_count_contains(s, s[i]);
        }
    }

    /// Sorting does not look at whether characters are still there.
    pub proof fn lemma_sorted_after_erase(self, k: int, list: Seq<int>)
        requires
            self.shaped(),
            0 <= k < self.nodes.len(),
            forall|i: int| 0 <= i < list.len() ==> 0 <= #[trigger] list[i] < self.tree_nodes.len(),
        ensures
            self.erase(k).sorted(list) == self.sorted(list),
        decreases list.len(),
    {
        if list.len() > 0 {
            let init = list.drop_last();
            assert forall|i: int| 0 <= i < init.len() implies 0 <= #[trigger] init[i]
                < self.tree_nodes.len() by {
                assert(init[i] == list[i]);
            }
            self.lemma_sorted_after_erase(k, init);
            let rest = self.sorted(init);
            self.lemma_sorted_members(init);
            assert(self.erase(k).sort_keys(rest) =~= self.sort_keys(rest)) by {
                assert forall|i: int| 0 <= i < rest.len() implies self.erase(k).sort_key(rest[i])
                    == self.sort_key(rest[i]) by {
                    assert(rest.contains(rest[i]));
                    let j = choose|j: int| 0 <= j < init.len() && init[j] == rest[i];
                    assert(self.tree_nodes[rest[i]].node == rest[i] / 2);
                }
            }
            assert(self.tree_nodes[list.last()].node == list.last() / 2);
        }
    }

    /// Sorting a list neither adds nor drops elements.
    pub proof fn lemma_sorted_members(self, list: Seq<int>)
        ensures
            forall|x: int| #[trigger] self.sorted(list).contains(x) <==> list.contains(x),
        decreases list.len(),
    {
        if list.len() > 0 {
            let init = list.drop_last();
            let last = list.last();
            let rest = self.sorted(init);
            self.lemma_sorted_members(init);
            self.lemma_sorted_len(init);
            let at = crate::pcte::model::insert_position(
                self.sort_keys(rest),
                self.sort_key(last),
            );
            crate::pcte::placement::lemma_insert_position_range(
                self.sort_keys(rest),
                self.sort_key(last),
            );
            let out = rest.insert(at, last);
            assert forall|x: int| #[trigger] out.contains(x) <==> list.contains(x) by {
                if out.contains(x) {
                    let i = choose|i: int| 0 <= i < out.len() && out[i] == x;
                    if i < at {
                        assert(rest[i] == x);
                        assert(rest.contains(x));
                    } else if i > at {
                        assert(rest[i - 1] == x);
                        assert(rest.contains(x));
                    } else {
                        assert(list[list.len() - 1] == x);
                    }
                    if rest.contains(x) {
                        assert(init.contains(x));
                        let j = choose|j: int| 0 <= j < init.len() && init[j] == x;
                        assert(list[j] == x);
                    }
                }
                if list.contains(x) {
                    let j = choose|j: int| 0 <= j < list.len() && list[j] == x;
                    if j < init.len() {
                        assert(init[j] == x);
                        assert(init.contains(x));
                        assert(rest.contains(x));
                        let i = choose|i: int| 0 <= i < rest.len() && rest[i] == x;
                        if i < at {
                            assert(out[i] == x);
                        } else {
                            assert(out[i + 1] == x);
                        }
                    } else {
                        assert(out[at] == x);
                    }
                }
            }
        }
    }

    /// Deleting a character leaves the text order as it is.
    pub proof fn lemma_text_order_after_erase(self, k: int)
        requires
            self.shaped(),
            0 <= k < self.nodes.len(),
        ensures
            self.erase(k).sorted_kids() == self.sorted_kids(),
    {
        let w = self.erase(k);
        assert forall|t: int| 0 <= t < self.tree_nodes.len() implies w.sorted_kids()[t]
            == self.sorted_kids()[t] by {
            let list = self.tree_nodes[t].children;
            assert forall|i: int| 0 <= i < list.len() implies 0 <= #[trigger] list[i]
                < self.tree_nodes.len() by {
                let c = self.tree_nodes[t].children[i];
            }
            self.lemma_sorted_after_erase(k, list);
        }
        assert(w.sorted_kids() =~= self.sorted_kids());
    }
}

/// A local deletion takes the character at `index` out of the text and leaves the rest
/// of the text as it is.
pub proof fn lemma_delete_text(v: PcteView, index: int)
    requires
        v.shaped(),
        v.placed(),
        0 <= index < v.text().len(),
    ensures
        v.delete_local(index) is Ok,
        v.delete_local(index)->Ok_0.text() == v.text().remove(index),
{
    let s = v.text_order(0);
    let seen = v.visible(s);
    let x = seen[index];
    v.lemma_text_order_unique();
    let keep = |t: int| v.shows(t);
    lemma_filter_unique(s, keep);
    assert(seen.contains(x));
    assert(s.contains(x));
    let k = v.tree_nodes[x].node;
    assert(k == x / 2);
    let w = v.delete_local(index)->Ok_0;
    let e = v.erase(k);
    v.lemma_text_order_after_erase(k);
    assert(w.sorted_kids() == e.sorted_kids()) by {
        assert forall|t: int| 0 <= t < w.tree_nodes.len() implies w.sorted_kids()[t]
            == e.sorted_kids()[t] by {
            w.lemma_sorted_same_replica(e, w.tree_nodes[t].children);
        }
        assert(w.sorted_kids() =~= e.sorted_kids());
    }
    assert(w.text_order(0) == s);
    let gone = |t: int| keep(t) && t != x;
    let after = |t: int| w.shows(t);
    assert forall|i: int| 0 <= i < s.len() implies after(#[trigger] s[i]) == gone(s[i]) by {
        assert(v.tree_nodes[s[i]].node == s[i] / 2);
    }
    lemma_filter_same(s, after, gone);
    lemma_filter_without(s, keep, x, index);
    assert(w.visible(s) == seen.remove(index));
    assert(w.text() =~= v.text().remove(index)) by {
        assert forall|i: int| 0 <= i < seen.remove(index).len() implies w.nodes[w.tree_nodes[seen.remove(
            index,
        )[i]].node].character == v.nodes[v.tree_nodes[seen.remove(index)[i]].node].character by {
            let t = seen.remove(index)[i];
            let j = if i < index {
                i
            } else {
                i + 1
            };
            assert(seen[j] == t);
            assert(seen.contains(t));
            assert(s.contains(t));
            assert(t != x);
            let a = choose|a: int| 0 <= a < s.len() && s[a] == t;
            assert(v.tree_nodes[s[a]].node == s[a] / 2);
        }
    }
}

impl PcteView {
    /// Sorting looks only at the arenas: two replicas with the same arenas sort alike.
    pub proof fn lemma_sorted_same_replica(self, other: PcteView, list: Seq<int>)
        requires
            self.nodes == other.nodes,
            self.tree_nodes == other.tree_nodes,
            self.right_origin_tree == other.right_origin_tree,
        ensures
            self.sorted(list) == other.sorted(list),
        decreases list.len(),
    {
        if list.len() > 0 {
            self.lemma_sorted_same_replica(other, list.drop_last());
            assert(self.sort_keys(self.sorted(list.drop_last())) =~= other.sort_keys(
                other.sorted(list.drop_last()),
            ));
        }
    }
}

/// A local insertion makes the text longer by one character.
pub proof fn lemma_insert_len(v: PcteView, index: int, character: char)
    requires
        v.shaped(),
        v.placed(),
        0 <= index,
        v.insert_local(index, character) is Ok,
    ensures
        v.insert_local(index, character)->Ok_0.text().len() == v.text().len() + 1,
{
    let w = v.insert_local(index, character)->Ok_0;
    let n = v.nodes.len() as int;
    let seen = v.seen();
    let s = v.text_order(0);
    v.lemma_text_order_unique();
    let keep = |t: int| v.shows(t);
    lemma_filter_unique(s, keep);
    assert forall|i: int| 0 <= i < seen.len() implies 0 <= #[trigger] seen[i] < v.tree_nodes.len()
        && v.tree_nodes[seen[i]].node == seen[i] / 2 by {
        assert(seen.contains(seen[i]));
        assert(s.contains(seen[i]));
        let a = choose|a: int| 0 <= a < s.len() && s[a] == seen[i];
        assert(v.tree_nodes[s[a]].node == s[a] / 2);
    }
    let node = crate::pcte::model::NodeView {
        id: (v.replica_id, (v.counter + 1) as usize),
        character: Some(character),
    };
    v.lemma_lookup_none(node.id);
    let left = 2 * v.left_origin(index);
    let right = 2 * v.right_origin(index) + 1;
    if index > 0 {
        assert(v.tree_nodes[seen[index - 1]].node == seen[index - 1] / 2);
    }
    if index < seen.len() {
        assert(v.tree_nodes[seen[index]].node == seen[index] / 2);
    }
    lemma_place_wf(v, node, left, right);
    lemma_same_arenas(v.place(node, left, right), w);
    lemma_text_len(v);
    lemma_text_len(w);
    assert(w.live_nodes() =~= v.live_nodes().insert(n)) by {
        assert forall|k: int| w.live_nodes().contains(k) <==> v.live_nodes().insert(n).contains(
            k,
        ) by {
            if 0 <= k < n {
                assert(w.nodes[k] == v.nodes[k]);
            }
        }
    }
}

} // verus!
