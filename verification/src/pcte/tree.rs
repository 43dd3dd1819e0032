use crate::pcte::model::{kids_ordered, order, order_children, Kids};
use vstd::prelude::*;
use vstd::set_lib::{lemma_int_range, lemma_len_subset, set_int_range};

verus! {

/// How often `x` occurs in `s`.
pub open spec fn count(s: Seq<int>, x: int) -> nat
    decreases s.len(),
{
    if s.len() == 0 {
        0
    } else {
        count(s.drop_last(), x) + if s.last() == x {
            1nat
        } else {
            0nat
        }
    }
}

/// Occurrences add up over concatenation.
pub proof fn lemma_count_add(a: Seq<int>, b: Seq<int>, x: int)
    ensures
        count(a + b, x) == count(a, x) + count(b, x),
    decreases b.len(),
{
    if b.len() == 0 {
        assert(a + b =~= a);
    } else {
        assert((a + b).drop_last() =~= a + b.drop_last());
        lemma_count_add(a, b.drop_last(), x);
    }
}

/// A sequence of one element holds that element once and nothing else.
pub proof fn lemma_count_one(t: int, x: int)
    ensures
        count(seq![t], x) == if t == x {
            1nat
        } else {
            0nat
        },
{
    reveal_with_fuel(count, 2);
    assert(seq![t].drop_last() =~= Seq::<int>::empty());
}

/// What occurs is contained, and the other way round.
pub proof fn lemma_count_contains(s: Seq<int>, x: int)
    ensures
        (count(s, x) > 0) == s.contains(x),
    decreases s.len(),
{
    if s.len() > 0 {
        let init = s.drop_last();
        lemma_count_contains(init, x);
        if init.contains(x) {
            let i = choose|i: int| 0 <= i < init.len() && init[i] == x;
            assert(s[i] == x);
        }
        if s.contains(x) && s.last() != x {
            let i = choose|i: int| 0 <= i < s.len() && s[i] == x;
            assert(init[i] == x);
        }
        if s.last() == x {
            assert(s[s.len() - 1] == x);
        }
    }
}

/// A sequence in which nothing occurs twice has no duplicates.
pub proof fn lemma_count_unique(s: Seq<int>)
    requires
        forall|x: int| count(s, x) <= 1,
    ensures
        s.no_duplicates(),
    decreases s.len(),
{
    if s.len() > 0 {
        let init = s.drop_last();
        assert forall|x: int| count(init, x) <= 1 by {
            assert(count(s, x) <= 1);
        }
        lemma_count_unique(init);
        lemma_count_contains(init, s.last());
        assert(count(s, s.last()) <= 1);
        assert forall|i: int, j: int| 0 <= i < s.len() && 0 <= j < s.len() && i != j implies s[i]
            != s[j] by {
            if i < init.len() && j < init.len() {
                assert(init[i] != init[j]);
            } else if i < init.len() {
                assert(init[i] == s[i]);
                assert(init.contains(s[i]));
            } else {
                assert(init[j] == s[j]);
                assert(init.contains(s[j]));
            }
        }
    }
}

/// A sequence without duplicates whose elements lie in a range is no longer than the
/// range.
pub proof fn lemma_len_bound(s: Seq<int>, lo: int, hi: int)
    requires
        s.no_duplicates(),
        lo <= hi,
        forall|i: int| 0 <= i < s.len() ==> lo <= #[trigger] s[i] < hi,
    ensures
        s.len() <= hi - lo,
{
    s.unique_seq_to_set();
    lemma_int_range(lo, hi);
    assert(s.to_set().subset_of(set_int_range(lo, hi))) by {
        assert forall|x: int| s.to_set().contains(x) implies set_int_range(lo, hi).contains(x) by {
            let i = choose|i: int| 0 <= i < s.len() && s[i] == x;
        }
    }
    lemma_len_subset(s.to_set(), set_int_range(lo, hi));
}

/// Every tree node below `t` has a position from `t` on, within the forest.
pub proof fn lemma_order_range(kids: Kids, t: int)
    ensures
        forall|i: int| 0 <= i < order(kids, t).len() ==> t <= #[trigger] order(kids, t)[i] < kids.len(),
    decreases kids.len() - t, 1int, 0int,
{
    if 0 <= t < kids.len() {
        let below = order_children(kids, kids[t], t, 0);
        lemma_order_children_range(kids, kids[t], t, 0);
        assert forall|i: int| 0 <= i < order(kids, t).len() implies t <= #[trigger] order(
            kids,
            t,
        )[i] < kids.len() by {
            if i > 0 {
                assert(order(kids, t)[i] == below[i - 1]);
            }
        }
    }
}

/// Every tree node below the children of `t` has a position behind `t`.
pub proof fn lemma_order_children_range(kids: Kids, list: Seq<int>, t: int, i: int)
    ensures
        forall|j: int|
            0 <= j < order_children(kids, list, t, i).len() ==> t < #[trigger] order_children(
                kids,
                list,
                t,
                i,
            )[j] < kids.len(),
    decreases kids.len() - t, 0int, list.len() - i,
{
    if 0 <= i < list.len() {
        let rest = order_children(kids, list, t, i + 1);
        lemma_order_children_range(kids, list, t, i + 1);
        if t < list[i] < kids.len() {
            let first = order(kids, list[i]);
            lemma_order_range(kids, list[i]);
            assert forall|j: int| 0 <= j < (first + rest).len() implies t < #[trigger] (first
                + rest)[j] < kids.len() by {
                if j < first.len() {
                    assert((first + rest)[j] == first[j]);
                } else {
                    assert((first + rest)[j] == rest[j - first.len()]);
                }
            }
        }
    }
}

/// The children lists after a new tree node was appended under `p`.
pub open spec fn with_leaf(kids: Kids, p: int) -> Kids {
    kids.update(p, kids[p].push(kids.len() as int)).push(Seq::empty())
}

/// A new leaf keeps children behind their parents.
pub proof fn lemma_with_leaf_ordered(kids: Kids, p: int)
    requires
        kids_ordered(kids),
        0 <= p < kids.len(),
    ensures
        kids_ordered(with_leaf(kids, p)),
{
    let grown = with_leaf(kids, p);
    assert forall|q: int, i: int| 0 <= q < grown.len() && 0 <= i < grown[q].len() implies q
        < #[trigger] grown[q][i] < grown.len() by {
        if q < kids.len() && i < kids[q].len() {
            assert(grown[q][i] == kids[q][i]);
        }
    }
}

/// A list taken from its `i`-th element on gives what its elements give one by one:
/// appending a child appends what lies below that child.
pub proof fn lemma_order_children_push(kids: Kids, list: Seq<int>, c: int, t: int, i: int)
    requires
        0 <= i <= list.len(),
    ensures
        order_children(kids, list.push(c), t, i) == order_children(kids, list, t, i) + if t < c
            < kids.len() {
            order(kids, c)
        } else {
            Seq::empty()
        },
    decreases list.len() - i,
{
    let longer = list.push(c);
    if i < list.len() {
        lemma_order_children_push(kids, list, c, t, i + 1);
        assert(longer[i] == list[i]);
        let tail = if t < c < kids.len() {
            order(kids, c)
        } else {
            Seq::empty()
        };
        if t < list[i] < kids.len() {
            assert(order(kids, list[i]) + (order_children(kids, list, t, i + 1) + tail) =~= (order(
                kids,
                list[i],
            ) + order_children(kids, list, t, i + 1)) + tail);
        }
    } else {
        assert(order_children(kids, longer, t, i + 1) =~= Seq::<int>::empty());
        assert(order_children(kids, list, t, i) =~= Seq::<int>::empty());
        if t < c < kids.len() {
            assert(order(kids, c) + Seq::<int>::empty() =~= Seq::<int>::empty() + order(kids, c));
        }
    }
}

/// How often `x` occurs below `t` once a leaf was appended under `p`: the leaf occurs
/// as often as `p` did, everything else as often as before.
pub proof fn lemma_leaf_count(kids: Kids, p: int, t: int, x: int)
    requires
        kids_ordered(kids),
        0 <= p < kids.len(),
        0 <= t <= kids.len(),
    ensures
        count(order(with_leaf(kids, p), t), x) == if x == kids.len() {
            if t == kids.len() {
                1nat
            } else {
                count(order(kids, t), p)
            }
        } else {
            count(order(kids, t), x)
        },
    decreases kids.len() - t, 1int, 0int,
{
    let grown = with_leaf(kids, p);
    let leaf = kids.len() as int;
    if t == leaf {
        assert(order_children(grown, grown[t], t, 0) =~= Seq::<int>::empty());
        assert(order(grown, t) =~= seq![t]);
        lemma_count_one(t, x);
    } else {
        let list = kids[t];
        lemma_count_one(t, x);
        lemma_count_one(t, p);
        lemma_count_add(seq![t], order_children(kids, list, t, 0), x);
        lemma_count_add(seq![t], order_children(kids, list, t, 0), p);
        lemma_leaf_count_children(kids, p, list, t, 0, x);
        if t == p {
            lemma_order_children_push(grown, list, leaf, t, 0);
            assert(order_children(grown, grown[leaf], leaf, 0) =~= Seq::<int>::empty());
            assert(order(grown, leaf) =~= seq![leaf]);
            lemma_count_one(leaf, x);
            lemma_count_add(order_children(grown, list, t, 0), seq![leaf], x);
            lemma_count_add(seq![t], order_children(grown, grown[t], t, 0), x);
        } else {
            assert(grown[t] == list);
            lemma_count_add(seq![t], order_children(grown, list, t, 0), x);
        }
    }
}

/// The statement of `lemma_leaf_count` for what lies below the children `list[i..]`
/// of `t`.
pub proof fn lemma_leaf_count_children(kids: Kids, p: int, list: Seq<int>, t: int, i: int, x: int)
    requires
        kids_ordered(kids),
        0 <= p < kids.len(),
        0 <= t < kids.len(),
        0 <= i <= list.len(),
        forall|j: int| 0 <= j < list.len() ==> t < #[trigger] list[j] < kids.len(),
    ensures
        count(order_children(with_leaf(kids, p), list, t, i), x) == if x == kids.len() {
            count(order_children(kids, list, t, i), p)
        } else {
            count(order_children(kids, list, t, i), x)
        },
    decreases kids.len() - t, 0int, list.len() - i,
{
    let grown = with_leaf(kids, p);
    if i < list.len() {
        lemma_leaf_count_children(kids, p, list, t, i + 1, x);
        lemma_leaf_count(kids, p, list[i], x);
        lemma_count_add(order(grown, list[i]), order_children(grown, list, t, i + 1), x);
        lemma_count_add(order(kids, list[i]), order_children(kids, list, t, i + 1), x);
        lemma_count_add(order(kids, list[i]), order_children(kids, list, t, i + 1), p);
    }
}

/// Below a tree node under which nothing occurs twice lie no more tree nodes than
/// have a position from it on.
pub proof fn lemma_order_len(kids: Kids, t: int)
    requires
        0 <= t < kids.len(),
        forall|x: int| count(order(kids, t), x) <= 1,
    ensures
        1 <= order(kids, t).len() <= kids.len() - t,
{
    lemma_count_unique(order(kids, t));
    lemma_order_range(kids, t);
    lemma_len_bound(order(kids, t), t, kids.len() as int);
}

} // verus!
