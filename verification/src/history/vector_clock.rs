use crate::history::clock_model::{
    any_less, any_more, either_larger, get, joined, lemma_get_at, lemma_joined_shows, lemma_merged_get,
    lemma_merged_sorted, merged, raised, relation, shows_less, shows_more, sorted, ClockRelation,
    ClockView, Joined,
};
use crate::lexical::{lex_sign, string_sign};
use itertools::EitherOrBoth;
use itertools::Itertools;
use std::cmp::Ordering;
use vstd::prelude::*;

verus! {

/// The components that a vector of components holds.
pub open spec fn pairs(inner: Seq<(String, usize)>) -> ClockView {
    inner.map_values(|p: (String, usize)| (p.0@, p.1))
}

/// The order that the sign of a comparison stands for.
pub open spec fn sign_order(sign: int) -> Ordering {
    if sign < 0 {
        Ordering::Less
    } else if sign == 0 {
        Ordering::Equal
    } else {
        Ordering::Greater
    }
}

/// Orders two replica names lexicographically.
pub fn key_order(a: &String, b: &String) -> (res: Ordering)
    ensures
        res == sign_order(lex_sign(a@, b@)),
{
    let sign = string_sign(a.as_str(), b.as_str());
    if sign < 0 {
        Ordering::Less
    } else if sign == 0 {
        Ordering::Equal
    } else {
        Ordering::Greater
    }
}

/// Walks two vectors of components side by side: `Itertools::merge_join_by` with the
/// names compared by `key_order`, each step reduced to its counters. At each step the
/// component with the smaller name goes out alone and is dropped from its vector; two
/// components with the same name go out together and are dropped from both; when one
/// vector is used up the rest of the other goes out one by one.
#[verifier::external_body]
fn merge_join(a: &Vec<(String, usize)>, b: &Vec<(String, usize)>) -> (res: Vec<Joined>)
    ensures
        res@ == joined(pairs(a@), pairs(b@)),
{
    a.iter().merge_join_by(b.iter(), |x, y| key_order(&x.0, &y.0)).map(
        |step| match step {
            EitherOrBoth::Left(x) => Joined::Left(x.1),
            EitherOrBoth::Both(x, y) => Joined::Both(x.1, y.1),
            EitherOrBoth::Right(y) => Joined::Right(y.1),
        },
    ).collect()
}

/// A vector clock: for each replica name that it holds, a counter.
#[derive(Debug)]
pub struct VectorClock {
    inner: Vec<(String, usize)>,
}

impl View for VectorClock {
    type V = ClockView;

    closed spec fn view(&self) -> ClockView {
        pairs(self.inner@)
    }
}

impl VectorClock {
    #[verifier::type_invariant]
    spec fn names_grow(self) -> bool {
        sorted(pairs(self.inner@))
    }

    /// The clock that holds nothing.
    pub fn new() -> (res: Self)
        ensures
            res@ == ClockView::empty(),
    {
        let res = VectorClock { inner: Vec::new() };
        assert(res@ =~= ClockView::empty());
        res
    }

    /// The clock that holds `counter` for `name` and nothing else.
    pub fn single(name: String, counter: usize) -> (res: Self)
        ensures
            res@ == seq![(name@, counter)],
    {
        let mut inner = Vec::new();
        inner.push((name, counter));
        assert(pairs(inner@) =~= seq![(name@, counter)]);
        VectorClock { inner }
    }

    /// The counter that the clock holds for `name`, if it holds one.
    pub fn get(&self, name: &str) -> (res: Option<usize>)
        ensures
            res == get(self@, name@),
    {
        let ghost c = self@;
        let mut i: usize = 0;
        proof {
            assert(c.skip(0) =~= c);
        }
        while i < self.inner.len()
            invariant
                c == pairs(self.inner@),
                i <= self.inner.len(),
                get(c.skip(i as int), name@) == get(c, name@),
            decreases self.inner.len() - i,
        {
            proof {
                assert(c.skip(i as int).drop_first() =~= c.skip(i + 1));
                assert(c.skip(i as int)[0] == c[i as int]);
                assert(c[i as int].0 == self.inner@[i as int].0@);
                crate::lexical::lemma_lex_irreflexive(name@);
            }
            if string_sign(self.inner[i].0.as_str(), name) == 0 {
                return Some(self.inner[i].1);
            }
            i += 1;
        }
        None
    }

    /// Raises every counter to what `other` holds for its name, and takes over the
    /// names that only `other` holds.
    pub fn update_with(&mut self, other: &VectorClock)
        ensures
            final(self)@ == merged(old(self)@, other@),
            forall|name: Seq<char>| #[trigger]
                get(final(self)@, name) == either_larger(
                    get(old(self)@, name),
                    get(other@, name),
                ),
    {
        let ghost a = self@;
        let ghost b = other@;
        proof {
            use_type_invariant(&*self);
            use_type_invariant(other);
        }
        let mut out: Vec<(String, usize)> = Vec::new();
        let mut i: usize = 0;
        let mut j: usize = 0;
        proof {
            assert(a.skip(0) =~= a);
            assert(b.skip(0) =~= b);
            assert(pairs(out@) + merged(a, b) =~= merged(a, b));
        }
        while i < self.inner.len() || j < other.inner.len()
            invariant
                a == pairs(self.inner@),
                b == pairs(other.inner@),
                i <= self.inner.len(),
                j <= other.inner.len(),
                pairs(out@) + merged(a.skip(i as int), b.skip(j as int)) == merged(a, b),
            decreases (self.inner.len() - i) + (other.inner.len() - j),
        {
            let ghost before = pairs(out@);
            let ghost rest_a = a.skip(i as int);
            let ghost rest_b = b.skip(j as int);
            proof {
                if i < self.inner.len() {
                    assert(rest_a.drop_first() =~= a.skip(i + 1));
                    assert(rest_a[0] == a[i as int]);
                }
                if j < other.inner.len() {
                    assert(rest_b.drop_first() =~= b.skip(j + 1));
                    assert(rest_b[0] == b[j as int]);
                }
            }
            if i == self.inner.len() {
                out.push((other.inner[j].0.clone(), other.inner[j].1));
                j += 1;
                proof {
                    assert(a.skip(i as int) =~= ClockView::empty());
                    assert(pairs(out@) =~= before.push(rest_b[0]));
                    assert(rest_b =~= seq![rest_b[0]] + b.skip(j as int));
                    assert(pairs(out@) + b.skip(j as int) =~= before + rest_b);
                }
            } else if j == other.inner.len() {
                out.push((self.inner[i].0.clone(), self.inner[i].1));
                i += 1;
                proof {
                    assert(b.skip(j as int) =~= ClockView::empty());
                    assert(pairs(out@) =~= before.push(rest_a[0]));
                    assert(rest_a =~= seq![rest_a[0]] + a.skip(i as int));
                    if a.skip(i as int).len() == 0 {
                        assert(merged(a.skip(i as int), b.skip(j as int)) =~= a.skip(i as int));
                    }
                    assert(pairs(out@) + a.skip(i as int) =~= before + rest_a);
                }
            } else {
                let sign = string_sign(self.inner[i].0.as_str(), other.inner[j].0.as_str());
                if sign < 0 {
                    out.push((self.inner[i].0.clone(), self.inner[i].1));
                    i += 1;
                    proof {
                        assert(pairs(out@) =~= before.push(rest_a[0]));
                        assert(pairs(out@) + merged(a.skip(i as int), rest_b) =~= before + (
                        seq![rest_a[0]] + merged(a.skip(i as int), rest_b)));
                    }
                } else if sign == 0 {
                    let counter = if self.inner[i].1 >= other.inner[j].1 {
                        self.inner[i].1
                    } else {
                        other.inner[j].1
                    };
                    out.push((self.inner[i].0.clone(), counter));
                    i += 1;
                    j += 1;
                    proof {
                        crate::lexical::lemma_lex_irreflexive(rest_a[0].0);
                        assert(pairs(out@) =~= before.push((rest_a[0].0, counter)));
                        assert(pairs(out@) + merged(a.skip(i as int), b.skip(j as int)) =~= before
                            + (seq![(rest_a[0].0, counter)] + merged(
                            a.skip(i as int),
                            b.skip(j as int),
                        )));
                    }
                } else {
                    out.push((other.inner[j].0.clone(), other.inner[j].1));
                    j += 1;
                    proof {
                        assert(pairs(out@) =~= before.push(rest_b[0]));
                        assert(pairs(out@) + merged(rest_a, b.skip(j as int)) =~= before + (
                        seq![rest_b[0]] + merged(rest_a, b.skip(j as int))));
                    }
                }
            }
        }
        proof {
            assert(a.skip(i as int) =~= ClockView::empty());
            assert(b.skip(j as int) =~= ClockView::empty());
            assert(pairs(out@) + ClockView::empty() =~= pairs(out@));
            lemma_merged_sorted(a, b, Seq::empty());
            assert forall|name: Seq<char>| #[trigger]
                get(merged(a, b), name) == either_larger(get(a, name), get(b, name)) by {
                lemma_merged_get(a, b, name);
            }
        }
        self.inner = out;
    }

    /// Raises the counter of `name` by one, if the clock holds one for it.
    pub fn raise(&mut self, name: &str)
        requires
            get(old(self)@, name@) matches Some(x) ==> x < usize::MAX,
        ensures
            final(self)@ == raised(old(self)@, name@),
    {
        let ghost c = self@;
        proof {
            use_type_invariant(&*self);
            assert forall|k: int| 0 <= k < c.len() && c[k].0 == name@ implies c[k].1
                < usize::MAX by {
                lemma_get_at(c, k);
            }
        }
        let mut out: Vec<(String, usize)> = Vec::new();
        let mut i: usize = 0;
        while i < self.inner.len()
            invariant
                c == pairs(self.inner@),
                i <= self.inner.len(),
                pairs(out@) == raised(c, name@).take(i as int),
                forall|k: int| 0 <= k < c.len() && c[k].0 == name@ ==> c[k].1 < usize::MAX,
            decreases self.inner.len() - i,
        {
            let ghost before = pairs(out@);
            proof {
                assert(c[i as int].0 == self.inner@[i as int].0@);
                assert(c[i as int].1 == self.inner@[i as int].1);
                crate::lexical::lemma_lex_irreflexive(name@);
            }
            if string_sign(self.inner[i].0.as_str(), name) == 0 {
                out.push((self.inner[i].0.clone(), self.inner[i].1 + 1));
            } else {
                out.push((self.inner[i].0.clone(), self.inner[i].1));
            }
            proof {
                assert(pairs(out@) =~= before.push(raised(c, name@)[i as int]));
                assert(raised(c, name@).take(i + 1) =~= raised(c, name@).take(i as int).push(
                    raised(c, name@)[i as int],
                ));
            }
            i += 1;
        }
        proof {
            let r = raised(c, name@);
            assert(r.take(i as int) =~= r);
            assert forall|i: int, j: int| 0 <= i < j < r.len() implies crate::lexical::lex_lt(
                #[trigger] r[i].0,
                #[trigger] r[j].0,
            ) by {
                assert(r[i].0 == c[i].0);
                assert(r[j].0 == c[j].0);
            }
        }
        self.inner = out;
    }

    /// How this clock stands to `other`.
    pub fn relate(&self, other: &VectorClock) -> (res: ClockRelation)
        ensures
            res == relation(self@, other@),
    {
        proof {
            use_type_invariant(self);
            use_type_invariant(other);
            lemma_joined_shows(self@, other@);
        }
        let steps = merge_join(&self.inner, &other.inner);
        let mut less = false;
        let mut more = false;
        let mut i: usize = 0;
        while i < steps.len()
            invariant
                i <= steps.len(),
                less == any_less(steps@.take(i as int)),
                more == any_more(steps@.take(i as int)),
            decreases steps.len() - i,
        {
            let ghost seen = steps@.take(i as int);
            let ghost next = steps@.take(i + 1);
            proof {
                assert(next[i as int] == steps@[i as int]);
                assert forall|k: int| 0 <= k < seen.len() implies seen[k] == next[k] by {}
                if any_less(seen) {
                    let k = choose|k: int| 0 <= k < seen.len() && shows_less(#[trigger] seen[k]);
                    assert(shows_less(next[k]));
                }
                if any_more(seen) {
                    let k = choose|k: int| 0 <= k < seen.len() && shows_more(#[trigger] seen[k]);
                    assert(shows_more(next[k]));
                }
                if any_less(next) && !shows_less(steps@[i as int]) {
                    let k = choose|k: int| 0 <= k < next.len() && shows_less(#[trigger] next[k]);
                    assert(shows_less(seen[k]));
                }
                if any_more(next) && !shows_more(steps@[i as int]) {
                    let k = choose|k: int| 0 <= k < next.len() && shows_more(#[trigger] next[k]);
                    assert(shows_more(seen[k]));
                }
            }
            match steps[i] {
                Joined::Left(_) => {
                    more = true;
                },
                Joined::Both(x, y) => {
                    if x < y {
                        less = true;
                    } else if x > y {
                        more = true;
                    }
                },
                Joined::Right(_) => {
                    less = true;
                },
            }
            i += 1;
        }
        proof {
            assert(steps@.take(i as int) =~= steps@);
        }
        if less && more {
            ClockRelation::Concurrent
        } else if less {
            ClockRelation::Before
        } else if more {
            ClockRelation::After
        } else {
            ClockRelation::Same
        }
    }
}

impl Clone for VectorClock {
    fn clone(&self) -> (res: Self)
        ensures
            res@ == self@,
    {
        proof {
            use_type_invariant(self);
        }
        let mut inner: Vec<(String, usize)> = Vec::new();
        let mut i: usize = 0;
        while i < self.inner.len()
            invariant
                i <= self.inner.len(),
                pairs(inner@) == pairs(self.inner@).take(i as int),
            decreases self.inner.len() - i,
        {
            let ghost before = pairs(inner@);
            inner.push((self.inner[i].0.clone(), self.inner[i].1));
            proof {
                assert(pairs(inner@) =~= before.push(pairs(self.inner@)[i as int]));
                assert(pairs(self.inner@).take(i + 1) =~= pairs(self.inner@).take(i as int).push(
                    pairs(self.inner@)[i as int],
                ));
            }
            i += 1;
        }
        proof {
            assert(pairs(self.inner@).take(i as int) =~= pairs(self.inner@));
        }
        VectorClock { inner }
    }
}

impl PartialEq for VectorClock {
    fn eq(&self, other: &Self) -> (res: bool) {
        if self.inner.len() != other.inner.len() {
            assert(self@.len() != other@.len());
            return false;
        }
        let mut i: usize = 0;
        while i < self.inner.len()
            invariant
                self.inner.len() == other.inner.len(),
                i <= self.inner.len(),
                self@.take(i as int) == other@.take(i as int),
            decreases self.inner.len() - i,
        {
            proof {
                assert(self@[i as int] == (self.inner@[i as int].0@, self.inner@[i as int].1));
                assert(other@[i as int] == (other.inner@[i as int].0@, other.inner@[i as int].1));
                crate::lexical::lemma_lex_irreflexive(self@[i as int].0);
            }
            if self.inner[i].1 != other.inner[i].1 || string_sign(
                self.inner[i].0.as_str(),
                other.inner[i].0.as_str(),
            ) != 0 {
                return false;
            }
            proof {
                assert(self@.take(i + 1) =~= self@.take(i as int).push(self@[i as int]));
                assert(other@.take(i + 1) =~= other@.take(i as int).push(other@[i as int]));
            }
            i += 1;
        }
        proof {
            assert(self@.take(i as int) =~= self@);
            assert(other@.take(i as int) =~= other@);
        }
        true
    }
}

impl vstd::std_specs::cmp::PartialEqSpecImpl for VectorClock {
    open spec fn obeys_eq_spec() -> bool {
        true
    }

    open spec fn eq_spec(&self, other: &Self) -> bool {
        self@ == other@
    }
}

/// The result of a comparison that a relation between two clocks stands for.
pub open spec fn relation_order(relation: ClockRelation) -> Option<Ordering> {
    match relation {
        ClockRelation::Before => Some(Ordering::Less),
        ClockRelation::Same => Some(Ordering::Equal),
        ClockRelation::After => Some(Ordering::Greater),
        ClockRelation::Concurrent => None,
    }
}

impl PartialOrd for VectorClock {
    fn partial_cmp(&self, other: &Self) -> (res: Option<Ordering>) {
        match self.relate(other) {
            ClockRelation::Before => Some(Ordering::Less),
            ClockRelation::Same => Some(Ordering::Equal),
            ClockRelation::After => Some(Ordering::Greater),
            ClockRelation::Concurrent => None,
        }
    }
}

impl vstd::std_specs::cmp::PartialOrdSpecImpl for VectorClock {
    open spec fn obeys_partial_cmp_spec() -> bool {
        true
    }

    open spec fn partial_cmp_spec(&self, other: &Self) -> Option<Ordering> {
        relation_order(relation(self@, other@))
    }
}

} // verus!
