use crate::lexical::{lemma_lex_asymmetric, lemma_lex_irreflexive, lemma_lex_transitive, lex_lt};
use vstd::prelude::*;

verus! {

/// A vector clock as specifications see it: its components, each a replica name with
/// a counter, in the order of the names.
pub type ClockView = Seq<(Seq<char>, usize)>;

/// The names grow strictly from one component to the next.
pub open spec fn sorted(c: ClockView) -> bool {
    forall|i: int, j: int| 0 <= i < j < c.len() ==> lex_lt(#[trigger] c[i].0, #[trigger] c[j].0)
}

/// The counter that the clock holds for `name`, if it holds one.
pub open spec fn get(c: ClockView, name: Seq<char>) -> Option<usize>
    decreases c.len(),
{
    if c.len() == 0 {
        None
    } else if c[0].0 == name {
        Some(c[0].1)
    } else {
        get(c.drop_first(), name)
    }
}

/// Whether `a` is below or equal to `b`: every name of `a` is a name of `b`, with a
/// counter that is at least as large.
pub open spec fn le(a: ClockView, b: ClockView) -> bool {
    forall|name: Seq<char>| #[trigger] covered(a, b, name)
}

/// Whether `b` holds for `name` at least what `a` holds for it.
pub open spec fn covered(a: ClockView, b: ClockView, name: Seq<char>) -> bool {
    get(a, name) matches Some(x) ==> (get(b, name) matches Some(y) && x <= y)
}

/// How two clocks stand to each other.
#[derive(Debug, Clone, Copy, PartialEq, Eq, Structural)]
pub enum ClockRelation {
    /// The first is below the second.
    Before,
    /// Both hold the same names with the same counters.
    Same,
    /// The second is below the first.
    After,
    /// Each holds something that the other lacks or has smaller.
    Concurrent,
}

/// How `a` stands to `b`.
pub open spec fn relation(a: ClockView, b: ClockView) -> ClockRelation {
    if le(a, b) && le(b, a) {
        ClockRelation::Same
    } else if le(a, b) {
        ClockRelation::Before
    } else if le(b, a) {
        ClockRelation::After
    } else {
        ClockRelation::Concurrent
    }
}

/// One step of walking two clocks side by side in the order of the names: a counter
/// that only the first holds, one that both hold, or one that only the second holds.
#[derive(Debug, Clone, Copy, PartialEq, Eq, Structural)]
pub enum Joined {
    Left(usize),
    Both(usize, usize),
    Right(usize),
}

/// The walk through two clocks side by side: at each step the smaller of the two next
/// names goes out alone and leaves its clock, and a name that is next in both goes out
/// once and leaves both.
pub open spec fn joined(a: ClockView, b: ClockView) -> Seq<Joined>
    decreases a.len() + b.len(),
{
    if a.len() == 0 && b.len() == 0 {
        Seq::empty()
    } else if b.len() == 0 {
        seq![Joined::Left(a[0].1)] + joined(a.drop_first(), b)
    } else if a.len() == 0 {
        seq![Joined::Right(b[0].1)] + joined(a, b.drop_first())
    } else if lex_lt(a[0].0, b[0].0) {
        seq![Joined::Left(a[0].1)] + joined(a.drop_first(), b)
    } else if a[0].0 == b[0].0 {
        seq![Joined::Both(a[0].1, b[0].1)] + joined(a.drop_first(), b.drop_first())
    } else {
        seq![Joined::Right(b[0].1)] + joined(a, b.drop_first())
    }
}

/// Whether a step shows that the first clock is not below the second.
pub open spec fn shows_more(step: Joined) -> bool {
    match step {
        Joined::Left(_) => true,
        Joined::Both(x, y) => x > y,
        Joined::Right(_) => false,
    }
}

/// Whether a step shows that the second clock is not below the first.
pub open spec fn shows_less(step: Joined) -> bool {
    match step {
        Joined::Left(_) => false,
        Joined::Both(x, y) => x < y,
        Joined::Right(_) => true,
    }
}

/// Whether some step shows that the first clock is not below the second.
pub open spec fn any_more(steps: Seq<Joined>) -> bool {
    exists|i: int| 0 <= i < steps.len() && shows_more(#[trigger] steps[i])
}

/// Whether some step shows that the second clock is not below the first.
pub open spec fn any_less(steps: Seq<Joined>) -> bool {
    exists|i: int| 0 <= i < steps.len() && shows_less(#[trigger] steps[i])
}

/// The larger of two counters.
pub open spec fn larger(x: usize, y: usize) -> usize {
    if x >= y {
        x
    } else {
        y
    }
}

/// The clock that holds every name of `a` or `b`, with the larger counter where both
/// hold the name.
pub open spec fn merged(a: ClockView, b: ClockView) -> ClockView
    decreases a.len() + b.len(),
{
    if a.len() == 0 {
        b
    } else if b.len() == 0 {
        a
    } else if lex_lt(a[0].0, b[0].0) {
        seq![a[0]] + merged(a.drop_first(), b)
    } else if a[0].0 == b[0].0 {
        seq![(a[0].0, larger(a[0].1, b[0].1))] + merged(a.drop_first(), b.drop_first())
    } else {
        seq![b[0]] + merged(a, b.drop_first())
    }
}

/// A sorted clock without its first component is sorted.
pub proof fn lemma_sorted_rest(c: ClockView)
    requires
        sorted(c),
        c.len() > 0,
    ensures
        sorted(c.drop_first()),
{
    let rest = c.drop_first();
    assert forall|i: int, j: int| 0 <= i < j < rest.len() implies lex_lt(
        #[trigger] rest[i].0,
        #[trigger] rest[j].0,
    ) by {
        assert(rest[i] == c[i + 1]);
        assert(rest[j] == c[j + 1]);
    }
}

/// A sorted clock holds no name below its first.
pub proof fn lemma_get_below_first(c: ClockView, name: Seq<char>)
    requires
        sorted(c),
        c.len() > 0,
        lex_lt(name, c[0].0) || name == c[0].0,
    ensures
        get(c.drop_first(), name) is None,
    decreases c.len(),
{
    let rest = c.drop_first();
    if rest.len() > 0 {
        assert(rest[0] == c[1]);
        lemma_sorted_rest(c);
        if name == c[0].0 {
            lemma_lex_irreflexive(name);
        } else {
            lemma_lex_transitive(name, c[0].0, c[1].0);
            lemma_lex_irreflexive(name);
        }
        lemma_get_below_first(rest, name);
    }
}

/// Walking two sorted clocks side by side shows exactly where one is not below the
/// other.
pub proof fn lemma_joined_shows(a: ClockView, b: ClockView)
    requires
        sorted(a),
        sorted(b),
    ensures
        any_more(joined(a, b)) <==> !le(a, b),
        any_less(joined(a, b)) <==> !le(b, a),
    decreases a.len() + b.len(),
{
    let steps = joined(a, b);
    if a.len() == 0 && b.len() == 0 {
    } else {
        let left_only = b.len() == 0 || (a.len() > 0 && lex_lt(a[0].0, b[0].0));
        let both = a.len() > 0 && b.len() > 0 && !left_only && a[0].0 == b[0].0;
        let (a2, b2) = if left_only {
            (a.drop_first(), b)
        } else if both {
            (a.drop_first(), b.drop_first())
        } else {
            (a, b.drop_first())
        };
        let rest = joined(a2, b2);
        if a.len() > 0 {
            lemma_sorted_rest(a);
        }
        if b.len() > 0 {
            lemma_sorted_rest(b);
        }
        lemma_joined_shows(a2, b2);
        assert(steps == seq![steps[0]] + rest);
        assert forall|i: int| 0 <= i < rest.len() implies rest[i] == steps[i + 1] by {}
        assert(any_more(steps) <==> (shows_more(steps[0]) || any_more(rest))) by {
            if any_more(rest) {
                let i = choose|i: int| 0 <= i < rest.len() && shows_more(#[trigger] rest[i]);
                assert(shows_more(steps[i + 1]));
            }
            if any_more(steps) {
                let i = choose|i: int| 0 <= i < steps.len() && shows_more(#[trigger] steps[i]);
                if i > 0 {
                    assert(shows_more(rest[i - 1]));
                }
            }
        }
        assert(any_less(steps) <==> (shows_less(steps[0]) || any_less(rest))) by {
            if any_less(rest) {
                let i = choose|i: int| 0 <= i < rest.len() && shows_less(#[trigger] rest[i]);
                assert(shows_less(steps[i + 1]));
            }
            if any_less(steps) {
                let i = choose|i: int| 0 <= i < steps.len() && shows_less(#[trigger] steps[i]);
                if i > 0 {
                    assert(shows_less(rest[i - 1]));
                }
            }
        }
        if left_only {
            // a[0] is a name that b lacks.
            let name = a[0].0;
            if b.len() > 0 {
                lemma_get_below_first(b, name);
                lemma_lex_irreflexive(name);
            }
            assert(get(b, name) is None);
            assert(!covered(a, b, name));
            lemma_get_below_first(a, name);
            assert forall|other: Seq<char>| #[trigger] covered(b, a, other) == covered(
                b,
                a2,
                other,
            ) by {}
            lemma_le_same(b, a, b, a2);
        } else if both {
            let name = a[0].0;
            lemma_get_below_first(a, name);
            lemma_get_below_first(b, name);
            assert(covered(a, b, name) == (a[0].1 <= b[0].1));
            assert(covered(b, a, name) == (b[0].1 <= a[0].1));
            assert(covered(a2, b2, name));
            assert(covered(b2, a2, name));
            assert forall|other: Seq<char>| other != name implies #[trigger] covered(a, b, other)
                == covered(a2, b2, other) by {}
            assert forall|other: Seq<char>| other != name implies #[trigger] covered(b, a, other)
                == covered(b2, a2, other) by {}
            lemma_le_but_one(a, b, a2, b2, name);
            lemma_le_but_one(b, a, b2, a2, name);
        } else {
            // b[0] is a name that a lacks.
            let name = b[0].0;
            if a.len() > 0 {
                crate::lexical::lemma_lex_total(a[0].0, b[0].0);
                lemma_get_below_first(a, name);
                lemma_lex_irreflexive(name);
                lemma_lex_asymmetric(a[0].0, name);
            }
            assert(get(a, name) is None);
            assert(!covered(b, a, name));
            lemma_get_below_first(b, name);
            assert forall|other: Seq<char>| #[trigger] covered(a, b, other) == covered(
                a,
                b2,
                other,
            ) by {}
            lemma_le_same(a, b, a, b2);
        }
    }
}

/// Two pairs of clocks that agree name by name on what is covered agree on `le`.
pub proof fn lemma_le_same(a: ClockView, b: ClockView, c: ClockView, d: ClockView)
    requires
        forall|name: Seq<char>| #[trigger] covered(a, b, name) == covered(c, d, name),
    ensures
        le(a, b) == le(c, d),
{
    if le(a, b) {
        assert forall|name: Seq<char>| #[trigger] covered(c, d, name) by {
            assert(covered(a, b, name));
        }
    }
    if le(c, d) {
        assert forall|name: Seq<char>| #[trigger] covered(a, b, name) by {
            assert(covered(c, d, name));
        }
    }
}

/// Two pairs of clocks that agree on what is covered for every name but one, which
/// the second pair covers, agree on `le` as far as that name allows.
pub proof fn lemma_le_but_one(
    a: ClockView,
    b: ClockView,
    c: ClockView,
    d: ClockView,
    name: Seq<char>,
)
    requires
        covered(c, d, name),
        forall|other: Seq<char>|
            other != name ==> #[trigger] covered(a, b, other) == covered(c, d, other),
    ensures
        le(a, b) == (covered(a, b, name) && le(c, d)),
{
    if le(a, b) {
        assert(covered(a, b, name));
        assert forall|other: Seq<char>| #[trigger] covered(c, d, other) by {
            assert(covered(a, b, other));
        }
    }
    if covered(a, b, name) && le(c, d) {
        assert forall|other: Seq<char>| #[trigger] covered(a, b, other) by {
            assert(covered(c, d, other));
        }
    }
}

/// Whether `name` is below every name of the clock.
pub open spec fn below_all(name: Seq<char>, c: ClockView) -> bool {
    forall|i: int| 0 <= i < c.len() ==> lex_lt(name, #[trigger] c[i].0)
}

/// In a sorted clock the first name is below all that follow.
pub proof fn lemma_first_below_rest(c: ClockView)
    requires
        sorted(c),
        c.len() > 0,
    ensures
        below_all(c[0].0, c.drop_first()),
{
    let rest = c.drop_first();
    assert forall|i: int| 0 <= i < rest.len() implies lex_lt(c[0].0, #[trigger] rest[i].0) by {
        assert(rest[i] == c[i + 1]);
    }
}

/// A name below the first name of a sorted clock is below all its names.
pub proof fn lemma_below_first_below_all(name: Seq<char>, c: ClockView)
    requires
        sorted(c),
        c.len() > 0,
        lex_lt(name, c[0].0),
    ensures
        below_all(name, c),
{
    assert forall|i: int| 0 <= i < c.len() implies lex_lt(name, #[trigger] c[i].0) by {
        if i > 0 {
            lemma_lex_transitive(name, c[0].0, c[i].0);
        }
    }
}

/// A clock with a component in front whose name is below all its names is sorted.
pub proof fn lemma_sorted_cons(head: (Seq<char>, usize), rest: ClockView)
    requires
        sorted(rest),
        below_all(head.0, rest),
    ensures
        sorted(seq![head] + rest),
{
    let c = seq![head] + rest;
    assert forall|i: int, j: int| 0 <= i < j < c.len() implies lex_lt(
        #[trigger] c[i].0,
        #[trigger] c[j].0,
    ) by {
        assert(c[j] == rest[j - 1]);
        if i > 0 {
            assert(c[i] == rest[i - 1]);
        }
    }
}

/// Merging two sorted clocks gives a sorted clock, and a name below all names of both
/// is below all names of what they merge to.
pub proof fn lemma_merged_sorted(a: ClockView, b: ClockView, name: Seq<char>)
    requires
        sorted(a),
        sorted(b),
    ensures
        sorted(merged(a, b)),
        below_all(name, a) && below_all(name, b) ==> below_all(name, merged(a, b)),
    decreases a.len() + b.len(),
{
    if a.len() == 0 || b.len() == 0 {
    } else {
        lemma_sorted_rest(a);
        lemma_sorted_rest(b);
        lemma_first_below_rest(a);
        lemma_first_below_rest(b);
        let m = merged(a, b);
        if lex_lt(a[0].0, b[0].0) {
            let rest = merged(a.drop_first(), b);
            lemma_below_first_below_all(a[0].0, b);
            lemma_merged_sorted(a.drop_first(), b, a[0].0);
            lemma_merged_sorted(a.drop_first(), b, name);
            lemma_sorted_cons(a[0], rest);
            if below_all(name, a) && below_all(name, b) {
                assert(below_all(name, a.drop_first())) by {
                    assert forall|i: int| 0 <= i < a.drop_first().len() implies lex_lt(
                        name,
                        #[trigger] a.drop_first()[i].0,
                    ) by {
                        assert(a.drop_first()[i] == a[i + 1]);
                    }
                }
                assert forall|i: int| 0 <= i < m.len() implies lex_lt(name, #[trigger] m[i].0) by {
                    if i > 0 {
                        assert(m[i] == rest[i - 1]);
                    } else {
                        assert(m[0] == a[0]);
                    }
                }
            }
        } else if a[0].0 == b[0].0 {
            let rest = merged(a.drop_first(), b.drop_first());
            let head = (a[0].0, larger(a[0].1, b[0].1));
            lemma_merged_sorted(a.drop_first(), b.drop_first(), a[0].0);
            lemma_merged_sorted(a.drop_first(), b.drop_first(), name);
            lemma_sorted_cons(head, rest);
            if below_all(name, a) && below_all(name, b) {
                assert(below_all(name, a.drop_first())) by {
                    assert forall|i: int| 0 <= i < a.drop_first().len() implies lex_lt(
                        name,
                        #[trigger] a.drop_first()[i].0,
                    ) by {
                        assert(a.drop_first()[i] == a[i + 1]);
                    }
                }
                assert(below_all(name, b.drop_first())) by {
                    assert forall|i: int| 0 <= i < b.drop_first().len() implies lex_lt(
                        name,
                        #[trigger] b.drop_first()[i].0,
                    ) by {
                        assert(b.drop_first()[i] == b[i + 1]);
                    }
                }
                assert forall|i: int| 0 <= i < m.len() implies lex_lt(name, #[trigger] m[i].0) by {
                    if i > 0 {
                        assert(m[i] == rest[i - 1]);
                    } else {
                        assert(m[0].0 == a[0].0);
                    }
                }
            }
        } else {
            let rest = merged(a, b.drop_first());
            crate::lexical::lemma_lex_total(a[0].0, b[0].0);
            lemma_below_first_below_all(b[0].0, a);
            lemma_merged_sorted(a, b.drop_first(), b[0].0);
            lemma_merged_sorted(a, b.drop_first(), name);
            lemma_sorted_cons(b[0], rest);
            if below_all(name, a) && below_all(name, b) {
                assert(below_all(name, b.drop_first())) by {
                    assert forall|i: int| 0 <= i < b.drop_first().len() implies lex_lt(
                        name,
                        #[trigger] b.drop_first()[i].0,
                    ) by {
                        assert(b.drop_first()[i] == b[i + 1]);
                    }
                }
                assert forall|i: int| 0 <= i < m.len() implies lex_lt(name, #[trigger] m[i].0) by {
                    if i > 0 {
                        assert(m[i] == rest[i - 1]);
                    } else {
                        assert(m[0] == b[0]);
                    }
                }
            }
        }
    }
}

/// What two clocks merged hold for a name, from what each holds for it.
pub open spec fn either_larger(x: Option<usize>, y: Option<usize>) -> Option<usize> {
    match (x, y) {
        (Some(p), Some(q)) => Some(larger(p, q)),
        (Some(p), None) => Some(p),
        (None, q) => q,
    }
}

/// Two sorted clocks merged hold for each name the larger of what the two hold.
pub proof fn lemma_merged_get(a: ClockView, b: ClockView, name: Seq<char>)
    requires
        sorted(a),
        sorted(b),
    ensures
        get(merged(a, b), name) == either_larger(get(a, name), get(b, name)),
    decreases a.len() + b.len(),
{
    if a.len() == 0 || b.len() == 0 {
    } else {
        lemma_sorted_rest(a);
        lemma_sorted_rest(b);
        let m = merged(a, b);
        if lex_lt(a[0].0, b[0].0) {
            let rest = merged(a.drop_first(), b);
            lemma_merged_get(a.drop_first(), b, name);
            assert(m.drop_first() =~= rest);
            assert(m[0] == a[0]);
            if name == a[0].0 {
                lemma_get_below_first(b, name);
                lemma_lex_irreflexive(name);
            }
        } else if a[0].0 == b[0].0 {
            let rest = merged(a.drop_first(), b.drop_first());
            lemma_merged_get(a.drop_first(), b.drop_first(), name);
            assert(m.drop_first() =~= rest);
            assert(m[0] == (a[0].0, larger(a[0].1, b[0].1)));
        } else {
            let rest = merged(a, b.drop_first());
            lemma_merged_get(a, b.drop_first(), name);
            assert(m.drop_first() =~= rest);
            assert(m[0] == b[0]);
            if name == b[0].0 {
                crate::lexical::lemma_lex_total(a[0].0, b[0].0);
                lemma_get_below_first(a, name);
                lemma_lex_irreflexive(name);
                lemma_lex_asymmetric(a[0].0, name);
            }
        }
    }
}

/// The clock with the counter of `name` raised by one.
pub open spec fn raised(c: ClockView, name: Seq<char>) -> ClockView {
    c.map_values(
        |p: (Seq<char>, usize)|
            if p.0 == name {
                (p.0, (p.1 + 1) as usize)
            } else {
                p
            },
    )
}

/// Raising the counter of a name changes what the clock holds for that name alone.
pub proof fn lemma_raised_get(c: ClockView, name: Seq<char>, other: Seq<char>)
    ensures
        get(raised(c, name), other) == match get(c, other) {
            Some(x) => if other == name {
                Some((x + 1) as usize)
            } else {
                Some(x)
            },
            None => None,
        },
    decreases c.len(),
{
    if c.len() > 0 {
        assert(raised(c, name).drop_first() =~= raised(c.drop_first(), name));
        lemma_raised_get(c.drop_first(), name, other);
    }
}

/// A sorted clock holds for the name of each of its components the counter of that
/// component.
pub proof fn lemma_get_at(c: ClockView, k: int)
    requires
        sorted(c),
        0 <= k < c.len(),
    ensures
        get(c, c[k].0) == Some(c[k].1),
    decreases k,
{
    if k > 0 {
        lemma_sorted_rest(c);
        lemma_lex_irreflexive(c[k].0);
        assert(c.drop_first()[k - 1] == c[k]);
        lemma_get_at(c.drop_first(), k - 1);
    }
}

} // verus!
