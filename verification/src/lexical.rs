use vstd::prelude::*;
use vstd::std_specs::iter::IteratorSpec;
use vstd::string::*;

verus! {

/// Strict lexicographic order on character sequences, by code point.
pub open spec fn lex_lt(a: Seq<char>, b: Seq<char>) -> bool
    decreases a.len(),
{
    if b.len() == 0 {
        false
    } else if a.len() == 0 {
        true
    } else if a[0] != b[0] {
        a[0] < b[0]
    } else {
        lex_lt(a.drop_first(), b.drop_first())
    }
}

/// No sequence is below itself.
pub proof fn lemma_lex_irreflexive(a: Seq<char>)
    ensures
        !lex_lt(a, a),
    decreases a.len(),
{
    if a.len() > 0 {
        lemma_lex_irreflexive(a.drop_first());
    }
}

/// Two different sequences are ordered one way or the other.
pub proof fn lemma_lex_total(a: Seq<char>, b: Seq<char>)
    ensures
        lex_lt(a, b) || lex_lt(b, a) || a == b,
    decreases a.len(),
{
    if a.len() == 0 || b.len() == 0 {
        if a.len() == 0 && b.len() == 0 {
            assert(a =~= b);
        }
    } else if a[0] == b[0] {
        lemma_lex_total(a.drop_first(), b.drop_first());
        if a.drop_first() == b.drop_first() {
            assert(a =~= seq![a[0]] + a.drop_first());
            assert(b =~= seq![b[0]] + b.drop_first());
        }
    }
}

/// The order never holds in both directions.
pub proof fn lemma_lex_asymmetric(a: Seq<char>, b: Seq<char>)
    ensures
        !(lex_lt(a, b) && lex_lt(b, a)),
    decreases a.len(),
{
    if a.len() > 0 && b.len() > 0 && a[0] == b[0] {
        lemma_lex_asymmetric(a.drop_first(), b.drop_first());
    }
}

/// The order is transitive.
pub proof fn lemma_lex_transitive(a: Seq<char>, b: Seq<char>, c: Seq<char>)
    requires
        lex_lt(a, b),
        lex_lt(b, c),
    ensures
        lex_lt(a, c),
    decreases a.len(),
{
    if a.len() > 0 && b.len() > 0 && c.len() > 0 && a[0] == b[0] && b[0] == c[0] {
        lemma_lex_transitive(a.drop_first(), b.drop_first(), c.drop_first());
    }
}

/// Three-way result of comparing two character sequences: `-1`, `0` or `1`.
pub open spec fn lex_sign(a: Seq<char>, b: Seq<char>) -> int {
    if lex_lt(a, b) {
        -1
    } else if a == b {
        0
    } else {
        1
    }
}

/// Compares two strings lexicographically by code point.
pub fn string_sign(a: &str, b: &str) -> (res: i8)
    ensures
        res as int == lex_sign(a@, b@),
{
    broadcast use group_string_axioms;

    let mut ia = a.chars();
    let mut ib = b.chars();
    let ghost mut ra: Seq<char> = a@;
    let ghost mut rb: Seq<char> = b@;
    loop
        invariant
            ia.remaining() == ra,
            ib.remaining() == rb,
            lex_sign(ra, rb) == lex_sign(a@, b@),
        decreases ra.len(),
    {
        let ghost pa = ia;
        let ghost pb = ib;
        let x = ia.next();
        let y = ib.next();
        match (x, y) {
            (None, None) => {
                proof {
                    assert(ra =~= rb);
                    lemma_lex_irreflexive(ra);
                }
                return 0;
            },
            (None, Some(_)) => {
                return -1;
            },
            (Some(_), None) => {
                proof {
                    assert(ra != rb);
                }
                return 1;
            },
            (Some(c), Some(d)) => {
                if c < d {
                    return -1;
                } else if d < c {
                    proof {
                        assert(ra != rb);
                    }
                    return 1;
                }
                proof {
                    assert(ra =~= seq![c] + ra.drop_first());
                    assert(rb =~= seq![d] + rb.drop_first());
                    if ra.drop_first() == rb.drop_first() {
                        assert(ra =~= rb);
                        lemma_lex_irreflexive(ra);
                        lemma_lex_irreflexive(ra.drop_first());
                    }
                    ra = ra.drop_first();
                    rb = rb.drop_first();
                }
            },
        }
    }
}

} // verus!
