use crate::lexical::{
    lemma_lex_asymmetric, lemma_lex_irreflexive, lemma_lex_total, lemma_lex_transitive,
};
use crate::pcte::model::{insert_position, key_before, PcteView, SortKey};
use vstd::prelude::*;

verus! {

/// Of two keys at most one comes before the other.
pub proof fn lemma_key_asymmetric(a: SortKey, b: SortKey)
    ensures
        !(key_before(a, b) && key_before(b, a)),
{
    lemma_lex_asymmetric(a.id.0, b.id.0);
    lemma_lex_irreflexive(a.id.0);
}

/// If `x` does not come before `b` and `b` does not come before `a`, then `x` does not
/// come before `a`.
pub proof fn lemma_key_stays_behind(x: SortKey, b: SortKey, a: SortKey)
    requires
        !key_before(x, b),
        !key_before(b, a),
    ensures
        !key_before(x, a),
{
    lemma_lex_total(x.id.0, b.id.0);
    lemma_lex_total(b.id.0, a.id.0);
    lemma_lex_irreflexive(x.id.0);
    lemma_lex_irreflexive(a.id.0);
    lemma_lex_asymmetric(x.id.0, a.id.0);
    if lex_before(b, x) && lex_before(a, b) {
        lemma_lex_transitive(a.id.0, b.id.0, x.id.0);
    }
}

/// Whether the name of `a` is below the name of `b`.
pub open spec fn lex_before(a: SortKey, b: SortKey) -> bool {
    crate::lexical::lex_lt(a.id.0, b.id.0)
}

/// Whether no key comes before a key that stands before it.
pub open spec fn in_order(keys: Seq<SortKey>) -> bool {
    forall|i: int, j: int| 0 <= i < j < keys.len() ==> !key_before(#[trigger] keys[j], #[trigger] keys[i])
}

/// Where a key is put among keys that are in order, it comes before all keys behind
/// it and before none of the keys in front of it.
pub proof fn lemma_insert_position(keys: Seq<SortKey>, x: SortKey)
    requires
        in_order(keys),
    ensures
        0 <= insert_position(keys, x) <= keys.len(),
        forall|j: int| insert_position(keys, x) <= j < keys.len() ==> key_before(x, #[trigger] keys[j]),
        forall|i: int| 0 <= i < insert_position(keys, x) ==> !key_before(x, #[trigger] keys[i]),
    decreases keys.len(),
{
    if keys.len() > 0 {
        let init = keys.drop_last();
        assert forall|i: int, j: int| 0 <= i < j < init.len() implies !key_before(
            #[trigger] init[j],
            #[trigger] init[i],
        ) by {
            assert(init[i] == keys[i] && init[j] == keys[j]);
        }
        if key_before(x, keys.last()) {
            lemma_insert_position(init, x);
            assert forall|j: int| insert_position(keys, x) <= j < keys.len() implies key_before(
                x,
                #[trigger] keys[j],
            ) by {
                if j < init.len() {
                    assert(init[j] == keys[j]);
                }
            }
            assert forall|i: int| 0 <= i < insert_position(keys, x) implies !key_before(
                x,
                #[trigger] keys[i],
            ) by {
                assert(init[i] == keys[i]);
            }
        } else {
            assert forall|i: int| 0 <= i < keys.len() implies !key_before(x, #[trigger] keys[i]) by {
                if i < keys.len() - 1 {
                    lemma_key_stays_behind(x, keys[keys.len() - 1], keys[i]);
                }
            }
        }
    }
}

impl PcteView {
    /// The order of the keys: in a sorted list no tree node comes before one that
    /// stands before it.
    pub proof fn lemma_sorted_in_order(self, list: Seq<int>)
        ensures
            in_order(self.sort_keys(self.sorted(list))),
            self.sorted(list).len() == list.len(),
            forall|x: int| #[trigger] self.sorted(list).contains(x) <==> list.contains(x),
        decreases list.len(),
    {
        self.lemma_sorted_len(list);
        self.lemma_sorted_members(list);
        if list.len() > 0 {
            let rest = self.sorted(list.drop_last());
            let x = self.sort_key(list.last());
            let keys = self.sort_keys(rest);
            let at = insert_position(keys, x);
            self.lemma_sorted_in_order(list.drop_last());
            lemma_insert_position(keys, x);
            let out = self.sort_keys(self.sorted(list));
            assert(out =~= keys.insert(at, x));
            assert forall|i: int, j: int| 0 <= i < j < out.len() implies !key_before(
                #[trigger] out[j],
                #[trigger] out[i],
            ) by {
                if j == at {
                    assert(out[i] == keys[i]);
                } else if i == at {
                    assert(out[j] == keys[j - 1]);
                    lemma_key_asymmetric(x, keys[j - 1]);
                } else {
                    let a = if i < at {
                        i
                    } else {
                        i - 1
                    };
                    let b = if j < at {
                        j
                    } else {
                        j - 1
                    };
                    assert(out[i] == keys[a] && out[j] == keys[b]);
                }
            }
        }
    }
}

} // verus!
