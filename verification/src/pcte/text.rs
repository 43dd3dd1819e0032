use crate::pcte::model::PcteView;
use vstd::prelude::*;

verus! {

impl PcteView {
    /// The visible tree nodes of a concatenation are those of its parts.
    pub proof fn lemma_visible_add(self, a: Seq<int>, b: Seq<int>)
        ensures
            self.visible(a + b) == self.visible(a) + self.visible(b),
    {
        Seq::filter_distributes_over_add(a, b, |t: int| self.shows(t));
    }

    /// The characters of a concatenation are those of its parts.
    pub proof fn lemma_chars_add(self, a: Seq<int>, b: Seq<int>)
        ensures
            self.chars_of(a + b) == self.chars_of(a) + self.chars_of(b),
    {
        self.lemma_visible_add(a, b);
        assert(self.chars_of(a + b) =~= self.chars_of(a) + self.chars_of(b));
    }

    /// A single tree node is visible if its character is still there.
    pub proof fn lemma_visible_one(self, t: int)
        ensures
            self.visible(seq![t]) == if self.shows(t) {
                seq![t]
            } else {
                Seq::<int>::empty()
            },
    {
        reveal_with_fuel(Seq::filter, 2);
        assert(seq![t].drop_last() =~= Seq::<int>::empty());
        assert(self.visible(seq![t]) =~= if self.shows(t) {
            seq![t]
        } else {
            Seq::<int>::empty()
        });
    }

    /// Nothing is visible in the empty sequence.
    pub proof fn lemma_visible_none(self)
        ensures
            self.visible(Seq::<int>::empty()) == Seq::<int>::empty(),
            self.chars_of(Seq::<int>::empty()) == Seq::<char>::empty(),
    {
        reveal_with_fuel(Seq::filter, 1);
        assert(self.chars_of(Seq::<int>::empty()) =~= Seq::<char>::empty());
    }

    /// A single tree node gives its character, if that is still there.
    pub proof fn lemma_chars_one(self, t: int)
        ensures
            self.chars_of(seq![t]) == match self.nodes[self.tree_nodes[t].node].character {
                Some(c) => seq![c],
                None => Seq::<char>::empty(),
            },
    {
        self.lemma_visible_one(t);
        assert(self.chars_of(seq![t]) =~= match self.nodes[self.tree_nodes[t].node].character {
            Some(c) => seq![c],
            None => Seq::<char>::empty(),
        });
    }
}

/// The `index`-th of `seen`, or by how much `index` exceeds the length of `seen`.
pub open spec fn pick(seen: Seq<int>, index: int) -> Result<int, int> {
    if 0 <= index < seen.len() {
        Ok(seen[index])
    } else {
        Err(index - seen.len())
    }
}

} // verus!
