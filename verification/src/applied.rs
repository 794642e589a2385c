//! The signatures already folded in: a sorted list without repetitions.

use crate::bytes::{
    lemma_lex_irreflexive, lemma_lex_total, lemma_lex_transitive, lex_lt, precedes, same,
};
use vstd::prelude::*;

verus! {

/// A set of signatures.
pub struct AppliedSet {
    sigs: Vec<Vec<u8>>,
}

impl View for AppliedSet {
    type V = Set<Seq<u8>>;

    closed spec fn view(&self) -> Set<Seq<u8>> {
        self.listed().to_set()
    }
}

impl AppliedSet {
    /// The signatures as they are stored.
    spec fn listed(&self) -> Seq<Seq<u8>> {
        Seq::new(self.sigs@.len(), |i: int| self.sigs@[i]@)
    }

    /// The list is strictly ascending, so that nothing occurs twice.
    pub closed spec fn wf(&self) -> bool {
        forall|i: int, j: int|
            0 <= i < j < self.listed().len() ==> lex_lt(
                #[trigger] self.listed()[i],
                #[trigger] self.listed()[j],
            )
    }

    proof fn lemma_no_duplicates(&self)
        requires
            self.wf(),
        ensures
            self.listed().no_duplicates(),
    {
        assert forall|i: int, j: int|
            0 <= i < self.listed().len() && 0 <= j < self.listed().len() && i
                != j implies self.listed()[i] != self.listed()[j] by {
            lemma_lex_irreflexive(self.listed()[i]);
            if i < j {
                assert(lex_lt(self.listed()[i], self.listed()[j]));
            } else {
                assert(lex_lt(self.listed()[j], self.listed()[i]));
            }
        }
    }

    /// No signatures.
    pub fn new() -> (r: Self)
        ensures
            r.wf(),
            r@ == Set::<Seq<u8>>::empty(),
    {
        let r = AppliedSet { sigs: Vec::new() };
        assert(r@ =~= Set::<Seq<u8>>::empty());
        r
    }

    /// The first place whose signature does not precede `s`.
    fn position(&self, s: &[u8]) -> (p: usize)
        requires
            self.wf(),
        ensures
            p <= self.listed().len(),
            forall|i: int| 0 <= i < p ==> lex_lt(#[trigger] self.listed()[i], s@),
            forall|i: int|
                p <= i < self.listed().len() ==> !lex_lt(#[trigger] self.listed()[i], s@),
    {
        let mut lo: usize = 0;
        let mut hi: usize = self.sigs.len();
        while lo < hi
            invariant
                self.wf(),
                lo <= hi <= self.listed().len(),
                self.listed().len() == self.sigs@.len(),
                forall|i: int| 0 <= i < lo ==> lex_lt(#[trigger] self.listed()[i], s@),
                forall|i: int|
                    hi <= i < self.listed().len() ==> !lex_lt(#[trigger] self.listed()[i], s@),
            decreases hi - lo,
        {
            let mid: usize = lo + (hi - lo) / 2;
            let before = precedes(self.sigs[mid].as_slice(), s);
            assert(self.listed()[mid as int] == self.sigs@[mid as int]@);
            if before {
                assert forall|i: int| 0 <= i < mid + 1 implies lex_lt(
                    #[trigger] self.listed()[i],
                    s@,
                ) by {
                    if i < mid {
                        lemma_lex_transitive(self.listed()[i], self.listed()[mid as int], s@);
                    }
                }
                lo = mid + 1;
            } else {
                assert forall|i: int| mid <= i < self.listed().len() implies !lex_lt(
                    #[trigger] self.listed()[i],
                    s@,
                ) by {
                    if mid < i && lex_lt(self.listed()[i], s@) {
                        lemma_lex_transitive(self.listed()[mid as int], self.listed()[i], s@);
                    }
                }
                hi = mid;
            }
        }
        lo
    }

    /// Whether the list holds `s` at the place where it belongs.
    fn holds_at(&self, p: usize, s: &[u8]) -> (r: bool)
        requires
            self.wf(),
            p <= self.listed().len(),
            forall|i: int| 0 <= i < p ==> lex_lt(#[trigger] self.listed()[i], s@),
            forall|i: int|
                p <= i < self.listed().len() ==> !lex_lt(#[trigger] self.listed()[i], s@),
        ensures
            r == self@.contains(s@),
            r ==> p < self.listed().len(),
    {
        if p < self.sigs.len() && same(self.sigs[p].as_slice(), s) {
            assert(self.listed()[p as int] == s@);
            return true;
        }
        proof {
            if self@.contains(s@) {
                let i = choose|i: int| 0 <= i < self.listed().len() && self.listed()[i] == s@;
                lemma_lex_irreflexive(s@);
                assert(p <= i);
                if p < i {
                    assert(lex_lt(self.listed()[p as int], self.listed()[i]));
                }
                assert(self.listed()[p as int] == self.sigs@[p as int]@);
            }
        }
        false
    }

    /// Whether `s` is in the set.
    pub fn contains(&self, s: &[u8]) -> (r: bool)
        requires
            self.wf(),
        ensures
            r == self@.contains(s@),
    {
        self.holds_at(self.position(s), s)
    }

    /// Put `s` in the set; whether it was not there before.
    pub fn insert(&mut self, s: Vec<u8>) -> (r: bool)
        requires
            old(self).wf(),
        ensures
            final(self).wf(),
            final(self)@ == old(self)@.insert(s@),
            r == !old(self)@.contains(s@),
    {
        let p: usize = self.position(s.as_slice());
        let held = self.holds_at(p, s.as_slice());
        if held {
            assert(self@ =~= old(self)@.insert(s@));
            return false;
        }
        let ghost before = self.listed();
        let ghost added = s@;
        proof {
            assert forall|i: int| p <= i < before.len() implies lex_lt(
                added,
                #[trigger] before[i],
            ) by {
                lemma_lex_total(before[i], added);
                assert(before.to_set().contains(before[i]));
            }
        }
        self.sigs.insert(p, s);
        proof {
            let after = self.listed();
            assert(after =~= before.insert(p as int, added));
            assert(self.wf());
            assert forall|x: Seq<u8>| after.to_set().contains(x) == before.to_set().insert(
                added,
            ).contains(x) by {
                if after.contains(x) {
                    let i = choose|i: int| 0 <= i < after.len() && after[i] == x;
                    if i < p {
                        assert(before[i] == x);
                    } else if i > p {
                        assert(before[i - 1] == x);
                    }
                }
                if before.contains(x) {
                    let i = choose|i: int| 0 <= i < before.len() && before[i] == x;
                    if i < p {
                        assert(after[i] == x);
                    } else {
                        assert(after[i + 1] == x);
                    }
                }
                assert(after[p as int] == added);
            }
            assert(self@ =~= old(self)@.insert(added));
        }
        true
    }

    /// How many signatures are in the set.
    pub fn len(&self) -> (r: usize)
        requires
            self.wf(),
        ensures
            r == self@.len(),
            self@.finite(),
    {
        proof {
            self.lemma_no_duplicates();
            self.listed().unique_seq_to_set();
        }
        self.sigs.len()
    }
}

} // verus!
