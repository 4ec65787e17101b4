//! Comparing two subtrees word by word.
use super::{
    Path, TrieDataNode, assoc_eq,
};
use vstd::std_specs::cmp::PartialEqSpec;
use vstd::prelude::*;

verus! {

impl<D: PartialEq> TrieDataNode<D> {
    /// Both nodes hold the same words, with equal values.
    pub(crate) open spec fn same_words(self, other: Self) -> bool {
        forall|w: Path| assoc_eq(#[trigger] self.lookup(w), other.lookup(w))
    }

    /// Every word below this node has an empty list of values.
    pub(crate) open spec fn valueless(self) -> bool {
        forall|w: Path| #[trigger] self.lookup(w) is Some ==> self.lookup(w).unwrap().len() == 0
    }

    /// The comparison of the two subtrees is exact: the values compare as
    /// `eq_spec` says, or there are none to compare.
    pub(crate) open spec fn comparable(self, other: Self) -> bool {
        D::obeys_eq_spec() || (self.valueless() && other.valueless())
    }

    /// Compares two lists of values item by item.
    fn values_eq(a: &Vec<D>, b: &Vec<D>) -> (r: bool)
        ensures
            D::obeys_eq_spec() ==> r == assoc_eq(Some(a@), Some(b@)),
            a@.len() == 0 && b@.len() == 0 ==> r,
    {
        if a.len() != b.len() {
            return false;
        }
        let mut i: usize = 0;
        while i < a.len()
            invariant
                a@.len() == b@.len(),
                i <= a@.len(),
                D::obeys_eq_spec() ==> forall|k: int| 0 <= k < i ==> (#[trigger] a@[k]).eq_spec(&b@[k]),
            decreases a@.len() - i,
        {
            if !a[i].eq(&b[i]) {
                return false;
            }
            i = i + 1;
        }
        true
    }

    /// What is comparable at a node stays comparable at its children.
    pub(crate) proof fn lemma_child_comparable(a: Self, b: Self, i: int, k: int)
        requires
            a.wf(),
            b.wf(),
            a.comparable(b),
            0 <= i < a.children@.len(),
            0 <= k < b.children@.len(),
        ensures
            a.children@[i].1.comparable(b.children@[k].1),
    {
        if !D::obeys_eq_spec() {
            let c = a.children@[i].1;
            let d = b.children@[k].1;
            assert forall|w: Path|
                #[trigger] c.lookup(w) is Some implies c.lookup(w).unwrap().len() == 0 by {
                a.lemma_lookup_child(i, w);
                assert(a.lookup(seq![a.children@[i].0@] + w) is Some);
            }
            assert forall|w: Path|
                #[trigger] d.lookup(w) is Some implies d.lookup(w).unwrap().len() == 0 by {
                b.lemma_lookup_child(k, w);
                assert(b.lookup(seq![b.children@[k].0@] + w) is Some);
            }
        }
    }

    /// Whether the two subtrees have the same tokens at every level and
    /// equal associations, values compared by value.
    pub(crate) fn eq(&self, other: &Self) -> (r: bool)
        ensures
            self.wf() && other.wf() && self.comparable(*other) ==> r == self.same_words(*other),
        decreases self,
    {
        let e = Ghost(Seq::<Seq<char>>::empty());
        let assoc_ok = match (&self.word_end, &other.word_end) {
            (None, None) => true,
            (Some(a), Some(b)) => Self::values_eq(a, b),
            _ => false,
        };
        proof {
            if self.wf() && other.wf() && self.comparable(*other) && !D::obeys_eq_spec() {
                assert(self.lookup(e@) is Some ==> self.lookup(e@).unwrap().len() == 0);
                assert(other.lookup(e@) is Some ==> other.lookup(e@).unwrap().len() == 0);
            }
        }
        if !assoc_ok {
            proof {
                if self.wf() && other.wf() && self.comparable(*other) {
                    assert(!assoc_eq(self.lookup(e@), other.lookup(e@)));
                }
            }
            return false;
        }
        let mut j: usize = 0;
        while j < other.children.len()
            invariant
                j <= other.children@.len(),
                forall|k: int| 0 <= k < j ==> self.has_child((#[trigger] other.children@[k]).0@),
            decreases other.children@.len() - j,
        {
            if self.find_child(&other.children[j].0).is_none() {
                proof {
                    if self.wf() && other.wf() {
                        let t = other.children@[j as int].0@;
                        let w2 = other.children@[j as int].1.lemma_live_has_word();
                        other.lemma_lookup_child(j as int, w2);
                        let w = seq![t] + w2;
                        assert(w[0] == t);
                        assert(self.lookup(w) is None);
                        assert(!assoc_eq(self.lookup(w), other.lookup(w)));
                    }
                }
                return false;
            }
            j = j + 1;
        }
        let mut i: usize = 0;
        while i < self.children.len()
            invariant
                i <= self.children@.len(),
                forall|k: int| 0 <= k < other.children@.len() ==> self.has_child((#[trigger] other.children@[k]).0@),
                self.wf() && other.wf() && self.comparable(*other) ==> forall|k: int| 0 <= k < i ==> other.has_child((#[trigger] self.children@[k]).0@)
                    && self.children@[k].1.same_words(other.child(self.children@[k].0@)),
            decreases self.children@.len() - i,
        {
            match other.find_child(&self.children[i].0) {
                None => {
                    proof {
                        if self.wf() && other.wf() {
                            let t = self.children@[i as int].0@;
                            let w2 = self.children@[i as int].1.lemma_live_has_word();
                            self.lemma_lookup_child(i as int, w2);
                            let w = seq![t] + w2;
                            assert(w[0] == t);
                            assert(other.lookup(w) is None);
                            assert(!assoc_eq(self.lookup(w), other.lookup(w)));
                        }
                    }
                    return false;
                },
                Some(k) => {
                    proof {
                        if other.wf() {
                            other.lemma_child_at(k as int);
                        }
                    }
                    proof {
                        if self.wf() && other.wf() && self.comparable(*other) {
                            Self::lemma_child_comparable(*self, *other, i as int, k as int);
                        }
                    }
                    if !self.children[i].1.eq(&other.children[k].1) {
                        proof {
                            if self.wf() && other.wf() && self.comparable(*other) {
                                let c = self.children@[i as int].1;
                                let oc = other.children@[k as int].1;
                                let w2 = choose|w2: Path|
                                    !assoc_eq(#[trigger] c.lookup(w2), oc.lookup(w2));
                                self.lemma_lookup_child(i as int, w2);
                                other.lemma_lookup_child(k as int, w2);
                                assert(!assoc_eq(self.lookup(seq![self.children@[i as int].0@] + w2), other.lookup(seq![self.children@[i as int].0@] + w2)));
                            }
                        }
                        return false;
                    }
                },
            }
            i = i + 1;
        }
        proof {
            if self.wf() && other.wf() && self.comparable(*other) {
                assert forall|w: Path| assoc_eq(#[trigger] self.lookup(w), other.lookup(w)) by {
                    if w.len() > 0 {
                        if self.has_child(w[0]) {
                            let k = self.child_index(w[0]);
                            self.lemma_child_at(k);
                            assert(self.children@[k].1.same_words(other.child(w[0])));
                            assert(assoc_eq(self.children@[k].1.lookup(w.drop_first()), other.child(w[0]).lookup(w.drop_first())));
                        } else if other.has_child(w[0]) {
                            let k = other.child_index(w[0]);
                            assert(self.has_child(other.children@[k].0@));
                        }
                    }
                }
            }
        }
        true
    }
}

} // verus!
