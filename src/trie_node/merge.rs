//! Moving the words of one subtree into another.
use super::{
    Path, TrieDataNode, combine,
};
use vstd::prelude::*;

verus! {

impl<D> TrieDataNode<D> {

    /// Moves every word of `rhs` into this node's subtree. A word stored on
    /// both sides keeps this side's values followed by those of `rhs`. A child
    /// of `rhs` under a token that this node lacks is moved over whole.
    /// Returns the number of words that were stored on both sides.
    pub(crate) fn add_assign(&mut self, rhs: Self) -> (shared: usize)
        requires
            old(self).wf(),
            rhs.wf(),
            old(self).count() + rhs.count() <= usize::MAX,
        ensures
            final(self).wf(),
            forall|w: Path| #[trigger] final(self).lookup(w) == combine(old(self).lookup(w), rhs.lookup(w)),
            final(self).count() + shared == old(self).count() + rhs.count(),
            shared <= rhs.count(),
            final(self).live() == (old(self).live() || rhs.live()),
        decreases rhs,
    {
        let ghost start = *self;
        let ghost r0 = rhs;
        let ghost n = rhs.children@.len() as int;
        let TrieDataNode { children: mut rest, word_end: rhs_end } = rhs;
        let mut shared: usize = 0;
        match rhs_end {
            None => {},
            Some(mut v) => {
                match self.word_end.take() {
                    Some(mut sv) => {
                        sv.append(&mut v);
                        self.word_end = Some(sv);
                        shared = 1;
                    },
                    None => {
                        self.word_end = Some(v);
                    },
                }
            },
        }
        proof {
            Self::lemma_same_children(start, *self, start.children@.len() as int);
            assert(rest@ =~= r0.children@.subrange(0, n));
            let e = Seq::<Seq<char>>::empty();
            assert(self.lookup(e) == combine(start.lookup(e), r0.lookup(e)));
            assert forall|w: Path|
                w.len() > 0 implies #[trigger] self.lookup(w) == start.lookup(w) by {
                assert(self.has_child(w[0]) == start.has_child(w[0]));
            }
        }
        while rest.len() > 0
            invariant
                start.wf(),
                r0 == rhs,
                r0.wf(),
                n == r0.children@.len(),
                start.count() + r0.count() <= usize::MAX,
                self.wf(),
                rest@ == r0.children@.subrange(0, rest@.len() as int),
                rest@.len() <= n,
                self.lookup(Seq::empty()) == combine(start.lookup(Seq::empty()), r0.lookup(Seq::empty())),
                forall|w: Path|
                    w.len() > 0 ==> #[trigger] self.lookup(w) == (if r0.has_child(w[0]) && r0.child_index(w[0])
                        >= rest@.len() {
                        combine(start.lookup(w), r0.lookup(w))
                    } else {
                        start.lookup(w)
                    }),
                self.count() + shared == start.count() + (if r0.word_end is Some { 1nat } else { 0nat })
                    + r0.count_children(n) - r0.count_children(rest@.len() as int),
                shared <= (if r0.word_end is Some { 1nat } else { 0nat }) + r0.count_children(n)
                    - r0.count_children(rest@.len() as int),
                r0.count_children(rest@.len() as int) <= r0.count_children(n),
                self.live() == (start.live() || r0.word_end is Some || rest@.len() < n),
            decreases rest@.len(),
        {
            let ghost before = *self;
            let ghost idx = rest@.len() - 1;
            let (tok, c) = rest.pop().unwrap();
            let ghost t = tok@;
            proof {
                assert(r0.children@[idx] == (tok, c));
                r0.lemma_child_at(idx);
                r0.lemma_count_children_monotone(idx, n);
                assert(r0.count_children(idx + 1) == r0.count_children(idx) + c.count());
                r0.lemma_count_children_monotone(idx + 1, n);
                assert(c.wf() && c.live());
            }
            match self.find_child(&tok) {
                Some(j) => {
                    proof {
                        before.lemma_child_at(j as int);
                        before.lemma_child_count(j as int);
                    }
                    let s = self.children[j].1.add_assign(c);
                    shared = shared + s;
                    proof {
                        let new_self = *self;
                        assert(new_self.children@ =~= before.children@.update(
                            j as int,
                            (before.children@[j as int].0, new_self.children@[j as int].1),
                        ));
                        Self::lemma_same_tokens(before, new_self);
                        new_self.lemma_child_at(j as int);
                        Self::lemma_count_children_update(
                            before,
                            new_self,
                            j as int,
                            before.children@.len() as int,
                        );
                        assert forall|w: Path|
                            w.len() > 0 implies #[trigger] new_self.lookup(w) == (if r0.has_child(w[0]) && r0.child_index(w[0])
                                >= idx {
                                combine(start.lookup(w), r0.lookup(w))
                            } else {
                                start.lookup(w)
                            }) by {
                            assert(before.lookup(w) == (if r0.has_child(w[0]) && r0.child_index(w[0]) >= idx + 1 {
                                combine(start.lookup(w), r0.lookup(w))
                            } else {
                                start.lookup(w)
                            }));
                            if before.has_child(w[0]) {
                                let k = before.child_index(w[0]);
                                assert(new_self.child_index(w[0]) == k);
                                if k == j {
                                    assert(w[0] == t);
                                    assert(w =~= seq![t] + w.drop_first());
                                    r0.lemma_lookup_child(idx, w.drop_first());
                                    before.lemma_lookup_child(j as int, w.drop_first());
                                    new_self.lemma_lookup_child(j as int, w.drop_first());
                                    assert(r0.child_index(t) == idx);
                                } else {
                                    assert(new_self.children@[k] == before.children@[k]);
                                    if r0.has_child(w[0]) {
                                        assert(r0.child_index(w[0]) != idx);
                                    }
                                }
                            } else {
                                assert(!new_self.has_child(w[0]));
                                assert(w[0] != t);
                                if r0.has_child(w[0]) {
                                    assert(r0.child_index(w[0]) != idx);
                                }
                            }
                        }
                        let e = Seq::<Seq<char>>::empty();
                        assert(new_self.lookup(e) == before.lookup(e));
                    }
                },
                None => {
                    self.children.push((tok, c));
                    proof {
                        let new_self = *self;
                        let m = before.children@.len() as int;
                        Self::lemma_push_child(before, new_self);
                        new_self.lemma_child_at(m);
                        Self::lemma_count_children_prefix(before, new_self, m);
                        assert(new_self.count_children(m + 1) == new_self.count_children(m) + c.count());
                        assert forall|w: Path|
                            w.len() > 0 implies #[trigger] new_self.lookup(w) == (if r0.has_child(w[0]) && r0.child_index(w[0])
                                >= idx {
                                combine(start.lookup(w), r0.lookup(w))
                            } else {
                                start.lookup(w)
                            }) by {
                            assert(before.lookup(w) == (if r0.has_child(w[0]) && r0.child_index(w[0]) >= idx + 1 {
                                combine(start.lookup(w), r0.lookup(w))
                            } else {
                                start.lookup(w)
                            }));
                            if w[0] == t {
                                assert(w =~= seq![t] + w.drop_first());
                                r0.lemma_lookup_child(idx, w.drop_first());
                                assert(!before.has_child(t));
                                assert(before.lookup(w) is None);
                                assert(new_self.child(t) == c);
                            } else {
                                if before.has_child(w[0]) {
                                    let k = before.child_index(w[0]);
                                    assert(new_self.child_index(w[0]) == k);
                                    assert(new_self.children@[k] == before.children@[k]);
                                } else {
                                    assert(!new_self.has_child(w[0]));
                                }
                                if r0.has_child(w[0]) {
                                    assert(r0.child_index(w[0]) != idx);
                                }
                            }
                        }
                        let e = Seq::<Seq<char>>::empty();
                        assert(new_self.lookup(e) == before.lookup(e));
                    }
                },
            }
            proof {
                assert(rest@ =~= r0.children@.subrange(0, idx));
            }
        }
        proof {
            assert forall|w: Path|
                #[trigger] self.lookup(w) == combine(start.lookup(w), r0.lookup(w)) by {
                if w.len() > 0 && !r0.has_child(w[0]) {
                    assert(r0.lookup(w) is None);
                }
            }
        }
        shared
    }
}

} // verus!
