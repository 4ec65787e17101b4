//! Removing one word, or every word past a prefix, with pruning.
use super::{
    Path, TrieDataNode, assoc_view, lemma_extends_cons, rest_of, strictly_extends,
};
use vstd::prelude::*;

verus! {

/// What removing a word hands back to the level above: whether the node
/// must stay in the tree, and the association of the removed word.
pub(crate) struct RemoveData<D> {
    pub(crate) must_keep: bool,
    pub(crate) data: Option<Vec<D>>,
}

impl<D> TrieDataNode<D> {

    /// Removes the word `toks[i..]` below this node, if it is stored, and
    /// prunes the nodes on its path that no longer end or lead to a word.
    /// Hands back the removed word's association and whether this node is
    /// still live.
    pub(crate) fn remove_one_word(&mut self, toks: &Vec<String>, i: usize) -> (r: RemoveData<D>)
        requires
            old(self).wf(),
            i <= toks@.len(),
        ensures
            final(self).wf(),
            r.must_keep == final(self).live(),
            assoc_view(r.data) == old(self).lookup(rest_of(toks@, i as int)),
            forall|w: Path| #[trigger] final(self).lookup(w) == (if w == rest_of(toks@, i as int) {
                None
            } else {
                old(self).lookup(w)
            }),
            final(self).count() + (if old(self).lookup(rest_of(toks@, i as int)) is Some {
                1nat
            } else {
                0nat
            }) == old(self).count(),
        decreases toks@.len() - i,
    {
        let ghost suffix = rest_of(toks@, i as int);
        let ghost start = *self;
        if i == toks.len() {
            assert(suffix.len() == 0);
            let data = self.word_end.take();
            proof {
                Self::lemma_count_children_prefix(start, *self, start.children@.len() as int);
                assert forall|w: Path|
                    #[trigger] self.lookup(w) == (if w == suffix { None } else { start.lookup(w) }) by {
                    if w.len() == 0 {
                        assert(w =~= suffix);
                    }
                    assert(self.children == start.children);
                    assert(self.has_child(w[0]) == start.has_child(w[0]));
                }
            }
            return RemoveData { must_keep: self.children.len() > 0, data };
        }
        let ghost t = toks@[i as int]@;
        assert(suffix[0] == t);
        assert(suffix.drop_first() =~= rest_of(toks@, i + 1));
        assert(suffix =~= seq![t] + suffix.drop_first());
        match self.find_child(&toks[i]) {
            None => {
                proof {
                    assert forall|w: Path|
                        #[trigger] self.lookup(w) == (if w == suffix { None } else { start.lookup(w) }) by {}
                }
                RemoveData { must_keep: self.word_end.is_some() || self.children.len() > 0, data: None }
            },
            Some(j) => {
                proof {
                    start.lemma_child_at(j as int);
                }
                let r = self.children[j].1.remove_one_word(toks, i + 1);
                let ghost mid = *self;
                proof {
                    assert(mid.children@ =~= start.children@.update(
                        j as int,
                        (start.children@[j as int].0, mid.children@[j as int].1),
                    ));
                    Self::lemma_same_tokens(start, mid);
                    mid.lemma_child_at(j as int);
                    Self::lemma_count_children_update(
                        start,
                        mid,
                        j as int,
                        start.children@.len() as int,
                    );
                    assert forall|w: Path|
                        #[trigger] mid.lookup(w) == (if w == suffix { None } else { start.lookup(w) }) by {
                        if w.len() > 0 {
                            if start.has_child(w[0]) {
                                let k = start.child_index(w[0]);
                                assert(mid.child_index(w[0]) == k);
                                if k == j {
                                    assert(w =~= seq![w[0]] + w.drop_first());
                                    assert(mid.children@[k].1.lookup(w.drop_first())
                                        == (if w.drop_first() == rest_of(toks@, i + 1) { None } else { start.children@[k].1.lookup(w.drop_first()) }));
                                } else {
                                    assert(mid.children@[k] == start.children@[k]);
                                }
                            } else {
                                assert(!mid.has_child(w[0]));
                            }
                        } else {
                            assert(w != suffix);
                        }
                    }
                }
                if !r.must_keep {
                    self.children.remove(j);
                    proof {
                        let c = mid.children@[j as int].1;
                        Self::lemma_remove_child(mid, *self, j as int);
                        Self::lemma_count_children_remove(mid, *self, j as int, mid.children@.len() as int);
                        assert forall|w: Path| #[trigger] self.lookup(w) == mid.lookup(w) by {
                            if w.len() > 0 && w[0] == t {
                                assert(w =~= seq![w[0]] + w.drop_first());
                                c.lemma_dead_lookup(w.drop_first());
                            }
                        }
                    }
                }
                proof {
                    assert forall|w: Path|
                        #[trigger] self.lookup(w) == (if w == suffix { None } else { start.lookup(w) }) by {
                        assert(mid.lookup(w) == (if w == suffix { None } else { start.lookup(w) }));
                    }
                }
                RemoveData { must_keep: self.word_end.is_some() || self.children.len() > 0, data: r.data }
            },
        }
    }
}

impl<D> TrieDataNode<D> {

    /// Removes every word of this node and below it, appending their values
    /// to `found`. Returns the number of words removed.
    pub(crate) fn remove_all_words_collect(&mut self, found: &mut Vec<D>) -> (n: usize)
        requires
            old(self).wf(),
            old(self).count() <= usize::MAX,
        ensures
            n == old(self).count(),
            final(self).children@.len() == 0,
            final(self).word_end is None,
            final(found)@ == old(found)@ + old(self).values(),
        decreases *old(self),
    {
        let ghost start = *self;
        let ghost found0 = found@;
        let mut n: usize = 0;
        match self.word_end.take() {
            Some(mut v) => {
                found.append(&mut v);
                n = 1;
            },
            None => {},
        }
        let mut i: usize = 0;
        while i < self.children.len()
            invariant
                start.wf(),
                start == *old(self),
                self.word_end is None,
                start.count() <= usize::MAX,
                i <= self.children@.len(),
                self.children@.len() == start.children@.len(),
                forall|k: int| i <= k < self.children@.len() ==> self.children@[k] == start.children@[k],
                n == (if start.word_end is Some { 1nat } else { 0nat }) + start.count_children(i as int),
                found@ == found0 + start.own_values() + start.values_children(i as int),
            decreases self.children@.len() - i,
        {
            proof {
                start.lemma_count_children_monotone(i as int + 1, start.children@.len() as int);
                assert(self.children@[i as int] == start.children@[i as int]);
            }
            let m = self.children[i].1.remove_all_words_collect(found);
            n = n + m;
            proof {
                assert(found@ =~= found0 + start.own_values() + start.values_children(i + 1));
            }
            i = i + 1;
        }
        self.children = Vec::new();
        proof {
            assert(start.values() =~= start.own_values() + start.values_children(start.children@.len() as int));
        }
        n
    }
}

impl<D> TrieDataNode<D> {

    /// Removes every word that strictly extends the path `toks[i..]` below
    /// this node, appending their values to `found`, and prunes the nodes
    /// that no longer end or lead to a word. Returns the number of words
    /// removed, or `None` where the path does not exist.
    pub(crate) fn remove_prefix_at(&mut self, toks: &Vec<String>, i: usize, found: &mut Vec<D>) -> (r: Option<usize>)
        requires
            old(self).wf(),
            old(self).count() <= usize::MAX,
            i <= toks@.len(),
        ensures
            final(self).wf(),
            match old(self).descend(rest_of(toks@, i as int)) {
                None => r is None && final(found)@ == old(found)@ && forall|w: Path|
                    strictly_extends(w, rest_of(toks@, i as int)) ==> #[trigger] old(self).lookup(w) is None,
                Some(n) => r is Some && r.unwrap() as nat == n.count_children(n.children@.len() as int)
                    && final(found)@ == old(found)@ + n.values_children(n.children@.len() as int),
            },
            forall|w: Path| #[trigger] final(self).lookup(w) == (if strictly_extends(w, rest_of(toks@, i as int)) {
                None
            } else {
                old(self).lookup(w)
            }),
            final(self).count() + (match r { Some(m) => m as nat, None => 0nat }) == old(self).count(),
        decreases toks@.len() - i,
    {
        let ghost suffix = rest_of(toks@, i as int);
        let ghost start = *self;
        if i == toks.len() {
            assert(suffix.len() == 0);
            let own = self.word_end.take();
            proof {
                Self::lemma_same_children(start, *self, start.children@.len() as int);
                assert(self.values() =~= start.values_children(start.children@.len() as int));
            }
            let n = self.remove_all_words_collect(found);
            self.word_end = own;
            proof {
                assert forall|w: Path|
                    #[trigger] self.lookup(w) == (if strictly_extends(w, suffix) { None } else { start.lookup(w) }) by {
                    if w.len() == 0 {
                        assert(!strictly_extends(w, suffix));
                    } else {
                        assert(w.subrange(0, 0) =~= suffix);
                        assert(!self.has_child(w[0]));
                    }
                }
            }
            return Some(n);
        }
        let ghost t = toks@[i as int]@;
        assert(suffix[0] == t);
        assert(suffix.drop_first() =~= rest_of(toks@, i + 1));
        match self.find_child(&toks[i]) {
            None => {
                proof {
                    assert forall|w: Path|
                        #[trigger] self.lookup(w) == (if strictly_extends(w, suffix) { None } else { start.lookup(w) }) by {
                        if w.len() > 0 {
                            lemma_extends_cons(w, suffix);
                        }
                    }
                    assert forall|w: Path|
                        strictly_extends(w, suffix) implies #[trigger] start.lookup(w) is None by {
                        lemma_extends_cons(w, suffix);
                    }
                }
                None
            },
            Some(j) => {
                proof {
                    start.lemma_child_at(j as int);
                    start.lemma_count_children_monotone(j as int + 1, start.children@.len() as int);
                }
                let r = self.children[j].1.remove_prefix_at(toks, i + 1, found);
                let ghost mid = *self;
                proof {
                    assert(mid.children@ =~= start.children@.update(
                        j as int,
                        (start.children@[j as int].0, mid.children@[j as int].1),
                    ));
                    Self::lemma_same_tokens(start, mid);
                    mid.lemma_child_at(j as int);
                    Self::lemma_count_children_update(
                        start,
                        mid,
                        j as int,
                        start.children@.len() as int,
                    );
                    assert forall|w: Path|
                        #[trigger] mid.lookup(w) == (if strictly_extends(w, suffix) { None } else { start.lookup(w) }) by {
                        if w.len() > 0 {
                            lemma_extends_cons(w, suffix);
                            if start.has_child(w[0]) {
                                let k = start.child_index(w[0]);
                                assert(mid.child_index(w[0]) == k);
                                if k != j {
                                    assert(mid.children@[k] == start.children@[k]);
                                } else {
                                    assert(w[0] == t);
                                    assert(mid.child(w[0]) == mid.children@[j as int].1);
                                    assert(start.child(w[0]) == start.children@[j as int].1);
                                    assert(mid.children@[j as int].1.lookup(w.drop_first())
                                        == (if strictly_extends(w.drop_first(), rest_of(toks@, i + 1)) { None } else { start.children@[j as int].1.lookup(w.drop_first()) }));
                                }
                            } else {
                                assert(!mid.has_child(w[0]));
                            }
                        } else {
                            assert(!strictly_extends(w, suffix));
                        }
                    }
                    if start.descend(suffix) is None {
                        assert forall|w: Path|
                            strictly_extends(w, suffix)
                            implies #[trigger] start.lookup(w) is None by {
                            lemma_extends_cons(w, suffix);
                            assert(start.children@[j as int].1.descend(rest_of(toks@, i + 1)) is None);
                            if w[0] == t {
                                assert(start.child(w[0]) == start.children@[j as int].1);
                                assert(strictly_extends(w.drop_first(), rest_of(toks@, i + 1)));
                                assert(start.children@[j as int].1.lookup(w.drop_first()) is None);
                            }
                        }
                    }
                }
                if self.children[j].1.word_end.is_none() && self.children[j].1.children.len() == 0 {
                    self.children.remove(j);
                    proof {
                        let c = mid.children@[j as int].1;
                        Self::lemma_remove_child(mid, *self, j as int);
                        Self::lemma_count_children_remove(mid, *self, j as int, mid.children@.len() as int);
                        assert forall|w: Path| #[trigger] self.lookup(w) == mid.lookup(w) by {
                            if w.len() > 0 && w[0] == t {
                                assert(w =~= seq![w[0]] + w.drop_first());
                                c.lemma_dead_lookup(w.drop_first());
                            }
                        }
                    }
                }
                proof {
                    assert forall|w: Path|
                        #[trigger] self.lookup(w) == (if strictly_extends(w, suffix) { None } else { start.lookup(w) }) by {
                        assert(mid.lookup(w)
                            == (if strictly_extends(w, suffix) { None } else { start.lookup(w) }));
                    }
                }
                r
            },
        }
    }
}

} // verus!
