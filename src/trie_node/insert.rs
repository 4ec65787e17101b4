//! Creating the path of a word, and clearing the values of a word.
use super::{
    Path, TrieDataNode, assoc_view, opt_seq, rest_of, values_or_empty,
};
use vstd::prelude::*;

verus! {

impl<D> TrieDataNode<D> {

    /// Walks the path `toks[i..]` from this node, creating the nodes that are
    /// missing, marks its last node as a word end and appends `data` to the
    /// values of that word. Returns whether the word is new.
    pub(crate) fn insert_path(&mut self, toks: &Vec<String>, i: usize, data: Option<D>) -> (added: bool)
        requires
            old(self).wf(),
            i <= toks@.len(),
        ensures
            final(self).wf(),
            final(self).live(),
            added == (old(self).lookup(rest_of(toks@, i as int)) is None),
            final(self).count() == old(self).count() + (if added { 1nat } else { 0nat }),
            final(self).lookup(rest_of(toks@, i as int)) == Some(
                values_or_empty(old(self).lookup(rest_of(toks@, i as int))) + opt_seq(data),
            ),
            forall|w: Path| w != rest_of(toks@, i as int) ==> #[trigger] final(self).lookup(w)
                == old(self).lookup(w),
        decreases toks@.len() - i,
    {
        let ghost suffix = rest_of(toks@, i as int);
        let ghost start = *self;
        if i == toks.len() {
            assert(suffix.len() == 0);
            let added = self.word_end.is_none();
            let mut v = match self.word_end.take() {
                Some(v) => v,
                None => Vec::new(),
            };
            match data {
                Some(d) => v.push(d),
                None => {},
            }
            self.word_end = Some(v);
            proof {
                Self::lemma_count_children_prefix(start, *self, start.children@.len() as int);
                assert forall|w: Path|
                    w != suffix implies #[trigger] self.lookup(w) == start.lookup(w) by {
                    if w.len() == 0 {
                        assert(w =~= suffix);
                    }
                    assert(self.children == start.children);
                    assert(self.has_child(w[0]) == start.has_child(w[0]));
                }
            }
            assert(final(self).lookup(suffix).unwrap() =~= values_or_empty(old(self).lookup(suffix)) + opt_seq(data));
            return added;
        }
        let ghost t = toks@[i as int]@;
        assert(suffix[0] == t);
        assert(suffix.drop_first() =~= rest_of(toks@, i + 1));
        match self.find_child(&toks[i]) {
            Some(j) => {
                let ghost old_self = *self;
                proof {
                    old_self.lemma_child_at(j as int);
                }
                let added = self.children[j].1.insert_path(toks, i + 1, data);
                proof {
                    let new_self = *self;
                    assert(new_self.children@ =~= old_self.children@.update(
                        j as int,
                        (old_self.children@[j as int].0, new_self.children@[j as int].1),
                    ));
                    Self::lemma_same_tokens(old_self, new_self);
                    new_self.lemma_child_at(j as int);
                    Self::lemma_count_children_update(
                        old_self,
                        new_self,
                        j as int,
                        old_self.children@.len() as int,
                    );
                    assert forall|w: Path| w != suffix implies #[trigger] new_self.lookup(w)
                        == old_self.lookup(w) by {
                        if w.len() > 0 {
                            if old_self.has_child(w[0]) {
                                let k = old_self.child_index(w[0]);
                                assert(new_self.has_child(w[0]));
                                assert(new_self.child_index(w[0]) == k);
                                if k == j {
                                    assert(w[0] == t);
                                    assert(w =~= seq![w[0]] + w.drop_first());
                                    assert(suffix =~= seq![t] + suffix.drop_first());
                                    assert(w.drop_first() != rest_of(toks@, i + 1));
                                } else {
                                    assert(new_self.children@[k] == old_self.children@[k]);
                                }
                                assert(new_self.child(w[0]).lookup(w.drop_first()) == old_self.child(w[0]).lookup(w.drop_first()));
                            } else {
                                assert(!new_self.has_child(w[0]));
                            }
                        }
                    }
                }
                added
            },
            None => {
                let ghost old_self = *self;
                let mut node = TrieDataNode::new();
                let ghost empty = node;
                let added = node.insert_path(toks, i + 1, data);
                self.children.push((toks[i].clone(), node));
                proof {
                    let new_self = *self;
                    let n = old_self.children@.len() as int;
                    Self::lemma_push_child(old_self, new_self);
                    new_self.lemma_child_at(n);
                    Self::lemma_count_children_prefix(old_self, new_self, n);
                    assert(new_self.count_children(n + 1) == new_self.count_children(n)
                        + new_self.children@[n].1.count());
                    assert forall|w: Path| w != suffix implies #[trigger] new_self.lookup(w)
                        == old_self.lookup(w) by {
                        if w.len() > 0 {
                            if w[0] == t {
                                assert(w =~= seq![w[0]] + w.drop_first());
                                assert(suffix =~= seq![t] + suffix.drop_first());
                                assert(w.drop_first() != rest_of(toks@, i + 1));
                                assert(new_self.child(t) == node);
                                assert(empty.lookup(w.drop_first()) is None);
                                assert(node.lookup(w.drop_first()) is None);
                                assert(!old_self.has_child(w[0]));
                                assert(new_self.lookup(w) == None::<Seq<D>>);
                            } else if old_self.has_child(w[0]) {
                                let k = old_self.child_index(w[0]);
                                assert(new_self.child_index(w[0]) == k);
                                assert(new_self.children@[k] == old_self.children@[k]);
                            } else {
                                assert(!new_self.has_child(w[0]));
                            }
                        }
                    }
                }
                added
            },
        }
    }
}

impl<D> TrieDataNode<D> {
    /// Takes the values of the word `toks[i..]` below this node, if it is
    /// stored, and leaves the word stored with no values.
    pub(crate) fn clear_data_at(&mut self, toks: &Vec<String>, i: usize) -> (r: Option<Vec<D>>)
        requires
            old(self).wf(),
            i <= toks@.len(),
        ensures
            final(self).wf(),
            final(self).live() == old(self).live(),
            assoc_view(r) == old(self).lookup(rest_of(toks@, i as int)),
            forall|w: Path| #[trigger] final(self).lookup(w) == (if w == rest_of(toks@, i as int)
                && old(self).lookup(w) is Some {
                Some(Seq::empty())
            } else {
                old(self).lookup(w)
            }),
            final(self).count() == old(self).count(),
        decreases toks@.len() - i,
    {
        let ghost suffix = rest_of(toks@, i as int);
        let ghost start = *self;
        if i == toks.len() {
            assert(suffix.len() == 0);
            let data = self.word_end.take();
            if data.is_some() {
                self.word_end = Some(Vec::new());
            }
            proof {
                Self::lemma_same_children(start, *self, start.children@.len() as int);
                assert forall|w: Path|
                    #[trigger] self.lookup(w) == (if w == suffix && start.lookup(w) is Some { Some(Seq::empty()) } else { start.lookup(w) }) by {
                    if w.len() == 0 {
                        assert(w =~= suffix);
                        if data.is_some() {
                            assert(self.lookup(w) == Some(Seq::<D>::empty()));
                        }
                    } else {
                        assert(self.has_child(w[0]) == start.has_child(w[0]));
                    }
                }
            }
            return data;
        }
        let ghost t = toks@[i as int]@;
        assert(suffix[0] == t);
        assert(suffix.drop_first() =~= rest_of(toks@, i + 1));
        match self.find_child(&toks[i]) {
            None => None,
            Some(j) => {
                proof {
                    start.lemma_child_at(j as int);
                }
                let r = self.children[j].1.clear_data_at(toks, i + 1);
                proof {
                    let mid = *self;
                    assert(mid.children@ =~= start.children@.update(
                        j as int,
                        (start.children@[j as int].0, mid.children@[j as int].1),
                    ));
                    Self::lemma_same_tokens(start, mid);
                    mid.lemma_child_at(j as int);
                    Self::lemma_count_children_update(
                        start,
                        mid,
                        j as int,
                        start.children@.len() as int,
                    );
                    assert forall|w: Path|
                        #[trigger] mid.lookup(w) == (if w == suffix && start.lookup(w) is Some { Some(Seq::empty()) } else { start.lookup(w) }) by {
                        if w.len() > 0 {
                            if start.has_child(w[0]) {
                                let k = start.child_index(w[0]);
                                assert(mid.child_index(w[0]) == k);
                                if k == j {
                                    assert(w[0] == t);
                                    assert(w =~= seq![w[0]] + w.drop_first());
                                    assert(suffix =~= seq![t] + suffix.drop_first());
                                    assert((w == suffix) == (w.drop_first() == rest_of(toks@, i + 1)));
                                    assert(mid.children@[k].1.lookup(w.drop_first())
                                        == (if w.drop_first() == rest_of(toks@, i + 1) && start.children@[k].1.lookup(w.drop_first()) is Some { Some(Seq::empty()) } else { start.children@[k].1.lookup(w.drop_first()) }));
                                } else {
                                    assert(mid.children@[k] == start.children@[k]);
                                }
                            } else {
                                assert(!mid.has_child(w[0]));
                            }
                        } else {
                            assert(w != suffix);
                        }
                    }
                }
                r
            },
        }
    }
}

} // verus!
