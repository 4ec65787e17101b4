//! Walking a subtree: finding a node, listing words and values, and
//! selecting the words of extreme length.
use super::{
    Path, TrieDataNode, byte_len, distinct_strings, lemma_extreme_count_step, lemma_text_count_empty,
    lemma_text_count_listed, lemma_text_count_push, text_count, byte_length, deref_all, flatten, lemma_listed_grows, lemma_settles_trans, listed, rest_of, settles, uniform,
};
use std::cmp::Ordering;
use vstd::prelude::*;

verus! {

impl<D> TrieDataNode<D> {

    /// Appends to `out`, each once, the stored words below this node, each
    /// preceded by `prefix`.
    pub(crate) fn find_words(&self, prefix: &String, out: &mut Vec<String>)
        requires
            self.wf(),
        ensures
            final(out)@.len() == old(out)@.len() + self.count(),
            final(out)@.subrange(0, old(out)@.len() as int) == old(out)@,
            forall|j: int|
                old(out)@.len() <= j < final(out)@.len() ==> self.spells(
                    prefix@,
                    (#[trigger] final(out)@[j])@,
                ),
            forall|w: Path| #[trigger] self.lookup(w) is Some ==> listed(
                final(out)@,
                old(out)@.len() as int,
                prefix@ + flatten(w),
            ),
            self.unique_spellings() && distinct_strings(old(out)@) && self.fresh(prefix@, old(out)@)
                ==> distinct_strings(final(out)@),
        decreases self,
    {
        let ghost start = out@;
        let ghost lo = out@.len() as int;
        let ghost pre = self.unique_spellings() && distinct_strings(start) && self.fresh(prefix@, start);
        if self.word_end.is_some() {
            out.push(prefix.clone());
            proof {
                let e = Seq::<Seq<char>>::empty();
                assert(self.lookup(e) is Some);
                assert(prefix@ + flatten(e) =~= prefix@);
                assert(out@[lo]@ == prefix@ + flatten(e));
                assert(self.spells_before(prefix@, out@[lo]@, 0));
                if pre {
                    assert(self.spells(prefix@, prefix@));
                    assert forall|a: int, b: int| 0 <= a < b < out@.len() implies (#[trigger] out@[a])@ != (
                        #[trigger] out@[b])@ by {
                        assert(out@[a] == start[a]);
                        if b < lo {
                            assert(out@[b] == start[b]);
                        }
                    }
                }
            }
        }
        let ghost mid = out@;
        assert(mid.subrange(0, lo) =~= start);
        let mut i: usize = 0;
        while i < self.children.len()
            invariant
                self.wf(),
                i <= self.children@.len(),
                0 <= lo <= mid.len(),
                lo == start.len(),
                mid.subrange(0, lo) == start,
                out@.len() == mid.len() + self.count_children(i as int),
                out@.subrange(0, mid.len() as int) == mid,
                self.word_end is Some ==> mid.len() == lo + 1 && mid[lo]@ == prefix@,
                self.word_end is None ==> mid.len() == lo,
                forall|j: int|
                    lo <= j < out@.len() ==> self.spells_before(prefix@, (#[trigger] out@[j])@, i as int),
                forall|w: Path|
                    #[trigger] self.lookup(w) is Some && (w.len() == 0 || self.child_index(w[0]) < i)
                        ==> listed(out@, lo, prefix@ + flatten(w)),
                pre == (self.unique_spellings() && distinct_strings(start) && self.fresh(prefix@, start)),
                pre ==> distinct_strings(out@),
            decreases self.children@.len() - i,
        {
            let ghost before = out@;
            let ghost k = i as int;
            let ghost t = self.children@[k].0@;
            let mut p = prefix.clone();
            p.append(self.children[i].0.as_str());
            proof {
                assert(p@ == prefix@ + t);
                if pre {
                    let c = self.children@[k].1;
                    self.lemma_child_unique(k);
                    assert forall|j: int| 0 <= j < before.len() implies !c.spells(p@, (#[trigger] before[j])@) by {
                        if j < lo {
                            assert(before.subrange(0, mid.len() as int)[j] == mid[j]);
                            assert(mid.subrange(0, lo)[j] == start[j]);
                            assert(!self.spells(prefix@, start[j]@));
                        }
                        self.lemma_fresh_for_child(k, prefix@, before[j]@);
                    }
                }
            }
            self.children[i].1.find_words(&p, out);
            proof {
                let c = self.children@[k].1;
                assert(out@.subrange(0, mid.len() as int) =~= mid) by {
                    assert(out@.subrange(0, before.len() as int) == before);
                    assert forall|j: int| 0 <= j < mid.len() implies out@[j] == mid[j] by {
                        assert(out@.subrange(0, before.len() as int)[j] == before[j]);
                        assert(before.subrange(0, mid.len() as int)[j] == mid[j]);
                    }
                }
                assert forall|j: int|
                    lo <= j < out@.len() implies self.spells_before(prefix@, (#[trigger] out@[j])@, i + 1) by {
                    if j < before.len() {
                        assert(out@.subrange(0, before.len() as int)[j] == before[j]);
                        self.lemma_spells_before_grow(prefix@, before[j]@, k, k + 1);
                    } else {
                        self.lemma_spells_child_before(k, prefix@, out@[j]@);
                    }
                }
                assert forall|w: Path|
                    #[trigger] self.lookup(w) is Some && (w.len() == 0 || self.child_index(w[0]) < i + 1)
                        implies listed(out@, lo, prefix@ + flatten(w)) by {
                    if w.len() > 0 && self.child_index(w[0]) == k {
                        assert(self.has_child(w[0]));
                        self.lemma_child_at(k);
                        assert(w[0] == t);
                        assert(w =~= seq![t] + w.drop_first());
                        self.lemma_lookup_child(k, w.drop_first());
                        assert(c.lookup(w.drop_first()) is Some);
                        let jj = choose|jj: int|
                            before.len() <= jj < out@.len() && (#[trigger] out@[jj])@ == p@ + flatten(w.drop_first());
                        assert(p@ + flatten(w.drop_first()) =~= prefix@ + flatten(w));
                        assert(out@[jj]@ == prefix@ + flatten(w));
                    } else {
                        lemma_listed_grows(before, out@, lo, prefix@ + flatten(w));
                    }
                }
            }
            i = i + 1;
        }
        proof {
            assert(out@.subrange(0, lo) =~= start) by {
                assert forall|j: int| 0 <= j < lo implies out@[j] == start[j] by {
                    assert(out@.subrange(0, mid.len() as int)[j] == mid[j]);
                    assert(mid.subrange(0, lo)[j] == start[j]);
                }
            }
            assert forall|j: int| lo <= j < out@.len() implies self.spells(prefix@, (#[trigger] out@[j])@) by {
                self.lemma_spells_before_grow(prefix@, out@[j]@, i as int, i as int);
            }
            assert forall|w: Path|
                #[trigger] self.lookup(w) is Some
                implies listed(out@, lo, prefix@ + flatten(w)) by {
                if w.len() > 0 {
                    assert(self.has_child(w[0]));
                    let k = self.child_index(w[0]);
                    assert(k < self.children@.len());
                }
            }
        }
    }
}

impl<D> TrieDataNode<D> {

    /// Appends to `found` a reference to every value stored in this node
    /// and below it.
    pub(crate) fn generate_all_data<'a>(&'a self, found: &mut Vec<&'a D>)
        requires
            self.wf(),
        ensures
            deref_all(final(found)@) == deref_all(old(found)@) + self.values(),
        decreases self,
    {
        let ghost found0 = deref_all(found@);
        match &self.word_end {
            Some(v) => {
                let mut j: usize = 0;
                while j < v.len()
                    invariant
                        j <= v@.len(),
                        deref_all(found@) == found0 + v@.subrange(0, j as int),
                    decreases v@.len() - j,
                {
                    let ghost before = found@;
                    found.push(&v[j]);
                    proof {
                        assert(deref_all(found@) =~= deref_all(before).push(v@[j as int]));
                        assert(deref_all(found@) =~= found0 + v@.subrange(0, j + 1));
                    }
                    j = j + 1;
                }
                proof {
                    assert(v@.subrange(0, v@.len() as int) =~= v@);
                }
            },
            None => {},
        }
        assert(deref_all(found@) =~= found0 + self.own_values());
        let mut i: usize = 0;
        while i < self.children.len()
            invariant
                self.wf(),
                i <= self.children@.len(),
                deref_all(found@) == found0 + self.own_values() + self.values_children(i as int),
            decreases self.children@.len() - i,
        {
            self.children[i].1.generate_all_data(found);
            proof {
                assert(deref_all(found@) =~= found0 + self.own_values() + self.values_children(i + 1));
            }
            i = i + 1;
        }
    }
}

impl<D> TrieDataNode<D> {

    /// The node at the end of the path `toks[i..]` from this one.
    pub(crate) fn final_node<'a>(&'a self, toks: &Vec<String>, i: usize) -> (r: Option<&'a Self>)
        requires
            self.wf(),
            i <= toks@.len(),
        ensures
            match r {
                Some(n) => self.descend(rest_of(toks@, i as int)) == Some(*n) && n.wf(),
                None => self.descend(rest_of(toks@, i as int)) is None,
            },
        decreases toks@.len() - i,
    {
        let ghost suffix = rest_of(toks@, i as int);
        if i == toks.len() {
            assert(suffix.len() == 0);
            return Some(self);
        }
        assert(suffix[0] == toks@[i as int]@);
        assert(suffix.drop_first() =~= rest_of(toks@, i + 1));
        match self.find_child(&toks[i]) {
            None => None,
            Some(j) => {
                proof {
                    self.lemma_child_at(j as int);
                }
                self.children[j].1.final_node(toks, i + 1)
            },
        }
    }
}

impl<D> TrieDataNode<D> {
    /// Keeps in `found` the words of extreme length among those it held and
    /// those stored below this node (each preceded by `prefix`): the longest
    /// for `Ordering::Greater`, the shortest for `Ordering::Less`. Every word
    /// that ties is kept.
    pub(crate) fn words_min_max(&self, prefix: &String, found: &mut Vec<String>, ord: Ordering)
        requires
            self.wf(),
            !(ord is Equal),
            uniform(old(found)@),
            self.unique_spellings(),
        ensures
            forall|s: Seq<char>|
                #[trigger] text_count(final(found)@, s) == (if final(found)@.len() > 0 && byte_len(s)
                    == byte_len(final(found)@[0]@) {
                    text_count(old(found)@, s) + (if self.spells(prefix@, s) { 1nat } else { 0nat })
                } else {
                    0nat
                }),
            uniform(final(found)@),
            forall|j: int|
                0 <= j < final(found)@.len() ==> listed(old(found)@, 0, (#[trigger] final(found)@[j])@)
                    || self.spells(prefix@, final(found)@[j]@),
            forall|j: int| 0 <= j < old(found)@.len() ==> settles(final(found)@, ord, (#[trigger] old(found)@[j])@),
            forall|w: Path| #[trigger] self.lookup(w) is Some ==> settles(final(found)@, ord, prefix@ + flatten(w)),
            self.unique_spellings() && distinct_strings(old(found)@) && self.fresh(prefix@, old(found)@)
                ==> distinct_strings(final(found)@),
        decreases self,
    {
        let ghost start = found@;
        let ghost pre = self.unique_spellings() && distinct_strings(start) && self.fresh(prefix@, start);
        if self.word_end.is_some() {
            let ghost e = Seq::<Seq<char>>::empty();
            proof {
                assert(self.lookup(e) is Some);
                assert(prefix@ + flatten(e) =~= prefix@);
            }
            if found.len() > 0 {
                let l = byte_length(prefix);
                let l0 = byte_length(&found[0]);
                let wins = match ord {
                    Ordering::Greater => l > l0,
                    Ordering::Less => l < l0,
                    Ordering::Equal => false,
                };
                if wins {
                    found.clear();
                    found.push(prefix.clone());
                    proof {
                        assert(found@ =~= Seq::<String>::empty().push(found@[0]));
                        assert forall|s: Seq<char>| #[trigger] text_count(found@, s) == (if found@.len() > 0
                            && byte_len(s) == byte_len(found@[0]@) {
                            text_count(start, s) + (if self.spells_before(prefix@, s, 0) { 1nat } else { 0nat })
                        } else {
                            0nat
                        }) by {
                            lemma_text_count_empty(Seq::<String>::empty(), s);
                            lemma_text_count_push(Seq::<String>::empty(), found@[0], s);
                            self.lemma_spells_before_zero(prefix@, s);
                            lemma_text_count_listed(start, s);
                            if text_count(start, s) > 0 {
                                let j = choose|j: int| 0 <= j < start.len() && (#[trigger] start[j])@ == s;
                                assert(byte_len(start[j]@) == byte_len(start[0]@));
                            }
                        }
                        assert forall|j: int|
                            0 <= j < start.len()
                            implies settles(found@, ord, (#[trigger] start[j])@) by {
                            assert(byte_len(start[j]@) == byte_len(start[0]@));
                        }
                    }
                } else if l == l0 {
                    found.push(prefix.clone());
                    proof {
                        assert forall|s: Seq<char>| #[trigger] text_count(found@, s) == (if found@.len() > 0
                            && byte_len(s) == byte_len(found@[0]@) {
                            text_count(start, s) + (if self.spells_before(prefix@, s, 0) { 1nat } else { 0nat })
                        } else {
                            0nat
                        }) by {
                            lemma_text_count_push(start, found@[start.len() as int], s);
                            assert(found@ == start.push(found@[start.len() as int]));
                            self.lemma_spells_before_zero(prefix@, s);
                            lemma_text_count_listed(start, s);
                            assert(found@[0] == start[0]);
                            if text_count(start, s) > 0 {
                                let j = choose|j: int| 0 <= j < start.len() && (#[trigger] start[j])@ == s;
                                assert(byte_len(start[j]@) == byte_len(start[0]@));
                            }
                        }
                        assert forall|j: int|
                            0 <= j < start.len()
                            implies settles(found@, ord, (#[trigger] start[j])@) by {
                            assert(byte_len(start[j]@) == byte_len(start[0]@));
                            assert(found@[j] == start[j]);
                        }
                        assert(found@[start.len() as int]@ == prefix@);
                    }
                } else {
                    proof {
                        assert forall|s: Seq<char>| #[trigger] text_count(found@, s) == (if found@.len() > 0
                            && byte_len(s) == byte_len(found@[0]@) {
                            text_count(start, s) + (if self.spells_before(prefix@, s, 0) { 1nat } else { 0nat })
                        } else {
                            0nat
                        }) by {
                            self.lemma_spells_before_zero(prefix@, s);
                            lemma_text_count_listed(start, s);
                            if text_count(start, s) > 0 {
                                let j = choose|j: int| 0 <= j < start.len() && (#[trigger] start[j])@ == s;
                                assert(byte_len(start[j]@) == byte_len(start[0]@));
                            }
                        }
                        assert forall|j: int|
                            0 <= j < start.len()
                            implies settles(found@, ord, (#[trigger] start[j])@) by {
                            assert(byte_len(start[j]@) == byte_len(start[0]@));
                        }
                    }
                }
            } else {
                found.push(prefix.clone());
                proof {
                    assert(found@[0]@ == prefix@);
                    assert forall|s: Seq<char>| #[trigger] text_count(found@, s) == (if found@.len() > 0
                        && byte_len(s) == byte_len(found@[0]@) {
                        text_count(start, s) + (if self.spells_before(prefix@, s, 0) { 1nat } else { 0nat })
                    } else {
                        0nat
                    }) by {
                        lemma_text_count_empty(start, s);
                        lemma_text_count_push(start, found@[0], s);
                        assert(found@ == start.push(found@[0]));
                        self.lemma_spells_before_zero(prefix@, s);
                    }
                }
            }
            proof {
                assert(settles(found@, ord, prefix@ + flatten(e)));
                assert(self.spells_before(prefix@, prefix@, 0));
                assert forall|j: int| 0 <= j < found@.len() implies listed(start, 0, (#[trigger] found@[j])@)
                    || self.spells_before(prefix@, found@[j]@, 0) by {
                    if found@[j]@ != prefix@ {
                        assert(found@[j] == start[j]);
                    }
                }
                if pre {
                    assert(self.spells(prefix@, prefix@));
                    assert forall|a: int, b: int| 0 <= a < b < found@.len() implies (#[trigger] found@[a])@ != (
                        #[trigger] found@[b])@ by {
                        if found@.len() > 1 {
                            assert(found@[a] == start[a]);
                            if b < start.len() {
                                assert(found@[b] == start[b]);
                            } else {
                                assert(found@[b]@ == prefix@);
                            }
                        }
                    }
                }
            }
        }
        proof {
            if self.word_end is None {
                assert forall|s: Seq<char>| #[trigger] text_count(found@, s) == (if found@.len() > 0
                    && byte_len(s) == byte_len(found@[0]@) {
                    text_count(start, s) + (if self.spells_before(prefix@, s, 0) { 1nat } else { 0nat })
                } else {
                    0nat
                }) by {
                    self.lemma_spells_before_zero(prefix@, s);
                    lemma_text_count_listed(start, s);
                    if text_count(start, s) > 0 {
                        let j = choose|j: int| 0 <= j < start.len() && (#[trigger] start[j])@ == s;
                        assert(byte_len(start[j]@) == byte_len(start[0]@));
                    }
                }
            }
        }
        let ghost mid = found@;
        let mut i: usize = 0;
        while i < self.children.len()
            invariant
                self.wf(),
                !(ord is Equal),
                i <= self.children@.len(),
                uniform(start),
                uniform(found@),
                forall|j: int|
                    0 <= j < found@.len() ==> listed(start, 0, (#[trigger] found@[j])@)
                        || self.spells_before(prefix@, found@[j]@, i as int),
                pre == (self.unique_spellings() && distinct_strings(start) && self.fresh(prefix@, start)),
                pre ==> distinct_strings(found@),
                forall|j: int| 0 <= j < start.len() ==> settles(found@, ord, (#[trigger] start[j])@),
                forall|w: Path|
                    #[trigger] self.lookup(w) is Some && (w.len() == 0 || self.child_index(w[0]) < i)
                        ==> settles(found@, ord, prefix@ + flatten(w)),
                self.unique_spellings(),
                forall|s: Seq<char>|
                    #[trigger] text_count(found@, s) == (if found@.len() > 0 && byte_len(s) == byte_len(
                        found@[0]@,
                    ) {
                        text_count(start, s) + (if self.spells_before(prefix@, s, i as int) { 1nat } else { 0nat })
                    } else {
                        0nat
                    }),
            decreases self.children@.len() - i,
        {
            let ghost before = found@;
            let ghost k = i as int;
            let ghost t = self.children@[k].0@;
            let mut p = prefix.clone();
            p.append(self.children[i].0.as_str());
            proof {
                assert(p@ == prefix@ + t);
                self.lemma_child_unique(k);
                if pre {
                    let c = self.children@[k].1;
                    assert forall|j: int| 0 <= j < before.len() implies !c.spells(p@, (#[trigger] before[j])@) by {
                        if listed(start, 0, before[j]@) {
                            let jj = choose|jj: int| 0 <= jj < start.len() && (#[trigger] start[jj])@ == before[j]@;
                            assert(!self.spells(prefix@, start[jj]@));
                        }
                        self.lemma_fresh_for_child(k, prefix@, before[j]@);
                    }
                }
            }
            self.children[i].1.words_min_max(&p, found, ord);
            proof {
                let c = self.children@[k].1;
                assert forall|s: Seq<char>|
                    #[trigger] text_count(found@, s) == (if found@.len() > 0 && byte_len(s) == byte_len(
                        found@[0]@,
                    ) {
                        text_count(start, s) + (if self.spells_before(prefix@, s, i + 1) { 1nat } else { 0nat })
                    } else {
                        0nat
                    }) by {
                    let earlier = self.spells_before(prefix@, s, k);
                    if text_count(start, s) > 0 {
                        lemma_text_count_listed(start, s);
                        let j = choose|j: int| 0 <= j < start.len() && (#[trigger] start[j])@ == s;
                        assert(settles(before, ord, start[j]@));
                    }
                    if earlier {
                        let w = choose|w: Path|
                            #[trigger] self.lookup(w) is Some && (w.len() == 0 || self.child_index(w[0]) < k)
                                && s == prefix@ + flatten(w);
                        assert(settles(before, ord, prefix@ + flatten(w)));
                        self.lemma_fresh_for_child(k, prefix@, s);
                    }
                    if before.len() > 0 {
                        assert(settles(found@, ord, before[0]@));
                    }
                    lemma_extreme_count_step(found@, before, ord, s, text_count(start, s), earlier, c.spells(p@, s));
                    self.lemma_spells_before_step(k, prefix@, s);
                }
                assert forall|j: int|
                    0 <= j < found@.len() implies listed(start, 0, (#[trigger] found@[j])@)
                        || self.spells_before(prefix@, found@[j]@, i + 1) by {
                    if listed(before, 0, found@[j]@) {
                        let jj = choose|jj: int|
                            0 <= jj < before.len() && (#[trigger] before[jj])@ == found@[j]@;
                        assert(listed(start, 0, before[jj]@) || self.spells_before(prefix@, before[jj]@, k));
                        if !listed(start, 0, before[jj]@) {
                            self.lemma_spells_before_grow(prefix@, before[jj]@, k, k + 1);
                        }
                    } else {
                        self.lemma_spells_child_before(k, prefix@, found@[j]@);
                    }
                }
                assert forall|j: int|
                    0 <= j < start.len() implies settles(found@, ord, (#[trigger] start[j])@) by {
                    lemma_settles_trans(before, found@, ord, start[j]@);
                }
                assert forall|w: Path|
                    #[trigger] self.lookup(w) is Some && (w.len() == 0 || self.child_index(w[0]) < i + 1)
                        implies settles(found@, ord, prefix@ + flatten(w)) by {
                    if w.len() > 0 && self.child_index(w[0]) == k {
                        assert(self.has_child(w[0]));
                        self.lemma_child_at(k);
                        assert(w[0] == t);
                        assert(w =~= seq![t] + w.drop_first());
                        self.lemma_lookup_child(k, w.drop_first());
                        assert(p@ + flatten(w.drop_first()) =~= prefix@ + flatten(w));
                    } else {
                        lemma_settles_trans(before, found@, ord, prefix@ + flatten(w));
                    }
                }
            }
            i = i + 1;
        }
        proof {
            assert forall|s: Seq<char>|
                #[trigger] text_count(found@, s) == (if found@.len() > 0 && byte_len(s) == byte_len(found@[0]@) {
                    text_count(start, s) + (if self.spells(prefix@, s) { 1nat } else { 0nat })
                } else {
                    0nat
                }) by {
                self.lemma_spells_before_all(prefix@, s);
            }
            assert forall|j: int| 0 <= j < found@.len() implies listed(start, 0, (#[trigger] found@[j])@)
                || self.spells(prefix@, found@[j]@) by {
                if !listed(start, 0, found@[j]@) {
                    self.lemma_spells_before_grow(prefix@, found@[j]@, i as int, i as int);
                }
            }
            assert forall|w: Path|
                #[trigger] self.lookup(w) is Some
                implies settles(found@, ord, prefix@ + flatten(w)) by {
                if w.len() > 0 {
                    assert(self.has_child(w[0]));
                    let k = self.child_index(w[0]);
                    assert(k < self.children@.len());
                }
            }
        }
    }
}

} // verus!
