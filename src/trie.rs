//! The two tries: `DataTrie`, which attaches values to words, and `Trie`,
//! which stores words only; their word-map model and the laws they obey.
use crate::tokens::{get_characters, graphemes_of, token_views};
use crate::trie_node::{
    assoc_eq, combine, deref_all, distinct_strings, lemma_prefix_cancel, flatten, lemma_flatten_append, lemma_flatten_push, listed,
    opt_seq, rest_of, settles, strictly_extends, uniform, Path, TrieDataNode,
};
use std::cmp::Ordering;
use vstd::prelude::*;
use vstd::std_specs::cmp::PartialEqSpec;

verus! {

/// A trie that attaches an ordered list of values to every stored word.
#[derive(Debug)]
pub struct DataTrie<D> {
    root: TrieDataNode<D>,
    len: usize,
}

/// The path of a word in a trie: its grapheme clusters.
pub open spec fn key_of(word: Seq<char>) -> Path {
    graphemes_of(word)
}

/// `w` starts with `p`.
pub open spec fn has_prefix(w: Path, p: Path) -> bool {
    p.len() <= w.len() && w.subrange(0, p.len() as int) == p
}

/// `s` spells a word of `words` that starts with `q`.
pub open spec fn spells_word(words: Set<Path>, q: Path, s: Seq<char>) -> bool {
    exists|w: Path| #[trigger] words.contains(w) && has_prefix(w, q) && s == flatten(w)
}

/// `r` holds exactly the words of `words` of extreme length under `ord`
/// (`Greater`: longest, `Less`: shortest), each spelled out: all of the same
/// length, none beaten by a stored word, every stored word that ties among
/// them, and none twice.
pub open spec fn extremes(words: Set<Path>, ord: Ordering, r: Seq<String>) -> bool {
    &&& uniform(r)
    &&& distinct_strings(r)
    &&& forall|j: int| 0 <= j < r.len() ==> spells_word(words, Seq::empty(), (#[trigger] r[j])@)
    &&& forall|w: Path| #[trigger] words.contains(w) ==> settles(r, ord, flatten(w))
}

/// Some stored word starts with `p`, or `p` is empty: the path `p` exists
/// in the trie.
pub open spec fn starts_path(words: Set<Path>, p: Path) -> bool {
    p.len() == 0 || exists|w: Path| #[trigger] words.contains(w) && has_prefix(w, p)
}

/// The stored words that start with `p`.
pub open spec fn words_from(words: Set<Path>, p: Path) -> Set<Path> {
    words.filter(|w: Path| has_prefix(w, p))
}

/// The stored words that strictly extend `p`.
pub open spec fn words_below(words: Set<Path>, p: Path) -> Set<Path> {
    words.filter(|w: Path| strictly_extends(w, p))
}

/// The places where `x` stands among the values of the words of `ws`: a
/// word and an index into its values.
pub open spec fn occurrences<D>(m: Map<Path, Seq<D>>, ws: Set<Path>, x: D) -> Set<(Path, int)> {
    Set::new(
        |o: (Path, int)|
            ws.contains(o.0) && m.contains_key(o.0) && 0 <= o.1 < m[o.0].len() && m[o.0][o.1] == x,
    )
}

/// The values of `k` in `m`, empty where `k` is not stored.
pub open spec fn values_of<D>(m: Map<Path, Seq<D>>, k: Path) -> Seq<D> {
    if m.contains_key(k) {
        m[k]
    } else {
        Seq::empty()
    }
}

/// `m` without the words that strictly extend `p`.
pub open spec fn without_extensions<D>(m: Map<Path, Seq<D>>, p: Path) -> Map<Path, Seq<D>> {
    Map::new(|w: Path| m.contains_key(w) && !strictly_extends(w, p), |w: Path| m[w])
}

/// The association of `w` in `m`.
pub open spec fn entry<D>(m: Map<Path, Seq<D>>, w: Path) -> Option<Seq<D>> {
    if m.contains_key(w) {
        Some(m[w])
    } else {
        None
    }
}

/// The union of two word maps; a word in both keeps the values of `a`
/// followed by those of `b`.
pub open spec fn merged<D>(a: Map<Path, Seq<D>>, b: Map<Path, Seq<D>>) -> Map<Path, Seq<D>> {
    Map::new(
        |w: Path| a.contains_key(w) || b.contains_key(w),
        |w: Path| combine(entry(a, w), entry(b, w)).unwrap(),
    )
}

/// The two word maps hold the same words, with equal values.
pub open spec fn same_entries<D: PartialEq>(a: Map<Path, Seq<D>>, b: Map<Path, Seq<D>>) -> bool {
    forall|w: Path| #[trigger] assoc_eq(entry(a, w), entry(b, w))
}

impl<D> View for DataTrie<D> {
    type V = Map<Path, Seq<D>>;

    /// Each stored word, as its path, with the values attached to it.
    closed spec fn view(&self) -> Map<Path, Seq<D>> {
        Map::new(|w: Path| self.root.lookup(w) is Some, |w: Path| self.root.lookup(w).unwrap())
    }
}

impl<D> DataTrie<D> {
    /// The root holds the tree's shape invariants, ends no word, and `len`
    /// counts the stored words; each stored path is the grapheme split of its
    /// own spelling.
    pub closed spec fn wf(&self) -> bool {
        &&& self.root.wf()
        &&& self.root.word_end is None
        &&& self.len == self.root.count()
        &&& forall|w: Path| #[trigger] self@.contains_key(w) ==> key_of(flatten(w)) == w
    }

    /// Distinct words below the node of a path are spelled differently.
    proof fn lemma_node_unique(&self, q: Path)
        requires
            self.wf(),
            self.root.descend(q) is Some,
        ensures
            self.root.descend(q).unwrap().unique_spellings(),
    {
        let n = self.root.descend(q).unwrap();
        self.lemma_unique();
        assert forall|a: Path, b: Path|
            #[trigger] n.lookup(a) is Some && #[trigger] n.lookup(b) is Some && flatten(a) == flatten(b)
            implies a == b by {
            self.root.lemma_descend_lookup(q, a);
            self.root.lemma_descend_lookup(q, b);
            lemma_flatten_append(q, a);
            lemma_flatten_append(q, b);
            assert(self.root.lookup(q + a) is Some && self.root.lookup(q + b) is Some);
            assert(q + a == q + b);
            assert(a =~= (q + a).subrange(q.len() as int, (q + a).len() as int));
            assert(b =~= (q + b).subrange(q.len() as int, (q + b).len() as int));
        }
    }

    /// A value is among the values from `p` (what `get_data(.., true)` hands
    /// out) exactly when it is a value of a stored word that starts with
    /// `p`, and among the values below `p` (what `remove_prefix` hands back)
    /// exactly when it is a value of a stored word that goes on past `p`.
    pub proof fn lemma_values_from(&self, p: Path, x: D)
        requires
            self.wf(),
        ensures
            self.values_from(p).contains(x) == exists|w: Path|
                #[trigger] words_from(self@.dom(), p).contains(w) && self@[w].contains(x),
            self.values_below(p).contains(x) == exists|w: Path|
                #[trigger] words_below(self@.dom(), p).contains(w) && self@[w].contains(x),
    {
        let dom = self@.dom();
        match self.root.descend(p) {
            Some(n) => {
                self.root.lemma_descend_live(p);
                n.lemma_values_contains(x);
                n.lemma_values_children_contains(n.children@.len() as int, x);
                if n.values().contains(x) {
                    let w2 = choose|w2: Path| #[trigger] n.lookup(w2) is Some && n.lookup(w2).unwrap().contains(x);
                    self.root.lemma_descend_lookup(p, w2);
                    self.lemma_view(p + w2);
                    assert((p + w2).subrange(0, p.len() as int) =~= p);
                    assert(words_from(dom, p).contains(p + w2));
                }
                if exists|w: Path| #[trigger] words_from(dom, p).contains(w) && self@[w].contains(x) {
                    let w = choose|w: Path| #[trigger] words_from(dom, p).contains(w) && self@[w].contains(x);
                    let w2 = w.subrange(p.len() as int, w.len() as int);
                    assert(w =~= p + w2);
                    self.lemma_view(w);
                    self.root.lemma_descend_lookup(p, w2);
                    assert(n.lookup(w2) is Some && n.lookup(w2).unwrap().contains(x));
                }
                let m = n.children@.len() as int;
                if n.values_children(m).contains(x) {
                    let w2 = choose|w2: Path|
                        #[trigger] n.lookup(w2) is Some && w2.len() > 0 && n.child_index(w2[0]) < m
                            && n.lookup(w2).unwrap().contains(x);
                    self.root.lemma_descend_lookup(p, w2);
                    self.lemma_view(p + w2);
                    assert((p + w2).subrange(0, p.len() as int) =~= p);
                    assert(words_below(dom, p).contains(p + w2));
                }
                if exists|w: Path| #[trigger] words_below(dom, p).contains(w) && self@[w].contains(x) {
                    let w = choose|w: Path| #[trigger] words_below(dom, p).contains(w) && self@[w].contains(x);
                    let w2 = w.subrange(p.len() as int, w.len() as int);
                    assert(w =~= p + w2);
                    self.lemma_view(w);
                    self.root.lemma_descend_lookup(p, w2);
                    assert(n.has_child(w2[0]));
                    assert(n.lookup(w2) is Some && w2.len() > 0 && n.child_index(w2[0]) < m
                        && n.lookup(w2).unwrap().contains(x));
                }
            },
            None => {
                assert forall|w: Path| #[trigger] dom.contains(w) implies !has_prefix(w, p) by {
                    if has_prefix(w, p) {
                        let w2 = w.subrange(p.len() as int, w.len() as int);
                        assert(w =~= p + w2);
                        self.lemma_view(w);
                        self.root.lemma_lookup_descend_prefix(p, w2);
                    }
                }
                assert(!Seq::<D>::empty().contains(x));
                if exists|w: Path| #[trigger] words_below(dom, p).contains(w) && self@[w].contains(x) {
                    let w = choose|w: Path| #[trigger] words_below(dom, p).contains(w) && self@[w].contains(x);
                    assert(has_prefix(w, p));
                }
            },
        }
    }

    /// The values from `p` (what `get_data(.., true)` hands out) hold each
    /// value as often as the words that start with `p` hold it together, and
    /// the values below `p` (what `remove_prefix` hands back) as often as
    /// the words that go on past `p` hold it together.
    pub proof fn lemma_values_count(&self, p: Path, x: D)
        requires
            self.wf(),
        ensures
            occurrences(self@, words_from(self@.dom(), p), x).finite(),
            self.values_from(p).to_multiset().count(x) == occurrences(self@, words_from(self@.dom(), p), x).len(),
            occurrences(self@, words_below(self@.dom(), p), x).finite(),
            self.values_below(p).to_multiset().count(x) == occurrences(self@, words_below(self@.dom(), p), x).len(),
    {
        broadcast use vstd::seq_lib::group_to_multiset_ensures;
        let dom = self@.dom();
        let from = occurrences(self@, words_from(dom, p), x);
        let below = occurrences(self@, words_below(dom, p), x);
        match self.root.descend(p) {
            Some(n) => {
                self.root.lemma_descend_live(p);
                let m = n.children@.len() as int;
                n.lemma_values_count(x);
                n.lemma_values_children_count(m, x);
                let g = |o: (Path, int)| (p + o.0, o.1);
                assert(vstd::relations::injective_on(g, n.occ(x))) by {
                    assert forall|a: (Path, int), b: (Path, int)|
                        n.occ(x).contains(a) && n.occ(x).contains(b) && #[trigger] g(a) == #[trigger] g(b)
                        implies a == b by {
                        assert(a.0 =~= g(a).0.subrange(p.len() as int, g(a).0.len() as int));
                        assert(b.0 =~= g(b).0.subrange(p.len() as int, g(b).0.len() as int));
                    }
                }
                assert(vstd::relations::injective_on(g, n.occ_under(m, x))) by {
                    assert forall|a: (Path, int), b: (Path, int)|
                        n.occ_under(m, x).contains(a) && n.occ_under(m, x).contains(b) && #[trigger] g(a)
                            == #[trigger] g(b) implies a == b by {
                        assert(a.0 =~= g(a).0.subrange(p.len() as int, g(a).0.len() as int));
                        assert(b.0 =~= g(b).0.subrange(p.len() as int, g(b).0.len() as int));
                    }
                }
                assert(from =~= n.occ(x).map(g)) by {
                    assert forall|o: (Path, int)| #[trigger] from.contains(o) implies n.occ(x).map(g).contains(o) by {
                        let w2 = o.0.subrange(p.len() as int, o.0.len() as int);
                        assert(o.0 =~= p + w2);
                        self.lemma_view(o.0);
                        self.root.lemma_descend_lookup(p, w2);
                        assert(n.occ(x).contains((w2, o.1)) && g((w2, o.1)) == o);
                    }
                    assert forall|o: (Path, int)| #[trigger] n.occ(x).map(g).contains(o) implies from.contains(o) by {
                        let o2 = choose|o2: (Path, int)| n.occ(x).contains(o2) && g(o2) == o;
                        self.root.lemma_descend_lookup(p, o2.0);
                        self.lemma_view(o.0);
                        assert(o.0.subrange(0, p.len() as int) =~= p);
                    }
                }
                assert(below =~= n.occ_under(m, x).map(g)) by {
                    assert forall|o: (Path, int)| #[trigger] below.contains(o) implies n.occ_under(m, x).map(g).contains(o) by {
                        let w2 = o.0.subrange(p.len() as int, o.0.len() as int);
                        assert(o.0 =~= p + w2);
                        self.lemma_view(o.0);
                        self.root.lemma_descend_lookup(p, w2);
                        assert(n.has_child(w2[0]));
                        assert(n.occ_under(m, x).contains((w2, o.1)) && g((w2, o.1)) == o);
                    }
                    assert forall|o: (Path, int)| #[trigger] n.occ_under(m, x).map(g).contains(o) implies below.contains(o) by {
                        let o2 = choose|o2: (Path, int)| n.occ_under(m, x).contains(o2) && g(o2) == o;
                        self.root.lemma_descend_lookup(p, o2.0);
                        self.lemma_view(o.0);
                        assert(o.0.subrange(0, p.len() as int) =~= p);
                    }
                }
                vstd::set_lib::lemma_map_size(n.occ(x), from, g);
                vstd::set_lib::lemma_map_size(n.occ_under(m, x), below, g);
            },
            None => {
                assert forall|w: Path| #[trigger] dom.contains(w) implies !has_prefix(w, p) by {
                    if has_prefix(w, p) {
                        let w2 = w.subrange(p.len() as int, w.len() as int);
                        assert(w =~= p + w2);
                        self.lemma_view(w);
                        self.root.lemma_lookup_descend_prefix(p, w2);
                    }
                }
                assert(from =~= Set::<(Path, int)>::empty());
                assert(below =~= Set::<(Path, int)>::empty());
                assert(self.values_from(p).len() == 0);
                assert(self.values_below(p).len() == 0);
            },
        }
    }

    /// Distinct stored words are spelled differently.
    proof fn lemma_unique(&self)
        requires
            self.wf(),
        ensures
            self.root.unique_spellings(),
    {
        assert forall|a: Path, b: Path|
            #[trigger] self.root.lookup(a) is Some && #[trigger] self.root.lookup(b) is Some
                && flatten(a) == flatten(b) implies a == b by {
            self.lemma_view(a);
            self.lemma_view(b);
        }
    }

    /// The number of stored words.
    pub closed spec fn size(&self) -> nat {
        self.len as nat
    }

    /// A path from the root leads to a node: some stored word starts with it.
    closed spec fn has_path(&self, p: Path) -> bool {
        self.root.descend(p) is Some
    }

    /// The number of stored words that strictly extend `p`.
    closed spec fn count_below(&self, p: Path) -> nat {
        match self.root.descend(p) {
            Some(n) => n.count_children(n.children@.len() as int),
            None => 0,
        }
    }

    /// The number of stored words that start with `p`.
    closed spec fn count_from(&self, p: Path) -> nat {
        match self.root.descend(p) {
            Some(n) => n.count(),
            None => 0,
        }
    }

    /// The values of the words that strictly extend `p`, subtree by subtree.
    pub closed spec fn values_below(&self, p: Path) -> Seq<D> {
        match self.root.descend(p) {
            Some(n) => n.values_children(n.children@.len() as int),
            None => Seq::empty(),
        }
    }

    /// The values of the words that start with `p`, subtree by subtree.
    pub closed spec fn values_from(&self, p: Path) -> Seq<D> {
        match self.root.descend(p) {
            Some(n) => n.values(),
            None => Seq::empty(),
        }
    }

    /// The path counts and tests of the tree, read off the word map.
    proof fn lemma_paths(&self, p: Path)
        requires
            self.wf(),
        ensures
            self.has_path(p) == starts_path(self@.dom(), p),
            words_from(self@.dom(), p).finite(),
            words_below(self@.dom(), p).finite(),
            self.count_from(p) == words_from(self@.dom(), p).len(),
            self.count_below(p) == words_below(self@.dom(), p).len(),
    {
        let dom = self@.dom();
        if self.root.descend(p) is Some {
            let n = self.root.descend(p).unwrap();
            self.root.lemma_descend_live(p);
            if p.len() > 0 {
                let w2 = n.lemma_live_has_word();
                self.root.lemma_descend_lookup(p, w2);
                self.lemma_view(p + w2);
                assert((p + w2).subrange(0, p.len() as int) =~= p);
                assert(dom.contains(p + w2) && has_prefix(p + w2, p));
            }
            let f = |w2: Path| p + w2;
            assert(vstd::relations::injective_on(f, n.words())) by {
                assert forall|a: Path, b: Path|
                    n.words().contains(a) && n.words().contains(b) && #[trigger] f(a) == #[trigger] f(b)
                    implies a == b by {
                    assert(a =~= f(a).subrange(p.len() as int, f(a).len() as int));
                    assert(b =~= f(b).subrange(p.len() as int, f(b).len() as int));
                }
            }
            assert(words_from(dom, p) =~= n.words().map(f)) by {
                assert forall|w: Path|
                    #[trigger] words_from(dom, p).contains(w)
                    implies n.words().map(f).contains(w) by {
                    let w2 = w.subrange(p.len() as int, w.len() as int);
                    assert(w =~= p + w2);
                    self.lemma_view(w);
                    self.root.lemma_descend_lookup(p, w2);
                    assert(n.words().contains(w2) && f(w2) == w);
                }
                assert forall|w: Path|
                    #[trigger] n.words().map(f).contains(w)
                    implies words_from(dom, p).contains(w) by {
                    let w2 = choose|w2: Path| n.words().contains(w2) && f(w2) == w;
                    self.root.lemma_descend_lookup(p, w2);
                    self.lemma_view(w);
                    assert(w.subrange(0, p.len() as int) =~= p);
                }
            }
            n.lemma_words_count();
            vstd::set_lib::lemma_map_size(n.words(), words_from(dom, p), f);
            let m = n.children@.len() as int;
            let nonempty = n.words().filter(|w2: Path| w2.len() > 0);
            assert(n.words_under(m) =~= nonempty) by {
                assert forall|w2: Path|
                    #[trigger] nonempty.contains(w2) implies n.words_under(m).contains(w2) by {
                    assert(n.has_child(w2[0]));
                }
            }
            n.lemma_words_under_count(m);
            assert(vstd::relations::injective_on(f, n.words_under(m))) by {
                assert forall|a: Path, b: Path|
                    n.words_under(m).contains(a) && n.words_under(m).contains(b) && #[trigger] f(a) == #[trigger] f(b)
                    implies a == b by {
                    assert(a =~= f(a).subrange(p.len() as int, f(a).len() as int));
                    assert(b =~= f(b).subrange(p.len() as int, f(b).len() as int));
                }
            }
            assert(words_below(dom, p) =~= n.words_under(m).map(f)) by {
                assert forall|w: Path|
                    #[trigger] words_below(dom, p).contains(w)
                    implies n.words_under(m).map(f).contains(w) by {
                    let w2 = w.subrange(p.len() as int, w.len() as int);
                    assert(w =~= p + w2);
                    self.lemma_view(w);
                    self.root.lemma_descend_lookup(p, w2);
                    assert(n.words().contains(w2));
                    assert(nonempty.contains(w2));
                    assert(f(w2) == w);
                }
                assert forall|w: Path|
                    #[trigger] n.words_under(m).map(f).contains(w)
                    implies words_below(dom, p).contains(w) by {
                    let w2 = choose|w2: Path| n.words_under(m).contains(w2) && f(w2) == w;
                    self.root.lemma_descend_lookup(p, w2);
                    self.lemma_view(w);
                    assert(w.subrange(0, p.len() as int) =~= p);
                }
            }
            vstd::set_lib::lemma_map_size(n.words_under(m), words_below(dom, p), f);
        } else {
            assert forall|w: Path| #[trigger] dom.contains(w) implies !has_prefix(w, p) by {
                if has_prefix(w, p) {
                    let w2 = w.subrange(p.len() as int, w.len() as int);
                    assert(w =~= p + w2);
                    self.lemma_view(w);
                    self.root.lemma_lookup_descend_prefix(p, w2);
                }
            }
            assert(p.len() > 0);
            assert(words_from(dom, p) =~= Set::<Path>::empty());
            assert(words_below(dom, p) =~= Set::<Path>::empty());
        }
    }

    proof fn lemma_view(&self, w: Path)
        ensures
            self@.contains_key(w) == self.root.lookup(w) is Some,
            self@.contains_key(w) ==> self@[w] == self.root.lookup(w).unwrap(),
    {
    }

    /// Returns an empty trie.
    pub fn new() -> (r: Self)
        ensures
            r.wf(),
            r@ == Map::<Path, Seq<D>>::empty(),
            r.size() == 0,
    {
        let r = DataTrie { root: TrieDataNode::new(), len: 0 };
        proof {
            assert forall|w: Path| !r@.contains_key(w) by {
                if w.len() > 0 {
                    assert(!r.root.has_child(w[0]));
                }
            }
            assert(r@ =~= Map::<Path, Seq<D>>::empty());
        }
        r
    }

    /// Stores `word` with `data` appended to the values of `word`, or
    /// creates the word without values where `data` is `None`. An empty word
    /// is not stored.
    fn insert_with(&mut self, word: &str, data: Option<D>)
        requires
            old(self).wf(),
            old(self).size() < usize::MAX,
        ensures
            final(self).wf(),
            flatten(key_of(word@)) == word@,
            word@.len() == 0 ==> final(self)@ == old(self)@ && final(self).size() == old(self).size(),
            word@.len() > 0 ==> final(self)@ == old(self)@.insert(
                key_of(word@),
                values_of(old(self)@, key_of(word@)) + opt_seq(data),
            ),
            word@.len() > 0 ==> final(self).size() == old(self).size() + (if old(self)@.contains_key(
                key_of(word@),
            ) {
                0nat
            } else {
                1nat
            }),
    {
        let characters = get_characters(word);
        proof {
            assert forall|i: int|
                0 <= i < characters@.len()
                implies (#[trigger] token_views(characters@)[i]).len() > 0 by {
                assert(characters@[i]@.len() > 0);
            }
            crate::tokens::lemma_empty_word(token_views(characters@), word@);
        }
        if characters.len() == 0 {
            return;
        }
        let ghost k = key_of(word@);
        let ghost before = *self;
        assert(rest_of(characters@, 0) =~= k);
        let added = self.root.insert_path(&characters, 0, data);
        if added {
            self.len = self.len + 1;
        }
        proof {
            before.lemma_view(k);
            assert(self.root.word_end is None) by {
                let e = Seq::<Seq<char>>::empty();
                assert(e != k);
                assert(self.root.lookup(e) == before.root.lookup(e));
            }
            let expected = old(self)@.insert(k, values_of(old(self)@, k) + opt_seq(data));
            assert forall|w: Path| #[trigger] self@.contains_key(w) == expected.contains_key(w) by {
                self.lemma_view(w);
                before.lemma_view(w);
            }
            assert(self@ =~= expected);
        }
    }

    /// Stores `word` and appends `associated_data` to its values.
    pub fn insert(&mut self, word: &str, associated_data: D)
        requires
            old(self).wf(),
            old(self).size() < usize::MAX,
        ensures
            final(self).wf(),
            flatten(key_of(word@)) == word@,
            word@.len() == 0 ==> final(self)@ == old(self)@ && final(self).size() == old(self).size(),
            word@.len() > 0 ==> final(self)@ == old(self)@.insert(
                key_of(word@),
                values_of(old(self)@, key_of(word@)).push(associated_data),
            ),
            word@.len() > 0 ==> final(self).size() == old(self).size() + (if old(self)@.contains_key(
                key_of(word@),
            ) {
                0nat
            } else {
                1nat
            }),
    {
        self.insert_with(word, Some(associated_data));
        proof {
            let k = key_of(word@);
            if word@.len() > 0 {
                assert(values_of(old(self)@, k) + opt_seq(Some(associated_data)) =~= values_of(
                    old(self)@,
                    k,
                ).push(associated_data));
            }
        }
    }

    /// Stores `word` without adding values to it: a new word gets an empty
    /// list of values, and a stored one keeps its own.
    pub fn insert_no_data(&mut self, word: &str)
        requires
            old(self).wf(),
            old(self).size() < usize::MAX,
        ensures
            final(self).wf(),
            flatten(key_of(word@)) == word@,
            word@.len() == 0 ==> final(self)@ == old(self)@ && final(self).size() == old(self).size(),
            word@.len() > 0 ==> final(self)@ == old(self)@.insert(
                key_of(word@),
                values_of(old(self)@, key_of(word@)),
            ),
            word@.len() > 0 ==> final(self).size() == old(self).size() + (if old(self)@.contains_key(
                key_of(word@),
            ) {
                0nat
            } else {
                1nat
            }),
    {
        self.insert_with(word, None);
        proof {
            let k = key_of(word@);
            if word@.len() > 0 {
                assert(values_of(old(self)@, k) + opt_seq(None::<D>) =~= values_of(old(self)@, k));
            }
        }
    }
    /// Removes `word` and hands back its values; `None` where it is not
    /// stored. Nodes left with no word to end or lead to are pruned.
    pub fn remove(&mut self, word: &str) -> (r: Option<Vec<D>>)
        requires
            old(self).wf(),
        ensures
            flatten(key_of(word@)) == word@,
            final(self).wf(),
            final(self)@ == old(self)@.remove(key_of(word@)),
            match r {
                Some(v) => old(self)@.contains_key(key_of(word@)) && v@ == old(self)@[key_of(word@)]
                    && final(self).size() + 1 == old(self).size(),
                None => !old(self)@.contains_key(key_of(word@)) && final(self).size() == old(self).size(),
            },
    {
        let characters = get_characters(word);
        let ghost k = key_of(word@);
        let ghost before = *self;
        assert(rest_of(characters@, 0) =~= k);
        let removed = self.root.remove_one_word(&characters, 0);
        proof {
            before.lemma_view(k);
            let e = Seq::<Seq<char>>::empty();
            assert(self.root.lookup(e) is None);
            assert forall|w: Path|
                #[trigger] self@.contains_key(w) == old(self)@.remove(k).contains_key(w) by {
                self.lemma_view(w);
                before.lemma_view(w);
            }
            assert(self@ =~= old(self)@.remove(k));
        }
        match removed.data {
            Some(v) => {
                self.len = self.len - 1;
                Some(v)
            },
            None => None,
        }
    }

    /// Removes every word that strictly extends `prefix` and hands back
    /// their values; `prefix` itself stays if it is a word. `None` where no
    /// stored word starts with `prefix`.
    pub fn remove_prefix(&mut self, prefix: &str) -> (r: Option<Vec<D>>)
        requires
            old(self).wf(),
        ensures
            flatten(key_of(prefix@)) == prefix@,
            final(self).wf(),
            final(self)@ == without_extensions(old(self)@, key_of(prefix@)),
            final(self).size() + words_below(old(self)@.dom(), key_of(prefix@)).len() == old(self).size(),
            match r {
                Some(v) => starts_path(old(self)@.dom(), key_of(prefix@)) && v@ == old(self).values_below(key_of(prefix@))
                    && forall|x: D| #[trigger] v@.to_multiset().count(x) == occurrences(
                        old(self)@,
                        words_below(old(self)@.dom(), key_of(prefix@)),
                        x,
                    ).len(),
                None => !starts_path(old(self)@.dom(), key_of(prefix@)),
            },
    {
        let characters = get_characters(prefix);
        let ghost k = key_of(prefix@);
        let ghost before = *self;
        assert(rest_of(characters@, 0) =~= k);
        let mut found: Vec<D> = Vec::new();
        proof {
            before.lemma_paths(k);
        }
        let removed = self.root.remove_prefix_at(&characters, 0, &mut found);
        proof {
            let e = Seq::<Seq<char>>::empty();
            assert(!strictly_extends(e, k));
            assert(self.root.lookup(e) is None);
            let m = Map::new(
                |w: Path| old(self)@.contains_key(w) && !strictly_extends(w, k),
                |w: Path| old(self)@[w],
            );
            assert forall|w: Path| #[trigger] self@.contains_key(w) == m.contains_key(w) by {
                self.lemma_view(w);
                before.lemma_view(w);
            }
            assert forall|w: Path| #[trigger] self@.contains_key(w) implies self@[w] == m[w] by {
                self.lemma_view(w);
                before.lemma_view(w);
            }
            assert(self@ =~= m);
        }
        match removed {
            Some(n) => {
                proof {
                    assert(found@ == before.values_below(k));
                    assert forall|x: D| #[trigger] found@.to_multiset().count(x) == occurrences(
                        before@,
                        words_below(before@.dom(), k),
                        x,
                    ).len() by {
                        before.lemma_values_count(k, x);
                    }
                }
                self.len = self.len - n;
                Some(found)
            },
            None => None,
        }
    }

    /// Takes the values of `word` and leaves it stored with none; `None`
    /// where `word` is not stored.
    pub fn clear_data(&mut self, word: &str) -> (r: Option<Vec<D>>)
        requires
            old(self).wf(),
        ensures
            flatten(key_of(word@)) == word@,
            final(self).wf(),
            final(self).size() == old(self).size(),
            match r {
                Some(v) => old(self)@.contains_key(key_of(word@)) && v@ == old(self)@[key_of(word@)]
                    && final(self)@ == old(self)@.insert(key_of(word@), Seq::empty()),
                None => !old(self)@.contains_key(key_of(word@)) && final(self)@ == old(self)@,
            },
    {
        let characters = get_characters(word);
        let ghost k = key_of(word@);
        let ghost before = *self;
        assert(rest_of(characters@, 0) =~= k);
        let r = self.root.clear_data_at(&characters, 0);
        proof {
            before.lemma_view(k);
            let e = Seq::<Seq<char>>::empty();
            assert(self.root.lookup(e) is None) by {
                before.lemma_view(e);
            }
            if r is Some {
                assert forall|w: Path|
                    #[trigger] self@.contains_key(w) == old(self)@.insert(k, Seq::empty()).contains_key(w) by {
                    self.lemma_view(w);
                    before.lemma_view(w);
                }
                assert(self@ =~= old(self)@.insert(k, Seq::empty()));
            } else {
                assert forall|w: Path|
                    #[trigger] self@.contains_key(w) == old(self)@.contains_key(w) by {
                    self.lemma_view(w);
                    before.lemma_view(w);
                }
                assert(self@ =~= old(self)@);
            }
        }
        r
    }

    /// The concatenation of the tokens `toks[0..]`.
    fn spelling(toks: &Vec<String>) -> (r: String)
        ensures
            r@ == flatten(token_views(toks@)),
    {
        let mut r = String::new();
        let mut i: usize = 0;
        while i < toks.len()
            invariant
                i <= toks@.len(),
                r@ == flatten(token_views(toks@).subrange(0, i as int)),
            decreases toks@.len() - i,
        {
            proof {
                lemma_flatten_push(token_views(toks@).subrange(0, i as int), toks@[i as int]@);
                assert(token_views(toks@).subrange(0, i as int).push(toks@[i as int]@) =~= token_views(toks@).subrange(0, i + 1));
            }
            r.append(toks[i].as_str());
            i = i + 1;
        }
        assert(token_views(toks@).subrange(0, toks@.len() as int) =~= token_views(toks@));
        r
    }

    /// The stored words that start with `query`, in no particular order;
    /// `None` where no stored word starts with it.
    pub fn get(&self, query: &str) -> (r: Option<Vec<String>>)
        requires
            self.wf(),
        ensures
            flatten(key_of(query@)) == query@,
            match r {
                Some(v) => starts_path(self@.dom(), key_of(query@))
                    && v@.len() == words_from(self@.dom(), key_of(query@)).len()
                    && distinct_strings(v@)
                    && (forall|j: int| 0 <= j < v@.len() ==> spells_word(self@.dom(), key_of(query@), (#[trigger] v@[j])@))
                    && (forall|w: Path| #[trigger] self@.contains_key(w) && has_prefix(w, key_of(query@))
                        ==> listed(v@, 0, flatten(w))),
                None => !starts_path(self@.dom(), key_of(query@)),
            },
    {
        let characters = get_characters(query);
        let ghost q = key_of(query@);
        assert(rest_of(characters@, 0) =~= q);
        proof {
            self.lemma_paths(q);
        }
        match self.root.final_node(&characters, 0) {
            None => None,
            Some(node) => {
                let prefix = Self::spelling(&characters);
                let mut words: Vec<String> = Vec::new();
                proof {
                    self.lemma_node_unique(q);
                }
                node.find_words(&prefix, &mut words);
                proof {
                    assert forall|j: int|
                        0 <= j < words@.len()
                        implies spells_word(self@.dom(), q, (#[trigger] words@[j])@) by {
                        assert(node.spells(prefix@, words@[j]@));
                        let w2 = choose|w2: Path|
                            #[trigger] node.lookup(w2) is Some && words@[j]@ == prefix@ + flatten(w2);
                        self.root.lemma_descend_lookup(q, w2);
                        lemma_flatten_append(q, w2);
                        self.lemma_view(q + w2);
                        assert((q + w2).subrange(0, q.len() as int) =~= q);
                    }
                    assert forall|w: Path|
                        #[trigger] self@.contains_key(w) && has_prefix(w, q)
                        implies listed(words@, 0, flatten(w)) by {
                        let w2 = w.subrange(q.len() as int, w.len() as int);
                        assert(w =~= q + w2);
                        self.lemma_view(w);
                        self.root.lemma_descend_lookup(q, w2);
                        lemma_flatten_append(q, w2);
                        assert(node.lookup(w2) is Some);
                    }
                }
                Some(words)
            },
        }
    }

    /// Every stored word, in no particular order.
    pub fn get_all(&self) -> (r: Vec<String>)
        requires
            self.wf(),
        ensures
            r@.len() == self.size(),
            distinct_strings(r@),
            forall|j: int| 0 <= j < r@.len() ==> spells_word(self@.dom(), Seq::empty(), (#[trigger] r@[j])@),
            forall|w: Path| #[trigger] self@.contains_key(w) ==> listed(r@, 0, flatten(w)),
    {
        let mut words: Vec<String> = Vec::new();
        let prefix = String::new();
        proof {
            self.lemma_unique();
        }
        self.root.find_words(&prefix, &mut words);
        proof {
            assert forall|j: int|
                0 <= j < words@.len()
                implies spells_word(self@.dom(), Seq::empty(), (#[trigger] words@[j])@) by {
                assert(self.root.spells(prefix@, words@[j]@));
                let w = choose|w: Path|
                    #[trigger] self.root.lookup(w) is Some && words@[j]@ == prefix@ + flatten(w);
                self.lemma_view(w);
                assert(prefix@ + flatten(w) =~= flatten(w));
                assert(w.subrange(0, 0) =~= Seq::<Seq<char>>::empty());
            }
            assert forall|w: Path|
                #[trigger] self@.contains_key(w) implies listed(words@, 0, flatten(w)) by {
                self.lemma_view(w);
                assert(prefix@ + flatten(w) =~= flatten(w));
            }
        }
        words
    }

    /// Whether `query` is a stored word.
    pub fn contains(&self, query: &str) -> (r: bool)
        requires
            self.wf(),
        ensures
            flatten(key_of(query@)) == query@,
            r == self@.contains_key(key_of(query@)),
    {
        let characters = get_characters(query);
        let ghost q = key_of(query@);
        assert(rest_of(characters@, 0) =~= q);
        proof {
            self.root.lemma_lookup_descend(q);
            self.lemma_view(q);
        }
        match self.root.final_node(&characters, 0) {
            None => false,
            Some(node) => node.word_end.is_some(),
        }
    }

    /// The values of `query` where `soft_match` is false, `None` where it
    /// is not a stored word. Where `soft_match` is true, the values of every
    /// stored word that starts with `query`, `None` where there is none.
    pub fn get_data(&self, query: &str, soft_match: bool) -> (r: Option<Vec<&D>>)
        requires
            self.wf(),
        ensures
            flatten(key_of(query@)) == query@,
            soft_match ==> match r {
                Some(v) => starts_path(self@.dom(), key_of(query@)) && deref_all(v@) == self.values_from(key_of(query@))
                    && forall|x: D| #[trigger] deref_all(v@).to_multiset().count(x) == occurrences(
                        self@,
                        words_from(self@.dom(), key_of(query@)),
                        x,
                    ).len(),
                None => !starts_path(self@.dom(), key_of(query@)),
            },
            !soft_match ==> match r {
                Some(v) => self@.contains_key(key_of(query@)) && deref_all(v@) == self@[key_of(query@)],
                None => !self@.contains_key(key_of(query@)),
            },
    {
        let characters = get_characters(query);
        let ghost q = key_of(query@);
        assert(rest_of(characters@, 0) =~= q);
        proof {
            self.root.lemma_lookup_descend(q);
            self.lemma_view(q);
            self.lemma_paths(q);
        }
        match self.root.final_node(&characters, 0) {
            None => None,
            Some(node) => {
                if soft_match {
                    let mut found: Vec<&D> = Vec::new();
                    node.generate_all_data(&mut found);
                    proof {
                        assert(deref_all(Seq::<&D>::empty()) =~= Seq::<D>::empty());
                        assert(deref_all(found@) =~= node.values());
                        assert forall|x: D| #[trigger] self.values_from(q).to_multiset().count(x) == occurrences(
                            self@,
                            words_from(self@.dom(), q),
                            x,
                        ).len() by {
                            self.lemma_values_count(q, x);
                        }
                    }
                    Some(found)
                } else {
                    match &node.word_end {
                        None => None,
                        Some(data) => {
                            let mut found: Vec<&D> = Vec::new();
                            let mut j: usize = 0;
                            while j < data.len()
                                invariant
                                    j <= data@.len(),
                                    deref_all(found@) == data@.subrange(0, j as int),
                                decreases data@.len() - j,
                            {
                                let ghost before = found@;
                                found.push(&data[j]);
                                proof {
                                    assert(deref_all(found@) =~= deref_all(before).push(data@[j as int]));
                                    assert(deref_all(found@) =~= data@.subrange(0, j + 1));
                                }
                                j = j + 1;
                            }
                            assert(data@.subrange(0, data@.len() as int) =~= data@);
                            Some(found)
                        },
                    }
                }
            },
        }
    }

    fn extreme_words(&self, ord: Ordering) -> (r: Vec<String>)
        requires
            self.wf(),
            !(ord is Equal),
        ensures
            extremes(self@.dom(), ord, r@),
    {
        let mut words: Vec<String> = Vec::new();
        let prefix = String::new();
        proof {
            self.lemma_unique();
        }
        self.root.words_min_max(&prefix, &mut words, ord);
        proof {
            assert forall|j: int|
                0 <= j < words@.len()
                implies spells_word(self@.dom(), Seq::empty(), (#[trigger] words@[j])@) by {
                assert(self.root.spells(prefix@, words@[j]@));
                let w = choose|w: Path|
                    #[trigger] self.root.lookup(w) is Some && words@[j]@ == prefix@ + flatten(w);
                self.lemma_view(w);
                assert(prefix@ + flatten(w) =~= flatten(w));
                assert(w.subrange(0, 0) =~= Seq::<Seq<char>>::empty());
            }
            assert forall|w: Path|
                #[trigger] self@.dom().contains(w) implies settles(words@, ord, flatten(w)) by {
                self.lemma_view(w);
                assert(prefix@ + flatten(w) =~= flatten(w));
            }
        }
        words
    }

    /// The stored words of the greatest length in bytes, all of them where
    /// several tie; empty for an empty trie.
    pub fn get_longest(&self) -> (r: Vec<String>)
        requires
            self.wf(),
        ensures
            extremes(self@.dom(), Ordering::Greater, r@),
    {
        self.extreme_words(Ordering::Greater)
    }

    /// The stored words of the least length in bytes, all of them where
    /// several tie; empty for an empty trie.
    pub fn get_shortest(&self) -> (r: Vec<String>)
        requires
            self.wf(),
        ensures
            extremes(self@.dom(), Ordering::Less, r@),
    {
        self.extreme_words(Ordering::Less)
    }

    /// Moves every word of `rhs` into this trie; a word stored in both keeps
    /// this trie's values followed by those of `rhs`.
    pub fn add_assign(&mut self, rhs: Self)
        requires
            old(self).wf(),
            rhs.wf(),
            old(self).size() + rhs.size() <= usize::MAX,
        ensures
            final(self).wf(),
            final(self)@ == merged(old(self)@, rhs@),
    {
        let ghost before = *self;
        let ghost r0 = rhs;
        let rhs_len = rhs.len;
        let shared = self.root.add_assign(rhs.root);
        self.len = self.len + rhs_len - shared;
        proof {
            let e = Seq::<Seq<char>>::empty();
            assert(self.root.lookup(e) == combine(before.root.lookup(e), r0.root.lookup(e)));
            assert forall|w: Path|
                #[trigger] self@.contains_key(w) == merged(before@, r0@).contains_key(w) by {
                self.lemma_view(w);
                before.lemma_view(w);
                r0.lemma_view(w);
            }
            assert forall|w: Path|
                #[trigger] self@.contains_key(w) implies self@[w] == merged(before@, r0@)[w] by {
                self.lemma_view(w);
                before.lemma_view(w);
                r0.lemma_view(w);
            }
            assert(self@ =~= merged(before@, r0@));
        }
    }

    /// The union of two tries. The trie with fewer words is moved into the
    /// other, so a word stored in both keeps the larger trie's values first.
    pub fn add(self, rhs: Self) -> (r: Self)
        requires
            self.wf(),
            rhs.wf(),
            self.size() + rhs.size() <= usize::MAX,
        ensures
            r.wf(),
            r@ == (if self.size() < rhs.size() { merged(rhs@, self@) } else { merged(self@, rhs@) }),
    {
        if self.len < rhs.len {
            let mut bigger = rhs;
            bigger.add_assign(self);
            bigger
        } else {
            let mut bigger = self;
            bigger.add_assign(rhs);
            bigger
        }
    }

    /// The number of stored words.
    pub fn len(&self) -> (r: usize)
        ensures
            r == self.size(),
    {
        self.len
    }

    /// Whether no word is stored.
    pub fn is_empty(&self) -> (r: bool)
        requires
            self.wf(),
        ensures
            r == (self.size() == 0),
    {
        self.len == 0
    }

    /// Removes every word.
    pub fn clear(&mut self)
        ensures
            final(self).wf(),
            final(self)@ == Map::<Path, Seq<D>>::empty(),
            final(self).size() == 0,
    {
        self.root = TrieDataNode::new();
        self.len = 0;
        proof {
            assert forall|w: Path| !self@.contains_key(w) by {
                if w.len() > 0 {
                    assert(!self.root.has_child(w[0]));
                }
            }
            assert(self@ =~= Map::<Path, Seq<D>>::empty());
        }
    }
}


/// A trie that stores words only. It is a trie of values of `()` in which
/// no word ever gets a value.
#[derive(Debug)]
pub struct Trie {
    words: DataTrie<()>,
}

impl View for Trie {
    type V = Set<Path>;

    /// The stored words, as paths.
    closed spec fn view(&self) -> Set<Path> {
        self.words@.dom()
    }
}

impl Trie {
    /// The underlying trie is well formed and holds no value.
    pub closed spec fn wf(&self) -> bool {
        &&& self.words.wf()
        &&& forall|w: Path| #[trigger] self.words@.contains_key(w) ==> self.words@[w].len() == 0
    }

    /// The number of stored words.
    pub closed spec fn size(&self) -> nat {
        self.words.size()
    }

    /// Returns an empty trie.
    pub fn new() -> (r: Self)
        ensures
            r.wf(),
            r@ == Set::<Path>::empty(),
            r.size() == 0,
    {
        let r = Trie { words: DataTrie::new() };
        assert(r@ =~= Set::<Path>::empty());
        r
    }

    /// Stores `word`. An empty word is not stored.
    pub fn insert(&mut self, word: &str)
        requires
            old(self).wf(),
            old(self).size() < usize::MAX,
        ensures
            final(self).wf(),
            flatten(key_of(word@)) == word@,
            word@.len() == 0 ==> final(self)@ == old(self)@ && final(self).size() == old(self).size(),
            word@.len() > 0 ==> final(self)@ == old(self)@.insert(key_of(word@)),
            word@.len() > 0 ==> final(self).size() == old(self).size() + (if old(self)@.contains(
                key_of(word@),
            ) {
                0nat
            } else {
                1nat
            }),
    {
        self.words.insert_no_data(word);
        proof {
            let k = key_of(word@);
            if word@.len() > 0 {
                assert(self@ =~= old(self)@.insert(k));
            }
        }
    }

    /// Removes `word`, if it is stored. Nodes left with no word to end or
    /// lead to are pruned.
    pub fn remove(&mut self, word: &str)
        requires
            old(self).wf(),
        ensures
            flatten(key_of(word@)) == word@,
            final(self).wf(),
            final(self)@ == old(self)@.remove(key_of(word@)),
            final(self).size() == old(self).size() - (if old(self)@.contains(key_of(word@)) { 1int } else { 0int }),
    {
        let _ = self.words.remove(word);
        assert(self@ =~= old(self)@.remove(key_of(word@)));
    }

    /// Removes every word that strictly extends `prefix`; `prefix` itself
    /// stays if it is a word.
    pub fn remove_prefix(&mut self, prefix: &str)
        requires
            old(self).wf(),
        ensures
            flatten(key_of(prefix@)) == prefix@,
            final(self).wf(),
            final(self)@ == old(self)@.filter(|w: Path| !strictly_extends(w, key_of(prefix@))),
            final(self).size() + words_below(old(self)@, key_of(prefix@)).len() == old(self).size(),
    {
        let _ = self.words.remove_prefix(prefix);
        assert(self@ =~= old(self)@.filter(|w: Path| !strictly_extends(w, key_of(prefix@))));
    }

    /// The stored words that start with `query`, in no particular order;
    /// `None` where no stored word starts with it.
    pub fn get(&self, query: &str) -> (r: Option<Vec<String>>)
        requires
            self.wf(),
        ensures
            flatten(key_of(query@)) == query@,
            match r {
                Some(v) => starts_path(self@, key_of(query@))
                    && v@.len() == words_from(self@, key_of(query@)).len()
                    && distinct_strings(v@)
                    && (forall|j: int| 0 <= j < v@.len() ==> spells_word(self@, key_of(query@), (#[trigger] v@[j])@))
                    && (forall|w: Path| #[trigger] self@.contains(w) && has_prefix(w, key_of(query@))
                        ==> listed(v@, 0, flatten(w))),
                None => !starts_path(self@, key_of(query@)),
            },
    {
        self.words.get(query)
    }

    /// Every stored word, in no particular order.
    pub fn get_all(&self) -> (r: Vec<String>)
        requires
            self.wf(),
        ensures
            r@.len() == self.size(),
            distinct_strings(r@),
            forall|j: int| 0 <= j < r@.len() ==> spells_word(self@, Seq::empty(), (#[trigger] r@[j])@),
            forall|w: Path| #[trigger] self@.contains(w) ==> listed(r@, 0, flatten(w)),
    {
        self.words.get_all()
    }

    /// Whether `query` is a stored word.
    pub fn contains(&self, query: &str) -> (r: bool)
        requires
            self.wf(),
        ensures
            flatten(key_of(query@)) == query@,
            r == self@.contains(key_of(query@)),
    {
        self.words.contains(query)
    }

    /// The stored words of the greatest length in bytes, all of them where
    /// several tie; empty for an empty trie.
    pub fn get_longest(&self) -> (r: Vec<String>)
        requires
            self.wf(),
        ensures
            extremes(self@, Ordering::Greater, r@),
    {
        self.words.get_longest()
    }

    /// The stored words of the least length in bytes, all of them where
    /// several tie; empty for an empty trie.
    pub fn get_shortest(&self) -> (r: Vec<String>)
        requires
            self.wf(),
        ensures
            extremes(self@, Ordering::Less, r@),
    {
        self.words.get_shortest()
    }

    /// Moves every word of `rhs` into this trie.
    pub fn add_assign(&mut self, rhs: Self)
        requires
            old(self).wf(),
            rhs.wf(),
            old(self).size() + rhs.size() <= usize::MAX,
        ensures
            final(self).wf(),
            final(self)@ == old(self)@.union(rhs@),
    {
        let ghost a = self.words@;
        let ghost b = rhs.words@;
        self.words.add_assign(rhs.words);
        proof {
            assert forall|w: Path|
                #[trigger] self.words@.contains_key(w) implies self.words@[w].len() == 0 by {
                if a.contains_key(w) && b.contains_key(w) {
                    assert(a[w].len() == 0 && b[w].len() == 0);
                } else if a.contains_key(w) {
                    assert(a[w].len() == 0);
                } else {
                    assert(b[w].len() == 0);
                }
            }
            assert(self@ =~= old(self)@.union(rhs@));
        }
    }

    /// The union of two tries; the trie with fewer words is moved into the
    /// other.
    pub fn add(self, rhs: Self) -> (r: Self)
        requires
            self.wf(),
            rhs.wf(),
            self.size() + rhs.size() <= usize::MAX,
        ensures
            r.wf(),
            r@ == self@.union(rhs@),
    {
        if self.len() < rhs.len() {
            let mut bigger = rhs;
            bigger.add_assign(self);
            proof {
                assert(bigger@ =~= self@.union(rhs@));
            }
            bigger
        } else {
            let mut bigger = self;
            bigger.add_assign(rhs);
            bigger
        }
    }

    /// Whether both tries hold the same words.
    pub fn equals(&self, other: &Self) -> (r: bool)
        requires
            self.wf(),
            other.wf(),
        ensures
            r == (self@ == other@),
    {
        let r = self.words.same_as(&other.words);
        proof {
            if r {
                assert forall|w: Path| #[trigger] self@.contains(w) == other@.contains(w) by {
                    assert(assoc_eq(entry(self.words@, w), entry(other.words@, w)));
                }
                assert(self@ =~= other@);
            } else {
                let w = choose|w: Path|
                    !#[trigger] assoc_eq(entry(self.words@, w), entry(other.words@, w));
                if self@.contains(w) && other@.contains(w) {
                    assert(self.words@[w].len() == 0 && other.words@[w].len() == 0);
                }
                assert(self@.contains(w) != other@.contains(w));
            }
        }
        r
    }

    /// The number of stored words.
    pub fn len(&self) -> (r: usize)
        ensures
            r == self.size(),
    {
        self.words.len()
    }

    /// Whether no word is stored.
    pub fn is_empty(&self) -> (r: bool)
        requires
            self.wf(),
        ensures
            r == (self.size() == 0),
    {
        self.words.is_empty()
    }

    /// Removes every word.
    pub fn clear(&mut self)
        ensures
            final(self).wf(),
            final(self)@ == Set::<Path>::empty(),
            final(self).size() == 0,
    {
        self.words.clear();
        assert(self@ =~= Set::<Path>::empty());
    }
}

impl<D: PartialEq> DataTrie<D> {
    /// Every stored word has an empty list of values.
    pub open spec fn valueless(&self) -> bool {
        forall|w: Path| #[trigger] self@.contains_key(w) ==> self@[w].len() == 0
    }

    /// Compares the two tries; exact where the values obey their `eq_spec`,
    /// or where neither trie holds a value.
    fn same_as(&self, other: &Self) -> (r: bool)
        ensures
            self.wf() && other.wf() && (D::obeys_eq_spec() || (self.valueless() && other.valueless()))
                ==> r == same_entries(self@, other@),
    {
        let r = self.root.eq(&other.root);
        proof {
            if self.wf() && other.wf() && (D::obeys_eq_spec() || (self.valueless() && other.valueless())) {
                self.lemma_same_entries(other);
                if !D::obeys_eq_spec() {
                    assert forall|w: Path|
                        #[trigger] self.root.lookup(w) is Some
                        implies self.root.lookup(w).unwrap().len() == 0 by {
                        self.lemma_view(w);
                    }
                    assert forall|w: Path|
                        #[trigger] other.root.lookup(w) is Some
                        implies other.root.lookup(w).unwrap().len() == 0 by {
                        other.lemma_view(w);
                    }
                }
            }
        }
        r
    }

    proof fn lemma_same_entries(&self, other: &Self)
        ensures
            same_entries(self@, other@) == self.root.same_words(other.root),
    {
        assert forall|w: Path|
            #[trigger] assoc_eq(entry(self@, w), entry(other@, w)) == assoc_eq(self.root.lookup(w), other.root.lookup(w)) by {
            self.lemma_view(w);
            other.lemma_view(w);
        }
        if self.root.same_words(other.root) {
            assert forall|w: Path| #[trigger] assoc_eq(entry(self@, w), entry(other@, w)) by {
                assert(assoc_eq(self.root.lookup(w), other.root.lookup(w)));
            }
        } else {
            let w = choose|w: Path| !assoc_eq(#[trigger] self.root.lookup(w), other.root.lookup(w));
            assert(!assoc_eq(entry(self@, w), entry(other@, w)));
        }
    }

    /// Whether both tries hold the same words with equal values.
    pub fn equals(&self, other: &Self) -> (r: bool)
        requires
            self.wf(),
            other.wf(),
        ensures
            D::obeys_eq_spec() || (self.valueless() && other.valueless()) ==> r == same_entries(
                self@,
                other@,
            ),
    {
        self.same_as(other)
    }
}

impl<D: PartialEq> PartialEq for DataTrie<D> {
    fn eq(&self, other: &Self) -> (r: bool)
        ensures
            self.wf() && other.wf() && (D::obeys_eq_spec() || (self.valueless() && other.valueless()))
                ==> r == same_entries(self@, other@),
    {
        self.same_as(other)
    }
}

impl<D: PartialEq> vstd::std_specs::cmp::PartialEqSpecImpl for DataTrie<D> {
    open spec fn obeys_eq_spec() -> bool {
        false
    }

    open spec fn eq_spec(&self, other: &Self) -> bool {
        same_entries(self@, other@)
    }
}

impl PartialEq for Trie {
    fn eq(&self, other: &Self) -> (r: bool)
        ensures
            self.wf() && other.wf() ==> r == (self@ == other@),
    {
        let r = self.words.same_as(&other.words);
        proof {
            if self.wf() && other.wf() {
                if r {
                    assert forall|w: Path| #[trigger] self@.contains(w) == other@.contains(w) by {
                        assert(assoc_eq(entry(self.words@, w), entry(other.words@, w)));
                    }
                    assert(self@ =~= other@);
                } else {
                    let w = choose|w: Path|
                        !#[trigger] assoc_eq(entry(self.words@, w), entry(other.words@, w));
                    if self@.contains(w) && other@.contains(w) {
                        assert(self.words@[w].len() == 0 && other.words@[w].len() == 0);
                    }
                    assert(self@.contains(w) != other@.contains(w));
                }
            }
        }
        r
    }
}

impl vstd::std_specs::cmp::PartialEqSpecImpl for Trie {
    open spec fn obeys_eq_spec() -> bool {
        false
    }

    open spec fn eq_spec(&self, other: &Self) -> bool {
        self@ == other@
    }
}

/// Storing a word makes it a stored word, and removing it afterwards makes
/// it absent again, whatever else the trie holds. (The empty word is never
/// stored.)
pub proof fn law_insert_then_remove<D>(t: &DataTrie<D>, word: Seq<char>, data: D)
    requires
        t.wf(),
        key_of(word).len() > 0,
    ensures
        ({
            let k = key_of(word);
            let stored = t@.insert(k, values_of(t@, k).push(data));
            &&& stored.contains_key(k)
            &&& !stored.remove(k).contains_key(k)
            &&& !t@.contains_key(k) ==> stored[k] == seq![data] && stored.remove(k) == t@
        }),
{
    let k = key_of(word);
    let stored = t@.insert(k, values_of(t@, k).push(data));
    if !t@.contains_key(k) {
        assert(stored[k] =~= seq![data]);
        assert(stored.remove(k) =~= t@);
    }
}

/// In a trie without data, storing a word makes it a stored word; removing
/// it right after a store that added it gives back the trie as it was.
pub proof fn law_insert_then_remove_dataless(t: &Trie, word: Seq<char>)
    requires
        t.wf(),
        key_of(word).len() > 0,
    ensures
        t@.insert(key_of(word)).contains(key_of(word)),
        !t@.insert(key_of(word)).remove(key_of(word)).contains(key_of(word)),
        !t@.contains(key_of(word)) ==> t@.insert(key_of(word)).remove(key_of(word)) == t@,
{
    let k = key_of(word);
    if !t@.contains(k) {
        assert(t@.insert(k).remove(k) =~= t@);
    }
}

/// Two tries without data merge to the same words in either order, and
/// the merge holds exactly the words of both.
pub proof fn law_merge_dataless(a: &Trie, b: &Trie)
    requires
        a.wf(),
        b.wf(),
    ensures
        a@.union(b@) == b@.union(a@),
{
    assert(a@.union(b@) =~= b@.union(a@));
}

/// The number of words that a trie reports is the number of distinct words
/// it holds.
pub proof fn law_len_counts_words<D>(t: &DataTrie<D>)
    requires
        t.wf(),
    ensures
        t@.dom().finite(),
        t.size() == t@.dom().len(),
{
    t.root.lemma_words_count();
    assert(t@.dom() =~= t.root.words());
}

/// The number of words that a trie without data reports is the number of
/// distinct words it holds.
pub proof fn law_len_counts_words_dataless(t: &Trie)
    requires
        t.wf(),
    ensures
        t@.finite(),
        t.size() == t@.len(),
{
    law_len_counts_words(&t.words);
}

/// Removing by prefix keeps the prefix itself as it was, and removes every
/// word that goes on past it.
pub proof fn law_prefix_keeps_itself<D>(t: &DataTrie<D>, prefix: Seq<char>)
    requires
        t.wf(),
    ensures
        ({
            let p = key_of(prefix);
            let after = without_extensions(t@, p);
            &&& after.contains_key(p) == t@.contains_key(p)
            &&& after.contains_key(p) ==> after[p] == t@[p]
            &&& forall|w: Path| strictly_extends(w, p) ==> !#[trigger] after.contains_key(w)
        }),
{
}

/// Storing a word twice with two values keeps both, in the order given.
pub proof fn law_values_accumulate<D>(t: &DataTrie<D>, word: Seq<char>, first: D, second: D)
    requires
        t.wf(),
        key_of(word).len() > 0,
    ensures
        ({
            let k = key_of(word);
            let once = t@.insert(k, values_of(t@, k).push(first));
            let twice = once.insert(k, values_of(once, k).push(second));
            twice[k] == values_of(t@, k) + seq![first, second]
        }),
{
    let k = key_of(word);
    let once = t@.insert(k, values_of(t@, k).push(first));
    assert(values_of(once, k).push(second) =~= values_of(t@, k) + seq![first, second]);
}

/// Two tries with no word in common merge to the same trie in either order,
/// and the merge holds exactly the words of both.
pub proof fn law_merge_disjoint<D>(a: &DataTrie<D>, b: &DataTrie<D>)
    requires
        a.wf(),
        b.wf(),
        a@.dom().disjoint(b@.dom()),
    ensures
        merged(a@, b@) == merged(b@, a@),
        merged(a@, b@).dom() == a@.dom().union(b@.dom()),
{
    assert(merged(a@, b@) =~= merged(b@, a@));
    assert(merged(a@, b@).dom() =~= a@.dom().union(b@.dom()));
}

/// A trie that was cleared holds nothing, counts nothing, and equals a newly
/// made trie.
pub proof fn law_cleared_equals_new<D: PartialEq>(cleared: &DataTrie<D>, fresh: &DataTrie<D>)
    requires
        cleared@ == Map::<Path, Seq<D>>::empty(),
        fresh@ == Map::<Path, Seq<D>>::empty(),
    ensures
        cleared@.dom().len() == 0,
        cleared.valueless() && fresh.valueless(),
        same_entries(cleared@, fresh@),
{
    assert(cleared@.dom() =~= Set::<Path>::empty());
}
} // verus!
