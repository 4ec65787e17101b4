//! Trie nodes: their model as a map from paths to values, the shape
//! invariant, and the lemmas that the node operations share.
use std::cmp::Ordering;
use vstd::prelude::*;
use vstd::std_specs::cmp::PartialEqSpec;

mod compare;
mod insert;
mod merge;
mod remove;
mod traverse;

verus! {

/// A node of a trie: the children, each under its token, and the word-end
/// association, present exactly when a stored word ends here. A word that
/// ends here carries the list of values attached to it (empty for a trie
/// without data).
#[derive(Debug)]
pub struct TrieDataNode<D> {
    pub(crate) children: Vec<(String, TrieDataNode<D>)>,
    pub(crate) word_end: Option<Vec<D>>,
}

/// The node of a trie that stores words without data.
pub type TrieDatalessNode = TrieDataNode<()>;

/// A word as the sequence of its tokens.
pub type Path = Seq<Seq<char>>;

/// No two entries of a child list share a token.
pub(crate) open spec fn distinct_tokens<D>(cs: Seq<(String, TrieDataNode<D>)>) -> bool {
    forall|i: int, j: int|
        0 <= i < cs.len() && 0 <= j < cs.len() && i != j ==> (#[trigger] cs[i]).0@ != (
        #[trigger] cs[j]).0@
}

/// The concatenation of the tokens of a path.
pub open spec fn flatten(w: Path) -> Seq<char>
    decreases w.len(),
{
    if w.len() == 0 {
        Seq::empty()
    } else {
        w[0] + flatten(w.drop_first())
    }
}

impl<D> TrieDataNode<D> {
    /// The node is the end of a stored word.
    pub(crate) open spec fn is_word_end(self) -> bool {
        self.word_end is Some
    }

    /// The node has a reason to exist below the root: it ends a word or
    /// leads to one.
    pub(crate) open spec fn live(self) -> bool {
        self.word_end is Some || self.children@.len() > 0
    }

    pub(crate) open spec fn has_child(self, t: Seq<char>) -> bool {
        exists|i: int| 0 <= i < self.children@.len() && (#[trigger] self.children@[i]).0@ == t
    }

    pub(crate) open spec fn child_index(self, t: Seq<char>) -> int {
        choose|i: int| 0 <= i < self.children@.len() && (#[trigger] self.children@[i]).0@ == t
    }

    pub(crate) open spec fn child(self, t: Seq<char>) -> TrieDataNode<D> {
        self.children@[self.child_index(t)].1
    }

    /// The values attached to the word `w` below this node, or `None` where
    /// no stored word follows the path `w` from here.
    pub(crate) open spec fn lookup(self, w: Path) -> Option<Seq<D>>
        decreases w.len(),
    {
        if w.len() == 0 {
            match self.word_end {
                Some(v) => Some(v@),
                None => None,
            }
        } else if self.has_child(w[0]) {
            self.child(w[0]).lookup(w.drop_first())
        } else {
            None
        }
    }

    /// Well-formed: tokens are unique among siblings, and every node below
    /// this one is live.
    pub(crate) open spec fn wf(self) -> bool
        decreases self,
    {
        &&& distinct_tokens(self.children@)
        &&& forall|i: int|
            0 <= i < self.children@.len() ==> (#[trigger] self.children@[i]).1.wf()
                && self.children@[i].1.live()
    }

    /// The number of stored words ending in this node or below it.
    pub(crate) open spec fn count(self) -> nat
        decreases self, self.children@.len() + 1,
    {
        (if self.word_end is Some { 1nat } else { 0nat }) + self.count_children(
            self.children@.len() as int,
        )
    }

    /// The number of stored words in the first `k` child subtrees.
    pub(crate) open spec fn count_children(self, k: int) -> nat
        decreases self, k,
    {
        if k <= 0 || k > self.children@.len() {
            0
        } else {
            self.count_children(k - 1) + self.children@[k - 1].1.count()
        }
    }

    pub(crate) proof fn lemma_child_at(self, k: int)
        requires
            distinct_tokens(self.children@),
            0 <= k < self.children@.len(),
        ensures
            self.has_child(self.children@[k].0@),
            self.child_index(self.children@[k].0@) == k,
            self.child(self.children@[k].0@) == self.children@[k].1,
    {
        let t = self.children@[k].0@;
        assert(self.has_child(t));
        let j = self.child_index(t);
        assert(self.children@[j].0@ == t);
    }

    /// Returns a node with no children that ends no word.
    pub(crate) fn new() -> (r: Self)
        ensures
            r.children@.len() == 0,
            r.word_end is None,
            r.wf(),
            r.count() == 0,
    {
        TrieDataNode { children: Vec::new(), word_end: None }
    }
}


/// The words below a node, each prefixed with the first `i` tokens of
/// `toks` removed: the part of the path that is still to walk.
pub open spec fn rest_of(toks: Seq<String>, i: int) -> Path {
    crate::tokens::token_views(toks).subrange(i, toks.len() as int)
}

/// What an optional value adds to a list of values.
pub open spec fn opt_seq<D>(d: Option<D>) -> Seq<D> {
    match d {
        Some(x) => seq![x],
        None => Seq::empty(),
    }
}

/// The list of values of an association, empty where there is none.
pub open spec fn values_or_empty<D>(v: Option<Seq<D>>) -> Seq<D> {
    match v {
        Some(s) => s,
        None => Seq::empty(),
    }
}

impl<D> TrieDataNode<D> {
    /// Two nodes whose first `k` children are the same have the same number
    /// of words in them.
    pub(crate) proof fn lemma_count_children_prefix(a: Self, b: Self, k: int)
        requires
            0 <= k <= a.children@.len(),
            k <= b.children@.len(),
            forall|i: int| 0 <= i < k ==> a.children@[i].1 == b.children@[i].1,
        ensures
            a.count_children(k) == b.count_children(k),
        decreases k,
    {
        if k > 0 {
            Self::lemma_count_children_prefix(a, b, k - 1);
        }
    }

    /// Replacing child `j` changes the count of a prefix that holds it by the
    /// difference of the two subtrees.
    pub(crate) proof fn lemma_count_children_update(a: Self, b: Self, j: int, k: int)
        requires
            a.children@.len() == b.children@.len(),
            0 <= j < k <= a.children@.len(),
            forall|i: int| 0 <= i < a.children@.len() && i != j ==> a.children@[i].1 == b.children@[i].1,
        ensures
            a.count_children(k) + b.children@[j].1.count() == b.count_children(k)
                + a.children@[j].1.count(),
        decreases k,
    {
        if k - 1 == j {
            Self::lemma_count_children_prefix(a, b, j);
        } else {
            Self::lemma_count_children_update(a, b, j, k - 1);
        }
    }

    /// Nodes whose children carry the same tokens in the same places find
    /// each token in the same place.
    pub(crate) proof fn lemma_same_tokens(a: Self, b: Self)
        requires
            distinct_tokens(a.children@),
            a.children@.len() == b.children@.len(),
            forall|i: int| 0 <= i < a.children@.len() ==> a.children@[i].0@ == b.children@[i].0@,
        ensures
            distinct_tokens(b.children@),
            forall|t: Seq<char>| a.has_child(t) ==> b.has_child(t) && #[trigger] a.child_index(t) == b.child_index(t),
            forall|t: Seq<char>| #[trigger] b.has_child(t) ==> a.has_child(t),
    {
        assert forall|t: Seq<char>|
            a.has_child(t)
            implies b.has_child(t) && #[trigger] a.child_index(t) == b.child_index(t) by {
            let k = a.child_index(t);
            a.lemma_child_at(k);
            b.lemma_child_at(k);
        }
        assert forall|t: Seq<char>| #[trigger] b.has_child(t) implies a.has_child(t) by {
            let k = b.child_index(t);
            assert(a.children@[k].0@ == t);
        }
    }

    /// A child pushed under a token that was not there keeps the other
    /// children where they were.
    pub(crate) proof fn lemma_push_child(a: Self, b: Self)
        requires
            distinct_tokens(a.children@),
            b.children@.len() == a.children@.len() + 1,
            forall|i: int| 0 <= i < a.children@.len() ==> b.children@[i] == a.children@[i],
            !a.has_child(b.children@[a.children@.len() as int].0@),
        ensures
            distinct_tokens(b.children@),
            forall|t: Seq<char>| a.has_child(t) ==> b.has_child(t) && #[trigger] a.child_index(t) == b.child_index(t),
            forall|t: Seq<char>| #[trigger] b.has_child(t) && t != b.children@[a.children@.len() as int].0@ ==> a.has_child(t),
    {
        let n = a.children@.len() as int;
        assert forall|i: int, j: int|
            0 <= i < b.children@.len() && 0 <= j < b.children@.len() && i != j implies (#[trigger] b.children@[i]).0@ != (
            #[trigger] b.children@[j]).0@ by {
            if i < n && j < n {
                assert(a.children@[i] == b.children@[i]);
                assert(a.children@[j] == b.children@[j]);
            } else if i == n {
                assert(a.children@[j] == b.children@[j]);
            } else {
                assert(a.children@[i] == b.children@[i]);
            }
        }
        assert forall|t: Seq<char>|
            a.has_child(t)
            implies b.has_child(t) && #[trigger] a.child_index(t) == b.child_index(t) by {
            let k = a.child_index(t);
            assert(0 <= k < n && a.children@[k].0@ == t);
            a.lemma_child_at(k);
            assert(a.children@[k] == b.children@[k]);
            b.lemma_child_at(k);
            assert(b.children@[k].0@ == t);
        }
        assert forall|t: Seq<char>|
            #[trigger] b.has_child(t) && t != b.children@[n].0@ implies a.has_child(t) by {
            let k = b.child_index(t);
            assert(b.children@[k].0@ == t);
            assert(k != n);
            assert(a.children@[k] == b.children@[k]);
            assert(a.children@[k].0@ == t);
        }
    }

    /// The position of the child under token `t`, if there is one.
    pub(crate) fn find_child(&self, t: &String) -> (r: Option<usize>)
        ensures
            match r {
                Some(j) => j < self.children@.len() && self.children@[j as int].0@ == t@,
                None => !self.has_child(t@),
            },
    {
        let mut j: usize = 0;
        while j < self.children.len()
            invariant
                j <= self.children@.len(),
                forall|k: int| 0 <= k < j ==> (#[trigger] self.children@[k]).0@ != t@,
            decreases self.children@.len() - j,
        {
            if self.children[j].0 == *t {
                return Some(j);
            }
            j = j + 1;
        }
        None
    }
}

/// `s` stands in `out` at some position from `lo` on.
pub open spec fn listed(out: Seq<String>, lo: int, s: Seq<char>) -> bool {
    exists|j: int| lo <= j < out.len() && (#[trigger] out[j])@ == s
}

pub proof fn lemma_listed_grows(a: Seq<String>, b: Seq<String>, lo: int, s: Seq<char>)
    requires
        0 <= lo,
        listed(a, lo, s),
        a.len() <= b.len(),
        b.subrange(0, a.len() as int) == a,
    ensures
        listed(b, lo, s),
{
    let j = choose|j: int| lo <= j < a.len() && (#[trigger] a[j])@ == s;
    assert(b.subrange(0, a.len() as int)[j] == b[j]);
}

impl<D> TrieDataNode<D> {
    /// `s` is `prefix` followed by the tokens of a word stored below this node.
    pub(crate) open spec fn spells(self, prefix: Seq<char>, s: Seq<char>) -> bool {
        exists|w: Path| #[trigger] self.lookup(w) is Some && s == prefix + flatten(w)
    }

    /// The word `w` below child `k` is the word `t + w` below this node,
    /// where `t` is the token of that child.
    pub(crate) proof fn lemma_lookup_child(self, k: int, w: Path)
        requires
            distinct_tokens(self.children@),
            0 <= k < self.children@.len(),
        ensures
            self.lookup(seq![self.children@[k].0@] + w) == self.children@[k].1.lookup(w),
            flatten(seq![self.children@[k].0@] + w) == self.children@[k].0@ + flatten(w),
    {
        let t = self.children@[k].0@;
        let v = seq![t] + w;
        self.lemma_child_at(k);
        assert(v[0] == t);
        assert(v.drop_first() =~= w);
    }

    pub(crate) proof fn lemma_spells_child(self, k: int, p: Seq<char>, s: Seq<char>)
        requires
            distinct_tokens(self.children@),
            0 <= k < self.children@.len(),
            self.children@[k].1.spells(p + self.children@[k].0@, s),
        ensures
            self.spells(p, s),
    {
        let t = self.children@[k].0@;
        let c = self.children@[k].1;
        let w = choose|w: Path| #[trigger] c.lookup(w) is Some && s == (p + t) + flatten(w);
        self.lemma_lookup_child(k, w);
        assert((p + t) + flatten(w) =~= p + (t + flatten(w)));
        assert(self.lookup(seq![t] + w) is Some);
    }
}

/// The values of an association, as a sequence.
pub open spec fn assoc_view<D>(a: Option<Vec<D>>) -> Option<Seq<D>> {
    match a {
        Some(v) => Some(v@),
        None => None,
    }
}

impl<D> TrieDataNode<D> {
    /// A node with no children that ends no word holds no word.
    pub(crate) proof fn lemma_dead_lookup(self, w: Path)
        requires
            !self.live(),
        ensures
            self.lookup(w) is None,
    {
        if w.len() > 0 {
            assert(!self.has_child(w[0]));
        }
    }

    pub(crate) proof fn lemma_count_children_remove(a: Self, b: Self, j: int, k: int)
        requires
            0 <= j < k <= a.children@.len(),
            b.children@ == a.children@.remove(j),
        ensures
            a.count_children(k) == b.count_children(k - 1) + a.children@[j].1.count(),
        decreases k,
    {
        if k == j + 1 {
            Self::lemma_count_children_prefix(a, b, j);
        } else {
            Self::lemma_count_children_remove(a, b, j, k - 1);
            assert(b.children@[k - 2] == a.children@[k - 1]);
        }
    }

    /// Dropping child `j` leaves the other children under their tokens.
    pub(crate) proof fn lemma_remove_child(a: Self, b: Self, j: int)
        requires
            distinct_tokens(a.children@),
            0 <= j < a.children@.len(),
            b.children@ == a.children@.remove(j),
        ensures
            distinct_tokens(b.children@),
            forall|t: Seq<char>| #[trigger] b.has_child(t) <==> a.has_child(t) && t != a.children@[j].0@,
            forall|t: Seq<char>| #[trigger] b.has_child(t) ==> b.child(t) == a.child(t),
    {
        let n = a.children@.len() as int;
        assert forall|x: int, y: int|
            0 <= x < b.children@.len() && 0 <= y < b.children@.len() && x != y implies (#[trigger] b.children@[x]).0@ != (
            #[trigger] b.children@[y]).0@ by {
            let xa = if x < j { x } else { x + 1 };
            let ya = if y < j { y } else { y + 1 };
            assert(b.children@[x] == a.children@[xa]);
            assert(b.children@[y] == a.children@[ya]);
        }
        assert forall|t: Seq<char>|
            #[trigger] b.has_child(t) <==> a.has_child(t) && t != a.children@[j].0@ by {
            if b.has_child(t) {
                let x = b.child_index(t);
                let xa = if x < j { x } else { x + 1 };
                assert(b.children@[x] == a.children@[xa]);
                assert(a.children@[xa].0@ == t);
                assert(a.has_child(t));
            }
            if a.has_child(t) && t != a.children@[j].0@ {
                let xa = a.child_index(t);
                assert(xa != j);
                let x = if xa < j { xa } else { xa - 1 };
                assert(b.children@[x] == a.children@[xa]);
                assert(b.children@[x].0@ == t);
            }
        }
        assert forall|t: Seq<char>| #[trigger] b.has_child(t) implies b.child(t) == a.child(t) by {
            let x = b.child_index(t);
            let xa = if x < j { x } else { x + 1 };
            assert(b.children@[x] == a.children@[xa]);
            b.lemma_child_at(x);
            a.lemma_child_at(xa);
        }
    }
}

impl<D> TrieDataNode<D> {
    /// The values attached to the word that ends in this node, if any.
    pub(crate) open spec fn own_values(self) -> Seq<D> {
        match self.word_end {
            Some(v) => v@,
            None => Seq::empty(),
        }
    }

    /// Every value stored in this node and below it: this node's own values,
    /// then those of each child subtree in the order of the children.
    pub(crate) open spec fn values(self) -> Seq<D>
        decreases self, self.children@.len() + 1,
    {
        self.own_values() + self.values_children(self.children@.len() as int)
    }

    /// The values stored in the first `k` child subtrees.
    pub(crate) open spec fn values_children(self, k: int) -> Seq<D>
        decreases self, k,
    {
        if k <= 0 || k > self.children@.len() {
            Seq::empty()
        } else {
            self.values_children(k - 1) + self.children@[k - 1].1.values()
        }
    }

    pub(crate) proof fn lemma_count_children_monotone(self, k: int, m: int)
        requires
            0 <= k <= m <= self.children@.len(),
        ensures
            self.count_children(k) <= self.count_children(m),
        decreases m - k,
    {
        if k < m {
            self.lemma_count_children_monotone(k, m - 1);
            assert(0 < m <= self.children@.len());
            assert(self.count_children(m) == self.count_children(m - 1) + self.children@[m - 1].1.count());
        }
    }
}

/// The values that a sequence of references points to.
pub open spec fn deref_all<D>(s: Seq<&D>) -> Seq<D> {
    s.map_values(|x: &D| *x)
}


/// The concatenation of the tokens of a path, extended by one token.
pub proof fn lemma_flatten_push(w: Path, t: Seq<char>)
    ensures
        flatten(w.push(t)) == flatten(w) + t,
    decreases w.len(),
{
    if w.len() == 0 {
        assert(w.push(t).drop_first() =~= Seq::<Seq<char>>::empty());
        assert(flatten(w.push(t)) =~= t + flatten(Seq::<Seq<char>>::empty()));
        assert(flatten(w.push(t)) =~= flatten(w) + t);
    } else {
        assert(w.push(t).drop_first() =~= w.drop_first().push(t));
        lemma_flatten_push(w.drop_first(), t);
        assert(flatten(w.push(t)) =~= flatten(w) + t);
    }
}

impl<D> TrieDataNode<D> {
    /// The node at the end of the path `w` from this one, if the path exists.
    pub(crate) open spec fn descend(self, w: Path) -> Option<TrieDataNode<D>>
        decreases w.len(),
    {
        if w.len() == 0 {
            Some(self)
        } else if self.has_child(w[0]) {
            self.child(w[0]).descend(w.drop_first())
        } else {
            None
        }
    }

    /// The word `w` is stored below this node exactly when the path `w`
    /// leads to a word end.
    pub(crate) proof fn lemma_lookup_descend(self, w: Path)
        ensures
            self.lookup(w) == (match self.descend(w) {
                Some(n) => assoc_view(n.word_end),
                None => None,
            }),
        decreases w.len(),
    {
        if w.len() > 0 && self.has_child(w[0]) {
            self.child(w[0]).lemma_lookup_descend(w.drop_first());
        }
    }
}

/// The path `w` goes on past the path `p`.
pub open spec fn strictly_extends(w: Path, p: Path) -> bool {
    p.len() < w.len() && w.subrange(0, p.len() as int) == p
}

pub proof fn lemma_extends_cons(w: Path, p: Path)
    requires
        p.len() > 0,
        w.len() > 0,
    ensures
        strictly_extends(w, p) == (w[0] == p[0] && strictly_extends(w.drop_first(), p.drop_first())),
{
    if strictly_extends(w, p) {
        assert(w.subrange(0, p.len() as int)[0] == w[0]);
        assert(w.drop_first().subrange(0, p.len() - 1) =~= w.subrange(0, p.len() as int).drop_first());
    }
    if w[0] == p[0] && strictly_extends(w.drop_first(), p.drop_first()) {
        assert(w.subrange(0, p.len() as int) =~= seq![w[0]] + w.drop_first().subrange(0, p.len() - 1));
        assert(p =~= seq![p[0]] + p.drop_first());
    }
}

impl<D> TrieDataNode<D> {
    /// Nodes with the same children hold the same words and values below.
    pub(crate) proof fn lemma_same_children(a: Self, b: Self, k: int)
        requires
            a.children == b.children,
        ensures
            a.count_children(k) == b.count_children(k),
            a.values_children(k) == b.values_children(k),
        decreases k,
    {
        if k > 0 {
            Self::lemma_same_children(a, b, k - 1);
        }
    }
}

/// The concatenation of two paths spells the two spellings one after the
/// other.
pub proof fn lemma_flatten_append(a: Path, b: Path)
    ensures
        flatten(a + b) == flatten(a) + flatten(b),
    decreases a.len(),
{
    if a.len() == 0 {
        assert(a + b =~= b);
        assert(flatten(a) + flatten(b) =~= flatten(b));
    } else {
        assert((a + b).drop_first() =~= a.drop_first() + b);
        lemma_flatten_append(a.drop_first(), b);
        assert(flatten(a + b) =~= flatten(a) + flatten(b));
    }
}

impl<D> TrieDataNode<D> {
    /// Below the node at the end of `q`, the path `w` is the path `q + w`
    /// from here.
    pub(crate) proof fn lemma_descend_lookup(self, q: Path, w: Path)
        requires
            self.descend(q) is Some,
        ensures
            self.descend(q).unwrap().lookup(w) == self.lookup(q + w),
            self.descend(q).unwrap().descend(w) == self.descend(q + w),
        decreases q.len(),
    {
        if q.len() == 0 {
            assert(q + w =~= w);
        } else {
            assert((q + w)[0] == q[0]);
            assert((q + w).drop_first() =~= q.drop_first() + w);
            self.child(q[0]).lemma_descend_lookup(q.drop_first(), w);
        }
    }
}

/// The length of a text in bytes, as UTF-8.
pub open spec fn byte_len(s: Seq<char>) -> nat {
    vstd::utf8::encode_utf8(s).len()
}

/// The length of a string in bytes.
pub fn byte_length(s: &String) -> (n: usize)
    ensures
        n == byte_len(s@),
{
    s.as_str().as_bytes().len()
}

/// Under `ord` (`Greater` for longest, `Less` for shortest), `a` beats `b`.
pub open spec fn beats(ord: Ordering, a: Seq<char>, b: Seq<char>) -> bool {
    match ord {
        Ordering::Greater => byte_len(a) > byte_len(b),
        Ordering::Less => byte_len(a) < byte_len(b),
        Ordering::Equal => false,
    }
}

/// All texts of `v` have the same length.
pub open spec fn uniform(v: Seq<String>) -> bool {
    forall|i: int, j: int|
        0 <= i < v.len() && 0 <= j < v.len() ==> byte_len((#[trigger] v[i])@) == byte_len(
            (#[trigger] v[j])@,
        )
}

/// `v` has taken `s` into account: `s` does not beat what `v` holds, and
/// `v` holds `s` where `s` ties with it.
pub open spec fn settles(v: Seq<String>, ord: Ordering, s: Seq<char>) -> bool {
    &&& v.len() > 0
    &&& !beats(ord, s, v[0]@)
    &&& byte_len(s) == byte_len(v[0]@) ==> listed(v, 0, s)
}

/// What `a` settled, `b` settles too, once `b` settles everything of `a`.
pub proof fn lemma_settles_trans(a: Seq<String>, b: Seq<String>, ord: Ordering, s: Seq<char>)
    requires
        !(ord is Equal),
        uniform(a),
        settles(a, ord, s),
        forall|j: int| 0 <= j < a.len() ==> settles(b, ord, (#[trigger] a[j])@),
    ensures
        settles(b, ord, s),
{
    assert(settles(b, ord, a[0]@));
    if byte_len(s) == byte_len(b[0]@) {
        assert(byte_len(s) == byte_len(a[0]@));
        let j = choose|j: int| 0 <= j < a.len() && (#[trigger] a[j])@ == s;
        assert(settles(b, ord, a[j]@));
    }
}

/// The association of a word in the union of two tries: the values of the
/// left one, then those of the right one.
pub open spec fn combine<D>(a: Option<Seq<D>>, b: Option<Seq<D>>) -> Option<Seq<D>> {
    match (a, b) {
        (Some(x), Some(y)) => Some(x + y),
        (Some(x), None) => Some(x),
        (None, Some(y)) => Some(y),
        (None, None) => None,
    }
}

impl<D> TrieDataNode<D> {
    /// A child subtree holds no more words than the node.
    pub(crate) proof fn lemma_child_count(self, j: int)
        requires
            0 <= j < self.children@.len(),
        ensures
            self.children@[j].1.count() <= self.count_children(self.children@.len() as int),
    {
        self.lemma_count_children_monotone(j + 1, self.children@.len() as int);
    }
}

/// Two associations agree: both absent, or both present with values that
/// are pairwise equal.
pub open spec fn assoc_eq<D: PartialEq>(a: Option<Seq<D>>, b: Option<Seq<D>>) -> bool {
    match (a, b) {
        (None, None) => true,
        (Some(x), Some(y)) => x.len() == y.len() && forall|i: int|
            0 <= i < x.len() ==> (#[trigger] x[i]).eq_spec(&y[i]),
        _ => false,
    }
}

impl<D> TrieDataNode<D> {
    /// A live node of a well-formed tree ends or leads to some word.
    pub(crate) proof fn lemma_live_has_word(self) -> (w: Path)
        requires
            self.wf(),
            self.live(),
        ensures
            self.lookup(w) is Some,
        decreases self,
    {
        if self.word_end is Some {
            Seq::empty()
        } else {
            let c = self.children@[0].1;
            let w2 = c.lemma_live_has_word();
            self.lemma_lookup_child(0, w2);
            seq![self.children@[0].0@] + w2
        }
    }
}

impl<D> TrieDataNode<D> {
    /// The words stored in this node and below it, as paths.
    pub(crate) open spec fn words(self) -> Set<Path> {
        Set::new(|w: Path| self.lookup(w) is Some)
    }

    /// The words stored below the first `k` children.
    pub(crate) open spec fn words_under(self, k: int) -> Set<Path> {
        Set::new(
            |w: Path|
                w.len() > 0 && self.has_child(w[0]) && self.child_index(w[0]) < k && self.lookup(w) is Some,
        )
    }

    /// The count of a well-formed subtree is the number of distinct words
    /// stored in it.
    pub(crate) proof fn lemma_words_count(self)
        requires
            self.wf(),
        ensures
            self.words().finite(),
            self.words().len() == self.count(),
        decreases self, self.children@.len() + 1,
    {
        let n = self.children@.len() as int;
        self.lemma_words_under_count(n);
        let under = self.words_under(n);
        let e = Seq::<Seq<char>>::empty();
        if self.word_end is Some {
            let own = set![e];
            assert(self.words() =~= own + under) by {
                assert forall|w: Path|
                    #[trigger] self.words().contains(w) implies (own + under).contains(w) by {
                    if w.len() == 0 {
                        assert(w =~= e);
                    } else {
                        assert(self.has_child(w[0]));
                    }
                }
            }
            assert(own.disjoint(under));
            vstd::set_lib::lemma_set_disjoint_lens(own, under);
        } else {
            assert(self.words() =~= under) by {
                assert forall|w: Path|
                    #[trigger] self.words().contains(w) implies under.contains(w) by {
                    if w.len() > 0 {
                        assert(self.has_child(w[0]));
                    }
                }
            }
        }
    }

    pub(crate) proof fn lemma_words_under_count(self, k: int)
        requires
            self.wf(),
            0 <= k <= self.children@.len(),
        ensures
            self.words_under(k).finite(),
            self.words_under(k).len() == self.count_children(k),
        decreases self, k,
    {
        if k == 0 {
            assert(self.words_under(0) =~= Set::<Path>::empty());
        } else {
            self.lemma_words_under_count(k - 1);
            let c = self.children@[k - 1].1;
            let t = self.children@[k - 1].0@;
            c.lemma_words_count();
            self.lemma_child_at(k - 1);
            let f = |w: Path| seq![t] + w;
            let img = c.words().map(f);
            assert(vstd::relations::injective_on(f, c.words())) by {
                assert forall|a: Path, b: Path|
                    c.words().contains(a) && c.words().contains(b) && #[trigger] f(a) == #[trigger] f(b)
                    implies a == b by {
                    assert(a =~= f(a).drop_first());
                    assert(b =~= f(b).drop_first());
                }
            }
            vstd::set_lib::lemma_map_size(c.words(), img, f);
            let prev = self.words_under(k - 1);
            assert(prev.disjoint(img)) by {
                assert forall|w: Path| prev.contains(w) && img.contains(w) implies false by {
                    let w2 = choose|w2: Path| c.words().contains(w2) && f(w2) == w;
                    assert(w[0] == t);
                }
            }
            assert(self.words_under(k) =~= prev + img) by {
                assert forall|w: Path|
                    #[trigger] self.words_under(k).contains(w) implies (prev + img).contains(w) by {
                    if self.child_index(w[0]) == k - 1 {
                        assert(w[0] == t);
                        assert(w =~= seq![t] + w.drop_first());
                        self.lemma_lookup_child(k - 1, w.drop_first());
                        assert(c.words().contains(w.drop_first()));
                        assert(f(w.drop_first()) == w);
                    }
                }
                assert forall|w: Path|
                    #[trigger] (prev + img).contains(w) implies self.words_under(k).contains(w) by {
                    if img.contains(w) {
                        let w2 = choose|w2: Path| c.words().contains(w2) && f(w2) == w;
                        self.lemma_lookup_child(k - 1, w2);
                        assert(w[0] == t);
                    }
                }
            }
            vstd::set_lib::lemma_set_disjoint_lens(prev, img);
        }
    }
}

impl<D> TrieDataNode<D> {
    /// A word stored past the path `q` means that the path exists.
    pub(crate) proof fn lemma_lookup_descend_prefix(self, q: Path, w: Path)
        requires
            self.lookup(q + w) is Some,
        ensures
            self.descend(q) is Some,
        decreases q.len(),
    {
        if q.len() > 0 {
            assert((q + w)[0] == q[0]);
            assert((q + w).drop_first() =~= q.drop_first() + w);
            self.child(q[0]).lemma_lookup_descend_prefix(q.drop_first(), w);
        }
    }

    /// Below a well-formed node, the node at the end of a non-empty path is
    /// well formed and live.
    pub(crate) proof fn lemma_descend_live(self, q: Path)
        requires
            self.wf(),
            self.descend(q) is Some,
        ensures
            self.descend(q).unwrap().wf(),
            q.len() > 0 ==> self.descend(q).unwrap().live(),
        decreases q.len(),
    {
        if q.len() > 0 {
            let k = self.child_index(q[0]);
            assert(self.children@[k].1.wf() && self.children@[k].1.live());
            self.child(q[0]).lemma_descend_live(q.drop_first());
        }
    }
}


/// No text stands twice in `v`.
pub open spec fn distinct_strings(v: Seq<String>) -> bool {
    forall|i: int, j: int| 0 <= i < j < v.len() ==> (#[trigger] v[i])@ != (#[trigger] v[j])@
}

/// A common prefix can be taken off both sides of an equation.
pub proof fn lemma_prefix_cancel(p: Seq<char>, a: Seq<char>, b: Seq<char>)
    requires
        p + a == p + b,
    ensures
        a == b,
{
    assert(a =~= (p + a).subrange(p.len() as int, (p + a).len() as int));
    assert(b =~= (p + b).subrange(p.len() as int, (p + b).len() as int));
}

impl<D> TrieDataNode<D> {
    /// Distinct words below this node are spelled differently.
    pub(crate) open spec fn unique_spellings(self) -> bool {
        forall|a: Path, b: Path|
            #[trigger] self.lookup(a) is Some && #[trigger] self.lookup(b) is Some && flatten(a)
                == flatten(b) ==> a == b
    }

    /// No text of `v` is `prefix` followed by a word below this node.
    pub(crate) open spec fn fresh(self, prefix: Seq<char>, v: Seq<String>) -> bool {
        forall|j: int| 0 <= j < v.len() ==> !self.spells(prefix, (#[trigger] v[j])@)
    }

    /// `s` is `prefix` followed by a word below this node that ends here or
    /// goes through one of the first `k` children.
    pub(crate) open spec fn spells_before(self, prefix: Seq<char>, s: Seq<char>, k: int) -> bool {
        exists|w: Path|
            #[trigger] self.lookup(w) is Some && (w.len() == 0 || self.child_index(w[0]) < k) && s
                == prefix + flatten(w)
    }

    pub(crate) proof fn lemma_spells_before_grow(self, prefix: Seq<char>, s: Seq<char>, k: int, m: int)
        requires
            self.spells_before(prefix, s, k),
            k <= m,
        ensures
            self.spells_before(prefix, s, m),
            self.spells(prefix, s),
    {
        let w = choose|w: Path|
            #[trigger] self.lookup(w) is Some && (w.len() == 0 || self.child_index(w[0]) < k) && s
                == prefix + flatten(w);
        assert(self.lookup(w) is Some);
    }

    /// A word spelled below child `k` is spelled through the first `k + 1`
    /// children of this node.
    pub(crate) proof fn lemma_spells_child_before(self, k: int, p: Seq<char>, s: Seq<char>)
        requires
            distinct_tokens(self.children@),
            0 <= k < self.children@.len(),
            self.children@[k].1.spells(p + self.children@[k].0@, s),
        ensures
            self.spells_before(p, s, k + 1),
    {
        let t = self.children@[k].0@;
        let c = self.children@[k].1;
        let w = choose|w: Path| #[trigger] c.lookup(w) is Some && s == (p + t) + flatten(w);
        self.lemma_lookup_child(k, w);
        self.lemma_child_at(k);
        let v = seq![t] + w;
        assert(v[0] == t);
        assert((p + t) + flatten(w) =~= p + (t + flatten(w)));
        assert(self.lookup(v) is Some);
    }

    /// What unique spellings give at a node, they give at each child.
    pub(crate) proof fn lemma_child_unique(self, k: int)
        requires
            distinct_tokens(self.children@),
            0 <= k < self.children@.len(),
            self.unique_spellings(),
        ensures
            self.children@[k].1.unique_spellings(),
    {
        let t = self.children@[k].0@;
        let c = self.children@[k].1;
        assert forall|a: Path, b: Path|
            #[trigger] c.lookup(a) is Some && #[trigger] c.lookup(b) is Some && flatten(a) == flatten(
                b,
            ) implies a == b by {
            self.lemma_lookup_child(k, a);
            self.lemma_lookup_child(k, b);
            assert(self.lookup(seq![t] + a) is Some);
            assert(self.lookup(seq![t] + b) is Some);
            assert(seq![t] + a == seq![t] + b);
            assert(a =~= (seq![t] + a).drop_first());
            assert(b =~= (seq![t] + b).drop_first());
        }
    }

    /// A text that this node spells before child `k`, or does not spell at
    /// all, is not spelled below child `k`.
    pub(crate) proof fn lemma_fresh_for_child(self, k: int, p: Seq<char>, s: Seq<char>)
        requires
            distinct_tokens(self.children@),
            0 <= k < self.children@.len(),
            self.unique_spellings(),
            self.spells_before(p, s, k) || !self.spells(p, s),
        ensures
            !self.children@[k].1.spells(p + self.children@[k].0@, s),
    {
        let t = self.children@[k].0@;
        let c = self.children@[k].1;
        if c.spells(p + t, s) {
            let w2 = choose|w2: Path| #[trigger] c.lookup(w2) is Some && s == (p + t) + flatten(w2);
            self.lemma_lookup_child(k, w2);
            self.lemma_child_at(k);
            let v = seq![t] + w2;
            assert((p + t) + flatten(w2) =~= p + flatten(v));
            assert(self.lookup(v) is Some);
            assert(self.spells(p, s));
            let w = choose|w: Path|
                #[trigger] self.lookup(w) is Some && (w.len() == 0 || self.child_index(w[0]) < k) && s
                    == p + flatten(w);
            lemma_prefix_cancel(p, flatten(w), flatten(v));
            assert(w == v);
            assert(v[0] == t);
            assert(false);
        }
    }
}

/// A value stands in a concatenation exactly when it stands in one part.
pub proof fn lemma_concat_contains<D>(a: Seq<D>, b: Seq<D>, x: D)
    ensures
        (a + b).contains(x) == (a.contains(x) || b.contains(x)),
{
    if a.contains(x) {
        let i = choose|i: int| 0 <= i < a.len() && a[i] == x;
        assert((a + b)[i] == x);
    }
    if b.contains(x) {
        let i = choose|i: int| 0 <= i < b.len() && b[i] == x;
        assert((a + b)[a.len() + i] == x);
    }
    if (a + b).contains(x) {
        let i = choose|i: int| 0 <= i < (a + b).len() && (a + b)[i] == x;
        if i < a.len() {
            assert(a[i] == x);
        } else {
            assert(b[i - a.len()] == x);
        }
    }
}

impl<D> TrieDataNode<D> {
    /// A value stands among the values of a subtree exactly when it stands
    /// among the values of one of its words.
    pub(crate) proof fn lemma_values_contains(self, x: D)
        requires
            self.wf(),
        ensures
            self.values().contains(x) == exists|w: Path|
                #[trigger] self.lookup(w) is Some && self.lookup(w).unwrap().contains(x),
        decreases self, self.children@.len() + 1,
    {
        let n = self.children@.len() as int;
        self.lemma_values_children_contains(n, x);
        lemma_concat_contains(self.own_values(), self.values_children(n), x);
        let e = Seq::<Seq<char>>::empty();
        if exists|w: Path| #[trigger] self.lookup(w) is Some && self.lookup(w).unwrap().contains(x) {
            let w = choose|w: Path| #[trigger] self.lookup(w) is Some && self.lookup(w).unwrap().contains(x);
            if w.len() > 0 {
                assert(self.has_child(w[0]));
            } else {
                assert(w =~= e);
            }
        }
        if self.own_values().contains(x) {
            assert(self.lookup(e) is Some && self.lookup(e).unwrap().contains(x));
        }
    }

    pub(crate) proof fn lemma_values_children_contains(self, k: int, x: D)
        requires
            self.wf(),
            0 <= k <= self.children@.len(),
        ensures
            self.values_children(k).contains(x) == exists|w: Path|
                #[trigger] self.lookup(w) is Some && w.len() > 0 && self.child_index(w[0]) < k
                    && self.lookup(w).unwrap().contains(x),
        decreases self, k,
    {
        if k > 0 {
            let c = self.children@[k - 1].1;
            let t = self.children@[k - 1].0@;
            self.lemma_values_children_contains(k - 1, x);
            c.lemma_values_contains(x);
            lemma_concat_contains(self.values_children(k - 1), c.values(), x);
            self.lemma_child_at(k - 1);
            if c.values().contains(x) {
                let w2 = choose|w2: Path| #[trigger] c.lookup(w2) is Some && c.lookup(w2).unwrap().contains(x);
                self.lemma_lookup_child(k - 1, w2);
                let w = seq![t] + w2;
                assert(w[0] == t);
                assert(self.lookup(w) is Some && self.lookup(w).unwrap().contains(x));
            }
            if exists|w: Path|
                #[trigger] self.lookup(w) is Some && w.len() > 0 && self.child_index(w[0]) < k
                    && self.lookup(w).unwrap().contains(x) {
                let w = choose|w: Path|
                    #[trigger] self.lookup(w) is Some && w.len() > 0 && self.child_index(w[0]) < k
                        && self.lookup(w).unwrap().contains(x);
                if self.child_index(w[0]) == k - 1 {
                    assert(self.has_child(w[0]));
                    assert(w[0] == t);
                    assert(w =~= seq![t] + w.drop_first());
                    self.lemma_lookup_child(k - 1, w.drop_first());
                    assert(c.lookup(w.drop_first()) is Some);
                }
            }
        }
    }
}

/// The texts of a list of strings.
pub open spec fn texts(v: Seq<String>) -> Seq<Seq<char>> {
    v.map_values(|x: String| x@)
}

/// How often the text `s` stands in `v`.
pub open spec fn text_count(v: Seq<String>, s: Seq<char>) -> nat {
    texts(v).to_multiset().count(s)
}

pub proof fn lemma_text_count_push(v: Seq<String>, x: String, s: Seq<char>)
    ensures
        text_count(v.push(x), s) == text_count(v, s) + (if x@ == s { 1nat } else { 0nat }),
{
    broadcast use vstd::seq_lib::group_to_multiset_ensures;
    assert(texts(v.push(x)) =~= texts(v).push(x@));
}

pub proof fn lemma_text_count_empty(v: Seq<String>, s: Seq<char>)
    requires
        v.len() == 0,
    ensures
        text_count(v, s) == 0,
{
    broadcast use vstd::seq_lib::group_to_multiset_ensures;
    assert(texts(v).len() == 0);
    assert(!texts(v).contains(s));
}

/// A text stands in `v` at least once exactly when it is listed there.
pub proof fn lemma_text_count_listed(v: Seq<String>, s: Seq<char>)
    ensures
        (text_count(v, s) > 0) == listed(v, 0, s),
{
    broadcast use vstd::seq_lib::group_to_multiset_ensures;
    if listed(v, 0, s) {
        let j = choose|j: int| 0 <= j < v.len() && (#[trigger] v[j])@ == s;
        assert(texts(v)[j] == s);
    }
    if texts(v).contains(s) {
        let j = choose|j: int| 0 <= j < texts(v).len() && texts(v)[j] == s;
        assert(v[j]@ == s);
    }
}

impl<D> TrieDataNode<D> {
    /// Through none of the children, only the word that ends here is
    /// spelled.
    pub(crate) proof fn lemma_spells_before_zero(self, p: Seq<char>, s: Seq<char>)
        ensures
            self.spells_before(p, s, 0) == (self.word_end is Some && s == p),
    {
        let e = Seq::<Seq<char>>::empty();
        if self.spells_before(p, s, 0) {
            let w = choose|w: Path|
                #[trigger] self.lookup(w) is Some && (w.len() == 0 || self.child_index(w[0]) < 0) && s
                    == p + flatten(w);
            if w.len() > 0 {
                assert(self.has_child(w[0]));
                assert(false);
            }
            assert(w =~= e);
            assert(p + flatten(e) =~= p);
        }
        if self.word_end is Some && s == p {
            assert(self.lookup(e) is Some);
            assert(p + flatten(e) =~= p);
        }
    }

    /// Spelled through the first `k + 1` children: through the first `k`,
    /// or below child `k`.
    pub(crate) proof fn lemma_spells_before_step(self, k: int, p: Seq<char>, s: Seq<char>)
        requires
            distinct_tokens(self.children@),
            0 <= k < self.children@.len(),
        ensures
            self.spells_before(p, s, k + 1) == (self.spells_before(p, s, k)
                || self.children@[k].1.spells(p + self.children@[k].0@, s)),
    {
        let t = self.children@[k].0@;
        let c = self.children@[k].1;
        if self.spells_before(p, s, k + 1) && !self.spells_before(p, s, k) {
            let w = choose|w: Path|
                #[trigger] self.lookup(w) is Some && (w.len() == 0 || self.child_index(w[0]) < k + 1)
                    && s == p + flatten(w);
            assert(w.len() > 0 && self.child_index(w[0]) == k);
            assert(self.has_child(w[0]));
            self.lemma_child_at(k);
            assert(w[0] == t);
            assert(w =~= seq![t] + w.drop_first());
            self.lemma_lookup_child(k, w.drop_first());
            assert((p + t) + flatten(w.drop_first()) =~= p + flatten(w));
            assert(c.lookup(w.drop_first()) is Some);
        }
        if self.spells_before(p, s, k) {
            self.lemma_spells_before_grow(p, s, k, k + 1);
        }
        if c.spells(p + t, s) {
            self.lemma_spells_child_before(k, p, s);
        }
    }
}

/// One step of keeping the words of extreme length: `b` holds the texts of
/// extreme length among those seen so far, `a` adds the words of one more
/// subtree; what `a` holds of `s` is what was seen of `s`, where `s` has
/// the extreme length of `a`.
pub proof fn lemma_extreme_count_step(
    a: Seq<String>,
    b: Seq<String>,
    ord: Ordering,
    s: Seq<char>,
    seen: nat,
    earlier: bool,
    below: bool,
)
    requires
        !(ord is Equal),
        text_count(b, s) == (if b.len() > 0 && byte_len(s) == byte_len(b[0]@) {
            seen + (if earlier { 1nat } else { 0nat })
        } else {
            0nat
        }),
        text_count(a, s) == (if a.len() > 0 && byte_len(s) == byte_len(a[0]@) {
            text_count(b, s) + (if below { 1nat } else { 0nat })
        } else {
            0nat
        }),
        seen > 0 || earlier ==> settles(b, ord, s),
        b.len() > 0 ==> settles(a, ord, b[0]@),
        !(earlier && below),
    ensures
        text_count(a, s) == (if a.len() > 0 && byte_len(s) == byte_len(a[0]@) {
            seen + (if earlier || below { 1nat } else { 0nat })
        } else {
            0nat
        }),
{
    if a.len() > 0 && byte_len(s) == byte_len(a[0]@) {
        if !(b.len() > 0 && byte_len(b[0]@) == byte_len(a[0]@)) && (seen > 0 || earlier) {
            assert(settles(b, ord, s));
            assert(settles(a, ord, b[0]@));
            assert(false);
        }
    }
}

impl<D> TrieDataNode<D> {
    /// A word spelled below this node is spelled through its children or
    /// ends here.
    pub(crate) proof fn lemma_spells_before_all(self, p: Seq<char>, s: Seq<char>)
        ensures
            self.spells_before(p, s, self.children@.len() as int) == self.spells(p, s),
    {
        if self.spells(p, s) {
            let w = choose|w: Path| #[trigger] self.lookup(w) is Some && s == p + flatten(w);
            if w.len() > 0 {
                assert(self.has_child(w[0]));
            }
        }
        if self.spells_before(p, s, self.children@.len() as int) {
            self.lemma_spells_before_grow(p, s, self.children@.len() as int, self.children@.len() as int);
        }
    }
}

/// The positions at which `x` stands in `s`.
pub open spec fn positions<D>(s: Seq<D>, x: D) -> Set<int> {
    Set::new(|i: int| 0 <= i < s.len() && s[i] == x)
}

/// `x` stands in `s` as many times as it has positions there.
pub proof fn lemma_positions_count<D>(s: Seq<D>, x: D)
    ensures
        positions(s, x).finite(),
        positions(s, x).len() == s.to_multiset().count(x),
    decreases s.len(),
{
    broadcast use vstd::seq_lib::group_to_multiset_ensures;
    if s.len() == 0 {
        assert(positions(s, x) =~= Set::<int>::empty());
        assert(s =~= Seq::<D>::empty());
    } else {
        let r = s.drop_last();
        let last = s.last();
        lemma_positions_count(r, x);
        assert(s =~= r.push(last));
        if last == x {
            assert(positions(s, x) =~= positions(r, x).insert(s.len() - 1));
            assert(!positions(r, x).contains(s.len() - 1));
        } else {
            assert(positions(s, x) =~= positions(r, x));
        }
    }
}

impl<D> TrieDataNode<D> {
    /// The places where `x` stands among the values of the words below this
    /// node: a word and an index into its values.
    pub(crate) open spec fn occ(self, x: D) -> Set<(Path, int)> {
        Set::new(
            |o: (Path, int)|
                self.lookup(o.0) is Some && 0 <= o.1 < self.lookup(o.0).unwrap().len()
                    && self.lookup(o.0).unwrap()[o.1] == x,
        )
    }

    /// The places of `x` below the first `k` children.
    pub(crate) open spec fn occ_under(self, k: int, x: D) -> Set<(Path, int)> {
        Set::new(
            |o: (Path, int)|
                o.0.len() > 0 && self.child_index(o.0[0]) < k && self.lookup(o.0) is Some && 0 <= o.1
                    < self.lookup(o.0).unwrap().len() && self.lookup(o.0).unwrap()[o.1] == x,
        )
    }

    /// A value stands among the values of a subtree as many times as it
    /// stands among the values of its words, counted word by word.
    pub(crate) proof fn lemma_values_count(self, x: D)
        requires
            self.wf(),
        ensures
            self.occ(x).finite(),
            self.occ(x).len() == self.values().to_multiset().count(x),
        decreases self, self.children@.len() + 1,
    {
        let n = self.children@.len() as int;
        let e = Seq::<Seq<char>>::empty();
        self.lemma_values_children_count(n, x);
        vstd::seq_lib::lemma_multiset_commutative(self.own_values(), self.values_children(n));
        lemma_positions_count(self.own_values(), x);
        let f = |i: int| (e, i);
        let own = positions(self.own_values(), x).map(f);
        assert(vstd::relations::injective_on(f, positions(self.own_values(), x)));
        vstd::set_lib::lemma_map_size(positions(self.own_values(), x), own, f);
        let under = self.occ_under(n, x);
        assert(own.disjoint(under));
        assert(self.occ(x) =~= own + under) by {
            assert forall|o: (Path, int)| #[trigger] self.occ(x).contains(o) implies (own + under).contains(o) by {
                if o.0.len() == 0 {
                    assert(o.0 =~= e);
                    assert(positions(self.own_values(), x).contains(o.1));
                    assert(f(o.1) == o);
                } else {
                    assert(self.has_child(o.0[0]));
                }
            }
            assert forall|o: (Path, int)| #[trigger] (own + under).contains(o) implies self.occ(x).contains(o) by {
                if own.contains(o) {
                    let i = choose|i: int| positions(self.own_values(), x).contains(i) && f(i) == o;
                    assert(self.lookup(e) is Some);
                }
            }
        }
        vstd::set_lib::lemma_set_disjoint_lens(own, under);
    }

    pub(crate) proof fn lemma_values_children_count(self, k: int, x: D)
        requires
            self.wf(),
            0 <= k <= self.children@.len(),
        ensures
            self.occ_under(k, x).finite(),
            self.occ_under(k, x).len() == self.values_children(k).to_multiset().count(x),
        decreases self, k,
    {
        broadcast use vstd::seq_lib::group_to_multiset_ensures;
        if k == 0 {
            assert(self.occ_under(0, x) =~= Set::<(Path, int)>::empty()) by {
                assert forall|o: (Path, int)| !#[trigger] self.occ_under(0, x).contains(o) by {
                    if o.0.len() > 0 && self.lookup(o.0) is Some {
                        assert(self.has_child(o.0[0]));
                    }
                }
            }
            assert(self.values_children(0).len() == 0);
        } else {
            let c = self.children@[k - 1].1;
            let t = self.children@[k - 1].0@;
            self.lemma_values_children_count(k - 1, x);
            c.lemma_values_count(x);
            self.lemma_child_at(k - 1);
            vstd::seq_lib::lemma_multiset_commutative(self.values_children(k - 1), c.values());
            let f = |o: (Path, int)| (seq![t] + o.0, o.1);
            let img = c.occ(x).map(f);
            assert(vstd::relations::injective_on(f, c.occ(x))) by {
                assert forall|a: (Path, int), b: (Path, int)|
                    c.occ(x).contains(a) && c.occ(x).contains(b) && #[trigger] f(a) == #[trigger] f(b)
                    implies a == b by {
                    assert(a.0 =~= f(a).0.drop_first());
                    assert(b.0 =~= f(b).0.drop_first());
                }
            }
            vstd::set_lib::lemma_map_size(c.occ(x), img, f);
            let prev = self.occ_under(k - 1, x);
            assert(prev.disjoint(img)) by {
                assert forall|o: (Path, int)| prev.contains(o) && img.contains(o) implies false by {
                    let o2 = choose|o2: (Path, int)| c.occ(x).contains(o2) && f(o2) == o;
                    assert(o.0[0] == t);
                }
            }
            assert(self.occ_under(k, x) =~= prev + img) by {
                assert forall|o: (Path, int)| #[trigger] self.occ_under(k, x).contains(o) implies (prev + img).contains(o) by {
                    if self.child_index(o.0[0]) == k - 1 {
                        assert(self.has_child(o.0[0]));
                        assert(o.0[0] == t);
                        assert(o.0 =~= seq![t] + o.0.drop_first());
                        self.lemma_lookup_child(k - 1, o.0.drop_first());
                        assert(c.occ(x).contains((o.0.drop_first(), o.1)));
                        assert(f((o.0.drop_first(), o.1)) == o);
                    }
                }
                assert forall|o: (Path, int)| #[trigger] (prev + img).contains(o) implies self.occ_under(k, x).contains(o) by {
                    if img.contains(o) {
                        let o2 = choose|o2: (Path, int)| c.occ(x).contains(o2) && f(o2) == o;
                        self.lemma_lookup_child(k - 1, o2.0);
                        assert(o.0[0] == t);
                    }
                }
            }
            vstd::set_lib::lemma_set_disjoint_lens(prev, img);
        }
    }
}
} // verus!
