//! Splitting words into the tokens that label their paths.
use unicode_segmentation::UnicodeSegmentation;
use crate::trie_node::flatten;
use vstd::prelude::*;

verus! {

/// The extended grapheme clusters of a text, in order.
pub uninterp spec fn graphemes_of(s: Seq<char>) -> Seq<Seq<char>>;

/// The views of a sequence of strings.
pub open spec fn token_views(v: Seq<String>) -> Seq<Seq<char>> {
    v.map_values(|s: String| s@)
}

/// Splits a word into the tokens that label its path in a trie.
///
/// Relies on `UnicodeSegmentation::graphemes(word, true)`: the extended
/// grapheme clusters of the word, a function of the text alone; they are
/// non-empty, consecutive slices of the word that cover it.
#[verifier::external_body]
pub(crate) fn get_characters(word: &str) -> (r: Vec<String>)
    ensures
        token_views(r@) == graphemes_of(word@),
        flatten(token_views(r@)) == word@,
        forall|i: int| 0 <= i < r@.len() ==> (#[trigger] r@[i])@.len() > 0,
{
    UnicodeSegmentation::graphemes(word, true).map(String::from).collect()
}

/// A word is empty exactly when it has no tokens.
pub proof fn lemma_empty_word(toks: Seq<Seq<char>>, word: Seq<char>)
    requires
        flatten(toks) == word,
        forall|i: int| 0 <= i < toks.len() ==> (#[trigger] toks[i]).len() > 0,
    ensures
        (toks.len() == 0) == (word.len() == 0),
{
    if toks.len() > 0 {
        assert(toks[0].len() > 0);
        assert(word.len() >= toks[0].len());
    }
}

} // verus!
