use basic_trie::{DataTrie, Trie};

fn sorted(mut v: Vec<String>) -> Vec<String> {
    v.sort();
    v
}

fn strings(words: &[&str]) -> Vec<String> {
    words.iter().map(|w| w.to_string()).collect()
}

#[test]
fn insert_then_contains_then_remove() {
    let mut trie = Trie::new();
    trie.insert("path");
    trie.insert("pathway");
    assert!(trie.contains("path"));
    trie.remove("path");
    assert!(!trie.contains("path"));
    assert!(trie.contains("pathway"));
    trie.remove("pathway");
    assert!(!trie.contains("pathway"));
    assert!(trie.is_empty());
}

#[test]
fn len_counts_distinct_words() {
    let mut trie = Trie::new();
    for w in ["one", "two", "three", "two", "one", "on", "o"] {
        trie.insert(w);
    }
    assert_eq!(5, trie.len());
    assert_eq!(trie.len(), trie.get_all().len());
    trie.remove("two");
    trie.remove("missing");
    trie.remove_prefix("on");
    assert_eq!(3, trie.len());
    assert_eq!(sorted(trie.get_all()), strings(&["o", "on", "three"]));
    assert_eq!(trie.len(), trie.get("").unwrap().len());
}

#[test]
fn remove_prefix_keeps_the_prefix_word() {
    let mut trie = Trie::new();
    trie.insert("ea");
    trie.insert("eat");
    trie.remove_prefix("ea");
    assert!(trie.contains("ea"));
    assert!(!trie.contains("eat"));
    assert_eq!(1, trie.len());
}

#[test]
fn remove_prunes_only_dead_nodes() {
    let mut trie = Trie::new();
    trie.insert("a");
    trie.insert("ab");
    trie.insert("abc");
    trie.insert("abcd");
    trie.remove("abc");
    assert_eq!(sorted(trie.get_all()), strings(&["a", "ab", "abcd"]));
    assert_eq!(Some(strings(&["abcd"])), trie.get("abcd"));
    assert_eq!(Some(strings(&["abcd"])), trie.get("abc"));
    trie.remove("abcd");
    assert_eq!(None, trie.get("abc"));
    assert_eq!(Some(strings(&["ab"])), trie.get("ab"));
}

#[test]
fn removing_both_branches_prunes_the_fork() {
    let mut trie = Trie::new();
    trie.insert("ab");
    trie.insert("ac");
    trie.remove("ab");
    assert_eq!(Some(strings(&["ac"])), trie.get("a"));
    trie.remove("ac");
    assert_eq!(None, trie.get("a"));
    assert_eq!(Some(Vec::<String>::new()), trie.get(""));
}

#[test]
fn values_of_a_word_accumulate_in_order() {
    let mut trie = DataTrie::new();
    trie.insert("twice", 5);
    trie.insert("twice", 3);
    assert_eq!(Some(vec![&5, &3]), trie.get_data("twice", false));
    assert_eq!(1, trie.len());
}

#[test]
fn merge_of_disjoint_tries_is_symmetric() {
    let build = |words: &[&str]| {
        let mut t = DataTrie::new();
        for w in words {
            t.insert(w, w.len());
        }
        t
    };
    let left = &["apple", "apricot", "banana"];
    let right = &["cherry", "ap", "bandana", "date"];
    let ab = build(left).add(build(right));
    let ba = build(right).add(build(left));
    assert_eq!(ab, ba);
    assert_eq!(7, ab.len());
    let mut all = strings(left);
    all.extend(strings(right));
    all.sort();
    assert_eq!(all, sorted(ab.get_all()));
}

#[test]
fn merge_keeps_values_of_shared_words() {
    let mut big = DataTrie::new();
    big.insert("shared", 1);
    big.insert("only_big", 2);
    let mut small = DataTrie::new();
    small.insert("shared", 3);
    let merged = small.add(big);
    assert_eq!(Some(vec![&1, &3]), merged.get_data("shared", false));
    assert_eq!(2, merged.len());
}

#[test]
fn merge_into_counts_shared_words_once() {
    let mut a = Trie::new();
    a.insert("word");
    a.insert("words");
    let mut b = Trie::new();
    b.insert("word");
    b.insert("wordy");
    a.add_assign(b);
    assert_eq!(3, a.len());
    assert_eq!(sorted(a.get_all()), strings(&["word", "words", "wordy"]));
}

#[test]
fn longest_and_shortest_keep_all_ties() {
    let mut trie = Trie::new();
    trie.insert("a");
    trie.insert("aa");
    trie.insert("bb");
    assert_eq!(strings(&["a"]), trie.get_shortest());
    assert_eq!(strings(&["aa", "bb"]), sorted(trie.get_longest()));
}

#[test]
fn longest_and_shortest_of_empty_trie() {
    let trie = Trie::new();
    assert!(trie.get_longest().is_empty());
    assert!(trie.get_shortest().is_empty());
}

#[test]
fn lengths_are_compared_in_bytes() {
    let mut trie = Trie::new();
    trie.insert("ab");
    trie.insert("я");
    trie.insert("c");
    assert_eq!(strings(&["ab", "я"]), sorted(trie.get_longest()));
    assert_eq!(strings(&["c"]), trie.get_shortest());
}

#[test]
fn cleared_trie_equals_new_trie() {
    let mut trie = DataTrie::new();
    trie.insert("word1", 1);
    trie.insert("word2", 2);
    trie.clear();
    assert_eq!(0, trie.len());
    assert!(trie.is_empty());
    assert_eq!(Some(Vec::<String>::new()), trie.get(""));
    assert_eq!(trie, DataTrie::<i32>::new());
}

#[test]
fn empty_word_is_not_stored() {
    let mut trie = DataTrie::new();
    trie.insert("", 1);
    trie.insert_no_data("");
    assert_eq!(0, trie.len());
    assert!(!trie.contains(""));
    assert_eq!(None, trie.get_data("", false));
    assert_eq!(None, trie.remove(""));
}

#[test]
fn absent_words_give_absent_markers() {
    let mut trie = DataTrie::new();
    trie.insert("present", 1);
    assert_eq!(None, trie.remove("absent"));
    assert_eq!(None, trie.remove("pres"));
    assert_eq!(None, trie.remove_prefix("x"));
    assert_eq!(None, trie.clear_data("pres"));
    assert_eq!(None, trie.get("presents"));
    assert_eq!(None, trie.get_data("q", true));
    assert_eq!(1, trie.len());
}

#[test]
fn remove_hands_back_values() {
    let mut trie = DataTrie::new();
    trie.insert("key", 7);
    trie.insert("key", 8);
    trie.insert("keys", 9);
    assert_eq!(Some(vec![7, 8]), trie.remove("key"));
    assert_eq!(1, trie.len());
    assert_eq!(Some(vec![9]), trie.remove("keys"));
    assert!(trie.is_empty());
    assert_eq!(None, trie.get("k"));
}

#[test]
fn word_without_values_is_still_a_word() {
    let mut trie = DataTrie::<u8>::new();
    trie.insert_no_data("bare");
    assert_eq!(Some(Vec::<&u8>::new()), trie.get_data("bare", false));
    assert_eq!(Some(Vec::<u8>::new()), trie.remove("bare"));
    assert_eq!(None, trie.get_data("bare", false));
}

#[test]
fn clear_data_keeps_the_word() {
    let mut trie = DataTrie::new();
    trie.insert("w", 1);
    trie.insert("w", 2);
    assert_eq!(Some(vec![1, 2]), trie.clear_data("w"));
    assert!(trie.contains("w"));
    assert_eq!(Some(Vec::<&i32>::new()), trie.get_data("w", false));
    assert_eq!(1, trie.len());
}

#[test]
fn remove_prefix_collects_values_below() {
    let mut trie = DataTrie::new();
    trie.insert("pre", 1);
    trie.insert("prefix", 2);
    trie.insert("prefab", 3);
    trie.insert("post", 4);
    let mut removed = trie.remove_prefix("pre").unwrap();
    removed.sort();
    assert_eq!(vec![2, 3], removed);
    assert_eq!(2, trie.len());
    assert_eq!(Some(vec![&1]), trie.get_data("pre", true));
    assert_eq!(Some(Vec::<i32>::new()), trie.remove_prefix("post"));
}

#[test]
fn words_split_into_grapheme_clusters() {
    let mut trie = Trie::new();
    trie.insert("e\u{301}x");
    trie.insert("ab");
    assert_eq!(None, trie.get("e"));
    assert_eq!(Some(strings(&["e\u{301}x"])), trie.get("e\u{301}"));
    assert_eq!(Some(strings(&["ab"])), trie.get("a"));
}

#[test]
fn equality_compares_words_and_values() {
    let mut a = DataTrie::new();
    a.insert("x", 1);
    let mut b = DataTrie::new();
    b.insert("x", 2);
    assert_ne!(a, b);
    assert!(!a.equals(&b));
    let mut c = Trie::new();
    c.insert("x");
    let mut d = Trie::new();
    d.insert("x");
    assert!(c.equals(&d));
    d.insert("xy");
    assert_ne!(c, d);
}

#[test]
fn repeated_word_is_listed_once() {
    let mut trie = Trie::new();
    trie.insert("aa");
    trie.insert("aa");
    trie.insert("bb");
    trie.insert("a");
    assert_eq!(strings(&["aa", "bb"]), sorted(trie.get_longest()));
    assert_eq!(strings(&["a"]), trie.get_shortest());
    assert_eq!(strings(&["a", "aa", "bb"]), sorted(trie.get_all()));
    assert_eq!(Some(strings(&["a", "aa"])), trie.get("a").map(sorted));
}

#[test]
fn store_then_remove_restores_the_trie() {
    let mut trie = DataTrie::new();
    trie.insert("kept", 1);
    let mut fresh = DataTrie::new();
    fresh.insert("kept", 1);
    trie.insert("kep", 2);
    assert_eq!(Some(vec![2]), trie.remove("kep"));
    assert_eq!(trie, fresh);
    assert_eq!(1, trie.len());
}

#[test]
fn soft_match_values_keep_their_multiplicity() {
    let mut trie = DataTrie::new();
    trie.insert("ab", 1);
    trie.insert("ab", 1);
    trie.insert("abc", 1);
    trie.insert("b", 2);
    assert_eq!(Some(vec![&1, &1, &1]), trie.get_data("a", true));
    let mut removed = trie.remove_prefix("a").unwrap();
    removed.sort();
    assert_eq!(vec![1, 1, 1], removed);
    assert_eq!(1, trie.len());
}
