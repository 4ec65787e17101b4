use basic_trie::Trie;

#[test]
fn find_words() {
    let found_words_correct = vec![
        String::from("word1"),
        String::from("word2"),
        String::from("word3"),
    ];

    let mut trie = Trie::new();

    trie.insert("word1");
    trie.insert("word2");
    trie.insert("word3");

    let mut found_words = trie.get("word").unwrap();
    found_words.sort();
    assert_eq!(found_words, found_words_correct);
}

#[test]
fn longest_word() {
    let mut trie = Trie::new();

    trie.insert("a");
    assert_eq!(trie.get_longest(), vec![String::from("a")]);

    trie.insert("aa");
    assert_eq!(trie.get_longest(), vec![String::from("aa")]);

    trie.insert("aaa");
    assert_eq!(trie.get_longest(), vec![String::from("aaa")]);

    trie.insert("aaaa");
    assert_eq!(trie.get_longest(), vec![String::from("aaaa")]);

    trie.insert("a");
    assert_eq!(trie.get_longest(), vec![String::from("aaaa")]);
}

#[test]
fn multiple_longest_words() {
    let mut trie = Trie::new();

    trie.insert("abba");
    trie.insert("cddc");

    let mut found_words = trie.get_longest();
    found_words.sort();

    assert_eq!(
        vec![String::from("abba"), String::from("cddc")],
        found_words
    );
}

#[test]
fn shortest_word() {
    let mut trie = Trie::new();

    trie.insert("a");
    assert_eq!(trie.get_shortest(), vec![String::from("a")]);

    trie.insert("aa");
    assert_eq!(trie.get_shortest(), vec![String::from("a")]);

    trie.insert("aaa");
    assert_eq!(trie.get_shortest(), vec![String::from("a")]);

    trie.insert("aaaa");
    assert_eq!(trie.get_shortest(), vec![String::from("a")]);

    trie.insert("a");
    assert_eq!(trie.get_shortest(), vec![String::from("a")]);
}

#[test]
fn multiple_shortest_words() {
    let mut trie = Trie::new();

    trie.insert("aaa");
    trie.insert("aaaa");
    trie.insert("aa");
    trie.insert("bb");

    let mut found_words = trie.get_shortest();
    found_words.sort();

    assert_eq!(vec![String::from("aa"), String::from("bb")], found_words);
}

#[test]
fn number_of_words() {
    let mut trie = Trie::new();

    trie.insert("a");
    trie.insert("b");
    trie.insert("c");
    trie.insert("d");

    assert_eq!(4, trie.len());
}

#[test]
fn same_word_twice() {
    let mut trie = Trie::new();

    trie.insert("twice");
    trie.insert("twice");

    assert_eq!(vec!["twice"], trie.get("twice").unwrap());
}

#[test]
fn all_words() {
    let mut trie = Trie::new();

    trie.insert("a");
    trie.insert("ab");
    trie.insert("abc");
    trie.insert("abcd");

    let all_words = vec![
        String::from("a"),
        String::from("ab"),
        String::from("abc"),
        String::from("abcd"),
    ];

    assert_eq!(all_words, trie.get_all())
}

#[test]
fn unicode() {
    let mut trie = Trie::new();

    trie.insert("а");
    trie.insert("аб");
    trie.insert("абц");
    trie.insert("абцд");

    let all_words = vec![
        String::from("а"),
        String::from("аб"),
        String::from("абц"),
        String::from("абцд"),
    ];

    assert_eq!(all_words, trie.get_all())
}

#[test]
fn clear() {
    let mut trie = Trie::new();
    trie.insert("word1");
    trie.insert("word2");
    trie.insert("word3");
    trie.insert("word4");
    trie.insert("word5");

    trie.clear();
}
