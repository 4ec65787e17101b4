use basic_trie::Trie;

#[test]
fn lib_insert_no_data() {
    let mut trie = Trie::new();

    let found_words_correct = vec![
        String::from("word1"),
        String::from("word2"),
        String::from("word3"),
    ];

    trie.insert("word1");
    trie.insert("word2");
    trie.insert("word3");

    let mut found_words = trie.get("word").unwrap();
    found_words.sort();

    assert_eq!(found_words, found_words_correct);
}

#[test]
fn lib_remove_word1() {
    let mut trie = Trie::new();

    trie.insert("a");
    trie.insert("ab");
    trie.insert("abc");
    trie.insert("abcd");

    trie.remove("a");

    let all_words = vec![
        String::from("ab"),
        String::from("abc"),
        String::from("abcd"),
    ];

    assert_eq!(all_words, trie.get_all())
}

#[test]
fn lib_remove_word_final() {
    let mut trie = Trie::new();

    trie.insert("a");
    trie.insert("ab");
    trie.insert("abc");
    trie.insert("abcd");

    trie.remove("abcd");

    let all_correct_words = vec![String::from("a"), String::from("ab"), String::from("abc")];

    let mut all_words = trie.get_all();
    all_words.sort();

    assert_eq!(all_correct_words, all_words);
}

#[test]
fn lib_remove_word_2() {
    let mut trie = Trie::new();

    trie.insert("a");
    trie.insert("ab");
    trie.insert("abc");
    trie.insert("abcd");

    trie.remove("abc");

    let all_correct_words = vec![String::from("a"), String::from("ab"), String::from("abcd")];

    let mut all_words = trie.get_all();
    all_words.sort();

    assert_eq!(all_correct_words, all_words);
}

#[test]
fn lib_remove_word_3() {
    let mut trie = Trie::new();

    trie.insert("eat");
    trie.insert("eating");
    trie.insert("eats");
    trie.insert("eatings");

    trie.remove("eating");

    let all_correct_words = vec![
        String::from("eat"),
        String::from("eatings"),
        String::from("eats"),
    ];

    let mut all_words = trie.get_all();
    all_words.sort();

    assert_eq!(all_correct_words, all_words);
}

#[test]
fn lib_remove_word_4() {
    let mut trie = Trie::new();

    trie.insert("eat");
    trie.insert("eating");
    trie.insert("eats");
    trie.insert("eatings");

    trie.remove("eatings");

    let all_correct_words = vec![
        String::from("eat"),
        String::from("eating"),
        String::from("eats"),
    ];

    let mut all_words = trie.get_all();
    all_words.sort();

    assert_eq!(all_correct_words, all_words);
}

#[test]
fn lib_remove_word_5() {
    let mut trie = Trie::new();

    trie.insert("eat");
    trie.insert("eating");
    trie.insert("eats");
    trie.insert("eatings");

    trie.remove("eatin");

    let all_correct_words = vec![
        String::from("eat"),
        String::from("eating"),
        String::from("eatings"),
        String::from("eats"),
    ];

    let mut all_words = trie.get_all();
    all_words.sort();

    assert_eq!(all_correct_words, all_words);
}

#[test]
fn lib_remove_word_6() {
    let mut trie = Trie::new();

    trie.insert("eat");
    trie.insert("eatings");

    trie.remove("eatings");

    let all_correct_words = vec![String::from("eat")];

    let mut all_words = trie.get_all();
    all_words.sort();

    assert_eq!(all_correct_words, all_words);
}

#[test]
fn lib_remove_word_7() {
    let mut trie = Trie::new();

    trie.insert("eat");
    trie.insert("eatings");

    trie.remove("eatings");

    let all_correct_words = vec![String::from("eat")];

    let mut all_words = trie.get_all();
    all_words.sort();

    assert_eq!(all_correct_words, all_words);
}

#[test]
fn lib_remove_word_8() {
    let mut trie = Trie::new();

    trie.insert("eat");
    trie.insert("eats");
    trie.insert("eating");

    trie.remove("eats");

    let all_correct_words = vec![String::from("eat"), String::from("eating")];

    let mut all_words = trie.get_all();
    all_words.sort();

    assert_eq!(all_correct_words, all_words);
}

#[test]
fn remove_word_9() {
    let mut trie = Trie::new();

    trie.insert("123");
    trie.insert("1234");
    trie.insert("12345");

    trie.remove("1234");

    let all_correct_words = vec![String::from("123"), String::from("12345")];

    let mut all_words = trie.get_all();
    all_words.sort();

    assert_eq!(all_correct_words, all_words);
}

#[test]
fn lib_remove_prefix_1() {
    let mut trie = Trie::new();

    trie.insert("eat");
    trie.insert("eating");
    trie.insert("eats");
    trie.insert("eatings");
    trie.insert("ea");

    trie.remove_prefix("ea");

    assert_eq!(vec![String::from("ea")], trie.get_all());
    assert_eq!(1, trie.len());
}

#[test]
fn lib_remove_prefix_2() {
    let mut trie = Trie::new();

    trie.insert("a1");
    trie.insert("b2");
    trie.insert("c3");

    trie.remove_prefix("");

    assert_eq!(Vec::<String>::new(), trie.get_all());
    assert!(trie.is_empty());
    assert_eq!(0, trie.len());
}

#[test]
fn equals() {
    let mut trie_1 = Trie::new();
    trie_1.insert("test");

    let mut trie_2 = Trie::new();
    trie_2.insert("test");

    assert_eq!(trie_1, trie_2);
}

#[test]
fn lib_add_two_tries_1() {
    let mut t1 = Trie::new();
    t1.insert("word1");
    t1.insert("word2");
    t1.insert("apple");
    t1.insert("banana");

    let mut t2 = Trie::new();
    t2.insert("word3");
    t2.insert("word4");
    t2.insert("potato");
    t2.insert("pineapple");

    let t3 = t1.add(t2);

    let mut correct = Trie::new();
    correct.insert("word1");
    correct.insert("word2");
    correct.insert("apple");
    correct.insert("banana");
    correct.insert("word3");
    correct.insert("word4");
    correct.insert("potato");
    correct.insert("pineapple");

    let mut t3_words = t3.get_all();
    let mut correct_words = correct.get_all();

    t3_words.sort();
    correct_words.sort();
    assert_eq!(t3_words, correct_words);
}

#[test]
fn lib_add_two_tries_2() {
    let mut t1 = Trie::new();
    t1.insert("word1");
    t1.insert("word2");
    t1.insert("apple");
    t1.insert("banana");

    let mut t2 = Trie::new();
    t2.insert("word3");
    t2.insert("word4");
    t2.insert("potato");
    t2.insert("watermelon");

    t1.add_assign(t2);

    let mut correct = Trie::new();
    correct.insert("word1");
    correct.insert("word2");
    correct.insert("apple");
    correct.insert("banana");
    correct.insert("word3");
    correct.insert("word4");
    correct.insert("potato");
    correct.insert("watermelon");

    let mut t1_words = t1.get_all();
    let mut correct_words = correct.get_all();

    t1_words.sort();
    correct_words.sort();
    assert_eq!(t1_words, correct_words);
}

#[test]
fn lib_add_two_tries_3() {
    let mut t1 = Trie::new();
    t1.insert("word1");

    let mut t2 = Trie::new();
    t2.insert("word2");
    t2.insert("word");

    t1.add_assign(t2);

    let mut correct = Trie::new();
    correct.insert("word");
    correct.insert("word1");
    correct.insert("word2");

    let mut t1_words = t1.get_all();
    let mut correct_words = correct.get_all();

    t1_words.sort();
    correct_words.sort();
    assert_eq!(t1_words, correct_words);
}
