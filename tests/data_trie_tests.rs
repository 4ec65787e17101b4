use basic_trie::DataTrie;

#[test]
fn find_data_soft_match() {
    let found_data_correct = vec![&1, &2, &3];

    let mut trie = DataTrie::new();

    trie.insert("word1", 1);
    trie.insert("word2", 2);
    trie.insert("word3", 3);

    let mut found_data = trie.get_data("word", true).unwrap();
    found_data.sort();
    assert_eq!(found_data, found_data_correct);
}

#[test]
fn find_str_data_soft_match() {
    let found_data_correct = vec![&"data1", &"data2", &"data3"];

    let mut trie = DataTrie::new();

    trie.insert("word1", "data1");
    trie.insert("word2", "data2");
    trie.insert("word3", "data3");

    let mut found_data = trie.get_data("word", true).unwrap();
    found_data.sort();
    assert_eq!(found_data, found_data_correct);
}

#[test]
fn find_data_hard_match() {
    let found_data_correct = vec![&1];

    let mut trie = DataTrie::new();

    trie.insert("word1", 1);
    trie.insert("word2", 2);
    trie.insert("word3", 3);

    let mut found_data = trie.get_data("word1", false).unwrap();
    found_data.sort();
    assert_eq!(found_data, found_data_correct);
}

#[test]
fn find_data_hard_match_not_found() {
    let found_data_correct = None;

    let mut trie = DataTrie::new();

    trie.insert("word1", 1);
    trie.insert("word2", 2);
    trie.insert("word3", 3);

    let found_data = trie.get_data("word", false);

    assert_eq!(found_data, found_data_correct);
}

#[test]
fn same_word_twice_different_data() {
    let mut trie = DataTrie::new();

    trie.insert("twice", 5);
    trie.insert("twice", 3);

    assert_eq!(vec![&5, &3], trie.get_data("twice", true).unwrap());
}

#[test]
fn clear_word_data() {
    let mut trie = DataTrie::new();

    trie.insert("twice", 5);
    let data = trie.clear_data("twice");
    trie.insert("twice", 3);

    assert_eq!(vec![&3], trie.get_data("twice", true).unwrap());
    assert_eq!(vec![5], data.unwrap());
}

#[test]
fn clear_word_no_data() {
    let mut trie = DataTrie::new();

    trie.insert("word1", 5);
    let data = trie.clear_data("word2");

    assert_eq!(None, data);
}

#[test]
fn remove_word1() {
    let mut trie = DataTrie::new();

    trie.insert("a", 5);
    trie.insert("ab", 5);
    trie.insert("abc", 5);
    trie.insert("abcd", 5);

    trie.remove("a");

    let all_words = vec![
        String::from("ab"),
        String::from("abc"),
        String::from("abcd"),
    ];

    assert_eq!(all_words, trie.get_all())
}

#[test]
fn remove_word_final() {
    let mut trie = DataTrie::new();

    trie.insert("a", 5);
    trie.insert("ab", 5);
    trie.insert("abc", 5);
    trie.insert("abcd", 5);

    trie.remove("abcd");

    let all_correct_words = vec![String::from("a"), String::from("ab"), String::from("abc")];

    let mut all_words = trie.get_all();
    all_words.sort();

    assert_eq!(all_correct_words, all_words);
}

#[test]
fn remove_word_2() {
    let mut trie = DataTrie::new();

    trie.insert("a", 5);
    trie.insert("ab", 5);
    trie.insert("abc", 5);
    trie.insert("abcd", 5);

    trie.remove("abc");

    let all_correct_words = vec![String::from("a"), String::from("ab"), String::from("abcd")];

    let mut all_words = trie.get_all();
    all_words.sort();

    assert_eq!(all_correct_words, all_words);
    assert_eq!(vec![&5, &5, &5], trie.get_data("a", true).unwrap());
}

#[test]
fn remove_word_3() {
    let mut trie = DataTrie::new();

    trie.insert("eat", 5);
    trie.insert("eating", 5);
    trie.insert("eats", 5);
    trie.insert("eatings", 5);

    trie.remove("eating");

    let all_correct_words = vec![
        String::from("eat"),
        String::from("eatings"),
        String::from("eats"),
    ];

    let mut all_words = trie.get_all();
    all_words.sort();

    assert_eq!(all_correct_words, all_words);
}

#[test]
fn remove_word_4() {
    let mut trie = DataTrie::new();

    trie.insert("eat", 5);
    trie.insert("eating", 5);
    trie.insert("eats", 5);
    trie.insert("eatings", 5);

    trie.remove("eatings");

    let all_correct_words = vec![
        String::from("eat"),
        String::from("eating"),
        String::from("eats"),
    ];

    let mut all_words = trie.get_all();
    all_words.sort();

    assert_eq!(all_correct_words, all_words);
}

#[test]
fn remove_word_5() {
    let mut trie = DataTrie::new();

    trie.insert("eat", 5);
    trie.insert("eating", 5);
    trie.insert("eats", 5);
    trie.insert("eatings", 5);

    let data = trie.remove("eatin");

    let all_correct_words = vec![
        String::from("eat"),
        String::from("eating"),
        String::from("eatings"),
        String::from("eats"),
    ];

    let mut all_words = trie.get_all();
    all_words.sort();

    assert_eq!(all_correct_words, all_words);
    assert_eq!(None, data);
}

#[test]
fn remove_word_6() {
    let mut trie = DataTrie::new();

    trie.insert("eat", 5);
    trie.insert("eatings", 5);

    trie.remove("eatings");

    let all_correct_words = vec![String::from("eat")];

    let mut all_words = trie.get_all();
    all_words.sort();

    assert_eq!(all_correct_words, all_words);
}

#[test]
fn remove_word_7() {
    let mut trie = DataTrie::new();

    trie.insert("eat", 3);
    trie.insert("eatings", 5);

    let data1 = trie.remove("eatings");

    let all_correct_words = vec![String::from("eat")];

    let mut all_words = trie.get_all();
    all_words.sort();

    assert_eq!(all_correct_words, all_words);

    assert_eq!(vec![5], data1.unwrap());

    let data2 = trie.remove("eat");

    assert_eq!(vec![3], data2.unwrap());
}

#[test]
fn remove_word_8() {
    let mut trie = DataTrie::new();

    trie.insert("eat", 3);
    trie.insert("eats", 4);
    trie.insert("eatings", 5);

    let data = trie.remove("eats");

    let all_correct_words = vec![String::from("eat"), String::from("eatings")];

    let mut all_words = trie.get_all();
    all_words.sort();

    assert_eq!(all_correct_words, all_words);
    assert_eq!(vec![4], data.unwrap());

    let mut remaining_data = trie.get_data("eat", true).unwrap();
    remaining_data.sort();

    assert_eq!(vec![&3, &5], remaining_data);
}

#[test]
fn remove_prefix_1() {
    let mut trie = DataTrie::new();

    trie.insert("eat", 3);
    trie.insert("eating", 4);
    trie.insert("eats", 5);
    trie.insert("eatings", 6);
    trie.insert("ea", 7);

    let mut removed_data = trie.remove_prefix("ea").unwrap();
    removed_data.sort();

    assert_eq!(vec![String::from("ea")], trie.get_all());
    assert_eq!(vec![3, 4, 5, 6], removed_data);
    assert_eq!(1, trie.len());
}

#[test]
fn remove_prefix_2() {
    let mut trie = DataTrie::new();

    trie.insert("a1", 3);
    trie.insert("b2", 4);
    trie.insert("c3", 5);

    let mut removed_data = trie.remove_prefix("").unwrap();
    removed_data.sort();

    assert_eq!(Vec::<String>::new(), trie.get_all());
    assert!(trie.is_empty());
    assert_eq!(0, trie.len());
    assert_eq!(vec![3, 4, 5], removed_data);
}

#[test]
fn unicode_data() {
    let mut trie = DataTrie::new();

    trie.insert("а", 5);
    trie.insert("аб", 5);
    trie.insert("абц", 5);
    trie.insert("абцд", 5);

    let all_data = vec![&5, &5, &5, &5];

    assert_eq!(all_data, trie.get_data("а", true).unwrap())
}

#[test]
fn insert_no_data() {
    let mut trie = DataTrie::<&str>::new();

    trie.insert_no_data("word1");
    assert_eq!(vec![String::from("word1")], trie.get_all());

    trie.insert("word1", "somedata");
    assert_eq!(
        vec![&"somedata"],
        trie.get_data("word1", false).unwrap()
    );
}

#[test]
fn equals_1() {
    let mut data_trie_1 = DataTrie::new();
    data_trie_1.insert("test", 1);

    let mut data_trie_2 = DataTrie::new();
    data_trie_2.insert("test", 1);

    assert_eq!(data_trie_1, data_trie_2);
}

#[test]
fn equals_2() {
    let mut data_trie_1 = DataTrie::new();
    data_trie_1.insert("test", 1);

    let mut data_trie_2 = DataTrie::new();
    data_trie_2.insert("test", 1);
    data_trie_2.insert("test2", 1);

    assert_ne!(data_trie_1, data_trie_2);
}

#[test]
fn equals_3() {
    let mut data_trie_1 = DataTrie::new();
    data_trie_1.insert("test", 1);
    data_trie_1.insert("test2", 1);

    let mut data_trie_2 = DataTrie::new();
    data_trie_2.insert("test", 1);

    assert_ne!(data_trie_1, data_trie_2);
}

#[test]
fn add_two_tries_1() {
    let mut t1 = DataTrie::<i32>::new();
    t1.insert("word1", 1000);
    t1.insert("word2", 1000);
    t1.insert("apple", 1000);
    t1.insert("banana", 1000);

    let mut t2 = DataTrie::<i32>::new();
    t2.insert("word3", 1000);
    t2.insert("word4", 1000);
    t2.insert("potato", 1000);
    t2.insert("watermelon", 1000);

    let t3 = t1.add(t2);

    let mut correct = DataTrie::<i32>::new();
    correct.insert("word1", 1000);
    correct.insert("word2", 1000);
    correct.insert("apple", 1000);
    correct.insert("banana", 1000);
    correct.insert("word3", 1000);
    correct.insert("word4", 1000);
    correct.insert("potato", 1000);
    correct.insert("watermelon", 1000);

    let mut t3_words = t3.get_all();
    let mut correct_words = correct.get_all();

    t3_words.sort();
    correct_words.sort();
    assert_eq!(t3_words, correct_words);
    assert_eq!(t3, correct);

    let t3_data = t3.get_data("", true).unwrap();
    assert_eq!(t3_data, Vec::from([&1000; 8]));
}

#[test]
fn add_two_tries_2() {
    let mut t1 = DataTrie::<i32>::new();
    t1.insert("word1", 1000);
    t1.insert("word2", 1000);
    t1.insert("apple", 1000);
    t1.insert("banana", 1000);

    let mut t2 = DataTrie::<i32>::new();
    t2.insert("word3", 1000);
    t2.insert("word4", 1000);
    t2.insert("potato", 1000);
    t2.insert("watermelon", 1000);

    t1.add_assign(t2);

    let mut correct = DataTrie::<i32>::new();
    correct.insert("word1", 1000);
    correct.insert("word2", 1000);
    correct.insert("apple", 1000);
    correct.insert("banana", 1000);
    correct.insert("word3", 1000);
    correct.insert("word4", 1000);
    correct.insert("potato", 1000);
    correct.insert("watermelon", 1000);

    let mut t1_words = t1.get_all();
    let mut correct_words = correct.get_all();

    t1_words.sort();
    correct_words.sort();
    assert_eq!(t1_words, correct_words);
    assert_eq!(t1, correct);

    let t1_data = t1.get_data("", true).unwrap();
    assert_eq!(t1_data, Vec::from([&1000; 8]));
}

#[test]
fn add_two_tries_3() {
    let mut t1 = DataTrie::<i32>::new();
    t1.insert("word1", 500);

    let mut t2 = DataTrie::<i32>::new();
    t2.insert("word2", 500);
    t2.insert("word", 500);

    t1.add_assign(t2);

    let mut correct = DataTrie::<i32>::new();
    correct.insert("word", 500);
    correct.insert("word1", 500);
    correct.insert("word2", 500);

    let mut t1_words = t1.get_all();
    let mut correct_words = correct.get_all();

    t1_words.sort();
    correct_words.sort();
    assert_eq!(t1_words, correct_words);
    assert_eq!(t1, correct);

    let t1_data = t1.get_data("", true).unwrap();
    assert_eq!(t1_data, Vec::from([&500; 3]));
}

#[test]
fn add_two_tries_4() {
    let mut t1 = DataTrie::<i32>::new();
    t1.insert("word1", 500);
    t1.insert("word1", 500);
    t1.insert("word1", 500);

    let mut t2 = DataTrie::<i32>::new();
    t2.insert("word1", 500);
    t2.insert("word1", 500);
    t2.insert("word1", 500);

    t1.add_assign(t2);

    let mut correct = DataTrie::<i32>::new();
    correct.insert("word1", 500);

    let mut t1_words = t1.get_all();
    let mut correct_words = correct.get_all();

    t1_words.sort();
    correct_words.sort();
    assert_eq!(t1_words, correct_words);

    let t1_data = t1.get_data("", true).unwrap();
    assert_eq!(t1_data, Vec::from([&500; 6]));
}

#[test]
fn add_two_tries_5() {
    let mut t1 = DataTrie::<i32>::new();
    t1.insert("word1", 500);
    t1.insert("word1", 500);
    t1.insert("word1", 500);

    let mut t2 = DataTrie::<i32>::new();
    t2.insert("word1", 500);
    t2.insert("word1", 500);
    t2.insert("word1", 500);

    t1.add_assign(t2);

    let mut correct = DataTrie::<i32>::new();
    correct.insert("word1", 500);

    let mut t1_words = t1.get_all();
    let mut correct_words = correct.get_all();

    t1_words.sort();
    correct_words.sort();
    assert_eq!(t1_words, correct_words);

    let t1_data = t1.get_data("", true).unwrap();
    assert_eq!(t1_data, Vec::from([&500; 6]));
}
