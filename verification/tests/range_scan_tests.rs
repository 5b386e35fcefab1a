use hot_rust::trie::HOT;

#[test]
fn test_range_scan_simple() {
    let mut trie = HOT::new(4);
    trie.insert("apple".to_string(), 1);
    trie.insert("banana".to_string(), 2);
    trie.insert("cherry".to_string(), 3);
    trie.insert("date".to_string(), 4);
    trie.insert("eggplant".to_string(), 5);

    let results = trie.range_scan(&"banana".to_string(), &"date".to_string());
    assert_eq!(results, vec!["banana".to_string(), "cherry".to_string(), "date".to_string()]);
}

#[test]
fn test_range_scan_full() {
    let mut trie = HOT::new(4);
    trie.insert("a".to_string(), 1);
    trie.insert("b".to_string(), 2);
    trie.insert("c".to_string(), 3);

    let results = trie.range_scan(&"a".to_string(), &"z".to_string());
    assert_eq!(results, vec!["a".to_string(), "b".to_string(), "c".to_string()]);
}

#[test]
fn test_range_scan_empty() {
    let trie: HOT<String, i32> = HOT::new(4);
    let results = trie.range_scan(&"a".to_string(), &"z".to_string());
    assert!(results.is_empty());
}

#[test]
fn test_range_scan_out_of_bounds() {
    let mut trie = HOT::new(4);
    trie.insert("b".to_string(), 1);
    trie.insert("c".to_string(), 2);

    let results = trie.range_scan(&"x".to_string(), &"z".to_string());
    assert!(results.is_empty());

    let results2 = trie.range_scan(&"a".to_string(), &"a".to_string());
    assert!(results2.is_empty());
}
