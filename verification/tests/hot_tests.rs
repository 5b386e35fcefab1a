use hot_rust::trie::{Entry, HOTNode, HOT, HotKey, InsertResult, KeyOrder, RemoveResult, SearchState, find_first_diff_bit, next_search_state};
use hot_rust::trie::bits::{pext, pext_soft};
use hot_rust::trie::node::leaf_id;
use hot_rust::trie::steps::ScanStep;

fn s(x: &str) -> String {
    x.to_string()
}

fn abc_trie() -> HOT<String, i32> {
    let mut trie = HOT::new(4);
    trie.insert(s("a"), 1);
    trie.insert(s("b"), 2);
    trie.insert(s("c"), 3);
    trie
}

#[test]
fn insert_then_every_key_maps_to_its_value() {
    let mut trie = HOT::new(32);
    for i in 0..200u64 {
        trie.insert(i * 7, i);
    }
    for i in 0..200u64 {
        assert_eq!(trie.lookup(&(i * 7)), Some(&i));
    }
    assert_eq!(trie.lookup(&3), None);
    let all = trie.range_scan(&0, &u64::MAX);
    let expected: Vec<u64> = (0..200u64).map(|i| i * 7).collect();
    assert_eq!(all, expected);
}

#[test]
fn insert_existing_key_updates_value() {
    let mut trie = abc_trie();
    trie.insert(s("b"), 20);
    assert_eq!(trie.lookup(&s("b")), Some(&20));
    assert_eq!(trie.range_scan(&s("a"), &s("z")), vec![s("a"), s("b"), s("c")]);
}

#[test]
fn remove_key_keeps_the_others() {
    let mut trie = abc_trie();
    let root_id = trie.root.as_ref().unwrap().id;
    let res = trie.remove(&s("b"));
    assert!(res.success);
    assert_eq!(res.message, "Key removed");
    assert_eq!(res.collapsed_node_ids, vec![root_id]);
    assert_eq!(res.removed_id, None);
    assert_eq!(trie.lookup(&s("b")), None);
    assert_eq!(trie.range_scan(&s("a"), &s("z")), vec![s("a"), s("c")]);
}

#[test]
fn remove_missing_key_is_not_found() {
    let mut trie = abc_trie();
    let res = trie.remove(&s("q"));
    assert!(!res.success);
    assert_eq!(res.message, "Key not found");
    assert_eq!(trie.range_scan(&s("a"), &s("z")), vec![s("a"), s("b"), s("c")]);
}

#[test]
fn remove_last_key_empties_the_trie() {
    let mut trie: HOT<String, i32> = HOT::new(4);
    trie.insert(s("only"), 1);
    let res = trie.remove(&s("only"));
    assert!(res.success);
    assert_eq!(res.message, "Trie became empty");
    assert!(trie.root.is_none());
}

#[test]
fn remove_to_one_entry_collapses_the_root() {
    let mut trie: HOT<String, i32> = HOT::new(4);
    trie.insert(s("a"), 1);
    trie.insert(s("b"), 2);
    let root_id = trie.root.as_ref().unwrap().id;
    let res = trie.remove(&s("a"));
    assert!(res.success);
    assert_eq!(res.message, "Underflow handled: level collapsed");
    assert_eq!(res.collapsed_node_ids, vec![root_id, root_id]);
    let root = trie.root.as_ref().unwrap();
    assert_eq!(root.height, 1);
    assert_eq!(root.entries.len(), 1);
    assert_eq!(trie.lookup(&s("b")), Some(&2));
}

#[test]
fn remove_from_empty_trie_reports_nothing() {
    let mut trie: HOT<String, i32> = HOT::new(4);
    let res = trie.remove(&s("a"));
    assert!(!res.success);
    assert_eq!(res.message, "");
    assert!(res.collapsed_node_ids.is_empty());
}

#[test]
fn remove_by_id_of_root_leaf_and_unknown() {
    let mut trie = abc_trie();
    let root_id = trie.root.as_ref().unwrap().id;
    let res = trie.remove_by_id(12345);
    assert!(!res.success);
    assert_eq!(res.message, "Not found");
    let res = trie.remove_by_id(leaf_id(root_id, 0));
    assert!(res.success);
    assert_eq!(res.message, "Entry removed");
    assert_eq!(res.removed_id, Some(leaf_id(root_id, 0)));
    assert_eq!(trie.lookup(&s("a")), None);
    assert_eq!(trie.range_scan(&s("b"), &s("z")), vec![s("b"), s("c")]);
    let res = trie.remove_by_id(root_id);
    assert!(res.success);
    assert_eq!(res.message, "Root removed");
    assert_eq!(res.removed_id, Some(root_id));
    assert!(trie.root.is_none());
}

#[test]
fn remove_by_id_of_a_child_removes_its_subtree() {
    let mut trie: HOT<u64, u64> = HOT::new(2);
    for i in 0..6u64 {
        trie.insert(i, i);
    }
    let root = trie.root.as_ref().unwrap();
    let child_id = match &root.entries[0] {
        Entry::Child(_, c, _) => c.id,
        Entry::Leaf(_, _, _) => panic!("expected a child"),
    };
    let before = trie.range_scan(&0, &100);
    let res = trie.remove_by_id(child_id);
    assert!(res.success);
    let after = trie.range_scan(&0, &100);
    assert!(after.len() < before.len());
    for k in &after {
        assert!(before.contains(k));
    }
}

#[test]
fn search_reports_match_false_positive_and_empty() {
    let empty: HOT<String, i32> = HOT::new(4);
    let res = empty.search(&s("a"));
    assert_eq!(res.message, "Trie is empty");
    assert!(res.visited_nodes.is_empty());

    let mut one: HOT<String, i32> = HOT::new(4);
    one.insert(s("a"), 1);
    let root_id = one.root.as_ref().unwrap().id;
    let hit = one.search(&s("a"));
    assert!(hit.is_match);
    assert_eq!(hit.message, "Match Found");
    assert_eq!(hit.leaf_id, Some(leaf_id(root_id, 0)));
    assert_eq!(hit.visited_nodes, vec![root_id]);
    assert_eq!(hit.visited_edges, vec![(root_id, leaf_id(root_id, 0))]);
    assert_eq!(hit.steps.len(), 1);
    assert_eq!(hit.steps[0].matched_entry_id, Some(leaf_id(root_id, 0)));

    // with an empty mask every key has partial key 0, so a missing key reaches the leaf
    let miss = one.search(&s("z"));
    assert!(miss.is_false_positive);
    assert!(!miss.is_match);
    assert_eq!(miss.message, "False Positive (Key mismatch at leaf)");
}

#[test]
fn search_without_matching_partial_key_is_not_found() {
    let trie = abc_trie();
    // mask bits 6 and 7: "a" gives 1, "b" gives 2, "c" gives 3; "`" (0x60) gives 0
    let res = trie.search(&s("`"));
    assert_eq!(res.leaf_id, None);
    assert_eq!(res.message, "Not Found (No matching partial key)");
    assert_eq!(res.steps.len(), 1);
    assert_eq!(res.steps[0].partial_key, 0);
    assert_eq!(res.steps[0].mask, vec![6, 7]);
}

#[test]
fn lookup_with_path_records_root_and_leaf() {
    let trie = abc_trie();
    let root_id = trie.root.as_ref().unwrap().id;
    let (v, path) = trie.lookup_with_path(&s("b"));
    assert_eq!(v, Some(&2));
    assert_eq!(path, vec![root_id, leaf_id(root_id, 1)]);
    let (v, path) = trie.lookup_with_path(&s("zz"));
    assert_eq!(v, None);
    assert_eq!(path, vec![root_id]);
    let empty: HOT<String, i32> = HOT::new(4);
    let (v, path) = empty.lookup_with_path(&s("b"));
    assert_eq!(v, None);
    assert!(path.is_empty());
}

#[test]
fn pext_extracts_selected_bits() {
    assert_eq!(pext(0b1011, 0b0110), 0b01);
    assert_eq!(pext(0xF0, 0xFF), 0xF0);
    assert_eq!(pext(u64::MAX, 0x8000_0000_0000_0001), 0b11);
    assert_eq!(pext(0x8000_0000_0000_0000, 0x8000_0000_0000_0001), 0b10);
    assert_eq!(pext_soft(0x1234, 0), 0);
}

#[test]
fn first_differing_bits_of_strings() {
    assert_eq!(find_first_diff_bit("a", "b"), Some(6));
    assert_eq!(find_first_diff_bit("ab", "abc"), Some(16));
    assert_eq!(find_first_diff_bit("abc", "abc"), None);
    assert_eq!(find_first_diff_bit("", "x"), Some(0));
    assert_eq!(find_first_diff_bit("b", "a"), Some(6));
    assert_eq!(s("apple").first_differing_bit(&s("apricot")), Some(22));
}

#[test]
fn string_key_bits_and_windows() {
    let k = s("A");
    assert!(!k.get_bit(0));
    assert!(k.get_bit(1));
    assert!(k.get_bit(7));
    assert!(!k.get_bit(8));
    assert_eq!(s("AB").get_u64_at(0), 0x4142_0000_0000_0000);
    assert_eq!(s("ABCDEFGHIJ").get_u64_at(2), 0x4344_4546_4748_494A);
    assert_eq!(s("AB").get_u64_at(5), 0);
    assert_eq!(s("AB").get_u64_at(usize::MAX), 0);
}

#[test]
fn integer_key_bits() {
    assert_eq!(5u64.first_differing_bit(&4), Some(63));
    assert_eq!(5u64.first_differing_bit(&5), None);
    assert_eq!(5u32.first_differing_bit(&4), Some(31));
    assert!(1u64.get_bit(63));
    assert!(!1u64.get_bit(0));
    assert!(!1u64.get_bit(64));
    assert!(1u32.get_bit(31));
    assert!(!1u32.get_bit(32));
    assert_eq!(1u32.get_u64_at(0), 1u64 << 32);
    assert_eq!(1u32.get_u64_at(3), 0x0100_0000_0000_0000);
    assert_eq!(1u32.get_u64_at(4), 0);
    assert_eq!(9u64.get_u64_at(3), 0x0000_0000_0900_0000);
    assert_eq!(0x0102030405060708u64.get_u64_at(0), 0x0102030405060708);
    assert_eq!(0x0102030405060708u64.get_u64_at(7), 0x0800000000000000);
    assert_eq!(5u64.get_u64_at(8), 0);
}

#[test]
fn integer_partial_key_reads_the_window_at_the_offset() {
    let mut next_id = 1u64;
    let mut n = HOTNode::<u64, ()>::new(1, 2, &mut next_id);
    n.mask = vec![63];
    n.byte_offset = 7;
    assert_eq!(n.extract_partial_key(&1u64), 1);
    assert_eq!(n.extract_partial_key(&0u64), 0);
}

#[test]
fn keys_compare_by_bytes() {
    assert_eq!(s("apple").compare_key(&s("banana")), KeyOrder::Less);
    assert_eq!(s("b").compare_key(&s("ab")), KeyOrder::Greater);
    assert_eq!(s("ab").compare_key(&s("ab")), KeyOrder::Equal);
    assert_eq!(s("ab").compare_key(&s("abc")), KeyOrder::Less);
    assert_eq!(2u64.compare_key(&1), KeyOrder::Greater);
    assert_eq!(256u64.compare_key(&255), KeyOrder::Greater);
    assert_eq!(7u32.compare_key(&7), KeyOrder::Equal);
    assert_eq!(s("k").clone_key(), s("k"));
}

#[test]
fn leaf_ids_pack_node_and_index() {
    assert_eq!(leaf_id(1, 0), 0x8000_0000_0100_0000);
    assert_eq!(leaf_id(2, 3), 0x8000_0000_0200_0003);
}

#[test]
fn partial_keys_under_a_mask() {
    let mask = vec![6usize];
    assert_eq!(HOTNode::<String, i32>::extract_partial_key_static(&mask, 0, &s("a")), 0);
    assert_eq!(HOTNode::<String, i32>::extract_partial_key_static(&mask, 0, &s("b")), 1);
    assert_eq!(HOTNode::<String, i32>::extract_partial_key_static(&[], 0, &s("b")), 0);
    let two = vec![6usize, 7];
    assert_eq!(HOTNode::<String, i32>::extract_partial_key_static(&two, 0, &s("c")), 3);
}

#[test]
fn mask_follows_adjacent_keys() {
    let mut next_id: u64 = 1;
    let mut node: HOTNode<String, i32> = HOTNode::new(1, 4, &mut next_id);
    node.entries.push(Entry::Leaf(s("a"), 1, 0));
    node.entries.push(Entry::Leaf(s("b"), 2, 0));
    node.entries.push(Entry::Leaf(s("c"), 3, 0));
    node.update_mask_from_entries();
    assert_eq!(node.mask, vec![6, 7]);
    assert_eq!(node.byte_offset, 0);
    let pks: Vec<u32> = node.entries.iter().map(|e| e.partial_key()).collect();
    assert_eq!(pks, vec![1, 2, 3]);
    node.entries.truncate(1);
    node.update_mask_from_entries();
    assert!(node.mask.is_empty());
    assert_eq!(node.entries[0].partial_key(), 0);
}

#[test]
fn entry_accessors() {
    let mut e: Entry<String, i32> = Entry::Leaf(s("k"), 1, 5);
    assert_eq!(e.key(), &s("k"));
    assert_eq!(e.partial_key(), 5);
    e.set_partial_key(9);
    assert_eq!(e.partial_key(), 9);
    assert!(e.is_leaf());
}

#[test]
fn node_remove_reports_each_outcome() {
    let mut next_id: u64 = 1;
    let mut node: HOTNode<String, i32> = HOTNode::new(1, 4, &mut next_id);
    let id = node.id;
    for (k, v) in [("a", 1), ("b", 2), ("c", 3)] {
        node.insert(s(k), v, 4, &mut next_id);
    }
    assert!(matches!(node.remove(&s("zz")), RemoveResult::NotFound));
    match node.remove(&s("a")) {
        RemoveResult::Removed(ids) => assert_eq!(ids, vec![id]),
        _ => panic!("expected Removed"),
    }
    match node.remove(&s("b")) {
        RemoveResult::Underflow(e, ids) => {
            assert_eq!(e.key(), &s("c"));
            assert_eq!(ids, vec![id]);
        },
        _ => panic!("expected Underflow"),
    }
    let mut single: HOTNode<String, i32> = HOTNode::new(1, 4, &mut next_id);
    single.insert(s("x"), 1, 4, &mut next_id);
    assert!(matches!(single.remove(&s("x")), RemoveResult::Empty));
}

#[test]
fn root_split_raises_height_by_one() {
    let mut trie: HOT<u64, u64> = HOT::new(2);
    trie.insert(1, 1);
    trie.insert(2, 2);
    assert_eq!(trie.root.as_ref().unwrap().height, 1);
    trie.insert(3, 3);
    let root = trie.root.as_ref().unwrap();
    assert_eq!(root.height, 2);
    assert_eq!(root.entries.len(), 2);
    assert_eq!(trie.range_scan(&0, &10), vec![1, 2, 3]);
}

#[test]
fn range_scan_within_bounds_in_order() {
    let mut trie: HOT<u64, u64> = HOT::new(4);
    for k in [50u64, 10, 40, 20, 30, 60] {
        trie.insert(k, k);
    }
    assert_eq!(trie.range_scan(&20, &45), vec![20, 30, 40]);
    assert_eq!(trie.range_scan(&61, &100), Vec::<u64>::new());
}

#[test]
fn range_scan_steps_trace_the_scan() {
    let trie = abc_trie();
    let root_id = trie.root.as_ref().unwrap().id;
    let steps = trie.range_scan_steps(&s("a"), &s("z"));
    let mut summary: Vec<String> = Vec::new();
    for st in &steps {
        summary.push(match st {
            ScanStep::VisitLeaf(id, k) => format!("visit {} {}", id, k),
            ScanStep::Advance(id, i) => format!("advance {} {}", id, i),
            ScanStep::Ascend(id) => format!("ascend {}", id),
            ScanStep::Descend(id) => format!("descend {}", id),
        });
    }
    assert_eq!(summary, vec![
        format!("visit {} a", leaf_id(root_id, 0)),
        format!("advance {} 1", root_id),
        format!("visit {} b", leaf_id(root_id, 1)),
        format!("advance {} 2", root_id),
        format!("visit {} c", leaf_id(root_id, 2)),
    ]);
    let empty: HOT<String, i32> = HOT::new(4);
    assert!(empty.range_scan_steps(&s("a"), &s("z")).is_empty());
}

#[test]
fn inspection_of_nodes_and_entries() {
    let mut trie: HOT<u64, u64> = HOT::new(2);
    for i in 0..3u64 {
        trie.insert(i, i);
    }
    let root = trie.root.as_ref().unwrap();
    let root_id = root.id;
    let heights = trie.node_heights();
    assert_eq!(heights[0], (root_id, 2));
    assert_eq!(heights.len(), 3);
    for (id, h) in &heights {
        assert_eq!(trie.find_node(*id).unwrap().height, *h);
    }
    assert!(trie.find_node(9999).is_none());
    let (child_id, child_mask) = match &root.entries[0] {
        Entry::Child(_, c, _) => (c.id, c.mask.clone()),
        Entry::Leaf(_, _, _) => panic!("expected a child"),
    };
    assert_eq!(trie.find_key_by_id(leaf_id(root_id, 0)), Some(0));
    assert_eq!(trie.find_key_by_id(leaf_id(child_id, 1)), Some(1));
    assert_eq!(trie.find_mask_for_key(leaf_id(child_id, 1)), Some(child_mask));
    assert_eq!(trie.find_key_by_id(7), None);
}

#[test]
fn dot_of_a_single_leaf() {
    let mut trie: HOT<u64, u64> = HOT::new(4);
    trie.insert(7, 70);
    let dot = trie.to_dot();
    assert_eq!(
        dot,
        "digraph G {\n  rankdir=TD;\n  node [fontname=\"Arial\"];\n  n1 [label=\"Height: 1 | Entries: 1\", shape=record, style=filled, fillcolor=\"#f9f9f9\"];\n  l_1_0 [label=\"7\", shape=circle, style=filled, fillcolor=\"#e1f5fe\"];\n  n1 -> l_1_0;\n}\n"
    );
    let empty: HOT<u64, u64> = HOT::new(4);
    assert_eq!(empty.to_dot(), "digraph G {\n  rankdir=TD;\n  node [fontname=\"Arial\"];\n}\n");
}

fn max_entries(node: &HOTNode<u64, u64>) -> usize {
    let mut m = node.entries.len();
    for e in &node.entries {
        if let Entry::Child(_, child, _) = e {
            m = m.max(max_entries(child));
        }
    }
    m
}

#[test]
fn no_node_exceeds_the_fanout() {
    for fanout in 2..6usize {
        let mut trie = HOT::new(fanout);
        for i in 0..120u64 {
            trie.insert((i * 37) % 101 + i * 1000, i);
            assert!(max_entries(trie.root.as_ref().unwrap()) <= fanout);
        }
        for i in 0..60u64 {
            trie.remove(&((i * 37) % 101 + i * 1000));
            if let Some(root) = &trie.root {
                assert!(max_entries(root) <= fanout);
            }
        }
    }
}

#[test]
fn height_grows_only_when_the_root_was_full() {
    let fanout = 3;
    let mut trie = HOT::new(fanout);
    let mut grew = 0;
    for i in 0..80u64 {
        let before = trie.root.as_ref().map(|r| (r.height, r.entries.len()));
        trie.insert(i * 11, i);
        let root = trie.root.as_ref().unwrap();
        if let Some((h, n)) = before {
            if root.height != h {
                assert_eq!(root.height, h + 1);
                assert_eq!(root.entries.len(), 2);
                assert!(n >= fanout);
                grew += 1;
            }
        }
    }
    assert!(grew >= 2);
}

#[test]
fn update_mask_refreshes_every_partial_key() {
    let mut next_id = 1u64;
    let mut n = HOTNode::<String, i32>::new(1, 4, &mut next_id);
    n.mask = vec![6];
    n.entries.push(Entry::Leaf(s("a"), 1, 0));
    n.entries.push(Entry::Leaf(s("b"), 2, 0));
    n.update_mask_from_entries();
    assert_eq!(n.mask, vec![6]);
    assert_eq!(n.byte_offset, 0);
    assert_eq!(n.entries[0].partial_key(), 0);
    assert_eq!(n.entries[1].partial_key(), 1);
}

#[test]
fn range_scan_finds_keys_before_the_descent() {
    let mut trie = HOT::new(4);
    trie.insert(s("b"), 1);
    trie.insert(s("c"), 2);
    assert_eq!(trie.range_scan(&s("a"), &s("z")), vec![s("b"), s("c")]);
    assert_eq!(trie.range_scan(&s("b"), &s("b")), vec![s("b")]);
    assert_eq!(trie.range_scan(&s("d"), &s("a")), Vec::<String>::new());
}

#[test]
fn animation_phases_advance() {
    assert_eq!(next_search_state(SearchState::Scanning(0), 3, None, false), SearchState::Scanning(1));
    assert_eq!(next_search_state(SearchState::Scanning(2), 3, None, false), SearchState::Finished(true));
    assert_eq!(next_search_state(SearchState::EvaluatingNode(1), 0, Some(2), false), SearchState::EvaluatingEdge(1));
    assert_eq!(next_search_state(SearchState::EvaluatingEdge(0), 0, Some(2), false), SearchState::EvaluatingNode(1));
    assert_eq!(next_search_state(SearchState::EvaluatingEdge(1), 0, Some(2), false), SearchState::ReachedLeaf);
    assert_eq!(next_search_state(SearchState::EvaluatingEdge(1), 0, None, false), SearchState::EvaluatingEdge(1));
    assert_eq!(next_search_state(SearchState::ReachedLeaf, 0, Some(2), true), SearchState::Finished(true));
    assert_eq!(next_search_state(SearchState::Idle, 5, Some(2), true), SearchState::Idle);
    assert_eq!(next_search_state(SearchState::Finished(false), 5, None, true), SearchState::Finished(false));
}

#[test]
fn node_insert_outcomes() {
    let mut next_id = 1u64;
    let mut n = HOTNode::<String, i32>::new(1, 4, &mut next_id);
    assert!(matches!(n.insert(s("a"), 1, 4, &mut next_id), InsertResult::NewMin(ref k) if k == "a"));
    assert_eq!(n.entries.len(), 1);
    assert_eq!(n.entries[0].partial_key(), 0);
    assert!(matches!(n.insert(s("b"), 2, 4, &mut next_id), InsertResult::Done));
    assert!(matches!(n.insert(s("a"), 9, 4, &mut next_id), InsertResult::Done));
    assert_eq!(n.entries.len(), 2);
    assert_eq!(n.lookup(&s("a")), Some(&9));
    assert_eq!(n.lookup(&s("b")), Some(&2));

    let mut m = HOTNode::<String, i32>::new(1, 2, &mut next_id);
    m.insert(s("a"), 1, 2, &mut next_id);
    m.insert(s("b"), 2, 2, &mut next_id);
    match m.insert(s("c"), 3, 2, &mut next_id) {
        InsertResult::Split(Entry::Child(k1, l, p1), Entry::Child(k2, r, p2)) => {
            assert_eq!((k1.as_str(), p1, k2.as_str(), p2), ("a", 0, "b", 0));
            let lk: Vec<&String> = l.entries.iter().map(|e| e.key()).collect();
            let rk: Vec<&String> = r.entries.iter().map(|e| e.key()).collect();
            assert_eq!(lk, vec!["a"]);
            assert_eq!(rk, vec!["b", "c"]);
            assert_eq!((l.height, r.height), (1, 1));
        }
        _ => panic!("expected a split"),
    }
    assert!(m.entries.is_empty());
}

#[test]
fn failed_removal_leaves_the_trie_as_it_was() {
    let mut trie = abc_trie();
    let heights = trie.node_heights();
    let mask = trie.root.as_ref().unwrap().mask.clone();
    let res = trie.remove(&s("zz"));
    assert!(!res.success);
    assert_eq!(trie.node_heights(), heights);
    assert_eq!(trie.root.as_ref().unwrap().mask, mask);
    let res = trie.remove_by_id(9_999);
    assert!(!res.success);
    assert_eq!(trie.node_heights(), heights);
    assert_eq!(trie.range_scan(&s("a"), &s("z")), vec![s("a"), s("b"), s("c")]);
}

#[test]
fn lookup_after_insert_finds_every_key() {
    let mut trie: HOT<String, usize> = HOT::new(2);
    for (i, k) in ["bea", "ecbf", "fcb", "ddab"].iter().enumerate() {
        trie.insert(s(k), i);
    }
    assert_eq!(trie.lookup(&s("ddab")), Some(&3));
    assert_eq!(trie.lookup(&s("bea")), Some(&0));
    assert_eq!(trie.lookup(&s("ecbf")), Some(&1));
    assert_eq!(trie.lookup(&s("fcb")), Some(&2));
    assert_eq!(trie.range_scan(&s("a"), &s("z")), vec![s("bea"), s("ddab"), s("ecbf"), s("fcb")]);
}

fn pks_consistent(node: &HOTNode<String, usize>) -> bool {
    node.entries.iter().all(|e| {
        e.partial_key() == node.extract_partial_key(e.key())
            && match e {
                Entry::Child(_, c, _) => pks_consistent(c),
                Entry::Leaf(_, _, _) => true,
            }
    })
}

#[test]
fn inserts_keep_partial_keys_consistent() {
    let mut trie: HOT<String, usize> = HOT::new(3);
    let words = ["kiwi", "apple", "fig", "banana", "cherry", "date", "grape", "lemon", "mango", "apricot", "avocado"];
    for (i, w) in words.iter().enumerate() {
        trie.insert(s(w), i);
        assert!(pks_consistent(trie.root.as_ref().unwrap()));
    }
}

#[test]
fn lowest_root_grows_by_one_leaf_until_full() {
    let mut trie: HOT<u64, u64> = HOT::new(4);
    trie.insert(10, 0);
    assert_eq!(trie.root.as_ref().unwrap().entries.len(), 1);
    for (n, k) in [20u64, 30, 40].iter().enumerate() {
        trie.insert(*k, 0);
        let root = trie.root.as_ref().unwrap();
        assert_eq!((root.height, root.entries.len()), (1, n + 2));
    }
    trie.insert(20, 7);
    assert_eq!(trie.root.as_ref().unwrap().entries.len(), 4);
    trie.insert(50, 0);
    let root = trie.root.as_ref().unwrap();
    assert_eq!((root.height, root.entries.len()), (2, 2));
}

#[test]
fn stored_keys_are_found_and_removed() {
    let mut trie: HOT<String, i32> = HOT::new(2);
    for (i, k) in ["a", "c", "ca", "b"].iter().enumerate() {
        trie.insert(s(k), i as i32);
    }
    for (i, k) in ["a", "c", "ca", "b"].iter().enumerate() {
        assert_eq!(trie.lookup(&s(k)), Some(&(i as i32)));
    }
    assert_eq!(trie.lookup(&s("bb")), None);
    let res = trie.remove(&s("b"));
    assert!(res.success);
    assert_eq!(trie.lookup(&s("b")), None);
    assert_eq!(trie.lookup(&s("ca")), Some(&2));
    assert!(!trie.remove(&s("b")).success);
}

#[test]
fn random_inserts_and_removes_read_back() {
    let mut seed: u64 = 7;
    let mut next = || {
        seed = seed.wrapping_mul(6364136223846793005).wrapping_add(1442695040888963407);
        (seed >> 33) as usize
    };
    for _ in 0..200 {
        let fanout = 2 + next() % 4;
        let mut trie: HOT<String, usize> = HOT::new(fanout);
        let mut model: std::collections::BTreeMap<String, usize> = std::collections::BTreeMap::new();
        for i in 0..20 {
            let len = 1 + next() % 4;
            let k: String = (0..len).map(|_| (b'a' + (next() % 5) as u8) as char).collect();
            if next() % 3 == 0 {
                assert_eq!(trie.remove(&k).success, model.remove(&k).is_some());
            } else {
                trie.insert(k.clone(), i);
                model.insert(k, i);
            }
            for (mk, mv) in &model {
                assert_eq!(trie.lookup(mk), Some(mv));
            }
        }
    }
}
