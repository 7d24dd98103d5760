use concurrent_set::list::List;

#[test]
fn empty_list_has_nothing() {
    let mut l = List::new();
    assert!(!l.contains(5));
    assert!(!l.remove(5));
    assert!(!l.contains(5));
}

#[test]
fn find_on_empty_list_brackets_with_sentinels() {
    let mut l = List::new();
    let pair = l.find(7);
    assert_eq!(l.node_key(pair.pred), i64::MIN);
    assert_eq!(l.node_key(pair.curr), i64::MAX);
    l.release_pair(pair);
}

#[test]
fn scenario_four_keys_find_remove_reinsert() {
    let mut l = List::new();
    assert!(l.insert(1, 10));
    assert!(l.insert(2, 20));
    assert!(l.insert(3, 30));
    assert!(l.insert(4, 40));
    let pair = l.find(4);
    assert_eq!(l.node_key(pair.pred), 3);
    assert_eq!(l.node_key(pair.curr), 4);
    l.release_pair(pair);
    assert!(l.remove(4));
    assert!(!l.contains(4));
    assert!(l.insert(4, 41));
    assert!(l.contains(4));
}

#[test]
fn duplicate_insert_has_one_winner() {
    // Two racing inserts of the same key serialize at the bracketing edge;
    // in either serialization order exactly the first returns true.
    let mut l = List::new();
    assert!(l.insert(2, 100));
    assert!(!l.insert(2, 200));
    assert!(l.contains(2));
    // Removing once empties the key: there was a single node carrying it.
    assert!(l.remove(2));
    assert!(!l.contains(2));
    assert!(!l.remove(2));
}

#[test]
fn insert_out_of_order_keeps_keys_sorted() {
    let mut l = List::new();
    assert!(l.insert(30, 3));
    assert!(l.insert(10, 1));
    assert!(l.insert(20, 2));
    let pair = l.find(20);
    assert_eq!(l.node_key(pair.pred), 10);
    assert_eq!(l.node_key(pair.curr), 20);
    l.release_pair(pair);
    let pair = l.find(15);
    assert_eq!(l.node_key(pair.pred), 10);
    assert_eq!(l.node_key(pair.curr), 20);
    l.release_pair(pair);
    assert!(l.contains(10));
    assert!(l.contains(20));
    assert!(l.contains(30));
    assert!(!l.contains(15));
}

#[test]
fn find_bracketing_on_absent_key_past_all_nodes() {
    let mut l = List::new();
    assert!(l.insert(5, 0));
    assert!(l.insert(6, 0));
    let pair = l.find(100);
    assert_eq!(l.node_key(pair.pred), 6);
    assert_eq!(l.node_key(pair.curr), i64::MAX);
    l.release_pair(pair);
}

#[test]
fn remove_middle_node_keeps_neighbours() {
    let mut l = List::new();
    assert!(l.insert(1, 1));
    assert!(l.insert(2, 2));
    assert!(l.insert(3, 3));
    assert!(l.remove(2));
    assert!(l.contains(1));
    assert!(!l.contains(2));
    assert!(l.contains(3));
    // The chain is re-linked across the reclaimed node.
    let pair = l.find(3);
    assert_eq!(l.node_key(pair.pred), 1);
    assert_eq!(l.node_key(pair.curr), 3);
    l.release_pair(pair);
}

#[test]
fn remove_visibility_until_reinsert() {
    let mut l = List::new();
    assert!(l.insert(8, 80));
    assert!(l.insert(9, 90));
    assert!(l.remove(8));
    assert!(!l.contains(8));
    // Operations on other keys leave the removed key absent.
    assert!(l.insert(7, 70));
    assert!(!l.contains(8));
    assert!(l.remove(9));
    assert!(!l.contains(8));
    // Only a successful insert of the key itself brings it back.
    assert!(l.insert(8, 81));
    assert!(l.contains(8));
}

#[test]
fn extremal_insertable_keys() {
    let mut l = List::new();
    assert!(l.insert(i64::MIN + 1, 1));
    assert!(l.insert(i64::MAX - 1, 2));
    assert!(l.contains(i64::MIN + 1));
    assert!(l.contains(i64::MAX - 1));
    let pair = l.find(i64::MIN + 1);
    assert_eq!(l.node_key(pair.pred), i64::MIN);
    assert_eq!(l.node_key(pair.curr), i64::MIN + 1);
    l.release_pair(pair);
    assert!(l.remove(i64::MAX - 1));
    assert!(!l.contains(i64::MAX - 1));
    assert!(l.contains(i64::MIN + 1));
}

#[test]
fn reinsert_after_remove_many_times() {
    let mut l = List::new();
    for round in 0..5u64 {
        assert!(l.insert(42, round));
        assert!(l.contains(42));
        assert!(l.remove(42));
        assert!(!l.contains(42));
    }
}

#[test]
fn interleaved_operations_on_disjoint_keys() {
    let mut l = List::new();
    for k in [4i64, 8, 15, 16, 23, 42] {
        assert!(l.insert(k, 0));
    }
    assert!(l.remove(15));
    assert!(l.remove(4));
    assert!(!l.insert(8, 1));
    assert!(l.insert(15, 2));
    assert!(l.contains(8));
    assert!(l.contains(15));
    assert!(l.contains(16));
    assert!(l.contains(23));
    assert!(l.contains(42));
    assert!(!l.contains(4));
}
