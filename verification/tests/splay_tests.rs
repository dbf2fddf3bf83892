use wee_alloc::splay::{SplayTree, Tree};
use wee_alloc::trace::{parse_op, Operation};

#[test]
fn insert_find_remove_roundtrip() {
    // After insert(x) then remove(x), find(x) reports absence.
    let mut t = SplayTree::new();
    assert!(t.insert(42));
    assert!(t.remove(42));
    assert!(!t.find(42));
    assert!(t.is_empty());
}

#[test]
fn double_insert_reports_present() {
    // A second insert of the same key says "already present" and keeps the
    // key, splayed to the root.
    let mut t = SplayTree::new();
    assert!(t.insert(7));
    assert!(!t.insert(7));
    assert!(t.find(7));
    match &t.root {
        Tree::Node { key, .. } => assert_eq!(*key, 7),
        Tree::Leaf => panic!("key lost"),
    }
    assert_eq!(t.walk(), vec![7]);
}

#[test]
fn find_twice_hits_root() {
    // A found key is splayed to the root, so a repeat finds it there.
    let mut t = SplayTree::new();
    for k in [50u64, 20, 80, 10, 30, 70, 90] {
        assert!(t.insert(k));
    }
    assert!(t.find(30));
    match &t.root {
        Tree::Node { key, .. } => assert_eq!(*key, 30),
        Tree::Leaf => panic!("tree emptied"),
    }
    assert!(t.find(30));
    match &t.root {
        Tree::Node { key, .. } => assert_eq!(*key, 30),
        Tree::Leaf => panic!("tree emptied"),
    }
}

#[test]
fn shuffled_inserts_walk_ascending() {
    // Insert a shuffled set, find in another order: the walk is sorted.
    let keys = [13u64, 2, 99, 41, 7, 56, 23, 88, 1, 64];
    let mut t = SplayTree::new();
    for k in keys {
        assert!(t.insert(k));
    }
    for k in [56u64, 1, 88, 13, 7] {
        assert!(t.find(k));
    }
    let walked = t.walk();
    let mut sorted = keys.to_vec();
    sorted.sort();
    assert_eq!(walked, sorted);
    assert!(!t.find(3));
}

#[test]
fn removals_leave_order() {
    let mut t = SplayTree::new();
    for k in 0u64..20 {
        t.insert(k * 3 % 20);
    }
    assert!(t.remove(9));
    assert!(!t.remove(9));
    let walked = t.walk();
    for w in walked.windows(2) {
        assert!(w[0] < w[1]);
    }
    assert!(!walked.contains(&9));
}

#[test]
fn parse_alloc_and_free_lines() {
    assert_eq!(parse_op("Alloc(123),"), Some(Operation::Alloc(123)));
    assert_eq!(parse_op("Free(7),"), Some(Operation::Free(7)));
    assert_eq!(parse_op("Alloc(0),"), Some(Operation::Alloc(0)));
    assert_eq!(parse_op("Alloc(007),"), Some(Operation::Alloc(7)));
}

#[test]
fn parse_rejects_malformed_lines() {
    assert_eq!(parse_op("Alloc(),"), None);
    assert_eq!(parse_op("Alloc(12x),"), None);
    assert_eq!(parse_op("alloc(1),"), None);
    assert_eq!(parse_op("Free(1)"), None);
    assert_eq!(parse_op("Alloc(1)"), None);
    assert_eq!(parse_op(""), None);
    assert_eq!(parse_op("Alloc(99999999999999999999999),"), None);
}
