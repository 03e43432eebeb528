use ordered_bst::bst::{BST, BstError};
use ordered_bst::order::TotalOrder;
use ordered_bst::word::Word;
use std::cmp::Ordering;

#[test]
fn traversal_three_numbers() {
    let mut tree = BST::<i64>::new();
    assert_eq!(tree.insert(5), Ok(()));
    assert_eq!(tree.insert(10), Ok(()));
    assert_eq!(tree.insert(3), Ok(()));
    assert_eq!(tree.check(), vec![3, 5, 10]);
    assert!(tree.contains(&10));
    assert!(!tree.contains(&4));
}

#[test]
fn duplicate_keeps_one_instance() {
    let mut tree = BST::<i64>::new();
    assert_eq!(tree.insert(5), Ok(()));
    assert_eq!(tree.insert(5), Err(BstError::DuplicateInsert));
    assert_eq!(tree.check(), vec![5]);
}

#[test]
fn delete_keeps_traversal_ascending() {
    let mut tree = BST::<i64>::new();
    for v in [100, 50, 70, 80, 200, 68, 60, 59, 54, 55, 30] {
        assert_eq!(tree.insert(v), Ok(()));
    }
    assert_eq!(tree.delete(&50), Ok(50));
    assert!(!tree.contains(&50));
    assert_eq!(tree.check(), vec![30, 54, 55, 59, 60, 68, 70, 80, 100, 200]);
}

#[test]
fn delete_from_empty() {
    let mut tree = BST::<i64>::new();
    assert_eq!(tree.delete(&42), Err(BstError::ValueNotFound));
    assert!(!tree.contains(&42));
}

#[test]
fn delete_then_absent() {
    let mut tree = BST::<i64>::new();
    assert_eq!(tree.insert(4), Ok(()));
    assert_eq!(tree.delete(&4), Ok(4));
    assert!(!tree.contains(&4));
    assert_eq!(tree.delete(&4), Err(BstError::ValueNotFound));
}

#[test]
fn successor_with_right_child() {
    // Deleting 10 promotes its in-order successor 15, whose own right
    // child 17 must stay reachable.
    let mut tree = BST::<i64>::new();
    for v in [10, 5, 20, 15, 17, 25] {
        assert_eq!(tree.insert(v), Ok(()));
    }
    assert_eq!(tree.delete(&10), Ok(10));
    assert!(tree.contains(&17));
    assert_eq!(tree.check(), vec![5, 15, 17, 20, 25]);
}

#[test]
fn round_trip_restores_tree() {
    let mut tree = BST::<i64>::new();
    for v in [8, 3, 10] {
        assert_eq!(tree.insert(v), Ok(()));
    }
    let before = tree.check();
    assert_eq!(tree.insert(6), Ok(()));
    assert_eq!(tree.delete(&6), Ok(6));
    assert_eq!(tree.check(), before);
}

#[test]
fn size_matches_operations() {
    let mut tree = BST::<u64>::new();
    let mut successes: i64 = 0;
    for v in [9u64, 2, 7, 2, 5, 9] {
        if tree.insert(v).is_ok() {
            successes += 1;
        }
    }
    for v in [7u64, 1] {
        if tree.delete(&v).is_ok() {
            successes -= 1;
        }
    }
    let mut members: i64 = 0;
    for v in 0u64..20 {
        if tree.contains(&v) {
            members += 1;
        }
    }
    assert_eq!(members, successes);
    assert_eq!(tree.check().len() as i64, successes);
}

#[test]
fn word_comparison_is_lexicographic() {
    let banana = Word::from_bytes(b"banana");
    let hello = Word::from_bytes(b"hello");
    let hell = Word::from_bytes(b"hell");
    assert_eq!(banana.compare(&hello), Ordering::Less);
    assert_eq!(hello.compare(&banana), Ordering::Greater);
    assert_eq!(hell.compare(&hello), Ordering::Less);
    assert_eq!(hello.compare(&Word::from_bytes(b"hello")), Ordering::Equal);
}
