use multiway_tree::tree::Node;
use multiway_tree::tree::TreeError;

#[test]
fn new_node_is_root() {
    let tree = Node::new("what".to_string());
    assert!(tree.is_root());
    assert_eq!(tree.child_count(), 0);
    assert_eq!(tree.value(), &"what".to_string());
    assert!(!tree.is_locked());
}

#[test]
fn added_child_is_not_root() {
    let mut tree = Node::new("what".to_string());
    tree.add_child("is".to_string()).unwrap();
    assert!(tree.is_root());
    let child = tree.get_child(0).unwrap();
    assert!(!child.is_root());
    assert_eq!(child.value(), &"is".to_string());
}

#[test]
fn get_child_succeeds_below_count_and_fails_from_it() {
    let mut tree = Node::new(1u64);
    tree.add_child(2).unwrap();
    tree.add_child(3).unwrap();
    assert_eq!(tree.get_child(0).unwrap().value(), &2);
    assert_eq!(tree.get_child(1).unwrap().value(), &3);
    assert_eq!(tree.get_child(2).unwrap_err(), TreeError::IndexOutOfRange);
    assert_eq!(tree.get_child(usize::MAX).unwrap_err(), TreeError::IndexOutOfRange);
}

#[test]
fn set_child_value_keeps_grandchildren() {
    let mut tree = Node::new("root".to_string());
    tree.add_child("child".to_string()).unwrap();
    {
        let child = tree.child_mut(0);
        child.add_child("g1".to_string()).unwrap();
        child.add_child("g2".to_string()).unwrap();
    }
    tree.set_child_value(0, "new".to_string()).unwrap();
    let child = tree.get_child(0).unwrap();
    assert_eq!(child.value(), &"new".to_string());
    assert!(!child.is_root());
    assert_eq!(child.child_count(), 2);
    assert_eq!(child.get_child(0).unwrap().value(), &"g1".to_string());
    assert_eq!(child.get_child(1).unwrap().value(), &"g2".to_string());
}

#[test]
fn set_child_value_out_of_range() {
    let mut tree = Node::new(0u64);
    assert_eq!(tree.set_child_value(0, 5).unwrap_err(), TreeError::IndexOutOfRange);
    assert_eq!(tree.child_count(), 0);
}

#[test]
fn insert_subtree_matches_source() {
    let mut sub = Node::new("sub".to_string());
    sub.add_child("s1".to_string()).unwrap();
    sub.add_child("s2".to_string()).unwrap();
    let mut tree = Node::new("root".to_string());
    tree.add_child("old".to_string()).unwrap();
    tree.insert_subtree_at(0, sub).unwrap();
    let child = tree.get_child(0).unwrap();
    assert!(!child.is_root());
    assert_eq!(child.value(), &"sub".to_string());
    assert_eq!(child.child_count(), 2);
    assert_eq!(child.get_child(0).unwrap().value(), &"s1".to_string());
    assert_eq!(child.get_child(1).unwrap().value(), &"s2".to_string());
}

#[test]
fn insert_subtree_out_of_range_hands_subtree_back() {
    let sub = Node::new(7u64);
    let mut tree = Node::new(1u64);
    let (err, returned) = tree.insert_subtree_at(0, sub).unwrap_err();
    assert_eq!(err, TreeError::IndexOutOfRange);
    assert_eq!(returned.value(), &7);
    assert!(returned.is_root());
    assert_eq!(tree.child_count(), 0);
}

#[test]
fn depth_two_scenario() {
    let mut tree = Node::new("what".to_string());
    tree.add_child("is".to_string()).unwrap();
    tree.child_mut(0).add_child("second order Child".to_string()).unwrap();
    assert_eq!(tree.child_count(), 1);
    let child = tree.get_child(0).unwrap();
    assert_eq!(child.value(), &"is".to_string());
    assert_eq!(child.child_count(), 1);
    assert_eq!(child.get_child(0).unwrap().value(), &"second order Child".to_string());
}

#[test]
fn locked_children_fail_fast() {
    let mut tree = Node::new("root".to_string());
    tree.add_child("a".to_string()).unwrap();
    tree.lock_children().unwrap();
    assert!(tree.is_locked());
    assert_eq!(tree.add_child("b".to_string()).unwrap_err(), TreeError::ConcurrentAccess);
    assert_eq!(tree.get_child(0).unwrap_err(), TreeError::ConcurrentAccess);
    assert_eq!(
        tree.set_child_value(0, "c".to_string()).unwrap_err(),
        TreeError::ConcurrentAccess
    );
    let sub = Node::new("s".to_string());
    let (err, returned) = tree.insert_subtree_at(0, sub).unwrap_err();
    assert_eq!(err, TreeError::ConcurrentAccess);
    assert_eq!(returned.value(), &"s".to_string());
    assert_eq!(tree.child_count(), 1);
    tree.unlock_children();
    tree.add_child("b".to_string()).unwrap();
    assert_eq!(tree.child_count(), 2);
    assert_eq!(tree.get_child(1).unwrap().value(), &"b".to_string());
}

#[test]
fn second_lock_fails_until_released() {
    let mut tree = Node::new(0u64);
    tree.lock_children().unwrap();
    assert!(tree.is_locked());
    assert_eq!(tree.lock_children().unwrap_err(), TreeError::ConcurrentAccess);
    tree.unlock_children();
    assert!(!tree.is_locked());
    tree.lock_children().unwrap();
    tree.unlock_children();
    assert!(!tree.is_locked());
}

#[test]
fn lock_on_one_node_leaves_other_nodes_free() {
    let mut tree = Node::new("root".to_string());
    tree.add_child("a".to_string()).unwrap();
    tree.child_mut(0).lock_children().unwrap();
    // The parent's own child list is not engaged.
    tree.add_child("b".to_string()).unwrap();
    assert_eq!(tree.child_count(), 2);
    // The child's is, until released.
    assert_eq!(
        tree.child_mut(0).add_child("x".to_string()).unwrap_err(),
        TreeError::ConcurrentAccess
    );
    tree.child_mut(0).unlock_children();
    tree.child_mut(0).add_child("x".to_string()).unwrap();
    assert_eq!(tree.get_child(0).unwrap().child_count(), 1);
}
