use multiway_tree::tree::Node;

fn sample_tree() -> Node<String> {
    let mut tree = Node::new("what".to_string());
    tree.add_child("is".to_string()).unwrap();
    tree.child_mut(0).add_child("second order Child".to_string()).unwrap();
    tree
}

#[test]
fn map_appends_suffix_and_keeps_shape() {
    let tree = sample_tree();
    let mapped = tree.map(&|s: &String| format!("{}some", s));
    assert!(mapped.is_root());
    assert_eq!(mapped.value(), &"whatsome".to_string());
    assert_eq!(mapped.child_count(), 1);
    let child = mapped.get_child(0).unwrap();
    assert!(!child.is_root());
    assert_eq!(child.value(), &"issome".to_string());
    assert_eq!(child.child_count(), 1);
    assert_eq!(
        child.get_child(0).unwrap().value(),
        &"second order Childsome".to_string()
    );
    // The original tree's values are unchanged afterwards.
    assert_eq!(tree.value(), &"what".to_string());
    assert_eq!(tree.get_child(0).unwrap().value(), &"is".to_string());
    assert_eq!(
        tree.get_child(0).unwrap().get_child(0).unwrap().value(),
        &"second order Child".to_string()
    );
}

#[test]
fn map_image_survives_discarding_the_original() {
    let tree = sample_tree();
    let mapped = tree.map(&|s: &String| s.len() as u64);
    drop(tree);
    assert_eq!(mapped.value(), &4);
    assert_eq!(mapped.child_count(), 1);
    let child = mapped.get_child(0).unwrap();
    assert_eq!(child.value(), &2);
    assert_eq!(child.child_count(), 1);
    assert_eq!(child.get_child(0).unwrap().value(), &18);
}

#[test]
fn map_image_independent_of_later_mutation() {
    let mut tree = sample_tree();
    let mapped = tree.map(&|s: &String| s.clone());
    tree.set_child_value(0, "changed".to_string()).unwrap();
    assert_eq!(mapped.get_child(0).unwrap().value(), &"is".to_string());
    assert_eq!(tree.get_child(0).unwrap().value(), &"changed".to_string());
}

#[test]
fn flat_map_splices_one_level() {
    // f turns a value v into a two-node tree: "v!" with the one child "v?".
    let mut tree = Node::new("a".to_string());
    tree.add_child("b".to_string()).unwrap();
    let f = |s: &String| {
        let mut t = Node::new(format!("{}!", s));
        t.add_child(format!("{}?", s)).unwrap();
        t
    };
    let flat = tree.flat_map(&f);
    assert!(flat.is_root());
    assert_eq!(flat.value(), &"a!".to_string());
    // The grafted tree's own child comes first, then the image of "b".
    assert_eq!(flat.child_count(), 2);
    assert_eq!(flat.get_child(0).unwrap().value(), &"a?".to_string());
    let b_image = flat.get_child(1).unwrap();
    assert!(!b_image.is_root());
    assert_eq!(b_image.value(), &"b!".to_string());
    assert_eq!(b_image.child_count(), 1);
    assert_eq!(b_image.get_child(0).unwrap().value(), &"b?".to_string());
}

#[test]
fn map_internal_builds_an_attached_image() {
    let tree = sample_tree();
    let image = tree.map_internal(&|s: &String| s.clone());
    // The worker builds the image as a child-to-be: attached, not a root.
    assert!(!image.is_root());
    assert_eq!(image.value(), &"what".to_string());
    assert_eq!(image.child_count(), 1);
    assert_eq!(image.get_child(0).unwrap().value(), &"is".to_string());
}

#[test]
fn flat_map_on_a_leaf_is_the_grafted_tree() {
    let tree = Node::new(3u64);
    let flat = tree.flat_map(&|v: &u64| Node::new(v + 1));
    assert!(flat.is_root());
    assert_eq!(flat.value(), &4);
    assert_eq!(flat.child_count(), 0);
}
