use pool_tree::shape::SubTree;
use pool_tree::tree::Tree;

#[test]
fn test_access() {
    let tree = Tree::new(17);
    assert_eq!(17, *tree.top().value());
    let mut top = tree.mut_top();
    top.set_value(5);
    let tree = top.into_tree();
    assert_eq!(5, *tree.top().value());
}

#[test]
fn test_alloc() {
    let tree = Tree::new(17);
    assert_eq!(17, *tree.top().value());
    let mut top = tree.mut_top();
    top.set_value(5);
    let tree = top.into_tree();
    assert_eq!(5, *tree.top().value());
}

#[test]
fn occupied_count_tracks_live_nodes() {
    let mut top = Tree::new(0u32).mut_top();
    assert_eq!(1, top.get_ref().index() + 1);
    let tree = top.into_tree();
    assert_eq!(1, tree.occupied_count());

    let mut top = tree.mut_top();
    top.add_child(1);
    top.add_child(2);
    let tree = top.into_tree();
    assert_eq!(3, tree.occupied_count());

    let mut top = tree.mut_top();
    top.remove_child(0);
    let tree = top.into_tree();
    assert_eq!(2, tree.occupied_count());
    // The freed slot still exists in the pool, it just holds no value.
    assert_eq!(3, tree.slot_count());
}

#[test]
fn round_trip_create_sub_tree_then_read() {
    let mut top = Tree::new(0u32).mut_top();
    let shape = vec![
        SubTree { value: 1, children: vec![
            SubTree { value: 2, children: vec![] },
            SubTree { value: 3, children: vec![] },
        ] },
        SubTree { value: 4, children: vec![] },
    ];
    top.create_sub_tree(shape);
    let tree = top.into_tree();

    let read = tree.top().read_shape();
    assert_eq!(vec![0, 1, 2, 3, 4], read.flatten());

    let first = tree.top().get_child(0).read_shape();
    assert_eq!(vec![1, 2, 3], first.flatten());
    let second = tree.top().get_child(1).read_shape();
    assert_eq!(vec![4], second.flatten());
}

#[test]
fn structure_read_is_idempotent() {
    let mut top = Tree::new(9u32).mut_top();
    top.add_child(8);
    top.add_child(7);
    let tree = top.into_tree();
    let first = tree.top().child_values();
    let second = tree.top().child_values();
    assert_eq!(first, second);
    assert_eq!(*tree.top().value(), *tree.top().value());
}

#[test]
fn freed_slots_are_reused_lifo() {
    let mut top = Tree::new(0u32).mut_top();
    let a = top.add_child(1);
    let b = top.add_child(2);
    assert_eq!(1, a);
    assert_eq!(2, b);
    // Removing child 0 frees slot `a`; the next allocation must reuse it.
    assert_eq!(1, top.remove_child(0));
    let c = top.add_child(3);
    assert_eq!(a, c);
    // With the free list drained, a fresh slot is appended instead.
    let d = top.add_child(4);
    assert_eq!(3, d);
}

#[test]
fn get_out_of_range_or_freed_is_absent() {
    let mut top = Tree::new(0u32).mut_top();
    let a = top.add_child(1);
    let tree = top.into_tree();
    assert!(tree.get_index(0).is_some());
    assert!(tree.get_index(a).is_some());
    // At or beyond the slot count: absent.
    assert!(tree.get_index(tree.slot_count()).is_none());
    assert!(tree.get_index(tree.slot_count() + 7).is_none());

    let mut top = tree.mut_top();
    top.remove_child(0);
    let tree = top.into_tree();
    // A known-freed index: absent.
    assert!(tree.get_index(a).is_none());
    match tree.get_index_mut(a) {
        Ok(_) => panic!("freed slot handed out"),
        Err(tree) => {
            assert_eq!(2, tree.slot_count());
        },
    }
}

#[test]
fn into_child_on_leaf_returns_original() {
    let top = Tree::new(11u32).mut_top();
    match top.into_child(0) {
        Ok(_) => panic!("descended into a child of a leaf"),
        Err(original) => {
            assert_eq!(0, original.index());
            assert_eq!(11, *original.value());
        },
    }
}

#[test]
fn scenario_positional_children() {
    let mut top = Tree::new(7u32).mut_top();
    top.add_child(10);
    top.add_child(20);
    top.add_child(30);
    top.add_child(40);
    assert_eq!(vec![10, 20, 30, 40], top.get_ref().child_values());

    let freed = top.get_child(1).index();
    assert_eq!(20, top.remove_child(1));
    assert_eq!(vec![10, 30, 40], top.get_ref().child_values());

    // The removed slot is available again: the next addition reuses it.
    let c = top.add_child(50);
    assert_eq!(freed, c);
    top.add_child(60);
    top.add_child(70);
    assert_eq!(vec![10, 30, 40, 50, 60, 70], top.get_ref().child_values());

    let mut node = match top.into_child(2) {
        Ok(node) => node,
        Err(_) => panic!("position 2 exists"),
    };
    assert_eq!(40, *node.value());
    node.add_child(4);
    assert_eq!(vec![4], node.get_ref().child_values());

    let top = match node.into_parent() {
        Ok(top) => top,
        Err(_) => panic!("the node has a parent"),
    };
    assert_eq!(0, top.index());
    assert_eq!(vec![10, 30, 40, 50, 60, 70], top.get_ref().child_values());
}

#[test]
fn scenario_deep_removal() {
    // root(1 -> (2 -> (3, 4), 5))
    let mut top = Tree::new(1u32).mut_top();
    top.add_child(2);
    let mut two = match top.into_child(0) {
        Ok(two) => two,
        Err(_) => panic!("position 0 exists"),
    };
    let slot_two = two.index();
    let slot_three = two.add_child(3);
    let slot_four = two.add_child(4);
    let mut top = match two.into_parent() {
        Ok(top) => top,
        Err(_) => panic!("the node has a parent"),
    };
    top.add_child(5);

    assert_eq!(2, top.remove_child(0));
    assert_eq!(vec![5], top.get_ref().child_values());

    let tree = top.into_tree();
    assert!(tree.get_index(slot_two).is_none());
    assert!(tree.get_index(slot_three).is_none());
    assert!(tree.get_index(slot_four).is_none());
    assert_eq!(2, tree.occupied_count());
}

#[test]
fn clear_children_drains_everything() {
    let mut top = Tree::new(0u32).mut_top();
    top.create_sub_tree(vec![
        SubTree { value: 1, children: vec![SubTree { value: 2, children: vec![] }] },
        SubTree { value: 3, children: vec![] },
    ]);
    top.clear_children();
    assert_eq!(0, top.children_count());
    let tree = top.into_tree();
    assert_eq!(1, tree.occupied_count());
    assert_eq!(4, tree.slot_count());
}

#[test]
fn value_mutable_tier() {
    let mut top = Tree::new(1u32).mut_top();
    top.add_child(2);
    top.add_child(3);
    // Narrow to the value-mutable tier: values change, the shape cannot.
    let mut node = top.inner();
    assert_eq!(1, node.set_value(10));
    assert_eq!(2, node.set_child_value(0, 20));
    assert_eq!(2, node.children_count());
    assert_eq!(20, *node.get_child(0).value());
    assert_eq!(3, *node.get_child(1).value());
    // Widening back keeps the same node.
    let top = pool_tree::reference::RefUniq::from_inner(node);
    assert_eq!(10, *top.value());
}

#[test]
fn children_snapshot_in_order() {
    let mut top = Tree::new(0u32).mut_top();
    top.add_child(5);
    top.add_child(6);
    let tree = top.into_tree();
    let root = tree.top();
    let kids = root.children();
    assert_eq!(2, kids.len());
    assert_eq!(5, *kids[0].value());
    assert_eq!(6, *kids[1].value());
    assert_eq!(kids[0].index(), root.get_child(0).index());
}

#[test]
fn into_new_child_descends() {
    let top = Tree::new(1u32).mut_top();
    let child = top.into_new_child(2);
    assert_eq!(2, *child.value());
    assert_eq!(0, child.children_count());
    let top = match child.into_parent() {
        Ok(top) => top,
        Err(_) => panic!("the node has a parent"),
    };
    assert_eq!(vec![2], top.get_ref().child_values());
    // The root cannot ascend.
    match top.into_parent() {
        Ok(_) => panic!("the root has no parent"),
        Err(original) => assert_eq!(0, original.index()),
    }
}

#[test]
fn element_states() {
    let used: pool_tree::tree::Element<u32> = pool_tree::tree::Element::new(3, 0);
    assert!(used.is_used());
    assert_eq!(Some(&3), used.get_value_checked());
    assert_eq!(0, used.parent());
    let free: pool_tree::tree::Element<u32> = pool_tree::tree::Element::unused(7);
    assert!(!free.is_used());
    assert_eq!(None, free.get_value_checked());
    assert_eq!(7, free.next_free());
}
