use smart_pointers::cell::BorrowError;
use smart_pointers::heap::Heap;
use smart_pointers::tree::TreeNode;
use smart_pointers::refs::Payload;

#[test]
fn a_new_node_has_no_parent_and_no_children() {
    let mut heap: Heap<TreeNode> = Heap::new();
    let leaf = heap.new_node(3);
    assert_eq!(heap.value_of(&leaf), 3);
    assert_eq!(heap.child_count(&leaf), 0);
    assert_eq!(heap.strong_count(&leaf), 1);
    assert_eq!(heap.weak_count(&leaf), 0);
    assert!(heap.get_parent(&leaf).is_none());
    assert_eq!(heap.strong_count(&leaf), 1);
}

#[test]
fn attach_child_links_both_ways() {
    let mut heap: Heap<TreeNode> = Heap::new();
    let leaf = heap.new_node(3);
    let branch = heap.new_node(5);
    assert_eq!(heap.attach_child(&branch, &leaf), Ok(()));
    assert_eq!(heap.strong_count(&branch), 1);
    assert_eq!(heap.weak_count(&branch), 1);
    assert_eq!(heap.strong_count(&leaf), 2);
    assert_eq!(heap.weak_count(&leaf), 0);
    assert_eq!(heap.child_count(&branch), 1);
    assert_eq!(heap.child_count(&leaf), 0);
    let parent = heap.get_parent(&leaf).unwrap();
    assert_eq!(parent.index(), branch.index());
    assert_eq!(heap.value_of(&parent), 5);
    assert_eq!(heap.strong_count(&branch), 2);
    heap.drop_handle(parent);
    assert_eq!(heap.strong_count(&branch), 1);
    let view = heap.borrow(&branch).unwrap();
    assert_eq!(heap.read(&view).children[0].index(), leaf.index());
    assert!(heap.read(&view).parent.is_none());
    heap.release(view);
}

#[test]
fn a_child_outlives_its_parent() {
    let mut heap: Heap<TreeNode> = Heap::new();
    let leaf = heap.new_node(3);
    let branch = heap.new_node(5);
    heap.attach_child(&branch, &leaf).unwrap();
    heap.drop_handle(branch);
    assert!(heap.check_live(&leaf));
    assert_eq!(heap.strong_count(&leaf), 1);
    assert_eq!(heap.weak_count(&leaf), 0);
    assert_eq!(heap.value_of(&leaf), 3);
    assert!(heap.get_parent(&leaf).is_none());
    assert_eq!(heap.strong_count(&leaf), 1);
}

#[test]
fn the_weak_link_does_not_keep_the_parent_alive() {
    let mut heap: Heap<TreeNode> = Heap::new();
    let leaf = heap.new_node(3);
    let branch = heap.new_node(5);
    let extra = heap.clone_handle(&branch);
    let observer = heap.downgrade(&branch);
    heap.attach_child(&branch, &leaf).unwrap();
    assert_eq!(heap.weak_count(&branch), 2);
    heap.drop_handle(branch);
    assert_eq!(heap.observed_strong_count(&observer), 1);
    let parent = heap.get_parent(&leaf).unwrap();
    heap.drop_handle(parent);
    assert_eq!(heap.strong_count(&leaf), 2);
    heap.drop_handle(extra);
    assert_eq!(heap.observed_strong_count(&observer), 0);
    assert_eq!(heap.observed_weak_count(&observer), 2);
    assert!(heap.get_parent(&leaf).is_none());
    assert_eq!(heap.strong_count(&leaf), 1);
}

#[test]
fn a_child_dies_with_its_parent_if_nothing_else_holds_it() {
    let mut heap: Heap<TreeNode> = Heap::new();
    let leaf = heap.new_node(3);
    let branch = heap.new_node(5);
    let leaf_observer = heap.downgrade(&leaf);
    let branch_observer = heap.downgrade(&branch);
    heap.attach_child(&branch, &leaf).unwrap();
    heap.drop_handle(leaf);
    assert_eq!(heap.observed_strong_count(&leaf_observer), 1);
    heap.drop_handle(branch);
    assert_eq!(heap.observed_strong_count(&branch_observer), 0);
    assert_eq!(heap.observed_strong_count(&leaf_observer), 0);
    assert_eq!(heap.observed_weak_count(&branch_observer), 1);
    assert_eq!(heap.observed_weak_count(&leaf_observer), 1);
}

#[test]
fn attaching_twice_appends_twice() {
    let mut heap: Heap<TreeNode> = Heap::new();
    let leaf = heap.new_node(3);
    let branch = heap.new_node(5);
    heap.attach_child(&branch, &leaf).unwrap();
    heap.attach_child(&branch, &leaf).unwrap();
    assert_eq!(heap.child_count(&branch), 2);
    assert_eq!(heap.strong_count(&leaf), 3);
    assert_eq!(heap.weak_count(&branch), 1);
    heap.drop_handle(branch);
    assert_eq!(heap.strong_count(&leaf), 1);
}

#[test]
fn children_keep_their_order() {
    let mut heap: Heap<TreeNode> = Heap::new();
    let branch = heap.new_node(0);
    let one = heap.new_node(1);
    let two = heap.new_node(2);
    let three = heap.new_node(3);
    heap.attach_child(&branch, &one).unwrap();
    heap.attach_child(&branch, &two).unwrap();
    heap.attach_child(&branch, &three).unwrap();
    assert_eq!(heap.weak_count(&branch), 3);
    let view = heap.borrow(&branch).unwrap();
    let order: Vec<usize> = heap.read(&view).children.iter().map(|h| h.index()).collect();
    assert_eq!(order, vec![one.index(), two.index(), three.index()]);
    heap.release(view);
}

#[test]
fn reparenting_gives_up_the_former_weak_link() {
    let mut heap: Heap<TreeNode> = Heap::new();
    let leaf = heap.new_node(3);
    let first = heap.new_node(5);
    let second = heap.new_node(6);
    heap.attach_child(&first, &leaf).unwrap();
    assert_eq!(heap.weak_count(&first), 1);
    heap.attach_child(&second, &leaf).unwrap();
    assert_eq!(heap.weak_count(&first), 0);
    assert_eq!(heap.weak_count(&second), 1);
    assert_eq!(heap.strong_count(&leaf), 3);
    let parent = heap.get_parent(&leaf).unwrap();
    assert_eq!(parent.index(), second.index());
    heap.drop_handle(parent);
}

#[test]
fn attach_is_refused_while_a_node_is_viewed() {
    let mut heap: Heap<TreeNode> = Heap::new();
    let leaf = heap.new_node(3);
    let branch = heap.new_node(5);
    let view = heap.borrow(&branch).unwrap();
    assert_eq!(heap.attach_child(&branch, &leaf), Err(BorrowError::SharedOutstanding));
    heap.release(view);
    let view = heap.borrow_mut(&leaf).unwrap();
    assert_eq!(heap.attach_child(&branch, &leaf), Err(BorrowError::ExclusiveOutstanding));
    assert_eq!(heap.strong_count(&leaf), 1);
    assert_eq!(heap.weak_count(&branch), 0);
    assert_eq!(heap.child_count(&branch), 0);
    heap.release_mut(view);
    assert_eq!(heap.attach_child(&branch, &leaf), Ok(()));
}

#[test]
fn a_deep_tree_is_destroyed_from_the_root() {
    let mut heap: Heap<TreeNode> = Heap::new();
    let root = heap.new_node(0);
    let mut observers = Vec::new();
    let mut parent = heap.clone_handle(&root);
    for i in 1..20 {
        let node = heap.new_node(i);
        heap.attach_child(&parent, &node).unwrap();
        observers.push(heap.downgrade(&node));
        heap.drop_handle(parent);
        parent = node;
    }
    heap.drop_handle(parent);
    for w in observers.iter() {
        assert_eq!(heap.observed_strong_count(w), 1);
    }
    heap.drop_handle(root);
    for w in observers.iter() {
        assert_eq!(heap.observed_strong_count(w), 0);
    }
}

#[test]
fn a_node_by_itself() {
    let node = TreeNode::new(7);
    assert_eq!(node.value, 7);
    assert!(node.parent.is_none());
    assert!(node.children.is_empty());
}

#[test]
fn a_node_attached_to_itself_keeps_itself_alive() {
    let mut heap: Heap<TreeNode> = Heap::new();
    let node = heap.new_node(1);
    let observer = heap.downgrade(&node);
    assert_eq!(heap.attach_child(&node, &node), Ok(()));
    assert_eq!(heap.strong_count(&node), 2);
    assert_eq!(heap.weak_count(&node), 2);
    assert_eq!(heap.child_count(&node), 1);
    let parent = heap.get_parent(&node).unwrap();
    assert_eq!(parent.index(), node.index());
    heap.drop_handle(parent);
    heap.drop_handle(node);
    assert_eq!(heap.observed_strong_count(&observer), 1);
}

#[test]
fn a_tree_node_hands_out_the_handles_it_holds() {
    let mut heap: Heap<TreeNode> = Heap::new();
    let leaf = heap.new_node(3);
    let branch = heap.new_node(5);
    heap.attach_child(&branch, &leaf).unwrap();
    let leaf_observer = heap.downgrade(&leaf);
    heap.drop_handle(leaf);
    let node = heap.into_inner(branch).unwrap();
    assert_eq!(node.value, 5);
    let (strong, weak) = node.into_refs();
    assert_eq!(strong.len(), 1);
    assert_eq!(strong[0].index(), 0);
    assert!(weak.is_empty());
    assert_eq!(heap.observed_strong_count(&leaf_observer), 1);
    for h in strong {
        let child = heap.into_inner(h).unwrap();
        let (strong, weak) = child.into_refs();
        assert!(strong.is_empty());
        assert_eq!(weak.len(), 1);
        assert_eq!(weak[0].index(), 1);
        for w in weak {
            heap.drop_weak(w);
        }
    }
    assert_eq!(heap.observed_strong_count(&leaf_observer), 0);
    assert!(heap.is_released(1));
    assert!(!heap.is_released(0));
}

#[test]
fn setting_the_parent_link_raises_only_the_weak_count() {
    let mut heap: Heap<TreeNode> = Heap::new();
    let leaf = heap.new_node(3);
    let branch = heap.new_node(5);
    assert_eq!(heap.add_child(&branch, &leaf), Ok(()));
    assert_eq!(heap.strong_count(&branch), 1);
    assert_eq!(heap.weak_count(&branch), 0);
    assert_eq!(heap.strong_count(&leaf), 2);
    assert_eq!(heap.child_count(&branch), 1);
    assert_eq!(heap.parent_value(&leaf), None);
    assert_eq!(heap.set_parent(&leaf, &branch), Ok(()));
    assert_eq!(heap.strong_count(&branch), 1);
    assert_eq!(heap.weak_count(&branch), 1);
    assert_eq!(heap.strong_count(&leaf), 2);
    assert_eq!(heap.weak_count(&leaf), 0);
    assert_eq!(heap.value_of(&branch), 5);
    assert_eq!(heap.child_count(&branch), 1);
    assert_eq!(heap.parent_value(&leaf), Some(5));
}

#[test]
fn the_parent_resolves_as_long_as_one_handle_to_it_is_left() {
    let mut heap: Heap<TreeNode> = Heap::new();
    let leaf = heap.new_node(3);
    let branch = heap.new_node(5);
    heap.attach_child(&branch, &leaf).unwrap();
    let mut handles = vec![branch];
    for _ in 0..4 {
        let more = heap.clone_handle(&handles[0]);
        handles.push(more);
    }
    while let Some(h) = handles.pop() {
        assert_eq!(heap.parent_value(&leaf), Some(5));
        let parent = heap.get_parent(&leaf).unwrap();
        assert_eq!(heap.value_of(&parent), 5);
        heap.drop_handle(parent);
        heap.drop_handle(h);
    }
    assert_eq!(heap.parent_value(&leaf), None);
    assert!(heap.get_parent(&leaf).is_none());
    assert_eq!(heap.weak_count(&leaf), 0);
    assert_eq!(heap.strong_count(&leaf), 1);
}

#[test]
fn add_child_and_set_parent_are_refused_while_viewed() {
    let mut heap: Heap<TreeNode> = Heap::new();
    let leaf = heap.new_node(3);
    let branch = heap.new_node(5);
    let view = heap.borrow(&branch).unwrap();
    assert_eq!(heap.add_child(&branch, &leaf), Err(BorrowError::SharedOutstanding));
    assert_eq!(heap.set_parent(&leaf, &branch), Ok(()));
    heap.release(view);
    let view = heap.borrow_mut(&leaf).unwrap();
    assert_eq!(heap.set_parent(&leaf, &branch), Err(BorrowError::ExclusiveOutstanding));
    assert_eq!(heap.add_child(&branch, &leaf), Ok(()));
    heap.release_mut(view);
    assert_eq!(heap.weak_count(&branch), 1);
    assert_eq!(heap.strong_count(&leaf), 2);
}
