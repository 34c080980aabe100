use smart_pointers::cell::BorrowError;
use smart_pointers::heap::Heap;
use smart_pointers::linked::{Link, LinkedNode, TraversalError};
use smart_pointers::refs::Payload;

#[test]
fn cons_builds_a_list_from_the_tail() {
    let mut heap: Heap<LinkedNode> = Heap::new();
    let c = heap.cons(3, Link::End);
    let b = heap.cons(2, Link::Next(c));
    let a = heap.cons(1, Link::Next(b));
    assert_eq!(heap.length(&a), Ok(3));
    assert_eq!(heap.strong_count(&a), 1);
    let view = heap.borrow(&a).unwrap();
    assert_eq!(heap.read(&view).payload, 1);
    match heap.read(&view).tail() {
        Some(Link::Next(h)) => assert_eq!(h.index(), 1),
        _ => panic!("the first node is followed by the second"),
    }
    heap.release(view);
}

#[test]
fn tail_of_a_last_node_is_its_end_link() {
    let node = LinkedNode { payload: 5, next: Link::End };
    assert!(node.tail().is_some());
    assert!(matches!(node.tail(), Some(Link::End)));
    assert_eq!(format!("{:?}", node.tail()), "Some(End)");
}

#[test]
fn tail_is_the_very_link_of_the_node() {
    let mut heap: Heap<LinkedNode> = Heap::new();
    let a = heap.cons(5, Link::End);
    let node = LinkedNode { payload: 10, next: Link::Next(a) };
    let link = node.tail().unwrap();
    assert!(std::ptr::eq(link, &node.next));
    match link {
        Link::Next(h) => assert_eq!(h.index(), 0),
        Link::End => panic!("the node is followed by another"),
    }
}

#[test]
fn values_are_the_numbers_first_to_last() {
    let mut heap: Heap<LinkedNode> = Heap::new();
    let c = heap.cons(3, Link::End);
    let b = heap.cons(2, Link::Next(c));
    let a = heap.cons(1, Link::Next(b));
    assert_eq!(heap.values(&a), Ok(vec![1, 2, 3]));
    assert_eq!(heap.following(&a), Ok(vec![2, 3]));
    let last = heap.clone_handle(&a);
    let end = heap.cons(9, Link::End);
    assert_eq!(heap.values(&end), Ok(vec![9]));
    assert_eq!(heap.following(&end), Ok(vec![]));
    heap.drop_handle(last);
}

#[test]
fn values_of_a_cycle_are_refused() {
    let mut heap: Heap<LinkedNode> = Heap::new();
    let a = heap.cons(5, Link::End);
    let to_a = heap.clone_handle(&a);
    let b = heap.cons(10, Link::Next(to_a));
    assert_eq!(heap.following(&a), Ok(vec![]));
    assert_eq!(heap.following(&b), Ok(vec![5]));
    heap.splice(&a, &b).unwrap();
    assert_eq!(heap.values(&a), Err(TraversalError::Cycle));
    assert_eq!(heap.following(&a), Err(TraversalError::Cycle));
    assert_eq!(heap.following(&b), Err(TraversalError::Cycle));
}

#[test]
fn lists_share_a_tail() {
    let mut heap: Heap<LinkedNode> = Heap::new();
    let ten = heap.cons(10, Link::End);
    let a = heap.cons(5, Link::Next(ten));
    assert_eq!(heap.strong_count(&a), 1);
    let shared = heap.clone_handle(&a);
    let b = heap.cons(3, Link::Next(shared));
    assert_eq!(heap.strong_count(&a), 2);
    let shared = heap.clone_handle(&a);
    let c = heap.cons(4, Link::Next(shared));
    assert_eq!(heap.strong_count(&a), 3);
    assert_eq!(heap.length(&b), Ok(3));
    assert_eq!(heap.length(&c), Ok(3));
    heap.drop_handle(c);
    assert_eq!(heap.strong_count(&a), 2);
    heap.drop_handle(b);
    assert_eq!(heap.strong_count(&a), 1);
    assert_eq!(heap.length(&a), Ok(2));
}

#[test]
fn dropping_the_head_destroys_the_whole_list() {
    let mut heap: Heap<LinkedNode> = Heap::new();
    let c = heap.cons(3, Link::End);
    let wc = heap.downgrade(&c);
    let b = heap.cons(2, Link::Next(c));
    let wb = heap.downgrade(&b);
    let a = heap.cons(1, Link::Next(b));
    let wa = heap.downgrade(&a);
    heap.drop_handle(a);
    assert_eq!(heap.observed_strong_count(&wa), 0);
    assert_eq!(heap.observed_strong_count(&wb), 0);
    assert_eq!(heap.observed_strong_count(&wc), 0);
    assert!(heap.upgrade(&wc).is_none());
}

#[test]
fn a_shared_tail_survives_one_of_its_lists() {
    let mut heap: Heap<LinkedNode> = Heap::new();
    let tail = heap.cons(9, Link::End);
    let shared = heap.clone_handle(&tail);
    let a = heap.cons(1, Link::Next(shared));
    assert_eq!(heap.strong_count(&tail), 2);
    heap.drop_handle(a);
    assert_eq!(heap.strong_count(&tail), 1);
    assert!(heap.check_live(&tail));
    assert_eq!(heap.length(&tail), Ok(1));
}

#[test]
fn splice_replaces_the_end_by_a_tail() {
    let mut heap: Heap<LinkedNode> = Heap::new();
    let a = heap.cons(5, Link::End);
    let b = heap.cons(7, Link::End);
    assert_eq!(heap.length(&a), Ok(1));
    let former = heap.splice(&a, &b).unwrap();
    assert!(matches!(former, Link::End));
    assert_eq!(heap.strong_count(&b), 2);
    assert_eq!(heap.strong_count(&a), 1);
    assert_eq!(heap.length(&a), Ok(2));
    let view = heap.borrow(&a).unwrap();
    assert_eq!(heap.read(&view).payload, 5);
    match heap.read(&view).tail() {
        Some(Link::Next(h)) => assert_eq!(h.index(), b.index()),
        _ => panic!("the node is followed by the tail spliced in"),
    }
    heap.release(view);
}

#[test]
fn splice_returns_the_former_tail() {
    let mut heap: Heap<LinkedNode> = Heap::new();
    let old_tail = heap.cons(1, Link::End);
    let w_old = heap.downgrade(&old_tail);
    let a = heap.cons(5, Link::Next(old_tail));
    let b = heap.cons(7, Link::End);
    let former = heap.splice(&a, &b).unwrap();
    match former {
        Link::Next(h) => {
            assert_eq!(h.index(), 0);
            assert_eq!(heap.strong_count(&h), 1);
            heap.drop_handle(h);
        }
        Link::End => panic!("the former tail was a node"),
    }
    assert_eq!(heap.observed_strong_count(&w_old), 0);
    assert_eq!(heap.length(&a), Ok(2));
}

#[test]
fn splice_is_refused_while_the_node_is_viewed() {
    let mut heap: Heap<LinkedNode> = Heap::new();
    let a = heap.cons(5, Link::End);
    let b = heap.cons(7, Link::End);
    let view = heap.borrow(&a).unwrap();
    assert_eq!(heap.splice(&a, &b).unwrap_err(), BorrowError::SharedOutstanding);
    assert_eq!(heap.strong_count(&b), 1);
    heap.release(view);
    let view = heap.borrow_mut(&a).unwrap();
    assert_eq!(heap.splice(&a, &b).unwrap_err(), BorrowError::ExclusiveOutstanding);
    assert_eq!(heap.strong_count(&b), 1);
    heap.release_mut(view);
    assert!(heap.splice(&a, &b).is_ok());
    assert_eq!(heap.strong_count(&b), 2);
}

#[test]
fn two_node_cycle_is_reported() {
    let mut heap: Heap<LinkedNode> = Heap::new();
    let b = heap.cons(10, Link::End);
    let to_b = heap.clone_handle(&b);
    let a = heap.cons(5, Link::Next(to_b));
    assert_eq!(heap.length(&a), Ok(2));
    let former = heap.splice(&b, &a).unwrap();
    assert!(matches!(former, Link::End));
    assert_eq!(heap.strong_count(&a), 2);
    assert_eq!(heap.strong_count(&b), 2);
    assert_eq!(heap.length(&a), Err(TraversalError::Cycle));
    assert_eq!(heap.length(&b), Err(TraversalError::Cycle));
}

#[test]
fn a_node_spliced_behind_itself_is_a_cycle() {
    let mut heap: Heap<LinkedNode> = Heap::new();
    let a = heap.cons(5, Link::End);
    let former = heap.splice(&a, &a).unwrap();
    assert!(matches!(former, Link::End));
    assert_eq!(heap.strong_count(&a), 2);
    assert_eq!(heap.length(&a), Err(TraversalError::Cycle));
}

#[test]
fn a_list_that_leads_into_a_cycle_is_reported() {
    let mut heap: Heap<LinkedNode> = Heap::new();
    let b = heap.cons(10, Link::End);
    let to_b = heap.clone_handle(&b);
    let a = heap.cons(5, Link::Next(to_b));
    heap.splice(&b, &a).unwrap();
    let to_a = heap.clone_handle(&a);
    let head = heap.cons(1, Link::Next(to_a));
    assert_eq!(heap.length(&head), Err(TraversalError::Cycle));
}

#[test]
fn a_cycle_keeps_its_nodes_alive() {
    let mut heap: Heap<LinkedNode> = Heap::new();
    let b = heap.cons(10, Link::End);
    let to_b = heap.clone_handle(&b);
    let a = heap.cons(5, Link::Next(to_b));
    heap.splice(&b, &a).unwrap();
    let wa = heap.downgrade(&a);
    let wb = heap.downgrade(&b);
    heap.drop_handle(a);
    heap.drop_handle(b);
    assert_eq!(heap.observed_strong_count(&wa), 1);
    assert_eq!(heap.observed_strong_count(&wb), 1);
}

#[test]
fn a_list_as_long_as_the_heap_is_counted() {
    let mut heap: Heap<LinkedNode> = Heap::new();
    let mut head = heap.cons(0, Link::End);
    for i in 1..50 {
        head = heap.cons(i, Link::Next(head));
    }
    assert_eq!(heap.len(), 50);
    assert_eq!(heap.length(&head), Ok(50));
}

#[test]
fn a_node_hands_out_the_handle_it_holds() {
    let mut heap: Heap<LinkedNode> = Heap::new();
    let tail = heap.cons(2, Link::End);
    let held = heap.clone_handle(&tail);
    let node = LinkedNode { payload: 1, next: Link::Next(held) };
    let (strong, weak) = node.into_refs();
    assert_eq!(strong.len(), 1);
    assert_eq!(strong[0].index(), tail.index());
    assert!(weak.is_empty());
    let last = LinkedNode { payload: 3, next: Link::End };
    let (strong, weak) = last.into_refs();
    assert!(strong.is_empty());
    assert!(weak.is_empty());
}

#[test]
fn into_inner_hands_out_the_node_with_its_link() {
    let mut heap: Heap<LinkedNode> = Heap::new();
    let tail = heap.cons(2, Link::End);
    let observer = heap.downgrade(&tail);
    let head = heap.cons(1, Link::Next(tail));
    let node = heap.into_inner(head).unwrap();
    assert_eq!(node.payload, 1);
    assert_eq!(heap.observed_strong_count(&observer), 1);
    match node.next {
        Link::Next(h) => {
            assert_eq!(h.index(), 0);
            heap.drop_handle(h);
        }
        Link::End => panic!("the node had a tail"),
    }
    assert_eq!(heap.observed_strong_count(&observer), 0);
}
