use smart_pointers::cell::BorrowError;
use smart_pointers::example_with_recursive_type;
use smart_pointers::heap::Heap;
use smart_pointers::linked::Link;
use smart_pointers::linked::TraversalError;
use smart_pointers::my_box::{deref_coercion_example, dereference_examples, store_on_the_heap, MyBox};
use smart_pointers::refcell_example;
use smart_pointers::refcell_example::Shared;
use smart_pointers::reference_counted_smart_pointers_example;
use smart_pointers::reference_cycle_example;

#[test]
fn boxed_five() {
    assert_eq!(*store_on_the_heap(), 5);
}

#[test]
fn recursive_list_holds_one_two_three() {
    let list = example_with_recursive_type::run();
    assert_eq!(list.to_vec(), vec![1, 2, 3]);
    assert_eq!(format!("{:?}", list), "Cons(1, Cons(2, Cons(3, Nil)))");
}

#[test]
fn my_box_dereferences_to_its_value() {
    dereference_examples();
    let y = MyBox::new(5);
    assert_eq!(5, *y);
    let m = deref_coercion_example();
    let name: &str = &m;
    assert_eq!(name, "Rust");
}

#[test]
fn shared_list_counts() {
    let trace = reference_counted_smart_pointers_example::run();
    assert_eq!(trace.after_a, 1);
    assert_eq!(trace.after_b, 2);
    assert_eq!(trace.after_c, 3);
    assert_eq!(trace.after_c_dropped, 2);
}

#[test]
fn shared_value_is_changed_for_all() {
    let (x, trace) = refcell_example::run();
    assert_eq!(x, 5);
    assert_eq!(trace.number_sharers, 2);
    assert_eq!(trace.list_sharers, 3);
    assert!(!trace.nested_write_granted);
    assert_eq!(trace.a_after, vec![15]);
    assert_eq!(trace.b_after, vec![3, 15]);
    assert_eq!(trace.c_after, vec![4, 15]);
    assert_eq!(refcell_example::cons_example_again(), trace);
}

#[test]
fn shared_lists_step_by_step() {
    let mut heap: Heap<Shared> = Heap::new();
    let value = heap.number(5);
    let in_a = heap.clone_handle(&value);
    let a = heap.cons_shared(in_a, Link::End);
    let three = heap.number(3);
    let a_in_b = heap.clone_handle(&a);
    let b = heap.cons_shared(three, Link::Next(a_in_b));
    assert_eq!(heap.strong_count(&value), 2);
    assert_eq!(heap.strong_count(&a), 2);
    assert_eq!(heap.numbers(&a), vec![5]);
    assert_eq!(heap.numbers(&b), vec![3, 5]);
    assert_eq!(heap.add(&value, 10), Ok(()));
    assert_eq!(heap.numbers(&a), vec![15]);
    assert_eq!(heap.numbers(&b), vec![3, 15]);
    assert_eq!(heap.add(&value, -20), Ok(()));
    assert_eq!(heap.numbers(&b), vec![3, -5]);
    let view = heap.borrow(&value).unwrap();
    assert_eq!(heap.add(&value, 1), Err(BorrowError::SharedOutstanding));
    heap.release(view);
    let view = heap.borrow_mut(&value).unwrap();
    assert_eq!(heap.add(&value, 1), Err(BorrowError::ExclusiveOutstanding));
    heap.release_mut(view);
    assert_eq!(heap.numbers(&b), vec![3, -5]);
}

#[test]
fn dropping_a_shared_list_lets_go_of_its_number() {
    let mut heap: Heap<Shared> = Heap::new();
    let value = heap.number(5);
    let in_a = heap.clone_handle(&value);
    let a = heap.cons_shared(in_a, Link::End);
    let three = heap.number(3);
    let on_three = heap.downgrade(&three);
    let a_in_b = heap.clone_handle(&a);
    let b = heap.cons_shared(three, Link::Next(a_in_b));
    heap.drop_handle(b);
    assert_eq!(heap.observed_strong_count(&on_three), 0);
    assert_eq!(heap.strong_count(&a), 1);
    assert_eq!(heap.strong_count(&value), 2);
    heap.drop_handle(a);
    assert_eq!(heap.strong_count(&value), 1);
}

#[test]
fn list_example_ends_in_a_cycle() {
    let trace = reference_cycle_example::run_first_example();
    assert_eq!(trace.a_initial, 1);
    assert_eq!(trace.a_next_initial, Ok(vec![]));
    assert_eq!(trace.a_after_b, 2);
    assert_eq!(trace.b_initial, 1);
    assert_eq!(trace.b_next_initial, Ok(vec![5]));
    assert_eq!(trace.length_before_splice, Ok(2));
    assert_eq!(trace.a_after_splice, 2);
    assert_eq!(trace.b_after_splice, 2);
    assert_eq!(trace.length_after_splice, Err(TraversalError::Cycle));
}

#[test]
fn tree_example_counts() {
    let trace = reference_cycle_example::run_second_example();
    assert_eq!(trace.leaf_strong_initial, 1);
    assert_eq!(trace.leaf_weak_initial, 0);
    assert_eq!(trace.leaf_parent_initial, None);
    assert_eq!(trace.branch_strong, 1);
    assert_eq!(trace.branch_weak, 1);
    assert_eq!(trace.leaf_strong_attached, 2);
    assert_eq!(trace.leaf_weak_attached, 0);
    assert_eq!(trace.leaf_parent_attached, Some(5));
    assert_eq!(trace.leaf_parent_final, None);
    assert_eq!(trace.leaf_strong_final, 1);
    assert_eq!(trace.leaf_weak_final, 0);
}

#[test]
fn both_cycle_examples_run() {
    let (first, second) = reference_cycle_example::run();
    assert_eq!(first.length_after_splice, Err(TraversalError::Cycle));
    assert_eq!(second, reference_cycle_example::run_second_example());
}
