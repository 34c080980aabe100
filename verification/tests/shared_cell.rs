use smart_pointers::cell::{BorrowError, BorrowState};
use smart_pointers::heap::Heap;

#[test]
fn allocate_starts_with_one_strong_and_no_weak() {
    let mut heap: Heap<i32> = Heap::new();
    assert_eq!(heap.len(), 0);
    let a = heap.allocate(7);
    assert_eq!(heap.len(), 1);
    assert_eq!(a.index(), 0);
    assert_eq!(heap.strong_count(&a), 1);
    assert_eq!(heap.weak_count(&a), 0);
    assert_eq!(heap.borrow_state(&a), BorrowState::Unborrowed);
    assert!(heap.check_live(&a));
}

#[test]
fn strong_count_is_one_plus_clones_minus_drops() {
    let mut heap: Heap<i32> = Heap::new();
    let a = heap.allocate(7);
    let mut copies = Vec::new();
    for _ in 0..5 {
        copies.push(heap.clone_handle(&a));
    }
    assert_eq!(heap.strong_count(&a), 6);
    for _ in 0..3 {
        let copy = copies.pop().unwrap();
        heap.drop_handle(copy);
    }
    assert_eq!(heap.strong_count(&a), 1 + 5 - 3);
    let again = heap.clone_handle(&a);
    assert_eq!(heap.strong_count(&again), 1 + 6 - 3);
}

#[test]
fn clone_refers_to_the_same_cell() {
    let mut heap: Heap<i32> = Heap::new();
    let a = heap.allocate(1);
    let b = heap.allocate(2);
    let a2 = heap.clone_handle(&a);
    assert_eq!(a2.index(), a.index());
    assert_eq!(heap.strong_count(&a), 2);
    assert_eq!(heap.strong_count(&b), 1);
}

#[test]
fn last_drop_hands_out_the_payload_once() {
    let mut heap: Heap<i32> = Heap::new();
    let a = heap.allocate(42);
    let b = heap.clone_handle(&a);
    let w1 = heap.downgrade(&a);
    let w2 = heap.downgrade(&a);
    assert_eq!(heap.into_inner(a), None);
    assert_eq!(heap.observed_strong_count(&w1), 1);
    assert_eq!(heap.into_inner(b), Some(42));
    assert_eq!(heap.observed_strong_count(&w1), 0);
    assert_eq!(heap.observed_weak_count(&w1), 2);
    assert!(heap.upgrade(&w1).is_none());
    assert!(heap.upgrade(&w2).is_none());
    assert_eq!(heap.observed_strong_count(&w1), 0);
}

#[test]
fn drop_handle_destroys_with_weak_handles_left() {
    let mut heap: Heap<i32> = Heap::new();
    let a = heap.allocate(42);
    let w = heap.downgrade(&a);
    heap.drop_handle(a);
    assert_eq!(heap.observed_strong_count(&w), 0);
    assert_eq!(heap.observed_weak_count(&w), 1);
    assert!(heap.upgrade(&w).is_none());
    heap.drop_weak(w);
    assert_eq!(heap.len(), 1);
}

#[test]
fn upgrade_while_alive_gives_a_handle() {
    let mut heap: Heap<i32> = Heap::new();
    let a = heap.allocate(9);
    let w = heap.downgrade(&a);
    assert_eq!(heap.weak_count(&a), 1);
    let up = heap.upgrade(&w).unwrap();
    assert_eq!(up.index(), a.index());
    assert_eq!(heap.strong_count(&a), 2);
    assert_eq!(heap.weak_count(&a), 1);
    heap.drop_handle(up);
    assert_eq!(heap.strong_count(&a), 1);
    heap.drop_handle(a);
    assert!(heap.upgrade(&w).is_none());
    assert_eq!(heap.observed_weak_count(&w), 1);
}

#[test]
fn downgrade_and_drop_weak_move_the_weak_count_only() {
    let mut heap: Heap<i32> = Heap::new();
    let a = heap.allocate(9);
    let w1 = heap.downgrade(&a);
    let w2 = heap.downgrade(&a);
    assert_eq!(w1.index(), a.index());
    assert_eq!(heap.weak_count(&a), 2);
    assert_eq!(heap.strong_count(&a), 1);
    heap.drop_weak(w1);
    assert_eq!(heap.weak_count(&a), 1);
    assert_eq!(heap.strong_count(&a), 1);
    heap.drop_weak(w2);
    assert_eq!(heap.weak_count(&a), 0);
}

#[test]
fn second_write_view_is_refused_until_the_first_is_released() {
    let mut heap: Heap<i32> = Heap::new();
    let a = heap.allocate(5);
    let b = heap.clone_handle(&a);
    let first = heap.borrow_mut(&a).unwrap();
    assert_eq!(heap.borrow_state(&a), BorrowState::Exclusive);
    assert_eq!(heap.borrow_mut(&a).unwrap_err(), BorrowError::ExclusiveOutstanding);
    assert_eq!(heap.borrow_mut(&b).unwrap_err(), BorrowError::ExclusiveOutstanding);
    assert_eq!(heap.borrow_state(&a), BorrowState::Exclusive);
    heap.release_mut(first);
    assert_eq!(heap.borrow_state(&a), BorrowState::Unborrowed);
    let second = heap.borrow_mut(&b).unwrap();
    heap.release_mut(second);
}

#[test]
fn read_view_is_refused_while_writing() {
    let mut heap: Heap<i32> = Heap::new();
    let a = heap.allocate(5);
    let view = heap.borrow_mut(&a).unwrap();
    assert_eq!(heap.borrow(&a).unwrap_err(), BorrowError::ExclusiveOutstanding);
    heap.release_mut(view);
    let read = heap.borrow(&a).unwrap();
    assert_eq!(*heap.read(&read), 5);
    heap.release(read);
}

#[test]
fn write_view_is_refused_while_reading() {
    let mut heap: Heap<i32> = Heap::new();
    let a = heap.allocate(5);
    let r1 = heap.borrow(&a).unwrap();
    let r2 = heap.borrow(&a).unwrap();
    assert_eq!(heap.borrow_state(&a), BorrowState::Shared(2));
    assert_eq!(heap.borrow_mut(&a).unwrap_err(), BorrowError::SharedOutstanding);
    heap.release(r1);
    assert_eq!(heap.borrow_state(&a), BorrowState::Shared(1));
    assert_eq!(heap.borrow_mut(&a).unwrap_err(), BorrowError::SharedOutstanding);
    heap.release(r2);
    assert_eq!(heap.borrow_state(&a), BorrowState::Unborrowed);
    let w = heap.borrow_mut(&a).unwrap();
    heap.release_mut(w);
}

#[test]
fn read_views_overlap() {
    let mut heap: Heap<i32> = Heap::new();
    let a = heap.allocate(5);
    let r1 = heap.borrow(&a).unwrap();
    let r2 = heap.borrow(&a).unwrap();
    let r3 = heap.borrow(&a).unwrap();
    assert_eq!(*heap.read(&r1), 5);
    assert_eq!(*heap.read(&r3), 5);
    assert_eq!(heap.borrow_state(&a), BorrowState::Shared(3));
    heap.release(r2);
    heap.release(r1);
    heap.release(r3);
    assert_eq!(heap.borrow_state(&a), BorrowState::Unborrowed);
}

#[test]
fn views_of_different_cells_do_not_conflict() {
    let mut heap: Heap<i32> = Heap::new();
    let a = heap.allocate(1);
    let b = heap.allocate(2);
    let wa = heap.borrow_mut(&a).unwrap();
    let wb = heap.borrow_mut(&b).unwrap();
    assert_eq!(heap.write(&wa, 10), 1);
    assert_eq!(heap.write(&wb, 20), 2);
    assert_eq!(*heap.peek(&wa), 10);
    assert_eq!(*heap.peek(&wb), 20);
    heap.release_mut(wa);
    heap.release_mut(wb);
}

#[test]
fn write_is_seen_through_every_handle() {
    let mut heap: Heap<i32> = Heap::new();
    let a = heap.allocate(5);
    let b = heap.clone_handle(&a);
    let view = heap.borrow_mut(&a).unwrap();
    let current = *heap.peek(&view);
    let previous = heap.write(&view, current + 10);
    assert_eq!(previous, 5);
    heap.release_mut(view);
    let read = heap.borrow(&b).unwrap();
    assert_eq!(*heap.read(&read), 15);
    heap.release(read);
}

#[test]
fn borrow_state_steps() {
    assert_eq!(BorrowState::Unborrowed.acquire_shared(), Ok(BorrowState::Shared(1)));
    assert_eq!(BorrowState::Shared(1).acquire_shared(), Ok(BorrowState::Shared(2)));
    assert_eq!(
        BorrowState::Shared(usize::MAX).acquire_shared(),
        Err(BorrowError::TooManyReaders)
    );
    assert_eq!(BorrowState::Exclusive.acquire_shared(), Err(BorrowError::ExclusiveOutstanding));
    assert_eq!(BorrowState::Unborrowed.acquire_exclusive(), Ok(BorrowState::Exclusive));
    assert_eq!(BorrowState::Shared(3).acquire_exclusive(), Err(BorrowError::SharedOutstanding));
    assert_eq!(
        BorrowState::Exclusive.acquire_exclusive(),
        Err(BorrowError::ExclusiveOutstanding)
    );
    assert_eq!(BorrowState::Shared(2).release_shared(), BorrowState::Shared(1));
    assert_eq!(BorrowState::Shared(1).release_shared(), BorrowState::Unborrowed);
    assert_eq!(BorrowState::Unborrowed.release_shared(), BorrowState::Unborrowed);
    assert_eq!(BorrowState::Exclusive.release_shared(), BorrowState::Exclusive);
    assert_eq!(BorrowState::Exclusive.release_exclusive(), BorrowState::Unborrowed);
    assert_eq!(BorrowState::Shared(2).release_exclusive(), BorrowState::Shared(2));
    assert_eq!(BorrowState::Unborrowed.release_exclusive(), BorrowState::Unborrowed);
}

#[test]
fn check_live_tells_dead_and_foreign_handles() {
    let mut heap: Heap<i32> = Heap::new();
    let mut other: Heap<i32> = Heap::new();
    let _first = other.allocate(1);
    let second = other.allocate(2);
    let a = heap.allocate(3);
    assert!(heap.check_live(&a));
    assert!(!heap.check_live(&second));
    let w = heap.downgrade(&a);
    heap.drop_handle(a);
    assert_eq!(heap.observed_strong_count(&w), 0);
}

#[test]
fn modify_changes_the_payload_within_its_own_view() {
    let mut heap: Heap<i32> = Heap::new();
    let a = heap.allocate(5);
    let b = heap.clone_handle(&a);
    assert_eq!(heap.modify(&a, |x| x + 10), Ok(()));
    assert_eq!(heap.borrow_state(&a), BorrowState::Unborrowed);
    assert_eq!(heap.inspect(&b, |x| *x), Ok(15));
    assert_eq!(heap.borrow_state(&b), BorrowState::Unborrowed);
    assert_eq!(heap.strong_count(&a), 2);
}

#[test]
fn modify_is_refused_while_a_view_is_outstanding() {
    let mut heap: Heap<i32> = Heap::new();
    let a = heap.allocate(5);
    let read = heap.borrow(&a).unwrap();
    assert_eq!(heap.modify(&a, |x| x + 10), Err(BorrowError::SharedOutstanding));
    assert_eq!(*heap.read(&read), 5);
    heap.release(read);
    let write = heap.borrow_mut(&a).unwrap();
    assert_eq!(heap.modify(&a, |x| x + 10), Err(BorrowError::ExclusiveOutstanding));
    assert_eq!(*heap.peek(&write), 5);
    heap.release_mut(write);
    assert_eq!(heap.modify(&a, |x| x + 10), Ok(()));
    assert_eq!(heap.inspect(&a, |x| *x), Ok(15));
}

#[test]
fn inspect_is_refused_while_writing_and_joins_readers() {
    let mut heap: Heap<i32> = Heap::new();
    let a = heap.allocate(5);
    let write = heap.borrow_mut(&a).unwrap();
    assert_eq!(heap.inspect(&a, |x| *x), Err(BorrowError::ExclusiveOutstanding));
    assert_eq!(heap.borrow_state(&a), BorrowState::Exclusive);
    heap.release_mut(write);
    let read = heap.borrow(&a).unwrap();
    assert_eq!(heap.inspect(&a, |x| *x + 1), Ok(6));
    assert_eq!(heap.borrow_state(&a), BorrowState::Shared(1));
    heap.release(read);
}

#[test]
fn a_cell_is_released_when_both_counts_are_zero() {
    let mut heap: Heap<i32> = Heap::new();
    let a = heap.allocate(5);
    let w = heap.downgrade(&a);
    assert!(!heap.is_released(0));
    heap.drop_handle(a);
    assert!(!heap.is_released(0));
    heap.drop_weak(w);
    assert!(heap.is_released(0));
    let b = heap.allocate(6);
    assert_eq!(b.index(), 1);
    assert!(heap.is_released(0));
    assert!(!heap.is_released(1));
}
