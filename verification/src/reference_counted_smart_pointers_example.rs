//! A worked example: three lists that share one tail, and the strong count
//! of that tail as the lists come and go.

use crate::cascade::unravel;
use crate::heap::Heap;
use crate::linked::{Link, LinkedNode};
use crate::refs::{CellRef, Handle, Holder, WeakHandle};
use vstd::prelude::*;

verus! {

/// The strong count of the shared list at four moments.
#[derive(Clone, Copy, Debug, PartialEq, Eq, Structural)]
pub struct SharingTrace {
    /// When the shared list has just been made.
    pub after_a: usize,
    /// When a second list has been put in front of it.
    pub after_b: usize,
    /// When a third list has been put in front of it as well.
    pub after_c: usize,
    /// When the third list is gone again.
    pub after_c_dropped: usize,
}

/// The trace that the example yields.
pub open spec fn sharing_trace() -> SharingTrace {
    SharingTrace { after_a: 1, after_b: 2, after_c: 3, after_c_dropped: 2 }
}

/// Makes the list of five and ten, puts three in front of it and then four,
/// each time sharing the list, and lets the list with the four go.
#[verifier::rlimit(50)]
pub fn run() -> (trace: SharingTrace)
    ensures
        trace == sharing_trace(),
{
    let mut heap: Heap<LinkedNode> = Heap::new();
    let ten = heap.cons(10, Link::End);
    let a = heap.cons(5, Link::Next(ten));
    let after_a = heap.strong_count(&a);
    let shared = heap.clone_handle(&a);
    let b = heap.cons(3, Link::Next(shared));
    let after_b = heap.strong_count(&a);
    let shared = heap.clone_handle(&a);
    let c = heap.cons(4, Link::Next(shared));
    let after_c = heap.strong_count(&a);
    let ghost before = heap@;
    heap.drop_handle(c);
    proof {
        // The list with the four goes, and with it its handle to the shared list.
        Handle::lemma_same_cell(shared, a);
        let without_c = before.update(3, before[3].with_drop());
        let pending = seq![c].drop_last() + before[3].value->Some_0.strong_refs();
        assert(pending =~= seq![a]);
        assert(pending.drop_last() =~= Seq::<Handle>::empty());
        let released = before[3].value->Some_0.weak_refs() + Seq::<WeakHandle>::empty();
        assert(released =~= Seq::<WeakHandle>::empty());
        reveal_with_fuel(unravel, 3);
        assert(heap@ == without_c.update(1, without_c[1].with_drop()));
    }
    let after_c_dropped = heap.strong_count(&a);
    SharingTrace { after_a, after_b, after_c, after_c_dropped }
}

} // verus!
