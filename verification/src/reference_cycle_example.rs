//! Two worked examples: a list that is spliced into a cycle, and a tree
//! whose child outlives its parent.

use crate::cascade::{lemma_drop_shared, unravel};
use crate::cell::CellView;
use crate::heap::Heap;
use crate::ledger::{external, lemma_externals_from_wf};
use crate::linked::{
    chain_len, chain_values, lemma_splice_closes_cycle, walk, Link, LinkedNode, TraversalError,
};
use crate::refs::{CellRef, Handle, Holder, WeakHandle};
use crate::tree::{resolved_parent, TreeNode, TreeNodeView};
use vstd::prelude::*;

verus! {

/// What the tree example observes.
#[derive(Clone, Copy, Debug, PartialEq, Eq)]
pub struct TreeTrace {
    /// The counts of the leaf when it has just been made.
    pub leaf_strong_initial: usize,
    pub leaf_weak_initial: usize,
    /// The number in the leaf's parent, as far as the parent link resolves,
    /// before the leaf is attached.
    pub leaf_parent_initial: Option<i32>,
    /// The counts of the branch and of the leaf once the leaf is attached.
    pub branch_strong: usize,
    pub branch_weak: usize,
    pub leaf_strong_attached: usize,
    pub leaf_weak_attached: usize,
    /// The number in the leaf's parent while the branch exists.
    pub leaf_parent_attached: Option<i32>,
    /// The number in the leaf's parent once the branch is gone.
    pub leaf_parent_final: Option<i32>,
    /// The counts of the leaf once the branch is gone.
    pub leaf_strong_final: usize,
    pub leaf_weak_final: usize,
}

/// The trace that the tree example yields.
pub open spec fn tree_trace() -> TreeTrace {
    TreeTrace {
        leaf_strong_initial: 1,
        leaf_weak_initial: 0,
        leaf_parent_initial: None,
        branch_strong: 1,
        branch_weak: 1,
        leaf_strong_attached: 2,
        leaf_weak_attached: 0,
        leaf_parent_attached: Some(5),
        leaf_parent_final: None,
        leaf_strong_final: 1,
        leaf_weak_final: 0,
    }
}

/// Resolves the parent link of `node` and reads the number in the parent.
/// The handle that the resolution yields is dropped again, so that no count
/// is changed.
fn resolve_parent(heap: &mut Heap<TreeNode>, node: &Handle) -> (found: Option<i32>)
    requires
        old(heap).wf(),
        old(heap).is_live(node),
        old(heap)@[node.id() as int].value->Some_0.parent matches Some(w) ==> old(
            heap,
        )@[w.id() as int].strong < usize::MAX,
    ensures
        final(heap).wf(),
        final(heap)@ == old(heap)@,
        found == match resolved_parent(old(heap)@, node.id() as int) {
            Some(p) => Some(old(heap)@[p].value->Some_0.value),
            None => None,
        },
        forall|t: int, weak: bool| #[trigger]
            external(final(heap)@, t, weak) == external(old(heap)@, t, weak),
{
    let ghost s = heap@;
    match heap.get_parent(node) {
        Some(parent) => {
            let value = heap.value_of(&parent);
            proof {
                let id = parent.id() as int;
                lemma_externals_from_wf(s);
                lemma_drop_shared(heap@, parent);
                assert(heap@.update(id, heap@[id].with_drop()) =~= s);
            }
            heap.drop_handle(parent);
            Some(value)
        },
        None => {
            assert(heap@ =~= s);
            None
        },
    }
}

/// Makes a leaf, makes it the child of a branch and the branch its parent,
/// lets the branch go and looks at the counts on the way. The leaf's weak link does not keep the branch
/// alive, and the leaf survives the branch.
#[verifier::rlimit(50)]
pub fn run_second_example() -> (trace: TreeTrace)
    ensures
        trace == tree_trace(),
{
    let mut heap: Heap<TreeNode> = Heap::new();
    let leaf = heap.new_node(3);
    let leaf_strong_initial = heap.strong_count(&leaf);
    let leaf_weak_initial = heap.weak_count(&leaf);
    let leaf_parent_initial = resolve_parent(&mut heap, &leaf);
    let branch = heap.new_node(5);
    let added = heap.add_child(&branch, &leaf);
    let linked = heap.set_parent(&leaf, &branch);
    proof {
        branch.lemma_as_weak();
        assert(heap@[0] == CellView {
            value: Some(
                TreeNodeView {
                    value: 3,
                    parent: Some(branch.as_weak()),
                    children: Seq::<Handle>::empty(),
                },
            ),
            strong: 2,
            weak: 0,
            ..heap@[0]
        });
        assert(heap@[1].value->Some_0.children =~= seq![leaf]);
    }
    let branch_strong = heap.strong_count(&branch);
    let branch_weak = heap.weak_count(&branch);
    let leaf_strong_attached = heap.strong_count(&leaf);
    let leaf_weak_attached = heap.weak_count(&leaf);
    let leaf_parent_attached = resolve_parent(&mut heap, &leaf);
    let ghost before = heap@;
    heap.drop_handle(branch);
    proof {
        // The branch goes, and with it the handle to the leaf that it held.
        let without_branch = before.update(1, before[1].with_drop());
        let pending = seq![branch].drop_last() + before[1].value->Some_0.strong_refs();
        assert(pending =~= seq![leaf]);
        assert(pending.drop_last() =~= Seq::<Handle>::empty());
        let released = before[1].value->Some_0.weak_refs() + Seq::<WeakHandle>::empty();
        assert(released =~= Seq::<WeakHandle>::empty());
        reveal_with_fuel(unravel, 3);
        assert(heap@ == without_branch.update(0, without_branch[0].with_drop()));
    }
    let leaf_parent_final = resolve_parent(&mut heap, &leaf);
    let leaf_strong_final = heap.strong_count(&leaf);
    let leaf_weak_final = heap.weak_count(&leaf);
    TreeTrace {
        leaf_strong_initial,
        leaf_weak_initial,
        leaf_parent_initial,
        branch_strong,
        branch_weak,
        leaf_strong_attached,
        leaf_weak_attached,
        leaf_parent_attached,
        leaf_parent_final,
        leaf_strong_final,
        leaf_weak_final,
    }
}

/// What the list example observes.
#[derive(Debug)]
pub struct CycleTrace {
    /// The strong count of the first node when it has just been made.
    pub a_initial: usize,
    /// The strong counts once a second node is followed by the first.
    pub a_after_b: usize,
    pub b_initial: usize,
    /// What follows the first node when it has just been made: the numbers
    /// of the nodes after it.
    pub a_next_initial: Result<Vec<i32>, TraversalError>,
    /// What follows the second node before the splice.
    pub b_next_initial: Result<Vec<i32>, TraversalError>,
    /// The number of nodes of the list that begins at the second node.
    pub length_before_splice: Result<usize, TraversalError>,
    /// The strong counts once the first node is followed by the second.
    pub a_after_splice: usize,
    pub b_after_splice: usize,
    /// What a traversal from the first node finds then.
    pub length_after_splice: Result<usize, TraversalError>,
}

/// Whether `trace` is what the list example yields: nothing follows the
/// first node at first, and the first node with its five follows the
/// second; the counts are one, two, one, and two and two after the splice;
/// the list has two nodes before the splice and a cycle after it.
pub open spec fn is_cycle_trace(trace: CycleTrace) -> bool {
    &&& trace.a_initial == 1
    &&& trace.a_next_initial matches Ok(v) && v@ == Seq::<i32>::empty()
    &&& trace.a_after_b == 2
    &&& trace.b_initial == 1
    &&& trace.b_next_initial matches Ok(v) && v@ == seq![5i32]
    &&& trace.length_before_splice == Ok::<usize, TraversalError>(2)
    &&& trace.a_after_splice == 2
    &&& trace.b_after_splice == 2
    &&& trace.length_after_splice == Err::<usize, TraversalError>(TraversalError::Cycle)
}

/// Makes a node, a second node that is followed by the first, and then
/// splices the second in behind the first. Each node now keeps the other
/// alive, and a traversal reports the cycle.
#[verifier::rlimit(50)]
pub fn run_first_example() -> (trace: CycleTrace)
    ensures
        is_cycle_trace(trace),
{
    let mut heap: Heap<LinkedNode> = Heap::new();
    let a = heap.cons(5, Link::End);
    let a_initial = heap.strong_count(&a);
    let a_next_initial = heap.following(&a);
    let a_again = heap.clone_handle(&a);
    let b = heap.cons(10, Link::Next(a_again));
    let a_after_b = heap.strong_count(&a);
    let b_initial = heap.strong_count(&b);
    proof {
        Handle::lemma_same_cell(a_again, a);
        reveal_with_fuel(chain_len, 3);
        reveal_with_fuel(chain_values, 2);
    }
    let b_next_initial = heap.following(&b);
    let length_before_splice = heap.length(&b);
    proof {
        // The second node leads to the first: splicing it in behind the
        // first closes a cycle.
        reveal_with_fuel(walk, 2);
        lemma_splice_closes_cycle(heap@, 0, b, 1);
    }
    let former = heap.splice(&a, &b);
    let a_after_splice = heap.strong_count(&a);
    let b_after_splice = heap.strong_count(&b);
    let length_after_splice = heap.length(&a);
    CycleTrace {
        a_initial,
        a_next_initial,
        a_after_b,
        b_initial,
        b_next_initial,
        length_before_splice,
        a_after_splice,
        b_after_splice,
        length_after_splice,
    }
}

/// Both examples, one after the other.
pub fn run() -> (traces: (CycleTrace, TreeTrace))
    ensures
        is_cycle_trace(traces.0),
        traces.1 == tree_trace(),
{
    let first = run_first_example();
    let second = run_second_example();
    (first, second)
}

} // verus!
