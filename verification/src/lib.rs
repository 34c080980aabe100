//! Shared ownership by counting, interior mutability by runtime-checked
//! views, and weak references that break cycles, on a heap of cells that
//! are referred to by handles.
//!
//! - [`cell`]: the state of one cell (payload, strong and weak count, views)
//!   and the steps that each operation takes on it.
//! - [`refs`]: strong and weak handles, and what a payload tells the heap
//!   about the handles it holds.
//! - [`ledger`]: the accounts of a heap: which handles are held by payloads
//!   and which outside the heap, and when a heap is well formed.
//! - [`heap`]: the heap itself: allocation, counting, views.
//! - [`cascade`]: dropping a handle, with everything that this destroys.
//! - [`linked`]: lists that share tails, splicing, and traversals that
//!   report cycles.
//! - [`tree`]: trees with strong links to children and weak links to
//!   parents, and when their strong links are free of cycles.
//! - [`limit_tracker`]: a quota tracker that notifies a messenger.
//! - [`my_box`], [`example_with_recursive_type`],
//!   [`reference_counted_smart_pointers_example`], [`refcell_example`],
//!   [`reference_cycle_example`]: worked examples, each of which returns
//!   what it observes.

pub mod cascade;
pub mod cell;
pub mod example_with_recursive_type;
pub mod heap;
pub mod ledger;
pub mod limit_tracker;
pub mod linked;
pub mod my_box;
pub mod refcell_example;
pub mod reference_counted_smart_pointers_example;
pub mod reference_cycle_example;
pub mod refs;
pub mod tree;
