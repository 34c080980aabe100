//! Trees whose nodes live in shared cells: a node owns its children through
//! strong handles and knows its parent through a weak one, so that a child
//! never keeps its parent alive.

use crate::cascade::{after_drop, lemma_drop_keeps_accounts};
use crate::cell::{BorrowError, BorrowState, CellView};
use crate::heap::Heap;
use crate::ledger::{
    external, externals_shift, heap_wf, held, in_degree, lemma_externals_from_wf,
    lemma_held_weak_is_counted, lemma_in_degree_same_payload, lemma_in_degree_update,
    lemma_plain_fits, lemma_wf_from_externals, one_at,
};
use crate::refs::{hits, lemma_hits_push, CellRef, Handle, Holder, Payload, WeakHandle};
use vstd::prelude::*;

verus! {

/// A tree node: a number, the weak link to the parent and the strong links
/// to the children, in the order in which they were attached.
#[derive(Debug)]
pub struct TreeNode {
    /// The number stored in the node.
    pub value: i32,
    /// The weak link to the parent, if the node has been attached.
    pub parent: Option<WeakHandle>,
    /// The strong links to the children.
    pub children: Vec<Handle>,
}

/// A tree node as the contracts see it.
pub struct TreeNodeView {
    /// The number stored in the node.
    pub value: i32,
    /// The weak link to the parent, if the node has been attached.
    pub parent: Option<WeakHandle>,
    /// The strong links to the children.
    pub children: Seq<Handle>,
}

impl View for TreeNode {
    type V = TreeNodeView;

    open spec fn view(&self) -> TreeNodeView {
        TreeNodeView { value: self.value, parent: self.parent, children: self.children@ }
    }
}

impl Holder for TreeNodeView {
    open spec fn strong_refs(&self) -> Seq<Handle> {
        self.children
    }

    open spec fn weak_refs(&self) -> Seq<WeakHandle> {
        match self.parent {
            Some(w) => seq![w],
            None => Seq::empty(),
        }
    }
}

impl Payload for TreeNode {
    fn into_refs(self) -> (refs: (Vec<Handle>, Vec<WeakHandle>)) {
        let mut weak: Vec<WeakHandle> = Vec::new();
        match self.parent {
            Some(w) => {
                weak.push(w);
                assert(weak@ =~= seq![w]);
            },
            None => {},
        }
        (self.children, weak)
    }
}

impl TreeNodeView {
    /// A node without parent and without children.
    pub open spec fn single(value: i32) -> TreeNodeView {
        TreeNodeView { value, parent: None, children: Seq::empty() }
    }

    /// One if the parent link leads to the cell `target`, else zero.
    pub open spec fn parent_is(self, target: int) -> nat {
        match self.parent {
            Some(w) => if w.id() == target {
                1
            } else {
                0
            },
            None => 0,
        }
    }

    /// The parent link is the one weak handle of a node.
    pub proof fn lemma_parent_is(self, target: int)
        ensures
            hits(self.weak_refs(), target) == self.parent_is(target),
    {
        match self.parent {
            Some(w) => {
                lemma_hits_push(Seq::<WeakHandle>::empty(), w, target);
                assert(Seq::<WeakHandle>::empty().push(w) =~= seq![w]);
            },
            None => {},
        }
    }
}

impl Heap<TreeNode> {
    /// Allocates a node without parent and without children.
    pub fn new_node(&mut self, value: i32) -> (h: Handle)
        requires
            old(self).wf(),
        ensures
            final(self).wf(),
            final(self)@ == old(self)@.push(CellView::fresh(TreeNodeView::single(value))),
            h.id() == old(self)@.len(),
            externals_shift(final(self)@, old(self)@, h.id() as int, false, 1),
            acyclic(old(self)@) ==> acyclic(final(self)@),
    {
        let node = TreeNode::new(value);
        proof {
            lemma_plain_fits(old(self)@, node@);
            if acyclic(old(self)@) {
                lemma_new_node_keeps_acyclic(old(self)@, value);
            }
        }
        self.allocate(node)
    }

    /// The number stored in a node.
    pub fn value_of(&self, node: &Handle) -> (value: i32)
        requires
            self.wf(),
            self.is_live(node),
        ensures
            self@[node.id() as int].value->Some_0.value == value,
    {
        assert(self@[node.id() as int].wf());
        self.payload(node.index()).value
    }

    /// The number of children of a node.
    pub fn child_count(&self, node: &Handle) -> (n: usize)
        requires
            self.wf(),
            self.is_live(node),
        ensures
            self@[node.id() as int].value->Some_0.children.len() == n,
    {
        assert(self@[node.id() as int].wf());
        self.payload(node.index()).children.len()
    }

    /// The number stored in the parent of a node, if the parent link
    /// resolves: if the node has a parent link and the parent still exists.
    /// No handle is made, and no count changes.
    pub fn parent_value(&self, node: &Handle) -> (value: Option<i32>)
        requires
            self.wf(),
            self.is_live(node),
        ensures
            value == match resolved_parent(self@, node.id() as int) {
                Some(p) => Some(self@[p].value->Some_0.value),
                None => None,
            },
    {
        assert(self@[node.id() as int].wf());
        match &self.payload(node.index()).parent {
            Some(w) => {
                proof {
                    let v = self@[node.id() as int].value->Some_0;
                    assert(v.weak_refs() =~= seq![v.parent->Some_0]);
                    lemma_held_weak_is_counted(self@, node.id() as int, 0);
                    assert(self@[w.id() as int].wf());
                }
                if self.observed_strong_count(w) > 0 {
                    Some(self.payload(w.index()).value)
                } else {
                    None
                }
            },
            None => None,
        }
    }

    /// Resolves the parent link of a node: a new strong handle to the
    /// parent, if the node has a parent link and the parent still exists.
    pub fn get_parent(&mut self, node: &Handle) -> (parent: Option<Handle>)
        requires
            old(self).wf(),
            old(self).is_live(node),
            old(self)@[node.id() as int].value->Some_0.parent matches Some(w) ==> old(
                self,
            )@[w.id() as int].strong < usize::MAX,
        ensures
            final(self).wf(),
            match old(self)@[node.id() as int].value->Some_0.parent {
                Some(w) => {
                    &&& w.id() < old(self)@.len()
                    &&& final(self)@ == old(self)@.update(
                        w.id() as int,
                        old(self)@[w.id() as int].with_upgrade(),
                    )
                    &&& parent is Some <==> old(self)@[w.id() as int].strong > 0
                    &&& parent is Some <==> resolved_parent(old(self)@, node.id() as int) is Some
                    &&& parent is Some ==> parent->Some_0.id() == w.id()
                    &&& externals_shift(
                        final(self)@,
                        old(self)@,
                        w.id() as int,
                        false,
                        if parent is Some {
                            1
                        } else {
                            0
                        },
                    )
                },
                None => parent is None && final(self)@ == old(self)@,
            },
    {
        let id = node.index();
        assert(self@[id as int].wf());
        let target = match &self.payload(id).parent {
            Some(w) => Some(w.index()),
            None => None,
        };
        match target {
            Some(t) => {
                proof {
                    let v = self@[id as int].value->Some_0;
                    assert(v.weak_refs() =~= seq![v.parent->Some_0]);
                    lemma_held_weak_is_counted(self@, id as int, 0);
                }
                self.upgrade_cell(t)
            },
            None => None,
        }
    }

    /// Attaches `child` to `parent`: a new strong handle to the child is
    /// appended to the parent's children, and the child's parent link
    /// becomes a new weak handle to the parent; the weak handle that the
    /// link held before is given up. Attaching twice appends twice.
    ///
    /// Both nodes are written to: nothing is changed, and the conflict is
    /// returned, if a view of either is outstanding. The handles held
    /// outside the heap stay as they are.
    ///
    /// A node can be attached to itself or to a node below it; the strong
    /// links then form a cycle, which keeps its nodes alive. Where the
    /// parent is not reached from the child, strong links that were free of
    /// cycles stay so.
    pub fn attach_child(&mut self, parent: &Handle, child: &Handle) -> (r: Result<
        (),
        BorrowError,
    >)
        requires
            old(self).wf(),
            old(self).is_live(parent),
            old(self).is_live(child),
            old(self)@[child.id() as int].strong < usize::MAX,
            old(self)@[parent.id() as int].weak < usize::MAX,
        ensures
            final(self).wf(),
            match attach_conflict(old(self)@, parent.id() as int, child.id() as int) {
                Some(e) => r == Err::<(), BorrowError>(e) && final(self)@ == old(self)@,
                None => {
                    &&& r == Ok::<(), BorrowError>(())
                    &&& final(self)@ == attached(old(self)@, *parent, *child)
                    &&& forall|t: int, weak: bool| #[trigger]
                        external(final(self)@, t, weak) == external(old(self)@, t, weak)
                    &&& acyclic(old(self)@) && !reaches(
                        old(self)@,
                        child.id() as int,
                        parent.id() as int,
                    ) ==> acyclic(final(self)@)
                },
            },
    {
        let ghost s0 = self@;
        let ghost p = parent.id() as int;
        let ghost c = child.id() as int;
        proof {
            if acyclic(s0) && !reaches(s0, c, p) {
                lemma_attach_keeps_acyclic(s0, *parent, *child);
            }
        }
        match self.borrow_state(parent).acquire_exclusive() {
            Err(e) => {
                return Err(e);
            },
            Ok(_) => {},
        }
        if parent.index() != child.index() {
            match self.borrow_state(child).acquire_exclusive() {
                Err(e) => {
                    return Err(e);
                },
                Ok(_) => {},
            }
        }
        // Neither node is viewed: both steps are granted.
        let _ = self.add_child(parent, child);
        let _ = self.set_parent(child, parent);
        proof {
            lemma_attach_in_two_steps(s0, *parent, *child);
        }
        Ok(())
    }

    /// Appends a new strong handle to `child` to the children of `parent`,
    /// and leaves the parent link of the child as it is. Nothing is
    /// changed, and the conflict is returned, if a view of the parent is
    /// outstanding.
    pub fn add_child(&mut self, parent: &Handle, child: &Handle) -> (r: Result<(), BorrowError>)
        requires
            old(self).wf(),
            old(self).is_live(parent),
            old(self).is_live(child),
            old(self)@[child.id() as int].strong < usize::MAX,
        ensures
            final(self).wf(),
            match old(self)@[parent.id() as int].borrow.try_exclusive() {
                Ok(_) => {
                    &&& r == Ok::<(), BorrowError>(())
                    &&& final(self)@ == with_child(old(self)@, *parent, *child)
                    &&& forall|t: int, weak: bool| #[trigger]
                        external(final(self)@, t, weak) == external(old(self)@, t, weak)
                },
                Err(e) => r == Err::<(), BorrowError>(e) && final(self)@ == old(self)@,
            },
    {
        let ghost s0 = self@;
        match self.borrow_state(parent).acquire_exclusive() {
            Err(e) => {
                return Err(e);
            },
            Ok(_) => {},
        }
        proof {
            lemma_externals_from_wf(s0);
        }
        let copy = self.clone_handle(child);
        let ghost s1 = self@;
        proof {
            Handle::lemma_same_cell(copy, *child);
            assert(external(s1, child.id() as int, false) == external(
                s0,
                child.id() as int,
                false,
            ) + 1);
        }
        self.push_child(parent.index(), copy);
        proof {
            assert forall|t: int, weak: bool| #[trigger]
                external(self@, t, weak) == external(s0, t, weak) by {
                assert(external(s1, t, weak) == external(s0, t, weak) + if !weak && t
                    == child.id() {
                    1int
                } else {
                    0int
                });
            }
        }
        Ok(())
    }

    /// Makes a new weak handle to `parent` the parent link of `child`, and
    /// gives up the weak handle that the link held before. Only weak counts
    /// change: the link is no owner. Nothing is changed, and the conflict is
    /// returned, if a view of the child is outstanding.
    #[verifier::rlimit(50)]
    pub fn set_parent(&mut self, child: &Handle, parent: &Handle) -> (r: Result<(), BorrowError>)
        requires
            old(self).wf(),
            old(self).is_live(parent),
            old(self).is_live(child),
            old(self)@[parent.id() as int].weak < usize::MAX,
        ensures
            final(self).wf(),
            match old(self)@[child.id() as int].borrow.try_exclusive() {
                Ok(_) => {
                    &&& r == Ok::<(), BorrowError>(())
                    &&& final(self)@ == with_parent(old(self)@, *parent, *child)
                    &&& forall|t: int, weak: bool| #[trigger]
                        external(final(self)@, t, weak) == external(old(self)@, t, weak)
                },
                Err(e) => r == Err::<(), BorrowError>(e) && final(self)@ == old(self)@,
            },
    {
        let ghost s0 = self@;
        let ghost p = parent.id() as int;
        let ghost c = child.id() as int;
        match self.borrow_state(child).acquire_exclusive() {
            Err(e) => {
                return Err(e);
            },
            Ok(_) => {},
        }
        proof {
            lemma_externals_from_wf(s0);
            assert(s0[c].wf());
        }
        let w = self.downgrade(parent);
        let ghost s1 = self@;
        let ghost old_child_node = s1[c].value->Some_0;
        proof {
            parent.lemma_as_weak();
            WeakHandle::lemma_same_cell(w, parent.as_weak());
            assert(external(s1, p, true) == external(s0, p, true) + 1);
        }
        let former_link = self.put_parent(child.index(), w);
        let ghost s2 = self@;
        proof {
            assert forall|t: int, weak: bool| #[trigger]
                external(s2, t, weak) == external(s0, t, weak) + if weak {
                    old_child_node.parent_is(t)
                } else {
                    0
                } by {
                assert(external(s1, t, weak) == external(s0, t, weak) + if weak && t == p {
                    1int
                } else {
                    0int
                });
            }
        }
        match former_link {
            Some(former_weak) => {
                proof {
                    assert(s0[c].value->Some_0.weak_refs() =~= seq![former_weak]);
                    lemma_held_weak_is_counted(s0, c, 0);
                    assert(external(s2, former_weak.id() as int, true) == external(
                        s0,
                        former_weak.id() as int,
                        true,
                    ) + 1);
                }
                self.drop_weak(former_weak);
            },
            None => {},
        }
        proof {
            assert forall|t: int, weak: bool| #[trigger]
                external(self@, t, weak) == external(s0, t, weak) by {
                assert(external(s2, t, weak) == external(s0, t, weak) + if weak {
                    old_child_node.parent_is(t)
                } else {
                    0
                });
            }
            assert(self@ =~= with_parent(s0, *parent, *child));
        }
        Ok(())
    }

    /// Appends the strong handle `copy` to the children of the node in the
    /// cell `node`.
    fn push_child(&mut self, node: usize, copy: Handle)
        requires
            old(self).wf(),
            node < old(self)@.len(),
            old(self)@[node as int].strong > 0,
            old(self).owns(&copy),
        ensures
            final(self).wf(),
            final(self)@ == old(self)@.update(
                node as int,
                old(self)@[node as int].with_value(
                    TreeNodeView {
                        children: old(self)@[node as int].value->Some_0.children.push(copy),
                        ..old(self)@[node as int].value->Some_0
                    },
                ),
            ),
            forall|t: int, weak: bool| #[trigger]
                external(final(self)@, t, weak) == external(old(self)@, t, weak) - if !weak && t
                    == copy.id() {
                    1int
                } else {
                    0int
                },
    {
        let ghost s = self@;
        let ghost id = node as int;
        let ghost current = s[id].value->Some_0;
        proof {
            assert(s[id].wf());
            lemma_externals_from_wf(s);
            self.lemma_fits(id, TreeNodeView::single(0), current);
        }
        let mut taken = self.swap_payload(node, TreeNode::new(0));
        let ghost s1 = self@;
        taken.children.push(copy);
        proof {
            assert(taken@ == TreeNodeView { children: current.children.push(copy), ..current });
            let s2 = s1.update(id, s1[id].with_value(taken@));
            assert forall|t: int, weak: bool| #[trigger]
                external(s2, t, weak) == external(s, t, weak) - if !weak && t == copy.id() {
                    1int
                } else {
                    0int
                } by {
                lemma_hits_push(current.children, copy, t);
                lemma_in_degree_update(s1, id, s1[id].with_value(taken@), t, weak);
                assert(external(s1, t, weak) == external(s, t, weak) + held(s[id], t, weak));
            }
            lemma_wf_from_externals(s2);
            assert(s2 =~= s.update(id, s[id].with_value(taken@)));
        }
        let _ = self.swap_payload(node, taken);
    }

    /// Makes the weak handle `w` the parent link of the node in the cell
    /// `node` and returns the link that was there.
    fn put_parent(&mut self, node: usize, w: WeakHandle) -> (former: Option<WeakHandle>)
        requires
            old(self).wf(),
            node < old(self)@.len(),
            old(self)@[node as int].strong > 0,
            old(self).owns_weak(&w),
        ensures
            final(self).wf(),
            former == old(self)@[node as int].value->Some_0.parent,
            final(self)@ == old(self)@.update(
                node as int,
                old(self)@[node as int].with_value(
                    TreeNodeView { parent: Some(w), ..old(self)@[node as int].value->Some_0 },
                ),
            ),
            forall|t: int, weak: bool| #[trigger]
                external(final(self)@, t, weak) == external(old(self)@, t, weak) + if weak {
                    old(self)@[node as int].value->Some_0.parent_is(t) - if t == w.id() {
                        1int
                    } else {
                        0int
                    }
                } else {
                    0int
                },
    {
        let ghost s = self@;
        let ghost id = node as int;
        let ghost current = s[id].value->Some_0;
        proof {
            assert(s[id].wf());
            lemma_externals_from_wf(s);
            self.lemma_fits(id, TreeNodeView::single(0), current);
        }
        let mut taken = self.swap_payload(node, TreeNode::new(0));
        let ghost s1 = self@;
        let former = taken.parent.take();
        taken.parent = Some(w);
        proof {
            assert(taken@ == TreeNodeView { parent: Some(w), ..current });
            let s2 = s1.update(id, s1[id].with_value(taken@));
            assert forall|t: int, weak: bool| #[trigger]
                external(s2, t, weak) == external(s, t, weak) + if weak {
                    current.parent_is(t) - if t == w.id() {
                        1int
                    } else {
                        0int
                    }
                } else {
                    0int
                } by {
                current.lemma_parent_is(t);
                taken@.lemma_parent_is(t);
                lemma_in_degree_update(s1, id, s1[id].with_value(taken@), t, weak);
                assert(external(s1, t, weak) == external(s, t, weak) + held(s[id], t, weak));
            }
            lemma_wf_from_externals(s2);
            assert(s2 =~= s.update(id, s[id].with_value(taken@)));
        }
        let _ = self.swap_payload(node, taken);
        former
    }

    /// A payload without handles fits into any cell: the heap
    /// stays well formed when it takes the place of the payload `current`.
    proof fn lemma_fits(&self, id: int, incoming: TreeNodeView, current: TreeNodeView)
        requires
            self.wf(),
            0 <= id < self@.len(),
            self@[id].value == Some(current),
            incoming.children.len() == 0,
            incoming.parent is None,
        ensures
            heap_wf(self@.update(id, self@[id].with_value(incoming))),
            forall|t: int, weak: bool| #[trigger]
                external(self@.update(id, self@[id].with_value(incoming)), t, weak) == external(
                    self@,
                    t,
                    weak,
                ) + held(self@[id], t, weak),
    {
        let s = self@;
        let s1 = s.update(id, s[id].with_value(incoming));
        lemma_externals_from_wf(s);
        assert(s[id].wf());
        assert forall|t: int, weak: bool| #[trigger]
            external(s1, t, weak) == external(s, t, weak) + held(s[id], t, weak) by {
            lemma_in_degree_update(s, id, s[id].with_value(incoming), t, weak);
        }
        lemma_wf_from_externals(s1);
    }
}

impl TreeNode {
    /// A node without parent and without children.
    pub fn new(value: i32) -> (node: TreeNode)
        ensures
            node@ == TreeNodeView::single(value),
    {
        TreeNode { value, parent: None, children: Vec::new() }
    }
}

/// The cell of the parent of the node in the cell `node`, if the parent
/// link resolves: if the node has a parent link, and the parent has a
/// strong handle left, however many weak handles there are.
pub open spec fn resolved_parent(s: Seq<CellView<TreeNodeView>>, node: int) -> Option<int> {
    match s[node].value->Some_0.parent {
        Some(w) => if w.id() < s.len() && s[w.id() as int].strong > 0 {
            Some(w.id() as int)
        } else {
            None
        },
        None => None,
    }
}

/// The conflict that keeps `child` from being attached to `parent`, if a
/// view of either is outstanding: that of the parent is found first.
pub open spec fn attach_conflict(s: Seq<CellView<TreeNodeView>>, parent: int, child: int) -> Option<
    BorrowError,
> {
    match s[parent].borrow.try_exclusive() {
        Err(e) => Some(e),
        Ok(_) => if child != parent {
            match s[child].borrow.try_exclusive() {
                Err(e) => Some(e),
                Ok(_) => None,
            }
        } else {
            None
        },
    }
}

/// The heap after a new strong handle to `child` has been appended to the
/// children of `parent`.
pub open spec fn with_child(s: Seq<CellView<TreeNodeView>>, parent: Handle, child: Handle) -> Seq<
    CellView<TreeNodeView>,
> {
    let p = parent.id() as int;
    let c = child.id() as int;
    let s1 = s.update(c, s[c].with_clone());
    s1.update(
        p,
        s1[p].with_value(
            TreeNodeView {
                children: s1[p].value->Some_0.children.push(child),
                ..s1[p].value->Some_0
            },
        ),
    )
}

/// The heap after the parent link of `child` has become a new weak handle
/// to `parent`, and the weak handle that the link held has been given up.
pub open spec fn with_parent(s: Seq<CellView<TreeNodeView>>, parent: Handle, child: Handle) -> Seq<
    CellView<TreeNodeView>,
> {
    let p = parent.id() as int;
    let c = child.id() as int;
    let former = s[c].value->Some_0.parent;
    let s1 = s.update(p, s[p].with_downgrade());
    let s2 = s1.update(
        c,
        s1[c].with_value(TreeNodeView { parent: Some(parent.as_weak()), ..s1[c].value->Some_0 }),
    );
    match former {
        Some(w) => s2.update(w.id() as int, s2[w.id() as int].with_weak_drop()),
        None => s2,
    }
}

/// To attach a child is to add it to the children of the parent and then
/// to set its parent link.
pub proof fn lemma_attach_in_two_steps(
    s: Seq<CellView<TreeNodeView>>,
    parent: Handle,
    child: Handle,
)
    requires
        parent.id() < s.len(),
        child.id() < s.len(),
    ensures
        attached(s, parent, child) == with_parent(with_child(s, parent, child), parent, child),
{
    assert(attached(s, parent, child) =~= with_parent(
        with_child(s, parent, child),
        parent,
        child,
    ));
}

/// The parent link is no owner. Setting it changes no strong count, no
/// number and no list of children; it raises the weak count of the parent
/// by one and lowers that of the former parent by one, and no other.
pub proof fn lemma_parent_link_is_weak(
    s: Seq<CellView<TreeNodeView>>,
    parent: Handle,
    child: Handle,
)
    requires
        heap_wf(s),
        parent.id() < s.len(),
        child.id() < s.len(),
        s[child.id() as int].strong > 0,
    ensures
        with_parent(s, parent, child).len() == s.len(),
        forall|i: int|
            0 <= i < s.len() ==> {
                &&& (#[trigger] with_parent(s, parent, child)[i]).strong == s[i].strong
                &&& with_parent(s, parent, child)[i].borrow == s[i].borrow
                &&& with_parent(s, parent, child)[i].weak == s[i].weak + one_at(
                    i,
                    parent.id() as int,
                ) - s[child.id() as int].value->Some_0.parent_is(i)
                &&& with_parent(s, parent, child)[i].value is Some <==> s[i].value is Some
                &&& with_parent(s, parent, child)[i].value->Some_0.value
                    == s[i].value->Some_0.value
                &&& with_parent(s, parent, child)[i].value->Some_0.children
                    == s[i].value->Some_0.children
                &&& i != child.id() ==> with_parent(s, parent, child)[i].value == s[i].value
            },
        with_parent(s, parent, child)[child.id() as int].value->Some_0.parent == Some(
            parent.as_weak(),
        ),
{
    let c = child.id() as int;
    assert(s[c].wf());
    match s[c].value->Some_0.parent {
        Some(w) => {
            assert(s[c].value->Some_0.weak_refs() =~= seq![w]);
            lemma_held_weak_is_counted(s, c, 0);
        },
        None => {},
    }
}

/// The heap after `child` has been attached to `parent`.
pub open spec fn attached(s: Seq<CellView<TreeNodeView>>, parent: Handle, child: Handle) -> Seq<
    CellView<TreeNodeView>,
> {
    let p = parent.id() as int;
    let c = child.id() as int;
    let former = s[c].value->Some_0.parent;
    // the child has one more strong handle, held by the parent
    let s1 = s.update(c, s[c].with_clone());
    let s2 = s1.update(
        p,
        s1[p].with_value(
            TreeNodeView {
                children: s1[p].value->Some_0.children.push(child),
                ..s1[p].value->Some_0
            },
        ),
    );
    // the parent has one more weak handle, held by the child
    let s3 = s2.update(p, s2[p].with_downgrade());
    let s4 = s3.update(
        c,
        s3[c].with_value(TreeNodeView { parent: Some(parent.as_weak()), ..s3[c].value->Some_0 }),
    );
    // the weak handle that the child held before is gone
    match former {
        Some(w) => s4.update(w.id() as int, s4[w.id() as int].with_weak_drop()),
        None => s4,
    }
}

/// Attaching a child keeps the accounts of a well-formed heap: the heap
/// stays well formed, and every cell has as many handles outside the heap
/// as before. The new strong handle to the child and the new weak handle to
/// the parent are both inside the heap.
pub proof fn lemma_attached_keeps_accounts(
    s: Seq<CellView<TreeNodeView>>,
    parent: Handle,
    child: Handle,
)
    requires
        heap_wf(s),
        parent.id() < s.len(),
        child.id() < s.len(),
        s[parent.id() as int].strong > 0,
        s[child.id() as int].strong > 0,
    ensures
        heap_wf(attached(s, parent, child)),
        attached(s, parent, child).len() == s.len(),
        forall|t: int, weak: bool| #[trigger]
            external(attached(s, parent, child), t, weak) == external(s, t, weak),
        forall|i: int|
            0 <= i < s.len() ==> {
                &&& (#[trigger] attached(s, parent, child)[i]).borrow == s[i].borrow
                &&& attached(s, parent, child)[i].strong == s[i].strong + one_at(
                    i,
                    child.id() as int,
                )
                &&& i != parent.id() && i != child.id() ==> attached(s, parent, child)[i].value
                    == s[i].value
            },
        forall|i: int|
            0 <= i < s.len() && i != parent.id() ==> (#[trigger] attached(
                s,
                parent,
                child,
            )[i]).value->Some_0.children == s[i].value->Some_0.children,
        forall|i: int|
            0 <= i < s.len() ==> ((#[trigger] attached(s, parent, child)[i]).value is Some
                <==> s[i].value is Some),
        attached(s, parent, child)[child.id() as int].value->Some_0.parent == Some(
            parent.as_weak(),
        ),
        attached(s, parent, child)[parent.id() as int].value->Some_0.children
            == s[parent.id() as int].value->Some_0.children.push(child),
{
    let p = parent.id() as int;
    let c = child.id() as int;
    parent.lemma_as_weak();
    lemma_externals_from_wf(s);
    assert(s[p].wf());
    assert(s[c].wf());
    let former = s[c].value->Some_0.parent;
    let s1 = s.update(c, s[c].with_clone());
    lemma_in_degree_same_payload(s, c, s[c].with_clone());
    let grown = TreeNodeView {
        children: s1[p].value->Some_0.children.push(child),
        ..s1[p].value->Some_0
    };
    let s2 = s1.update(p, s1[p].with_value(grown));
    assert forall|t: int, weak: bool| #[trigger]
        external(s2, t, weak) == external(s, t, weak) by {
        lemma_in_degree_update(s1, p, s1[p].with_value(grown), t, weak);
        lemma_hits_push(s1[p].value->Some_0.children, child, t);
        assert(in_degree(s1, t, weak) == in_degree(s, t, weak));
    }
    let s3 = s2.update(p, s2[p].with_downgrade());
    lemma_in_degree_same_payload(s2, p, s2[p].with_downgrade());
    let linked = TreeNodeView { parent: Some(parent.as_weak()), ..s3[c].value->Some_0 };
    let s4 = s3.update(c, s3[c].with_value(linked));
    assert forall|t: int, weak: bool| #[trigger]
        external(s4, t, weak) == external(s, t, weak) + if weak {
            s[c].value->Some_0.parent_is(t)
        } else {
            0
        } by {
        lemma_in_degree_update(s3, c, s3[c].with_value(linked), t, weak);
        s3[c].value->Some_0.lemma_parent_is(t);
        linked.lemma_parent_is(t);
        assert(in_degree(s3, t, weak) == in_degree(s2, t, weak));
        assert(external(s2, t, weak) == external(s, t, weak));
    }
    let s5 = attached(s, parent, child);
    match former {
        Some(w) => {
            let o = w.id() as int;
            assert(s[c].value->Some_0.weak_refs() =~= seq![w]);
            lemma_held_weak_is_counted(s, c, 0);
            lemma_in_degree_same_payload(s4, o, s4[o].with_weak_drop());
            assert forall|t: int, weak: bool| #[trigger]
                external(s5, t, weak) == external(s, t, weak) by {
                assert(in_degree(s5, t, weak) == in_degree(s4, t, weak));
                assert(external(s4, t, weak) == external(s, t, weak) + if weak {
                    s[c].value->Some_0.parent_is(t)
                } else {
                    0
                });
            }
        },
        None => {
            assert forall|t: int, weak: bool| #[trigger]
                external(s5, t, weak) == external(s, t, weak) by {
                assert(external(s4, t, weak) == external(s, t, weak) + if weak {
                    s[c].value->Some_0.parent_is(t)
                } else {
                    0
                });
            }
        },
    }
    assert forall|i: int| 0 <= i < s.len() implies {
        &&& (#[trigger] s5[i]).borrow == s[i].borrow
        &&& s5[i].strong == s[i].strong + one_at(i, c)
        &&& i != p && i != c ==> s5[i].value == s[i].value
        &&& s5[i].value == s4[i].value
    } by {
        assert(s4[i].borrow == s[i].borrow);
        assert(s4[i].strong == s[i].strong + one_at(i, c));
    }
    assert forall|i: int| 0 <= i < s5.len() implies (#[trigger] s5[i]).wf() by {
        assert(s[i].wf());
    }
    assert forall|i: int|
        0 <= i < s5.len() && (#[trigger] s5[i]).borrow != BorrowState::Unborrowed implies external(
        s5,
        i,
        false,
    ) >= 1 by {
        assert(s[i].borrow != BorrowState::Unborrowed);
        assert(external(s5, i, false) == external(s, i, false));
    }
    assert forall|t: int, weak: bool| #[trigger] external(s5, t, weak) >= 0 by {
        assert(external(s5, t, weak) == external(s, t, weak));
    }
    lemma_wf_from_externals(s5);
}

/// A child that is held outside the heap outlives its parent. Once a child
/// is attached and the one strong handle to the parent is dropped, the
/// parent's payload is gone; the child has its payload, with the link to
/// the parent in it; and that link no longer resolves, although the weak
/// handle in it still counts for the parent.
pub proof fn lemma_child_outlives_parent(
    s: Seq<CellView<TreeNodeView>>,
    parent: Handle,
    child: Handle,
)
    requires
        heap_wf(s),
        parent.id() < s.len(),
        child.id() < s.len(),
        parent.id() != child.id(),
        s[parent.id() as int].strong == 1,
        s[parent.id() as int].borrow == BorrowState::Unborrowed,
        external(s, parent.id() as int, false) == 1,
        external(s, child.id() as int, false) >= 1,
    ensures
        ({
            let attached = attached(s, parent, child);
            let orphaned = after_drop(attached, parent);
            &&& heap_wf(orphaned)
            &&& orphaned[parent.id() as int].strong == 0
            &&& orphaned[parent.id() as int].value is None
            &&& orphaned[parent.id() as int].weak >= 1
            &&& orphaned[parent.id() as int].with_upgrade() == orphaned[parent.id() as int]
            &&& orphaned[child.id() as int].strong >= 1
            &&& orphaned[child.id() as int].value == attached[child.id() as int].value
            &&& orphaned[child.id() as int].value->Some_0.parent == Some(parent.as_weak())
        }),
{
    let p = parent.id() as int;
    let c = child.id() as int;
    let attached = attached(s, parent, child);
    lemma_externals_from_wf(s);
    assert(s[c].wf());
    assert(s[p].wf());
    lemma_attached_keeps_accounts(s, parent, child);
    assert(external(attached, p, false) == external(s, p, false));
    assert(external(attached, c, false) == external(s, c, false));
    assert(attached[p].strong == s[p].strong + one_at(p, c));
    assert(attached[p].borrow == s[p].borrow);
    assert(attached[c].strong == s[c].strong + one_at(c, c));
    lemma_drop_keeps_accounts(attached, parent);
    let orphaned = after_drop(attached, parent);
    assert(external(orphaned, c, false) == external(attached, c, false) - one_at(c, p));
    assert(orphaned[p].wf());
    assert(orphaned[c].wf());
    // The weak handle in the child's link is held inside the heap.
    parent.lemma_as_weak();
    assert(orphaned[c].value->Some_0.weak_refs() =~= seq![parent.as_weak()]);
    lemma_held_weak_is_counted(orphaned, c, 0);
}

/// Whether the node in the cell `a` has the node in the cell `b` among its
/// children.
pub open spec fn is_child(s: Seq<CellView<TreeNodeView>>, a: int, b: int) -> bool {
    0 <= a < s.len() && held(s[a], b, false) > 0
}

/// Whether the cell `b` is reached from the cell `a` by `k` links from a
/// node to one of its children.
pub open spec fn descends(s: Seq<CellView<TreeNodeView>>, a: int, b: int, k: nat) -> bool
    decreases k,
{
    if k == 0 {
        a == b
    } else {
        exists|c: int| #[trigger] is_child(s, a, c) && descends(s, c, b, (k - 1) as nat)
    }
}

/// The strong links of a heap of tree nodes form no cycle: no node is
/// reached from itself by links to children. Such a heap is taken apart by
/// counting alone, once no handle to it is held outside.
pub open spec fn acyclic(s: Seq<CellView<TreeNodeView>>) -> bool {
    forall|x: int, k: nat| k >= 1 ==> !#[trigger] descends(s, x, x, k)
}

/// Whether the cell `b` is reached from the cell `a` by links to children,
/// or is the cell `a`.
pub open spec fn reaches(s: Seq<CellView<TreeNodeView>>, a: int, b: int) -> bool {
    exists|k: nat| descends(s, a, b, k)
}

/// Links to children, one after the other, lead as far as their sum.
pub proof fn lemma_descends_on(
    s: Seq<CellView<TreeNodeView>>,
    a: int,
    b: int,
    c: int,
    k1: nat,
    k2: nat,
)
    requires
        descends(s, a, b, k1),
        descends(s, b, c, k2),
    ensures
        descends(s, a, c, k1 + k2),
    decreases k1,
{
    if k1 > 0 {
        let m = choose|m: int| #[trigger] is_child(s, a, m) && descends(s, m, b, (k1 - 1) as nat);
        lemma_descends_on(s, m, b, c, (k1 - 1) as nat, k2);
        assert(is_child(s, a, m) && descends(s, m, c, (k1 + k2 - 1) as nat));
    }
}

/// Attaching adds one link to a child and takes none away: the child is
/// among the children of the parent, and every other link was there before.
pub proof fn lemma_attached_links(
    s: Seq<CellView<TreeNodeView>>,
    parent: Handle,
    child: Handle,
    a: int,
    b: int,
)
    requires
        heap_wf(s),
        parent.id() < s.len(),
        child.id() < s.len(),
        s[parent.id() as int].strong > 0,
        s[child.id() as int].strong > 0,
    ensures
        is_child(attached(s, parent, child), a, b) <==> is_child(s, a, b) || (a == parent.id()
            && b == child.id()),
{
    lemma_attached_keeps_accounts(s, parent, child);
    let after = attached(s, parent, child);
    if 0 <= a < s.len() {
        assert(s[a].wf());
        assert(after[a].value is Some <==> s[a].value is Some);
        if a == parent.id() {
            lemma_hits_push(s[a].value->Some_0.children, child, b);
        } else {
            assert(after[a].value->Some_0.children == s[a].value->Some_0.children);
        }
    }
}

/// A way through the heap after attaching either was a way before, or it
/// comes to the parent by links that were there before and goes on from
/// the child.
proof fn lemma_first_new_link(
    s: Seq<CellView<TreeNodeView>>,
    parent: Handle,
    child: Handle,
    x: int,
    a: int,
    k: nat,
)
    requires
        heap_wf(s),
        parent.id() < s.len(),
        child.id() < s.len(),
        s[parent.id() as int].strong > 0,
        s[child.id() as int].strong > 0,
        descends(attached(s, parent, child), x, a, k),
    ensures
        descends(s, x, a, k) || exists|k1: nat, k2: nat|
            #![trigger descends(s, x, parent.id() as int, k1), descends(attached(s, parent, child), child.id() as int, a, k2)]
            descends(s, x, parent.id() as int, k1) && descends(
                attached(s, parent, child),
                child.id() as int,
                a,
                k2,
            ),
    decreases k,
{
    let after = attached(s, parent, child);
    let p = parent.id() as int;
    let c = child.id() as int;
    if k > 0 {
        let m = choose|m: int| #[trigger]
            is_child(after, x, m) && descends(after, m, a, (k - 1) as nat);
        lemma_attached_links(s, parent, child, x, m);
        if is_child(s, x, m) {
            lemma_first_new_link(s, parent, child, m, a, (k - 1) as nat);
            if descends(s, m, a, (k - 1) as nat) {
                assert(is_child(s, x, m) && descends(s, m, a, (k - 1) as nat));
            } else {
                let (k1, k2) = choose|k1: nat, k2: nat|
                    #![trigger descends(s, m, p, k1), descends(after, c, a, k2)]
                    descends(s, m, p, k1) && descends(after, c, a, k2);
                assert(is_child(s, x, m) && descends(s, m, p, ((k1 + 1) - 1) as nat));
                assert(descends(s, x, p, k1 + 1) && descends(after, c, a, k2));
            }
        } else {
            assert(descends(s, x, p, 0) && descends(after, c, a, (k - 1) as nat));
        }
    }
}

/// Attaching a child keeps the strong links free of cycles, if the parent
/// is not reached from the child: if the child is neither the parent itself
/// nor one of the nodes above it.
pub proof fn lemma_attach_keeps_acyclic(
    s: Seq<CellView<TreeNodeView>>,
    parent: Handle,
    child: Handle,
)
    requires
        heap_wf(s),
        parent.id() < s.len(),
        child.id() < s.len(),
        s[parent.id() as int].strong > 0,
        s[child.id() as int].strong > 0,
        acyclic(s),
        !reaches(s, child.id() as int, parent.id() as int),
    ensures
        acyclic(attached(s, parent, child)),
{
    let after = attached(s, parent, child);
    let p = parent.id() as int;
    let c = child.id() as int;
    assert forall|x: int, k: nat| k >= 1 implies !#[trigger] descends(after, x, x, k) by {
        if descends(after, x, x, k) {
            lemma_first_new_link(s, parent, child, x, x, k);
            if !descends(s, x, x, k) {
                let (k1, k2) = choose|k1: nat, k2: nat|
                    #![trigger descends(s, x, p, k1), descends(after, c, x, k2)]
                    descends(s, x, p, k1) && descends(after, c, x, k2);
                lemma_first_new_link(s, parent, child, c, x, k2);
                if descends(s, c, x, k2) {
                    lemma_descends_on(s, c, x, p, k2, k1);
                    assert(descends(s, c, p, k2 + k1));
                } else {
                    let (k3, k4) = choose|k3: nat, k4: nat|
                        #![trigger descends(s, c, p, k3), descends(after, c, x, k4)]
                        descends(s, c, p, k3) && descends(after, c, x, k4);
                    assert(descends(s, c, p, k3));
                }
                assert(false);
            }
        }
    }
}

/// A node without children that is not the parent is not above it: to
/// attach a new node, or a leaf, makes no cycle.
pub proof fn lemma_childless_reaches_itself_only(s: Seq<CellView<TreeNodeView>>, a: int, b: int)
    requires
        0 <= a < s.len(),
        s[a].value matches Some(v) ==> v.children.len() == 0,
        a != b,
    ensures
        !reaches(s, a, b),
{
    assert forall|k: nat| !descends(s, a, b, k) by {
        if k > 0 && descends(s, a, b, k) {
            let m = choose|m: int| #[trigger]
                is_child(s, a, m) && descends(s, m, b, (k - 1) as nat);
            assert(false);
        }
    }
}

/// A new cell with a node without children adds no way through the heap.
proof fn lemma_descends_before_push(
    s: Seq<CellView<TreeNodeView>>,
    node: TreeNodeView,
    a: int,
    b: int,
    k: nat,
)
    requires
        node.children.len() == 0,
        descends(s.push(CellView::fresh(node)), a, b, k),
    ensures
        descends(s, a, b, k),
    decreases k,
{
    let after = s.push(CellView::fresh(node));
    if k > 0 {
        let m = choose|m: int| #[trigger]
            is_child(after, a, m) && descends(after, m, b, (k - 1) as nat);
        lemma_descends_before_push(s, node, m, b, (k - 1) as nat);
        assert(is_child(s, a, m) && descends(s, m, b, (k - 1) as nat));
    }
}

/// A new node without children keeps the strong links free of cycles.
pub proof fn lemma_new_node_keeps_acyclic(s: Seq<CellView<TreeNodeView>>, value: i32)
    requires
        acyclic(s),
    ensures
        acyclic(s.push(CellView::fresh(TreeNodeView::single(value)))),
{
    let after = s.push(CellView::fresh(TreeNodeView::single(value)));
    assert forall|x: int, k: nat| k >= 1 implies !#[trigger] descends(after, x, x, k) by {
        if descends(after, x, x, k) {
            lemma_descends_before_push(s, TreeNodeView::single(value), x, x, k);
        }
    }
}

} // verus!
