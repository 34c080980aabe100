//! References to cells: strong and weak handles, and what a payload must
//! tell the heap about the handles it holds.

use vstd::prelude::*;

verus! {

/// A reference to a cell of a heap.
pub trait CellRef {
    /// The index of the cell referred to.
    spec fn id(&self) -> usize;
}

/// An owning reference to a cell. Each one accounts for one unit of the
/// cell's strong count; it is neither `Clone` nor `Copy`, so a new one comes
/// only from the heap.
#[derive(Debug)]
pub struct Handle {
    id: usize,
}

/// A non-owning reference to a cell. Each one accounts for one unit of the
/// cell's weak count and does not keep the payload alive.
#[derive(Debug)]
pub struct WeakHandle {
    id: usize,
}

impl CellRef for Handle {
    closed spec fn id(&self) -> usize {
        self.id
    }
}

impl CellRef for WeakHandle {
    closed spec fn id(&self) -> usize {
        self.id
    }
}

impl Handle {
    /// A handle to the cell `id`; the heap makes one for each unit that it
    /// adds to a strong count.
    pub(crate) fn new(id: usize) -> (h: Handle)
        ensures
            h.id() == id,
    {
        Handle { id }
    }

    /// The index of the cell that this handle refers to.
    pub fn index(&self) -> (i: usize)
        ensures
            i == self.id(),
    {
        self.id
    }

    /// The weak handle to the cell of this handle.
    pub closed spec fn as_weak(&self) -> WeakHandle {
        WeakHandle { id: self.id }
    }

    /// The weak handle to the cell of a handle refers to that cell.
    pub proof fn lemma_as_weak(self)
        ensures
            self.as_weak().id() == self.id(),
    {
    }

    /// Two handles to the same cell are equal as values.
    pub proof fn lemma_same_cell(a: Handle, b: Handle)
        requires
            a.id() == b.id(),
        ensures
            a == b,
    {
    }
}

impl WeakHandle {
    /// A weak handle to the cell `id`; the heap makes one for each unit
    /// that it adds to a weak count.
    pub(crate) fn new(id: usize) -> (w: WeakHandle)
        ensures
            w.id() == id,
    {
        WeakHandle { id }
    }

    /// The index of the cell that this handle refers to.
    pub fn index(&self) -> (i: usize)
        ensures
            i == self.id(),
    {
        self.id
    }

    /// Two weak handles to the same cell are equal as values.
    pub proof fn lemma_same_cell(a: WeakHandle, b: WeakHandle)
        requires
            a.id() == b.id(),
        ensures
            a == b,
    {
    }
}

/// How many of `refs` refer to the cell `target`.
pub open spec fn hits<R: CellRef>(refs: Seq<R>, target: int) -> nat
    decreases refs.len(),
{
    if refs.len() == 0 {
        0
    } else {
        hits(refs.drop_last(), target) + if refs.last().id() == target {
            1nat
        } else {
            0nat
        }
    }
}

/// One more reference counts for the cell it refers to, and for no other.
pub proof fn lemma_hits_push<R: CellRef>(refs: Seq<R>, r: R, target: int)
    ensures
        hits(refs.push(r), target) == hits(refs, target) + if r.id() == target {
            1nat
        } else {
            0nat
        },
{
    assert(refs.push(r).drop_last() =~= refs);
}

/// Two lists of references count for a cell what each counts for it.
pub proof fn lemma_hits_concat<R: CellRef>(a: Seq<R>, b: Seq<R>, target: int)
    ensures
        hits(a + b, target) == hits(a, target) + hits(b, target),
    decreases b.len(),
{
    if b.len() == 0 {
        assert(a + b =~= a);
    } else {
        assert((a + b).drop_last() =~= a + b.drop_last());
        lemma_hits_concat(a, b.drop_last(), target);
    }
}

/// A reference that occurs in `refs` is counted.
pub proof fn lemma_hits_member<R: CellRef>(refs: Seq<R>, k: int)
    requires
        0 <= k < refs.len(),
    ensures
        hits(refs, refs[k].id() as int) >= 1,
    decreases refs.len(),
{
    if k < refs.len() - 1 {
        lemma_hits_member(refs.drop_last(), k);
    }
}

/// What a payload looks like to the contracts, and which handles it holds,
/// so that the heap can account for every unit of every count.
pub trait Holder {
    /// The strong handles held.
    spec fn strong_refs(&self) -> Seq<Handle>;

    /// The weak handles held.
    spec fn weak_refs(&self) -> Seq<WeakHandle>;
}

/// A value that can be stored in a cell.
pub trait Payload: View + Sized where Self::V: Holder {
    /// Takes the value apart and hands out the handles it held.
    fn into_refs(self) -> (refs: (Vec<Handle>, Vec<WeakHandle>))
        ensures
            refs.0@ == self@.strong_refs(),
            refs.1@ == self@.weak_refs(),
    ;
}

impl Holder for i32 {
    open spec fn strong_refs(&self) -> Seq<Handle> {
        Seq::empty()
    }

    open spec fn weak_refs(&self) -> Seq<WeakHandle> {
        Seq::empty()
    }
}

impl Payload for i32 {
    fn into_refs(self) -> (refs: (Vec<Handle>, Vec<WeakHandle>)) {
        (Vec::new(), Vec::new())
    }
}

} // verus!
