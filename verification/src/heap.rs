//! The heap of shared cells: allocation, the strong and weak counts, and the
//! runtime-checked views of a payload.

use crate::cell::{BorrowError, BorrowState, CellView};
use crate::ledger::{
    can_swap, can_take, count_of, external, externals_shift, heap_wf, held, in_degree,
    lemma_can_swap, lemma_can_take, lemma_in_degree_push, lemma_in_degree_same_payload,
    lemma_in_degree_update,
};
use crate::refs::{CellRef, Handle, Holder, Payload, WeakHandle};
use vstd::prelude::*;

verus! {

/// One cell: a payload with its counts and its borrow state.
pub struct SharedCell<T> {
    value: Option<T>,
    strong: usize,
    weak: usize,
    state: BorrowState,
}

impl<T: View> SharedCell<T> {
    /// The cell as the contracts see it.
    pub closed spec fn view(&self) -> CellView<T::V> {
        CellView {
            value: match self.value {
                Some(v) => Some(v@),
                None => None,
            },
            strong: self.strong as nat,
            weak: self.weak as nat,
            borrow: self.state,
        }
    }
}

/// A heap of shared cells. Cells are referred to by handles; a cell's index
/// is never used again for another cell.
pub struct Heap<T: Payload> where T::V: Holder {
    cells: Vec<SharedCell<T>>,
}

impl<T: Payload> Heap<T> where T::V: Holder {
    /// The cells, in the order of their allocation.
    pub closed spec fn view(&self) -> Seq<CellView<T::V>> {
        Seq::new(self.cells@.len(), |i: int| self.cells@[i]@)
    }

    /// Well-formedness of the heap: see [`heap_wf`].
    pub open spec fn wf(&self) -> bool {
        heap_wf(self@)
    }

    /// The handle refers to a cell of this heap whose payload exists.
    pub open spec fn is_live(&self, h: &Handle) -> bool {
        h.id() < self@.len() && self@[h.id() as int].strong > 0
    }

    /// The handle is held outside the heap: some strong handle to its cell
    /// is in no payload.
    pub open spec fn holds(&self, h: &Handle) -> bool {
        h.id() < self@.len() && external(self@, h.id() as int, false) >= 1
    }

    /// The handle is held outside the heap and may be given up: some strong
    /// handle to its cell is in no payload, and if the cell has a view
    /// outstanding, at least two are.
    pub open spec fn owns(&self, h: &Handle) -> bool {
        &&& h.id() < self@.len()
        &&& external(self@, h.id() as int, false) >= 1
        &&& self@[h.id() as int].borrow != BorrowState::Unborrowed ==> external(
            self@,
            h.id() as int,
            false,
        ) >= 2
    }

    /// The weak handle is held outside the heap and may be given up.
    pub open spec fn owns_weak(&self, w: &WeakHandle) -> bool {
        &&& w.id() < self@.len()
        &&& external(self@, w.id() as int, true) >= 1
    }

    /// An empty heap.
    pub fn new() -> (heap: Heap<T>)
        ensures
            heap.wf(),
            heap@.len() == 0,
            forall|t: int, weak: bool| #[trigger] in_degree(heap@, t, weak) == 0,
            forall|t: int, weak: bool| #[trigger] external(heap@, t, weak) == 0,
    {
        let heap = Heap { cells: Vec::new() };
        assert(heap@ =~= Seq::empty());
        heap
    }

    /// The number of cells allocated so far.
    pub fn len(&self) -> (n: usize)
        ensures
            n == self@.len(),
    {
        self.cells.len()
    }

    /// Allocates a cell for `value` and returns the one strong handle to it.
    ///
    /// The handles that `value` holds pass into the heap with it: they must
    /// be the caller's to give, which is what the second condition says.
    pub fn allocate(&mut self, value: T) -> (h: Handle)
        requires
            old(self).wf(),
            can_take(old(self)@, value@),
        ensures
            final(self).wf(),
            final(self)@ == old(self)@.push(CellView::fresh(value@)),
            h.id() == old(self)@.len(),
            forall|t: int, weak: bool| #[trigger]
                external(final(self)@, t, weak) == external(old(self)@, t, weak) - held(
                    CellView::fresh(value@),
                    t,
                    weak,
                ) + if t == h.id() && !weak {
                    1int
                } else {
                    0int
                },
    {
        proof {
            lemma_can_take(old(self)@, value@);
        }
        let id = self.cells.len();
        self.cells.push(
            SharedCell { value: Some(value), strong: 1, weak: 0, state: BorrowState::Unborrowed },
        );
        proof {
            assert(self@ =~= old(self)@.push(CellView::fresh(value@)));
            assert forall|t: int, weak: bool| #[trigger]
                in_degree(self@, t, weak) == in_degree(old(self)@, t, weak) + held(
                    CellView::fresh(value@),
                    t,
                    weak,
                ) by {
                lemma_in_degree_push(old(self)@, CellView::fresh(value@), t, weak);
            }
        }
        Handle::new(id)
    }

    /// Duplicates a strong handle.
    pub fn clone_handle(&mut self, h: &Handle) -> (copy: Handle)
        requires
            old(self).wf(),
            old(self).is_live(h),
            old(self)@[h.id() as int].strong < usize::MAX,
        ensures
            final(self).wf(),
            externals_shift(final(self)@, old(self)@, h.id() as int, false, 1),
            final(self)@ == old(self)@.update(h.id() as int, old(self)@[h.id() as int].with_clone()),
            copy.id() == h.id(),
    {
        let id = h.index();
        self.cells[id].strong = self.cells[id].strong + 1;
        proof {
            let s = old(self)@;
            let c = s[id as int].with_clone();
            assert(self@ =~= s.update(id as int, c));
            lemma_in_degree_same_payload(s, id as int, c);
        }
        Handle::new(id)
    }

    /// Gives up a strong handle without destroying anything. The last
    /// handle takes the payload out of the cell: it is returned, with the
    /// handles it holds, and is then the caller's.
    pub fn into_inner(&mut self, h: Handle) -> (payload: Option<T>)
        requires
            old(self).wf(),
            old(self).owns(&h),
        ensures
            final(self).wf(),
            final(self)@ == old(self)@.update(h.id() as int, old(self)@[h.id() as int].with_drop()),
            match payload {
                Some(p) => old(self)@[h.id() as int].strong == 1 && old(self)@[h.id() as int].value
                    == Some(p@),
                None => old(self)@[h.id() as int].strong != 1,
            },
            forall|t: int, weak: bool| #[trigger]
                external(final(self)@, t, weak) == external(old(self)@, t, weak) + (if old(
                    self,
                )@[h.id() as int].strong == 1 {
                    held(old(self)@[h.id() as int], t, weak)
                } else {
                    0
                }) - if t == h.id() && !weak {
                    1int
                } else {
                    0int
                },
    {
        let id = h.index();
        self.cells[id].strong = self.cells[id].strong - 1;
        let payload = if self.cells[id].strong == 0 {
            self.cells[id].value.take()
        } else {
            None
        };
        proof {
            let s = old(self)@;
            let c = s[id as int].with_drop();
            assert(self@ =~= s.update(id as int, c));
            assert forall|t: int, weak: bool| #[trigger]
                in_degree(self@, t, weak) + (if s[id as int].strong == 1 {
                    held(s[id as int], t, weak)
                } else {
                    0
                }) == in_degree(s, t, weak) by {
                lemma_in_degree_update(s, id as int, c, t, weak);
            }
            assert forall|t: int, weak: bool| #[trigger]
                in_degree(self@, t, weak) <= count_of(self@, t, weak) by {
                assert(in_degree(s, t, weak) <= count_of(s, t, weak));
            }
        }
        payload
    }

    /// Makes a weak handle from a strong one.
    pub fn downgrade(&mut self, h: &Handle) -> (w: WeakHandle)
        requires
            old(self).wf(),
            old(self).is_live(h),
            old(self)@[h.id() as int].weak < usize::MAX,
        ensures
            final(self).wf(),
            externals_shift(final(self)@, old(self)@, h.id() as int, true, 1),
            final(self)@ == old(self)@.update(
                h.id() as int,
                old(self)@[h.id() as int].with_downgrade(),
            ),
            w.id() == h.id(),
    {
        let id = h.index();
        self.cells[id].weak = self.cells[id].weak + 1;
        proof {
            let s = old(self)@;
            let c = s[id as int].with_downgrade();
            assert(self@ =~= s.update(id as int, c));
            lemma_in_degree_same_payload(s, id as int, c);
        }
        WeakHandle::new(id)
    }

    /// Asks for a strong handle through a weak one. It is granted exactly
    /// while the payload exists; the weak count plays no part.
    pub fn upgrade(&mut self, w: &WeakHandle) -> (h: Option<Handle>)
        requires
            old(self).wf(),
            w.id() < old(self)@.len(),
            old(self)@[w.id() as int].strong < usize::MAX,
        ensures
            final(self).wf(),
            externals_shift(
                final(self)@,
                old(self)@,
                w.id() as int,
                false,
                if old(self)@[w.id() as int].strong > 0 {
                    1
                } else {
                    0
                },
            ),
            final(self)@ == old(self)@.update(
                w.id() as int,
                old(self)@[w.id() as int].with_upgrade(),
            ),
            h is Some <==> old(self)@[w.id() as int].strong > 0,
            h is Some ==> h->Some_0.id() == w.id(),
    {
        self.upgrade_cell(w.index())
    }

    /// The upgrade of a weak handle to the cell `id`.
    pub(crate) fn upgrade_cell(&mut self, id: usize) -> (h: Option<Handle>)
        requires
            old(self).wf(),
            id < old(self)@.len(),
            old(self)@[id as int].strong < usize::MAX,
        ensures
            final(self).wf(),
            externals_shift(
                final(self)@,
                old(self)@,
                id as int,
                false,
                if old(self)@[id as int].strong > 0 {
                    1
                } else {
                    0
                },
            ),
            final(self)@ == old(self)@.update(id as int, old(self)@[id as int].with_upgrade()),
            h is Some <==> old(self)@[id as int].strong > 0,
            h is Some ==> h->Some_0.id() == id,
    {
        if self.cells[id].strong > 0 {
            self.cells[id].strong = self.cells[id].strong + 1;
            proof {
                let s = old(self)@;
                let c = s[id as int].with_upgrade();
                assert(self@ =~= s.update(id as int, c));
                lemma_in_degree_same_payload(s, id as int, c);
            }
            Some(Handle::new(id))
        } else {
            assert(self@ =~= old(self)@.update(id as int, old(self)@[id as int].with_upgrade()));
            None
        }
    }

    /// Gives up a weak handle.
    pub fn drop_weak(&mut self, w: WeakHandle)
        requires
            old(self).wf(),
            old(self).owns_weak(&w),
        ensures
            final(self).wf(),
            externals_shift(final(self)@, old(self)@, w.id() as int, true, -1),
            final(self)@ == old(self)@.update(
                w.id() as int,
                old(self)@[w.id() as int].with_weak_drop(),
            ),
    {
        let id = w.index();
        self.cells[id].weak = self.cells[id].weak - 1;
        proof {
            let s = old(self)@;
            let c = s[id as int].with_weak_drop();
            assert(self@ =~= s.update(id as int, c));
            lemma_in_degree_same_payload(s, id as int, c);
        }
    }

    /// The number of strong handles to the cell of `h`.
    pub fn strong_count(&self, h: &Handle) -> (n: usize)
        requires
            h.id() < self@.len(),
        ensures
            n == self@[h.id() as int].strong,
    {
        self.cells[h.index()].strong
    }

    /// The number of weak handles to the cell of `h`.
    pub fn weak_count(&self, h: &Handle) -> (n: usize)
        requires
            h.id() < self@.len(),
        ensures
            n == self@[h.id() as int].weak,
    {
        self.cells[h.index()].weak
    }

    /// The number of strong handles to the cell that `w` observes; zero once
    /// the payload is gone.
    pub fn observed_strong_count(&self, w: &WeakHandle) -> (n: usize)
        requires
            w.id() < self@.len(),
        ensures
            n == self@[w.id() as int].strong,
    {
        self.cells[w.index()].strong
    }

    /// The number of weak handles to the cell that `w` observes.
    pub fn observed_weak_count(&self, w: &WeakHandle) -> (n: usize)
        requires
            w.id() < self@.len(),
        ensures
            n == self@[w.id() as int].weak,
    {
        self.cells[w.index()].weak
    }

    /// Whether `h` refers to a cell of this heap whose payload exists.
    pub fn check_live(&self, h: &Handle) -> (b: bool)
        ensures
            b == self.is_live(h),
    {
        h.index() < self.cells.len() && self.cells[h.index()].strong > 0
    }

    /// Whether nothing refers to the cell `id` any more: neither a strong
    /// nor a weak handle is left, and its block is free.
    pub fn is_released(&self, id: usize) -> (b: bool)
        requires
            id < self@.len(),
        ensures
            b == self@[id as int].released(),
    {
        self.cells[id].strong == 0 && self.cells[id].weak == 0
    }

    /// The views outstanding on the cell of `h`.
    pub fn borrow_state(&self, h: &Handle) -> (b: BorrowState)
        requires
            h.id() < self@.len(),
        ensures
            b == self@[h.id() as int].borrow,
    {
        self.cells[h.index()].state
    }

    /// The payload of the cell `id`, read without a view.
    pub(crate) fn payload(&self, id: usize) -> (value: &T)
        requires
            id < self@.len(),
            self@[id as int].value is Some,
        ensures
            self@[id as int].value == Some(value@),
    {
        match &self.cells[id].value {
            Some(value) => value,
            None => vstd::pervasive::unreached(),
        }
    }
}

/// The right to read the payload of one cell, until it is released.
#[derive(Debug)]
pub struct ReadView {
    id: usize,
}

/// The right to read and replace the payload of one cell, until it is
/// released.
#[derive(Debug)]
pub struct WriteView {
    id: usize,
}

impl CellRef for ReadView {
    closed spec fn id(&self) -> usize {
        self.id
    }
}

impl CellRef for WriteView {
    closed spec fn id(&self) -> usize {
        self.id
    }
}

impl<T: Payload> Heap<T> where T::V: Holder {
    /// The view was granted by this heap and has not been released.
    pub open spec fn reading(&self, view: &ReadView) -> bool {
        view.id() < self@.len() && self@[view.id() as int].borrow is Shared
    }

    /// The view was granted by this heap and has not been released.
    pub open spec fn writing(&self, view: &WriteView) -> bool {
        view.id() < self@.len() && self@[view.id() as int].borrow is Exclusive
    }

    /// Asks for a read view of the payload. It is refused while the write
    /// view is outstanding; any number of read views may overlap.
    pub fn borrow(&mut self, h: &Handle) -> (r: Result<ReadView, BorrowError>)
        requires
            old(self).wf(),
            old(self).holds(h),
        ensures
            final(self).wf(),
            externals_shift(final(self)@, old(self)@, 0, false, 0),
            match old(self)@[h.id() as int].borrow.try_shared() {
                Ok(b) => r is Ok && r->Ok_0.id() == h.id() && final(self)@ == old(self)@.update(
                    h.id() as int,
                    old(self)@[h.id() as int].with_borrow(b),
                ),
                Err(e) => r == Err::<ReadView, BorrowError>(e) && final(self)@ == old(self)@,
            },
    {
        let id = h.index();
        match self.cells[id].state.acquire_shared() {
            Ok(b) => {
                self.cells[id].state = b;
                proof {
                    let s = old(self)@;
                    let c = s[id as int].with_borrow(b);
                    assert(self@ =~= s.update(id as int, c));
                    lemma_in_degree_same_payload(s, id as int, c);
                }
                Ok(ReadView { id })
            },
            Err(e) => Err(e),
        }
    }

    /// Asks for the write view of the payload. It is refused while any view
    /// of the cell, read or write, is outstanding.
    pub fn borrow_mut(&mut self, h: &Handle) -> (r: Result<WriteView, BorrowError>)
        requires
            old(self).wf(),
            old(self).holds(h),
        ensures
            final(self).wf(),
            externals_shift(final(self)@, old(self)@, 0, false, 0),
            match old(self)@[h.id() as int].borrow.try_exclusive() {
                Ok(b) => r is Ok && r->Ok_0.id() == h.id() && final(self)@ == old(self)@.update(
                    h.id() as int,
                    old(self)@[h.id() as int].with_borrow(b),
                ),
                Err(e) => r == Err::<WriteView, BorrowError>(e) && final(self)@ == old(self)@,
            },
    {
        let id = h.index();
        match self.cells[id].state.acquire_exclusive() {
            Ok(b) => {
                self.cells[id].state = b;
                proof {
                    let s = old(self)@;
                    let c = s[id as int].with_borrow(b);
                    assert(self@ =~= s.update(id as int, c));
                    lemma_in_degree_same_payload(s, id as int, c);
                }
                Ok(WriteView { id })
            },
            Err(e) => Err(e),
        }
    }

    /// Ends a read view.
    pub fn release(&mut self, view: ReadView)
        requires
            old(self).wf(),
            old(self).reading(&view),
        ensures
            final(self).wf(),
            externals_shift(final(self)@, old(self)@, 0, false, 0),
            final(self)@ == old(self)@.update(
                view.id() as int,
                old(self)@[view.id() as int].with_borrow(
                    old(self)@[view.id() as int].borrow.end_shared(),
                ),
            ),
    {
        let id = view.id;
        self.cells[id].state = self.cells[id].state.release_shared();
        proof {
            let s = old(self)@;
            let c = s[id as int].with_borrow(s[id as int].borrow.end_shared());
            assert(self@ =~= s.update(id as int, c));
            lemma_in_degree_same_payload(s, id as int, c);
        }
    }

    /// Ends the write view.
    pub fn release_mut(&mut self, view: WriteView)
        requires
            old(self).wf(),
            old(self).writing(&view),
        ensures
            final(self).wf(),
            externals_shift(final(self)@, old(self)@, 0, false, 0),
            final(self)@ == old(self)@.update(
                view.id() as int,
                old(self)@[view.id() as int].with_borrow(BorrowState::Unborrowed),
            ),
    {
        let id = view.id;
        self.cells[id].state = self.cells[id].state.release_exclusive();
        proof {
            let s = old(self)@;
            let c = s[id as int].with_borrow(BorrowState::Unborrowed);
            assert(self@ =~= s.update(id as int, c));
            lemma_in_degree_same_payload(s, id as int, c);
        }
    }

    /// Reads the payload through a read view.
    pub fn read(&self, view: &ReadView) -> (value: &T)
        requires
            self.wf(),
            self.reading(view),
        ensures
            self@[view.id() as int].value == Some(value@),
    {
        assert(self@[view.id() as int].wf());
        self.payload(view.id)
    }

    /// Reads the payload through the write view.
    pub fn peek(&self, view: &WriteView) -> (value: &T)
        requires
            self.wf(),
            self.writing(view),
        ensures
            self@[view.id() as int].value == Some(value@),
    {
        assert(self@[view.id() as int].wf());
        self.payload(view.id)
    }

    /// Replaces the payload through the write view and returns the payload
    /// that was there.
    ///
    /// The handles that `value` holds pass into the heap, and they must be
    /// the caller's to give; those of the old payload pass to the caller.
    pub fn write(&mut self, view: &WriteView, value: T) -> (previous: T)
        requires
            old(self).wf(),
            old(self).writing(view),
            can_swap(old(self)@, view.id() as int, value@),
        ensures
            final(self).wf(),
            final(self)@ == old(self)@.update(
                view.id() as int,
                old(self)@[view.id() as int].with_value(value@),
            ),
            old(self)@[view.id() as int].value == Some(previous@),
            forall|t: int, weak: bool| #[trigger]
                external(final(self)@, t, weak) + held(
                    old(self)@[view.id() as int].with_value(value@),
                    t,
                    weak,
                ) == external(old(self)@, t, weak) + held(old(self)@[view.id() as int], t, weak),
    {
        proof {
            assert(old(self)@[view.id() as int].wf());
            lemma_can_swap(old(self)@, view.id() as int, value@);
        }
        self.swap_payload(view.id, value)
    }

    /// Reads the payload within a read view that lasts exactly as long as
    /// the call of `f`: it is taken before and released after, whatever `f`
    /// returns. Nothing is changed, and the conflict is returned, if the
    /// read view is refused.
    pub fn inspect<R, F: FnOnce(&T) -> R>(&mut self, h: &Handle, f: F) -> (r: Result<
        R,
        BorrowError,
    >)
        requires
            old(self).wf(),
            old(self).holds(h),
            forall|v: &T| v@ == old(self)@[h.id() as int].value->Some_0 ==> f.requires((v,)),
        ensures
            final(self).wf(),
            final(self)@ == old(self)@,
            match old(self)@[h.id() as int].borrow.try_shared() {
                Ok(_) => r is Ok && exists|v: &T|
                    v@ == old(self)@[h.id() as int].value->Some_0 && f.ensures((v,), r->Ok_0),
                Err(e) => r == Err::<R, BorrowError>(e),
            },
    {
        match self.borrow(h) {
            Ok(view) => {
                assert(self@[h.id() as int].wf());
                let result = f(self.read(&view));
                self.release(view);
                assert(self@ =~= old(self)@);
                Ok(result)
            },
            Err(e) => Err(e),
        }
    }

    /// Replaces the payload by what `f` makes of it, within a write view
    /// that lasts exactly as long as the call of `f`. Nothing is changed,
    /// and the conflict is returned, if the write view is refused.
    ///
    /// The handles that the payload holds pass through `f`: what it returns
    /// must hold only handles that can go into the cell.
    pub fn modify<F: FnOnce(T) -> T>(&mut self, h: &Handle, f: F) -> (r: Result<(), BorrowError>)
        requires
            old(self).wf(),
            old(self).holds(h),
            forall|v: T| v@ == old(self)@[h.id() as int].value->Some_0 ==> f.requires((v,)),
            forall|v: T, out: T|
                v@ == old(self)@[h.id() as int].value->Some_0 && f.ensures((v,), out) ==> can_swap(
                    old(self)@,
                    h.id() as int,
                    out@,
                ),
        ensures
            final(self).wf(),
            match old(self)@[h.id() as int].borrow.try_exclusive() {
                Ok(_) => r is Ok && exists|v: T, out: T|
                    v@ == old(self)@[h.id() as int].value->Some_0 && f.ensures((v,), out)
                        && final(self)@ == old(self)@.update(
                        h.id() as int,
                        old(self)@[h.id() as int].with_value(out@),
                    ),
                Err(e) => r == Err::<(), BorrowError>(e) && final(self)@ == old(self)@,
            },
            forall|t: int, weak: bool| #[trigger]
                external(final(self)@, t, weak) + held(final(self)@[h.id() as int], t, weak)
                    == external(old(self)@, t, weak) + held(old(self)@[h.id() as int], t, weak),
    {
        let id = h.index();
        match self.cells[id].state.acquire_exclusive() {
            Ok(_) => {
                assert(old(self)@[id as int].wf());
                let taken = match self.cells[id].value.take() {
                    Some(v) => v,
                    None => vstd::pervasive::unreached(),
                };
                let ghost before = taken;
                let out = f(taken);
                proof {
                    lemma_can_swap(old(self)@, id as int, out@);
                }
                self.cells[id].value = Some(out);
                assert(self@ =~= old(self)@.update(
                    id as int,
                    old(self)@[id as int].with_value(out@),
                ));
                assert(before@ == old(self)@[id as int].value->Some_0 && f.ensures((before,), out));
                assert forall|t: int, weak: bool| #[trigger]
                    external(self@, t, weak) + held(self@[id as int], t, weak) == external(
                        old(self)@,
                        t,
                        weak,
                    ) + held(old(self)@[id as int], t, weak) by {
                    lemma_in_degree_update(
                        old(self)@,
                        id as int,
                        old(self)@[id as int].with_value(out@),
                        t,
                        weak,
                    );
                }
                Ok(())
            },
            Err(e) => Err(e),
        }
    }

    /// Puts `value` in the place of the payload of the cell `id`, whatever
    /// views there are, and returns the payload that was there.
    pub(crate) fn swap_payload(&mut self, id: usize, value: T) -> (previous: T)
        requires
            old(self).wf(),
            id < old(self)@.len(),
            old(self)@[id as int].value is Some,
            heap_wf(old(self)@.update(id as int, old(self)@[id as int].with_value(value@))),
        ensures
            final(self).wf(),
            final(self)@ == old(self)@.update(id as int, old(self)@[id as int].with_value(value@)),
            old(self)@[id as int].value == Some(previous@),
            forall|t: int, weak: bool| #[trigger]
                external(final(self)@, t, weak) + held(
                    old(self)@[id as int].with_value(value@),
                    t,
                    weak,
                ) == external(old(self)@, t, weak) + held(old(self)@[id as int], t, weak),
    {
        let previous = self.cells[id].value.take();
        self.cells[id].value = Some(value);
        proof {
            let s = old(self)@;
            let c = s[id as int].with_value(value@);
            assert(self@ =~= s.update(id as int, c));
            assert forall|t: int, weak: bool| #[trigger]
                in_degree(self@, t, weak) + held(s[id as int], t, weak) == in_degree(s, t, weak)
                    + held(c, t, weak) by {
                lemma_in_degree_update(s, id as int, c, t, weak);
            }
        }
        match previous {
            Some(previous) => previous,
            None => vstd::pervasive::unreached(),
        }
    }
}

} // verus!
