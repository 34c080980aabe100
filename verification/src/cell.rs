//! The state of one shared cell: its payload, its two counts and its borrow
//! state, with the steps that each operation takes on them.

use vstd::prelude::*;

verus! {

/// Which views of a cell's payload are outstanding.
#[derive(Clone, Copy, Debug, PartialEq, Eq, Structural)]
pub enum BorrowState {
    /// No view is outstanding.
    Unborrowed,
    /// This many read views are outstanding (at least one).
    Shared(usize),
    /// One write view is outstanding.
    Exclusive,
}

/// Why a view was refused.
#[derive(Clone, Copy, Debug, PartialEq, Eq, Structural)]
pub enum BorrowError {
    /// A write view of the cell is outstanding.
    ExclusiveOutstanding,
    /// A write view was asked for while read views of the cell are outstanding.
    SharedOutstanding,
    /// The cell cannot count one more read view.
    TooManyReaders,
}

impl BorrowState {
    /// A shared state counts at least one reader.
    pub open spec fn wf(self) -> bool {
        self matches BorrowState::Shared(n) ==> n >= 1
    }

    /// The state after one more read view, or the reason to refuse it.
    pub open spec fn try_shared(self) -> Result<BorrowState, BorrowError> {
        match self {
            BorrowState::Unborrowed => Ok(BorrowState::Shared(1)),
            BorrowState::Shared(n) => if n < usize::MAX {
                Ok(BorrowState::Shared((n + 1) as usize))
            } else {
                Err(BorrowError::TooManyReaders)
            },
            BorrowState::Exclusive => Err(BorrowError::ExclusiveOutstanding),
        }
    }

    /// The state after taking the write view, or the reason to refuse it.
    pub open spec fn try_exclusive(self) -> Result<BorrowState, BorrowError> {
        match self {
            BorrowState::Unborrowed => Ok(BorrowState::Exclusive),
            BorrowState::Shared(_) => Err(BorrowError::SharedOutstanding),
            BorrowState::Exclusive => Err(BorrowError::ExclusiveOutstanding),
        }
    }

    /// The state after one read view has ended.
    pub open spec fn end_shared(self) -> BorrowState {
        match self {
            BorrowState::Shared(n) => if n > 1 {
                BorrowState::Shared((n - 1) as usize)
            } else {
                BorrowState::Unborrowed
            },
            _ => self,
        }
    }

    /// The state after the write view has ended.
    pub open spec fn end_exclusive(self) -> BorrowState {
        match self {
            BorrowState::Exclusive => BorrowState::Unborrowed,
            _ => self,
        }
    }

    /// Asks for one more read view.
    pub fn acquire_shared(self) -> (r: Result<BorrowState, BorrowError>)
        ensures
            r == self.try_shared(),
    {
        match self {
            BorrowState::Unborrowed => Ok(BorrowState::Shared(1)),
            BorrowState::Shared(n) => if n < usize::MAX {
                Ok(BorrowState::Shared(n + 1))
            } else {
                Err(BorrowError::TooManyReaders)
            },
            BorrowState::Exclusive => Err(BorrowError::ExclusiveOutstanding),
        }
    }

    /// Asks for the write view.
    pub fn acquire_exclusive(self) -> (r: Result<BorrowState, BorrowError>)
        ensures
            r == self.try_exclusive(),
    {
        match self {
            BorrowState::Unborrowed => Ok(BorrowState::Exclusive),
            BorrowState::Shared(_) => Err(BorrowError::SharedOutstanding),
            BorrowState::Exclusive => Err(BorrowError::ExclusiveOutstanding),
        }
    }

    /// Ends one read view. A state without readers is left as it is.
    pub fn release_shared(self) -> (r: BorrowState)
        ensures
            r == self.end_shared(),
    {
        match self {
            BorrowState::Shared(n) => if n > 1 {
                BorrowState::Shared(n - 1)
            } else {
                BorrowState::Unborrowed
            },
            BorrowState::Unborrowed => BorrowState::Unborrowed,
            BorrowState::Exclusive => BorrowState::Exclusive,
        }
    }

    /// Ends the write view. A state without a writer is left as it is.
    pub fn release_exclusive(self) -> (r: BorrowState)
        ensures
            r == self.end_exclusive(),
    {
        match self {
            BorrowState::Exclusive => BorrowState::Unborrowed,
            BorrowState::Unborrowed => BorrowState::Unborrowed,
            BorrowState::Shared(n) => BorrowState::Shared(n),
        }
    }

    /// While the write view is held, every further view is refused, and once
    /// it has ended the write view can be taken again.
    pub proof fn lemma_exclusive_excludes(self)
        requires
            self.try_exclusive() is Ok,
        ensures
            self.try_exclusive()->Ok_0.try_exclusive() == Err::<BorrowState, BorrowError>(
                BorrowError::ExclusiveOutstanding,
            ),
            self.try_exclusive()->Ok_0.try_shared() == Err::<BorrowState, BorrowError>(
                BorrowError::ExclusiveOutstanding,
            ),
            self.try_exclusive()->Ok_0.end_exclusive().try_exclusive() is Ok,
    {
    }

    /// While a read view is held, the write view is refused; it is granted
    /// again exactly when the last read view has ended.
    pub proof fn lemma_shared_excludes_exclusive(self)
        requires
            self.wf(),
            self.try_shared() is Ok,
        ensures
            self.try_shared()->Ok_0.try_exclusive() == Err::<BorrowState, BorrowError>(
                BorrowError::SharedOutstanding,
            ),
            self.try_shared()->Ok_0.end_shared() == self,
            self.try_exclusive() is Ok <==> self == BorrowState::Unborrowed,
    {
    }
}

/// One cell as the contracts see it.
pub struct CellView<T> {
    /// The payload, present as long as a strong handle exists.
    pub value: Option<T>,
    /// The number of strong handles.
    pub strong: nat,
    /// The number of weak handles.
    pub weak: nat,
    /// The views outstanding.
    pub borrow: BorrowState,
}

/// An operation on the counts of one cell.
pub enum CountOp {
    /// A strong handle is duplicated.
    Clone,
    /// A strong handle is given up.
    Drop,
    /// A weak handle is made from a strong one.
    Downgrade,
    /// A strong handle is asked for through a weak one.
    Upgrade,
    /// A weak handle is given up.
    DropWeak,
}

impl<T> CellView<T> {
    /// A newly allocated cell: one strong handle, no weak handle, no view.
    pub open spec fn fresh(value: T) -> CellView<T> {
        CellView { value: Some(value), strong: 1, weak: 0, borrow: BorrowState::Unborrowed }
    }

    /// The payload is present exactly while a strong handle exists, and
    /// views exist only of a present payload.
    pub open spec fn wf(self) -> bool {
        &&& self.value is Some <==> self.strong > 0
        &&& self.borrow.wf()
        &&& self.borrow != BorrowState::Unborrowed ==> self.strong > 0
    }

    /// Whether the payload still exists.
    pub open spec fn alive(self) -> bool {
        self.strong > 0
    }

    /// Whether nothing refers to the cell any more, so that its block is free.
    pub open spec fn released(self) -> bool {
        self.strong == 0 && self.weak == 0
    }

    /// Duplicating a strong handle.
    pub open spec fn with_clone(self) -> CellView<T> {
        CellView { strong: self.strong + 1, ..self }
    }

    /// Giving up a strong handle; the last one takes the payload with it.
    pub open spec fn with_drop(self) -> CellView<T> {
        CellView {
            strong: (self.strong - 1) as nat,
            value: if self.strong == 1 {
                None
            } else {
                self.value
            },
            ..self
        }
    }

    /// Making a weak handle.
    pub open spec fn with_downgrade(self) -> CellView<T> {
        CellView { weak: self.weak + 1, ..self }
    }

    /// Asking for a strong handle through a weak one: granted while the
    /// payload exists, whatever the weak count.
    pub open spec fn with_upgrade(self) -> CellView<T> {
        if self.strong > 0 {
            CellView { strong: self.strong + 1, ..self }
        } else {
            self
        }
    }

    /// Giving up a weak handle.
    pub open spec fn with_weak_drop(self) -> CellView<T> {
        CellView { weak: (self.weak - 1) as nat, ..self }
    }

    /// The cell with its views as `borrow` says.
    pub open spec fn with_borrow(self, borrow: BorrowState) -> CellView<T> {
        CellView { borrow, ..self }
    }

    /// The cell with `value` as its payload.
    pub open spec fn with_value(self, value: T) -> CellView<T> {
        CellView { value: Some(value), ..self }
    }

    /// Whether `op` can be asked of the cell: the strong operations need a
    /// strong handle to exist, the weak ones a weak handle; and the last
    /// strong handle cannot be given up while a view is outstanding, since a
    /// view is taken through a strong handle and ends before it.
    pub open spec fn permits(self, op: CountOp) -> bool {
        match op {
            CountOp::Clone | CountOp::Downgrade => self.strong > 0,
            CountOp::Drop => self.strong > 1 || (self.strong == 1 && self.borrow
                == BorrowState::Unborrowed),
            CountOp::Upgrade | CountOp::DropWeak => self.weak > 0,
        }
    }

    /// The cell after `op`.
    pub open spec fn step(self, op: CountOp) -> CellView<T> {
        match op {
            CountOp::Clone => self.with_clone(),
            CountOp::Drop => self.with_drop(),
            CountOp::Downgrade => self.with_downgrade(),
            CountOp::Upgrade => self.with_upgrade(),
            CountOp::DropWeak => self.with_weak_drop(),
        }
    }

    /// The cell after the operations `ops`, in order.
    pub open spec fn replay(self, ops: Seq<CountOp>) -> CellView<T>
        decreases ops.len(),
    {
        if ops.len() == 0 {
            self
        } else {
            self.replay(ops.drop_last()).step(ops.last())
        }
    }

    /// Whether each of `ops` can be asked of the cell when its turn comes.
    pub open spec fn permits_all(self, ops: Seq<CountOp>) -> bool
        decreases ops.len(),
    {
        ops.len() == 0 || (self.permits_all(ops.drop_last()) && self.replay(
            ops.drop_last(),
        ).permits(ops.last()))
    }

    /// How often the payload is destroyed in the course of `ops`: the number
    /// of drops that find the strong count at one.
    pub open spec fn destructions(self, ops: Seq<CountOp>) -> nat
        decreases ops.len(),
    {
        if ops.len() == 0 {
            0
        } else {
            self.destructions(ops.drop_last()) + if ops.last() is Drop && self.replay(
                ops.drop_last(),
            ).strong == 1 {
                1nat
            } else {
                0nat
            }
        }
    }

    /// After any run of clones and drops, the strong count is what it was,
    /// plus the clones, minus the drops.
    pub proof fn lemma_strong_count_tallies(self, ops: Seq<CountOp>)
        requires
            self.permits_all(ops),
            forall|k: int| 0 <= k < ops.len() ==> ops[k] is Clone || ops[k] is Drop,
        ensures
            self.replay(ops).strong == self.strong + occurrences(ops, CountOp::Clone)
                - occurrences(ops, CountOp::Drop),
            occurrences(ops, CountOp::Drop) <= self.strong + occurrences(ops, CountOp::Clone),
        decreases ops.len(),
    {
        if ops.len() > 0 {
            self.lemma_strong_count_tallies(ops.drop_last());
            assert(ops.last() == ops[ops.len() - 1]);
        }
    }

    /// On a newly allocated cell, the strong count after any run of clones
    /// and drops is one, plus the clones, minus the drops.
    pub proof fn lemma_fresh_strong_count(value: T, ops: Seq<CountOp>)
        requires
            Self::fresh(value).permits_all(ops),
            forall|k: int| 0 <= k < ops.len() ==> ops[k] is Clone || ops[k] is Drop,
        ensures
            Self::fresh(value).replay(ops).strong == 1 + occurrences(ops, CountOp::Clone)
                - occurrences(ops, CountOp::Drop),
    {
        Self::fresh(value).lemma_strong_count_tallies(ops);
    }

    /// Whatever is done to the counts, the payload is destroyed at most once:
    /// once exactly when the strong count has come to zero, however many weak
    /// handles there are; and a cell stays well formed.
    pub proof fn lemma_destroyed_once(self, ops: Seq<CountOp>)
        requires
            self.wf(),
            self.alive(),
            self.permits_all(ops),
        ensures
            self.replay(ops).wf(),
            self.replay(ops).borrow == self.borrow,
            self.destructions(ops) <= 1,
            self.destructions(ops) == 1 <==> self.replay(ops).strong == 0,
            self.destructions(ops) == 0 <==> self.replay(ops).value == self.value,
        decreases ops.len(),
    {
        if ops.len() > 0 {
            self.lemma_destroyed_once(ops.drop_last());
        }
    }
}

/// How often `op` occurs in `ops`.
pub open spec fn occurrences(ops: Seq<CountOp>, op: CountOp) -> nat
    decreases ops.len(),
{
    if ops.len() == 0 {
        0
    } else {
        occurrences(ops.drop_last(), op) + if ops.last() == op {
            1nat
        } else {
            0nat
        }
    }
}

} // verus!
