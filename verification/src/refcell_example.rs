//! A worked example: three lists that share a tail, whose first number
//! lives in a shared cell of its own. The number is changed through one
//! handle, and the change is seen through every list.

use crate::cell::{BorrowError, BorrowState, CellView};
use crate::heap::Heap;
use crate::ledger::{
    external, lemma_externals_from_wf, lemma_in_degree_update, lemma_plain_fits, one_at,
};
use crate::linked::Link;
use crate::refs::{hits, lemma_hits_push, CellRef, Handle, Holder, Payload, WeakHandle};
use vstd::prelude::*;

verus! {

/// What a cell of this example holds: a number, or a list node. The number
/// of a node is not in the node: the node owns a handle to the cell that
/// holds it, so that several owners can share and change it.
#[derive(Debug)]
pub enum Shared {
    /// A number that can be shared.
    Number(i32),
    /// A list node: the handle to its number, and what follows.
    Cons(Handle, Link),
}

impl View for Shared {
    type V = Shared;

    open spec fn view(&self) -> Shared {
        *self
    }
}

impl Holder for Shared {
    open spec fn strong_refs(&self) -> Seq<Handle> {
        match self {
            Shared::Number(_) => Seq::empty(),
            Shared::Cons(number, Link::End) => seq![*number],
            Shared::Cons(number, Link::Next(next)) => seq![*number, *next],
        }
    }

    open spec fn weak_refs(&self) -> Seq<WeakHandle> {
        Seq::empty()
    }
}

impl Payload for Shared {
    fn into_refs(self) -> (refs: (Vec<Handle>, Vec<WeakHandle>)) {
        let mut strong: Vec<Handle> = Vec::new();
        match self {
            Shared::Number(_) => {},
            Shared::Cons(number, Link::End) => {
                strong.push(number);
                assert(strong@ =~= seq![number]);
            },
            Shared::Cons(number, Link::Next(next)) => {
                strong.push(number);
                strong.push(next);
                assert(strong@ =~= seq![number, next]);
            },
        }
        (strong, Vec::new())
    }
}

/// A node counts once for the cell of its number and once for the cell
/// that follows it.
pub proof fn lemma_node_hits(number: Handle, next: Link, target: int)
    ensures
        hits((Shared::Cons(number, next)).strong_refs(), target) == one_at(
            target,
            number.id() as int,
        ) + next.leads_to(target),
        hits((Shared::Cons(number, next)).weak_refs(), target) == 0,
{
    lemma_hits_push(Seq::<Handle>::empty(), number, target);
    assert(Seq::<Handle>::empty().push(number) =~= seq![number]);
    match next {
        Link::Next(h) => {
            lemma_hits_push(seq![number], h, target);
            assert(seq![number].push(h) =~= seq![number, h]);
        },
        Link::End => {},
    }
}

/// Whether the cell `id` holds a number.
pub open spec fn is_number(s: Seq<CellView<Shared>>, id: int) -> bool {
    0 <= id < s.len() && s[id].value matches Some(Shared::Number(_))
}

/// Whether the cell `id` holds a list node.
pub open spec fn is_node(s: Seq<CellView<Shared>>, id: int) -> bool {
    0 <= id < s.len() && s[id].value matches Some(Shared::Cons(_, _))
}

/// The number in the cell `id`.
pub open spec fn number_in(s: Seq<CellView<Shared>>, id: int) -> i32 {
    match s[id].value {
        Some(Shared::Number(n)) => n,
        _ => 0,
    }
}

/// The lists of a heap are in shape when each node's number handle leads to
/// a number and its link to a node, both in cells allocated before its own.
/// A list in such a heap ends.
pub open spec fn shaped(s: Seq<CellView<Shared>>) -> bool {
    forall|i: int|
        0 <= i < s.len() ==> match (#[trigger] s[i]).value {
            Some(Shared::Cons(number, next)) => {
                &&& number.id() < i
                &&& is_number(s, number.id() as int)
                &&& next matches Link::Next(n) ==> n.id() < i && is_node(s, n.id() as int)
            },
            _ => true,
        }
}

/// The numbers of the list that begins in the cell `id`, first to last,
/// each as its cell holds it now.
pub open spec fn shown(s: Seq<CellView<Shared>>, id: int) -> Seq<i32>
    decreases id,
{
    if 0 <= id < s.len() {
        match s[id].value {
            Some(Shared::Cons(number, next)) => seq![number_in(s, number.id() as int)] + match next {
                Link::Next(n) => if n.id() < id {
                    shown(s, n.id() as int)
                } else {
                    Seq::empty()
                },
                Link::End => Seq::empty(),
            },
            _ => Seq::empty(),
        }
    } else {
        Seq::empty()
    }
}

/// The lists stay in shape when a heap in shape is changed in these ways
/// only: a number takes the place of a number, and one cell is added, which
/// holds a number or a node whose handles lead to cells that were there.
pub proof fn lemma_shape_kept(s: Seq<CellView<Shared>>, after: Seq<CellView<Shared>>)
    requires
        shaped(s),
        s.len() <= after.len() <= s.len() + 1,
        forall|i: int|
            0 <= i < s.len() ==> (#[trigger] after[i]).value == s[i].value || (is_number(s, i)
                && is_number(after, i)),
        after.len() > s.len() ==> match after[s.len() as int].value {
            Some(Shared::Cons(number, next)) => {
                &&& is_number(s, number.id() as int)
                &&& next matches Link::Next(n) ==> is_node(s, n.id() as int)
            },
            _ => true,
        },
    ensures
        shaped(after),
{
    assert forall|i: int| 0 <= i < after.len() implies match (#[trigger] after[i]).value {
        Some(Shared::Cons(number, next)) => {
            &&& number.id() < i
            &&& is_number(after, number.id() as int)
            &&& next matches Link::Next(n) ==> n.id() < i && is_node(after, n.id() as int)
        },
        _ => true,
    } by {
        match after[i].value {
            Some(Shared::Cons(number, next)) => {
                if i < s.len() {
                    assert(s[i].value == after[i].value);
                }
                let m = number.id() as int;
                assert(after[m].value == s[m].value || (is_number(s, m) && is_number(after, m)));
                match next {
                    Link::Next(n) => {
                        let k = n.id() as int;
                        assert(after[k].value == s[k].value || (is_number(s, k) && is_number(
                            after,
                            k,
                        )));
                    },
                    Link::End => {},
                }
            },
            _ => {},
        }
    }
}

impl Heap<Shared> {
    /// Allocates a cell for the number `n`.
    pub fn number(&mut self, n: i32) -> (h: Handle)
        requires
            old(self).wf(),
        ensures
            final(self).wf(),
            final(self)@ == old(self)@.push(CellView::fresh(Shared::Number(n))),
            h.id() == old(self)@.len(),
            forall|t: int, weak: bool| #[trigger]
                external(final(self)@, t, weak) == external(old(self)@, t, weak) + if !weak {
                    one_at(t, h.id() as int)
                } else {
                    0
                },
            shaped(old(self)@) ==> shaped(final(self)@),
    {
        proof {
            lemma_plain_fits(old(self)@, Shared::Number(n));
        }
        let h = self.allocate(Shared::Number(n));
        proof {
            if shaped(old(self)@) {
                lemma_shape_kept(old(self)@, self@);
            }
        }
        h
    }

    /// Allocates a list node whose number is in the cell of `number` and
    /// which is followed by `next`. Both handles pass to the new node.
    pub fn cons_shared(&mut self, number: Handle, next: Link) -> (h: Handle)
        requires
            old(self).wf(),
            shaped(old(self)@),
            old(self).owns(&number),
            is_number(old(self)@, number.id() as int),
            next matches Link::Next(n) ==> old(self).owns(&n) && is_node(
                old(self)@,
                n.id() as int,
            ),
        ensures
            final(self).wf(),
            shaped(final(self)@),
            final(self)@ == old(self)@.push(CellView::fresh(Shared::Cons(number, next))),
            h.id() == old(self)@.len(),
            forall|t: int| #[trigger]
                external(final(self)@, t, false) == external(old(self)@, t, false) + one_at(
                    t,
                    h.id() as int,
                ) - one_at(t, number.id() as int) - next.leads_to(t),
            forall|t: int| #[trigger]
                external(final(self)@, t, true) == external(old(self)@, t, true),
    {
        let ghost s = self@;
        let ghost node = Shared::Cons(number, next);
        proof {
            lemma_externals_from_wf(s);
            assert forall|t: int| #[trigger]
                hits(node.strong_refs(), t) == one_at(t, number.id() as int) + next.leads_to(t)
                    && hits(node.weak_refs(), t) == 0 by {
                lemma_node_hits(number, next, t);
            }
            assert forall|t: int|
                0 <= t < s.len() && (#[trigger] s[t]).borrow
                    != BorrowState::Unborrowed implies hits(node.strong_refs(), t) < external(
                s,
                t,
                false,
            ) by {
                assert(hits(node.strong_refs(), t) == one_at(t, number.id() as int)
                    + next.leads_to(t));
                assert(external(s, t, false) >= 1);
            }
        }
        let h = self.allocate(Shared::Cons(number, next));
        proof {
            lemma_shape_kept(s, self@);
        }
        h
    }

    /// Adds `amount` to the number in the cell of `number`, within a write
    /// view of its own. Nothing is changed, and the conflict is returned,
    /// if a view of the cell is outstanding.
    pub fn add(&mut self, number: &Handle, amount: i32) -> (r: Result<(), BorrowError>)
        requires
            old(self).wf(),
            old(self).holds(number),
            is_number(old(self)@, number.id() as int),
            i32::MIN <= number_in(old(self)@, number.id() as int) + amount <= i32::MAX,
        ensures
            final(self).wf(),
            shaped(old(self)@) ==> shaped(final(self)@),
            forall|t: int, weak: bool| #[trigger]
                external(final(self)@, t, weak) == external(old(self)@, t, weak),
            match old(self)@[number.id() as int].borrow.try_exclusive() {
                Ok(_) => r == Ok::<(), BorrowError>(()) && final(self)@ == old(self)@.update(
                    number.id() as int,
                    old(self)@[number.id() as int].with_value(
                        Shared::Number(
                            (number_in(old(self)@, number.id() as int) + amount) as i32,
                        ),
                    ),
                ),
                Err(e) => r == Err::<(), BorrowError>(e) && final(self)@ == old(self)@,
            },
    {
        let ghost s = self@;
        let ghost id = number.id() as int;
        match self.borrow_mut(number) {
            Err(e) => Err(e),
            Ok(view) => {
                let sum = match self.peek(&view) {
                    Shared::Number(n) => *n + amount,
                    Shared::Cons(_, _) => vstd::pervasive::unreached(),
                };
                proof {
                    lemma_plain_fits(self@, Shared::Number(sum));
                }
                let _ = self.write(&view, Shared::Number(sum));
                self.release_mut(view);
                proof {
                    assert(self@ =~= s.update(id, s[id].with_value(Shared::Number(sum))));
                    assert forall|t: int, weak: bool| #[trigger]
                        external(self@, t, weak) == external(s, t, weak) by {
                        lemma_in_degree_update(
                            s,
                            id,
                            s[id].with_value(Shared::Number(sum)),
                            t,
                            weak,
                        );
                    }
                    if shaped(s) {
                        lemma_shape_kept(s, self@);
                    }
                }
                Ok(())
            },
        }
    }

    /// The numbers of the list that begins at `head`, first to last, each
    /// read from the cell that holds it.
    pub fn numbers(&self, head: &Handle) -> (r: Vec<i32>)
        requires
            shaped(self@),
            is_node(self@, head.id() as int),
        ensures
            r@ == shown(self@, head.id() as int),
    {
        let mut out: Vec<i32> = Vec::new();
        let mut cur: usize = head.index();
        assert(out@ + shown(self@, cur as int) =~= shown(self@, cur as int));
        loop
            invariant
                shaped(self@),
                is_node(self@, cur as int),
                out@ + shown(self@, cur as int) == shown(self@, head.id() as int),
            decreases cur,
        {
            let ghost before = out@;
            assert(self@[cur as int].value is Some);
            match self.payload(cur) {
                Shared::Cons(number, next) => {
                    match self.payload(number.index()) {
                        Shared::Number(n) => {
                            out.push(*n);
                        },
                        Shared::Cons(_, _) => vstd::pervasive::unreached(),
                    }
                    match next {
                        Link::Next(h) => {
                            proof {
                                assert(out@ + shown(self@, h.id() as int) =~= before + (
                                seq![number_in(self@, number.id() as int)] + shown(
                                    self@,
                                    h.id() as int,
                                )));
                            }
                            cur = h.index();
                        },
                        Link::End => {
                            proof {
                                assert(out@ =~= before + (seq![
                                    number_in(self@, number.id() as int),
                                ] + Seq::<i32>::empty()));
                            }
                            return out;
                        },
                    }
                },
                Shared::Number(_) => vstd::pervasive::unreached(),
            }
        }
    }
}

/// What the example observes.
#[derive(Debug, PartialEq, Eq)]
pub struct SharedValueTrace {
    /// The number of strong handles to the shared number: the one it was
    /// made with, and the one in the first list.
    pub number_sharers: usize,
    /// The number of strong handles to the first list: its own, and one in
    /// each of the two lists put in front of it.
    pub list_sharers: usize,
    /// Whether a second write view was granted while the first was held.
    pub nested_write_granted: bool,
    /// The numbers of the three lists after the change.
    pub a_after: Vec<i32>,
    pub b_after: Vec<i32>,
    pub c_after: Vec<i32>,
}

/// Whether `trace` is what the example yields: the number has two owners
/// and the first list three; a second write view is refused; and the sum,
/// written once, is seen through all three lists, behind a three and a four
/// that are as they were.
pub open spec fn is_shared_value_trace(trace: SharedValueTrace) -> bool {
    &&& trace.number_sharers == 2
    &&& trace.list_sharers == 3
    &&& !trace.nested_write_granted
    &&& trace.a_after@ == seq![15i32]
    &&& trace.b_after@ == seq![3i32, 15i32]
    &&& trace.c_after@ == seq![4i32, 15i32]
}

/// The heap of the example before the change: five in a shared cell and
/// the list `a` of it, and the lists `b` and `c`, which put a three and a
/// four in front of `a` and share it. The handles returned are those to the
/// five and to `a`, `b` and `c`.
#[verifier::rlimit(50)]
fn build_lists() -> (r: (Heap<Shared>, Handle, Handle, Handle, Handle))
    ensures
        r.0.wf(),
        shaped(r.0@),
        r.0@.len() == 6,
        r.1.id() == 0,
        r.2.id() == 1,
        r.3.id() == 3,
        r.4.id() == 5,
        r.0.holds(&r.1),
        r.0@[0].value == Some(Shared::Number(5)),
        r.0@[0].strong == 2,
        r.0@[0].borrow == BorrowState::Unborrowed,
        r.0@[1].value == Some(Shared::Cons(r.1, Link::End)),
        r.0@[1].strong == 3,
        r.0@[2].value == Some(Shared::Number(3)),
        r.0@[3].value matches Some(Shared::Cons(n, Link::Next(t))) && n.id() == 2 && t.id() == 1,
        r.0@[4].value == Some(Shared::Number(4)),
        r.0@[5].value matches Some(Shared::Cons(n, Link::Next(t))) && n.id() == 4 && t.id() == 1,
{
    let mut heap: Heap<Shared> = Heap::new();
    let value = heap.number(5);
    let in_a = heap.clone_handle(&value);
    proof {
        Handle::lemma_same_cell(in_a, value);
    }
    let a = heap.cons_shared(in_a, Link::End);
    let three = heap.number(3);
    let a_in_b = heap.clone_handle(&a);
    let b = heap.cons_shared(three, Link::Next(a_in_b));
    let four = heap.number(4);
    let a_in_c = heap.clone_handle(&a);
    let c = heap.cons_shared(four, Link::Next(a_in_c));
    (heap, value, a, b, c)
}

/// Puts five in a shared cell and makes a list of it; puts a three and a
/// four in front of that list, sharing it; then adds ten to the five through
/// the handle it was made with. While a write view of the number is held, a
/// second one is refused.
#[verifier::rlimit(50)]
pub fn cons_example_again() -> (trace: SharedValueTrace)
    ensures
        is_shared_value_trace(trace),
{
    let (mut heap, value, a, b, c) = build_lists();
    let ghost built = heap@;
    let number_sharers = heap.strong_count(&value);
    let list_sharers = heap.strong_count(&a);
    let nested_write_granted = match heap.borrow_mut(&value) {
        Ok(view) => {
            let nested = match heap.borrow_mut(&value) {
                Ok(second) => {
                    heap.release_mut(second);
                    true
                },
                Err(_) => false,
            };
            heap.release_mut(view);
            nested
        },
        Err(_) => vstd::pervasive::unreached(),
    };
    assert(heap@ =~= built);
    let changed = heap.add(&value, 10);
    proof {
        let after = heap@;
        assert(after[0].value == Some(Shared::Number(15)));
        assert(forall|i: int| 1 <= i < 6 ==> after[i] == built[i]);
        reveal_with_fuel(shown, 3);
        assert(shown(after, 1) =~= seq![15i32]);
        assert(shown(after, 3) =~= seq![3i32, 15i32]);
        assert(shown(after, 5) =~= seq![4i32, 15i32]);
    }
    let a_after = heap.numbers(&a);
    let b_after = heap.numbers(&b);
    let c_after = heap.numbers(&c);
    SharedValueTrace { number_sharers, list_sharers, nested_write_granted, a_after, b_after, c_after }
}

/// The example above, after a plain number to compare with.
pub fn run() -> (r: (i32, SharedValueTrace))
    ensures
        r.0 == 5,
        is_shared_value_trace(r.1),
{
    let x: i32 = 5;
    (x, cons_example_again())
}

} // verus!
