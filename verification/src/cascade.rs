//! Dropping a strong handle: when the last handle to a cell goes, the payload
//! is destroyed, and every handle that the payload held is dropped in turn.

use crate::cell::{BorrowState, CellView};
use crate::heap::Heap;
use crate::ledger::{
    external, heap_wf, held, in_degree, lemma_externals_from_wf, lemma_in_degree_same_payload,
    lemma_in_degree_update, lemma_wf_from_externals, one_at,
};
use crate::refs::{hits, lemma_hits_concat, CellRef, Handle, Holder, Payload, WeakHandle};
use vstd::prelude::*;

verus! {

/// The sum of the strong counts of the first `n` cells.
pub open spec fn total_strong_upto<V>(s: Seq<CellView<V>>, n: int) -> nat
    decreases n,
{
    if n <= 0 {
        0
    } else {
        total_strong_upto(s, n - 1) + s[n - 1].strong
    }
}

/// The sum of all strong counts.
pub open spec fn total_strong<V>(s: Seq<CellView<V>>) -> nat {
    total_strong_upto(s, s.len() as int)
}

/// [`lemma_total_strong_update`], for the first `n` cells.
proof fn lemma_total_strong_upto_update<V>(s: Seq<CellView<V>>, j: int, c: CellView<V>, n: int)
    requires
        0 <= j < s.len(),
        0 <= n <= s.len(),
    ensures
        total_strong_upto(s.update(j, c), n) + (if j < n {
            s[j].strong
        } else {
            0
        }) == total_strong_upto(s, n) + (if j < n {
            c.strong
        } else {
            0
        }),
    decreases n,
{
    if n > 0 {
        lemma_total_strong_upto_update(s, j, c, n - 1);
    }
}

/// Replacing a cell changes the sum of the strong counts by what the strong
/// count of that cell changes.
pub proof fn lemma_total_strong_update<V>(s: Seq<CellView<V>>, j: int, c: CellView<V>)
    requires
        0 <= j < s.len(),
    ensures
        total_strong(s.update(j, c)) + s[j].strong == total_strong(s) + c.strong,
{
    lemma_total_strong_upto_update(s, j, c, s.len() as int);
}

/// The heap after the strong handles `pending` have been dropped, last one
/// first, and with them every strong handle held by a payload that this
/// destroys; and the weak handles that the destroyed payloads held, in the
/// order of destruction. A handle to a cell without payload is passed over.
pub open spec fn unravel<V: Holder>(s: Seq<CellView<V>>, pending: Seq<Handle>) -> (
    Seq<CellView<V>>,
    Seq<WeakHandle>,
)
    decreases total_strong(s), pending.len(),
{
    if pending.len() == 0 {
        (s, Seq::empty())
    } else {
        let id = pending.last().id() as int;
        let rest = pending.drop_last();
        if id < s.len() && s[id].strong > 0 {
            proof {
                lemma_total_strong_update(s, id, s[id].with_drop());
            }
            let s1 = s.update(id, s[id].with_drop());
            if s[id].strong == 1 && s[id].value is Some {
                let v = s[id].value->Some_0;
                let (s2, ws) = unravel(s1, rest + v.strong_refs());
                (s2, v.weak_refs() + ws)
            } else {
                unravel(s1, rest)
            }
        } else {
            unravel(s, rest)
        }
    }
}

/// The heap after the weak handles `ws` have been dropped.
pub open spec fn drop_weak_all<V>(s: Seq<CellView<V>>, ws: Seq<WeakHandle>) -> Seq<CellView<V>>
    decreases ws.len(),
{
    if ws.len() == 0 {
        s
    } else {
        let id = ws.last().id() as int;
        let s1 = if id < s.len() {
            s.update(id, s[id].with_weak_drop())
        } else {
            s
        };
        drop_weak_all(s1, ws.drop_last())
    }
}

/// The heap after the strong handle `h` has been dropped and everything
/// that this destroys has let go of what it held.
pub open spec fn after_drop<V: Holder>(s: Seq<CellView<V>>, h: Handle) -> Seq<CellView<V>> {
    drop_weak_all(unravel(s, seq![h]).0, unravel(s, seq![h]).1)
}

/// Whether the heap `a` is the heap `b` but for counts that have gone down
/// and payloads that are gone: no view has changed, no payload has been
/// altered, and no payload holds more than it did.
pub open spec fn withered<V: Holder>(a: Seq<CellView<V>>, b: Seq<CellView<V>>) -> bool {
    &&& a.len() == b.len()
    &&& forall|i: int|
        0 <= i < b.len() ==> {
            &&& (#[trigger] a[i]).borrow == b[i].borrow
            &&& a[i].strong <= b[i].strong
            &&& a[i].weak <= b[i].weak
            &&& (a[i].value == b[i].value || a[i].value is None)
        }
    &&& forall|t: int, weak: bool| #[trigger] in_degree(a, t, weak) <= in_degree(b, t, weak)
}

/// Dropping a handle that is not the last one to its cell only lowers the
/// strong count.
pub proof fn lemma_drop_shared<V: Holder>(s: Seq<CellView<V>>, h: Handle)
    requires
        h.id() < s.len(),
        s[h.id() as int].strong > 1,
    ensures
        after_drop(s, h) == s.update(h.id() as int, s[h.id() as int].with_drop()),
{
    reveal_with_fuel(unravel, 2);
    assert(seq![h].drop_last() =~= Seq::<Handle>::empty());
}

/// Dropping the last handle to a cell whose payload holds no handle
/// destroys that payload and touches nothing else.
pub proof fn lemma_drop_last_plain<V: Holder>(s: Seq<CellView<V>>, h: Handle)
    requires
        h.id() < s.len(),
        s[h.id() as int].strong == 1,
        s[h.id() as int].value is Some,
        s[h.id() as int].value->Some_0.strong_refs().len() == 0,
        s[h.id() as int].value->Some_0.weak_refs().len() == 0,
    ensures
        after_drop(s, h) == s.update(h.id() as int, s[h.id() as int].with_drop()),
{
    reveal_with_fuel(unravel, 2);
    let v = s[h.id() as int].value->Some_0;
    assert(seq![h].drop_last() + v.strong_refs() =~= Seq::<Handle>::empty());
    assert(v.weak_refs() + Seq::<WeakHandle>::empty() =~= Seq::<WeakHandle>::empty());
}

/// Whether the accounts of the heap `s` add up when the handles `pending`
/// and `released` are counted among those outside the heap: each cell is
/// well formed, has at least as many handles outside the heap as are listed,
/// and one strong handle more where a view of it is outstanding.
pub open spec fn balanced_with<V: Holder>(
    s: Seq<CellView<V>>,
    pending: Seq<Handle>,
    released: Seq<WeakHandle>,
) -> bool {
    &&& forall|i: int| 0 <= i < s.len() ==> (#[trigger] s[i]).wf()
    &&& forall|t: int| #[trigger] external(s, t, false) >= hits(pending, t)
    &&& forall|t: int| #[trigger] external(s, t, true) >= hits(released, t)
    &&& forall|i: int|
        0 <= i < s.len() && (#[trigger] s[i]).borrow != BorrowState::Unborrowed ==> external(
            s,
            i,
            false,
        ) > hits(pending, i)
}

/// Accounts that add up with handles listed add up without them.
proof fn lemma_balanced_is_wf<V: Holder>(
    s: Seq<CellView<V>>,
    pending: Seq<Handle>,
    released: Seq<WeakHandle>,
)
    requires
        balanced_with(s, pending, released),
    ensures
        heap_wf(s),
{
    assert forall|t: int, weak: bool| #[trigger] external(s, t, weak) >= 0 by {
        assert(external(s, t, false) >= hits(pending, t));
        assert(external(s, t, true) >= hits(released, t));
    }
    assert forall|i: int|
        0 <= i < s.len() && (#[trigger] s[i]).borrow != BorrowState::Unborrowed implies external(
        s,
        i,
        false,
    ) >= 1 by {
        assert(external(s, i, false) > hits(pending, i));
    }
    lemma_wf_from_externals(s);
}

/// What dropping the last of the handles `pending` does: the handle can be
/// given up; the accounts add up afterwards, with the handles of a destroyed
/// payload listed in its place; and the strong counts have gone down.
proof fn lemma_unravel_step<V: Holder>(
    s: Seq<CellView<V>>,
    pending: Seq<Handle>,
    released: Seq<WeakHandle>,
)
    requires
        balanced_with(s, pending, released),
        pending.len() > 0,
    ensures
        ({
            let id = pending.last().id() as int;
            let s1 = s.update(id, s[id].with_drop());
            let next = if s[id].strong == 1 {
                pending.drop_last() + s[id].value->Some_0.strong_refs()
            } else {
                pending.drop_last()
            };
            let freed = if s[id].strong == 1 {
                s[id].value->Some_0.weak_refs()
            } else {
                Seq::<WeakHandle>::empty()
            };
            &&& heap_wf(s)
            &&& 0 <= id < s.len()
            &&& s[id].strong > 0
            &&& s[id].value is Some
            &&& external(s, id, false) >= 1
            &&& s[id].borrow != BorrowState::Unborrowed ==> external(s, id, false) >= 2
            &&& balanced_with(s1, next, released + freed)
            &&& total_strong(s1) < total_strong(s)
            &&& withered(s1, s)
            &&& forall|t: int| #[trigger]
                external(s1, t, false) - hits(next, t) == external(s, t, false) - hits(pending, t)
            &&& forall|t: int| #[trigger]
                external(s1, t, true) - hits(released + freed, t) == external(s, t, true) - hits(
                    released,
                    t,
                )
            &&& unravel(s, pending).0 == unravel(s1, next).0
            &&& unravel(s, pending).1 == freed + unravel(s1, next).1
        }),
{
    let id = pending.last().id() as int;
    let rest = pending.drop_last();
    lemma_balanced_is_wf(s, pending, released);
    assert(hits(pending, id) >= 1);
    assert(external(s, id, false) >= hits(pending, id));
    assert(0 <= id < s.len());
    assert(s[id].wf());
    let s1 = s.update(id, s[id].with_drop());
    let next = if s[id].strong == 1 {
        rest + s[id].value->Some_0.strong_refs()
    } else {
        rest
    };
    let freed = if s[id].strong == 1 {
        s[id].value->Some_0.weak_refs()
    } else {
        Seq::<WeakHandle>::empty()
    };
    lemma_total_strong_update(s, id, s[id].with_drop());
    assert forall|t: int, weak: bool|
        in_degree(s1, t, weak) + held(s[id], t, weak) == in_degree(s, t, weak) + held(
            s1[id],
            t,
            weak,
        ) by {
        lemma_in_degree_update(s, id, s[id].with_drop(), t, weak);
    }
    assert(withered(s1, s));
    assert forall|t: int| #[trigger]
        external(s1, t, false) - hits(next, t) == external(s, t, false) - hits(pending, t) by {
        if s[id].strong == 1 {
            lemma_hits_concat(rest, s[id].value->Some_0.strong_refs(), t);
        }
        assert(in_degree(s1, t, false) + held(s[id], t, false) == in_degree(s, t, false) + held(
            s1[id],
            t,
            false,
        ));
    }
    assert forall|t: int| #[trigger]
        external(s1, t, true) - hits(released + freed, t) == external(s, t, true) - hits(
            released,
            t,
        ) by {
        lemma_hits_concat(released, freed, t);
        assert(in_degree(s1, t, true) + held(s[id], t, true) == in_degree(s, t, true) + held(
            s1[id],
            t,
            true,
        ));
    }
    assert forall|t: int| #[trigger] external(s1, t, false) >= hits(next, t) by {
        assert(external(s1, t, false) - hits(next, t) == external(s, t, false) - hits(pending, t));
        assert(external(s, t, false) >= hits(pending, t));
    }
    assert forall|t: int| #[trigger] external(s1, t, true) >= hits(released + freed, t) by {
        assert(external(s1, t, true) - hits(released + freed, t) == external(s, t, true) - hits(
            released,
            t,
        ));
        assert(external(s, t, true) >= hits(released, t));
    }
    assert forall|i: int|
        0 <= i < s1.len() && (#[trigger] s1[i]).borrow != BorrowState::Unborrowed implies external(
        s1,
        i,
        false,
    ) > hits(next, i) by {
        assert(s[i].borrow != BorrowState::Unborrowed);
        assert(external(s1, i, false) - hits(next, i) == external(s, i, false) - hits(pending, i));
    }
    assert forall|i: int| 0 <= i < s1.len() implies (#[trigger] s1[i]).wf() by {
        assert(s[i].wf());
    }
    assert(unravel(s, pending).1 == freed + unravel(s1, next).1) by {
        assert(Seq::<WeakHandle>::empty() + unravel(s1, next).1 =~= unravel(s1, next).1);
    }
}

/// Dropping strong handles that are held outside the heap, and what that
/// destroys, keeps the accounts: each cell loses the handles listed for it
/// and no other handle outside the heap; the weak handles that come free
/// are outside the heap then; and nothing but counts and destroyed payloads
/// has changed.
pub proof fn lemma_unravel_keeps_accounts<V: Holder>(
    s: Seq<CellView<V>>,
    pending: Seq<Handle>,
    released: Seq<WeakHandle>,
)
    requires
        balanced_with(s, pending, released),
    ensures
        balanced_with(unravel(s, pending).0, Seq::empty(), released + unravel(s, pending).1),
        withered(unravel(s, pending).0, s),
        forall|t: int| #[trigger]
            external(unravel(s, pending).0, t, false) == external(s, t, false) - hits(pending, t),
        forall|t: int| #[trigger]
            external(unravel(s, pending).0, t, true) - hits(released + unravel(s, pending).1, t)
                == external(s, t, true) - hits(released, t),
    decreases total_strong(s), pending.len(),
{
    if pending.len() == 0 {
        assert(released + Seq::<WeakHandle>::empty() =~= released);
        assert forall|i: int|
            0 <= i < s.len() && (#[trigger] s[i]).borrow
                != BorrowState::Unborrowed implies external(s, i, false) > hits(
            Seq::<Handle>::empty(),
            i,
        ) by {
            assert(external(s, i, false) > hits(pending, i));
        }
    } else {
        let id = pending.last().id() as int;
        let s1 = s.update(id, s[id].with_drop());
        let next = if s[id].strong == 1 {
            pending.drop_last() + s[id].value->Some_0.strong_refs()
        } else {
            pending.drop_last()
        };
        let freed = if s[id].strong == 1 {
            s[id].value->Some_0.weak_refs()
        } else {
            Seq::<WeakHandle>::empty()
        };
        lemma_unravel_step(s, pending, released);
        lemma_unravel_keeps_accounts(s1, next, released + freed);
        let s2 = unravel(s1, next).0;
        let ws = unravel(s1, next).1;
        assert((released + freed) + ws =~= released + (freed + ws));
        assert forall|t: int| #[trigger]
            external(s2, t, false) == external(s, t, false) - hits(pending, t) by {
            assert(external(s2, t, false) == external(s1, t, false) - hits(next, t));
            assert(external(s1, t, false) - hits(next, t) == external(s, t, false) - hits(
                pending,
                t,
            ));
        }
        assert forall|t: int| #[trigger]
            external(s2, t, true) - hits(released + (freed + ws), t) == external(s, t, true)
                - hits(released, t) by {
            assert(external(s2, t, true) - hits((released + freed) + ws, t) == external(
                s1,
                t,
                true,
            ) - hits(released + freed, t));
            assert(external(s1, t, true) - hits(released + freed, t) == external(s, t, true)
                - hits(released, t));
        }
        assert forall|t: int, weak: bool| #[trigger]
            in_degree(s2, t, weak) <= in_degree(s, t, weak) by {
            assert(in_degree(s2, t, weak) <= in_degree(s1, t, weak));
            assert(in_degree(s1, t, weak) <= in_degree(s, t, weak));
        }
        assert(withered(s2, s));
    }
}

/// What giving up the last of the weak handles `ws` does: the handle can be
/// given up, and the accounts add up afterwards.
proof fn lemma_drop_weak_step<V: Holder>(s: Seq<CellView<V>>, ws: Seq<WeakHandle>)
    requires
        balanced_with(s, Seq::empty(), ws),
        ws.len() > 0,
    ensures
        ({
            let id = ws.last().id() as int;
            let s1 = s.update(id, s[id].with_weak_drop());
            &&& heap_wf(s)
            &&& 0 <= id < s.len()
            &&& external(s, id, true) >= 1
            &&& balanced_with(s1, Seq::empty(), ws.drop_last())
            &&& withered(s1, s)
            &&& forall|t: int| #[trigger] external(s1, t, false) == external(s, t, false)
            &&& forall|t: int| #[trigger]
                external(s1, t, true) - hits(ws.drop_last(), t) == external(s, t, true) - hits(
                    ws,
                    t,
                )
            &&& drop_weak_all(s, ws) == drop_weak_all(s1, ws.drop_last())
        }),
{
    let id = ws.last().id() as int;
    let rest = ws.drop_last();
    lemma_balanced_is_wf(s, Seq::empty(), ws);
    assert(hits(ws, id) >= 1);
    assert(external(s, id, true) >= hits(ws, id));
    assert(0 <= id < s.len());
    let s1 = s.update(id, s[id].with_weak_drop());
    lemma_in_degree_same_payload(s, id, s[id].with_weak_drop());
    assert(withered(s1, s));
    assert forall|t: int| #[trigger] external(s1, t, false) == external(s, t, false) by {}
    assert forall|t: int| #[trigger]
        external(s1, t, true) - hits(rest, t) == external(s, t, true) - hits(ws, t) by {}
    assert forall|t: int| #[trigger] external(s1, t, false) >= hits(Seq::<Handle>::empty(), t) by {
        assert(external(s, t, false) >= hits(Seq::<Handle>::empty(), t));
    }
    assert forall|t: int| #[trigger] external(s1, t, true) >= hits(rest, t) by {
        assert(external(s1, t, true) - hits(rest, t) == external(s, t, true) - hits(ws, t));
        assert(external(s, t, true) >= hits(ws, t));
    }
    assert forall|i: int|
        0 <= i < s1.len() && (#[trigger] s1[i]).borrow != BorrowState::Unborrowed implies external(
        s1,
        i,
        false,
    ) > hits(Seq::<Handle>::empty(), i) by {
        assert(s[i].borrow != BorrowState::Unborrowed);
        assert(external(s1, i, false) == external(s, i, false));
    }
    assert forall|i: int| 0 <= i < s1.len() implies (#[trigger] s1[i]).wf() by {
        assert(s[i].wf());
    }
}

/// Giving up weak handles that are held outside the heap keeps the
/// accounts: each cell loses the handles listed for it and no other.
pub proof fn lemma_drop_weak_all_keeps_accounts<V: Holder>(
    s: Seq<CellView<V>>,
    ws: Seq<WeakHandle>,
)
    requires
        balanced_with(s, Seq::empty(), ws),
    ensures
        heap_wf(drop_weak_all(s, ws)),
        withered(drop_weak_all(s, ws), s),
        forall|t: int| #[trigger]
            external(drop_weak_all(s, ws), t, false) == external(s, t, false),
        forall|t: int| #[trigger]
            external(drop_weak_all(s, ws), t, true) == external(s, t, true) - hits(ws, t),
    decreases ws.len(),
{
    if ws.len() == 0 {
        lemma_balanced_is_wf(s, Seq::empty(), ws);
    } else {
        let id = ws.last().id() as int;
        let s1 = s.update(id, s[id].with_weak_drop());
        lemma_drop_weak_step(s, ws);
        lemma_drop_weak_all_keeps_accounts(s1, ws.drop_last());
        let s2 = drop_weak_all(s1, ws.drop_last());
        assert forall|t: int| #[trigger] external(s2, t, false) == external(s, t, false) by {
            assert(external(s2, t, false) == external(s1, t, false));
            assert(external(s1, t, false) == external(s, t, false));
        }
        assert forall|t: int| #[trigger]
            external(s2, t, true) == external(s, t, true) - hits(ws, t) by {
            assert(external(s2, t, true) == external(s1, t, true) - hits(ws.drop_last(), t));
            assert(external(s1, t, true) - hits(ws.drop_last(), t) == external(s, t, true) - hits(
                ws,
                t,
            ));
        }
        assert forall|t: int, weak: bool| #[trigger]
            in_degree(s2, t, weak) <= in_degree(s, t, weak) by {
            assert(in_degree(s2, t, weak) <= in_degree(s1, t, weak));
            assert(in_degree(s1, t, weak) <= in_degree(s, t, weak));
        }
        assert(withered(s2, s));
    }
}

/// In a well-formed heap, the accounts add up with one handle listed that
/// can be given up.
proof fn lemma_owned_is_balanced<V: Holder>(s: Seq<CellView<V>>, h: Handle)
    requires
        heap_wf(s),
        h.id() < s.len(),
        external(s, h.id() as int, false) >= 1,
        s[h.id() as int].borrow != BorrowState::Unborrowed ==> external(s, h.id() as int, false)
            >= 2,
    ensures
        balanced_with(s, seq![h], Seq::empty()),
        forall|t: int| hits(seq![h], t) == one_at(t, h.id() as int),
{
    let pending = seq![h];
    assert(pending.drop_last() =~= Seq::<Handle>::empty());
    assert forall|t: int| hits(pending, t) == one_at(t, h.id() as int) by {
        assert(hits(pending.drop_last(), t) == 0);
    }
    lemma_externals_from_wf(s);
    assert forall|i: int|
        0 <= i < s.len() && (#[trigger] s[i]).borrow != BorrowState::Unborrowed implies external(
        s,
        i,
        false,
    ) > hits(pending, i) by {
        assert(external(s, i, false) >= 1);
    }
    assert forall|t: int| #[trigger] external(s, t, false) >= hits(pending, t) by {
        assert(external(s, t, false) >= 0);
    }
    assert forall|t: int| #[trigger] external(s, t, true) >= hits(
        Seq::<WeakHandle>::empty(),
        t,
    ) by {
        assert(external(s, t, true) >= 0);
    }
}

/// Dropping a strong handle that is held outside a well-formed heap leaves
/// the heap well formed. Its cell has one strong handle fewer, and one fewer
/// outside the heap; every other count of handles outside the heap is as it
/// was; nothing but counts and destroyed payloads has changed; and a cell to
/// which a handle is held outside the heap has kept its payload.
pub proof fn lemma_drop_keeps_accounts<V: Holder>(s: Seq<CellView<V>>, h: Handle)
    requires
        heap_wf(s),
        h.id() < s.len(),
        external(s, h.id() as int, false) >= 1,
        s[h.id() as int].borrow != BorrowState::Unborrowed ==> external(s, h.id() as int, false)
            >= 2,
    ensures
        heap_wf(after_drop(s, h)),
        withered(after_drop(s, h), s),
        after_drop(s, h)[h.id() as int].strong == s[h.id() as int].strong - 1,
        forall|t: int| #[trigger]
            external(after_drop(s, h), t, false) == external(s, t, false) - one_at(
                t,
                h.id() as int,
            ),
        forall|t: int| #[trigger] external(after_drop(s, h), t, true) == external(s, t, true),
        forall|t: int|
            0 <= t < s.len() && external(after_drop(s, h), t, false) >= 1 ==> (
            #[trigger] after_drop(s, h)[t]).value == s[t].value && after_drop(s, h)[t].strong >= 1,
        forall|t: int|
            0 <= t < s.len() && external(s, t, false) == s[t].strong ==> (#[trigger] after_drop(
                s,
                h,
            )[t]).strong == s[t].strong - one_at(t, h.id() as int),
        forall|t: int|
            0 <= t < s.len() && external(s, t, true) == s[t].weak ==> (#[trigger] after_drop(
                s,
                h,
            )[t]).weak == s[t].weak,
{
    let id = h.id() as int;
    let pending = seq![h];
    lemma_owned_is_balanced(s, h);
    lemma_unravel_keeps_accounts(s, pending, Seq::empty());
    let s1 = unravel(s, pending).0;
    let ws = unravel(s, pending).1;
    assert(Seq::<WeakHandle>::empty() + ws =~= ws);
    lemma_drop_weak_all_keeps_accounts(s1, ws);
    let s2 = drop_weak_all(s1, ws);
    assert forall|t: int| #[trigger]
        external(s2, t, false) == external(s, t, false) - one_at(t, id) by {
        assert(external(s2, t, false) == external(s1, t, false));
        assert(external(s1, t, false) == external(s, t, false) - hits(pending, t));
    }
    assert forall|t: int| #[trigger] external(s2, t, true) == external(s, t, true) by {
        assert(external(s2, t, true) == external(s1, t, true) - hits(ws, t));
        assert(external(s1, t, true) - hits(Seq::<WeakHandle>::empty() + ws, t) == external(
            s,
            t,
            true,
        ) - hits(Seq::<WeakHandle>::empty(), t));
    }
    assert forall|t: int, weak: bool| #[trigger]
        in_degree(s2, t, weak) <= in_degree(s, t, weak) by {
        assert(in_degree(s2, t, weak) <= in_degree(s1, t, weak));
        assert(in_degree(s1, t, weak) <= in_degree(s, t, weak));
    }
    assert(withered(s2, s));
    // The handle was counted outside the heap: where it was the last one, no
    // payload held another.
    assert(external(s2, id, false) == external(s, id, false) - one_at(id, id));
    assert(in_degree(s2, id, false) <= in_degree(s, id, false));
    if s[id].strong > 1 {
        lemma_drop_shared(s, h);
        lemma_in_degree_same_payload(s, id, s[id].with_drop());
    }
    assert forall|t: int| 0 <= t < s.len() && external(s2, t, false) >= 1 implies (
    #[trigger] s2[t]).value == s[t].value && s2[t].strong >= 1 by {
        assert(s2[t].wf());
    }
    assert forall|t: int| 0 <= t < s.len() && external(s, t, false) == s[t].strong implies (
    #[trigger] s2[t]).strong == s[t].strong - one_at(t, id) by {
        assert(in_degree(s2, t, false) <= in_degree(s, t, false));
        assert(external(s2, t, false) == external(s, t, false) - one_at(t, id));
    }
    assert forall|t: int| 0 <= t < s.len() && external(s, t, true) == s[t].weak implies (
    #[trigger] s2[t]).weak == s[t].weak by {
        assert(in_degree(s2, t, true) <= in_degree(s, t, true));
        assert(external(s2, t, true) == external(s, t, true));
    }
}

impl<T: Payload> Heap<T> where T::V: Holder {
    /// Drops a strong handle. If it was the last one to its cell, the payload
    /// is destroyed: each strong handle that the payload held is dropped in
    /// the same way, and each weak handle that it held is given up.
    ///
    /// Nothing else is touched: every cell keeps the handles that are held
    /// outside the heap, but for the one dropped here, and no view changes.
    /// So a cell to which a handle is held outside the heap keeps its
    /// payload, whatever is destroyed around it; and a cell to which no
    /// payload holds a handle keeps its counts.
    pub fn drop_handle(&mut self, h: Handle)
        requires
            old(self).wf(),
            old(self).owns(&h),
        ensures
            final(self).wf(),
            final(self)@ == after_drop(old(self)@, h),
            final(self)@[h.id() as int].strong == old(self)@[h.id() as int].strong - 1,
            withered(final(self)@, old(self)@),
            forall|t: int| #[trigger]
                external(final(self)@, t, false) == external(old(self)@, t, false) - one_at(
                    t,
                    h.id() as int,
                ),
            forall|t: int| #[trigger]
                external(final(self)@, t, true) == external(old(self)@, t, true),
            forall|t: int|
                0 <= t < old(self)@.len() && external(final(self)@, t, false) >= 1 ==> (
                #[trigger] final(self)@[t]).value == old(self)@[t].value && final(self)@[t].strong
                    >= 1,
            forall|t: int|
                0 <= t < old(self)@.len() && external(old(self)@, t, false) == old(
                    self,
                )@[t].strong ==> (#[trigger] final(self)@[t]).strong == old(self)@[t].strong
                    - one_at(t, h.id() as int),
            forall|t: int|
                0 <= t < old(self)@.len() && external(old(self)@, t, true) == old(self)@[t].weak
                    ==> (#[trigger] final(self)@[t]).weak == old(self)@[t].weak,
    {
        let ghost s0 = self@;
        let ghost goal = unravel(s0, seq![h]);
        proof {
            lemma_drop_keeps_accounts(s0, h);
            lemma_owned_is_balanced(s0, h);
        }
        let mut pending: Vec<Handle> = Vec::new();
        let mut released: Vec<WeakHandle> = Vec::new();
        pending.push(h);
        proof {
            assert(pending@ =~= seq![h]);
            assert(released@ + goal.1 =~= goal.1);
        }
        while pending.len() > 0
            invariant
                balanced_with(self@, pending@, released@),
                unravel(self@, pending@).0 == goal.0,
                released@ + unravel(self@, pending@).1 == goal.1,
            decreases total_strong(self@),
        {
            let ghost s = self@;
            let ghost before = pending@;
            let ghost freed_before = released@;
            proof {
                lemma_unravel_step(s, before, freed_before);
            }
            let cur = pending.pop().unwrap();
            assert(pending@ =~= before.drop_last());
            match self.into_inner(cur) {
                Some(payload) => {
                    let ghost v = payload@;
                    let (mut strong, mut weak) = payload.into_refs();
                    pending.append(&mut strong);
                    released.append(&mut weak);
                    proof {
                        assert(released@ + unravel(self@, pending@).1 =~= freed_before + (
                        v.weak_refs() + unravel(self@, pending@).1));
                    }
                },
                None => {
                    proof {
                        assert(released@ + Seq::<WeakHandle>::empty() =~= released@);
                    }
                },
            }
        }
        while released.len() > 0
            invariant
                balanced_with(self@, Seq::empty(), released@),
                drop_weak_all(self@, released@) == drop_weak_all(goal.0, goal.1),
            decreases released.len(),
        {
            let ghost before = released@;
            proof {
                lemma_drop_weak_step(self@, before);
            }
            let w = released.pop().unwrap();
            assert(released@ =~= before.drop_last());
            self.drop_weak(w);
        }
    }
}

} // verus!
