//! The accounts of a heap: for each cell, how many of its handles are held
//! by payloads inside the heap and how many are outside, in the hands of the
//! heap's users; and what it takes for the two to add up.

use crate::cell::{BorrowState, CellView};
use crate::refs::{hits, lemma_hits_member, CellRef, Holder};
use vstd::prelude::*;

verus! {

/// How many handles to the cell `target` the payload of `c` holds: weak ones
/// if `weak`, else strong ones. A cell whose payload is gone holds none.
pub open spec fn held<V: Holder>(c: CellView<V>, target: int, weak: bool) -> nat {
    match c.value {
        Some(v) => if weak {
            hits(v.weak_refs(), target)
        } else {
            hits(v.strong_refs(), target)
        },
        None => 0,
    }
}

/// The handles to `target` held by the payloads of the first `n` cells.
pub open spec fn in_degree_upto<V: Holder>(
    s: Seq<CellView<V>>,
    target: int,
    weak: bool,
    n: int,
) -> nat
    decreases n,
{
    if n <= 0 {
        0
    } else {
        in_degree_upto(s, target, weak, n - 1) + held(s[n - 1], target, weak)
    }
}

/// The handles to `target` that are held inside the heap, by payloads.
pub open spec fn in_degree<V: Holder>(s: Seq<CellView<V>>, target: int, weak: bool) -> nat {
    in_degree_upto(s, target, weak, s.len() as int)
}

/// The strong or weak count of the cell `target`; zero where there is no such cell.
pub open spec fn count_of<V>(s: Seq<CellView<V>>, target: int, weak: bool) -> nat {
    if 0 <= target < s.len() {
        if weak {
            s[target].weak
        } else {
            s[target].strong
        }
    } else {
        0
    }
}

/// A heap is well formed when each cell is, when every handle held by a
/// payload is accounted for in the count of the cell it refers to, and when
/// each cell with an outstanding view has a strong handle outside the heap.
pub open spec fn heap_wf<V: Holder>(s: Seq<CellView<V>>) -> bool {
    &&& forall|i: int| 0 <= i < s.len() ==> (#[trigger] s[i]).wf()
    &&& forall|t: int, weak: bool| #[trigger] in_degree(s, t, weak) <= count_of(s, t, weak)
    &&& forall|i: int|
        0 <= i < s.len() && (#[trigger] s[i]).borrow != BorrowState::Unborrowed ==> in_degree(
            s,
            i,
            false,
        ) < s[i].strong
}

/// The handles counted for `target` that no payload holds: they are outside
/// the heap, in the hands of its users.
pub open spec fn external<V: Holder>(s: Seq<CellView<V>>, target: int, weak: bool) -> int {
    count_of(s, target, weak) - in_degree(s, target, weak)
}

/// One, where `t` is the cell `id`; zero elsewhere.
pub open spec fn one_at(t: int, id: int) -> int {
    if t == id {
        1
    } else {
        0
    }
}

/// Whether the heap `a` has, for each cell and each kind of handle, as many
/// handles outside the heap as the heap `b`, but for `by` more of one kind
/// on the cell `id`.
pub open spec fn externals_shift<V: Holder>(
    a: Seq<CellView<V>>,
    b: Seq<CellView<V>>,
    id: int,
    weak: bool,
    by: int,
) -> bool {
    forall|t: int, w: bool| #[trigger]
        external(a, t, w) == external(b, t, w) + if t == id && w == weak {
            by
        } else {
            0
        }
}

/// A heap is well formed when each of its cells is, no cell has fewer
/// handles than the payloads hold to it, and each cell with a view
/// outstanding has a strong handle outside the heap.
pub proof fn lemma_wf_from_externals<V: Holder>(s: Seq<CellView<V>>)
    requires
        forall|i: int| 0 <= i < s.len() ==> (#[trigger] s[i]).wf(),
        forall|t: int, weak: bool| #[trigger] external(s, t, weak) >= 0,
        forall|i: int|
            0 <= i < s.len() && (#[trigger] s[i]).borrow != BorrowState::Unborrowed ==> external(
                s,
                i,
                false,
            ) >= 1,
    ensures
        heap_wf(s),
{
    assert forall|t: int, weak: bool| #[trigger]
        in_degree(s, t, weak) <= count_of(s, t, weak) by {
        assert(external(s, t, weak) >= 0);
    }
    assert forall|i: int|
        0 <= i < s.len() && (#[trigger] s[i]).borrow != BorrowState::Unborrowed implies in_degree(
        s,
        i,
        false,
    ) < s[i].strong by {
        assert(external(s, i, false) >= 1);
    }
}

/// In a well-formed heap no count of outside handles is negative, and a
/// cell with a view outstanding has a strong handle outside the heap.
pub proof fn lemma_externals_from_wf<V: Holder>(s: Seq<CellView<V>>)
    requires
        heap_wf(s),
    ensures
        forall|t: int, weak: bool| #[trigger] external(s, t, weak) >= 0,
        forall|i: int|
            0 <= i < s.len() && (#[trigger] s[i]).borrow != BorrowState::Unborrowed ==> external(
                s,
                i,
                false,
            ) >= 1,
{
    assert forall|t: int, weak: bool| #[trigger] external(s, t, weak) >= 0 by {
        assert(in_degree(s, t, weak) <= count_of(s, t, weak));
    }
}

/// Whether two heaps agree on every in-degree.
pub open spec fn same_in_degrees<V: Holder>(a: Seq<CellView<V>>, b: Seq<CellView<V>>) -> bool {
    forall|t: int, weak: bool|
        #![trigger in_degree(a, t, weak)]
        #![trigger in_degree(b, t, weak)]
        in_degree(a, t, weak) == in_degree(b, t, weak)
}

/// [`lemma_in_degree_update`], for the first `n` cells.
proof fn lemma_in_degree_upto_update<V: Holder>(
    s: Seq<CellView<V>>,
    j: int,
    c: CellView<V>,
    target: int,
    weak: bool,
    n: int,
)
    requires
        0 <= j < s.len(),
        0 <= n <= s.len(),
    ensures
        in_degree_upto(s.update(j, c), target, weak, n) + (if j < n {
            held(s[j], target, weak)
        } else {
            0
        }) == in_degree_upto(s, target, weak, n) + (if j < n {
            held(c, target, weak)
        } else {
            0
        }),
    decreases n,
{
    if n > 0 {
        lemma_in_degree_upto_update(s, j, c, target, weak, n - 1);
    }
}

/// Replacing the cell `j` takes what its payload held out of every
/// in-degree and puts in what the new payload holds.
pub proof fn lemma_in_degree_update<V: Holder>(
    s: Seq<CellView<V>>,
    j: int,
    c: CellView<V>,
    target: int,
    weak: bool,
)
    requires
        0 <= j < s.len(),
    ensures
        in_degree(s.update(j, c), target, weak) + held(s[j], target, weak) == in_degree(
            s,
            target,
            weak,
        ) + held(c, target, weak),
{
    lemma_in_degree_upto_update(s, j, c, target, weak, s.len() as int);
}

/// Replacing a cell by one with the same payload changes no in-degree.
pub proof fn lemma_in_degree_same_payload<V: Holder>(s: Seq<CellView<V>>, j: int, c: CellView<V>)
    requires
        0 <= j < s.len(),
        c.value == s[j].value,
    ensures
        same_in_degrees(s.update(j, c), s),
{
    assert forall|t: int, weak: bool|
        in_degree(s.update(j, c), t, weak) == in_degree(s, t, weak) by {
        lemma_in_degree_update(s, j, c, t, weak);
    }
}

/// A new cell changes nothing in what the cells before it hold.
proof fn lemma_in_degree_upto_push<V: Holder>(
    s: Seq<CellView<V>>,
    c: CellView<V>,
    target: int,
    weak: bool,
    n: int,
)
    requires
        0 <= n <= s.len(),
    ensures
        in_degree_upto(s.push(c), target, weak, n) == in_degree_upto(s, target, weak, n),
    decreases n,
{
    if n > 0 {
        lemma_in_degree_upto_push(s, c, target, weak, n - 1);
    }
}

/// A new cell adds what its payload holds to every in-degree.
pub proof fn lemma_in_degree_push<V: Holder>(
    s: Seq<CellView<V>>,
    c: CellView<V>,
    target: int,
    weak: bool,
)
    ensures
        in_degree(s.push(c), target, weak) == in_degree(s, target, weak) + held(c, target, weak),
{
    lemma_in_degree_upto_push(s, c, target, weak, s.len() as int);
}

/// [`lemma_held_le_in_degree`], for the first `n` cells.
proof fn lemma_held_le_upto<V: Holder>(
    s: Seq<CellView<V>>,
    j: int,
    target: int,
    weak: bool,
    n: int,
)
    requires
        0 <= j < n <= s.len(),
    ensures
        held(s[j], target, weak) <= in_degree_upto(s, target, weak, n),
    decreases n,
{
    if j < n - 1 {
        lemma_held_le_upto(s, j, target, weak, n - 1);
    }
}

/// What one payload holds is part of the in-degree.
pub proof fn lemma_held_le_in_degree<V: Holder>(
    s: Seq<CellView<V>>,
    j: int,
    target: int,
    weak: bool,
)
    requires
        0 <= j < s.len(),
    ensures
        held(s[j], target, weak) <= in_degree(s, target, weak),
{
    lemma_held_le_upto(s, j, target, weak, s.len() as int);
}

/// In a well-formed heap, a strong handle held by a payload refers to a cell
/// whose payload exists.
pub proof fn lemma_held_strong_is_live<V: Holder>(s: Seq<CellView<V>>, j: int, k: int)
    requires
        heap_wf(s),
        0 <= j < s.len(),
        s[j].value is Some,
        0 <= k < s[j].value->Some_0.strong_refs().len(),
    ensures
        s[j].value->Some_0.strong_refs()[k].id() < s.len(),
        s[s[j].value->Some_0.strong_refs()[k].id() as int].strong > 0,
{
    let t = s[j].value->Some_0.strong_refs()[k].id() as int;
    lemma_hits_member(s[j].value->Some_0.strong_refs(), k);
    lemma_held_le_in_degree(s, j, t, false);
    assert(in_degree(s, t, false) <= count_of(s, t, false));
}

/// In a well-formed heap, a weak handle held by a payload refers to a cell
/// of the heap.
pub proof fn lemma_held_weak_is_counted<V: Holder>(s: Seq<CellView<V>>, j: int, k: int)
    requires
        heap_wf(s),
        0 <= j < s.len(),
        s[j].value is Some,
        0 <= k < s[j].value->Some_0.weak_refs().len(),
    ensures
        s[j].value->Some_0.weak_refs()[k].id() < s.len(),
        s[s[j].value->Some_0.weak_refs()[k].id() as int].weak > 0,
{
    let t = s[j].value->Some_0.weak_refs()[k].id() as int;
    lemma_hits_member(s[j].value->Some_0.weak_refs(), k);
    lemma_held_le_in_degree(s, j, t, true);
    assert(in_degree(s, t, true) <= count_of(s, t, true));
}

/// Whether a new cell can take the payload `v` with the handles it holds:
/// for each cell, at least as many handles are outside the heap as `v`
/// holds to it, and one more where a view of the cell is outstanding.
pub open spec fn can_take<V: Holder>(s: Seq<CellView<V>>, v: V) -> bool {
    can_swap(s, s.len() as int, v)
}

/// Whether the cell `id` can take the payload `v` in place of its own, with
/// the handles that `v` holds: for each cell, at least as many handles are
/// outside the heap, counting those that the payload of `id` gives back, as
/// `v` holds to it, and one more where a view of the cell is outstanding.
pub open spec fn can_swap<V: Holder>(s: Seq<CellView<V>>, id: int, v: V) -> bool {
    &&& forall|t: int| #[trigger]
        hits(v.strong_refs(), t) <= external(s, t, false) + returned(s, id, t, false)
    &&& forall|t: int| #[trigger]
        hits(v.weak_refs(), t) <= external(s, t, true) + returned(s, id, t, true)
    &&& forall|t: int|
        0 <= t < s.len() && (#[trigger] s[t]).borrow != BorrowState::Unborrowed ==> hits(
            v.strong_refs(),
            t,
        ) < external(s, t, false) + returned(s, id, t, false)
}

/// The handles to `target` that the payload of the cell `id` holds; none
/// where there is no such cell.
pub open spec fn returned<V: Holder>(s: Seq<CellView<V>>, id: int, target: int, weak: bool) -> nat {
    if 0 <= id < s.len() {
        held(s[id], target, weak)
    } else {
        0
    }
}

/// A heap that takes a payload it can take stays well formed.
pub proof fn lemma_can_take<V: Holder>(s: Seq<CellView<V>>, v: V)
    requires
        heap_wf(s),
        can_take(s, v),
    ensures
        heap_wf(s.push(CellView::fresh(v))),
{
    let s1 = s.push(CellView::fresh(v));
    assert forall|t: int, weak: bool| #[trigger] external(s1, t, weak) >= 0 by {
        lemma_in_degree_push(s, CellView::fresh(v), t, weak);
        assert(hits(v.strong_refs(), t) <= external(s, t, false) + returned(
            s,
            s.len() as int,
            t,
            false,
        ));
        assert(hits(v.weak_refs(), t) <= external(s, t, true) + returned(
            s,
            s.len() as int,
            t,
            true,
        ));
    }
    assert forall|i: int|
        0 <= i < s1.len() && (#[trigger] s1[i]).borrow != BorrowState::Unborrowed implies external(
        s1,
        i,
        false,
    ) >= 1 by {
        lemma_in_degree_push(s, CellView::fresh(v), i, false);
        assert(s[i].borrow != BorrowState::Unborrowed);
    }
    assert forall|i: int| 0 <= i < s1.len() implies (#[trigger] s1[i]).wf() by {
        if i < s.len() {
            assert(s[i].wf());
        }
    }
    lemma_wf_from_externals(s1);
}

/// A heap in which a cell takes a payload that it can take in place of its
/// own stays well formed.
pub proof fn lemma_can_swap<V: Holder>(s: Seq<CellView<V>>, id: int, v: V)
    requires
        heap_wf(s),
        0 <= id < s.len(),
        s[id].strong > 0,
        can_swap(s, id, v),
    ensures
        heap_wf(s.update(id, s[id].with_value(v))),
{
    let s1 = s.update(id, s[id].with_value(v));
    assert forall|t: int, weak: bool| #[trigger] external(s1, t, weak) >= 0 by {
        lemma_in_degree_update(s, id, s[id].with_value(v), t, weak);
        assert(hits(v.strong_refs(), t) <= external(s, t, false) + returned(s, id, t, false));
        assert(hits(v.weak_refs(), t) <= external(s, t, true) + returned(s, id, t, true));
    }
    assert forall|i: int|
        0 <= i < s1.len() && (#[trigger] s1[i]).borrow != BorrowState::Unborrowed implies external(
        s1,
        i,
        false,
    ) >= 1 by {
        lemma_in_degree_update(s, id, s[id].with_value(v), i, false);
        assert(s[i].borrow != BorrowState::Unborrowed);
    }
    assert forall|i: int| 0 <= i < s1.len() implies (#[trigger] s1[i]).wf() by {
        assert(s[i].wf());
    }
    lemma_wf_from_externals(s1);
}

/// A payload that holds no handle can go into any cell of a well-formed
/// heap, and into a new one.
pub proof fn lemma_plain_fits<V: Holder>(s: Seq<CellView<V>>, v: V)
    requires
        heap_wf(s),
        v.strong_refs().len() == 0,
        v.weak_refs().len() == 0,
    ensures
        can_take(s, v),
        forall|id: int| can_swap(s, id, v),
{
    lemma_externals_from_wf(s);
    assert forall|id: int| can_swap(s, id, v) by {
        assert forall|t: int|
            0 <= t < s.len() && (#[trigger] s[t]).borrow != BorrowState::Unborrowed implies hits(
            v.strong_refs(),
            t,
        ) < external(s, t, false) + returned(s, id, t, false) by {
            assert(external(s, t, false) >= 1);
        }
    }
}

} // verus!
