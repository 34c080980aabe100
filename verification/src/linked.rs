//! Singly linked lists whose nodes live in shared cells, so that several
//! lists can share a tail and a tail can be spliced in after the fact.

use crate::cell::{BorrowError, BorrowState, CellView};
use crate::heap::Heap;
use crate::ledger::{
    can_take, external, heap_wf, held, in_degree, lemma_externals_from_wf,
    lemma_held_strong_is_live, lemma_in_degree_same_payload, lemma_in_degree_update,
    lemma_wf_from_externals, one_at, returned,
};
use crate::refs::{hits, lemma_hits_push, CellRef, Handle, Holder, Payload, WeakHandle};
use vstd::prelude::*;
use vstd::set_lib::{lemma_int_range, lemma_len_subset, set_int_range};

verus! {

/// What follows a node: nothing, or another node, owned by a strong handle.
#[derive(Debug)]
pub enum Link {
    /// The list ends here.
    End,
    /// The list goes on with the node that this handle owns.
    Next(Handle),
}

/// A list node: a number and the link to the rest of the list.
#[derive(Debug)]
pub struct LinkedNode {
    /// The number stored in the node.
    pub payload: i32,
    /// What follows the node.
    pub next: Link,
}

impl Link {
    /// One if the link leads to the cell `target`, else zero.
    pub open spec fn leads_to(self, target: int) -> nat {
        match self {
            Link::Next(h) => if h.id() == target {
                1
            } else {
                0
            },
            Link::End => 0,
        }
    }

    /// The one strong handle of a link counts for the cell it leads to.
    pub proof fn lemma_leads_to(self, payload: i32, target: int)
        ensures
            hits((LinkedNode { payload, next: self }).strong_refs(), target) == self.leads_to(
                target,
            ),
            hits((LinkedNode { payload, next: self }).weak_refs(), target) == 0,
    {
        match self {
            Link::Next(h) => {
                lemma_hits_push(Seq::<Handle>::empty(), h, target);
                assert(Seq::<Handle>::empty().push(h) =~= seq![h]);
            },
            Link::End => {},
        }
    }
}

impl View for LinkedNode {
    type V = LinkedNode;

    open spec fn view(&self) -> LinkedNode {
        *self
    }
}

impl Holder for LinkedNode {
    open spec fn strong_refs(&self) -> Seq<Handle> {
        match self.next {
            Link::Next(h) => seq![h],
            Link::End => Seq::empty(),
        }
    }

    open spec fn weak_refs(&self) -> Seq<WeakHandle> {
        Seq::empty()
    }
}

impl Payload for LinkedNode {
    fn into_refs(self) -> (refs: (Vec<Handle>, Vec<WeakHandle>)) {
        let mut strong: Vec<Handle> = Vec::new();
        match self.next {
            Link::Next(h) => {
                strong.push(h);
                assert(strong@ =~= seq![h]);
            },
            Link::End => {},
        }
        (strong, Vec::new())
    }
}

impl LinkedNode {
    /// The link of the node: what follows it. Every node has one, also the
    /// node that ends a list, whose link is [`Link::End`].
    pub fn tail(&self) -> (t: Option<&Link>)
        ensures
            t == Some(&self.next),
    {
        Some(&self.next)
    }
}

/// The heap `s` after the node `node` has been given a link to `tail`, for
/// which `tail` gets one more strong handle.
pub open spec fn spliced(s: Seq<CellView<LinkedNode>>, node: int, tail: Handle) -> Seq<
    CellView<LinkedNode>,
> {
    let s1 = s.update(tail.id() as int, s[tail.id() as int].with_clone());
    s1.update(
        node,
        s1[node].with_value(
            LinkedNode { payload: s[node].value->Some_0.payload, next: Link::Next(tail) },
        ),
    )
}

impl Heap<LinkedNode> {
    /// Allocates a node that holds `payload` and is followed by `tail`. The
    /// handle in `tail` passes to the new node.
    pub fn cons(&mut self, payload: i32, tail: Link) -> (h: Handle)
        requires
            old(self).wf(),
            tail matches Link::Next(t) ==> old(self).owns(&t),
        ensures
            final(self).wf(),
            final(self)@ == old(self)@.push(CellView::fresh(LinkedNode { payload, next: tail })),
            h.id() == old(self)@.len(),
            forall|t: int| #[trigger]
                external(final(self)@, t, false) == external(old(self)@, t, false) + one_at(
                    t,
                    h.id() as int,
                ) - tail.leads_to(t),
            forall|t: int| #[trigger]
                external(final(self)@, t, true) == external(old(self)@, t, true),
    {
        let node = LinkedNode { payload, next: tail };
        proof {
            let s = old(self)@;
            lemma_externals_from_wf(s);
            assert forall|t: int| #[trigger]
                hits(node.strong_refs(), t) == tail.leads_to(t) && hits(node.weak_refs(), t)
                    == 0 by {
                tail.lemma_leads_to(payload, t);
            }
            assert(can_take(s, node)) by {
                assert forall|t: int|
                    0 <= t < s.len() && (#[trigger] s[t]).borrow
                        != BorrowState::Unborrowed implies hits(node.strong_refs(), t) < external(
                    s,
                    t,
                    false,
                ) + returned(s, s.len() as int, t, false) by {
                    assert(hits(node.strong_refs(), t) == tail.leads_to(t));
                    assert(external(s, t, false) >= 1);
                }
            }
            assert forall|t: int| #[trigger]
                held(CellView::fresh(node), t, false) == tail.leads_to(t) && held(
                    CellView::fresh(node),
                    t,
                    true,
                ) == 0 by {
                tail.lemma_leads_to(payload, t);
            }
        }
        self.allocate(node)
    }

    /// Replaces the link of `node` by a link to the cell of `new_tail`, for
    /// which a new strong handle is made, and returns the link that was
    /// there; a handle in it is then the caller's. Nothing is changed, and
    /// the conflict is returned, if a view of `node` is outstanding.
    pub fn splice(&mut self, node: &Handle, new_tail: &Handle) -> (r: Result<Link, BorrowError>)
        requires
            old(self).wf(),
            old(self).is_live(node),
            old(self).is_live(new_tail),
            old(self)@[new_tail.id() as int].strong < usize::MAX,
        ensures
            final(self).wf(),
            match old(self)@[node.id() as int].borrow.try_exclusive() {
                Ok(_) => {
                    &&& r == Ok::<Link, BorrowError>(
                        old(self)@[node.id() as int].value->Some_0.next,
                    )
                    &&& final(self)@ == spliced(old(self)@, node.id() as int, *new_tail)
                    &&& forall|t: int| #[trigger]
                        external(final(self)@, t, false) == external(old(self)@, t, false)
                            + r->Ok_0.leads_to(t)
                    &&& forall|t: int| #[trigger]
                        external(final(self)@, t, true) == external(old(self)@, t, true)
                },
                Err(e) => r == Err::<Link, BorrowError>(e) && final(self)@ == old(self)@,
            },
    {
        match self.borrow_state(node).acquire_exclusive() {
            Err(e) => {
                return Err(e);
            },
            Ok(_) => {},
        }
        let ghost s = self@;
        let copy = self.clone_handle(new_tail);
        proof {
            Handle::lemma_same_cell(copy, *new_tail);
            lemma_externals_from_wf(s);
            assert(external(self@, new_tail.id() as int, false) == external(
                s,
                new_tail.id() as int,
                false,
            ) + 1);
        }
        let previous = self.replace_link(node.index(), Link::Next(copy));
        proof {
            assert(self@ =~= spliced(s, node.id() as int, *new_tail));
            assert forall|t: int| #[trigger]
                external(self@, t, false) == external(s, t, false) + previous.leads_to(t) by {
                assert(external(old(self)@, t, false) == external(s, t, false));
            }
        }
        Ok(previous)
    }

    /// Puts `link` in the place of the link of the node in the cell `node`
    /// and returns the link that was there.
    fn replace_link(&mut self, node: usize, link: Link) -> (previous: Link)
        requires
            old(self).wf(),
            node < old(self)@.len(),
            old(self)@[node as int].strong > 0,
            link matches Link::Next(h) ==> old(self).owns(&h),
        ensures
            final(self).wf(),
            previous == old(self)@[node as int].value->Some_0.next,
            final(self)@ == old(self)@.update(
                node as int,
                old(self)@[node as int].with_value(
                    LinkedNode {
                        payload: old(self)@[node as int].value->Some_0.payload,
                        next: link,
                    },
                ),
            ),
            forall|t: int| #[trigger]
                external(final(self)@, t, false) == external(old(self)@, t, false)
                    + previous.leads_to(t) - link.leads_to(t),
            forall|t: int| #[trigger]
                external(final(self)@, t, true) == external(old(self)@, t, true),
    {
        let ghost s = self@;
        let ghost id = node as int;
        assert(s[id].wf());
        let payload = self.payload(node).payload;
        let ghost current = s[id].value->Some_0;
        let ghost s1 = s.update(id, s[id].with_value(LinkedNode { payload, next: link }));
        proof {
            lemma_externals_from_wf(s);
            assert forall|t: int, weak: bool| #[trigger]
                external(s1, t, weak) == external(s, t, weak) + if weak {
                    0int
                } else {
                    current.next.leads_to(t) - link.leads_to(t)
                } by {
                lemma_in_degree_update(
                    s,
                    id,
                    s[id].with_value(LinkedNode { payload, next: link }),
                    t,
                    weak,
                );
                link.lemma_leads_to(payload, t);
                current.next.lemma_leads_to(current.payload, t);
            }
            lemma_wf_from_externals(s1);
        }
        let previous = self.swap_payload(node, LinkedNode { payload, next: link });
        proof {
            assert forall|t: int| #[trigger]
                external(self@, t, false) == external(s, t, false) + previous.next.leads_to(t)
                    - link.leads_to(t) by {
                assert(external(s1, t, false) == external(s, t, false) + current.next.leads_to(t)
                    - link.leads_to(t));
            }
            assert forall|t: int| #[trigger] external(self@, t, true) == external(s, t, true) by {
                assert(external(s1, t, true) == external(s, t, true));
            }
        }
        previous.next
    }
}

/// A traversal was given up.
#[derive(Clone, Copy, Debug, PartialEq, Eq, Structural)]
pub enum TraversalError {
    /// The list does not end: following its links leads back into it.
    Cycle,
}

/// The cell that follows the node in cell `id`, if there is such a node and
/// it has a successor.
pub open spec fn next_of(s: Seq<CellView<LinkedNode>>, id: int) -> Option<int> {
    if 0 <= id < s.len() {
        match s[id].value {
            Some(node) => match node.next {
                Link::Next(h) => Some(h.id() as int),
                Link::End => None,
            },
            None => None,
        }
    } else {
        None
    }
}

/// The cell reached from `start` after `k` links, if the list is that long.
pub open spec fn walk(s: Seq<CellView<LinkedNode>>, start: int, k: nat) -> Option<int>
    decreases k,
{
    if k == 0 {
        Some(start)
    } else {
        match next_of(s, start) {
            Some(n) => walk(s, n, (k - 1) as nat),
            None => None,
        }
    }
}

/// The number of nodes of the list that begins at `start`, if it ends within
/// `fuel` nodes.
pub open spec fn chain_len(s: Seq<CellView<LinkedNode>>, start: int, fuel: nat) -> Option<nat>
    decreases fuel,
{
    if fuel == 0 {
        None
    } else {
        match next_of(s, start) {
            None => Some(1),
            Some(n) => match chain_len(s, n, (fuel - 1) as nat) {
                Some(k) => Some(k + 1),
                None => None,
            },
        }
    }
}

/// Whether the list that begins at `start` has exactly `n` nodes: the node
/// after `n - 1` links is the last one.
pub open spec fn ends_after(s: Seq<CellView<LinkedNode>>, start: int, n: nat) -> bool {
    &&& n >= 1
    &&& walk(s, start, (n - 1) as nat) matches Some(last) && next_of(s, last) is None
}

/// Whether the list that begins at `start` comes back to a cell that it has
/// left, so that it never ends.
pub open spec fn has_cycle(s: Seq<CellView<LinkedNode>>, start: int) -> bool {
    exists|i: nat, j: nat|
        i < j && walk(s, start, i) is Some && #[trigger] walk(s, start, i) == #[trigger] walk(
            s,
            start,
            j,
        )
}

impl Heap<LinkedNode> {
    /// Counts the nodes of the list that begins at `head`, or reports that
    /// the list has a cycle. No list without a cycle has more nodes than the
    /// heap has cells: that is how far the traversal goes.
    pub fn length(&self, head: &Handle) -> (r: Result<usize, TraversalError>)
        requires
            self.wf(),
            self.is_live(head),
        ensures
            r == Err::<usize, TraversalError>(TraversalError::Cycle) <==> has_cycle(
                self@,
                head.id() as int,
            ),
            r matches Ok(n) ==> ends_after(self@, head.id() as int, n as nat),
            match chain_len(self@, head.id() as int, self@.len()) {
                Some(n) => r is Ok && r->Ok_0 == n,
                None => r == Err::<usize, TraversalError>(TraversalError::Cycle),
            },
    {
        let limit = self.len();
        let mut cur: usize = head.index();
        let mut count: usize = 1;
        proof {
            lemma_length_or_cycle(self@, head.id() as int);
        }
        loop
            invariant
                chain_len(self@, head.id() as int, self@.len()) is None <==> has_cycle(
                    self@,
                    head.id() as int,
                ),
                chain_len(self@, head.id() as int, self@.len()) matches Some(n) ==> ends_after(
                    self@,
                    head.id() as int,
                    n,
                ),
                self.wf(),
                limit == self@.len(),
                1 <= count <= limit,
                cur < limit,
                self@[cur as int].strong > 0,
                chain_len(self@, head.id() as int, limit as nat) == match chain_len(
                    self@,
                    cur as int,
                    (limit - count + 1) as nat,
                ) {
                    Some(k) => Some((k + count - 1) as nat),
                    None => None,
                },
            decreases limit - count,
        {
            assert(self@[cur as int].wf());
            let node = self.payload(cur);
            match node.tail() {
                Some(Link::Next(h)) => {
                    proof {
                        assert(node.strong_refs() =~= seq![*h]);
                        lemma_held_strong_is_live(self@, cur as int, 0);
                    }
                    if count == limit {
                        assert(chain_len(self@, h.id() as int, 0) is None);
                        return Err(TraversalError::Cycle);
                    }
                    cur = h.index();
                    count = count + 1;
                },
                _ => {
                    return Ok(count);
                },
            }
        }
    }

    /// The numbers of the list that begins at `head`, first to last, or the
    /// report that the list has a cycle.
    pub fn values(&self, head: &Handle) -> (r: Result<Vec<i32>, TraversalError>)
        requires
            self.wf(),
            self.is_live(head),
        ensures
            r is Err <==> has_cycle(self@, head.id() as int),
            r matches Err(e) ==> e == TraversalError::Cycle,
            match chain_values(self@, head.id() as int, self@.len()) {
                Some(vs) => r is Ok && r->Ok_0@ == vs,
                None => r is Err,
            },
    {
        let limit = self.len();
        let mut cur: usize = head.index();
        let mut out: Vec<i32> = Vec::new();
        proof {
            lemma_length_or_cycle(self@, head.id() as int);
            lemma_values_as_long(self@, head.id() as int, self@.len());
            assert(out@ + chain_values(self@, cur as int, limit as nat)->Some_0 =~= chain_values(
                self@,
                cur as int,
                limit as nat,
            )->Some_0);
        }
        loop
            invariant
                chain_values(self@, head.id() as int, self@.len()) is None <==> has_cycle(
                    self@,
                    head.id() as int,
                ),
                self.wf(),
                limit == self@.len(),
                out.len() < limit,
                cur < limit,
                self@[cur as int].strong > 0,
                chain_values(self@, head.id() as int, limit as nat) == match chain_values(
                    self@,
                    cur as int,
                    (limit - out.len()) as nat,
                ) {
                    Some(vs) => Some(out@ + vs),
                    None => None,
                },
            decreases limit - out.len(),
        {
            assert(self@[cur as int].wf());
            let ghost before = out@;
            let node = self.payload(cur);
            match node.tail() {
                Some(Link::Next(h)) => {
                    proof {
                        assert(node.strong_refs() =~= seq![*h]);
                        lemma_held_strong_is_live(self@, cur as int, 0);
                    }
                    if out.len() + 1 == limit {
                        assert(chain_values(self@, h.id() as int, 0) is None);
                        return Err(TraversalError::Cycle);
                    }
                    out.push(node.payload);
                    proof {
                        let rest = chain_values(
                            self@,
                            h.id() as int,
                            (limit - out.len()) as nat,
                        );
                        if rest is Some {
                            assert(out@ + rest->Some_0 =~= before + (seq![node.payload]
                                + rest->Some_0));
                        }
                    }
                    cur = h.index();
                },
                _ => {
                    out.push(node.payload);
                    assert(out@ =~= before + seq![node.payload]);
                    return Ok(out);
                },
            }
        }
    }

    /// The numbers of the nodes that follow `node`: of the list that its
    /// link leads to. None follow a node that ends a list.
    pub fn following(&self, node: &Handle) -> (r: Result<Vec<i32>, TraversalError>)
        requires
            self.wf(),
            self.is_live(node),
        ensures
            r matches Err(e) ==> e == TraversalError::Cycle,
            match next_of(self@, node.id() as int) {
                Some(n) => match chain_values(self@, n, self@.len()) {
                    Some(vs) => r is Ok && r->Ok_0@ == vs,
                    None => r is Err,
                },
                None => r is Ok && r->Ok_0@ == Seq::<i32>::empty(),
            },
    {
        assert(self@[node.id() as int].wf());
        let first = self.payload(node.index());
        match first.tail() {
            Some(Link::Next(h)) => {
                proof {
                    assert(first.strong_refs() =~= seq![*h]);
                    lemma_held_strong_is_live(self@, node.id() as int, 0);
                }
                self.values(h)
            },
            _ => Ok(Vec::new()),
        }
    }
}

/// The numbers of the list that begins at `start`, first to last, if the
/// list ends within `fuel` nodes.
pub open spec fn chain_values(s: Seq<CellView<LinkedNode>>, start: int, fuel: nat) -> Option<
    Seq<i32>,
>
    decreases fuel,
{
    if fuel == 0 {
        None
    } else {
        match next_of(s, start) {
            None => Some(seq![s[start].value->Some_0.payload]),
            Some(n) => match chain_values(s, n, (fuel - 1) as nat) {
                Some(vs) => Some(seq![s[start].value->Some_0.payload] + vs),
                None => None,
            },
        }
    }
}

/// A list has as many numbers as nodes: its numbers are found exactly
/// where its length is.
pub proof fn lemma_values_as_long(s: Seq<CellView<LinkedNode>>, start: int, fuel: nat)
    ensures
        chain_values(s, start, fuel) is Some <==> chain_len(s, start, fuel) is Some,
        chain_values(s, start, fuel) matches Some(vs) ==> vs.len() == chain_len(
            s,
            start,
            fuel,
        )->Some_0,
    decreases fuel,
{
    if fuel > 0 {
        match next_of(s, start) {
            Some(n) => lemma_values_as_long(s, n, (fuel - 1) as nat),
            None => {},
        }
    }
}

/// A list that ends within `fuel` nodes has at most `fuel` nodes.
pub proof fn lemma_chain_len_bound(s: Seq<CellView<LinkedNode>>, start: int, fuel: nat)
    ensures
        chain_len(s, start, fuel) matches Some(n) ==> 1 <= n <= fuel,
    decreases fuel,
{
    if fuel > 0 {
        match next_of(s, start) {
            Some(n) => lemma_chain_len_bound(s, n, (fuel - 1) as nat),
            None => {},
        }
    }
}

/// Along a list that ends, each node reached is followed by what remains of
/// the list: the node after `k` links has `k` nodes fewer after it.
pub proof fn lemma_chain_len_from(
    s: Seq<CellView<LinkedNode>>,
    start: int,
    fuel: nat,
    k: nat,
)
    requires
        chain_len(s, start, fuel) is Some,
        walk(s, start, k) is Some,
    ensures
        k < chain_len(s, start, fuel)->Some_0 <= fuel,
        chain_len(s, walk(s, start, k)->Some_0, (fuel - k) as nat) == Some(
            (chain_len(s, start, fuel)->Some_0 - k) as nat,
        ),
    decreases k,
{
    lemma_chain_len_bound(s, start, fuel);
    if k > 0 {
        let n = next_of(s, start)->Some_0;
        lemma_chain_len_from(s, n, (fuel - 1) as nat, (k - 1) as nat);
    }
}

/// The number of nodes of a list does not depend on how far the count was
/// allowed to go.
pub proof fn lemma_chain_len_unique(
    s: Seq<CellView<LinkedNode>>,
    start: int,
    fuel1: nat,
    fuel2: nat,
)
    requires
        chain_len(s, start, fuel1) is Some,
        chain_len(s, start, fuel2) is Some,
    ensures
        chain_len(s, start, fuel1) == chain_len(s, start, fuel2),
    decreases fuel1,
{
    match next_of(s, start) {
        Some(n) => lemma_chain_len_unique(s, n, (fuel1 - 1) as nat, (fuel2 - 1) as nat),
        None => {},
    }
}

/// A list that comes back to a cell it has left does not end: however far
/// the count may go, it finds no last node. So a traversal of such a list
/// reports the cycle.
pub proof fn lemma_cycle_has_no_length(
    s: Seq<CellView<LinkedNode>>,
    head: int,
    i: nat,
    j: nat,
    fuel: nat,
)
    requires
        i < j,
        walk(s, head, i) is Some,
        walk(s, head, i) == walk(s, head, j),
    ensures
        chain_len(s, head, fuel) is None,
{
    if chain_len(s, head, fuel) is Some {
        lemma_chain_len_from(s, head, fuel, i);
        lemma_chain_len_from(s, head, fuel, j);
        lemma_chain_len_unique(
            s,
            walk(s, head, i)->Some_0,
            (fuel - i) as nat,
            (fuel - j) as nat,
        );
    }
}

/// A list that does not end within `fuel` nodes has a node after any number
/// of links up to `fuel`.
pub proof fn lemma_unending_walk(s: Seq<CellView<LinkedNode>>, start: int, fuel: nat, k: nat)
    requires
        chain_len(s, start, fuel) is None,
        k <= fuel,
    ensures
        walk(s, start, k) is Some,
    decreases k,
{
    if k > 0 {
        let n = next_of(s, start)->Some_0;
        lemma_unending_walk(s, n, (fuel - 1) as nat, (k - 1) as nat);
    }
}

/// In a well-formed heap, every cell reached from a node holds a node.
pub proof fn lemma_walk_stays_live(s: Seq<CellView<LinkedNode>>, start: int, k: nat)
    requires
        heap_wf(s),
        0 <= start < s.len(),
        s[start].strong > 0,
        walk(s, start, k) is Some,
    ensures
        0 <= walk(s, start, k)->Some_0 < s.len(),
        s[walk(s, start, k)->Some_0].strong > 0,
    decreases k,
{
    if k > 0 {
        assert(s[start].wf());
        let node = s[start].value->Some_0;
        assert(node.strong_refs() =~= seq![node.next->Next_0]);
        lemma_held_strong_is_live(s, start, 0);
        lemma_walk_stays_live(s, next_of(s, start)->Some_0, (k - 1) as nat);
    }
}

/// The traversal reports a cycle only where there is one: a list that does
/// not end within as many nodes as the heap has cells comes to some cell
/// twice.
pub proof fn lemma_no_length_has_cycle(s: Seq<CellView<LinkedNode>>, head: int)
    requires
        heap_wf(s),
        0 <= head < s.len(),
        s[head].strong > 0,
        chain_len(s, head, s.len()) is None,
    ensures
        exists|i: nat, j: nat|
            i < j <= s.len() && walk(s, head, i) is Some && #[trigger] walk(s, head, i)
                == #[trigger] walk(s, head, j),
{
    let n = s.len();
    let visited = Seq::new(n + 1, |k: int| walk(s, head, k as nat)->Some_0);
    assert forall|k: int| 0 <= k <= n implies walk(s, head, k as nat) is Some && 0 <= (
    #[trigger] visited[k]) < n by {
        lemma_unending_walk(s, head, n, k as nat);
        lemma_walk_stays_live(s, head, k as nat);
    }
    if visited.no_duplicates() {
        visited.unique_seq_to_set();
        lemma_int_range(0, n as int);
        assert(visited.to_set().subset_of(set_int_range(0, n as int))) by {
            assert forall|x: int| visited.to_set().contains(x) implies set_int_range(
                0,
                n as int,
            ).contains(x) by {
                let k = choose|k: int| 0 <= k < visited.len() && visited[k] == x;
                assert(0 <= visited[k] < n);
            }
        }
        lemma_len_subset(visited.to_set(), set_int_range(0, n as int));
        assert(false);
    } else {
        let (a, b) = choose|a: int, b: int|
            0 <= a < visited.len() && 0 <= b < visited.len() && a != b && visited[a]
                == visited[b];
        let i = if a < b {
            a as nat
        } else {
            b as nat
        };
        let j = if a < b {
            b as nat
        } else {
            a as nat
        };
        assert(0 <= visited[i as int] < n);
        assert(0 <= visited[j as int] < n);
        assert(walk(s, head, i) == walk(s, head, j));
    }
}

/// A list found to have `n` nodes ends after `n` nodes.
pub proof fn lemma_chain_len_ends(s: Seq<CellView<LinkedNode>>, start: int, fuel: nat)
    requires
        chain_len(s, start, fuel) is Some,
    ensures
        ends_after(s, start, chain_len(s, start, fuel)->Some_0),
    decreases fuel,
{
    match next_of(s, start) {
        Some(n) => {
            lemma_chain_len_ends(s, n, (fuel - 1) as nat);
            lemma_chain_len_bound(s, n, (fuel - 1) as nat);
        },
        None => {},
    }
}

/// In a well-formed heap a list either ends within as many nodes as the heap
/// has cells, or it has a cycle; never both.
pub proof fn lemma_length_or_cycle(s: Seq<CellView<LinkedNode>>, head: int)
    requires
        heap_wf(s),
        0 <= head < s.len(),
        s[head].strong > 0,
    ensures
        chain_len(s, head, s.len()) is None <==> has_cycle(s, head),
        chain_len(s, head, s.len()) matches Some(n) ==> ends_after(s, head, n),
{
    if chain_len(s, head, s.len()) is None {
        lemma_no_length_has_cycle(s, head);
    } else {
        lemma_chain_len_ends(s, head, s.len());
        if has_cycle(s, head) {
            let (i, j) = choose|i: nat, j: nat|
                i < j && walk(s, head, i) is Some && #[trigger] walk(s, head, i)
                    == #[trigger] walk(s, head, j);
            lemma_cycle_has_no_length(s, head, i, j, s.len());
        }
    }
}

/// If a list comes to the cell `node`, it still does when links are
/// changed in that cell only; perhaps sooner.
proof fn lemma_walk_still_reaches(
    s: Seq<CellView<LinkedNode>>,
    changed: Seq<CellView<LinkedNode>>,
    node: int,
    start: int,
    k: nat,
)
    requires
        forall|id: int| id != node ==> #[trigger] next_of(changed, id) == next_of(s, id),
        walk(s, start, k) == Some(node),
    ensures
        exists|j: nat| j <= k && #[trigger] walk(changed, start, j) == Some(node),
    decreases k,
{
    if start == node {
        assert(walk(changed, start, 0) == Some(node));
    } else {
        let n = next_of(s, start)->Some_0;
        lemma_walk_still_reaches(s, changed, node, n, (k - 1) as nat);
        let j = choose|j: nat| j <= k - 1 && #[trigger] walk(changed, n, j) == Some(node);
        assert(walk(changed, start, j + 1) == Some(node));
    }
}

/// Splicing in a tail that leads back to the node closes a cycle: the list
/// that begins at the node comes back to it, and a traversal reports that.
pub proof fn lemma_splice_closes_cycle(
    s: Seq<CellView<LinkedNode>>,
    node: int,
    tail: Handle,
    k: nat,
)
    requires
        0 <= node < s.len(),
        tail.id() < s.len(),
        s[node].value is Some,
        walk(s, tail.id() as int, k) == Some(node),
    ensures
        has_cycle(spliced(s, node, tail), node),
        forall|fuel: nat| chain_len(spliced(s, node, tail), node, fuel) is None,
{
    let changed = spliced(s, node, tail);
    assert forall|id: int| id != node implies #[trigger] next_of(changed, id) == next_of(s, id) by {}
    lemma_walk_still_reaches(s, changed, node, tail.id() as int, k);
    let j = choose|j: nat| j <= k && #[trigger] walk(changed, tail.id() as int, j) == Some(node);
    assert(next_of(changed, node) == Some(tail.id() as int));
    assert(walk(changed, node, j + 1) == Some(node));
    assert(walk(changed, node, 0) == Some(node));
    assert forall|fuel: nat| chain_len(changed, node, fuel) is None by {
        lemma_cycle_has_no_length(changed, node, 0, j + 1, fuel);
    }
}

/// Splicing keeps the accounts of a well-formed heap: the heap stays well
/// formed; the new strong handle to the tail is inside the heap; and the
/// handle of the link that was replaced is outside the heap afterwards.
pub proof fn lemma_spliced_keeps_accounts(s: Seq<CellView<LinkedNode>>, node: int, tail: Handle)
    requires
        heap_wf(s),
        0 <= node < s.len(),
        tail.id() < s.len(),
        s[node].strong > 0,
        s[tail.id() as int].strong > 0,
    ensures
        heap_wf(spliced(s, node, tail)),
        forall|t: int| #[trigger]
            external(spliced(s, node, tail), t, false) == external(s, t, false)
                + s[node].value->Some_0.next.leads_to(t),
        forall|t: int| #[trigger]
            external(spliced(s, node, tail), t, true) == external(s, t, true),
{
    let to = tail.id() as int;
    let changed = spliced(s, node, tail);
    lemma_externals_from_wf(s);
    assert(s[node].wf());
    let current = s[node].value->Some_0;
    let s1 = s.update(to, s[to].with_clone());
    lemma_in_degree_same_payload(s, to, s[to].with_clone());
    let replacement = LinkedNode { payload: current.payload, next: Link::Next(tail) };
    assert forall|t: int, weak: bool| #[trigger]
        external(changed, t, weak) == external(s, t, weak) + if weak {
            0
        } else {
            current.next.leads_to(t)
        } by {
        lemma_in_degree_update(s1, node, s1[node].with_value(replacement), t, weak);
        (Link::Next(tail)).lemma_leads_to(current.payload, t);
        current.next.lemma_leads_to(current.payload, t);
        assert(in_degree(s1, t, weak) == in_degree(s, t, weak));
    }
    assert forall|i: int| 0 <= i < changed.len() implies (#[trigger] changed[i]).wf() by {
        assert(s[i].wf());
    }
    assert forall|i: int|
        0 <= i < changed.len() && (#[trigger] changed[i]).borrow
            != BorrowState::Unborrowed implies external(changed, i, false) >= 1 by {
        assert(s[i].borrow != BorrowState::Unborrowed);
        assert(external(changed, i, false) == external(s, i, false) + current.next.leads_to(i));
    }
    assert forall|t: int, weak: bool| #[trigger] external(changed, t, weak) >= 0 by {
        assert(external(changed, t, weak) == external(s, t, weak) + if weak {
            0
        } else {
            current.next.leads_to(t)
        });
    }
    lemma_wf_from_externals(changed);
}

} // verus!
