//! The edge table and the active edge list: an intrusive singly-linked list
//! of edges, threaded through the table by index, from a head sentinel to a
//! tail sentinel and kept in ascending order of x.

use vstd::prelude::*;
use crate::aarasterizer::{dda_step, edge_wf, edge_wf_at, abs, CEdge, EdgeModel, EDGE_X_BOUND};
use crate::inactive::{edge_key, lemma_yx_key_order, CInactiveEdge, HEAD_EDGE, TAIL_EDGE};
use crate::types::INT;

verus! {

/// The link of an edge that is in no list.
pub const UNLINKED: usize = usize::MAX;

/// The edges of a path with the two sentinels of the active list in front,
/// and the active list that is threaded through them.
pub struct CEdgeTable {
    /// Index 0 is the head sentinel, index 1 the tail sentinel; the edges of
    /// the path follow.
    pub edges: Vec<CEdge>,
    /// The indices of the active list in list order, both sentinels included.
    pub order: Ghost<Seq<int>>,
}

/// `order` is the list that the links of `edges` thread from the head
/// sentinel to the tail sentinel, and no edge occurs in it twice.
pub open spec fn linked(edges: Seq<CEdge>, order: Seq<int>) -> bool {
    &&& 2 <= edges.len() <= usize::MAX
    &&& order.len() >= 2
    &&& order[0] == HEAD_EDGE
    &&& order[order.len() - 1] == TAIL_EDGE
    &&& forall|i: int| 0 <= i < order.len() ==> 0 <= #[trigger] order[i] < edges.len()
    &&& forall|i: int|
        0 <= i < order.len() - 1 ==> (#[trigger] edges[order[i]]).Next == order[i + 1]
    &&& forall|i: int, j: int|
        0 <= i < j < order.len() ==> #[trigger] order[i] != #[trigger] order[j]
}

/// The two sequences of edges differ in their links at most.
pub open spec fn same_but_links(a: Seq<CEdge>, b: Seq<CEdge>) -> bool {
    &&& a.len() == b.len()
    &&& forall|k: int| 0 <= k < a.len() ==> (#[trigger] a[k]).model() == b[k].model()
}

/// The x values along a list.
pub open spec fn list_xs(edges: Seq<CEdge>, order: Seq<int>) -> Seq<int> {
    Seq::new(order.len(), |i: int| edges[order[i]].X as int)
}

/// Every edge of the list, the sentinels apart, is a well-formed edge that is
/// positioned on scanline `y`, which is one of its own.
pub open spec fn list_active_at(edges: Seq<CEdge>, order: Seq<int>, y: int) -> bool {
    forall|i: int|
        1 <= i < order.len() - 1 ==> (#[trigger] order[i]) >= 2 && edge_wf_at(
            edges[order[i]].model(),
            y,
        )
}

/// A sequence in ascending order.
pub open spec fn ascending(xs: Seq<int>) -> bool {
    forall|i: int, j: int| 0 <= i <= j < xs.len() ==> #[trigger] xs[i] <= #[trigger] xs[j]
}

/// A sequence whose neighbours are in ascending order is in ascending order.
pub proof fn lemma_ascending_from_neighbours(xs: Seq<int>)
    requires
        forall|i: int| 0 <= i < xs.len() - 1 ==> #[trigger] xs[i] <= xs[i + 1],
    ensures
        ascending(xs),
{
    assert forall|i: int, j: int| 0 <= i <= j < xs.len() implies #[trigger] xs[i]
        <= #[trigger] xs[j] by {
        lemma_ascending_step(xs, i, j);
    }
}

proof fn lemma_ascending_step(xs: Seq<int>, i: int, j: int)
    requires
        forall|k: int| 0 <= k < xs.len() - 1 ==> #[trigger] xs[k] <= xs[k + 1],
        0 <= i <= j < xs.len(),
    ensures
        xs[i] <= xs[j],
    decreases j - i,
{
    if i < j {
        lemma_ascending_step(xs, i, j - 1);
        assert(xs[j - 1] <= xs[j - 1 + 1]);
    }
}

impl CEdgeTable {
    /// The links of the table thread the list `order`.
    pub open spec fn wf(&self) -> bool {
        linked(self.edges@, self.order@)
    }

    /// The head sentinel has the smallest x there is, the tail sentinel the
    /// largest x and first scanline, and an end before every scanline.
    pub open spec fn sentinels_ok(&self) -> bool {
        &&& self.edges@[HEAD_EDGE as int].X == INT::MIN
        &&& self.edges@[TAIL_EDGE as int].X == INT::MAX
        &&& self.edges@[TAIL_EDGE as int].StartY == INT::MAX
        &&& self.edges@[TAIL_EDGE as int].EndY == INT::MIN
        &&& self.edges@[TAIL_EDGE as int].Next == TAIL_EDGE
    }

    /// Number of edges in the active list, the sentinels not counted.
    pub open spec fn active_len(&self) -> int {
        self.order@.len() - 2
    }

    /// The `i`-th edge of the active list, the sentinels not counted.
    pub open spec fn active_edge(&self, i: int) -> CEdge {
        self.edges@[self.order@[i + 1]]
    }

    /// The x values along the active list, the sentinels included.
    pub open spec fn xs(&self) -> Seq<int> {
        list_xs(self.edges@, self.order@)
    }

    /// The active list is in ascending order of x.
    pub open spec fn x_ordered(&self) -> bool {
        ascending(self.xs())
    }

    /// Every edge of the active list is a well-formed edge that is
    /// positioned on scanline `y`, which is one of its own.
    pub open spec fn active_at(&self, y: int) -> bool {
        list_active_at(self.edges@, self.order@, y)
    }

    /// The number of edges in the active list is even.
    pub open spec fn even(&self) -> bool {
        self.active_len() % 2 == 0
    }

    /// What holds of the active list on every scanline that is filled: it is
    /// in ascending order of x, holds an even number of edges, and `y` is a
    /// scanline of each of them.
    pub open spec fn active_list_ok(&self, y: int) -> bool {
        &&& self.wf()
        &&& self.sentinels_ok()
        &&& self.x_ordered()
        &&& self.active_at(y)
        &&& self.even()
    }

    /// What [`AssertActiveList`] tests of a well-linked table.
    pub open spec fn active_list_asserted(&self, y: int) -> bool {
        &&& self.edges@[HEAD_EDGE as int].X == INT::MIN
        &&& self.edges@[TAIL_EDGE as int].X == INT::MAX
        &&& forall|i: int|
            0 <= i < self.active_len() ==> {
                &&& (#[trigger] self.active_edge(i)).X != INT::MIN
                &&& self.active_edge(i).X != INT::MAX
                &&& self.active_edge(i).X <= self.edges@[self.order@[i + 2]].X
                &&& self.active_edge(i).StartY <= y < self.active_edge(i).EndY
            }
        &&& self.even()
    }

    /// What [`AssertActiveListOrder`] tests of a well-linked table.
    pub open spec fn active_order_asserted(&self) -> bool {
        &&& self.edges@[HEAD_EDGE as int].X == INT::MIN
        &&& self.edges@[TAIL_EDGE as int].X == INT::MAX
        &&& forall|i: int|
            0 <= i < self.active_len() ==> {
                &&& (#[trigger] self.active_edge(i)).X != INT::MIN
                &&& self.active_edge(i).X != INT::MAX
                &&& self.active_edge(i).X <= self.edges@[self.order@[i + 2]].X
            }
    }

    /// The x values of the edges of the active list, in list order, the
    /// sentinels left out.
    pub open spec fn active_xs(&self) -> Seq<int> {
        Seq::new(self.active_len() as nat, |i: int| self.active_edge(i).X as int)
    }

    /// The winding directions of the edges of the active list, in list
    /// order, the sentinels left out.
    pub open spec fn active_windings(&self) -> Seq<int> {
        Seq::new(self.active_len() as nat, |i: int| self.active_edge(i).WindingDirection as int)
    }

    /// The edge `at` is the `i`-th edge of the active list, the sentinels
    /// not counted.
    pub open spec fn is_active(&self, at: usize, i: int) -> bool {
        0 <= i < self.active_len() && self.order@[i + 1] == at
    }

    /// The edge that follows the `i`-th edge of the active list: the tail
    /// sentinel behind the last.
    pub(crate) fn NextEdge(&self, at: usize, Ghost(i): Ghost<int>) -> (next: usize)
        requires
            self.wf(),
            self.is_active(at, i),
        ensures
            next == self.order@[i + 2],
            next < self.edges@.len(),
            i + 1 < self.active_len() ==> self.is_active(next, i + 1) && next != TAIL_EDGE,
            i + 1 == self.active_len() ==> next == TAIL_EDGE,
            at != TAIL_EDGE,
            at < self.edges@.len(),
    {
        proof {
            lemma_linked_next(self.edges@, self.order@, i + 1);
            if i + 1 < self.active_len() {
                lemma_real_edge(self.edges@, self.order@, i + 2);
            }
        }
        self.edges[at].Next
    }

    /// The x of the `i`-th edge of the active list.
    pub(crate) fn ActiveX(&self, at: usize, Ghost(i): Ghost<int>) -> (x: INT)
        requires
            self.wf(),
            self.is_active(at, i),
        ensures
            x == self.active_xs()[i],
            x == self.edges@[at as int].X,
    {
        proof {
            lemma_real_edge(self.edges@, self.order@, i + 1);
        }
        self.edges[at].X
    }

    /// The winding direction of the `i`-th edge of the active list.
    pub(crate) fn ActiveWinding(&self, at: usize, Ghost(i): Ghost<int>) -> (w: INT)
        requires
            self.wf(),
            self.is_active(at, i),
        ensures
            w == self.active_windings()[i],
    {
        proof {
            lemma_real_edge(self.edges@, self.order@, i + 1);
        }
        self.edges[at].WindingDirection
    }

    /// A table of the two sentinels alone, with an empty active list.
    pub fn new() -> (table: Self)
        ensures
            table.wf(),
            table.sentinels_ok(),
            table.active_len() == 0,
            table.edges@.len() == 2,
    {
        let mut edges: Vec<CEdge> = Vec::new();
        edges.push(
            CEdge {
                Next: TAIL_EDGE,
                X: INT::MIN,
                Dx: 0,
                Error: 0,
                ErrorUp: 0,
                ErrorDown: 0,
                StartY: 0,
                EndY: 0,
                WindingDirection: 0,
            },
        );
        edges.push(
            CEdge {
                Next: TAIL_EDGE,
                X: INT::MAX,
                Dx: 0,
                Error: 0,
                ErrorUp: 0,
                ErrorDown: 0,
                StartY: INT::MAX,
                EndY: INT::MIN,
                WindingDirection: 0,
            },
        );
        let ghost empty: Seq<int> = seq![HEAD_EDGE as int, TAIL_EDGE as int];
        CEdgeTable { edges, order: Ghost(empty) }
    }

    /// The edge at `index` of the table.
    pub fn Edge(&self, index: usize) -> (edge: CEdge)
        requires
            index < self.edges@.len(),
        ensures
            edge == self.edges@[index as int],
    {
        self.edges[index]
    }

    /// Index of the first edge of the active list; the tail sentinel where
    /// the list is empty.
    pub fn First(&self) -> (index: usize)
        requires
            self.wf(),
        ensures
            index == self.order@[1],
            index < self.edges@.len(),
    {
        assert(self.edges@[self.order@[0]].Next == self.order@[0int + 1]);
        self.edges[HEAD_EDGE].Next
    }
}

/// An edge that stands in a list is linked.
pub proof fn lemma_linked_next(edges: Seq<CEdge>, order: Seq<int>, i: int)
    requires
        linked(edges, order),
        0 <= i < order.len() - 1,
    ensures
        edges[order[i]].Next == order[i + 1],
        edges[order[i]].Next != UNLINKED,
        order[i] != TAIL_EDGE,
        order[i + 1] != HEAD_EDGE,
        0 <= order[i] < edges.len(),
        0 <= order[i + 1] < edges.len(),
{
}

/// An unlinked edge stands in no list.
pub proof fn lemma_unlinked_absent(edges: Seq<CEdge>, order: Seq<int>, k: int)
    requires
        linked(edges, order),
        2 <= k < edges.len(),
        edges[k].Next == UNLINKED,
    ensures
        !order.contains(k),
{
    if order.contains(k) {
        let i = choose|i: int| 0 <= i < order.len() && order[i] == k;
        lemma_linked_next(edges, order, i);
    }
}

/// Some debug code for verifying the state of the active edge list: says
/// whether the sentinels are in place, every edge is at or before the next
/// in x and has `yCurrent` among its scanlines, and the number of edges is
/// even.
pub fn AssertActiveList(list: &CEdgeTable, yCurrent: INT) -> (b: bool)
    requires
        list.wf(),
        list.edges@[TAIL_EDGE as int].Next == TAIL_EDGE,
    ensures
        b == list.active_list_asserted(yCurrent as int),
{
    let mut b = true;
    let ghost mut activeCount: int = 0;
    let mut activeEven: bool = true;
    b = b && (list.edges[HEAD_EDGE].X == INT::MIN);
    b = b && (list.edges[TAIL_EDGE].X == INT::MAX);

    // Skip the head sentinel:
    let mut current: usize = list.First();
    let ghost order = list.order@;
    let ghost edges = list.edges@;
    let ghost mut all = true;
    while current != TAIL_EDGE
        invariant
            linked(edges, order),
            order == list.order@,
            edges == list.edges@,
            0 <= activeCount < order.len() - 1,
            activeEven == (activeCount % 2 == 0),
            current == order[activeCount + 1],
            current < edges.len(),
            all == (forall|i: int|
                0 <= i < activeCount ==> {
                    &&& (#[trigger] list.active_edge(i)).X != INT::MIN
                    &&& list.active_edge(i).X != INT::MAX
                    &&& list.active_edge(i).X <= edges[order[i + 2]].X
                    &&& list.active_edge(i).StartY <= yCurrent < list.active_edge(i).EndY
                }),
            b == (edges[HEAD_EDGE as int].X == INT::MIN && edges[TAIL_EDGE as int].X == INT::MAX
                && all),
        decreases order.len() - activeCount,
    {
        proof {
            lemma_linked_next(edges, order, activeCount + 1);
        }
        let edge = list.edges[current];
        let next = list.edges[edge.Next];
        let here = edge.X != INT::MIN && edge.X != INT::MAX && edge.X <= next.X && (edge.StartY
            <= yCurrent) && (yCurrent < edge.EndY);
        proof {
            assert(list.active_edge(activeCount) == edge);
            all = all && here;
            activeCount = activeCount + 1;
        }
        b = b && here;
        activeEven = !activeEven;
        current = edge.Next;
    }
    // There should always be a multiple of 2 edges in the active list.
    proof {
        assert(activeCount == list.active_len()) by {
            if activeCount + 1 < order.len() - 1 {
                assert(order[activeCount + 1] != order[order.len() - 1]);
            }
        }
    }
    b = b && activeEven;
    b
}

/// Some debug code for verifying the order of the active edge list: says
/// whether the sentinels are in place and every edge is at or before the
/// next in x.
pub fn AssertActiveListOrder(list: &CEdgeTable) -> (b: bool)
    requires
        list.wf(),
        list.edges@[TAIL_EDGE as int].Next == TAIL_EDGE,
    ensures
        b == list.active_order_asserted(),
{
    let mut b = true;
    let ghost mut activeCount: int = 0;
    b = b && (list.edges[HEAD_EDGE].X == INT::MIN);
    b = b && (list.edges[TAIL_EDGE].X == INT::MAX);

    // Skip the head sentinel:
    let mut current: usize = list.First();
    let ghost order = list.order@;
    let ghost edges = list.edges@;
    let ghost mut all = true;
    while current != TAIL_EDGE
        invariant
            linked(edges, order),
            order == list.order@,
            edges == list.edges@,
            0 <= activeCount < order.len() - 1,
            current == order[activeCount + 1],
            current < edges.len(),
            all == (forall|i: int|
                0 <= i < activeCount ==> {
                    &&& (#[trigger] list.active_edge(i)).X != INT::MIN
                    &&& list.active_edge(i).X != INT::MAX
                    &&& list.active_edge(i).X <= edges[order[i + 2]].X
                }),
            b == (edges[HEAD_EDGE as int].X == INT::MIN && edges[TAIL_EDGE as int].X == INT::MAX
                && all),
        decreases order.len() - activeCount,
    {
        proof {
            lemma_linked_next(edges, order, activeCount + 1);
        }
        let edge = list.edges[current];
        let next = list.edges[edge.Next];
        let here = edge.X != INT::MIN && edge.X != INT::MAX && edge.X <= next.X;
        proof {
            assert(list.active_edge(activeCount) == edge);
            all = all && here;
            activeCount = activeCount + 1;
        }
        b = b && here;
        current = edge.Next;
    }
    proof {
        assert(activeCount == list.active_len()) by {
            if activeCount + 1 < order.len() - 1 {
                assert(order[activeCount + 1] != order[order.len() - 1]);
            }
        }
    }
    b
}


/// The edge at `k` with its link set to `next`.
pub open spec fn relinked(e: CEdge, next: usize) -> CEdge {
    CEdge { Next: next, ..e }
}

/// Splicing an edge that is in no list in behind the edge at place `t`.
pub proof fn lemma_insert_linked(edges: Seq<CEdge>, order: Seq<int>, t: int, new: int)
    requires
        linked(edges, order),
        0 <= t < order.len() - 1,
        2 <= new < edges.len(),
        !order.contains(new),
    ensures
        linked(
            edges.update(new, relinked(edges[new], order[t + 1] as usize)).update(
                order[t],
                relinked(edges[order[t]], new as usize),
            ),
            order.insert(t + 1, new),
        ),
{
    let after = edges.update(new, relinked(edges[new], order[t + 1] as usize)).update(
        order[t],
        relinked(edges[order[t]], new as usize),
    );
    let longer = order.insert(t + 1, new);
    assert(order[t] != new) by {
        assert(order.contains(order[t]));
    }
    assert forall|i: int| 0 <= i < longer.len() implies 0 <= #[trigger] longer[i]
        < after.len() by {
        if i <= t {
            assert(longer[i] == order[i]);
        } else if i > t + 1 {
            assert(longer[i] == order[i - 1]);
        }
    }
    assert forall|i: int, j: int| 0 <= i < j < longer.len() implies #[trigger] longer[i]
        != #[trigger] longer[j] by {
        let a = if i <= t {
            i
        } else {
            i - 1
        };
        let b = if j <= t {
            j
        } else {
            j - 1
        };
        if i == t + 1 {
            assert(longer[j] == order[b]);
            assert(order.contains(order[b]));
        } else if j == t + 1 {
            assert(longer[i] == order[a]);
            assert(order.contains(order[a]));
        } else {
            assert(longer[i] == order[a]);
            assert(longer[j] == order[b]);
        }
    }
    assert forall|i: int| 0 <= i < longer.len() - 1 implies (#[trigger] after[longer[i]]).Next
        == longer[i + 1] by {
        if i < t {
            assert(longer[i] == order[i] && longer[i + 1] == order[i + 1]);
            assert(order.contains(order[i]));
            assert(order[i] != order[t]);
            assert(edges[order[i]].Next == order[i + 1]);
        } else if i == t {
            assert(longer[i] == order[t]);
        } else if i == t + 1 {
            assert(longer[i + 1] == order[t + 1]);
        } else {
            assert(longer[i] == order[i - 1] && longer[i + 1] == order[i]);
            assert(order.contains(order[i - 1]));
            assert(order[t] != order[i - 1]);
            assert(edges[order[i - 1]].Next == order[i - 1 + 1]);
        }
    }
}

/// Putting a value between two neighbours that enclose it keeps an
/// ascending sequence ascending.
pub proof fn lemma_insert_ascending(xs: Seq<int>, t: int, x: int)
    requires
        ascending(xs),
        0 <= t < xs.len() - 1,
        xs[t] <= x <= xs[t + 1],
    ensures
        ascending(xs.insert(t + 1, x)),
{
    let longer = xs.insert(t + 1, x);
    assert forall|i: int, j: int| 0 <= i <= j < longer.len() implies #[trigger] longer[i]
        <= #[trigger] longer[j] by {
        let a = if i <= t {
            i
        } else {
            i - 1
        };
        let b = if j <= t {
            j
        } else {
            j - 1
        };
        if i == t + 1 && j == t + 1 {
        } else if i == t + 1 {
            assert(longer[j] == xs[b]);
            assert(xs[t + 1] <= xs[b]);
        } else if j == t + 1 {
            assert(longer[i] == xs[a]);
            assert(xs[a] <= xs[t]);
        } else {
            assert(longer[i] == xs[a] && longer[j] == xs[b]);
        }
    }
}

/// The entries of the inactive array from `pos` on are ready to be
/// inserted: each stands for an edge of its own that is in no list yet, is
/// positioned on its first scanline and has the key of the entry; the keys
/// ascend; and the tail sentinel follows the last entry.
pub open spec fn inactive_ready(inactive: Seq<CInactiveEdge>, edges: Seq<CEdge>, pos: int) -> bool {
    let count = inactive.len() - 2;
    &&& 1 <= pos <= count + 1
    &&& inactive[count + 1].Edge == TAIL_EDGE
    &&& forall|q: int|
        pos <= q <= count ==> {
            &&& 2 <= (#[trigger] inactive[q]).Edge < edges.len()
            &&& edges[inactive[q].Edge as int].Next == UNLINKED
            &&& edge_wf(edges[inactive[q].Edge as int].model())
            &&& inactive[q].Yx == edge_key(edges[inactive[q].Edge as int])
        }
    &&& forall|q1: int, q2: int|
        pos <= q1 < q2 <= count ==> (#[trigger] inactive[q1]).Edge != (#[trigger] inactive[q2]).Edge
    &&& forall|q1: int, q2: int|
        pos <= q1 <= q2 <= count ==> (#[trigger] inactive[q1]).Yx <= (#[trigger] inactive[q2]).Yx
}

/// The first scanline of the edge of entry `q`; of the tail sentinel for the
/// entry behind the last.
pub open spec fn entry_start_y(inactive: Seq<CInactiveEdge>, edges: Seq<CEdge>, q: int) -> int {
    edges[inactive[q].Edge as int].StartY as int
}

/// Entries that are ready come in the order of their first scanline, and on
/// the same scanline in the order of their x.
pub proof fn lemma_ready_order(inactive: Seq<CInactiveEdge>, edges: Seq<CEdge>, pos: int, q1: int, q2: int)
    requires
        inactive_ready(inactive, edges, pos),
        pos <= q1 <= q2 <= inactive.len() - 2,
    ensures
        entry_start_y(inactive, edges, q1) <= entry_start_y(inactive, edges, q2),
        entry_start_y(inactive, edges, q1) == entry_start_y(inactive, edges, q2)
            ==> edges[inactive[q1].Edge as int].X <= edges[inactive[q2].Edge as int].X,
{
    let e1 = edges[inactive[q1].Edge as int];
    let e2 = edges[inactive[q2].Edge as int];
    assert(inactive[q1].Yx <= inactive[q2].Yx);
    assert(edge_wf(e1.model()) && edge_wf(e2.model()));
    lemma_edge_x_bounded(e1.model(), e1.StartY as int);
    lemma_edge_x_bounded(e2.model(), e2.StartY as int);
    lemma_yx_key_order(e1.X as int, e1.StartY as int, e2.X as int, e2.StartY as int);
}

/// The x of a well-formed edge is within [`EDGE_X_BOUND`] of zero.
pub proof fn lemma_edge_x_bounded(e: EdgeModel, y: int)
    requires
        edge_wf_at(e, y),
    ensures
        -EDGE_X_BOUND <= e.x <= EDGE_X_BOUND,
        -EDGE_X_BOUND <= y < EDGE_X_BOUND,
{
    assert((e.end_y - 1 - y) * (abs(e.dx) + 1) >= 0) by (nonlinear_arith)
        requires
            e.end_y - 1 - y >= 0,
            abs(e.dx) + 1 >= 0,
    ;
}

/// Insert edges into the active edge list: every entry of the inactive
/// array, from `*ppInactiveEdge` on, whose edge starts on `iCurrentY`, in
/// front of the first edge of the list that is not to its left.
///
/// The cursor is left on the first entry that starts on a later scanline,
/// which `pYNextInactive` receives; it is `INT::MAX` when no more are left.
pub fn InsertNewEdges(
    pActiveList: &mut CEdgeTable,
    iCurrentY: INT,
    inactive: &Vec<CInactiveEdge>,
    ppInactiveEdge: &mut usize,
    pYNextInactive: &mut INT,
)
    requires
        old(pActiveList).wf(),
        old(pActiveList).sentinels_ok(),
        old(pActiveList).x_ordered(),
        old(pActiveList).active_at(iCurrentY as int),
        inactive_ready(inactive@, old(pActiveList).edges@, *old(ppInactiveEdge) as int),
        *old(ppInactiveEdge) <= inactive@.len() - 2,
        entry_start_y(inactive@, old(pActiveList).edges@, *old(ppInactiveEdge) as int)
            == iCurrentY,
    ensures
        final(pActiveList).wf(),
        final(pActiveList).sentinels_ok(),
        final(pActiveList).x_ordered(),
        final(pActiveList).active_at(iCurrentY as int),
        same_but_links(old(pActiveList).edges@, final(pActiveList).edges@),
        inactive_ready(inactive@, final(pActiveList).edges@, *final(ppInactiveEdge) as int),
        *old(ppInactiveEdge) < *final(ppInactiveEdge) <= inactive@.len() - 1,
        final(pActiveList).active_len() == old(pActiveList).active_len() + *final(ppInactiveEdge)
            - *old(ppInactiveEdge),
        forall|q: int|
            *old(ppInactiveEdge) <= q < *final(ppInactiveEdge) ==> entry_start_y(
                inactive@,
                old(pActiveList).edges@,
                q,
            ) == iCurrentY && final(pActiveList).order@.contains(
                (#[trigger] inactive@[q]).Edge as int,
            ),
        forall|k: int| old(pActiveList).order@.contains(k) ==> final(pActiveList).order@.contains(k),
        forall|k: int|
            final(pActiveList).order@.contains(k) ==> old(pActiveList).order@.contains(k) || exists|
                q: int,
            |
                *old(ppInactiveEdge) <= q < *final(ppInactiveEdge) && (#[trigger] inactive@[q]).Edge
                    == k,
        *final(pYNextInactive) == entry_start_y(
            inactive@,
            final(pActiveList).edges@,
            *final(ppInactiveEdge) as int,
        ),
        *final(pYNextInactive) > iCurrentY,
{
    let ghost edges0 = pActiveList.edges@;
    let ghost order0 = pActiveList.order@;
    let ghost pos0 = *ppInactiveEdge as int;
    let ghost count = inactive@.len() - 2;
    let length: usize = inactive.len();
    let mut pos: usize = *ppInactiveEdge;
    let mut previous: usize = HEAD_EDGE;
    let ghost mut t: int = 0;
    proof {
        let first = edges0[inactive@[pos0].Edge as int];
        lemma_edge_x_bounded(first.model(), first.StartY as int);
    }
    loop
        invariant_except_break
            pos0 <= pos <= count,
            entry_start_y(inactive@, pActiveList.edges@, pos as int) == iCurrentY,
            pActiveList.edges@[previous as int].X < pActiveList.edges@[inactive@[pos as int].Edge as int].X,
        invariant
            count == inactive@.len() - 2,
            length == inactive@.len(),
            edges0 == old(pActiveList).edges@,
            order0 == old(pActiveList).order@,
            pos0 == *old(ppInactiveEdge),
            pActiveList.wf(),
            pActiveList.sentinels_ok(),
            pActiveList.x_ordered(),
            pActiveList.active_at(iCurrentY as int),
            same_but_links(edges0, pActiveList.edges@),
            inactive_ready(inactive@, pActiveList.edges@, pos as int),
            0 <= t < pActiveList.order@.len() - 1,
            previous == pActiveList.order@[t],
            pActiveList.active_len() == order0.len() - 2 + pos - pos0,
            forall|q: int|
                pos0 <= q < pos ==> entry_start_y(inactive@, edges0, q) == iCurrentY
                    && pActiveList.order@.contains((#[trigger] inactive@[q]).Edge as int),
            forall|k: int| order0.contains(k) ==> pActiveList.order@.contains(k),
            forall|k: int|
                pActiveList.order@.contains(k) ==> order0.contains(k) || exists|q: int|
                    pos0 <= q < pos && (#[trigger] inactive@[q]).Edge == k,
        ensures
            pos0 < pos <= count + 1,
            entry_start_y(inactive@, pActiveList.edges@, pos as int) != iCurrentY,
        decreases count + 1 - pos,
    {
        let ghost edges1 = pActiveList.edges@;
        let ghost order1 = pActiveList.order@;
        let newActive: usize = inactive[pos].Edge;
        let newX: INT = pActiveList.edges[newActive].X;
        proof {
            lemma_edge_x_bounded(edges1[newActive as int].model(), iCurrentY as int);
        }
        // The activeList edge list sentinel has X = INT_MAX, so this always
        // terminates:
        loop
            invariant
                pActiveList.edges@ == edges1,
                pActiveList.order@ == order1,
                linked(edges1, order1),
                edges1[TAIL_EDGE as int].X == INT::MAX,
                ascending(list_xs(edges1, order1)),
                newX < INT::MAX,
                0 <= t < order1.len() - 1,
                previous == order1[t],
                edges1[previous as int].X < newX,
            ensures
                edges1[order1[t + 1]].X >= newX,
            decreases order1.len() - t,
        {
            proof {
                lemma_linked_next(edges1, order1, t);
            }
            let next: usize = pActiveList.edges[previous].Next;
            if !(pActiveList.edges[next].X < newX) {
                break ;
            }
            proof {
                if t + 1 == order1.len() - 1 {
                    assert(order1[t + 1] == TAIL_EDGE);
                }
            }
            previous = next;
            proof {
                t = t + 1;
            }
        }
        proof {
            lemma_linked_next(edges1, order1, t);
            lemma_unlinked_absent(edges1, order1, newActive as int);
            lemma_insert_linked(edges1, order1, t, newActive as int);
            assert(list_xs(edges1, order1)[t] == edges1[order1[t]].X);
            assert(list_xs(edges1, order1)[t + 1] == edges1[order1[t + 1]].X);
            lemma_insert_ascending(list_xs(edges1, order1), t, newX as int);
        }
        let following: usize = pActiveList.edges[previous].Next;
        let mut spliced = pActiveList.edges[newActive];
        spliced.Next = following;
        pActiveList.edges[newActive] = spliced;
        let mut before = pActiveList.edges[previous];
        before.Next = newActive;
        pActiveList.edges[previous] = before;
        proof {
            pActiveList.order@ = order1.insert(t + 1, newActive as int);
        }
        let ghost edges2 = pActiveList.edges@;
        let ghost order2 = pActiveList.order@;
        proof {
            assert(edges2 =~= edges1.update(
                newActive as int,
                relinked(edges1[newActive as int], order1[t + 1] as usize),
            ).update(order1[t], relinked(edges1[order1[t]], newActive)));
            assert(list_xs(edges2, order2) =~= list_xs(edges1, order1).insert(t + 1, newX as int))
                by {
                assert forall|i: int| 0 <= i < order2.len() implies list_xs(edges2, order2)[i]
                    == list_xs(edges1, order1).insert(t + 1, newX as int)[i] by {
                    if i <= t {
                        assert(order2[i] == order1[i]);
                    } else if i > t + 1 {
                        assert(order2[i] == order1[i - 1]);
                    }
                }
            }
            lemma_insert_active(edges1, order1, edges2, t, newActive as int, iCurrentY as int);
            assert forall|q: int| pos + 1 <= q <= count implies {
                &&& 2 <= (#[trigger] inactive@[q]).Edge < edges2.len()
                &&& edges2[inactive@[q].Edge as int].Next == UNLINKED
                &&& edge_wf(edges2[inactive@[q].Edge as int].model())
                &&& inactive@[q].Yx == edge_key(edges2[inactive@[q].Edge as int])
            } by {
                let k = inactive@[q].Edge as int;
                assert(inactive@[pos as int].Edge != inactive@[q].Edge);
                lemma_unlinked_absent(edges1, order1, k);
                assert(order1.contains(order1[t]));
                assert(edges2[k] == edges1[k]);
            }
            assert forall|q: int| pos0 <= q < pos + 1 implies entry_start_y(inactive@, edges0, q)
                == iCurrentY && order2.contains((#[trigger] inactive@[q]).Edge as int) by {
                if q < pos {
                    let k = inactive@[q].Edge as int;
                    assert(order1.contains(k));
                    lemma_insert_contains(order1, t + 1, newActive as int, k);
                } else {
                    assert(order2[t + 1] == newActive);
                    assert(edges0[newActive as int].model() == edges1[newActive as int].model());
                }
            }
            assert forall|k: int| order0.contains(k) implies order2.contains(k) by {
                assert(order1.contains(k));
                lemma_insert_contains(order1, t + 1, newActive as int, k);
            }
            assert forall|k: int| order2.contains(k) implies order0.contains(k) || exists|q: int|
                pos0 <= q < pos + 1 && (#[trigger] inactive@[q]).Edge == k by {
                lemma_insert_contains(order1, t + 1, newActive as int, k);
                if k == newActive {
                    assert(inactive@[pos as int].Edge == k);
                } else {
                    assert(order1.contains(k));
                    if !order0.contains(k) {
                        let q = choose|q: int|
                            pos0 <= q < pos && (#[trigger] inactive@[q]).Edge == k;
                        assert(pos0 <= q < pos + 1 && inactive@[q].Edge == k);
                    }
                }
            }
            if pos + 1 <= count {
                lemma_ready_order(inactive@, edges1, pos as int, pos as int, pos + 1);
                let later = inactive@[pos + 1].Edge as int;
                assert(inactive@[pos as int].Edge != inactive@[pos + 1].Edge);
                lemma_unlinked_absent(edges1, order1, later);
                assert(order1.contains(order1[t]));
                assert(edges2[later] == edges1[later]);
                assert(edges2[previous as int].X == edges1[previous as int].X);
            }
            assert(edges2[TAIL_EDGE as int] == edges1[TAIL_EDGE as int]) by {
                lemma_linked_next(edges1, order1, t);
            }
            assert(edges2[HEAD_EDGE as int].X == edges1[HEAD_EDGE as int].X);
            lemma_edge_x_bounded(edges1[newActive as int].model(), iCurrentY as int);
        }
        pos += 1;
        if pActiveList.edges[inactive[pos].Edge].StartY != iCurrentY {
            break ;
        }
    }
    *pYNextInactive = pActiveList.edges[inactive[pos].Edge].StartY;
    *ppInactiveEdge = pos;
}

/// A list with one more well-formed edge spliced in is a list of
/// well-formed edges.
pub proof fn lemma_insert_active(
    edges: Seq<CEdge>,
    order: Seq<int>,
    after: Seq<CEdge>,
    t: int,
    new: int,
    y: int,
)
    requires
        linked(edges, order),
        list_active_at(edges, order, y),
        same_but_links(edges, after),
        0 <= t < order.len() - 1,
        2 <= new < edges.len(),
        edge_wf_at(edges[new].model(), y),
    ensures
        list_active_at(after, order.insert(t + 1, new), y),
{
    let longer = order.insert(t + 1, new);
    assert forall|i: int| 1 <= i < longer.len() - 1 implies (#[trigger] longer[i]) >= 2
        && edge_wf_at(after[longer[i]].model(), y) by {
        if i <= t {
            assert(longer[i] == order[i]);
        } else if i > t + 1 {
            assert(longer[i] == order[i - 1]);
        }
        assert(edges[longer[i]].model() == after[longer[i]].model());
    }
}

/// What a list holds once a value was put in.
pub proof fn lemma_insert_contains(order: Seq<int>, at: int, new: int, k: int)
    requires
        0 <= at <= order.len(),
    ensures
        order.insert(at, new).contains(k) <==> (k == new || order.contains(k)),
{
    let longer = order.insert(at, new);
    if longer.contains(k) {
        let i = choose|i: int| 0 <= i < longer.len() && longer[i] == k;
        if i < at {
            assert(order[i] == k);
        } else if i > at {
            assert(order[i - 1] == k);
        }
    }
    if order.contains(k) {
        let i = choose|i: int| 0 <= i < order.len() && order[i] == k;
        if i < at {
            assert(longer[i] == k);
        } else {
            assert(longer[i + 1] == k);
        }
    }
    assert(longer[at] == new);
}


/// Taking the edge at place `t` out of the list.
pub proof fn lemma_remove_linked(edges: Seq<CEdge>, order: Seq<int>, t: int)
    requires
        linked(edges, order),
        1 <= t < order.len() - 1,
    ensures
        linked(
            edges.update(order[t - 1], relinked(edges[order[t - 1]], order[t + 1] as usize)),
            order.remove(t),
        ),
        !order.remove(t).contains(order[t]),
        forall|k: int| k != order[t] ==> (order.remove(t).contains(k) <==> order.contains(k)),
{
    let after = edges.update(order[t - 1], relinked(edges[order[t - 1]], order[t + 1] as usize));
    let shorter = order.remove(t);
    assert forall|i: int| 0 <= i < shorter.len() implies shorter[i] == order[if i < t {
        i
    } else {
        i + 1
    }] by {}
    assert forall|i: int| 0 <= i < shorter.len() - 1 implies (#[trigger] after[shorter[i]]).Next
        == shorter[i + 1] by {
        if i < t - 1 {
            assert(order[i] != order[t - 1]);
            assert(edges[order[i]].Next == order[i + 1]);
        } else if i == t - 1 {
        } else {
            assert(order[t - 1] != order[i + 1]);
            assert(edges[order[i + 1]].Next == order[i + 1 + 1]);
        }
    }
    assert forall|i: int, j: int| 0 <= i < j < shorter.len() implies #[trigger] shorter[i]
        != #[trigger] shorter[j] by {
        let a = if i < t {
            i
        } else {
            i + 1
        };
        let b = if j < t {
            j
        } else {
            j + 1
        };
        assert(order[a] != order[b]);
    }
    assert forall|k: int| k != order[t] implies (shorter.contains(k) <==> order.contains(k)) by {
        if shorter.contains(k) {
            let i = choose|i: int| 0 <= i < shorter.len() && shorter[i] == k;
            assert(order[if i < t {
                i
            } else {
                i + 1
            }] == k);
        }
        if order.contains(k) {
            let i = choose|i: int| 0 <= i < order.len() && order[i] == k;
            if i < t {
                assert(shorter[i] == k);
            } else {
                assert(shorter[i - 1] == k);
            }
        }
    }
    if shorter.contains(order[t]) {
        let i = choose|i: int| 0 <= i < shorter.len() && shorter[i] == order[t];
        if i < t {
            assert(order[i] != order[t]);
        } else {
            assert(order[t] != order[i + 1]);
        }
    }
}

/// The list with the edges at places `t` and `t + 1` exchanged.
pub open spec fn exchanged(order: Seq<int>, t: int) -> Seq<int> {
    order.update(t, order[t + 1]).update(t + 1, order[t])
}

/// Exchanging two neighbours of the list by relinking three edges.
pub proof fn lemma_swap_linked(edges: Seq<CEdge>, order: Seq<int>, t: int)
    requires
        linked(edges, order),
        1 <= t,
        t + 2 <= order.len() - 1,
    ensures
        linked(
            edges.update(order[t - 1], relinked(edges[order[t - 1]], order[t + 1] as usize)).update(
                order[t],
                relinked(edges[order[t]], order[t + 2] as usize),
            ).update(order[t + 1], relinked(edges[order[t + 1]], order[t] as usize)),
            exchanged(order, t),
        ),
        forall|k: int| exchanged(order, t).contains(k) <==> order.contains(k),
{
    let after = edges.update(order[t - 1], relinked(edges[order[t - 1]], order[t + 1] as usize)).update(
        order[t],
        relinked(edges[order[t]], order[t + 2] as usize),
    ).update(order[t + 1], relinked(edges[order[t + 1]], order[t] as usize));
    let swapped = exchanged(order, t);
    assert(order[t - 1] != order[t] && order[t] != order[t + 1] && order[t - 1] != order[t + 1]);
    assert forall|i: int| 0 <= i < swapped.len() - 1 implies (#[trigger] after[swapped[i]]).Next
        == swapped[i + 1] by {
        if i == t - 1 {
        } else if i == t {
        } else if i == t + 1 {
        } else {
            assert(order[i] != order[t - 1] && order[i] != order[t] && order[i] != order[t + 1]);
            assert(edges[order[i]].Next == order[i + 1]);
        }
    }
    assert forall|i: int, j: int| 0 <= i < j < swapped.len() implies #[trigger] swapped[i]
        != #[trigger] swapped[j] by {
        let a = if i == t {
            t + 1
        } else if i == t + 1 {
            t
        } else {
            i
        };
        let b = if j == t {
            t + 1
        } else if j == t + 1 {
            t
        } else {
            j
        };
        assert(swapped[i] == order[a] && swapped[j] == order[b]);
        if a < b {
            assert(order[a] != order[b]);
        } else {
            assert(order[b] != order[a]);
        }
    }
    assert forall|k: int| swapped.contains(k) <==> order.contains(k) by {
        if swapped.contains(k) {
            let i = choose|i: int| 0 <= i < swapped.len() && swapped[i] == k;
            let a = if i == t {
                t + 1
            } else if i == t + 1 {
                t
            } else {
                i
            };
            assert(order[a] == k);
        }
        if order.contains(k) {
            let i = choose|i: int| 0 <= i < order.len() && order[i] == k;
            let a = if i == t {
                t + 1
            } else if i == t + 1 {
                t
            } else {
                i
            };
            assert(swapped[a] == k);
        }
    }
}

/// The two lists hold the same edges.
pub open spec fn same_members(a: Seq<int>, b: Seq<int>) -> bool {
    &&& a.len() == b.len()
    &&& forall|k: int| a.contains(k) <==> b.contains(k)
}

/// From place `lo` on, every value is at least as large as each value
/// before it, the sentinels at both ends apart.
pub open spec fn settled_from(xs: Seq<int>, lo: int) -> bool {
    forall|i: int, j: int|
        1 <= i <= j <= xs.len() - 2 && j >= lo ==> #[trigger] xs[i] <= #[trigger] xs[j]
}

/// A list of edges that are well-formed on a scanline stays one when its
/// edges are put in another order.
pub proof fn lemma_members_active(
    edges: Seq<CEdge>,
    order: Seq<int>,
    after: Seq<CEdge>,
    reordered: Seq<int>,
    y: int,
)
    requires
        linked(edges, order),
        linked(after, reordered),
        same_but_links(edges, after),
        forall|k: int| reordered.contains(k) ==> order.contains(k),
        list_active_at(edges, order, y),
    ensures
        list_active_at(after, reordered, y),
{
    assert forall|i: int| 1 <= i < reordered.len() - 1 implies (#[trigger] reordered[i]) >= 2
        && edge_wf_at(after[reordered[i]].model(), y) by {
        let k = reordered[i];
        assert(reordered.contains(k));
        let w = choose|w: int| 0 <= w < order.len() && order[w] == k;
        assert(reordered[0] != reordered[i]);
        assert(reordered[i] != reordered[reordered.len() - 1]);
        assert(order[w] >= 2);
        assert(edges[k].model() == after[k].model());
    }
}

/// The value at place `t` is at least as large as each value before it,
/// the head sentinel apart.
pub open spec fn prefix_max(xs: Seq<int>, t: int) -> bool {
    forall|i: int| 1 <= i <= t ==> #[trigger] xs[i] <= xs[t]
}

/// Up to place `t` every value is at most as large as the next, the head
/// sentinel apart.
pub open spec fn neighbours_ascend(xs: Seq<int>, t: int) -> bool {
    forall|i: int| 1 <= i < t ==> #[trigger] xs[i] <= xs[i + 1]
}

/// The values with those at places `t` and `t + 1` exchanged.
pub open spec fn exchanged_xs(xs: Seq<int>, t: int) -> Seq<int> {
    xs.update(t, xs[t + 1]).update(t + 1, xs[t])
}

/// A list that is settled from its second place on is settled throughout.
pub proof fn lemma_settled_whole(xs: Seq<int>, lo: int)
    requires
        settled_from(xs, lo),
        lo <= 2,
    ensures
        settled_from(xs, lo - 1),
        settled_from(xs, 1),
{
}

/// Two neighbours that are out of order both stand before the settled part;
/// exchanging them keeps that part settled and makes the second of them the
/// largest so far.
pub proof fn lemma_settled_exchange(xs: Seq<int>, t: int, lo: int)
    requires
        settled_from(xs, lo),
        prefix_max(xs, t),
        1 <= t,
        t + 1 <= xs.len() - 2,
        xs[t + 1] < xs[t],
    ensures
        t + 1 < lo,
        settled_from(exchanged_xs(xs, t), lo),
        prefix_max(exchanged_xs(xs, t), t + 1),
        t + 1 >= lo - 1 ==> settled_from(exchanged_xs(xs, t), lo - 1),
{
    let ys = exchanged_xs(xs, t);
    if t + 1 >= lo {
        assert(xs[t] <= xs[t + 1]);
    }
    assert forall|i: int, j: int| 1 <= i <= j <= ys.len() - 2 && j >= lo implies #[trigger] ys[i]
        <= #[trigger] ys[j] by {
        let a = if i == t {
            t + 1
        } else if i == t + 1 {
            t
        } else {
            i
        };
        assert(xs[a] <= xs[j]);
    }
    assert forall|i: int| 1 <= i <= t + 1 implies #[trigger] ys[i] <= ys[t + 1] by {
        if i != t && i != t + 1 {
            assert(xs[i] <= xs[t]);
        }
    }
    if t + 1 >= lo - 1 {
        assert forall|i: int, j: int|
            1 <= i <= j <= ys.len() - 2 && j >= lo - 1 implies #[trigger] ys[i] <= #[trigger] ys[j] by {
            if j < lo {
                assert(j == t + 1);
                assert(ys[i] <= ys[t + 1]);
            }
        }
    }
}

/// Two neighbours that are in order: the second of them is the largest so
/// far, and where it stands just before the settled part it joins it.
pub proof fn lemma_settled_keep(xs: Seq<int>, t: int, lo: int)
    requires
        settled_from(xs, lo),
        t >= lo - 1 ==> settled_from(xs, lo - 1),
        prefix_max(xs, t),
        1 <= t,
        t + 1 <= xs.len() - 2,
        xs[t] <= xs[t + 1],
    ensures
        prefix_max(xs, t + 1),
        t + 1 >= lo - 1 ==> settled_from(xs, lo - 1),
{
    assert forall|i: int| 1 <= i <= t + 1 implies #[trigger] xs[i] <= xs[t + 1] by {
        if i <= t {
            assert(xs[i] <= xs[t]);
        }
    }
    if t + 1 >= lo - 1 && !(t >= lo - 1) {
        assert forall|i: int, j: int|
            1 <= i <= j <= xs.len() - 2 && j >= lo - 1 implies #[trigger] xs[i] <= #[trigger] xs[j] by {
            if j < lo {
                assert(j == t + 1);
                assert(xs[i] <= xs[t + 1]);
            }
        }
    }
}

/// A list whose neighbours ascend between the sentinels, which hold the
/// least and the largest value there is, is in ascending order.
pub proof fn lemma_neighbours_sorted(xs: Seq<int>)
    requires
        xs.len() >= 3,
        neighbours_ascend(xs, xs.len() - 2),
        xs[0] == INT::MIN,
        xs[xs.len() - 1] == INT::MAX,
        forall|i: int| 0 <= i < xs.len() ==> INT::MIN <= #[trigger] xs[i] <= INT::MAX,
    ensures
        ascending(xs),
{
    assert forall|i: int| 0 <= i < xs.len() - 1 implies #[trigger] xs[i] <= xs[i + 1] by {
        if i == 0 {
            assert(INT::MIN <= xs[1]);
        } else if i == xs.len() - 2 {
            assert(xs[i] <= INT::MAX);
        }
    }
    lemma_ascending_from_neighbours(xs);
}

/// Exchanges the edges at places `t` and `t + 1` of the list, of which
/// `previous` is the edge before them, by relinking.
fn ExchangeNeighbours(
    list: &mut CEdgeTable,
    previous: usize,
    current: usize,
    next: usize,
    Ghost(t): Ghost<int>,
)
    requires
        old(list).wf(),
        1 <= t,
        t + 2 <= old(list).order@.len() - 1,
        previous == old(list).order@[t - 1],
        current == old(list).order@[t],
        next == old(list).order@[t + 1],
    ensures
        final(list).wf(),
        final(list).order@ == exchanged(old(list).order@, t),
        same_but_links(old(list).edges@, final(list).edges@),
        same_members(old(list).order@, final(list).order@),
        final(list).xs() == exchanged_xs(old(list).xs(), t),
        forall|k: int|
            !old(list).order@.contains(k) && 0 <= k < old(list).edges@.len() ==> final(list).edges@[k]
                == old(list).edges@[k],
        final(list).edges@[HEAD_EDGE as int].X == old(list).edges@[HEAD_EDGE as int].X,
        final(list).edges@[TAIL_EDGE as int] == old(list).edges@[TAIL_EDGE as int],
{
    let ghost edges1 = list.edges@;
    let ghost order1 = list.order@;
    proof {
        lemma_swap_linked(edges1, order1, t);
        lemma_linked_next(edges1, order1, t + 1);
        lemma_linked_next(edges1, order1, t);
        lemma_linked_next(edges1, order1, t - 1);
    }
    let following: usize = list.edges[next].Next;
    let mut e = list.edges[previous];
    e.Next = next;
    list.edges[previous] = e;
    let mut e = list.edges[current];
    e.Next = following;
    list.edges[current] = e;
    let mut e = list.edges[next];
    e.Next = current;
    list.edges[next] = e;
    proof {
        list.order@ = exchanged(order1, t);
        let edges2 = list.edges@;
        let order2 = list.order@;
        assert(order1[t - 1] != order1[t] && order1[t] != order1[t + 1] && order1[t - 1]
            != order1[t + 1]);
        assert(edges2 =~= edges1.update(
            order1[t - 1],
            relinked(edges1[order1[t - 1]], order1[t + 1] as usize),
        ).update(order1[t], relinked(edges1[order1[t]], order1[t + 2] as usize)).update(
            order1[t + 1],
            relinked(edges1[order1[t + 1]], order1[t] as usize),
        ));
        assert(list.xs() =~= exchanged_xs(list_xs(edges1, order1), t)) by {
            assert forall|i: int| 0 <= i < order2.len() implies list.xs()[i] == exchanged_xs(
                list_xs(edges1, order1),
                t,
            )[i] by {
                assert(edges2[order2[i]].X == edges1[order2[i]].X);
            }
        }
        assert forall|k: int| !order1.contains(k) && 0 <= k < edges1.len() implies edges2[k]
            == edges1[k] by {
            assert(order1.contains(order1[t - 1]));
            assert(order1.contains(order1[t]));
            assert(order1.contains(order1[t + 1]));
        }
        assert(order1[order1.len() - 1] != order1[t - 1] && order1[t] != order1[order1.len() - 1]
            && order1[t + 1] != order1[order1.len() - 1]);
    }
}

/// One pass of the bubble sort over the active list: walks the list once
/// and exchanges every two neighbours that are out of order. Says whether
/// it exchanged any.
///
/// `lo` is the place from which on the list was settled before the pass;
/// after it the list is settled from one place earlier on.
#[verifier::rlimit(80)]
fn BubblePass(list: &mut CEdgeTable, Ghost(lo): Ghost<int>) -> (swapOccurred: bool)
    requires
        old(list).wf(),
        old(list).sentinels_ok(),
        old(list).active_len() >= 1,
        2 <= lo <= old(list).order@.len() - 1,
        settled_from(old(list).xs(), lo),
    ensures
        final(list).wf(),
        final(list).sentinels_ok(),
        same_but_links(old(list).edges@, final(list).edges@),
        same_members(old(list).order@, final(list).order@),
        forall|k: int|
            !old(list).order@.contains(k) && 0 <= k < old(list).edges@.len() ==> final(list).edges@[k]
                == old(list).edges@[k],
        settled_from(final(list).xs(), lo - 1),
        swapOccurred ==> lo > 2,
        !swapOccurred ==> final(list).x_ordered(),
{
    let ghost edges0 = list.edges@;
    let ghost order0 = list.order@;
    let ghost n = order0.len() as int;
    let mut swapOccurred = false;
    let mut previous: usize = HEAD_EDGE;
    proof {
        lemma_linked_next(list.edges@, list.order@, 0);
        lemma_linked_next(list.edges@, list.order@, 1);
        if lo <= 2 {
            lemma_settled_whole(list.xs(), lo);
        }
    }
    let mut current: usize = list.edges[HEAD_EDGE].Next;
    let mut next: usize = list.edges[current].Next;
    let ghost mut t: int = 1;
    while next != TAIL_EDGE
        invariant
            n == order0.len(),
            n >= 3,
            edges0 == old(list).edges@,
            order0 == old(list).order@,
            list.wf(),
            list.sentinels_ok(),
            same_but_links(edges0, list.edges@),
            same_members(order0, list.order@),
            forall|k: int|
                !order0.contains(k) && 0 <= k < edges0.len() ==> list.edges@[k] == edges0[k],
            1 <= t <= n - 2,
            previous == list.order@[t - 1],
            current == list.order@[t],
            next == list.order@[t + 1],
            2 <= lo <= n - 1,
            settled_from(list.xs(), lo),
            t >= lo - 1 ==> settled_from(list.xs(), lo - 1),
            prefix_max(list.xs(), t),
            !swapOccurred ==> neighbours_ascend(list.xs(), t),
            swapOccurred ==> lo > 2,
        decreases n - t,
    {
        let ghost edges1 = list.edges@;
        let ghost order1 = list.order@;
        let ghost xs1 = list.xs();
        proof {
            assert(t + 1 < n - 1) by {
                if t + 1 == n - 1 {
                    assert(order1[t + 1] == TAIL_EDGE);
                }
            }
            assert(xs1[t] == edges1[order1[t]].X);
            assert(xs1[t + 1] == edges1[order1[t + 1]].X);
        }
        if list.edges[next].X < list.edges[current].X {
            swapOccurred = true;
            proof {
                lemma_settled_exchange(xs1, t, lo);
            }
            ExchangeNeighbours(list, previous, current, next, Ghost(t));
            let tmp = next;
            next = current;
            current = tmp;
            proof {
                assert forall|k: int|
                    !order0.contains(k) && 0 <= k < edges0.len() implies list.edges@[k]
                    == edges0[k] by {
                    assert(!order1.contains(k));
                    assert(edges1[k] == edges0[k]);
                }
            }
        } else {
            proof {
                lemma_settled_keep(xs1, t, lo);
                if !swapOccurred {
                    assert forall|i: int| 1 <= i < t + 1 implies #[trigger] xs1[i] <= xs1[i
                        + 1] by {
                        if i < t {
                            assert(neighbours_ascend(xs1, t));
                        }
                    }
                }
            }
        }
        proof {
            lemma_linked_next(list.edges@, list.order@, t + 1);
        }
        previous = current;
        current = next;
        next = list.edges[next].Next;
        proof {
            t = t + 1;
        }
    }
    proof {
        assert(t == n - 2) by {
            if t + 1 < n - 1 {
                assert(list.order@[t + 1] != list.order@[n - 1]);
            }
        }
        if !swapOccurred {
            let xs = list.xs();
            assert(xs[0] == list.edges@[list.order@[0]].X);
            assert(xs[n - 1] == list.edges@[list.order@[n - 1]].X);
            lemma_neighbours_sorted(xs);
        }
    }
    swapOccurred
}

/// Sort the edges so that they're in ascending 'x' order.
///
/// We use a bubble-sort for this stage, because edges maintain good
/// locality and don't often switch ordering positions.
pub fn SortActiveEdges(list: &mut CEdgeTable)
    requires
        old(list).wf(),
        old(list).sentinels_ok(),
        old(list).active_len() >= 1,
    ensures
        final(list).wf(),
        final(list).sentinels_ok(),
        final(list).x_ordered(),
        same_but_links(old(list).edges@, final(list).edges@),
        same_members(old(list).order@, final(list).order@),
        forall|k: int|
            !old(list).order@.contains(k) && 0 <= k < old(list).edges@.len() ==> final(list).edges@[k]
                == old(list).edges@[k],
{
    let ghost edges0 = list.edges@;
    let ghost order0 = list.order@;
    let ghost n = order0.len() as int;
    let ghost mut lo: int = n - 1;
    loop
        invariant_except_break
            2 <= lo <= n - 1,
            settled_from(list.xs(), lo),
        invariant
            n == order0.len(),
            n >= 3,
            edges0 == old(list).edges@,
            order0 == old(list).order@,
            list.wf(),
            list.sentinels_ok(),
            same_but_links(edges0, list.edges@),
            same_members(order0, list.order@),
            forall|k: int|
                !order0.contains(k) && 0 <= k < edges0.len() ==> list.edges@[k] == edges0[k],
        ensures
            list.x_ordered(),
        decreases lo,
    {
        let ghost edges1 = list.edges@;
        let ghost order1 = list.order@;
        let swapOccurred = BubblePass(list, Ghost(lo));
        proof {
            assert forall|k: int|
                !order0.contains(k) && 0 <= k < edges0.len() implies list.edges@[k] == edges0[k] by {
                assert(!order1.contains(k));
                assert(edges1[k] == edges0[k]);
            }
        }
        if !swapOccurred {
            break ;
        }
        proof {
            lo = lo - 1;
        }
    }
}


/// The edge one scanline further down: its DDA stepped once.
pub open spec fn advanced(e: EdgeModel) -> EdgeModel {
    e.at(dda_step(e.dda(), e.dx, e.error_up, e.error_down), e.start_y)
}

/// An edge that is positioned on the scanline before `y`, and does not end
/// there, can be stepped to `y` without leaving the room it was given.
pub proof fn lemma_advance_wf(e: EdgeModel, y: int)
    requires
        edge_wf_at(e, y - 1),
        y < e.end_y,
    ensures
        edge_wf_at(advanced(e), y),
        abs(e.x) + abs(e.dx) + 1 <= EDGE_X_BOUND,
{
    let room = e.end_y - y;
    assert((e.end_y - 1 - (y - 1)) * (abs(e.dx) + 1) == (e.end_y - 1 - y) * (abs(e.dx) + 1) + (
    abs(e.dx) + 1)) by (nonlinear_arith);
    assert((e.end_y - 1 - y) * (abs(e.dx) + 1) >= 0) by (nonlinear_arith)
        requires
            e.end_y - 1 - y >= 0,
            abs(e.dx) + 1 >= 0,
    ;
}

/// Advance the DDA of an edge from the scanline before `nSubpixelYCurrent`
/// to that scanline: `X += Dx; Error += ErrorUp`, and where the error rolls
/// over, `Error -= ErrorDown; X += 1`.
pub fn AdvanceDDA(edge: &mut CEdge, nSubpixelYCurrent: INT)
    requires
        edge_wf_at(old(edge).model(), nSubpixelYCurrent - 1),
        nSubpixelYCurrent < old(edge).EndY,
    ensures
        final(edge).model() == advanced(old(edge).model()),
        final(edge).Next == old(edge).Next,
        edge_wf_at(final(edge).model(), nSubpixelYCurrent as int),
{
    proof {
        lemma_advance_wf(edge.model(), nSubpixelYCurrent as int);
    }
    edge.X += edge.Dx;
    edge.Error += edge.ErrorUp;
    if edge.Error >= 0 {
        edge.Error -= edge.ErrorDown;
        edge.X += 1;
    }
}

/// Taking a value out of an ascending sequence leaves it ascending.
pub proof fn lemma_remove_ascending(xs: Seq<int>, t: int)
    requires
        ascending(xs),
        0 <= t < xs.len(),
    ensures
        ascending(xs.remove(t)),
{
    let shorter = xs.remove(t);
    assert forall|i: int, j: int| 0 <= i <= j < shorter.len() implies #[trigger] shorter[i]
        <= #[trigger] shorter[j] by {
        let a = if i < t {
            i
        } else {
            i + 1
        };
        let b = if j < t {
            j
        } else {
            j + 1
        };
        assert(shorter[i] == xs[a] && shorter[j] == xs[b]);
    }
}

/// An edge of the list that is no sentinel.
pub proof fn lemma_real_edge(edges: Seq<CEdge>, order: Seq<int>, i: int)
    requires
        linked(edges, order),
        1 <= i < order.len() - 1,
    ensures
        2 <= order[i] < edges.len(),
{
    assert(order[0] != order[i]);
    assert(order[i] != order[order.len() - 1]);
}

/// Remove from the active list every edge that ends on scanline `y` or
/// before it. No edge is changed but in its link.
#[verifier::rlimit(40)]
pub fn RemoveStaleEdges(list: &mut CEdgeTable, y: INT)
    requires
        old(list).wf(),
        old(list).sentinels_ok(),
    ensures
        final(list).wf(),
        final(list).sentinels_ok(),
        same_but_links(old(list).edges@, final(list).edges@),
        forall|k: int|
            0 <= k < old(list).edges@.len() && !final(list).order@.contains(k) ==> final(list).edges@[k]
                == old(list).edges@[k],
        forall|k: int|
            final(list).order@.contains(k) <==> old(list).order@.contains(k) && (k < 2 || old(list).edges@[k].EndY > y),
        old(list).x_ordered() ==> final(list).x_ordered(),
        forall|at: int|
            list_active_at(old(list).edges@, old(list).order@, at) ==> list_active_at(
                final(list).edges@,
                final(list).order@,
                at,
            ),
        final(list).active_len() <= old(list).active_len(),
{
    let ghost edges0 = list.edges@;
    let ghost order0 = list.order@;
    let mut previous: usize = HEAD_EDGE;
    proof {
        lemma_linked_next(edges0, order0, 0);
    }
    let mut current: usize = list.edges[HEAD_EDGE].Next;
    let ghost mut t: int = 1;
    while current != TAIL_EDGE
        invariant
            edges0 == old(list).edges@,
            order0 == old(list).order@,
            linked(edges0, order0),
            list.wf(),
            list.sentinels_ok(),
            same_but_links(edges0, list.edges@),
            1 <= t <= list.order@.len() - 1,
            list.order@.len() <= order0.len(),
            previous == list.order@[t - 1],
            current == list.order@[t],
            forall|k: int|
                0 <= k < edges0.len() && !list.order@.contains(k) ==> list.edges@[k] == edges0[k],
            forall|k: int| list.order@.contains(k) ==> order0.contains(k),
            forall|k: int|
                order0.contains(k) && (k < 2 || edges0[k].EndY > y) ==> list.order@.contains(k),
            forall|i: int| 1 <= i < t ==> edges0[#[trigger] list.order@[i]].EndY > y,
            forall|i: int|
                t <= i < list.order@.len() ==> list.edges@[#[trigger] list.order@[i]]
                    == edges0[list.order@[i]],
            old(list).x_ordered() ==> list.x_ordered(),
        decreases list.order@.len() - t,
    {
        let ghost edges1 = list.edges@;
        let ghost order1 = list.order@;
        proof {
            assert(t < order1.len() - 1) by {
                if t == order1.len() - 1 {
                    assert(order1[t] == TAIL_EDGE);
                }
            }
            lemma_linked_next(edges1, order1, t);
            lemma_linked_next(edges1, order1, t - 1);
            lemma_real_edge(edges1, order1, t);
            assert(edges1[current as int].model() == edges0[current as int].model());
        }
        let next: usize = list.edges[current].Next;
        if list.edges[current].EndY <= y {
            // Unlink and advance
            proof {
                lemma_remove_linked(edges1, order1, t);
                if old(list).x_ordered() {
                    lemma_remove_ascending(list_xs(edges1, order1), t);
                }
            }
            let mut e = list.edges[previous];
            e.Next = next;
            list.edges[previous] = e;
            proof {
                list.order@ = order1.remove(t);
                let edges2 = list.edges@;
                let order2 = list.order@;
                assert(edges2 =~= edges1.update(
                    order1[t - 1],
                    relinked(edges1[order1[t - 1]], order1[t + 1] as usize),
                ));
                assert(order1.contains(order1[t - 1]));
                assert(order2[t - 1] == order1[t - 1]);
                assert(order2.contains(order1[t - 1]));
                assert(list.xs() =~= list_xs(edges1, order1).remove(t)) by {
                    assert forall|i: int| 0 <= i < order2.len() implies list.xs()[i] == list_xs(
                        edges1,
                        order1,
                    ).remove(t)[i] by {
                        let a = if i < t {
                            i
                        } else {
                            i + 1
                        };
                        assert(order2[i] == order1[a]);
                        assert(edges2[order2[i]].X == edges1[order2[i]].X);
                    }
                }
                assert forall|i: int| 1 <= i < t implies edges0[#[trigger] order2[i]].EndY
                    > y by {
                    assert(order2[i] == order1[i]);
                }
                assert forall|i: int| t <= i < order2.len() implies edges2[#[trigger] order2[i]]
                    == edges0[order2[i]] by {
                    assert(order2[i] == order1[i + 1]);
                    assert(order1[t - 1] != order1[i + 1]);
                }
                assert(edges2[order1[t]] == edges0[order1[t]]) by {
                    assert(order1[t - 1] != order1[t]);
                }
                assert(order1[order1.len() - 1] != order1[t - 1]);
            }
            current = next;
        } else {
            // Advance
            previous = current;
            current = next;
            proof {
                t = t + 1;
            }
        }
    }
    proof {
        let edges2 = list.edges@;
        let order2 = list.order@;
        assert(t == order2.len() - 1) by {
            if t < order2.len() - 1 {
                assert(order2[t] != order2[order2.len() - 1]);
            }
        }
        assert forall|k: int| order2.contains(k) implies order0.contains(k) && (k < 2
            || edges0[k].EndY > y) by {
            let i = choose|i: int| 0 <= i < order2.len() && order2[i] == k;
            if k >= 2 {
                assert(1 <= i < t);
            }
        }
        assert forall|at: int| list_active_at(edges0, order0, at) implies list_active_at(
            edges2,
            order2,
            at,
        ) by {
            lemma_members_active(edges0, order0, edges2, order2, at);
        }
    }
}

/// Advance the DDA of every edge of the active list, none of which ends on
/// the scanline `nSubpixelYCurrent` or before it, to that scanline. Says
/// whether an edge came to stand to the left of the edge before it.
fn AdvanceActiveEdges(nSubpixelYCurrent: INT, pEdgeActiveList: &mut CEdgeTable) -> (outOfOrder:
    bool)
    requires
        old(pEdgeActiveList).wf(),
        old(pEdgeActiveList).sentinels_ok(),
        old(pEdgeActiveList).active_at(nSubpixelYCurrent - 1),
        forall|k: int|
            old(pEdgeActiveList).order@.contains(k) && k >= 2 ==> old(pEdgeActiveList).edges@[k].EndY
                > nSubpixelYCurrent,
    ensures
        final(pEdgeActiveList).wf(),
        final(pEdgeActiveList).sentinels_ok(),
        final(pEdgeActiveList).active_at(nSubpixelYCurrent as int),
        final(pEdgeActiveList).order@ == old(pEdgeActiveList).order@,
        final(pEdgeActiveList).edges@.len() == old(pEdgeActiveList).edges@.len(),
        forall|k: int|
            2 <= k && old(pEdgeActiveList).order@.contains(k) ==> (#[trigger] final(pEdgeActiveList).edges@[k]).model() == advanced(old(pEdgeActiveList).edges@[k].model()),
        forall|k: int|
            0 <= k < old(pEdgeActiveList).edges@.len() && !old(pEdgeActiveList).order@.contains(k)
                ==> final(pEdgeActiveList).edges@[k] == old(pEdgeActiveList).edges@[k],
        !outOfOrder ==> final(pEdgeActiveList).x_ordered(),
        outOfOrder ==> final(pEdgeActiveList).active_len() >= 1,
{
    let ghost y = nSubpixelYCurrent as int;
    let ghost edges1 = pEdgeActiveList.edges@;
    let ghost order1 = pEdgeActiveList.order@;
    let mut outOfOrder = false;
    proof {
        lemma_linked_next(edges1, order1, 0);
    }
    let mut current: usize = pEdgeActiveList.edges[HEAD_EDGE].Next;
    let mut prevX: INT = pEdgeActiveList.edges[HEAD_EDGE].X;
    let ghost mut t: int = 1;
    // Advance DDA and update edge list
    while current != TAIL_EDGE
        invariant
            y == nSubpixelYCurrent,
            linked(edges1, order1),
            list_active_at(edges1, order1, y - 1),
            forall|k: int| order1.contains(k) && k >= 2 ==> edges1[k].EndY > y,
            pEdgeActiveList.order@ == order1,
            pEdgeActiveList.edges@.len() == edges1.len(),
            forall|k: int|
                0 <= k < edges1.len() ==> (#[trigger] pEdgeActiveList.edges@[k]).Next
                    == edges1[k].Next,
            1 <= t <= order1.len() - 1,
            current == order1[t],
            prevX == pEdgeActiveList.edges@[order1[t - 1]].X,
            forall|i: int|
                1 <= i < t ==> pEdgeActiveList.edges@[#[trigger] order1[i]].model() == advanced(
                    edges1[order1[i]].model(),
                ),
            forall|i: int|
                t <= i < order1.len() ==> pEdgeActiveList.edges@[#[trigger] order1[i]]
                    == edges1[order1[i]],
            pEdgeActiveList.edges@[HEAD_EDGE as int] == edges1[HEAD_EDGE as int],
            forall|k: int|
                0 <= k < edges1.len() && !order1.contains(k) ==> pEdgeActiveList.edges@[k]
                    == edges1[k],
            !outOfOrder ==> forall|i: int|
                0 <= i < t - 1 ==> pEdgeActiveList.edges@[#[trigger] order1[i]].X
                    <= pEdgeActiveList.edges@[order1[i + 1]].X,
            outOfOrder ==> order1.len() >= 3,
        decreases order1.len() - t,
    {
        let ghost edges2 = pEdgeActiveList.edges@;
        proof {
            assert(t < order1.len() - 1) by {
                if t == order1.len() - 1 {
                    assert(order1[t] == TAIL_EDGE);
                }
            }
            lemma_linked_next(edges1, order1, t);
            lemma_real_edge(edges1, order1, t);
            assert(order1.contains(order1[t]));
            assert(edges2[current as int] == edges1[current as int]);
        }
        let mut edge = pEdgeActiveList.edges[current];
        // Advance the DDA:
        AdvanceDDA(&mut edge, nSubpixelYCurrent);
        pEdgeActiveList.edges[current] = edge;

        // Is this entry out-of-order with respect to the previous one?
        outOfOrder = outOfOrder || (prevX > edge.X);
        proof {
            let edges3 = pEdgeActiveList.edges@;
            assert forall|i: int| 1 <= i < t + 1 implies edges3[#[trigger] order1[i]].model()
                == advanced(edges1[order1[i]].model()) by {
                if i < t {
                    assert(order1[i] != order1[t]);
                }
            }
            assert forall|i: int| t + 1 <= i < order1.len() implies edges3[#[trigger] order1[i]]
                == edges1[order1[i]] by {
                assert(order1[t] != order1[i]);
            }
            assert(order1[0] != order1[t]);
            if !outOfOrder {
                assert forall|i: int| 0 <= i < t implies edges3[#[trigger] order1[i]].X
                    <= edges3[order1[i + 1]].X by {
                    if i < t - 1 {
                        assert(order1[i] != order1[t]);
                        assert(order1[i + 1] != order1[t]);
                    } else {
                        assert(order1[t - 1] != order1[t]);
                    }
                }
            }
        }
        // Advance:
        current = edge.Next;
        prevX = edge.X;
        proof {
            t = t + 1;
        }
    }
    proof {
        let edges4 = pEdgeActiveList.edges@;
        assert(t == order1.len() - 1) by {
            if t < order1.len() - 1 {
                assert(order1[t] != order1[order1.len() - 1]);
            }
        }
        lemma_advanced_list(edges1, order1, edges4, y);
        if !outOfOrder {
            let xs = pEdgeActiveList.xs();
            assert forall|i: int| 0 <= i < xs.len() - 1 implies #[trigger] xs[i] <= xs[i + 1] by {
                if i < order1.len() - 2 {
                    assert(edges4[order1[i]].X <= edges4[order1[i + 1]].X);
                } else {
                    assert(xs[i + 1] == INT::MAX);
                }
            }
            lemma_ascending_from_neighbours(xs);
        }
        assert forall|k: int| 2 <= k && order1.contains(k) implies (#[trigger] edges4[k]).model()
            == advanced(edges1[k].model()) by {
            let i = choose|i: int| 0 <= i < order1.len() && order1[i] == k;
            assert(edges4[order1[i]].model() == advanced(edges1[order1[i]].model()));
        }
    }
    outOfOrder
}

/// A list whose edges were all advanced from the scanline before `y`, on
/// which none of them ends, is a list of well-formed edges on `y`, with the
/// links it had.
pub proof fn lemma_advanced_list(edges: Seq<CEdge>, order: Seq<int>, after: Seq<CEdge>, y: int)
    requires
        linked(edges, order),
        list_active_at(edges, order, y - 1),
        after.len() == edges.len(),
        forall|k: int| order.contains(k) && k >= 2 ==> edges[k].EndY > y,
        forall|k: int| 0 <= k < edges.len() ==> (#[trigger] after[k]).Next == edges[k].Next,
        forall|i: int|
            1 <= i < order.len() - 1 ==> after[#[trigger] order[i]].model() == advanced(
                edges[order[i]].model(),
            ),
    ensures
        linked(after, order),
        list_active_at(after, order, y),
{
    assert forall|i: int| 0 <= i < order.len() - 1 implies (#[trigger] after[order[i]]).Next
        == order[i + 1] by {
        assert(edges[order[i]].Next == order[i + 1]);
    }
    assert forall|i: int| 1 <= i < order.len() - 1 implies (#[trigger] order[i]) >= 2
        && edge_wf_at(after[order[i]].model(), y) by {
        assert(order.contains(order[i]));
        lemma_advance_wf(edges[order[i]].model(), y);
    }
}

/// Advance the DDA of every edge of the active list to the scanline
/// `nSubpixelYCurrent`, after taking out the edges that end there, and sort
/// the list again where the steps brought it out of order.
pub fn AdvanceDDAAndUpdateActiveEdgeList(nSubpixelYCurrent: INT, pEdgeActiveList: &mut CEdgeTable)
    requires
        old(pEdgeActiveList).wf(),
        old(pEdgeActiveList).sentinels_ok(),
        old(pEdgeActiveList).active_at(nSubpixelYCurrent - 1),
    ensures
        final(pEdgeActiveList).wf(),
        final(pEdgeActiveList).sentinels_ok(),
        final(pEdgeActiveList).x_ordered(),
        final(pEdgeActiveList).active_at(nSubpixelYCurrent as int),
        final(pEdgeActiveList).edges@.len() == old(pEdgeActiveList).edges@.len(),
        forall|k: int|
            final(pEdgeActiveList).order@.contains(k) <==> old(pEdgeActiveList).order@.contains(k)
                && (k < 2 || old(pEdgeActiveList).edges@[k].EndY > nSubpixelYCurrent),
        forall|k: int|
            2 <= k && final(pEdgeActiveList).order@.contains(k) ==> (#[trigger] final(pEdgeActiveList).edges@[k]).model() == advanced(old(pEdgeActiveList).edges@[k].model()),
        forall|k: int|
            0 <= k < old(pEdgeActiveList).edges@.len() && !final(pEdgeActiveList).order@.contains(k)
                ==> final(pEdgeActiveList).edges@[k] == old(pEdgeActiveList).edges@[k],
        final(pEdgeActiveList).active_len() <= old(pEdgeActiveList).active_len(),
{
    let ghost edges0 = pEdgeActiveList.edges@;
    let ghost order0 = pEdgeActiveList.order@;
    let ghost y = nSubpixelYCurrent as int;
    RemoveStaleEdges(pEdgeActiveList, nSubpixelYCurrent);
    let ghost edges1 = pEdgeActiveList.edges@;
    let ghost order1 = pEdgeActiveList.order@;
    proof {
        assert forall|k: int| order1.contains(k) && k >= 2 implies edges1[k].EndY > y by {
            assert(edges1[k].model() == edges0[k].model());
        }
    }
    let outOfOrder = AdvanceActiveEdges(nSubpixelYCurrent, pEdgeActiveList);
    let ghost edges4 = pEdgeActiveList.edges@;

    // It turns out that having any out-of-order edges at this point
    // is extremely rare in practice, so only call the bubble-sort
    // if it's truly needed.
    if outOfOrder {
        SortActiveEdges(pEdgeActiveList);
        proof {
            lemma_members_active(
                edges4,
                order1,
                pEdgeActiveList.edges@,
                pEdgeActiveList.order@,
                y,
            );
        }
    }
    proof {
        let edges5 = pEdgeActiveList.edges@;
        let order5 = pEdgeActiveList.order@;
        assert forall|k: int| 2 <= k && order5.contains(k) implies (#[trigger] edges5[k]).model()
            == advanced(edges0[k].model()) by {
            assert(order1.contains(k));
            assert(edges4[k].model() == advanced(edges1[k].model()));
            assert(edges1[k].model() == edges0[k].model());
            assert(edges5[k].model() == edges4[k].model());
        }
        assert forall|k: int| 0 <= k < edges0.len() && !order5.contains(k) implies edges5[k]
            == edges0[k] by {
            assert(!order1.contains(k));
        }
    }
}

} // verus!
