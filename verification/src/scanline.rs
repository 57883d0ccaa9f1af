//! A path on one subpixel scanline: which of its edges cross the scanline,
//! where, and what they add up to at a sample: the number of crossings to
//! its left, by which the alternate rule goes, and the winding number, by
//! which the winding rule goes.

use vstd::prelude::*;
use crate::aarasterizer::{dda_advance, lemma_dda_advance_last, CEdge, Dda, EdgeModel};
use crate::aafill::winding_balanced;
use crate::activelist::{
    advanced, entry_start_y, inactive_ready, lemma_edge_x_bounded, lemma_ready_order,
    same_but_links, CEdgeTable,
};
use crate::inactive::CInactiveEdge;

verus! {

/// `y` is one of the scanlines of the edge.
pub open spec fn crosses(e: EdgeModel, y: int) -> bool {
    e.start_y <= y < e.end_y
}

/// The edge as it stands on scanline `y`: its DDA stepped once for every
/// scanline from its first.
pub open spec fn edge_on(e: EdgeModel, y: int) -> EdgeModel
    decreases y - e.start_y,
{
    if y <= e.start_y {
        e
    } else {
        advanced(edge_on(e, y - 1))
    }
}

/// Stepping an edge changes where it stands, and nothing else.
pub proof fn lemma_edge_on_frame(e: EdgeModel, y: int)
    ensures
        edge_on(e, y).start_y == e.start_y,
        edge_on(e, y).end_y == e.end_y,
        edge_on(e, y).winding == e.winding,
        edge_on(e, y).dx == e.dx,
        edge_on(e, y).error_up == e.error_up,
        edge_on(e, y).error_down == e.error_down,
    decreases y - e.start_y,
{
    if y > e.start_y {
        lemma_edge_on_frame(e, y - 1);
    }
}

/// What an edge weighs at the sample `x` of scanline `y`: nothing where it
/// does not cross the scanline at or to the left of the sample; else one
/// crossing, or its winding direction.
pub open spec fn edge_weight(e: EdgeModel, y: int, x: int, winding: bool) -> int {
    if crosses(e, y) && edge_on(e, y).x <= x {
        if winding {
            e.winding
        } else {
            1
        }
    } else {
        0
    }
}

/// The weights of the first `n` edges at the sample `x` of scanline `y`.
pub open spec fn tally(edges: Seq<EdgeModel>, n: int, y: int, x: int, winding: bool) -> int
    decreases n,
{
    if n <= 0 {
        0
    } else {
        tally(edges, n - 1, y, x, winding) + edge_weight(edges[n - 1], y, x, winding)
    }
}

/// The number of edges that cross scanline `y` at or to the left of `x`.
pub open spec fn crossing_number(edges: Seq<EdgeModel>, y: int, x: int) -> int {
    tally(edges, edges.len() as int, y, x, false)
}

/// The winding number at the sample `x` of scanline `y`: the sum of the
/// winding directions of the edges that cross the scanline at or to the
/// left of `x`.
pub open spec fn winding_number(edges: Seq<EdgeModel>, y: int, x: int) -> int {
    tally(edges, edges.len() as int, y, x, true)
}

/// The sum of `f` over the first `n` of `picks`.
pub open spec fn picked_sum(f: spec_fn(int) -> int, picks: Seq<int>, n: int) -> int
    decreases n,
{
    if n <= 0 {
        0
    } else {
        picked_sum(f, picks, n - 1) + f(picks[n - 1])
    }
}

/// The sum of `f` over those of the first `m` numbers that occur in
/// `picks`.
pub open spec fn member_sum(f: spec_fn(int) -> int, picks: Seq<int>, m: int) -> int
    decreases m,
{
    if m <= 0 {
        0
    } else {
        member_sum(f, picks, m - 1) + if picks.contains(m - 1) {
            f(m - 1)
        } else {
            0
        }
    }
}

/// One more pick adds its own term.
pub proof fn lemma_member_push(f: spec_fn(int) -> int, picks: Seq<int>, k: int, m: int)
    requires
        !picks.contains(k),
        0 <= k,
    ensures
        member_sum(f, picks.push(k), m) == member_sum(f, picks, m) + if k < m {
            f(k)
        } else {
            0
        },
    decreases m,
{
    if m > 0 {
        lemma_member_push(f, picks, k, m - 1);
        let more = picks.push(k);
        if picks.contains(m - 1) {
            let i = choose|i: int| 0 <= i < picks.len() && picks[i] == m - 1;
            assert(more[i] == m - 1);
        }
        if more.contains(m - 1) {
            let i = choose|i: int| 0 <= i < more.len() && more[i] == m - 1;
            if i < picks.len() {
                assert(picks[i] == m - 1);
            }
        } else if k == m - 1 {
            assert(more[picks.len() as int] == k);
        }
    }
}

/// The sum over picks that are all different, and all among the first `m`
/// numbers, is the sum over the numbers that were picked.
pub proof fn lemma_picked_members(f: spec_fn(int) -> int, picks: Seq<int>, m: int)
    requires
        forall|i: int| 0 <= i < picks.len() ==> 0 <= #[trigger] picks[i] < m,
        forall|i: int, j: int|
            0 <= i < j < picks.len() ==> #[trigger] picks[i] != #[trigger] picks[j],
    ensures
        picked_sum(f, picks, picks.len() as int) == member_sum(f, picks, m),
    decreases picks.len(),
{
    if picks.len() == 0 {
        lemma_member_none(f, picks, m);
    } else {
        let n = picks.len() as int;
        let front = picks.drop_last();
        let k = picks[n - 1];
        lemma_picked_members(f, front, m);
        lemma_picked_front(f, picks, front, n - 1);
        assert(!front.contains(k)) by {
            if front.contains(k) {
                let i = choose|i: int| 0 <= i < front.len() && front[i] == k;
                assert(picks[i] == k);
            }
        }
        lemma_member_push(f, front, k, m);
        assert(front.push(k) =~= picks);
    }
}

/// Without picks the sum is nothing.
proof fn lemma_member_none(f: spec_fn(int) -> int, picks: Seq<int>, m: int)
    requires
        picks.len() == 0,
    ensures
        member_sum(f, picks, m) == 0,
    decreases m,
{
    if m > 0 {
        lemma_member_none(f, picks, m - 1);
    }
}

/// The sum over the first picks is that over any run that begins with them.
proof fn lemma_picked_front(f: spec_fn(int) -> int, picks: Seq<int>, front: Seq<int>, n: int)
    requires
        0 <= n <= front.len() <= picks.len(),
        forall|i: int| 0 <= i < n ==> front[i] == picks[i],
    ensures
        picked_sum(f, picks, n) == picked_sum(f, front, n),
    decreases n,
{
    if n > 0 {
        lemma_picked_front(f, picks, front, n - 1);
    }
}


/// The weights of the first `n` edges of a list, whose `i`-th edge stands
/// at `xs[i]` with the winding direction `ws[i]`, at the sample `x`.
pub open spec fn list_tally(xs: Seq<int>, ws: Seq<int>, n: int, x: int, winding: bool) -> int
    decreases n,
{
    if n <= 0 {
        0
    } else {
        list_tally(xs, ws, n - 1, x, winding) + if xs[n - 1] <= x {
            if winding {
                ws[n - 1]
            } else {
                1
            }
        } else {
            0
        }
    }
}

/// An edge without a scanline.
pub open spec fn no_edge() -> EdgeModel {
    EdgeModel {
        x: 0,
        dx: 0,
        error: 0,
        error_up: 0,
        error_down: 0,
        start_y: 0,
        end_y: 0,
        winding: 0,
    }
}

/// The edges of a table as they are before any of them is stepped, with an
/// edge without a scanline in the place of each sentinel.
pub open spec fn origin_of(edges: Seq<CEdge>) -> Seq<EdgeModel> {
    Seq::new(
        edges.len(),
        |k: int|
            if k < 2 {
                no_edge()
            } else {
                edges[k].model()
            },
    )
}

/// The active list of `table` holds exactly those edges of `origin` that
/// begin on `begun` or before it and end after `y`, each as it stands on
/// `y`; and the edges that begin after `begun` are as in `origin`, whose
/// first two edges, the sentinels, have no scanline.
pub open spec fn list_tracks(table: &CEdgeTable, origin: Seq<EdgeModel>, begun: int, y: int) -> bool {
    &&& table.edges@.len() == origin.len()
    &&& origin.len() >= 2
    &&& origin[0].end_y <= origin[0].start_y
    &&& origin[1].end_y <= origin[1].start_y
    &&& forall|k: int|
        2 <= k < origin.len() ==> (#[trigger] table.order@.contains(k) <==> origin[k].start_y
            <= begun && y < origin[k].end_y)
    &&& forall|k: int|
        2 <= k < origin.len() && table.order@.contains(k) ==> (#[trigger] table.edges@[k]).model()
            == edge_on(origin[k], y)
    &&& forall|k: int|
        2 <= k < origin.len() && origin[k].start_y > begun ==> (#[trigger] table.edges@[k]).model()
            == origin[k]
}

/// The edges of the active list, the sentinels left out.
pub open spec fn active_picks(table: &CEdgeTable) -> Seq<int> {
    Seq::new(table.active_len() as nat, |i: int| table.order@[i + 1])
}

/// The weights along the active list add up to the weights of all the
/// edges that cross the scanline.
pub proof fn lemma_list_tally(table: &CEdgeTable, origin: Seq<EdgeModel>, y: int, x: int, winding: bool)
    requires
        table.wf(),
        list_tracks(table, origin, y, y),
    ensures
        list_tally(
            table.active_xs(),
            table.active_windings(),
            table.active_len(),
            x,
            winding,
        ) == tally(origin, origin.len() as int, y, x, winding),
{
    let picks = active_picks(table);
    let f = |k: int| edge_weight(origin[k], y, x, winding);
    let m = origin.len() as int;
    assert forall|i: int| 0 <= i < picks.len() implies 2 <= #[trigger] picks[i] < m by {
        crate::activelist::lemma_real_edge(table.edges@, table.order@, i + 1);
    }
    lemma_list_picked(table, origin, y, x, winding, table.active_len());
    lemma_picked_members(f, picks, m);
    lemma_members_tally(table, origin, y, x, winding, m);
}

/// The weights along the active list are the weights of the edges that the
/// list picks.
proof fn lemma_list_picked(
    table: &CEdgeTable,
    origin: Seq<EdgeModel>,
    y: int,
    x: int,
    winding: bool,
    n: int,
)
    requires
        table.wf(),
        list_tracks(table, origin, y, y),
        0 <= n <= table.active_len(),
    ensures
        list_tally(table.active_xs(), table.active_windings(), n, x, winding) == picked_sum(
            |k: int| edge_weight(origin[k], y, x, winding),
            active_picks(table),
            n,
        ),
    decreases n,
{
    if n > 0 {
        lemma_list_picked(table, origin, y, x, winding, n - 1);
        let k = table.order@[n];
        crate::activelist::lemma_real_edge(table.edges@, table.order@, n);
        assert(table.order@.contains(k));
        assert(table.edges@[k].model() == edge_on(origin[k], y));
        lemma_edge_on_frame(origin[k], y);
        assert(active_picks(table)[n - 1] == k);
        assert(table.active_xs()[n - 1] == table.edges@[k].X);
        assert(table.active_windings()[n - 1] == table.edges@[k].WindingDirection);
    }
}

/// The weights of the edges that the active list picks are the weights of
/// all the edges: those that it does not pick weigh nothing.
proof fn lemma_members_tally(
    table: &CEdgeTable,
    origin: Seq<EdgeModel>,
    y: int,
    x: int,
    winding: bool,
    m: int,
)
    requires
        table.wf(),
        list_tracks(table, origin, y, y),
        0 <= m <= origin.len(),
    ensures
        member_sum(|k: int| edge_weight(origin[k], y, x, winding), active_picks(table), m) == tally(
            origin,
            m,
            y,
            x,
            winding,
        ),
    decreases m,
{
    if m > 0 {
        lemma_members_tally(table, origin, y, x, winding, m - 1);
        let k = m - 1;
        let picks = active_picks(table);
        if picks.contains(k) {
            let i = choose|i: int| 0 <= i < picks.len() && picks[i] == k;
            crate::activelist::lemma_real_edge(table.edges@, table.order@, i + 1);
            assert(table.order@[i + 1] == k);
        } else if k >= 2 {
            if table.order@.contains(k) {
                let i = choose|i: int| 0 <= i < table.order@.len() && table.order@[i] == k;
                assert(picks[i - 1] == k);
            }
            assert(!crosses(origin[k], y));
        }
    }
}


/// What an edge weighs on scanline `y`: nothing where it does not cross
/// it; else one crossing, or its winding direction.
pub open spec fn crossing_weight(e: EdgeModel, y: int, winding: bool) -> int {
    if crosses(e, y) {
        if winding {
            e.winding
        } else {
            1
        }
    } else {
        0
    }
}

/// The weights of the first `n` edges on scanline `y`.
pub open spec fn crossing_sum(edges: Seq<EdgeModel>, n: int, y: int, winding: bool) -> int
    decreases n,
{
    if n <= 0 {
        0
    } else {
        crossing_sum(edges, n - 1, y, winding) + crossing_weight(edges[n - 1], y, winding)
    }
}

/// The number of edges that cross scanline `y`.
pub open spec fn crossings(edges: Seq<EdgeModel>, y: int) -> int {
    crossing_sum(edges, edges.len() as int, y, false)
}

/// The winding directions of the edges that cross scanline `y`, added up.
pub open spec fn net_winding(edges: Seq<EdgeModel>, y: int) -> int {
    crossing_sum(edges, edges.len() as int, y, true)
}

/// The weights of two runs of edges add up.
pub proof fn lemma_crossing_concat(a: Seq<EdgeModel>, b: Seq<EdgeModel>, n: int, y: int, winding: bool)
    requires
        0 <= n <= b.len(),
    ensures
        crossing_sum(a + b, a.len() + n, y, winding) == crossing_sum(
            a,
            a.len() as int,
            y,
            winding,
        ) + crossing_sum(b, n, y, winding),
    decreases n,
{
    if n > 0 {
        lemma_crossing_concat(a, b, n - 1, y, winding);
        assert((a + b)[a.len() + n - 1] == b[n - 1]);
    } else {
        lemma_crossing_front(a + b, a, a.len() as int, y, winding);
    }
}

/// The weights of the first edges are those of any run that begins with
/// them.
proof fn lemma_crossing_front(all: Seq<EdgeModel>, a: Seq<EdgeModel>, n: int, y: int, winding: bool)
    requires
        0 <= n <= a.len() <= all.len(),
        forall|i: int| 0 <= i < n ==> all[i] == a[i],
    ensures
        crossing_sum(all, n, y, winding) == crossing_sum(a, n, y, winding),
    decreases n,
{
    if n > 0 {
        lemma_crossing_front(all, a, n - 1, y, winding);
    }
}

/// Where every winding direction is `+1` or `-1`, the number of crossings
/// is even exactly where the net winding is.
pub proof fn lemma_crossing_parity(edges: Seq<EdgeModel>, n: int, y: int)
    requires
        0 <= n <= edges.len(),
        forall|i: int|
            0 <= i < edges.len() && crosses(#[trigger] edges[i], y) ==> edges[i].winding == 1
                || edges[i].winding == -1,
    ensures
        0 <= crossing_sum(edges, n, y, false) <= n,
        (crossing_sum(edges, n, y, false) - crossing_sum(edges, n, y, true)) % 2 == 0,
    decreases n,
{
    if n > 0 {
        lemma_crossing_parity(edges, n - 1, y);
        if crosses(edges[n - 1], y) {
            assert(edges[n - 1].winding == 1 || edges[n - 1].winding == -1);
        }
    }
}

/// Along a list that tracks the edges of `origin`, every crossing edge
/// stands to the left of the far end of the scanline: the weights of the
/// whole list are the weights of the edges that cross.
pub proof fn lemma_tally_all(table: &CEdgeTable, origin: Seq<EdgeModel>, y: int, winding: bool, m: int)
    requires
        table.wf(),
        list_tracks(table, origin, y, y),
        0 <= m <= origin.len(),
    ensures
        tally(origin, m, y, i32::MAX as int, winding) == crossing_sum(origin, m, y, winding),
    decreases m,
{
    if m > 0 {
        lemma_tally_all(table, origin, y, winding, m - 1);
        let k = m - 1;
        if crosses(origin[k], y) {
            assert(k >= 2);
            assert(table.order@.contains(k));
            assert(table.edges@[k].model() == edge_on(origin[k], y));
        }
    }
}

/// The whole list weighs its number of edges, or the last of its winding
/// numbers.
pub proof fn lemma_list_tally_all(xs: Seq<int>, ws: Seq<int>, n: int)
    requires
        0 <= n <= xs.len(),
        xs.len() == ws.len(),
        forall|i: int| 0 <= i < xs.len() ==> #[trigger] xs[i] <= i32::MAX,
    ensures
        list_tally(xs, ws, n, i32::MAX as int, false) == n,
        list_tally(xs, ws, n, i32::MAX as int, true) == crate::aafill::winding_before(ws, n),
    decreases n,
{
    if n > 0 {
        lemma_list_tally_all(xs, ws, n - 1);
        assert(xs[n - 1] <= i32::MAX);
    }
}

/// The number of edges in an active list that tracks the edges of `origin`
/// is the number of edges that cross the scanline, and the winding number
/// behind its last edge is their net winding.
pub proof fn lemma_list_counts(table: &CEdgeTable, origin: Seq<EdgeModel>, y: int)
    requires
        table.wf(),
        list_tracks(table, origin, y, y),
    ensures
        table.active_len() == crossings(origin, y),
        crate::aafill::winding_before(table.active_windings(), table.active_len()) == net_winding(
            origin,
            y,
        ),
{
    let xs = table.active_xs();
    let ws = table.active_windings();
    lemma_list_tally_all(xs, ws, table.active_len());
    lemma_list_tally(table, origin, y, i32::MAX as int, false);
    lemma_list_tally(table, origin, y, i32::MAX as int, true);
    lemma_tally_all(table, origin, y, false, origin.len() as int);
    lemma_tally_all(table, origin, y, true, origin.len() as int);
}


/// The inactive array has an entry for the edge `k` of the table.
pub open spec fn has_entry(inactive: Seq<CInactiveEdge>, k: int) -> bool {
    exists|q: int| 1 <= q <= inactive.len() - 2 && (#[trigger] inactive[q]).Edge == k
}

/// The inactive array holds an entry for every edge of `origin` but the two
/// sentinels, in the order of their first scanlines; and every edge has a
/// scanline.
pub open spec fn entries_ok(inactive: Seq<CInactiveEdge>, origin: Seq<EdgeModel>) -> bool {
    &&& inactive.len() >= 3
    &&& forall|q: int|
        1 <= q <= inactive.len() - 2 ==> 2 <= (#[trigger] inactive[q]).Edge < origin.len()
    &&& forall|k: int| 2 <= k < origin.len() ==> #[trigger] has_entry(inactive, k)
    &&& forall|k: int| 2 <= k < origin.len() ==> (#[trigger] origin[k]).start_y < origin[k].end_y
    &&& forall|q1: int, q2: int|
        1 <= q1 <= q2 <= inactive.len() - 2 ==> origin[(#[trigger] inactive[q1]).Edge as int].start_y
            <= origin[(#[trigger] inactive[q2]).Edge as int].start_y
}

/// The entries before `pos` are those of the edges that begin on scanline
/// `y` or before it.
pub open spec fn entries_split(
    inactive: Seq<CInactiveEdge>,
    origin: Seq<EdgeModel>,
    pos: int,
    y: int,
) -> bool {
    &&& 1 <= pos <= inactive.len() - 1
    &&& forall|q: int|
        1 <= q <= inactive.len() - 2 ==> (q < pos <==> origin[(#[trigger] inactive[q]).Edge as int].start_y
            <= y)
}

/// The first scanline of edge `k` in terms of the entries: at most `y`
/// exactly where its entry is before `pos`.
pub proof fn lemma_entry_begun(
    inactive: Seq<CInactiveEdge>,
    origin: Seq<EdgeModel>,
    pos: int,
    y: int,
    k: int,
) -> (q: int)
    requires
        entries_ok(inactive, origin),
        entries_split(inactive, origin, pos, y),
        2 <= k < origin.len(),
    ensures
        1 <= q <= inactive.len() - 2,
        inactive[q].Edge == k,
        q < pos <==> origin[k].start_y <= y,
{
    assert(has_entry(inactive, k));
    choose|q: int| 1 <= q <= inactive.len() - 2 && (#[trigger] inactive[q]).Edge == k
}

/// After the list was brought from scanline `y` to the scanline `later`,
/// before which no further edge begins, it tracks the edges on `later`
/// but for those that begin there.
pub proof fn lemma_tracks_settle(
    table: &CEdgeTable,
    origin: Seq<EdgeModel>,
    inactive: Seq<CInactiveEdge>,
    pos: int,
    y: int,
    later: int,
)
    requires
        list_tracks(table, origin, y, later),
        entries_ok(inactive, origin),
        entries_split(inactive, origin, pos, y),
        y < later,
        pos <= inactive.len() - 2 ==> origin[inactive[pos].Edge as int].start_y >= later,
    ensures
        list_tracks(table, origin, later - 1, later),
        entries_split(inactive, origin, pos, later - 1),
        pos <= inactive.len() - 2 && origin[inactive[pos].Edge as int].start_y > later ==> list_tracks(
            table,
            origin,
            later,
            later,
        ) && entries_split(inactive, origin, pos, later),
        pos > inactive.len() - 2 ==> list_tracks(table, origin, later, later) && entries_split(
            inactive,
            origin,
            pos,
            later,
        ),
{
    assert forall|q: int| 1 <= q <= inactive.len() - 2 && q >= pos implies origin[(
    #[trigger] inactive[q]).Edge as int].start_y >= later by {
        assert(origin[inactive[pos].Edge as int].start_y <= origin[inactive[q].Edge as int].start_y);
    }
    assert forall|k: int| 2 <= k < origin.len() implies (origin[k].start_y <= y
        <==> #[trigger] origin[k].start_y <= later - 1) by {
        let q = lemma_entry_begun(inactive, origin, pos, y, k);
    }
    if pos > inactive.len() - 2 || origin[inactive[pos].Edge as int].start_y > later {
        assert forall|q: int| 1 <= q <= inactive.len() - 2 && q >= pos implies origin[(
        #[trigger] inactive[q]).Edge as int].start_y > later by {
            assert(origin[inactive[pos].Edge as int].start_y
                <= origin[inactive[q].Edge as int].start_y);
        }
        assert forall|k: int| 2 <= k < origin.len() implies (origin[k].start_y <= y
            <==> #[trigger] origin[k].start_y <= later) by {
            let q = lemma_entry_begun(inactive, origin, pos, y, k);
        }
    }
}

/// After the edges that begin on scanline `y`, the entries from `pos` up to
/// `next`, were inserted into a list that tracked the edges on `y` but for
/// them, the list tracks the edges on `y`.
pub proof fn lemma_tracks_insert(
    before: &CEdgeTable,
    after: &CEdgeTable,
    origin: Seq<EdgeModel>,
    inactive: Seq<CInactiveEdge>,
    pos: int,
    next: int,
    y: int,
)
    requires
        list_tracks(before, origin, y - 1, y),
        entries_ok(inactive, origin),
        entries_split(inactive, origin, pos, y - 1),
        same_but_links(before.edges@, after.edges@),
        pos < next <= inactive.len() - 1,
        forall|q: int|
            pos <= q < next ==> entry_start_y(inactive, before.edges@, q) == y
                && after.order@.contains((#[trigger] inactive[q]).Edge as int),
        forall|k: int| before.order@.contains(k) ==> after.order@.contains(k),
        forall|k: int|
            after.order@.contains(k) ==> before.order@.contains(k) || exists|q: int|
                pos <= q < next && (#[trigger] inactive[q]).Edge == k,
        next <= inactive.len() - 2 ==> entry_start_y(inactive, after.edges@, next) > y,
    ensures
        list_tracks(after, origin, y, y),
        entries_split(inactive, origin, next, y),
{
    // The entries from `pos` on are of edges that have not begun: they are
    // as in `origin`.
    assert forall|q: int| pos <= q <= inactive.len() - 2 implies before.edges@[(
    #[trigger] inactive[q]).Edge as int].model() == origin[inactive[q].Edge as int] && after.edges@[inactive[q].Edge as int].model()
        == origin[inactive[q].Edge as int] by {
        let k = inactive[q].Edge as int;
        assert(origin[k].start_y > y - 1);
        assert(before.edges@[k].model() == origin[k]);
        assert(before.edges@[k].model() == after.edges@[k].model());
    }
    assert forall|q: int| 1 <= q <= inactive.len() - 2 implies (q < next <==> origin[(
    #[trigger] inactive[q]).Edge as int].start_y <= y) by {
        if q >= next {
            assert(origin[inactive[next].Edge as int].start_y
                <= origin[inactive[q].Edge as int].start_y);
        } else if q >= pos {
            assert(entry_start_y(inactive, before.edges@, q) == y);
        }
    }
    assert forall|k: int| 2 <= k < origin.len() implies (#[trigger] after.order@.contains(k)
        <==> origin[k].start_y <= y && y < origin[k].end_y) by {
        let q = lemma_entry_begun(inactive, origin, pos, y - 1, k);
        if after.order@.contains(k) {
            if !before.order@.contains(k) {
                let q2 = choose|q2: int| pos <= q2 < next && (#[trigger] inactive[q2]).Edge == k;
                assert(entry_start_y(inactive, before.edges@, q2) == y);
            }
        }
        if origin[k].start_y <= y && y < origin[k].end_y {
            if origin[k].start_y == y {
                assert(q >= pos);
                assert(q < next);
                assert(after.order@.contains(inactive[q].Edge as int));
            } else {
                assert(before.order@.contains(k));
            }
        }
    }
    assert forall|k: int| 2 <= k < origin.len() && after.order@.contains(k) implies (
    #[trigger] after.edges@[k]).model() == edge_on(origin[k], y) by {
        assert(before.edges@[k].model() == after.edges@[k].model());
        if !before.order@.contains(k) {
            let q2 = choose|q2: int| pos <= q2 < next && (#[trigger] inactive[q2]).Edge == k;
            assert(entry_start_y(inactive, before.edges@, q2) == y);
            assert(before.edges@[k].model() == origin[k]);
        }
    }
    assert forall|k: int| 2 <= k < origin.len() && origin[k].start_y > y implies (
    #[trigger] after.edges@[k]).model() == origin[k] by {
        assert(before.edges@[k].model() == after.edges@[k].model());
    }
}


/// After the edges that end on the next scanline were taken out of a list
/// that tracks the edges on scanline `y`, and the others were stepped, the
/// list tracks on the next scanline the edges that began before it.
pub proof fn lemma_tracks_step(before: &CEdgeTable, after: &CEdgeTable, origin: Seq<EdgeModel>, y: int)
    requires
        list_tracks(before, origin, y, y),
        after.edges@.len() == before.edges@.len(),
        forall|k: int|
            after.order@.contains(k) <==> before.order@.contains(k) && (k < 2
                || before.edges@[k].EndY > y + 1),
        forall|k: int|
            2 <= k && after.order@.contains(k) ==> (#[trigger] after.edges@[k]).model() == advanced(
                before.edges@[k].model(),
            ),
        forall|k: int|
            0 <= k < before.edges@.len() && !after.order@.contains(k) ==> after.edges@[k]
                == before.edges@[k],
    ensures
        list_tracks(after, origin, y, y + 1),
{
    assert forall|k: int| 2 <= k < origin.len() implies (#[trigger] after.order@.contains(k)
        <==> origin[k].start_y <= y && y + 1 < origin[k].end_y) by {
        if before.order@.contains(k) {
            assert(before.edges@[k].model() == edge_on(origin[k], y));
            lemma_edge_on_frame(origin[k], y);
        }
    }
    assert forall|k: int| 2 <= k < origin.len() && after.order@.contains(k) implies (
    #[trigger] after.edges@[k]).model() == edge_on(origin[k], y + 1) by {
        assert(before.order@.contains(k));
        assert(before.edges@[k].model() == edge_on(origin[k], y));
    }
    assert forall|k: int| 2 <= k < origin.len() && origin[k].start_y > y implies (
    #[trigger] after.edges@[k]).model() == origin[k] by {
        assert(!before.order@.contains(k));
        assert(before.edges@[k].model() == origin[k]);
    }
}


/// Before the first edges are inserted, on the scanline `y` on which the
/// first of them begins, the empty list tracks the edges of the table.
pub proof fn lemma_tracks_begin(table: &CEdgeTable, inactive: Seq<CInactiveEdge>, y: int)
    requires
        table.wf(),
        table.active_len() == 0,
        inactive.len() > 2,
        inactive_ready(inactive, table.edges@, 1),
        forall|k: int| 2 <= k < table.edges@.len() ==> #[trigger] has_entry(inactive, k),
        y == entry_start_y(inactive, table.edges@, 1),
    ensures
        entries_ok(inactive, origin_of(table.edges@)),
        entries_split(inactive, origin_of(table.edges@), 1, y - 1),
        list_tracks(table, origin_of(table.edges@), y - 1, y),
        forall|k: int, v: int|
            0 <= k < table.edges@.len() && v < y ==> !#[trigger] crosses(
                origin_of(table.edges@)[k],
                v,
            ),
{
    let origin = origin_of(table.edges@);
    assert forall|q1: int, q2: int| 1 <= q1 <= q2 <= inactive.len() - 2 implies origin[(
    #[trigger] inactive[q1]).Edge as int].start_y <= origin[(
    #[trigger] inactive[q2]).Edge as int].start_y by {
        lemma_ready_order(inactive, table.edges@, 1, q1, q2);
    }
    assert forall|k: int| 2 <= k < origin.len() implies (#[trigger] origin[k]).start_y
        < origin[k].end_y && y <= origin[k].start_y by {
        assert(has_entry(inactive, k));
        let q = choose|q: int| 1 <= q <= inactive.len() - 2 && (#[trigger] inactive[q]).Edge == k;
        lemma_ready_order(inactive, table.edges@, 1, 1, q);
    }
    assert forall|k: int| 2 <= k < origin.len() implies !#[trigger] table.order@.contains(k) by {
        if table.order@.contains(k) {
            let i = choose|i: int| 0 <= i < table.order@.len() && table.order@[i] == k;
        }
    }
}

/// On a scanline on which as many edges run down as run up, the active list
/// that tracks the edges passes every test: it is in order, each of its
/// edges crosses the scanline, their number is even, and their winding
/// directions cancel.
pub proof fn lemma_list_balanced(table: &CEdgeTable, origin: Seq<EdgeModel>, y: int)
    requires
        table.wf(),
        table.sentinels_ok(),
        table.x_ordered(),
        table.active_at(y),
        list_tracks(table, origin, y, y),
        net_winding(origin, y) == 0,
    ensures
        table.active_list_asserted(y),
        table.even(),
        winding_balanced(table.active_windings()),
{
    lemma_list_counts(table, origin, y);
    assert forall|k: int| 0 <= k < origin.len() && crosses(#[trigger] origin[k], y) implies origin[k].winding
        == 1 || origin[k].winding == -1 by {
        assert(k >= 2);
        assert(table.order@.contains(k));
        let i = choose|i: int| 0 <= i < table.order@.len() && table.order@[i] == k;
        assert(1 <= i < table.order@.len() - 1);
        assert(table.edges@[k].model() == edge_on(origin[k], y));
        lemma_edge_on_frame(origin[k], y);
    }
    lemma_crossing_parity(origin, origin.len() as int, y);
    assert forall|i: int| 0 <= i < table.active_len() implies {
        &&& (#[trigger] table.active_edge(i)).X != i32::MIN
        &&& table.active_edge(i).X != i32::MAX
        &&& table.active_edge(i).X <= table.edges@[table.order@[i + 2]].X
        &&& table.active_edge(i).StartY <= y < table.active_edge(i).EndY
    } by {
        let k = table.order@[i + 1];
        assert(crate::aarasterizer::edge_wf_at(table.edges@[k].model(), y));
        lemma_edge_x_bounded(table.edges@[k].model(), y);
        assert(table.xs()[i + 1] <= table.xs()[i + 2]);
    }
}


/// The active edges as they stand, in list order, the sentinels left out.
pub open spec fn active_models(table: &CEdgeTable) -> Seq<EdgeModel> {
    Seq::new(table.active_len() as nat, |i: int| table.active_edge(i).model())
}

/// Where an edge stands `steps` scanlines further down.
pub open spec fn side_on(e: EdgeModel, steps: int) -> Dda {
    dda_advance(e.dda(), e.dx, e.error_up, e.error_down, steps as nat)
}

/// What an edge weighs at the sample `x`, `steps` scanlines further down:
/// nothing where it stands to the right of the sample; else one crossing,
/// or its winding direction.
pub open spec fn side_weight(e: EdgeModel, steps: int, x: int, winding: bool) -> int {
    if side_on(e, steps).x <= x {
        if winding {
            e.winding
        } else {
            1
        }
    } else {
        0
    }
}

/// The weights of the first `n` of the edges `sides` at the sample `x`,
/// `steps` scanlines further down.
pub open spec fn sides_tally(sides: Seq<EdgeModel>, n: int, steps: int, x: int, winding: bool) -> int
    decreases n,
{
    if n <= 0 {
        0
    } else {
        sides_tally(sides, n - 1, steps, x, winding) + side_weight(sides[n - 1], steps, x, winding)
    }
}

/// The edge as it stands `steps` scanlines below a scanline of its own is
/// the edge as it stands there, stepped as many times.
pub proof fn lemma_edge_on_steps(e: EdgeModel, y: int, steps: int)
    requires
        e.start_y <= y,
        0 <= steps,
    ensures
        edge_on(e, y + steps).dda() == side_on(edge_on(e, y), steps),
        edge_on(e, y + steps).winding == e.winding,
    decreases steps,
{
    lemma_edge_on_frame(e, y);
    lemma_edge_on_frame(e, y + steps);
    if steps > 0 {
        lemma_edge_on_steps(e, y, steps - 1);
        lemma_edge_on_frame(e, y + steps - 1);
        let m = edge_on(e, y);
        lemma_dda_advance_last(m.dda(), m.dx, m.error_up, m.error_down, (steps - 1) as nat);
    }
}

/// The active list on scanline `y` holds the edges that cross the scanline
/// `v` below it, and no others cross it.
pub open spec fn list_crosses(table: &CEdgeTable, origin: Seq<EdgeModel>, y: int, v: int) -> bool {
    &&& y <= v
    &&& forall|k: int|
        2 <= k < origin.len() && #[trigger] table.order@.contains(k) ==> v < origin[k].end_y
    &&& forall|k: int|
        2 <= k < origin.len() && !table.order@.contains(k) ==> !#[trigger] crosses(origin[k], v)
}

/// The weights of the first edges of the list, stepped down to the
/// scanline `v`, are the weights on `v` of the edges that the list picks.
proof fn lemma_sides_picked(
    table: &CEdgeTable,
    origin: Seq<EdgeModel>,
    y: int,
    v: int,
    x: int,
    winding: bool,
    n: int,
)
    requires
        table.wf(),
        list_tracks(table, origin, y, y),
        list_crosses(table, origin, y, v),
        0 <= n <= table.active_len(),
    ensures
        sides_tally(active_models(table), n, v - y, x, winding) == picked_sum(
            |k: int| edge_weight(origin[k], v, x, winding),
            active_picks(table),
            n,
        ),
    decreases n,
{
    if n > 0 {
        lemma_sides_picked(table, origin, y, v, x, winding, n - 1);
        let k = table.order@[n];
        crate::activelist::lemma_real_edge(table.edges@, table.order@, n);
        assert(table.order@.contains(k));
        assert(table.edges@[k].model() == edge_on(origin[k], y));
        lemma_edge_on_frame(origin[k], y);
        lemma_edge_on_steps(origin[k], y, v - y);
        assert(active_picks(table)[n - 1] == k);
        assert(active_models(table)[n - 1] == table.edges@[k].model());
        assert(crosses(origin[k], v));
    }
}

/// The weights on `v` of the edges that the list picks are the weights of
/// all the edges: those that it does not pick do not cross `v`.
proof fn lemma_members_tally_at(
    table: &CEdgeTable,
    origin: Seq<EdgeModel>,
    y: int,
    v: int,
    x: int,
    winding: bool,
    m: int,
)
    requires
        table.wf(),
        list_tracks(table, origin, y, y),
        list_crosses(table, origin, y, v),
        0 <= m <= origin.len(),
    ensures
        member_sum(|k: int| edge_weight(origin[k], v, x, winding), active_picks(table), m) == tally(
            origin,
            m,
            v,
            x,
            winding,
        ),
    decreases m,
{
    if m > 0 {
        lemma_members_tally_at(table, origin, y, v, x, winding, m - 1);
        let k = m - 1;
        let picks = active_picks(table);
        if picks.contains(k) {
            let i = choose|i: int| 0 <= i < picks.len() && picks[i] == k;
            crate::activelist::lemma_real_edge(table.edges@, table.order@, i + 1);
            assert(table.order@[i + 1] == k);
        } else if k >= 2 {
            if table.order@.contains(k) {
                let i = choose|i: int| 0 <= i < table.order@.len() && table.order@[i] == k;
                assert(picks[i - 1] == k);
            }
            assert(!crosses(origin[k], v));
        }
    }
}

/// On every scanline on which the edges of the active list, and no others,
/// cross, the weights of all the edges are those of the edges of the list,
/// stepped down to that scanline.
pub proof fn lemma_sides_tally(
    table: &CEdgeTable,
    origin: Seq<EdgeModel>,
    y: int,
    v: int,
    x: int,
    winding: bool,
)
    requires
        table.wf(),
        list_tracks(table, origin, y, y),
        list_crosses(table, origin, y, v),
    ensures
        tally(origin, origin.len() as int, v, x, winding) == sides_tally(
            active_models(table),
            table.active_len(),
            v - y,
            x,
            winding,
        ),
{
    let picks = active_picks(table);
    let f = |k: int| edge_weight(origin[k], v, x, winding);
    let m = origin.len() as int;
    assert forall|i: int| 0 <= i < picks.len() implies 2 <= #[trigger] picks[i] < m by {
        crate::activelist::lemma_real_edge(table.edges@, table.order@, i + 1);
    }
    lemma_sides_picked(table, origin, y, v, x, winding, table.active_len());
    lemma_picked_members(f, picks, m);
    lemma_members_tally_at(table, origin, y, v, x, winding, m);
}

} // verus!
