//! Which device scanlines are drawn as rows of trapezoids, and where the
//! list of a scan is cut: said of the edges of a path alone, so that the
//! pieces of the output are fixed by the path.

use vstd::prelude::*;
use crate::aacoverage::{spans_ok, CoverageSpan};
use crate::aafill::{alternate_cuts, winding_cuts};
use crate::aarasterizer::EdgeModel;
use crate::activelist::CEdgeTable;
use crate::cuts::{cut_at, cuts_are, lemma_cuts_are, lemma_list_determined, lemma_same_cuts_are};
use crate::drawing::{piece_first_row, piece_next_row, piece_true, pieces_tile, pieces_true};
use crate::drawing::{slope_bound, Drawn};
use crate::inactive::CInactiveEdge;
use crate::scanline::{active_models, active_picks, crosses, edge_on, has_entry, no_edge};
use crate::trapezoids::{expand, gap, pairs_cancel, room_top, rows_end, table_state, top_ok};
use crate::types::{INT, MilFillMode};

verus! {

/// `picks` names the edges that cross the scanline `y`, each of them once.
pub open spec fn lists(edges: Seq<EdgeModel>, y: int, picks: Seq<int>) -> bool {
    &&& forall|i: int|
        0 <= i < picks.len() ==> 0 <= #[trigger] picks[i] < edges.len() && crosses(
            edges[picks[i]],
            y,
        )
    &&& forall|i: int, j: int|
        0 <= i < j < picks.len() ==> #[trigger] picks[i] != #[trigger] picks[j]
    &&& forall|k: int| 0 <= k < edges.len() && crosses(#[trigger] edges[k], y) ==> picks.contains(k)
}

/// The edges that `picks` names, as they stand on the scanline `y`.
pub open spec fn picked(edges: Seq<EdgeModel>, y: int, picks: Seq<int>) -> Seq<EdgeModel> {
    Seq::new(picks.len(), |i: int| edge_on(edges[picks[i]], y))
}

/// The edge has a scanline and begins after `y`.
pub open spec fn begins_after(e: EdgeModel, y: int) -> bool {
    e.start_y < e.end_y && e.start_y > y
}

/// `next` is the first scanline after `y` on which an edge begins; where
/// none begins after `y`, the largest scanline there is.
pub open spec fn next_begins(edges: Seq<EdgeModel>, y: int, next: int) -> bool {
    &&& forall|k: int|
        0 <= k < edges.len() && begins_after(#[trigger] edges[k], y) ==> edges[k].start_y >= next
    &&& {
        ||| next == INT::MAX && forall|k: int|
            0 <= k < edges.len() ==> !begins_after(#[trigger] edges[k], y)
        ||| exists|k: int|
            0 <= k < edges.len() && begins_after(#[trigger] edges[k], y) && edges[k].start_y
                == next
    }
}

/// A row of trapezoids can begin on the scanline `y` between the edges
/// `sides`, which stand in this order on it.
pub open spec fn sides_apply(
    use_trapezoids: bool,
    mode: MilFillMode,
    sides: Seq<EdgeModel>,
    y: int,
    next: int,
    bottom: int,
) -> bool {
    &&& use_trapezoids
    &&& y % 8 == 0
    &&& sides.len() >= 2
    &&& mode == MilFillMode::Winding ==> pairs_cancel(sides)
    &&& top_ok(sides)
    &&& rows_end(sides, y, 0, next, bottom) > 0
}

/// `picks` and `next` are what a row of trapezoids begins with on `y`.
pub open spec fn row_begins(
    edges: Seq<EdgeModel>,
    use_trapezoids: bool,
    mode: MilFillMode,
    y: int,
    bottom: int,
    picks: Seq<int>,
    next: int,
) -> bool {
    &&& lists(edges, y, picks)
    &&& next_begins(edges, y, next)
    &&& sides_apply(use_trapezoids, mode, picked(edges, y, picks), y, next, bottom)
}

/// A row of trapezoids begins on the scanline `y` of the path of `edges`:
/// the edges that cross `y` can be put in an order in which a row of
/// trapezoids can begin between them.
pub open spec fn row_applies(
    edges: Seq<EdgeModel>,
    use_trapezoids: bool,
    mode: MilFillMode,
    y: int,
    bottom: int,
) -> bool {
    exists|picks: Seq<int>, next: int|
        #[trigger] row_begins(edges, use_trapezoids, mode, y, bottom, picks, next)
}

/// The row of trapezoids that begins with `picks` and `next` on `top` is
/// the one between `sides` that ends before `end`: as far down as it can
/// go.
pub open spec fn row_is(
    edges: Seq<EdgeModel>,
    use_trapezoids: bool,
    mode: MilFillMode,
    top: int,
    bottom: int,
    picks: Seq<int>,
    next: int,
    sides: Seq<EdgeModel>,
    end: int,
) -> bool {
    &&& row_begins(edges, use_trapezoids, mode, top, bottom, picks, next)
    &&& sides == picked(edges, top, picks)
    &&& end == top + rows_end(sides, top, 0, next, bottom)
}

/// Where the fill of one scanline cuts the list: where the rule `mode` cuts
/// it between the edges `sides`, taken from left to right.
pub open spec fn fill_cuts(mode: MilFillMode, sides: Seq<EdgeModel>) -> Set<int> {
    let xs = Seq::new(sides.len(), |i: int| sides[i].x);
    let ws = Seq::new(sides.len(), |i: int| sides[i].winding);
    if mode == MilFillMode::Winding {
        winding_cuts(xs, ws)
    } else {
        alternate_cuts(xs)
    }
}

/// The `j`-th of `orders` lists the edges that cross the `j`-th scanline
/// from `first`, from left to right.
pub open spec fn line_listed(edges: Seq<EdgeModel>, first: int, orders: Seq<Seq<int>>, j: int) -> bool {
    let v = first + j;
    let picks = orders[j];
    &&& lists(edges, v, picks)
    &&& forall|a: int, b: int|
        0 <= a <= b < picks.len() ==> edge_on(edges[#[trigger] picks[a]], v).x <= edge_on(
            edges[#[trigger] picks[b]],
            v,
        ).x
}

/// Where the fill of the `j`-th scanline from `first` cuts the list.
pub open spec fn line_set(
    edges: Seq<EdgeModel>,
    mode: MilFillMode,
    first: int,
    orders: Seq<Seq<int>>,
    j: int,
) -> Set<int> {
    fill_cuts(mode, picked(edges, first + j, orders[j]))
}

/// The fill of one of the scanlines cuts the list at the pixel `x`.
pub open spec fn scan_cut(
    edges: Seq<EdgeModel>,
    mode: MilFillMode,
    first: int,
    orders: Seq<Seq<int>>,
    x: int,
) -> bool {
    exists|j: int|
        0 <= j < orders.len() && (#[trigger] line_set(edges, mode, first, orders, j)).contains(x)
}

/// The list `spans` is cut where the fills of the scanlines from `first`
/// cut it, each between the edges that cross the scanline, which `orders`
/// lists from left to right; and at the two sentinels.
pub open spec fn scan_listed(
    spans: Seq<CoverageSpan>,
    edges: Seq<EdgeModel>,
    mode: MilFillMode,
    first: int,
    orders: Seq<Seq<int>>,
) -> bool {
    &&& forall|j: int| 0 <= j < orders.len() ==> #[trigger] line_listed(edges, first, orders, j)
    &&& forall|x: int| #[trigger]
        cut_at(spans, x) <==> x == INT::MIN || x == INT::MAX || scan_cut(
            edges,
            mode,
            first,
            orders,
            x,
        )
}

/// The first scanline of the device scanline `row` that is filled: that of
/// the path, where the path begins within the device scanline.
pub open spec fn row_first(row: int, top: int) -> int {
    if top > 8 * row {
        top
    } else {
        8 * row
    }
}

/// The number of scanlines of the device scanline `row` that are filled.
pub open spec fn row_lines(row: int, top: int, bottom: int) -> int {
    let end = if bottom < 8 * row + 8 {
        bottom
    } else {
        8 * row + 8
    };
    if end > row_first(row, top) {
        end - row_first(row, top)
    } else {
        0
    }
}

/// The list of the scan of the device scanline `row` is cut where the
/// fills of its scanlines cut it ([`scan_listed`]).
pub open spec fn scan_lines_are(
    spans: Seq<CoverageSpan>,
    edges: Seq<EdgeModel>,
    mode: MilFillMode,
    row: int,
    top: int,
    bottom: int,
    orders: Seq<Seq<int>>,
) -> bool {
    &&& orders.len() == row_lines(row, top, bottom)
    &&& scan_listed(spans, edges, mode, row_first(row, top), orders)
}

/// The piece is the one that the path, which begins on the scanline `top`,
/// asks for: a scan stands where no row of trapezoids begins, with a list
/// that is cut where the fills of its scanlines cut it; and a row of
/// trapezoids where one begins, between the edges that cross its first
/// scanline, as far down as it can go.
pub open spec fn piece_chosen(
    d: Drawn,
    edges: Seq<EdgeModel>,
    use_trapezoids: bool,
    mode: MilFillMode,
    bottom: int,
    top: int,
) -> bool {
    match d {
        Drawn::Scan { row, spans } => !row_applies(edges, use_trapezoids, mode, 8 * row, bottom)
            && exists|orders: Seq<Seq<int>>|
            #[trigger] scan_lines_are(spans, edges, mode, row, top, bottom, orders),
        Drawn::Trapezoids { top, bottom: end, sides } => exists|picks: Seq<int>, next: int|
            #[trigger] row_is(edges, use_trapezoids, mode, top, bottom, picks, next, sides, end),
    }
}

/// Every piece is the one that the path asks for.
pub open spec fn pieces_chosen(
    pieces: Seq<Drawn>,
    edges: Seq<EdgeModel>,
    use_trapezoids: bool,
    mode: MilFillMode,
    bottom: int,
    top: int,
) -> bool {
    forall|i: int|
        0 <= i < pieces.len() ==> piece_chosen(
            #[trigger] pieces[i],
            edges,
            use_trapezoids,
            mode,
            bottom,
            top,
        )
}

/// One more piece that the path asks for.
pub proof fn lemma_chosen_push(
    pieces: Seq<Drawn>,
    d: Drawn,
    edges: Seq<EdgeModel>,
    use_trapezoids: bool,
    mode: MilFillMode,
    bottom: int,
    top: int,
)
    requires
        pieces_chosen(pieces, edges, use_trapezoids, mode, bottom, top),
        piece_chosen(d, edges, use_trapezoids, mode, bottom, top),
    ensures
        pieces_chosen(pieces.push(d), edges, use_trapezoids, mode, bottom, top),
{
    assert forall|i: int| 0 <= i < pieces.push(d).len() implies piece_chosen(
        #[trigger] pieces.push(d)[i],
        edges,
        use_trapezoids,
        mode,
        bottom,
        top,
    ) by {
        if i < pieces.len() {
            assert(pieces.push(d)[i] == pieces[i]);
        }
    }
}

/// Sides that are apart at the top stand from left to right.
pub proof fn lemma_apart_rising(sides: Seq<EdgeModel>, i: int, j: int)
    requires
        top_ok(sides),
        0 <= i < j < sides.len(),
    ensures
        sides[i].x < sides[j].x,
    decreases j - i,
{
    assert(room_top(sides, j - 1));
    assert(gap(sides, j - 1, 0) >= expand(sides, j - 1));
    assert(slope_bound(sides[j - 1]) >= 0 && slope_bound(sides[j]) >= 0);
    assert(sides[j - 1].x < sides[j].x);
    if i < j - 1 {
        lemma_apart_rising(sides, i, j - 1);
    }
}

/// Two lists of the edges that cross a scanline, the first from left to
/// right and the second from left to right with no two edges on one x,
/// agree in their first `n` places.
proof fn lemma_listing_prefix(edges: Seq<EdgeModel>, y: int, p1: Seq<int>, p2: Seq<int>, n: int)
    requires
        lists(edges, y, p1),
        lists(edges, y, p2),
        forall|i: int, j: int|
            0 <= i <= j < p1.len() ==> edge_on(edges[#[trigger] p1[i]], y).x <= edge_on(
                edges[#[trigger] p1[j]],
                y,
            ).x,
        forall|i: int, j: int|
            0 <= i < j < p2.len() ==> edge_on(edges[#[trigger] p2[i]], y).x < edge_on(
                edges[#[trigger] p2[j]],
                y,
            ).x,
        0 <= n <= p1.len(),
        n <= p2.len(),
    ensures
        forall|i: int| 0 <= i < n ==> #[trigger] p1[i] == p2[i],
    decreases n,
{
    if n > 0 {
        lemma_listing_prefix(edges, y, p1, p2, n - 1);
        let i = n - 1;
        let a = p1[i];
        let b = p2[i];
        assert(crosses(edges[p2[i]], y));
        assert(p1.contains(b));
        let m = choose|m: int| 0 <= m < p1.len() && p1[m] == b;
        if m < i {
            assert(p1[m] == p2[m]);
            assert(p2[m] != p2[i]);
        }
        assert(edge_on(edges[p1[i]], y).x <= edge_on(edges[p1[m]], y).x);
        assert(crosses(edges[p1[i]], y));
        assert(p2.contains(a));
        let w = choose|w: int| 0 <= w < p2.len() && p2[w] == a;
        if w < i {
            assert(p1[w] == p2[w]);
            assert(p1[w] != p1[i]);
        }
        if w > i {
            assert(edge_on(edges[p2[i]], y).x < edge_on(edges[p2[w]], y).x);
        }
        assert(w == i);
    }
}

/// There is one list of the edges that cross a scanline from left to
/// right, where no two of them stand on one x.
pub proof fn lemma_listing_one(edges: Seq<EdgeModel>, y: int, p1: Seq<int>, p2: Seq<int>)
    requires
        lists(edges, y, p1),
        lists(edges, y, p2),
        forall|i: int, j: int|
            0 <= i <= j < p1.len() ==> edge_on(edges[#[trigger] p1[i]], y).x <= edge_on(
                edges[#[trigger] p1[j]],
                y,
            ).x,
        forall|i: int, j: int|
            0 <= i < j < p2.len() ==> edge_on(edges[#[trigger] p2[i]], y).x < edge_on(
                edges[#[trigger] p2[j]],
                y,
            ).x,
    ensures
        p1 == p2,
{
    let n = if p1.len() <= p2.len() {
        p1.len() as int
    } else {
        p2.len() as int
    };
    lemma_listing_prefix(edges, y, p1, p2, n);
    if p1.len() > n {
        let a = p1[n];
        assert(crosses(edges[p1[n]], y));
        assert(p2.contains(a));
        let w = choose|w: int| 0 <= w < p2.len() && p2[w] == a;
        assert(p1[w] == p2[w]);
        assert(p1[w] != p1[n]);
    }
    if p2.len() > n {
        let b = p2[n];
        assert(crosses(edges[p2[n]], y));
        assert(p1.contains(b));
        let m = choose|m: int| 0 <= m < p1.len() && p1[m] == b;
        assert(p1[m] == p2[m]);
        assert(p2[m] != p2[n]);
    }
    assert(p1 =~= p2);
}

/// The active list of a table that tracks the edges lists the edges that
/// cross the scanline, as they stand on it.
pub proof fn lemma_table_lists(table: &CEdgeTable, origin: Seq<EdgeModel>, y: int)
    requires
        table.wf(),
        crate::scanline::list_tracks(table, origin, y, y),
    ensures
        lists(origin, y, active_picks(table)),
        picked(origin, y, active_picks(table)) == active_models(table),
{
    let picks = active_picks(table);
    let order = table.order@;
    assert forall|i: int| 0 <= i < picks.len() implies 0 <= #[trigger] picks[i] < origin.len()
        && crosses(origin[picks[i]], y) by {
        assert(picks[i] == order[i + 1]);
        assert(order[0] != order[i + 1]);
        assert(order[i + 1] != order[order.len() - 1]);
        assert(order.contains(order[i + 1]));
    }
    assert forall|i: int, j: int| 0 <= i < j < picks.len() implies #[trigger] picks[i]
        != #[trigger] picks[j] by {
        assert(order[i + 1] != order[j + 1]);
    }
    assert forall|k: int| 0 <= k < origin.len() && crosses(#[trigger] origin[k], y) implies picks.contains(
        k,
    ) by {
        assert(k >= 2);
        assert(order.contains(k));
        let j = choose|j: int| 0 <= j < order.len() && order[j] == k;
        assert(picks[j - 1] == k);
    }
    assert(picked(origin, y, picks) =~= active_models(table)) by {
        assert forall|i: int| 0 <= i < picks.len() implies #[trigger] picked(origin, y, picks)[i]
            == active_models(table)[i] by {
            assert(picks[i] == order[i + 1]);
            assert(order[0] != order[i + 1]);
            assert(order[i + 1] != order[order.len() - 1]);
            assert(order.contains(order[i + 1]));
        }
    }
}

/// The scanline on which the next entry of the inactive array begins is
/// the first after `y` on which an edge begins.
pub proof fn lemma_next_begins(
    table: &CEdgeTable,
    inactive: Seq<CInactiveEdge>,
    pos: int,
    y: int,
    next: int,
    origin: Seq<EdgeModel>,
)
    requires
        table_state(table, inactive, pos, y, next, origin),
    ensures
        next_begins(origin, y, next),
{
    let count = inactive.len() - 2;
    assert forall|k: int| 0 <= k < origin.len() && begins_after(#[trigger] origin[k], y) implies pos
        <= count && origin[k].start_y >= next by {
        assert(k >= 2);
        assert(has_entry(inactive, k));
        let q = choose|q: int| 1 <= q <= inactive.len() - 2 && (#[trigger] inactive[q]).Edge == k;
        assert(origin[inactive[q].Edge as int].start_y > y);
        assert(q >= pos);
        let first = inactive[pos].Edge as int;
        assert(origin[inactive[pos].Edge as int].start_y <= origin[inactive[q].Edge as int].start_y);
        assert(origin[first].start_y > y);
        assert(table.edges@[first].model() == origin[first]);
    }
    if pos <= count {
        let first = inactive[pos].Edge as int;
        assert(origin[inactive[pos].Edge as int].start_y > y);
        assert(table.edges@[first].model() == origin[first]);
        assert(origin[first].start_y < origin[first].end_y);
        assert(begins_after(origin[first], y) && origin[first].start_y == next);
    } else {
        assert(inactive[pos].Edge == crate::inactive::TAIL_EDGE);
    }
}

/// Where the active list cannot begin a row of trapezoids, no row of
/// trapezoids begins on the scanline; where it can, the row is the one
/// that the path asks for.
pub proof fn lemma_table_chosen(
    table: &CEdgeTable,
    inactive: Seq<CInactiveEdge>,
    pos: int,
    y: int,
    next: int,
    origin: Seq<EdgeModel>,
    use_trapezoids: bool,
    mode: MilFillMode,
    bottom: int,
    top: int,
)
    requires
        table_state(table, inactive, pos, y, next, origin),
    ensures
        row_applies(origin, use_trapezoids, mode, y, bottom) == sides_apply(
            use_trapezoids,
            mode,
            active_models(table),
            y,
            next,
            bottom,
        ),
        sides_apply(use_trapezoids, mode, active_models(table), y, next, bottom) ==> piece_chosen(
            (Drawn::Trapezoids {
                top: y,
                bottom: y + rows_end(active_models(table), y, 0, next, bottom),
                sides: active_models(table),
            }),
            origin,
            use_trapezoids,
            mode,
            bottom,
            top,
        ),
{
    let mine = active_picks(table);
    lemma_table_lists(table, origin, y);
    lemma_next_begins(table, inactive, pos, y, next, origin);
    assert forall|i: int, j: int| 0 <= i <= j < mine.len() implies edge_on(
        origin[#[trigger] mine[i]],
        y,
    ).x <= edge_on(origin[#[trigger] mine[j]], y).x by {
        assert(picked(origin, y, mine)[i] == active_models(table)[i]);
        assert(picked(origin, y, mine)[j] == active_models(table)[j]);
        assert(table.xs()[i + 1] <= table.xs()[j + 1]);
    }
    if sides_apply(use_trapezoids, mode, active_models(table), y, next, bottom) {
        let sides = active_models(table);
        assert(row_begins(origin, use_trapezoids, mode, y, bottom, mine, next) && sides == picked(
            origin,
            y,
            mine,
        ));
        let d = Drawn::Trapezoids {
            top: y,
            bottom: y + rows_end(sides, y, 0, next, bottom),
            sides: sides,
        };
        assert(row_is(
            origin,
            use_trapezoids,
            mode,
            y,
            bottom,
            mine,
            next,
            sides,
            y + rows_end(sides, y, 0, next, bottom),
        ));
        let end = y + rows_end(sides, y, 0, next, bottom);
        assert(exists|picks: Seq<int>, n: int|
            #[trigger] row_is(origin, use_trapezoids, mode, y, bottom, picks, n, sides, end));
        assert(d is Trapezoids);
        assert(d->Trapezoids_top == y && d->Trapezoids_bottom == end && d->Trapezoids_sides == sides);
        assert(piece_chosen(d, origin, use_trapezoids, mode, bottom, top));
    }
    if row_applies(origin, use_trapezoids, mode, y, bottom) {
        let (picks, other) = choose|picks: Seq<int>, other: int|
            #[trigger] row_begins(origin, use_trapezoids, mode, y, bottom, picks, other);
        let sides = picked(origin, y, picks);
        assert forall|i: int, j: int| 0 <= i < j < picks.len() implies edge_on(
            origin[#[trigger] picks[i]],
            y,
        ).x < edge_on(origin[#[trigger] picks[j]], y).x by {
            lemma_apart_rising(sides, i, j);
            assert(sides[i] == edge_on(origin[picks[i]], y));
            assert(sides[j] == edge_on(origin[picks[j]], y));
        }
        lemma_listing_one(origin, y, mine, picks);
        lemma_next_one(origin, y, next, other);
    }
}

/// There is one first scanline after `y` on which an edge begins.
pub proof fn lemma_next_one(edges: Seq<EdgeModel>, y: int, a: int, b: int)
    requires
        next_begins(edges, y, a),
        next_begins(edges, y, b),
    ensures
        a == b,
{
}

/// A path asks for one row of trapezoids on a scanline: two rows that it
/// asks for there have the same sides and end on the same scanline.
pub proof fn lemma_row_determined(
    edges: Seq<EdgeModel>,
    use_trapezoids: bool,
    mode: MilFillMode,
    top: int,
    bottom: int,
    first: Drawn,
    second: Drawn,
    begin: int,
)
    requires
        first is Trapezoids,
        second is Trapezoids,
        first->Trapezoids_top == top,
        second->Trapezoids_top == top,
        piece_chosen(first, edges, use_trapezoids, mode, bottom, begin),
        piece_chosen(second, edges, use_trapezoids, mode, bottom, begin),
    ensures
        first == second,
{
    let (p1, n1) = choose|picks: Seq<int>, next: int|
        #[trigger] row_is(
            edges,
            use_trapezoids,
            mode,
            top,
            bottom,
            picks,
            next,
            first->Trapezoids_sides,
            first->Trapezoids_bottom,
        );
    let (p2, n2) = choose|picks: Seq<int>, next: int|
        #[trigger] row_is(
            edges,
            use_trapezoids,
            mode,
            top,
            bottom,
            picks,
            next,
            second->Trapezoids_sides,
            second->Trapezoids_bottom,
        );
    let s1 = picked(edges, top, p1);
    let s2 = picked(edges, top, p2);
    assert forall|i: int, j: int| 0 <= i <= j < p1.len() implies edge_on(
        edges[#[trigger] p1[i]],
        top,
    ).x <= edge_on(edges[#[trigger] p1[j]], top).x by {
        if i < j {
            lemma_apart_rising(s1, i, j);
        }
        assert(s1[i] == edge_on(edges[p1[i]], top));
        assert(s1[j] == edge_on(edges[p1[j]], top));
    }
    assert forall|i: int, j: int| 0 <= i < j < p2.len() implies edge_on(
        edges[#[trigger] p2[i]],
        top,
    ).x < edge_on(edges[#[trigger] p2[j]], top).x by {
        lemma_apart_rising(s2, i, j);
        assert(s2[i] == edge_on(edges[p2[i]], top));
        assert(s2[j] == edge_on(edges[p2[j]], top));
    }
    lemma_listing_one(edges, top, p1, p2);
    lemma_next_one(edges, top, n1, n2);
}

/// Where no edge crosses a scanline, no row of trapezoids begins on it.
pub proof fn lemma_no_row(
    edges: Seq<EdgeModel>,
    use_trapezoids: bool,
    mode: MilFillMode,
    y: int,
    bottom: int,
)
    requires
        forall|k: int| 0 <= k < edges.len() ==> !crosses(#[trigger] edges[k], y),
    ensures
        !row_applies(edges, use_trapezoids, mode, y, bottom),
{
    assert forall|picks: Seq<int>, next: int| !#[trigger] row_begins(
        edges,
        use_trapezoids,
        mode,
        y,
        bottom,
        picks,
        next,
    ) by {
        if lists(edges, y, picks) && picks.len() > 0 {
            assert(crosses(edges[picks[0]], y));
        }
    }
}

/// What begins a row of trapezoids among the edges of a path begins it
/// among the same edges behind two edges without a scanline, and the other
/// way round.
pub proof fn lemma_row_behind(
    path: Seq<EdgeModel>,
    use_trapezoids: bool,
    mode: MilFillMode,
    y: int,
    bottom: int,
    picks: Seq<int>,
    next: int,
)
    ensures
        row_begins(
            seq![no_edge(), no_edge()] + path,
            use_trapezoids,
            mode,
            y,
            bottom,
            picks,
            next,
        ) ==> row_begins(
            path,
            use_trapezoids,
            mode,
            y,
            bottom,
            Seq::new(picks.len(), |i: int| picks[i] - 2),
            next,
        ) && picked(seq![no_edge(), no_edge()] + path, y, picks) == picked(
            path,
            y,
            Seq::new(picks.len(), |i: int| picks[i] - 2),
        ),
        row_begins(path, use_trapezoids, mode, y, bottom, picks, next) ==> row_begins(
            seq![no_edge(), no_edge()] + path,
            use_trapezoids,
            mode,
            y,
            bottom,
            Seq::new(picks.len(), |i: int| picks[i] + 2),
            next,
        ),
{
    let origin = seq![no_edge(), no_edge()] + path;
    assert(forall|k: int| 0 <= k < path.len() ==> origin[k + 2] == #[trigger] path[k]);
    assert(!crosses(origin[0], y) && !crosses(origin[1], y));
    assert(!begins_after(origin[0], y) && !begins_after(origin[1], y));
    if row_begins(origin, use_trapezoids, mode, y, bottom, picks, next) {
        let less = Seq::new(picks.len(), |i: int| picks[i] - 2);
        assert forall|i: int| 0 <= i < less.len() implies 0 <= #[trigger] less[i] < path.len()
            && crosses(path[less[i]], y) by {
            assert(crosses(origin[picks[i]], y));
            assert(picks[i] >= 2);
            assert(origin[less[i] + 2] == path[less[i]]);
        }
        assert forall|i: int, j: int| 0 <= i < j < less.len() implies #[trigger] less[i]
            != #[trigger] less[j] by {
            assert(picks[i] != picks[j]);
        }
        assert forall|k: int| 0 <= k < path.len() && crosses(#[trigger] path[k], y) implies less.contains(
            k,
        ) by {
            assert(crosses(origin[k + 2], y));
            assert(picks.contains(k + 2));
            let i = choose|i: int| 0 <= i < picks.len() && picks[i] == k + 2;
            assert(less[i] == k);
        }
        assert(picked(origin, y, picks) =~= picked(path, y, less)) by {
            assert forall|i: int| 0 <= i < picks.len() implies #[trigger] picked(origin, y, picks)[i]
                == picked(path, y, less)[i] by {
                assert(crosses(origin[picks[i]], y));
                assert(origin[less[i] + 2] == path[less[i]]);
            }
        }
        assert forall|k: int| 0 <= k < path.len() && begins_after(#[trigger] path[k], y) implies path[k].start_y
            >= next by {
            assert(begins_after(origin[k + 2], y));
        }
        if exists|k: int|
            0 <= k < origin.len() && begins_after(#[trigger] origin[k], y) && origin[k].start_y
                == next {
            let k = choose|k: int|
                0 <= k < origin.len() && begins_after(#[trigger] origin[k], y) && origin[k].start_y
                    == next;
            assert(origin[(k - 2) + 2] == path[k - 2]);
            assert(begins_after(path[k - 2], y) && path[k - 2].start_y == next);
        } else {
            assert forall|k: int| 0 <= k < path.len() implies !begins_after(#[trigger] path[k], y) by {
                assert(!begins_after(origin[k + 2], y));
            }
        }
        assert(next_begins(path, y, next));
    }
    if row_begins(path, use_trapezoids, mode, y, bottom, picks, next) {
        let more = Seq::new(picks.len(), |i: int| picks[i] + 2);
        assert forall|i: int| 0 <= i < more.len() implies 0 <= #[trigger] more[i] < origin.len()
            && crosses(origin[more[i]], y) by {
            assert(crosses(path[picks[i]], y));
            assert(origin[picks[i] + 2] == path[picks[i]]);
        }
        assert forall|i: int, j: int| 0 <= i < j < more.len() implies #[trigger] more[i]
            != #[trigger] more[j] by {
            assert(picks[i] != picks[j]);
        }
        assert forall|k: int| 0 <= k < origin.len() && crosses(#[trigger] origin[k], y) implies more.contains(
            k,
        ) by {
            assert(k >= 2);
            assert(origin[(k - 2) + 2] == path[k - 2]);
            assert(crosses(path[k - 2], y));
            assert(picks.contains(k - 2));
            let i = choose|i: int| 0 <= i < picks.len() && picks[i] == k - 2;
            assert(more[i] == k);
        }
        assert(picked(origin, y, more) =~= picked(path, y, picks)) by {
            assert forall|i: int| 0 <= i < picks.len() implies #[trigger] picked(origin, y, more)[i]
                == picked(path, y, picks)[i] by {
                assert(crosses(path[picks[i]], y));
                assert(origin[picks[i] + 2] == path[picks[i]]);
            }
        }
        assert forall|k: int| 0 <= k < origin.len() && begins_after(#[trigger] origin[k], y) implies origin[k].start_y
            >= next by {
            assert(k >= 2);
            assert(origin[(k - 2) + 2] == path[k - 2]);
            assert(begins_after(path[k - 2], y));
        }
        if exists|k: int|
            0 <= k < path.len() && begins_after(#[trigger] path[k], y) && path[k].start_y == next {
            let k = choose|k: int|
                0 <= k < path.len() && begins_after(#[trigger] path[k], y) && path[k].start_y
                    == next;
            assert(begins_after(origin[k + 2], y) && origin[k + 2].start_y == next);
        } else {
            assert forall|k: int| 0 <= k < origin.len() implies !begins_after(
                #[trigger] origin[k],
                y,
            ) by {
                if k >= 2 {
                    assert(origin[(k - 2) + 2] == path[k - 2]);
                    assert(!begins_after(path[k - 2], y));
                }
            }
        }
        assert(next_begins(origin, y, next));
    }
}

/// The pieces that a path behind two edges without a scanline asks for are
/// the pieces that the path asks for.
pub proof fn lemma_chosen_behind(
    pieces: Seq<Drawn>,
    path: Seq<EdgeModel>,
    use_trapezoids: bool,
    mode: MilFillMode,
    bottom: int,
    top: int,
)
    requires
        pieces_chosen(pieces, seq![no_edge(), no_edge()] + path, use_trapezoids, mode, bottom, top),
    ensures
        pieces_chosen(pieces, path, use_trapezoids, mode, bottom, top),
{
    let origin = seq![no_edge(), no_edge()] + path;
    assert forall|i: int| 0 <= i < pieces.len() implies piece_chosen(
        #[trigger] pieces[i],
        path,
        use_trapezoids,
        mode,
        bottom,
        top,
    ) by {
        assert(piece_chosen(pieces[i], origin, use_trapezoids, mode, bottom, top));
        match pieces[i] {
            Drawn::Scan { row, spans } => {
                let orders = choose|orders: Seq<Seq<int>>|
                    #[trigger] scan_lines_are(spans, origin, mode, row, top, bottom, orders);
                lemma_scan_behind(spans, path, mode, row_first(row, top), orders);
                assert(scan_lines_are(
                    spans,
                    path,
                    mode,
                    row,
                    top,
                    bottom,
                    less_all(orders),
                ));
                if row_applies(path, use_trapezoids, mode, 8 * row, bottom) {
                    let (picks, next) = choose|picks: Seq<int>, next: int|
                        #[trigger] row_begins(
                            path,
                            use_trapezoids,
                            mode,
                            8 * row,
                            bottom,
                            picks,
                            next,
                        );
                    lemma_row_behind(path, use_trapezoids, mode, 8 * row, bottom, picks, next);
                    assert(row_begins(
                        origin,
                        use_trapezoids,
                        mode,
                        8 * row,
                        bottom,
                        Seq::new(picks.len(), |i: int| picks[i] + 2),
                        next,
                    ));
                }
            },
            Drawn::Trapezoids { top, bottom: end, sides } => {
                let (picks, next) = choose|picks: Seq<int>, next: int|
                    #[trigger] row_is(
                        origin,
                        use_trapezoids,
                        mode,
                        top,
                        bottom,
                        picks,
                        next,
                        sides,
                        end,
                    );
                lemma_row_behind(path, use_trapezoids, mode, top, bottom, picks, next);
                let less = Seq::new(picks.len(), |i: int| picks[i] - 2);
                assert(row_is(path, use_trapezoids, mode, top, bottom, less, next, sides, end));
            },
        }
    }
}

/// The same lists, each edge named by its place two further to the front.
pub open spec fn less_all(orders: Seq<Seq<int>>) -> Seq<Seq<int>> {
    Seq::new(orders.len(), |j: int| Seq::new(orders[j].len(), |i: int| orders[j][i] - 2))
}

/// A list of the two sentinels alone is cut by no fill.
pub proof fn lemma_scan_begin(
    spans: Seq<CoverageSpan>,
    edges: Seq<EdgeModel>,
    mode: MilFillMode,
    first: int,
)
    requires
        spans_ok(spans),
        spans.len() == 2,
    ensures
        scan_listed(spans, edges, mode, first, Seq::<Seq<int>>::empty()),
{
    let none = Seq::<Seq<int>>::empty();
    assert forall|x: int| #[trigger]
        cut_at(spans, x) <==> x == INT::MIN || x == INT::MAX || scan_cut(
            edges,
            mode,
            first,
            none,
            x,
        ) by {
        if x == INT::MIN {
            assert(spans[0].x == x);
        }
        if x == INT::MAX {
            assert(spans[1].x == x);
        }
    }
}

/// Before the first fill it is all one from which scanline the fills are
/// counted.
pub proof fn lemma_scan_moved(
    spans: Seq<CoverageSpan>,
    edges: Seq<EdgeModel>,
    mode: MilFillMode,
    a: int,
    b: int,
    orders: Seq<Seq<int>>,
)
    requires
        scan_listed(spans, edges, mode, a, orders),
        orders.len() == 0,
    ensures
        scan_listed(spans, edges, mode, b, orders),
{
    assert forall|x: int| #[trigger]
        cut_at(spans, x) <==> x == INT::MIN || x == INT::MAX || scan_cut(edges, mode, b, orders, x) by {
        assert(cut_at(spans, x) <==> x == INT::MIN || x == INT::MAX || scan_cut(
            edges,
            mode,
            a,
            orders,
            x,
        ));
    }
}

/// The fill of one more scanline, between the edges of the active list,
/// cuts the list where it says.
pub proof fn lemma_scan_step(
    table: &CEdgeTable,
    origin: Seq<EdgeModel>,
    y: int,
    first: int,
    orders: Seq<Seq<int>>,
    s0: Seq<CoverageSpan>,
    s1: Seq<CoverageSpan>,
    mode: MilFillMode,
)
    requires
        table.wf(),
        table.x_ordered(),
        crate::scanline::list_tracks(table, origin, y, y),
        orders.len() == y - first,
        scan_listed(s0, origin, mode, first, orders),
        cuts_are(s1, s0, fill_cuts(mode, active_models(table))),
    ensures
        scan_listed(s1, origin, mode, first, orders.push(active_picks(table))),
{
    let mine = active_picks(table);
    let more = orders.push(mine);
    let n = orders.len() as int;
    let added = fill_cuts(mode, active_models(table));
    lemma_table_lists(table, origin, y);
    assert forall|j: int| 0 <= j < more.len() implies #[trigger] line_listed(
        origin,
        first,
        more,
        j,
    ) by {
        if j < n {
            assert(more[j] == orders[j]);
            assert(line_listed(origin, first, orders, j));
        } else {
            assert(more[j] == mine);
            assert forall|a: int, b: int| 0 <= a <= b < mine.len() implies edge_on(
                origin[#[trigger] mine[a]],
                y,
            ).x <= edge_on(origin[#[trigger] mine[b]], y).x by {
                assert(picked(origin, y, mine)[a] == active_models(table)[a]);
                assert(picked(origin, y, mine)[b] == active_models(table)[b]);
                assert(table.xs()[a + 1] <= table.xs()[b + 1]);
            }
        }
    }
    lemma_cuts_are(s1, s0, added);
    assert(line_set(origin, mode, first, more, n) == added);
    assert forall|x: int| #[trigger]
        cut_at(s1, x) <==> x == INT::MIN || x == INT::MAX || scan_cut(
            origin,
            mode,
            first,
            more,
            x,
        ) by {
        assert(cut_at(s1, x) <==> cut_at(s0, x) || added.contains(x));
        assert(cut_at(s0, x) <==> x == INT::MIN || x == INT::MAX || scan_cut(
            origin,
            mode,
            first,
            orders,
            x,
        ));
        if scan_cut(origin, mode, first, orders, x) {
            let j = choose|j: int|
                0 <= j < orders.len() && (#[trigger] line_set(origin, mode, first, orders, j)).contains(
                    x,
                );
            assert(more[j] == orders[j]);
            assert(line_set(origin, mode, first, more, j).contains(x));
        }
        if added.contains(x) {
            assert(line_set(origin, mode, first, more, n).contains(x));
        }
        if scan_cut(origin, mode, first, more, x) {
            let j = choose|j: int|
                0 <= j < more.len() && (#[trigger] line_set(origin, mode, first, more, j)).contains(
                    x,
                );
            if j < n {
                assert(more[j] == orders[j]);
                assert(line_set(origin, mode, first, orders, j).contains(x));
            }
        }
    }
}

/// What lists the edges that cross a scanline behind two edges without a
/// scanline lists them among the edges of the path alone.
pub proof fn lemma_lists_behind(path: Seq<EdgeModel>, y: int, picks: Seq<int>)
    requires
        lists(seq![no_edge(), no_edge()] + path, y, picks),
    ensures
        lists(path, y, Seq::new(picks.len(), |i: int| picks[i] - 2)),
        picked(seq![no_edge(), no_edge()] + path, y, picks) == picked(
            path,
            y,
            Seq::new(picks.len(), |i: int| picks[i] - 2),
        ),
{
    let origin = seq![no_edge(), no_edge()] + path;
    assert(forall|k: int| 0 <= k < path.len() ==> origin[k + 2] == #[trigger] path[k]);
    assert(!crosses(origin[0], y) && !crosses(origin[1], y));
    let less = Seq::new(picks.len(), |i: int| picks[i] - 2);
    assert forall|i: int| 0 <= i < less.len() implies 0 <= #[trigger] less[i] < path.len()
        && crosses(path[less[i]], y) by {
        assert(crosses(origin[picks[i]], y));
        assert(picks[i] >= 2);
        assert(origin[less[i] + 2] == path[less[i]]);
    }
    assert forall|i: int, j: int| 0 <= i < j < less.len() implies #[trigger] less[i]
        != #[trigger] less[j] by {
        assert(picks[i] != picks[j]);
    }
    assert forall|k: int| 0 <= k < path.len() && crosses(#[trigger] path[k], y) implies less.contains(
        k,
    ) by {
        assert(crosses(origin[k + 2], y));
        assert(picks.contains(k + 2));
        let i = choose|i: int| 0 <= i < picks.len() && picks[i] == k + 2;
        assert(less[i] == k);
    }
    assert(picked(origin, y, picks) =~= picked(path, y, less)) by {
        assert forall|i: int| 0 <= i < picks.len() implies #[trigger] picked(origin, y, picks)[i]
            == picked(path, y, less)[i] by {
            assert(crosses(origin[picks[i]], y));
            assert(origin[less[i] + 2] == path[less[i]]);
        }
    }
}

/// A list that is cut where the fills cut it between the edges of a path
/// behind two edges without a scanline is cut where they cut it between
/// the edges of the path.
pub proof fn lemma_scan_behind(
    spans: Seq<CoverageSpan>,
    path: Seq<EdgeModel>,
    mode: MilFillMode,
    first: int,
    orders: Seq<Seq<int>>,
)
    requires
        scan_listed(spans, seq![no_edge(), no_edge()] + path, mode, first, orders),
    ensures
        scan_listed(spans, path, mode, first, less_all(orders)),
        less_all(orders).len() == orders.len(),
{
    let origin = seq![no_edge(), no_edge()] + path;
    let fewer = less_all(orders);
    assert forall|j: int| 0 <= j < orders.len() implies #[trigger] line_listed(
        path,
        first,
        fewer,
        j,
    ) && line_set(path, mode, first, fewer, j) == line_set(origin, mode, first, orders, j) by {
        assert(line_listed(origin, first, orders, j));
        let v = first + j;
        let picks = orders[j];
        let less = fewer[j];
        lemma_lists_behind(path, v, picks);
        assert(less =~= Seq::new(picks.len(), |i: int| picks[i] - 2));
        assert forall|a: int, b: int| 0 <= a <= b < less.len() implies edge_on(
            path[#[trigger] less[a]],
            v,
        ).x <= edge_on(path[#[trigger] less[b]], v).x by {
            assert(picked(path, v, less)[a] == picked(origin, v, picks)[a]);
            assert(picked(path, v, less)[b] == picked(origin, v, picks)[b]);
            assert(edge_on(origin[picks[a]], v).x <= edge_on(origin[picks[b]], v).x);
        }
    }
    assert forall|x: int| #[trigger]
        cut_at(spans, x) <==> x == INT::MIN || x == INT::MAX || scan_cut(
            path,
            mode,
            first,
            fewer,
            x,
        ) by {
        assert(cut_at(spans, x) <==> x == INT::MIN || x == INT::MAX || scan_cut(
            origin,
            mode,
            first,
            orders,
            x,
        ));
        if scan_cut(origin, mode, first, orders, x) {
            let j = choose|j: int|
                0 <= j < orders.len() && (#[trigger] line_set(origin, mode, first, orders, j)).contains(
                    x,
                );
            assert(line_listed(path, first, fewer, j));
            assert(line_set(path, mode, first, fewer, j).contains(x));
        }
        if scan_cut(path, mode, first, fewer, x) {
            let j = choose|j: int|
                0 <= j < fewer.len() && (#[trigger] line_set(path, mode, first, fewer, j)).contains(
                    x,
                );
            assert(line_listed(path, first, fewer, j));
            assert(line_set(origin, mode, first, orders, j).contains(x));
        }
    }
}

/// Of two lists of the edges that cross a scanline, both from left to
/// right, the first does not stand to the left of the second in any place.
proof fn lemma_listing_not_left(edges: Seq<EdgeModel>, y: int, p1: Seq<int>, p2: Seq<int>, i: int)
    requires
        lists(edges, y, p1),
        lists(edges, y, p2),
        forall|a: int, b: int|
            0 <= a <= b < p1.len() ==> edge_on(edges[#[trigger] p1[a]], y).x <= edge_on(
                edges[#[trigger] p1[b]],
                y,
            ).x,
        forall|a: int, b: int|
            0 <= a <= b < p2.len() ==> edge_on(edges[#[trigger] p2[a]], y).x <= edge_on(
                edges[#[trigger] p2[b]],
                y,
            ).x,
        0 <= i < p1.len(),
        i < p2.len(),
    ensures
        edge_on(edges[p1[i]], y).x >= edge_on(edges[p2[i]], y).x,
{
    if edge_on(edges[p1[i]], y).x < edge_on(edges[p2[i]], y).x {
        let a = p1.subrange(0, i + 1);
        let b = p2.subrange(0, i);
        assert(a.no_duplicates()) by {
            assert forall|m: int, w: int| 0 <= m < a.len() && 0 <= w < a.len() && m != w implies a[m]
                != a[w] by {
                if m < w {
                    assert(p1[m] != p1[w]);
                } else {
                    assert(p1[w] != p1[m]);
                }
            }
        }
        assert(b.no_duplicates()) by {
            assert forall|m: int, w: int| 0 <= m < b.len() && 0 <= w < b.len() && m != w implies b[m]
                != b[w] by {
                if m < w {
                    assert(p2[m] != p2[w]);
                } else {
                    assert(p2[w] != p2[m]);
                }
            }
        }
        assert(a.to_set().subset_of(b.to_set())) by {
            assert forall|k: int| a.to_set().contains(k) implies b.to_set().contains(k) by {
                assert(a.contains(k));
                let m = choose|m: int| 0 <= m < a.len() && a[m] == k;
                assert(p1[m] == k);
                assert(edge_on(edges[p1[m]], y).x <= edge_on(edges[p1[i]], y).x);
                assert(crosses(edges[p1[m]], y));
                assert(p2.contains(k));
                let w = choose|w: int| 0 <= w < p2.len() && p2[w] == k;
                if w >= i {
                    assert(edge_on(edges[p2[i]], y).x <= edge_on(edges[p2[w]], y).x);
                }
                assert(b[w] == k);
                assert(b.contains(k));
            }
        }
        vstd::seq_lib::seq_to_set_is_finite(b);
        vstd::set_lib::lemma_len_subset(a.to_set(), b.to_set());
        a.unique_seq_to_set();
        b.unique_seq_to_set();
    }
}

/// Two lists of the edges that cross a scanline, both from left to right,
/// are as long as each other and stand on the same x in every place.
pub proof fn lemma_listing_places(edges: Seq<EdgeModel>, y: int, p1: Seq<int>, p2: Seq<int>)
    requires
        lists(edges, y, p1),
        lists(edges, y, p2),
        forall|a: int, b: int|
            0 <= a <= b < p1.len() ==> edge_on(edges[#[trigger] p1[a]], y).x <= edge_on(
                edges[#[trigger] p1[b]],
                y,
            ).x,
        forall|a: int, b: int|
            0 <= a <= b < p2.len() ==> edge_on(edges[#[trigger] p2[a]], y).x <= edge_on(
                edges[#[trigger] p2[b]],
                y,
            ).x,
    ensures
        p1.len() == p2.len(),
        picked(edges, y, p1).len() == picked(edges, y, p2).len(),
        forall|i: int|
            0 <= i < p1.len() ==> (#[trigger] picked(edges, y, p1)[i]).x == picked(edges, y, p2)[i].x,
{
    assert(p1.no_duplicates()) by {
        assert forall|m: int, w: int| 0 <= m < p1.len() && 0 <= w < p1.len() && m != w implies p1[m]
            != p1[w] by {
            if m < w {
                assert(p1[m] != p1[w]);
            } else {
                assert(p1[w] != p1[m]);
            }
        }
    }
    assert(p2.no_duplicates()) by {
        assert forall|m: int, w: int| 0 <= m < p2.len() && 0 <= w < p2.len() && m != w implies p2[m]
            != p2[w] by {
            if m < w {
                assert(p2[m] != p2[w]);
            } else {
                assert(p2[w] != p2[m]);
            }
        }
    }
    assert(p1.to_set() =~= p2.to_set()) by {
        assert forall|k: int| p1.to_set().contains(k) <==> p2.to_set().contains(k) by {
            if p1.contains(k) {
                let m = choose|m: int| 0 <= m < p1.len() && p1[m] == k;
                assert(crosses(edges[p1[m]], y));
                assert(p2.contains(k));
            }
            if p2.contains(k) {
                let m = choose|m: int| 0 <= m < p2.len() && p2[m] == k;
                assert(crosses(edges[p2[m]], y));
                assert(p1.contains(k));
            }
        }
    }
    p1.unique_seq_to_set();
    p2.unique_seq_to_set();
    assert forall|i: int| 0 <= i < p1.len() implies (#[trigger] picked(edges, y, p1)[i]).x
        == picked(edges, y, p2)[i].x by {
        lemma_listing_not_left(edges, y, p1, p2, i);
        lemma_listing_not_left(edges, y, p2, p1, i);
    }
}

/// By the alternate rule a path asks for one scan of a device scanline:
/// two scans of it that the path asks for, each with the coverage that
/// the samples inside the path give, are one.
pub proof fn lemma_scan_determined(
    edges: Seq<EdgeModel>,
    use_trapezoids: bool,
    bottom: int,
    top: int,
    first: Drawn,
    second: Drawn,
)
    requires
        first is Scan,
        second is Scan,
        first->Scan_row == second->Scan_row,
        piece_chosen(first, edges, use_trapezoids, MilFillMode::Alternate, bottom, top),
        piece_chosen(second, edges, use_trapezoids, MilFillMode::Alternate, bottom, top),
        piece_true(first, edges, MilFillMode::Alternate, bottom),
        piece_true(second, edges, MilFillMode::Alternate, bottom),
    ensures
        first == second,
{
    let mode = MilFillMode::Alternate;
    let row = first->Scan_row;
    let s1 = first->Scan_spans;
    let s2 = second->Scan_spans;
    let o1 = choose|orders: Seq<Seq<int>>|
        #[trigger] scan_lines_are(s1, edges, mode, row, top, bottom, orders);
    let o2 = choose|orders: Seq<Seq<int>>|
        #[trigger] scan_lines_are(s2, edges, mode, row, top, bottom, orders);
    let from = row_first(row, top);
    assert forall|j: int| 0 <= j < o1.len() implies #[trigger] line_set(edges, mode, from, o1, j)
        == line_set(edges, mode, from, o2, j) by {
        assert(line_listed(edges, from, o1, j));
        assert(line_listed(edges, from, o2, j));
        let v = from + j;
        lemma_listing_places(edges, v, o1[j], o2[j]);
        let a = picked(edges, v, o1[j]);
        let b = picked(edges, v, o2[j]);
        assert(Seq::new(a.len(), |i: int| a[i].x) =~= Seq::new(b.len(), |i: int| b[i].x));
    }
    assert forall|x: int| #[trigger] cut_at(s1, x) <==> cut_at(s2, x) by {
        assert(cut_at(s1, x) <==> x == INT::MIN || x == INT::MAX || scan_cut(edges, mode, from, o1, x));
        assert(cut_at(s2, x) <==> x == INT::MIN || x == INT::MAX || scan_cut(edges, mode, from, o2, x));
        if scan_cut(edges, mode, from, o1, x) {
            let j = choose|j: int|
                0 <= j < o1.len() && (#[trigger] line_set(edges, mode, from, o1, j)).contains(x);
            assert(line_set(edges, mode, from, o2, j).contains(x));
        }
        if scan_cut(edges, mode, from, o2, x) {
            let j = choose|j: int|
                0 <= j < o2.len() && (#[trigger] line_set(edges, mode, from, o2, j)).contains(x);
            assert(line_set(edges, mode, from, o1, j) == line_set(edges, mode, from, o2, j));
            assert(line_set(edges, mode, from, o1, j).contains(x));
        }
    }
    lemma_same_cuts_are(s1, s2);
    assert(crate::aacoverage::same_coverage(s1, s2));
    lemma_list_determined(s1, s2);
}

/// Pieces that tile device scanlines tile them downwards.
proof fn lemma_tile_order(pieces: Seq<Drawn>, first: int, next: int)
    requires
        pieces_tile(pieces, first, next),
    ensures
        first <= next,
    decreases pieces.len(),
{
    if pieces.len() > 0 {
        lemma_tile_order(pieces.drop_last(), first, piece_first_row(pieces.last()));
    }
}

/// The first of the pieces that tile device scanlines begins on the first
/// of them, and the other pieces tile what is left.
proof fn lemma_tile_front(pieces: Seq<Drawn>, first: int, next: int)
    requires
        pieces_tile(pieces, first, next),
        pieces.len() > 0,
    ensures
        piece_first_row(pieces[0]) == first,
        piece_first_row(pieces[0]) < piece_next_row(pieces[0]),
        pieces_tile(pieces.drop_first(), piece_next_row(pieces[0]), next),
    decreases pieces.len(),
{
    let last = pieces.last();
    let init = pieces.drop_last();
    let rest = pieces.drop_first();
    if pieces.len() == 1 {
        assert(init.len() == 0);
        assert(last == pieces[0]);
        assert(rest.len() == 0);
        assert(pieces_tile(init, first, piece_first_row(last)));
    } else {
        lemma_tile_front(init, first, piece_first_row(last));
        assert(init[0] == pieces[0]);
        assert(rest.last() == last);
        assert(rest.drop_last() =~= init.drop_first());
        lemma_tile_order(init.drop_first(), piece_next_row(pieces[0]), piece_first_row(last));
    }
}

/// By the alternate rule a path asks for one train of pieces: two trains
/// that tile the same device scanlines, of pieces that the path asks for
/// and that show the path, are one.
pub proof fn lemma_pieces_determined(
    p: Seq<Drawn>,
    q: Seq<Drawn>,
    edges: Seq<EdgeModel>,
    use_trapezoids: bool,
    bottom: int,
    top: int,
    first: int,
    next: int,
)
    requires
        pieces_tile(p, first, next),
        pieces_tile(q, first, next),
        pieces_chosen(p, edges, use_trapezoids, MilFillMode::Alternate, bottom, top),
        pieces_chosen(q, edges, use_trapezoids, MilFillMode::Alternate, bottom, top),
        pieces_true(p, edges, MilFillMode::Alternate, bottom),
        pieces_true(q, edges, MilFillMode::Alternate, bottom),
    ensures
        p == q,
    decreases p.len(),
{
    let mode = MilFillMode::Alternate;
    if p.len() == 0 || q.len() == 0 {
        if p.len() > 0 {
            lemma_tile_front(p, first, next);
            lemma_tile_order(p.drop_first(), piece_next_row(p[0]), next);
        }
        if q.len() > 0 {
            lemma_tile_front(q, first, next);
            lemma_tile_order(q.drop_first(), piece_next_row(q[0]), next);
        }
        assert(p =~= q);
    } else {
        lemma_tile_front(p, first, next);
        lemma_tile_front(q, first, next);
        let a = p[0];
        let b = q[0];
        assert(piece_chosen(a, edges, use_trapezoids, mode, bottom, top));
        assert(piece_chosen(b, edges, use_trapezoids, mode, bottom, top));
        assert(piece_true(a, edges, mode, bottom));
        assert(piece_true(b, edges, mode, bottom));
        if a is Trapezoids {
            let t = a->Trapezoids_top;
            assert(t == 8 * first);
            let (picks, n) = choose|picks: Seq<int>, n: int|
                #[trigger] row_is(
                    edges,
                    use_trapezoids,
                    mode,
                    t,
                    bottom,
                    picks,
                    n,
                    a->Trapezoids_sides,
                    a->Trapezoids_bottom,
                );
            assert(row_begins(edges, use_trapezoids, mode, t, bottom, picks, n));
            assert(row_applies(edges, use_trapezoids, mode, 8 * first, bottom));
        }
        if b is Trapezoids {
            let t = b->Trapezoids_top;
            assert(t == 8 * first);
            let (picks, n) = choose|picks: Seq<int>, n: int|
                #[trigger] row_is(
                    edges,
                    use_trapezoids,
                    mode,
                    t,
                    bottom,
                    picks,
                    n,
                    b->Trapezoids_sides,
                    b->Trapezoids_bottom,
                );
            assert(row_begins(edges, use_trapezoids, mode, t, bottom, picks, n));
            assert(row_applies(edges, use_trapezoids, mode, 8 * first, bottom));
        }
        if a is Trapezoids {
            assert(b is Trapezoids);
            lemma_row_determined(edges, use_trapezoids, mode, 8 * first, bottom, a, b, top);
        } else {
            assert(b is Scan);
            lemma_scan_determined(edges, use_trapezoids, bottom, top, a, b);
        }
        let pr = p.drop_first();
        let qr = q.drop_first();
        assert forall|i: int| 0 <= i < pr.len() implies piece_chosen(
            #[trigger] pr[i],
            edges,
            use_trapezoids,
            mode,
            bottom,
            top,
        ) && piece_true(pr[i], edges, mode, bottom) by {
            assert(pr[i] == p[i + 1]);
        }
        assert forall|i: int| 0 <= i < qr.len() implies piece_chosen(
            #[trigger] qr[i],
            edges,
            use_trapezoids,
            mode,
            bottom,
            top,
        ) && piece_true(qr[i], edges, mode, bottom) by {
            assert(qr[i] == q[i + 1]);
        }
        lemma_pieces_determined(
            pr,
            qr,
            edges,
            use_trapezoids,
            bottom,
            top,
            piece_next_row(a),
            next,
        );
        assert(p =~= seq![a] + pr);
        assert(q =~= seq![b] + qr);
    }
}

} // verus!
