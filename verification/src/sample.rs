//! What the two fill rules mean at the samples of a scanline, and that the
//! fillers, which go along the sorted active list from edge to edge, add
//! to each pixel the number of its samples that are inside.
//!
//! A pixel has eight samples on each of its eight subpixel scanlines. By
//! the alternate rule a sample is inside where the number of edges that
//! cross its scanline at or to the left of it is odd; by the winding rule,
//! where the winding directions of those edges do not cancel.

use vstd::prelude::*;
use crate::aacoverage::{coverage_at, overlap, CoverageSpan};
use crate::aafill::{
    alternate_cover, alternate_cover_from, winding_balanced, winding_before, winding_cover,
    winding_cover_from,
};
use crate::aarasterizer::EdgeModel;
use crate::activelist::{ascending, CEdgeTable};
use crate::inactive::CInactiveEdge;
use crate::scanline::{
    crosses, crossing_number, edge_on, edge_weight, entries_ok, entries_split, lemma_edge_on_frame,
    lemma_entry_begun, lemma_list_tally, list_tally, list_tracks, tally, winding_number,
};
use crate::types::{MilFillMode, INT};

verus! {

/// The sum of `f` over the eight samples of a pixel.
pub open spec fn sum8(f: spec_fn(int) -> int) -> int {
    f(0) + f(1) + f(2) + f(3) + f(4) + f(5) + f(6) + f(7)
}

/// 1 where the sample `x` is in the subpixel interval from `l` to `r`.
pub open spec fn between(l: int, r: int, x: int) -> int {
    if l <= x < r {
        1
    } else {
        0
    }
}

/// The sample `x` of scanline `y` is inside the path of `edges`.
pub open spec fn sample_inside(edges: Seq<EdgeModel>, mode: MilFillMode, y: int, x: int) -> bool {
    match mode {
        MilFillMode::Alternate => crossing_number(edges, y, x) % 2 == 1,
        MilFillMode::Winding => winding_number(edges, y, x) != 0,
    }
}

/// The number of samples of pixel `p` on scanline `y` that are inside the
/// path of `edges`.
pub open spec fn samples_inside(edges: Seq<EdgeModel>, mode: MilFillMode, y: int, p: int) -> int {
    sum8(
        |k: int|
            if sample_inside(edges, mode, y, 8 * p + k) {
                1int
            } else {
                0int
            },
    )
}

/// The number of samples of pixel `p` on the scanlines from `top` up to
/// `bottom` that are inside the path of `edges`.
pub open spec fn area_inside(
    edges: Seq<EdgeModel>,
    mode: MilFillMode,
    top: int,
    bottom: int,
    p: int,
) -> int
    decreases bottom - top,
{
    if bottom <= top {
        0
    } else {
        area_inside(edges, mode, top, bottom - 1, p) + samples_inside(edges, mode, bottom - 1, p)
    }
}

/// What an interval covers of a pixel is the number of the samples of the
/// pixel in it.
pub proof fn lemma_overlap_samples(l: int, r: int, p: int)
    ensures
        overlap(l, r, p) == sum8(|k: int| between(l, r, 8 * p + k)),
{
}

/// What the alternate rule says of the sample `x`, from the `i`-th edge of
/// the list on.
pub open spec fn alternate_sample_from(xs: Seq<int>, i: int, x: int) -> int
    decreases xs.len() - i,
{
    if i < 0 || i + 1 >= xs.len() {
        0
    } else {
        between(xs[i], xs[i + 1], x) + alternate_sample_from(xs, i + 2, x)
    }
}

/// What the winding rule says of the sample `x`, from the `i`-th edge of
/// the list on.
pub open spec fn winding_sample_from(xs: Seq<int>, ws: Seq<int>, i: int, x: int) -> int
    decreases xs.len() - i,
{
    if i < 0 || i + 1 >= xs.len() {
        0
    } else {
        (if winding_before(ws, i + 1) != 0 {
            between(xs[i], xs[i + 1], x)
        } else {
            0
        }) + winding_sample_from(xs, ws, i + 1, x)
    }
}

/// What the alternate rule adds to a pixel is what it says of the samples
/// of the pixel.
pub proof fn lemma_alternate_samples(xs: Seq<int>, i: int, p: int)
    requires
        0 <= i,
    ensures
        alternate_cover_from(xs, i, p) == sum8(|k: int| alternate_sample_from(xs, i, 8 * p + k)),
    decreases xs.len() - i,
{
    if i + 1 < xs.len() {
        lemma_alternate_samples(xs, i + 2, p);
        lemma_overlap_samples(xs[i], xs[i + 1], p);
    }
}

/// What the winding rule adds to a pixel is what it says of the samples of
/// the pixel.
pub proof fn lemma_winding_samples(xs: Seq<int>, ws: Seq<int>, i: int, p: int)
    requires
        0 <= i,
    ensures
        winding_cover_from(xs, ws, i, p) == sum8(
            |k: int| winding_sample_from(xs, ws, i, 8 * p + k),
        ),
    decreases xs.len() - i,
{
    if i + 1 < xs.len() {
        lemma_winding_samples(xs, ws, i + 1, p);
        lemma_overlap_samples(xs[i], xs[i + 1], p);
    }
}

/// Along a list in ascending order the edges at or to the left of a sample
/// are the first of the list: as many as their number says.
pub proof fn lemma_left_of_sample(xs: Seq<int>, ws: Seq<int>, n: int, x: int)
    requires
        ascending(xs),
        0 <= n <= xs.len(),
    ensures
        0 <= list_tally(xs, ws, n, x, false) <= n,
        forall|i: int| 0 <= i < list_tally(xs, ws, n, x, false) ==> #[trigger] xs[i] <= x,
        forall|i: int| list_tally(xs, ws, n, x, false) <= i < n ==> #[trigger] xs[i] > x,
        list_tally(xs, ws, n, x, true) == winding_before(ws, list_tally(xs, ws, n, x, false)),
    decreases n,
{
    if n > 0 {
        lemma_left_of_sample(xs, ws, n - 1, x);
        let c = list_tally(xs, ws, n - 1, x, false);
        if xs[n - 1] <= x {
            if c < n - 1 {
                assert(xs[c] > x);
                assert(xs[c] <= xs[n - 1]);
            }
        }
    }
}

/// The alternate rule, going along the list in pairs, says of a sample
/// that it is inside exactly where the number of edges at or to the left
/// of it is odd.
pub proof fn lemma_alternate_sample(xs: Seq<int>, i: int, x: int, c: int)
    requires
        xs.len() % 2 == 0,
        0 <= i <= xs.len(),
        i % 2 == 0,
        0 <= c <= xs.len(),
        forall|j: int| 0 <= j < c ==> #[trigger] xs[j] <= x,
        forall|j: int| c <= j < xs.len() ==> #[trigger] xs[j] > x,
    ensures
        alternate_sample_from(xs, i, x) == if i < c && c % 2 == 1 {
            1int
        } else {
            0int
        },
    decreases xs.len() - i,
{
    if i + 1 < xs.len() {
        lemma_alternate_sample(xs, i + 2, x, c);
        if xs[i] <= x < xs[i + 1] {
            assert(i < c);
            assert(c <= i + 1);
        }
        if i < c && c <= i + 1 {
            assert(xs[i] <= x);
            assert(xs[i + 1] > x);
        }
    }
}

/// The winding rule, going along the list from edge to edge, says of a
/// sample that it is inside exactly where the winding directions of the
/// edges at or to the left of it do not cancel.
pub proof fn lemma_winding_sample(xs: Seq<int>, ws: Seq<int>, i: int, x: int, c: int)
    requires
        xs.len() == ws.len(),
        0 <= i <= xs.len(),
        0 <= c <= xs.len(),
        forall|j: int| 0 <= j < c ==> #[trigger] xs[j] <= x,
        forall|j: int| c <= j < xs.len() ==> #[trigger] xs[j] > x,
    ensures
        winding_sample_from(xs, ws, i, x) == if i < c && c < xs.len() && winding_before(ws, c)
            != 0 {
            1int
        } else {
            0int
        },
    decreases xs.len() - i,
{
    if i + 1 < xs.len() {
        lemma_winding_sample(xs, ws, i + 1, x, c);
        if xs[i] <= x < xs[i + 1] {
            assert(i < c);
            assert(c <= i + 1);
        }
        if i < c && c <= i + 1 {
            assert(xs[i] <= x);
            assert(xs[i + 1] > x);
        }
    }
}


/// What one subpixel scanline adds to the coverage of pixel `p` by the
/// fill rule `mode`, `xs` being the x values and `ws` the winding
/// directions of the active edges.
pub open spec fn fill_cover(mode: MilFillMode, xs: Seq<int>, ws: Seq<int>, p: int) -> int {
    match mode {
        MilFillMode::Alternate => alternate_cover(xs, p),
        MilFillMode::Winding => winding_cover(xs, ws, p),
    }
}

/// The coverage `s` is the coverage `s0` and what one subpixel scanline
/// adds by the fill rule `mode`.
pub open spec fn scanline_added(
    s: Seq<CoverageSpan>,
    s0: Seq<CoverageSpan>,
    mode: MilFillMode,
    xs: Seq<int>,
    ws: Seq<int>,
) -> bool {
    forall|p: int|
        INT::MIN <= p < INT::MAX ==> #[trigger] coverage_at(s, p) == coverage_at(s0, p)
            + fill_cover(mode, xs, ws, p)
}

/// The coverage of every pixel is the number of its samples, on the
/// scanlines from `top` up to `bottom`, that are inside the path of
/// `edges`.
pub open spec fn row_sampled(
    s: Seq<CoverageSpan>,
    edges: Seq<EdgeModel>,
    mode: MilFillMode,
    top: int,
    bottom: int,
) -> bool {
    forall|p: int|
        INT::MIN <= p < INT::MAX ==> #[trigger] coverage_at(s, p) == area_inside(
            edges,
            mode,
            top,
            bottom,
            p,
        )
}

/// What the rule says of a sample, going along the active list, is whether
/// the sample is inside the path.
pub proof fn lemma_list_sample(
    table: &CEdgeTable,
    origin: Seq<EdgeModel>,
    mode: MilFillMode,
    y: int,
    x: int,
)
    requires
        table.wf(),
        table.x_ordered(),
        table.active_at(y),
        list_tracks(table, origin, y, y),
        mode == MilFillMode::Alternate ==> table.even(),
        mode == MilFillMode::Winding ==> winding_balanced(table.active_windings()),
    ensures
        (match mode {
            MilFillMode::Alternate => alternate_sample_from(table.active_xs(), 0, x),
            MilFillMode::Winding => winding_sample_from(
                table.active_xs(),
                table.active_windings(),
                0,
                x,
            ),
        }) == if sample_inside(origin, mode, y, x) {
            1int
        } else {
            0int
        },
{
    let xs = table.active_xs();
    let ws = table.active_windings();
    let n = table.active_len();
    crate::aafill::lemma_active_xs(table, y);
    lemma_left_of_sample(xs, ws, n, x);
    let c = list_tally(xs, ws, n, x, false);
    lemma_list_tally(table, origin, y, x, false);
    lemma_list_tally(table, origin, y, x, true);
    match mode {
        MilFillMode::Alternate => {
            lemma_alternate_sample(xs, 0, x, c);
        },
        MilFillMode::Winding => {
            lemma_winding_sample(xs, ws, 0, x, c);
        },
    }
}

/// What the rule adds to a pixel on a scanline, going along the active
/// list, is the number of samples of the pixel that are inside the path.
pub proof fn lemma_fill_samples(
    table: &CEdgeTable,
    origin: Seq<EdgeModel>,
    mode: MilFillMode,
    y: int,
    p: int,
)
    requires
        table.wf(),
        table.x_ordered(),
        table.active_at(y),
        list_tracks(table, origin, y, y),
        mode == MilFillMode::Alternate ==> table.even(),
        mode == MilFillMode::Winding ==> winding_balanced(table.active_windings()),
    ensures
        fill_cover(mode, table.active_xs(), table.active_windings(), p) == samples_inside(
            origin,
            mode,
            y,
            p,
        ),
{
    let xs = table.active_xs();
    let ws = table.active_windings();
    lemma_list_sample(table, origin, mode, y, 8 * p + 0);
    lemma_list_sample(table, origin, mode, y, 8 * p + 1);
    lemma_list_sample(table, origin, mode, y, 8 * p + 2);
    lemma_list_sample(table, origin, mode, y, 8 * p + 3);
    lemma_list_sample(table, origin, mode, y, 8 * p + 4);
    lemma_list_sample(table, origin, mode, y, 8 * p + 5);
    lemma_list_sample(table, origin, mode, y, 8 * p + 6);
    lemma_list_sample(table, origin, mode, y, 8 * p + 7);
    match mode {
        MilFillMode::Alternate => {
            lemma_alternate_samples(xs, 0, p);
        },
        MilFillMode::Winding => {
            lemma_winding_samples(xs, ws, 0, p);
        },
    }
}

/// No sample is inside on a scanline that no edge crosses.
pub proof fn lemma_no_crossing(edges: Seq<EdgeModel>, n: int, y: int, x: int, winding: bool)
    requires
        0 <= n <= edges.len(),
        forall|k: int| 0 <= k < edges.len() ==> !#[trigger] crosses(edges[k], y),
    ensures
        tally(edges, n, y, x, winding) == 0,
    decreases n,
{
    if n > 0 {
        lemma_no_crossing(edges, n - 1, y, x, winding);
        assert(!crosses(edges[n - 1], y));
    }
}

/// No sample is inside on scanlines that no edge crosses.
pub proof fn lemma_area_empty(edges: Seq<EdgeModel>, mode: MilFillMode, top: int, bottom: int, p: int)
    requires
        forall|k: int, y: int|
            0 <= k < edges.len() && top <= y < bottom ==> !#[trigger] crosses(edges[k], y),
    ensures
        area_inside(edges, mode, top, bottom, p) == 0,
    decreases bottom - top,
{
    if bottom > top {
        lemma_area_empty(edges, mode, top, bottom - 1, p);
        let y = bottom - 1;
        let n = edges.len() as int;
        lemma_no_crossing(edges, n, y, 8 * p + 0, false);
        lemma_no_crossing(edges, n, y, 8 * p + 1, false);
        lemma_no_crossing(edges, n, y, 8 * p + 2, false);
        lemma_no_crossing(edges, n, y, 8 * p + 3, false);
        lemma_no_crossing(edges, n, y, 8 * p + 4, false);
        lemma_no_crossing(edges, n, y, 8 * p + 5, false);
        lemma_no_crossing(edges, n, y, 8 * p + 6, false);
        lemma_no_crossing(edges, n, y, 8 * p + 7, false);
        lemma_no_crossing(edges, n, y, 8 * p + 0, true);
        lemma_no_crossing(edges, n, y, 8 * p + 1, true);
        lemma_no_crossing(edges, n, y, 8 * p + 2, true);
        lemma_no_crossing(edges, n, y, 8 * p + 3, true);
        lemma_no_crossing(edges, n, y, 8 * p + 4, true);
        lemma_no_crossing(edges, n, y, 8 * p + 5, true);
        lemma_no_crossing(edges, n, y, 8 * p + 6, true);
        lemma_no_crossing(edges, n, y, 8 * p + 7, true);
    }
}


/// Edges that weigh the same on two scanlines add up to the same.
pub proof fn lemma_tally_same(edges: Seq<EdgeModel>, n: int, y1: int, y2: int, x: int, winding: bool)
    requires
        0 <= n <= edges.len(),
        forall|k: int|
            0 <= k < edges.len() ==> #[trigger] edge_weight(edges[k], y1, x, winding)
                == edge_weight(edges[k], y2, x, winding),
    ensures
        tally(edges, n, y1, x, winding) == tally(edges, n, y2, x, winding),
    decreases n,
{
    if n > 0 {
        lemma_tally_same(edges, n - 1, y1, y2, x, winding);
        assert(edge_weight(edges[n - 1], y1, x, winding) == edge_weight(edges[n - 1], y2, x, winding));
    }
}

/// Two edges without a scanline in front of the others weigh nothing.
pub proof fn lemma_tally_behind(path: Seq<EdgeModel>, n: int, y: int, x: int, winding: bool)
    requires
        0 <= n <= path.len(),
    ensures
        tally(
            seq![crate::scanline::no_edge(), crate::scanline::no_edge()] + path,
            n + 2,
            y,
            x,
            winding,
        ) == tally(path, n, y, x, winding),
    decreases n,
{
    let all = seq![crate::scanline::no_edge(), crate::scanline::no_edge()] + path;
    if n > 0 {
        lemma_tally_behind(path, n - 1, y, x, winding);
        assert(all[n + 1] == path[n - 1]);
    } else {
        assert(tally(all, 0, y, x, winding) == 0);
        assert(tally(all, 1, y, x, winding) == tally(all, 0, y, x, winding) + edge_weight(
            all[0],
            y,
            x,
            winding,
        ));
        assert(tally(all, 2, y, x, winding) == tally(all, 1, y, x, winding) + edge_weight(
            all[1],
            y,
            x,
            winding,
        ));
    }
}

/// The samples that are inside the path `a` by the rule `ma` are those
/// that are inside the path `b` by the rule `mb`.
pub open spec fn same_inside(
    a: Seq<EdgeModel>,
    ma: MilFillMode,
    b: Seq<EdgeModel>,
    mb: MilFillMode,
) -> bool {
    forall|y: int, x: int| #[trigger] sample_inside(a, ma, y, x) == sample_inside(b, mb, y, x)
}

/// Two edges without a scanline in front of a path leave every sample as
/// it is.
pub proof fn lemma_inside_behind(path: Seq<EdgeModel>, mode: MilFillMode)
    ensures
        same_inside(
            seq![crate::scanline::no_edge(), crate::scanline::no_edge()] + path,
            mode,
            path,
            mode,
        ),
{
    let all = seq![crate::scanline::no_edge(), crate::scanline::no_edge()] + path;
    assert forall|y: int, x: int| #[trigger] sample_inside(all, mode, y, x) == sample_inside(
        path,
        mode,
        y,
        x,
    ) by {
        lemma_tally_behind(path, path.len() as int, y, x, false);
        lemma_tally_behind(path, path.len() as int, y, x, true);
    }
}

/// Paths with the same samples inside have the same areas inside.
pub proof fn lemma_area_same(
    a: Seq<EdgeModel>,
    ma: MilFillMode,
    b: Seq<EdgeModel>,
    mb: MilFillMode,
    top: int,
    bottom: int,
    p: int,
)
    requires
        same_inside(a, ma, b, mb),
    ensures
        area_inside(a, ma, top, bottom, p) == area_inside(b, mb, top, bottom, p),
    decreases bottom - top,
{
    if bottom > top {
        lemma_area_same(a, ma, b, mb, top, bottom - 1, p);
        let y = bottom - 1;
        assert(sample_inside(a, ma, y, 8 * p + 0) == sample_inside(b, mb, y, 8 * p + 0));
        assert(sample_inside(a, ma, y, 8 * p + 1) == sample_inside(b, mb, y, 8 * p + 1));
        assert(sample_inside(a, ma, y, 8 * p + 2) == sample_inside(b, mb, y, 8 * p + 2));
        assert(sample_inside(a, ma, y, 8 * p + 3) == sample_inside(b, mb, y, 8 * p + 3));
        assert(sample_inside(a, ma, y, 8 * p + 4) == sample_inside(b, mb, y, 8 * p + 4));
        assert(sample_inside(a, ma, y, 8 * p + 5) == sample_inside(b, mb, y, 8 * p + 5));
        assert(sample_inside(a, ma, y, 8 * p + 6) == sample_inside(b, mb, y, 8 * p + 6));
        assert(sample_inside(a, ma, y, 8 * p + 7) == sample_inside(b, mb, y, 8 * p + 7));
    }
}


/// Every winding direction is `+1` or `-1`.
pub open spec fn unit_windings(edges: Seq<EdgeModel>) -> bool {
    forall|i: int| 0 <= i < edges.len() ==> (#[trigger] edges[i]).winding == 1 || edges[i].winding == -1
}

/// The number of crossings to the left of a sample is even exactly where
/// the winding number there is.
pub proof fn lemma_tally_parity(edges: Seq<EdgeModel>, n: int, y: int, x: int)
    requires
        unit_windings(edges),
        0 <= n <= edges.len(),
    ensures
        0 <= tally(edges, n, y, x, false),
        (tally(edges, n, y, x, false) - tally(edges, n, y, x, true)) % 2 == 0,
    decreases n,
{
    if n > 0 {
        lemma_tally_parity(edges, n - 1, y, x);
        assert(edges[n - 1].winding == 1 || edges[n - 1].winding == -1);
    }
}

/// No sample of the path has a winding number beyond `+1` or `-1`: nothing
/// is gone around twice.
pub open spec fn wound_once(edges: Seq<EdgeModel>) -> bool {
    forall|y: int, x: int| -1 <= #[trigger] winding_number(edges, y, x) <= 1
}

/// Where nothing is gone around twice, the winding rule and the alternate
/// rule have the same samples inside.
pub proof fn lemma_rules_agree(edges: Seq<EdgeModel>)
    requires
        unit_windings(edges),
        wound_once(edges),
    ensures
        same_inside(edges, MilFillMode::Winding, edges, MilFillMode::Alternate),
{
    assert forall|y: int, x: int| #[trigger] sample_inside(edges, MilFillMode::Winding, y, x)
        == sample_inside(edges, MilFillMode::Alternate, y, x) by {
        lemma_tally_parity(edges, edges.len() as int, y, x);
        assert(-1 <= winding_number(edges, y, x) <= 1);
    }
}

} // verus!
