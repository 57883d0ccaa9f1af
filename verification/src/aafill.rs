//! The scanline fillers: given the active edge list of a subpixel scanline,
//! add what lies inside the path, by the alternate or by the winding rule,
//! to the coverage buffer.

use vstd::prelude::*;
use crate::aacoverage::{
    coverage_at, interval_added, lemma_overlap_joined, overlap, spans_ok, CCoverageBuffer,
    CoverageSpan, E_OUTOFMEMORY,
};
use crate::aarasterizer::{c_nShiftSizeSquared, edge_wf_at, EDGE_X_BOUND};
use crate::cuts::{
    cut_at, cuts_are, interval_cut, interval_cut_set, interval_cuts_added, lemma_cuts_add,
    lemma_cuts_are, lemma_cuts_none, lemma_list_determined, lemma_same_cuts_are,
};
use crate::activelist::{ascending, lemma_edge_x_bounded, lemma_real_edge, CEdgeTable};
use crate::inactive::TAIL_EDGE;
use crate::types::{HRESULT, INT, S_OK};

verus! {

/// What the alternate rule adds to pixel `p` from the `i`-th edge on: the
/// edges are taken in pairs, and what lies between the two edges of a pair
/// is inside.
pub open spec fn alternate_cover_from(xs: Seq<int>, i: int, p: int) -> int
    decreases xs.len() - i,
{
    if i < 0 || i + 1 >= xs.len() {
        0
    } else {
        overlap(xs[i], xs[i + 1], p) + alternate_cover_from(xs, i + 2, p)
    }
}

/// Where the run of the alternate rule ends that has come to the `e`-th
/// edge: at that edge, or, where the pair behind it is empty and begins in
/// the same place, where the run ends that goes on over that pair.
pub open spec fn alternate_run_end(xs: Seq<int>, e: int) -> int
    decreases xs.len() - e,
{
    if 0 <= e && e + 2 < xs.len() && xs[e] == xs[e + 1] {
        alternate_run_end(xs, e + 2)
    } else {
        e
    }
}

/// The alternate rule cuts the list at the pixel `x`, from the `i`-th edge
/// on: it adds one interval for every run of pairs, from the first edge of
/// a pair that is not empty to the end of the run, and the list is cut
/// where each of these intervals cuts it.
pub open spec fn alternate_cut_from(xs: Seq<int>, i: int, x: int) -> bool
    decreases xs.len() - i,
{
    if i < 0 || i + 1 >= xs.len() {
        false
    } else if xs[i] == xs[i + 1] {
        alternate_cut_from(xs, i + 2, x)
    } else {
        let e = alternate_run_end(xs, i + 1);
        interval_cut(xs[i], xs[e], x) || if i < e < xs.len() {
            alternate_cut_from(xs, e + 1, x)
        } else {
            false
        }
    }
}

/// The pixels at which the list is cut are `added` and those at which the
/// alternate rule cuts it from the `i`-th edge on.
pub open spec fn alternate_cuts_split(xs: Seq<int>, added: Set<int>, i: int) -> bool {
    forall|x: int| #[trigger] alternate_cut_so_far(xs, added, i, x) == alternate_cut_from(xs, 0, x)
}

/// The list is cut at the pixel `x` by what was added, or will be by what
/// the alternate rule adds from the `i`-th edge on.
pub open spec fn alternate_cut_so_far(xs: Seq<int>, added: Set<int>, i: int, x: int) -> bool {
    added.contains(x) || alternate_cut_from(xs, i, x)
}

/// One run of pairs further: the interval of the run is added, or nothing
/// where the pair is empty.
pub proof fn lemma_alternate_cuts_step(xs: Seq<int>, before: Set<int>, i: int, e: int)
    requires
        alternate_cuts_split(xs, before, i),
        0 <= i,
        i + 1 < xs.len(),
        xs[i] == xs[i + 1] ==> e == i + 1,
        xs[i] != xs[i + 1] ==> e == alternate_run_end(xs, i + 1) && i < e < xs.len(),
    ensures
        alternate_cuts_split(
            xs,
            if xs[i] == xs[i + 1] {
                before
            } else {
                before.union(interval_cut_set(xs[i], xs[e]))
            },
            e + 1,
        ),
{
    let after = if xs[i] == xs[i + 1] {
        before
    } else {
        before.union(interval_cut_set(xs[i], xs[e]))
    };
    assert forall|x: int| #[trigger]
        alternate_cut_so_far(xs, after, e + 1, x) == alternate_cut_from(xs, 0, x) by {
        assert(alternate_cut_so_far(xs, before, i, x) == alternate_cut_from(xs, 0, x));
    }
}

/// The pixels at which the alternate rule cuts the list.
pub open spec fn alternate_cuts(xs: Seq<int>) -> Set<int> {
    Set::new(|x: int| alternate_cut_from(xs, 0, x))
}

/// What one subpixel scanline adds to the coverage of pixel `p` by the
/// alternate (even-odd) rule, `xs` being the x values of the active edges.
pub open spec fn alternate_cover(xs: Seq<int>, p: int) -> int {
    alternate_cover_from(xs, 0, p)
}

/// The winding number to the left of the `k`-th edge: the sum of the
/// winding directions of the edges before it.
pub open spec fn winding_before(ws: Seq<int>, k: int) -> int
    decreases k,
{
    if k <= 0 {
        0
    } else {
        winding_before(ws, k - 1) + ws[k - 1]
    }
}

/// What the winding rule adds to pixel `p` from the `i`-th edge on: what
/// lies between one edge and the next is inside where the winding number
/// there is not zero.
pub open spec fn winding_cover_from(xs: Seq<int>, ws: Seq<int>, i: int, p: int) -> int
    decreases xs.len() - i,
{
    if i < 0 || i + 1 >= xs.len() {
        0
    } else {
        (if winding_before(ws, i + 1) != 0 {
            overlap(xs[i], xs[i + 1], p)
        } else {
            0
        }) + winding_cover_from(xs, ws, i + 1, p)
    }
}

/// The first edge, from the `e`-th on, behind which the winding number is
/// zero.
pub open spec fn winding_end_from(ws: Seq<int>, e: int) -> int
    decreases ws.len() - e,
{
    if 0 <= e && e + 1 < ws.len() && winding_before(ws, e + 1) != 0 {
        winding_end_from(ws, e + 1)
    } else {
        e
    }
}

/// Where the run of the winding rule ends that has come to the `e`-th
/// edge, behind which the winding number is zero: at that edge, or, where
/// the next edge stands in the same place, where the run ends that goes on
/// with that edge.
pub open spec fn winding_merged_end(xs: Seq<int>, ws: Seq<int>, e: int) -> int
    decreases xs.len() - e,
{
    if 0 <= e && e + 1 < xs.len() && xs[e] == xs[e + 1] {
        let next = winding_end_from(ws, e + 1);
        if e < next < xs.len() {
            winding_merged_end(xs, ws, next)
        } else {
            e
        }
    } else {
        e
    }
}

/// The winding rule cuts the list at the pixel `x`, from the `i`-th edge
/// on: it adds one interval for every run, from the edge at which the
/// winding number leaves zero to the end of the run, and the list is cut
/// where each of these intervals cuts it. A run without width adds none.
pub open spec fn winding_cut_from(xs: Seq<int>, ws: Seq<int>, i: int, x: int) -> bool
    decreases xs.len() - i,
{
    if i < 0 || i + 1 >= xs.len() {
        false
    } else {
        let first = winding_end_from(ws, i);
        if !(i < first < xs.len()) {
            false
        } else if xs[i] == xs[first] {
            winding_cut_from(xs, ws, first + 1, x)
        } else {
            let e = winding_merged_end(xs, ws, first);
            interval_cut(xs[i], xs[e], x) || if i < e < xs.len() {
                winding_cut_from(xs, ws, e + 1, x)
            } else {
                false
            }
        }
    }
}

/// The pixels at which the winding rule cuts the list.
pub open spec fn winding_cuts(xs: Seq<int>, ws: Seq<int>) -> Set<int> {
    Set::new(|x: int| winding_cut_from(xs, ws, 0, x))
}

/// The list is cut at the pixel `x` by what was added, or will be by what
/// the winding rule adds from the `i`-th edge on.
pub open spec fn winding_cut_so_far(xs: Seq<int>, ws: Seq<int>, added: Set<int>, i: int, x: int) -> bool {
    added.contains(x) || winding_cut_from(xs, ws, i, x)
}

/// The pixels at which the list is cut are `added` and those at which the
/// winding rule cuts it from the `i`-th edge on.
pub open spec fn winding_cuts_split(xs: Seq<int>, ws: Seq<int>, added: Set<int>, i: int) -> bool {
    forall|x: int| #[trigger]
        winding_cut_so_far(xs, ws, added, i, x) == winding_cut_from(xs, ws, 0, x)
}

/// The edge behind which the winding number comes back to zero for the
/// first time is where [`winding_end_from`] ends.
pub proof fn lemma_winding_end(ws: Seq<int>, i: int, e: int)
    requires
        0 <= i <= e < ws.len(),
        winding_before(ws, e + 1) == 0,
        forall|k: int| i < k <= e ==> #[trigger] winding_before(ws, k) != 0,
    ensures
        winding_end_from(ws, i) == e,
    decreases e - i,
{
    if i < e {
        assert(winding_before(ws, i + 1) != 0);
        lemma_winding_end(ws, i + 1, e);
    }
}

/// One run further: the interval of the run is added, or nothing where the
/// run has no width.
pub proof fn lemma_winding_cuts_step(
    xs: Seq<int>,
    ws: Seq<int>,
    before: Set<int>,
    i: int,
    first: int,
    e: int,
)
    requires
        winding_cuts_split(xs, ws, before, i),
        0 <= i,
        i + 1 < xs.len(),
        first == winding_end_from(ws, i),
        i < first < xs.len(),
        xs[i] == xs[first] ==> e == first,
        xs[i] != xs[first] ==> e == winding_merged_end(xs, ws, first) && i < e < xs.len(),
    ensures
        winding_cuts_split(
            xs,
            ws,
            if xs[i] == xs[first] {
                before
            } else {
                before.union(interval_cut_set(xs[i], xs[e]))
            },
            e + 1,
        ),
{
    let after = if xs[i] == xs[first] {
        before
    } else {
        before.union(interval_cut_set(xs[i], xs[e]))
    };
    assert forall|x: int| #[trigger]
        winding_cut_so_far(xs, ws, after, e + 1, x) == winding_cut_from(xs, ws, 0, x) by {
        assert(winding_cut_so_far(xs, ws, before, i, x) == winding_cut_from(xs, ws, 0, x));
    }
}

/// What one subpixel scanline adds to the coverage of pixel `p` by the
/// winding (non-zero) rule, `xs` being the x values and `ws` the winding
/// directions of the active edges.
pub open spec fn winding_cover(xs: Seq<int>, ws: Seq<int>, p: int) -> int {
    winding_cover_from(xs, ws, 0, p)
}

/// The winding directions cancel: to the right of the last edge the winding
/// number is zero again.
pub open spec fn winding_balanced(ws: Seq<int>) -> bool {
    winding_before(ws, ws.len() as int) == 0
}

/// Every winding direction is `+1` or `-1`.
pub open spec fn windings_unit(ws: Seq<int>) -> bool {
    forall|k: int| 0 <= k < ws.len() ==> #[trigger] ws[k] == 1 || ws[k] == -1
}

/// Two intervals, one to the left of the other, cover no more of a pixel
/// than the interval that spans both; and no interval covers more than 8.
pub proof fn lemma_overlap_apart(a: int, b: int, c: int, d: int, p: int)
    requires
        a <= b <= c <= d,
    ensures
        overlap(a, b, p) + overlap(c, d, p) <= overlap(a, d, p),
        0 <= overlap(a, d, p) <= 8,
{
}

/// The coverage `s` is the coverage `s0` and what the alternate rule adds
/// up to the `i`-th edge.
pub open spec fn alternate_filled(
    s: Seq<CoverageSpan>,
    s0: Seq<CoverageSpan>,
    xs: Seq<int>,
    i: int,
) -> bool {
    forall|p: int|
        INT::MIN <= p < INT::MAX ==> #[trigger] coverage_at(s, p) + alternate_cover_from(xs, i, p)
            == coverage_at(s0, p) + alternate_cover_from(xs, 0, p)
}

/// The coverage `s` is the coverage `s0` and what the winding rule adds up
/// to the `i`-th edge.
pub open spec fn winding_filled(
    s: Seq<CoverageSpan>,
    s0: Seq<CoverageSpan>,
    xs: Seq<int>,
    ws: Seq<int>,
    i: int,
) -> bool {
    forall|p: int|
        INT::MIN <= p < INT::MAX ==> #[trigger] coverage_at(s, p) + winding_cover_from(xs, ws, i, p)
            == coverage_at(s0, p) + winding_cover_from(xs, ws, 0, p)
}

/// The coverage `s` exceeds the coverage `s0` by no more than the interval
/// from `lo` to `frontier` covers.
pub open spec fn filled_below(s: Seq<CoverageSpan>, s0: Seq<CoverageSpan>, lo: int, frontier: int) -> bool {
    forall|p: int|
        INT::MIN <= p < INT::MAX ==> #[trigger] coverage_at(s, p) <= coverage_at(s0, p) + overlap(
            lo,
            frontier,
            p,
        )
}

/// The alternate rule adds at most 8 subpixels to a pixel per scanline, and
/// never takes any away.
pub proof fn lemma_alternate_bounded(xs: Seq<int>, i: int, p: int)
    requires
        ascending(xs),
        0 <= i,
    ensures
        0 <= alternate_cover_from(xs, i, p),
        i + 1 < xs.len() ==> alternate_cover_from(xs, i, p) <= overlap(
            xs[i],
            xs[xs.len() - 1],
            p,
        ),
        alternate_cover_from(xs, i, p) <= 8,
    decreases xs.len() - i,
{
    if i + 1 < xs.len() {
        lemma_alternate_bounded(xs, i + 2, p);
        if i + 3 < xs.len() {
            lemma_overlap_apart(xs[i], xs[i + 1], xs[i + 2], xs[xs.len() - 1], p);
        } else {
            lemma_overlap_apart(xs[i], xs[i + 1], xs[xs.len() - 1], xs[xs.len() - 1], p);
        }
    }
}

/// The winding rule adds at most 8 subpixels to a pixel per scanline, and
/// never takes any away.
pub proof fn lemma_winding_bounded(xs: Seq<int>, ws: Seq<int>, i: int, p: int)
    requires
        ascending(xs),
        0 <= i,
    ensures
        0 <= winding_cover_from(xs, ws, i, p),
        i + 1 < xs.len() ==> winding_cover_from(xs, ws, i, p) <= overlap(
            xs[i],
            xs[xs.len() - 1],
            p,
        ),
        winding_cover_from(xs, ws, i, p) <= 8,
    decreases xs.len() - i,
{
    if i + 1 < xs.len() {
        lemma_winding_bounded(xs, ws, i + 1, p);
        if i + 2 < xs.len() {
            lemma_overlap_apart(xs[i], xs[i + 1], xs[i + 1], xs[xs.len() - 1], p);
        } else {
            lemma_overlap_apart(xs[i], xs[i + 1], xs[xs.len() - 1], xs[xs.len() - 1], p);
        }
    }
}

/// On an active list whose winding number is non-zero exactly between the
/// two edges of each pair, as it is where no two shapes of the path
/// overlap and each is traversed once, the winding rule and the alternate
/// rule add the same coverage.
pub proof fn lemma_winding_is_alternate(xs: Seq<int>, ws: Seq<int>, p: int)
    requires
        xs.len() == ws.len(),
        xs.len() % 2 == 0,
        forall|k: int|
            0 <= k < xs.len() ==> ((#[trigger] winding_before(ws, k + 1)) != 0 <==> k % 2 == 0),
    ensures
        winding_cover(xs, ws, p) == alternate_cover(xs, p),
{
    lemma_winding_is_alternate_from(xs, ws, 0, p);
}

proof fn lemma_winding_is_alternate_from(xs: Seq<int>, ws: Seq<int>, i: int, p: int)
    requires
        xs.len() == ws.len(),
        xs.len() % 2 == 0,
        0 <= i <= xs.len(),
        i % 2 == 0,
        forall|k: int|
            0 <= k < xs.len() ==> ((#[trigger] winding_before(ws, k + 1)) != 0 <==> k % 2 == 0),
    ensures
        winding_cover_from(xs, ws, i, p) == alternate_cover_from(xs, i, p),
    decreases xs.len() - i,
{
    if i + 1 < xs.len() {
        lemma_winding_is_alternate_from(xs, ws, i + 2, p);
        assert(winding_before(ws, i + 1) != 0);
        assert(winding_before(ws, i + 1 + 1) == 0);
        assert(winding_cover_from(xs, ws, i + 1, p) == winding_cover_from(xs, ws, i + 2, p)) by {
            if i + 2 < xs.len() {
            }
        }
    }
}


/// Pairs of edges that follow one another without a gap count as one: what
/// the alternate rule adds from the `i`-th edge on is what lies between
/// that edge and the `e`-th, and what it adds from the edge behind that.
pub proof fn lemma_alternate_merge(xs: Seq<int>, i: int, e: int, p: int)
    requires
        ascending(xs),
        0 <= i < e < xs.len(),
        (e - i) % 2 == 1,
        forall|k: int| i < k < e && (k - i) % 2 == 1 ==> #[trigger] xs[k] == xs[k + 1],
    ensures
        alternate_cover_from(xs, i, p) == overlap(xs[i], xs[e], p) + alternate_cover_from(
            xs,
            e + 1,
            p,
        ),
    decreases e - i,
{
    if e == i + 1 {
    } else {
        assert(xs[i + 1] == xs[i + 1 + 1]);
        lemma_alternate_merge(xs, i + 2, e, p);
        assert(xs[i + 2] <= xs[e]);
        lemma_overlap_joined(xs[i], xs[i + 1], xs[e], p);
    }
}

/// From an edge `i` with the winding number zero to its left, up to the
/// first edge `e` with the winding number zero to its right, everything is
/// inside.
pub proof fn lemma_winding_run(xs: Seq<int>, ws: Seq<int>, i: int, e: int, p: int)
    requires
        ascending(xs),
        0 <= i <= e < xs.len(),
        forall|k: int| i < k <= e ==> #[trigger] winding_before(ws, k) != 0,
        winding_before(ws, e + 1) == 0,
    ensures
        winding_cover_from(xs, ws, i, p) == overlap(xs[i], xs[e], p) + winding_cover_from(
            xs,
            ws,
            e + 1,
            p,
        ),
    decreases e - i,
{
    if e == i {
        if i + 1 < xs.len() {
        }
    } else {
        assert(winding_before(ws, i + 1) != 0);
        lemma_winding_run(xs, ws, i + 1, e, p);
        assert(xs[i + 1] <= xs[e]);
        lemma_overlap_joined(xs[i], xs[i + 1], xs[e], p);
    }
}

/// The x values along a list in ascending order, the sentinels left out,
/// are in ascending order and within the room that edges are given.
pub proof fn lemma_active_xs(list: &CEdgeTable, y: int)
    requires
        list.wf(),
        list.x_ordered(),
        list.active_at(y),
    ensures
        ascending(list.active_xs()),
        list.active_xs().len() == list.active_len(),
        list.active_windings().len() == list.active_len(),
        forall|i: int|
            0 <= i < list.active_len() ==> -EDGE_X_BOUND <= (#[trigger] list.active_xs()[i])
                <= EDGE_X_BOUND,
        forall|i: int|
            0 <= i < list.active_len() ==> list.active_xs()[i] == list.active_edge(i).X
                && list.active_windings()[i] == list.active_edge(i).WindingDirection,
        windings_unit(list.active_windings()),
{
    let xs = list.active_xs();
    assert forall|i: int, j: int| 0 <= i <= j < xs.len() implies #[trigger] xs[i]
        <= #[trigger] xs[j] by {
        assert(list.xs()[i + 1] <= list.xs()[j + 1]);
    }
    assert forall|i: int| 0 <= i < list.active_len() implies -EDGE_X_BOUND <= (#[trigger] xs[i])
        <= EDGE_X_BOUND by {
        assert(list.order@[i + 1] >= 2);
        lemma_edge_x_bounded(list.active_edge(i).model(), y);
    }
    assert forall|k: int| 0 <= k < list.active_windings().len() implies #[trigger] list.active_windings()[k]
        == 1 || list.active_windings()[k] == -1 by {
        assert(list.order@[k + 1] >= 2);
        assert(edge_wf_at(list.active_edge(k).model(), y));
    }
}

/// `s0` leaves room for one more subpixel scanline: no pixel has more than
/// 56 subpixels, or less than none.
pub open spec fn row_free(s0: Seq<CoverageSpan>) -> bool {
    forall|p: int|
        INT::MIN <= p < INT::MAX ==> 0 <= #[trigger] coverage_at(s0, p) <= c_nShiftSizeSquared - 8
}

impl<'a> CCoverageBuffer<'a> {
    /// Adds the interval from `left` to `right`, which lies to the right of
    /// all that was added to `s0` before, and is what the rule adds from
    /// the `i`-th edge up to the `e`-th.
    fn AddRun(
        &mut self,
        left: INT,
        right: INT,
        Ghost(s0): Ghost<Seq<CoverageSpan>>,
        Ghost(lo): Ghost<int>,
        Ghost(frontier): Ghost<int>,
    ) -> (hr: HRESULT)
        requires
            old(self).wf(),
            row_free(s0),
            filled_below(old(self).spans(), s0, lo, frontier),
            lo <= frontier <= left < right,
        ensures
            final(self).wf(),
            hr == S_OK || hr == E_OUTOFMEMORY,
            hr != S_OK ==> final(self).exhausted() && final(self).spans() == old(self).spans(),
            hr == S_OK ==> interval_added(
                final(self).spans(),
                old(self).spans(),
                left as int,
                right as int,
            ) && filled_below(final(self).spans(), s0, lo, right as int),
            hr == S_OK ==> interval_cuts_added(
                final(self).spans(),
                old(self).spans(),
                left as int,
                right as int,
            ),
            final(self).spans().len() <= old(self).spans().len() + 4,
    {
        let ghost s1 = self.spans();
        proof {
            assert forall|p: int| INT::MIN <= p < INT::MAX implies #[trigger] coverage_at(s1, p)
                + overlap(left as int, right as int, p) <= c_nShiftSizeSquared by {
                lemma_overlap_apart(lo, frontier, left as int, right as int, p);
                assert(coverage_at(s0, p) <= c_nShiftSizeSquared - 8);
            }
        }
        let hr = self.AddInterval(left, right);
        proof {
            if hr == S_OK {
                let s2 = self.spans();
                assert forall|p: int| INT::MIN <= p < INT::MAX implies #[trigger] coverage_at(s2, p)
                    <= coverage_at(s0, p) + overlap(lo, right as int, p) by {
                    lemma_overlap_apart(lo, frontier, left as int, right as int, p);
                    assert(coverage_at(s1, p) <= coverage_at(s0, p) + overlap(lo, frontier, p));
                }
            }
        }
        hr
    }

    /// Given the active edge list for the current scan, do an alternate-mode
    /// antialiased fill: every pixel gains what lies, on this subpixel
    /// scanline, between the two edges of a pair.
    ///
    /// No pixel may hold more than 56 subpixels before. Fails with
    /// `E_OUTOFMEMORY` where the pool of intervals is exhausted.
    #[verifier::rlimit(60)]
    pub fn FillEdgesAlternating(&mut self, pEdgeActiveList: &CEdgeTable, nSubpixelYCurrent: INT) -> (hr:
        HRESULT)
        requires
            old(self).wf(),
            pEdgeActiveList.active_list_ok(nSubpixelYCurrent as int),
            row_free(old(self).spans()),
        ensures
            final(self).wf(),
            hr == S_OK || hr == E_OUTOFMEMORY,
            hr != S_OK ==> final(self).exhausted(),
            hr == S_OK ==> alternate_filled(
                final(self).spans(),
                old(self).spans(),
                pEdgeActiveList.active_xs(),
                pEdgeActiveList.active_len(),
            ),
            hr == S_OK ==> cuts_are(
                final(self).spans(),
                old(self).spans(),
                alternate_cuts(pEdgeActiveList.active_xs()),
            ),
            final(self).spans().len() <= old(self).spans().len() + 2 * pEdgeActiveList.active_len(),
    {
        let ghost xs = pEdgeActiveList.active_xs();
        let ghost n = pEdgeActiveList.active_len();
        let ghost y = nSubpixelYCurrent as int;
        let ghost s0 = self.spans();
        let ghost lo: int = if n > 0 {
            xs[0]
        } else {
            0
        };
        let ghost mut frontier: int = lo;
        let ghost mut i: int = 0;
        proof {
            lemma_active_xs(pEdgeActiveList, y);
            assert forall|p: int| INT::MIN <= p < INT::MAX implies #[trigger] coverage_at(s0, p)
                <= coverage_at(s0, p) + overlap(lo, frontier, p) by {
                lemma_overlap_apart(lo, lo, lo, lo, p);
            }
        }
        let ghost mut added: Set<int> = Set::empty();
        proof {
            lemma_cuts_none(s0);
        }
        let mut pEdgeStart: usize = pEdgeActiveList.First();
        while pEdgeStart != TAIL_EDGE
            invariant
                cuts_are(self.spans(), s0, added),
                alternate_cuts_split(xs, added, i),
                fill_list(pEdgeActiveList, xs),
                n == xs.len(),
                n % 2 == 0,
                self.wf(),
                row_free(s0),
                0 <= i <= n,
                i % 2 == 0,
                pEdgeStart == pEdgeActiveList.order@[i + 1],
                self.spans().len() <= s0.len() + 2 * i,
                s0 == old(self).spans(),
                n == pEdgeActiveList.active_len(),
                alternate_filled(self.spans(), s0, xs, i),
                filled_below(self.spans(), s0, lo, frontier),
                lo <= frontier,
                i < n ==> frontier <= xs[i],
            decreases n - i,
        {
            proof {
                assert(i < n) by {
                    if i == n {
                        assert(pEdgeActiveList.order@[i + 1] == TAIL_EDGE);
                    }
                }
            }
            let pEdgeEnd: usize = pEdgeActiveList.NextEdge(pEdgeStart, Ghost(i));
            let ghost s1 = self.spans();
            let ghost added1 = added;
            let ghost mut e: int = i + 1;
            let mut pEdgeLast: usize = pEdgeEnd;

            // We skip empty pairs:
            let nSubpixelXLeft: INT = pEdgeActiveList.ActiveX(pEdgeStart, Ghost(i));
            if nSubpixelXLeft != pEdgeActiveList.ActiveX(pEdgeEnd, Ghost(i + 1)) {
                // We now know we have a non-empty interval.  Skip any
                // empty interior pairs:
                let (pEdgeMerged, nSubpixelXRight, Ghost(merged)) = SkipEmptyPairs(
                    pEdgeActiveList,
                    pEdgeEnd,
                    Ghost(xs),
                    Ghost(i),
                );
                pEdgeLast = pEdgeMerged;
                proof {
                    e = merged;
                }
                let hrAdd = self.AddRun(
                    nSubpixelXLeft,
                    nSubpixelXRight,
                    Ghost(s0),
                    Ghost(lo),
                    Ghost(frontier),
                );
                if hrAdd != S_OK {
                    return hrAdd;
                }
                proof {
                    lemma_cuts_add(self.spans(), s1, s0, added, xs[i], xs[e]);
                    added = added.union(interval_cut_set(xs[i], xs[e]));
                    let s2 = self.spans();
                    assert forall|p: int| INT::MIN <= p < INT::MAX implies #[trigger] coverage_at(
                        s2,
                        p,
                    ) + alternate_cover_from(xs, e + 1, p) == coverage_at(s0, p)
                        + alternate_cover_from(xs, 0, p) by {
                        lemma_alternate_merge(xs, i, e, p);
                        assert(coverage_at(s1, p) + alternate_cover_from(xs, i, p) == coverage_at(
                            s0,
                            p,
                        ) + alternate_cover_from(xs, 0, p));
                    }
                    frontier = nSubpixelXRight as int;
                }
            } else {
                proof {
                    assert forall|p: int| INT::MIN <= p < INT::MAX implies #[trigger] coverage_at(
                        s1,
                        p,
                    ) + alternate_cover_from(xs, e + 1, p) == coverage_at(s0, p)
                        + alternate_cover_from(xs, 0, p) by {
                        assert(coverage_at(s1, p) + alternate_cover_from(xs, i, p) == coverage_at(
                            s0,
                            p,
                        ) + alternate_cover_from(xs, 0, p));
                    }
                }
            }
            // Prepare for the next iteration:
            pEdgeStart = pEdgeActiveList.NextEdge(pEdgeLast, Ghost(e));
            proof {
                if e + 1 < n {
                    assert(xs[e] <= xs[e + 1]);
                    assert(xs[i] <= xs[e + 1]);
                }
                lemma_alternate_cuts_step(xs, added1, i, e);
                i = e + 1;
            }
        }
        proof {
            assert(i == n) by {
                if i < n {
                    lemma_real_edge(pEdgeActiveList.edges@, pEdgeActiveList.order@, i + 1);
                }
            }
            assert(added =~= alternate_cuts(xs)) by {
                assert forall|x: int| added.contains(x) <==> alternate_cuts(xs).contains(x) by {
                    assert(!alternate_cut_from(xs, i, x));
                    assert(alternate_cut_so_far(xs, added, i, x) == alternate_cut_from(xs, 0, x));
                }
            }
        }
        S_OK
    }
}

/// What the fillers rely on: the active list is well linked, between its
/// sentinels, and `xs` are the x values of its edges, which ascend and are
/// within the room that edges are given.
pub open spec fn fill_list(list: &CEdgeTable, xs: Seq<int>) -> bool {
    &&& list.wf()
    &&& list.sentinels_ok()
    &&& xs == list.active_xs()
    &&& xs.len() == list.active_len()
    &&& ascending(xs)
    &&& forall|k: int| 0 <= k < xs.len() ==> -EDGE_X_BOUND <= (#[trigger] xs[k]) <= EDGE_X_BOUND
}

/// From the second edge of a pair on, skips every pair that begins where
/// the pair before it ends. Returns the last edge of the run, its x, and
/// its place.
fn SkipEmptyPairs(
    list: &CEdgeTable,
    pEdgeEnd: usize,
    Ghost(xs): Ghost<Seq<int>>,
    Ghost(i): Ghost<int>,
) -> (r: (usize, INT, Ghost<int>))
    requires
        fill_list(list, xs),
        xs.len() % 2 == 0,
        0 <= i,
        i % 2 == 0,
        list.is_active(pEdgeEnd, i + 1),
        xs[i] < xs[i + 1],
    ensures
        i < r.2@ < xs.len(),
        (r.2@ - i) % 2 == 1,
        list.is_active(r.0, r.2@),
        r.1 == xs[r.2@],
        xs[i] < xs[r.2@],
        forall|k: int| i < k < r.2@ && (k - i) % 2 == 1 ==> #[trigger] xs[k] == xs[k + 1],
        r.2@ == alternate_run_end(xs, i + 1),
{
    let ghost n = xs.len() as int;
    let mut pEdgeEnd: usize = pEdgeEnd;
    let ghost mut e: int = i + 1;
    let mut nSubpixelXRight: INT;
    loop
        invariant
            fill_list(list, xs),
            n == xs.len(),
            n % 2 == 0,
            i % 2 == 0,
            0 <= i < e < n,
            (e - i) % 2 == 1,
            list.is_active(pEdgeEnd, e),
            xs[i] < xs[e],
            forall|k: int| i < k < e && (k - i) % 2 == 1 ==> #[trigger] xs[k] == xs[k + 1],
            alternate_run_end(xs, i + 1) == alternate_run_end(xs, e),
        ensures
            nSubpixelXRight == xs[e],
            alternate_run_end(xs, e) == e,
        decreases n - e,
    {
        nSubpixelXRight = list.ActiveX(pEdgeEnd, Ghost(e));
        let next: usize = list.NextEdge(pEdgeEnd, Ghost(e));
        if next == TAIL_EDGE {
            break ;
        }
        if nSubpixelXRight != list.ActiveX(next, Ghost(e + 1)) {
            break ;
        }
        proof {
            assert(e + 2 < n);
            assert(xs[e] <= xs[e + 2]);
        }
        pEdgeEnd = list.NextEdge(next, Ghost(e + 1));
        proof {
            e = e + 2;
        }
    }
    (pEdgeEnd, nSubpixelXRight, Ghost(e))
}


/// What the winding filler relies on, besides [`fill_list`]: `ws` are the
/// winding directions of the edges of the active list, each `+1` or `-1`,
/// and they cancel.
pub open spec fn fill_windings(list: &CEdgeTable, xs: Seq<int>, ws: Seq<int>) -> bool {
    &&& fill_list(list, xs)
    &&& ws == list.active_windings()
    &&& ws.len() == xs.len()
    &&& xs.len() <= 0xffff_ffff
    &&& windings_unit(ws)
    &&& winding_balanced(ws)
}

/// What the winding rule adds from the `i`-th edge on is what lies between
/// that edge and the `e`-th, and what it adds from the edge behind that.
pub open spec fn winding_merged(xs: Seq<int>, ws: Seq<int>, i: int, e: int) -> bool {
    forall|p: int|
        INT::MIN <= p < INT::MAX ==> #[trigger] winding_cover_from(xs, ws, i, p) == overlap(
            xs[i],
            xs[e],
            p,
        ) + winding_cover_from(xs, ws, e + 1, p)
}

/// The winding number is at most as far from zero as edges were passed.
pub proof fn lemma_winding_within(ws: Seq<int>, k: int)
    requires
        windings_unit(ws),
        0 <= k <= ws.len(),
    ensures
        -k <= winding_before(ws, k) <= k,
    decreases k,
{
    if k > 0 {
        lemma_winding_within(ws, k - 1);
        assert(ws[k - 1] == 1 || ws[k - 1] == -1);
    }
}

/// From the edge `pEdgeStart`, to the left of which the winding number is
/// zero, walks to the first edge to the right of which it is zero again.
fn WindingRunEnd(
    list: &CEdgeTable,
    pEdgeStart: usize,
    Ghost(xs): Ghost<Seq<int>>,
    Ghost(ws): Ghost<Seq<int>>,
    Ghost(i): Ghost<int>,
) -> (r: (usize, Ghost<int>))
    requires
        fill_windings(list, xs, ws),
        list.is_active(pEdgeStart, i),
        winding_before(ws, i) == 0,
    ensures
        i < r.1@ < xs.len(),
        list.is_active(r.0, r.1@),
        winding_before(ws, r.1@ + 1) == 0,
        forall|k: int| i < k <= r.1@ ==> #[trigger] winding_before(ws, k) != 0,
        r.1@ == winding_end_from(ws, i),
{
    let ghost n = xs.len() as int;
    proof {
        assert(ws[i] == 1 || ws[i] == -1);
        assert(winding_before(ws, i + 1) == winding_before(ws, i) + ws[i]);
        assert(i + 1 < n) by {
            if i + 1 == n {
                assert(winding_before(ws, n) != 0);
            }
        }
    }
    let mut pEdgeEnd: usize = list.NextEdge(pEdgeStart, Ghost(i));
    let mut nWindingValue: i64 = list.ActiveWinding(pEdgeStart, Ghost(i)) as i64;
    let ghost mut e: int = i + 1;
    loop
        invariant_except_break
            nWindingValue == winding_before(ws, e),
        invariant
            fill_windings(list, xs, ws),
            n == xs.len(),
            0 <= i < e < n,
            list.is_active(pEdgeEnd, e),
            forall|k: int| i < k <= e ==> #[trigger] winding_before(ws, k) != 0,
        ensures
            winding_before(ws, e + 1) == 0,
        decreases n - e,
    {
        proof {
            lemma_winding_within(ws, e);
            assert(ws[e] == 1 || ws[e] == -1);
            assert(winding_before(ws, e + 1) == winding_before(ws, e) + ws[e]);
        }
        nWindingValue = nWindingValue + list.ActiveWinding(pEdgeEnd, Ghost(e)) as i64;
        if nWindingValue == 0 {
            break ;
        }
        proof {
            assert(e + 1 < n) by {
                if e + 1 == n {
                    assert(winding_before(ws, n) != 0);
                }
            }
        }
        pEdgeEnd = list.NextEdge(pEdgeEnd, Ghost(e));
        proof {
            e = e + 1;
        }
    }
    proof {
        lemma_winding_end(ws, i, e);
    }
    (pEdgeEnd, Ghost(e))
}

/// From the last edge of a run on, takes in every run that begins where the
/// run before it ends. Returns the last edge of the last run, its x, and
/// its place.
fn SkipEmptyRuns(
    list: &CEdgeTable,
    pEdgeEnd: usize,
    Ghost(xs): Ghost<Seq<int>>,
    Ghost(ws): Ghost<Seq<int>>,
    Ghost(i): Ghost<int>,
    Ghost(e0): Ghost<int>,
) -> (r: (usize, INT, Ghost<int>))
    requires
        fill_windings(list, xs, ws),
        0 <= i < e0 < xs.len(),
        list.is_active(pEdgeEnd, e0),
        winding_before(ws, i) == 0,
        winding_before(ws, e0 + 1) == 0,
        forall|k: int| i < k <= e0 ==> #[trigger] winding_before(ws, k) != 0,
        xs[i] < xs[e0],
    ensures
        i < r.2@ < xs.len(),
        list.is_active(r.0, r.2@),
        r.1 == xs[r.2@],
        xs[i] < xs[r.2@],
        winding_before(ws, r.2@ + 1) == 0,
        winding_merged(xs, ws, i, r.2@),
        r.2@ == winding_merged_end(xs, ws, e0),
{
    let ghost n = xs.len() as int;
    let mut pEdgeEnd: usize = pEdgeEnd;
    let ghost mut e: int = e0;
    let mut nSubpixelXRight: INT;
    proof {
        assert forall|p: int| INT::MIN <= p < INT::MAX implies #[trigger] winding_cover_from(
            xs,
            ws,
            i,
            p,
        ) == overlap(xs[i], xs[e], p) + winding_cover_from(xs, ws, e + 1, p) by {
            lemma_winding_run(xs, ws, i, e, p);
        }
    }
    loop
        invariant
            fill_windings(list, xs, ws),
            n == xs.len(),
            0 <= i < e < n,
            list.is_active(pEdgeEnd, e),
            xs[i] < xs[e],
            winding_before(ws, e + 1) == 0,
            winding_merged(xs, ws, i, e),
            winding_merged_end(xs, ws, e0) == winding_merged_end(xs, ws, e),
        ensures
            nSubpixelXRight == xs[e],
            winding_merged_end(xs, ws, e) == e,
        decreases n - e,
    {
        nSubpixelXRight = list.ActiveX(pEdgeEnd, Ghost(e));
        let next: usize = list.NextEdge(pEdgeEnd, Ghost(e));
        if next == TAIL_EDGE {
            break ;
        }
        if nSubpixelXRight != list.ActiveX(next, Ghost(e + 1)) {
            break ;
        }
        let (pEdgeRunEnd, Ghost(e2)) = WindingRunEnd(list, next, Ghost(xs), Ghost(ws), Ghost(e + 1));
        proof {
            assert(xs[e + 1] <= xs[e2]);
            assert forall|p: int| INT::MIN <= p < INT::MAX implies #[trigger] winding_cover_from(
                xs,
                ws,
                i,
                p,
            ) == overlap(xs[i], xs[e2], p) + winding_cover_from(xs, ws, e2 + 1, p) by {
                lemma_winding_run(xs, ws, e + 1, e2, p);
                lemma_overlap_joined(xs[i], xs[e], xs[e2], p);
            }
        }
        pEdgeEnd = pEdgeRunEnd;
        proof {
            e = e2;
        }
    }
    (pEdgeEnd, nSubpixelXRight, Ghost(e))
}

impl<'a> CCoverageBuffer<'a> {
    /// Given the active edge list for the current scan, do a winding-mode
    /// antialiased fill: every pixel gains what lies, on this subpixel
    /// scanline, between two edges with a winding number other than zero.
    ///
    /// The winding directions of the active edges must cancel, and no pixel
    /// may hold more than 56 subpixels before. Fails with `E_OUTOFMEMORY`
    /// where the pool of intervals is exhausted.
    pub fn FillEdgesWinding(&mut self, pEdgeActiveList: &CEdgeTable, nSubpixelYCurrent: INT) -> (hr:
        HRESULT)
        requires
            old(self).wf(),
            pEdgeActiveList.active_list_ok(nSubpixelYCurrent as int),
            pEdgeActiveList.active_len() <= 0xffff_ffff,
            winding_balanced(pEdgeActiveList.active_windings()),
            row_free(old(self).spans()),
        ensures
            final(self).wf(),
            hr == S_OK || hr == E_OUTOFMEMORY,
            hr != S_OK ==> final(self).exhausted(),
            hr == S_OK ==> winding_filled(
                final(self).spans(),
                old(self).spans(),
                pEdgeActiveList.active_xs(),
                pEdgeActiveList.active_windings(),
                pEdgeActiveList.active_len(),
            ),
            hr == S_OK ==> cuts_are(
                final(self).spans(),
                old(self).spans(),
                winding_cuts(pEdgeActiveList.active_xs(), pEdgeActiveList.active_windings()),
            ),
            final(self).spans().len() <= old(self).spans().len() + 2 * pEdgeActiveList.active_len(),
    {
        let ghost xs = pEdgeActiveList.active_xs();
        let ghost ws = pEdgeActiveList.active_windings();
        let ghost n = pEdgeActiveList.active_len();
        let ghost y = nSubpixelYCurrent as int;
        let ghost s0 = self.spans();
        let ghost lo: int = if n > 0 {
            xs[0]
        } else {
            0
        };
        let ghost mut frontier: int = lo;
        let ghost mut i: int = 0;
        proof {
            lemma_active_xs(pEdgeActiveList, y);
            assert forall|p: int| INT::MIN <= p < INT::MAX implies #[trigger] coverage_at(s0, p)
                <= coverage_at(s0, p) + overlap(lo, frontier, p) by {
                lemma_overlap_apart(lo, lo, lo, lo, p);
            }
        }
        let ghost mut added: Set<int> = Set::empty();
        proof {
            lemma_cuts_none(s0);
        }
        let mut pEdgeStart: usize = pEdgeActiveList.First();
        while pEdgeStart != TAIL_EDGE
            invariant
                cuts_are(self.spans(), s0, added),
                winding_cuts_split(xs, ws, added, i),
                fill_windings(pEdgeActiveList, xs, ws),
                n == xs.len(),
                self.wf(),
                row_free(s0),
                0 <= i <= n,
                winding_before(ws, i) == 0,
                pEdgeStart == pEdgeActiveList.order@[i + 1],
                self.spans().len() <= s0.len() + 2 * i,
                s0 == old(self).spans(),
                n == pEdgeActiveList.active_len(),
                winding_filled(self.spans(), s0, xs, ws, i),
                filled_below(self.spans(), s0, lo, frontier),
                lo <= frontier,
                i < n ==> frontier <= xs[i],
            decreases n - i,
        {
            proof {
                assert(i < n) by {
                    if i == n {
                        assert(pEdgeActiveList.order@[i + 1] == TAIL_EDGE);
                    }
                }
            }
            let ghost s1 = self.spans();
            let ghost added1 = added;
            let (pEdgeEnd, Ghost(e1)) = WindingRunEnd(
                pEdgeActiveList,
                pEdgeStart,
                Ghost(xs),
                Ghost(ws),
                Ghost(i),
            );
            let ghost mut e: int = e1;
            let mut pEdgeLast: usize = pEdgeEnd;

            // We skip empty pairs:
            let nSubpixelXLeft: INT = pEdgeActiveList.ActiveX(pEdgeStart, Ghost(i));
            if nSubpixelXLeft != pEdgeActiveList.ActiveX(pEdgeEnd, Ghost(e1)) {
                // We now know we have a non-empty interval.  Skip any
                // empty interior pairs:
                proof {
                    assert(xs[i] <= xs[e1]);
                }
                let (pEdgeMerged, nSubpixelXRight, Ghost(merged)) = SkipEmptyRuns(
                    pEdgeActiveList,
                    pEdgeEnd,
                    Ghost(xs),
                    Ghost(ws),
                    Ghost(i),
                    Ghost(e1),
                );
                pEdgeLast = pEdgeMerged;
                proof {
                    e = merged;
                }
                let hrAdd = self.AddRun(
                    nSubpixelXLeft,
                    nSubpixelXRight,
                    Ghost(s0),
                    Ghost(lo),
                    Ghost(frontier),
                );
                if hrAdd != S_OK {
                    return hrAdd;
                }
                proof {
                    lemma_cuts_add(self.spans(), s1, s0, added, xs[i], xs[e]);
                    added = added.union(interval_cut_set(xs[i], xs[e]));
                    let s2 = self.spans();
                    assert forall|p: int| INT::MIN <= p < INT::MAX implies #[trigger] coverage_at(
                        s2,
                        p,
                    ) + winding_cover_from(xs, ws, e + 1, p) == coverage_at(s0, p)
                        + winding_cover_from(xs, ws, 0, p) by {
                        assert(winding_cover_from(xs, ws, i, p) == overlap(xs[i], xs[e], p)
                            + winding_cover_from(xs, ws, e + 1, p));
                        assert(coverage_at(s1, p) + winding_cover_from(xs, ws, i, p)
                            == coverage_at(s0, p) + winding_cover_from(xs, ws, 0, p));
                    }
                    frontier = nSubpixelXRight as int;
                }
            } else {
                proof {
                    assert forall|p: int| INT::MIN <= p < INT::MAX implies #[trigger] coverage_at(
                        s1,
                        p,
                    ) + winding_cover_from(xs, ws, e + 1, p) == coverage_at(s0, p)
                        + winding_cover_from(xs, ws, 0, p) by {
                        lemma_winding_run(xs, ws, i, e, p);
                        assert(coverage_at(s1, p) + winding_cover_from(xs, ws, i, p)
                            == coverage_at(s0, p) + winding_cover_from(xs, ws, 0, p));
                    }
                }
            }
            // Prepare for the next iteration:
            pEdgeStart = pEdgeActiveList.NextEdge(pEdgeLast, Ghost(e));
            proof {
                if e + 1 < n {
                    assert(xs[e] <= xs[e + 1]);
                    assert(xs[i] <= xs[e + 1]);
                }
                lemma_winding_cuts_step(xs, ws, added1, i, e1, e);
                i = e + 1;
            }
        }
        proof {
            assert(i == n) by {
                if i < n {
                    lemma_real_edge(pEdgeActiveList.edges@, pEdgeActiveList.order@, i + 1);
                }
            }
            assert(added =~= winding_cuts(xs, ws)) by {
                assert forall|x: int| added.contains(x) <==> winding_cuts(xs, ws).contains(x) by {
                    assert(!winding_cut_from(xs, ws, i, x));
                    assert(winding_cut_so_far(xs, ws, added, i, x) == winding_cut_from(
                        xs,
                        ws,
                        0,
                        x,
                    ));
                }
            }
        }
        S_OK
    }
}


/// No pixel has more than `k` subpixel scanlines of coverage, or less than
/// none.
pub open spec fn rows_filled(s: Seq<CoverageSpan>, k: int) -> bool {
    forall|p: int| INT::MIN <= p < INT::MAX ==> 0 <= #[trigger] coverage_at(s, p) <= 8 * k
}

/// A list of the two sentinels alone covers no pixel.
pub proof fn lemma_clear_rows(s: Seq<CoverageSpan>)
    requires
        spans_ok(s),
        s.len() == 2,
    ensures
        rows_filled(s, 0),
{
    assert forall|p: int| INT::MIN <= p < INT::MAX implies 0 <= #[trigger] coverage_at(s, p)
        <= 0 by {
        crate::aacoverage::lemma_span_index(s, p, 0);
    }
}

/// One subpixel scanline of the alternate rule fills one row more.
pub proof fn lemma_alternate_rows(
    s: Seq<CoverageSpan>,
    s0: Seq<CoverageSpan>,
    xs: Seq<int>,
    k: int,
)
    requires
        alternate_filled(s, s0, xs, xs.len() as int),
        ascending(xs),
        rows_filled(s0, k),
    ensures
        rows_filled(s, k + 1),
{
    assert forall|p: int| INT::MIN <= p < INT::MAX implies 0 <= #[trigger] coverage_at(s, p) <= 8
        * (k + 1) by {
        lemma_alternate_bounded(xs, 0, p);
        assert(coverage_at(s0, p) >= 0);
    }
}

/// One subpixel scanline of the winding rule fills one row more.
pub proof fn lemma_winding_rows(
    s: Seq<CoverageSpan>,
    s0: Seq<CoverageSpan>,
    xs: Seq<int>,
    ws: Seq<int>,
    k: int,
)
    requires
        winding_filled(s, s0, xs, ws, xs.len() as int),
        ascending(xs),
        rows_filled(s0, k),
    ensures
        rows_filled(s, k + 1),
{
    assert forall|p: int| INT::MIN <= p < INT::MAX implies 0 <= #[trigger] coverage_at(s, p) <= 8
        * (k + 1) by {
        lemma_winding_bounded(xs, ws, 0, p);
        assert(coverage_at(s0, p) >= 0);
    }
}

/// Says whether the winding directions of the edges of the active list
/// cancel.
pub(crate) fn ActiveWindingBalanced(list: &CEdgeTable, Ghost(y): Ghost<int>) -> (balanced: bool)
    requires
        list.wf(),
        list.x_ordered(),
        list.active_at(y),
        list.active_len() <= 0xffff_ffff,
    ensures
        balanced == winding_balanced(list.active_windings()),
{
    let ghost ws = list.active_windings();
    let ghost n = list.active_len();
    proof {
        lemma_active_xs(list, y);
    }
    let mut nWindingValue: i64 = 0;
    let mut pEdge: usize = list.First();
    let ghost mut i: int = 0;
    while pEdge != TAIL_EDGE
        invariant
            list.wf(),
            ws == list.active_windings(),
            n == list.active_len(),
            n == ws.len(),
            n <= 0xffff_ffff,
            windings_unit(ws),
            0 <= i <= n,
            pEdge == list.order@[i + 1],
            nWindingValue == winding_before(ws, i),
        decreases n - i,
    {
        proof {
            assert(i < n) by {
                if i == n {
                    assert(list.order@[i + 1] == TAIL_EDGE);
                }
            }
            lemma_winding_within(ws, i);
            assert(ws[i] == 1 || ws[i] == -1);
            assert(winding_before(ws, i + 1) == winding_before(ws, i) + ws[i]);
        }
        nWindingValue = nWindingValue + list.ActiveWinding(pEdge, Ghost(i)) as i64;
        pEdge = list.NextEdge(pEdge, Ghost(i));
        proof {
            i = i + 1;
        }
    }
    proof {
        assert(i == n) by {
            if i < n {
                lemma_real_edge(list.edges@, list.order@, i + 1);
            }
        }
    }
    nWindingValue == 0
}


/// On an active list whose winding number is non-zero exactly between the
/// two edges of each pair, as it is on every scanline of a path whose
/// shapes do not overlap and are each traversed once, the winding fill and
/// the alternate fill of a scanline leave the same coverage.
pub proof fn lemma_winding_fill_is_alternate_fill(
    s0: Seq<CoverageSpan>,
    alternate: Seq<CoverageSpan>,
    winding: Seq<CoverageSpan>,
    xs: Seq<int>,
    ws: Seq<int>,
)
    requires
        xs.len() == ws.len(),
        xs.len() % 2 == 0,
        forall|k: int|
            0 <= k < xs.len() ==> ((#[trigger] winding_before(ws, k + 1)) != 0 <==> k % 2 == 0),
        alternate_filled(alternate, s0, xs, xs.len() as int),
        winding_filled(winding, s0, xs, ws, xs.len() as int),
    ensures
        forall|p: int|
            INT::MIN <= p < INT::MAX ==> #[trigger] coverage_at(winding, p) == coverage_at(
                alternate,
                p,
            ),
{
    assert forall|p: int| INT::MIN <= p < INT::MAX implies #[trigger] coverage_at(winding, p)
        == coverage_at(alternate, p) by {
        lemma_winding_is_alternate(xs, ws, p);
        assert(coverage_at(alternate, p) + alternate_cover_from(xs, xs.len() as int, p)
            == coverage_at(s0, p) + alternate_cover_from(xs, 0, p));
    }
}


/// The winding number is non-zero exactly between the two edges of each
/// pair.
pub open spec fn winding_in_pairs(ws: Seq<int>) -> bool {
    forall|k: int| 0 <= k < ws.len() ==> ((#[trigger] winding_before(ws, k + 1)) != 0 <==> k % 2 == 0)
}

/// Where the winding number is non-zero exactly between the two edges of
/// each pair, a run of the winding rule ends where the pair ends.
proof fn lemma_pair_end(ws: Seq<int>, i: int)
    requires
        winding_in_pairs(ws),
        ws.len() % 2 == 0,
        0 <= i < ws.len(),
        i % 2 == 0,
    ensures
        winding_end_from(ws, i) == i + 1,
{
    assert(winding_before(ws, i + 1) != 0);
    assert(winding_before(ws, i + 1 + 1) == 0);
    assert(winding_end_from(ws, i + 1) == i + 1);
}

/// There the runs of the two rules go on over the same pairs.
proof fn lemma_runs_agree(xs: Seq<int>, ws: Seq<int>, e: int)
    requires
        winding_in_pairs(ws),
        xs.len() == ws.len(),
        xs.len() % 2 == 0,
        0 <= e < xs.len(),
        e % 2 == 1,
    ensures
        winding_merged_end(xs, ws, e) == alternate_run_end(xs, e),
        e <= alternate_run_end(xs, e) < xs.len(),
        alternate_run_end(xs, e) % 2 == 1,
    decreases xs.len() - e,
{
    if e + 1 < xs.len() && xs[e] == xs[e + 1] {
        lemma_pair_end(ws, e + 1);
        lemma_runs_agree(xs, ws, e + 2);
    }
}

/// There the two rules cut the list at the same pixels.
proof fn lemma_cuts_agree(xs: Seq<int>, ws: Seq<int>, i: int, x: int)
    requires
        winding_in_pairs(ws),
        xs.len() == ws.len(),
        xs.len() % 2 == 0,
        0 <= i <= xs.len(),
        i % 2 == 0,
    ensures
        winding_cut_from(xs, ws, i, x) == alternate_cut_from(xs, i, x),
    decreases xs.len() - i,
{
    if i + 1 < xs.len() {
        lemma_pair_end(ws, i);
        if xs[i] == xs[i + 1] {
            lemma_cuts_agree(xs, ws, i + 2, x);
        } else {
            lemma_runs_agree(xs, ws, i + 1);
            let e = alternate_run_end(xs, i + 1);
            lemma_cuts_agree(xs, ws, e + 1, x);
        }
    }
}

/// On an active list whose winding number is non-zero exactly between the
/// two edges of each pair, the winding fill and the alternate fill of a
/// scanline leave the same list of intervals.
pub proof fn lemma_winding_fill_is_alternate_fill_list(
    s0: Seq<CoverageSpan>,
    alternate: Seq<CoverageSpan>,
    winding: Seq<CoverageSpan>,
    xs: Seq<int>,
    ws: Seq<int>,
)
    requires
        xs.len() == ws.len(),
        xs.len() % 2 == 0,
        winding_in_pairs(ws),
        spans_ok(alternate),
        spans_ok(winding),
        alternate_filled(alternate, s0, xs, xs.len() as int),
        winding_filled(winding, s0, xs, ws, xs.len() as int),
        cuts_are(alternate, s0, alternate_cuts(xs)),
        cuts_are(winding, s0, winding_cuts(xs, ws)),
    ensures
        winding == alternate,
{
    lemma_winding_fill_is_alternate_fill(s0, alternate, winding, xs, ws);
    lemma_cuts_are(alternate, s0, alternate_cuts(xs));
    lemma_cuts_are(winding, s0, winding_cuts(xs, ws));
    lemma_same_cuts_are(winding, alternate);
    assert forall|x: int| #[trigger] cut_at(winding, x) <==> cut_at(alternate, x) by {
        lemma_cuts_agree(xs, ws, 0, x);
        assert(winding_cuts(xs, ws).contains(x) == winding_cut_from(xs, ws, 0, x));
        assert(alternate_cuts(xs).contains(x) == alternate_cut_from(xs, 0, x));
    }
    lemma_list_determined(winding, alternate);
}

} // verus!
