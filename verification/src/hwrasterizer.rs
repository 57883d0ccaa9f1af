//! The rasterizer: drives the edge table, the active edge list, the
//! coverage buffer and the vertex buffer builder over the scanlines of a
//! path.
//!
//! For each scan-line to be filled:
//!
//!   1.  Remove any stale edges from the active edge list
//!   2.  Insert into the active edge list any edges new to this scan-line
//!   3.  Advance the DDAs of every active edge
//!   4.  If any active edges are out of order, re-sort the active edge list
//!   5.  Now that the active edges are ready for this scan, call the filler
//!       to traverse the edges and output the spans appropriately
//!   6.  Lather, rinse, and repeat

use vstd::prelude::*;
use crate::aacoverage::{
    coverage_at, spans_ok, CCoverageBuffer, CCoverageIntervalBuffer, CoverageSpan, E_OUTOFMEMORY,
};
use crate::aafill::{
    lemma_active_xs, lemma_alternate_rows, lemma_clear_rows, lemma_winding_rows, rows_filled,
    ActiveWindingBalanced,
};
use crate::aarasterizer::{
    c_nShiftSize, edge_wf, edge_wf_at, lemma_min_start, max_end_y, min_start_y, CEdge,
    CInitializeEdgesContext, CEdgeStore, EdgeModel, EDGE_STORE_LIMIT, EDGE_X_BOUND,
};
use crate::activelist::{
    entry_start_y, inactive_ready, lemma_edge_x_bounded, list_active_at,
    AdvanceDDAAndUpdateActiveEdgeList, AssertActiveList, CEdgeTable, InsertNewEdges,
    RemoveStaleEdges,
};
use crate::enumerate::FixedPointPathEnumerate;
use crate::helpers::{FloorShift, LowBits};
use crate::hwvertexbuffer::{
    lemma_grown_by, lemma_grown_twice, lemma_patch_covered, lemma_scan_strip_covered,
    lemma_trapezoid_covered, prepared_patch, scan_strip, strip_grown, trapezoid_of,
    CD3DVertexXYZDUV2, CHwTVertexBufferBuilder,
};
use crate::drawing::{
    lemma_drawn_push, lemma_sink_push, lemma_sink_same, lemma_true_push, piece_first_row,
    piece_next_row, piece_true, pieces_tile, pieces_true, sink_drawn, sink_piece, Drawn,
};
use crate::inactive::{CInactiveEdge, InitializeInactiveArray, TAIL_EDGE};
use crate::sample::{
    area_inside, lemma_area_empty, lemma_fill_samples, row_sampled, scanline_added,
};
use crate::scanline::{
    entries_ok, entries_split, has_entry, lemma_list_balanced, lemma_tracks_begin,
    lemma_tracks_insert, lemma_tracks_settle, lemma_tracks_step, list_tracks, net_winding,
    origin_of,
};
use crate::aarasterizer::dda_normal;
use crate::choice::{
    fill_cuts, lemma_chosen_behind, lemma_chosen_push, lemma_no_row, lemma_scan_begin,
    lemma_scan_step, lemma_table_chosen, piece_chosen, pieces_chosen, row_applies, row_first,
    row_lines, scan_lines_are, scan_listed, sides_apply,
};
use crate::cuts::cuts_are;
use crate::sample::sample_inside;
use crate::scanline::{active_models, lemma_sides_tally, list_crosses, side_on};
use crate::trapezoids::{
    edge_models, fits_row, lemma_span_crosses, pairs_cancel, places_at, row_allowed, rows_end,
    table_settled, table_state, top_ok, ActiveSides, AheadPlaces, CSidePlace, EmitTrapezoids,
    EndsBelow, FitsAll, PairsCancel, RowRoom, StepRow, TopOk, TopPlaces, PLACE_MAX,
};
use crate::types::{
    BYTE, CD3DDeviceLevel1, HRESULT, INT, MilAntiAliasMode, MilFillMode, MilPointAndSizeL,
    MilVertexFormat, MilVertexFormatAttribute, POINT, RECT, S_OK, UINT, WGXERR_BADNUMBER,
    WINCODEC_ERR_VALUEOVERFLOW,
};

verus! {

/// The active edge list was found in a state in which it cannot be filled:
/// it holds an odd number of edges, or winding directions that do not
/// cancel.
pub const E_FAIL: HRESULT = -2147467259;

/// Half a pixel, in subpixels: the radius by which a trapezoid is expanded
/// for its fringes.
pub const c_nHalfPixel: INT = 4;

/// Largest magnitude, in whole pixels, to which the clip rectangle of the
/// device is cut. No path coordinate reaches as far.
pub const CLIP_PIXEL_MAX: i64 = 0x0100_0000;

/// A path of no more edges than this is rasterized whatever it is: the
/// pool of coverage intervals cannot run out on it.
pub const EDGES_ASSURED: usize = 0x0600_0000;

/// `v` cut to `[-CLIP_PIXEL_MAX, CLIP_PIXEL_MAX]`.
pub open spec fn clip_pixel(v: int) -> int {
    if v < -CLIP_PIXEL_MAX {
        -CLIP_PIXEL_MAX as int
    } else if v > CLIP_PIXEL_MAX {
        CLIP_PIXEL_MAX as int
    } else {
        v
    }
}

/// The clip rectangle of the device in 28.4 device coordinates.
pub open spec fn clip_bounds_28_4(rc: MilPointAndSizeL) -> RECT {
    RECT {
        left: (clip_pixel(rc.X as int) * 16) as INT,
        top: (clip_pixel(rc.Y as int) * 16) as INT,
        right: (clip_pixel(rc.X + rc.Width) * 16) as INT,
        bottom: (clip_pixel(rc.Y + rc.Height) * 16) as INT,
    }
}

fn ClipPixel(v: i64) -> (r: i64)
    ensures
        r == clip_pixel(v as int),
{
    if v < -CLIP_PIXEL_MAX {
        -CLIP_PIXEL_MAX
    } else if v > CLIP_PIXEL_MAX {
        CLIP_PIXEL_MAX
    } else {
        v
    }
}

/// The most spans that the coverage list holds after `rows` subpixel
/// scanlines of a path with `edges` edges were filled into it.
pub open spec fn span_budget(edges: int, rows: int) -> int {
    2 + 2 * edges * rows
}

/// The most vertices that one device scanline of a path with `edges` edges
/// adds to the triangle strip.
pub open spec fn row_vertices_max(edges: int) -> int {
    18 + 96 * edges
}

/// The device scanlines of the clip rectangle.
pub open spec fn clip_rows(rc: MilPointAndSizeL) -> int {
    let top = clip_pixel(rc.Y as int);
    let bottom = clip_pixel(rc.Y + rc.Height);
    if bottom > top {
        bottom - top
    } else {
        0
    }
}

/// The most vertices that a path with `edges` edges adds to the triangle
/// strip, within the clip rectangle `rc`.
pub open spec fn path_vertices_max(rc: MilPointAndSizeL, edges: int) -> int {
    (clip_rows(rc) + 1) * row_vertices_max(edges)
}

/// Filling one more scanline of at most `active` edges keeps the coverage
/// list within its budget, and the budget of a device scanline within its
/// vertices.
pub proof fn lemma_span_budget(edges: int, rows: int, active: int)
    requires
        0 <= active <= edges,
        0 <= rows < 8,
    ensures
        span_budget(edges, 0) == 2,
        span_budget(edges, rows) + 2 * active <= span_budget(edges, rows + 1),
        span_budget(edges, rows) <= span_budget(edges, rows + 1) <= 2 + 16 * edges,
        6 + 6 * span_budget(edges, rows + 1) <= row_vertices_max(edges),
        6 + 6 * span_budget(edges, rows) <= row_vertices_max(edges),
        edges >= 1 ==> 24 <= row_vertices_max(edges),
{
    assert(2 * edges * (rows + 1) == 2 * edges * rows + 2 * edges) by (nonlinear_arith);
    assert(2 * edges * (rows + 1) <= 16 * edges) by (nonlinear_arith)
        requires
            0 <= edges,
            rows + 1 <= 8,
    ;
    assert(0 <= 2 * edges * rows) by (nonlinear_arith)
        requires
            0 <= edges,
            0 <= rows,
    ;
    assert(2 * edges * 0 == 0);
}

/// The anti-aliased rasterizer of paths.
pub struct CHwRasterizer<'a> {
    pub m_coverageBuffer: CCoverageBuffer<'a>,
    /// The clip rectangle of the device, in whole pixels.
    pub m_rcClipBounds: MilPointAndSizeL,
    pub m_fillMode: MilFillMode,
    /// Device scanlines on which the edges keep apart are output as rows
    /// of trapezoids, one between the two edges of each pair, not scan by
    /// scan.
    pub m_fUseTrapezoids: bool,
}

/// What the scanline loop keeps of the edge table, the inactive array and
/// the coverage buffer while it stands on the subpixel scanline `y`.
pub open spec fn scan_state(
    coverage: &CCoverageBuffer,
    table: &CEdgeTable,
    inactive: Seq<CInactiveEdge>,
    pos: int,
    y: int,
    yNextInactive: int,
    origin: Seq<EdgeModel>,
    mode: MilFillMode,
) -> bool {
    &&& coverage.wf()
    &&& rows_filled(coverage.spans(), y % 8)
    &&& table_state(table, inactive, pos, y, yNextInactive, origin)
    &&& coverage.spans().len() <= span_budget(inactive.len() - 2, y % 8)
    &&& row_sampled(coverage.spans(), origin, mode, 8 * (y / 8), y)
}

/// The builder `after` is the builder `before` with the pieces drawn, which
/// take the device scanlines from that of `top` up to that of `bottom`, and
/// show the path of `edges` before the scanline `limit`.
pub open spec fn rows_drawn(
    before: &CHwTVertexBufferBuilder<CD3DVertexXYZDUV2>,
    after: &CHwTVertexBufferBuilder<CD3DVertexXYZDUV2>,
    pieces: Seq<Drawn>,
    edges: Seq<EdgeModel>,
    mode: MilFillMode,
    top: int,
    bottom: int,
    limit: int,
) -> bool {
    &&& sink_drawn(before, after, pieces)
    &&& pieces_tile(pieces, top / 8, bottom / 8)
    &&& pieces_true(pieces, edges, mode, limit)
}

/// [`rows_drawn`] with the pieces that the path asks for ([`pieces_chosen`]):
/// a row of trapezoids wherever one begins, and scans elsewhere, each with
/// a list that is cut where the fills of its scanlines cut it.
pub open spec fn rows_chosen(
    before: &CHwTVertexBufferBuilder<CD3DVertexXYZDUV2>,
    after: &CHwTVertexBufferBuilder<CD3DVertexXYZDUV2>,
    pieces: Seq<Drawn>,
    edges: Seq<EdgeModel>,
    mode: MilFillMode,
    top: int,
    bottom: int,
    limit: int,
    use_trapezoids: bool,
) -> bool {
    &&& rows_drawn(before, after, pieces, edges, mode, top, bottom, limit)
    &&& pieces_chosen(pieces, edges, use_trapezoids, mode, limit, top)
}

/// The list `spans` of the device scanline that is being filled on the
/// scanline `y` is cut where the fills of its scanlines so far cut it,
/// each between the edges that cross the scanline, which `orders` lists
/// from left to right.
pub open spec fn pending_lines(
    spans: Seq<CoverageSpan>,
    edges: Seq<EdgeModel>,
    mode: MilFillMode,
    top: int,
    y: int,
    orders: Seq<Seq<int>>,
) -> bool {
    &&& orders.len() == y - row_first(y / 8, top)
    &&& scan_listed(spans, edges, mode, row_first(y / 8, top), orders)
}

/// As many edges of `origin` run down as run up across every scanline from
/// `top` up to `bottom`.
pub open spec fn balanced_between(origin: Seq<EdgeModel>, top: int, bottom: int) -> bool {
    forall|y: int| top <= y < bottom ==> #[trigger] net_winding(origin, y) == 0
}

impl<'a> CHwRasterizer<'a> {
    /// A rasterizer whose coverage buffer takes its buffers from `arena`.
    pub fn new(arena: &'a typed_arena::Arena<CCoverageIntervalBuffer>) -> (rasterizer: Self)
        ensures
            rasterizer.m_coverageBuffer.wf(),
            rasterizer.m_coverageBuffer.is_clear(),
            rasterizer.m_fillMode == MilFillMode::Alternate,
            rasterizer.m_fUseTrapezoids,
            rasterizer.m_rcClipBounds == (MilPointAndSizeL { X: 0, Y: 0, Width: 0, Height: 0 }),
    {
        CHwRasterizer {
            m_coverageBuffer: CCoverageBuffer::new(arena),
            m_rcClipBounds: MilPointAndSizeL { X: 0, Y: 0, Width: 0, Height: 0 },
            m_fillMode: MilFillMode::Alternate,
            m_fUseTrapezoids: true,
        }
    }

    /// Stashes the inputs of a rasterization: the clip rectangle of the
    /// device and the fill mode of the shape.
    pub fn Setup(&mut self, pD3DDevice: &CD3DDeviceLevel1, fillMode: MilFillMode)
        requires
            old(self).m_coverageBuffer.wf(),
        ensures
            final(self).m_coverageBuffer.wf(),
            final(self).m_coverageBuffer.is_clear(),
            final(self).m_rcClipBounds == pD3DDevice.clipRect,
            final(self).m_fillMode == fillMode,
            final(self).m_fUseTrapezoids == old(self).m_fUseTrapezoids,
    {
        self.m_fillMode = fillMode;
        let mut rcClipBounds = MilPointAndSizeL { X: 0, Y: 0, Width: 0, Height: 0 };
        pD3DDevice.GetClipRect(&mut rcClipBounds);
        self.m_rcClipBounds = rcClipBounds;
        self.m_coverageBuffer.Reset();
    }

    /// The fields of a vertex that this rasterizer brings: its position.
    pub fn GetPerVertexDataType(&self, mvfFullyGenerated: &mut MilVertexFormat)
        ensures
            *final(mvfFullyGenerated) == MilVertexFormatAttribute::MILVFAttrXY.bits(),
    {
        *mvfFullyGenerated = MilVertexFormatAttribute::MILVFAttrXY.Bits();
    }

    /// Collapse output and generate span data: hands the coverage of the
    /// device scanline of `nSubpixelY` to the sink as one complex scan, and
    /// clears the coverage buffer for the next scanline.
    pub fn GenerateOutputAndClearCoverage(
        &mut self,
        pIGeometrySink: &mut CHwTVertexBufferBuilder<CD3DVertexXYZDUV2>,
        nSubpixelY: INT,
    ) -> (hr: HRESULT)
        requires
            old(self).m_coverageBuffer.wf(),
        ensures
            hr == S_OK,
            final(self).m_coverageBuffer.wf(),
            final(self).m_coverageBuffer.is_clear(),
            final(self).m_rcClipBounds == old(self).m_rcClipBounds,
            final(self).m_fillMode == old(self).m_fillMode,
            final(self).m_fUseTrapezoids == old(self).m_fUseTrapezoids,
            final(pIGeometrySink).same_setup(old(pIGeometrySink)),
            final(pIGeometrySink).strip() == old(pIGeometrySink).strip()
                + crate::hwvertexbuffer::prepared_patch(
                old(pIGeometrySink).config(),
                old(pIGeometrySink).strata(),
                8 * (nSubpixelY as int / 8),
                8 * (nSubpixelY as int / 8 + 1),
                false,
                0,
            ) + crate::hwvertexbuffer::scan_strip(
                old(pIGeometrySink).config(),
                old(self).m_coverageBuffer.spans(),
                0,
                nSubpixelY as int / 8,
            ),
            final(pIGeometrySink).lines() == old(pIGeometrySink).lines()
                + crate::hwvertexbuffer::scan_lines(
                old(pIGeometrySink).config(),
                old(self).m_coverageBuffer.spans(),
                0,
                nSubpixelY as int / 8,
            ),
            strip_grown(
                old(pIGeometrySink).strip(),
                final(pIGeometrySink).strip(),
                6 + 6 * (old(self).m_coverageBuffer.spans().len() as int),
            ),
            old(pIGeometrySink).config().force_triangles ==> final(pIGeometrySink).lines() == old(
                pIGeometrySink,
            ).lines(),
            sink_piece(
                old(pIGeometrySink),
                final(pIGeometrySink),
                (Drawn::Scan {
                    row: nSubpixelY as int / 8,
                    spans: old(self).m_coverageBuffer.spans(),
                }),
            ),
    {
        let nPixelY: INT = FloorShift(nSubpixelY, 3);
        proof {
            let c = pIGeometrySink.config();
            let spans = self.m_coverageBuffer.spans();
            let strip = pIGeometrySink.strip();
            let patch = prepared_patch(
                c,
                pIGeometrySink.strata(),
                8 * (nSubpixelY as int / 8),
                8 * (nSubpixelY as int / 8 + 1),
                false,
                0,
            );
            let scan = scan_strip(c, spans, 0, nSubpixelY as int / 8);
            lemma_patch_covered(
                c,
                pIGeometrySink.strata(),
                8 * (nSubpixelY as int / 8),
                8 * (nSubpixelY as int / 8 + 1),
                false,
                0,
            );
            lemma_scan_strip_covered(c, spans, 0, nSubpixelY as int / 8);
            lemma_grown_by(strip, patch, 12);
            lemma_grown_by(strip + patch, scan, 6 * (spans.len() - 1));
            lemma_grown_twice(strip, strip + patch, strip + patch + scan, 12, 6 * (spans.len() - 1));
            assert((strip + patch) + scan =~= strip + (patch + scan));
            if c.force_triangles {
                assert(pIGeometrySink.lines() + Seq::<CD3DVertexXYZDUV2>::empty()
                    =~= pIGeometrySink.lines());
            }
        }
        pIGeometrySink.AddComplexScan(nPixelY, &self.m_coverageBuffer);
        self.m_coverageBuffer.Reset();
        S_OK
    }
}


/// The entries that are ready stay ready when the table changes in edges of
/// the active list only.
pub proof fn lemma_ready_kept(
    inactive: Seq<CInactiveEdge>,
    before: &CEdgeTable,
    after: &CEdgeTable,
    pos: int,
)
    requires
        before.wf(),
        before.sentinels_ok(),
        after.sentinels_ok(),
        inactive_ready(inactive, before.edges@, pos),
        after.edges@.len() == before.edges@.len(),
        forall|k: int| after.order@.contains(k) ==> before.order@.contains(k),
        forall|k: int|
            0 <= k < before.edges@.len() && !after.order@.contains(k) ==> after.edges@[k]
                == before.edges@[k],
    ensures
        inactive_ready(inactive, after.edges@, pos),
        entry_start_y(inactive, after.edges@, pos) == entry_start_y(inactive, before.edges@, pos),
{
    let count = inactive.len() - 2;
    assert forall|q: int| pos <= q <= count implies after.edges@[(#[trigger] inactive[q]).Edge as int]
        == before.edges@[inactive[q].Edge as int] by {
        let k = inactive[q].Edge as int;
        crate::activelist::lemma_unlinked_absent(before.edges@, before.order@, k);
    }
    if pos <= count {
        assert(after.edges@[inactive[pos].Edge as int] == before.edges@[inactive[pos].Edge as int]);
    }
}

/// The rows from scanline `y` on can be output as one row of trapezoids:
/// trapezoids are in use; `y` is the first scanline of a device scanline;
/// the active list holds edges, none too steep, each as far from the next
/// as their fringes take, and in pairs whose winding directions cancel
/// where the winding rule fills; and the first device scanline can be part
/// of the row ([`row_allowed`]).
pub open spec fn trapezoid_applies(
    use_trapezoids: bool,
    mode: MilFillMode,
    table: &CEdgeTable,
    y: int,
    next_inactive: int,
    bottom: int,
) -> bool {
    let sides = active_models(table);
    &&& use_trapezoids
    &&& y % 8 == 0
    &&& sides.len() >= 2
    &&& mode == MilFillMode::Winding ==> pairs_cancel(sides)
    &&& top_ok(sides)
    &&& rows_end(sides, y, 0, next_inactive, bottom) > 0
}

/// The row of trapezoids between the edges of the active list, from the
/// scanline `top`, on which the list stands, up to `bottom`.
pub open spec fn trapezoids_between(table: &CEdgeTable, top: int, bottom: int) -> Drawn {
    Drawn::Trapezoids { top: top, bottom: bottom, sides: active_models(table) }
}

/// The scanline before which the row of trapezoids ends that begins on
/// `y`: the first device scanline on which an edge begins or ends, the
/// filling ends, or two edges come too close.
pub open spec fn trapezoid_end(table: &CEdgeTable, y: int, next_inactive: int, bottom: int) -> int {
    y + rows_end(active_models(table), y, 0, next_inactive, bottom)
}

impl<'a> CHwRasterizer<'a> {
    /// Nothing of the rasterizer changed but its coverage buffer.
    pub open spec fn same_setup(&self, before: &Self) -> bool {
        &&& self.m_rcClipBounds == before.m_rcClipBounds
        &&& self.m_fillMode == before.m_fillMode
        &&& self.m_fUseTrapezoids == before.m_fUseTrapezoids
    }

    /// Where a row of trapezoids can begin ([`trapezoid_applies`]): outputs
    /// the device scanlines from this one on, up to the first that cannot
    /// be part of the row ([`trapezoid_end`]), as one trapezoid between
    /// the two edges of each pair, and goes on to that scanline. Says
    /// whether it did.
    fn TryTrapezoid(
        &mut self,
        pEdgeActiveList: &mut CEdgeTable,
        nSubpixelYCurrent: &mut INT,
        nSubpixelYNextInactive: INT,
        nSubpixelYBottom: INT,
        pIGeometrySink: &mut CHwTVertexBufferBuilder<CD3DVertexXYZDUV2>,
        Ghost(inactive): Ghost<Seq<CInactiveEdge>>,
        Ghost(pos): Ghost<int>,
        Ghost(origin): Ghost<Seq<EdgeModel>>,
    ) -> (done: bool)
        requires
            scan_state(
                &old(self).m_coverageBuffer,
                old(pEdgeActiveList),
                inactive,
                pos,
                *old(nSubpixelYCurrent) as int,
                nSubpixelYNextInactive as int,
                origin,
                old(self).m_fillMode,
            ),
            old(pEdgeActiveList).even(),
            *old(nSubpixelYCurrent) < nSubpixelYBottom <= EDGE_X_BOUND,
        ensures
            done == trapezoid_applies(
                old(self).m_fUseTrapezoids,
                old(self).m_fillMode,
                old(pEdgeActiveList),
                *old(nSubpixelYCurrent) as int,
                nSubpixelYNextInactive as int,
                nSubpixelYBottom as int,
            ),
            final(self).same_setup(old(self)),
            final(self).m_coverageBuffer == old(self).m_coverageBuffer,
            final(pIGeometrySink).same_setup(old(pIGeometrySink)),
            !done ==> *final(pEdgeActiveList) == *old(pEdgeActiveList) && *final(nSubpixelYCurrent)
                == *old(nSubpixelYCurrent) && *final(pIGeometrySink) == *old(pIGeometrySink),
            done ==> {
                &&& *final(nSubpixelYCurrent) == trapezoid_end(
                    old(pEdgeActiveList),
                    *old(nSubpixelYCurrent) as int,
                    nSubpixelYNextInactive as int,
                    nSubpixelYBottom as int,
                )
                &&& *old(nSubpixelYCurrent) < *final(nSubpixelYCurrent) <= nSubpixelYBottom
                &&& *final(nSubpixelYCurrent) <= nSubpixelYNextInactive
                &&& *old(nSubpixelYCurrent) % 8 == 0
                &&& *final(nSubpixelYCurrent) % 8 == 0
                &&& rows_filled(final(self).m_coverageBuffer.spans(), 0)
                &&& final(self).m_coverageBuffer.wf()
                &&& table_settled(
                    final(pEdgeActiveList),
                    inactive,
                    pos,
                    *final(nSubpixelYCurrent) as int,
                    nSubpixelYNextInactive as int,
                    origin,
                )
                &&& final(pIGeometrySink).lines() == old(pIGeometrySink).lines()
                &&& strip_grown(
                    old(pIGeometrySink).strip(),
                    final(pIGeometrySink).strip(),
                    12 * old(pEdgeActiveList).active_len(),
                )
                &&& row_sampled(
                    final(self).m_coverageBuffer.spans(),
                    origin,
                    old(self).m_fillMode,
                    *final(nSubpixelYCurrent) as int,
                    *final(nSubpixelYCurrent) as int,
                )
                &&& sink_piece(
                    old(pIGeometrySink),
                    final(pIGeometrySink),
                    trapezoids_between(
                        old(pEdgeActiveList),
                        *old(nSubpixelYCurrent) as int,
                        *final(nSubpixelYCurrent) as int,
                    ),
                )
                &&& piece_true(
                    trapezoids_between(
                        old(pEdgeActiveList),
                        *old(nSubpixelYCurrent) as int,
                        *final(nSubpixelYCurrent) as int,
                    ),
                    origin,
                    old(self).m_fillMode,
                    nSubpixelYBottom as int,
                )
            },
    {
        let y: INT = *nSubpixelYCurrent;
        let ghost top = *pEdgeActiveList;
        let ghost next = nSubpixelYNextInactive as int;
        let ghost bottom = nSubpixelYBottom as int;
        let ghost mode = self.m_fillMode;
        if !self.m_fUseTrapezoids {
            return false;
        }
        if LowBits(y, 3) != 0 {
            return false;
        }
        // The edges as they stand at the top of the row:
        let sides: Vec<CEdge> = ActiveSides(pEdgeActiveList);
        let ghost models = active_models(&top);
        if sides.len() < 2 {
            return false;
        }
        // We can fill by the alternate rule where the winding directions
        // of the edges of every pair differ:
        let fWinding: bool = match self.m_fillMode {
            MilFillMode::Winding => true,
            MilFillMode::Alternate => false,
        };
        if fWinding && !PairsCancel(&sides) {
            return false;
        }
        if !TopOk(&sides) {
            return false;
        }
        proof {
            assert forall|i: int| 0 <= i < sides@.len() implies dda_normal(
                (#[trigger] sides@[i]).model().dda(),
                sides@[i].ErrorUp as int,
                sides@[i].ErrorDown as int,
            ) by {
                assert(sides@[i] == top.active_edge(i));
                assert(edge_wf_at(top.edges@[top.order@[i + 1]].model(), y as int));
            }
            lemma_edge_x_bounded_list(pEdgeActiveList, y as int);
            if pos <= inactive.len() - 2 {
                let k = inactive[pos].Edge as int;
                assert(origin[k].start_y > y);
                assert(pEdgeActiveList.edges@[k].model() == origin[k]);
            }
        }
        let mut places: Vec<CSidePlace> = TopPlaces(&sides);
        let mut yRow: INT = y;
        let ghost mut steps: int = 0;
        proof {
            assert forall|i: int| 0 <= i < places@.len() implies -PLACE_MAX <= (
            #[trigger] places@[i]).X <= PLACE_MAX by {
                assert(places@[i].dda() == side_on(models[i], 0));
                assert(sides@[i] == top.active_edge(i));
                assert(top.order@[i + 1] >= 0);
            }
        }
        // Take device scanlines while no edge begins or ends and the edges
        // keep apart:
        loop
            invariant
                models == active_models(&top),
                models == edge_models(sides@),
                top == *old(pEdgeActiveList),
                next == nSubpixelYNextInactive,
                bottom == nSubpixelYBottom,
                y == *old(nSubpixelYCurrent),
                y % 8 == 0,
                y < bottom <= EDGE_X_BOUND,
                0 <= steps,
                steps % 8 == 0,
                yRow == y + steps,
                y + steps <= bottom,
                y + steps <= next,
                steps == 0 ==> *pEdgeActiveList == top,
                steps == 0 ==> table_state(pEdgeActiveList, inactive, pos, y as int, next, origin),
                steps > 0 ==> table_settled(pEdgeActiveList, inactive, pos, y + steps, next, origin),
                steps > 0 && y + steps < next ==> table_state(
                    pEdgeActiveList,
                    inactive,
                    pos,
                    y + steps,
                    next,
                    origin,
                ),
                top_ok(models),
                places_at(places@, models, steps),
                forall|i: int|
                    0 <= i < places@.len() ==> -PLACE_MAX <= (#[trigger] places@[i]).X <= PLACE_MAX,
                forall|i: int| 0 <= i < models.len() ==> (#[trigger] models[i]).end_y >= y + steps,
                rows_end(models, y as int, 0, next, bottom) == rows_end(
                    models,
                    y as int,
                    steps,
                    next,
                    bottom,
                ),
            ensures
                !row_allowed(models, y as int, steps, next, bottom),
            decreases bottom - y - steps,
        {
            if !(nSubpixelYNextInactive - 8 >= yRow && nSubpixelYBottom - 8 >= yRow) {
                break ;
            }
            if !EndsBelow(&sides, yRow + 8) {
                break ;
            }
            let ahead: Vec<CSidePlace> = AheadPlaces(&sides, &places, Ghost(steps));
            if !FitsAll(&sides, &ahead, Ghost(steps)) {
                break ;
            }
            proof {
                assert forall|i: int| 0 <= i < ahead@.len() implies -PLACE_MAX <= (
                #[trigger] ahead@[i]).X <= PLACE_MAX by {
                    assert(fits_row(models, i, steps));
                    assert(ahead@[i].dda() == side_on(models[i], steps + 8));
                }
            }
            if !RowRoom(&sides, &places, &ahead, Ghost(steps)) {
                break ;
            }
            proof {
                assert(row_allowed(models, y as int, steps, next, bottom));
            }
            StepRow(
                pEdgeActiveList,
                yRow,
                Ghost(next),
                Ghost(inactive),
                Ghost(pos),
                Ghost(origin),
            );
            places = ahead;
            yRow = yRow + 8;
            proof {
                steps = steps + 8;
            }
        }
        proof {
            assert(rows_end(models, y as int, steps, next, bottom) == steps);
        }
        if yRow == y {
            return false;
        }
        let ghost later = y + steps;
        proof {
            lemma_span_crosses(&top, origin, inactive, pos, y as int, later);
            assert forall|v: int, x: int, winding: bool| y <= v < later implies #[trigger] crate::scanline::tally(
                origin,
                origin.len() as int,
                v,
                x,
                winding,
            ) == crate::scanline::sides_tally(models, models.len() as int, v - y, x, winding) by {
                assert(list_crosses(&top, origin, y as int, v));
                lemma_sides_tally(&top, origin, y as int, v, x, winding);
            }
            assert forall|i: int| 0 <= i < models.len() implies dda_normal(
                (#[trigger] models[i]).dda(),
                models[i].error_up,
                models[i].error_down,
            ) && models[i].error_down <= INT::MAX by {
                assert(sides@[i].model() == models[i]);
            }
            assert forall|p: int| INT::MIN <= p < INT::MAX implies #[trigger] coverage_at(
                self.m_coverageBuffer.spans(),
                p,
            ) == area_inside(origin, mode, later, later, p) by {
                assert(coverage_at(self.m_coverageBuffer.spans(), p) == area_inside(
                    origin,
                    mode,
                    8 * (y as int / 8),
                    y as int,
                    p,
                ));
            }
            assert(top.active_len() % 2 == 0);
        }
        // Output one trapezoid for each pair of edges:
        EmitTrapezoids(pIGeometrySink, y, yRow, &sides, &places);
        proof {
            assert(pIGeometrySink.lines() + Seq::<CD3DVertexXYZDUV2>::empty()
                =~= pIGeometrySink.lines());
        }
        *nSubpixelYCurrent = yRow;
        true
    }
}

/// The first scanline of a path: the least of the first scanlines of its
/// edges.
pub open spec fn scan_top(path: Seq<EdgeModel>) -> int {
    min_start_y(path)
}

/// The scanline before which the path is filled: the end of its last edge,
/// or the bottom of the clip rectangle `rc` where that comes first.
pub open spec fn scan_bottom(path: Seq<EdgeModel>, rc: MilPointAndSizeL) -> int {
    let clip = 8 * clip_pixel(rc.Y + rc.Height);
    let last = max_end_y(path, INT::MIN as int);
    if clip < last {
        clip
    } else {
        last
    }
}

/// The scanline on which the rasterizer ends: [`scan_bottom`], or
/// [`scan_top`] where the path begins below that.
pub open spec fn scan_end(path: Seq<EdgeModel>, rc: MilPointAndSizeL) -> int {
    if scan_top(path) < scan_bottom(path, rc) {
        scan_bottom(path, rc)
    } else {
        scan_top(path)
    }
}

/// The builder `after` is the builder `before` with the path of the edges
/// `path` drawn by the fill rule `mode` within the clip rectangle `rc`:
/// piece by piece, every device scanline from that of the first scanline of
/// the path down to that of its last, with the coverage that the samples
/// inside the path give. A path without edges, or with more than the edge
/// store holds, leaves the builder as it is.
pub open spec fn path_drawn(
    before: &CHwTVertexBufferBuilder<CD3DVertexXYZDUV2>,
    after: &CHwTVertexBufferBuilder<CD3DVertexXYZDUV2>,
    path: Seq<EdgeModel>,
    mode: MilFillMode,
    rc: MilPointAndSizeL,
) -> bool {
    if path.len() == 0 || path.len() > EDGE_STORE_LIMIT {
        *after == *before
    } else {
        let behind = scan_end(path, rc) + 7;
        exists|pieces: Seq<Drawn>|
            rows_drawn(
                before,
                after,
                pieces,
                path,
                mode,
                scan_top(path),
                behind,
                scan_bottom(path, rc),
            )
    }
}

/// [`path_drawn`] with the pieces that the path asks for: a row of
/// trapezoids wherever one begins ([`row_applies`]), as far down as it can
/// go, and scans elsewhere.
pub open spec fn path_decided(
    before: &CHwTVertexBufferBuilder<CD3DVertexXYZDUV2>,
    after: &CHwTVertexBufferBuilder<CD3DVertexXYZDUV2>,
    path: Seq<EdgeModel>,
    mode: MilFillMode,
    rc: MilPointAndSizeL,
    use_trapezoids: bool,
) -> bool {
    if path.len() == 0 || path.len() > EDGE_STORE_LIMIT {
        *after == *before
    } else {
        let behind = scan_end(path, rc) + 7;
        exists|pieces: Seq<Drawn>|
            rows_chosen(
                before,
                after,
                pieces,
                path,
                mode,
                scan_top(path),
                behind,
                scan_bottom(path, rc),
                use_trapezoids,
            )
    }
}

/// The pieces that the scanline loop drew, and the device scanline that was
/// left in the coverage buffer behind them, are the path drawn.
pub proof fn lemma_sent(
    sink0: &CHwTVertexBufferBuilder<CD3DVertexXYZDUV2>,
    sink1: &CHwTVertexBufferBuilder<CD3DVertexXYZDUV2>,
    sink2: &CHwTVertexBufferBuilder<CD3DVertexXYZDUV2>,
    origin: Seq<EdgeModel>,
    path: Seq<EdgeModel>,
    mode: MilFillMode,
    top: int,
    end: int,
    bottom: int,
    spans: Seq<CoverageSpan>,
    use_trapezoids: bool,
)
    requires
        exists|pieces: Seq<Drawn>|
            rows_chosen(sink0, sink1, pieces, origin, mode, top, end, bottom, use_trapezoids),
        end % 8 != 0 ==> !row_applies(origin, use_trapezoids, mode, 8 * (end / 8), bottom),
        exists|orders: Seq<Seq<int>>| #[trigger] pending_lines(spans, origin, mode, top, end, orders),
        origin == seq![crate::scanline::no_edge(), crate::scanline::no_edge()] + path,
        end == if top < bottom {
            bottom
        } else {
            top
        },
        forall|k: int, v: int|
            0 <= k < origin.len() && v < top ==> !#[trigger] crate::scanline::crosses(origin[k], v),
        spans_ok(spans),
        row_sampled(spans, origin, mode, 8 * (end / 8), end),
        end % 8 != 0 ==> sink_piece(sink1, sink2, (Drawn::Scan { row: end / 8, spans: spans })),
        end % 8 == 0 ==> *sink2 == *sink1,
    ensures
        ({
            let behind = end + 7;
            exists|pieces: Seq<Drawn>|
                rows_chosen(sink0, sink2, pieces, path, mode, top, behind, bottom, use_trapezoids)
        }),
{
    let pieces = choose|pieces: Seq<Drawn>|
        rows_chosen(sink0, sink1, pieces, origin, mode, top, end, bottom, use_trapezoids);
    crate::sample::lemma_inside_behind(path, mode);
    crate::drawing::lemma_same_tally_behind(path);
    if end % 8 != 0 {
        let d = Drawn::Scan { row: end / 8, spans: spans };
        let row = end / 8;
        let stop = if bottom < 8 * row + 8 {
            bottom
        } else {
            8 * row + 8
        };
        assert forall|p: int| INT::MIN <= p < INT::MAX implies #[trigger] coverage_at(spans, p)
            == area_inside(origin, mode, 8 * row, stop, p) by {
            if top >= bottom {
                lemma_area_empty(origin, mode, 8 * row, end, p);
                lemma_area_empty(origin, mode, 8 * row, stop, p);
            }
        }
        lemma_sink_push(sink0, sink1, sink2, pieces, d);
        lemma_drawn_push(sink0.config(), sink0.strata(), pieces, d);
        lemma_true_push(pieces, d, origin, mode, bottom);
        assert(piece_first_row(d) == end / 8);
        assert(piece_next_row(d) == (end + 7) / 8);
        assert(pieces_tile(pieces.push(d), top / 8, piece_next_row(d)));
        crate::drawing::lemma_pieces_same(pieces.push(d), origin, mode, path, mode, bottom);
        let orders = choose|orders: Seq<Seq<int>>|
            #[trigger] pending_lines(spans, origin, mode, top, end, orders);
        assert(orders.len() == row_lines(row, top, bottom));
        assert(scan_lines_are(spans, origin, mode, row, top, bottom, orders));
        assert(piece_chosen(d, origin, use_trapezoids, mode, bottom, top));
        lemma_chosen_push(pieces, d, origin, use_trapezoids, mode, bottom, top);
        lemma_chosen_behind(pieces.push(d), path, use_trapezoids, mode, bottom, top);
        assert(rows_chosen(
            sink0,
            sink2,
            pieces.push(d),
            path,
            mode,
            top,
            end + 7,
            bottom,
            use_trapezoids,
        ));
    } else {
        crate::drawing::lemma_pieces_same(pieces, origin, mode, path, mode, bottom);
        lemma_chosen_behind(pieces, path, use_trapezoids, mode, bottom, top);
        assert(rows_chosen(sink0, sink2, pieces, path, mode, top, end + 7, bottom, use_trapezoids));
    }
}

/// The scanline on which the first entry of the inactive array begins is
/// the first scanline of the path.
pub proof fn lemma_first_scanline(
    origin: Seq<EdgeModel>,
    path: Seq<EdgeModel>,
    first: int,
    top: int,
)
    requires
        origin == seq![crate::scanline::no_edge(), crate::scanline::no_edge()] + path,
        forall|k: int, v: int|
            0 <= k < origin.len() && v < top ==> !#[trigger] crate::scanline::crosses(origin[k], v),
        forall|k: int| 0 <= k < path.len() ==> (#[trigger] path[k]).start_y < path[k].end_y,
        2 <= first < origin.len(),
        origin[first].start_y == top,
        top <= INT::MAX,
    ensures
        top == min_start_y(path),
{
    assert forall|k: int| 0 <= k < path.len() implies top <= (#[trigger] path[k]).start_y by {
        assert(origin[k + 2] == path[k]);
        if path[k].start_y < top {
            assert(crate::scanline::crosses(origin[k + 2], path[k].start_y));
        }
    }
    assert(origin[first] == path[first - 2]);
    lemma_min_start(path, top, first - 2);
}

/// The edges of a path cancel on every scanline within the clip rectangle
/// `rc`: as many run down across it as run up.
#[verifier::rlimit(60)]
pub proof fn lemma_path_balanced(
    points: Seq<POINT>,
    types: Seq<u8>,
    rc: MilPointAndSizeL,
    edges: Seq<CEdge>,
    top: int,
    bottom: int,
)
    requires
        edges.len() == crate::enumerate::path_edges(
            points,
            types,
            points.len() as int,
            Some(clip_bounds_28_4(rc)),
            MilAntiAliasMode::EightByEight,
        ).len(),
        forall|k: int|
            0 <= k < edges.len() ==> (#[trigger] edges[k]).model() == crate::enumerate::path_edges(
                points,
                types,
                points.len() as int,
                Some(clip_bounds_28_4(rc)),
                MilAntiAliasMode::EightByEight,
            )[k],
        8 * clip_pixel(rc.Y as int) <= top,
        bottom <= 8 * clip_pixel(rc.Y + rc.Height),
    ensures
        balanced_between(origin_of(crate::inactive::edge_table(edges)), top, bottom),
        origin_of(crate::inactive::edge_table(edges)) == seq![
            crate::scanline::no_edge(),
            crate::scanline::no_edge(),
        ] + crate::enumerate::path_edges(
            points,
            types,
            points.len() as int,
            Some(clip_bounds_28_4(rc)),
            MilAntiAliasMode::EightByEight,
        ),
{
    let clip = Some(clip_bounds_28_4(rc));
    let mode = MilAntiAliasMode::EightByEight;
    let path = crate::enumerate::path_edges(points, types, points.len() as int, clip, mode);
    let origin = origin_of(crate::inactive::edge_table(edges));
    let two = seq![crate::scanline::no_edge(), crate::scanline::no_edge()];
    assert(origin =~= two + path) by {
        assert forall|k: int| 0 <= k < origin.len() implies origin[k] == (two + path)[k] by {
            if k >= 2 {
                assert(crate::inactive::edge_table(edges)[k] == crate::inactive::unlinked(
                    edges[k - 2],
                ));
                assert(edges[k - 2].model() == path[k - 2]);
            }
        }
    }
    assert forall|y: int| top <= y < bottom implies #[trigger] net_winding(origin, y) == 0 by {
        crate::balance::lemma_path_winding(points, types, points.len() as int, 0, clip, mode, y);
        crate::scanline::lemma_crossing_concat(two, path, path.len() as int, y, true);
        assert(crate::scanline::crossing_sum(two, 0, y, true) == 0);
        assert(crate::scanline::crossing_sum(two, 1, y, true) == 0);
        assert(crate::scanline::crossing_sum(two, 2, y, true) == 0);
    }
}

/// The x of every edge of the active list is within the room that edges are
/// given.
pub proof fn lemma_edge_x_bounded_list(list: &CEdgeTable, y: int)
    requires
        list.wf(),
        list.active_at(y),
    ensures
        forall|i: int|
            1 <= i < list.order@.len() - 1 ==> -EDGE_X_BOUND <= list.edges@[#[trigger] list.order@[i]].X
                <= EDGE_X_BOUND,
{
    assert forall|i: int| 1 <= i < list.order@.len() - 1 implies -EDGE_X_BOUND
        <= list.edges@[#[trigger] list.order@[i]].X <= EDGE_X_BOUND by {
        lemma_edge_x_bounded(list.edges@[list.order@[i]].model(), y);
    }
}


impl<'a> CHwRasterizer<'a> {
    /// Fills one subpixel scanline into the coverage buffer, by the fill
    /// mode of the shape. In winding mode the winding directions of the
    /// active edges have to cancel: where they do not, nothing is filled
    /// and the result is `E_FAIL`.
    fn FillEdges(&mut self, pEdgeActiveList: &CEdgeTable, nSubpixelYCurrent: INT) -> (hr: HRESULT)
        requires
            old(self).m_coverageBuffer.wf(),
            rows_filled(old(self).m_coverageBuffer.spans(), nSubpixelYCurrent as int % 8),
            pEdgeActiveList.active_list_ok(nSubpixelYCurrent as int),
            pEdgeActiveList.active_len() <= 0xffff_ffff,
        ensures
            hr == S_OK || hr == E_OUTOFMEMORY || hr == E_FAIL,
            final(self).same_setup(old(self)),
            final(self).m_coverageBuffer.wf(),
            hr == S_OK ==> rows_filled(
                final(self).m_coverageBuffer.spans(),
                nSubpixelYCurrent as int % 8 + 1,
            ),
            final(self).m_coverageBuffer.spans().len() <= old(self).m_coverageBuffer.spans().len()
                + 2 * pEdgeActiveList.active_len(),
            hr == E_FAIL ==> !crate::aafill::winding_balanced(pEdgeActiveList.active_windings()),
            hr == E_OUTOFMEMORY ==> final(self).m_coverageBuffer.exhausted(),
            hr == S_OK ==> scanline_added(
                final(self).m_coverageBuffer.spans(),
                old(self).m_coverageBuffer.spans(),
                old(self).m_fillMode,
                pEdgeActiveList.active_xs(),
                pEdgeActiveList.active_windings(),
            ),
            hr == S_OK && old(self).m_fillMode == MilFillMode::Winding
                ==> crate::aafill::winding_balanced(pEdgeActiveList.active_windings()),
            hr == S_OK ==> cuts_are(
                final(self).m_coverageBuffer.spans(),
                old(self).m_coverageBuffer.spans(),
                fill_cuts(old(self).m_fillMode, active_models(pEdgeActiveList)),
            ),
    {
        let ghost s0 = self.m_coverageBuffer.spans();
        let ghost k = nSubpixelYCurrent as int % 8;
        proof {
            let sides = active_models(pEdgeActiveList);
            assert(Seq::new(sides.len(), |i: int| sides[i].x) =~= pEdgeActiveList.active_xs());
            assert(Seq::new(sides.len(), |i: int| sides[i].winding)
                =~= pEdgeActiveList.active_windings());
        }
        proof {
            lemma_active_xs(pEdgeActiveList, nSubpixelYCurrent as int);
            assert forall|p: int| INT::MIN <= p < INT::MAX implies 0
                <= #[trigger] crate::aacoverage::coverage_at(s0, p) <= 64 - 8 by {}
        }
        match self.m_fillMode {
            MilFillMode::Alternate => {
                let hr = self.m_coverageBuffer.FillEdgesAlternating(
                    pEdgeActiveList,
                    nSubpixelYCurrent,
                );
                proof {
                    if hr == S_OK {
                        lemma_alternate_rows(
                            self.m_coverageBuffer.spans(),
                            s0,
                            pEdgeActiveList.active_xs(),
                            k,
                        );
                        assert forall|p: int| INT::MIN <= p < INT::MAX implies #[trigger] coverage_at(
                            self.m_coverageBuffer.spans(),
                            p,
                        ) == coverage_at(s0, p) + crate::aafill::alternate_cover(
                            pEdgeActiveList.active_xs(),
                            p,
                        ) by {
                            assert(crate::aafill::alternate_cover_from(
                                pEdgeActiveList.active_xs(),
                                pEdgeActiveList.active_len(),
                                p,
                            ) == 0);
                        }
                    }
                }
                hr
            },
            MilFillMode::Winding => {
                if !ActiveWindingBalanced(pEdgeActiveList, Ghost(nSubpixelYCurrent as int)) {
                    return E_FAIL;
                }
                let hr = self.m_coverageBuffer.FillEdgesWinding(pEdgeActiveList, nSubpixelYCurrent);
                proof {
                    if hr == S_OK {
                        lemma_winding_rows(
                            self.m_coverageBuffer.spans(),
                            s0,
                            pEdgeActiveList.active_xs(),
                            pEdgeActiveList.active_windings(),
                            k,
                        );
                        assert forall|p: int| INT::MIN <= p < INT::MAX implies #[trigger] coverage_at(
                            self.m_coverageBuffer.spans(),
                            p,
                        ) == coverage_at(s0, p) + crate::aafill::winding_cover(
                            pEdgeActiveList.active_xs(),
                            pEdgeActiveList.active_windings(),
                            p,
                        ) by {
                            assert(crate::aafill::winding_cover_from(
                                pEdgeActiveList.active_xs(),
                                pEdgeActiveList.active_windings(),
                                pEdgeActiveList.active_len(),
                                p,
                            ) == 0);
                        }
                    }
                }
                hr
            },
        }
    }

    /// The general case of a scanline: fills it into the coverage buffer,
    /// outputs the device scanline where this was its last subpixel
    /// scanline, and advances the active edges to the next scanline.
    /// Gives the result and the coverage as the fill left it, which is
    /// what it output where it output a device scanline.
    #[verifier::rlimit(80)]
    fn ScanStep(
        &mut self,
        pEdgeActiveList: &mut CEdgeTable,
        nSubpixelYCurrent: &mut INT,
        nSubpixelYNextInactive: INT,
        pIGeometrySink: &mut CHwTVertexBufferBuilder<CD3DVertexXYZDUV2>,
        Ghost(inactive): Ghost<Seq<CInactiveEdge>>,
        Ghost(pos): Ghost<int>,
        Ghost(origin): Ghost<Seq<EdgeModel>>,
    ) -> (r: (HRESULT, Ghost<Seq<CoverageSpan>>))
        requires
            scan_state(
                &old(self).m_coverageBuffer,
                old(pEdgeActiveList),
                inactive,
                pos,
                *old(nSubpixelYCurrent) as int,
                nSubpixelYNextInactive as int,
                origin,
                old(self).m_fillMode,
            ),
            old(pEdgeActiveList).even(),
            *old(nSubpixelYCurrent) < EDGE_X_BOUND,
        ensures
            r.0 == S_OK || r.0 == E_OUTOFMEMORY || r.0 == E_FAIL,
            r.0 == E_FAIL ==> net_winding(origin, *old(nSubpixelYCurrent) as int) != 0,
            r.0 == E_OUTOFMEMORY ==> final(self).m_coverageBuffer.exhausted(),
            r.0 == E_OUTOFMEMORY ==> inactive.len() - 2 > EDGES_ASSURED,
            final(self).same_setup(old(self)),
            final(self).m_coverageBuffer.wf(),
            final(pIGeometrySink).same_setup(old(pIGeometrySink)),
            r.0 == S_OK ==> {
                &&& *final(nSubpixelYCurrent) == *old(nSubpixelYCurrent) + 1
                &&& rows_filled(
                    final(self).m_coverageBuffer.spans(),
                    *final(nSubpixelYCurrent) as int % 8,
                )
                &&& final(pEdgeActiveList).wf()
                &&& final(pEdgeActiveList).sentinels_ok()
                &&& final(pEdgeActiveList).x_ordered()
                &&& final(pEdgeActiveList).active_at(*final(nSubpixelYCurrent) as int)
                &&& inactive_ready(inactive, final(pEdgeActiveList).edges@, pos)
                &&& final(pEdgeActiveList).active_len() <= pos - 1
                &&& nSubpixelYNextInactive == entry_start_y(
                    inactive,
                    final(pEdgeActiveList).edges@,
                    pos,
                )
                &&& final(self).m_coverageBuffer.spans().len() <= span_budget(
                    inactive.len() - 2,
                    *final(nSubpixelYCurrent) as int % 8,
                )
                &&& strip_grown(
                    old(pIGeometrySink).strip(),
                    final(pIGeometrySink).strip(),
                    row_vertices_max(inactive.len() - 2),
                )
                &&& *final(nSubpixelYCurrent) as int % 8 != 0 ==> *final(pIGeometrySink) == *old(
                    pIGeometrySink,
                )
                &&& old(pIGeometrySink).config().force_triangles ==> final(pIGeometrySink).lines()
                    == old(pIGeometrySink).lines()
                &&& list_tracks(
                    final(pEdgeActiveList),
                    origin,
                    *old(nSubpixelYCurrent) as int,
                    *final(nSubpixelYCurrent) as int,
                )
                &&& row_sampled(
                    final(self).m_coverageBuffer.spans(),
                    origin,
                    old(self).m_fillMode,
                    8 * (*final(nSubpixelYCurrent) as int / 8),
                    *final(nSubpixelYCurrent) as int,
                )
                &&& cuts_are(
                    r.1@,
                    old(self).m_coverageBuffer.spans(),
                    fill_cuts(old(self).m_fillMode, active_models(old(pEdgeActiveList))),
                )
                &&& *final(nSubpixelYCurrent) as int % 8 != 0
                    ==> final(self).m_coverageBuffer.spans() == r.1@
                &&& *final(nSubpixelYCurrent) as int % 8 == 0
                    ==> final(self).m_coverageBuffer.is_clear()
                &&& *final(nSubpixelYCurrent) as int % 8 == 0 ==> {
                    &&& sink_piece(
                        old(pIGeometrySink),
                        final(pIGeometrySink),
                        (Drawn::Scan { row: *old(nSubpixelYCurrent) as int / 8, spans: r.1@ }),
                    )
                    &&& piece_true(
                        (Drawn::Scan { row: *old(nSubpixelYCurrent) as int / 8, spans: r.1@ }),
                        origin,
                        old(self).m_fillMode,
                        *final(nSubpixelYCurrent) as int,
                    )
                }
            },
    {
        let y: INT = *nSubpixelYCurrent;
        let ghost s0 = self.m_coverageBuffer.spans();
        proof {
            if net_winding(origin, y as int) == 0 {
                lemma_list_balanced(pEdgeActiveList, origin, y as int);
            }
            lemma_span_budget(inactive.len() - 2, y as int % 8, pEdgeActiveList.active_len());
            let strip = pIGeometrySink.strip();
            assert(strip.subrange(0, strip.len() as int) =~= strip);
        }
        let hrFill = self.FillEdges(pEdgeActiveList, y);
        if hrFill != S_OK {
            proof {
                if hrFill == E_OUTOFMEMORY {
                    self.m_coverageBuffer.lemma_exhausted();
                }
            }
            return (hrFill, Ghost(s0));
        }
        let ghost filled = self.m_coverageBuffer.spans();
        proof {
            assert forall|p: int| INT::MIN <= p < INT::MAX implies #[trigger] coverage_at(
                filled,
                p,
            ) == area_inside(origin, self.m_fillMode, 8 * (y as int / 8), y + 1, p) by {
                lemma_fill_samples(pEdgeActiveList, origin, self.m_fillMode, y as int, p);
                assert(coverage_at(s0, p) == area_inside(
                    origin,
                    self.m_fillMode,
                    8 * (y as int / 8),
                    y as int,
                    p,
                ));
            }
        }
        // If the next scan is done, output what's there:
        if LowBits(y + 1, 3) == 0 {
            self.GenerateOutputAndClearCoverage(pIGeometrySink, y);
            proof {
                lemma_clear_rows(self.m_coverageBuffer.spans());
                assert forall|p: int| INT::MIN <= p < INT::MAX implies #[trigger] coverage_at(
                    self.m_coverageBuffer.spans(),
                    p,
                ) == area_inside(origin, self.m_fillMode, y + 1, y + 1, p) by {}
            }
        }
        // Advance nSubpixelYCurrent
        *nSubpixelYCurrent = y + 1;

        // Advance DDA and update edge list
        let ghost before = *pEdgeActiveList;
        AdvanceDDAAndUpdateActiveEdgeList(y + 1, pEdgeActiveList);
        proof {
            lemma_ready_kept(inactive, &before, pEdgeActiveList, pos);
            lemma_tracks_step(&before, pEdgeActiveList, origin, y as int);
        }
        (S_OK, Ghost(filled))
    }

    /// The scanline loop: from the scanline `*nSubpixelYCurrent`, on which
    /// the first edge begins, down to `nSubpixelYBottom`.
    ///
    /// On every scanline that is filled the active list is in ascending
    /// order of x, every edge of it has the scanline among its own, and the
    /// number of its edges is even. The loop tests this on every scanline
    /// and ends with `E_FAIL` where it does not hold: that is only where,
    /// on some scanline, the edges that run down across it and those that
    /// run up are not as many, which is never so for the edges of a path.
    /// It ends with `E_OUTOFMEMORY` where the pool of coverage intervals is
    /// exhausted, which takes more than [`EDGES_ASSURED`] edges.
    ///
    /// What the loop hands to the sink is a run of pieces ([`rows_drawn`]):
    /// they take every device scanline from that of the first scanline to
    /// that of the last, and each shows the samples that are inside by the
    /// fill rule. The scanlines of a device scanline that was begun and not
    /// ended are left in the coverage buffer. The pieces are the ones that
    /// the edges ask for ([`rows_chosen`]): a row of trapezoids wherever one
    /// begins, as far down as it can go, and scans elsewhere.
    #[verifier::rlimit(40)]
    pub fn RasterizeEdges(
        &mut self,
        pEdgeActiveList: &mut CEdgeTable,
        pInactiveEdgeArray: &Vec<CInactiveEdge>,
        nSubpixelYCurrent: &mut INT,
        nSubpixelYBottom: INT,
        pIGeometrySink: &mut CHwTVertexBufferBuilder<CD3DVertexXYZDUV2>,
    ) -> (hr: HRESULT)
        requires
            old(self).m_coverageBuffer.wf(),
            old(self).m_coverageBuffer.is_clear(),
            old(pEdgeActiveList).wf(),
            old(pEdgeActiveList).sentinels_ok(),
            old(pEdgeActiveList).active_len() == 0,
            inactive_ready(pInactiveEdgeArray@, old(pEdgeActiveList).edges@, 1),
            2 < pInactiveEdgeArray@.len() <= 0xffff_fff0,
            *old(nSubpixelYCurrent) == entry_start_y(
                pInactiveEdgeArray@,
                old(pEdgeActiveList).edges@,
                1,
            ),
            nSubpixelYBottom <= EDGE_X_BOUND,
            forall|k: int|
                2 <= k < old(pEdgeActiveList).edges@.len() ==> #[trigger] has_entry(
                    pInactiveEdgeArray@,
                    k,
                ),
        ensures
            hr == S_OK || hr == E_OUTOFMEMORY || hr == E_FAIL,
            hr == E_FAIL ==> !balanced_between(
                origin_of(old(pEdgeActiveList).edges@),
                *old(nSubpixelYCurrent) as int,
                nSubpixelYBottom as int,
            ),
            hr == E_OUTOFMEMORY ==> final(self).m_coverageBuffer.exhausted(),
            hr == E_OUTOFMEMORY ==> pInactiveEdgeArray@.len() - 2 > EDGES_ASSURED,
            final(self).same_setup(old(self)),
            final(self).m_coverageBuffer.wf(),
            final(pIGeometrySink).same_setup(old(pIGeometrySink)),
            hr == S_OK ==> {
                &&& *final(nSubpixelYCurrent) == if *old(nSubpixelYCurrent) < nSubpixelYBottom {
                    nSubpixelYBottom
                } else {
                    *old(nSubpixelYCurrent)
                }
                &&& final(self).m_coverageBuffer.spans().len() <= span_budget(
                    pInactiveEdgeArray@.len() - 2,
                    *final(nSubpixelYCurrent) as int % 8,
                )
                &&& strip_grown(
                    old(pIGeometrySink).strip(),
                    final(pIGeometrySink).strip(),
                    (*final(nSubpixelYCurrent) as int / 8 - *old(nSubpixelYCurrent) as int / 8)
                        * row_vertices_max(pInactiveEdgeArray@.len() - 2),
                )
                &&& old(pIGeometrySink).config().force_triangles ==> final(pIGeometrySink).lines()
                    == old(pIGeometrySink).lines()
                &&& row_sampled(
                    final(self).m_coverageBuffer.spans(),
                    origin_of(old(pEdgeActiveList).edges@),
                    old(self).m_fillMode,
                    8 * (*final(nSubpixelYCurrent) as int / 8),
                    *final(nSubpixelYCurrent) as int,
                )
                &&& exists|pieces: Seq<Drawn>|
                    rows_chosen(
                        old(pIGeometrySink),
                        final(pIGeometrySink),
                        pieces,
                        origin_of(old(pEdgeActiveList).edges@),
                        old(self).m_fillMode,
                        *old(nSubpixelYCurrent) as int,
                        *final(nSubpixelYCurrent) as int,
                        nSubpixelYBottom as int,
                        old(self).m_fUseTrapezoids,
                    )
                &&& *final(nSubpixelYCurrent) as int % 8 != 0 ==> !row_applies(
                    origin_of(old(pEdgeActiveList).edges@),
                    old(self).m_fUseTrapezoids,
                    old(self).m_fillMode,
                    8 * (*final(nSubpixelYCurrent) as int / 8),
                    nSubpixelYBottom as int,
                )
                &&& exists|orders: Seq<Seq<int>>| #[trigger]
                    pending_lines(
                        final(self).m_coverageBuffer.spans(),
                        origin_of(old(pEdgeActiveList).edges@),
                        old(self).m_fillMode,
                        *old(nSubpixelYCurrent) as int,
                        *final(nSubpixelYCurrent) as int,
                        orders,
                    )
            },
    {
        let ghost inactive = pInactiveEdgeArray@;
        let ghost origin = origin_of(pEdgeActiveList.edges@);
        let ghost mode = self.m_fillMode;
        let ghost sink0 = *pIGeometrySink;
        let ghost mut pieces: Seq<Drawn> = Seq::empty();
        let ghost mut orders: Seq<Seq<int>> = Seq::empty();
        let ghost most = row_vertices_max(inactive.len() - 2);
        let ghost mut rows: int = 0;
        let mut pos: usize = 1;
        let mut nSubpixelYNextInactive: INT = 0;
        proof {
            let first = pEdgeActiveList.edges@[inactive[1].Edge as int];
            lemma_edge_x_bounded(first.model(), first.StartY as int);
            lemma_clear_rows(self.m_coverageBuffer.spans());
            let xs = pEdgeActiveList.xs();
            assert(pEdgeActiveList.order@[0] == 0 && pEdgeActiveList.order@[1] == 1);
            assert(xs[0] == INT::MIN && xs[1] == INT::MAX);
            lemma_span_budget(inactive.len() - 2, 0, 0);
            let strip = pIGeometrySink.strip();
            assert(strip.subrange(0, strip.len() as int) =~= strip);
            assert(0 * most == 0);
            lemma_tracks_begin(pEdgeActiveList, inactive, *nSubpixelYCurrent as int);
            lemma_sink_same(&sink0, pIGeometrySink);
            let y0 = *nSubpixelYCurrent as int;
            lemma_scan_begin(self.m_coverageBuffer.spans(), origin, mode, row_first(y0 / 8, y0));
            if y0 % 8 != 0 {
                let above = 8 * (y0 / 8);
                assert forall|k: int| 0 <= k < origin.len() implies !crate::scanline::crosses(
                    #[trigger] origin[k],
                    above,
                ) by {
                    if k >= 2 {
                        assert(has_entry(inactive, k));
                        let q = choose|q: int|
                            1 <= q <= inactive.len() - 2 && (#[trigger] inactive[q]).Edge == k;
                        crate::activelist::lemma_ready_order(
                            inactive,
                            pEdgeActiveList.edges@,
                            1,
                            1,
                            q,
                        );
                    }
                }
                lemma_no_row(origin, self.m_fUseTrapezoids, mode, above, nSubpixelYBottom as int);
            }
            assert forall|p: int| INT::MIN <= p < INT::MAX implies #[trigger] coverage_at(
                self.m_coverageBuffer.spans(),
                p,
            ) == area_inside(origin, mode, 8 * (y0 / 8), y0, p) by {
                lemma_area_empty(origin, mode, 8 * (y0 / 8), y0, p);
            }
        }
        let ghost first = *pEdgeActiveList;
        InsertNewEdges(
            pEdgeActiveList,
            *nSubpixelYCurrent,
            pInactiveEdgeArray,
            &mut pos,
            &mut nSubpixelYNextInactive,
        );
        proof {
            assert forall|p: int| INT::MIN <= p < INT::MAX implies 0
                <= #[trigger] crate::aacoverage::coverage_at(self.m_coverageBuffer.spans(), p) <= 8
                * (*nSubpixelYCurrent as int % 8) by {}
            lemma_tracks_insert(
                &first,
                pEdgeActiveList,
                origin,
                inactive,
                1,
                pos as int,
                *nSubpixelYCurrent as int,
            );
        }
        while *nSubpixelYCurrent < nSubpixelYBottom
            invariant
                inactive == pInactiveEdgeArray@,
                origin == origin_of(old(pEdgeActiveList).edges@),
                scan_state(
                    &self.m_coverageBuffer,
                    pEdgeActiveList,
                    inactive,
                    pos as int,
                    *nSubpixelYCurrent as int,
                    nSubpixelYNextInactive as int,
                    origin,
                    mode,
                ),
                mode == self.m_fillMode,
                sink0 == *old(pIGeometrySink),
                sink_drawn(&sink0, pIGeometrySink, pieces),
                pieces_tile(
                    pieces,
                    *old(nSubpixelYCurrent) as int / 8,
                    *nSubpixelYCurrent as int / 8,
                ),
                pieces_true(pieces, origin, mode, nSubpixelYBottom as int),
                pieces_chosen(
                    pieces,
                    origin,
                    self.m_fUseTrapezoids,
                    mode,
                    nSubpixelYBottom as int,
                    *old(nSubpixelYCurrent) as int,
                ),
                pending_lines(
                    self.m_coverageBuffer.spans(),
                    origin,
                    mode,
                    *old(nSubpixelYCurrent) as int,
                    *nSubpixelYCurrent as int,
                    orders,
                ),
                *nSubpixelYCurrent as int % 8 != 0 ==> !row_applies(
                    origin,
                    self.m_fUseTrapezoids,
                    mode,
                    8 * (*nSubpixelYCurrent as int / 8),
                    nSubpixelYBottom as int,
                ),
                self.same_setup(old(self)),
                pIGeometrySink.same_setup(old(pIGeometrySink)),
                nSubpixelYBottom <= EDGE_X_BOUND,
                *nSubpixelYCurrent >= *old(nSubpixelYCurrent),
                *old(nSubpixelYCurrent) < nSubpixelYBottom ==> *nSubpixelYCurrent
                    <= nSubpixelYBottom,
                *old(nSubpixelYCurrent) >= nSubpixelYBottom ==> *nSubpixelYCurrent == *old(
                    nSubpixelYCurrent,
                ),
                most == row_vertices_max(inactive.len() - 2),
                inactive.len() > 2,
                0 <= rows <= *nSubpixelYCurrent as int / 8 - *old(nSubpixelYCurrent) as int / 8,
                strip_grown(old(pIGeometrySink).strip(), pIGeometrySink.strip(), rows * most),
                old(pIGeometrySink).config().force_triangles ==> pIGeometrySink.lines() == old(
                    pIGeometrySink,
                ).lines(),
            decreases nSubpixelYBottom - *nSubpixelYCurrent,
        {
            let ghost strip = pIGeometrySink.strip();
            let ghost sinkBefore = *pIGeometrySink;
            let ghost listBefore = *pEdgeActiveList;
            let ghost yBefore = *nSubpixelYCurrent as int;
            let ghost spansBefore = self.m_coverageBuffer.spans();
            let ghost y0 = *old(nSubpixelYCurrent) as int;
            proof {
                lemma_span_budget(inactive.len() - 2, 0, 0);
            }
            // The list must hold an even number of edges, in ascending order
            // of x, each with the scanline among its own:
            if !AssertActiveList(pEdgeActiveList, *nSubpixelYCurrent) {
                proof {
                    if net_winding(origin, yBefore) == 0 {
                        lemma_list_balanced(pEdgeActiveList, origin, yBefore);
                    }
                }
                return E_FAIL;
            }
            // Output the device scanlines as trapezoids where the edges
            // allow it:
            let fTrapezoid = self.TryTrapezoid(
                pEdgeActiveList,
                nSubpixelYCurrent,
                nSubpixelYNextInactive,
                nSubpixelYBottom,
                pIGeometrySink,
                Ghost(inactive),
                Ghost(pos as int),
                Ghost(origin),
            );
            proof {
                lemma_table_chosen(
                    &listBefore,
                    inactive,
                    pos as int,
                    yBefore,
                    nSubpixelYNextInactive as int,
                    origin,
                    self.m_fUseTrapezoids,
                    mode,
                    nSubpixelYBottom as int,
                    y0,
                );
                assert(fTrapezoid == sides_apply(
                    self.m_fUseTrapezoids,
                    mode,
                    active_models(&listBefore),
                    yBefore,
                    nSubpixelYNextInactive as int,
                    nSubpixelYBottom as int,
                ));
                if !fTrapezoid {
                    assert(!row_applies(
                        origin,
                        self.m_fUseTrapezoids,
                        mode,
                        8 * (yBefore / 8),
                        nSubpixelYBottom as int,
                    ));
                }
            }
            if !fTrapezoid {
                // No row of trapezoids, so fall back to the general case.
                let (hrScan, Ghost(scan)) = self.ScanStep(
                    pEdgeActiveList,
                    nSubpixelYCurrent,
                    nSubpixelYNextInactive,
                    pIGeometrySink,
                    Ghost(inactive),
                    Ghost(pos as int),
                    Ghost(origin),
                );
                if hrScan != S_OK {
                    return hrScan;
                }
                proof {
                    let first = row_first(yBefore / 8, y0);
                    let more = orders.push(crate::scanline::active_picks(&listBefore));
                    lemma_scan_step(
                        &listBefore,
                        origin,
                        yBefore,
                        first,
                        orders,
                        spansBefore,
                        scan,
                        mode,
                    );
                    if *nSubpixelYCurrent as int % 8 == 0 {
                        let d = Drawn::Scan { row: yBefore / 8, spans: scan };
                        lemma_sink_push(&sink0, &sinkBefore, pIGeometrySink, pieces, d);
                        lemma_drawn_push(sink0.config(), sink0.strata(), pieces, d);
                        lemma_true_push(pieces, d, origin, mode, nSubpixelYBottom as int);
                        assert(more.len() == row_lines(yBefore / 8, y0, nSubpixelYBottom as int));
                        assert(scan_lines_are(
                            scan,
                            origin,
                            mode,
                            yBefore / 8,
                            y0,
                            nSubpixelYBottom as int,
                            more,
                        ));
                        assert(piece_chosen(
                            d,
                            origin,
                            self.m_fUseTrapezoids,
                            mode,
                            nSubpixelYBottom as int,
                            y0,
                        ));
                        lemma_chosen_push(
                            pieces,
                            d,
                            origin,
                            self.m_fUseTrapezoids,
                            mode,
                            nSubpixelYBottom as int,
                            y0,
                        );
                        orders = Seq::empty();
                        lemma_scan_begin(
                            self.m_coverageBuffer.spans(),
                            origin,
                            mode,
                            row_first(*nSubpixelYCurrent as int / 8, y0),
                        );
                        assert(piece_first_row(d) == yBefore / 8);
                        assert(piece_next_row(d) == *nSubpixelYCurrent as int / 8);
                        assert(pieces_tile(
                            pieces.push(d),
                            *old(nSubpixelYCurrent) as int / 8,
                            piece_next_row(d),
                        ));
                        pieces = pieces.push(d);
                    } else {
                        assert(*nSubpixelYCurrent as int / 8 == yBefore / 8);
                        orders = more;
                    }
                }
            } else {
                proof {
                    let d = trapezoids_between(&listBefore, yBefore, *nSubpixelYCurrent as int);
                    assert(12 * listBefore.active_len() <= most);
                    lemma_sink_push(&sink0, &sinkBefore, pIGeometrySink, pieces, d);
                    lemma_drawn_push(sink0.config(), sink0.strata(), pieces, d);
                    lemma_true_push(pieces, d, origin, mode, nSubpixelYBottom as int);
                    assert(piece_chosen(
                        d,
                        origin,
                        self.m_fUseTrapezoids,
                        mode,
                        nSubpixelYBottom as int,
                        y0,
                    ));
                    lemma_chosen_push(
                        pieces,
                        d,
                        origin,
                        self.m_fUseTrapezoids,
                        mode,
                        nSubpixelYBottom as int,
                        y0,
                    );
                    assert(orders.len() == 0);
                    crate::choice::lemma_scan_moved(
                        self.m_coverageBuffer.spans(),
                        origin,
                        mode,
                        row_first(yBefore / 8, y0),
                        row_first(*nSubpixelYCurrent as int / 8, y0),
                        orders,
                    );
                    assert(piece_first_row(d) == yBefore / 8);
                    assert(piece_next_row(d) == *nSubpixelYCurrent as int / 8);
                    assert(pieces_tile(
                        pieces.push(d),
                        *old(nSubpixelYCurrent) as int / 8,
                        piece_next_row(d),
                    ));
                    pieces = pieces.push(d);
                }
            }
            proof {
                let yAfter = *nSubpixelYCurrent as int;
                if pIGeometrySink.strip() != strip {
                    assert(yAfter % 8 == 0);
                    assert(yAfter / 8 >= yBefore / 8 + 1);
                    lemma_grown_twice(
                        old(pIGeometrySink).strip(),
                        strip,
                        pIGeometrySink.strip(),
                        rows * most,
                        most,
                    );
                    assert((rows + 1) * most == rows * most + most) by (nonlinear_arith);
                    rows = rows + 1;
                }
                if pos <= inactive.len() - 2 {
                    let k = inactive[pos as int].Edge as int;
                    assert(origin[k].start_y > yAfter - 1);
                    assert(pEdgeActiveList.edges@[k].model() == origin[k]);
                }
                lemma_tracks_settle(
                    pEdgeActiveList,
                    origin,
                    inactive,
                    pos as int,
                    yAfter - 1,
                    yAfter,
                );
            }
            // Update edge list
            if *nSubpixelYCurrent == nSubpixelYNextInactive {
                proof {
                    assert(pos <= inactive.len() - 2) by {
                        if pos == inactive.len() - 1 {
                            assert(inactive[pos as int].Edge == TAIL_EDGE);
                        }
                    }
                }
                let ghost settled = *pEdgeActiveList;
                let ghost posBefore = pos as int;
                InsertNewEdges(
                    pEdgeActiveList,
                    *nSubpixelYCurrent,
                    pInactiveEdgeArray,
                    &mut pos,
                    &mut nSubpixelYNextInactive,
                );
                proof {
                    lemma_tracks_insert(
                        &settled,
                        pEdgeActiveList,
                        origin,
                        inactive,
                        posBefore,
                        pos as int,
                        *nSubpixelYCurrent as int,
                    );
                }
            }
        }
        proof {
            let grown = *nSubpixelYCurrent as int / 8 - *old(nSubpixelYCurrent) as int / 8;
            assert(rows * most <= grown * most) by (nonlinear_arith)
                requires
                    rows <= grown,
                    0 <= most,
            ;
            assert(rows_chosen(
                &sink0,
                pIGeometrySink,
                pieces,
                origin,
                mode,
                *old(nSubpixelYCurrent) as int,
                *nSubpixelYCurrent as int,
                nSubpixelYBottom as int,
                self.m_fUseTrapezoids,
            ));
        }
        S_OK
    }

    /// Rasterizes the path: builds its edges, sorts them, and runs the
    /// scanline loop over them, which hands complex scans and trapezoids to
    /// the sink. On `S_OK` the sink holds the path drawn ([`path_drawn`]),
    /// in the pieces that the path asks for ([`path_decided`]).
    ///
    /// The points are 28.4 device coordinates. A path whose edges the store
    /// cannot hold draws nothing, and that is `S_OK`. A point outside the
    /// working range is `WGXERR_BADNUMBER`; nothing is drawn then either.
    /// Tags and points that differ in number, or more than `0xffff_ffff` of
    /// them, are `E_FAIL`.
    ///
    /// What is drawn is put behind the triangle strip of the sink: at most
    /// [`path_vertices_max`] vertices, each with a coverage from none to
    /// full. The result is `E_OUTOFMEMORY` where the pool of coverage
    /// intervals is exhausted, which takes more than [`EDGES_ASSURED`]
    /// edges; no other path fails.
    #[verifier::rlimit(60)]
    pub fn SendGeometry(
        &mut self,
        pIGeometrySink: &mut CHwTVertexBufferBuilder<CD3DVertexXYZDUV2>,
        rgpt: &[POINT],
        rgTypes: &[BYTE],
    ) -> (hr: HRESULT)
        requires
            old(self).m_coverageBuffer.wf(),
            old(self).m_coverageBuffer.is_clear(),
        ensures
            hr == S_OK || hr == E_OUTOFMEMORY || hr == E_FAIL || hr == WGXERR_BADNUMBER,
            hr == E_FAIL <==> rgpt@.len() != rgTypes@.len() || rgpt@.len() > 0xffff_ffff,
            hr == E_OUTOFMEMORY ==> final(self).m_coverageBuffer.exhausted(),
            hr == E_OUTOFMEMORY ==> crate::enumerate::path_edges(
                rgpt@,
                rgTypes@,
                rgpt@.len() as int,
                Some(clip_bounds_28_4(old(self).m_rcClipBounds)),
                MilAntiAliasMode::EightByEight,
            ).len() > EDGES_ASSURED,
            final(self).same_setup(old(self)),
            final(self).m_coverageBuffer.wf(),
            final(pIGeometrySink).same_setup(old(pIGeometrySink)),
            hr == WGXERR_BADNUMBER ==> *final(pIGeometrySink) == *old(pIGeometrySink),
            hr == E_FAIL ==> *final(pIGeometrySink) == *old(pIGeometrySink),
            rgpt@.len() == rgTypes@.len() && rgpt@.len() <= 0xffff_ffff ==> (hr == WGXERR_BADNUMBER
                <==> !crate::enumerate::points_in_range(
                rgpt@,
                rgpt@.len() as int,
                MilAntiAliasMode::EightByEight,
            )),
            hr == S_OK ==> strip_grown(
                old(pIGeometrySink).strip(),
                final(pIGeometrySink).strip(),
                path_vertices_max(
                    old(self).m_rcClipBounds,
                    crate::enumerate::path_edges(
                        rgpt@,
                        rgTypes@,
                        rgpt@.len() as int,
                        Some(clip_bounds_28_4(old(self).m_rcClipBounds)),
                        MilAntiAliasMode::EightByEight,
                    ).len() as int,
                ),
            ),
            hr == S_OK && old(pIGeometrySink).config().force_triangles ==> final(pIGeometrySink).lines()
                == old(pIGeometrySink).lines(),
            hr == S_OK ==> path_drawn(
                old(pIGeometrySink),
                final(pIGeometrySink),
                crate::enumerate::path_edges(
                    rgpt@,
                    rgTypes@,
                    rgpt@.len() as int,
                    Some(clip_bounds_28_4(old(self).m_rcClipBounds)),
                    MilAntiAliasMode::EightByEight,
                ),
                old(self).m_fillMode,
                old(self).m_rcClipBounds,
            ),
            hr == S_OK ==> path_decided(
                old(pIGeometrySink),
                final(pIGeometrySink),
                crate::enumerate::path_edges(
                    rgpt@,
                    rgTypes@,
                    rgpt@.len() as int,
                    Some(clip_bounds_28_4(old(self).m_rcClipBounds)),
                    MilAntiAliasMode::EightByEight,
                ),
                old(self).m_fillMode,
                old(self).m_rcClipBounds,
                old(self).m_fUseTrapezoids,
            ),
    {
        if rgpt.len() != rgTypes.len() || rgpt.len() > 0xffff_ffff {
            return E_FAIL;
        }
        let cPoints: UINT = rgpt.len() as UINT;
        let ghost sink0 = *pIGeometrySink;
        let ghost strip0 = pIGeometrySink.strip();
        let ghost added = crate::enumerate::path_edges(
            rgpt@,
            rgTypes@,
            rgpt@.len() as int,
            Some(clip_bounds_28_4(self.m_rcClipBounds)),
            MilAntiAliasMode::EightByEight,
        );
        let ghost most = path_vertices_max(self.m_rcClipBounds, added.len() as int);
        let ghost rowMost = row_vertices_max(added.len() as int);
        proof {
            assert(strip0.subrange(0, strip0.len() as int) =~= strip0);
            assert(0 <= (clip_rows(self.m_rcClipBounds) + 1) * rowMost) by (nonlinear_arith)
                requires
                    0 <= clip_rows(self.m_rcClipBounds),
                    0 <= rowMost,
            ;
        }

        // Scale the clip bounds rectangle by 16 to account for our
        // scaling to 28.4 coordinates:
        let left: i64 = ClipPixel(self.m_rcClipBounds.X as i64);
        let top: i64 = ClipPixel(self.m_rcClipBounds.Y as i64);
        let right: i64 = ClipPixel(self.m_rcClipBounds.X as i64 + self.m_rcClipBounds.Width as i64);
        let bottom: i64 = ClipPixel(
            self.m_rcClipBounds.Y as i64 + self.m_rcClipBounds.Height as i64,
        );
        let clipBounds = RECT {
            left: (left * 16) as INT,
            top: (top * 16) as INT,
            right: (right * 16) as INT,
            bottom: (bottom * 16) as INT,
        };
        let mut edgeContext = CInitializeEdgesContext {
            MaxY: INT::MIN,
            ClipRect: Some(clipBounds),
            Store: CEdgeStore::new(),
            AntiAliasMode: MilAntiAliasMode::EightByEight,
        };
        // Enumerate the path and construct the edge table:
        let hrEnumerate = FixedPointPathEnumerate(rgpt, rgTypes, cPoints, &mut edgeContext);
        if hrEnumerate != S_OK {
            if hrEnumerate == WINCODEC_ERR_VALUEOVERFLOW {
                // Draw nothing on value overflow and return
                return S_OK;
            }
            return hrEnumerate;
        }
        let totalCount: UINT = edgeContext.Store.StartEnumeration();
        if totalCount == 0 {
            // Path empty or totally clipped. The sink takes care of the
            // complement geometry when it ends building.
            return S_OK;
        }
        proof {
            edgeContext.Store.lemma_wf();
            let edges = edgeContext.Store.edges();
            assert forall|k: int| 0 <= k < edges.len() implies edge_wf(
                (#[trigger] edges[k]).model(),
            ) by {
                assert(edgeContext.Store.models()[k] == edges[k].model());
            }
        }
        // Initialize and sort the inactive array:
        let mut table = CEdgeTable::new();
        let mut inactiveArray: Vec<CInactiveEdge> = Vec::new();
        let mut nSubpixelYCurrent: INT = InitializeInactiveArray(
            &edgeContext.Store,
            &mut inactiveArray,
            totalCount,
            &mut table,
        );
        let mut nSubpixelYBottom: INT = edgeContext.MaxY;
        let ghost yTop = nSubpixelYCurrent as int;
        proof {
            assert(edgeContext.Store.models() =~= added);
            crate::enumerate::lemma_path_edges_start(
                rgpt@,
                rgTypes@,
                rgpt@.len() as int,
                0,
                Some(clipBounds),
                MilAntiAliasMode::EightByEight,
            );
            let k = inactiveArray@[1].Edge as int;
            assert(table.edges@[k] == crate::inactive::unlinked(edgeContext.Store.edges()[k - 2]));
            assert(added[k - 2] == edgeContext.Store.edges()[k - 2].model());
            let pixel = clip_pixel(self.m_rcClipBounds.Y as int);
            let first = crate::aarasterizer::clip_model(
                Some(clipBounds),
                MilAntiAliasMode::EightByEight,
            ).top_integer;
            assert(clipBounds.top == pixel * 16);
            assert(first == (pixel * 16 / 16) * 8);
            assert(first == 8 * pixel);
            assert(2 <= k < table.edges@.len());
            assert(0 <= k - 2 < added.len());
            assert(added[k - 2].start_y >= first);
            assert(yTop == added[k - 2].start_y);
            assert(yTop >= 8 * clip_pixel(self.m_rcClipBounds.Y as int));
        }

        // 'yClipBottom' is in whole pixels, and has to be converted
        // to the 29.3 format we use for antialiasing:
        let nSubpixelYClipBottom: INT = (bottom * 8) as INT;
        if nSubpixelYClipBottom < nSubpixelYBottom {
            nSubpixelYBottom = nSubpixelYClipBottom;
        }
        proof {
            assert forall|k: int| 0 <= k < edgeContext.Store.edges().len() implies (
            #[trigger] edgeContext.Store.edges()[k]).model() == added[k] by {
                assert(edgeContext.Store.models()[k] == edgeContext.Store.edges()[k].model());
            }
            lemma_path_balanced(
                rgpt@,
                rgTypes@,
                self.m_rcClipBounds,
                edgeContext.Store.edges(),
                yTop,
                nSubpixelYBottom as int,
            );
            lemma_tracks_begin(&table, inactiveArray@, yTop);
            assert forall|k: int| 0 <= k < added.len() implies (#[trigger] added[k]).start_y
                < added[k].end_y by {
                assert(edge_wf(edgeContext.Store.edges()[k].model()));
            }
            lemma_first_scanline(
                origin_of(table.edges@),
                added,
                inactiveArray@[1].Edge as int,
                yTop,
            );
        }
        let ghost origin = origin_of(table.edges@);
        let ghost yBottom = nSubpixelYBottom as int;
        let hr = self.RasterizeEdges(
            &mut table,
            &inactiveArray,
            &mut nSubpixelYCurrent,
            nSubpixelYBottom,
            pIGeometrySink,
        );
        if hr != S_OK {
            return hr;
        }
        let ghost strip1 = pIGeometrySink.strip();
        let ghost sink1 = *pIGeometrySink;
        let ghost spans1 = self.m_coverageBuffer.spans();
        let ghost rows = nSubpixelYCurrent as int / 8 - yTop / 8;
        proof {
            lemma_span_budget(added.len() as int, 0, 0);
            if nSubpixelYCurrent as int % 8 != 0 {
                lemma_span_budget(added.len() as int, nSubpixelYCurrent as int % 8 - 1, 0);
            }
            assert(rows <= clip_rows(self.m_rcClipBounds));
            assert(rows * rowMost + rowMost <= (clip_rows(self.m_rcClipBounds) + 1) * rowMost)
                by (nonlinear_arith)
                requires
                    rows <= clip_rows(self.m_rcClipBounds),
                    0 <= rowMost,
            ;
        }
        // Output the last scanline that has partial coverage
        if LowBits(nSubpixelYCurrent, 3) != 0 {
            self.GenerateOutputAndClearCoverage(pIGeometrySink, nSubpixelYCurrent);
            proof {
                lemma_grown_twice(
                    strip0,
                    strip1,
                    pIGeometrySink.strip(),
                    rows * rowMost,
                    rowMost,
                );
            }
        }
        proof {
            lemma_sent(
                &sink0,
                &sink1,
                pIGeometrySink,
                origin,
                added,
                self.m_fillMode,
                yTop,
                nSubpixelYCurrent as int,
                yBottom,
                spans1,
                self.m_fUseTrapezoids,
            );
            let rc = self.m_rcClipBounds;
            assert(0 < added.len() <= EDGE_STORE_LIMIT);
            assert(yTop == scan_top(added));
            assert(yBottom == scan_bottom(added, rc));
            assert(nSubpixelYCurrent as int == scan_end(added, rc));
            let behind = nSubpixelYCurrent as int + 7;
            let pieces = choose|pieces: Seq<Drawn>|
                rows_chosen(
                    &sink0,
                    pIGeometrySink,
                    pieces,
                    added,
                    self.m_fillMode,
                    yTop,
                    behind,
                    yBottom,
                    self.m_fUseTrapezoids,
                );
            assert(rows_chosen(
                &sink0,
                pIGeometrySink,
                pieces,
                added,
                self.m_fillMode,
                scan_top(added),
                scan_end(added, rc) + 7,
                scan_bottom(added, rc),
                self.m_fUseTrapezoids,
            ));
            assert(rows_drawn(
                &sink0,
                pIGeometrySink,
                pieces,
                added,
                self.m_fillMode,
                scan_top(added),
                scan_end(added, rc) + 7,
                scan_bottom(added, rc),
            ));
        }
        S_OK
    }
}

} // verus!
