//! The vertex buffer and its builder: turns the coverage of scanlines and
//! trapezoids into the vertices of a triangle strip (and of a line list),
//! and stitches the strata of zero-alpha geometry around them where the
//! complement of the shape is asked for.
//!
//! Coordinates of vertices are in subpixels, 1/8 of a device pixel; the
//! coverage of a vertex is in 1/64, so that 64 is full coverage.
//!
//! Strata & complement mode. The rasterizer produces a series of "strata",
//! from top to bottom without gaps, where each stratum is a complex span or
//! a row of trapezoids. In complement mode the region between the outside
//! bounds and the shape is filled with zero-alpha geometry: a rectangle for
//! every gap between strata, a lead-in to the left of the first trapezoid
//! of a row and a tail-out to the right of the last.

use vstd::prelude::*;
use crate::aacoverage::{spans_ok, CCoverageBuffer, CoverageSpan, TAIL_INTERVAL};
use crate::aarasterizer::c_nShiftSizeSquared;
use crate::types::{
    CD3DDeviceLevel1, CMILSurfaceRect, DynArrayExts, HRESULT, INT, MilPointAndSizeL,
    MilVertexFormat, MilVertexFormatAttribute, S_OK, WORD,
};
use crate::OutputVertex;

verus! {

/// The coverage of a vertex outside the shape.
pub const FLOAT_ZERO: INT = 0;

/// The coverage of a vertex inside the shape.
pub const FLOAT_ONE: INT = 64;

/// The top of the current stratum when that is no row of trapezoids.
pub const STRATUM_TOP_NONE: i64 = i64::MAX;

/// The bottom of the current stratum before the first stratum.
pub const STRATUM_BOTTOM_NONE: i64 = i64::MIN;

/// A vertex: position in subpixels and coverage in 1/64.
///
/// A vertex of a trapezoid stands beside an edge, and the edge stands a
/// fraction of a subpixel to the left of its whole subpixel `X - XDelta`:
/// by `XError / XErrorDown`, with `-XErrorDown <= XError <= 0`. Every
/// other vertex stands where `X` says, less that fraction: `XDelta`, `XDx`
/// and `XErrorUp` are 0.
#[derive(Clone, Copy, Debug, PartialEq, Eq, Structural)]
pub struct CD3DVertexXYZDUV2 {
    pub X: i64,
    pub Y: i64,
    pub Diffuse: INT,
    /// Distance from the edge, in subpixels, at which the vertex stands.
    pub XDelta: i64,
    /// Numerator of the fraction of a subpixel that is to be added to `X`:
    /// the error of the DDA of the edge.
    pub XError: i64,
    /// Denominator of that fraction.
    pub XErrorDown: i64,
    /// The slope of the edge, in subpixels of x for each scanline: the whole
    /// part `XDx` and the numerator `XErrorUp` of its fraction, over
    /// `XErrorDown`. The vertex of a trapezoid stands half a pixel, and
    /// half the slope in pixels, beside its edge; `XDelta` is that
    /// distance in subpixels with the slope rounded away from zero.
    pub XDx: i64,
    pub XErrorUp: i64,
}

impl Default for CD3DVertexXYZDUV2 {
    fn default() -> (v: Self)
        ensures
            v == (CD3DVertexXYZDUV2 { X: 0, Y: 0, Diffuse: 0, XDelta: 0, XError: 0, XErrorDown: 1, XDx: 0, XErrorUp: 0 }),
    {
        CD3DVertexXYZDUV2 { X: 0, Y: 0, Diffuse: 0, XDelta: 0, XError: 0, XErrorDown: 1, XDx: 0, XErrorUp: 0 }
    }
}

/// A point with x, y and alpha.
#[derive(Clone, Copy, Debug, PartialEq, Eq, Structural)]
pub struct PointXYA {
    pub x: i64,
    pub y: i64,
    pub a: INT,
}

/// This class accumulates geometry data for a primitive.
pub struct CHwTVertexBuffer<TVertex> {
    /// Dynamic array of indices
    pub m_rgIndices: Vec<WORD>,
    /// Indexed triangle list vertices
    pub m_rgVerticesTriList: Vec<TVertex>,
    /// Non-indexed triangle list vertices
    pub m_rgVerticesNonIndexedTriList: Vec<TVertex>,
    /// Triangle strip vertices
    pub m_rgVerticesTriStrip: Vec<TVertex>,
    /// Linelist vertices
    pub m_rgVerticesLineList: Vec<TVertex>,
}

pub type CHwVertexBuffer = CHwTVertexBuffer<CD3DVertexXYZDUV2>;

impl<TVertex> CHwTVertexBuffer<TVertex> {
    /// No list holds anything.
    pub open spec fn is_empty(&self) -> bool {
        &&& self.m_rgIndices@.len() == 0
        &&& self.m_rgVerticesTriList@.len() == 0
        &&& self.m_rgVerticesNonIndexedTriList@.len() == 0
        &&& self.m_rgVerticesTriStrip@.len() == 0
        &&& self.m_rgVerticesLineList@.len() == 0
    }

    /// An empty vertex buffer.
    pub fn new() -> (buffer: Self)
        ensures
            buffer.is_empty(),
    {
        CHwTVertexBuffer {
            m_rgIndices: Vec::new(),
            m_rgVerticesTriList: Vec::new(),
            m_rgVerticesNonIndexedTriList: Vec::new(),
            m_rgVerticesTriStrip: Vec::new(),
            m_rgVerticesLineList: Vec::new(),
        }
    }

    /// Mark the beginning of a new list of vertices; the existing list is
    /// discarded.
    pub fn Reset(&mut self)
        ensures
            final(self).is_empty(),
    {
        self.m_rgIndices.SetCount(0);
        self.m_rgVerticesTriList.SetCount(0);
        self.m_rgVerticesTriStrip.SetCount(0);
        self.m_rgVerticesLineList.SetCount(0);
        self.m_rgVerticesNonIndexedTriList.SetCount(0);
    }

    /// Does our VB have any triangles/lines?
    pub fn IsEmpty(&self) -> (empty: bool)
        ensures
            empty == (self.m_rgIndices@.len() == 0 && self.m_rgVerticesLineList@.len() == 0
                && self.m_rgVerticesTriStrip@.len() == 0
                && self.m_rgVerticesNonIndexedTriList@.len() == 0),
    {
        (self.m_rgIndices.GetCount() == 0) && (self.m_rgVerticesLineList.GetCount() == 0) && (
        self.m_rgVerticesTriStrip.GetCount() == 0) && (self.m_rgVerticesNonIndexedTriList.GetCount()
            == 0)
    }
}

/// The vertex at `(x, y)` with coverage `a`.
pub open spec fn vertex(x: int, y: int, a: int) -> CD3DVertexXYZDUV2 {
    CD3DVertexXYZDUV2 {
        X: x as i64,
        Y: y as i64,
        Diffuse: a as INT,
        XDelta: 0,
        XError: 0,
        XErrorDown: 1,
        XDx: 0,
        XErrorUp: 0,
    }
}

/// The vertex that stands `delta` subpixels from the edge at `x`, whose
/// exact place is `x + error / down`, on the height `y` with coverage `a`.
pub open spec fn side_vertex(x: int, delta: int, error: int, down: int, y: int, a: int) -> CD3DVertexXYZDUV2 {
    sloped_vertex(x, delta, error, down, 0, 0, y, a)
}

/// The vertex that stands `delta` subpixels from the edge at `x`, whose
/// exact place is `x + error / down` and whose slope is `dx + up / down`,
/// on the height `y` with coverage `a`.
pub open spec fn sloped_vertex(
    x: int,
    delta: int,
    error: int,
    down: int,
    dx: int,
    up: int,
    y: int,
    a: int,
) -> CD3DVertexXYZDUV2 {
    CD3DVertexXYZDUV2 {
        X: (x + delta) as i64,
        Y: y as i64,
        Diffuse: a as INT,
        XDelta: delta as i64,
        XError: error as i64,
        XErrorDown: down as i64,
        XDx: dx as i64,
        XErrorUp: up as i64,
    }
}

/// The strip of a rectangle of one coverage: its top left corner twice, its
/// bottom left, top right and bottom right corner, and the last once more.
/// The doubled corners make the degenerate triangles that tie the
/// rectangle to the strips before and behind it.
pub open spec fn quad(x0: int, x1: int, y0: int, y1: int, a: int) -> Seq<CD3DVertexXYZDUV2> {
    seq![
        vertex(x0, y0, a),
        vertex(x0, y0, a),
        vertex(x0, y1, a),
        vertex(x1, y0, a),
        vertex(x1, y1, a),
        vertex(x1, y1, a),
    ]
}

/// A horizontal line as a strip: the rectangle of one pixel height around
/// it, moved left by half a pixel, because the line runs from the centre of
/// its first pixel to the centre of the pixel behind its last.
pub open spec fn line_strip(begin: CD3DVertexXYZDUV2, end: CD3DVertexXYZDUV2) -> Seq<
    CD3DVertexXYZDUV2,
> {
    quad(begin.X - 4, end.X - 4, begin.Y - 4, begin.Y + 4, begin.Diffuse as int)
}

/// The six vertices of [`quad`].
pub fn Quad(x0: i64, x1: i64, y0: i64, y1: i64, a: INT) -> (vertices: Vec<CD3DVertexXYZDUV2>)
    ensures
        vertices@ == quad(x0 as int, x1 as int, y0 as int, y1 as int, a as int),
{
    let mut vertices: Vec<CD3DVertexXYZDUV2> = Vec::new();
    // Duplicate the first vertex.
    vertices.push(CD3DVertexXYZDUV2 { X: x0, Y: y0, Diffuse: a, XDelta: 0, XError: 0, XErrorDown: 1, XDx: 0, XErrorUp: 0 });
    vertices.push(CD3DVertexXYZDUV2 { X: x0, Y: y0, Diffuse: a, XDelta: 0, XError: 0, XErrorDown: 1, XDx: 0, XErrorUp: 0 });
    vertices.push(CD3DVertexXYZDUV2 { X: x0, Y: y1, Diffuse: a, XDelta: 0, XError: 0, XErrorDown: 1, XDx: 0, XErrorUp: 0 });
    vertices.push(CD3DVertexXYZDUV2 { X: x1, Y: y0, Diffuse: a, XDelta: 0, XError: 0, XErrorDown: 1, XDx: 0, XErrorUp: 0 });
    vertices.push(CD3DVertexXYZDUV2 { X: x1, Y: y1, Diffuse: a, XDelta: 0, XError: 0, XErrorDown: 1, XDx: 0, XErrorUp: 0 });
    // Duplicate the last vertex.
    vertices.push(CD3DVertexXYZDUV2 { X: x1, Y: y1, Diffuse: a, XDelta: 0, XError: 0, XErrorDown: 1, XDx: 0, XErrorUp: 0 });
    assert(vertices@ =~= quad(x0 as int, x1 as int, y0 as int, y1 as int, a as int));
    vertices
}

/// Largest magnitude of a coordinate of a line that can be widened to a
/// strip.
pub open spec fn line_coord_max() -> int {
    0x4000_0000_0000_0000
}

impl CHwTVertexBuffer<CD3DVertexXYZDUV2> {
    /// Append vertices to the triangle strip.
    pub fn AddTriStripVertices(&mut self, vertices: &mut Vec<CD3DVertexXYZDUV2>)
        ensures
            final(self).m_rgVerticesTriStrip@ == old(self).m_rgVerticesTriStrip@ + old(vertices)@,
            final(self).m_rgVerticesLineList == old(self).m_rgVerticesLineList,
            final(self).m_rgIndices == old(self).m_rgIndices,
            final(self).m_rgVerticesTriList == old(self).m_rgVerticesTriList,
            final(self).m_rgVerticesNonIndexedTriList == old(self).m_rgVerticesNonIndexedTriList,
    {
        self.m_rgVerticesTriStrip.append(vertices);
    }

    /// Append vertices to the line list.
    pub fn AddLineListVertices(&mut self, vertices: &mut Vec<CD3DVertexXYZDUV2>)
        ensures
            final(self).m_rgVerticesLineList@ == old(self).m_rgVerticesLineList@ + old(vertices)@,
            final(self).m_rgVerticesTriStrip == old(self).m_rgVerticesTriStrip,
            final(self).m_rgIndices == old(self).m_rgIndices,
            final(self).m_rgVerticesTriList == old(self).m_rgVerticesTriList,
            final(self).m_rgVerticesNonIndexedTriList == old(self).m_rgVerticesNonIndexedTriList,
    {
        self.m_rgVerticesLineList.append(vertices);
    }

    /// Adds a horizontal line as a triangle strip, to work around lines on
    /// the first row of the viewport that may not render.
    ///
    /// The line begins on the first pixel center and ends on the center of
    /// the pixel after the line segment; its height and its coverage are
    /// those of `pBegin`.
    pub fn AddLineAsTriangleStrip(&mut self, pBegin: &CD3DVertexXYZDUV2, pEnd: &CD3DVertexXYZDUV2)
        requires
            -line_coord_max() <= pBegin.X <= line_coord_max(),
            -line_coord_max() <= pBegin.Y <= line_coord_max(),
            -line_coord_max() <= pEnd.X <= line_coord_max(),
        ensures
            final(self).m_rgVerticesTriStrip@ == old(self).m_rgVerticesTriStrip@ + line_strip(
                *pBegin,
                *pEnd,
            ),
            final(self).m_rgVerticesLineList == old(self).m_rgVerticesLineList,
            final(self).m_rgIndices == old(self).m_rgIndices,
            final(self).m_rgVerticesTriList == old(self).m_rgVerticesTriList,
            final(self).m_rgVerticesNonIndexedTriList == old(self).m_rgVerticesNonIndexedTriList,
    {
        // Offset begin and end X left by 0.5 because the line starts on the first
        // pixel center and ends on the center of the pixel after the line segment.
        let x0: i64 = pBegin.X - 4;
        let x1: i64 = pEnd.X - 4;
        let y: i64 = pBegin.Y;
        let dwDiffuse: INT = pBegin.Diffuse;
        // Offset two vertices up and two down to form a 1-pixel-high quad.
        // Order is TL-BL-TR-BR.
        let mut vertices = Quad(x0, x1, y - 4, y + 4, dwDiffuse);
        self.AddTriStripVertices(&mut vertices);
    }

    /// Add a line given two points with x, y, & alpha: to the line list, or,
    /// where `fUseTriangles` says so, as a triangle strip.
    pub fn AddLine(&mut self, v0: &PointXYA, v1: &PointXYA, fUseTriangles: bool)
        requires
            -line_coord_max() <= v0.x <= line_coord_max(),
            -line_coord_max() <= v0.y <= line_coord_max(),
            -line_coord_max() <= v1.x <= line_coord_max(),
        ensures
            final(self).m_rgVerticesTriStrip@ == old(self).m_rgVerticesTriStrip@ + line_vertices(
                *v0,
                *v1,
                fUseTriangles,
            ).0,
            final(self).m_rgVerticesLineList@ == old(self).m_rgVerticesLineList@ + line_vertices(
                *v0,
                *v1,
                fUseTriangles,
            ).1,
            final(self).m_rgIndices == old(self).m_rgIndices,
            final(self).m_rgVerticesTriList == old(self).m_rgVerticesTriList,
            final(self).m_rgVerticesNonIndexedTriList == old(self).m_rgVerticesNonIndexedTriList,
    {
        let begin = CD3DVertexXYZDUV2 { X: v0.x, Y: v0.y, Diffuse: v0.a, XDelta: 0, XError: 0, XErrorDown: 1, XDx: 0, XErrorUp: 0 };
        let end = CD3DVertexXYZDUV2 { X: v1.x, Y: v1.y, Diffuse: v1.a, XDelta: 0, XError: 0, XErrorDown: 1, XDx: 0, XErrorUp: 0 };
        if fUseTriangles {
            self.AddLineAsTriangleStrip(&begin, &end);
            assert(self.m_rgVerticesLineList@ + Seq::<CD3DVertexXYZDUV2>::empty()
                =~= self.m_rgVerticesLineList@);
        } else {
            let mut vertices: Vec<CD3DVertexXYZDUV2> = Vec::new();
            vertices.push(begin);
            vertices.push(end);
            assert(vertices@ =~= seq![begin, end]);
            self.AddLineListVertices(&mut vertices);
            assert(self.m_rgVerticesTriStrip@ + Seq::<CD3DVertexXYZDUV2>::empty()
                =~= self.m_rgVerticesTriStrip@);
        }
    }

    /// Send the geometry data to the device: the vertices of the triangle
    /// strip to its output, those of the line list to its line output.
    pub fn DrawPrimitive(&self, pDevice: &mut CD3DDeviceLevel1)
        ensures
            final(pDevice).clipRect == old(pDevice).clipRect,
            final(pDevice).output@ == old(pDevice).output@ + output_vertices(
                self.m_rgVerticesTriStrip@,
            ),
            final(pDevice).outputLines@ == old(pDevice).outputLines@ + output_vertices(
                self.m_rgVerticesLineList@,
            ),
    {
        let ghost out0 = pDevice.output@;
        let ghost lines0 = pDevice.outputLines@;
        let mut i: usize = 0;
        while i < self.m_rgVerticesTriStrip.len()
            invariant
                i <= self.m_rgVerticesTriStrip@.len(),
                pDevice.clipRect == old(pDevice).clipRect,
                pDevice.outputLines@ == lines0,
                pDevice.output@ == out0 + output_vertices(
                    self.m_rgVerticesTriStrip@.subrange(0, i as int),
                ),
            decreases self.m_rgVerticesTriStrip@.len() - i,
        {
            let v = self.m_rgVerticesTriStrip[i];
            pDevice.output.push(
                OutputVertex {
                    x: v.X,
                    y: v.Y,
                    coverage: v.Diffuse,
                    x_delta: v.XDelta,
                    x_error: v.XError,
                    x_error_down: v.XErrorDown,
                    x_dx: v.XDx,
                    x_error_up: v.XErrorUp,
                },
            );
            assert(out0 + output_vertices(self.m_rgVerticesTriStrip@.subrange(0, i + 1))
                =~= pDevice.output@);
            i += 1;
        }
        assert(self.m_rgVerticesTriStrip@.subrange(0, i as int) =~= self.m_rgVerticesTriStrip@);
        let mut k: usize = 0;
        while k < self.m_rgVerticesLineList.len()
            invariant
                k <= self.m_rgVerticesLineList@.len(),
                pDevice.clipRect == old(pDevice).clipRect,
                pDevice.output@ == out0 + output_vertices(self.m_rgVerticesTriStrip@),
                pDevice.outputLines@ == lines0 + output_vertices(
                    self.m_rgVerticesLineList@.subrange(0, k as int),
                ),
            decreases self.m_rgVerticesLineList@.len() - k,
        {
            let v = self.m_rgVerticesLineList[k];
            pDevice.outputLines.push(
                OutputVertex {
                    x: v.X,
                    y: v.Y,
                    coverage: v.Diffuse,
                    x_delta: v.XDelta,
                    x_error: v.XError,
                    x_error_down: v.XErrorDown,
                    x_dx: v.XDx,
                    x_error_up: v.XErrorUp,
                },
            );
            assert(lines0 + output_vertices(self.m_rgVerticesLineList@.subrange(0, k + 1))
                =~= pDevice.outputLines@);
            k += 1;
        }
        assert(self.m_rgVerticesLineList@.subrange(0, k as int) =~= self.m_rgVerticesLineList@);
    }
}

/// The vertices as they are handed to the device.
pub open spec fn output_vertices(vertices: Seq<CD3DVertexXYZDUV2>) -> Seq<OutputVertex> {
    vertices.map_values(
        |v: CD3DVertexXYZDUV2|
            OutputVertex {
                x: v.X,
                y: v.Y,
                coverage: v.Diffuse,
                x_delta: v.XDelta,
                x_error: v.XError,
                x_error_down: v.XErrorDown,
                x_dx: v.XDx,
                x_error_up: v.XErrorUp,
            },
    )
}

/// What a line adds to the triangle strip (first) and to the line list
/// (second).
pub open spec fn line_vertices(v0: PointXYA, v1: PointXYA, triangles: bool) -> (
    Seq<CD3DVertexXYZDUV2>,
    Seq<CD3DVertexXYZDUV2>,
) {
    let begin = CD3DVertexXYZDUV2 { X: v0.x, Y: v0.y, Diffuse: v0.a, XDelta: 0, XError: 0, XErrorDown: 1, XDx: 0, XErrorUp: 0 };
    let end = CD3DVertexXYZDUV2 { X: v1.x, Y: v1.y, Diffuse: v1.a, XDelta: 0, XError: 0, XErrorDown: 1, XDx: 0, XErrorUp: 0 };
    if triangles {
        (line_strip(begin, end), Seq::empty())
    } else {
        (Seq::empty(), seq![begin, end])
    }
}


/// What a builder is set to produce: whether the inside of the shape, whether
/// the outside of the shape within the outside bounds, which are in whole
/// device pixels, and whether lines become triangle strips.
pub struct BuilderConfig {
    pub need_inside: bool,
    pub need_outside: bool,
    pub left: int,
    pub top: int,
    pub right: int,
    pub bottom: int,
    pub viewport_top: int,
    pub force_triangles: bool,
}

/// The strata state: top and bottom of the stratum in progress, and the
/// right end of its last trapezoid, in subpixels, with the fraction of a
/// subpixel by which that edge stands to the left of it.
pub struct Strata {
    pub top: int,
    pub bottom: int,
    pub last_right: int,
    pub last_right_error: int,
    pub last_right_error_down: int,
}

/// The strata state before the first stratum.
pub open spec fn strata_initial() -> Strata {
    Strata {
        top: STRATUM_TOP_NONE as int,
        bottom: STRATUM_BOTTOM_NONE as int,
        last_right: i64::MIN as int,
        last_right_error: 0,
        last_right_error_down: 1,
    }
}

/// True if we should create geometry for a particular coverage value: not
/// for full coverage where the inside is not needed, and not for none
/// where the outside is not needed.
pub open spec fn need_coverage_geometry(c: BuilderConfig, coverage: int) -> bool {
    (c.need_inside || coverage != c_nShiftSizeSquared) && (c.need_outside || coverage != 0)
}

pub open spec fn max_int(a: int, b: int) -> int {
    if a > b {
        a
    } else {
        b
    }
}

pub open spec fn min_int(a: int, b: int) -> int {
    if a < b {
        a
    } else {
        b
    }
}

/// The first pixel of a span that begins at `begin` and ends before `end`,
/// cut to the outside bounds where there are any.
pub open spec fn span_begin(c: BuilderConfig, begin: int, end: int) -> int {
    if c.need_outside {
        max_int(begin, min_int(end, c.left))
    } else {
        begin
    }
}

/// The pixel behind the last pixel of a span, cut to the outside bounds
/// where there are any.
pub open spec fn span_end(c: BuilderConfig, begin: int, end: int) -> int {
    if c.need_outside {
        min_int(end, max_int(span_begin(c, begin, end), c.right))
    } else {
        end
    }
}

/// Whether a scan at pixel row `y` is drawn with triangles: where it is
/// within one scanline of the top of the viewport, where lines may be
/// clipped away, and where the builder is set to.
pub open spec fn use_triangles(c: BuilderConfig, y: int) -> bool {
    y <= c.viewport_top || c.force_triangles
}

/// The line of one span of a scan at pixel row `y`: from the centre of its
/// first pixel to the centre of the pixel behind its last.
pub open spec fn span_line(c: BuilderConfig, begin: int, end: int, y: int, coverage: int) -> (
    PointXYA,
    PointXYA,
) {
    (
        PointXYA {
            x: (8 * span_begin(c, begin, end) + 4) as i64,
            y: (8 * y + 4) as i64,
            a: coverage as INT,
        },
        PointXYA {
            x: (8 * span_end(c, begin, end) + 4) as i64,
            y: (8 * y + 4) as i64,
            a: coverage as INT,
        },
    )
}

/// What the spans of a scan from the `t`-th on add to the triangle strip.
pub open spec fn scan_strip(c: BuilderConfig, spans: Seq<CoverageSpan>, t: int, y: int) -> Seq<
    CD3DVertexXYZDUV2,
>
    decreases spans.len() - t,
{
    if t < 0 || t + 1 >= spans.len() {
        Seq::empty()
    } else {
        (if need_coverage_geometry(c, spans[t].coverage) {
            let line = span_line(c, spans[t].x, spans[t + 1].x, y, spans[t].coverage);
            line_vertices(line.0, line.1, use_triangles(c, y)).0
        } else {
            Seq::empty()
        }) + scan_strip(c, spans, t + 1, y)
    }
}

/// What the spans of a scan from the `t`-th on add to the line list.
pub open spec fn scan_lines(c: BuilderConfig, spans: Seq<CoverageSpan>, t: int, y: int) -> Seq<
    CD3DVertexXYZDUV2,
>
    decreases spans.len() - t,
{
    if t < 0 || t + 1 >= spans.len() {
        Seq::empty()
    } else {
        (if need_coverage_geometry(c, spans[t].coverage) {
            let line = span_line(c, spans[t].x, spans[t + 1].x, y, spans[t].coverage);
            line_vertices(line.0, line.1, use_triangles(c, y)).1
        } else {
            Seq::empty()
        }) + scan_lines(c, spans, t + 1, y)
    }
}

/// The tail-out of the stratum in progress, where that is a row of
/// trapezoids: from the right end of its last trapezoid, or from the right
/// of the outside bounds where that is further right, down its height.
/// Where it begins at the trapezoid, it begins where the edge stands, with
/// its fraction.
pub open spec fn stratum_close(c: BuilderConfig, s: Strata) -> Seq<CD3DVertexXYZDUV2> {
    if s.top != STRATUM_TOP_NONE {
        let right = max_int(8 * c.right, s.last_right);
        let error = if s.last_right > 8 * c.right {
            s.last_right_error
        } else {
            0
        };
        let down = if s.last_right > 8 * c.right {
            s.last_right_error_down
        } else {
            1
        };
        seq![
            side_vertex(right, 0, error, down, s.top, 0),
            side_vertex(right, 0, error, down, s.bottom, 0),
            side_vertex(right, 0, error, down, s.bottom, 0),
        ]
    } else {
        Seq::empty()
    }
}

/// The rectangle for the gap between the stratum in progress and a new
/// stratum that begins at `top`; before the first stratum, for the gap
/// below the top of the outside bounds.
pub open spec fn stratum_gap(c: BuilderConfig, s: Strata, top: int) -> Seq<CD3DVertexXYZDUV2> {
    if top > s.bottom {
        let rect_top = if s.bottom == STRATUM_BOTTOM_NONE {
            8 * c.top
        } else {
            s.bottom
        };
        quad(8 * c.left, 8 * c.right, rect_top, top, 0)
    } else {
        Seq::empty()
    }
}

/// The lead-in of a new row of trapezoids: from the left of the outside
/// bounds, or from the left end of its first trapezoid where that is
/// further left, down its height.
/// Where it begins at the trapezoid, it begins where the edge stands:
/// `left_error / left_error_down` of a subpixel to the left of
/// `trapezoid_left`.
pub open spec fn stratum_open_at(
    c: BuilderConfig,
    top: int,
    bottom: int,
    trapezoid: bool,
    trapezoid_left: int,
    left_error: int,
    left_error_down: int,
) -> Seq<CD3DVertexXYZDUV2> {
    if trapezoid {
        let left = min_int(8 * c.left, trapezoid_left);
        let error = if trapezoid_left <= 8 * c.left {
            left_error
        } else {
            0
        };
        let down = if trapezoid_left <= 8 * c.left {
            left_error_down
        } else {
            1
        };
        seq![
            side_vertex(left, 0, error, down, top, 0),
            side_vertex(left, 0, error, down, top, 0),
            side_vertex(left, 0, error, down, bottom, 0),
        ]
    } else {
        Seq::empty()
    }
}

/// Whether a stratum from `top` to `bottom` is a new stratum: it ends at
/// another height than the stratum in progress, or it is the closing call,
/// with the bottom of the outside bounds for both.
pub open spec fn stratum_is_new(c: BuilderConfig, s: Strata, top: int, bottom: int) -> bool {
    (bottom == 8 * c.bottom && top == 8 * c.bottom) || bottom != s.bottom
}

/// The zero-alpha vertices that go before a new stratum from `top` to
/// `bottom`: where the stratum in progress is a row of trapezoids that now
/// ends, its tail-out to the right; a rectangle for the gap above the new
/// stratum; and where the new stratum is a row of trapezoids, the lead-in
/// to the left of its first trapezoid.
pub open spec fn stratum_patch_at(
    c: BuilderConfig,
    s: Strata,
    top: int,
    bottom: int,
    trapezoid: bool,
    trapezoid_left: int,
    left_error: int,
    left_error_down: int,
) -> Seq<CD3DVertexXYZDUV2> {
    if stratum_is_new(c, s, top, bottom) {
        stratum_close(c, s) + stratum_gap(c, s, top) + stratum_open_at(
            c,
            top,
            bottom,
            trapezoid,
            trapezoid_left,
            left_error,
            left_error_down,
        )
    } else {
        Seq::empty()
    }
}

/// The strata state once a stratum from `top` to `bottom` was prepared.
pub open spec fn stratum_next_at(
    s: Strata,
    top: int,
    bottom: int,
    trapezoid: bool,
    trapezoid_right: int,
    right_error: int,
    right_error_down: int,
) -> Strata {
    Strata {
        top: if trapezoid {
            top
        } else {
            STRATUM_TOP_NONE as int
        },
        bottom: bottom,
        last_right: if trapezoid {
            trapezoid_right
        } else {
            s.last_right
        },
        last_right_error: if trapezoid {
            right_error
        } else {
            s.last_right_error
        },
        last_right_error_down: if trapezoid {
            right_error_down
        } else {
            s.last_right_error_down
        },
    }
}

/// The corners and the fringes of a trapezoid, in subpixels.
pub struct Trapezoid {
    pub y_top: int,
    pub x_top_left: int,
    pub x_top_right: int,
    pub y_bottom: int,
    pub x_bottom_left: int,
    pub x_bottom_right: int,
    pub x_left_delta: int,
    pub x_right_delta: int,
    /// The fraction of a subpixel by which the left side stands to the left
    /// of its whole subpixel: numerator and denominator.
    pub left_error: int,
    pub left_error_down: int,
    /// The same of the right side.
    pub right_error: int,
    pub right_error_down: int,
    /// The numerators of the two fractions at the bottom; the others are
    /// those at the top.
    pub left_error_bottom: int,
    pub right_error_bottom: int,
    /// The slopes of the two sides: whole part and numerator.
    pub left_dx: int,
    pub left_error_up: int,
    pub right_dx: int,
    pub right_error_up: int,
}

/// The strip of an anti-aliased trapezoid: across the left fringe the
/// coverage rises from 0 to 1, then comes the solid interior, and across
/// the right fringe the coverage falls to 0. Without outside geometry the
/// first and the last vertex are doubled, to tie the trapezoid to its
/// neighbours in the strip; without inside geometry the two vertices at
/// the interior are doubled, to skip the interior.
pub open spec fn trapezoid_strip(c: BuilderConfig, z: Trapezoid) -> Seq<CD3DVertexXYZDUV2> {
    let lead = if !c.need_outside {
        seq![sloped_vertex(
            z.x_top_left,
            -z.x_left_delta,
            z.left_error,
            z.left_error_down,
            z.left_dx,
            z.left_error_up,
            z.y_top,
            FLOAT_ZERO as int,
        )]
    } else {
        Seq::empty()
    };
    let left = seq![
        sloped_vertex(
            z.x_top_left,
            -z.x_left_delta,
            z.left_error,
            z.left_error_down,
            z.left_dx,
            z.left_error_up,
            z.y_top,
            FLOAT_ZERO as int,
        ),
        sloped_vertex(
            z.x_bottom_left,
            -z.x_left_delta,
            z.left_error_bottom,
            z.left_error_down,
            z.left_dx,
            z.left_error_up,
            z.y_bottom,
            FLOAT_ZERO as int,
        ),
        sloped_vertex(
            z.x_top_left,
            z.x_left_delta,
            z.left_error,
            z.left_error_down,
            z.left_dx,
            z.left_error_up,
            z.y_top,
            FLOAT_ONE as int,
        ),
        sloped_vertex(
            z.x_bottom_left,
            z.x_left_delta,
            z.left_error_bottom,
            z.left_error_down,
            z.left_dx,
            z.left_error_up,
            z.y_bottom,
            FLOAT_ONE as int,
        ),
    ];
    let skip = if !c.need_inside {
        seq![
            sloped_vertex(
            z.x_bottom_left,
            z.x_left_delta,
            z.left_error_bottom,
            z.left_error_down,
            z.left_dx,
            z.left_error_up,
            z.y_bottom,
            FLOAT_ONE as int,
        ),
            sloped_vertex(
            z.x_top_right,
            -z.x_right_delta,
            z.right_error,
            z.right_error_down,
            z.right_dx,
            z.right_error_up,
            z.y_top,
            FLOAT_ONE as int,
        ),
        ]
    } else {
        Seq::empty()
    };
    let right = seq![
        sloped_vertex(
            z.x_top_right,
            -z.x_right_delta,
            z.right_error,
            z.right_error_down,
            z.right_dx,
            z.right_error_up,
            z.y_top,
            FLOAT_ONE as int,
        ),
        sloped_vertex(
            z.x_bottom_right,
            -z.x_right_delta,
            z.right_error_bottom,
            z.right_error_down,
            z.right_dx,
            z.right_error_up,
            z.y_bottom,
            FLOAT_ONE as int,
        ),
        sloped_vertex(
            z.x_top_right,
            z.x_right_delta,
            z.right_error,
            z.right_error_down,
            z.right_dx,
            z.right_error_up,
            z.y_top,
            FLOAT_ZERO as int,
        ),
        sloped_vertex(
            z.x_bottom_right,
            z.x_right_delta,
            z.right_error_bottom,
            z.right_error_down,
            z.right_dx,
            z.right_error_up,
            z.y_bottom,
            FLOAT_ZERO as int,
        ),
    ];
    let trail = if !c.need_outside {
        seq![sloped_vertex(
            z.x_bottom_right,
            z.x_right_delta,
            z.right_error_bottom,
            z.right_error_down,
            z.right_dx,
            z.right_error_up,
            z.y_bottom,
            FLOAT_ZERO as int,
        )]
    } else {
        Seq::empty()
    };
    lead + left + skip + right + trail
}

/// Implements the vertex buffer builder for a particular vertex format.
pub struct CHwTVertexBufferBuilder<TVertex> {
    /// The top of the viewport last time BeginBuilding was called.
    pub m_iViewportTop: INT,
    /// Vertex fields that are pre-generated
    pub m_mvfIn: MilVertexFormat,
    /// Vertex fields that are dynamically generated by this builder
    pub m_mvfGenerated: MilVertexFormat,
    /// Vertex field that contains PPAA falloff factor
    pub m_mvfaAntiAliasScaleLocation: MilVertexFormatAttribute,
    pub m_pVB: CHwTVertexBuffer<TVertex>,
    /// This is true if we had to flush the pipeline as we were getting
    /// geometry rather than just filling up a single vertex buffer.
    pub m_fHasFlushed: bool,
    /// Lines are always drawn as triangle strips, so that all output is
    /// one triangle strip.
    pub m_fForceTriangles: bool,
    // The next two members control the generation of the zero-alpha geometry
    // outside the input geometry.
    pub m_fNeedOutsideGeometry: bool,
    pub m_fNeedInsideGeometry: bool,
    /// Bounds for creation of outside geometry
    pub m_rcOutsideBounds: CMILSurfaceRect,
    // This interval (if we are doing outside) shows the location
    // of the current stratum.  It is initialized to [MAX, MIN].
    //
    // If the current stratum is a complex span then
    // m_rCurStratumBottom is set to the bottom of the stratum and
    // m_rCurStratumTop is set to MAX.
    //
    // If the current stratum is a trapezoidal one, then
    // m_rCurStratumBottom is its bottom and m_rCurStratumTop is its
    // top.
    pub m_rCurStratumTop: i64,
    pub m_rCurStratumBottom: i64,
    /// If the current stratum is a trapezoidal one, following var stores
    /// right boundary of the last trapezoid handled by PrepareStratum.
    /// We need it to close the stratum properly.
    pub m_rLastTrapezoidRight: i64,
    /// The fraction of a subpixel by which the right edge of the last
    /// trapezoid stands to the left of `m_rLastTrapezoidRight`: numerator
    /// and denominator.
    pub m_rLastTrapezoidRightError: i64,
    pub m_rLastTrapezoidRightErrorDown: i64,
}

pub type CHwVertexBufferBuilder = CHwTVertexBufferBuilder<CD3DVertexXYZDUV2>;

impl<TVertex> CHwTVertexBufferBuilder<TVertex> {
    /// What the builder is set to produce.
    pub open spec fn config(&self) -> BuilderConfig {
        BuilderConfig {
            need_inside: self.m_fNeedInsideGeometry,
            need_outside: self.m_fNeedOutsideGeometry,
            left: self.m_rcOutsideBounds.left as int,
            top: self.m_rcOutsideBounds.top as int,
            right: self.m_rcOutsideBounds.right as int,
            bottom: self.m_rcOutsideBounds.bottom as int,
            viewport_top: self.m_iViewportTop as int,
            force_triangles: self.m_fForceTriangles,
        }
    }

    /// The strata state.
    pub open spec fn strata(&self) -> Strata {
        Strata {
            top: self.m_rCurStratumTop as int,
            bottom: self.m_rCurStratumBottom as int,
            last_right: self.m_rLastTrapezoidRight as int,
            last_right_error: self.m_rLastTrapezoidRightError as int,
            last_right_error_down: self.m_rLastTrapezoidRightErrorDown as int,
        }
    }

    /// Inside or outside geometry is asked for.
    pub open spec fn wf(&self) -> bool {
        self.m_fNeedOutsideGeometry || self.m_fNeedInsideGeometry
    }

    /// A builder over the vertex buffer, for the inside of shapes and with
    /// no stratum begun.
    pub fn new(pVertexBuffer: CHwTVertexBuffer<TVertex>) -> (builder: Self)
        ensures
            builder.m_pVB == pVertexBuffer,
            builder.strata() == strata_initial(),
            builder.m_fNeedInsideGeometry,
            !builder.m_fNeedOutsideGeometry,
            !builder.m_fHasFlushed,
            !builder.m_fForceTriangles,
            builder.m_iViewportTop == 0,
            builder.m_rcOutsideBounds == (CMILSurfaceRect { left: 0, top: 0, right: 0, bottom: 0 }),
            builder.m_mvfIn == 0,
            builder.m_mvfGenerated == 0,
            builder.m_mvfaAntiAliasScaleLocation == MilVertexFormatAttribute::MILVFAttrNone,
            builder.wf(),
    {
        CHwTVertexBufferBuilder {
            m_pVB: pVertexBuffer,
            // These two track the Y extent of the shape this builder is producing.
            m_rCurStratumTop: STRATUM_TOP_NONE,
            m_rCurStratumBottom: STRATUM_BOTTOM_NONE,
            m_fNeedOutsideGeometry: false,
            m_fNeedInsideGeometry: true,
            m_rLastTrapezoidRight: i64::MIN,
            m_rLastTrapezoidRightError: 0,
            m_rLastTrapezoidRightErrorDown: 1,
            m_fHasFlushed: false,
            m_fForceTriangles: false,
            m_iViewportTop: 0,
            m_rcOutsideBounds: CMILSurfaceRect { left: 0, top: 0, right: 0, bottom: 0 },
            m_mvfIn: 0,
            m_mvfGenerated: 0,
            m_mvfaAntiAliasScaleLocation: MilVertexFormatAttribute::MILVFAttrNone,
        }
    }

    /// Choose the appropriate conversion method: the fields that this
    /// builder generates are those of `mvfOut` that `mvfIn` does not bring.
    /// The position is never generated.
    pub fn SetupConverter(
        &mut self,
        mvfIn: MilVertexFormat,
        mvfOut: MilVertexFormat,
        mvfaAntiAliasScaleLocation: MilVertexFormatAttribute,
    ) -> (hr: HRESULT)
        requires
            (mvfOut & !mvfIn) & 0x1 == 0,
        ensures
            hr == S_OK,
            final(self).m_mvfIn == mvfIn,
            final(self).m_mvfGenerated == mvfOut & !mvfIn,
            final(self).m_mvfaAntiAliasScaleLocation == mvfaAntiAliasScaleLocation,
            final(self).m_pVB == old(self).m_pVB,
            final(self).config() == old(self).config(),
            final(self).strata() == old(self).strata(),
            final(self).m_fHasFlushed == old(self).m_fHasFlushed,
    {
        self.m_mvfIn = mvfIn;
        self.m_mvfGenerated = mvfOut & !self.m_mvfIn;
        self.m_mvfaAntiAliasScaleLocation = mvfaAntiAliasScaleLocation;
        S_OK
    }

    /// Instantiate a specific type of vertex builder.
    pub fn CreateTemplate(
        pVertexBuffer: CHwTVertexBuffer<TVertex>,
        mvfIn: MilVertexFormat,
        mvfOut: MilVertexFormat,
        mvfaAntiAliasScaleLocation: MilVertexFormatAttribute,
    ) -> (builder: Self)
        requires
            (mvfOut & !mvfIn) & 0x1 == 0,
        ensures
            builder.m_pVB == pVertexBuffer,
            builder.strata() == strata_initial(),
            builder.m_fNeedInsideGeometry,
            !builder.m_fNeedOutsideGeometry,
            !builder.m_fHasFlushed,
            !builder.m_fForceTriangles,
            builder.m_iViewportTop == 0,
            builder.m_rcOutsideBounds == (CMILSurfaceRect { left: 0, top: 0, right: 0, bottom: 0 }),
            builder.m_mvfIn == mvfIn,
            builder.m_mvfGenerated == mvfOut & !mvfIn,
            builder.m_mvfaAntiAliasScaleLocation == mvfaAntiAliasScaleLocation,
            builder.wf(),
    {
        let mut pVertexBufferBuilder = CHwTVertexBufferBuilder::<TVertex>::new(pVertexBuffer);
        pVertexBufferBuilder.SetupConverter(mvfIn, mvfOut, mvfaAntiAliasScaleLocation);
        pVertexBufferBuilder
    }

    /// Enables rendering zero-alpha geometry outside of the input shape but
    /// within the given bounding rectangle, which is in whole pixels; if
    /// `fNeedInside` isn't true then it doesn't render geometry with full
    /// alpha. Without a rectangle only the inside is rendered.
    pub fn SetOutsideBounds(&mut self, prcBounds: Option<CMILSurfaceRect>, fNeedInside: bool)
        ensures
            final(self).wf(),
            final(self).m_fNeedOutsideGeometry == prcBounds.is_some(),
            final(self).m_fNeedInsideGeometry == (prcBounds.is_none() || fNeedInside),
            prcBounds.is_some() ==> final(self).m_rcOutsideBounds == prcBounds.unwrap(),
            prcBounds.is_none() ==> final(self).m_rcOutsideBounds == old(self).m_rcOutsideBounds,
            final(self).m_pVB == old(self).m_pVB,
            final(self).strata() == old(self).strata(),
            final(self).m_iViewportTop == old(self).m_iViewportTop,
            final(self).m_fForceTriangles == old(self).m_fForceTriangles,
            final(self).m_fHasFlushed == old(self).m_fHasFlushed,
    {
        match prcBounds {
            Some(rcBounds) => {
                self.m_rcOutsideBounds = rcBounds;
                self.m_fNeedOutsideGeometry = true;
                self.m_fNeedInsideGeometry = fNeedInside;
            },
            None => {
                self.m_fNeedOutsideGeometry = false;
                self.m_fNeedInsideGeometry = true;
            },
        }
    }

    /// Returns true if outside bounds have been set.
    pub fn HasOutsideBounds(&self) -> (has: bool)
        ensures
            has == self.m_fNeedOutsideGeometry,
    {
        self.NeedOutsideGeometry()
    }

    /// True if we should create geometry with zero alpha for areas outside
    /// the input geometry but within a given bounding box.
    pub fn NeedOutsideGeometry(&self) -> (need: bool)
        ensures
            need == self.m_fNeedOutsideGeometry,
    {
        self.m_fNeedOutsideGeometry
    }

    /// True if we should create geometry for areas completely within the
    /// input geometry (i.e. alpha 1.)
    pub fn NeedInsideGeometry(&self) -> (need: bool)
        ensures
            need == self.m_fNeedInsideGeometry,
    {
        self.m_fNeedInsideGeometry
    }

    /// Returns true if the coverage value needs to be rendered.
    ///
    /// Two cases where we don't need to generate geometry:
    ///  1. NeedInsideGeometry is false, and the coverage is full.
    ///  2. NeedOutsideGeometry is false and the coverage is 0.
    pub fn NeedCoverageGeometry(&self, nCoverage: INT) -> (need: bool)
        ensures
            need == need_coverage_geometry(self.config(), nCoverage as int),
    {
        (self.NeedInsideGeometry() || nCoverage != 64) && (self.NeedOutsideGeometry() || nCoverage
            != 0)
    }

    /// Returns the top of the viewport last time BeginBuilding was called.
    pub fn GetViewportTop(&self) -> (top: INT)
        ensures
            top == self.m_iViewportTop,
    {
        self.m_iViewportTop
    }

    /// Prepare for a new primitive by resetting the vertex buffer, and by
    /// noting the top of the viewport of the device, in whose first row a
    /// horizontal line can be clipped away.
    pub fn BeginBuilding(&mut self, pDevice: &CD3DDeviceLevel1) -> (hr: HRESULT)
        ensures
            hr == S_OK,
            !final(self).m_fHasFlushed,
            final(self).m_pVB.is_empty(),
            final(self).m_iViewportTop == pDevice.clipRect.Y,
            final(self).strata() == old(self).strata(),
            final(self).m_fNeedOutsideGeometry == old(self).m_fNeedOutsideGeometry,
            final(self).m_fNeedInsideGeometry == old(self).m_fNeedInsideGeometry,
            final(self).m_rcOutsideBounds == old(self).m_rcOutsideBounds,
            final(self).m_fForceTriangles == old(self).m_fForceTriangles,
    {
        self.m_fHasFlushed = false;
        self.m_pVB.Reset();
        // We need to know the viewport that this vertex buffer will be applied
        // to because a horizontal line through the first row of the viewport
        // can be incorrectly clipped.
        let rcViewport: MilPointAndSizeL = pDevice.GetViewport();
        self.m_iViewportTop = rcViewport.Y;
        S_OK
    }
}


/// The vertices that [`CHwTVertexBufferBuilder::PrepareStratum`] adds: none
/// without outside geometry.
pub open spec fn prepared_patch_at(
    c: BuilderConfig,
    s: Strata,
    top: int,
    bottom: int,
    trapezoid: bool,
    trapezoid_left: int,
    left_error: int,
    left_error_down: int,
) -> Seq<CD3DVertexXYZDUV2> {
    if c.need_outside {
        stratum_patch_at(c, s, top, bottom, trapezoid, trapezoid_left, left_error, left_error_down)
    } else {
        Seq::empty()
    }
}

/// [`prepared_patch_at`] for a stratum that begins on a whole subpixel.
pub open spec fn prepared_patch(
    c: BuilderConfig,
    s: Strata,
    top: int,
    bottom: int,
    trapezoid: bool,
    trapezoid_left: int,
) -> Seq<CD3DVertexXYZDUV2> {
    prepared_patch_at(c, s, top, bottom, trapezoid, trapezoid_left, 0, 1)
}

/// The strata state after [`CHwTVertexBufferBuilder::PrepareStratum`]:
/// unchanged without outside geometry.
pub open spec fn prepared_strata_at(
    c: BuilderConfig,
    s: Strata,
    top: int,
    bottom: int,
    trapezoid: bool,
    trapezoid_right: int,
    right_error: int,
    right_error_down: int,
) -> Strata {
    if c.need_outside {
        stratum_next_at(s, top, bottom, trapezoid, trapezoid_right, right_error, right_error_down)
    } else {
        s
    }
}

/// [`prepared_strata_at`] for a stratum that ends on a whole subpixel.
pub open spec fn prepared_strata(
    c: BuilderConfig,
    s: Strata,
    top: int,
    bottom: int,
    trapezoid: bool,
    trapezoid_right: int,
) -> Strata {
    prepared_strata_at(c, s, top, bottom, trapezoid, trapezoid_right, 0, 1)
}

/// The numerator of the fraction of the left end of a side that stands at
/// `x_top` less `error_top` at the top and at `x_bottom` less
/// `error_bottom` at the bottom, both over one denominator: that of the
/// end that is further left.
pub open spec fn side_min_error(x_top: int, error_top: int, x_bottom: int, error_bottom: int) -> int {
    if x_top < x_bottom {
        error_top
    } else if x_bottom < x_top {
        error_bottom
    } else {
        min_int(error_top, error_bottom)
    }
}

/// The same of the right end: that of the end that is further right.
pub open spec fn side_max_error(x_top: int, error_top: int, x_bottom: int, error_bottom: int) -> int {
    if x_top > x_bottom {
        error_top
    } else if x_bottom > x_top {
        error_bottom
    } else {
        max_int(error_top, error_bottom)
    }
}

/// The trapezoid with the given corners and fringes.
pub open spec fn trapezoid_of(
    y_top: int,
    x_top_left: int,
    x_top_right: int,
    y_bottom: int,
    x_bottom_left: int,
    x_bottom_right: int,
    x_left_delta: int,
    x_right_delta: int,
    left_error: int,
    left_error_down: int,
    right_error: int,
    right_error_down: int,
    left_error_bottom: int,
    right_error_bottom: int,
    left_dx: int,
    left_error_up: int,
    right_dx: int,
    right_error_up: int,
) -> Trapezoid {
    Trapezoid {
        y_top,
        x_top_left,
        x_top_right,
        y_bottom,
        x_bottom_left,
        x_bottom_right,
        x_left_delta,
        x_right_delta,
        left_error,
        left_error_down,
        right_error,
        right_error_down,
        left_error_bottom,
        right_error_bottom,
        left_dx,
        left_error_up,
        right_dx,
        right_error_up,
    }
}

impl CHwTVertexBufferBuilder<CD3DVertexXYZDUV2> {
    /// Nothing of the builder changed but its vertex buffer and its strata
    /// state.
    pub open spec fn same_setup(&self, before: &Self) -> bool {
        &&& self.config() == before.config()
        &&& self.m_fHasFlushed == before.m_fHasFlushed
        &&& self.m_mvfIn == before.m_mvfIn
        &&& self.m_mvfGenerated == before.m_mvfGenerated
        &&& self.m_mvfaAntiAliasScaleLocation == before.m_mvfaAntiAliasScaleLocation
        &&& self.m_pVB.m_rgIndices == before.m_pVB.m_rgIndices
        &&& self.m_pVB.m_rgVerticesTriList == before.m_pVB.m_rgVerticesTriList
        &&& self.m_pVB.m_rgVerticesNonIndexedTriList == before.m_pVB.m_rgVerticesNonIndexedTriList
    }

    /// The vertices of the triangle strip.
    pub open spec fn strip(&self) -> Seq<CD3DVertexXYZDUV2> {
        self.m_pVB.m_rgVerticesTriStrip@
    }

    /// The vertices of the line list.
    pub open spec fn lines(&self) -> Seq<CD3DVertexXYZDUV2> {
        self.m_pVB.m_rgVerticesLineList@
    }

    /// Choose the appropriate final vertex format and instantiate the
    /// matching vertex builder.
    pub fn Create(
        vfIn: MilVertexFormat,
        vfOut: MilVertexFormat,
        mvfaAntiAliasScaleLocation: MilVertexFormatAttribute,
        pDevice: &CD3DDeviceLevel1,
    ) -> (builder: Self)
        requires
            (vfOut & !vfIn) & 0x1 == 0,
        ensures
            builder.m_pVB.is_empty(),
            builder.strata() == strata_initial(),
            builder.m_fNeedInsideGeometry,
            !builder.m_fNeedOutsideGeometry,
            !builder.m_fHasFlushed,
            !builder.m_fForceTriangles,
            builder.m_iViewportTop == 0,
            builder.m_rcOutsideBounds == (CMILSurfaceRect { left: 0, top: 0, right: 0, bottom: 0 }),
            builder.m_mvfIn == vfIn,
            builder.m_mvfGenerated == vfOut & !vfIn,
            builder.m_mvfaAntiAliasScaleLocation == mvfaAntiAliasScaleLocation,
            builder.wf(),
    {
        CHwTVertexBufferBuilder::<CD3DVertexXYZDUV2>::CreateTemplate(
            CHwTVertexBuffer::new(),
            vfIn,
            vfOut,
            mvfaAntiAliasScaleLocation,
        )
    }

    /// Says whether lines are always drawn as triangle strips, so that the
    /// whole output is one triangle strip.
    pub fn SetForceTriangles(&mut self, fForceTriangles: bool)
        ensures
            final(self).m_fForceTriangles == fForceTriangles,
            final(self).m_pVB == old(self).m_pVB,
            final(self).strata() == old(self).strata(),
            final(self).m_fNeedOutsideGeometry == old(self).m_fNeedOutsideGeometry,
            final(self).m_fNeedInsideGeometry == old(self).m_fNeedInsideGeometry,
            final(self).m_rcOutsideBounds == old(self).m_rcOutsideBounds,
            final(self).m_iViewportTop == old(self).m_iViewportTop,
            final(self).m_fHasFlushed == old(self).m_fHasFlushed,
    {
        self.m_fForceTriangles = fForceTriangles;
    }

    /// Call before producing a new stratum (complex span or trapezoid).
    /// Without outside geometry this does nothing.
    pub fn PrepareStratum(
        &mut self,
        rStratumTop: i64,
        rStratumBottom: i64,
        fTrapezoid: bool,
        rTrapezoidLeft: i64,
        rTrapezoidRight: i64,
        nLeftError: i64,
        nLeftErrorDown: i64,
        nRightError: i64,
        nRightErrorDown: i64,
    ) -> (hr: HRESULT)
        ensures
            hr == S_OK,
            final(self).same_setup(old(self)),
            final(self).lines() == old(self).lines(),
            final(self).strip() == old(self).strip() + prepared_patch_at(
                old(self).config(),
                old(self).strata(),
                rStratumTop as int,
                rStratumBottom as int,
                fTrapezoid,
                rTrapezoidLeft as int,
                nLeftError as int,
                nLeftErrorDown as int,
            ),
            final(self).strata() == prepared_strata_at(
                old(self).config(),
                old(self).strata(),
                rStratumTop as int,
                rStratumBottom as int,
                fTrapezoid,
                rTrapezoidRight as int,
                nRightError as int,
                nRightErrorDown as int,
            ),
    {
        if self.NeedOutsideGeometry() {
            self.PrepareStratumSlow(
                rStratumTop,
                rStratumBottom,
                fTrapezoid,
                rTrapezoidLeft,
                rTrapezoidRight,
                nLeftError,
                nLeftErrorDown,
                nRightError,
                nRightErrorDown,
            )
        } else {
            assert(self.strip() + Seq::<CD3DVertexXYZDUV2>::empty() =~= self.strip());
            S_OK
        }
    }

    /// Call before producing a new stratum (complex span or trapezoid.)
    /// Handles several tasks:
    ///   1. Producing between top of complement geometry & the 1st
    ///      stratum or when a gap between strata occurs (because
    ///      the geometry is not closed and has horizontal gaps.)
    ///      Passing in the bottom of the outside bounds for top and bottom
    ///      fills the gap between the last stratum and the bottom
    ///      of the outside.
    ///   2. Begins and/or ends the triangle strip corresponding to
    ///      a trapezoid row.
    ///   3. Updates the strata state.
    pub fn PrepareStratumSlow(
        &mut self,
        rStratumTop: i64,
        rStratumBottom: i64,
        fTrapezoid: bool,
        rTrapezoidLeft: i64,
        rTrapezoidRight: i64,
        nLeftError: i64,
        nLeftErrorDown: i64,
        nRightError: i64,
        nRightErrorDown: i64,
    ) -> (hr: HRESULT)
        ensures
            hr == S_OK,
            final(self).same_setup(old(self)),
            final(self).lines() == old(self).lines(),
            final(self).strip() == old(self).strip() + stratum_patch_at(
                old(self).config(),
                old(self).strata(),
                rStratumTop as int,
                rStratumBottom as int,
                fTrapezoid,
                rTrapezoidLeft as int,
                nLeftError as int,
                nLeftErrorDown as int,
            ),
            final(self).strata() == stratum_next_at(
                old(self).strata(),
                rStratumTop as int,
                rStratumBottom as int,
                fTrapezoid,
                rTrapezoidRight as int,
                nRightError as int,
                nRightErrorDown as int,
            ),
    {
        let ghost c = self.config();
        let ghost s = self.strata();
        let ghost strip0 = self.strip();
        let OutsideBottom: i64 = (self.m_rcOutsideBounds.bottom as i64) * 8;

        // There's only once case where a stratum can go "backwards"
        // and that's when we're done building & calling from
        // EndBuildingOutside
        let fEndBuildingOutside = rStratumBottom == OutsideBottom && rStratumTop == OutsideBottom;
        if fEndBuildingOutside || rStratumBottom != self.m_rCurStratumBottom {
            // New stratum starting now.  Two things to do
            //  1. Close out current trapezoid stratum if necessary.
            //  2. Begin new trapezoid stratum if necessary.
            let mut close = self.StratumClose();
            let mut gap = self.StratumGap(rStratumTop);
            let mut open = self.StratumOpen(
                rStratumTop,
                rStratumBottom,
                fTrapezoid,
                rTrapezoidLeft,
                nLeftError,
                nLeftErrorDown,
            );
            self.m_pVB.AddTriStripVertices(&mut close);
            self.m_pVB.AddTriStripVertices(&mut gap);
            self.m_pVB.AddTriStripVertices(&mut open);
            proof {
                assert(self.strip() =~= strip0 + (stratum_close(c, s) + stratum_gap(
                    c,
                    s,
                    rStratumTop as int,
                ) + stratum_open_at(
                    c,
                    rStratumTop as int,
                    rStratumBottom as int,
                    fTrapezoid,
                    rTrapezoidLeft as int,
                    nLeftError as int,
                    nLeftErrorDown as int,
                )));
            }
        } else {
            proof {
                assert(self.strip() =~= strip0 + Seq::<CD3DVertexXYZDUV2>::empty());
            }
        }
        if fTrapezoid {
            self.m_rLastTrapezoidRight = rTrapezoidRight;
            self.m_rLastTrapezoidRightError = nRightError;
            self.m_rLastTrapezoidRightErrorDown = nRightErrorDown;
        }
        self.m_rCurStratumTop = if fTrapezoid {
            rStratumTop
        } else {
            STRATUM_TOP_NONE
        };
        self.m_rCurStratumBottom = rStratumBottom;
        S_OK
    }

    /// The vertices that end the current trapezoid stratum, if there is one.
    fn StratumClose(&self) -> (vertices: Vec<CD3DVertexXYZDUV2>)
        ensures
            vertices@ == stratum_close(self.config(), self.strata()),
    {
        let OutsideRight: i64 = (self.m_rcOutsideBounds.right as i64) * 8;
        let mut close: Vec<CD3DVertexXYZDUV2> = Vec::new();
        if self.m_rCurStratumTop != STRATUM_TOP_NONE {
            // End current trapezoid stratum.
            //
            // we do not clip trapezoids so RIGHT boundary
            // of the stratus can be outside of m_rcOutsideBounds.
            let fAtBounds: bool = OutsideRight >= self.m_rLastTrapezoidRight;
            let rOutsideRight: i64 = if fAtBounds {
                OutsideRight
            } else {
                self.m_rLastTrapezoidRight
            };
            let error: i64 = if fAtBounds {
                0
            } else {
                self.m_rLastTrapezoidRightError
            };
            let down: i64 = if fAtBounds {
                1
            } else {
                self.m_rLastTrapezoidRightErrorDown
            };
            close.push(
                CD3DVertexXYZDUV2 { X: rOutsideRight, Y: self.m_rCurStratumTop, Diffuse: FLOAT_ZERO, XDelta: 0, XError: error, XErrorDown: down, XDx: 0, XErrorUp: 0 },
            );
            close.push(
                CD3DVertexXYZDUV2 {
                    X: rOutsideRight,
                    Y: self.m_rCurStratumBottom,
                    Diffuse: FLOAT_ZERO,
                    XDelta: 0,
                    XError: error,
                    XErrorDown: down,
                    XDx: 0,
                    XErrorUp: 0,
                },
            );
            // Duplicate last vertex in row
            close.push(
                CD3DVertexXYZDUV2 {
                    X: rOutsideRight,
                    Y: self.m_rCurStratumBottom,
                    Diffuse: FLOAT_ZERO,
                    XDelta: 0,
                    XError: error,
                    XErrorDown: down,
                    XDx: 0,
                    XErrorUp: 0,
                },
            );
        }
        assert(close@ =~= stratum_close(self.config(), self.strata()));
        close
    }

    /// The rectangle for the gap between where the last stratum ended and
    /// where this one begins, if there is a gap.
    fn StratumGap(&self, rStratumTop: i64) -> (vertices: Vec<CD3DVertexXYZDUV2>)
        ensures
            vertices@ == stratum_gap(self.config(), self.strata(), rStratumTop as int),
    {
        let OutsideLeft: i64 = (self.m_rcOutsideBounds.left as i64) * 8;
        let OutsideRight: i64 = (self.m_rcOutsideBounds.right as i64) * 8;
        let OutsideTop: i64 = (self.m_rcOutsideBounds.top as i64) * 8;
        // Compute the gap between where the last stratum ended and where
        // this one begins.
        if rStratumTop > self.m_rCurStratumBottom {
            // The "special" case of a gap at the beginning is caught here
            // using the sentinel initial value of m_rCurStratumBottom.
            let flRectTop: i64 = if self.m_rCurStratumBottom == STRATUM_BOTTOM_NONE {
                OutsideTop
            } else {
                self.m_rCurStratumBottom
            };
            let flRectBot: i64 = rStratumTop;
            // Produce rectangular for any horizontal intervals in the
            // outside bounds that have no generated geometry.
            Quad(OutsideLeft, OutsideRight, flRectTop, flRectBot, FLOAT_ZERO)
        } else {
            Vec::new()
        }
    }

    /// The vertices that begin a new trapezoid stratum, if the stratum is
    /// one.
    fn StratumOpen(
        &self,
        rStratumTop: i64,
        rStratumBottom: i64,
        fTrapezoid: bool,
        rTrapezoidLeft: i64,
        nLeftError: i64,
        nLeftErrorDown: i64,
    ) -> (vertices: Vec<CD3DVertexXYZDUV2>)
        ensures
            vertices@ == stratum_open_at(
                self.config(),
                rStratumTop as int,
                rStratumBottom as int,
                fTrapezoid,
                rTrapezoidLeft as int,
                nLeftError as int,
                nLeftErrorDown as int,
            ),
    {
        let OutsideLeft: i64 = (self.m_rcOutsideBounds.left as i64) * 8;
        let mut open: Vec<CD3DVertexXYZDUV2> = Vec::new();
        if fTrapezoid {
            // Begin new trapezoid stratum.
            //
            // we do not clip trapezoids so left boundary
            // of the stratus can be outside of m_rcOutsideBounds.
            let fAtBounds: bool = OutsideLeft < rTrapezoidLeft;
            let rOutsideLeft: i64 = if fAtBounds {
                OutsideLeft
            } else {
                rTrapezoidLeft
            };
            let error: i64 = if fAtBounds {
                0
            } else {
                nLeftError
            };
            let down: i64 = if fAtBounds {
                1
            } else {
                nLeftErrorDown
            };
            // Duplicate first vertex.
            open.push(
                CD3DVertexXYZDUV2 {
                    X: rOutsideLeft,
                    Y: rStratumTop,
                    Diffuse: FLOAT_ZERO,
                    XDelta: 0,
                    XError: error,
                    XErrorDown: down,
                    XDx: 0,
                    XErrorUp: 0,
                },
            );
            open.push(
                CD3DVertexXYZDUV2 {
                    X: rOutsideLeft,
                    Y: rStratumTop,
                    Diffuse: FLOAT_ZERO,
                    XDelta: 0,
                    XError: error,
                    XErrorDown: down,
                    XDx: 0,
                    XErrorUp: 0,
                },
            );
            open.push(
                CD3DVertexXYZDUV2 {
                    X: rOutsideLeft,
                    Y: rStratumBottom,
                    Diffuse: FLOAT_ZERO,
                    XDelta: 0,
                    XError: error,
                    XErrorDown: down,
                    XDx: 0,
                    XErrorUp: 0,
                },
            );
        }
        assert(open@ =~= stratum_open_at(
            self.config(),
            rStratumTop as int,
            rStratumBottom as int,
            fTrapezoid,
            rTrapezoidLeft as int,
            nLeftError as int,
            nLeftErrorDown as int,
        ));
        open
    }

    /// Add a coverage span to the vertex buffer: the scan at pixel row
    /// `nPixelY` with the coverage of the intervals of `coverage`.
    ///
    /// Every interval whose coverage is needed becomes a horizontal line, at
    /// the height of the pixel centers, from the centre of its first pixel
    /// to the centre of the pixel behind its last, with its coverage; the
    /// line goes to the line list, or as a strip of one pixel height to the
    /// triangle strip. With outside geometry the intervals are cut to the
    /// outside bounds.
    pub fn AddComplexScan(&mut self, nPixelY: INT, coverage: &CCoverageBuffer) -> (hr: HRESULT)
        requires
            coverage.wf(),
        ensures
            hr == S_OK,
            final(self).same_setup(old(self)),
            final(self).strip() == old(self).strip() + prepared_patch(
                old(self).config(),
                old(self).strata(),
                8 * nPixelY,
                8 * (nPixelY + 1),
                false,
                0,
            ) + scan_strip(old(self).config(), coverage.spans(), 0, nPixelY as int),
            final(self).lines() == old(self).lines() + scan_lines(
                old(self).config(),
                coverage.spans(),
                0,
                nPixelY as int,
            ),
            final(self).strata() == prepared_strata(
                old(self).config(),
                old(self).strata(),
                8 * nPixelY,
                8 * (nPixelY + 1),
                false,
                0,
            ),
    {
        let ghost c = self.config();
        let ghost spans = coverage.spans();
        let ghost y = nPixelY as int;
        let ghost strip0 = self.strip();
        let ghost lines0 = self.lines();
        self.PrepareStratum(
            (nPixelY as i64) * 8,
            (nPixelY as i64 + 1) * 8,
            false,
            0,
            0,
            0,
            1,
            0,
            1,
        );
        let ghost strip1 = self.strip();
        let ghost strata1 = self.strata();
        let rPixelY: i64 = (nPixelY as i64) * 8 + 4;

        // Use triangles instead of lines, for lines too close to the top of the viewport
        // because lines are clipped (before rasterization) against a viewport that only
        // includes half of the top pixel row.
        let fUseTriangles: bool = nPixelY <= self.GetViewportTop() || self.m_fForceTriangles;

        // Output all segments if creating outside geometry, otherwise only output segments
        // with non-zero coverage.
        let mut pIntervalSpan: usize = coverage.Start();
        let ghost mut t: int = 0;
        proof {
            assert(strip1 + scan_strip(c, spans, 0, y) =~= strip1 + scan_strip(c, spans, t, y));
            assert(lines0 + scan_lines(c, spans, 0, y) =~= lines0 + scan_lines(c, spans, t, y));
        }
        loop
            invariant_except_break
                coverage.at_place(pIntervalSpan, t),
                self.strip() + scan_strip(c, spans, t, y) == strip1 + scan_strip(c, spans, 0, y),
                self.lines() + scan_lines(c, spans, t, y) == lines0 + scan_lines(c, spans, 0, y),
            invariant
                coverage.wf(),
                spans == coverage.spans(),
                c == self.config(),
                c == old(self).config(),
                y == nPixelY,
                rPixelY == 8 * y + 4,
                fUseTriangles == use_triangles(c, y),
                self.same_setup(old(self)),
                self.strata() == strata1,
                0 <= t,
            ensures
                self.strip() == strip1 + scan_strip(c, spans, 0, y),
                self.lines() == lines0 + scan_lines(c, spans, 0, y),
            decreases spans.len() - t,
        {
            let interval = coverage.IntervalAt(pIntervalSpan, Ghost(t));
            let ghost stripNow = self.strip();
            let ghost linesNow = self.lines();
            // Output line list segments
            //
            // Note that line segments light pixels by going through the the
            // "diamond" interior of a pixel.  We use line segments that
            // start in center of first pixel and end in center of one pixel
            // beyond last.
            //
            // Since our top left corner is integer, we add 0.5 to get to the
            // pixel center.
            if self.NeedCoverageGeometry(interval.m_nCoverage) {
                let mut iBegin: INT = interval.m_nPixelX;
                let mut iEnd: INT = coverage.IntervalEnd(pIntervalSpan, Ghost(t));
                if self.NeedOutsideGeometry() {
                    // Intersect the interval with the outside bounds to create
                    // start and stop lines.  The scan begins (ends) with an
                    // interval starting (ending) at -inf (+inf).
                    //
                    // The given geometry is not guaranteed to be within m_rcOutsideBounds but
                    // the additional inner min and max (in that order) produce empty spans
                    // for intervals not intersecting m_rcOutsideBounds.
                    let inner: INT = if iEnd < self.m_rcOutsideBounds.left {
                        iEnd
                    } else {
                        self.m_rcOutsideBounds.left
                    };
                    iBegin = if iBegin > inner {
                        iBegin
                    } else {
                        inner
                    };
                    let outer: INT = if iBegin > self.m_rcOutsideBounds.right {
                        iBegin
                    } else {
                        self.m_rcOutsideBounds.right
                    };
                    iEnd = if iEnd < outer {
                        iEnd
                    } else {
                        outer
                    };
                }
                let rPixelXBegin: i64 = (iBegin as i64) * 8 + 4;
                let rPixelXEnd: i64 = (iEnd as i64) * 8 + 4;

                // Output line (linelist or tristrip) for a pixel
                let v0 = PointXYA { x: rPixelXBegin, y: rPixelY, a: interval.m_nCoverage };
                let v1 = PointXYA { x: rPixelXEnd, y: rPixelY, a: interval.m_nCoverage };
                proof {
                    let line = span_line(c, spans[t].x, spans[t + 1].x, y, spans[t].coverage);
                    assert(line.0 == v0 && line.1 == v1);
                }
                self.m_pVB.AddLine(&v0, &v1, fUseTriangles);
            }
            proof {
                let piece = scan_strip(c, spans, t, y);
                let rest = scan_strip(c, spans, t + 1, y);
                assert(self.strip() + rest =~= stripNow + piece);
                let pieceLines = scan_lines(c, spans, t, y);
                let restLines = scan_lines(c, spans, t + 1, y);
                assert(self.lines() + restLines =~= linesNow + pieceLines);
            }
            // Advance coverage buffer
            if interval.m_pNext == TAIL_INTERVAL {
                proof {
                    assert(scan_strip(c, spans, t + 1, y) =~= Seq::<CD3DVertexXYZDUV2>::empty());
                    assert(scan_lines(c, spans, t + 1, y) =~= Seq::<CD3DVertexXYZDUV2>::empty());
                    assert(self.strip() + Seq::<CD3DVertexXYZDUV2>::empty() =~= self.strip());
                    assert(self.lines() + Seq::<CD3DVertexXYZDUV2>::empty() =~= self.lines());
                }
                break ;
            }
            pIntervalSpan = interval.m_pNext;
            proof {
                t = t + 1;
            }
        }
        S_OK
    }

    /// Add a trapezoid to the vertex buffer
    ///
    /// ```text
    ///      left edge       right edge
    ///      ___+_________________+___      <<< top edge
    ///     /  +  /             \  +  \
    ///    /  +  /               \  +  \
    ///   /  +  /                 \  +  \
    ///  /__+__/___________________\__+__\  <<< bottom edge
    ///    + ^^                        +
    ///      delta
    /// ```
    ///
    /// All coordinates are in subpixels.
    pub fn AddTrapezoid(
        &mut self,
        rPixelYTop: INT,
        rPixelXTopLeft: INT,
        rPixelXTopRight: INT,
        rPixelYBottom: INT,
        rPixelXBottomLeft: INT,
        rPixelXBottomRight: INT,
        rPixelXLeftDelta: INT,
        rPixelXRightDelta: INT,
        nErrorLeft: INT,
        nErrorDownLeft: INT,
        nErrorRight: INT,
        nErrorDownRight: INT,
        nErrorBottomLeft: INT,
        nErrorBottomRight: INT,
        nDxLeft: INT,
        nErrorUpLeft: INT,
        nDxRight: INT,
        nErrorUpRight: INT,
    ) -> (hr: HRESULT)
        ensures
            hr == S_OK,
            final(self).same_setup(old(self)),
            final(self).lines() == old(self).lines(),
            final(self).strip() == old(self).strip() + prepared_patch_at(
                old(self).config(),
                old(self).strata(),
                rPixelYTop as int,
                rPixelYBottom as int,
                true,
                min_int(rPixelXTopLeft as int, rPixelXBottomLeft as int),
                side_min_error(
                    rPixelXTopLeft as int,
                    nErrorLeft as int,
                    rPixelXBottomLeft as int,
                    nErrorBottomLeft as int,
                ),
                nErrorDownLeft as int,
            ) + trapezoid_strip(
                old(self).config(),
                trapezoid_of(
                    rPixelYTop as int,
                    rPixelXTopLeft as int,
                    rPixelXTopRight as int,
                    rPixelYBottom as int,
                    rPixelXBottomLeft as int,
                    rPixelXBottomRight as int,
                    rPixelXLeftDelta as int,
                    rPixelXRightDelta as int,
                    nErrorLeft as int,
                    nErrorDownLeft as int,
                    nErrorRight as int,
                    nErrorDownRight as int,
                    nErrorBottomLeft as int,
                    nErrorBottomRight as int,
                    nDxLeft as int,
                    nErrorUpLeft as int,
                    nDxRight as int,
                    nErrorUpRight as int,
                ),
            ),
            final(self).strata() == prepared_strata_at(
                old(self).config(),
                old(self).strata(),
                rPixelYTop as int,
                rPixelYBottom as int,
                true,
                max_int(rPixelXTopRight as int, rPixelXBottomRight as int),
                side_max_error(
                    rPixelXTopRight as int,
                    nErrorRight as int,
                    rPixelXBottomRight as int,
                    nErrorBottomRight as int,
                ),
                nErrorDownRight as int,
            ),
    {
        self.AddTrapezoidStandard(
            rPixelYTop,
            rPixelXTopLeft,
            rPixelXTopRight,
            rPixelYBottom,
            rPixelXBottomLeft,
            rPixelXBottomRight,
            rPixelXLeftDelta,
            rPixelXRightDelta,
            nErrorLeft,
            nErrorDownLeft,
            nErrorRight,
            nErrorDownRight,
            nErrorBottomLeft,
            nErrorBottomRight,
            nDxLeft,
            nErrorUpLeft,
            nDxRight,
            nErrorUpRight,
        )
    }

    /// See AddTrapezoid.  This doesn't do waffling & uses tri strips.
    pub fn AddTrapezoidStandard(
        &mut self,
        rPixelYTop: INT,
        rPixelXTopLeft: INT,
        rPixelXTopRight: INT,
        rPixelYBottom: INT,
        rPixelXBottomLeft: INT,
        rPixelXBottomRight: INT,
        rPixelXLeftDelta: INT,
        rPixelXRightDelta: INT,
        nErrorLeft: INT,
        nErrorDownLeft: INT,
        nErrorRight: INT,
        nErrorDownRight: INT,
        nErrorBottomLeft: INT,
        nErrorBottomRight: INT,
        nDxLeft: INT,
        nErrorUpLeft: INT,
        nDxRight: INT,
        nErrorUpRight: INT,
    ) -> (hr: HRESULT)
        ensures
            hr == S_OK,
            final(self).same_setup(old(self)),
            final(self).lines() == old(self).lines(),
            final(self).strip() == old(self).strip() + prepared_patch_at(
                old(self).config(),
                old(self).strata(),
                rPixelYTop as int,
                rPixelYBottom as int,
                true,
                min_int(rPixelXTopLeft as int, rPixelXBottomLeft as int),
                side_min_error(
                    rPixelXTopLeft as int,
                    nErrorLeft as int,
                    rPixelXBottomLeft as int,
                    nErrorBottomLeft as int,
                ),
                nErrorDownLeft as int,
            ) + trapezoid_strip(
                old(self).config(),
                trapezoid_of(
                    rPixelYTop as int,
                    rPixelXTopLeft as int,
                    rPixelXTopRight as int,
                    rPixelYBottom as int,
                    rPixelXBottomLeft as int,
                    rPixelXBottomRight as int,
                    rPixelXLeftDelta as int,
                    rPixelXRightDelta as int,
                    nErrorLeft as int,
                    nErrorDownLeft as int,
                    nErrorRight as int,
                    nErrorDownRight as int,
                    nErrorBottomLeft as int,
                    nErrorBottomRight as int,
                    nDxLeft as int,
                    nErrorUpLeft as int,
                    nDxRight as int,
                    nErrorUpRight as int,
                ),
            ),
            final(self).strata() == prepared_strata_at(
                old(self).config(),
                old(self).strata(),
                rPixelYTop as int,
                rPixelYBottom as int,
                true,
                max_int(rPixelXTopRight as int, rPixelXBottomRight as int),
                side_max_error(
                    rPixelXTopRight as int,
                    nErrorRight as int,
                    rPixelXBottomRight as int,
                    nErrorBottomRight as int,
                ),
                nErrorDownRight as int,
            ),
    {
        let ghost c = self.config();
        let ghost z = trapezoid_of(
            rPixelYTop as int,
            rPixelXTopLeft as int,
            rPixelXTopRight as int,
            rPixelYBottom as int,
            rPixelXBottomLeft as int,
            rPixelXBottomRight as int,
            rPixelXLeftDelta as int,
            rPixelXRightDelta as int,
            nErrorLeft as int,
            nErrorDownLeft as int,
            nErrorRight as int,
            nErrorDownRight as int,
            nErrorBottomLeft as int,
            nErrorBottomRight as int,
            nDxLeft as int,
            nErrorUpLeft as int,
            nDxRight as int,
            nErrorUpRight as int,
        );
        let errorTopLeft: i64 = nErrorLeft as i64;
        let errorBottomLeft: i64 = nErrorBottomLeft as i64;
        let downLeft: i64 = nErrorDownLeft as i64;
        let errorTopRight: i64 = nErrorRight as i64;
        let errorBottomRight: i64 = nErrorBottomRight as i64;
        let downRight: i64 = nErrorDownRight as i64;
        let dxLeft: i64 = nDxLeft as i64;
        let upLeft: i64 = nErrorUpLeft as i64;
        let dxRight: i64 = nDxRight as i64;
        let upRight: i64 = nErrorUpRight as i64;
        let yTop: i64 = rPixelYTop as i64;
        let yBottom: i64 = rPixelYBottom as i64;
        let xTopLeft: i64 = rPixelXTopLeft as i64;
        let xTopRight: i64 = rPixelXTopRight as i64;
        let xBottomLeft: i64 = rPixelXBottomLeft as i64;
        let xBottomRight: i64 = rPixelXBottomRight as i64;
        let dLeft: i64 = rPixelXLeftDelta as i64;
        let dRight: i64 = rPixelXRightDelta as i64;
        self.PrepareStratum(
            yTop,
            yBottom,
            true,  /* Trapezoid */
            if xTopLeft < xBottomLeft {
                xTopLeft
            } else {
                xBottomLeft
            },
            if xTopRight > xBottomRight {
                xTopRight
            } else {
                xBottomRight
            },
            if xTopLeft < xBottomLeft {
                errorTopLeft
            } else if xBottomLeft < xTopLeft {
                errorBottomLeft
            } else if errorTopLeft < errorBottomLeft {
                errorTopLeft
            } else {
                errorBottomLeft
            },
            downLeft,
            if xTopRight > xBottomRight {
                errorTopRight
            } else if xBottomRight > xTopRight {
                errorBottomRight
            } else if errorTopRight > errorBottomRight {
                errorTopRight
            } else {
                errorBottomRight
            },
            downRight,
        );
        let ghost strip1 = self.strip();

        // Add the vertices
        let fNeedOutsideGeometry = self.NeedOutsideGeometry();
        let fNeedInsideGeometry = self.NeedInsideGeometry();
        let mut vertices: Vec<CD3DVertexXYZDUV2> = Vec::new();
        if !fNeedOutsideGeometry {
            // Duplicate the first vertex. This creates 2 degenerate triangles: one connecting
            // the previous trapezoid to this one and another between vertices 0 and 1.
            vertices.push(CD3DVertexXYZDUV2 {
                X: xTopLeft - dLeft,
                Y: yTop,
                Diffuse: FLOAT_ZERO,
                XDelta: -dLeft,
                XError: errorTopLeft,
                XErrorDown: downLeft,
                XDx: dxLeft,
                XErrorUp: upLeft,
            });
        }
        // Fill in the strip vertices
        vertices.push(CD3DVertexXYZDUV2 {
                X: xTopLeft - dLeft,
                Y: yTop,
                Diffuse: FLOAT_ZERO,
                XDelta: -dLeft,
                XError: errorTopLeft,
                XErrorDown: downLeft,
                XDx: dxLeft,
                XErrorUp: upLeft,
            });
        vertices.push(CD3DVertexXYZDUV2 {
                X: xBottomLeft - dLeft,
                Y: yBottom,
                Diffuse: FLOAT_ZERO,
                XDelta: -dLeft,
                XError: errorBottomLeft,
                XErrorDown: downLeft,
                XDx: dxLeft,
                XErrorUp: upLeft,
            });
        vertices.push(CD3DVertexXYZDUV2 {
                X: xTopLeft + dLeft,
                Y: yTop,
                Diffuse: FLOAT_ONE,
                XDelta: dLeft,
                XError: errorTopLeft,
                XErrorDown: downLeft,
                XDx: dxLeft,
                XErrorUp: upLeft,
            });
        vertices.push(CD3DVertexXYZDUV2 {
                X: xBottomLeft + dLeft,
                Y: yBottom,
                Diffuse: FLOAT_ONE,
                XDelta: dLeft,
                XError: errorBottomLeft,
                XErrorDown: downLeft,
                XDx: dxLeft,
                XErrorUp: upLeft,
            });
        if !fNeedInsideGeometry {
            // Don't create inside geometry.
            vertices.push(
                CD3DVertexXYZDUV2 {
                X: xBottomLeft + dLeft,
                Y: yBottom,
                Diffuse: FLOAT_ONE,
                XDelta: dLeft,
                XError: errorBottomLeft,
                XErrorDown: downLeft,
                XDx: dxLeft,
                XErrorUp: upLeft,
            },
            );
            vertices.push(CD3DVertexXYZDUV2 {
                X: xTopRight - dRight,
                Y: yTop,
                Diffuse: FLOAT_ONE,
                XDelta: -dRight,
                XError: errorTopRight,
                XErrorDown: downRight,
                XDx: dxRight,
                XErrorUp: upRight,
            });
        }
        vertices.push(CD3DVertexXYZDUV2 {
                X: xTopRight - dRight,
                Y: yTop,
                Diffuse: FLOAT_ONE,
                XDelta: -dRight,
                XError: errorTopRight,
                XErrorDown: downRight,
                XDx: dxRight,
                XErrorUp: upRight,
            });
        vertices.push(CD3DVertexXYZDUV2 {
                X: xBottomRight - dRight,
                Y: yBottom,
                Diffuse: FLOAT_ONE,
                XDelta: -dRight,
                XError: errorBottomRight,
                XErrorDown: downRight,
                XDx: dxRight,
                XErrorUp: upRight,
            });
        vertices.push(CD3DVertexXYZDUV2 {
                X: xTopRight + dRight,
                Y: yTop,
                Diffuse: FLOAT_ZERO,
                XDelta: dRight,
                XError: errorTopRight,
                XErrorDown: downRight,
                XDx: dxRight,
                XErrorUp: upRight,
            });
        vertices.push(
            CD3DVertexXYZDUV2 {
                X: xBottomRight + dRight,
                Y: yBottom,
                Diffuse: FLOAT_ZERO,
                XDelta: dRight,
                XError: errorBottomRight,
                XErrorDown: downRight,
                XDx: dxRight,
                XErrorUp: upRight,
            },
        );
        if !fNeedOutsideGeometry {
            // Duplicate the last vertex. This creates 2 degenerate triangles: one
            // between vertices 8 and 9 and one connecting this trapezoid to the
            // next one.
            vertices.push(
                CD3DVertexXYZDUV2 {
                X: xBottomRight + dRight,
                Y: yBottom,
                Diffuse: FLOAT_ZERO,
                XDelta: dRight,
                XError: errorBottomRight,
                XErrorDown: downRight,
                XDx: dxRight,
                XErrorUp: upRight,
            },
            );
        }
        proof {
            assert(vertices@ =~= trapezoid_strip(c, z));
        }
        self.m_pVB.AddTriStripVertices(&mut vertices);
        S_OK
    }

    /// Does our VB have any triangles/lines?
    pub fn IsEmpty(&self) -> (empty: bool)
        ensures
            empty == (self.m_pVB.m_rgIndices@.len() == 0 && self.lines().len() == 0
                && self.strip().len() == 0 && self.m_pVB.m_rgVerticesNonIndexedTriList@.len()
                == 0),
    {
        self.m_pVB.IsEmpty()
    }

    /// Finish creating outside geometry.
    ///  1. If no geometry was created then just fill bounds.
    ///  2. Otherwise:
    ///      A. End last trapezoid row
    ///      B. Produce stop stratum
    pub fn EndBuildingOutside(&mut self) -> (hr: HRESULT)
        ensures
            hr == S_OK,
            final(self).same_setup(old(self)),
            final(self).lines() == old(self).lines(),
            final(self).strip() == old(self).strip() + prepared_patch(
                old(self).config(),
                old(self).strata(),
                8 * old(self).m_rcOutsideBounds.bottom,
                8 * old(self).m_rcOutsideBounds.bottom,
                false,
                0,
            ),
            final(self).strata() == prepared_strata(
                old(self).config(),
                old(self).strata(),
                8 * old(self).m_rcOutsideBounds.bottom,
                8 * old(self).m_rcOutsideBounds.bottom,
                false,
                0,
            ),
    {
        let OutsideBottom: i64 = (self.m_rcOutsideBounds.bottom as i64) * 8;
        self.PrepareStratum(
            OutsideBottom,
            OutsideBottom,
            false,  /* Not a trapezoid. */
            0,
            0,
            0,
            1,
            0,
            1,
        )
    }

    /// Let the builder know that all of the vertex data has been sent: the
    /// outside geometry is finished.
    pub fn EndBuilding(&mut self) -> (hr: HRESULT)
        ensures
            hr == S_OK,
            final(self).same_setup(old(self)),
            final(self).lines() == old(self).lines(),
            final(self).strip() == old(self).strip() + prepared_patch(
                old(self).config(),
                old(self).strata(),
                8 * old(self).m_rcOutsideBounds.bottom,
                8 * old(self).m_rcOutsideBounds.bottom,
                false,
                0,
            ),
    {
        self.EndBuildingOutside()
    }

    /// Send any pending state and geometry to the device.
    /// If `fGetVertexBuffer` is false then reset the vertex buffer.
    /// If it is true the vertex buffer is kept, for the caller to take.
    pub fn FlushInternal(&mut self, pDevice: &mut CD3DDeviceLevel1, fGetVertexBuffer: bool) -> (hr:
        HRESULT)
        ensures
            hr == S_OK,
            final(pDevice).clipRect == old(pDevice).clipRect,
            final(pDevice).output@ == old(pDevice).output@ + output_vertices(
                old(self).strip() + prepared_patch(
                    old(self).config(),
                    old(self).strata(),
                    8 * old(self).m_rcOutsideBounds.bottom,
                    8 * old(self).m_rcOutsideBounds.bottom,
                    false,
                    0,
                ),
            ),
            final(pDevice).outputLines@ == old(pDevice).outputLines@ + output_vertices(
                old(self).lines(),
            ),
            final(self).config() == old(self).config(),
            fGetVertexBuffer ==> final(self).m_fHasFlushed == old(self).m_fHasFlushed && final(self).lines() == old(self).lines(),
            !fGetVertexBuffer ==> final(self).m_fHasFlushed && final(self).m_pVB.is_empty(),
    {
        self.EndBuilding();
        self.m_pVB.DrawPrimitive(pDevice);
        if !fGetVertexBuffer {
            self.m_fHasFlushed = true;
            self.m_pVB.Reset();
        }
        S_OK
    }

    /// Send pending state and geometry to the device and reset the vertex
    /// buffer.
    pub fn FlushReset(&mut self, pDevice: &mut CD3DDeviceLevel1) -> (hr: HRESULT)
        ensures
            hr == S_OK,
            final(pDevice).clipRect == old(pDevice).clipRect,
            final(pDevice).output@ == old(pDevice).output@ + output_vertices(
                old(self).strip() + prepared_patch(
                    old(self).config(),
                    old(self).strata(),
                    8 * old(self).m_rcOutsideBounds.bottom,
                    8 * old(self).m_rcOutsideBounds.bottom,
                    false,
                    0,
                ),
            ),
            final(pDevice).outputLines@ == old(pDevice).outputLines@ + output_vertices(
                old(self).lines(),
            ),
            final(self).config() == old(self).config(),
            final(self).m_fHasFlushed,
            final(self).m_pVB.is_empty(),
    {
        self.FlushInternal(pDevice, false)
    }

    /// Send pending state and geometry to the device and keep the vertex
    /// buffer for the caller, where `fGetVertexBuffer` says so.
    pub fn FlushTryGetVertexBuffer(
        &mut self,
        pDevice: &mut CD3DDeviceLevel1,
        fGetVertexBuffer: bool,
    ) -> (hr: HRESULT)
        ensures
            hr == S_OK,
            final(pDevice).clipRect == old(pDevice).clipRect,
            final(pDevice).output@ == old(pDevice).output@ + output_vertices(
                old(self).strip() + prepared_patch(
                    old(self).config(),
                    old(self).strata(),
                    8 * old(self).m_rcOutsideBounds.bottom,
                    8 * old(self).m_rcOutsideBounds.bottom,
                    false,
                    0,
                ),
            ),
            final(pDevice).outputLines@ == old(pDevice).outputLines@ + output_vertices(
                old(self).lines(),
            ),
            final(self).config() == old(self).config(),
            fGetVertexBuffer ==> final(self).m_fHasFlushed == old(self).m_fHasFlushed && final(self).lines() == old(self).lines(),
            !fGetVertexBuffer ==> final(self).m_fHasFlushed && final(self).m_pVB.is_empty(),
    {
        self.FlushInternal(pDevice, fGetVertexBuffer)
    }
}


/// The number of pixels of the span that begins at `begin` and ends before
/// `end`, once it is cut to the outside bounds.
pub open spec fn span_length(c: BuilderConfig, begin: int, end: int) -> int {
    span_end(c, begin, end) - span_begin(c, begin, end)
}

/// The number of pixels of the spans of a scan, from the `t`-th on, that
/// belong to the shape: those with a coverage other than none.
pub open spec fn shape_length(c: BuilderConfig, spans: Seq<CoverageSpan>, t: int) -> int
    decreases spans.len() - t,
{
    if t < 0 || t + 1 >= spans.len() {
        0
    } else {
        (if spans[t].coverage != 0 {
            span_length(c, spans[t].x, spans[t + 1].x)
        } else {
            0
        }) + shape_length(c, spans, t + 1)
    }
}

/// The number of pixels of the spans of a scan, from the `t`-th on, that
/// belong to the complement of the shape: those with no coverage.
pub open spec fn complement_length(c: BuilderConfig, spans: Seq<CoverageSpan>, t: int) -> int
    decreases spans.len() - t,
{
    if t < 0 || t + 1 >= spans.len() {
        0
    } else {
        (if spans[t].coverage == 0 {
            span_length(c, spans[t].x, spans[t + 1].x)
        } else {
            0
        }) + complement_length(c, spans, t + 1)
    }
}

/// `x` cut to the outside bounds.
pub open spec fn within_bounds(c: BuilderConfig, x: int) -> int {
    min_int(max_int(x, c.left), c.right)
}

/// With outside geometry, the spans of a scan tile the width of the
/// outside bounds: each span, cut to the bounds, begins where the span
/// before it ends, so that the pixels of the shape and the pixels of its
/// complement add up to the pixels between the left and the right bound.
pub proof fn lemma_complement_tiles(c: BuilderConfig, spans: Seq<CoverageSpan>)
    requires
        spans_ok(spans),
        c.need_outside,
        INT::MIN <= c.left <= c.right <= INT::MAX,
    ensures
        shape_length(c, spans, 0) + complement_length(c, spans, 0) == c.right - c.left,
        shape_length(c, spans, 0) >= 0,
        complement_length(c, spans, 0) >= 0,
{
    lemma_tiles_from(c, spans, 0);
}

proof fn lemma_tiles_from(c: BuilderConfig, spans: Seq<CoverageSpan>, t: int)
    requires
        spans_ok(spans),
        c.need_outside,
        INT::MIN <= c.left <= c.right <= INT::MAX,
        0 <= t < spans.len(),
    ensures
        shape_length(c, spans, t) + complement_length(c, spans, t) == c.right - within_bounds(
            c,
            spans[t].x,
        ),
        shape_length(c, spans, t) >= 0,
        complement_length(c, spans, t) >= 0,
    decreases spans.len() - t,
{
    if t + 1 < spans.len() {
        lemma_tiles_from(c, spans, t + 1);
        assert(spans[t].x < spans[t + 1].x);
        assert(span_length(c, spans[t].x, spans[t + 1].x) == within_bounds(c, spans[t + 1].x)
            - within_bounds(c, spans[t].x));
    } else {
        assert(spans[t].x == INT::MAX);
    }
}

/// Every vertex has a coverage from none to full.
pub open spec fn vertices_covered(s: Seq<CD3DVertexXYZDUV2>) -> bool {
    forall|i: int| 0 <= i < s.len() ==> FLOAT_ZERO <= (#[trigger] s[i]).Diffuse <= FLOAT_ONE
}

/// The strip `after` is the strip `before` and at most `most` vertices
/// behind it, each with a coverage from none to full.
pub open spec fn strip_grown(
    before: Seq<CD3DVertexXYZDUV2>,
    after: Seq<CD3DVertexXYZDUV2>,
    most: int,
) -> bool {
    &&& before.len() <= after.len() <= before.len() + most
    &&& after.subrange(0, before.len() as int) == before
    &&& vertices_covered(after.subrange(before.len() as int, after.len() as int))
}

/// A strip grows by what is put behind it.
pub proof fn lemma_grown_by(
    before: Seq<CD3DVertexXYZDUV2>,
    tail: Seq<CD3DVertexXYZDUV2>,
    most: int,
)
    requires
        vertices_covered(tail),
        tail.len() <= most,
    ensures
        strip_grown(before, before + tail, most),
{
    let after = before + tail;
    assert(after.subrange(0, before.len() as int) =~= before);
    assert(after.subrange(before.len() as int, after.len() as int) =~= tail);
}

/// A strip that grew twice grew by both.
pub proof fn lemma_grown_twice(
    a: Seq<CD3DVertexXYZDUV2>,
    b: Seq<CD3DVertexXYZDUV2>,
    c: Seq<CD3DVertexXYZDUV2>,
    first: int,
    second: int,
)
    requires
        strip_grown(a, b, first),
        strip_grown(b, c, second),
    ensures
        strip_grown(a, c, first + second),
{
    assert(c.subrange(0, a.len() as int) =~= a) by {
        assert forall|i: int| 0 <= i < a.len() implies c[i] == a[i] by {
            assert(c.subrange(0, b.len() as int)[i] == b[i]);
            assert(b.subrange(0, a.len() as int)[i] == a[i]);
        }
    }
    let tail = c.subrange(a.len() as int, c.len() as int);
    assert forall|i: int| 0 <= i < tail.len() implies FLOAT_ZERO <= (#[trigger] tail[i]).Diffuse
        <= FLOAT_ONE by {
        let k = i + a.len();
        if k < b.len() {
            assert(c.subrange(0, b.len() as int)[k] == b[k]);
            assert(b.subrange(a.len() as int, b.len() as int)[i] == b[k]);
        } else {
            assert(c.subrange(b.len() as int, c.len() as int)[k - b.len()] == c[k]);
        }
    }
}

/// The spans of a scan give vertices with the coverage of the spans, at
/// most six for each span.
pub proof fn lemma_scan_strip_covered(c: BuilderConfig, spans: Seq<CoverageSpan>, t: int, y: int)
    requires
        spans_ok(spans),
        0 <= t < spans.len(),
    ensures
        vertices_covered(scan_strip(c, spans, t, y)),
        scan_strip(c, spans, t, y).len() <= 6 * (spans.len() - 1 - t),
        c.force_triangles ==> scan_lines(c, spans, t, y) == Seq::<CD3DVertexXYZDUV2>::empty(),
    decreases spans.len() - t,
{
    if t + 1 < spans.len() {
        lemma_scan_strip_covered(c, spans, t + 1, y);
        if t > 0 {
            assert(0 <= spans[t].coverage <= c_nShiftSizeSquared);
        }
        let rest = scan_strip(c, spans, t + 1, y);
        let line = span_line(c, spans[t].x, spans[t + 1].x, y, spans[t].coverage);
        let piece = if need_coverage_geometry(c, spans[t].coverage) {
            line_vertices(line.0, line.1, use_triangles(c, y)).0
        } else {
            Seq::empty()
        };
        assert(vertices_covered(piece));
        assert forall|i: int| 0 <= i < (piece + rest).len() implies FLOAT_ZERO <= (#[trigger] (
        piece + rest)[i]).Diffuse <= FLOAT_ONE by {
            if i < piece.len() {
                assert((piece + rest)[i] == piece[i]);
            } else {
                assert((piece + rest)[i] == rest[i - piece.len()]);
            }
        }
        if c.force_triangles {
            assert(scan_lines(c, spans, t, y) =~= Seq::<CD3DVertexXYZDUV2>::empty());
        }
    }
}

/// The vertices that go before a stratum have no coverage, and are at most
/// twelve.
pub proof fn lemma_patch_covered(
    c: BuilderConfig,
    s: Strata,
    top: int,
    bottom: int,
    trapezoid: bool,
    trapezoid_left: int,
)
    ensures
        vertices_covered(prepared_patch(c, s, top, bottom, trapezoid, trapezoid_left)),
        prepared_patch(c, s, top, bottom, trapezoid, trapezoid_left).len() <= 12,
{
    lemma_patch_covered_at(c, s, top, bottom, trapezoid, trapezoid_left, 0, 1);
}

/// The vertices that go before a stratum have no coverage, and are at most
/// twelve, wherever the trapezoid of the stratum begins.
pub proof fn lemma_patch_covered_at(
    c: BuilderConfig,
    s: Strata,
    top: int,
    bottom: int,
    trapezoid: bool,
    trapezoid_left: int,
    left_error: int,
    left_error_down: int,
)
    ensures
        vertices_covered(
            prepared_patch_at(
                c,
                s,
                top,
                bottom,
                trapezoid,
                trapezoid_left,
                left_error,
                left_error_down,
            ),
        ),
        prepared_patch_at(
            c,
            s,
            top,
            bottom,
            trapezoid,
            trapezoid_left,
            left_error,
            left_error_down,
        ).len() <= 12,
{
    let close = stratum_close(c, s);
    let gap = stratum_gap(c, s, top);
    let open = stratum_open_at(
        c,
        top,
        bottom,
        trapezoid,
        trapezoid_left,
        left_error,
        left_error_down,
    );
    assert(vertices_covered(close));
    assert(vertices_covered(gap));
    assert(vertices_covered(open));
    let all = close + gap + open;
    assert forall|i: int| 0 <= i < all.len() implies FLOAT_ZERO <= (#[trigger] all[i]).Diffuse
        <= FLOAT_ONE by {
        if i < close.len() {
            assert(all[i] == close[i]);
        } else if i < close.len() + gap.len() {
            assert(all[i] == gap[i - close.len()]);
        } else {
            assert(all[i] == open[i - close.len() - gap.len()]);
        }
    }
}

/// The vertices of a trapezoid have no coverage or full coverage, and are
/// at most twelve.
pub proof fn lemma_trapezoid_covered(c: BuilderConfig, z: Trapezoid)
    ensures
        vertices_covered(trapezoid_strip(c, z)),
        trapezoid_strip(c, z).len() <= 12,
        trapezoid_placed(z) ==> vertices_placed(trapezoid_strip(c, z)),
{
    let lead: Seq<CD3DVertexXYZDUV2> = if !c.need_outside {
        seq![sloped_vertex(
            z.x_top_left,
            -z.x_left_delta,
            z.left_error,
            z.left_error_down,
            z.left_dx,
            z.left_error_up,
            z.y_top,
            FLOAT_ZERO as int,
        )]
    } else {
        Seq::empty()
    };
    let left = seq![
        sloped_vertex(
            z.x_top_left,
            -z.x_left_delta,
            z.left_error,
            z.left_error_down,
            z.left_dx,
            z.left_error_up,
            z.y_top,
            FLOAT_ZERO as int,
        ),
        sloped_vertex(
            z.x_bottom_left,
            -z.x_left_delta,
            z.left_error_bottom,
            z.left_error_down,
            z.left_dx,
            z.left_error_up,
            z.y_bottom,
            FLOAT_ZERO as int,
        ),
        sloped_vertex(
            z.x_top_left,
            z.x_left_delta,
            z.left_error,
            z.left_error_down,
            z.left_dx,
            z.left_error_up,
            z.y_top,
            FLOAT_ONE as int,
        ),
        sloped_vertex(
            z.x_bottom_left,
            z.x_left_delta,
            z.left_error_bottom,
            z.left_error_down,
            z.left_dx,
            z.left_error_up,
            z.y_bottom,
            FLOAT_ONE as int,
        ),
    ];
    let skip: Seq<CD3DVertexXYZDUV2> = if !c.need_inside {
        seq![
            sloped_vertex(
            z.x_bottom_left,
            z.x_left_delta,
            z.left_error_bottom,
            z.left_error_down,
            z.left_dx,
            z.left_error_up,
            z.y_bottom,
            FLOAT_ONE as int,
        ),
            sloped_vertex(
            z.x_top_right,
            -z.x_right_delta,
            z.right_error,
            z.right_error_down,
            z.right_dx,
            z.right_error_up,
            z.y_top,
            FLOAT_ONE as int,
        ),
        ]
    } else {
        Seq::empty()
    };
    let right = seq![
        sloped_vertex(
            z.x_top_right,
            -z.x_right_delta,
            z.right_error,
            z.right_error_down,
            z.right_dx,
            z.right_error_up,
            z.y_top,
            FLOAT_ONE as int,
        ),
        sloped_vertex(
            z.x_bottom_right,
            -z.x_right_delta,
            z.right_error_bottom,
            z.right_error_down,
            z.right_dx,
            z.right_error_up,
            z.y_bottom,
            FLOAT_ONE as int,
        ),
        sloped_vertex(
            z.x_top_right,
            z.x_right_delta,
            z.right_error,
            z.right_error_down,
            z.right_dx,
            z.right_error_up,
            z.y_top,
            FLOAT_ZERO as int,
        ),
        sloped_vertex(
            z.x_bottom_right,
            z.x_right_delta,
            z.right_error_bottom,
            z.right_error_down,
            z.right_dx,
            z.right_error_up,
            z.y_bottom,
            FLOAT_ZERO as int,
        ),
    ];
    let trail: Seq<CD3DVertexXYZDUV2> = if !c.need_outside {
        seq![sloped_vertex(
            z.x_bottom_right,
            z.x_right_delta,
            z.right_error_bottom,
            z.right_error_down,
            z.right_dx,
            z.right_error_up,
            z.y_bottom,
            FLOAT_ZERO as int,
        )]
    } else {
        Seq::empty()
    };
    let all = lead + left + skip + right + trail;
    assert(all == trapezoid_strip(c, z));
    assert(vertices_covered(lead) && vertices_covered(left) && vertices_covered(skip)
        && vertices_covered(right) && vertices_covered(trail));
    assert forall|i: int| 0 <= i < all.len() implies FLOAT_ZERO <= (#[trigger] all[i]).Diffuse
        <= FLOAT_ONE by {
        let a = lead.len();
        let b = a + left.len();
        let c2 = b + skip.len();
        let d = c2 + right.len();
        if i < a {
            assert(all[i] == lead[i]);
        } else if i < b {
            assert(all[i] == left[i - a]);
        } else if i < c2 {
            assert(all[i] == skip[i - b]);
        } else if i < d {
            assert(all[i] == right[i - c2]);
        } else {
            assert(all[i] == trail[i - d]);
        }
    }
    if trapezoid_placed(z) {
        assert(vertices_placed(lead) && vertices_placed(left) && vertices_placed(skip)
            && vertices_placed(right) && vertices_placed(trail));
        lemma_placed_add(lead, left);
        lemma_placed_add(lead + left, skip);
        lemma_placed_add(lead + left + skip, right);
        lemma_placed_add(lead + left + skip + right, trail);
    }
}

/// The fraction of a vertex is one: its denominator is at least 1, and its
/// numerator is from the negative of the denominator up to 0.
pub open spec fn vertex_placed(v: CD3DVertexXYZDUV2) -> bool {
    v.XErrorDown >= 1 && -v.XErrorDown <= v.XError <= 0
}

/// Every vertex stands at most one subpixel to the right of the edge that
/// it belongs to: see [`vertex_placed`].
pub open spec fn vertices_placed(s: Seq<CD3DVertexXYZDUV2>) -> bool {
    forall|i: int| 0 <= i < s.len() ==> vertex_placed(#[trigger] s[i])
}

/// `error / down` is the fraction of an edge: from -1 up to 0, with a
/// denominator of 32 bits.
pub open spec fn fraction_ok(error: int, down: int) -> bool {
    1 <= down <= INT::MAX && -down <= error <= 0
}

/// The fraction that the strata state holds is one.
pub open spec fn strata_placed(s: Strata) -> bool {
    fraction_ok(s.last_right_error, s.last_right_error_down)
}

/// The four fractions of a trapezoid are fractions.
pub open spec fn trapezoid_placed(z: Trapezoid) -> bool {
    &&& fraction_ok(z.left_error, z.left_error_down)
    &&& fraction_ok(z.left_error_bottom, z.left_error_down)
    &&& fraction_ok(z.right_error, z.right_error_down)
    &&& fraction_ok(z.right_error_bottom, z.right_error_down)
}

/// Two strips of placed vertices make one.
pub proof fn lemma_placed_add(a: Seq<CD3DVertexXYZDUV2>, b: Seq<CD3DVertexXYZDUV2>)
    requires
        vertices_placed(a),
        vertices_placed(b),
    ensures
        vertices_placed(a + b),
{
    assert forall|i: int| 0 <= i < (a + b).len() implies vertex_placed(#[trigger] (a + b)[i]) by {
        if i < a.len() {
            assert((a + b)[i] == a[i]);
        } else {
            assert((a + b)[i] == b[i - a.len()]);
        }
    }
}

/// The vertices of a scan stand on whole subpixels.
pub proof fn lemma_scan_strip_placed(c: BuilderConfig, spans: Seq<CoverageSpan>, t: int, y: int)
    ensures
        vertices_placed(scan_strip(c, spans, t, y)),
    decreases spans.len() - t,
{
    if 0 <= t && t + 1 < spans.len() {
        lemma_scan_strip_placed(c, spans, t + 1, y);
        let rest = scan_strip(c, spans, t + 1, y);
        let line = span_line(c, spans[t].x, spans[t + 1].x, y, spans[t].coverage);
        let piece = if need_coverage_geometry(c, spans[t].coverage) {
            line_vertices(line.0, line.1, use_triangles(c, y)).0
        } else {
            Seq::empty()
        };
        assert(vertices_placed(piece));
        lemma_placed_add(piece, rest);
    }
}

/// The vertices that go before a stratum keep the fractions that they are
/// given, and the strata state keeps its own.
pub proof fn lemma_patch_placed(
    c: BuilderConfig,
    s: Strata,
    top: int,
    bottom: int,
    trapezoid: bool,
    trapezoid_left: int,
    left_error: int,
    left_error_down: int,
    trapezoid_right: int,
    right_error: int,
    right_error_down: int,
)
    requires
        strata_placed(s),
        fraction_ok(left_error, left_error_down),
        fraction_ok(right_error, right_error_down),
    ensures
        vertices_placed(
            prepared_patch_at(
                c,
                s,
                top,
                bottom,
                trapezoid,
                trapezoid_left,
                left_error,
                left_error_down,
            ),
        ),
        strata_placed(
            prepared_strata_at(
                c,
                s,
                top,
                bottom,
                trapezoid,
                trapezoid_right,
                right_error,
                right_error_down,
            ),
        ),
{
    let close = stratum_close(c, s);
    let gap = stratum_gap(c, s, top);
    let open = stratum_open_at(
        c,
        top,
        bottom,
        trapezoid,
        trapezoid_left,
        left_error,
        left_error_down,
    );
    assert(vertices_placed(close));
    assert(vertices_placed(gap));
    assert(vertices_placed(open));
    lemma_placed_add(close, gap);
    lemma_placed_add(close + gap, open);
}

} // verus!
