//! Converts a 2D path into the vertices of a triangle strip whose coverage
//! attribute is the anti-aliased fill of that path.
//!
//! The path goes through these stages, one module each:
//!
//! - `bezier` flattens curves, `enumerate` walks the subpaths, and
//!   `aarasterizer` turns their segments into edges: DDAs over the subpixel
//!   scanlines, eight to a device scanline.
//! - `inactive` sorts the edges by their first scanline; `activelist` keeps
//!   the edges that cross the current scanline in order of x.
//! - `aafill` adds what is inside, by the alternate or by the winding rule,
//!   to the coverage of the pixels of a device scanline, which `aacoverage`
//!   holds as a list of intervals; `cuts` says where the list is cut.
//! - `hwrasterizer` drives the scanlines and hands each device scanline, or
//!   a row of trapezoids for a run of them on which the edges keep apart
//!   (`trapezoids` says when), to the builder of `hwvertexbuffer`, which
//!   makes the vertices.
//!
//! What is proved of the whole is stated over the samples of the path, 64
//! to a pixel: `scanline` and `sample` say which samples are inside,
//! `balance` that the edges of a path cancel on every scanline, `drawing`
//! what the pieces of the output show, `choice` which pieces a path asks
//! for, and `collinear` that a vertex on a segment changes nothing.
#![allow(non_snake_case)]
#![allow(non_camel_case_types)]
#![allow(non_upper_case_globals)]
#![allow(unused_parens)]

pub mod helpers;
pub mod types;
pub mod aarasterizer;
pub mod bezier;
pub mod enumerate;
pub mod inactive;
pub mod activelist;
pub mod scanline;
pub mod balance;
pub mod aacoverage;
pub mod cuts;
pub mod aafill;
pub mod sample;
pub mod hwvertexbuffer;
pub mod drawing;
pub mod trapezoids;
pub mod choice;
pub mod hwrasterizer;
pub mod collinear;

use vstd::prelude::*;
use crate::aacoverage::CCoverageIntervalBuffer;
use crate::choice::{lemma_pieces_determined, pieces_chosen};
use crate::aarasterizer::{EdgeModel, EDGE_STORE_LIMIT};
use crate::drawing::{
    drawn_strata, drawn_strip, lemma_drawn_placed, pieces_tile, pieces_true, Drawn,
};
use crate::enumerate::{path_edges, points_in_range};
use crate::hwrasterizer::{
    clip_bounds_28_4, clip_rows, path_vertices_max, row_vertices_max, rows_chosen, rows_drawn,
    scan_bottom, scan_end, scan_top, CHwRasterizer, EDGES_ASSURED,
};
use crate::hwvertexbuffer::{
    lemma_patch_covered, lemma_patch_placed, lemma_placed_add, output_vertices, prepared_patch,
    strata_initial, strata_placed, vertex_placed, vertices_placed, BuilderConfig,
    CD3DVertexXYZDUV2, CHwTVertexBufferBuilder,
};
use crate::types::{
    CD3DDeviceLevel1, CMILSurfaceRect, MilAntiAliasMode, MilFillMode, MilPointAndSizeL,
    MilVertexFormat, MilVertexFormatAttribute, PathPointTypeBezier, PathPointTypeCloseSubpath,
    PathPointTypeLine, PathPointTypeStart, BYTE, POINT, S_OK,
};

verus! {

/// A vertex of the output mesh.
///
/// `x` and `y` are in subpixels, 1/8 of a device pixel, with pixel centers
/// at half pixels; `coverage` is in 1/64, from 0 for no coverage to 64 for
/// full coverage.
///
/// A vertex of a trapezoid stands `x_delta` subpixels beside an edge, and
/// the edge stands a fraction of a subpixel to the left of its whole
/// subpixel `x - x_delta`: the exact place of the edge is
/// `x - x_delta + x_error / x_error_down` subpixels, and that of the vertex
/// `x_delta` from there. Every other vertex stands on the whole subpixel
/// `x`: its `x_delta` and `x_error` are 0 and its `x_error_down` is 1.
#[derive(Clone, Copy, Debug, PartialEq, Eq, Structural)]
pub struct OutputVertex {
    pub x: i64,
    pub y: i64,
    pub coverage: i32,
    pub x_delta: i64,
    pub x_error: i64,
    pub x_error_down: i64,
    /// The slope of the edge beside which a vertex of a trapezoid stands:
    /// `x_dx + x_error_up / x_error_down` subpixels of x for each scanline.
    /// The vertex stands half a pixel, and half the slope in pixels, from
    /// the edge, on the side that the sign of `x_delta` says.
    pub x_dx: i64,
    pub x_error_up: i64,
}

/// The rule that says what is inside a path.
#[derive(Clone, Copy, Debug, PartialEq, Eq, Structural)]
pub enum FillMode {
    EvenOdd,
    Winding,
}

/// Collects the elements of a path and rasterizes it to a triangle strip.
///
/// Coordinates are 28.4 fixed point device coordinates with integer pixel
/// centers: 16 times the pixel coordinate, less 8 for the half pixel between
/// the two conventions for pixel centers.
pub struct PathBuilder {
    pub points: Vec<POINT>,
    pub types: Vec<BYTE>,
    /// Where the current subpath begins, or will begin with the next
    /// element.
    pub initial_point: Option<POINT>,
    /// Whether the start of the current subpath was emitted.
    pub in_shape: bool,
    pub fill_mode: MilFillMode,
    pub outside_bounds: Option<CMILSurfaceRect>,
    pub need_inside: bool,
}

/// Two thirds of the way from `from` to `to`, rounded down.
pub open spec fn two_thirds(from: int, to: int) -> int {
    from + (2 * (to - from)) / 3
}

impl PathBuilder {
    /// The points and tags of the path have the same number.
    pub open spec fn wf(&self) -> bool {
        self.points@.len() == self.types@.len()
    }

    /// An empty path, filled by the even-odd rule, without outside bounds.
    pub fn new() -> (builder: Self)
        ensures
            builder.wf(),
            builder.points@.len() == 0,
            builder.initial_point.is_none(),
            !builder.in_shape,
            builder.fill_mode == MilFillMode::Alternate,
            builder.outside_bounds.is_none(),
            builder.need_inside,
    {
        PathBuilder {
            points: Vec::new(),
            types: Vec::new(),
            initial_point: None,
            in_shape: false,
            fill_mode: MilFillMode::Alternate,
            outside_bounds: None,
            need_inside: true,
        }
    }

    /// Nothing changed but the points, the tags, the pending start and
    /// whether the start was emitted.
    pub open spec fn same_setup(&self, before: &Self) -> bool {
        &&& self.fill_mode == before.fill_mode
        &&& self.outside_bounds == before.outside_bounds
        &&& self.need_inside == before.need_inside
    }

    /// The points and tags that open the current subpath, where it is not
    /// open yet: its start point, which is `start`.
    pub open spec fn opening(&self, start: POINT) -> (Seq<POINT>, Seq<BYTE>) {
        if self.in_shape {
            (Seq::empty(), Seq::empty())
        } else {
            (seq![start], seq![PathPointTypeStart])
        }
    }

    /// Appends a line to `(x, y)`. Where no subpath is open and none is
    /// pending, the point only becomes the pending start.
    pub fn line_to(&mut self, x: i32, y: i32)
        requires
            old(self).wf(),
        ensures
            final(self).wf(),
            final(self).same_setup(old(self)),
            old(self).initial_point.is_none() ==> final(self).initial_point == Some(
                POINT { x, y },
            ) && final(self).points@ == old(self).points@ && final(self).types@ == old(self).types@
                && final(self).in_shape == old(self).in_shape,
            old(self).initial_point.is_some() ==> final(self).initial_point == old(
                self,
            ).initial_point && final(self).in_shape && final(self).points@ == old(self).points@
                + old(self).opening(old(self).initial_point.unwrap()).0 + seq![POINT { x, y }]
                && final(self).types@ == old(self).types@ + old(self).opening(
                old(self).initial_point.unwrap(),
            ).1 + seq![PathPointTypeLine],
    {
        match self.initial_point {
            Some(initial_point) => {
                if !self.in_shape {
                    self.types.push(PathPointTypeStart);
                    self.points.push(initial_point);
                    self.in_shape = true;
                }
                self.types.push(PathPointTypeLine);
                self.points.push(POINT { x: x, y: y });
                proof {
                    let open = old(self).opening(initial_point);
                    assert(self.points@ =~= old(self).points@ + open.0 + seq![POINT { x, y }]);
                    assert(self.types@ =~= old(self).types@ + open.1 + seq![PathPointTypeLine]);
                }
            },
            None => {
                self.initial_point = Some(POINT { x: x, y: y });
            },
        }
    }

    /// Begins a new subpath at `(x, y)`. The point is not emitted until an
    /// element follows.
    pub fn move_to(&mut self, x: i32, y: i32)
        ensures
            final(self).same_setup(old(self)),
            final(self).points == old(self).points,
            final(self).types == old(self).types,
            !final(self).in_shape,
            final(self).initial_point == Some(POINT { x, y }),
    {
        self.in_shape = false;
        self.initial_point = Some(POINT { x: x, y: y });
    }

    /// Appends a cubic Bezier with the control points `(c1x, c1y)` and
    /// `(c2x, c2y)` to `(x, y)`. Where no subpath is pending, the curve
    /// begins at its first control point.
    pub fn curve_to(&mut self, c1x: i32, c1y: i32, c2x: i32, c2y: i32, x: i32, y: i32)
        requires
            old(self).wf(),
        ensures
            final(self).wf(),
            final(self).same_setup(old(self)),
            final(self).in_shape,
            final(self).initial_point == if old(self).in_shape {
                old(self).initial_point
            } else {
                Some(old(self).curve_start(c1x, c1y))
            },
            final(self).points@ == old(self).points@ + old(self).opening(
                old(self).curve_start(c1x, c1y),
            ).0 + seq![POINT { x: c1x, y: c1y }, POINT { x: c2x, y: c2y }, POINT { x, y }],
            final(self).types@ == old(self).types@ + old(self).opening(
                old(self).curve_start(c1x, c1y),
            ).1 + seq![PathPointTypeBezier, PathPointTypeBezier, PathPointTypeBezier],
    {
        let initial_point = match self.initial_point {
            Some(initial_point) => initial_point,
            None => POINT { x: c1x, y: c1y },
        };
        if !self.in_shape {
            self.types.push(PathPointTypeStart);
            self.points.push(initial_point);
            self.initial_point = Some(initial_point);
            self.in_shape = true;
        }
        self.types.push(PathPointTypeBezier);
        self.points.push(POINT { x: c1x, y: c1y });
        self.types.push(PathPointTypeBezier);
        self.points.push(POINT { x: c2x, y: c2y });
        self.types.push(PathPointTypeBezier);
        self.points.push(POINT { x: x, y: y });
        proof {
            let open = old(self).opening(initial_point);
            assert(self.points@ =~= old(self).points@ + open.0 + seq![
                POINT { x: c1x, y: c1y },
                POINT { x: c2x, y: c2y },
                POINT { x, y },
            ]);
            assert(self.types@ =~= old(self).types@ + open.1 + seq![
                PathPointTypeBezier,
                PathPointTypeBezier,
                PathPointTypeBezier,
            ]);
        }
    }

    /// Where a curve begins: at the pending start, or at `(cx, cy)` where
    /// none is pending.
    pub open spec fn curve_start(&self, cx: i32, cy: i32) -> POINT {
        match self.initial_point {
            Some(p) => p,
            None => POINT { x: cx, y: cy },
        }
    }

    /// Appends a quadratic Bezier with the control point `(cx, cy)` to
    /// `(x, y)`, as the cubic Bezier whose control points lie two thirds of
    /// the way from each end point to `(cx, cy)`.
    pub fn quad_to(&mut self, cx: i32, cy: i32, x: i32, y: i32)
        requires
            old(self).wf(),
        ensures
            final(self).wf(),
            final(self).same_setup(old(self)),
            final(self).in_shape,
            final(self).initial_point == if old(self).in_shape {
                old(self).initial_point
            } else {
                Some(old(self).curve_start(cx, cy))
            },
            final(self).points@ == old(self).points@ + old(self).opening(
                old(self).curve_start(cx, cy),
            ).0 + seq![
                POINT {
                    x: clamp_i32(two_thirds(old(self).curve_start(cx, cy).x as int, cx as int)),
                    y: clamp_i32(two_thirds(old(self).curve_start(cx, cy).y as int, cy as int)),
                },
                POINT {
                    x: clamp_i32(two_thirds(x as int, cx as int)),
                    y: clamp_i32(two_thirds(y as int, cy as int)),
                },
                POINT { x, y },
            ],
            final(self).types@ == old(self).types@ + old(self).opening(
                old(self).curve_start(cx, cy),
            ).1 + seq![PathPointTypeBezier, PathPointTypeBezier, PathPointTypeBezier],
    {
        // For now we just implement quad_to on top of curve_to.
        let c0 = match self.initial_point {
            Some(initial_point) => initial_point,
            None => POINT { x: cx, y: cy },
        };
        proof {
            assert(two_thirds(cx as int, cx as int) == cx);
            assert(two_thirds(cy as int, cy as int) == cy);
        }
        let c1x = TwoThirds(c0.x, cx);
        let c1y = TwoThirds(c0.y, cy);
        let c2x = TwoThirds(x, cx);
        let c2y = TwoThirds(y, cy);
        self.curve_to(c1x, c1y, c2x, c2y, x, y);
    }

    /// Closes the current subpath: flags its last element, and clears the
    /// pending start.
    pub fn close(&mut self)
        ensures
            final(self).same_setup(old(self)),
            final(self).points == old(self).points,
            !final(self).in_shape,
            final(self).initial_point.is_none(),
            final(self).types@.len() == old(self).types@.len(),
            forall|i: int|
                0 <= i < old(self).types@.len() - 1 ==> final(self).types@[i] == old(self).types@[i],
            old(self).types@.len() > 0 ==> final(self).types@[old(self).types@.len() - 1]
                == old(self).types@[old(self).types@.len() - 1] | PathPointTypeCloseSubpath,
    {
        let n = self.types.len();
        if n > 0 {
            let last = self.types[n - 1];
            self.types[n - 1] = last | PathPointTypeCloseSubpath;
        }
        self.in_shape = false;
        self.initial_point = None;
    }

    /// Selects the alternate (even-odd) or the winding fill rule.
    pub fn set_fill_mode(&mut self, fill_mode: FillMode)
        ensures
            final(self).fill_mode == match fill_mode {
                FillMode::EvenOdd => MilFillMode::Alternate,
                FillMode::Winding => MilFillMode::Winding,
            },
            final(self).points == old(self).points,
            final(self).types == old(self).types,
            final(self).initial_point == old(self).initial_point,
            final(self).in_shape == old(self).in_shape,
            final(self).outside_bounds == old(self).outside_bounds,
            final(self).need_inside == old(self).need_inside,
    {
        self.fill_mode = match fill_mode {
            FillMode::EvenOdd => MilFillMode::Alternate,
            FillMode::Winding => MilFillMode::Winding,
        }
    }

    /// Enables rendering geometry for areas outside the shape but
    /// within the bounds `(left, top, right, bottom)`, which are in whole
    /// pixels.  These areas will be created with zero alpha.
    ///
    /// This is useful for creating geometry for other blend modes.
    /// For example:
    /// IN can be done with outside_bounds and need_inside = false
    /// IN with transparency can be done with outside_bounds and need_inside = true
    pub fn set_outside_bounds(&mut self, outside_bounds: Option<(i32, i32, i32, i32)>, need_inside: bool)
        ensures
            final(self).outside_bounds == match outside_bounds {
                Some(r) => Some(CMILSurfaceRect { left: r.0, top: r.1, right: r.2, bottom: r.3 }),
                None => None,
            },
            final(self).need_inside == need_inside,
            final(self).points == old(self).points,
            final(self).types == old(self).types,
            final(self).initial_point == old(self).initial_point,
            final(self).in_shape == old(self).in_shape,
            final(self).fill_mode == old(self).fill_mode,
    {
        self.outside_bounds = match outside_bounds {
            Some(r) => Some(CMILSurfaceRect { left: r.0, top: r.1, right: r.2, bottom: r.3 }),
            None => None,
        };
        self.need_inside = need_inside;
    }

    /// Rasterizes the path within the clip rectangle, which is in whole
    /// pixels, to the vertices of one triangle strip.
    ///
    /// A path with a point outside the working range of the rasterizer
    /// draws nothing. Every other path of no more than [`EDGES_ASSURED`]
    /// edges is drawn ([`strip_drawn`]): the strip holds, for every device
    /// scanline of the path within the clip rectangle, a scan or a part of
    /// a trapezoid with the coverage that the samples inside the path give.
    /// A row of trapezoids stands wherever one begins, as far down as it
    /// can go, and scans stand elsewhere, their lists cut where the fills
    /// cut them ([`strip_decided`]). Every vertex has a coverage from 0 to
    /// 64 and the fraction of an edge.
    pub fn rasterize_to_tri_strip(&self, clip_x: i32, clip_y: i32, clip_width: i32, clip_height: i32) -> (result:
        Vec<OutputVertex>)
        ensures
            self.wf() && self.points@.len() <= 0xffff_ffff && !points_in_range(
                self.points@,
                self.points@.len() as int,
                MilAntiAliasMode::EightByEight,
            ) ==> result@.len() == 0,
            self.points@.len() != self.types@.len() || self.points@.len() > 0xffff_ffff
                ==> result@.len() == 0,
            result@.len() <= strip_vertices_max(
                self.types@,
                self.points@,
                (MilPointAndSizeL { X: clip_x, Y: clip_y, Width: clip_width, Height: clip_height }),
            ),
            coverage_in_range(result@),
            fractions_in_range(result@),
            drawable(
                self.types@,
                self.points@,
                (MilPointAndSizeL { X: clip_x, Y: clip_y, Width: clip_width, Height: clip_height }),
            ) ==> strip_drawn(
                result@,
                path_edges(
                    self.points@,
                    self.types@,
                    self.points@.len() as int,
                    Some(
                        clip_bounds_28_4(
                            (MilPointAndSizeL {
                                X: clip_x,
                                Y: clip_y,
                                Width: clip_width,
                                Height: clip_height,
                            }),
                        ),
                    ),
                    MilAntiAliasMode::EightByEight,
                ),
                self.fill_mode,
                (MilPointAndSizeL { X: clip_x, Y: clip_y, Width: clip_width, Height: clip_height }),
                strip_config(
                    (MilPointAndSizeL {
                        X: clip_x,
                        Y: clip_y,
                        Width: clip_width,
                        Height: clip_height,
                    }),
                    self.need_inside,
                    self.outside_bounds,
                ),
            ),
            drawable(
                self.types@,
                self.points@,
                (MilPointAndSizeL { X: clip_x, Y: clip_y, Width: clip_width, Height: clip_height }),
            ) ==> strip_decided(
                result@,
                path_edges(
                    self.points@,
                    self.types@,
                    self.points@.len() as int,
                    Some(
                        clip_bounds_28_4(
                            (MilPointAndSizeL {
                                X: clip_x,
                                Y: clip_y,
                                Width: clip_width,
                                Height: clip_height,
                            }),
                        ),
                    ),
                    MilAntiAliasMode::EightByEight,
                ),
                self.fill_mode,
                (MilPointAndSizeL { X: clip_x, Y: clip_y, Width: clip_width, Height: clip_height }),
                strip_config(
                    (MilPointAndSizeL {
                        X: clip_x,
                        Y: clip_y,
                        Width: clip_width,
                        Height: clip_height,
                    }),
                    self.need_inside,
                    self.outside_bounds,
                ),
            ),
    {
        rasterize_to_tri_strip(
            self.fill_mode,
            self.types.as_slice(),
            self.points.as_slice(),
            clip_x,
            clip_y,
            clip_width,
            clip_height,
            self.need_inside,
            self.outside_bounds,
        )
    }
}

/// The most vertices that the path of `types` and `points` gives within the
/// clip rectangle `clip`: those of each device scanline of the clip
/// rectangle and of one more, each scanline with at most 18 vertices and 96
/// for each edge of the path, and 12 that close the geometry outside the
/// shape.
pub open spec fn strip_vertices_max(types: Seq<BYTE>, points: Seq<POINT>, clip: MilPointAndSizeL) -> int {
    path_vertices_max(
        clip,
        path_edges(
            points,
            types,
            points.len() as int,
            Some(clip_bounds_28_4(clip)),
            MilAntiAliasMode::EightByEight,
        ).len() as int,
    ) + 12
}

/// What the vertex buffer builder is set to produce for a strip: the inside
/// of the shape and, with outside bounds, what lies within the bounds and
/// outside the shape; the inside only where it is needed; and triangles
/// throughout.
pub open spec fn strip_config(
    clip: MilPointAndSizeL,
    need_inside: bool,
    outside_bounds: Option<CMILSurfaceRect>,
) -> BuilderConfig {
    let bounds = match outside_bounds {
        Some(r) => r,
        None => CMILSurfaceRect { left: 0, top: 0, right: 0, bottom: 0 },
    };
    BuilderConfig {
        need_inside: outside_bounds.is_none() || need_inside,
        need_outside: outside_bounds.is_some(),
        left: bounds.left as int,
        top: bounds.top as int,
        right: bounds.right as int,
        bottom: bounds.bottom as int,
        viewport_top: clip.Y as int,
        force_triangles: true,
    }
}

/// The strip is the pieces, drawn one behind the other, and what ends the
/// geometry outside the shape; the pieces take every device scanline of the
/// path within the clip rectangle and show the path on it.
pub open spec fn strip_of(
    strip: Seq<OutputVertex>,
    pieces: Seq<Drawn>,
    path: Seq<EdgeModel>,
    mode: MilFillMode,
    clip: MilPointAndSizeL,
    c: BuilderConfig,
) -> bool {
    &&& strip == output_vertices(
        drawn_strip(c, strata_initial(), pieces) + prepared_patch(
            c,
            drawn_strata(c, strata_initial(), pieces),
            8 * c.bottom,
            8 * c.bottom,
            false,
            0,
        ),
    )
    &&& pieces_tile(pieces, scan_top(path) / 8, (scan_end(path, clip) + 7) / 8)
    &&& pieces_true(pieces, path, mode, scan_bottom(path, clip))
}

/// [`strip_of`] with the pieces that the path asks for: a row of trapezoids
/// wherever one begins, as far down as it can go, and scans elsewhere, each
/// with a list that is cut where the fills of its scanlines cut it.
pub open spec fn strip_chosen(
    strip: Seq<OutputVertex>,
    pieces: Seq<Drawn>,
    path: Seq<EdgeModel>,
    mode: MilFillMode,
    clip: MilPointAndSizeL,
    c: BuilderConfig,
) -> bool {
    &&& strip_of(strip, pieces, path, mode, clip, c)
    &&& pieces_chosen(pieces, path, true, mode, scan_bottom(path, clip), scan_top(path))
}

/// The strip is the path drawn ([`strip_drawn`]) in the pieces that the
/// path asks for.
pub open spec fn strip_decided(
    strip: Seq<OutputVertex>,
    path: Seq<EdgeModel>,
    mode: MilFillMode,
    clip: MilPointAndSizeL,
    c: BuilderConfig,
) -> bool {
    if path.len() == 0 {
        strip == output_vertices(
            prepared_patch(c, strata_initial(), 8 * c.bottom, 8 * c.bottom, false, 0),
        )
    } else {
        exists|pieces: Seq<Drawn>| strip_chosen(strip, pieces, path, mode, clip, c)
    }
}

/// By the alternate rule the strip is fixed by the path, the clip
/// rectangle and what the builder is set to produce: two strips that are
/// the path drawn in the pieces that it asks for are one.
pub proof fn lemma_strip_determined(
    first: Seq<OutputVertex>,
    second: Seq<OutputVertex>,
    path: Seq<EdgeModel>,
    clip: MilPointAndSizeL,
    c: BuilderConfig,
)
    requires
        strip_decided(first, path, MilFillMode::Alternate, clip, c),
        strip_decided(second, path, MilFillMode::Alternate, clip, c),
    ensures
        first == second,
{
    if path.len() > 0 {
        let mode = MilFillMode::Alternate;
        let p = choose|pieces: Seq<Drawn>| strip_chosen(first, pieces, path, mode, clip, c);
        let q = choose|pieces: Seq<Drawn>| strip_chosen(second, pieces, path, mode, clip, c);
        lemma_pieces_determined(
            p,
            q,
            path,
            true,
            scan_bottom(path, clip),
            scan_top(path),
            scan_top(path) / 8,
            (scan_end(path, clip) + 7) / 8,
        );
    }
}

/// The strip is the path of the edges `path` drawn by the fill rule `mode`
/// within the clip rectangle: of a path without edges, what ends the
/// geometry outside the shape and no more.
pub open spec fn strip_drawn(
    strip: Seq<OutputVertex>,
    path: Seq<EdgeModel>,
    mode: MilFillMode,
    clip: MilPointAndSizeL,
    c: BuilderConfig,
) -> bool {
    if path.len() == 0 {
        strip == output_vertices(
            prepared_patch(c, strata_initial(), 8 * c.bottom, 8 * c.bottom, false, 0),
        )
    } else {
        exists|pieces: Seq<Drawn>| strip_of(strip, pieces, path, mode, clip, c)
    }
}

/// The path is one that is drawn, whatever it is: tags and points agree in
/// number, every point is within the working range, and the edges are no
/// more than [`EDGES_ASSURED`].
pub open spec fn drawable(types: Seq<BYTE>, points: Seq<POINT>, clip: MilPointAndSizeL) -> bool {
    &&& points.len() == types.len()
    &&& points.len() <= 0xffff_ffff
    &&& points_in_range(points, points.len() as int, MilAntiAliasMode::EightByEight)
    &&& path_edges(
        points,
        types,
        points.len() as int,
        Some(clip_bounds_28_4(clip)),
        MilAntiAliasMode::EightByEight,
    ).len() <= EDGES_ASSURED
}

/// Every vertex has a coverage from none (0) to full (64).
pub open spec fn coverage_in_range(vertices: Seq<OutputVertex>) -> bool {
    forall|i: int| 0 <= i < vertices.len() ==> 0 <= (#[trigger] vertices[i]).coverage <= 64
}

/// Every vertex has a fraction of a subpixel by which its edge stands to
/// the left of a whole subpixel: the denominator is at least 1, and the
/// numerator is from the negative of the denominator up to 0.
pub open spec fn fractions_in_range(vertices: Seq<OutputVertex>) -> bool {
    forall|i: int|
        0 <= i < vertices.len() ==> (#[trigger] vertices[i]).x_error_down >= 1
            && -vertices[i].x_error_down <= vertices[i].x_error <= 0
}

/// `v` where it fits in 32 bits, else the nearest value that does.
pub open spec fn clamp_i32(v: int) -> i32 {
    if v < i32::MIN {
        i32::MIN
    } else if v > i32::MAX {
        i32::MAX
    } else {
        v as i32
    }
}

/// Two thirds of the way from `from` to `to`, rounded down, and cut to 32
/// bits.
pub fn TwoThirds(from: i32, to: i32) -> (r: i32)
    ensures
        r == clamp_i32(two_thirds(from as int, to as int)),
{
    let delta: i64 = 2 * (to as i64 - from as i64);
    // The floor of the third, also of a negative number:
    let third: i64 = if delta >= 0 {
        delta / 3
    } else {
        -((-delta + 2) / 3)
    };
    assert(third == delta as int / 3) by {
        if delta < 0 {
            let q = (-delta + 2) / 3;
            let m = (-delta + 2) % 3;
            assert(-delta + 2 == 3 * q + m);
            vstd::arithmetic::div_mod::lemma_fundamental_div_mod_converse(
                delta as int,
                3,
                -q as int,
                (2 - m) as int,
            );
        }
    }
    let v: i64 = from as i64 + third;
    if v < i32::MIN as i64 {
        i32::MIN
    } else if v > i32::MAX as i64 {
        i32::MAX
    } else {
        v as i32
    }
}

/// Rasterizes a path, given by its tags and its points in 28.4 device
/// coordinates, within the clip rectangle, which is in whole pixels, to the
/// vertices of one triangle strip. With outside bounds the strip also holds
/// zero-alpha geometry for what lies within the bounds and outside the
/// shape.
///
/// A path with a point outside the working range of the rasterizer draws
/// nothing, nor does one whose tags and points differ in number. Every
/// other path of no more than [`EDGES_ASSURED`] edges is drawn
/// ([`strip_drawn`]): the strip holds, for every device scanline of the
/// path within the clip rectangle, a scan or a part of a trapezoid with the
/// coverage that the samples inside the path give. A row of trapezoids
/// stands wherever one begins, as far down as it can go, and scans stand
/// elsewhere, their lists cut where the fills cut them
/// ([`strip_decided`]). The strip has no more than [`strip_vertices_max`]
/// vertices, each with a coverage from 0 to 64 and the fraction of an edge.
pub fn rasterize_to_tri_strip(
    fill_mode: MilFillMode,
    types: &[BYTE],
    points: &[POINT],
    clip_x: i32,
    clip_y: i32,
    clip_width: i32,
    clip_height: i32,
    need_inside: bool,
    outside_bounds: Option<CMILSurfaceRect>,
) -> (result: Vec<OutputVertex>)
    ensures
        points@.len() == types@.len() && points@.len() <= 0xffff_ffff && !points_in_range(
            points@,
            points@.len() as int,
            MilAntiAliasMode::EightByEight,
        ) ==> result@.len() == 0,
        points@.len() != types@.len() || points@.len() > 0xffff_ffff ==> result@.len() == 0,
        result@.len() <= strip_vertices_max(
            types@,
            points@,
            (MilPointAndSizeL { X: clip_x, Y: clip_y, Width: clip_width, Height: clip_height }),
        ),
        coverage_in_range(result@),
        fractions_in_range(result@),
        drawable(
            types@,
            points@,
            (MilPointAndSizeL { X: clip_x, Y: clip_y, Width: clip_width, Height: clip_height }),
        ) ==> strip_drawn(
            result@,
            path_edges(
                points@,
                types@,
                points@.len() as int,
                Some(
                    clip_bounds_28_4(
                        (MilPointAndSizeL {
                            X: clip_x,
                            Y: clip_y,
                            Width: clip_width,
                            Height: clip_height,
                        }),
                    ),
                ),
                MilAntiAliasMode::EightByEight,
            ),
            fill_mode,
            (MilPointAndSizeL { X: clip_x, Y: clip_y, Width: clip_width, Height: clip_height }),
            strip_config(
                (MilPointAndSizeL { X: clip_x, Y: clip_y, Width: clip_width, Height: clip_height }),
                need_inside,
                outside_bounds,
            ),
        ),
        drawable(
            types@,
            points@,
            (MilPointAndSizeL { X: clip_x, Y: clip_y, Width: clip_width, Height: clip_height }),
        ) ==> strip_decided(
            result@,
            path_edges(
                points@,
                types@,
                points@.len() as int,
                Some(
                    clip_bounds_28_4(
                        (MilPointAndSizeL {
                            X: clip_x,
                            Y: clip_y,
                            Width: clip_width,
                            Height: clip_height,
                        }),
                    ),
                ),
                MilAntiAliasMode::EightByEight,
            ),
            fill_mode,
            (MilPointAndSizeL { X: clip_x, Y: clip_y, Width: clip_width, Height: clip_height }),
            strip_config(
                (MilPointAndSizeL { X: clip_x, Y: clip_y, Width: clip_width, Height: clip_height }),
                need_inside,
                outside_bounds,
            ),
        ),
{
    let ghost clip = MilPointAndSizeL { X: clip_x, Y: clip_y, Width: clip_width, Height: clip_height };
    let ghost path = path_edges(
        points@,
        types@,
        points@.len() as int,
        Some(clip_bounds_28_4(clip)),
        MilAntiAliasMode::EightByEight,
    );
    let ghost c = strip_config(clip, need_inside, outside_bounds);
    let ghost edges = path_edges(
        points@,
        types@,
        points@.len() as int,
        Some(clip_bounds_28_4(clip)),
        MilAntiAliasMode::EightByEight,
    ).len() as int;
    proof {
        assert(0 <= (clip_rows(clip) + 1) * row_vertices_max(edges)) by (nonlinear_arith)
            requires
                0 <= clip_rows(clip),
                0 <= row_vertices_max(edges),
        ;
    }
    let arena: typed_arena::Arena<CCoverageIntervalBuffer> = typed_arena::Arena::new();
    let mut rasterizer = CHwRasterizer::new(&arena);
    let mut device = CD3DDeviceLevel1::new();
    device.clipRect = MilPointAndSizeL { X: clip_x, Y: clip_y, Width: clip_width, Height: clip_height };
    rasterizer.Setup(&device, fill_mode);
    let mut m_mvfIn: MilVertexFormat = MilVertexFormatAttribute::MILVFAttrNone.Bits();
    let m_mvfGenerated: MilVertexFormat = MilVertexFormatAttribute::MILVFAttrNone.Bits();
    let mvfaAALocation = MilVertexFormatAttribute::MILVFAttrDiffuse;
    rasterizer.GetPerVertexDataType(&mut m_mvfIn);
    assert(((m_mvfIn | m_mvfGenerated) & !m_mvfIn) & 0x1 == 0) by (bit_vector)
        requires
            m_mvfGenerated == 0,
    ;
    let mut vertexBuilder = CHwTVertexBufferBuilder::<CD3DVertexXYZDUV2>::Create(
        m_mvfIn,
        m_mvfIn | m_mvfGenerated,
        mvfaAALocation,
        &device,
    );
    // The output is one triangle strip: lines have no place in it.
    vertexBuilder.SetForceTriangles(true);
    vertexBuilder.SetOutsideBounds(outside_bounds, need_inside);
    vertexBuilder.BeginBuilding(&device);
    let ghost begun = vertexBuilder;
    let hr = rasterizer.SendGeometry(&mut vertexBuilder, points, types);
    if hr != S_OK {
        return Vec::new();
    }
    let ghost mut pieces: Seq<Drawn> = Seq::empty();
    proof {
        assert(begun.config() == c);
        let none = Seq::<CD3DVertexXYZDUV2>::empty();
        if path.len() == 0 {
            assert(vertexBuilder.strip() =~= none);
            let patch = prepared_patch(c, strata_initial(), 8 * c.bottom, 8 * c.bottom, false, 0);
            assert(none + patch =~= patch);
        } else if path.len() <= EDGES_ASSURED {
            let behind = scan_end(path, clip) + 7;
            pieces = choose|pieces: Seq<Drawn>|
                rows_chosen(
                    &begun,
                    &vertexBuilder,
                    pieces,
                    path,
                    fill_mode,
                    scan_top(path),
                    behind,
                    scan_bottom(path, clip),
                    true,
                );
            let drawn = drawn_strip(c, strata_initial(), pieces);
            assert(none + drawn =~= drawn);
        }
    }
    proof {
        let strip = vertexBuilder.strip();
        let patch = prepared_patch(
            vertexBuilder.config(),
            vertexBuilder.strata(),
            8 * vertexBuilder.m_rcOutsideBounds.bottom,
            8 * vertexBuilder.m_rcOutsideBounds.bottom,
            false,
            0,
        );
        lemma_patch_covered(
            vertexBuilder.config(),
            vertexBuilder.strata(),
            8 * vertexBuilder.m_rcOutsideBounds.bottom,
            8 * vertexBuilder.m_rcOutsideBounds.bottom,
            false,
            0,
        );
        let all = strip + patch;
        assert forall|i: int| 0 <= i < all.len() implies 0 <= (#[trigger] output_vertices(
            all,
        )[i]).coverage <= 64 by {
            if i < strip.len() {
                assert(strip.subrange(0, strip.len() as int)[i] == strip[i]);
            } else {
                assert(all[i] == patch[i - strip.len()]);
            }
        }
        if path.len() == 0 || path.len() > EDGE_STORE_LIMIT {
            assert(strip =~= Seq::<CD3DVertexXYZDUV2>::empty());
        } else {
            let behind = scan_end(path, clip) + 7;
            let shown = choose|shown: Seq<Drawn>|
                rows_drawn(
                    &begun,
                    &vertexBuilder,
                    shown,
                    path,
                    fill_mode,
                    scan_top(path),
                    behind,
                    scan_bottom(path, clip),
                );
            lemma_drawn_placed(
                c,
                strata_initial(),
                shown,
                path,
                fill_mode,
                scan_bottom(path, clip),
            );
            assert(strip =~= drawn_strip(c, strata_initial(), shown));
        }
        assert(vertices_placed(strip));
        assert(strata_placed(vertexBuilder.strata()));
        lemma_patch_placed(
            vertexBuilder.config(),
            vertexBuilder.strata(),
            8 * vertexBuilder.m_rcOutsideBounds.bottom,
            8 * vertexBuilder.m_rcOutsideBounds.bottom,
            false,
            0,
            0,
            1,
            0,
            0,
            1,
        );
        lemma_placed_add(strip, patch);
        assert forall|i: int| 0 <= i < all.len() implies (#[trigger] output_vertices(
            all,
        )[i]).x_error_down >= 1 && -output_vertices(all)[i].x_error_down <= output_vertices(
            all,
        )[i].x_error <= 0 by {
            assert(vertex_placed(all[i]));
        }
        assert(device.output@ + output_vertices(all) =~= output_vertices(all));
    }
    vertexBuilder.FlushTryGetVertexBuffer(&mut device, false);
    proof {
        if drawable(types@, points@, clip) && path.len() > 0 {
            assert(strip_of(device.output@, pieces, path, fill_mode, clip, c));
            assert(strip_chosen(device.output@, pieces, path, fill_mode, clip, c));
        }
    }
    device.output
}

} // verus!
