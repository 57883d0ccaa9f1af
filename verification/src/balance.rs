//! The edges of a path are those of closed polygons: on every scanline
//! within the clip rectangle as many of them run down as run up.

use vstd::prelude::*;
use crate::aarasterizer::{
    batch_edges, clip_model, clip_rejects, edges_of_batch, optional_edge, scale_points,
    segment_edge, ClipModel,
};
use crate::enumerate::{
    path_edges_from, stream_edges, subpath_edges, subpath_end, subpath_vertices, valid_subpath,
    ENUMERATE_BUFFER_NUMBER,
};
use crate::scanline::{crossing_sum, lemma_crossing_concat, net_winding};
use crate::types::{MilAntiAliasMode, POINT, RECT};

verus! {

/// 1 where the first scanline at or below the working point `p` is `y` or
/// one before it; else 0.
pub open spec fn reached(p: POINT, y: int) -> int {
    if (p.y + 15) / 16 <= y {
        1
    } else {
        0
    }
}

/// The scanline `y` lies within the clip rectangle, whose first scanline
/// begins with a device scanline.
pub open spec fn scanline_within(c: ClipModel, y: int) -> bool {
    &&& c.top_integer <= y
    &&& c.active ==> c.top <= 16 * c.top_integer && 16 * y <= c.bottom
}

/// The edge of a segment weighs, on a scanline at or below the top of the
/// clip rectangle, 1 where the segment runs down across the scanline, and
/// -1 where it runs up across it.
pub proof fn lemma_segment_winding(p: POINT, q: POINT, clip_top: int, y: int)
    requires
        clip_top <= y,
    ensures
        net_winding(optional_edge(segment_edge(p, q, clip_top)), y) == reached(p, y) - reached(
            q,
            y,
        ),
{
    let edges = optional_edge(segment_edge(p, q, clip_top));
    if edges.len() > 0 {
        assert(crossing_sum(edges, 0, y, true) == 0);
        assert(crossing_sum(edges, 1, y, true) == crossing_sum(edges, 0, y, true)
            + crate::scanline::crossing_weight(edges[0], y, true));
    }
}

/// The edges of a polyline add up, on a scanline within the clip
/// rectangle, to what its first and its last vertex say: 1 where it begins
/// above the scanline and ends below it, -1 the other way round.
pub proof fn lemma_batch_winding(p: POINT, rest: Seq<POINT>, c: ClipModel, y: int)
    requires
        scanline_within(c, y),
    ensures
        net_winding(batch_edges(p, rest, c), y) == reached(p, y) - reached(
            if rest.len() > 0 {
                rest.last()
            } else {
                p
            },
            y,
        ),
    decreases rest.len(),
{
    if rest.len() > 0 {
        let q = rest[0];
        let tail = rest.drop_first();
        if tail.len() > 0 {
            assert(tail.last() == rest.last());
        }
        if clip_rejects(c, p, q) {
            lemma_batch_winding(q, tail, c, y);
        } else if tail.len() > 0 && crate::aarasterizer::clip_collapses(c, p, q, tail[0]) {
            lemma_batch_winding(p, tail, c, y);
        } else {
            lemma_batch_winding(q, tail, c, y);
            lemma_segment_winding(p, q, c.top_integer, y);
            let one = optional_edge(segment_edge(p, q, c.top_integer));
            let more = batch_edges(q, tail, c);
            lemma_crossing_concat(one, more, more.len() as int, y, true);
        }
    }
}

/// The edges of a polygon that ends where it began cancel on every
/// scanline within the clip rectangle.
pub proof fn lemma_stream_winding(v: Seq<POINT>, clip: Option<RECT>, mode: MilAntiAliasMode, y: int)
    requires
        scanline_within(clip_model(clip, mode), y),
        v.len() >= 1,
    ensures
        net_winding(stream_edges(v, clip, mode), y) == reached(
            scale_points(v, mode)[0],
            y,
        ) - reached(scale_points(v, mode).last(), y),
    decreases v.len(),
{
    let c = clip_model(clip, mode);
    let scaled = scale_points(v, mode);
    if v.len() <= ENUMERATE_BUFFER_NUMBER {
        if v.len() >= 2 {
            lemma_batch_winding(scaled[0], scaled.drop_first(), c, y);
            assert(scaled.drop_first().last() == scaled.last());
        }
    } else {
        let first = v.subrange(0, ENUMERATE_BUFFER_NUMBER as int);
        let rest = v.skip(ENUMERATE_BUFFER_NUMBER - 1);
        let head = scale_points(first, mode);
        lemma_batch_winding(head[0], head.drop_first(), c, y);
        lemma_stream_winding(rest, clip, mode, y);
        let a = edges_of_batch(first, clip, mode);
        let b = stream_edges(rest, clip, mode);
        lemma_crossing_concat(a, b, b.len() as int, y, true);
        assert(head.drop_first().last() == head.last());
        assert(head.last() == scale_points(rest, mode)[0]);
        assert(head[0] == scaled[0]);
        assert(scale_points(rest, mode).last() == scaled.last());
    }
}

/// As many edges of a path run down across a scanline within the clip
/// rectangle as run up across it.
pub proof fn lemma_path_winding(
    points: Seq<POINT>,
    types: Seq<u8>,
    n: int,
    i: int,
    clip: Option<RECT>,
    mode: MilAntiAliasMode,
    y: int,
)
    requires
        scanline_within(clip_model(clip, mode), y),
    ensures
        net_winding(path_edges_from(points, types, n, i, clip, mode), y) == 0,
    decreases n - i,
{
    if 0 <= i < n {
        let j = subpath_end(types, n, i);
        if i < j <= n {
            lemma_path_winding(points, types, n, j, clip, mode, y);
            let a = subpath_edges(points, types, i, j, clip, mode);
            let b = path_edges_from(points, types, n, j, clip, mode);
            if valid_subpath(types, i, j) {
                let v = subpath_vertices(points, types, i, j, clip);
                lemma_stream_winding(v, clip, mode, y);
                assert(v[0] == v.last());
                assert(scale_points(v, mode)[0] == scale_points(v, mode).last());
            }
            lemma_crossing_concat(a, b, b.len() as int, y, true);
        }
    }
}

} // verus!
