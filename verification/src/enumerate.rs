//! Path validation and enumeration: walks the points and tags of a path,
//! flattens its Bezier curves and feeds the vertices, in batches, to the
//! edge initializer.

use vstd::prelude::*;
use crate::aarasterizer::{
    all_edges_wf, clip_model, edges_of_batch, edges_start_from, input_point,
    lemma_batch_edges_start, lemma_start_concat, max_end_y, scale_points, CInitializeEdgesContext,
    EdgeModel, InitializeEdges, COORD_MAX_ALIASED, COORD_MAX_ANTIALIASED, EDGE_STORE_LIMIT,
};
use crate::bezier::{flatten_points, lemma_flatten_points, points_within, CMILBezier};
use crate::types::{
    path_kind, PathKind, PathPointTypeBezier, PathPointTypeCloseSubpath, PathPointTypeLine,
    PathPointTypeStart, BYTE, HRESULT, INT, MilAntiAliasMode, POINT, RECT, S_OK, UINT,
    WGXERR_BADNUMBER, WINCODEC_ERR_VALUEOVERFLOW,
};

verus! {

/// Vertices per batch that is handed to the edge initializer.
pub const ENUMERATE_BUFFER_NUMBER: usize = 32;

/// The first index from `k` on, below `n`, whose tag starts a subpath; `n`
/// where there is none.
pub open spec fn next_start(types: Seq<u8>, n: int, k: int) -> int
    decreases n - k,
{
    if k >= n {
        n
    } else if path_kind(types[k]) == PathPointTypeStart {
        k
    } else {
        next_start(types, n, k + 1)
    }
}

/// One past the last element of the subpath that begins at `i`.
pub open spec fn subpath_end(types: Seq<u8>, n: int, i: int) -> int {
    next_start(types, n, i + 1)
}

pub proof fn lemma_next_start(types: Seq<u8>, n: int, k: int)
    requires
        0 <= k <= n,
    ensures
        k <= next_start(types, n, k) <= n,
        forall|m: int|
            k <= m < next_start(types, n, k) ==> path_kind(#[trigger] types[m])
                != PathPointTypeStart,
        next_start(types, n, k) < n ==> path_kind(types[next_start(types, n, k)])
            == PathPointTypeStart,
    decreases n - k,
{
    if k < n && path_kind(types[k]) != PathPointTypeStart {
        lemma_next_start(types, n, k + 1);
    }
}

/// A tag that carries the close flag.
pub open spec fn is_closed(tag: u8) -> bool {
    tag & PathPointTypeCloseSubpath != 0
}

/// A close flag may stand on the last element of a subpath only.
pub open spec fn close_allowed(types: Seq<u8>, e: int, j: int) -> bool {
    is_closed(types[e]) ==> e + 1 == j
}

/// The elements from `k` up to `j` are lines and groups of exactly three
/// Bezier points.
pub open spec fn valid_elements(types: Seq<u8>, k: int, j: int) -> bool
    decreases j - k,
{
    if k >= j {
        true
    } else if path_kind(types[k]) == PathPointTypeLine {
        close_allowed(types, k, j) && valid_elements(types, k + 1, j)
    } else if path_kind(types[k]) == PathPointTypeBezier {
        &&& k + 2 < j
        &&& path_kind(types[k + 1]) == PathPointTypeBezier
        &&& path_kind(types[k + 2]) == PathPointTypeBezier
        &&& close_allowed(types, k + 2, j)
        &&& valid_elements(types, k + 3, j)
    } else {
        false
    }
}

/// The elements from `i` up to `j` form a subpath: a start point and at
/// least one line or curve.
pub open spec fn valid_subpath(types: Seq<u8>, i: int, j: int) -> bool {
    &&& path_kind(types[i]) == PathPointTypeStart
    &&& i + 1 < j
    &&& valid_elements(types, i + 1, j)
}

/// From `i` on, the first `n` tags are a sequence of subpaths.
pub open spec fn valid_path_from(types: Seq<u8>, n: int, i: int) -> bool
    decreases n - i,
{
    if i >= n || i < 0 {
        true
    } else {
        let j = subpath_end(types, n, i);
        if i < j <= n {
            valid_subpath(types, i, j) && valid_path_from(types, n, j)
        } else {
            false
        }
    }
}

/// The first `n` tags describe a well-formed path: every subpath begins with
/// a start point, which lines and groups of three Bezier points follow, and
/// a close flag stands only on the last point of a subpath.
pub open spec fn valid_path_types(types: Seq<u8>, n: int) -> bool {
    valid_path_from(types, n, 0)
}

/// One past the last element of the subpath that begins at `iStart`.
pub fn SubpathEnd(rgTypes: &[BYTE], cPoints: usize, iStart: usize) -> (iEnd: usize)
    requires
        iStart < cPoints <= rgTypes@.len(),
    ensures
        iEnd == subpath_end(rgTypes@, cPoints as int, iStart as int),
        iStart < iEnd <= cPoints,
{
    let mut k: usize = iStart + 1;
    proof {
        lemma_next_start(rgTypes@, cPoints as int, iStart + 1);
    }
    while k < cPoints && PathKind(rgTypes[k]) != PathPointTypeStart
        invariant
            iStart < k <= cPoints <= rgTypes@.len(),
            next_start(rgTypes@, cPoints as int, k as int) == next_start(
                rgTypes@,
                cPoints as int,
                iStart + 1,
            ),
        decreases cPoints - k,
    {
        k += 1;
    }
    k
}

/// Whether the elements from `iStart` up to `iEnd` form a subpath.
pub fn ValidateSubpath(rgTypes: &[BYTE], iStart: usize, iEnd: usize) -> (valid: bool)
    requires
        iStart < iEnd <= rgTypes@.len(),
    ensures
        valid == valid_subpath(rgTypes@, iStart as int, iEnd as int),
{
    // The first point in every subpath has to be an unadorned
    // 'start' point:
    if PathKind(rgTypes[iStart]) != PathPointTypeStart {
        return false;
    }
    // Advance to the first point after the 'start' point:
    if iEnd - iStart < 2 {
        return false;
    }
    // Process runs of lines and Bezier curves:
    let mut k: usize = iStart + 1;
    while k < iEnd
        invariant
            iStart < k <= iEnd <= rgTypes@.len(),
            valid_elements(rgTypes@, iStart + 1, iEnd as int) == valid_elements(
                rgTypes@,
                k as int,
                iEnd as int,
            ),
        decreases iEnd - k,
    {
        let kind = PathKind(rgTypes[k]);
        let last: usize;
        if kind == PathPointTypeLine {
            last = k;
        } else if kind == PathPointTypeBezier {
            if iEnd - k < 3 {
                // Path ended before multiple of 3 Bezier points
                return false;
            }
            if PathKind(rgTypes[k + 1]) != PathPointTypeBezier {
                return false;
            }
            if PathKind(rgTypes[k + 2]) != PathPointTypeBezier {
                return false;
            }
            last = k + 2;
        } else {
            // Illegal type
            return false;
        }
        // A close-subpath marker marks the end of a subpath:
        if (rgTypes[last] & PathPointTypeCloseSubpath) != 0 && last + 1 != iEnd {
            return false;
        }
        k = last + 1;
    }
    true
}

/// Does complete parameter checking on the 'types' array of a path.
pub fn ValidatePathTypes(typesArray: &[BYTE], count: INT) -> (valid: bool)
    requires
        0 <= count <= typesArray@.len(),
    ensures
        valid == valid_path_types(typesArray@, count as int),
{
    let n: usize = count as usize;
    let mut i: usize = 0;
    while i < n
        invariant
            0 <= i <= n,
            n == count,
            n <= typesArray@.len(),
            valid_path_types(typesArray@, count as int) == valid_path_from(
                typesArray@,
                n as int,
                i as int,
            ),
        decreases n - i,
    {
        let j = SubpathEnd(typesArray, n, i);
        if !ValidateSubpath(typesArray, i, j) {
            return false;
        }
        i = j;
    }
    true
}

/// Checked statically where a caller relies on a well-formed path: the
/// 'types' array has to be well-formed.
pub fn AssertPath(rgTypes: &[BYTE], cPoints: UINT)
    requires
        cPoints <= rgTypes@.len(),
        valid_path_types(rgTypes@, cPoints as int),
{
}


/// The vertices that the elements from `k` up to `j` add to their subpath:
/// the end point of each line, and the flattening of each curve, whose first
/// control point is the point before it.
pub open spec fn element_vertices(
    points: Seq<POINT>,
    types: Seq<u8>,
    k: int,
    j: int,
    clip: Option<RECT>,
) -> Seq<POINT>
    decreases j - k,
{
    if k >= j {
        Seq::empty()
    } else if path_kind(types[k]) == PathPointTypeLine {
        seq![points[k]] + element_vertices(points, types, k + 1, j, clip)
    } else if k + 3 <= j {
        flatten_points(points[k - 1], points[k], points[k + 1], points[k + 2], clip)
            + element_vertices(points, types, k + 3, j, clip)
    } else {
        Seq::empty()
    }
}

/// The closed polygon of the subpath from `i` up to `j`: its start point,
/// the vertices of its elements, and its start point again.
pub open spec fn subpath_vertices(
    points: Seq<POINT>,
    types: Seq<u8>,
    i: int,
    j: int,
    clip: Option<RECT>,
) -> Seq<POINT> {
    (seq![points[i]] + element_vertices(points, types, i + 1, j, clip)).push(points[i])
}

/// The edges of a polygon that is handed to the edge initializer in batches
/// of [`ENUMERATE_BUFFER_NUMBER`] vertices, the last vertex of a batch being
/// the first of the next.
pub open spec fn stream_edges(v: Seq<POINT>, clip: Option<RECT>, mode: MilAntiAliasMode) -> Seq<
    EdgeModel,
>
    decreases v.len(),
{
    if v.len() <= ENUMERATE_BUFFER_NUMBER {
        if v.len() >= 2 {
            edges_of_batch(v, clip, mode)
        } else {
            Seq::empty()
        }
    } else {
        edges_of_batch(v.subrange(0, ENUMERATE_BUFFER_NUMBER as int), clip, mode) + stream_edges(
            v.skip(ENUMERATE_BUFFER_NUMBER - 1),
            clip,
            mode,
        )
    }
}

/// The edges of the subpath from `i` up to `j`; none where it is malformed.
pub open spec fn subpath_edges(
    points: Seq<POINT>,
    types: Seq<u8>,
    i: int,
    j: int,
    clip: Option<RECT>,
    mode: MilAntiAliasMode,
) -> Seq<EdgeModel> {
    if valid_subpath(types, i, j) {
        stream_edges(subpath_vertices(points, types, i, j, clip), clip, mode)
    } else {
        Seq::empty()
    }
}

/// The edges of the subpaths that begin at `i` or later.
pub open spec fn path_edges_from(
    points: Seq<POINT>,
    types: Seq<u8>,
    n: int,
    i: int,
    clip: Option<RECT>,
    mode: MilAntiAliasMode,
) -> Seq<EdgeModel>
    decreases n - i,
{
    if i >= n || i < 0 {
        Seq::empty()
    } else {
        let j = subpath_end(types, n, i);
        if i < j <= n {
            subpath_edges(points, types, i, j, clip, mode) + path_edges_from(
                points,
                types,
                n,
                j,
                clip,
                mode,
            )
        } else {
            Seq::empty()
        }
    }
}

/// The edges of a path of `n` points: those of its well-formed subpaths, in
/// path order. A malformed subpath is passed over.
pub open spec fn path_edges(
    points: Seq<POINT>,
    types: Seq<u8>,
    n: int,
    clip: Option<RECT>,
    mode: MilAntiAliasMode,
) -> Seq<EdgeModel> {
    path_edges_from(points, types, n, 0, clip, mode)
}

/// The largest magnitude that `mode` leaves to a 28.4 coordinate.
pub open spec fn coord_max(mode: MilAntiAliasMode) -> int {
    if mode == MilAntiAliasMode::Aliased {
        COORD_MAX_ALIASED as int
    } else {
        COORD_MAX_ANTIALIASED as int
    }
}

/// The first `n` points are all within the range of `mode`.
pub open spec fn points_in_range(points: Seq<POINT>, n: int, mode: MilAntiAliasMode) -> bool {
    forall|k: int| 0 <= k < n ==> input_point(#[trigger] points[k], mode)
}

/// Hands the first `cPoints` points on as 28.4 rasterizer points, unless one
/// of them is outside the range that the rasterizer works in: that is
/// `WGXERR_BADNUMBER`, and `pPtsDest` is then left as it was.
pub fn TransformRasterizerPointsTo28_4(
    pPtsSource: &[POINT],
    cPoints: UINT,
    mode: MilAntiAliasMode,
    pPtsDest: &mut Vec<POINT>,
) -> (hr: HRESULT)
    requires
        cPoints <= pPtsSource@.len(),
    ensures
        hr == S_OK <==> points_in_range(pPtsSource@, cPoints as int, mode),
        hr != S_OK ==> hr == WGXERR_BADNUMBER && final(pPtsDest)@ == old(pPtsDest)@,
        hr == S_OK ==> final(pPtsDest)@ == old(pPtsDest)@ + pPtsSource@.subrange(
            0,
            cPoints as int,
        ),
{
    // We want coordinates in the 28.4 range in the end.  Assuming a sign
    // bit and five bits for the rasterizer working range, we want
    // coordinates in the -2^26 to 2^26.
    //
    // Anti-aliasing uses another c_nShift bits, so we get a
    // desired range of -2^(26-c_nShift) to 2^(26-c_nShift)
    let rPixelCoordinateMax: INT = if mode != MilAntiAliasMode::Aliased {
        COORD_MAX_ANTIALIASED
    } else {
        COORD_MAX_ALIASED
    };
    let rPixelCoordinateMin: INT = -rPixelCoordinateMax;
    let n: usize = cPoints as usize;
    let mut k: usize = 0;
    while k < n
        invariant
            0 <= k <= n,
            n == cPoints,
            n <= pPtsSource@.len(),
            rPixelCoordinateMax == coord_max(mode),
            rPixelCoordinateMin == -coord_max(mode),
            points_in_range(pPtsSource@, k as int, mode),
        decreases n - k,
    {
        let p = pPtsSource[k];
        if !(p.x <= rPixelCoordinateMax && p.x >= rPixelCoordinateMin && p.y
            <= rPixelCoordinateMax && p.y >= rPixelCoordinateMin) {
            assert(!input_point(pPtsSource@[k as int], mode));
            return WGXERR_BADNUMBER;
        }
        k += 1;
    }
    let ghost before = pPtsDest@;
    let mut m: usize = 0;
    while m < n
        invariant
            0 <= m <= n,
            n == cPoints,
            n <= pPtsSource@.len(),
            pPtsDest@ == before + pPtsSource@.subrange(0, m as int),
        decreases n - m,
    {
        pPtsDest.push(pPtsSource[m]);
        assert(pPtsSource@.subrange(0, m + 1) =~= pPtsSource@.subrange(0, m as int).push(
            pPtsSource@[m as int],
        ));
        m += 1;
    }
    S_OK
}

/// The largest end over two runs of edges is the largest over the second,
/// starting from the largest over the first.
pub proof fn lemma_max_end_y_concat(a: Seq<EdgeModel>, b: Seq<EdgeModel>, init: int)
    ensures
        max_end_y(a + b, init) == max_end_y(b, max_end_y(a, init)),
    decreases b.len(),
{
    if b.len() == 0 {
        assert(a + b =~= a);
    } else {
        lemma_max_end_y_concat(a, b.drop_last(), init);
        assert((a + b).drop_last() =~= a + b.drop_last());
        assert((a + b).last() == b.last());
    }
}

/// A full batch with more to come: its edges, and then the stream that
/// begins with its last vertex.
pub proof fn lemma_stream_full(
    batch: Seq<POINT>,
    future: Seq<POINT>,
    clip: Option<RECT>,
    mode: MilAntiAliasMode,
)
    requires
        batch.len() == ENUMERATE_BUFFER_NUMBER,
        future.len() >= 1,
    ensures
        stream_edges(batch + future, clip, mode) == edges_of_batch(batch, clip, mode)
            + stream_edges(seq![batch.last()] + future, clip, mode),
{
    let v = batch + future;
    assert(v.subrange(0, ENUMERATE_BUFFER_NUMBER as int) =~= batch);
    assert(v.skip(ENUMERATE_BUFFER_NUMBER - 1) =~= seq![batch.last()] + future);
}

/// Hands the batch to the edge initializer and begins the next batch with
/// its last vertex.
fn FlushBatch(enumerateContext: &mut CInitializeEdgesContext, bufferStart: &mut Vec<POINT>) -> (hr:
    HRESULT)
    requires
        old(enumerateContext).Store.wf(),
        2 <= old(bufferStart)@.len() <= ENUMERATE_BUFFER_NUMBER,
        points_in_range(
            old(bufferStart)@,
            old(bufferStart)@.len() as int,
            old(enumerateContext).AntiAliasMode,
        ),
    ensures
        final(enumerateContext).Store.wf(),
        final(enumerateContext).ClipRect == old(enumerateContext).ClipRect,
        final(enumerateContext).AntiAliasMode == old(enumerateContext).AntiAliasMode,
        hr == S_OK || hr == WINCODEC_ERR_VALUEOVERFLOW,
        hr == S_OK <==> old(enumerateContext).Store.edges().len() + edges_of_batch(
            old(bufferStart)@,
            old(enumerateContext).ClipRect,
            old(enumerateContext).AntiAliasMode,
        ).len() <= EDGE_STORE_LIMIT,
        hr == S_OK ==> final(enumerateContext).Store.models() == old(
            enumerateContext,
        ).Store.models() + edges_of_batch(
            old(bufferStart)@,
            old(enumerateContext).ClipRect,
            old(enumerateContext).AntiAliasMode,
        ),
        hr == S_OK ==> final(enumerateContext).MaxY == max_end_y(
            edges_of_batch(
                old(bufferStart)@,
                old(enumerateContext).ClipRect,
                old(enumerateContext).AntiAliasMode,
            ),
            old(enumerateContext).MaxY as int,
        ),
        hr == S_OK ==> final(bufferStart)@ == seq![old(bufferStart)@.last()],
        all_edges_wf(old(enumerateContext).Store.models()) ==> all_edges_wf(
            final(enumerateContext).Store.models(),
        ),
{
    let count: usize = bufferStart.len();
    assert(bufferStart@.subrange(0, count as int) =~= bufferStart@);
    let hr = InitializeEdges(enumerateContext, bufferStart.as_slice(), count as UINT);
    if hr != S_OK {
        return hr;
    }
    // Continue the last vertex as the first in the new batch:
    let last = bufferStart[count - 1];
    bufferStart.clear();
    bufferStart.push(last);
    assert(bufferStart@ =~= seq![last]);
    S_OK
}


/// The context after edges were added: same clip rectangle and mode, a store
/// that is still well-formed and has lost nothing.
pub open spec fn context_kept(before: CInitializeEdgesContext, after: CInitializeEdgesContext) -> bool {
    &&& after.Store.wf()
    &&& after.ClipRect == before.ClipRect
    &&& after.AntiAliasMode == before.AntiAliasMode
    &&& (all_edges_wf(before.Store.models()) ==> all_edges_wf(after.Store.models()))
}

/// The context after exactly the edges `added` were added to it.
pub open spec fn context_grown(
    before: CInitializeEdgesContext,
    after: CInitializeEdgesContext,
    added: Seq<EdgeModel>,
) -> bool {
    &&& context_kept(before, after)
    &&& after.Store.models() == before.Store.models() + added
    &&& after.MaxY == max_end_y(added, before.MaxY as int)
}

/// Growing a context twice is growing it once by both runs of edges.
pub proof fn lemma_context_grown_twice(
    a: CInitializeEdgesContext,
    b: CInitializeEdgesContext,
    c: CInitializeEdgesContext,
    first: Seq<EdgeModel>,
    second: Seq<EdgeModel>,
)
    requires
        context_grown(a, b, first),
        context_grown(b, c, second),
    ensures
        context_grown(a, c, first + second),
{
    lemma_max_end_y_concat(first, second, a.MaxY as int);
    assert(a.Store.models() + (first + second) =~= (a.Store.models() + first) + second);
}

/// Flattens one curve into the batch buffer, handing every full batch to the
/// edge initializer. `after` are the vertices that follow the curve in its
/// subpath. Returns the edges that were added.
fn EnumerateBezier(
    enumerateContext: &mut CInitializeEdgesContext,
    bufferStart: &mut Vec<POINT>,
    bezier: &mut CMILBezier,
    Ghost(after): Ghost<Seq<POINT>>,
) -> (r: (HRESULT, Ghost<Seq<EdgeModel>>))
    requires
        old(enumerateContext).Store.wf(),
        old(bezier).wf(),
        old(bezier).pending().len() >= 1,
        points_within(old(bezier).pending(), coord_max(old(enumerateContext).AntiAliasMode)),
        after.len() >= 1,
        1 <= old(bufferStart)@.len() < ENUMERATE_BUFFER_NUMBER,
        points_in_range(
            old(bufferStart)@,
            old(bufferStart)@.len() as int,
            old(enumerateContext).AntiAliasMode,
        ),
    ensures
        r.0 == S_OK || r.0 == WINCODEC_ERR_VALUEOVERFLOW,
        context_kept(*old(enumerateContext), *final(enumerateContext)),
        r.0 == S_OK ==> context_grown(*old(enumerateContext), *final(enumerateContext), r.1@),
        r.0 == S_OK ==> stream_edges(
            old(bufferStart)@ + (old(bezier).pending() + after),
            old(enumerateContext).ClipRect,
            old(enumerateContext).AntiAliasMode,
        ) == r.1@ + stream_edges(
            final(bufferStart)@ + after,
            old(enumerateContext).ClipRect,
            old(enumerateContext).AntiAliasMode,
        ),
        r.0 == S_OK ==> 1 <= final(bufferStart)@.len() < ENUMERATE_BUFFER_NUMBER,
        r.0 == S_OK ==> points_in_range(
            final(bufferStart)@,
            final(bufferStart)@.len() as int,
            old(enumerateContext).AntiAliasMode,
        ),
        r.0 != S_OK ==> old(enumerateContext).Store.edges().len() + stream_edges(
            old(bufferStart)@ + (old(bezier).pending() + after),
            old(enumerateContext).ClipRect,
            old(enumerateContext).AntiAliasMode,
        ).len() > EDGE_STORE_LIMIT,
{
    let ghost clip = enumerateContext.ClipRect;
    let ghost mode = enumerateContext.AntiAliasMode;
    let ghost whole = stream_edges(bufferStart@ + (bezier.pending() + after), clip, mode);
    let ghost mut done: Seq<EdgeModel> = Seq::empty();
    let mut isMore: bool = true;
    proof {
        assert(done + whole =~= whole);
        assert(max_end_y(done, enumerateContext.MaxY as int) == enumerateContext.MaxY);
        assert(enumerateContext.Store.models() + done =~= enumerateContext.Store.models());
    }
    loop
        invariant_except_break
            bezier.pending().len() >= 1,
            1 <= bufferStart@.len() < ENUMERATE_BUFFER_NUMBER,
        invariant
            bezier.wf(),
            points_within(bezier.pending(), coord_max(mode)),
            after.len() >= 1,
            clip == old(enumerateContext).ClipRect,
            mode == old(enumerateContext).AntiAliasMode,
            context_grown(*old(enumerateContext), *enumerateContext, done),
            points_in_range(bufferStart@, bufferStart@.len() as int, mode),
            whole == done + stream_edges(bufferStart@ + (bezier.pending() + after), clip, mode),
            whole == stream_edges(
                old(bufferStart)@ + (old(bezier).pending() + after),
                clip,
                mode,
            ),
        ensures
            1 <= bufferStart@.len() < ENUMERATE_BUFFER_NUMBER,
            bezier.pending().len() == 0,
        decreases bezier.pending().len(),
    {
        let ghost buffer0 = bufferStart@;
        let ghost pending0 = bezier.pending();
        let room: usize = ENUMERATE_BUFFER_NUMBER - bufferStart.len();
        let thisCount = bezier.Flatten(bufferStart, room as UINT, &mut isMore);
        proof {
            assert(bufferStart@ + (bezier.pending() + after) =~= buffer0 + (pending0 + after));
            assert forall|k: int| 0 <= k < bufferStart@.len() implies input_point(
                #[trigger] bufferStart@[k],
                mode,
            ) by {
                if k >= buffer0.len() {
                    assert(bufferStart@[k] == pending0[k - buffer0.len()]);
                }
            }
            assert forall|k: int| 0 <= k < bezier.pending().len() implies -coord_max(mode) <= (
            #[trigger] bezier.pending()[k]).x <= coord_max(mode) && -coord_max(mode)
                <= bezier.pending()[k].y <= coord_max(mode) by {
                assert(bezier.pending()[k] == pending0[k + thisCount]);
            }
        }
        if bufferStart.len() < ENUMERATE_BUFFER_NUMBER {
            break ;
        }
        let ghost batch = bufferStart@;
        let ghost future = bezier.pending() + after;
        let ghost before = *enumerateContext;
        proof {
            lemma_stream_full(batch, future, clip, mode);
        }
        let hr = FlushBatch(enumerateContext, bufferStart);
        if hr != S_OK {
            proof {
                assert(before.Store.models().len() == before.Store.edges().len());
                assert(old(enumerateContext).Store.models().len() == old(
                    enumerateContext,
                ).Store.edges().len());
            }
            return (hr, Ghost(done));
        }
        proof {
            let added = edges_of_batch(batch, clip, mode);
            lemma_context_grown_twice(*old(enumerateContext), before, *enumerateContext, done, added);
            assert(done + (added + stream_edges(seq![batch.last()] + future, clip, mode)) =~= (done
                + added) + stream_edges(seq![batch.last()] + future, clip, mode));
            done = done + added;
        }
        if !isMore {
            break ;
        }
    }
    proof {
        assert(bezier.pending() + after =~= after);
    }
    (S_OK, Ghost(done))
}


/// Enumerates the well-formed subpath from `iStart` up to `iEnd`: its start
/// point, its lines and flattened curves, and its start point again, which
/// closes the figure (a fill always closes it).
#[verifier::rlimit(60)]
fn EnumerateSubpath(
    rgpt: &[POINT],
    rgTypes: &[BYTE],
    iStart: usize,
    iEnd: usize,
    enumerateContext: &mut CInitializeEdgesContext,
) -> (hr: HRESULT)
    requires
        old(enumerateContext).Store.wf(),
        iStart < iEnd <= rgpt@.len(),
        iEnd <= rgTypes@.len(),
        valid_subpath(rgTypes@, iStart as int, iEnd as int),
        points_in_range(rgpt@, iEnd as int, old(enumerateContext).AntiAliasMode),
    ensures
        hr == S_OK || hr == WINCODEC_ERR_VALUEOVERFLOW,
        context_kept(*old(enumerateContext), *final(enumerateContext)),
        hr == S_OK ==> context_grown(
            *old(enumerateContext),
            *final(enumerateContext),
            subpath_edges(
                rgpt@,
                rgTypes@,
                iStart as int,
                iEnd as int,
                old(enumerateContext).ClipRect,
                old(enumerateContext).AntiAliasMode,
            ),
        ),
        hr != S_OK ==> old(enumerateContext).Store.edges().len() + subpath_edges(
            rgpt@,
            rgTypes@,
            iStart as int,
            iEnd as int,
            old(enumerateContext).ClipRect,
            old(enumerateContext).AntiAliasMode,
        ).len() > EDGE_STORE_LIMIT,
{
    let clip = enumerateContext.ClipRect;
    let ghost mode = enumerateContext.AntiAliasMode;
    let ghost points = rgpt@;
    let ghost types = rgTypes@;
    let ghost whole = subpath_edges(points, types, iStart as int, iEnd as int, clip, mode);
    let ghost mut done: Seq<EdgeModel> = Seq::empty();

    // Add the start point to the beginning of the batch, and
    // remember it for handling the close figure:
    let startFigure = rgpt[iStart];
    let mut bufferStart: Vec<POINT> = Vec::new();
    bufferStart.push(startFigure);

    // We need to enter our loop with 'k' pointing one past
    // the start figure:
    let mut k: usize = iStart + 1;
    proof {
        assert(done + whole =~= whole);
        assert(enumerateContext.Store.models() + done =~= enumerateContext.Store.models());
        assert(bufferStart@ + element_vertices(points, types, k as int, iEnd as int, clip).push(
            startFigure,
        ) =~= subpath_vertices(points, types, iStart as int, iEnd as int, clip));
    }
    while k < iEnd
        invariant
            iStart < k <= iEnd <= rgpt@.len(),
            iEnd <= rgTypes@.len(),
            points == rgpt@,
            types == rgTypes@,
            startFigure == points[iStart as int],
            clip == old(enumerateContext).ClipRect,
            mode == old(enumerateContext).AntiAliasMode,
            valid_elements(types, k as int, iEnd as int),
            points_in_range(points, iEnd as int, mode),
            whole == subpath_edges(points, types, iStart as int, iEnd as int, clip, mode),
            context_grown(*old(enumerateContext), *enumerateContext, done),
            1 <= bufferStart@.len() < ENUMERATE_BUFFER_NUMBER,
            points_in_range(bufferStart@, bufferStart@.len() as int, mode),
            whole == done + stream_edges(
                bufferStart@ + element_vertices(points, types, k as int, iEnd as int, clip).push(
                    startFigure,
                ),
                clip,
                mode,
            ),
        decreases iEnd - k,
    {
        let ghost buffer0 = bufferStart@;
        let ghost before = *enumerateContext;
        if PathKind(rgTypes[k]) == PathPointTypeLine {
            let ghost after = element_vertices(points, types, k + 1, iEnd as int, clip).push(
                startFigure,
            );
            bufferStart.push(rgpt[k]);
            proof {
                assert(bufferStart@ + after =~= buffer0 + element_vertices(
                    points,
                    types,
                    k as int,
                    iEnd as int,
                    clip,
                ).push(startFigure));
            }
            if bufferStart.len() == ENUMERATE_BUFFER_NUMBER {
                let ghost batch = bufferStart@;
                proof {
                    lemma_stream_full(batch, after, clip, mode);
                }
                let hr = FlushBatch(enumerateContext, &mut bufferStart);
                if hr != S_OK {
                    proof {
                        let added = edges_of_batch(batch, clip, mode);
                        let tail = stream_edges(seq![batch.last()] + after, clip, mode);
                        assert(before.Store.models().len() == before.Store.edges().len());
                        assert(old(enumerateContext).Store.models().len() == old(
                            enumerateContext,
                        ).Store.edges().len());
                        assert(whole == done + (added + tail));
                        assert(whole.len() == done.len() + added.len() + tail.len());
                        assert(before.Store.models().len() == old(
                            enumerateContext,
                        ).Store.models().len() + done.len());
                    }
                    return hr;
                }
                proof {
                    let added = edges_of_batch(batch, clip, mode);
                    lemma_context_grown_twice(
                        *old(enumerateContext),
                        before,
                        *enumerateContext,
                        done,
                        added,
                    );
                    assert(done + (added + stream_edges(seq![batch.last()] + after, clip, mode))
                        =~= (done + added) + stream_edges(seq![batch.last()] + after, clip, mode));
                    done = done + added;
                }
            }
            k += 1;
        } else {
            let ghost after = element_vertices(points, types, k + 3, iEnd as int, clip).push(
                startFigure,
            );
            let bezierBuffer: [POINT; 4] = [rgpt[k - 1], rgpt[k], rgpt[k + 1], rgpt[k + 2]];
            proof {
                assert(bezierBuffer@[0] == points[k - 1] && bezierBuffer@[1] == points[k as int]
                    && bezierBuffer@[2] == points[k + 1] && bezierBuffer@[3] == points[k + 2]);
                assert(points_within(bezierBuffer@, coord_max(mode)));
                assert(seq![points[k - 1], points[k as int], points[k + 1], points[k + 2]]
                    =~= bezierBuffer@);
                lemma_flatten_points(
                    points[k - 1],
                    points[k as int],
                    points[k + 1],
                    points[k + 2],
                    clip,
                    coord_max(mode),
                );
            }
            // Process the Bezier:
            let mut bezier = CMILBezier::new(&bezierBuffer, clip);
            let ghost curve = bezier.pending();
            proof {
                assert(buffer0 + (curve + after) =~= buffer0 + element_vertices(
                    points,
                    types,
                    k as int,
                    iEnd as int,
                    clip,
                ).push(startFigure));
            }
            let (hr, Ghost(added)) = EnumerateBezier(
                enumerateContext,
                &mut bufferStart,
                &mut bezier,
                Ghost(after),
            );
            if hr != S_OK {
                proof {
                    let part = stream_edges(buffer0 + (curve + after), clip, mode);
                    assert(before.Store.models().len() == before.Store.edges().len());
                    assert(old(enumerateContext).Store.models().len() == old(
                        enumerateContext,
                    ).Store.edges().len());
                    assert(whole == done + part);
                    assert(whole.len() == done.len() + part.len());
                    assert(before.Store.models().len() == old(
                        enumerateContext,
                    ).Store.models().len() + done.len());
                }
                return hr;
            }
            proof {
                lemma_context_grown_twice(
                    *old(enumerateContext),
                    before,
                    *enumerateContext,
                    done,
                    added,
                );
                assert(done + (added + stream_edges(bufferStart@ + after, clip, mode)) =~= (done
                    + added) + stream_edges(bufferStart@ + after, clip, mode));
                done = done + added;
            }
            // Prepare for the next iteration:
            k += 3;
        }
    }
    // Okay, the subpath is done.  But we still have to handle the
    // 'close figure' (which is implicit for a fill):
    // Add the close-figure point:
    let ghost buffer1 = bufferStart@;
    bufferStart.push(startFigure);
    proof {
        assert(element_vertices(points, types, k as int, iEnd as int, clip) =~= Seq::<
            POINT,
        >::empty());
        assert(buffer1 + Seq::<POINT>::empty().push(startFigure) =~= bufferStart@);
    }
    // We have to flush anything we might have in the batch:
    let ghost before = *enumerateContext;
    let ghost batch = bufferStart@;
    proof {
        assert(stream_edges(batch, clip, mode) == edges_of_batch(batch, clip, mode));
        assert(whole == done + edges_of_batch(batch, clip, mode));
    }
    let hr = FlushBatch(enumerateContext, &mut bufferStart);
    if hr != S_OK {
        proof {
            let added = edges_of_batch(batch, clip, mode);
            assert(before.Store.models().len() == before.Store.edges().len());
            assert(old(enumerateContext).Store.models().len() == old(
                enumerateContext,
            ).Store.edges().len());
            assert(whole.len() == done.len() + added.len());
            assert(before.Store.models().len() == old(enumerateContext).Store.models().len()
                + done.len());
        }
        return hr;
    }
    proof {
        let added = edges_of_batch(batch, clip, mode);
        lemma_context_grown_twice(*old(enumerateContext), before, *enumerateContext, done, added);
    }
    S_OK
}

/// Enumerate the path: build the edges of its `cPoints` points, which are
/// 28.4 fixed point, and add them to the store of `enumerateContext`.
///
/// Fails with `WGXERR_BADNUMBER`, adding nothing, where a point is outside the
/// working range; else adds the edges of [`path_edges`], unless the store
/// cannot hold them all, which is `WINCODEC_ERR_VALUEOVERFLOW`.
pub fn FixedPointPathEnumerate(
    rgpt: &[POINT],
    rgTypes: &[BYTE],
    cPoints: UINT,
    enumerateContext: &mut CInitializeEdgesContext,
) -> (hr: HRESULT)
    requires
        old(enumerateContext).Store.wf(),
        cPoints <= rgpt@.len(),
        cPoints <= rgTypes@.len(),
    ensures
        context_kept(*old(enumerateContext), *final(enumerateContext)),
        hr == S_OK || hr == WGXERR_BADNUMBER || hr == WINCODEC_ERR_VALUEOVERFLOW,
        hr == WGXERR_BADNUMBER <==> !points_in_range(
            rgpt@,
            cPoints as int,
            old(enumerateContext).AntiAliasMode,
        ),
        hr == WGXERR_BADNUMBER ==> *final(enumerateContext) == *old(enumerateContext),
        hr == WINCODEC_ERR_VALUEOVERFLOW <==> points_in_range(
            rgpt@,
            cPoints as int,
            old(enumerateContext).AntiAliasMode,
        ) && old(enumerateContext).Store.edges().len() + path_edges(
            rgpt@,
            rgTypes@,
            cPoints as int,
            old(enumerateContext).ClipRect,
            old(enumerateContext).AntiAliasMode,
        ).len() > EDGE_STORE_LIMIT,
        hr == S_OK ==> context_grown(
            *old(enumerateContext),
            *final(enumerateContext),
            path_edges(
                rgpt@,
                rgTypes@,
                cPoints as int,
                old(enumerateContext).ClipRect,
                old(enumerateContext).AntiAliasMode,
            ),
        ),
{
    let ghost clip = enumerateContext.ClipRect;
    let ghost mode = enumerateContext.AntiAliasMode;
    let ghost points = rgpt@;
    let ghost types = rgTypes@;
    let n: usize = cPoints as usize;
    let ghost whole = path_edges(points, types, n as int, clip, mode);
    let ghost mut done: Seq<EdgeModel> = Seq::empty();

    let mut checked: Vec<POINT> = Vec::new();
    let hrRange = TransformRasterizerPointsTo28_4(
        rgpt,
        cPoints,
        enumerateContext.AntiAliasMode,
        &mut checked,
    );
    if hrRange != S_OK {
        return hrRange;
    }
    proof {
        assert(done + whole =~= whole);
        assert(enumerateContext.Store.models() + done =~= enumerateContext.Store.models());
    }
    let mut iStart: usize = 0;
    while iStart < n
        invariant
            0 <= iStart <= n,
            n == cPoints,
            n <= rgpt@.len(),
            n <= rgTypes@.len(),
            points == rgpt@,
            types == rgTypes@,
            clip == old(enumerateContext).ClipRect,
            mode == old(enumerateContext).AntiAliasMode,
            points_in_range(points, n as int, mode),
            whole == path_edges(points, types, n as int, clip, mode),
            context_grown(*old(enumerateContext), *enumerateContext, done),
            whole == done + path_edges_from(points, types, n as int, iStart as int, clip, mode),
        decreases n - iStart,
    {
        let iEnd = SubpathEnd(rgTypes, n, iStart);
        let ghost rest = path_edges_from(points, types, n as int, iEnd as int, clip, mode);
        let ghost sub = subpath_edges(points, types, iStart as int, iEnd as int, clip, mode);
        if ValidateSubpath(rgTypes, iStart, iEnd) {
            let ghost before = *enumerateContext;
            let hr = EnumerateSubpath(rgpt, rgTypes, iStart, iEnd, enumerateContext);
            if hr != S_OK {
                proof {
                    assert(before.Store.models().len() == before.Store.edges().len());
                    assert(old(enumerateContext).Store.models().len() == old(
                        enumerateContext,
                    ).Store.edges().len());
                    assert(whole == done + (sub + rest));
                    assert(whole.len() == done.len() + sub.len() + rest.len());
                    assert(before.Store.models().len() == old(
                        enumerateContext,
                    ).Store.models().len() + done.len());
                }
                return hr;
            }
            proof {
                lemma_context_grown_twice(
                    *old(enumerateContext),
                    before,
                    *enumerateContext,
                    done,
                    sub,
                );
                assert(done + (sub + rest) =~= (done + sub) + rest);
                done = done + sub;
            }
        } else {
            proof {
                assert(done + (sub + rest) =~= done + rest);
            }
        }
        iStart = iEnd;
    }
    proof {
        assert(done + Seq::<EdgeModel>::empty() =~= done);
        enumerateContext.Store.lemma_wf();
        assert(enumerateContext.Store.models().len() == enumerateContext.Store.edges().len());
        assert(old(enumerateContext).Store.models().len() == old(
            enumerateContext,
        ).Store.edges().len());
    }
    S_OK
}


/// No edge of a polygon begins above the first scanline of the clip
/// rectangle.
pub proof fn lemma_stream_edges_start(v: Seq<POINT>, clip: Option<RECT>, mode: MilAntiAliasMode)
    ensures
        edges_start_from(stream_edges(v, clip, mode), clip_model(clip, mode).top_integer),
    decreases v.len(),
{
    let c = clip_model(clip, mode);
    if v.len() <= ENUMERATE_BUFFER_NUMBER {
        if v.len() >= 2 {
            let scaled = scale_points(v, mode);
            lemma_batch_edges_start(scaled[0], scaled.drop_first(), c);
        }
    } else {
        let first = v.subrange(0, ENUMERATE_BUFFER_NUMBER as int);
        let scaled = scale_points(first, mode);
        lemma_batch_edges_start(scaled[0], scaled.drop_first(), c);
        lemma_stream_edges_start(v.skip(ENUMERATE_BUFFER_NUMBER - 1), clip, mode);
        lemma_start_concat(
            edges_of_batch(first, clip, mode),
            stream_edges(v.skip(ENUMERATE_BUFFER_NUMBER - 1), clip, mode),
            c.top_integer,
        );
    }
}

/// No edge of a path begins above the first scanline of the clip
/// rectangle.
pub proof fn lemma_path_edges_start(
    points: Seq<POINT>,
    types: Seq<u8>,
    n: int,
    i: int,
    clip: Option<RECT>,
    mode: MilAntiAliasMode,
)
    ensures
        edges_start_from(
            path_edges_from(points, types, n, i, clip, mode),
            clip_model(clip, mode).top_integer,
        ),
    decreases n - i,
{
    if 0 <= i < n {
        let j = subpath_end(types, n, i);
        if i < j <= n {
            lemma_path_edges_start(points, types, n, j, clip, mode);
            if valid_subpath(types, i, j) {
                lemma_stream_edges_start(subpath_vertices(points, types, i, j, clip), clip, mode);
            }
            lemma_start_concat(
                subpath_edges(points, types, i, j, clip, mode),
                path_edges_from(points, types, n, j, clip, mode),
                clip_model(clip, mode).top_integer,
            );
        }
    }
}

} // verus!
