//! Flattening of cubic Bezier curves on 28.4 fixed-point control points.
//!
//! The flattener is a state machine: it keeps a stack of the sub-curves that
//! are still to be approximated and hands the end points of the line
//! segments out in batches.

use vstd::prelude::*;
use crate::types::{INT, LONGLONG, POINT, RECT, UINT};

verus! {

/// One unit of a 28.4 coordinate in the flattener's working precision.
pub const BEZIER_ONE: LONGLONG = 0x1_0000;

/// A sub-curve is not halved more often than this.
pub const BEZIER_MAX_DEPTH: u32 = 32;

/// A sub-curve whose second differences are at most 3/16 of a pixel per
/// axis is replaced by its chord, which then lies within a quarter of a
/// pixel of it.
pub const BEZIER_FLATNESS: LONGLONG = 0x3_0000;

/// Largest magnitude of a control coordinate that the flattener takes: 2^26.
pub const BEZIER_COORD_MAX: LONGLONG = 0x0400_0000;

/// A cubic Bezier by its four control points, in working precision.
pub struct Cubic {
    pub x0: int,
    pub y0: int,
    pub x1: int,
    pub y1: int,
    pub x2: int,
    pub y2: int,
    pub x3: int,
    pub y3: int,
}

/// Floor of the mean of two coordinates.
pub open spec fn mid(a: int, b: int) -> int {
    (a + b) / 2
}

/// The first half of the curve (de Casteljau at 1/2).
pub open spec fn cubic_left(c: Cubic) -> Cubic {
    let x01 = mid(c.x0, c.x1);
    let y01 = mid(c.y0, c.y1);
    let x12 = mid(c.x1, c.x2);
    let y12 = mid(c.y1, c.y2);
    let x23 = mid(c.x2, c.x3);
    let y23 = mid(c.y2, c.y3);
    let x012 = mid(x01, x12);
    let y012 = mid(y01, y12);
    let x123 = mid(x12, x23);
    let y123 = mid(y12, y23);
    Cubic {
        x0: c.x0,
        y0: c.y0,
        x1: x01,
        y1: y01,
        x2: x012,
        y2: y012,
        x3: mid(x012, x123),
        y3: mid(y012, y123),
    }
}

/// The second half of the curve (de Casteljau at 1/2).
pub open spec fn cubic_right(c: Cubic) -> Cubic {
    let x01 = mid(c.x0, c.x1);
    let y01 = mid(c.y0, c.y1);
    let x12 = mid(c.x1, c.x2);
    let y12 = mid(c.y1, c.y2);
    let x23 = mid(c.x2, c.x3);
    let y23 = mid(c.y2, c.y3);
    let x012 = mid(x01, x12);
    let y012 = mid(y01, y12);
    let x123 = mid(x12, x23);
    let y123 = mid(y12, y23);
    Cubic {
        x0: mid(x012, x123),
        y0: mid(y012, y123),
        x1: x123,
        y1: y123,
        x2: x23,
        y2: y23,
        x3: c.x3,
        y3: c.y3,
    }
}

pub open spec fn magnitude(v: int) -> int {
    if v < 0 {
        -v
    } else {
        v
    }
}

/// Both second differences of the control polygon are within
/// [`BEZIER_FLATNESS`] on both axes.
pub open spec fn cubic_flat(c: Cubic) -> bool {
    &&& magnitude(c.x0 - 2 * c.x1 + c.x2) <= BEZIER_FLATNESS
    &&& magnitude(c.y0 - 2 * c.y1 + c.y2) <= BEZIER_FLATNESS
    &&& magnitude(c.x1 - 2 * c.x2 + c.x3) <= BEZIER_FLATNESS
    &&& magnitude(c.y1 - 2 * c.y2 + c.y3) <= BEZIER_FLATNESS
}

/// All four coordinates are below `limit`.
pub open spec fn all_below(a: int, b: int, c: int, d: int, limit: int) -> bool {
    a < limit && b < limit && c < limit && d < limit
}

/// All four coordinates are above `limit`.
pub open spec fn all_above(a: int, b: int, c: int, d: int, limit: int) -> bool {
    a > limit && b > limit && c > limit && d > limit
}

/// The control polygon, moved by the half pixel that the edge builder adds,
/// lies wholly on the outer side of one side of the clip rectangle (28.4).
/// Nothing that such a curve bounds inside the rectangle changes when the
/// curve is replaced by its chord.
pub open spec fn cubic_outside(c: Cubic, clip: Option<RECT>) -> bool {
    match clip {
        Some(r) => {
            ||| all_below(c.x0, c.x1, c.x2, c.x3, (r.left - 8) * 0x1_0000)
            ||| all_above(c.x0, c.x1, c.x2, c.x3, (r.right - 8) * 0x1_0000)
            ||| all_below(c.y0, c.y1, c.y2, c.y3, (r.top - 8) * 0x1_0000)
            ||| all_above(c.y0, c.y1, c.y2, c.y3, (r.bottom - 8) * 0x1_0000)
        },
        None => false,
    }
}

/// A working coordinate rounded to the nearest 28.4 value.
pub open spec fn round_coord(v: int) -> int {
    (v + 0x8000) / 0x1_0000
}

/// The end point of a sub-curve as a 28.4 point.
pub open spec fn cubic_end(c: Cubic) -> POINT {
    POINT { x: round_coord(c.x3) as INT, y: round_coord(c.y3) as INT }
}

/// A sub-curve that is not halved any further.
pub open spec fn cubic_is_leaf(c: Cubic, depth: nat, clip: Option<RECT>) -> bool {
    depth >= BEZIER_MAX_DEPTH || cubic_flat(c) || cubic_outside(c, clip)
}

/// The end points of the line segments that approximate the curve, first to
/// last: its own end point where it is a leaf, else those of its two halves.
pub open spec fn flatten_cubic(c: Cubic, depth: nat, clip: Option<RECT>) -> Seq<POINT>
    decreases BEZIER_MAX_DEPTH - depth,
{
    if cubic_is_leaf(c, depth, clip) {
        seq![cubic_end(c)]
    } else {
        flatten_cubic(cubic_left(c), depth + 1, clip) + flatten_cubic(
            cubic_right(c),
            depth + 1,
            clip,
        )
    }
}

/// The curve through four 28.4 control points, in working precision.
pub open spec fn cubic_of(p0: POINT, p1: POINT, p2: POINT, p3: POINT) -> Cubic {
    Cubic {
        x0: p0.x * 0x1_0000,
        y0: p0.y * 0x1_0000,
        x1: p1.x * 0x1_0000,
        y1: p1.y * 0x1_0000,
        x2: p2.x * 0x1_0000,
        y2: p2.y * 0x1_0000,
        x3: p3.x * 0x1_0000,
        y3: p3.y * 0x1_0000,
    }
}

/// The flattening of the curve through four 28.4 control points: the end
/// points of its line segments, the first control point not among them.
pub open spec fn flatten_points(
    p0: POINT,
    p1: POINT,
    p2: POINT,
    p3: POINT,
    clip: Option<RECT>,
) -> Seq<POINT> {
    flatten_cubic(cubic_of(p0, p1, p2, p3), 0, clip)
}

/// All control coordinates are within `bound` 28.4 units of zero.
pub open spec fn cubic_within(c: Cubic, bound: int) -> bool {
    let w = bound * 0x1_0000;
    &&& -w <= c.x0 <= w
    &&& -w <= c.y0 <= w
    &&& -w <= c.x1 <= w
    &&& -w <= c.y1 <= w
    &&& -w <= c.x2 <= w
    &&& -w <= c.y2 <= w
    &&& -w <= c.x3 <= w
    &&& -w <= c.y3 <= w
}

/// The mean of two coordinates lies between them.
pub proof fn lemma_mid_between(a: int, b: int, w: int)
    requires
        -w <= a <= w,
        -w <= b <= w,
    ensures
        -w <= mid(a, b) <= w,
{
}

/// The halves of a curve stay in the square that holds the curve.
pub proof fn lemma_halves_within(c: Cubic, bound: int)
    requires
        cubic_within(c, bound),
    ensures
        cubic_within(cubic_left(c), bound),
        cubic_within(cubic_right(c), bound),
{
    let w = bound * 0x1_0000;
    lemma_mid_between(c.x0, c.x1, w);
    lemma_mid_between(c.y0, c.y1, w);
    lemma_mid_between(c.x1, c.x2, w);
    lemma_mid_between(c.y1, c.y2, w);
    lemma_mid_between(c.x2, c.x3, w);
    lemma_mid_between(c.y2, c.y3, w);
    let x01 = mid(c.x0, c.x1);
    let y01 = mid(c.y0, c.y1);
    let x12 = mid(c.x1, c.x2);
    let y12 = mid(c.y1, c.y2);
    let x23 = mid(c.x2, c.x3);
    let y23 = mid(c.y2, c.y3);
    lemma_mid_between(x01, x12, w);
    lemma_mid_between(y01, y12, w);
    lemma_mid_between(x12, x23, w);
    lemma_mid_between(y12, y23, w);
    lemma_mid_between(mid(x01, x12), mid(x12, x23), w);
    lemma_mid_between(mid(y01, y12), mid(y12, y23), w);
}

/// The end point of a curve lies in the square that holds the curve.
pub proof fn lemma_end_within(c: Cubic, bound: int)
    requires
        0 <= bound <= BEZIER_COORD_MAX,
        cubic_within(c, bound),
    ensures
        -bound <= cubic_end(c).x <= bound,
        -bound <= cubic_end(c).y <= bound,
        cubic_end(c).x == round_coord(c.x3),
        cubic_end(c).y == round_coord(c.y3),
{
}

/// All coordinates of all points are within `bound` of zero.
pub open spec fn points_within(points: Seq<POINT>, bound: int) -> bool {
    forall|i: int|
        0 <= i < points.len() ==> -bound <= (#[trigger] points[i]).x <= bound && -bound
            <= points[i].y <= bound
}

/// Flattening yields at least one point, ends on the end point of the curve,
/// and never leaves the square that holds the control points.
pub proof fn lemma_flatten_cubic(c: Cubic, depth: nat, clip: Option<RECT>, bound: int)
    requires
        0 <= bound <= BEZIER_COORD_MAX,
        cubic_within(c, bound),
    ensures
        flatten_cubic(c, depth, clip).len() >= 1,
        flatten_cubic(c, depth, clip).last() == cubic_end(c),
        points_within(flatten_cubic(c, depth, clip), bound),
    decreases BEZIER_MAX_DEPTH - depth,
{
    if cubic_is_leaf(c, depth, clip) {
        lemma_end_within(c, bound);
        assert(flatten_cubic(c, depth, clip) =~= seq![cubic_end(c)]);
    } else {
        let l = flatten_cubic(cubic_left(c), depth + 1, clip);
        let r = flatten_cubic(cubic_right(c), depth + 1, clip);
        lemma_halves_within(c, bound);
        lemma_flatten_cubic(cubic_left(c), depth + 1, clip, bound);
        lemma_flatten_cubic(cubic_right(c), depth + 1, clip, bound);
        assert(flatten_cubic(c, depth, clip) == l + r);
        assert(cubic_end(cubic_right(c)) == cubic_end(c));
        lemma_concat_within(l, r, bound);
    }
}

/// Two runs of points within a bound make one.
pub proof fn lemma_concat_within(l: Seq<POINT>, r: Seq<POINT>, bound: int)
    requires
        points_within(l, bound),
        points_within(r, bound),
        r.len() >= 1,
    ensures
        points_within(l + r, bound),
        (l + r).last() == r.last(),
{
    assert forall|i: int| 0 <= i < (l + r).len() implies -bound <= (#[trigger] (l + r)[i]).x
        <= bound && -bound <= (l + r)[i].y <= bound by {
        if i < l.len() {
            assert((l + r)[i] == l[i]);
        } else {
            assert((l + r)[i] == r[i - l.len()]);
        }
    }
}

/// What [`lemma_flatten_cubic`] says, of the curve through four 28.4 points.
pub proof fn lemma_flatten_points(
    p0: POINT,
    p1: POINT,
    p2: POINT,
    p3: POINT,
    clip: Option<RECT>,
    bound: int,
)
    requires
        0 <= bound <= BEZIER_COORD_MAX,
        points_within(seq![p0, p1, p2, p3], bound),
    ensures
        flatten_points(p0, p1, p2, p3, clip).len() >= 1,
        flatten_points(p0, p1, p2, p3, clip).last() == p3,
        points_within(flatten_points(p0, p1, p2, p3, clip), bound),
{
    let s = seq![p0, p1, p2, p3];
    assert(s[0] == p0 && s[1] == p1 && s[2] == p2 && s[3] == p3);
    lemma_flatten_cubic(cubic_of(p0, p1, p2, p3), 0, clip, bound);
    lemma_end_within(cubic_of(p0, p1, p2, p3), bound);
}

/// A sub-curve on the flattener's stack.
#[derive(Clone, Copy, Debug)]
pub struct BezierSegment {
    pub x0: LONGLONG,
    pub y0: LONGLONG,
    pub x1: LONGLONG,
    pub y1: LONGLONG,
    pub x2: LONGLONG,
    pub y2: LONGLONG,
    pub x3: LONGLONG,
    pub y3: LONGLONG,
    /// How many times the curve was halved to get this one.
    pub depth: u32,
}

impl BezierSegment {
    pub open spec fn cubic(self) -> Cubic {
        Cubic {
            x0: self.x0 as int,
            y0: self.y0 as int,
            x1: self.x1 as int,
            y1: self.y1 as int,
            x2: self.x2 as int,
            y2: self.y2 as int,
            x3: self.x3 as int,
            y3: self.y3 as int,
        }
    }

    pub open spec fn wf(self) -> bool {
        cubic_within(self.cubic(), BEZIER_COORD_MAX as int) && self.depth <= BEZIER_MAX_DEPTH
    }

    pub open spec fn output(self, clip: Option<RECT>) -> Seq<POINT> {
        flatten_cubic(self.cubic(), self.depth as nat, clip)
    }
}

/// The points still to come from a stack of sub-curves, the top of the stack
/// (its last element) first.
pub open spec fn stack_output(stack: Seq<BezierSegment>, clip: Option<RECT>) -> Seq<POINT>
    decreases stack.len(),
{
    if stack.len() == 0 {
        Seq::empty()
    } else {
        stack.last().output(clip) + stack_output(stack.drop_last(), clip)
    }
}

/// Every sub-curve on the stack still yields a point.
pub proof fn lemma_stack_output_len(stack: Seq<BezierSegment>, clip: Option<RECT>)
    requires
        forall|i: int| 0 <= i < stack.len() ==> (#[trigger] stack[i]).wf(),
    ensures
        stack_output(stack, clip).len() >= stack.len(),
    decreases stack.len(),
{
    if stack.len() > 0 {
        lemma_flatten_cubic(
            stack.last().cubic(),
            stack.last().depth as nat,
            clip,
            BEZIER_COORD_MAX as int,
        );
        lemma_stack_output_len(stack.drop_last(), clip);
    }
}

fn Mid(a: LONGLONG, b: LONGLONG) -> (m: LONGLONG)
    requires
        -0x400_0000_0000 <= a <= 0x400_0000_0000,
        -0x400_0000_0000 <= b <= 0x400_0000_0000,
    ensures
        m == mid(a as int, b as int),
{
    let s: LONGLONG = a + b;
    assert(s >> 1u32 == s as int / 2) by (bit_vector);
    s >> 1u32
}

fn Magnitude(v: LONGLONG) -> (m: LONGLONG)
    requires
        -0x7000_0000_0000_0000 <= v,
    ensures
        m == magnitude(v as int),
{
    if v < 0 {
        -v
    } else {
        v
    }
}

/// Flattener of one cubic Bezier curve.
pub struct CMILBezier {
    stack: Vec<BezierSegment>,
    clip: Option<RECT>,
}

impl CMILBezier {
    /// The points that are still to be handed out, in order.
    pub closed spec fn pending(&self) -> Seq<POINT> {
        stack_output(self.stack@, self.clip)
    }

    pub closed spec fn wf(&self) -> bool {
        &&& forall|i: int| 0 <= i < self.stack@.len() ==> (#[trigger] self.stack@[i]).wf()
        &&& forall|i: int| 0 <= i < self.stack@.len() ==> (#[trigger] self.stack@[i]).depth >= i
    }

    /// The number of sub-curves that wait on the stack never exceeds the
    /// depth limit by more than one.
    pub proof fn lemma_stack_bounded(&self)
        requires
            self.wf(),
        ensures
            self.stack_len() <= BEZIER_MAX_DEPTH + 1,
    {
        if self.stack@.len() > 0 {
            let top = self.stack@.len() - 1;
            assert(self.stack@[top].wf());
            assert(self.stack@[top].depth >= top);
        }
    }

    pub closed spec fn stack_len(&self) -> nat {
        self.stack@.len()
    }

    /// A flattener for the curve through the four control points, which are
    /// 28.4 fixed point, as is the optional clip rectangle.
    pub fn new(aptfx: &[POINT; 4], prcfxClip: Option<RECT>) -> (bezier: Self)
        requires
            points_within(aptfx@, BEZIER_COORD_MAX as int),
        ensures
            bezier.wf(),
            bezier.pending() == flatten_points(aptfx[0], aptfx[1], aptfx[2], aptfx[3], prcfxClip),
    {
        assert(aptfx@[0] == aptfx[0] && aptfx@[1] == aptfx[1] && aptfx@[2] == aptfx[2] && aptfx@[3]
            == aptfx[3]);
        let root = BezierSegment {
            x0: (aptfx[0].x as LONGLONG) * BEZIER_ONE,
            y0: (aptfx[0].y as LONGLONG) * BEZIER_ONE,
            x1: (aptfx[1].x as LONGLONG) * BEZIER_ONE,
            y1: (aptfx[1].y as LONGLONG) * BEZIER_ONE,
            x2: (aptfx[2].x as LONGLONG) * BEZIER_ONE,
            y2: (aptfx[2].y as LONGLONG) * BEZIER_ONE,
            x3: (aptfx[3].x as LONGLONG) * BEZIER_ONE,
            y3: (aptfx[3].y as LONGLONG) * BEZIER_ONE,
            depth: 0,
        };
        let mut stack: Vec<BezierSegment> = Vec::new();
        stack.push(root);
        proof {
            assert(stack@.drop_last() =~= Seq::<BezierSegment>::empty());
            assert(stack_output(stack@, prcfxClip) == root.output(prcfxClip) + stack_output(
                stack@.drop_last(),
                prcfxClip,
            ));
            assert(stack_output(stack@, prcfxClip) =~= root.output(prcfxClip));
        }
        CMILBezier { stack, clip: prcfxClip }
    }

    /// Whether the sub-curve is replaced by its chord.
    fn IsLeaf(&self, seg: &BezierSegment) -> (leaf: bool)
        requires
            seg.wf(),
        ensures
            leaf == cubic_is_leaf(seg.cubic(), seg.depth as nat, self.clip),
    {
        if seg.depth >= BEZIER_MAX_DEPTH {
            return true;
        }
        let flat = Magnitude(seg.x0 - 2 * seg.x1 + seg.x2) <= BEZIER_FLATNESS && Magnitude(
            seg.y0 - 2 * seg.y1 + seg.y2,
        ) <= BEZIER_FLATNESS && Magnitude(seg.x1 - 2 * seg.x2 + seg.x3) <= BEZIER_FLATNESS
            && Magnitude(seg.y1 - 2 * seg.y2 + seg.y3) <= BEZIER_FLATNESS;
        if flat {
            return true;
        }
        match self.clip {
            Some(r) => {
                let left: LONGLONG = (r.left as LONGLONG - 8) * BEZIER_ONE;
                let right: LONGLONG = (r.right as LONGLONG - 8) * BEZIER_ONE;
                let top: LONGLONG = (r.top as LONGLONG - 8) * BEZIER_ONE;
                let bottom: LONGLONG = (r.bottom as LONGLONG - 8) * BEZIER_ONE;
                (seg.x0 < left && seg.x1 < left && seg.x2 < left && seg.x3 < left) || (seg.x0
                    > right && seg.x1 > right && seg.x2 > right && seg.x3 > right) || (seg.y0 < top
                    && seg.y1 < top && seg.y2 < top && seg.y3 < top) || (seg.y0 > bottom && seg.y1
                    > bottom && seg.y2 > bottom && seg.y3 > bottom)
            },
            None => false,
        }
    }

    /// Hands out the next points of the flattening: at most `cptfx` of them,
    /// appended to `pptfx`. Returns their number and says in `pbMore` whether
    /// any are left for a further call.
    pub fn Flatten(&mut self, pptfx: &mut Vec<POINT>, cptfx: UINT, pbMore: &mut bool) -> (count:
        UINT)
        requires
            old(self).wf(),
            cptfx >= 1,
        ensures
            final(self).wf(),
            count <= cptfx,
            count == if old(self).pending().len() < cptfx {
                old(self).pending().len() as int
            } else {
                cptfx as int
            },
            final(pptfx)@ == old(pptfx)@ + old(self).pending().subrange(0, count as int),
            final(self).pending() == old(self).pending().skip(count as int),
            *final(pbMore) == (final(self).pending().len() > 0),
    {
        let mut count: UINT = 0;
        let ghost all = self.pending();
        let ghost before = pptfx@;
        proof {
            assert(all.subrange(0, 0) =~= Seq::<POINT>::empty());
            assert(before + all.subrange(0, 0) =~= before);
            assert(all.skip(0) =~= all);
        }
        while count < cptfx && self.stack.len() > 0
            invariant
                self.wf(),
                count <= cptfx,
                count <= all.len(),
                pptfx@ == before + all.subrange(0, count as int),
                self.pending() == all.skip(count as int),
                self.clip == old(self).clip,
            decreases 2 * self.pending().len() - self.stack@.len(),
        {
            let ghost stack0 = self.stack@;
            let ghost clip = self.clip;
            proof {
                lemma_stack_output_len(stack0, clip);
            }
            let top: usize = self.stack.len() - 1;
            let seg = self.stack[top];
            assert(seg == stack0.last());
            assert(seg.wf());
            let leaf = self.IsLeaf(&seg);
            self.stack.pop();
            assert(self.stack@ =~= stack0.drop_last());
            let ghost rest = stack0.drop_last();
            proof {
                assert(stack_output(stack0, clip) == seg.output(clip) + stack_output(rest, clip));
                lemma_flatten_cubic(
                    seg.cubic(),
                    seg.depth as nat,
                    clip,
                    BEZIER_COORD_MAX as int,
                );
            }
            if leaf {
                let x: LONGLONG = seg.x3 + 0x8000;
                let y: LONGLONG = seg.y3 + 0x8000;
                assert(x >> 16u32 == x as int / 0x1_0000) by (bit_vector);
                assert(y >> 16u32 == y as int / 0x1_0000) by (bit_vector);
                let point = POINT { x: (x >> 16u32) as INT, y: (y >> 16u32) as INT };
                pptfx.push(point);
                proof {
                    assert(seg.output(clip) =~= seq![point]);
                    assert(all.skip(count as int)[0] == point);
                    assert(all.subrange(0, count + 1) =~= all.subrange(0, count as int).push(
                        point,
                    ));
                    assert(stack_output(rest, clip) =~= all.skip(count as int).skip(1));
                    assert(all.skip(count as int).skip(1) =~= all.skip(count + 1));
                    lemma_stack_output_len(rest, clip);
                }
                count += 1;
            } else {
                proof {
                    lemma_mid_between(seg.x0 as int, seg.x1 as int, 0x400_0000_0000);
                    lemma_mid_between(seg.y0 as int, seg.y1 as int, 0x400_0000_0000);
                    lemma_mid_between(seg.x1 as int, seg.x2 as int, 0x400_0000_0000);
                    lemma_mid_between(seg.y1 as int, seg.y2 as int, 0x400_0000_0000);
                    lemma_mid_between(seg.x2 as int, seg.x3 as int, 0x400_0000_0000);
                    lemma_mid_between(seg.y2 as int, seg.y3 as int, 0x400_0000_0000);
                }
                let x01 = Mid(seg.x0, seg.x1);
                let y01 = Mid(seg.y0, seg.y1);
                let x12 = Mid(seg.x1, seg.x2);
                let y12 = Mid(seg.y1, seg.y2);
                let x23 = Mid(seg.x2, seg.x3);
                let y23 = Mid(seg.y2, seg.y3);
                proof {
                    lemma_mid_between(x01 as int, x12 as int, 0x400_0000_0000);
                    lemma_mid_between(y01 as int, y12 as int, 0x400_0000_0000);
                    lemma_mid_between(x12 as int, x23 as int, 0x400_0000_0000);
                    lemma_mid_between(y12 as int, y23 as int, 0x400_0000_0000);
                }
                let x012 = Mid(x01, x12);
                let y012 = Mid(y01, y12);
                let x123 = Mid(x12, x23);
                let y123 = Mid(y12, y23);
                let xm = Mid(x012, x123);
                let ym = Mid(y012, y123);
                let left = BezierSegment {
                    x0: seg.x0,
                    y0: seg.y0,
                    x1: x01,
                    y1: y01,
                    x2: x012,
                    y2: y012,
                    x3: xm,
                    y3: ym,
                    depth: seg.depth + 1,
                };
                let right = BezierSegment {
                    x0: xm,
                    y0: ym,
                    x1: x123,
                    y1: y123,
                    x2: x23,
                    y2: y23,
                    x3: seg.x3,
                    y3: seg.y3,
                    depth: seg.depth + 1,
                };
                proof {
                    lemma_halves_within(seg.cubic(), BEZIER_COORD_MAX as int);
                }
                assert(left.cubic() == cubic_left(seg.cubic()));
                assert(right.cubic() == cubic_right(seg.cubic()));
                assert(left.wf() && right.wf());
                self.stack.push(right);
                self.stack.push(left);
                proof {
                    let s1 = rest.push(right);
                    let s2 = s1.push(left);
                    assert(self.stack@ == s2);
                    assert(s2.drop_last() =~= s1);
                    assert(s1.drop_last() =~= rest);
                    assert(stack_output(s2, clip) == left.output(clip) + stack_output(s1, clip));
                    assert(stack_output(s1, clip) == right.output(clip) + stack_output(rest, clip));
                    assert(seg.output(clip) == left.output(clip) + right.output(clip));
                    assert(stack_output(s2, clip) =~= stack_output(stack0, clip));
                    assert forall|i: int| 0 <= i < s2.len() implies (#[trigger] s2[i]).depth
                        >= i by {
                        if i < rest.len() {
                            assert(s2[i] == stack0[i]);
                        } else {
                            assert(stack0[top as int].depth >= top);
                        }
                    }
                    assert forall|i: int| 0 <= i < s2.len() implies (#[trigger] s2[i]).wf() by {
                        if i < rest.len() {
                            assert(s2[i] == stack0[i]);
                        }
                    }
                }
            }
        }
        proof {
            if self.stack@.len() == 0 {
                assert(self.pending() =~= Seq::<POINT>::empty());
            } else {
                lemma_stack_output_len(self.stack@, self.clip);
            }
        }
        *pbMore = self.stack.len() > 0;
        count
    }
}

} // verus!
