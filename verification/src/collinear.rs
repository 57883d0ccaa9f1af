//! The DDA of an edge follows the line through its end points exactly: on
//! every scanline its x is the ceiling of the x of the line. So an edge
//! and the two edges into which a vertex on it divides it stand in the
//! same place on every scanline.

use vstd::prelude::*;
use vstd::arithmetic::div_mod::{
    lemma_fundamental_div_mod, lemma_fundamental_div_mod_converse, lemma_mod_bound,
};
use crate::aarasterizer::{
    dda_advance, dda_on_first_scanline, lemma_dda_advance_add, lemma_dda_advance_last,
    lemma_dda_closed_form, optional_edge, segment_edge, Dda, EdgeModel,
};
use crate::drawing::{lemma_pieces_same, pieces_true, Drawn};
use crate::sample::{same_inside, sample_inside};
use crate::scanline::{crosses, edge_on, edge_weight, lemma_edge_on_frame, tally};
use crate::types::{MilFillMode, POINT};

verus! {

/// The ceiling of `a / b`, for a positive `b`.
pub open spec fn ceil_div(a: int, b: int) -> int {
    -((-a) / b)
}

/// Sixteen times the x, times `dn`, of the line through `(xs, ys)` with the
/// slope `dm / dn`, at the height of scanline `y`.
pub open spec fn line_numerator(xs: int, ys: int, dm: int, dn: int, y: int) -> int {
    xs * dn + dm * (16 * y - ys)
}

/// The x in which a DDA stands on scanline `y` when it follows the line
/// through `(xs, ys)` with the slope `dm / dn`: the x of the line there,
/// rounded up to a whole number.
pub open spec fn line_x_at(xs: int, ys: int, dm: int, dn: int, y: int) -> int {
    ceil_div(line_numerator(xs, ys, dm, dn, y), 16 * dn)
}

/// The DDA `s` stands on the line on scanline `y`: its x and its error
/// account for the numerator of the line exactly, up to the fraction `r` of
/// the error that was rounded away.
pub open spec fn on_line(s: Dda, xs: int, ys: int, dm: int, dn: int, y: int, r: int) -> bool {
    &&& 0 <= r <= 15
    &&& 16 * dn * s.x + 16 * s.error + r + 1 == line_numerator(xs, ys, dm, dn, y)
}

/// The ceiling of a quotient is the number whose multiple is the first not
/// below the numerator.
pub proof fn lemma_ceil_div(a: int, b: int, x: int)
    requires
        b > 0,
        b * (x - 1) < a <= b * x,
    ensures
        ceil_div(a, b) == x,
{
    let r = b * x - a;
    assert(b * (x - 1) == b * x - b) by (nonlinear_arith);
    assert(0 <= r < b);
    assert(-a == (-x) * b + r) by (nonlinear_arith)
        requires
            r == b * x - a,
    ;
    lemma_fundamental_div_mod_converse(-a, b, -x, r);
}

/// A DDA that stands on the line has the x of the line, rounded up.
pub proof fn lemma_on_line_x(s: Dda, xs: int, ys: int, dm: int, dn: int, y: int, r: int)
    requires
        dn > 0,
        -dn <= s.error < 0,
        on_line(s, xs, ys, dm, dn, y, r),
    ensures
        s.x == line_x_at(xs, ys, dm, dn, y),
{
    let n = line_numerator(xs, ys, dm, dn, y);
    assert((16 * dn) * (s.x - 1) < n <= (16 * dn) * s.x) by (nonlinear_arith)
        requires
            16 * dn * s.x + 16 * s.error + r + 1 == n,
            0 <= r <= 15,
            -dn <= s.error < 0,
            dn > 0,
    ;
    lemma_ceil_div(n, 16 * dn, s.x);
}

/// A fresh DDA that was advanced to the first scanline of its edge stands
/// on the line of the edge.
pub proof fn lemma_first_scanline_on_line(xs: int, ys: int, dm: int, dn: int, start_y: int) -> (fraction:
    int)
    requires
        dn > 0,
        0 <= 16 * start_y - ys <= 15,
    ensures
        on_line(
            dda_on_first_scanline(xs, (16 * start_y - ys) as nat, dm / dn, dm % dn, dn),
            xs,
            ys,
            dm,
            dn,
            start_y,
            fraction,
        ),
        -dn <= dda_on_first_scanline(
            xs,
            (16 * start_y - ys) as nat,
            dm / dn,
            dm % dn,
            dn,
        ).error < 0,
{
    let dx = dm / dn;
    let up = dm % dn;
    let k = (16 * start_y - ys) as nat;
    lemma_fundamental_div_mod(dm, dn);
    lemma_mod_bound(dm, dn);
    let start = Dda { x: xs, error: -1 };
    lemma_dda_closed_form(start, dx, up, dn, k);
    let sub = dda_advance(start, dx, up, dn, k);
    let t = k * up + (-1) + dn;
    lemma_fundamental_div_mod(t, dn);
    lemma_mod_bound(t, dn);
    assert(sub.x == xs + k * dx + t / dn);
    assert(sub.error == t % dn - dn);
    let m = line_numerator(xs, ys, dm, dn, start_y);
    assert(sub.x * dn + sub.error == m - 1) by (nonlinear_arith)
        requires
            sub.x == xs + k * dx + t / dn,
            sub.error == t % dn - dn,
            t == dn * (t / dn) + t % dn,
            t == k * up + (-1) + dn,
            dm == dn * dx + up,
            m == xs * dn + dm * k,
    ;
    let folded = dda_on_first_scanline(xs, k, dx, up, dn);
    let f = (16 - sub.x % 16) % 16;
    assert(16 * folded.x == sub.x + f);
    let e16 = sub.error - dn * f;
    assert(folded.error == e16 / 16);
    let r = e16 % 16;
    assert(e16 == 16 * folded.error + r);
    assert(16 * dn * folded.x + 16 * folded.error + r + 1 == m) by (nonlinear_arith)
        requires
            16 * folded.x == sub.x + f,
            e16 == sub.error - dn * f,
            e16 == 16 * folded.error + r,
            sub.x * dn + sub.error == m - 1,
    ;
    assert(-16 * dn <= e16 <= -1) by (nonlinear_arith)
        requires
            e16 == sub.error - dn * f,
            -dn <= sub.error < 0,
            0 <= f <= 15,
            dn > 0,
    ;
    assert(on_line(folded, xs, ys, dm, dn, start_y, r));
    r
}

/// A DDA that stands on the line stands on the line after any number of
/// steps.
pub proof fn lemma_advance_on_line(
    s: Dda,
    xs: int,
    ys: int,
    dm: int,
    dn: int,
    y: int,
    r: int,
    k: nat,
)
    requires
        dn > 0,
        -dn <= s.error < 0,
        on_line(s, xs, ys, dm, dn, y, r),
    ensures
        on_line(dda_advance(s, dm / dn, dm % dn, dn, k), xs, ys, dm, dn, y + k, r),
        -dn <= dda_advance(s, dm / dn, dm % dn, dn, k).error < 0,
{
    let dx = dm / dn;
    let up = dm % dn;
    lemma_fundamental_div_mod(dm, dn);
    lemma_mod_bound(dm, dn);
    lemma_dda_closed_form(s, dx, up, dn, k);
    let after = dda_advance(s, dx, up, dn, k);
    let t = k * up + s.error + dn;
    lemma_fundamental_div_mod(t, dn);
    lemma_mod_bound(t, dn);
    assert(after.x == s.x + k * dx + t / dn);
    assert(after.error == t % dn - dn);
    assert(16 * dn * after.x + 16 * after.error + r + 1 == line_numerator(
        xs,
        ys,
        dm,
        dn,
        y + k,
    )) by (nonlinear_arith)
        requires
            after.x == s.x + k * dx + t / dn,
            after.error == t % dn - dn,
            t == dn * (t / dn) + t % dn,
            t == k * up + s.error + dn,
            dm == dn * dx + up,
            16 * dn * s.x + 16 * s.error + r + 1 == line_numerator(xs, ys, dm, dn, y),
            line_numerator(xs, ys, dm, dn, y) == xs * dn + dm * (16 * y - ys),
            line_numerator(xs, ys, dm, dn, y + k) == xs * dn + dm * (16 * (y + k) - ys),
    ;
}

/// The ceiling of a sixteenth of a coordinate.
pub open spec fn ceil16(v: int) -> int {
    (v + 15) / 16
}

/// The edge of a segment that runs downwards from `p` to `q` stands, on
/// every scanline `y` of its own, in the x of the line through `p` and `q`,
/// rounded up.
pub proof fn lemma_edge_follows_line(p: POINT, q: POINT, y: int)
    requires
        p.y < q.y,
        ceil16(p.y as int) <= y < ceil16(q.y as int),
    ensures
        segment_edge(p, q, y).is_some(),
        segment_edge(p, q, y).unwrap().x == line_x_at(
            p.x as int,
            p.y as int,
            q.x - p.x,
            q.y - p.y,
            y,
        ),
        segment_edge(p, q, y).unwrap().start_y <= y < segment_edge(p, q, y).unwrap().end_y,
{
    let dn = q.y - p.y;
    let dm = q.x - p.x;
    let xs = p.x as int;
    let ys = p.y as int;
    let start_y = ceil16(ys);
    let r = lemma_first_scanline_on_line(xs, ys, dm, dn, start_y);
    let folded = dda_on_first_scanline(xs, (16 * start_y - ys) as nat, dm / dn, dm % dn, dn);
    if y > start_y {
        lemma_advance_on_line(folded, xs, ys, dm, dn, start_y, r, (y - start_y) as nat);
        let after = dda_advance(folded, dm / dn, dm % dn, dn, (y - start_y) as nat);
        lemma_on_line_x(after, xs, ys, dm, dn, y, r);
    } else {
        lemma_on_line_x(folded, xs, ys, dm, dn, y, r);
    }
}

/// The three points lie on one line.
pub open spec fn collinear(p: POINT, q: POINT, r: POINT) -> bool {
    (q.x - p.x) * (r.y - p.y) == (r.x - p.x) * (q.y - p.y)
}

/// Two lines through the point `(rx, ry)` with the same slope have the same
/// x, rounded up, on every scanline.
pub proof fn lemma_same_line(rx: int, ry: int, dm1: int, dn1: int, dm2: int, dn2: int, y: int)
    requires
        dn1 > 0,
        dn2 > 0,
        dm1 * dn2 == dm2 * dn1,
    ensures
        line_x_at(rx - dm1, ry - dn1, dm1, dn1, y) == line_x_at(rx - dm2, ry - dn2, dm2, dn2, y),
{
    let n1 = line_numerator(rx - dm1, ry - dn1, dm1, dn1, y);
    let n2 = line_numerator(rx - dm2, ry - dn2, dm2, dn2, y);
    let h = 16 * y - ry;
    assert(n1 == rx * dn1 + dm1 * h) by (nonlinear_arith)
        requires
            n1 == (rx - dm1) * dn1 + dm1 * (16 * y - (ry - dn1)),
            h == 16 * y - ry,
    ;
    assert(n2 == rx * dn2 + dm2 * h) by (nonlinear_arith)
        requires
            n2 == (rx - dm2) * dn2 + dm2 * (16 * y - (ry - dn2)),
            h == 16 * y - ry,
    ;
    assert(n1 * dn2 == n2 * dn1) by (nonlinear_arith)
        requires
            n1 == rx * dn1 + dm1 * h,
            n2 == rx * dn2 + dm2 * h,
            dm1 * dn2 == dm2 * dn1,
    ;
    let x = ceil_div(n1, 16 * dn1);
    lemma_fundamental_div_mod(-n1, 16 * dn1);
    lemma_mod_bound(-n1, 16 * dn1);
    assert((16 * dn1) * (x - 1) < n1 <= (16 * dn1) * x) by (nonlinear_arith)
        requires
            -n1 == (16 * dn1) * ((-n1) / (16 * dn1)) + (-n1) % (16 * dn1),
            0 <= (-n1) % (16 * dn1) < 16 * dn1,
            x == -((-n1) / (16 * dn1)),
    ;
    assert((16 * dn2) * (x - 1) < n2 <= (16 * dn2) * x) by (nonlinear_arith)
        requires
            (16 * dn1) * (x - 1) < n1 <= (16 * dn1) * x,
            n1 * dn2 == n2 * dn1,
            dn1 > 0,
            dn2 > 0,
    ;
    lemma_ceil_div(n2, 16 * dn2, x);
}

/// A vertex on an edge changes nothing in where the edge stands: where `q`
/// lies on the segment that runs downwards from `p` to `r`, the edge from
/// `p` to `r` stands, on every scanline of the edge from `q` to `r`, in the
/// same x as that edge; and, on every scanline of the edge from `p` to `q`,
/// in the same x as that edge. So the coverage of every scanline is the
/// same with the vertex and without it.
pub proof fn lemma_collinear_vertex_is_redundant(p: POINT, q: POINT, r: POINT, y: int)
    requires
        p.y <= q.y <= r.y,
        p.y < r.y,
        collinear(p, q, r),
        ceil16(p.y as int) <= y < ceil16(r.y as int),
    ensures
        segment_edge(p, r, y).is_some(),
        y >= ceil16(q.y as int) ==> segment_edge(q, r, y).is_some() && segment_edge(
            q,
            r,
            y,
        ).unwrap().x == segment_edge(p, r, y).unwrap().x,
        y < ceil16(q.y as int) ==> segment_edge(p, q, y).is_some() && segment_edge(
            p,
            q,
            y,
        ).unwrap().x == segment_edge(p, r, y).unwrap().x,
{
    lemma_edge_follows_line(p, r, y);
    let dm1 = r.x - p.x;
    let dn1 = r.y - p.y;
    if y >= ceil16(q.y as int) {
        // The lower part: the line through r with the slope of q to r.
        assert(q.y < r.y);
        lemma_edge_follows_line(q, r, y);
        let dm2 = r.x - q.x;
        let dn2 = r.y - q.y;
        assert(dm1 * dn2 == dm2 * dn1) by (nonlinear_arith)
            requires
                (q.x - p.x) * (r.y - p.y) == (r.x - p.x) * (q.y - p.y),
                dm1 == r.x - p.x,
                dn1 == r.y - p.y,
                dm2 == r.x - q.x,
                dn2 == r.y - q.y,
        ;
        lemma_same_line(r.x as int, r.y as int, dm1, dn1, dm2, dn2, y);
    } else {
        // The upper part: the line through q with the slope of p to q.
        assert(p.y < q.y);
        lemma_edge_follows_line(p, q, y);
        let dm2 = q.x - p.x;
        let dn2 = q.y - p.y;
        assert(dm1 * dn2 == dm2 * dn1) by (nonlinear_arith)
            requires
                (q.x - p.x) * (r.y - p.y) == (r.x - p.x) * (q.y - p.y),
                dm1 == r.x - p.x,
                dn1 == r.y - p.y,
                dm2 == q.x - p.x,
                dn2 == q.y - p.y,
        ;
        lemma_same_line_from(p.x as int, p.y as int, dm1, dn1, dm2, dn2, y);
    }
}

/// Two lines from the point `(px, py)` with the same slope have the same
/// x, rounded up, on every scanline.
pub proof fn lemma_same_line_from(px: int, py: int, dm1: int, dn1: int, dm2: int, dn2: int, y: int)
    requires
        dn1 > 0,
        dn2 > 0,
        dm1 * dn2 == dm2 * dn1,
    ensures
        line_x_at(px, py, dm1, dn1, y) == line_x_at(px, py, dm2, dn2, y),
{
    let n1 = line_numerator(px, py, dm1, dn1, y);
    let n2 = line_numerator(px, py, dm2, dn2, y);
    let h = 16 * y - py;
    assert(n1 * dn2 == n2 * dn1) by (nonlinear_arith)
        requires
            n1 == px * dn1 + dm1 * h,
            n2 == px * dn2 + dm2 * h,
            dm1 * dn2 == dm2 * dn1,
    ;
    let x = ceil_div(n1, 16 * dn1);
    lemma_fundamental_div_mod(-n1, 16 * dn1);
    lemma_mod_bound(-n1, 16 * dn1);
    assert((16 * dn1) * (x - 1) < n1 <= (16 * dn1) * x) by (nonlinear_arith)
        requires
            -n1 == (16 * dn1) * ((-n1) / (16 * dn1)) + (-n1) % (16 * dn1),
            0 <= (-n1) % (16 * dn1) < 16 * dn1,
            x == -((-n1) / (16 * dn1)),
    ;
    assert((16 * dn2) * (x - 1) < n2 <= (16 * dn2) * x) by (nonlinear_arith)
        requires
            (16 * dn1) * (x - 1) < n1 <= (16 * dn1) * x,
            n1 * dn2 == n2 * dn1,
            dn1 > 0,
            dn2 > 0,
    ;
    lemma_ceil_div(n2, 16 * dn2, x);
}


/// The direction in which a segment is drawn decides the winding direction
/// of its edge and nothing else: drawn upwards, from `q` to `p`, the
/// segment gives the edge that it gives drawn downwards, from `p` to `q`,
/// with the winding direction `-1` in place of `+1`.
pub proof fn lemma_edge_direction(p: POINT, q: POINT, clip_top: int)
    requires
        p.y < q.y,
    ensures
        segment_edge(q, p, clip_top).is_some() == segment_edge(p, q, clip_top).is_some(),
        segment_edge(p, q, clip_top).is_some() ==> segment_edge(p, q, clip_top).unwrap().winding
            == 1 && segment_edge(q, p, clip_top).unwrap() == (EdgeModel {
            winding: -1,
            ..segment_edge(p, q, clip_top).unwrap()
        }),
{
}


/// The edge as it stands on a scanline is the edge with its DDA advanced
/// by the number of scanlines from its first.
pub proof fn lemma_edge_on_advance(e: EdgeModel, y: int)
    requires
        e.start_y <= y,
    ensures
        edge_on(e, y).dda() == dda_advance(
            e.dda(),
            e.dx,
            e.error_up,
            e.error_down,
            (y - e.start_y) as nat,
        ),
    decreases y - e.start_y,
{
    if y > e.start_y {
        lemma_edge_on_advance(e, y - 1);
        lemma_edge_on_frame(e, y - 1);
        lemma_dda_advance_last(e.dda(), e.dx, e.error_up, e.error_down, (y - 1 - e.start_y) as nat);
    }
}

/// The edge of a segment, whether it was clipped at `clip_top` or not,
/// stands on a scanline `y` of its own where the edge of the segment stands
/// that is clipped at `y`.
pub proof fn lemma_edge_on_clip(p: POINT, q: POINT, clip_top: int, y: int)
    requires
        segment_edge(p, q, clip_top).is_some(),
        crosses(segment_edge(p, q, clip_top).unwrap(), y),
    ensures
        segment_edge(p, q, y).is_some(),
        edge_on(segment_edge(p, q, clip_top).unwrap(), y).x == segment_edge(p, q, y).unwrap().x,
{
    let e = segment_edge(p, q, clip_top).unwrap();
    let whole = segment_edge(p, q, y).unwrap();
    lemma_edge_on_advance(e, y);
    let down = q.y >= p.y;
    let ys: int = if down {
        p.y as int
    } else {
        q.y as int
    };
    let xs: int = if down {
        p.x as int
    } else {
        q.x as int
    };
    let start = (ys + 15) / 16;
    let folded = dda_on_first_scanline(xs, (16 * start - ys) as nat, e.dx, e.error_up, e.error_down);
    if clip_top > start {
        lemma_dda_advance_add(
            folded,
            e.dx,
            e.error_up,
            e.error_down,
            (clip_top - start) as nat,
            (y - clip_top) as nat,
        );
    }
}

/// What the edge of the segment from `p` to `q` weighs at the sample `x` of
/// scanline `y`; nothing where the segment has no edge.
pub open spec fn segment_weight(p: POINT, q: POINT, clip_top: int, y: int, x: int, winding: bool) -> int {
    match segment_edge(p, q, clip_top) {
        Some(e) => edge_weight(e, y, x, winding),
        None => 0,
    }
}

/// The vertex on a segment that runs downwards.
proof fn lemma_collinear_weight_down(
    p: POINT,
    q: POINT,
    r: POINT,
    clip_top: int,
    y: int,
    x: int,
    winding: bool,
)
    requires
        p.y <= q.y <= r.y,
        collinear(p, q, r),
        clip_top <= y,
    ensures
        segment_weight(p, r, clip_top, y, x, winding) == segment_weight(p, q, clip_top, y, x, winding)
            + segment_weight(q, r, clip_top, y, x, winding),
{
    if ceil16(p.y as int) <= y < ceil16(r.y as int) {
        lemma_collinear_vertex_is_redundant(p, q, r, y);
        lemma_edge_on_clip(p, r, clip_top, y);
        if y >= ceil16(q.y as int) {
            lemma_edge_on_clip(q, r, clip_top, y);
        } else {
            lemma_edge_on_clip(p, q, clip_top, y);
        }
    }
}

/// A vertex on a segment changes nothing in what the segment weighs: the
/// two edges into which the vertex `q` divides the segment from `p` to `r`
/// weigh together, at every sample, what the edge of the whole segment
/// weighs.
pub proof fn lemma_collinear_weight(
    p: POINT,
    q: POINT,
    r: POINT,
    clip_top: int,
    y: int,
    x: int,
    winding: bool,
)
    requires
        p.y <= q.y <= r.y || r.y <= q.y <= p.y,
        collinear(p, q, r),
    ensures
        segment_weight(p, r, clip_top, y, x, winding) == segment_weight(p, q, clip_top, y, x, winding)
            + segment_weight(q, r, clip_top, y, x, winding),
{
    if y < clip_top {
        // No edge has a scanline above the top of the clip rectangle.
    } else if p.y <= q.y <= r.y {
        lemma_collinear_weight_down(p, q, r, clip_top, y, x, winding);
    } else {
        assert(collinear(r, q, p)) by (nonlinear_arith)
            requires
                collinear(p, q, r),
        ;
        lemma_collinear_weight_down(r, q, p, clip_top, y, x, winding);
        if r.y < p.y {
            lemma_edge_direction(r, p, clip_top);
        }
        if q.y < p.y {
            lemma_edge_direction(q, p, clip_top);
        }
        if r.y < q.y {
            lemma_edge_direction(r, q, clip_top);
        }
        lemma_weight_turned(r, p, clip_top, y, x, winding);
        lemma_weight_turned(q, p, clip_top, y, x, winding);
        lemma_weight_turned(r, q, clip_top, y, x, winding);
    }
}

/// Drawn the other way round a segment weighs the same in crossings, and
/// the opposite in winding.
proof fn lemma_weight_turned(p: POINT, q: POINT, clip_top: int, y: int, x: int, winding: bool)
    requires
        p.y <= q.y,
    ensures
        segment_weight(q, p, clip_top, y, x, winding) == if winding {
            -segment_weight(p, q, clip_top, y, x, winding)
        } else {
            segment_weight(p, q, clip_top, y, x, winding)
        },
{
    if p.y < q.y {
        lemma_edge_direction(p, q, clip_top);
        if segment_edge(p, q, clip_top).is_some() {
            let down = segment_edge(p, q, clip_top).unwrap();
            let up = segment_edge(q, p, clip_top).unwrap();
            lemma_edge_on_same(down, up, y);
        }
    }
}

/// Two edges that differ in their winding direction at most stand in the
/// same place on every scanline.
proof fn lemma_edge_on_same(a: EdgeModel, b: EdgeModel, y: int)
    requires
        b == (EdgeModel { winding: b.winding, ..a }),
    ensures
        edge_on(b, y) == (EdgeModel { winding: b.winding, ..edge_on(a, y) }),
    decreases y - a.start_y,
{
    if y > a.start_y {
        lemma_edge_on_same(a, b, y - 1);
    }
}

/// The weights of two runs of edges add up.
pub proof fn lemma_tally_concat(a: Seq<EdgeModel>, b: Seq<EdgeModel>, n: int, y: int, x: int, winding: bool)
    requires
        0 <= n <= b.len(),
    ensures
        tally(a + b, a.len() + n, y, x, winding) == tally(a, a.len() as int, y, x, winding) + tally(
            b,
            n,
            y,
            x,
            winding,
        ),
    decreases n,
{
    if n > 0 {
        lemma_tally_concat(a, b, n - 1, y, x, winding);
        assert((a + b)[a.len() + n - 1] == b[n - 1]);
    } else {
        lemma_tally_front(a + b, a, a.len() as int, y, x, winding);
    }
}

/// The weights of the first edges are those of any run that begins with
/// them.
proof fn lemma_tally_front(all: Seq<EdgeModel>, a: Seq<EdgeModel>, n: int, y: int, x: int, winding: bool)
    requires
        0 <= n <= a.len() <= all.len(),
        forall|i: int| 0 <= i < n ==> all[i] == a[i],
    ensures
        tally(all, n, y, x, winding) == tally(a, n, y, x, winding),
    decreases n,
{
    if n > 0 {
        lemma_tally_front(all, a, n - 1, y, x, winding);
    }
}

/// The edge of a segment weighs, as a run of edges, what the segment
/// weighs.
proof fn lemma_tally_segment(p: POINT, q: POINT, clip_top: int, y: int, x: int, winding: bool)
    ensures
        tally(
            optional_edge(segment_edge(p, q, clip_top)),
            optional_edge(segment_edge(p, q, clip_top)).len() as int,
            y,
            x,
            winding,
        ) == segment_weight(p, q, clip_top, y, x, winding),
{
    let edges = optional_edge(segment_edge(p, q, clip_top));
    if edges.len() > 0 {
        assert(tally(edges, 0, y, x, winding) == 0);
        assert(tally(edges, 1, y, x, winding) == tally(edges, 0, y, x, winding) + edge_weight(
            edges[0],
            y,
            x,
            winding,
        ));
    }
}

/// A vertex on a segment of a path changes nothing in what is inside the
/// path: with the two edges into which the vertex `q` divides the segment
/// from `p` to `r`, and with the one edge of the whole segment in their
/// place, the same samples are inside, by either fill rule.
pub proof fn lemma_collinear_vertex_same_inside(
    before: Seq<EdgeModel>,
    after: Seq<EdgeModel>,
    p: POINT,
    q: POINT,
    r: POINT,
    clip_top: int,
    mode: MilFillMode,
)
    requires
        p.y <= q.y <= r.y || r.y <= q.y <= p.y,
        collinear(p, q, r),
    ensures
        same_inside(
            before + (optional_edge(segment_edge(p, q, clip_top)) + optional_edge(
                segment_edge(q, r, clip_top),
            )) + after,
            mode,
            before + optional_edge(segment_edge(p, r, clip_top)) + after,
            mode,
        ),
{
    let two = optional_edge(segment_edge(p, q, clip_top)) + optional_edge(
        segment_edge(q, r, clip_top),
    );
    let one = optional_edge(segment_edge(p, r, clip_top));
    assert forall|y: int, x: int| #[trigger] sample_inside(before + two + after, mode, y, x)
        == sample_inside(before + one + after, mode, y, x) by {
        lemma_same_tally(before, after, p, q, r, clip_top, y, x, false);
        lemma_same_tally(before, after, p, q, r, clip_top, y, x, true);
    }
}

/// Removing a vertex that lies on the segment between its neighbours
/// leaves the picture as it is: pieces that show the path with the vertex
/// show the path without it.
pub proof fn lemma_collinear_vertex_same_picture(
    pieces: Seq<Drawn>,
    before: Seq<EdgeModel>,
    after: Seq<EdgeModel>,
    p: POINT,
    q: POINT,
    r: POINT,
    clip_top: int,
    mode: MilFillMode,
    limit: int,
)
    requires
        p.y <= q.y <= r.y || r.y <= q.y <= p.y,
        collinear(p, q, r),
        pieces_true(
            pieces,
            before + (optional_edge(segment_edge(p, q, clip_top)) + optional_edge(
                segment_edge(q, r, clip_top),
            )) + after,
            mode,
            limit,
        ),
    ensures
        pieces_true(
            pieces,
            before + optional_edge(segment_edge(p, r, clip_top)) + after,
            mode,
            limit,
        ),
{
    lemma_collinear_vertex_same_inside(before, after, p, q, r, clip_top, mode);
    assert(crate::drawing::same_tally(
        before + (optional_edge(segment_edge(p, q, clip_top)) + optional_edge(
            segment_edge(q, r, clip_top),
        )) + after,
        before + optional_edge(segment_edge(p, r, clip_top)) + after,
    )) by {
        let two = optional_edge(segment_edge(p, q, clip_top)) + optional_edge(
            segment_edge(q, r, clip_top),
        );
        let one = optional_edge(segment_edge(p, r, clip_top));
        assert forall|y: int, x: int, winding: bool| #[trigger]
            tally(before + two + after, (before + two + after).len() as int, y, x, winding)
                == tally(before + one + after, (before + one + after).len() as int, y, x, winding) by {
            lemma_same_tally(before, after, p, q, r, clip_top, y, x, winding);
        }
    }
    lemma_pieces_same(
        pieces,
        before + (optional_edge(segment_edge(p, q, clip_top)) + optional_edge(
            segment_edge(q, r, clip_top),
        )) + after,
        mode,
        before + optional_edge(segment_edge(p, r, clip_top)) + after,
        mode,
        limit,
    );
}

/// The run of edges weighs the same with the vertex on the segment and
/// without it.
proof fn lemma_same_tally(
    before: Seq<EdgeModel>,
    after: Seq<EdgeModel>,
    p: POINT,
    q: POINT,
    r: POINT,
    clip_top: int,
    y: int,
    x: int,
    winding: bool,
)
    requires
        p.y <= q.y <= r.y || r.y <= q.y <= p.y,
        collinear(p, q, r),
    ensures
        ({
            let two = optional_edge(segment_edge(p, q, clip_top)) + optional_edge(
                segment_edge(q, r, clip_top),
            );
            let one = optional_edge(segment_edge(p, r, clip_top));
            tally(
                before + two + after,
                (before + two + after).len() as int,
                y,
                x,
                winding,
            ) == tally(before + one + after, (before + one + after).len() as int, y, x, winding)
        }),
{
    let pq = optional_edge(segment_edge(p, q, clip_top));
    let qr = optional_edge(segment_edge(q, r, clip_top));
    let one = optional_edge(segment_edge(p, r, clip_top));
    let two = pq + qr;
    lemma_collinear_weight(p, q, r, clip_top, y, x, winding);
    lemma_tally_segment(p, q, clip_top, y, x, winding);
    lemma_tally_segment(q, r, clip_top, y, x, winding);
    lemma_tally_segment(p, r, clip_top, y, x, winding);
    lemma_tally_concat(pq, qr, qr.len() as int, y, x, winding);
    lemma_tally_concat(before, two, two.len() as int, y, x, winding);
    lemma_tally_concat(before + two, after, after.len() as int, y, x, winding);
    lemma_tally_concat(before, one, one.len() as int, y, x, winding);
    lemma_tally_concat(before + one, after, after.len() as int, y, x, winding);
}

} // verus!
