//! Edge records and their digital differential analyzer (DDA), the chunked
//! edge store, and the edge initializer that turns 28.4 fixed-point vertices
//! into DDA edges clipped to the top of the clip rectangle.

use vstd::prelude::*;
use vstd::arithmetic::div_mod::lemma_fundamental_div_mod_converse;
use crate::helpers::{FloorShift64, Int32x32To64, LowBits64};
use crate::types::{
    HRESULT, INT, LONGLONG, MilAntiAliasMode, POINT, RECT, S_OK, UINT, WINCODEC_ERR_VALUEOVERFLOW,
};

verus! {

/// Bits of subpixel resolution per axis for 8x8 anti-aliasing.
pub const c_nShift: INT = 3;

/// Subpixel rows (and columns) per device pixel.
pub const c_nShiftSize: INT = 8;

pub const c_nShiftSizeSquared: INT = 64;

pub const c_nHalfShiftSize: INT = 4;

pub const c_nShiftMask: INT = 7;

/// Largest magnitude of a 28.4 input coordinate when anti-aliasing: 2^23.
pub const COORD_MAX_ANTIALIASED: INT = 0x0080_0000;

/// Largest magnitude of a 28.4 input coordinate without anti-aliasing: 2^26.
pub const COORD_MAX_ALIASED: INT = 0x0400_0000;

/// Bound on `|X|` plus the room an edge still needs to reach its last
/// scanline; see [`edge_margin`].
pub const EDGE_X_BOUND: INT = 0x4000_0000;

/// Edges per buffer of the edge store.
pub const EDGE_STORE_ALLOCATION_NUMBER: usize = 64;

/// The store refuses to grow beyond this many edges, so that a count of all
/// edges plus two sentinels always fits in 32 bits.
pub const EDGE_STORE_LIMIT: usize = 0xffff_ffc0;

/// One DDA edge: a segment that is monotone in y, positioned on a scanline.
#[derive(Clone, Copy, Debug)]
pub struct CEdge {
    /// Index of the next edge of the active list in the edge table.
    pub Next: usize,
    /// Current x on the current scanline.
    pub X: INT,
    /// Whole part of the x increment per scanline.
    pub Dx: INT,
    /// Current DDA error, in `[-ErrorDown, 0)`.
    pub Error: INT,
    /// Error increment per scanline.
    pub ErrorUp: INT,
    /// Error decrement when the error rolls over.
    pub ErrorDown: INT,
    /// First scanline of the edge.
    pub StartY: INT,
    /// One past the last scanline of the edge.
    pub EndY: INT,
    /// `+1` for an edge that was drawn downwards, `-1` for upwards.
    pub WindingDirection: INT,
}

/// The mathematical content of an edge: its fields as unbounded integers,
/// without the list link.
pub struct EdgeModel {
    pub x: int,
    pub dx: int,
    pub error: int,
    pub error_up: int,
    pub error_down: int,
    pub start_y: int,
    pub end_y: int,
    pub winding: int,
}

/// Position of a DDA: the current x and the current error.
pub struct Dda {
    pub x: int,
    pub error: int,
}

impl CEdge {
    pub open spec fn model(self) -> EdgeModel {
        EdgeModel {
            x: self.X as int,
            dx: self.Dx as int,
            error: self.Error as int,
            error_up: self.ErrorUp as int,
            error_down: self.ErrorDown as int,
            start_y: self.StartY as int,
            end_y: self.EndY as int,
            winding: self.WindingDirection as int,
        }
    }
}

impl EdgeModel {
    pub open spec fn dda(self) -> Dda {
        Dda { x: self.x, error: self.error }
    }

    /// The same edge with its DDA moved to `d` and its first scanline to `y`.
    pub open spec fn at(self, d: Dda, y: int) -> EdgeModel {
        EdgeModel { x: d.x, error: d.error, start_y: y, ..self }
    }
}

pub open spec fn abs(v: int) -> int {
    if v < 0 {
        -v
    } else {
        v
    }
}

/// One scanline step: `x += dx; error += up; if error >= 0 { error -= down; x += 1 }`.
pub open spec fn dda_step(s: Dda, dx: int, up: int, down: int) -> Dda {
    if s.error + up >= 0 {
        Dda { x: s.x + dx + 1, error: s.error + up - down }
    } else {
        Dda { x: s.x + dx, error: s.error + up }
    }
}

/// `n` scanline steps.
pub open spec fn dda_advance(s: Dda, dx: int, up: int, down: int, n: nat) -> Dda
    decreases n,
{
    if n == 0 {
        s
    } else {
        dda_advance(dda_step(s, dx, up, down), dx, up, down, (n - 1) as nat)
    }
}

/// What `n` steps amount to: the error wraps modulo `down`, and each wrap
/// carries one unit into x.
pub open spec fn dda_jump(s: Dda, dx: int, up: int, down: int, n: nat) -> Dda {
    let t = n * up + s.error + down;
    Dda { x: s.x + n * dx + t / down, error: t % down - down }
}

/// The error of a DDA stays in `[-down, 0)`.
pub open spec fn dda_normal(s: Dda, up: int, down: int) -> bool {
    &&& down > 0
    &&& 0 <= up < down
    &&& -down <= s.error < 0
}

/// Stepping `n` times equals the closed form [`dda_jump`].
pub proof fn lemma_dda_closed_form(s: Dda, dx: int, up: int, down: int, n: nat)
    requires
        dda_normal(s, up, down),
    ensures
        dda_advance(s, dx, up, down, n) == dda_jump(s, dx, up, down, n),
        dda_normal(dda_advance(s, dx, up, down, n), up, down),
    decreases n,
{
    let t = n * up + s.error + down;
    if n == 0 {
        assert(t == s.error + down) by (nonlinear_arith)
            requires
                n == 0,
                t == n * up + s.error + down,
        ;
        lemma_fundamental_div_mod_converse(t, down, 0, t);
    } else {
        let s1 = dda_step(s, dx, up, down);
        let c: int = if s.error + up >= 0 {
            1
        } else {
            0
        };
        let m = (n - 1) as nat;
        lemma_dda_closed_form(s1, dx, up, down, m);
        let t1 = m * up + s1.error + down;
        assert(t1 == t - c * down) by (nonlinear_arith)
            requires
                t == n * up + s.error + down,
                t1 == m * up + s1.error + down,
                s1.error == s.error + up - c * down,
                m == n - 1,
        ;
        vstd::arithmetic::div_mod::lemma_fundamental_div_mod(t1, down);
        vstd::arithmetic::div_mod::lemma_mod_bound(t1, down);
        assert(t == (t1 / down + c) * down + t1 % down) by (nonlinear_arith)
            requires
                t1 == t - c * down,
                t1 == down * (t1 / down) + t1 % down,
        ;
        lemma_fundamental_div_mod_converse(t, down, t1 / down + c, t1 % down);
        assert(s1.x + m * dx + t1 / down == s.x + n * dx + t / down) by (nonlinear_arith)
            requires
                s1.x == s.x + dx + c,
                m == n - 1,
                t / down == t1 / down + c,
        ;
    }
}

/// Stepping `n + 1` times is stepping `n` times and once more.
pub proof fn lemma_dda_advance_last(s: Dda, dx: int, up: int, down: int, n: nat)
    ensures
        dda_advance(s, dx, up, down, n + 1) == dda_step(
            dda_advance(s, dx, up, down, n),
            dx,
            up,
            down,
        ),
    decreases n,
{
    if n == 0 {
        assert(dda_advance(s, dx, up, down, 1) == dda_advance(
            dda_step(s, dx, up, down),
            dx,
            up,
            down,
            0,
        ));
    } else {
        lemma_dda_advance_last(dda_step(s, dx, up, down), dx, up, down, (n - 1) as nat);
        assert(dda_advance(s, dx, up, down, n + 1) == dda_advance(
            dda_step(s, dx, up, down),
            dx,
            up,
            down,
            n,
        ));
    }
}

/// Stepping `a + b` times is stepping `a` times and then `b` times.
pub proof fn lemma_dda_advance_add(s: Dda, dx: int, up: int, down: int, a: nat, b: nat)
    ensures
        dda_advance(s, dx, up, down, a + b) == dda_advance(
            dda_advance(s, dx, up, down, a),
            dx,
            up,
            down,
            b,
        ),
    decreases a,
{
    if a > 0 {
        lemma_dda_advance_add(dda_step(s, dx, up, down), dx, up, down, (a - 1) as nat, b);
        assert(dda_advance(s, dx, up, down, a + b) == dda_advance(
            dda_step(s, dx, up, down),
            dx,
            up,
            down,
            (a + b - 1) as nat,
        ));
    }
}

/// A step moves x by at most `|dx| + 1`.
pub proof fn lemma_dda_advance_reach(s: Dda, dx: int, up: int, down: int, n: nat)
    requires
        dda_normal(s, up, down),
    ensures
        abs(dda_advance(s, dx, up, down, n).x - s.x) <= n * (abs(dx) + 1),
    decreases n,
{
    if n > 0 {
        let s1 = dda_step(s, dx, up, down);
        lemma_dda_advance_reach(s1, dx, up, down, (n - 1) as nat);
        assert((n - 1) * (abs(dx) + 1) + (abs(dx) + 1) == n * (abs(dx) + 1))
            by (nonlinear_arith);
    } else {
        assert(0 * (abs(dx) + 1) == 0);
    }
}

/// The room that an edge positioned on scanline `y` still needs: its x now,
/// and `|dx| + 1` for every scanline down to its last one, stay within
/// [`EDGE_X_BOUND`].
pub open spec fn edge_margin(e: EdgeModel, y: int) -> bool {
    abs(e.x) + (e.end_y - 1 - y) * (abs(e.dx) + 1) <= EDGE_X_BOUND
}

/// What holds of every edge that the initializer emits, while it is
/// positioned on a scanline `y` of its own.
pub open spec fn edge_wf_at(e: EdgeModel, y: int) -> bool {
    &&& dda_normal(e.dda(), e.error_up, e.error_down)
    &&& e.winding == 1 || e.winding == -1
    &&& e.start_y <= y < e.end_y
    &&& -EDGE_X_BOUND <= e.start_y
    &&& e.end_y <= EDGE_X_BOUND
    &&& abs(e.dx) < EDGE_X_BOUND
    &&& edge_margin(e, y)
}

/// An edge as the initializer leaves it: positioned on its first scanline.
pub open spec fn edge_wf(e: EdgeModel) -> bool {
    edge_wf_at(e, e.start_y)
}

/// Clip the edge vertically: jump its DDA from its first scanline down to
/// `yClipTopInteger` in one 64-bit multiply and divide.
///
/// `dMOriginal` is the signed x extent of the segment, `Dx * ErrorDown + ErrorUp`.
pub fn ClipEdge(edgeBuffer: &mut CEdge, yClipTopInteger: INT, dMOriginal: INT)
    requires
        edge_wf(old(edgeBuffer).model()),
        old(edgeBuffer).StartY < yClipTopInteger < old(edgeBuffer).EndY,
        dMOriginal == old(edgeBuffer).Dx * old(edgeBuffer).ErrorDown + old(edgeBuffer).ErrorUp,
    ensures
        final(edgeBuffer).model() == old(edgeBuffer).model().at(
            dda_advance(
                old(edgeBuffer).model().dda(),
                old(edgeBuffer).Dx as int,
                old(edgeBuffer).ErrorUp as int,
                old(edgeBuffer).ErrorDown as int,
                (yClipTopInteger - old(edgeBuffer).StartY) as nat,
            ),
            yClipTopInteger as int,
        ),
        final(edgeBuffer).Next == old(edgeBuffer).Next,
        edge_wf(final(edgeBuffer).model()),
{
    let ghost e0 = edgeBuffer.model();
    let ghost k = (yClipTopInteger - edgeBuffer.StartY) as nat;
    let ghost jump = dda_jump(e0.dda(), e0.dx, e0.error_up, e0.error_down, k);
    let xDelta: LONGLONG;
    let error: LONGLONG;

    // Cases where bigNumerator will exceed 32-bits in precision
    // will be rare, but could happen, and we can't fall over
    // in those cases.
    let dN: INT = edgeBuffer.ErrorDown;
    let product: LONGLONG = Int32x32To64(dMOriginal, yClipTopInteger - edgeBuffer.StartY);
    let ghost t = k * e0.error_up + e0.error + e0.error_down;
    proof {
        assert(-0x4000_0000_0000_0000 <= product <= 0x4000_0000_0000_0000) by (nonlinear_arith)
            requires
                product == dMOriginal as int * (yClipTopInteger - edgeBuffer.StartY) as int,
                -0x8000_0000 <= dMOriginal as int <= 0x7fff_ffff,
                0 <= (yClipTopInteger - edgeBuffer.StartY) as int <= 0x7fff_ffff,
        ;
        lemma_dda_closed_form(e0.dda(), e0.dx, e0.error_up, e0.error_down, k);
        lemma_dda_advance_reach(e0.dda(), e0.dx, e0.error_up, e0.error_down, k);
        vstd::arithmetic::div_mod::lemma_fundamental_div_mod(t, e0.error_down);
        vstd::arithmetic::div_mod::lemma_mod_bound(t, e0.error_down);
        assert(product + e0.error + e0.error_down == (k * e0.dx + t / e0.error_down)
            * e0.error_down + t % e0.error_down) by (nonlinear_arith)
            requires
                product == (e0.dx * e0.error_down + e0.error_up) * k,
                t == k * e0.error_up + e0.error + e0.error_down,
                t == e0.error_down * (t / e0.error_down) + t % e0.error_down,
        ;
        lemma_fundamental_div_mod_converse(
            product + e0.error + e0.error_down,
            e0.error_down as int,
            k * e0.dx + t / e0.error_down,
            t % e0.error_down,
        );
        assert(k * (abs(e0.dx) + 1) <= (e0.end_y - 1 - e0.start_y) * (abs(e0.dx) + 1))
            by (nonlinear_arith)
            requires
                k <= e0.end_y - 1 - e0.start_y,
                abs(e0.dx) + 1 >= 0,
        ;
        assert((e0.end_y - 1 - e0.start_y) * (abs(e0.dx) + 1) == (e0.end_y - 1 - yClipTopInteger)
            * (abs(e0.dx) + 1) + k * (abs(e0.dx) + 1)) by (nonlinear_arith)
            requires
                k == yClipTopInteger - e0.start_y,
        ;
        assert((e0.end_y - 1 - yClipTopInteger) * (abs(e0.dx) + 1) >= 0) by (nonlinear_arith)
            requires
                e0.end_y - 1 - yClipTopInteger >= 0,
                abs(e0.dx) + 1 >= 0,
        ;
    }
    let mut bigNumerator: LONGLONG = product + (edgeBuffer.Error as LONGLONG + dN as LONGLONG);
    if bigNumerator >= 0 {
        xDelta = bigNumerator / (dN as LONGLONG);
        error = bigNumerator % (dN as LONGLONG);
    } else {
        let ghost big = bigNumerator as int;
        bigNumerator = -bigNumerator;
        let quotient: LONGLONG = bigNumerator / (dN as LONGLONG);
        let remainder: LONGLONG = bigNumerator % (dN as LONGLONG);
        proof {
            vstd::arithmetic::div_mod::lemma_fundamental_div_mod(-big, dN as int);
            vstd::arithmetic::div_mod::lemma_mod_bound(-big, dN as int);
        }
        if remainder != 0 {
            xDelta = -quotient - 1;
            error = dN as LONGLONG - remainder;
            proof {
                assert(big == (-quotient - 1) * dN + (dN - remainder)) by (nonlinear_arith)
                    requires
                        -big == dN * quotient + remainder,
                ;
                lemma_fundamental_div_mod_converse(
                    big,
                    dN as int,
                    (-quotient - 1) as int,
                    (dN - remainder) as int,
                );
            }
        } else {
            xDelta = -quotient;
            error = 0;
            proof {
                assert(big == (-quotient) * dN + 0) by (nonlinear_arith)
                    requires
                        -big == dN * quotient + remainder,
                        remainder == 0,
                ;
                lemma_fundamental_div_mod_converse(big, dN as int, (-quotient) as int, 0);
            }
        }
    }
    assert(xDelta == k * e0.dx + t / e0.error_down);
    assert(error == t % e0.error_down);
    assert(jump.x == e0.x + xDelta);

    // Update the edge data structure with the results:
    edgeBuffer.StartY = yClipTopInteger;
    edgeBuffer.X = (edgeBuffer.X as LONGLONG + xDelta) as INT;
    edgeBuffer.Error = (error - dN as LONGLONG) as INT;  // Renormalize error
}


/// Largest magnitude of a coordinate once the supersampling scale is applied.
pub open spec fn scaled_coord_max() -> int {
    0x0400_0040
}

/// A point whose coordinates the edge setup can take.
pub open spec fn working_point(p: POINT) -> bool {
    &&& -scaled_coord_max() <= p.x <= scaled_coord_max()
    &&& -scaled_coord_max() <= p.y <= scaled_coord_max()
}

/// The edge of the segment from `p` to `q`, or `None` where the segment
/// crosses no scanline (horizontal edges, too).
///
/// The segment is oriented downwards; its scanlines run from the ceiling of
/// its upper y to the ceiling of its lower y. The DDA starts on the upper end
/// point with an error of `-1`, takes one step per 1/16 scanline down to the
/// first scanline, and is then rescaled from 1/16 units of x to whole units,
/// x rounded up. Where `clip_top` lies below the first scanline the DDA is
/// advanced to `clip_top`.
pub open spec fn segment_edge(p: POINT, q: POINT, clip_top: int) -> Option<EdgeModel> {
    let down = q.y >= p.y;
    let dn = if down {
        q.y - p.y
    } else {
        p.y - q.y
    };
    let dm = if down {
        q.x - p.x
    } else {
        p.x - q.x
    };
    let xs: int = if down {
        p.x as int
    } else {
        q.x as int
    };
    let ys: int = if down {
        p.y as int
    } else {
        q.y as int
    };
    let ye: int = if down {
        q.y as int
    } else {
        p.y as int
    };
    let start_y = (ys + 15) / 16;
    let end_y = (ye + 15) / 16;
    if end_y > start_y {
        let dx = dm / dn;
        let up = dm % dn;
        let folded = dda_on_first_scanline(xs, (16 * start_y - ys) as nat, dx, up, dn);
        let e = EdgeModel {
            x: folded.x,
            dx: dx,
            error: folded.error,
            error_up: up,
            error_down: dn,
            start_y: start_y,
            end_y: end_y,
            winding: if down {
                1
            } else {
                -1
            },
        };
        if clip_top > start_y {
            Some(e.at(dda_advance(folded, dx, up, dn, (clip_top - start_y) as nat), clip_top))
        } else {
            Some(e)
        }
    } else {
        None
    }
}

/// The DDA increments of a segment that spans `dM` in x over `dN > 0` in y:
/// the floor of `dM / dN` and the remainder, which is never negative.
pub fn EdgeSlope(dM: LONGLONG, dN: LONGLONG) -> (slope: (LONGLONG, LONGLONG))
    requires
        0 < dN <= 0x0800_0080,
        -0x0800_0080 <= dM <= 0x0800_0080,
    ensures
        slope.0 == dM as int / dN as int,
        slope.1 == dM as int % dN as int,
        0 <= slope.1 < dN,
        dM == slope.0 * dN + slope.1,
        abs(slope.0 as int) <= abs(dM as int),
        abs(slope.0 as int) * dN <= abs(dM as int) + dN,
{
    let mut dX: LONGLONG;
    let mut errorUp: LONGLONG;
    if dM < 0 {
        let dMAbs: LONGLONG = -dM;
        if dMAbs < dN {  // Can't be '<='
            dX = -1;
            errorUp = dN - dMAbs;
        } else {
            let quotient: LONGLONG = dMAbs / dN;
            let remainder: LONGLONG = dMAbs % dN;
            proof {
                vstd::arithmetic::div_mod::lemma_fundamental_div_mod(dMAbs as int, dN as int);
                vstd::arithmetic::div_mod::lemma_mod_bound(dMAbs as int, dN as int);
                assert(0 <= quotient <= dMAbs) by (nonlinear_arith)
                    requires
                        dMAbs == dN * quotient + remainder,
                        0 <= remainder < dN,
                        dMAbs >= 0,
                ;
            }
            if remainder > 0 {
                dX = -quotient - 1;
                errorUp = dN - remainder;
                assert(dM == dX * dN + errorUp && quotient + 1 <= dMAbs) by (nonlinear_arith)
                    requires
                        -dM == dN * quotient + remainder,
                        dMAbs == -dM,
                        dX == -quotient - 1,
                        errorUp == dN - remainder,
                        remainder > 0,
                        quotient >= 0,
                        dN >= 1,
                ;
            } else {
                dX = -quotient;
                errorUp = remainder;
                assert(dM == dX * dN + errorUp) by (nonlinear_arith)
                    requires
                        -dM == dN * quotient + remainder,
                        dX == -quotient,
                        errorUp == remainder,
                        remainder == 0,
                ;
            }
        }
    } else {
        if dM < dN {
            dX = 0;
            errorUp = dM;
        } else {
            dX = dM / dN;
            errorUp = dM % dN;
            proof {
                vstd::arithmetic::div_mod::lemma_fundamental_div_mod(dM as int, dN as int);
                vstd::arithmetic::div_mod::lemma_mod_bound(dM as int, dN as int);
                assert(0 <= dX <= dM && dM == dX * dN + errorUp) by (nonlinear_arith)
                    requires
                        dM == dN * dX + errorUp,
                        0 <= errorUp < dN,
                        dM >= 0,
                        dN > 0,
                ;
            }
        }
    }
    proof {
        assert(dM == dX * dN + errorUp) by (nonlinear_arith)
            requires
                dM == dX * dN + errorUp || (dX == 0 && errorUp == dM) || (dX == -1 && errorUp
                    == dN + dM),
        ;
        lemma_fundamental_div_mod_converse(dM as int, dN as int, dX as int, errorUp as int);
        assert(abs(dX as int) * dN <= abs(dM as int) + dN) by (nonlinear_arith)
            requires
                dM == dX * dN + errorUp,
                0 <= errorUp < dN,
        ;
    }
    (dX, errorUp)
}

/// The DDA of an edge on its first scanline, in whole units of x.
///
/// From `xStart`, with an error of `-1`, takes `steps` steps of 1/16 scanline
/// and then rescales x from 1/16 units to whole units, rounded up.
pub open spec fn dda_on_first_scanline(xStart: int, steps: nat, dx: int, up: int, dn: int) -> Dda {
    let sub = dda_advance(Dda { x: xStart, error: -1 }, dx, up, dn, steps);
    Dda { x: (sub.x + 15) / 16, error: (sub.error - dn * ((16 - sub.x % 16) % 16)) / 16 }
}

/// Advances a fresh DDA to the first scanline of its edge; see
/// [`dda_on_first_scanline`].
pub fn EdgeStart(xStart: LONGLONG, steps: LONGLONG, dX: LONGLONG, errorUp: LONGLONG, dN: LONGLONG) -> (r: (
    LONGLONG,
    LONGLONG,
))
    requires
        0 <= steps <= 15,
        0 < dN <= 0x0800_0080,
        0 <= errorUp < dN,
        -0x0800_0080 <= dX <= 0x0800_0080,
        -scaled_coord_max() <= xStart <= scaled_coord_max(),
    ensures
        (Dda { x: r.0 as int, error: r.1 as int }) == dda_on_first_scanline(
            xStart as int,
            steps as nat,
            dX as int,
            errorUp as int,
            dN as int,
        ),
        -dN <= r.1 < 0,
        -0x0800_0000 <= r.0 <= 0x0800_0000,
{
    // Error is initially zero (add dN - 1 for the ceiling, but subtract
    // off dN so that we can check the sign instead of comparing to dN)
    let mut error: LONGLONG = -1;
    let mut x: LONGLONG = xStart;
    let ghost start = Dda { x: xStart as int, error: -1 };
    let ghost adx = abs(dX as int);
    let mut i: LONGLONG = 0;
    // Advance to the next integer y coordinate
    while i < steps
        invariant
            0 <= i <= steps <= 15,
            0 < dN <= 0x0800_0080,
            0 <= errorUp < dN,
            -0x0800_0080 <= dX <= 0x0800_0080,
            adx == abs(dX as int),
            start == (Dda { x: xStart as int, error: -1 }),
            -scaled_coord_max() <= xStart <= scaled_coord_max(),
            (Dda { x: x as int, error: error as int }) == dda_advance(
                start,
                dX as int,
                errorUp as int,
                dN as int,
                i as nat,
            ),
            -dN <= error < 0,
            abs(x - xStart) <= i * (adx + 1),
        decreases steps - i,
    {
        proof {
            lemma_dda_advance_last(start, dX as int, errorUp as int, dN as int, i as nat);
            assert((i + 1) * (adx + 1) == i * (adx + 1) + (adx + 1)) by (nonlinear_arith);
            assert(i * (adx + 1) <= 15 * (adx + 1)) by (nonlinear_arith)
                requires
                    0 <= i <= 15,
                    adx >= 0,
            ;
        }
        x += dX;
        error += errorUp;
        if error >= 0 {
            error -= dN;
            x += 1;
        }
        i += 1;
    }
    let ghost sub = Dda { x: x as int, error: error as int };
    proof {
        assert(i * (adx + 1) <= 15 * (adx + 1)) by (nonlinear_arith)
            requires
                0 <= i <= 15,
                adx >= 0,
        ;
    }
    let lowx: LONGLONG = LowBits64(x);
    if lowx != 0 {
        proof {
            assert(0 <= dN * (16 - lowx) <= 15 * dN) by (nonlinear_arith)
                requires
                    1 <= lowx <= 15,
                    dN > 0,
            ;
        }
        error -= dN * (16 - lowx);
        x += 15;  // We'll want the ceiling in just a bit...
    }
    assert(error == sub.error - dN * ((16 - sub.x % 16) % 16)) by {
        if lowx == 0 {
            assert(dN * 0 == 0);
        }
    }
    assert(-16 * dN <= error <= -1);
    assert(x == sub.x + 15 || (x == sub.x && sub.x % 16 == 0));
    x = FloorShift64(x);
    error = FloorShift64(error);
    (x, error)
}

/// Builds the edge of one segment; see [`segment_edge`].
pub fn InitializeEdge(p: POINT, q: POINT, yClipTopInteger: LONGLONG) -> (edge: Option<CEdge>)
    requires
        working_point(p),
        working_point(q),
        16 * yClipTopInteger < p.y || 16 * yClipTopInteger < q.y,
    ensures
        edge.is_some() == segment_edge(p, q, yClipTopInteger as int).is_some(),
        edge.is_some() ==> edge.unwrap().model() == segment_edge(
            p,
            q,
            yClipTopInteger as int,
        ).unwrap() && edge_wf(edge.unwrap().model()) && edge.unwrap().Next == 0,
{
    let mut dM: LONGLONG = q.x as LONGLONG - p.x as LONGLONG;
    let mut dN: LONGLONG = q.y as LONGLONG - p.y as LONGLONG;
    let xStart: LONGLONG;
    let yStart: LONGLONG;
    let yEnd: LONGLONG;
    let windingDirection: INT;
    if dN >= 0 {
        // The vector points downward:
        xStart = p.x as LONGLONG;
        yStart = p.y as LONGLONG;
        yEnd = q.y as LONGLONG;
        windingDirection = 1;
    } else {
        // The vector points upward, so we have to essentially
        // 'swap' the end points:
        dN = -dN;
        dM = -dM;
        xStart = q.x as LONGLONG;
        yStart = q.y as LONGLONG;
        yEnd = p.y as LONGLONG;
        windingDirection = -1;
    }
    let yStartInteger: LONGLONG = FloorShift64(yStart + 15);
    let yEndInteger: LONGLONG = FloorShift64(yEnd + 15);

    // The edge must span an integer y-value in order to be
    // added to the edge list.  This serves to get rid of
    // horizontal edges, which cause trouble for our divides.
    if yEndInteger <= yStartInteger {
        return None;
    }
    let (dX, errorUp) = EdgeSlope(dM, dN);
    let low: LONGLONG = LowBits64(yStart);
    let steps: LONGLONG = if low != 0 {
        16 - low
    } else {
        0
    };
    assert(steps == 16 * yStartInteger - yStart);
    let (x, error) = EdgeStart(xStart, steps, dX, errorUp, dN);
    let ghost adx = abs(dX as int);
    let ghost adm = abs(dM as int);
    let ghost remaining = yEndInteger - 1 - yStartInteger;
    proof {
        assert(16 * remaining <= dN - 1);
        assert(16 * (remaining * adx) <= adm + dN) by (nonlinear_arith)
            requires
                0 <= 16 * remaining <= dN,
                adx * dN <= adm + dN,
                adx >= 0,
        ;
        assert(remaining * (adx + 1) == remaining * adx + remaining) by (nonlinear_arith);
    }
    let mut edge = CEdge {
        Next: 0,
        X: x as INT,
        Dx: dX as INT,
        Error: error as INT,
        ErrorUp: errorUp as INT,
        ErrorDown: dN as INT,
        WindingDirection: windingDirection,
        StartY: yStartInteger as INT,
        EndY: yEndInteger as INT,  // Exclusive of end
    };
    assert(edge_wf(edge.model()));

    // Here we handle the case where the edge starts above the
    // clipping rectangle, and we need to jump down in the 'y'
    // direction to the first unclipped scan-line.
    //
    // Consequently, we advance the DDA here:
    if yClipTopInteger > yStartInteger {
        assert(yEndInteger > yClipTopInteger);
        ClipEdge(&mut edge, yClipTopInteger as INT, dM as INT);
    }
    Some(edge)
}


/// The edges of all buffers, in the order in which they were added.
pub open spec fn flat_edges(buffers: Seq<Vec<CEdge>>) -> Seq<CEdge>
    decreases buffers.len(),
{
    if buffers.len() == 0 {
        Seq::empty()
    } else {
        flat_edges(buffers.drop_last()) + buffers.last()@
    }
}

/// Append-only pool of edges, kept in buffers of
/// [`EDGE_STORE_ALLOCATION_NUMBER`] edges each.
pub struct CEdgeStore {
    buffers: Vec<Vec<CEdge>>,
}

impl CEdgeStore {
    /// All edges of the store, in the order in which they were added.
    pub closed spec fn edges(&self) -> Seq<CEdge> {
        flat_edges(self.buffers@)
    }

    pub open spec fn models(&self) -> Seq<EdgeModel> {
        self.edges().map_values(|e: CEdge| e.model())
    }

    /// The buffers of the store, for enumeration.
    pub closed spec fn buffer_seq(&self) -> Seq<Vec<CEdge>> {
        self.buffers@
    }

    /// Every buffer but the current (last) one is full, and the store holds
    /// no more than [`EDGE_STORE_LIMIT`] edges.
    pub closed spec fn wf(&self) -> bool {
        &&& self.buffers@.len() >= 1
        &&& forall|i: int|
            0 <= i < self.buffers@.len() - 1 ==> (#[trigger] self.buffers@[i])@.len()
                == EDGE_STORE_ALLOCATION_NUMBER
        &&& self.buffers@.last()@.len() <= EDGE_STORE_ALLOCATION_NUMBER
        &&& flat_edges(self.buffers@).len() == (self.buffers@.len() - 1)
            * EDGE_STORE_ALLOCATION_NUMBER + self.buffers@.last()@.len()
        &&& self.buffers@.len() * EDGE_STORE_ALLOCATION_NUMBER <= EDGE_STORE_LIMIT
    }

    /// Free slots of the current buffer.
    pub closed spec fn remaining(&self) -> int {
        EDGE_STORE_ALLOCATION_NUMBER - self.buffers@.last()@.len()
    }

    pub proof fn lemma_wf(&self)
        requires
            self.wf(),
        ensures
            self.edges().len() <= EDGE_STORE_LIMIT,
            0 <= self.remaining() <= EDGE_STORE_ALLOCATION_NUMBER,
            self.buffer_seq().len() >= 1,
            self.edges() == flat_edges(self.buffer_seq()),
    {
    }

    /// An empty store with one buffer.
    pub fn new() -> (store: Self)
        ensures
            store.wf(),
            store.edges() == Seq::<CEdge>::empty(),
    {
        let mut buffers: Vec<Vec<CEdge>> = Vec::new();
        buffers.push(Vec::new());
        proof {
            assert(buffers@.drop_last() =~= Seq::<Vec<CEdge>>::empty());
            assert(flat_edges(buffers@) == flat_edges(buffers@.drop_last()) + buffers@.last()@);
            assert(flat_edges(buffers@) =~= Seq::<CEdge>::empty());
        }
        CEdgeStore { buffers }
    }

    /// Number of free slots in the current buffer.
    pub fn StartAddBuffer(&self) -> (remaining: UINT)
        requires
            self.wf(),
        ensures
            remaining == self.remaining(),
    {
        let last: usize = self.buffers.len() - 1;
        (EDGE_STORE_ALLOCATION_NUMBER - self.buffers[last].len()) as UINT
    }

    /// The current buffer is full: link a new, empty one behind it.
    ///
    /// Fails with `WINCODEC_ERR_VALUEOVERFLOW`, changing nothing, where the
    /// store already holds [`EDGE_STORE_LIMIT`] edges: a count of the new
    /// capacity and two sentinels has to fit in 32 bits.
    pub fn NextAddBuffer(&mut self) -> (hr: HRESULT)
        requires
            old(self).wf(),
            old(self).remaining() == 0,
        ensures
            hr == S_OK <==> old(self).edges().len() < EDGE_STORE_LIMIT,
            hr != S_OK ==> hr == WINCODEC_ERR_VALUEOVERFLOW && *final(self) == *old(self),
            hr == S_OK ==> final(self).wf() && final(self).edges() == old(self).edges()
                && final(self).remaining() == EDGE_STORE_ALLOCATION_NUMBER,
    {
        // The caller has completely filled up this chunk. Check that a
        // 32-bit count can represent the current capacity, and the new
        // capacity as well, with at least 2 to spare.
        let cNewTotalCount: usize = self.buffers.len() * EDGE_STORE_ALLOCATION_NUMBER;
        if cNewTotalCount > 0xffff_ffff - (EDGE_STORE_ALLOCATION_NUMBER + 2) {
            return WINCODEC_ERR_VALUEOVERFLOW;
        }
        // We have to grow our data structure by adding a new buffer
        // and adding it to the list:
        let ghost before = self.buffers@;
        self.buffers.push(Vec::new());
        proof {
            assert(self.buffers@.drop_last() =~= before);
            assert(flat_edges(self.buffers@) == flat_edges(self.buffers@.drop_last())
                + self.buffers@.last()@);
            assert(flat_edges(self.buffers@) =~= flat_edges(before));
        }
        S_OK
    }

    /// Appends one edge, growing the store by a buffer where the current one
    /// is full.
    pub fn AddEdge(&mut self, edge: CEdge) -> (hr: HRESULT)
        requires
            old(self).wf(),
        ensures
            hr == S_OK <==> old(self).edges().len() < EDGE_STORE_LIMIT,
            hr != S_OK ==> hr == WINCODEC_ERR_VALUEOVERFLOW && *final(self) == *old(self),
            hr == S_OK ==> final(self).wf() && final(self).edges() == old(self).edges().push(edge),
    {
        if self.StartAddBuffer() == 0 {
            let hr = self.NextAddBuffer();
            if hr != S_OK {
                return hr;
            }
        }
        let last: usize = self.buffers.len() - 1;
        let ghost before = self.buffers@;
        self.buffers[last].push(edge);
        proof {
            assert(self.buffers@.drop_last() =~= before.drop_last());
            assert(self.buffers@.last()@ == before.last()@.push(edge));
            assert(flat_edges(self.buffers@) == flat_edges(self.buffers@.drop_last())
                + self.buffers@.last()@);
            assert(flat_edges(before) == flat_edges(before.drop_last()) + before.last()@);
            assert(flat_edges(self.buffers@) =~= flat_edges(before).push(edge));
        }
        S_OK
    }

    /// Number of edges in the store.
    pub fn StartEnumeration(&self) -> (count: UINT)
        requires
            self.wf(),
        ensures
            count == self.edges().len(),
    {
        let last: usize = self.buffers.len() - 1;
        ((self.buffers.len() - 1) * EDGE_STORE_ALLOCATION_NUMBER + self.buffers[last].len()) as UINT
    }

    /// Number of buffers to enumerate.
    pub fn BufferCount(&self) -> (count: usize)
        ensures
            count == self.buffer_seq().len(),
    {
        self.buffers.len()
    }

    /// The edges of buffer `index`, first to last.
    pub fn Enumerate(&self, index: usize) -> (buffer: &Vec<CEdge>)
        requires
            index < self.buffer_seq().len(),
        ensures
            *buffer == self.buffer_seq()[index as int],
    {
        &self.buffers[index]
    }
}

/// The clip rectangle as the edge initializer uses it, in the units of the
/// working points.
pub struct ClipModel {
    /// Whether segments are tested against the rectangle at all.
    pub active: bool,
    pub top: int,
    /// The last row inside the rectangle.
    pub bottom: int,
    pub left: int,
    pub right: int,
    /// The first scanline inside the rectangle.
    pub top_integer: int,
}

/// The supersampling factor that is applied to points and clip rectangle.
pub open spec fn supersampling(mode: MilAntiAliasMode) -> int {
    if mode == MilAntiAliasMode::Aliased {
        1
    } else {
        8
    }
}

/// The clip rectangle in working units: scaled by the supersampling factor,
/// its bottom made inclusive by taking off one pixel.
pub open spec fn clip_model(rect: Option<RECT>, mode: MilAntiAliasMode) -> ClipModel {
    let s = supersampling(mode);
    match rect {
        Some(r) => ClipModel {
            active: true,
            top: r.top * s,
            bottom: r.bottom * s - 16,
            left: r.left * s,
            right: r.right * s,
            top_integer: (r.top as int / 16) * s,
        },
        None => ClipModel {
            active: false,
            top: 0,
            bottom: -16,
            left: 0,
            right: 0,
            top_integer: -0x1_0000_0000,
        },
    }
}

/// A segment that lies wholly above or wholly below the clip rectangle.
pub open spec fn clip_rejects(c: ClipModel, p: POINT, q: POINT) -> bool {
    c.active && ((p.y <= c.top && q.y <= c.top) || (p.y > c.bottom && q.y > c.bottom))
}

/// Three vertices in a row that lie all to the left, or all to the right, of
/// the clip rectangle: the middle one can go.
pub open spec fn clip_collapses(c: ClipModel, p: POINT, q: POINT, r: POINT) -> bool {
    c.active && ((p.x < c.left && q.x < c.left && r.x < c.left) || (p.x > c.right && q.x
        > c.right && r.x > c.right))
}

pub open spec fn optional_edge(e: Option<EdgeModel>) -> Seq<EdgeModel> {
    match e {
        Some(m) => seq![m],
        None => Seq::empty(),
    }
}

/// The edges of the polyline that starts at `p` and runs through `rest`.
///
/// A segment outside the clip rectangle in y gives no edge. Two segments in
/// a row outside it in x, on the same side, are merged: the vertex between
/// them is replaced by the one before it.
pub open spec fn batch_edges(p: POINT, rest: Seq<POINT>, c: ClipModel) -> Seq<EdgeModel>
    decreases rest.len(),
{
    if rest.len() == 0 {
        Seq::empty()
    } else {
        let q = rest[0];
        let tail = rest.drop_first();
        if clip_rejects(c, p, q) {
            batch_edges(q, tail, c)
        } else if tail.len() > 0 && clip_collapses(c, p, q, tail[0]) {
            batch_edges(p, tail, c)
        } else {
            optional_edge(segment_edge(p, q, c.top_integer)) + batch_edges(q, tail, c)
        }
    }
}

/// The largest `end_y` among `edges` and `init`.
pub open spec fn max_end_y(edges: Seq<EdgeModel>, init: int) -> int
    decreases edges.len(),
{
    if edges.len() == 0 {
        init
    } else {
        let m = max_end_y(edges.drop_last(), init);
        if edges.last().end_y > m {
            edges.last().end_y
        } else {
            m
        }
    }
}

/// The least `start_y` among `edges`; the largest number of 32 bits where
/// there is none.
pub open spec fn min_start_y(edges: Seq<EdgeModel>) -> int
    decreases edges.len(),
{
    if edges.len() == 0 {
        INT::MAX as int
    } else {
        let m = min_start_y(edges.drop_last());
        if edges.last().start_y < m {
            edges.last().start_y
        } else {
            m
        }
    }
}

/// The least `start_y` is at most every `start_y`, and is one of them.
pub proof fn lemma_min_start(edges: Seq<EdgeModel>, v: int, j: int)
    requires
        forall|k: int| 0 <= k < edges.len() ==> v <= (#[trigger] edges[k]).start_y,
        v <= INT::MAX,
        j < edges.len(),
        0 <= j ==> edges[j].start_y == v,
    ensures
        v <= min_start_y(edges),
        0 <= j ==> min_start_y(edges) == v,
    decreases edges.len(),
{
    if edges.len() > 0 {
        let front = edges.drop_last();
        assert forall|k: int| 0 <= k < front.len() implies v <= (#[trigger] front[k]).start_y by {
            assert(front[k] == edges[k]);
        }
        if 0 <= j < front.len() {
            assert(front[j] == edges[j]);
            lemma_min_start(front, v, j);
        } else {
            lemma_min_start(front, v, -1);
        }
        assert(v <= edges[edges.len() - 1].start_y);
    }
}

/// A 28.4 input point within the range that `mode` leaves room for.
pub open spec fn input_point(p: POINT, mode: MilAntiAliasMode) -> bool {
    if mode == MilAntiAliasMode::Aliased {
        &&& -COORD_MAX_ALIASED <= p.x <= COORD_MAX_ALIASED
        &&& -COORD_MAX_ALIASED <= p.y <= COORD_MAX_ALIASED
    } else {
        &&& -COORD_MAX_ANTIALIASED <= p.x <= COORD_MAX_ANTIALIASED
        &&& -COORD_MAX_ANTIALIASED <= p.y <= COORD_MAX_ANTIALIASED
    }
}

/// The working point of an input point: when anti-aliasing, moved by half a
/// pixel and scaled by the supersampling factor.
pub open spec fn scale_point(p: POINT, mode: MilAntiAliasMode) -> POINT {
    if mode == MilAntiAliasMode::Aliased {
        p
    } else {
        POINT { x: ((p.x + 8) * 8) as INT, y: ((p.y + 8) * 8) as INT }
    }
}

pub open spec fn scale_points(points: Seq<POINT>, mode: MilAntiAliasMode) -> Seq<POINT> {
    points.map_values(|p: POINT| scale_point(p, mode))
}

/// What the edge initializer works on and accumulates.
pub struct CInitializeEdgesContext {
    /// Largest `EndY` of the edges so far.
    pub MaxY: INT,
    /// Clip rectangle in 28.4 device coordinates, if any.
    pub ClipRect: Option<RECT>,
    pub Store: CEdgeStore,
    pub AntiAliasMode: MilAntiAliasMode,
}

/// Every element of `edges` is a well-formed edge on its first scanline.
pub open spec fn all_edges_wf(edges: Seq<EdgeModel>) -> bool {
    forall|i: int| 0 <= i < edges.len() ==> edge_wf(#[trigger] edges[i])
}

/// The edges that one batch of vertices adds.
pub open spec fn edges_of_batch(
    points: Seq<POINT>,
    clip: Option<RECT>,
    mode: MilAntiAliasMode,
) -> Seq<EdgeModel> {
    let scaled = scale_points(points, mode);
    batch_edges(scaled[0], scaled.drop_first(), clip_model(clip, mode))
}

/// Add the edges of the polyline through the first `vertexCount` points of
/// `pointArray` to the edge store.
///
/// The points are 28.4 fixed point and are not changed: the supersampling
/// scale is applied to a working copy. On `S_OK` the store has grown by
/// exactly [`edges_of_batch`] and `MaxY` covers their `EndY`. The call fails,
/// with `WINCODEC_ERR_VALUEOVERFLOW`, exactly where the store cannot hold
/// them all; it then holds as many of them as fit, and `MaxY` is as it was.
pub fn InitializeEdges(
    pEdgeContext: &mut CInitializeEdgesContext,
    pointArray: &[POINT],
    vertexCount: UINT,
) -> (hr: HRESULT)
    requires
        old(pEdgeContext).Store.wf(),
        2 <= vertexCount <= pointArray@.len(),
        forall|i: int|
            0 <= i < vertexCount ==> input_point(
                #[trigger] pointArray@[i],
                old(pEdgeContext).AntiAliasMode,
            ),
    ensures
        final(pEdgeContext).Store.wf(),
        final(pEdgeContext).ClipRect == old(pEdgeContext).ClipRect,
        final(pEdgeContext).AntiAliasMode == old(pEdgeContext).AntiAliasMode,
        hr == S_OK || hr == WINCODEC_ERR_VALUEOVERFLOW,
        hr == S_OK <==> old(pEdgeContext).Store.edges().len() + edges_of_batch(
            pointArray@.subrange(0, vertexCount as int),
            old(pEdgeContext).ClipRect,
            old(pEdgeContext).AntiAliasMode,
        ).len() <= EDGE_STORE_LIMIT,
        hr == S_OK ==> final(pEdgeContext).Store.models() == old(pEdgeContext).Store.models()
            + edges_of_batch(
            pointArray@.subrange(0, vertexCount as int),
            old(pEdgeContext).ClipRect,
            old(pEdgeContext).AntiAliasMode,
        ),
        hr == S_OK ==> final(pEdgeContext).MaxY == max_end_y(
            edges_of_batch(
                pointArray@.subrange(0, vertexCount as int),
                old(pEdgeContext).ClipRect,
                old(pEdgeContext).AntiAliasMode,
            ),
            old(pEdgeContext).MaxY as int,
        ),
        hr != S_OK ==> final(pEdgeContext).MaxY == old(pEdgeContext).MaxY,
        hr != S_OK ==> final(pEdgeContext).Store.models() == old(pEdgeContext).Store.models()
            + edges_of_batch(
            pointArray@.subrange(0, vertexCount as int),
            old(pEdgeContext).ClipRect,
            old(pEdgeContext).AntiAliasMode,
        ).subrange(0, EDGE_STORE_LIMIT - old(pEdgeContext).Store.edges().len()),
        final(pEdgeContext).Store.edges().len() >= old(pEdgeContext).Store.edges().len(),
        final(pEdgeContext).Store.models().subrange(
            0,
            old(pEdgeContext).Store.edges().len() as int,
        ) == old(pEdgeContext).Store.models(),
        all_edges_wf(old(pEdgeContext).Store.models()) ==> all_edges_wf(
            final(pEdgeContext).Store.models(),
        ),
{
    let mode = pEdgeContext.AntiAliasMode;
    let n: usize = vertexCount as usize;
    let ghost input = pointArray@.subrange(0, vertexCount as int);
    let ghost scaled = scale_points(input, mode);
    let ghost clip = clip_model(pEdgeContext.ClipRect, mode);
    let ghost old_models = pEdgeContext.Store.models();
    let ghost old_max = pEdgeContext.MaxY as int;

    let mut yMax: INT = pEdgeContext.MaxY;
    let active: bool;
    let mut yClipTopInteger: LONGLONG;
    let mut yClipTop: LONGLONG;
    let mut yClipBottom: LONGLONG;
    let mut xClipLeft: LONGLONG;
    let mut xClipRight: LONGLONG;
    match pEdgeContext.ClipRect {
        Some(clipRect) => {
            active = true;
            yClipTopInteger = FloorShift64(clipRect.top as LONGLONG);
            yClipTop = clipRect.top as LONGLONG;
            yClipBottom = clipRect.bottom as LONGLONG;
            xClipLeft = clipRect.left as LONGLONG;
            xClipRight = clipRect.right as LONGLONG;
        },
        None => {
            active = false;
            yClipBottom = 0;
            yClipTopInteger = -0x2000_0000;
            // These 3 values are only used when there is a clip rectangle
            yClipTop = 0;
            xClipLeft = 0;
            xClipRight = 0;
        },
    }

    // If antialiasing, apply the supersampling scaling here before we
    // calculate the DDAs.  We do this here and not in the matrix
    // transform mainly so that the Bezier flattener can continue to
    // operate in its optimal 28.4 format.
    //
    // We also apply a half-pixel offset here so that the antialiasing
    // code can assume that the pixel centers are at half-pixel
    // coordinates, not on the integer coordinates.
    let mut points: Vec<POINT> = Vec::new();
    let mut k: usize = 0;
    while k < n
        invariant
            0 <= k <= n,
            n == vertexCount,
            n <= pointArray@.len(),
            input == pointArray@.subrange(0, vertexCount as int),
            scaled == scale_points(input, mode),
            forall|i: int| 0 <= i < n ==> input_point(#[trigger] pointArray@[i], mode),
            points@ == scaled.subrange(0, k as int),
        decreases n - k,
    {
        let p = pointArray[k];
        let ghost before = points@;
        if mode != MilAntiAliasMode::Aliased {
            points.push(POINT { x: (p.x + 8) * 8, y: (p.y + 8) * 8 });
        } else {
            points.push(p);
        }
        proof {
            assert(input[k as int] == pointArray@[k as int]);
            assert(points@ =~= scaled.subrange(0, k + 1));
        }
        k += 1;
    }
    assert(points@ =~= scaled);
    if mode != MilAntiAliasMode::Aliased {
        yClipTopInteger = yClipTopInteger * 8;
        yClipTop = yClipTop * 8;
        yClipBottom = yClipBottom * 8;
        xClipLeft = xClipLeft * 8;
        xClipRight = xClipRight * 8;
    }
    // Make 'yClipBottom' inclusive by subtracting off one pixel
    // (keeping in mind that we're in 28.4 device space):
    yClipBottom -= 16;
    assert(active == clip.active);
    assert(active ==> yClipTop == clip.top && yClipBottom == clip.bottom && xClipLeft == clip.left
        && xClipRight == clip.right && yClipTopInteger == clip.top_integer);
    assert(forall|i: int| 0 <= i < n ==> working_point(#[trigger] points@[i])) by {
        assert forall|i: int| 0 <= i < n implies working_point(#[trigger] points@[i]) by {
            assert(input[i] == pointArray@[i]);
            assert(points@[i] == scale_point(input[i], mode));
        }
    }

    let ghost mut emitted: Seq<EdgeModel> = Seq::empty();
    let mut first: POINT = points[0];
    let mut i: usize = 0;
    assert(scaled.drop_first() =~= scaled.subrange(1, n as int));
    assert(old_models + emitted =~= old_models);
    while i + 1 < n
        invariant
            0 <= i < n,
            n == points@.len(),
            n == scaled.len(),
            points@ == scaled,
            pEdgeContext.Store.wf(),
            pEdgeContext.ClipRect == old(pEdgeContext).ClipRect,
            pEdgeContext.AntiAliasMode == mode,
            mode == old(pEdgeContext).AntiAliasMode,
            input == pointArray@.subrange(0, vertexCount as int),
            scaled == scale_points(input, mode),
            pEdgeContext.MaxY == old(pEdgeContext).MaxY,
            clip == clip_model(pEdgeContext.ClipRect, mode),
            active == clip.active,
            active ==> yClipTop == clip.top && yClipBottom == clip.bottom && xClipLeft == clip.left
                && xClipRight == clip.right && yClipTopInteger == clip.top_integer,
            !active ==> yClipTopInteger <= -0x2000_0000,
            !active ==> clip.top_integer == -0x1_0000_0000,
            active ==> 16 * yClipTopInteger <= yClipTop,
            forall|j: int| 0 <= j < n ==> working_point(#[trigger] points@[j]),
            working_point(first),
            pEdgeContext.Store.models() == old_models + emitted,
            old_models == old(pEdgeContext).Store.models(),
            old_max == old(pEdgeContext).MaxY,
            all_edges_wf(emitted),
            yMax == max_end_y(emitted, old_max),
            batch_edges(scaled[0], scaled.drop_first(), clip) == emitted + batch_edges(
                first,
                scaled.subrange(i + 1, n as int),
                clip,
            ),
        decreases n - i,
    {
        let ghost rest = scaled.subrange(i + 1, n as int);
        let ghost tail = scaled.subrange(i + 2, n as int);
        let second = points[i + 1];
        proof {
            assert(rest[0] == second);
            assert(rest.drop_first() =~= tail);
        }
        // Handle trivial rejection:
        if active {
            // Throw out any edges that are above or below the clipping.
            // This has to be a precise check, because we assume later
            // on that every edge intersects in the vertical dimension
            // with the clip rectangle.
            //
            // Note that 'yClipBottom' is inclusive:
            let clipHigh = (first.y as LONGLONG <= yClipTop) && (second.y as LONGLONG <= yClipTop);
            let clipLow = (first.y as LONGLONG > yClipBottom) && (second.y as LONGLONG
                > yClipBottom);
            if clipHigh || clipLow {
                first = second;
                i += 1;
                continue ;  // ======================>
            }
            if i + 2 < n {
                // Here we'll collapse two edges down to one if both are
                // to the left or to the right of the clipping rectangle.
                let third = points[i + 2];
                proof {
                    assert(tail[0] == third);
                }
                if ((first.x as LONGLONG) < xClipLeft) && ((second.x as LONGLONG) < xClipLeft) && (
                (third.x as LONGLONG) < xClipLeft) {
                    // The middle vertex is replaced by the first:
                    i += 1;
                    continue ;  // ======================>
                }
                if ((first.x as LONGLONG) > xClipRight) && ((second.x as LONGLONG) > xClipRight)
                    && ((third.x as LONGLONG) > xClipRight) {
                    i += 1;
                    continue ;  // ======================>
                }
            }
        }
        let ghost clip_top = clip.top_integer;
        proof {
            if !active {
                lemma_segment_edge_unclipped(first, second, yClipTopInteger as int, clip_top);
            }
        }
        match InitializeEdge(first, second, yClipTopInteger) {
            Some(edge) => {
                let ghost before = pEdgeContext.Store.edges();
                let hr = pEdgeContext.Store.AddEdge(edge);
                if hr != S_OK {
                    proof {
                        let total = batch_edges(scaled[0], scaled.drop_first(), clip);
                        assert(optional_edge(segment_edge(first, second, clip_top)).len() == 1);
                        assert(batch_edges(first, rest, clip).len() >= 1);
                        assert(total.len() >= emitted.len() + 1);
                        assert(pEdgeContext.Store.models().len()
                            == pEdgeContext.Store.edges().len());
                        assert(pEdgeContext.Store.models().len() == old_models.len()
                            + emitted.len());
                        assert(pEdgeContext.Store.models().subrange(0, old_models.len() as int)
                            =~= old_models);
                        lemma_all_wf_concat(old_models, emitted);
                        assert(pEdgeContext.Store.edges().len() == EDGE_STORE_LIMIT);
                        assert(total.subrange(0, emitted.len() as int) =~= emitted);
                    }
                    return hr;
                }
                if edge.EndY > yMax {
                    yMax = edge.EndY;
                }
                proof {
                    let m = edge.model();
                    assert(pEdgeContext.Store.models() =~= (old_models + emitted).push(m)) by {
                        assert(before.push(edge).map_values(|e: CEdge| e.model())
                            =~= before.map_values(|e: CEdge| e.model()).push(m));
                    }
                    assert(emitted.push(m).drop_last() =~= emitted);
                    assert(optional_edge(segment_edge(first, second, clip_top)) =~= seq![m]);
                    assert(emitted + (seq![m] + batch_edges(second, tail, clip)) =~= emitted.push(
                        m,
                    ) + batch_edges(second, tail, clip));
                    assert((old_models + emitted).push(m) =~= old_models + emitted.push(m));
                    emitted = emitted.push(m);
                }
            },
            None => {
                proof {
                    assert(optional_edge(segment_edge(first, second, clip_top)) =~= Seq::<
                        EdgeModel,
                    >::empty());
                    assert(emitted + (Seq::<EdgeModel>::empty() + batch_edges(second, tail, clip))
                        =~= emitted + batch_edges(second, tail, clip));
                }
            },
        }
        first = second;
        i += 1;
    }
    proof {
        assert(scaled.subrange(i + 1, n as int) =~= Seq::<POINT>::empty());
        assert(emitted + Seq::<EdgeModel>::empty() =~= emitted);
        assert(pEdgeContext.Store.models().subrange(0, old_models.len() as int) =~= old_models);
        pEdgeContext.Store.lemma_wf();
        lemma_all_wf_concat(old_models, emitted);
    }
    // We're done with this batch.
    pEdgeContext.MaxY = yMax;
    S_OK
}

/// Without a clip rectangle no edge starts above the clip top, whatever
/// value stands for it.
pub proof fn lemma_segment_edge_unclipped(p: POINT, q: POINT, a: int, b: int)
    requires
        working_point(p),
        working_point(q),
        a <= -0x2000_0000,
        b <= -0x2000_0000,
    ensures
        segment_edge(p, q, a) == segment_edge(p, q, b),
{
}

/// Two sequences of well-formed edges make one.
pub proof fn lemma_all_wf_concat(a: Seq<EdgeModel>, b: Seq<EdgeModel>)
    requires
        all_edges_wf(b),
    ensures
        all_edges_wf(a) ==> all_edges_wf(a + b),
{
    if all_edges_wf(a) {
        assert forall|i: int| 0 <= i < (a + b).len() implies edge_wf(#[trigger] (a + b)[i]) by {
            if i < a.len() {
                assert((a + b)[i] == a[i]);
            } else {
                assert((a + b)[i] == b[i - a.len()]);
            }
        }
    }
}


/// No edge begins above the scanline `top`.
pub open spec fn edges_start_from(edges: Seq<EdgeModel>, top: int) -> bool {
    forall|i: int| 0 <= i < edges.len() ==> (#[trigger] edges[i]).start_y >= top
}

/// Two runs of edges that begin at or below a scanline make one.
pub proof fn lemma_start_concat(a: Seq<EdgeModel>, b: Seq<EdgeModel>, top: int)
    requires
        edges_start_from(a, top),
        edges_start_from(b, top),
    ensures
        edges_start_from(a + b, top),
{
    assert forall|i: int| 0 <= i < (a + b).len() implies (#[trigger] (a + b)[i]).start_y >= top by {
        if i < a.len() {
            assert((a + b)[i] == a[i]);
        } else {
            assert((a + b)[i] == b[i - a.len()]);
        }
    }
}

/// No edge of a batch begins above the first scanline of the clip
/// rectangle.
pub proof fn lemma_batch_edges_start(p: POINT, rest: Seq<POINT>, c: ClipModel)
    ensures
        edges_start_from(batch_edges(p, rest, c), c.top_integer),
    decreases rest.len(),
{
    if rest.len() > 0 {
        let q = rest[0];
        let tail = rest.drop_first();
        lemma_batch_edges_start(q, tail, c);
        lemma_batch_edges_start(p, tail, c);
        let one = optional_edge(segment_edge(p, q, c.top_integer));
        assert(edges_start_from(one, c.top_integer));
        lemma_start_concat(one, batch_edges(q, tail, c), c.top_integer);
    }
}

} // verus!
