//! Rows of trapezoids: while the edges of the active list keep apart, and no
//! edge begins or ends, the device scanlines are output as one trapezoid
//! between the two edges of each pair, not scan by scan.

use vstd::prelude::*;
use crate::aarasterizer::{
    dda_advance, dda_normal, dda_step, lemma_dda_advance_add, lemma_dda_advance_last, CEdge, Dda,
    EdgeModel, EDGE_X_BOUND,
};
use crate::activelist::{
    entry_start_y, inactive_ready, AdvanceDDAAndUpdateActiveEdgeList, CEdgeTable,
};
use crate::drawing::{
    pair_patch, pair_strata, pair_trapezoid, pairs_strata, pairs_strip, side_delta, slope_bound,
};
use crate::hwrasterizer::lemma_ready_kept;
use crate::hwvertexbuffer::{
    lemma_grown_by, lemma_grown_twice, lemma_patch_covered_at, lemma_trapezoid_covered,
    max_int, min_int, side_max_error, side_min_error, strip_grown, trapezoid_strip,
    CD3DVertexXYZDUV2, CHwTVertexBufferBuilder,
};
use crate::inactive::{CInactiveEdge, TAIL_EDGE};
use crate::scanline::{
    active_models, entries_ok, entries_split, lemma_entry_begun, lemma_tracks_settle,
    lemma_tracks_step, list_crosses, list_tracks, side_on,
};
use crate::types::INT;

verus! {

/// What the scanline loop keeps of the edge table and the inactive array
/// while it stands on the subpixel scanline `y`, with the edges that begin
/// on `y` in the active list.
pub open spec fn table_state(
    table: &CEdgeTable,
    inactive: Seq<CInactiveEdge>,
    pos: int,
    y: int,
    yNextInactive: int,
    origin: Seq<EdgeModel>,
) -> bool {
    &&& table.wf()
    &&& table.sentinels_ok()
    &&& table.x_ordered()
    &&& table.active_at(y)
    &&& inactive_ready(inactive, table.edges@, pos)
    &&& inactive.len() <= 0xffff_fff0
    &&& table.active_len() <= pos - 1
    &&& yNextInactive == entry_start_y(inactive, table.edges@, pos)
    &&& yNextInactive > y
    &&& -EDGE_X_BOUND <= y <= EDGE_X_BOUND
    &&& list_tracks(table, origin, y, y)
    &&& entries_ok(inactive, origin)
    &&& entries_split(inactive, origin, pos, y)
}

/// The same once the active list was brought to the scanline `y`, before
/// the edges that begin on `y` are inserted.
pub open spec fn table_settled(
    table: &CEdgeTable,
    inactive: Seq<CInactiveEdge>,
    pos: int,
    y: int,
    yNextInactive: int,
    origin: Seq<EdgeModel>,
) -> bool {
    &&& table.wf()
    &&& table.sentinels_ok()
    &&& table.x_ordered()
    &&& table.active_at(y)
    &&& inactive_ready(inactive, table.edges@, pos)
    &&& inactive.len() <= 0xffff_fff0
    &&& table.active_len() <= pos - 1
    &&& yNextInactive == entry_start_y(inactive, table.edges@, pos)
    &&& yNextInactive >= y
    &&& -EDGE_X_BOUND <= y <= EDGE_X_BOUND
    &&& list_tracks(table, origin, y - 1, y)
    &&& entries_ok(inactive, origin)
    &&& entries_split(inactive, origin, pos, y - 1)
}

/// Brings the active list from the scanline `y` to the next: takes out the
/// edges that end there and steps the others.
pub(crate) fn StepOnly(
    pEdgeActiveList: &mut CEdgeTable,
    y: INT,
    Ghost(yNextInactive): Ghost<int>,
    Ghost(inactive): Ghost<Seq<CInactiveEdge>>,
    Ghost(pos): Ghost<int>,
    Ghost(origin): Ghost<Seq<EdgeModel>>,
)
    requires
        table_state(old(pEdgeActiveList), inactive, pos, y as int, yNextInactive, origin),
        y < EDGE_X_BOUND,
    ensures
        table_settled(final(pEdgeActiveList), inactive, pos, y + 1, yNextInactive, origin),
        y + 1 < yNextInactive ==> table_state(
            final(pEdgeActiveList),
            inactive,
            pos,
            y + 1,
            yNextInactive,
            origin,
        ),
{
    let ghost before = *pEdgeActiveList;
    AdvanceDDAAndUpdateActiveEdgeList(y + 1, pEdgeActiveList);
    proof {
        lemma_ready_kept(inactive, &before, pEdgeActiveList, pos);
        lemma_tracks_step(&before, pEdgeActiveList, origin, y as int);
        if pos <= inactive.len() - 2 {
            let k = inactive[pos].Edge as int;
            assert(origin[k].start_y > y);
            assert(pEdgeActiveList.edges@[k].model() == origin[k]);
        }
        lemma_tracks_settle(pEdgeActiveList, origin, inactive, pos, y as int, y + 1);
    }
}

/// Brings the active list down one device scanline, from the scanline `y`
/// to `y + 8`, before which no edge begins.
pub(crate) fn StepRow(
    pEdgeActiveList: &mut CEdgeTable,
    y: INT,
    Ghost(yNextInactive): Ghost<int>,
    Ghost(inactive): Ghost<Seq<CInactiveEdge>>,
    Ghost(pos): Ghost<int>,
    Ghost(origin): Ghost<Seq<EdgeModel>>,
)
    requires
        table_state(old(pEdgeActiveList), inactive, pos, y as int, yNextInactive, origin),
        y + 8 <= yNextInactive,
        y + 8 <= EDGE_X_BOUND,
    ensures
        table_settled(final(pEdgeActiveList), inactive, pos, y + 8, yNextInactive, origin),
        y + 8 < yNextInactive ==> table_state(
            final(pEdgeActiveList),
            inactive,
            pos,
            y + 8,
            yNextInactive,
            origin,
        ),
{
    let mut k: INT = 0;
    while k < 7
        invariant
            0 <= k <= 7,
            y + 8 <= yNextInactive,
            y + 8 <= EDGE_X_BOUND,
            table_state(pEdgeActiveList, inactive, pos, y + k, yNextInactive, origin),
        decreases 7 - k,
    {
        StepOnly(
            pEdgeActiveList,
            y + k,
            Ghost(yNextInactive),
            Ghost(inactive),
            Ghost(pos),
            Ghost(origin),
        );
        k = k + 1;
    }
    StepOnly(pEdgeActiveList, y + 7, Ghost(yNextInactive), Ghost(inactive), Ghost(pos), Ghost(origin));
}


/// An edge steeper than this many subpixels of x for each scanline is left
/// to the scans.
pub const SLOPE_MAX: INT = 0x0100_0000;

/// A side further from zero than this is left to the scans.
pub const PLACE_MAX: i64 = 0x7fff_0000;

/// The edges as the scanline loop thinks of them.
pub open spec fn edge_models(edges: Seq<CEdge>) -> Seq<EdgeModel> {
    Seq::new(edges.len(), |i: int| edges[i].model())
}

/// The winding directions of the two edges of the `j`-th pair cancel.
pub open spec fn pair_cancels(sides: Seq<EdgeModel>, j: int) -> bool {
    sides[2 * j].winding + sides[2 * j + 1].winding == 0
}

/// The winding directions of the two edges of every pair cancel: the
/// winding rule fills what the alternate rule fills.
pub open spec fn pairs_cancel(sides: Seq<EdgeModel>) -> bool {
    forall|j: int| 0 <= j && 2 * j + 1 < sides.len() ==> #[trigger] pair_cancels(sides, j)
}

/// The distance from the `i`-th edge to the next, `steps` scanlines down.
pub open spec fn gap(sides: Seq<EdgeModel>, i: int, steps: int) -> int {
    side_on(sides[i + 1], steps).x - side_on(sides[i], steps).x
}

/// The room that the fringes of the `i`-th edge and the next take between
/// them.
pub open spec fn expand(sides: Seq<EdgeModel>, i: int) -> int {
    side_delta(sides[i]) + side_delta(sides[i + 1])
}

/// The edge is not too steep for a trapezoid.
pub open spec fn not_steep(e: EdgeModel) -> bool {
    slope_bound(e) <= SLOPE_MAX
}

/// On the first scanline the `i`-th edge and the next are as far apart as
/// their fringes take.
pub open spec fn room_top(sides: Seq<EdgeModel>, i: int) -> bool {
    gap(sides, i, 0) >= expand(sides, i)
}

/// A row of trapezoids can begin: no edge is too steep, and every edge is
/// as far from the next as their fringes take.
pub open spec fn top_ok(sides: Seq<EdgeModel>) -> bool {
    &&& forall|i: int| 0 <= i < sides.len() ==> not_steep(#[trigger] sides[i])
    &&& forall|i: int| 0 <= i < sides.len() - 1 ==> #[trigger] room_top(sides, i)
}

/// Down the device scanline that begins `steps` scanlines down, the `i`-th
/// edge and the next do not come closer, or stay further apart than their
/// fringes take.
pub open spec fn room_row(sides: Seq<EdgeModel>, i: int, steps: int) -> bool {
    gap(sides, i, steps + 8) >= gap(sides, i, steps) || gap(sides, i, steps + 8) > expand(sides, i)
}

/// At the end of the device scanline that begins `steps` scanlines down,
/// the `i`-th edge stands within [`PLACE_MAX`] of zero.
pub open spec fn fits_row(sides: Seq<EdgeModel>, i: int, steps: int) -> bool {
    -PLACE_MAX <= side_on(sides[i], steps + 8).x <= PLACE_MAX
}

/// The device scanline that begins `steps` scanlines below `y` can be part
/// of the row of trapezoids: no edge begins or ends on it, the filling
/// does not end on it, and the edges keep apart.
pub open spec fn row_allowed(sides: Seq<EdgeModel>, y: int, steps: int, next: int, bottom: int) -> bool {
    &&& y + steps + 8 <= next
    &&& y + steps + 8 <= bottom
    &&& forall|i: int| 0 <= i < sides.len() ==> (#[trigger] sides[i]).end_y >= y + steps + 8
    &&& forall|i: int| 0 <= i < sides.len() ==> #[trigger] fits_row(sides, i, steps)
    &&& forall|i: int| 0 <= i < sides.len() - 1 ==> #[trigger] room_row(sides, i, steps)
}

/// The number of scanlines that the row of trapezoids takes, counted from
/// `steps`: the device scanlines up to the first that cannot be part of it.
pub open spec fn rows_end(sides: Seq<EdgeModel>, y: int, steps: int, next: int, bottom: int) -> int
    decreases bottom - y - steps,
{
    if steps >= 0 && row_allowed(sides, y, steps, next, bottom) {
        rows_end(sides, y, steps + 8, next, bottom)
    } else {
        steps
    }
}

/// Where an edge stands: its x and the error of its DDA.
#[derive(Clone, Copy)]
pub struct CSidePlace {
    pub X: i64,
    pub Error: i64,
}

impl CSidePlace {
    pub open spec fn dda(self) -> Dda {
        Dda { x: self.X as int, error: self.Error as int }
    }
}

/// The places are those of the edges `steps` scanlines down, each with an
/// error in its range.
pub open spec fn places_at(places: Seq<CSidePlace>, sides: Seq<EdgeModel>, steps: int) -> bool {
    &&& places.len() == sides.len()
    &&& forall|i: int|
        0 <= i < sides.len() ==> (#[trigger] places[i]).dda() == side_on(sides[i], steps)
            && dda_normal(places[i].dda(), sides[i].error_up, sides[i].error_down)
}

/// The edges of the active list, in list order.
pub fn ActiveSides(table: &CEdgeTable) -> (sides: Vec<CEdge>)
    requires
        table.wf(),
    ensures
        sides@.len() == table.active_len(),
        forall|i: int| 0 <= i < sides@.len() ==> #[trigger] sides@[i] == table.active_edge(i),
        edge_models(sides@) == active_models(table),
{
    let mut sides: Vec<CEdge> = Vec::new();
    let mut at: usize = table.First();
    let ghost mut i: int = 0;
    while at != TAIL_EDGE
        invariant
            table.wf(),
            0 <= i <= table.active_len(),
            at == table.order@[i + 1],
            sides@.len() == i,
            forall|k: int| 0 <= k < i ==> #[trigger] sides@[k] == table.active_edge(k),
        decreases table.active_len() - i,
    {
        proof {
            assert(i < table.active_len()) by {
                if i == table.active_len() {
                    assert(table.order@[i + 1] == TAIL_EDGE);
                }
            }
        }
        let next: usize = table.NextEdge(at, Ghost(i));
        let edge: CEdge = table.Edge(at);
        sides.push(edge);
        at = next;
        proof {
            i = i + 1;
        }
    }
    proof {
        assert(i == table.active_len()) by {
            if i < table.active_len() {
                crate::activelist::lemma_real_edge(table.edges@, table.order@, i + 1);
            }
        }
        assert(edge_models(sides@) =~= active_models(table));
    }
    sides
}

/// Says whether the winding directions of the two edges of every pair
/// cancel.
pub fn PairsCancel(sides: &Vec<CEdge>) -> (b: bool)
    ensures
        b == pairs_cancel(edge_models(sides@)),
{
    let ghost models = edge_models(sides@);
    let n: usize = sides.len();
    let pairs: usize = n / 2;
    let mut j: usize = 0;
    while j < pairs
        invariant
            models == edge_models(sides@),
            n == sides@.len(),
            pairs == n / 2,
            0 <= j <= pairs,
            forall|k: int| 0 <= k < j ==> #[trigger] pair_cancels(models, k),
        decreases pairs - j,
    {
        assert(2 * j + 1 < n);
        if (sides[2 * j].WindingDirection as i64) + (sides[2 * j + 1].WindingDirection as i64) != 0 {
            proof {
                assert(!pair_cancels(models, j as int));
            }
            return false;
        }
        j = j + 1;
    }
    true
}

/// How steep the edge is at most: see [`slope_bound`].
pub fn SlopeBound(e: &CEdge) -> (b: i64)
    ensures
        b == slope_bound(e.model()),
{
    if e.Dx >= 0 {
        if e.ErrorUp > 0 {
            e.Dx as i64 + 1
        } else {
            e.Dx as i64
        }
    } else {
        -(e.Dx as i64)
    }
}

/// Says whether a row of trapezoids can begin with these edges.
pub fn TopOk(sides: &Vec<CEdge>) -> (b: bool)
    ensures
        b == top_ok(edge_models(sides@)),
{
    let ghost models = edge_models(sides@);
    let n: usize = sides.len();
    let mut i: usize = 0;
    while i < n
        invariant
            models == edge_models(sides@),
            n == sides@.len(),
            0 <= i <= n,
            forall|k: int| 0 <= k < i ==> not_steep(#[trigger] models[k]),
        decreases n - i,
    {
        if SlopeBound(&sides[i]) > SLOPE_MAX as i64 {
            proof {
                assert(!not_steep(models[i as int]));
            }
            return false;
        }
        i = i + 1;
    }
    let mut i: usize = 0;
    while n - i >= 2
        invariant
            i <= n,
            models == edge_models(sides@),
            n == sides@.len(),
            0 <= i,
            i + 1 <= n || n == 0,
            forall|k: int| 0 <= k < n ==> not_steep(#[trigger] models[k]),
            forall|k: int| 0 <= k < i ==> #[trigger] room_top(models, k),
        decreases n - i,
    {
        proof {
            assert(not_steep(models[i as int]));
            assert(not_steep(models[i + 1]));
        }
        let room: i64 = 8 + 4 * SlopeBound(&sides[i]) + 4 * SlopeBound(&sides[i + 1]);
        let apart: i64 = sides[i + 1].X as i64 - sides[i].X as i64;
        if apart < room {
            proof {
                assert(!room_top(models, i as int));
            }
            return false;
        }
        i = i + 1;
    }
    true
}

/// Says whether every edge ends on the scanline `limit` or below it.
pub fn EndsBelow(sides: &Vec<CEdge>, limit: INT) -> (b: bool)
    ensures
        b == (forall|i: int|
            0 <= i < sides@.len() ==> (#[trigger] edge_models(sides@)[i]).end_y >= limit),
{
    let ghost models = edge_models(sides@);
    let n: usize = sides.len();
    let mut i: usize = 0;
    while i < n
        invariant
            models == edge_models(sides@),
            n == sides@.len(),
            0 <= i <= n,
            forall|k: int| 0 <= k < i ==> (#[trigger] models[k]).end_y >= limit,
        decreases n - i,
    {
        if sides[i].EndY < limit {
            proof {
                assert(models[i as int].end_y < limit);
            }
            return false;
        }
        i = i + 1;
    }
    true
}

/// The error of a DDA stays in its range however often it is stepped.
pub proof fn lemma_normal_steps(d: Dda, dx: int, up: int, down: int, n: nat)
    requires
        dda_normal(d, up, down),
    ensures
        dda_normal(dda_advance(d, dx, up, down, n), up, down),
    decreases n,
{
    if n > 0 {
        lemma_normal_steps(dda_step(d, dx, up, down), dx, up, down, (n - 1) as nat);
    }
}

/// Where the edge stands eight scanlines further down.
pub fn StepPlace8(e: &CEdge, place: CSidePlace) -> (ahead: CSidePlace)
    requires
        dda_normal(place.dda(), e.ErrorUp as int, e.ErrorDown as int),
        -0x1_0000_0000 <= place.X <= 0x1_0000_0000,
    ensures
        ahead.dda() == dda_advance(
            place.dda(),
            e.Dx as int,
            e.ErrorUp as int,
            e.ErrorDown as int,
            8,
        ),
        dda_normal(ahead.dda(), e.ErrorUp as int, e.ErrorDown as int),
{
    let mut x: i64 = place.X;
    let mut error: i64 = place.Error;
    let mut k: i64 = 0;
    while k < 8
        invariant
            0 <= k <= 8,
            (Dda { x: x as int, error: error as int }) == dda_advance(
                place.dda(),
                e.Dx as int,
                e.ErrorUp as int,
                e.ErrorDown as int,
                k as nat,
            ),
            dda_normal(
                Dda { x: x as int, error: error as int },
                e.ErrorUp as int,
                e.ErrorDown as int,
            ),
            -0x1_0000_0000 - k * 0x1_0000_0000 <= x <= 0x1_0000_0000 + k * 0x1_0000_0000,
        decreases 8 - k,
    {
        proof {
            lemma_dda_advance_last(
                place.dda(),
                e.Dx as int,
                e.ErrorUp as int,
                e.ErrorDown as int,
                k as nat,
            );
        }
        x = x + e.Dx as i64;
        error = error + e.ErrorUp as i64;
        if error >= 0 {
            error = error - e.ErrorDown as i64;
            x = x + 1;
        }
        k = k + 1;
    }
    CSidePlace { X: x, Error: error }
}

/// Where the edges stand on their first scanline.
pub fn TopPlaces(sides: &Vec<CEdge>) -> (places: Vec<CSidePlace>)
    requires
        forall|i: int|
            0 <= i < sides@.len() ==> dda_normal(
                (#[trigger] sides@[i]).model().dda(),
                sides@[i].ErrorUp as int,
                sides@[i].ErrorDown as int,
            ),
    ensures
        places_at(places@, edge_models(sides@), 0),
{
    let ghost models = edge_models(sides@);
    let n: usize = sides.len();
    let mut places: Vec<CSidePlace> = Vec::new();
    let mut i: usize = 0;
    while i < n
        invariant
            models == edge_models(sides@),
            n == sides@.len(),
            0 <= i <= n,
            places@.len() == i,
            forall|k: int|
                0 <= k < sides@.len() ==> dda_normal(
                    (#[trigger] sides@[k]).model().dda(),
                    sides@[k].ErrorUp as int,
                    sides@[k].ErrorDown as int,
                ),
            forall|k: int|
                0 <= k < i ==> (#[trigger] places@[k]).dda() == side_on(models[k], 0) && dda_normal(
                    places@[k].dda(),
                    models[k].error_up,
                    models[k].error_down,
                ),
        decreases n - i,
    {
        proof {
            assert(dda_normal(
                sides@[i as int].model().dda(),
                sides@[i as int].ErrorUp as int,
                sides@[i as int].ErrorDown as int,
            ));
        }
        places.push(CSidePlace { X: sides[i].X as i64, Error: sides[i].Error as i64 });
        i = i + 1;
    }
    places
}

/// Where the edges stand eight scanlines further down.
pub(crate) fn AheadPlaces(sides: &Vec<CEdge>, places: &Vec<CSidePlace>, Ghost(steps): Ghost<int>) -> (ahead:
    Vec<CSidePlace>)
    requires
        0 <= steps,
        places_at(places@, edge_models(sides@), steps),
        forall|i: int| 0 <= i < places@.len() ==> -PLACE_MAX <= (#[trigger] places@[i]).X <= PLACE_MAX,
    ensures
        places_at(ahead@, edge_models(sides@), steps + 8),
{
    let ghost models = edge_models(sides@);
    let n: usize = sides.len();
    let mut ahead: Vec<CSidePlace> = Vec::new();
    let mut i: usize = 0;
    while i < n
        invariant
            models == edge_models(sides@),
            n == sides@.len(),
            0 <= i <= n,
            0 <= steps,
            ahead@.len() == i,
            places_at(places@, models, steps),
            forall|k: int|
                0 <= k < places@.len() ==> -PLACE_MAX <= (#[trigger] places@[k]).X <= PLACE_MAX,
            forall|k: int|
                0 <= k < i ==> (#[trigger] ahead@[k]).dda() == side_on(models[k], steps + 8)
                    && dda_normal(ahead@[k].dda(), models[k].error_up, models[k].error_down),
        decreases n - i,
    {
        proof {
            let m = models[i as int];
            assert(places@[i as int].dda() == side_on(m, steps));
            lemma_dda_advance_add(m.dda(), m.dx, m.error_up, m.error_down, steps as nat, 8);
        }
        let next = StepPlace8(&sides[i], places[i]);
        ahead.push(next);
        i = i + 1;
    }
    ahead
}

/// Says whether every edge stands within [`PLACE_MAX`] of zero.
pub(crate) fn FitsAll(sides: &Vec<CEdge>, ahead: &Vec<CSidePlace>, Ghost(steps): Ghost<int>) -> (b: bool)
    requires
        places_at(ahead@, edge_models(sides@), steps + 8),
    ensures
        b == (forall|i: int|
            0 <= i < sides@.len() ==> #[trigger] fits_row(edge_models(sides@), i, steps)),
{
    let ghost models = edge_models(sides@);
    let n: usize = ahead.len();
    let mut i: usize = 0;
    while i < n
        invariant
            models == edge_models(sides@),
            n == sides@.len(),
            places_at(ahead@, models, steps + 8),
            0 <= i <= n,
            forall|k: int| 0 <= k < i ==> #[trigger] fits_row(models, k, steps),
        decreases n - i,
    {
        proof {
            assert(ahead@[i as int].dda() == side_on(models[i as int], steps + 8));
        }
        if ahead[i].X < -PLACE_MAX || ahead[i].X > PLACE_MAX {
            proof {
                assert(!fits_row(models, i as int, steps));
            }
            return false;
        }
        i = i + 1;
    }
    true
}

/// Says whether the edges keep apart down the device scanline at whose top
/// they stand at `places` and at whose end at `ahead`.
pub(crate) fn RowRoom(
    sides: &Vec<CEdge>,
    places: &Vec<CSidePlace>,
    ahead: &Vec<CSidePlace>,
    Ghost(steps): Ghost<int>,
) -> (b: bool)
    requires
        places_at(places@, edge_models(sides@), steps),
        places_at(ahead@, edge_models(sides@), steps + 8),
        forall|i: int| 0 <= i < places@.len() ==> -PLACE_MAX <= (#[trigger] places@[i]).X <= PLACE_MAX,
        forall|i: int| 0 <= i < ahead@.len() ==> -PLACE_MAX <= (#[trigger] ahead@[i]).X <= PLACE_MAX,
        forall|i: int| 0 <= i < sides@.len() ==> not_steep(#[trigger] edge_models(sides@)[i]),
    ensures
        b == (forall|i: int|
            0 <= i < sides@.len() - 1 ==> #[trigger] room_row(edge_models(sides@), i, steps)),
{
    let ghost models = edge_models(sides@);
    let n: usize = sides.len();
    let mut i: usize = 0;
    while n - i >= 2
        invariant
            i <= n,
            models == edge_models(sides@),
            n == sides@.len(),
            places_at(places@, models, steps),
            places_at(ahead@, models, steps + 8),
            forall|k: int|
                0 <= k < places@.len() ==> -PLACE_MAX <= (#[trigger] places@[k]).X <= PLACE_MAX,
            forall|k: int|
                0 <= k < ahead@.len() ==> -PLACE_MAX <= (#[trigger] ahead@[k]).X <= PLACE_MAX,
            forall|k: int| 0 <= k < n ==> not_steep(#[trigger] models[k]),
            forall|k: int| 0 <= k < i ==> #[trigger] room_row(models, k, steps),
        decreases n - i,
    {
        proof {
            assert(not_steep(models[i as int]));
            assert(not_steep(models[i + 1]));
            assert(places@[i as int].dda() == side_on(models[i as int], steps));
            assert(places@[i + 1].dda() == side_on(models[i + 1], steps));
            assert(ahead@[i as int].dda() == side_on(models[i as int], steps + 8));
            assert(ahead@[i + 1].dda() == side_on(models[i + 1], steps + 8));
        }
        let room: i64 = 8 + 4 * SlopeBound(&sides[i]) + 4 * SlopeBound(&sides[i + 1]);
        let before: i64 = places[i + 1].X - places[i].X;
        let after: i64 = ahead[i + 1].X - ahead[i].X;
        if !(after >= before || after > room) {
            proof {
                assert(!room_row(models, i as int, steps));
            }
            return false;
        }
        i = i + 1;
    }
    true
}


/// While no edge begins or ends, the edges of the active list, and no
/// others, cross the scanlines.
pub proof fn lemma_span_crosses(
    top: &CEdgeTable,
    origin: Seq<EdgeModel>,
    inactive: Seq<CInactiveEdge>,
    pos: int,
    y: int,
    later: int,
)
    requires
        top.wf(),
        list_tracks(top, origin, y, y),
        entries_ok(inactive, origin),
        entries_split(inactive, origin, pos, y),
        pos <= inactive.len() - 2 ==> origin[inactive[pos].Edge as int].start_y >= later,
        forall|i: int| 0 <= i < top.active_len() ==> (#[trigger] active_models(top)[i]).end_y >= later,
    ensures
        forall|v: int| y <= v < later ==> #[trigger] list_crosses(top, origin, y, v),
{
    assert forall|v: int| y <= v < later implies #[trigger] list_crosses(top, origin, y, v) by {
        assert forall|k: int| 2 <= k < origin.len() && #[trigger] top.order@.contains(k) implies v
            < origin[k].end_y by {
            let i = choose|i: int| 0 <= i < top.order@.len() && top.order@[i] == k;
            assert(1 <= i < top.order@.len() - 1);
            assert(active_models(top)[i - 1] == top.edges@[k].model());
            assert(top.edges@[k].model() == crate::scanline::edge_on(origin[k], y));
            crate::scanline::lemma_edge_on_frame(origin[k], y);
        }
        assert forall|k: int| 2 <= k < origin.len() && !top.order@.contains(k) implies !#[trigger] crate::scanline::crosses(
            origin[k],
            v,
        ) by {
            let q = lemma_entry_begun(inactive, origin, pos, y, k);
            if q >= pos {
                assert(origin[inactive[pos].Edge as int].start_y
                    <= origin[inactive[q].Edge as int].start_y);
            }
        }
    }
}

/// Outputs the row of trapezoids: one between the two edges of each pair,
/// from the scanline `yTop`, on which the edges stand as `sides` has them,
/// down to `yBottom`, on which they stand at `bottoms`.
pub(crate) fn EmitTrapezoids(
    pIGeometrySink: &mut CHwTVertexBufferBuilder<CD3DVertexXYZDUV2>,
    yTop: INT,
    yBottom: INT,
    sides: &Vec<CEdge>,
    bottoms: &Vec<CSidePlace>,
)
    requires
        sides@.len() % 2 == 0,
        yTop <= yBottom,
        places_at(bottoms@, edge_models(sides@), yBottom - yTop),
        forall|i: int| 0 <= i < bottoms@.len() ==> -PLACE_MAX <= (#[trigger] bottoms@[i]).X <= PLACE_MAX,
        forall|i: int| 0 <= i < sides@.len() ==> not_steep(#[trigger] edge_models(sides@)[i]),
    ensures
        final(pIGeometrySink).same_setup(old(pIGeometrySink)),
        final(pIGeometrySink).lines() == old(pIGeometrySink).lines(),
        final(pIGeometrySink).strip() == old(pIGeometrySink).strip() + pairs_strip(
            old(pIGeometrySink).config(),
            old(pIGeometrySink).strata(),
            yTop as int,
            yBottom as int,
            edge_models(sides@),
            sides@.len() as int / 2,
        ),
        final(pIGeometrySink).strata() == pairs_strata(
            old(pIGeometrySink).config(),
            old(pIGeometrySink).strata(),
            yTop as int,
            yBottom as int,
            edge_models(sides@),
            sides@.len() as int / 2,
        ),
        strip_grown(
            old(pIGeometrySink).strip(),
            final(pIGeometrySink).strip(),
            12 * (sides@.len() as int),
        ),
{
    let ghost models = edge_models(sides@);
    let ghost c = pIGeometrySink.config();
    let ghost s0 = pIGeometrySink.strata();
    let ghost strip0 = pIGeometrySink.strip();
    let ghost top = yTop as int;
    let ghost bottom = yBottom as int;
    let n: usize = sides.len();
    let pairs: usize = n / 2;
    let mut j: usize = 0;
    proof {
        assert(strip0 + Seq::<CD3DVertexXYZDUV2>::empty() =~= strip0);
        assert(strip0.subrange(0, strip0.len() as int) =~= strip0);
    }
    while j < pairs
        invariant
            models == edge_models(sides@),
            n == sides@.len(),
            pairs == n / 2,
            sides@.len() % 2 == 0,
            0 <= j <= pairs,
            top == yTop,
            bottom == yBottom,
            top <= bottom,
            c == old(pIGeometrySink).config(),
            s0 == old(pIGeometrySink).strata(),
            strip0 == old(pIGeometrySink).strip(),
            places_at(bottoms@, models, bottom - top),
            forall|i: int|
                0 <= i < bottoms@.len() ==> -PLACE_MAX <= (#[trigger] bottoms@[i]).X <= PLACE_MAX,
            forall|i: int| 0 <= i < sides@.len() ==> not_steep(#[trigger] models[i]),
            pIGeometrySink.same_setup(old(pIGeometrySink)),
            pIGeometrySink.lines() == old(pIGeometrySink).lines(),
            pIGeometrySink.strip() == strip0 + pairs_strip(c, s0, top, bottom, models, j as int),
            pIGeometrySink.strata() == pairs_strata(c, s0, top, bottom, models, j as int),
            strip_grown(strip0, pIGeometrySink.strip(), 24 * (j as int)),
        decreases pairs - j,
    {
        assert(2 * j + 1 < n);
        let left: CEdge = sides[2 * j];
        let right: CEdge = sides[2 * j + 1];
        let leftBottom: CSidePlace = bottoms[2 * j];
        let rightBottom: CSidePlace = bottoms[2 * j + 1];
        let ghost l = models[2 * j];
        let ghost r = models[2 * j + 1];
        let ghost before = pIGeometrySink.strip();
        let ghost strata = pIGeometrySink.strata();
        proof {
            assert(not_steep(l));
            assert(not_steep(r));
            assert(leftBottom.dda() == side_on(l, bottom - top));
            assert(rightBottom.dda() == side_on(r, bottom - top));
            assert(dda_normal(leftBottom.dda(), l.error_up, l.error_down));
            assert(dda_normal(rightBottom.dda(), r.error_up, r.error_down));
        }
        let dLeft: INT = (4 + 4 * SlopeBound(&left)) as INT;
        let dRight: INT = (4 + 4 * SlopeBound(&right)) as INT;
        pIGeometrySink.AddTrapezoid(
            yTop,
            left.X,
            right.X,
            yBottom,
            leftBottom.X as INT,
            rightBottom.X as INT,
            dLeft,
            dRight,
            left.Error,
            left.ErrorDown,
            right.Error,
            right.ErrorDown,
            leftBottom.Error as INT,
            rightBottom.Error as INT,
            left.Dx,
            left.ErrorUp,
            right.Dx,
            right.ErrorUp,
        );
        proof {
            let patch = pair_patch(c, strata, top, bottom, l);
            let body = trapezoid_strip(c, pair_trapezoid(top, bottom, l, r));
            let done = pairs_strip(c, s0, top, bottom, models, j as int);
            assert(pIGeometrySink.strip() == before + patch + body);
            assert((strip0 + done) + patch + body =~= strip0 + (done + (patch + body)));
            assert(pairs_strip(c, s0, top, bottom, models, j + 1) == done + (patch + body));
            assert(pairs_strata(c, s0, top, bottom, models, j + 1) == pair_strata(
                c,
                strata,
                top,
                bottom,
                r,
            ));
            lemma_patch_covered_at(
                c,
                strata,
                top,
                bottom,
                true,
                min_int(l.x, side_on(l, bottom - top).x),
                side_min_error(
                    l.x,
                    l.error,
                    side_on(l, bottom - top).x,
                    side_on(l, bottom - top).error,
                ),
                l.error_down,
            );
            lemma_trapezoid_covered(c, pair_trapezoid(top, bottom, l, r));
            lemma_grown_by(before, patch, 12);
            lemma_grown_by(before + patch, body, 12);
            lemma_grown_twice(before, before + patch, before + patch + body, 12, 12);
            lemma_grown_twice(strip0, before, pIGeometrySink.strip(), 24 * (j as int), 24);
        }
        j = j + 1;
    }
}

} // verus!
