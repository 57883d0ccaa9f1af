//! What the rasterizer hands to the vertex buffer builder, piece by piece:
//! a complex scan for each device scanline that it fills sample by sample,
//! and a row of trapezoids for each run of device scanlines on which the
//! edges keep apart, one trapezoid between the two edges of each pair.

use vstd::prelude::*;
use crate::aacoverage::{coverage_at, spans_ok, CoverageSpan};
use crate::aarasterizer::{dda_normal, lemma_dda_closed_form, EdgeModel};
use crate::scanline::{side_on, sides_tally, tally};
use crate::hwvertexbuffer::{
    max_int, min_int, prepared_patch, prepared_patch_at, prepared_strata, prepared_strata_at,
    fraction_ok, lemma_patch_placed, lemma_placed_add, lemma_scan_strip_placed,
    lemma_trapezoid_covered, scan_lines, scan_strip, side_max_error, side_min_error,
    strata_placed, trapezoid_of, trapezoid_placed, trapezoid_strip, vertices_placed,
    BuilderConfig, CD3DVertexXYZDUV2, CHwTVertexBufferBuilder, Strata, Trapezoid,
};
use crate::sample::{
    area_inside, lemma_area_same, lemma_rules_agree, same_inside, sample_inside, unit_windings,
    wound_once,
};
use crate::types::{INT, MilFillMode};

verus! {

/// One piece of the output.
pub ghost enum Drawn {
    /// The device scanline `row` with the coverage of `spans`.
    Scan { row: int, spans: Seq<CoverageSpan> },
    /// The subpixel scanlines from `top` up to `bottom`, both at the top of
    /// a device scanline, as one row of trapezoids: one between the two
    /// edges of each pair of `sides`, which are the edges that cross these
    /// scanlines, as they stand on `top` and in their order from left to
    /// right.
    Trapezoids { top: int, bottom: int, sides: Seq<EdgeModel> },
}

/// How steep an edge is at most, in whole subpixels of x for each
/// scanline.
pub open spec fn slope_bound(e: EdgeModel) -> int {
    if e.dx >= 0 {
        e.dx + if e.error_up > 0 {
            1int
        } else {
            0int
        }
    } else {
        -e.dx
    }
}

/// The distance at which the vertices of a trapezoid stand beside the edge
/// `e`, in subpixels: half a pixel, and half a pixel more for every
/// subpixel of [`slope_bound`].
pub open spec fn side_delta(e: EdgeModel) -> int {
    4 + 4 * slope_bound(e)
}

/// The trapezoid between the edges `l` and `r`, which stand as given on
/// the scanline `top`, down to the scanline `bottom`.
pub open spec fn pair_trapezoid(top: int, bottom: int, l: EdgeModel, r: EdgeModel) -> Trapezoid {
    trapezoid_of(
        top,
        l.x,
        r.x,
        bottom,
        side_on(l, bottom - top).x,
        side_on(r, bottom - top).x,
        side_delta(l),
        side_delta(r),
        l.error,
        l.error_down,
        r.error,
        r.error_down,
        side_on(l, bottom - top).error,
        side_on(r, bottom - top).error,
        l.dx,
        l.error_up,
        r.dx,
        r.error_up,
    )
}

/// The vertices that go before the trapezoid between `l` and `r`.
pub open spec fn pair_patch(
    c: BuilderConfig,
    s: Strata,
    top: int,
    bottom: int,
    l: EdgeModel,
) -> Seq<CD3DVertexXYZDUV2> {
    prepared_patch_at(
        c,
        s,
        top,
        bottom,
        true,
        min_int(l.x, side_on(l, bottom - top).x),
        side_min_error(l.x, l.error, side_on(l, bottom - top).x, side_on(l, bottom - top).error),
        l.error_down,
    )
}

/// The strata of the builder after the trapezoid whose right side is `r`.
pub open spec fn pair_strata(c: BuilderConfig, s: Strata, top: int, bottom: int, r: EdgeModel) -> Strata {
    prepared_strata_at(
        c,
        s,
        top,
        bottom,
        true,
        max_int(r.x, side_on(r, bottom - top).x),
        side_max_error(r.x, r.error, side_on(r, bottom - top).x, side_on(r, bottom - top).error),
        r.error_down,
    )
}

/// The strata of the builder after the trapezoids of the first `j` pairs.
pub open spec fn pairs_strata(
    c: BuilderConfig,
    s: Strata,
    top: int,
    bottom: int,
    sides: Seq<EdgeModel>,
    j: int,
) -> Strata
    decreases j,
{
    if j <= 0 {
        s
    } else {
        pair_strata(c, pairs_strata(c, s, top, bottom, sides, j - 1), top, bottom, sides[2 * j - 1])
    }
}

/// The vertices of the trapezoids of the first `j` pairs, from left to
/// right, each with what goes before it.
pub open spec fn pairs_strip(
    c: BuilderConfig,
    s: Strata,
    top: int,
    bottom: int,
    sides: Seq<EdgeModel>,
    j: int,
) -> Seq<CD3DVertexXYZDUV2>
    decreases j,
{
    if j <= 0 {
        Seq::empty()
    } else {
        pairs_strip(c, s, top, bottom, sides, j - 1) + (pair_patch(
            c,
            pairs_strata(c, s, top, bottom, sides, j - 1),
            top,
            bottom,
            sides[2 * j - 2],
        ) + trapezoid_strip(c, pair_trapezoid(top, bottom, sides[2 * j - 2], sides[2 * j - 1])))
    }
}

/// The vertices that a piece adds to the triangle strip of a builder with
/// the strata `s`.
pub open spec fn piece_strip(c: BuilderConfig, s: Strata, d: Drawn) -> Seq<CD3DVertexXYZDUV2> {
    match d {
        Drawn::Scan { row, spans } => prepared_patch(c, s, 8 * row, 8 * (row + 1), false, 0)
            + scan_strip(c, spans, 0, row),
        Drawn::Trapezoids { top, bottom, sides } => pairs_strip(
            c,
            s,
            top,
            bottom,
            sides,
            sides.len() as int / 2,
        ),
    }
}

/// The vertices that a piece adds to the line list.
pub open spec fn piece_lines(c: BuilderConfig, d: Drawn) -> Seq<CD3DVertexXYZDUV2> {
    match d {
        Drawn::Scan { row, spans } => scan_lines(c, spans, 0, row),
        Drawn::Trapezoids { .. } => Seq::empty(),
    }
}

/// The strata of the builder after a piece.
pub open spec fn piece_strata(c: BuilderConfig, s: Strata, d: Drawn) -> Strata {
    match d {
        Drawn::Scan { row, spans } => prepared_strata(c, s, 8 * row, 8 * (row + 1), false, 0),
        Drawn::Trapezoids { top, bottom, sides } => pairs_strata(
            c,
            s,
            top,
            bottom,
            sides,
            sides.len() as int / 2,
        ),
    }
}

/// The strata of a builder, which began with the strata `s`, after the
/// pieces.
pub open spec fn drawn_strata(c: BuilderConfig, s: Strata, pieces: Seq<Drawn>) -> Strata
    decreases pieces.len(),
{
    if pieces.len() == 0 {
        s
    } else {
        piece_strata(c, drawn_strata(c, s, pieces.drop_last()), pieces.last())
    }
}

/// The vertices that the pieces add to the triangle strip of a builder
/// that began with the strata `s`.
pub open spec fn drawn_strip(c: BuilderConfig, s: Strata, pieces: Seq<Drawn>) -> Seq<
    CD3DVertexXYZDUV2,
>
    decreases pieces.len(),
{
    if pieces.len() == 0 {
        Seq::empty()
    } else {
        drawn_strip(c, s, pieces.drop_last()) + piece_strip(
            c,
            drawn_strata(c, s, pieces.drop_last()),
            pieces.last(),
        )
    }
}

/// The vertices that the pieces add to the line list.
pub open spec fn drawn_lines(c: BuilderConfig, pieces: Seq<Drawn>) -> Seq<CD3DVertexXYZDUV2>
    decreases pieces.len(),
{
    if pieces.len() == 0 {
        Seq::empty()
    } else {
        drawn_lines(c, pieces.drop_last()) + piece_lines(c, pieces.last())
    }
}

/// The first device scanline of a piece.
pub open spec fn piece_first_row(d: Drawn) -> int {
    match d {
        Drawn::Scan { row, spans } => row,
        Drawn::Trapezoids { top, .. } => top / 8,
    }
}

/// The device scanline behind the last of a piece.
pub open spec fn piece_next_row(d: Drawn) -> int {
    match d {
        Drawn::Scan { row, spans } => row + 1,
        Drawn::Trapezoids { bottom, .. } => bottom / 8,
    }
}

/// The pieces take the device scanlines from `first` up to `next`, one
/// piece after the other, none left out.
pub open spec fn pieces_tile(pieces: Seq<Drawn>, first: int, next: int) -> bool
    decreases pieces.len(),
{
    if pieces.len() == 0 {
        first == next
    } else {
        &&& piece_next_row(pieces.last()) == next
        &&& piece_first_row(pieces.last()) < next
        &&& pieces_tile(pieces.drop_last(), first, piece_first_row(pieces.last()))
    }
}

/// The piece shows the path of `edges` as the fill rule `mode` has it, on
/// the scanlines before `limit`: the coverage of each pixel of a scan is
/// the number of its samples that are inside, and a sample on a scanline of
/// a row of trapezoids has to its left as many crossings and windings of
/// the path as of the sides of the row, stepped down to that scanline: it
/// is inside the path exactly where it is inside by the sides. On the
/// first scanline of the row each side is as far from the next as their
/// fringes take.
pub open spec fn piece_true(d: Drawn, edges: Seq<EdgeModel>, mode: MilFillMode, limit: int) -> bool {
    match d {
        Drawn::Scan { row, spans } => {
            &&& spans_ok(spans)
            &&& forall|p: int|
                INT::MIN <= p < INT::MAX ==> #[trigger] coverage_at(spans, p) == area_inside(
                    edges,
                    mode,
                    8 * row,
                    if limit < 8 * row + 8 {
                        limit
                    } else {
                        8 * row + 8
                    },
                    p,
                )
        },
        Drawn::Trapezoids { top, bottom, sides } => {
            &&& top % 8 == 0
            &&& bottom % 8 == 0
            &&& top < bottom <= limit
            &&& sides.len() >= 2
            &&& sides.len() % 2 == 0
            &&& crate::trapezoids::top_ok(sides)
            &&& forall|i: int|
                0 <= i < sides.len() ==> dda_normal(
                    (#[trigger] sides[i]).dda(),
                    sides[i].error_up,
                    sides[i].error_down,
                ) && sides[i].error_down <= INT::MAX
            &&& forall|v: int, x: int, winding: bool|
                top <= v < bottom ==> #[trigger] tally(edges, edges.len() as int, v, x, winding)
                    == sides_tally(sides, sides.len() as int, v - top, x, winding)
        },
    }
}

/// Every piece shows the path.
pub open spec fn pieces_true(
    pieces: Seq<Drawn>,
    edges: Seq<EdgeModel>,
    mode: MilFillMode,
    limit: int,
) -> bool {
    forall|i: int| 0 <= i < pieces.len() ==> piece_true(#[trigger] pieces[i], edges, mode, limit)
}

/// What one more piece adds.
pub proof fn lemma_drawn_push(c: BuilderConfig, s: Strata, pieces: Seq<Drawn>, d: Drawn)
    ensures
        drawn_strata(c, s, pieces.push(d)) == piece_strata(c, drawn_strata(c, s, pieces), d),
        drawn_strip(c, s, pieces.push(d)) == drawn_strip(c, s, pieces) + piece_strip(
            c,
            drawn_strata(c, s, pieces),
            d,
        ),
        drawn_lines(c, pieces.push(d)) == drawn_lines(c, pieces) + piece_lines(c, d),
        forall|first: int|
            pieces_tile(pieces, first, piece_first_row(d)) && piece_first_row(d) < piece_next_row(
                d,
            ) ==> #[trigger] pieces_tile(pieces.push(d), first, piece_next_row(d)),
{
    assert(pieces.push(d).drop_last() =~= pieces);
    assert(pieces.push(d).last() == d);
}


/// The builder `after` is the builder `before` with the pieces drawn.
pub open spec fn sink_drawn(
    before: &CHwTVertexBufferBuilder<CD3DVertexXYZDUV2>,
    after: &CHwTVertexBufferBuilder<CD3DVertexXYZDUV2>,
    pieces: Seq<Drawn>,
) -> bool {
    &&& after.same_setup(before)
    &&& after.strip() == before.strip() + drawn_strip(before.config(), before.strata(), pieces)
    &&& after.lines() == before.lines() + drawn_lines(before.config(), pieces)
    &&& after.strata() == drawn_strata(before.config(), before.strata(), pieces)
}

/// The builder `after` is the builder `before` with one piece drawn.
pub open spec fn sink_piece(
    before: &CHwTVertexBufferBuilder<CD3DVertexXYZDUV2>,
    after: &CHwTVertexBufferBuilder<CD3DVertexXYZDUV2>,
    d: Drawn,
) -> bool {
    &&& after.same_setup(before)
    &&& after.strip() == before.strip() + piece_strip(before.config(), before.strata(), d)
    &&& after.lines() == before.lines() + piece_lines(before.config(), d)
    &&& after.strata() == piece_strata(before.config(), before.strata(), d)
}

/// Nothing drawn leaves the builder as it is.
pub proof fn lemma_sink_same(
    before: &CHwTVertexBufferBuilder<CD3DVertexXYZDUV2>,
    after: &CHwTVertexBufferBuilder<CD3DVertexXYZDUV2>,
)
    requires
        after.same_setup(before),
        after.strip() == before.strip(),
        after.lines() == before.lines(),
        after.strata() == before.strata(),
    ensures
        sink_drawn(before, after, Seq::empty()),
{
    assert(before.strip() + Seq::<CD3DVertexXYZDUV2>::empty() =~= before.strip());
    assert(before.lines() + Seq::<CD3DVertexXYZDUV2>::empty() =~= before.lines());
}

/// One piece drawn behind the others.
pub proof fn lemma_sink_push(
    a: &CHwTVertexBufferBuilder<CD3DVertexXYZDUV2>,
    b: &CHwTVertexBufferBuilder<CD3DVertexXYZDUV2>,
    c: &CHwTVertexBufferBuilder<CD3DVertexXYZDUV2>,
    pieces: Seq<Drawn>,
    d: Drawn,
)
    requires
        sink_drawn(a, b, pieces),
        sink_piece(b, c, d),
    ensures
        sink_drawn(a, c, pieces.push(d)),
{
    lemma_drawn_push(a.config(), a.strata(), pieces, d);
    let strip = drawn_strip(a.config(), a.strata(), pieces);
    let piece = piece_strip(a.config(), b.strata(), d);
    assert((a.strip() + strip) + piece =~= a.strip() + (strip + piece));
    let lines = drawn_lines(a.config(), pieces);
    assert((a.lines() + lines) + piece_lines(a.config(), d) =~= a.lines() + (lines + piece_lines(
        a.config(),
        d,
    )));
}

/// One more piece keeps the pieces true.
pub proof fn lemma_true_push(
    pieces: Seq<Drawn>,
    d: Drawn,
    edges: Seq<EdgeModel>,
    mode: MilFillMode,
    limit: int,
)
    requires
        pieces_true(pieces, edges, mode, limit),
        piece_true(d, edges, mode, limit),
    ensures
        pieces_true(pieces.push(d), edges, mode, limit),
{
    assert forall|i: int| 0 <= i < pieces.push(d).len() implies piece_true(
        #[trigger] pieces.push(d)[i],
        edges,
        mode,
        limit,
    ) by {
        if i < pieces.len() {
            assert(pieces.push(d)[i] == pieces[i]);
        }
    }
}


/// The two paths have the same crossings and windings to the left of every
/// sample.
pub open spec fn same_tally(a: Seq<EdgeModel>, b: Seq<EdgeModel>) -> bool {
    forall|y: int, x: int, winding: bool| #[trigger]
        tally(a, a.len() as int, y, x, winding) == tally(b, b.len() as int, y, x, winding)
}

/// Pieces that show a path by a fill rule show every path, and by every
/// rule, that has the same samples inside and the same crossings and
/// windings.
pub proof fn lemma_pieces_same(
    pieces: Seq<Drawn>,
    a: Seq<EdgeModel>,
    ma: MilFillMode,
    b: Seq<EdgeModel>,
    mb: MilFillMode,
    limit: int,
)
    requires
        pieces_true(pieces, a, ma, limit),
        same_inside(a, ma, b, mb),
        same_tally(a, b),
    ensures
        pieces_true(pieces, b, mb, limit),
{
    assert forall|i: int| 0 <= i < pieces.len() implies piece_true(
        #[trigger] pieces[i],
        b,
        mb,
        limit,
    ) by {
        assert(piece_true(pieces[i], a, ma, limit));
        match pieces[i] {
            Drawn::Scan { row, spans } => {
                let bottom = if limit < 8 * row + 8 {
                    limit
                } else {
                    8 * row + 8
                };
                assert forall|p: int| INT::MIN <= p < INT::MAX implies #[trigger] coverage_at(
                    spans,
                    p,
                ) == area_inside(b, mb, 8 * row, bottom, p) by {
                    lemma_area_same(a, ma, b, mb, 8 * row, bottom, p);
                }
            },
            Drawn::Trapezoids { top, bottom, sides } => {
                assert forall|v: int, x: int, winding: bool| top <= v < bottom implies #[trigger] tally(
                    b,
                    b.len() as int,
                    v,
                    x,
                    winding,
                ) == sides_tally(sides, sides.len() as int, v - top, x, winding) by {
                    assert(tally(a, a.len() as int, v, x, winding) == tally(
                        b,
                        b.len() as int,
                        v,
                        x,
                        winding,
                    ));
                    assert(tally(a, a.len() as int, v, x, winding) == sides_tally(
                        sides,
                        sides.len() as int,
                        v - top,
                        x,
                        winding,
                    ));
                }
            },
        }
    }
}


/// The winding fill of a path in which nothing is gone around twice is its
/// alternate fill: pieces that show the path by the one rule show it by
/// the other.
pub proof fn lemma_winding_fill_is_alternate_fill_of_path(
    pieces: Seq<Drawn>,
    path: Seq<EdgeModel>,
    limit: int,
)
    requires
        unit_windings(path),
        wound_once(path),
    ensures
        pieces_true(pieces, path, MilFillMode::Winding, limit) <==> pieces_true(
            pieces,
            path,
            MilFillMode::Alternate,
            limit,
        ),
{
    lemma_rules_agree(path);
    assert(same_tally(path, path));
    if pieces_true(pieces, path, MilFillMode::Winding, limit) {
        lemma_pieces_same(
            pieces,
            path,
            MilFillMode::Winding,
            path,
            MilFillMode::Alternate,
            limit,
        );
    }
    if pieces_true(pieces, path, MilFillMode::Alternate, limit) {
        assert(same_inside(path, MilFillMode::Alternate, path, MilFillMode::Winding));
        lemma_pieces_same(
            pieces,
            path,
            MilFillMode::Alternate,
            path,
            MilFillMode::Winding,
            limit,
        );
    }
}


/// Two edges without a scanline in front of a path leave its crossings and
/// windings as they are.
pub proof fn lemma_same_tally_behind(path: Seq<EdgeModel>)
    ensures
        same_tally(
            seq![crate::scanline::no_edge(), crate::scanline::no_edge()] + path,
            path,
        ),
{
    let all = seq![crate::scanline::no_edge(), crate::scanline::no_edge()] + path;
    assert forall|y: int, x: int, winding: bool| #[trigger]
        tally(all, all.len() as int, y, x, winding) == tally(
            path,
            path.len() as int,
            y,
            x,
            winding,
        ) by {
        crate::sample::lemma_tally_behind(path, path.len() as int, y, x, winding);
    }
}

/// The sides of a row of trapezoids have the fractions of edges: what
/// [`piece_true`] says of them.
pub open spec fn sides_placed(sides: Seq<EdgeModel>) -> bool {
    forall|i: int|
        0 <= i < sides.len() ==> dda_normal(
            (#[trigger] sides[i]).dda(),
            sides[i].error_up,
            sides[i].error_down,
        ) && sides[i].error_down <= INT::MAX
}

/// An edge has the fraction of an edge on every scanline further down.
pub proof fn lemma_side_placed(e: EdgeModel, steps: int)
    requires
        dda_normal(e.dda(), e.error_up, e.error_down),
        e.error_down <= INT::MAX,
    ensures
        fraction_ok(e.error, e.error_down),
        fraction_ok(side_on(e, steps).error, e.error_down),
{
    lemma_dda_closed_form(e.dda(), e.dx, e.error_up, e.error_down, steps as nat);
}

/// The vertices of the trapezoids of the first `j` pairs have the
/// fractions of their sides, and so has the strata state behind them.
pub proof fn lemma_pairs_placed(
    c: BuilderConfig,
    s: Strata,
    top: int,
    bottom: int,
    sides: Seq<EdgeModel>,
    j: int,
)
    requires
        strata_placed(s),
        sides_placed(sides),
        0 <= j,
        2 * j <= sides.len(),
    ensures
        vertices_placed(pairs_strip(c, s, top, bottom, sides, j)),
        strata_placed(pairs_strata(c, s, top, bottom, sides, j)),
    decreases j,
{
    if j > 0 {
        lemma_pairs_placed(c, s, top, bottom, sides, j - 1);
        let before = pairs_strata(c, s, top, bottom, sides, j - 1);
        let l = sides[2 * j - 2];
        let r = sides[2 * j - 1];
        lemma_side_placed(l, bottom - top);
        lemma_side_placed(r, bottom - top);
        lemma_patch_placed(
            c,
            before,
            top,
            bottom,
            true,
            min_int(l.x, side_on(l, bottom - top).x),
            side_min_error(l.x, l.error, side_on(l, bottom - top).x, side_on(l, bottom - top).error),
            l.error_down,
            max_int(r.x, side_on(r, bottom - top).x),
            side_max_error(r.x, r.error, side_on(r, bottom - top).x, side_on(r, bottom - top).error),
            r.error_down,
        );
        let z = pair_trapezoid(top, bottom, l, r);
        assert(trapezoid_placed(z));
        lemma_trapezoid_covered(c, z);
        let patch = pair_patch(c, before, top, bottom, l);
        lemma_placed_add(patch, trapezoid_strip(c, z));
        lemma_placed_add(
            pairs_strip(c, s, top, bottom, sides, j - 1),
            patch + trapezoid_strip(c, z),
        );
    }
}

/// The vertices of pieces that show a path have the fractions of edges,
/// and so has the strata state behind them.
pub proof fn lemma_drawn_placed(
    c: BuilderConfig,
    s: Strata,
    pieces: Seq<Drawn>,
    edges: Seq<EdgeModel>,
    mode: MilFillMode,
    limit: int,
)
    requires
        strata_placed(s),
        pieces_true(pieces, edges, mode, limit),
    ensures
        vertices_placed(drawn_strip(c, s, pieces)),
        strata_placed(drawn_strata(c, s, pieces)),
    decreases pieces.len(),
{
    if pieces.len() > 0 {
        let rest = pieces.drop_last();
        assert forall|i: int| 0 <= i < rest.len() implies piece_true(
            #[trigger] rest[i],
            edges,
            mode,
            limit,
        ) by {
            assert(rest[i] == pieces[i]);
        }
        lemma_drawn_placed(c, s, rest, edges, mode, limit);
        let before = drawn_strata(c, s, rest);
        let d = pieces.last();
        assert(piece_true(pieces[pieces.len() - 1], edges, mode, limit));
        match d {
            Drawn::Scan { row, spans } => {
                lemma_patch_placed(c, before, 8 * row, 8 * (row + 1), false, 0, 0, 1, 0, 0, 1);
                lemma_scan_strip_placed(c, spans, 0, row);
                lemma_placed_add(
                    prepared_patch(c, before, 8 * row, 8 * (row + 1), false, 0),
                    scan_strip(c, spans, 0, row),
                );
            },
            Drawn::Trapezoids { top, bottom, sides } => {
                assert(sides_placed(sides));
                lemma_pairs_placed(c, before, top, bottom, sides, sides.len() as int / 2);
            },
        }
        lemma_placed_add(drawn_strip(c, s, rest), piece_strip(c, before, d));
    }
}

} // verus!
