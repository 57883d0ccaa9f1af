use wpf_gpu_raster::aarasterizer::{CEdgeStore, CInitializeEdgesContext};
use wpf_gpu_raster::bezier::CMILBezier;
use wpf_gpu_raster::enumerate::{
    FixedPointPathEnumerate, SubpathEnd, TransformRasterizerPointsTo28_4, ValidatePathTypes,
    ValidateSubpath, ENUMERATE_BUFFER_NUMBER,
};
use wpf_gpu_raster::types::{
    MilAntiAliasMode, PathKind, PathPointTypeBezier, PathPointTypeCloseSubpath, PathPointTypeLine,
    PathPointTypeStart, POINT, RECT, S_OK, WGXERR_BADNUMBER,
};

const S: u8 = PathPointTypeStart;
const L: u8 = PathPointTypeLine;
const B: u8 = PathPointTypeBezier;
const C: u8 = PathPointTypeCloseSubpath;

fn valid(types: &[u8]) -> bool {
    ValidatePathTypes(types, types.len() as i32)
}

#[test]
fn path_tags_are_validated() {
    assert!(valid(&[]));
    assert!(valid(&[S, L]));
    assert!(valid(&[S, L, L, L | C]));
    assert!(valid(&[S, B, B, B]));
    assert!(valid(&[S, B, B, B | C, S, L]));
    assert!(valid(&[S, L, L | C, S, L]));
    assert!(valid(&[S, L, S, B, B, B, L]));
    // A line before any start.
    assert!(!valid(&[L]));
    assert!(!valid(&[L, S, L]));
    // The path ends after a start.
    assert!(!valid(&[S]));
    assert!(!valid(&[S, L, S]));
    // A start follows a start.
    assert!(!valid(&[S, S, L]));
    // The path ends before a multiple of three Bezier points.
    assert!(!valid(&[S, B, B]));
    assert!(!valid(&[S, B, B, L]));
    // A closed subpath is not followed by a start.
    assert!(!valid(&[S, L | C, L]));
    // An illegal kind.
    assert!(!valid(&[S, 2]));
}

#[test]
fn only_the_counted_tags_are_validated() {
    assert!(ValidatePathTypes(&[S, L, L, S], 3));
    assert!(!ValidatePathTypes(&[S, L, L, S], 4));
    assert!(ValidatePathTypes(&[S, L, L, S], 0));
}

#[test]
fn kind_strips_the_flags() {
    assert_eq!(PathKind(L | C), L);
    assert_eq!(PathKind(B | C | 0x10), B);
    assert_eq!(PathKind(C), S);
}

#[test]
fn subpaths_end_before_the_next_start() {
    let types = [S, L, L | C, S, B, B, B];
    assert_eq!(SubpathEnd(&types, 7, 0), 3);
    assert_eq!(SubpathEnd(&types, 7, 3), 7);
    assert_eq!(SubpathEnd(&types, 2, 0), 2);
    assert!(ValidateSubpath(&types, 0, 3));
    assert!(ValidateSubpath(&types, 3, 7));
    assert!(!ValidateSubpath(&types, 3, 6));
    assert!(!ValidateSubpath(&types, 1, 3));
}

#[test]
fn points_outside_the_working_range_are_bad_numbers() {
    let mut dest = Vec::new();
    let inside = [POINT { x: 1 << 23, y: -(1 << 23) }, POINT { x: 0, y: 7 }];
    assert_eq!(
        TransformRasterizerPointsTo28_4(&inside, 2, MilAntiAliasMode::EightByEight, &mut dest),
        S_OK
    );
    assert_eq!(dest, inside.to_vec());
    let outside = [POINT { x: 0, y: 0 }, POINT { x: (1 << 23) + 1, y: 0 }];
    assert_eq!(
        TransformRasterizerPointsTo28_4(&outside, 2, MilAntiAliasMode::EightByEight, &mut dest),
        WGXERR_BADNUMBER
    );
    assert_eq!(dest.len(), 2);
    // Only the counted points are looked at.
    assert_eq!(
        TransformRasterizerPointsTo28_4(&outside, 1, MilAntiAliasMode::EightByEight, &mut dest),
        S_OK
    );
    assert_eq!(dest.len(), 3);
    // Without anti-aliasing the range is 2^26.
    assert_eq!(
        TransformRasterizerPointsTo28_4(&outside, 2, MilAntiAliasMode::Aliased, &mut dest),
        S_OK
    );
    let far = [POINT { x: 0, y: -(1 << 26) - 1 }];
    assert_eq!(
        TransformRasterizerPointsTo28_4(&far, 1, MilAntiAliasMode::Aliased, &mut dest),
        WGXERR_BADNUMBER
    );
}

fn flatten_all(control: [POINT; 4], clip: Option<RECT>, batch: u32) -> (Vec<POINT>, usize) {
    let mut bezier = CMILBezier::new(&control, clip);
    let mut points = Vec::new();
    let mut calls = 0;
    let mut more = true;
    while more {
        let before = points.len();
        let count = bezier.Flatten(&mut points, batch, &mut more);
        assert_eq!(points.len(), before + count as usize);
        assert!(count >= 1 && count <= batch);
        calls += 1;
    }
    (points, calls)
}

#[test]
fn flat_curve_is_one_segment() {
    let control = [
        POINT { x: 0, y: 0 },
        POINT { x: 100, y: 100 },
        POINT { x: 200, y: 200 },
        POINT { x: 300, y: 300 },
    ];
    let (points, calls) = flatten_all(control, None, 8);
    assert_eq!(points, vec![POINT { x: 300, y: 300 }]);
    assert_eq!(calls, 1);
}

#[test]
fn curve_is_halved_until_flat() {
    // An arch of ten pixels: its apex is at (80, 120).
    let control = [
        POINT { x: 0, y: 0 },
        POINT { x: 0, y: 160 },
        POINT { x: 160, y: 160 },
        POINT { x: 160, y: 0 },
    ];
    let (points, _) = flatten_all(control, None, 1000);
    let n = points.len();
    assert!(n >= 4);
    assert_eq!(n % 2, 0);
    assert_eq!(points[n - 1], POINT { x: 160, y: 0 });
    assert_eq!(points[n / 2 - 1], POINT { x: 80, y: 120 });
    for w in points.windows(2) {
        assert!(w[0].x <= w[1].x);
    }
    for p in &points {
        assert!(0 <= p.x && p.x <= 160 && 0 <= p.y && p.y <= 160);
    }
    // One halving: the quarter points of the curve.
    assert!(points.contains(&POINT { x: 25, y: 90 }));
    assert!(points.contains(&POINT { x: 135, y: 90 }));
}

#[test]
fn flattening_comes_in_batches() {
    let control = [
        POINT { x: 0, y: 0 },
        POINT { x: 0, y: 1600 },
        POINT { x: 1600, y: 1600 },
        POINT { x: 1600, y: 0 },
    ];
    let (whole, _) = flatten_all(control, None, 100000);
    let (parts, calls) = flatten_all(control, None, 3);
    assert_eq!(whole, parts);
    assert_eq!(calls, (whole.len() + 2) / 3);
}

#[test]
fn curve_outside_the_clip_is_its_chord() {
    let control = [
        POINT { x: 0, y: 0 },
        POINT { x: 0, y: 1600 },
        POINT { x: 1600, y: 1600 },
        POINT { x: 1600, y: 0 },
    ];
    // Wholly to the left of the clip rectangle, and wholly above it.
    let right = Some(RECT { left: 3200, top: 0, right: 6400, bottom: 3200 });
    assert_eq!(flatten_all(control, right, 8).0, vec![POINT { x: 1600, y: 0 }]);
    let below = Some(RECT { left: 0, top: 3200, right: 6400, bottom: 6400 });
    assert_eq!(flatten_all(control, below, 8).0, vec![POINT { x: 1600, y: 0 }]);
    // Within the clip rectangle it is flattened.
    let around = Some(RECT { left: -100, top: -100, right: 6400, bottom: 6400 });
    assert!(flatten_all(control, around, 8).0.len() > 1);
}

fn enumerate(points: &[POINT], types: &[u8], clip: Option<RECT>) -> (i32, CInitializeEdgesContext) {
    let mut ctx = CInitializeEdgesContext {
        MaxY: i32::MIN,
        ClipRect: clip,
        Store: CEdgeStore::new(),
        AntiAliasMode: MilAntiAliasMode::EightByEight,
    };
    let hr = FixedPointPathEnumerate(points, types, points.len() as u32, &mut ctx);
    (hr, ctx)
}

#[test]
fn open_figure_is_closed() {
    // Two sides of a triangle; the third side is added.
    let points = [POINT { x: 0, y: 0 }, POINT { x: 160, y: 0 }, POINT { x: 160, y: 160 }];
    let (hr, ctx) = enumerate(&points, &[S, L, L], None);
    assert_eq!(hr, S_OK);
    // The top side is horizontal and gives no edge.
    assert_eq!(ctx.Store.StartEnumeration(), 2);
    assert_eq!(ctx.MaxY, (160 + 8) * 8 / 16);
}

#[test]
fn malformed_subpath_is_passed_over() {
    let points = [
        POINT { x: 999, y: 999 },
        POINT { x: 0, y: 0 },
        POINT { x: 0, y: 160 },
        POINT { x: 160, y: 160 },
    ];
    let (hr, ctx) = enumerate(&points, &[L, S, L, L], None);
    assert_eq!(hr, S_OK);
    assert_eq!(ctx.Store.StartEnumeration(), 2);
    // A path that ends on a start.
    let (hr, ctx) = enumerate(&points, &[S, L, L, S], None);
    assert_eq!(hr, S_OK);
    assert_eq!(ctx.Store.StartEnumeration(), 3);
}

#[test]
fn bad_number_adds_no_edge() {
    let points = [POINT { x: 0, y: 0 }, POINT { x: 0, y: 160 }, POINT { x: 1 << 24, y: 160 }];
    let (hr, ctx) = enumerate(&points, &[S, L, L], None);
    assert_eq!(hr, WGXERR_BADNUMBER);
    assert_eq!(ctx.Store.StartEnumeration(), 0);
    assert_eq!(ctx.MaxY, i32::MIN);
}

#[test]
fn long_runs_of_lines_are_handed_on_in_batches() {
    // A saw of 100 teeth: every line crosses scanlines, so that every
    // segment gives an edge, whatever the batches are.
    let mut points = vec![POINT { x: 0, y: 0 }];
    let mut types = vec![S];
    for i in 1..=200 {
        points.push(POINT { x: i * 16, y: if i % 2 == 1 { 160 } else { 0 } });
        types.push(L);
    }
    assert!(points.len() > 3 * ENUMERATE_BUFFER_NUMBER);
    let (hr, ctx) = enumerate(&points, &types, None);
    assert_eq!(hr, S_OK);
    // The 200 lines; the closing line from (3200, 0) to (0, 0) is horizontal.
    assert_eq!(ctx.Store.StartEnumeration(), 200);
}

#[test]
fn curves_are_flattened_into_edges() {
    let points = [
        POINT { x: 0, y: 0 },
        POINT { x: 0, y: 1600 },
        POINT { x: 1600, y: 1600 },
        POINT { x: 1600, y: 0 },
    ];
    let (hr, ctx) = enumerate(&points, &[S, B, B, B], None);
    assert_eq!(hr, S_OK);
    let (flat, _) = flatten_all(points, None, 1000);
    // No segment of this curve is horizontal but the closing line.
    let count = ctx.Store.StartEnumeration() as usize;
    assert!(count <= flat.len());
    assert!(count + 2 >= flat.len());
}
