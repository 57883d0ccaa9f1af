use wpf_gpu_raster::aarasterizer::{
    CEdge, CEdgeStore, CInitializeEdgesContext, ClipEdge, EdgeSlope, InitializeEdge,
    InitializeEdges, EDGE_STORE_ALLOCATION_NUMBER,
};
use wpf_gpu_raster::helpers::{FloorShift, FloorShift64, Int32x32To64, LowBits, LowBits64};
use wpf_gpu_raster::types::{
    MilAntiAliasMode, FAILED, MAKE_HRESULT, MAKE_WGXHR, MAKE_WGXHR_ERR, POINT, RECT, S_OK,
    WGXERR_BADNUMBER, WGXHR_CLIPPEDTOEMPTY, WGXHR_EMPTYFILL, WINCODEC_ERR_VALUEOVERFLOW,
};

fn edge_fields(e: &CEdge) -> (i32, i32, i32, i32, i32, i32, i32, i32) {
    (e.X, e.Dx, e.Error, e.ErrorUp, e.ErrorDown, e.StartY, e.EndY, e.WindingDirection)
}

#[test]
fn widening_multiply_does_not_overflow() {
    assert_eq!(Int32x32To64(i32::MAX, i32::MAX), 4611686014132420609);
    assert_eq!(Int32x32To64(i32::MIN, i32::MAX), -4611686016279904256);
    assert_eq!(Int32x32To64(-3, 7), -21);
}

#[test]
fn shifts_are_floor_divisions() {
    assert_eq!(FloorShift(-1, 3), -1);
    assert_eq!(FloorShift(-9, 3), -2);
    assert_eq!(FloorShift(15, 3), 1);
    assert_eq!(FloorShift(-17, 4), -2);
    assert_eq!(FloorShift(31, 4), 1);
    assert_eq!(FloorShift64(-257), -17);
    assert_eq!(LowBits(-1, 3), 7);
    assert_eq!(LowBits(-9, 3), 7);
    assert_eq!(LowBits(20, 4), 4);
    assert_eq!(LowBits(-17, 4), 15);
    assert_eq!(LowBits64(-257), 15);
}

#[test]
fn status_codes_pack_severity_facility_and_code() {
    assert_eq!(MAKE_HRESULT(0, 0x898, 1), WGXHR_CLIPPEDTOEMPTY);
    assert_eq!(MAKE_WGXHR(0, 2), WGXHR_EMPTYFILL);
    assert_eq!(MAKE_WGXHR_ERR(0x00A), WGXERR_BADNUMBER);
    assert_eq!(MAKE_HRESULT(1, 7, 0x216), WINCODEC_ERR_VALUEOVERFLOW);
    assert!(!FAILED(S_OK));
    assert!(FAILED(WGXERR_BADNUMBER));
    assert!(FAILED(WGXHR_EMPTYFILL));
}

#[test]
fn slope_is_floor_and_remainder() {
    assert_eq!(EdgeSlope(32, 64), (0, 32));
    assert_eq!(EdgeSlope(-32, 64), (-1, 32));
    assert_eq!(EdgeSlope(-64, 64), (-1, 0));
    assert_eq!(EdgeSlope(200, 64), (3, 8));
    assert_eq!(EdgeSlope(-200, 64), (-4, 56));
    assert_eq!(EdgeSlope(0, 1), (0, 0));
}

#[test]
fn edge_of_a_segment_drawn_downwards() {
    // From (1, 1.5) to (3, 5.5) in units of 1/16: x grows by half a unit
    // per unit of y. On scanline 2 the line is at x = 20/16, so X is 2.
    let e = InitializeEdge(POINT { x: 16, y: 24 }, POINT { x: 48, y: 88 }, i64::MIN / 32).unwrap();
    assert_eq!(edge_fields(&e), (2, 0, -49, 32, 64, 2, 6, 1));
}

#[test]
fn edge_of_a_segment_drawn_upwards() {
    let e = InitializeEdge(POINT { x: 48, y: 88 }, POINT { x: 16, y: 24 }, i64::MIN / 32).unwrap();
    assert_eq!(edge_fields(&e), (2, 0, -49, 32, 64, 2, 6, -1));
}

#[test]
fn edge_with_a_negative_slope() {
    let e = InitializeEdge(POINT { x: 48, y: 24 }, POINT { x: 16, y: 88 }, i64::MIN / 32).unwrap();
    assert_eq!(edge_fields(&e), (3, -1, -17, 32, 64, 2, 6, 1));
}

#[test]
fn segment_that_crosses_no_scanline_has_no_edge() {
    assert!(InitializeEdge(POINT { x: 0, y: 16 }, POINT { x: 100, y: 16 }, -1000).is_none());
    assert!(InitializeEdge(POINT { x: 0, y: 17 }, POINT { x: 5, y: 30 }, -1000).is_none());
    assert!(InitializeEdge(POINT { x: 0, y: 16 }, POINT { x: 5, y: 17 }, -1000).is_some());
}

#[test]
fn edge_is_clipped_to_the_clip_top() {
    // The same edge as above, begun on scanline 4: there the line is at
    // x = 36/16, so X is 3.
    let e = InitializeEdge(POINT { x: 16, y: 24 }, POINT { x: 48, y: 88 }, 4).unwrap();
    assert_eq!(edge_fields(&e), (3, 0, -49, 32, 64, 4, 6, 1));
}

#[test]
fn clip_edge_jumps_the_dda_forward() {
    let mut e = InitializeEdge(POINT { x: 16, y: 24 }, POINT { x: 48, y: 88 }, -1000).unwrap();
    ClipEdge(&mut e, 5, 32);
    assert_eq!(edge_fields(&e), (3, 0, -17, 32, 64, 5, 6, 1));
    let mut f = InitializeEdge(POINT { x: 48, y: 24 }, POINT { x: 16, y: 88 }, -1000).unwrap();
    ClipEdge(&mut f, 4, -32);
    // On scanline 4 the line is at x = 28/16.
    assert_eq!(edge_fields(&f), (2, -1, -17, 32, 64, 4, 6, 1));
}

fn context(clip: Option<RECT>, mode: MilAntiAliasMode) -> CInitializeEdgesContext {
    CInitializeEdgesContext { MaxY: i32::MIN, ClipRect: clip, Store: CEdgeStore::new(), AntiAliasMode: mode }
}

fn stored(store: &CEdgeStore) -> Vec<(i32, i32, i32, i32, i32, i32, i32, i32)> {
    let mut all = Vec::new();
    for b in 0..store.BufferCount() {
        for e in store.Enumerate(b).iter() {
            all.push(edge_fields(e));
        }
    }
    all
}

#[test]
fn rectangle_gives_two_vertical_edges() {
    // The square from pixel 10 to pixel 30, in 28.4 with integer pixel
    // centers; supersampled by 8 its sides stand at subpixel 80 and 240.
    let points = [
        POINT { x: 152, y: 152 },
        POINT { x: 152, y: 472 },
        POINT { x: 472, y: 472 },
        POINT { x: 472, y: 152 },
        POINT { x: 152, y: 152 },
    ];
    let mut ctx = context(None, MilAntiAliasMode::EightByEight);
    assert_eq!(InitializeEdges(&mut ctx, &points, 5), S_OK);
    assert_eq!(
        stored(&ctx.Store),
        vec![(80, 0, -1, 0, 2560, 80, 240, 1), (240, 0, -1, 0, 2560, 80, 240, -1)]
    );
    assert_eq!(ctx.MaxY, 240);
    assert_eq!(ctx.Store.StartEnumeration(), 2);
    // The caller's points are not changed.
    assert_eq!(points[1], POINT { x: 152, y: 472 });
}

#[test]
fn aliased_edges_are_not_supersampled() {
    let points = [POINT { x: 16, y: 24 }, POINT { x: 48, y: 88 }];
    let mut ctx = context(None, MilAntiAliasMode::Aliased);
    assert_eq!(InitializeEdges(&mut ctx, &points, 2), S_OK);
    assert_eq!(stored(&ctx.Store), vec![(2, 0, -49, 32, 64, 2, 6, 1)]);
    assert_eq!(ctx.MaxY, 6);
}

#[test]
fn edges_outside_the_clip_in_y_are_rejected() {
    let clip = Some(RECT { left: 0, top: 16 * 10, right: 16 * 100, bottom: 16 * 20 });
    // Wholly above, wholly below, and crossing the top of the clip.
    let above = [POINT { x: 16, y: 16 }, POINT { x: 32, y: 16 * 9 }];
    let below = [POINT { x: 16, y: 16 * 20 }, POINT { x: 32, y: 16 * 30 }];
    let crossing = [POINT { x: 16, y: 16 * 5 }, POINT { x: 16, y: 16 * 15 }];
    let mut ctx = context(clip, MilAntiAliasMode::Aliased);
    assert_eq!(InitializeEdges(&mut ctx, &above, 2), S_OK);
    assert_eq!(InitializeEdges(&mut ctx, &below, 2), S_OK);
    assert_eq!(stored(&ctx.Store), vec![]);
    assert_eq!(InitializeEdges(&mut ctx, &crossing, 2), S_OK);
    // Clipped to the first scanline of the clip rectangle.
    assert_eq!(stored(&ctx.Store), vec![(1, 0, -1, 0, 160, 10, 15, 1)]);
}

#[test]
fn edges_left_of_the_clip_are_merged() {
    let clip = Some(RECT { left: 16 * 50, top: 0, right: 16 * 100, bottom: 16 * 100 });
    // Three vertices to the left of the clip: the middle one goes, and one
    // edge runs from the first to the third.
    let points = [
        POINT { x: 16, y: 16 },
        POINT { x: 16 * 30, y: 16 * 5 },
        POINT { x: 16, y: 16 * 9 },
    ];
    let mut ctx = context(clip, MilAntiAliasMode::Aliased);
    assert_eq!(InitializeEdges(&mut ctx, &points, 3), S_OK);
    assert_eq!(stored(&ctx.Store), vec![(1, 0, -1, 0, 128, 1, 9, 1)]);
    // Without a clip rectangle both edges are there.
    let mut all = context(None, MilAntiAliasMode::Aliased);
    assert_eq!(InitializeEdges(&mut all, &points, 3), S_OK);
    assert_eq!(all.Store.StartEnumeration(), 2);
}

#[test]
fn store_grows_by_buffers() {
    let mut store = CEdgeStore::new();
    let n = EDGE_STORE_ALLOCATION_NUMBER * 2 + 5;
    for i in 0..n {
        let p = POINT { x: i as i32 * 16, y: 0 };
        let q = POINT { x: i as i32 * 16, y: 160 };
        assert_eq!(store.AddEdge(InitializeEdge(p, q, -1000).unwrap()), S_OK);
    }
    assert_eq!(store.StartEnumeration() as usize, n);
    assert_eq!(store.BufferCount(), 3);
    assert_eq!(store.StartAddBuffer() as usize, EDGE_STORE_ALLOCATION_NUMBER - 5);
    let all = stored(&store);
    assert_eq!(all.len(), n);
    for i in 0..n {
        assert_eq!(all[i].0, i as i32);
    }
}
