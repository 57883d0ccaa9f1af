use typed_arena::Arena;
use wpf_gpu_raster::aacoverage::{
    CCoverageBuffer, CCoverageInterval, CCoverageIntervalBuffer, COVERAGE_TAIL,
    INTERVAL_BUFFER_NUMBER,
};
use wpf_gpu_raster::aarasterizer::{CEdge, CEdgeStore, InitializeEdge};
use wpf_gpu_raster::activelist::{
    AdvanceDDAAndUpdateActiveEdgeList, CEdgeTable, InsertNewEdges,
};
use wpf_gpu_raster::helpers::FloorShift;
use wpf_gpu_raster::inactive::InitializeInactiveArray;
use wpf_gpu_raster::types::{POINT, S_OK};

fn list(buffer: &CCoverageBuffer) -> Vec<(i32, i32)> {
    buffer.GetIntervals().iter().map(|i| (i.m_nPixelX, i.m_nCoverage)).collect()
}

fn with_sentinels(spans: &[(i32, i32)]) -> Vec<(i32, i32)> {
    let mut v = vec![(i32::MIN, 0)];
    v.extend_from_slice(spans);
    v.push((i32::MAX, COVERAGE_TAIL));
    v
}

/// The part of pixel `p` that the subpixel interval from `l` to `r` covers.
fn overlap(l: i32, r: i32, p: i32) -> i32 {
    let lo = if l > 8 * p { l } else { 8 * p };
    let hi = if r < 8 * p + 8 { r } else { 8 * p + 8 };
    if hi > lo {
        hi - lo
    } else {
        0
    }
}

fn coverage_at(spans: &[(i32, i32)], p: i32) -> i32 {
    let mut c = 0;
    for s in spans {
        if s.0 <= p {
            c = s.1;
        }
    }
    c
}

fn check_list(spans: &[(i32, i32)]) {
    assert_eq!(spans[0], (i32::MIN, 0));
    assert_eq!(spans[spans.len() - 1], (i32::MAX, COVERAGE_TAIL));
    for w in spans.windows(2) {
        assert!(w[0].0 < w[1].0);
    }
    for s in &spans[1..spans.len() - 1] {
        assert!(0 <= s.1 && s.1 <= 64);
    }
}

#[test]
fn buffer_begins_with_the_two_sentinels() {
    let arena = Arena::new();
    let buffer = CCoverageBuffer::new(&arena);
    assert_eq!(list(&buffer), with_sentinels(&[]));
    assert_eq!(COVERAGE_TAIL as u32, 0xdeadbeef);
    assert_eq!(CCoverageInterval::default(), CCoverageInterval { m_pNext: 0, m_nPixelX: 0, m_nCoverage: 0 });
    assert_eq!(CCoverageIntervalBuffer::new().m_interval.len(), INTERVAL_BUFFER_NUMBER);
}

#[test]
fn interval_over_several_pixels() {
    // From 0.5 to 3.5 pixels.
    let arena = Arena::new();
    let mut buffer = CCoverageBuffer::new(&arena);
    assert_eq!(buffer.AddInterval(4, 28), S_OK);
    assert_eq!(list(&buffer), with_sentinels(&[(0, 4), (1, 8), (3, 4), (4, 0)]));
    assert_eq!(buffer.AddInterval(4, 28), S_OK);
    assert_eq!(list(&buffer), with_sentinels(&[(0, 8), (1, 16), (3, 8), (4, 0)]));
}

#[test]
fn interval_within_one_pixel() {
    let arena = Arena::new();
    let mut buffer = CCoverageBuffer::new(&arena);
    assert_eq!(buffer.AddInterval(9, 12), S_OK);
    assert_eq!(list(&buffer), with_sentinels(&[(1, 3), (2, 0)]));
    assert_eq!(buffer.AddInterval(-8, -1), S_OK);
    assert_eq!(list(&buffer), with_sentinels(&[(-1, 7), (0, 0), (1, 3), (2, 0)]));
}

#[test]
fn interval_of_whole_pixels() {
    let arena = Arena::new();
    let mut buffer = CCoverageBuffer::new(&arena);
    assert_eq!(buffer.AddInterval(8, 24), S_OK);
    assert_eq!(list(&buffer), with_sentinels(&[(1, 8), (3, 0)]));
    // A second interval that ends inside the first.
    assert_eq!(buffer.AddInterval(0, 12), S_OK);
    assert_eq!(list(&buffer), with_sentinels(&[(0, 8), (1, 12), (2, 8), (3, 0)]));
}

#[test]
fn every_pixel_gains_what_the_interval_covers_of_it() {
    let arena = Arena::new();
    let mut buffer = CCoverageBuffer::new(&arena);
    let added = [(3, 50), (-20, 5), (17, 18), (40, 41), (0, 64), (-5, 70), (24, 32), (31, 33)];
    let mut expected = vec![0; 40];
    for (l, r) in added {
        assert_eq!(buffer.AddInterval(l, r), S_OK);
        for p in -20..20 {
            expected[(p + 20) as usize] += overlap(l, r, p);
        }
        let spans = list(&buffer);
        check_list(&spans);
        for p in -20..20 {
            assert_eq!(coverage_at(&spans, p), expected[(p + 20) as usize]);
        }
    }
}

#[test]
fn reset_keeps_the_sentinels_only() {
    let arena = Arena::new();
    let mut buffer = CCoverageBuffer::new(&arena);
    assert_eq!(buffer.AddInterval(4, 28), S_OK);
    buffer.Reset();
    assert_eq!(list(&buffer), with_sentinels(&[]));
    assert_eq!(buffer.AddInterval(9, 12), S_OK);
    assert_eq!(list(&buffer), with_sentinels(&[(1, 3), (2, 0)]));
    buffer.Destroy();
    assert_eq!(list(&buffer), with_sentinels(&[]));
    buffer.Initialize();
    assert_eq!(list(&buffer), with_sentinels(&[]));
}

#[test]
fn buffer_grows_into_the_arena() {
    let arena = Arena::new();
    let mut buffer = CCoverageBuffer::new(&arena);
    let n = 10 * INTERVAL_BUFFER_NUMBER as i32;
    for i in 0..n {
        assert_eq!(buffer.AddInterval(16 * i + 2, 16 * i + 8), S_OK);
    }
    let spans = list(&buffer);
    assert_eq!(spans.len(), 2 * n as usize + 2);
    check_list(&spans);
    for i in 0..n {
        assert_eq!(spans[2 * i as usize + 1], (2 * i, 6));
        assert_eq!(spans[2 * i as usize + 2], (2 * i + 1, 0));
    }
    assert!(arena.len() >= 10);
    // The buffers are used again after a reset, and none is taken anew.
    let taken = arena.len();
    buffer.Reset();
    for i in 0..n {
        assert_eq!(buffer.AddInterval(16 * i, 16 * i + 8), S_OK);
    }
    assert_eq!(arena.len(), taken);
    let again = list(&buffer);
    assert_eq!(again.len(), 2 * n as usize + 2);
    for i in 0..n {
        assert_eq!(again[2 * i as usize + 1], (2 * i, 8));
    }
}

fn edge(x0: i32, y0: i32, x1: i32, y1: i32) -> CEdge {
    InitializeEdge(POINT { x: x0, y: y0 }, POINT { x: x1, y: y1 }, -100000).unwrap()
}

/// The active list of the edges on their common first scanline.
fn active(edges: &[CEdge]) -> (CEdgeTable, i32) {
    let mut store = CEdgeStore::new();
    for e in edges {
        assert_eq!(store.AddEdge(*e), S_OK);
    }
    let mut table = CEdgeTable::new();
    let mut inactive = Vec::new();
    let top = InitializeInactiveArray(&store, &mut inactive, edges.len() as u32, &mut table);
    let mut pos = 1;
    let mut next = 0;
    InsertNewEdges(&mut table, top, &inactive, &mut pos, &mut next);
    assert_eq!(next, i32::MAX);
    (table, top)
}

/// Vertical edges at the given subpixel x, drawn downwards (`+1`) or
/// upwards (`-1`).
fn verticals(xs: &[(i32, i32)]) -> Vec<CEdge> {
    xs.iter()
        .map(|(x, w)| {
            if *w > 0 {
                edge(16 * x, 0, 16 * x, 160)
            } else {
                edge(16 * x, 160, 16 * x, 0)
            }
        })
        .collect()
}

#[test]
fn alternate_fill_fills_between_the_edges_of_a_pair() {
    let (table, y) = active(&verticals(&[(4, 1), (28, -1), (40, 1), (44, -1)]));
    let arena = Arena::new();
    let mut buffer = CCoverageBuffer::new(&arena);
    assert_eq!(buffer.FillEdgesAlternating(&table, y), S_OK);
    assert_eq!(list(&buffer), with_sentinels(&[(0, 4), (1, 8), (3, 4), (4, 0), (5, 4), (6, 0)]));
}

#[test]
fn alternate_fill_skips_empty_pairs() {
    // The pair at 12 is empty; the pairs from 16 to 20 and from 20 to 30
    // are added as one interval.
    let (table, y) =
        active(&verticals(&[(12, 1), (12, -1), (16, 1), (20, -1), (20, 1), (30, -1)]));
    let arena = Arena::new();
    let mut buffer = CCoverageBuffer::new(&arena);
    assert_eq!(buffer.FillEdgesAlternating(&table, y), S_OK);
    assert_eq!(list(&buffer), with_sentinels(&[(2, 8), (3, 6), (4, 0)]));
}

#[test]
fn winding_fill_fills_where_the_winding_number_is_not_zero() {
    // Two nested shapes that are drawn in the same direction: the winding
    // number is 1, 2, 1 and 0.
    let nested = verticals(&[(4, 1), (10, 1), (20, -1), (28, -1)]);
    let (table, y) = active(&nested);
    let arena = Arena::new();
    let mut winding = CCoverageBuffer::new(&arena);
    assert_eq!(winding.FillEdgesWinding(&table, y), S_OK);
    assert_eq!(list(&winding), with_sentinels(&[(0, 4), (1, 8), (3, 4), (4, 0)]));
    // By the alternate rule the inner shape is a hole.
    let mut alternate = CCoverageBuffer::new(&arena);
    assert_eq!(alternate.FillEdgesAlternating(&table, y), S_OK);
    assert_eq!(
        list(&alternate),
        with_sentinels(&[(0, 4), (1, 2), (2, 4), (3, 4), (4, 0)])
    );
}

#[test]
fn winding_fill_is_alternate_fill_where_shapes_do_not_overlap() {
    let apart = verticals(&[(4, 1), (28, -1), (28, -1), (50, 1), (70, 1), (71, -1)]);
    let (table, y) = active(&apart);
    let arena = Arena::new();
    let mut winding = CCoverageBuffer::new(&arena);
    let mut alternate = CCoverageBuffer::new(&arena);
    assert_eq!(winding.FillEdgesWinding(&table, y), S_OK);
    assert_eq!(alternate.FillEdgesAlternating(&table, y), S_OK);
    assert_eq!(list(&winding), list(&alternate));
    assert_eq!(
        list(&winding),
        with_sentinels(&[(0, 4), (1, 8), (6, 2), (7, 0), (8, 1), (9, 0)])
    );
}

#[test]
fn eight_scanlines_fill_a_pixel_row() {
    // A slanted pair: one pixel to the right over eight scanlines.
    let (mut table, top) = active(&[edge(0, 0, 128, 128), edge(320, 128, 192, 0)]);
    let arena = Arena::new();
    let mut buffer = CCoverageBuffer::new(&arena);
    let mut expected = vec![0; 5];
    for y in top..top + 8 {
        if y > top {
            AdvanceDDAAndUpdateActiveEdgeList(y, &mut table);
        }
        // On scanline y the left edge is at x = y, the right at 12 + y.
        for p in 0..5 {
            expected[p as usize] += overlap(y, 12 + y, p);
        }
        assert_eq!(buffer.FillEdgesAlternating(&table, y), S_OK);
        let spans = list(&buffer);
        check_list(&spans);
        for p in 0..5 {
            assert_eq!(coverage_at(&spans, p), expected[p as usize]);
        }
    }
    // 8 + 7 + .. + 1; 4 + 5 + 6 + 7 + 4 * 8; 1 + 2 + 3.
    assert_eq!(expected, vec![36, 54, 6, 0, 0]);
    assert_eq!(FloorShift(top + 7, 3), 0);
}

#[test]
fn list_is_cut_where_the_intervals_begin_and_end() {
    let arena = Arena::new();
    let mut buffer = CCoverageBuffer::new(&arena);
    let added = [(3, 50), (-20, 5), (17, 18), (40, 41), (0, 64), (-5, 70), (24, 32), (31, 33)];
    let mut cuts = std::collections::BTreeSet::new();
    cuts.insert(i32::MIN);
    cuts.insert(i32::MAX);
    for (l, r) in added {
        assert_eq!(buffer.AddInterval(l, r), S_OK);
        let (left, right) = (l.div_euclid(8), r.div_euclid(8));
        cuts.insert(left);
        if l.rem_euclid(8) != 0 || left == right {
            cuts.insert(left + 1);
        }
        if left < right {
            cuts.insert(right);
            if r.rem_euclid(8) != 0 {
                cuts.insert(right + 1);
            }
        }
        let begins: Vec<i32> = list(&buffer).iter().map(|s| s.0).collect();
        assert_eq!(begins, cuts.iter().copied().collect::<Vec<i32>>());
    }
}

#[test]
fn alternate_fill_of_an_empty_pair_and_a_pair() {
    let (table, y) = active(&verticals(&[(3, 1), (3, -1), (8, 1), (24, -1)]));
    let arena = Arena::new();
    let mut buffer = CCoverageBuffer::new(&arena);
    assert_eq!(buffer.FillEdgesAlternating(&table, y), S_OK);
    // The empty pair adds no interval: the list is cut at the pixels of 8
    // and of 24 only.
    assert_eq!(list(&buffer), with_sentinels(&[(1, 8), (3, 0)]));
}

#[test]
fn winding_fill_of_nested_shapes_is_one_span() {
    let (table, y) = active(&verticals(&[(0, 1), (8, 1), (16, -1), (24, -1)]));
    let arena = Arena::new();
    let mut winding = CCoverageBuffer::new(&arena);
    assert_eq!(winding.FillEdgesWinding(&table, y), S_OK);
    assert_eq!(list(&winding), with_sentinels(&[(0, 8), (3, 0)]));
    // By the alternate rule the pixel between the inner edges stays empty.
    let mut alternate = CCoverageBuffer::new(&arena);
    assert_eq!(alternate.FillEdgesAlternating(&table, y), S_OK);
    assert_eq!(list(&alternate), with_sentinels(&[(0, 8), (1, 0), (2, 8), (3, 0)]));
}
