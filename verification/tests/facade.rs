use wpf_gpu_raster::{FillMode, OutputVertex, PathBuilder};

/// 28.4 device coordinate of a pixel coordinate with half-pixel centers.
fn fx(pixels: i32) -> i32 {
    pixels * 16 - 8
}

#[test]
fn rectangle_is_one_trapezoid() {
    let mut p = PathBuilder::new();
    p.move_to(fx(10), fx(10));
    p.line_to(fx(10), fx(30));
    p.line_to(fx(30), fx(30));
    p.line_to(fx(30), fx(10));
    p.close();
    let result = p.rasterize_to_tri_strip(0, 0, 100, 100);
    assert_eq!(result.len(), 10);
    assert_eq!(
        result[0],
        OutputVertex { x: 76, y: 80, coverage: 0, x_delta: -4, x_error: -1, x_error_down: 2560, x_dx: 0, x_error_up: 0 }
    );
    assert_eq!(
        result[1],
        OutputVertex { x: 76, y: 80, coverage: 0, x_delta: -4, x_error: -1, x_error_down: 2560, x_dx: 0, x_error_up: 0 }
    );
    assert_eq!(
        result[2],
        OutputVertex { x: 76, y: 240, coverage: 0, x_delta: -4, x_error: -1, x_error_down: 2560, x_dx: 0, x_error_up: 0 }
    );
    assert_eq!(
        result[3],
        OutputVertex { x: 84, y: 80, coverage: 64, x_delta: 4, x_error: -1, x_error_down: 2560, x_dx: 0, x_error_up: 0 }
    );
    assert_eq!(
        result[4],
        OutputVertex { x: 84, y: 240, coverage: 64, x_delta: 4, x_error: -1, x_error_down: 2560, x_dx: 0, x_error_up: 0 }
    );
    assert_eq!(
        result[5],
        OutputVertex { x: 236, y: 80, coverage: 64, x_delta: -4, x_error: -1, x_error_down: 2560, x_dx: 0, x_error_up: 0 }
    );
    assert_eq!(
        result[6],
        OutputVertex { x: 236, y: 240, coverage: 64, x_delta: -4, x_error: -1, x_error_down: 2560, x_dx: 0, x_error_up: 0 }
    );
    assert_eq!(
        result[7],
        OutputVertex { x: 244, y: 80, coverage: 0, x_delta: 4, x_error: -1, x_error_down: 2560, x_dx: 0, x_error_up: 0 }
    );
    assert_eq!(
        result[8],
        OutputVertex { x: 244, y: 240, coverage: 0, x_delta: 4, x_error: -1, x_error_down: 2560, x_dx: 0, x_error_up: 0 }
    );
    assert_eq!(
        result[9],
        OutputVertex { x: 244, y: 240, coverage: 0, x_delta: 4, x_error: -1, x_error_down: 2560, x_dx: 0, x_error_up: 0 }
    );
}

#[test]
fn fill_mode_is_observable() {
    let mut p = PathBuilder::new();
    p.move_to(fx(10), fx(10));
    p.line_to(fx(40), fx(10));
    p.line_to(fx(40), fx(40));
    p.line_to(fx(10), fx(40));
    p.close();
    p.move_to(fx(15), fx(15));
    p.line_to(fx(35), fx(15));
    p.line_to(fx(35), fx(35));
    p.line_to(fx(15), fx(35));
    p.close();
    let hole = p.rasterize_to_tri_strip(0, 0, 100, 100);
    p.set_fill_mode(FillMode::Winding);
    let solid = p.rasterize_to_tri_strip(0, 0, 100, 100);
    assert!(!hole.is_empty());
    assert!(!solid.is_empty());
    assert_ne!(hole, solid);
}

use typed_arena::Arena;
use wpf_gpu_raster::hwrasterizer::{CHwRasterizer, E_FAIL};
use wpf_gpu_raster::hwvertexbuffer::{CD3DVertexXYZDUV2, CHwVertexBufferBuilder};
use wpf_gpu_raster::rasterize_to_tri_strip;
use wpf_gpu_raster::types::{
    CD3DDeviceLevel1, CMILSurfaceRect, MilFillMode, MilPointAndSizeL, MilVertexFormatAttribute,
    PathPointTypeBezier, PathPointTypeCloseSubpath, PathPointTypeLine, PathPointTypeStart, POINT,
    S_OK, WGXERR_BADNUMBER,
};

fn rectangle(builder: &mut PathBuilder, left: i32, top: i32, right: i32, bottom: i32) {
    builder.move_to(fx(left), fx(top));
    builder.line_to(fx(right), fx(top));
    builder.line_to(fx(right), fx(bottom));
    builder.line_to(fx(left), fx(bottom));
    builder.close();
}

/// The coverage of every pixel of a strip of scans, each scan a train of
/// rectangles of one pixel height.
fn pixels(strip: &[(i64, i64, i32)], width: usize, height: usize) -> Vec<Vec<i32>> {
    let mut image = vec![vec![0; width]; height];
    for q in strip.chunks(6) {
        assert_eq!(q[0], q[1]);
        assert_eq!(q[4], q[5]);
        let (x0, y0, a) = q[0];
        let (x1, y1, _) = q[5];
        assert_eq!(y1 - y0, 8);
        assert_eq!(x0 % 8, 0);
        assert_eq!(y0 % 8, 0);
        for x in x0 / 8..x1 / 8 {
            image[(y0 / 8) as usize][x as usize] += a;
        }
    }
    image
}

/// Rasterizes without the trapezoid fast path: scans only.
fn scans(points: &[POINT], types: &[u8], fill_mode: MilFillMode) -> (i32, Vec<(i64, i64, i32)>) {
    let arena = Arena::new();
    let mut rasterizer = CHwRasterizer::new(&arena);
    rasterizer.m_fUseTrapezoids = false;
    let mut device = CD3DDeviceLevel1::new();
    device.clipRect = MilPointAndSizeL { X: 0, Y: 0, Width: 100, Height: 100 };
    rasterizer.Setup(&device, fill_mode);
    let mut format = 0;
    rasterizer.GetPerVertexDataType(&mut format);
    assert_eq!(format, 1);
    let mut sink: CHwVertexBufferBuilder = CHwVertexBufferBuilder::Create(
        format,
        format,
        MilVertexFormatAttribute::MILVFAttrDiffuse,
        &device,
    );
    sink.SetForceTriangles(true);
    sink.BeginBuilding(&device);
    let hr = rasterizer.SendGeometry(&mut sink, points, types);
    let strip: Vec<CD3DVertexXYZDUV2> = sink.m_pVB.m_rgVerticesTriStrip.clone();
    (hr, strip.iter().map(|v| (v.X, v.Y, v.Diffuse)).collect())
}

fn polygon(corners: &[(i32, i32)]) -> (Vec<POINT>, Vec<u8>) {
    let points: Vec<POINT> = corners.iter().map(|(x, y)| POINT { x: *x, y: *y }).collect();
    let mut types = vec![PathPointTypeLine; corners.len()];
    types[0] = PathPointTypeStart;
    let last = types.len() - 1;
    types[last] |= PathPointTypeCloseSubpath;
    (points, types)
}

#[test]
fn path_elements_are_collected() {
    let mut p = PathBuilder::new();
    // A line without a start only sets the start.
    p.line_to(1, 2);
    assert_eq!(p.points.len(), 0);
    p.line_to(3, 4);
    assert_eq!(p.points, vec![POINT { x: 1, y: 2 }, POINT { x: 3, y: 4 }]);
    assert_eq!(p.types, vec![PathPointTypeStart, PathPointTypeLine]);
    p.curve_to(5, 6, 7, 8, 9, 10);
    assert_eq!(p.points.len(), 5);
    assert_eq!(p.types[2..].to_vec(), vec![PathPointTypeBezier; 3]);
    p.close();
    assert_eq!(p.types[4], PathPointTypeBezier | PathPointTypeCloseSubpath);
    // A curve without a start begins at its first control point.
    p.curve_to(20, 21, 22, 23, 24, 25);
    assert_eq!(p.points.len(), 9);
    assert_eq!(p.points[5], POINT { x: 20, y: 21 });
    assert_eq!(p.types[5], PathPointTypeStart);
    // A start that nothing follows is not emitted.
    p.move_to(50, 50);
    p.move_to(60, 60);
    assert_eq!(p.points.len(), 9);
    p.line_to(70, 70);
    assert_eq!(p.points[9..].to_vec(), vec![POINT { x: 60, y: 60 }, POINT { x: 70, y: 70 }]);
}

#[test]
fn quadratic_curve_is_promoted_to_a_cubic() {
    let mut p = PathBuilder::new();
    p.move_to(0, 30);
    p.quad_to(30, 60, 90, -30);
    assert_eq!(
        p.points,
        vec![
            POINT { x: 0, y: 30 },
            POINT { x: 20, y: 50 },
            POINT { x: 50, y: 30 },
            POINT { x: 90, y: -30 }
        ]
    );
    assert_eq!(wpf_gpu_raster::TwoThirds(0, -4), -3);
    assert_eq!(wpf_gpu_raster::TwoThirds(5, 5), 5);
    assert_eq!(wpf_gpu_raster::TwoThirds(i32::MIN, i32::MAX), 715827882);
}

#[test]
fn path_without_geometry_draws_nothing() {
    let mut p = PathBuilder::new();
    assert_eq!(p.rasterize_to_tri_strip(0, 0, 100, 100).len(), 0);
    p.line_to(fx(10), fx(10));
    p.move_to(fx(0), fx(0));
    assert_eq!(p.rasterize_to_tri_strip(0, 0, 100, 100).len(), 0);
}

#[test]
fn shape_without_width_draws_nothing() {
    let mut p = PathBuilder::new();
    p.curve_to(fx(0), fx(0), fx(0), fx(0), fx(0), fx(32));
    p.close();
    p.curve_to(fx(0), fx(0), fx(0), fx(0), fx(0), fx(32));
    assert_eq!(p.rasterize_to_tri_strip(0, 0, 100, 100).len(), 0);
}

#[test]
fn point_out_of_range_draws_nothing() {
    let mut p = PathBuilder::new();
    rectangle(&mut p, 10, 10, 30, 30);
    p.move_to(0, 0);
    p.line_to((1 << 23) + 1, 0);
    assert_eq!(p.rasterize_to_tri_strip(0, 0, 100, 100).len(), 0);
    let (points, types) = polygon(&[(0, 0), (i32::MAX, 0), (0, 160)]);
    assert_eq!(scans(&points, &types, MilFillMode::Alternate), (WGXERR_BADNUMBER, vec![]));
    // Points and tags that do not go together.
    assert_eq!(scans(&points, &types[..2], MilFillMode::Alternate), (E_FAIL, vec![]));
}

#[test]
fn rectangle_without_the_fast_path_is_scans() {
    let (points, types) = polygon(&[(152, 152), (152, 472), (472, 472), (472, 152)]);
    let (hr, strip) = scans(&points, &types, MilFillMode::Alternate);
    assert_eq!(hr, S_OK);
    // Twenty rows of one span each.
    assert_eq!(strip.len(), 20 * 6);
    let image = pixels(&strip, 40, 40);
    for y in 0..40 {
        for x in 0..40 {
            let inside = 10 <= x && x < 30 && 10 <= y && y < 30;
            assert_eq!(image[y][x], if inside { 64 } else { 0 });
        }
    }
}

#[test]
fn edges_between_pixels_give_partial_coverage() {
    // From 10.25 to 12.5 pixels wide, from 3.5 to 5.125 pixels high.
    let l = 10 * 16 + 4 - 8;
    let r = 12 * 16 + 8 - 8;
    let t = 3 * 16 + 8 - 8;
    let b = 5 * 16 + 2 - 8;
    let (points, types) = polygon(&[(l, t), (r, t), (r, b), (l, b)]);
    let (hr, strip) = scans(&points, &types, MilFillMode::Alternate);
    assert_eq!(hr, S_OK);
    let image = pixels(&strip, 20, 10);
    // Columns: 3/4 of pixel 10, pixel 11, 1/2 of pixel 12. Rows: 1/2 of
    // row 3, row 4, 1/8 of row 5.
    assert_eq!(image[3][10..13].to_vec(), vec![24, 32, 16]);
    assert_eq!(image[4][10..13].to_vec(), vec![48, 64, 32]);
    assert_eq!(image[5][10..13].to_vec(), vec![6, 8, 4]);
    let total: i32 = image.iter().map(|row| row.iter().sum::<i32>()).sum();
    assert_eq!(total, 24 + 32 + 16 + 48 + 64 + 32 + 6 + 8 + 4);
    // The last scanline is output though it is not complete.
    assert_eq!(strip.len(), 9 * 6);
}

#[test]
fn triangle_covers_half_of_its_square() {
    let (points, types) = polygon(&[(-8, -8), (16 * 16 - 8, -8), (16 * 16 - 8, 16 * 16 - 8)]);
    let (hr, strip) = scans(&points, &types, MilFillMode::Alternate);
    assert_eq!(hr, S_OK);
    let image = pixels(&strip, 16, 16);
    for y in 0..16 {
        for x in 0..16 {
            let expected = if x > y {
                64
            } else if x == y {
                // On the s-th subpixel scanline of the pixel the edge stands
                // at subpixel s, and the 8 - s subpixels from there on are
                // inside: 8 + 7 + .. + 1.
                36
            } else {
                0
            };
            assert_eq!(image[y][x], expected);
        }
    }
    // Run after run gives the same vertices.
    assert_eq!(scans(&points, &types, MilFillMode::Alternate).1, strip);
}

#[test]
fn vertex_on_an_edge_changes_no_coverage() {
    let (points, types) = polygon(&[(10, 20), (330, 660), (650, 20)]);
    // The same triangle with a vertex in the middle of its left side.
    let (more, more_types) = polygon(&[(10, 20), (170, 340), (330, 660), (650, 20)]);
    let plain = scans(&points, &types, MilFillMode::Alternate);
    let split = scans(&more, &more_types, MilFillMode::Alternate);
    assert_eq!(plain.0, S_OK);
    assert!(plain.1.len() > 0);
    assert_eq!(plain, split);
}

#[test]
fn vertex_on_an_edge_divides_a_trapezoid() {
    let mut plain = PathBuilder::new();
    rectangle(&mut plain, 10, 10, 30, 30);
    let mut split = PathBuilder::new();
    split.move_to(fx(10), fx(10));
    split.line_to(fx(30), fx(10));
    split.line_to(fx(30), fx(30));
    split.line_to(fx(10), fx(30));
    split.line_to(fx(10), fx(20));
    split.close();
    assert_eq!(plain.rasterize_to_tri_strip(0, 0, 100, 100).len(), 10);
    let two = split.rasterize_to_tri_strip(0, 0, 100, 100);
    assert_eq!(two.len(), 20);
    assert_eq!((two[9].x, two[9].y, two[9].coverage), (244, 160, 0));
    assert_eq!((two[10].x, two[10].y, two[10].coverage), (76, 160, 0));
}

#[test]
fn winding_fill_is_alternate_fill_of_a_simple_shape() {
    let (points, types) = polygon(&[(10, 20), (330, 660), (650, 20), (400, 100)]);
    let alternate = scans(&points, &types, MilFillMode::Alternate);
    let winding = scans(&points, &types, MilFillMode::Winding);
    assert_eq!(alternate.0, S_OK);
    assert!(alternate.1.len() > 0);
    assert_eq!(alternate, winding);
}

#[test]
fn nested_shapes_are_a_hole_or_solid() {
    let mut points = Vec::new();
    let mut types = Vec::new();
    for (l, t, r, b) in [(10, 10, 40, 40), (15, 15, 35, 35)] {
        let (p, ty) = polygon(&[(fx(l), fx(t)), (fx(r), fx(t)), (fx(r), fx(b)), (fx(l), fx(b))]);
        points.extend(p);
        types.extend(ty);
    }
    let hole = pixels(&scans(&points, &types, MilFillMode::Alternate).1, 50, 50);
    let solid = pixels(&scans(&points, &types, MilFillMode::Winding).1, 50, 50);
    for y in 0..50 {
        for x in 0..50 {
            let outer = 10 <= x && x < 40 && 10 <= y && y < 40;
            let inner = 15 <= x && x < 35 && 15 <= y && y < 35;
            assert_eq!(hole[y][x], if outer && !inner { 64 } else { 0 });
            assert_eq!(solid[y][x], if outer { 64 } else { 0 });
        }
    }
}

#[test]
fn shape_is_clipped_to_the_clip_rectangle() {
    let mut p = PathBuilder::new();
    rectangle(&mut p, -20, -20, 30, 300);
    // Only the rows within the clip rectangle are output: one trapezoid
    // from row 0 to row 50. It is not clipped in x.
    let result = p.rasterize_to_tri_strip(0, 0, 20, 50);
    assert_eq!(result.len(), 10);
    assert_eq!((result[1].x, result[1].y, result[1].coverage), (-164, 0, 0));
    assert_eq!((result[8].x, result[8].y, result[8].coverage), (244, 400, 0));
    // A clip rectangle above the shape.
    let mut q = PathBuilder::new();
    rectangle(&mut q, 10, 80, 30, 90);
    assert_eq!(q.rasterize_to_tri_strip(0, 0, 100, 50).len(), 0);
    assert_eq!(q.rasterize_to_tri_strip(0, 0, 100, 0).len(), 0);
    assert_eq!(q.rasterize_to_tri_strip(0, 0, 100, 100).len(), 10);
}

#[test]
fn outside_bounds_are_filled_with_zero_alpha() {
    let mut p = PathBuilder::new();
    p.set_outside_bounds(Some((0, 0, 50, 50)), true);
    // Without a shape: the bounds as one rectangle.
    let empty = p.rasterize_to_tri_strip(0, 0, 100, 100);
    assert_eq!(empty.len(), 6);
    assert_eq!((empty[0].x, empty[0].y, empty[0].coverage), (0, 0, 0));
    assert_eq!((empty[5].x, empty[5].y, empty[5].coverage), (400, 400, 0));
    rectangle(&mut p, 10, 10, 30, 30);
    let both = p.rasterize_to_tri_strip(0, 0, 100, 100);
    // The gap above, the lead-in, the trapezoid, the tail-out, the gap
    // below.
    assert_eq!(both.len(), 6 + 3 + 8 + 3 + 6);
    assert_eq!((both[6].x, both[6].y, both[6].coverage), (0, 80, 0));
    assert_eq!((both[9].x, both[9].y, both[9].coverage), (76, 80, 0));
    assert_eq!((both[17].x, both[17].y, both[17].coverage), (400, 80, 0));
    assert_eq!((both[25].x, both[25].y, both[25].coverage), (400, 400, 0));
    p.set_outside_bounds(Some((0, 0, 50, 50)), false);
    let outside = p.rasterize_to_tri_strip(0, 0, 100, 100);
    assert_eq!(outside.len(), both.len() + 2);
    for v in &outside {
        assert!(0 <= v.coverage && v.coverage <= 64);
    }
}

#[test]
fn vertex_count_is_bounded() {
    // A path of 4 edges over 21 rows: no row has more than a few spans.
    let (points, types) = polygon(&[(10, 20), (330, 660), (650, 20), (400, 100)]);
    let (hr, strip) = scans(&points, &types, MilFillMode::Alternate);
    assert_eq!(hr, S_OK);
    let rows = 42;
    let edges = 4;
    assert!(strip.len() <= rows * 6 * (1 + 16 * edges));
    for v in &strip {
        assert!(0 <= v.2 && v.2 <= 64);
        assert!(0 <= v.0 && v.0 <= 8 * 42 && 0 <= v.1 && v.1 <= 8 * 42);
    }
}

#[test]
fn free_function_takes_points_and_tags() {
    let (points, types) = polygon(&[(152, 152), (152, 472), (472, 472), (472, 152)]);
    let strip = rasterize_to_tri_strip(
        MilFillMode::Alternate,
        &types,
        &points,
        0,
        0,
        100,
        100,
        true,
        Some(CMILSurfaceRect { left: 20, top: 0, right: 25, bottom: 5 }),
    );
    // The gap above, the lead-in, the trapezoid and the tail-out; the
    // bounds end above the trapezoid, so that there is no gap below. The
    // trapezoid reaches further left and right than the bounds do.
    assert_eq!(strip.len(), 6 + 3 + 8 + 3);
    assert_eq!((strip[6].x, strip[6].y, strip[6].coverage), (80, 80, 0));
    assert_eq!((strip[17].x, strip[17].y, strip[17].coverage), (240, 80, 0));
}

/// The coverage of every pixel by counting, for each of its 64 samples, the
/// edges that cross the scanline of the sample at or to the left of it.
fn sampled(corners: &[(i32, i32)], winding: bool, width: usize, height: usize) -> Vec<Vec<i32>> {
    // Working coordinates: half a pixel off, in 1/16 of a subpixel.
    let scaled: Vec<(i64, i64)> =
        corners.iter().map(|(x, y)| ((*x as i64 + 8) * 8, (*y as i64 + 8) * 8)).collect();
    let ceil16 = |v: i64| (v + 15).div_euclid(16);
    let mut image = vec![vec![0; width]; height];
    for row in 0..(8 * height as i64) {
        let mut crossings: Vec<(i64, i32)> = Vec::new();
        for k in 0..scaled.len() {
            let (p, q) = (scaled[k], scaled[(k + 1) % scaled.len()]);
            let (top, bottom, direction) = if p.1 <= q.1 { (p, q, 1) } else { (q, p, -1) };
            if ceil16(top.1) <= row && row < ceil16(bottom.1) {
                let dy = bottom.1 - top.1;
                let numerator = top.0 * dy + (bottom.0 - top.0) * (16 * row - top.1);
                let x = -((-numerator).div_euclid(16 * dy));
                crossings.push((x, direction));
            }
        }
        for column in 0..width {
            for sample in 0..8 {
                let x = 8 * column as i64 + sample;
                let left: Vec<&(i64, i32)> = crossings.iter().filter(|c| c.0 <= x).collect();
                let inside = if winding {
                    left.iter().map(|c| c.1).sum::<i32>() != 0
                } else {
                    left.len() % 2 == 1
                };
                if inside {
                    image[(row / 8) as usize][column] += 1;
                }
            }
        }
    }
    image
}

#[test]
fn coverage_is_the_number_of_samples_inside() {
    // A star that crosses itself: its middle is inside by the winding rule
    // and outside by the alternate rule.
    let star = [(500, 30), (790, 920), (33, 370), (967, 370), (210, 920)];
    let (points, types) = polygon(&star);
    let alternate = scans(&points, &types, MilFillMode::Alternate);
    let winding = scans(&points, &types, MilFillMode::Winding);
    assert_eq!(alternate.0, S_OK);
    assert_eq!(winding.0, S_OK);
    let by_pairs = pixels(&alternate.1, 70, 70);
    let by_winding = pixels(&winding.1, 70, 70);
    assert_eq!(by_pairs, sampled(&star, false, 70, 70));
    assert_eq!(by_winding, sampled(&star, true, 70, 70));
    assert_eq!(by_pairs[30][31], 0);
    assert_eq!(by_winding[30][31], 64);
}

#[test]
fn rectangle_is_one_trapezoid_by_the_winding_rule() {
    let mut p = PathBuilder::new();
    rectangle(&mut p, 10, 10, 30, 30);
    let alternate = p.rasterize_to_tri_strip(0, 0, 100, 100);
    p.set_fill_mode(FillMode::Winding);
    let winding = p.rasterize_to_tri_strip(0, 0, 100, 100);
    assert_eq!(winding.len(), 10);
    assert_eq!(winding, alternate);
}

#[test]
fn tags_and_points_that_differ_in_number_draw_nothing() {
    let (points, types) = polygon(&[(10, 20), (330, 660), (650, 20)]);
    let strip = rasterize_to_tri_strip(
        MilFillMode::Alternate,
        &types[..2],
        &points,
        0,
        0,
        100,
        100,
        true,
        None,
    );
    assert!(strip.is_empty());
    let (hr, _) = scans(&points, &types[..2], MilFillMode::Alternate);
    assert_eq!(hr, E_FAIL);
}

#[test]
fn quadratic_curve_keeps_its_start_and_gets_three_tags() {
    let mut p = PathBuilder::new();
    p.move_to(0, 0);
    p.quad_to(3, 6, 6, 0);
    assert_eq!(
        p.types,
        vec![PathPointTypeStart, PathPointTypeBezier, PathPointTypeBezier, PathPointTypeBezier]
    );
    assert_eq!(
        p.points,
        vec![
            POINT { x: 0, y: 0 },
            POINT { x: 2, y: 4 },
            POINT { x: 4, y: 4 },
            POINT { x: 6, y: 0 }
        ]
    );
}

#[test]
fn two_calls_give_the_same_strip() {
    let mut p = PathBuilder::new();
    p.move_to(fx(10), fx(10));
    p.line_to(fx(40), fx(10));
    p.line_to(fx(40), fx(40));
    let first = p.rasterize_to_tri_strip(0, 0, 100, 100);
    let second = p.rasterize_to_tri_strip(0, 0, 100, 100);
    assert!(!first.is_empty());
    assert_eq!(first, second);
}

fn sloped(x: i64, y: i64, coverage: i32, x_delta: i64, x_dx: i64) -> OutputVertex {
    OutputVertex { x, y, coverage, x_delta, x_error: -1, x_error_down: 3840, x_dx, x_error_up: 0 }
}

#[test]
fn triangle_begins_with_a_sloped_trapezoid() {
    let mut p = PathBuilder::new();
    p.move_to(fx(10), fx(10));
    p.line_to(fx(40), fx(10));
    p.line_to(fx(40), fx(40));
    let result = p.rasterize_to_tri_strip(0, 0, 100, 100);
    // One trapezoid down to the device scanline on which the sides come
    // closer than their fringes take, and three scans of six vertices for
    // the two device scanlines below it.
    assert_eq!(result.len(), 28);
    // The left side runs one subpixel to the right on every scanline: its
    // vertices stand a whole pixel beside it.
    assert_eq!(result[0], sloped(72, 80, 0, -8, 1));
    assert_eq!(result[1], sloped(72, 80, 0, -8, 1));
    assert_eq!(result[2], sloped(296, 304, 0, -8, 1));
    assert_eq!(result[3], sloped(88, 80, 64, 8, 1));
    assert_eq!(result[4], sloped(312, 304, 64, 8, 1));
    // The right side is vertical: its vertices stand half a pixel beside it.
    assert_eq!(result[5], sloped(316, 80, 64, -4, 0));
    assert_eq!(result[6], sloped(316, 304, 64, -4, 0));
    assert_eq!(result[7], sloped(324, 80, 0, 4, 0));
    assert_eq!(result[8], sloped(324, 304, 0, 4, 0));
    assert_eq!(result[9], sloped(324, 304, 0, 4, 0));
    for v in &result[10..] {
        assert_eq!((v.x_delta, v.x_error, v.x_error_down, v.x_dx, v.x_error_up), (0, 0, 1, 0, 0));
        assert!(v.y >= 304);
    }
}

#[test]
fn hole_is_a_row_of_two_trapezoids() {
    let mut p = PathBuilder::new();
    rectangle(&mut p, 10, 10, 40, 40);
    rectangle(&mut p, 15, 15, 35, 35);
    let result = p.rasterize_to_tri_strip(0, 0, 100, 100);
    // Above and below the hole one trapezoid each, beside it two.
    assert_eq!(result.len(), 40);
    let tops: Vec<i64> = result.iter().step_by(10).map(|v| v.y).collect();
    assert_eq!(tops, vec![80, 120, 120, 280]);
    let lefts: Vec<i64> = result.iter().step_by(10).map(|v| v.x - v.x_delta).collect();
    assert_eq!(lefts, vec![80, 80, 280, 80]);
}

#[test]
fn every_vertex_has_the_fraction_of_an_edge() {
    let mut triangle = PathBuilder::new();
    triangle.move_to(fx(10), fx(10));
    triangle.line_to(fx(40), fx(10));
    triangle.line_to(fx(10), fx(40));
    triangle.line_to(fx(40), fx(40));
    triangle.close();
    let mut curve = PathBuilder::new();
    curve.move_to(fx(10), fx(10));
    curve.curve_to(fx(40), fx(10), fx(40), fx(10), fx(40), fx(40));
    curve.close();
    curve.set_outside_bounds(Some((0, 0, 50, 50)), true);
    for path in [triangle, curve] {
        let result = path.rasterize_to_tri_strip(0, 0, 100, 100);
        assert!(!result.is_empty());
        for v in result.iter() {
            assert!(v.x_error_down >= 1);
            assert!(-v.x_error_down <= v.x_error && v.x_error <= 0);
            assert!(0 <= v.coverage && v.coverage <= 64);
        }
    }
}
