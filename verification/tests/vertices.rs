use typed_arena::Arena;
use wpf_gpu_raster::aacoverage::CCoverageBuffer;
use wpf_gpu_raster::hwvertexbuffer::{
    CD3DVertexXYZDUV2, CHwTVertexBuffer, CHwTVertexBufferBuilder, CHwVertexBuffer,
    CHwVertexBufferBuilder, PointXYA, Quad, FLOAT_ONE, FLOAT_ZERO,
};
use wpf_gpu_raster::types::{
    CD3DDeviceLevel1, CMILSurfaceRect, DynArrayExts, MilPointAndSizeL, MilVertexFormatAttribute,
    S_OK,
};
use wpf_gpu_raster::OutputVertex;

fn v(x: i64, y: i64, a: i32) -> CD3DVertexXYZDUV2 {
    CD3DVertexXYZDUV2 {
        X: x,
        Y: y,
        Diffuse: a,
        XDelta: 0,
        XError: 0,
        XErrorDown: 1,
        XDx: 0,
        XErrorUp: 0,
    }
}

/// A vertex beside an edge with the slope `dx + up / down`.
fn sloped(x: i64, y: i64, a: i32, delta: i64, error: i64, down: i64, dx: i64, up: i64) -> CD3DVertexXYZDUV2 {
    CD3DVertexXYZDUV2 {
        X: x,
        Y: y,
        Diffuse: a,
        XDelta: delta,
        XError: error,
        XErrorDown: down,
        XDx: dx,
        XErrorUp: up,
    }
}

/// A vertex `delta` subpixels beside an edge that stands `error / down` of
/// a subpixel to the left of `x - delta`.
fn side(x: i64, y: i64, a: i32, delta: i64, error: i64, down: i64) -> CD3DVertexXYZDUV2 {
    CD3DVertexXYZDUV2 {
        X: x,
        Y: y,
        Diffuse: a,
        XDelta: delta,
        XError: error,
        XErrorDown: down,
        XDx: 0,
        XErrorUp: 0,
    }
}

fn quad(x0: i64, x1: i64, y0: i64, y1: i64, a: i32) -> Vec<CD3DVertexXYZDUV2> {
    vec![v(x0, y0, a), v(x0, y0, a), v(x0, y1, a), v(x1, y0, a), v(x1, y1, a), v(x1, y1, a)]
}

fn builder(viewport_top: i32) -> CHwVertexBufferBuilder {
    let mut device = CD3DDeviceLevel1::new();
    device.clipRect = MilPointAndSizeL { X: 0, Y: viewport_top, Width: 100, Height: 100 };
    let mut b = CHwVertexBufferBuilder::Create(
        MilVertexFormatAttribute::MILVFAttrXY.Bits(),
        MilVertexFormatAttribute::MILVFAttrXY.Bits(),
        MilVertexFormatAttribute::MILVFAttrDiffuse,
        &device,
    );
    assert_eq!(b.BeginBuilding(&device), S_OK);
    assert_eq!(b.GetViewportTop(), viewport_top);
    b
}

#[test]
fn dynamic_arrays_count_and_reset() {
    let mut a = vec![1, 2, 3, 4];
    assert_eq!(a.GetCount(), 4);
    a.SetCount(2);
    assert_eq!(a.GetDataBuffer(), &[1, 2]);
    a.Reset(true);
    assert_eq!(a.GetCount(), 0);
}

#[test]
fn vertex_buffer_resets_all_lists() {
    let mut vb = CHwVertexBuffer::new();
    assert!(vb.IsEmpty());
    vb.AddTriStripVertices(&mut vec![v(1, 2, 3)]);
    vb.AddLineListVertices(&mut vec![v(4, 5, 6), v(7, 8, 9)]);
    assert!(!vb.IsEmpty());
    assert_eq!(vb.m_rgVerticesTriStrip, vec![v(1, 2, 3)]);
    assert_eq!(vb.m_rgVerticesLineList, vec![v(4, 5, 6), v(7, 8, 9)]);
    vb.Reset();
    assert!(vb.IsEmpty());
    assert_eq!(vb.m_rgVerticesTriStrip.len(), 0);
    assert_eq!(vb.m_rgVerticesLineList.len(), 0);
    let other: CHwTVertexBuffer<u8> = CHwTVertexBuffer::new();
    assert!(other.IsEmpty());
}

#[test]
fn quad_doubles_its_first_and_last_corner() {
    assert_eq!(Quad(1, 2, 3, 4, 5), quad(1, 2, 3, 4, 5));
    assert_eq!(Quad(1, 2, 3, 4, 5)[2], v(1, 4, 5));
    assert_eq!(Quad(1, 2, 3, 4, 5)[3], v(2, 3, 5));
}

#[test]
fn line_becomes_a_strip_of_one_pixel_height() {
    let mut vb = CHwVertexBuffer::new();
    // A line from the centre of pixel 2 to the centre of pixel 5, on the
    // height of the centres of row 1.
    vb.AddLine(&PointXYA { x: 20, y: 12, a: 32 }, &PointXYA { x: 44, y: 12, a: 32 }, true);
    assert_eq!(vb.m_rgVerticesTriStrip, quad(16, 40, 8, 16, 32));
    assert_eq!(vb.m_rgVerticesLineList.len(), 0);
    vb.AddLine(&PointXYA { x: 20, y: 12, a: 32 }, &PointXYA { x: 44, y: 12, a: 32 }, false);
    assert_eq!(vb.m_rgVerticesLineList, vec![v(20, 12, 32), v(44, 12, 32)]);
    assert_eq!(vb.m_rgVerticesTriStrip.len(), 6);
    vb.AddLineAsTriangleStrip(&v(4, 4, 64), &v(12, 4, 64));
    assert_eq!(vb.m_rgVerticesTriStrip[6..].to_vec(), quad(0, 8, 0, 8, 64));
}

#[test]
fn vertices_are_drawn_to_the_device() {
    let mut vb = CHwVertexBuffer::new();
    vb.AddTriStripVertices(&mut vec![v(1, 2, 3), v(4, 5, 6)]);
    vb.AddLineListVertices(&mut vec![v(7, 8, 9)]);
    let mut device = CD3DDeviceLevel1::new();
    device.output.push(OutputVertex { x: 0, y: 0, coverage: 0, x_delta: 0, x_error: 0, x_error_down: 1, x_dx: 0, x_error_up: 0 });
    vb.DrawPrimitive(&mut device);
    assert_eq!(
        device.output,
        vec![
            OutputVertex { x: 0, y: 0, coverage: 0, x_delta: 0, x_error: 0, x_error_down: 1, x_dx: 0, x_error_up: 0 },
            OutputVertex { x: 1, y: 2, coverage: 3, x_delta: 0, x_error: 0, x_error_down: 1, x_dx: 0, x_error_up: 0 },
            OutputVertex { x: 4, y: 5, coverage: 6, x_delta: 0, x_error: 0, x_error_down: 1, x_dx: 0, x_error_up: 0 }
        ]
    );
    assert_eq!(device.outputLines, vec![OutputVertex { x: 7, y: 8, coverage: 9, x_delta: 0, x_error: 0, x_error_down: 1, x_dx: 0, x_error_up: 0 }]);
    let mut rect = MilPointAndSizeL { X: 1, Y: 1, Width: 1, Height: 1 };
    device.GetClipRect(&mut rect);
    assert_eq!(rect, MilPointAndSizeL { X: 0, Y: 0, Width: 0, Height: 0 });
    assert_eq!(device.GetViewport(), rect);
}

#[test]
fn coverage_geometry_is_needed_by_flags() {
    let mut b = builder(0);
    assert!(b.NeedInsideGeometry() && !b.NeedOutsideGeometry() && !b.HasOutsideBounds());
    assert!(b.NeedCoverageGeometry(64) && b.NeedCoverageGeometry(1) && !b.NeedCoverageGeometry(0));
    b.SetOutsideBounds(Some(CMILSurfaceRect { left: 0, top: 0, right: 9, bottom: 9 }), false);
    assert!(b.HasOutsideBounds() && !b.NeedInsideGeometry());
    assert!(!b.NeedCoverageGeometry(64) && b.NeedCoverageGeometry(63) && b.NeedCoverageGeometry(0));
    b.SetOutsideBounds(Some(CMILSurfaceRect { left: 0, top: 0, right: 9, bottom: 9 }), true);
    assert!(b.NeedCoverageGeometry(64) && b.NeedCoverageGeometry(0));
    b.SetOutsideBounds(None, false);
    assert!(b.NeedInsideGeometry() && !b.NeedOutsideGeometry());
}

#[test]
fn converter_generates_what_the_input_lacks() {
    let mut b = builder(0);
    let xy = MilVertexFormatAttribute::MILVFAttrXY.Bits();
    let diffuse = MilVertexFormatAttribute::MILVFAttrDiffuse.Bits();
    assert_eq!(b.SetupConverter(xy, xy | diffuse, MilVertexFormatAttribute::MILVFAttrDiffuse), S_OK);
    assert_eq!(b.m_mvfIn, 1);
    assert_eq!(b.m_mvfGenerated, 8);
    assert_eq!(MilVertexFormatAttribute::MILVFAttrUV1.Bits(), 0x100);
    assert_eq!(MilVertexFormatAttribute::MILVFAttrNone.Bits(), 0);
}

#[test]
fn trapezoid_strip() {
    let mut b = builder(0);
    assert_eq!(
        b.AddTrapezoid(80, 100, 200, 240, 120, 180, 4, 6, -1, 5, -2, 7, -3, -4, 1, 2, -1, 3),
        S_OK
    );
    assert_eq!(
        b.m_pVB.m_rgVerticesTriStrip,
        vec![
            sloped(96, 80, FLOAT_ZERO, -4, -1, 5, 1, 2),
            sloped(96, 80, FLOAT_ZERO, -4, -1, 5, 1, 2),
            sloped(116, 240, FLOAT_ZERO, -4, -3, 5, 1, 2),
            sloped(104, 80, FLOAT_ONE, 4, -1, 5, 1, 2),
            sloped(124, 240, FLOAT_ONE, 4, -3, 5, 1, 2),
            sloped(194, 80, FLOAT_ONE, -6, -2, 7, -1, 3),
            sloped(174, 240, FLOAT_ONE, -6, -4, 7, -1, 3),
            sloped(206, 80, FLOAT_ZERO, 6, -2, 7, -1, 3),
            sloped(186, 240, FLOAT_ZERO, 6, -4, 7, -1, 3),
            sloped(186, 240, FLOAT_ZERO, 6, -4, 7, -1, 3),
        ]
    );
    assert!(!b.IsEmpty());
}

#[test]
fn trapezoid_without_inside_skips_the_interior() {
    let mut b = builder(0);
    b.SetOutsideBounds(Some(CMILSurfaceRect { left: 0, top: 0, right: 50, bottom: 50 }), false);
    assert_eq!(
        b.AddTrapezoidStandard(80, 100, 200, 240, 100, 200, 4, 4, -1, 3, -1, 9, -1, -1, 0, 0, 0, 0),
        S_OK
    );
    let mut expected = Vec::new();
    // The gap above the first stratum, over the width of the bounds.
    expected.extend(quad(0, 400, 0, 80, 0));
    // The lead-in of the row of trapezoids: from the left of the bounds.
    expected.extend(vec![v(0, 80, 0), v(0, 80, 0), v(0, 240, 0)]);
    expected.extend(vec![
        side(96, 80, 0, -4, -1, 3),
        side(96, 240, 0, -4, -1, 3),
        side(104, 80, 64, 4, -1, 3),
        side(104, 240, 64, 4, -1, 3),
        side(104, 240, 64, 4, -1, 3),
        side(196, 80, 64, -4, -1, 9),
        side(196, 80, 64, -4, -1, 9),
        side(196, 240, 64, -4, -1, 9),
        side(204, 80, 0, 4, -1, 9),
        side(204, 240, 0, 4, -1, 9),
    ]);
    assert_eq!(b.m_pVB.m_rgVerticesTriStrip, expected);
    // The end of the building closes the row to the right of the bounds and
    // fills the gap below it.
    assert_eq!(b.EndBuildingOutside(), S_OK);
    expected.extend(vec![v(400, 80, 0), v(400, 240, 0), v(400, 240, 0)]);
    expected.extend(quad(0, 400, 240, 400, 0));
    assert_eq!(b.m_pVB.m_rgVerticesTriStrip, expected);
}

#[test]
fn strata_are_stitched() {
    let mut b = builder(0);
    b.SetOutsideBounds(Some(CMILSurfaceRect { left: 1, top: 2, right: 30, bottom: 40 }), true);
    // Without any geometry the bounds are one rectangle.
    let mut empty = builder(0);
    empty.SetOutsideBounds(Some(CMILSurfaceRect { left: 1, top: 2, right: 30, bottom: 40 }), true);
    assert_eq!(empty.EndBuilding(), S_OK);
    assert_eq!(empty.m_pVB.m_rgVerticesTriStrip, quad(8, 240, 16, 320, 0));
    // Two trapezoids of one row, the second further right than the bounds.
    assert_eq!(b.PrepareStratum(80, 160, true, 40, 100, -1, 3, -2, 5), S_OK);
    let mut expected = quad(8, 240, 16, 80, 0);
    expected.extend(vec![v(8, 80, 0), v(8, 80, 0), v(8, 160, 0)]);
    assert_eq!(b.m_pVB.m_rgVerticesTriStrip, expected);
    assert_eq!(b.PrepareStratum(80, 160, true, 120, 300, -1, 4, -2, 7), S_OK);
    assert_eq!(b.m_pVB.m_rgVerticesTriStrip, expected);
    // A complex span right below: the row is closed, there is no gap.
    // The tail-out begins where the right edge of the last trapezoid
    // stands: a fraction of a subpixel to the left of 300.
    assert_eq!(b.PrepareStratumSlow(160, 168, false, 0, 0, 0, 1, 0, 1), S_OK);
    expected.extend(vec![
        side(300, 80, 0, 0, -2, 7),
        side(300, 160, 0, 0, -2, 7),
        side(300, 160, 0, 0, -2, 7),
    ]);
    assert_eq!(b.m_pVB.m_rgVerticesTriStrip, expected);
    // A complex span further down: the gap is filled.
    assert_eq!(b.PrepareStratum(200, 208, false, 0, 0, 0, 1, 0, 1), S_OK);
    expected.extend(quad(8, 240, 168, 200, 0));
    assert_eq!(b.m_pVB.m_rgVerticesTriStrip, expected);
    // Without outside bounds nothing is stitched.
    let mut inside = builder(0);
    assert_eq!(inside.PrepareStratum(80, 160, true, 40, 100, -1, 3, -2, 5), S_OK);
    assert_eq!(inside.EndBuilding(), S_OK);
    assert!(inside.IsEmpty());
}

#[test]
fn lead_in_begins_where_the_trapezoid_stands() {
    // The trapezoid begins to the left of the bounds: the lead-in begins
    // at its left edge, a third of a subpixel to the left of 40.
    let mut b = builder(0);
    b.SetOutsideBounds(Some(CMILSurfaceRect { left: 10, top: 10, right: 30, bottom: 40 }), true);
    assert_eq!(b.PrepareStratum(80, 160, true, 40, 100, -1, 3, -2, 5), S_OK);
    // Before it comes the rectangle of the gap above, which has no height.
    let mut expected = quad(80, 240, 80, 80, 0);
    expected.extend(vec![
        side(40, 80, 0, 0, -1, 3),
        side(40, 80, 0, 0, -1, 3),
        side(40, 160, 0, 0, -1, 3),
    ]);
    assert_eq!(b.m_pVB.m_rgVerticesTriStrip, expected);
    // The trapezoid ends within the bounds: the tail-out begins at the
    // bounds, on a whole subpixel.
    assert_eq!(b.EndBuilding(), S_OK);
    assert_eq!(b.m_pVB.m_rgVerticesTriStrip[9..12], [v(240, 80, 0), v(240, 160, 0), v(240, 160, 0)]);
}

fn row(buffer: &mut CCoverageBuffer, scanlines: i32, l: i32, r: i32) {
    for _ in 0..scanlines {
        assert_eq!(buffer.AddInterval(l, r), S_OK);
    }
}

#[test]
fn complex_scan_as_triangles() {
    let arena = Arena::new();
    let mut coverage = CCoverageBuffer::new(&arena);
    // Eight scanlines from 0.5 to 3.5 pixels.
    row(&mut coverage, 8, 4, 28);
    let mut b = builder(0);
    b.SetForceTriangles(true);
    assert_eq!(b.AddComplexScan(5, &coverage), S_OK);
    let mut expected = quad(0, 8, 40, 48, 32);
    expected.extend(quad(8, 24, 40, 48, 64));
    expected.extend(quad(24, 32, 40, 48, 32));
    assert_eq!(b.m_pVB.m_rgVerticesTriStrip, expected);
    assert_eq!(b.m_pVB.m_rgVerticesLineList.len(), 0);
}

#[test]
fn complex_scan_as_lines_below_the_top_of_the_viewport() {
    let arena = Arena::new();
    let mut coverage = CCoverageBuffer::new(&arena);
    row(&mut coverage, 4, 4, 28);
    let mut b = builder(3);
    // Row 5 is below the first row of the viewport: lines.
    assert_eq!(b.AddComplexScan(5, &coverage), S_OK);
    assert_eq!(
        b.m_pVB.m_rgVerticesLineList,
        vec![v(4, 44, 16), v(12, 44, 16), v(12, 44, 32), v(28, 44, 32), v(28, 44, 16), v(36, 44, 16)]
    );
    assert_eq!(b.m_pVB.m_rgVerticesTriStrip.len(), 0);
    // Row 3 is the first row of the viewport: triangles.
    assert_eq!(b.AddComplexScan(3, &coverage), S_OK);
    assert_eq!(b.m_pVB.m_rgVerticesLineList.len(), 6);
    let mut expected = quad(0, 8, 24, 32, 16);
    expected.extend(quad(8, 24, 24, 32, 32));
    expected.extend(quad(24, 32, 24, 32, 16));
    assert_eq!(b.m_pVB.m_rgVerticesTriStrip, expected);
}

#[test]
fn complement_of_a_scan_tiles_the_bounds() {
    let arena = Arena::new();
    let mut coverage = CCoverageBuffer::new(&arena);
    row(&mut coverage, 8, 4, 28);
    let mut b = builder(0);
    b.SetForceTriangles(true);
    b.SetOutsideBounds(Some(CMILSurfaceRect { left: 2, top: 5, right: 10, bottom: 20 }), true);
    assert_eq!(b.AddComplexScan(5, &coverage), S_OK);
    // Before the first stratum comes the rectangle from the top of the
    // bounds down to it, which here has no height. Then the spans, cut to
    // the bounds: the span before pixel 0 and the span of pixels 0 and 1
    // lie to the left of the bounds and are empty spans at their own end;
    // then pixel 2, pixel 3, and the rest up to the right bound.
    let mut expected = quad(16, 80, 40, 40, 0);
    expected.extend(quad(0, 0, 40, 48, 0));
    expected.extend(quad(8, 8, 40, 48, 32));
    expected.extend(quad(16, 24, 40, 48, 64));
    expected.extend(quad(24, 32, 40, 48, 32));
    expected.extend(quad(32, 80, 40, 48, 0));
    assert_eq!(b.m_pVB.m_rgVerticesTriStrip, expected);
    // The pixels of the shape and of its complement add up to the pixels
    // between the left and the right bound.
    let strip = &b.m_pVB.m_rgVerticesTriStrip[6..];
    let mut shape = 0;
    let mut complement = 0;
    for q in strip.chunks(6) {
        assert!(q[0].X <= q[5].X);
        if q[0].Diffuse == 0 {
            complement += q[5].X - q[0].X;
        } else {
            shape += q[5].X - q[0].X;
        }
    }
    assert_eq!(shape + complement, 8 * (10 - 2));
    assert_eq!(shape, 16);
    // The inside alone.
    let mut inside = builder(0);
    inside.SetForceTriangles(true);
    assert_eq!(inside.AddComplexScan(5, &coverage), S_OK);
    assert_eq!(inside.m_pVB.m_rgVerticesTriStrip.len(), 18);
}

#[test]
fn flush_draws_and_resets() {
    let mut b = builder(0);
    b.SetOutsideBounds(Some(CMILSurfaceRect { left: 0, top: 0, right: 1, bottom: 1 }), true);
    let mut device = CD3DDeviceLevel1::new();
    assert_eq!(b.FlushTryGetVertexBuffer(&mut device, true), S_OK);
    assert_eq!(device.output.len(), 6);
    assert_eq!(device.output[4], OutputVertex { x: 8, y: 8, coverage: 0, x_delta: 0, x_error: 0, x_error_down: 1, x_dx: 0, x_error_up: 0 });
    // The vertex buffer was kept.
    assert_eq!(b.m_pVB.m_rgVerticesTriStrip.len(), 6);
    assert!(!b.m_fHasFlushed);
    let mut other = CD3DDeviceLevel1::new();
    assert_eq!(b.FlushReset(&mut other), S_OK);
    assert_eq!(other.output.len(), 6);
    assert!(b.IsEmpty());
    assert!(b.m_fHasFlushed);
    let mut third = CD3DDeviceLevel1::new();
    assert_eq!(b.FlushInternal(&mut third, false), S_OK);
    assert_eq!(third.output.len(), 0);
    let created = CHwTVertexBufferBuilder::<CD3DVertexXYZDUV2>::CreateTemplate(
        CHwVertexBuffer::new(),
        1,
        9,
        MilVertexFormatAttribute::MILVFAttrDiffuse,
    );
    assert_eq!(created.m_mvfGenerated, 8);
    assert!(created.IsEmpty());
}
