use std::collections::hash_map::DefaultHasher;
use std::hash::{Hash, Hasher};
use wpf_gpu_raster::aarasterizer::COORD_MAX_ANTIALIASED;
use wpf_gpu_raster::{FillMode, PathBuilder};

/// A vertex in pixels, with a coverage from 0 to 1.
#[derive(Debug)]
struct Vertex {
    x: f32,
    y: f32,
    coverage: f32,
}

impl Hash for Vertex {
    fn hash<H: Hasher>(&self, state: &mut H) {
        self.x.to_bits().hash(state);
        self.y.to_bits().hash(state);
        self.coverage.to_bits().hash(state);
    }
}

fn calculate_hash<T: Hash>(t: &T) -> u64 {
    let mut s = DefaultHasher::new();
    t.hash(&mut s);
    s.finish()
}

/// A path in pixels with half-pixel centers, as the library takes it in
/// 28.4 with integer pixel centers.
struct Path {
    path: PathBuilder,
    bad_number: bool,
}

impl Path {
    fn new() -> Self {
        Path { path: PathBuilder::new(), bad_number: false }
    }

    fn fixed(&mut self, v: f32) -> i32 {
        let scaled = 16.0 * v + -8.0;
        let max = COORD_MAX_ANTIALIASED as f32;
        if !(scaled <= max && scaled >= -max) {
            self.bad_number = true;
            return 0;
        }
        (scaled + 0.5).floor() as i32
    }

    fn move_to(&mut self, x: f32, y: f32) {
        let (x, y) = (self.fixed(x), self.fixed(y));
        self.path.move_to(x, y);
    }

    fn line_to(&mut self, x: f32, y: f32) {
        let (x, y) = (self.fixed(x), self.fixed(y));
        self.path.line_to(x, y);
    }

    fn curve_to(&mut self, c1x: f32, c1y: f32, c2x: f32, c2y: f32, x: f32, y: f32) {
        let (c1x, c1y) = (self.fixed(c1x), self.fixed(c1y));
        let (c2x, c2y) = (self.fixed(c2x), self.fixed(c2y));
        let (x, y) = (self.fixed(x), self.fixed(y));
        self.path.curve_to(c1x, c1y, c2x, c2y, x, y);
    }

    fn close(&mut self) {
        self.path.close();
    }

    fn set_fill_mode(&mut self, fill_mode: FillMode) {
        self.path.set_fill_mode(fill_mode);
    }

    fn set_outside_bounds(&mut self, outside_bounds: Option<(i32, i32, i32, i32)>, need_inside: bool) {
        self.path.set_outside_bounds(outside_bounds, need_inside);
    }

    fn rasterize_to_tri_strip(&self, x: i32, y: i32, width: i32, height: i32) -> Box<[Vertex]> {
        if self.bad_number {
            return Vec::new().into_boxed_slice();
        }
        self.path
            .rasterize_to_tri_strip(x, y, width, height)
            .iter()
            .map(|v| {
                let edge =
                    ((v.x - v.x_delta) as f32 + v.x_error as f32 / v.x_error_down as f32) * 0.125;
                let slope = v.x_dx as f32 + v.x_error_up as f32 / v.x_error_down as f32;
                let delta = 0.5 + 0.5 * slope.abs();
                Vertex {
                    x: if v.x_delta < 0 {
                        edge - delta
                    } else if v.x_delta > 0 {
                        edge + delta
                    } else {
                        edge
                    },
                    y: v.y as f32 * 0.125,
                    coverage: v.coverage as f32 / 64.0,
                }
            })
            .collect()
    }
}

#[test]
fn basic() {
    let mut p = Path::new();
    p.move_to(10., 10.);
    p.line_to(10., 30.);
    p.line_to(30., 30.);
    p.line_to(30., 10.);
    p.close();
    let result = p.rasterize_to_tri_strip(0, 0, 100, 100);
    assert_eq!(result.len(), 10);
    assert_eq!(calculate_hash(&result), 0x5851570566450135);
}

#[test]
fn range() {
    let mut p = Path::new();
    p.curve_to(8.872974e16, 0., 0., 0., 0., 0.);
    let result = p.rasterize_to_tri_strip(0, 0, 100, 100);
    assert_eq!(result.len(), 0);
}

#[test]
fn multiple_starts() {
    let mut p = Path::new();
    p.line_to(10., 10.);
    p.move_to(0., 0.);
    let result = p.rasterize_to_tri_strip(0, 0, 100, 100);
    assert_eq!(result.len(), 0);
}

#[test]
fn path_closing() {
    let mut p = Path::new();
    p.curve_to(0., 0., 0., 0., 0., 32.0);
    p.close();
    p.curve_to(0., 0., 0., 0., 0., 32.0);
    let result = p.rasterize_to_tri_strip(0, 0, 100, 100);
    assert_eq!(result.len(), 0);
}

#[test]
fn partial_coverage_last_line() {
    let mut p = Path::new();

    p.move_to(10., 10.);
    p.line_to(40., 10.);
    p.line_to(40., 39.6);
    p.line_to(10., 39.6);

    let result = p.rasterize_to_tri_strip(0, 0, 100, 100);
    assert_eq!(result.len(), 16);
    assert_eq!(calculate_hash(&result), 0xf606699f20d45d96);
}

#[test]
fn grid() {
    let mut p = Path::new();

    for i in 0..200 {
        let offset = i as f32 * 1.3;
        p.move_to(0. + offset, -8.);
        p.line_to(0.5 + offset, -8.);
        p.line_to(0.5 + offset, 40.);
        p.line_to(0. + offset, 40.);
        p.close();
    }
    let _result = p.rasterize_to_tri_strip(0, 0, 100, 100);
}

#[test]
fn fill_alternating_empty_interior_pairs() {
    let mut p = Path::new();
    p.line_to(0., 2.);
    p.curve_to(0.0, 0.0, 1., 6., 0.0, 0.0);
    let result = p.rasterize_to_tri_strip(0, 0, 100, 100);
    assert_eq!(result.len(), 18);
}

#[test]
fn simple() {
    let mut p = Path::new();
    p.move_to(10., 10.);
    p.line_to(40., 10.);
    p.line_to(40., 40.);
    let result = p.rasterize_to_tri_strip(0, 0, 100, 100);
    assert_eq!(calculate_hash(&result), 0x81a9af7769f88e68);
}

#[test]
fn rust() {
    let mut p = Path::new();
    p.move_to(10., 10.);
    p.line_to(40., 10.);
    p.line_to(40., 40.);
    let result = p.rasterize_to_tri_strip(0, 0, 100, 100);
    assert_eq!(calculate_hash(&result), 0x81a9af7769f88e68);
}

#[test]
fn fill_mode() {
    let mut p = Path::new();
    p.move_to(10., 10.);
    p.line_to(40., 10.);
    p.line_to(40., 40.);
    p.line_to(10., 40.);
    p.close();
    p.move_to(15., 15.);
    p.line_to(35., 15.);
    p.line_to(35., 35.);
    p.line_to(15., 35.);
    p.close();
    let result = p.rasterize_to_tri_strip(0, 0, 100, 100);
    assert_eq!(calculate_hash(&result), 0xb34344234f2f75a8);

    let mut p = Path::new();
    p.move_to(10., 10.);
    p.line_to(40., 10.);
    p.line_to(40., 40.);
    p.line_to(10., 40.);
    p.close();
    p.move_to(15., 15.);
    p.line_to(35., 15.);
    p.line_to(35., 35.);
    p.line_to(15., 35.);
    p.close();
    p.set_fill_mode(FillMode::Winding);
    let result = p.rasterize_to_tri_strip(0, 0, 100, 100);
    assert_eq!(calculate_hash(&result), 0xee4ecd8a738fc42c);
}

#[test]
fn curve() {
    let mut p = Path::new();
    p.move_to(10., 10.);
    p.curve_to(40., 10., 40., 10., 40., 40.);
    p.close();
    let result = p.rasterize_to_tri_strip(0, 0, 100, 100);
    assert_eq!(calculate_hash(&result), 0x6f92480332842ac9);
}

#[test]
fn self_intersect() {
    let mut p = Path::new();
    p.move_to(10., 10.);
    p.line_to(40., 10.);
    p.line_to(10., 40.);
    p.line_to(40., 40.);
    p.close();
    let result = p.rasterize_to_tri_strip(0, 0, 100, 100);
    assert_eq!(calculate_hash(&result), 0xb8cbea29b27f7598);
}

#[test]
fn outside() {
    let mut p = Path::new();
    p.move_to(10., 10.);
    p.line_to(40., 10.);
    p.line_to(10., 40.);
    p.line_to(40., 40.);
    p.close();
    p.set_outside_bounds(Some((0, 0, 50, 50)), false);
    let result = p.rasterize_to_tri_strip(0, 0, 100, 100);
    assert_eq!(calculate_hash(&result), 0x1e734743e1785634, "{:?}", result);
}

#[test]
fn outside_inside() {
    let mut p = Path::new();
    p.move_to(10., 10.);
    p.line_to(40., 10.);
    p.line_to(10., 40.);
    p.line_to(40., 40.);
    p.close();
    p.set_outside_bounds(Some((0, 0, 50, 50)), true);
    let result = p.rasterize_to_tri_strip(0, 0, 100, 100);
    assert_eq!(calculate_hash(&result), 0x1b741fc435aa1897);
}

#[test]
fn enum_buffer_num() {
    let mut p = Path::new();
    p.curve_to(0.0, 0.0, 0.0, 12.0, 0.0, 44.919434);
    p.line_to(64.0, 36.0);
    p.line_to(0.0, 80.0);
    let result = p.rasterize_to_tri_strip(0, 0, 100, 100);
    assert_eq!(result.len(), 574);
}
