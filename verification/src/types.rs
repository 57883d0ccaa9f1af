//! Plain data shared by every stage: integer rectangles and points, fill and
//! anti-alias modes, path element tags and status codes.

use vstd::prelude::*;
use crate::OutputVertex;

verus! {

pub type LONG = i32;

pub type INT = i32;

pub type UINT = u32;

pub type LONGLONG = i64;

pub type BYTE = u8;

pub type WORD = u16;

pub type DWORD = u32;

/// Status code: zero is success, anything else is a failure.
pub type HRESULT = i32;

pub const S_OK: HRESULT = 0;

/// A coordinate or an intermediate product left the representable range.
pub const INTSAFE_E_ARITHMETIC_OVERFLOW: HRESULT = -2147024362;

pub const WGXERR_VALUEOVERFLOW: HRESULT = INTSAFE_E_ARITHMETIC_OVERFLOW;

pub const WINCODEC_ERR_VALUEOVERFLOW: HRESULT = INTSAFE_E_ARITHMETIC_OVERFLOW;

pub const FACILITY_WGX: LONG = 0x898;

pub const WGXHR_CLIPPEDTOEMPTY: HRESULT = 144179201;

pub const WGXHR_EMPTYFILL: HRESULT = 144179202;

pub const WGXHR_INTERNALTEMPORARYSUCCESS: HRESULT = 144179203;

pub const WGXHR_RESETSHAREDHANDLEMANAGER: HRESULT = 144179204;

/// A path coordinate was not finite or lay outside the 28.4 working range.
pub const WGXERR_BADNUMBER: HRESULT = -2003304438;

/// The bit layout of a status code: severity in bit 31, facility from bit 16,
/// the code in the low bits.
pub open spec fn hresult_bits(sev: LONG, fac: LONG, code: LONG) -> LONG {
    ((sev << 31u32) | (fac << 16u32)) | code
}

/// Packs severity, facility and code into a status code.
pub fn MAKE_HRESULT(sev: LONG, fac: LONG, code: LONG) -> (hr: HRESULT)
    ensures
        hr == hresult_bits(sev, fac, code),
{
    ((sev << 31u32) | (fac << 16u32)) | code
}

/// A status code of this library's facility.
pub fn MAKE_WGXHR(sev: LONG, code: LONG) -> (hr: HRESULT)
    ensures
        hr == hresult_bits(sev, FACILITY_WGX, code),
{
    MAKE_HRESULT(sev, FACILITY_WGX, code)
}

/// A failure status code of this library's facility.
pub fn MAKE_WGXHR_ERR(code: LONG) -> (hr: HRESULT)
    ensures
        hr == hresult_bits(1, FACILITY_WGX, code),
{
    MAKE_WGXHR(1, code)
}

/// True for every status code but `S_OK`.
pub fn FAILED(hr: HRESULT) -> (failed: bool)
    ensures
        failed == (hr != S_OK),
{
    hr != S_OK
}

/// Integer rectangle; `right` and `bottom` are exclusive.
#[derive(Clone, Copy, Debug, PartialEq, Eq, Structural)]
pub struct RECT {
    pub left: LONG,
    pub top: LONG,
    pub right: LONG,
    pub bottom: LONG,
}

impl Default for RECT {
    fn default() -> (r: Self)
        ensures
            r == (RECT { left: 0, top: 0, right: 0, bottom: 0 }),
    {
        RECT { left: 0, top: 0, right: 0, bottom: 0 }
    }
}

/// Integer point. In the edge builder the unit is 1/16 of a device pixel
/// (28.4 fixed point).
#[derive(Clone, Copy, Debug, PartialEq, Eq, Structural)]
pub struct POINT {
    pub x: LONG,
    pub y: LONG,
}

impl Default for POINT {
    fn default() -> (p: Self)
        ensures
            p == (POINT { x: 0, y: 0 }),
    {
        POINT { x: 0, y: 0 }
    }
}

/// Integer rectangle given by its corner and its size.
#[derive(Clone, Copy, Debug, PartialEq, Eq, Structural)]
pub struct MilPointAndSizeL {
    pub X: INT,
    pub Y: INT,
    pub Width: INT,
    pub Height: INT,
}

impl Default for MilPointAndSizeL {
    fn default() -> (r: Self)
        ensures
            r == (MilPointAndSizeL { X: 0, Y: 0, Width: 0, Height: 0 }),
    {
        MilPointAndSizeL { X: 0, Y: 0, Width: 0, Height: 0 }
    }
}

/// Rectangle in whole device pixels; `right` and `bottom` are exclusive.
#[derive(Clone, Copy, Debug, PartialEq, Eq, Structural)]
pub struct CMILSurfaceRect {
    pub left: LONG,
    pub top: LONG,
    pub right: LONG,
    pub bottom: LONG,
}

impl Default for CMILSurfaceRect {
    fn default() -> (r: Self)
        ensures
            r == (CMILSurfaceRect { left: 0, top: 0, right: 0, bottom: 0 }),
    {
        CMILSurfaceRect { left: 0, top: 0, right: 0, bottom: 0 }
    }
}

#[derive(Clone, Copy, Debug, PartialEq, Eq, Structural)]
pub enum MilAntiAliasMode {
    /// One sample per pixel.
    Aliased,
    /// Eight by eight samples per pixel.
    EightByEight,
}

#[derive(Clone, Copy, Debug, PartialEq, Eq, Structural)]
pub enum MilFillMode {
    Alternate,
    Winding,
}

/// First point of a subpath.
pub const PathPointTypeStart: u8 = 0;

/// End point of a straight segment.
pub const PathPointTypeLine: u8 = 1;

/// One of the three points that follow the start of a cubic Bezier.
pub const PathPointTypeBezier: u8 = 3;

/// The low three bits of a path tag hold its kind.
pub const PathPointTypePathTypeMask: u8 = 0x07;

/// Flag on the last point of a closed subpath.
pub const PathPointTypeCloseSubpath: u8 = 0x80;

/// The kind of a path tag, with its flags stripped.
pub open spec fn path_kind(tag: u8) -> u8 {
    tag & PathPointTypePathTypeMask
}

/// The kind of a path tag, with its flags stripped.
pub fn PathKind(tag: u8) -> (kind: u8)
    ensures
        kind == path_kind(tag),
{
    tag & PathPointTypePathTypeMask
}

/// The fields of a vertex, as bit flags.
pub type MilVertexFormat = DWORD;

/// One field of a vertex.
#[derive(Clone, Copy, Debug, PartialEq, Eq, Structural)]
pub enum MilVertexFormatAttribute {
    MILVFAttrNone,
    MILVFAttrXY,
    MILVFAttrZ,
    MILVFAttrXYZ,
    MILVFAttrNormal,
    MILVFAttrDiffuse,
    MILVFAttrSpecular,
    MILVFAttrUV1,
    MILVFAttrUV2,
}

impl MilVertexFormatAttribute {
    /// The bit of the attribute in a vertex format.
    pub open spec fn bits(self) -> MilVertexFormat {
        match self {
            MilVertexFormatAttribute::MILVFAttrNone => 0x0,
            MilVertexFormatAttribute::MILVFAttrXY => 0x1,
            MilVertexFormatAttribute::MILVFAttrZ => 0x2,
            MilVertexFormatAttribute::MILVFAttrXYZ => 0x3,
            MilVertexFormatAttribute::MILVFAttrNormal => 0x4,
            MilVertexFormatAttribute::MILVFAttrDiffuse => 0x8,
            MilVertexFormatAttribute::MILVFAttrSpecular => 0x10,
            MilVertexFormatAttribute::MILVFAttrUV1 => 0x100,
            MilVertexFormatAttribute::MILVFAttrUV2 => 0x300,
        }
    }

    /// The bit of the attribute in a vertex format.
    pub fn Bits(self) -> (format: MilVertexFormat)
        ensures
            format == self.bits(),
    {
        match self {
            MilVertexFormatAttribute::MILVFAttrNone => 0x0,
            MilVertexFormatAttribute::MILVFAttrXY => 0x1,
            MilVertexFormatAttribute::MILVFAttrZ => 0x2,
            MilVertexFormatAttribute::MILVFAttrXYZ => 0x3,
            MilVertexFormatAttribute::MILVFAttrNormal => 0x4,
            MilVertexFormatAttribute::MILVFAttrDiffuse => 0x8,
            MilVertexFormatAttribute::MILVFAttrSpecular => 0x10,
            MilVertexFormatAttribute::MILVFAttrUV1 => 0x100,
            MilVertexFormatAttribute::MILVFAttrUV2 => 0x300,
        }
    }
}

/// The device stub: holds the clip rectangle and collects the vertices that
/// are sent to it.
pub struct CD3DDeviceLevel1 {
    pub clipRect: MilPointAndSizeL,
    /// The vertices of the triangle strips that were drawn.
    pub output: Vec<OutputVertex>,
    /// The vertices of the line lists that were drawn.
    pub outputLines: Vec<OutputVertex>,
}

impl CD3DDeviceLevel1 {
    /// A device with an empty clip rectangle and nothing drawn.
    pub fn new() -> (device: Self)
        ensures
            device.clipRect == (MilPointAndSizeL { X: 0, Y: 0, Width: 0, Height: 0 }),
            device.output@.len() == 0,
            device.outputLines@.len() == 0,
    {
        CD3DDeviceLevel1 {
            clipRect: MilPointAndSizeL { X: 0, Y: 0, Width: 0, Height: 0 },
            output: Vec::new(),
            outputLines: Vec::new(),
        }
    }

    pub fn GetClipRect(&self, rect: &mut MilPointAndSizeL)
        ensures
            *final(rect) == self.clipRect,
    {
        *rect = self.clipRect;
    }

    /// The viewport is the clip rectangle.
    pub fn GetViewport(&self) -> (viewport: MilPointAndSizeL)
        ensures
            viewport == self.clipRect,
    {
        self.clipRect
    }
}

pub struct CHwPipelineBuilder;

/// The coordinate space of shapes.
#[derive(Clone, Copy, Debug, PartialEq, Eq, Structural)]
pub struct Shape;

/// The coordinate space of the device.
#[derive(Clone, Copy, Debug, PartialEq, Eq, Structural)]
pub struct Device;

pub type CoordinateSpaceShape = Shape;

pub type CoordinateSpaceDevice = Device;

pub struct CHwPipeline;

pub struct CBufferDispenser;

pub type DynArray<T> = Vec<T>;

/// The growable-array vocabulary that the vertex buffers are written in.
pub trait DynArrayExts<T> {
    spec fn elements(&self) -> Seq<T>;

    /// Empties the array.
    fn Reset(&mut self, shrink: bool)
        ensures
            final(self).elements() == Seq::<T>::empty(),
    ;

    fn GetCount(&self) -> (count: usize)
        ensures
            count == self.elements().len(),
    ;

    /// Keeps the first `count` elements.
    fn SetCount(&mut self, count: usize)
        requires
            count <= old(self).elements().len(),
        ensures
            final(self).elements() == old(self).elements().subrange(0, count as int),
    ;

    fn GetDataBuffer(&self) -> (data: &[T])
        ensures
            data@ == self.elements(),
    ;
}

impl<T> DynArrayExts<T> for Vec<T> {
    open spec fn elements(&self) -> Seq<T> {
        self@
    }

    fn Reset(&mut self, shrink: bool) {
        self.clear();
    }

    fn GetCount(&self) -> (count: usize) {
        self.len()
    }

    fn SetCount(&mut self, count: usize) {
        self.truncate(count);
    }

    fn GetDataBuffer(&self) -> (data: &[T]) {
        self.as_slice()
    }
}

} // verus!
