//! Captured-frame types.

use vstd::prelude::*;

use crate::capture::convert::bgra_fits;
use crate::capture::convert::bgra_to_nv12;
use crate::capture::convert::even;
use crate::capture::convert::nv12_of;
use crate::pipeline::time::Duration;

verus! {

/// NV12 (4:2:0 planar, Y plane + interleaved UV plane) frame data: the format
/// ScreenCaptureKit delivers and hardware H.264 encoders prefer.
#[derive(Debug, Clone, PartialEq, Eq)]
pub struct Nv12Planes {
    /// Luminance plane.
    pub y: Vec<u8>,
    /// Bytes per row of the Y plane (may exceed `width` due to alignment padding).
    pub y_stride: u32,
    /// Interleaved Cb/Cr plane (half height).
    pub uv: Vec<u8>,
    /// Bytes per row of the UV plane.
    pub uv_stride: u32,
}

/// What the planes hold.
#[verifier::ext_equal]
pub struct PlanesData {
    pub y: Seq<u8>,
    pub y_stride: u32,
    pub uv: Seq<u8>,
    pub uv_stride: u32,
}

impl View for Nv12Planes {
    type V = PlanesData;

    open spec fn view(&self) -> PlanesData {
        PlanesData {
            y: self.y@,
            y_stride: self.y_stride,
            uv: self.uv@,
            uv_stride: self.uv_stride,
        }
    }
}

/// One captured video frame, stamped on a monotonic clock measured from capture start.
#[derive(Debug, Clone, PartialEq, Eq)]
pub struct CapturedFrame {
    /// Frame width in pixels.
    pub width: u32,
    /// Frame height in pixels.
    pub height: u32,
    /// Time since capture started (feed to `PtsClock` for a 90 kHz PTS).
    pub pts: Duration,
    /// Pixel data (NV12).
    pub planes: Nv12Planes,
}

/// A size that a backend gives as a signed number; a negative one counts as 0.
pub open spec fn size_of_signed(n: i32) -> u32 {
    if n < 0 {
        0
    } else {
        n as u32
    }
}

fn unsigned_size(n: i32) -> (r: u32)
    ensures
        r == size_of_signed(n),
{
    if n < 0 {
        0
    } else {
        n as u32
    }
}

impl CapturedFrame {
    /// A frame from a backend that delivers NV12 (ScreenCaptureKit).
    pub fn from_nv12(
        width: i32,
        height: i32,
        luminance: Vec<u8>,
        luminance_stride: i32,
        chrominance: Vec<u8>,
        chrominance_stride: i32,
        pts: Duration,
    ) -> (f: CapturedFrame)
        ensures
            f.width == size_of_signed(width),
            f.height == size_of_signed(height),
            f.pts == pts,
            f.planes@ == (PlanesData {
                y: luminance@,
                y_stride: size_of_signed(luminance_stride),
                uv: chrominance@,
                uv_stride: size_of_signed(chrominance_stride),
            }),
    {
        CapturedFrame {
            width: unsigned_size(width),
            height: unsigned_size(height),
            pts,
            planes: Nv12Planes {
                y: luminance,
                y_stride: unsigned_size(luminance_stride),
                uv: chrominance,
                uv_stride: unsigned_size(chrominance_stride),
            },
        }
    }

    /// A frame from a backend that delivers tightly packed BGRA (Windows Graphics Capture).
    /// Odd dimensions are rounded down to even.
    pub fn from_bgra(width: i32, height: i32, data: &[u8], pts: Duration) -> (f: CapturedFrame)
        requires
            size_of_signed(width) * 4 <= u32::MAX,
            bgra_fits(
                data@.len(),
                size_of_signed(width),
                size_of_signed(height),
                (size_of_signed(width) * 4) as u32,
            ),
        ensures
            f.width == even(size_of_signed(width)),
            f.height == even(size_of_signed(height)),
            f.pts == pts,
            f.planes@ == nv12_of(
                data@,
                size_of_signed(width),
                size_of_signed(height),
                (size_of_signed(width) * 4) as u32,
            ),
    {
        let w: u32 = unsigned_size(width);
        let h: u32 = unsigned_size(height);
        let planes: Nv12Planes = bgra_to_nv12(data, w, h, w * 4);
        CapturedFrame { width: w - w % 2, height: h - h % 2, pts, planes }
    }
}

/// A size that is not negative is taken as it is.
pub proof fn law_sizes(n: i32)
    ensures
        n >= 0 ==> size_of_signed(n) == n,
        n < 0 ==> size_of_signed(n) == 0,
{
}

} // verus!
