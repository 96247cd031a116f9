//! Screen capture.
//!
//! Produces NV12 [`CapturedFrame`](frame::CapturedFrame)s stamped on a monotonic clock,
//! ready for the encoder. ScreenCaptureKit yields NV12 directly; Windows Graphics Capture
//! yields BGRA, which is converted with [`bgra_to_nv12`](convert::bgra_to_nv12).

pub mod convert;
pub mod frame;
pub mod screen;
