//! Screen capture where no capture backend is built in.

use vstd::prelude::*;

use crate::capture::frame::CapturedFrame;
use crate::pipeline::error::Error;
use crate::pipeline::error::ErrorKind;

verus! {

/// A running screen capture yielding NV12 frames (macOS + Windows). Platforms without a
/// backend report capture as unsupported.
pub struct ScreenCapture {
    backend: (),
}

impl ScreenCapture {
    /// Start capturing the primary display at approximately `fps` frames per second.
    pub fn start(fps: u32) -> (r: Result<ScreenCapture, Error>)
        ensures
            r matches Err(e) && e@ == (
                ErrorKind::Unsupported,
                "screen capture is implemented on macOS and Windows (so far)"@,
            ),
    {
        Err(
            Error::Unsupported(
                "screen capture is implemented on macOS and Windows (so far)".to_owned(),
            ),
        )
    }

    /// The next captured frame; `None` once capture has ended.
    pub fn next_frame(&mut self) -> (r: Option<CapturedFrame>)
        ensures
            r is None,
    {
        None
    }

    /// Stop capturing and release resources.
    pub fn stop(self) {
    }
}

} // verus!
