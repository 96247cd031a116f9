//! The encoder where no encoding backend is built in, and its values.

use vstd::prelude::*;

use crate::capture::frame::CapturedFrame;
use crate::pipeline::error::Error;
use crate::pipeline::error::ErrorKind;

verus! {

/// Low-latency H.264 encoder configuration.
#[derive(Debug, Clone, Copy, PartialEq, Eq, Structural)]
pub struct EncoderConfig {
    /// Output width in pixels.
    pub width: u32,
    /// Output height in pixels.
    pub height: u32,
    /// Target frame rate.
    pub fps: u32,
    /// Target average bitrate in kilobits per second.
    pub bitrate_kbps: u32,
    /// Keyframe (IDR) interval in frames. Smaller = faster join / loss recovery on the TV.
    pub keyframe_interval: u32,
}

impl Default for EncoderConfig {
    fn default() -> (c: Self)
        ensures
            c == (EncoderConfig {
                width: 1920,
                height: 1080,
                fps: 60,
                bitrate_kbps: 12_000,
                keyframe_interval: 120,
            }),
    {
        EncoderConfig {
            width: 1920,
            height: 1080,
            fps: 60,
            bitrate_kbps: 12_000,
            keyframe_interval: 120,
        }
    }
}

/// The configuration for mirroring frames of a size: a keyframe every two seconds, and at
/// least one frame apart.
pub open spec fn config_for(width: u32, height: u32, fps: u32, bitrate_kbps: u32) -> EncoderConfig {
    EncoderConfig {
        width,
        height,
        fps,
        bitrate_kbps,
        keyframe_interval: if fps == 0 {
            1
        } else if fps * 2 <= u32::MAX {
            (fps * 2) as u32
        } else {
            u32::MAX
        },
    }
}

impl EncoderConfig {
    /// The configuration for mirroring frames of a size.
    pub fn for_mirror(width: u32, height: u32, fps: u32, bitrate_kbps: u32) -> (c: EncoderConfig)
        ensures
            c == config_for(width, height, fps, bitrate_kbps),
    {
        let keyframe_interval: u32 = if fps == 0 {
            1
        } else if fps <= u32::MAX / 2 {
            fps * 2
        } else {
            u32::MAX
        };
        EncoderConfig { width, height, fps, bitrate_kbps, keyframe_interval }
    }
}

/// One encoded H.264 access unit (Annex-B, with start codes), carrying its 90 kHz PTS and
/// keyframe flag; feed straight to `MpegTsMuxer::push_access_unit`.
#[derive(Debug, Clone, PartialEq, Eq)]
pub struct EncodedFrame {
    /// Annex-B bytes (SPS/PPS prepended on keyframes).
    pub data: Vec<u8>,
    /// 90 kHz presentation timestamp.
    pub pts: u64,
    /// Whether this access unit is an IDR keyframe.
    pub keyframe: bool,
}

/// A hardware H.264 encoder (Media Foundation on Windows; VideoToolbox on macOS).
/// Platforms without a backend report encoding as unsupported.
pub struct H264Encoder {
    backend: (),
}

impl H264Encoder {
    /// Create an encoder for the given configuration.
    pub fn new(config: EncoderConfig) -> (r: Result<H264Encoder, Error>)
        ensures
            r matches Err(e) && e@ == (
                ErrorKind::Unsupported,
                "no H.264 encoding backend is built for this platform"@,
            ),
    {
        Err(Error::Unsupported("no H.264 encoding backend is built for this platform".to_owned()))
    }

    /// Encode one captured frame at the given 90 kHz `pts`. Returns the access units the
    /// encoder emitted (low-latency config emits ~one per frame, but it may return zero
    /// while priming or several when flushing).
    pub fn encode(&mut self, frame: &CapturedFrame, pts: u64) -> (r: Result<
        Vec<EncodedFrame>,
        Error,
    >)
        ensures
            r matches Ok(units) && units@.len() == 0,
    {
        Ok(Vec::new())
    }

    /// Flush any buffered access units at end of stream.
    pub fn finish(&mut self) -> (r: Result<Vec<EncodedFrame>, Error>)
        ensures
            r matches Ok(units) && units@.len() == 0,
    {
        Ok(Vec::new())
    }
}

/// A mirror has a keyframe every two seconds, as far as 32 bits hold their distance, which is
/// never 0; all else is as it was asked for.
pub proof fn law_mirror_config(width: u32, height: u32, fps: u32, bitrate_kbps: u32)
    ensures
        ({
            let c = config_for(width, height, fps, bitrate_kbps);
            &&& c.width == width && c.height == height
            &&& c.fps == fps && c.bitrate_kbps == bitrate_kbps
            &&& c.keyframe_interval > 0
            &&& 0 < fps <= u32::MAX / 2 ==> c.keyframe_interval == 2 * fps
            &&& fps > u32::MAX / 2 ==> c.keyframe_interval == u32::MAX
            &&& fps == 0 ==> c.keyframe_interval == 1
        }),
{
}

} // verus!
