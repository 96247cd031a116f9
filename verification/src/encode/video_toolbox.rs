//! What is asked of the VideoToolbox H.264 encoder.

use vstd::prelude::*;

use crate::encode::encoder::EncoderConfig;

verus! {

/// The dimensions and the properties of a compression session.
#[derive(Debug, Clone, Copy, PartialEq, Eq, Structural)]
pub struct VtSettings {
    pub width: i32,
    pub height: i32,
    /// `kVTCompressionPropertyKey_RealTime`.
    pub real_time: bool,
    /// `kVTCompressionPropertyKey_AllowFrameReordering`.
    pub allow_frame_reordering: bool,
    /// `kVTCompressionPropertyKey_AverageBitRate`, in bits per second.
    pub average_bit_rate: i32,
    /// `kVTCompressionPropertyKey_MaxKeyFrameInterval`, in frames.
    pub max_key_frame_interval: i32,
}

/// `n` as a signed number, as two's complement gives it.
pub open spec fn signed(n: u32) -> int {
    if n <= i32::MAX {
        n as int
    } else {
        n - 0x1_0000_0000
    }
}

/// `n` as a signed number, as two's complement gives it.
pub fn to_signed(n: u32) -> (r: i32)
    ensures
        r == signed(n),
{
    if n <= 0x7FFF_FFFF {
        n as i32
    } else {
        -((0xFFFF_FFFF - n) as i32) - 1
    }
}

/// What a configuration asks of the encoder: low latency, without reordered frames.
pub fn vt_settings(config: &EncoderConfig) -> (s: VtSettings)
    requires
        i32::MIN <= signed(config.bitrate_kbps) * 1000 <= i32::MAX,
    ensures
        s.width == signed(config.width),
        s.height == signed(config.height),
        s.real_time,
        !s.allow_frame_reordering,
        s.average_bit_rate == signed(config.bitrate_kbps) * 1000,
        s.max_key_frame_interval == signed(config.keyframe_interval),
{
    VtSettings {
        width: to_signed(config.width),
        height: to_signed(config.height),
        real_time: true,
        allow_frame_reordering: false,
        average_bit_rate: to_signed(config.bitrate_kbps) * 1000,
        max_key_frame_interval: to_signed(config.keyframe_interval),
    }
}

/// The signed number of 32 bits is the one that differs from the unsigned by a multiple of
/// 2^32.
pub proof fn law_signed(n: u32)
    ensures
        -0x8000_0000 <= signed(n) <= 0x7FFF_FFFF,
        signed(n) % 0x1_0000_0000 == n,
{
}

} // verus!
