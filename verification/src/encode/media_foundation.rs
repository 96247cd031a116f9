//! What is asked of the Media Foundation H.264 encoder, and its clock.

use vstd::prelude::*;

use crate::encode::encoder::EncoderConfig;
use crate::encode::video_toolbox::signed;
use crate::encode::video_toolbox::to_signed;

verus! {

/// The attributes of the encoder's media types, and the values that go with its samples.
#[derive(Debug, Clone, Copy, PartialEq, Eq, Structural)]
pub struct MfSettings {
    /// `MF_MT_AVG_BITRATE`, in bits per second.
    pub avg_bitrate: u32,
    /// `MF_MT_FRAME_SIZE`: width and height.
    pub frame_size: u64,
    /// `MF_MT_FRAME_RATE`: a ratio.
    pub frame_rate: u64,
    /// `MF_MT_PIXEL_ASPECT_RATIO`: a ratio.
    pub pixel_aspect_ratio: u64,
    /// The duration of a sample, in units of 100 ns.
    pub frame_duration_100ns: i64,
    /// `CODECAPI_AVEncMPVGOPSize`: the number of frames between IDRs.
    pub gop_size: i32,
}

/// Two numbers in the form that size and ratio attributes have: high, low.
pub open spec fn packed(high: u32, low: u32) -> int {
    high * 0x1_0000_0000 + low
}

/// Pack two u32s into the u64 form MF uses for size/ratio attributes (high | low).
pub fn pack_u64(high: u32, low: u32) -> (r: u64)
    ensures
        r == packed(high, low),
{
    high as u64 * 0x1_0000_0000 + low as u64
}

/// Kilobits as bits, no more than 32 bits hold.
pub open spec fn bits_of(kbps: u32) -> int {
    if kbps * 1000 <= u32::MAX {
        kbps * 1000
    } else {
        u32::MAX as int
    }
}

/// What a configuration asks of the encoder.
pub fn mf_settings(config: &EncoderConfig) -> (s: MfSettings)
    ensures
        s.avg_bitrate == bits_of(config.bitrate_kbps),
        s.frame_size == packed(config.width, config.height),
        s.frame_rate == packed(config.fps, 1),
        s.pixel_aspect_ratio == packed(1, 1),
        s.frame_duration_100ns == 10_000_000int / (if config.fps == 0 {
            1int
        } else {
            config.fps as int
        }),
        s.gop_size == signed(config.keyframe_interval),
{
    let fps: u32 = if config.fps == 0 {
        1
    } else {
        config.fps
    };
    let avg_bitrate: u32 = if config.bitrate_kbps <= u32::MAX / 1000 {
        config.bitrate_kbps * 1000
    } else {
        u32::MAX
    };
    MfSettings {
        avg_bitrate,
        frame_size: pack_u64(config.width, config.height),
        frame_rate: pack_u64(config.fps, 1),
        pixel_aspect_ratio: pack_u64(1, 1),
        frame_duration_100ns: (10_000_000u64 / fps as u64) as i64,
        gop_size: to_signed(config.keyframe_interval),
    }
}

/// The size of an output buffer: what the encoder asks for, and at least a byte a pixel.
pub fn output_buffer_size(asked: u32, width: u32, height: u32) -> (n: u32)
    requires
        width * height <= u32::MAX,
    ensures
        n == if asked as int >= width * height {
            asked as int
        } else {
            width * height
        },
{
    let pixels: u32 = width * height;
    if asked >= pixels {
        asked
    } else {
        pixels
    }
}

/// A timestamp as a signed number, as two's complement gives it.
pub open spec fn as_signed(pts: u64) -> int {
    if pts <= i64::MAX {
        pts as int
    } else {
        pts - 0x1_0000_0000_0000_0000
    }
}

/// A 90 kHz timestamp in units of 100 ns: `pts * 1000 / 9`, where the product is held
/// within 64 bits and the quotient is rounded towards zero.
pub open spec fn sample_time(pts: u64) -> int {
    let n = as_signed(pts) * 1000;
    if n > i64::MAX {
        i64::MAX as int / 9
    } else if n >= 0 {
        n / 9
    } else if n >= i64::MIN {
        -((-n) / 9)
    } else {
        -(-(i64::MIN as int) / 9)
    }
}

/// A 90 kHz timestamp in units of 100 ns.
pub fn time_100ns(pts: u64) -> (t: i64)
    ensures
        t == sample_time(pts),
{
    if pts <= 0x7FFF_FFFF_FFFF_FFFF {
        let n: u128 = pts as u128 * 1000;
        if n > 0x7FFF_FFFF_FFFF_FFFF {
            (0x7FFF_FFFF_FFFF_FFFFu64 / 9) as i64
        } else {
            (n as u64 / 9) as i64
        }
    } else {
        // Below zero: the distance to zero.
        let n: u128 = (0xFFFF_FFFF_FFFF_FFFF - pts) as u128 * 1000 + 1000;
        let q: u64 = if n > 0x8000_0000_0000_0000 {
            0x8000_0000_0000_0000u64 / 9
        } else {
            n as u64 / 9
        };
        -(q as i64)
    }
}

/// The 90 kHz timestamp of a sample time in units of 100 ns: `t * 9 / 1000`, where the
/// product is held within 64 bits; 0 before the origin or without a time.
pub open spec fn sample_ticks(time: Option<i64>) -> int {
    match time {
        Some(t) => if t < 0 {
            0
        } else if t * 9 <= u64::MAX {
            t * 9 / 1000
        } else {
            u64::MAX as int / 1000
        },
        None => 0,
    }
}

/// The 90 kHz timestamp of a sample time in units of 100 ns.
pub fn sample_pts(time: Option<i64>) -> (pts: u64)
    ensures
        pts == sample_ticks(time),
{
    match time {
        Some(t) => if t < 0 {
            0
        } else {
            let n: u128 = t as u128 * 9;
            if n <= u64::MAX as u128 {
                n as u64 / 1000
            } else {
                u64::MAX / 1000
            }
        },
        None => 0,
    }
}

/// Whether a sample is a keyframe: the encoder marks IDR samples with a clean-point
/// attribute that is not 0.
pub fn is_clean_point(attribute: Option<u32>) -> (r: bool)
    ensures
        r == (attribute matches Some(v) && v != 0),
{
    match attribute {
        Some(v) => v != 0,
        None => false,
    }
}

/// A timestamp survives the way through the encoder's clock up to one tick.
pub proof fn law_clock_round_trip(pts: u64)
    requires
        pts * 1000 <= i64::MAX,
    ensures
        sample_ticks(Some(sample_time(pts) as i64)) <= pts,
        pts <= sample_ticks(Some(sample_time(pts) as i64)) + 1,
{
}

/// The two numbers of a size or a ratio are read back from its halves.
pub proof fn law_packed_halves(high: u32, low: u32)
    ensures
        packed(high, low) / 0x1_0000_0000 == high,
        packed(high, low) % 0x1_0000_0000 == low,
        0 <= packed(high, low) <= u64::MAX,
{
}

/// A bitrate in kilobits is a thousand times as many bits, or the most that 32 bits hold.
pub proof fn law_bitrate(kbps: u32)
    ensures
        bits_of(kbps) == kbps * 1000 || (bits_of(kbps) == 0xFFFF_FFFF && kbps * 1000
            > 0xFFFF_FFFF),
        0 <= bits_of(kbps) <= 0xFFFF_FFFF,
{
}

/// A sample time is the number of whole units of 100 ns in a timestamp, of which a second has
/// 10 000 000 where it has 90 000 ticks; and back again the whole ticks in a sample time.
pub proof fn law_sample_times(pts: u64, t: i64)
    ensures
        pts * 1000 <= i64::MAX ==> sample_time(pts) * 90_000 <= pts * 10_000_000 < (sample_time(pts)
            + 1) * 90_000,
        0 <= t && t * 9 <= u64::MAX ==> sample_ticks(Some(t)) * 10_000_000 <= t * 90_000 < (
        sample_ticks(Some(t)) + 1) * 10_000_000,
        t < 0 ==> sample_ticks(Some(t)) == 0,
        sample_ticks(None) == 0,
{
}

/// Later timestamps never have earlier sample times, nor later sample times earlier
/// timestamps.
pub proof fn law_sample_times_in_order(a: u64, b: u64, s: i64, t: i64)
    ensures
        a <= b <= i64::MAX ==> sample_time(a) <= sample_time(b),
        s <= t ==> sample_ticks(Some(s)) <= sample_ticks(Some(t)),
{
}

/// A timestamp of which the highest bit is set counts as below zero, and mirrors the one as
/// far above it.
pub proof fn law_sample_time_below_zero(pts: u64)
    requires
        pts > i64::MAX,
        pts > 0x8000_0000_0000_0000,
        (0x1_0000_0000_0000_0000 - pts) * 1000 <= i64::MAX,
    ensures
        sample_time(pts) == -sample_time((0x1_0000_0000_0000_0000 - pts) as u64),
{
}

} // verus!
