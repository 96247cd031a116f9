//! What the settings of the desktop app stand for.

use vstd::prelude::*;

verus! {

/// The frame rate for a choice in the app: the second is 30, the others 60.
pub fn fps_for(choice: i32) -> (fps: u32)
    ensures
        fps == if choice == 1 {
            30int
        } else {
            60
        },
{
    if choice == 1 {
        30
    } else {
        60
    }
}

/// The H.264 bitrate ceiling, in kbps, for a quality tier in the app. Capture is at the
/// display's native resolution.
pub fn bitrate_for(quality: i32) -> (kbps: u32)
    ensures
        kbps == if quality == 3 {
            45_000int
        } else if quality == 2 {
            24_000
        } else if quality == 1 {
            12_000
        } else {
            16_000
        },
{
    match quality {
        3 => 45_000,  // 4K
        2 => 24_000,  // 1440p (2K)
        1 => 12_000,  // 1080p
        _ => 16_000,  // Auto
    }
}

/// What is shown while the screen is mirrored to a device.
pub fn mirroring_text(name: &str) -> (r: String)
    ensures
        r@ == name@ + " · screen"@,
{
    String::from_str(name).concat(" · screen")
}

/// The average frame rate of a capture that ran for `secs` seconds.
pub fn average_fps(frames: u32, secs: u64) -> (fps: u64)
    ensures
        fps == frames as int / (if secs == 0 {
            1int
        } else {
            secs as int
        }),
{
    frames as u64 / (if secs == 0 {
        1
    } else {
        secs
    })
}

} // verus!
