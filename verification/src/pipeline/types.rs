//! Shared value types used across the capture -> encode -> sink pipeline.

use vstd::prelude::*;

use crate::pipeline::address::IpAddr;
use crate::pipeline::time::Duration;
use crate::text::same_text;

verus! {

/// A casting transport that a device can speak.
#[derive(Debug, Clone, Copy, PartialEq, Eq, Hash, Structural)]
pub enum Protocol {
    /// AirPlay 2 screen mirroring (low-latency mirror).
    AirPlayMirror,
    /// AirPlay video: push a media URL for native playback.
    AirPlayVideo,
    /// DLNA / UPnP AV media renderer.
    Dlna,
    /// Miracast (Wi-Fi Direct mirror), Windows sender only.
    Miracast,
    /// Google Cast.
    Cast,
}

/// A discovered cast target on the local network.
#[derive(Debug, Clone, PartialEq, Eq)]
pub struct Device {
    /// Stable identifier (e.g. mDNS/USN name).
    pub id: String,
    /// Human-readable name to show in the UI.
    pub name: String,
    /// Network address.
    pub address: IpAddr,
    /// Control port.
    pub port: u16,
    /// Transports this device advertises, best-first.
    pub protocols: Vec<Protocol>,
    /// Absolute AVTransport control URL (DLNA devices only), resolved from the device
    /// description. `None` for devices without a known DLNA control endpoint.
    pub dlna_control_url: Option<String>,
    /// URL of the DLNA device-description document (from SSDP `LOCATION`). Retained so
    /// the control URL can be recovered on demand if description enrichment failed.
    pub dlna_location: Option<String>,
}

/// What an optional string holds.
pub open spec fn optional_text(s: Option<String>) -> Option<Seq<char>> {
    match s {
        Some(t) => Some(t@),
        None => None,
    }
}

/// A copy of an optional string.
pub fn copy_optional(s: &Option<String>) -> (r: Option<String>)
    ensures
        optional_text(r) == optional_text(*s),
        r is Some == s is Some,
{
    match s {
        Some(t) => Some(t.clone()),
        None => None,
    }
}

/// What a device says of itself.
#[verifier::ext_equal]
pub struct DeviceText {
    pub id: Seq<char>,
    pub name: Seq<char>,
    pub address: IpAddr,
    pub port: u16,
    pub protocols: Seq<Protocol>,
    pub dlna_control_url: Option<Seq<char>>,
    pub dlna_location: Option<Seq<char>>,
}

impl View for Device {
    type V = DeviceText;

    open spec fn view(&self) -> DeviceText {
        DeviceText {
            id: self.id@,
            name: self.name@,
            address: self.address,
            port: self.port,
            protocols: self.protocols@,
            dlna_control_url: optional_text(self.dlna_control_url),
            dlna_location: optional_text(self.dlna_location),
        }
    }
}

/// What a list of devices says.
pub open spec fn device_list(devices: Seq<Device>) -> Seq<DeviceText> {
    devices.map_values(|d: Device| d@)
}

/// Whether two optional strings hold the same.
pub fn same_optional(a: &Option<String>, b: &Option<String>) -> (r: bool)
    ensures
        r == (optional_text(*a) == optional_text(*b)),
{
    match (a, b) {
        (Some(x), Some(y)) => same_text(x.as_str(), y.as_str()),
        (None, None) => true,
        _ => false,
    }
}

impl Device {
    /// Whether two devices are the same in everything.
    pub fn same(&self, other: &Device) -> (r: bool)
        ensures
            r == (self@ == other@),
    {
        if self.protocols.len() != other.protocols.len() {
            return false;
        }
        let mut i: usize = 0;
        while i < self.protocols.len()
            invariant
                i <= self.protocols@.len(),
                self.protocols@.len() == other.protocols@.len(),
                forall|k: int| 0 <= k < i ==> self.protocols@[k] == other.protocols@[k],
            decreases self.protocols@.len() - i,
        {
            if self.protocols[i] != other.protocols[i] {
                return false;
            }
            i += 1;
        }
        assert(self.protocols@ =~= other.protocols@);
        same_text(self.id.as_str(), other.id.as_str()) && same_text(
            self.name.as_str(),
            other.name.as_str(),
        ) && self.address == other.address && self.port == other.port && same_optional(
            &self.dlna_control_url,
            &other.dlna_control_url,
        ) && same_optional(&self.dlna_location, &other.dlna_location)
    }

    /// A copy of the device.
    pub fn copy(&self) -> (r: Device)
        ensures
            r@ == self@,
    {
        let mut protocols: Vec<Protocol> = Vec::new();
        let mut i: usize = 0;
        while i < self.protocols.len()
            invariant
                i <= self.protocols@.len(),
                protocols@ == self.protocols@.take(i as int),
            decreases self.protocols@.len() - i,
        {
            protocols.push(self.protocols[i]);
            i += 1;
            assert(protocols@ =~= self.protocols@.take(i as int));
        }
        assert(self.protocols@.take(self.protocols@.len() as int) =~= self.protocols@);
        Device {
            id: self.id.clone(),
            name: self.name.clone(),
            address: self.address,
            port: self.port,
            protocols,
            dlna_control_url: copy_optional(&self.dlna_control_url),
            dlna_location: copy_optional(&self.dlna_location),
        }
    }
}

/// Whether two lists hold the same devices in the same order.
pub fn same_devices(a: &Vec<Device>, b: &Vec<Device>) -> (r: bool)
    ensures
        r == (device_list(a@) == device_list(b@)),
{
    if a.len() != b.len() {
        return false;
    }
    let mut i: usize = 0;
    while i < a.len()
        invariant
            i <= a@.len(),
            a@.len() == b@.len(),
            forall|k: int| 0 <= k < i ==> (#[trigger] device_list(a@)[k]) == device_list(b@)[k],
        decreases a@.len() - i,
    {
        if !a[i].same(&b[i]) {
            assert(device_list(a@)[i as int] != device_list(b@)[i as int]);
            return false;
        }
        i += 1;
    }
    assert(device_list(a@) =~= device_list(b@));
    true
}

/// A copy of a list of devices.
pub fn copy_devices(devices: &Vec<Device>) -> (r: Vec<Device>)
    ensures
        device_list(r@) == device_list(devices@),
{
    let mut out: Vec<Device> = Vec::new();
    let mut i: usize = 0;
    while i < devices.len()
        invariant
            i <= devices@.len(),
            device_list(out@) == device_list(devices@).take(i as int),
        decreases devices@.len() - i,
    {
        let ghost before = device_list(out@);
        out.push(devices[i].copy());
        assert(device_list(out@) =~= before.push(devices@[i as int]@));
        i += 1;
        assert(device_list(out@) =~= device_list(devices@).take(i as int));
    }
    assert(device_list(devices@).take(devices@.len() as int) =~= device_list(devices@));
    out
}

/// Monotonic capture-clock timestamp shared by audio and video, for A/V sync.
#[derive(Debug, Clone, Copy, PartialEq, Eq, PartialOrd, Ord, Structural)]
pub struct Timestamp(pub Duration);

/// Video codec for an encoded unit.
#[derive(Debug, Clone, Copy, PartialEq, Eq, Structural)]
pub enum VideoCodec {
    /// H.264 / AVC (required by AirPlay mirroring).
    H264,
    /// H.265 / HEVC (higher quality where the TV supports it).
    Hevc,
}

/// Audio codec for an encoded unit.
#[derive(Debug, Clone, Copy, PartialEq, Eq, Structural)]
pub enum AudioCodec {
    /// AAC.
    Aac,
    /// Linear PCM.
    Pcm,
}

/// Requested video capture/encode configuration.
#[derive(Debug, Clone, Copy, PartialEq, Eq, Structural)]
pub struct VideoConfig {
    /// Target width in pixels.
    pub width: u32,
    /// Target height in pixels.
    pub height: u32,
    /// Target frames per second.
    pub fps: u32,
    /// Target bitrate in kilobits per second.
    pub bitrate_kbps: u32,
    /// Codec to encode with.
    pub codec: VideoCodec,
}

impl Default for VideoConfig {
    fn default() -> (c: Self)
        ensures
            c == (VideoConfig {
                width: 1920,
                height: 1080,
                fps: 60,
                bitrate_kbps: 20_000,
                codec: VideoCodec::H264,
            }),
    {
        VideoConfig {
            width: 1920,
            height: 1080,
            fps: 60,
            bitrate_kbps: 20_000,
            codec: VideoCodec::H264,
        }
    }
}

/// A captured video frame backed by a platform GPU surface.
///
/// For now this carries only metadata; backends will attach a zero-copy GPU surface
/// handle (`IOSurface` / `D3D11Texture2D` / `DMA-BUF`).
#[derive(Debug, Clone, Copy, PartialEq, Eq, Structural)]
pub struct VideoFrame {
    /// Presentation timestamp on the shared capture clock.
    pub pts: Timestamp,
    /// Frame width in pixels.
    pub width: u32,
    /// Frame height in pixels.
    pub height: u32,
}

/// A captured chunk of system audio (interleaved PCM in the skeleton).
#[derive(Debug, Clone, PartialEq, Eq)]
pub struct AudioFrame {
    /// Presentation timestamp on the shared capture clock.
    pub pts: Timestamp,
    /// Sample rate in Hz.
    pub sample_rate: u32,
    /// Channel count.
    pub channels: u8,
    /// Interleaved signed 16-bit samples.
    pub samples: Vec<i16>,
}

/// One encoded, ready-to-send media unit (e.g. an H.264 access unit or AAC frame).
#[derive(Debug, Clone, PartialEq, Eq)]
pub struct EncodedUnit {
    /// Presentation timestamp on the shared capture clock.
    pub pts: Timestamp,
    /// Whether this unit is a keyframe / sync sample.
    pub keyframe: bool,
    /// Encoded bytes (Annex-B for H.264/HEVC video units).
    pub data: Vec<u8>,
}

/// What a given [`crate::pipeline::traits::CastSink`] can accept, used to negotiate quality.
#[derive(Debug, Clone, PartialEq, Eq)]
pub struct SinkCaps {
    /// Video codecs the sink accepts.
    pub video_codecs: Vec<VideoCodec>,
    /// Audio codecs the sink accepts.
    pub audio_codecs: Vec<AudioCodec>,
    /// Maximum width the sink accepts.
    pub max_width: u32,
    /// Maximum height the sink accepts.
    pub max_height: u32,
    /// Maximum frame rate the sink accepts.
    pub max_fps: u32,
    /// True if the sink wants a muxed container/URL (DLNA) rather than raw units
    /// (AirPlay mirror). Drives which pipeline runs.
    pub needs_container: bool,
}

} // verus!
