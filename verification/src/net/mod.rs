//! Network formats: MPEG-TS, RTSP, UPnP, and the HTTP servers for media.

pub mod bplist;
pub mod bplist_dates;
pub mod live_stream;
pub mod media_server;
pub mod mpegts;
pub mod rtsp;
pub mod rtsp_wire;
pub mod upnp;
pub mod xml;
