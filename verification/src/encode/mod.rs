//! Hardware H.264 video encoding.
//!
//! Takes captured frames (NV12) and produces Annex-B H.264 access units ready for the TS
//! muxer. The calls into VideoToolbox (macOS) and Media Foundation (Windows) are made
//! elsewhere; here is what goes into them and what is made of their output.

pub mod annexb;
pub mod encoder;
pub mod media_foundation;
pub mod planes;
pub mod video_toolbox;
