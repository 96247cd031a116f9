//! The contracts of the capture, encode and cast pipeline, and its shared values.

pub mod address;
pub mod clock;
pub mod error;
pub mod session;
pub mod time;
pub mod traits;
pub mod types;
