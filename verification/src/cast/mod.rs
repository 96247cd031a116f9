//! The decisions of the command line and of the desktop app: which device is meant, what
//! is asked of it, and how the capture and encode loop runs.

pub mod choices;
pub mod labels;
pub mod pump;
pub mod request;
pub mod target;
