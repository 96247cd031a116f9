//! The error type shared across the pipeline.

use vstd::prelude::*;

verus! {

/// Errors surfaced by the pipeline and its backends. Each carries its detail as text.
#[derive(Debug)]
pub enum Error {
    /// Screen/audio capture failed.
    Capture(String),
    /// Encoding failed.
    Encode(String),
    /// A cast transport (AirPlay/DLNA/...) failed.
    Sink(String),
    /// Device discovery failed.
    Discovery(String),
    /// An OS permission (e.g. macOS Screen Recording) was not granted.
    PermissionDenied(String),
    /// The target device could not be reached.
    DeviceUnreachable(String),
    /// A protocol-level failure (handshake, packetization, ...).
    Protocol(String),
    /// The requested operation is not supported on this platform/device.
    Unsupported(String),
    /// Any other error, as the text it describes itself with.
    Other(String),
}

/// The variant of an [`Error`].
#[derive(Clone, Copy, PartialEq, Eq, Structural)]
pub enum ErrorKind {
    Capture,
    Encode,
    Sink,
    Discovery,
    PermissionDenied,
    DeviceUnreachable,
    Protocol,
    Unsupported,
    Other,
}

/// What the text of an error of a kind begins with.
pub open spec fn error_prefix(kind: ErrorKind) -> Seq<char> {
    match kind {
        ErrorKind::Capture => "capture error: "@,
        ErrorKind::Encode => "encode error: "@,
        ErrorKind::Sink => "sink error: "@,
        ErrorKind::Discovery => "discovery error: "@,
        ErrorKind::PermissionDenied => "permission denied: "@,
        ErrorKind::DeviceUnreachable => "device unreachable: "@,
        ErrorKind::Protocol => "protocol error: "@,
        ErrorKind::Unsupported => "not supported: "@,
        ErrorKind::Other => ""@,
    }
}

impl View for Error {
    type V = (ErrorKind, Seq<char>);

    /// The kind of the error and its detail.
    open spec fn view(&self) -> (ErrorKind, Seq<char>) {
        match self {
            Error::Capture(s) => (ErrorKind::Capture, s@),
            Error::Encode(s) => (ErrorKind::Encode, s@),
            Error::Sink(s) => (ErrorKind::Sink, s@),
            Error::Discovery(s) => (ErrorKind::Discovery, s@),
            Error::PermissionDenied(s) => (ErrorKind::PermissionDenied, s@),
            Error::DeviceUnreachable(s) => (ErrorKind::DeviceUnreachable, s@),
            Error::Protocol(s) => (ErrorKind::Protocol, s@),
            Error::Unsupported(s) => (ErrorKind::Unsupported, s@),
            Error::Other(s) => (ErrorKind::Other, s@),
        }
    }
}

impl Error {
    /// The error as one line of text: what kind it is, then its detail. Any other error
    /// is shown by its detail alone.
    pub fn text(&self) -> (r: String)
        ensures
            r@ == error_prefix(self@.0) + self@.1,
    {
        match self {
            Error::Capture(s) => String::from_str("capture error: ").concat(s.as_str()),
            Error::Encode(s) => String::from_str("encode error: ").concat(s.as_str()),
            Error::Sink(s) => String::from_str("sink error: ").concat(s.as_str()),
            Error::Discovery(s) => String::from_str("discovery error: ").concat(s.as_str()),
            Error::PermissionDenied(s) => String::from_str("permission denied: ").concat(
                s.as_str(),
            ),
            Error::DeviceUnreachable(s) => String::from_str("device unreachable: ").concat(
                s.as_str(),
            ),
            Error::Protocol(s) => String::from_str("protocol error: ").concat(s.as_str()),
            Error::Unsupported(s) => String::from_str("not supported: ").concat(s.as_str()),
            Error::Other(s) => String::from_str("").concat(s.as_str()),
        }
    }
}

} // verus!
