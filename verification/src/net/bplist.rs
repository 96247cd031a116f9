//! Binary property list (bplist) codec for AirPlay control messages.
//!
//! AirPlay 2 pairing and stream-setup exchange Apple binary property lists. We use the
//! `plist` crate for the wire format and expose thin helpers that map its errors into our
//! [`Error`] type. [`Value`]/[`Dictionary`] are re-exported so callers build messages
//! without depending on `plist` directly.

use vstd::prelude::*;

use crate::net::bplist_dates::plain_dates;
use crate::pipeline::error::Error;
use crate::pipeline::error::ErrorKind;
use crate::text::starts_with;

pub use plist::Dictionary;
pub use plist::Value;

verus! {

/// A property list value of the `plist` crate.
#[verifier::external_type_specification]
#[verifier::external_body]
pub struct ExValue(plist::Value);

/// What a property list says.
pub enum PlistItem {
    Array(Seq<PlistItem>),
    /// Keys and values, in their order.
    Dictionary(Seq<(Seq<char>, PlistItem)>),
    Boolean(bool),
    Data(Seq<u8>),
    /// A time, in nanoseconds. How finely it is kept is up to the platform's `SystemTime`.
    Date(int),
    /// A floating point number, by its bits.
    Real(u64),
    Integer(int),
    Text(Seq<char>),
    Uid(nat),
}

/// What a value of the `plist` crate holds.
pub uninterp spec fn contents(value: Value) -> PlistItem;

/// The binary property list of a value.
pub uninterp spec fn encoded(item: PlistItem) -> Seq<u8>;

/// What a property list says, or how the error describes itself.
pub uninterp spec fn decoded(bytes: Seq<u8>) -> Result<PlistItem, Seq<char>>;

/// No date is in it. A date is written as a floating point number of seconds, which may
/// not give it back to the nanosecond; everything else is written exactly.
pub open spec fn has_no_date(item: PlistItem) -> bool
    decreases item,
{
    match item {
        PlistItem::Array(items) => forall|i: int|
            0 <= i < items.len() ==> has_no_date(#[trigger] items[i]),
        PlistItem::Dictionary(entries) => forall|i: int|
            0 <= i < entries.len() ==> has_no_date((#[trigger] entries[i]).1),
        PlistItem::Date(_) => false,
        _ => true,
    }
}

/// The bytes are read as what they were written from, if no date is in it.
pub open spec fn gives_back(bytes: Seq<u8>, item: PlistItem) -> bool {
    has_no_date(item) ==> decoded(bytes) == Ok::<PlistItem, Seq<char>>(item)
}

/// The bytes `bplist00`, with which every binary property list begins.
pub open spec fn magic() -> Seq<u8> {
    seq![98u8, 112u8, 108u8, 105u8, 115u8, 116u8, 48u8, 48u8]
}

/// `plist::Value::to_writer_binary`, into memory, where every value can be written. What it
/// writes begins with the magic bytes, and `plist::Value::from_reader` reads it back, except
/// that a date may come back changed. An error would be given by its `Display` text.
#[verifier::external_body]
fn encode(value: &Value) -> (r: Result<Vec<u8>, String>)
    ensures
        r is Ok,
        r->Ok_0@ == encoded(contents(*value)),
        starts_with(r->Ok_0@, magic()),
        gives_back(r->Ok_0@, contents(*value)),
{
    let mut buf = Vec::new();
    match value.to_writer_binary(&mut buf) {
        Ok(()) => Ok(buf),
        Err(e) => Err(e.to_string()),
    }
}

/// `plist::Value::from_reader`, from memory: a property list in any of its encodings. An
/// error is given by its `Display` text. An XML date whose year is out of range makes it
/// panic, and is left out.
#[verifier::external_body]
fn decode(bytes: &[u8]) -> (r: Result<Value, String>)
    requires
        plain_dates(bytes@),
    ensures
        match r {
            Ok(value) => decoded(bytes@) == Ok::<PlistItem, Seq<char>>(contents(value)),
            Err(text) => decoded(bytes@) == Err::<PlistItem, Seq<char>>(text@),
        },
{
    match Value::from_reader(std::io::Cursor::new(bytes)) {
        Ok(value) => Ok(value),
        Err(e) => Err(e.to_string()),
    }
}

/// What an attempt to encode amounts to: the bytes, or an error that quotes the cause.
pub fn encoding_outcome(attempt: Result<Vec<u8>, String>) -> (r: Result<Vec<u8>, Error>)
    ensures
        match attempt {
            Ok(bytes) => r == Ok::<Vec<u8>, Error>(bytes),
            Err(cause) => r matches Err(e) && e@ == (
                ErrorKind::Protocol,
                "bplist encode failed: "@ + cause@,
            ),
        },
{
    match attempt {
        Ok(bytes) => Ok(bytes),
        Err(cause) => Err(
            Error::Protocol(String::from_str("bplist encode failed: ").concat(cause.as_str())),
        ),
    }
}

/// What an attempt to decode amounts to: the value, or an error that quotes the cause.
pub fn decoding_outcome(attempt: Result<Value, String>) -> (r: Result<Value, Error>)
    ensures
        match attempt {
            Ok(value) => r == Ok::<Value, Error>(value),
            Err(cause) => r matches Err(e) && e@ == (
                ErrorKind::Protocol,
                "bplist decode failed: "@ + cause@,
            ),
        },
{
    match attempt {
        Ok(value) => Ok(value),
        Err(cause) => Err(
            Error::Protocol(String::from_str("bplist decode failed: ").concat(cause.as_str())),
        ),
    }
}

/// Encode a property-list value as a binary plist (`bplist00`). A value without dates is
/// read back from it.
pub fn to_binary(value: &Value) -> (r: Result<Vec<u8>, Error>)
    ensures
        r matches Ok(bytes) && {
            &&& bytes@ == encoded(contents(*value))
            &&& starts_with(bytes@, magic())
            &&& gives_back(bytes@, contents(*value))
        },
{
    encoding_outcome(encode(value))
}

/// Decode a binary (or XML) property list into a value. An XML list may hold no date out of
/// range: see [`has_plain_dates`](crate::net::bplist_dates::has_plain_dates).
pub fn from_binary(bytes: &[u8]) -> (r: Result<Value, Error>)
    requires
        plain_dates(bytes@),
    ensures
        match r {
            Ok(value) => decoded(bytes@) == Ok::<PlistItem, Seq<char>>(contents(value)),
            Err(e) => decoded(bytes@) matches Err(cause) && e@ == (
                ErrorKind::Protocol,
                "bplist decode failed: "@ + cause,
            ),
        },
{
    decoding_outcome(decode(bytes))
}

} // verus!
