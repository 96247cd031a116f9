//! XML documents as sequences of events, read with `quick_xml`.

use quick_xml::events::BytesText;
use quick_xml::events::Event;
use quick_xml::reader::Reader;
use quick_xml::XmlVersion;
use vstd::prelude::*;
use vstd::utf8::decode_utf8;
use vstd::utf8::valid_utf8;

verus! {

/// An event of an XML document.
#[derive(Debug, PartialEq, Eq)]
pub enum XmlEvent {
    /// A start tag: the name without its prefix.
    Start(Vec<u8>),
    /// An end tag: the name without its prefix.
    End(Vec<u8>),
    /// Text between tags, as it stands in the document.
    Text(Vec<u8>),
    /// Anything else inside the document.
    Other,
    /// The end of the document.
    Eof,
    /// The document is not well-formed here.
    Malformed,
}

/// What an event says.
pub enum XmlItem {
    Start(Seq<u8>),
    End(Seq<u8>),
    Text(Seq<u8>),
    Other,
    Eof,
    Malformed,
}

impl View for XmlEvent {
    type V = XmlItem;

    open spec fn view(&self) -> XmlItem {
        match self {
            XmlEvent::Start(name) => XmlItem::Start(name@),
            XmlEvent::End(name) => XmlItem::End(name@),
            XmlEvent::Text(raw) => XmlItem::Text(raw@),
            XmlEvent::Other => XmlItem::Other,
            XmlEvent::Eof => XmlItem::Eof,
            XmlEvent::Malformed => XmlItem::Malformed,
        }
    }
}

/// Reading stops at this event.
pub open spec fn is_last(item: XmlItem) -> bool {
    item is Eof || item is Malformed
}

/// The reader of `quick_xml`.
#[verifier::external_type_specification]
#[verifier::external_body]
#[verifier::reject_recursive_types(R)]
pub struct ExReader<R>(quick_xml::reader::Reader<R>);

/// The events that `quick_xml` finds in a document, in order, up to and with its end or
/// the first place where it is not well-formed.
pub uninterp spec fn xml_events(xml: Seq<char>) -> Seq<XmlItem>;

/// The events that a reader still holds, up to and with the last.
pub uninterp spec fn upcoming(reader: Reader<&[u8]>) -> Seq<XmlItem>;

/// `quick_xml::reader::Reader::from_str`: the reader holds the events of the document,
/// which are at least one, its end.
#[verifier::external_body]
pub(crate) fn open_document(xml: &str) -> (reader: Reader<&[u8]>)
    ensures
        upcoming(reader) == xml_events(xml@),
        upcoming(reader).len() > 0,
{
    Reader::from_str(xml)
}

/// `quick_xml::reader::Reader::read_event`: takes the next event out of the reader. More
/// events follow unless this one was the last. Names are given by `local_name`, text as it
/// stands in the document; comments, declarations and the like are not told apart.
#[verifier::external_body]
pub(crate) fn next_event(reader: &mut Reader<&[u8]>) -> (event: XmlEvent)
    requires
        upcoming(*old(reader)).len() > 0,
    ensures
        event@ == upcoming(*old(reader))[0],
        !is_last(event@) ==> upcoming(*final(reader)) == upcoming(*old(reader)).skip(1),
        !is_last(event@) ==> upcoming(*final(reader)).len() > 0,
{
    match reader.read_event() {
        Ok(Event::Start(e)) => XmlEvent::Start(e.local_name().as_ref().to_vec()),
        Ok(Event::End(e)) => XmlEvent::End(e.local_name().as_ref().to_vec()),
        Ok(Event::Text(e)) => XmlEvent::Text(e.to_vec()),
        Ok(Event::Eof) => XmlEvent::Eof,
        Ok(_) => XmlEvent::Other,
        Err(_) => XmlEvent::Malformed,
    }
}

/// `s` with every line end (a carriage return, with or without a line feed after it) made
/// a line feed.
pub open spec fn line_ends_unified(s: Seq<char>) -> Seq<char>
    decreases s.len(),
{
    if s.len() == 0 {
        s
    } else if s[0] != '\r' {
        seq![s[0]] + line_ends_unified(s.skip(1))
    } else if s.len() > 1 && s[1] == '\n' {
        seq!['\n'] + line_ends_unified(s.skip(2))
    } else {
        seq!['\n'] + line_ends_unified(s.skip(1))
    }
}

/// `quick_xml::events::BytesText::xml_content` for XML 1.0: the text with its line ends
/// made line feeds. It decodes as UTF-8, which cannot fail on a string.
#[verifier::external_body]
fn xml10_content(text: &str) -> (r: Option<String>)
    ensures
        r is Some,
        r->0@ == line_ends_unified(text@),
{
    match BytesText::from_escaped(text).xml_content(XmlVersion::Implicit1_0) {
        Ok(content) => Some(content.into_owned()),
        Err(_) => None,
    }
}

/// The content of a piece of raw text, if it is UTF-8.
pub open spec fn text_content(raw: Seq<u8>) -> Option<Seq<char>> {
    if valid_utf8(raw) {
        Some(line_ends_unified(decode_utf8(raw)))
    } else {
        None
    }
}

/// The content of a piece of raw text, if it is UTF-8.
pub fn content_of(raw: &[u8]) -> (r: Option<String>)
    ensures
        match r {
            Some(s) => text_content(raw@) == Some(s@),
            None => text_content(raw@) is None,
        },
{
    match core::str::from_utf8(raw) {
        Ok(text) => xml10_content(text),
        Err(_) => None,
    }
}

} // verus!
