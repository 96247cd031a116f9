//! Minimal RTSP/1.0 message framing for the AirPlay control channel.
//!
//! AirPlay's control session is a sequence of RTSP-style request/response exchanges over
//! a single TCP connection (`POST /pair-setup`, `SETUP`, `RECORD`, `SET_PARAMETER`, ...).
//! This module is the deterministic codec for those messages (building requests and
//! parsing responses) and the state of the connection that exchanges them.

use vstd::prelude::*;
use vstd::slice::slice_subrange;
use vstd::slice::slice_to_vec;
use vstd::utf8::decode_utf8;
use vstd::utf8::encode_utf8;
use vstd::utf8::valid_utf8;

use crate::bytes::append_bytes;
use crate::pipeline::error::Error;
use crate::pipeline::error::ErrorKind;
use crate::text::before;
use crate::text::before_char;
use crate::text::chars_of;
use crate::text::debug_string;
use crate::text::debug_text;
use crate::text::decimal;
use crate::text::decimal_text;
use crate::text::eq_ignore_case;
use crate::text::find;
use crate::text::find_from;
use crate::text::is_free_of;
use crate::text::law_cut_at_char;
use crate::text::law_decimal_round_trip;
use crate::text::lemma_find_from;
use crate::text::lemma_find_prefix;
use crate::text::lowered;
use crate::text::number;
use crate::text::occurs_at;
use crate::text::parse_number;
use crate::text::same_but_case;
use crate::text::split;
use crate::text::split_at_char;
use crate::text::split_text;
use crate::text::split_once;
use crate::text::starts_with;
use crate::text::starts_with_text;
use crate::text::string_of;
use crate::text::trim_chars;
use crate::text::trimmed;

verus! {

/// A header: its name and its value.
pub type HeaderText = (Seq<char>, Seq<char>);

/// What a list of headers says.
pub open spec fn header_list(headers: Seq<(String, String)>) -> Seq<HeaderText> {
    headers.map_values(|h: (String, String)| (h.0@, h.1@))
}

/// The value of the first header with the given name, whatever its case.
pub open spec fn lookup(headers: Seq<HeaderText>, name: Seq<char>) -> Option<Seq<char>>
    decreases headers.len(),
{
    if headers.len() == 0 {
        None
    } else {
        match lookup(headers.drop_last(), name) {
            Some(v) => Some(v),
            None => if same_but_case(headers.last().0, name) {
                Some(headers.last().1)
            } else {
                None
            },
        }
    }
}

fn find_header<'a>(headers: &'a Vec<(String, String)>, name: &str) -> (r: Option<&'a str>)
    ensures
        match r {
            Some(v) => lookup(header_list(headers@), name@) == Some(v@),
            None => lookup(header_list(headers@), name@) is None,
        },
{
    let ghost list = header_list(headers@);
    let mut i: usize = 0;
    while i < headers.len()
        invariant
            i <= headers@.len(),
            list == header_list(headers@),
            lookup(list.take(i as int), name@) is None,
        decreases headers@.len() - i,
    {
        assert(list.take(i + 1).drop_last() =~= list.take(i as int));
        if eq_ignore_case(headers[i].0.as_str(), name) {
            proof {
                lemma_lookup_prefix(list, name@, i + 1);
            }
            return Some(headers[i].1.as_str());
        }
        i += 1;
    }
    assert(list.take(list.len() as int) =~= list);
    None
}

proof fn lemma_lookup_prefix(headers: Seq<HeaderText>, name: Seq<char>, k: int)
    requires
        0 <= k <= headers.len(),
        lookup(headers.take(k), name) is Some,
    ensures
        lookup(headers, name) == lookup(headers.take(k), name),
    decreases headers.len() - k,
{
    if k == headers.len() {
        assert(headers.take(k) =~= headers);
    } else {
        assert(headers.take(k + 1).drop_last() =~= headers.take(k));
        lemma_lookup_prefix(headers, name, k + 1);
    }
}

// --- Requests ------------------------------------------------------------------------

/// An RTSP request to send to the receiver.
#[derive(Debug, Clone, PartialEq, Eq)]
pub struct RtspRequest {
    /// RTSP method (e.g. `POST`, `SETUP`, `RECORD`, `GET_PARAMETER`).
    pub method: String,
    /// Request URI (e.g. `/pair-setup`, `rtsp://host/stream`, or `*`).
    pub uri: String,
    /// Ordered headers; insertion order is preserved on the wire.
    pub headers: Vec<(String, String)>,
    /// Message body (may be empty).
    pub body: Vec<u8>,
}

/// What a request says.
#[verifier::ext_equal]
pub struct RequestText {
    pub method: Seq<char>,
    pub uri: Seq<char>,
    pub headers: Seq<HeaderText>,
    pub body: Seq<u8>,
}

impl View for RtspRequest {
    type V = RequestText;

    open spec fn view(&self) -> RequestText {
        RequestText {
            method: self.method@,
            uri: self.uri@,
            headers: header_list(self.headers@),
            body: self.body@,
        }
    }
}

/// `name` is one of the headers that describe a body.
pub open spec fn describes_body(name: Seq<char>) -> bool {
    same_but_case(name, "content-type"@) || same_but_case(name, "content-length"@)
}

/// The headers that do not describe a body, in their order.
pub open spec fn without_body_headers(headers: Seq<HeaderText>) -> Seq<HeaderText>
    decreases headers.len(),
{
    if headers.len() == 0 {
        headers
    } else if describes_body(headers.last().0) {
        without_body_headers(headers.drop_last())
    } else {
        without_body_headers(headers.drop_last()).push(headers.last())
    }
}

/// The lines of a list of headers.
pub open spec fn header_lines(headers: Seq<HeaderText>) -> Seq<char>
    decreases headers.len(),
{
    if headers.len() == 0 {
        Seq::empty()
    } else {
        header_lines(headers.drop_last()) + headers.last().0 + ": "@ + headers.last().1 + "\r\n"@
    }
}

impl RequestText {
    /// The request with a header appended.
    pub open spec fn with_header(self, name: Seq<char>, value: Seq<char>) -> RequestText {
        RequestText { headers: self.headers.push((name, value)), ..self }
    }

    /// The request line, the headers and the blank line.
    pub open spec fn head(self) -> Seq<char> {
        self.method + " "@ + self.uri + " RTSP/1.0\r\n"@ + header_lines(self.headers) + "\r\n"@
    }

    /// The bytes on the wire.
    pub open spec fn bytes(self) -> Seq<u8> {
        encode_utf8(self.head()) + self.body
    }
}

impl RtspRequest {
    /// Create a request with no headers or body.
    #[must_use]
    pub fn new(method: &str, uri: &str) -> (r: Self)
        ensures
            r@ == (RequestText {
                method: method@,
                uri: uri@,
                headers: Seq::empty(),
                body: Seq::empty(),
            }),
    {
        let r = RtspRequest {
            method: method.to_owned(),
            uri: uri.to_owned(),
            headers: Vec::new(),
            body: Vec::new(),
        };
        assert(r@.headers =~= Seq::<HeaderText>::empty());
        r
    }

    /// Append a header (builder style).
    #[must_use]
    pub fn header(self, name: &str, value: &str) -> (r: Self)
        ensures
            r@ == self@.with_header(name@, value@),
    {
        let mut r = self;
        r.headers.push((name.to_owned(), value.to_owned()));
        assert(r@.headers =~= self@.headers.push((name@, value@)));
        r
    }

    /// Attach a body, setting `Content-Type` and `Content-Length` (replacing any existing
    /// values of those headers).
    #[must_use]
    pub fn with_body(self, content_type: &str, body: Vec<u8>) -> (r: Self)
        ensures
            r@ == (RequestText {
                method: self@.method,
                uri: self@.uri,
                headers: without_body_headers(self@.headers).push(
                    ("Content-Type"@, content_type@),
                ).push(("Content-Length"@, decimal(body@.len()))),
                body: body@,
            }),
    {
        let mut kept: Vec<(String, String)> = Vec::new();
        let ghost list = header_list(self.headers@);
        let mut i: usize = 0;
        while i < self.headers.len()
            invariant
                i <= self.headers@.len(),
                list == header_list(self.headers@),
                header_list(kept@) == without_body_headers(list.take(i as int)),
            decreases self.headers@.len() - i,
        {
            assert(list.take(i + 1).drop_last() =~= list.take(i as int));
            let name: &str = self.headers[i].0.as_str();
            if !eq_ignore_case(name, "content-type") && !eq_ignore_case(name, "content-length") {
                let ghost before = header_list(kept@);
                kept.push((self.headers[i].0.clone(), self.headers[i].1.clone()));
                assert(header_list(kept@) =~= before.push(list[i as int]));
            }
            i += 1;
        }
        assert(list.take(list.len() as int) =~= list);
        let ghost before = header_list(kept@);
        kept.push(("Content-Type".to_owned(), content_type.to_owned()));
        kept.push(("Content-Length".to_owned(), decimal_text(body.len() as u64)));
        let r = RtspRequest { method: self.method, uri: self.uri, headers: kept, body };
        assert(r@.headers =~= before.push(("Content-Type"@, content_type@)).push(
            ("Content-Length"@, decimal(body@.len())),
        ));
        r
    }

    /// Serialize to bytes: request line, headers, blank line, body.
    #[must_use]
    pub fn serialize(&self) -> (out: Vec<u8>)
        ensures
            out@ == self@.bytes(),
    {
        let mut head: String = self.method.clone();
        head.append(" ");
        head.append(self.uri.as_str());
        head.append(" RTSP/1.0\r\n");
        let ghost line = head@;
        let ghost list = header_list(self.headers@);
        let mut i: usize = 0;
        assert(head@ =~= line + header_lines(list.take(0)));
        while i < self.headers.len()
            invariant
                i <= self.headers@.len(),
                list == header_list(self.headers@),
                head@ == line + header_lines(list.take(i as int)),
            decreases self.headers@.len() - i,
        {
            assert(list.take(i + 1).drop_last() =~= list.take(i as int));
            head.append(self.headers[i].0.as_str());
            head.append(": ");
            head.append(self.headers[i].1.as_str());
            head.append("\r\n");
            i += 1;
            assert(head@ =~= line + header_lines(list.take(i as int)));
        }
        assert(list.take(list.len() as int) =~= list);
        head.append("\r\n");
        assert(head@ =~= self@.head());
        let mut out: Vec<u8> = Vec::new();
        append_bytes(&mut out, head.as_str().as_bytes());
        append_bytes(&mut out, &self.body);
        assert(out@ =~= self@.bytes());
        out
    }
}

// --- Responses -----------------------------------------------------------------------

/// A parsed RTSP response from the receiver.
#[derive(Debug, Clone, PartialEq, Eq)]
pub struct RtspResponse {
    /// Numeric status code (e.g. 200).
    pub status: u16,
    /// Reason phrase (e.g. `OK`).
    pub reason: String,
    /// Response headers in order.
    pub headers: Vec<(String, String)>,
    /// Response body (length per `Content-Length`).
    pub body: Vec<u8>,
}

/// What a response says.
#[verifier::ext_equal]
pub struct ResponseText {
    pub status: nat,
    pub reason: Seq<char>,
    pub headers: Seq<HeaderText>,
    pub body: Seq<u8>,
}

impl View for RtspResponse {
    type V = ResponseText;

    open spec fn view(&self) -> ResponseText {
        ResponseText {
            status: self.status as nat,
            reason: self.reason@,
            headers: header_list(self.headers@),
            body: self.body@,
        }
    }
}

/// What the bytes received so far amount to.
pub enum Received {
    /// Not a whole message yet.
    Incomplete,
    /// Not an RTSP message: why.
    Invalid(Seq<char>),
    /// A response, and the number of bytes that it takes up.
    Complete(ResponseText, int),
}

/// The status code and the reason of a status line, or what is wrong with it.
pub open spec fn status_of(line: Seq<char>) -> Result<(nat, Seq<char>), Seq<char>> {
    if !starts_with(before(line, ' '), "RTSP/"@) {
        Err("invalid RTSP status line: "@ + debug_text(line))
    } else {
        match split_once(line, ' ') {
            None => Err("invalid RTSP status code: "@ + debug_text(line)),
            Some((_, rest)) => match number(before(rest, ' '), 0xFFFF) {
                None => Err("invalid RTSP status code: "@ + debug_text(line)),
                Some(code) => Ok(
                    (
                        code,
                        match split_once(rest, ' ') {
                            Some((_, reason)) => reason,
                            None => Seq::empty(),
                        },
                    ),
                ),
            },
        }
    }
}

/// The headers on the given lines, empty lines left out, or the first line that has no
/// colon.
pub open spec fn headers_of(lines: Seq<Seq<char>>) -> Result<Seq<HeaderText>, Seq<char>>
    decreases lines.len(),
{
    if lines.len() == 0 {
        Ok(Seq::empty())
    } else {
        match headers_of(lines.drop_last()) {
            Err(line) => Err(line),
            Ok(headers) => if lines.last().len() == 0 {
                Ok(headers)
            } else {
                match split_once(lines.last(), ':') {
                    Some((name, value)) => Ok(headers.push((trimmed(name), trimmed(value)))),
                    None => Err(lines.last()),
                }
            },
        }
    }
}

/// The length that the headers give the body: 0 where they give none that is a number.
pub open spec fn content_length(headers: Seq<HeaderText>) -> nat {
    match lookup(headers, "content-length"@) {
        Some(value) => match number(value, usize::MAX as nat) {
            Some(n) => n,
            None => 0,
        },
        None => 0,
    }
}

/// The empty line that ends the headers.
pub open spec fn head_mark() -> Seq<u8> {
    seq![13u8, 10u8, 13u8, 10u8]
}

/// The status, the reason and the headers in the text before the empty line, or what is
/// wrong with it.
pub open spec fn head_of(head: Seq<u8>) -> Result<(nat, Seq<char>, Seq<HeaderText>), Seq<char>> {
    if !valid_utf8(head) {
        Err("RTSP header is not valid UTF-8"@)
    } else {
        let lines = split(decode_utf8(head), "\r\n"@);
        match status_of(lines[0]) {
            Err(message) => Err(message),
            Ok((status, reason)) => match headers_of(lines.skip(1)) {
                Err(line) => Err("malformed RTSP header: "@ + debug_text(line)),
                Ok(headers) => Ok((status, reason, headers)),
            },
        }
    }
}

/// What the bytes received so far amount to.
pub open spec fn received(buf: Seq<u8>) -> Received {
    match find(buf, head_mark()) {
        None => Received::Incomplete,
        Some(end) => match head_of(buf.take(end)) {
            Err(message) => Received::Invalid(message),
            Ok((status, reason, headers)) => {
                let start = end + 4;
                let stop = start + content_length(headers);
                if buf.len() < stop {
                    Received::Incomplete
                } else {
                    Received::Complete(
                        ResponseText { status, reason, headers, body: buf.subrange(start, stop) },
                        stop,
                    )
                }
            },
        },
    }
}

fn protocol_error(message: &str, line: &[char]) -> (e: Error)
    ensures
        e@ == (ErrorKind::Protocol, message@ + debug_text(line@)),
{
    let shown: String = debug_string(string_of(line).as_str());
    let text: String = String::from_str(message).concat(shown.as_str());
    Error::Protocol(text)
}

/// The first position where `needle` stands in `haystack`; an empty needle is not found.
pub fn find_subsequence(haystack: &[u8], needle: &[u8]) -> (r: Option<usize>)
    ensures
        match r {
            Some(i) => needle@.len() > 0 && find(haystack@, needle@) == Some(i as int) && i
                + needle@.len() <= haystack@.len(),
            None => needle@.len() == 0 || find(haystack@, needle@) is None,
        },
{
    if needle.len() == 0 || haystack.len() < needle.len() {
        return None;
    }
    let last: usize = haystack.len() - needle.len();
    let mut i: usize = 0;
    while i <= last
        invariant
            i <= last + 1,
            needle@.len() > 0,
            last + needle@.len() == haystack.len(),
            find(haystack@, needle@) == find_from(haystack@, needle@, i as int),
        decreases last + 1 - i,
    {
        let mut k: usize = 0;
        while k < needle.len() && haystack[i + k] == needle[k]
            invariant
                k <= needle@.len(),
                i <= last,
                last + needle@.len() == haystack.len(),
                forall|j: int| 0 <= j < k ==> haystack@[i + j] == needle@[j],
            decreases needle@.len() - k,
        {
            k += 1;
        }
        if k == needle.len() {
            assert(occurs_at(haystack@, needle@, i as int));
            return Some(i);
        }
        assert(!occurs_at(haystack@, needle@, i as int)) by {
            assert(haystack@.subrange(i as int, i + needle@.len())[k as int] == haystack@[i + k]);
        }
        if i == last {
            assert(find_from(haystack@, needle@, i + 1) is None);
            return None;
        }
        i += 1;
    }
    None
}

fn parse_status(line: &[char]) -> (r: Result<(u16, String), Error>)
    ensures
        match r {
            Ok((code, reason)) => status_of(line@) == Ok::<(nat, Seq<char>), Seq<char>>(
                (code as nat, reason@),
            ),
            Err(e) => e@.0 == ErrorKind::Protocol && status_of(line@) == Err::<
                (nat, Seq<char>),
                Seq<char>,
            >(e@.1),
        },
{
    if !starts_with_text(before_char(line, ' '), "RTSP/") {
        return Err(protocol_error("invalid RTSP status line: ", line));
    }
    match split_at_char(line, ' ') {
        None => Err(protocol_error("invalid RTSP status code: ", line)),
        Some((_, rest)) => match parse_number(before_char(rest, ' '), 0xFFFF) {
            None => Err(protocol_error("invalid RTSP status code: ", line)),
            Some(code) => {
                let reason: String = match split_at_char(rest, ' ') {
                    Some((_, reason)) => string_of(reason),
                    None => String::new(),
                };
                assert(reason@ =~= match split_once(rest@, ' ') {
                    Some((_, reason)) => reason,
                    None => Seq::empty(),
                });
                Ok((code as u16, reason))
            },
        },
    }
}

fn parse_headers(lines: &Vec<&[char]>) -> (r: Result<Vec<(String, String)>, Error>)
    requires
        lines@.len() > 0,
    ensures
        match r {
            Ok(headers) => headers_of(crate::text::pieces(lines@).skip(1)) == Ok::<
                Seq<HeaderText>,
                Seq<char>,
            >(header_list(headers@)),
            Err(e) => headers_of(crate::text::pieces(lines@).skip(1)) matches Err(line) && e@ == (
                ErrorKind::Protocol,
                "malformed RTSP header: "@ + debug_text(line),
            ),
        },
{
    let ghost texts = crate::text::pieces(lines@).skip(1);
    let mut headers: Vec<(String, String)> = Vec::new();
    let mut i: usize = 1;
    assert(header_list(headers@) =~= Seq::<HeaderText>::empty());
    while i < lines.len()
        invariant
            1 <= i <= lines@.len(),
            texts == crate::text::pieces(lines@).skip(1),
            headers_of(texts.take(i - 1)) == Ok::<Seq<HeaderText>, Seq<char>>(
                header_list(headers@),
            ),
        decreases lines@.len() - i,
    {
        let line: &[char] = lines[i];
        let ghost done = header_list(headers@);
        assert(texts.take(i as int).drop_last() =~= texts.take(i - 1));
        assert(texts.take(i as int).last() == line@);
        if line.len() > 0 {
            match split_at_char(line, ':') {
                Some((k, v)) => {
                    headers.push((string_of(trim_chars(k)), string_of(trim_chars(v))));
                    assert(header_list(headers@) =~= done.push((trimmed(k@), trimmed(v@))));
                },
                None => {
                    proof {
                        lemma_headers_error(texts, i as int);
                    }
                    return Err(protocol_error("malformed RTSP header: ", line));
                },
            }
        }
        i += 1;
    }
    assert(texts.take(texts.len() as int) =~= texts);
    Ok(headers)
}

proof fn lemma_headers_error(lines: Seq<Seq<char>>, k: int)
    requires
        0 <= k <= lines.len(),
        headers_of(lines.take(k)) is Err,
    ensures
        headers_of(lines) == headers_of(lines.take(k)),
    decreases lines.len() - k,
{
    if k == lines.len() {
        assert(lines.take(k) =~= lines);
    } else {
        assert(lines.take(k + 1).drop_last() =~= lines.take(k));
        lemma_headers_error(lines, k + 1);
    }
}

impl RtspResponse {
    /// Case-insensitive header lookup.
    #[must_use]
    pub fn header(&self, name: &str) -> (r: Option<&str>)
        ensures
            match r {
                Some(v) => lookup(self@.headers, name@) == Some(v@),
                None => lookup(self@.headers, name@) is None,
            },
    {
        find_header(&self.headers, name)
    }

    /// Whether the status code is 2xx.
    #[must_use]
    pub fn is_success(&self) -> (r: bool)
        ensures
            r == (200 <= self@.status < 300),
    {
        200 <= self.status && self.status < 300
    }

    /// Try to parse one complete response from the front of `buf`.
    ///
    /// Returns `Ok(None)` if `buf` does not yet contain a full message (caller should
    /// read more bytes and retry), `Ok(Some((response, consumed)))` on success where
    /// `consumed` is the number of bytes the message occupied, or `Err` if the bytes are
    /// not a valid RTSP message.
    pub fn parse(buf: &[u8]) -> (r: Result<Option<(RtspResponse, usize)>, Error>)
        ensures
            match r {
                Ok(None) => received(buf@) is Incomplete,
                Ok(Some((response, consumed))) => received(buf@) == Received::Complete(
                    response@,
                    consumed as int,
                ) && consumed <= buf@.len(),
                Err(e) => e@.0 == ErrorKind::Protocol && received(buf@) == Received::Invalid(e@.1),
            },
    {
        let mark: [u8; 4] = [13, 10, 13, 10];
        assert(mark@ =~= head_mark());
        let head_end: usize = match find_subsequence(buf, &mark) {
            None => {
                return Ok(None);
            },
            Some(i) => i,
        };
        let head_bytes: &[u8] = slice_subrange(buf, 0, head_end);
        assert(head_bytes@ =~= buf@.take(head_end as int));
        let head: Vec<char> = match core::str::from_utf8(head_bytes) {
            Ok(s) => chars_of(s),
            Err(_) => {
                return Err(Error::Protocol("RTSP header is not valid UTF-8".to_owned()));
            },
        };
        let newline: [char; 2] = ['\r', '\n'];
        proof {
            reveal_strlit("\r\n");
            assert(newline@ =~= "\r\n"@);
        }
        let lines: Vec<&[char]> = split_text(&head, &newline);
        assert(crate::text::pieces(lines@)[0] == lines@[0]@);
        let (status, reason) = match parse_status(lines[0]) {
            Ok(p) => p,
            Err(e) => {
                return Err(e);
            },
        };
        let headers: Vec<(String, String)> = match parse_headers(&lines) {
            Ok(h) => h,
            Err(e) => {
                return Err(e);
            },
        };
        let content_len: u64 = match find_header(&headers, "content-length") {
            Some(v) => match parse_number(&chars_of(v), usize::MAX as u64) {
                Some(n) => n,
                None => 0,
            },
            None => 0,
        };
        assert(content_len == content_length(header_list(headers@)));

        let total: usize = buf.len();
        let body_start: usize = head_end + 4;
        if content_len > (total - body_start) as u64 {
            return Ok(None);
        }
        let body_end: usize = body_start + content_len as usize;
        let body: Vec<u8> = slice_to_vec(slice_subrange(buf, body_start, body_end));
        let response = RtspResponse { status, reason, headers, body };
        Ok(Some((response, body_end)))
    }
}

// --- The connection ------------------------------------------------------------------

/// The state of a control connection: it owns the `CSeq` counter and buffers partial reads
/// until a full response is parsed. Whoever holds the socket writes the bytes that
/// [`request`](Self::request) gives, hands what it reads to [`receive`](Self::receive), and
/// asks [`response`](Self::response) for the answer.
pub struct RtspConnection {
    buf: Vec<u8>,
    cseq: u32,
}

/// What a connection holds: the bytes that no response has taken yet, and how many requests
/// were made.
#[verifier::ext_equal]
pub struct ConnectionText {
    pub pending: Seq<u8>,
    pub requests: nat,
}

impl View for RtspConnection {
    type V = ConnectionText;

    closed spec fn view(&self) -> ConnectionText {
        ConnectionText { pending: self.buf@, requests: self.cseq as nat }
    }
}

impl RtspConnection {
    /// The state of a connection on which nothing was exchanged yet.
    #[must_use]
    pub fn new() -> (r: Self)
        ensures
            r@ == (ConnectionText { pending: Seq::empty(), requests: 0 }),
    {
        RtspConnection { buf: Vec::new(), cseq: 0 }
    }

    /// The next `CSeq` value that [`request`](Self::request) will use.
    #[must_use]
    pub fn next_cseq(&self) -> (r: u32)
        requires
            self@.requests < u32::MAX,
        ensures
            r == self@.requests + 1,
    {
        self.cseq + 1
    }

    /// The bytes to send for `req`, with an incrementing `CSeq` header added after its own.
    ///
    /// The caller must not set `CSeq` itself; this method owns the sequence counter.
    pub fn request(&mut self, req: RtspRequest) -> (bytes: Vec<u8>)
        requires
            old(self)@.requests < u32::MAX,
        ensures
            bytes@ == req@.with_header("CSeq"@, decimal(old(self)@.requests + 1)).bytes(),
            final(self)@ == (ConnectionText {
                requests: old(self)@.requests + 1,
                ..old(self)@
            }),
    {
        self.cseq = self.cseq + 1;
        let number: String = decimal_text(self.cseq as u64);
        req.header("CSeq", number.as_str()).serialize()
    }

    /// Take in what was read from the socket. A read of no bytes means that the other side
    /// closed the connection before the response was complete.
    pub fn receive(&mut self, chunk: &[u8]) -> (r: Result<(), Error>)
        ensures
            match r {
                Ok(()) => chunk@.len() > 0 && final(self)@ == (ConnectionText {
                    pending: old(self)@.pending + chunk@,
                    ..old(self)@
                }),
                Err(e) => chunk@.len() == 0 && final(self)@ == old(self)@ && e@ == (
                    ErrorKind::Protocol,
                    "connection closed before a complete RTSP response"@,
                ),
            },
    {
        if chunk.len() == 0 {
            return Err(
                Error::Protocol("connection closed before a complete RTSP response".to_owned()),
            );
        }
        append_bytes(&mut self.buf, chunk);
        Ok(())
    }

    /// The next response, once all of it was received. Its bytes are taken out of the
    /// buffer; what follows them stays for the next one.
    pub fn response(&mut self) -> (r: Result<Option<RtspResponse>, Error>)
        ensures
            match r {
                Ok(None) => received(old(self)@.pending) is Incomplete && final(self)@ == old(
                    self,
                )@,
                Ok(Some(response)) => received(old(self)@.pending) matches Received::Complete(
                    text,
                    n,
                ) && response@ == text && final(self)@ == (ConnectionText {
                    pending: old(self)@.pending.skip(n),
                    ..old(self)@
                }),
                Err(e) => e@.0 == ErrorKind::Protocol && received(old(self)@.pending)
                    == Received::Invalid(e@.1) && final(self)@ == old(self)@,
            },
    {
        match RtspResponse::parse(&self.buf) {
            Err(e) => Err(e),
            Ok(None) => Ok(None),
            Ok(Some((response, consumed))) => {
                let rest: Vec<u8> = self.buf.split_off(consumed);
                self.buf = rest;
                assert(self.buf@ =~= old(self)@.pending.skip(consumed as int));
                Ok(Some(response))
            },
        }
    }
}

// --- Laws ----------------------------------------------------------------------------

/// Bytes that arrive after a whole message, or after one that is not RTSP, change nothing
/// about it: the message is the same and takes up as many bytes.
pub proof fn law_received_is_stable(buf: Seq<u8>, more: Seq<u8>)
    requires
        !(received(buf) is Incomplete),
    ensures
        received(buf + more) == received(buf),
{
    lemma_find_prefix(buf, more, head_mark());
    lemma_find_from(buf, head_mark(), 0);
    let end = find(buf, head_mark())->0;
    assert((buf + more).take(end) =~= buf.take(end));
    if let Received::Complete(text, stop) = received(buf) {
        assert((buf + more).subrange(end + 4, stop) =~= buf.subrange(end + 4, stop));
    }
}

/// As long as part of a message is missing, it is not taken for a whole one nor for one that
/// is not RTSP: however the bytes of a message are cut into reads, it comes out the same.
pub proof fn law_part_is_incomplete(buf: Seq<u8>, k: int)
    requires
        received(buf) matches Received::Complete(_, n) && 0 <= k < n,
    ensures
        received(buf.take(k)) is Incomplete,
{
    let part = buf.take(k);
    lemma_find_from(buf, head_mark(), 0);
    lemma_find_from(part, head_mark(), 0);
    if find(part, head_mark()) is Some {
        let end = find(part, head_mark())->0;
        lemma_find_prefix(part, buf.skip(k), head_mark());
        assert(part + buf.skip(k) =~= buf);
        assert(part.take(end) =~= buf.take(end));
    }
}

/// A response takes up its head, the empty line and its body, and no byte that has not
/// arrived; its body is as long as its headers say and ends where the response ends.
pub proof fn law_received_extent(buf: Seq<u8>)
    requires
        received(buf) is Complete,
    ensures
        received(buf) matches Received::Complete(text, n) && {
            &&& 4 <= n <= buf.len()
            &&& text.body.len() == content_length(text.headers)
            &&& text.body == buf.subrange(n - text.body.len(), n)
        },
{
    lemma_find_from(buf, head_mark(), 0);
}

/// Two responses one after the other are read one after the other: the second begins where
/// the first ends.
pub proof fn law_pipelined(first: Seq<u8>, second: Seq<u8>)
    requires
        received(first) matches Received::Complete(_, n) && n == first.len(),
    ensures
        received(first + second) == received(first),
        received(first + second) matches Received::Complete(_, n) && received(
            (first + second).skip(n),
        ) == received(second),
{
    law_received_is_stable(first, second);
    assert((first + second).skip(first.len() as int) =~= second);
}

/// A request with a body has one `Content-Type` and one `Content-Length`, and they describe
/// that body, whatever headers it had before.
pub proof fn law_body_is_described(headers: Seq<HeaderText>, content_type: Seq<char>, length: nat)
    requires
        length <= usize::MAX,
    ensures
        ({
            let all = without_body_headers(headers).push(("Content-Type"@, content_type)).push(
                ("Content-Length"@, decimal(length)),
            );
            &&& lookup(all, "content-type"@) == Some(content_type)
            &&& lookup(all, "content-length"@) == Some(decimal(length))
            &&& content_length(all) == length
            &&& forall|i: int|
                0 <= i < all.len() && describes_body((#[trigger] all[i]).0) ==> i >= all.len() - 2
        }),
{
    let kept = without_body_headers(headers);
    let one = kept.push(("Content-Type"@, content_type));
    let all = one.push(("Content-Length"@, decimal(length)));
    lemma_without_body_headers(headers);
    lemma_lookup_none(kept, "content-type"@);
    lemma_lookup_none(kept, "content-length"@);
    assert(all.drop_last() =~= one);
    assert(one.drop_last() =~= kept);
    reveal_strlit("Content-Type");
    reveal_strlit("content-type");
    reveal_strlit("Content-Length");
    reveal_strlit("content-length");
    assert(lowered("Content-Type"@) =~= lowered("content-type"@));
    assert(lowered("Content-Length"@) =~= lowered("content-length"@));
    assert(lowered("Content-Type"@)[8] != lowered("content-length"@)[8]);
    law_decimal_round_trip(length, usize::MAX as nat);
    assert(lookup(one, "content-type"@) == Some(content_type));
    assert(lookup(one, "content-length"@) is None);
    assert(lookup(all, "content-length"@) == Some(decimal(length)));
    assert forall|i: int| 0 <= i < all.len() && describes_body((#[trigger] all[i]).0) implies i
        >= all.len() - 2 by {
        if i < kept.len() {
            assert(all[i] == kept[i]);
        }
    }
}

proof fn lemma_without_body_headers(headers: Seq<HeaderText>)
    ensures
        forall|i: int|
            0 <= i < without_body_headers(headers).len() ==> !describes_body(
                (#[trigger] without_body_headers(headers)[i]).0,
            ),
    decreases headers.len(),
{
    if headers.len() > 0 {
        let rest = without_body_headers(headers.drop_last());
        lemma_without_body_headers(headers.drop_last());
        assert forall|i: int| 0 <= i < without_body_headers(headers).len() implies !describes_body(
            (#[trigger] without_body_headers(headers)[i]).0,
        ) by {
            if i < rest.len() {
                assert(without_body_headers(headers)[i] == rest[i]);
            }
        }
    }
}

proof fn lemma_lookup_none(headers: Seq<HeaderText>, name: Seq<char>)
    requires
        forall|i: int| 0 <= i < headers.len() ==> !same_but_case((#[trigger] headers[i]).0, name),
    ensures
        lookup(headers, name) is None,
    decreases headers.len(),
{
    if headers.len() > 0 {
        let last = headers[headers.len() - 1];
        assert forall|i: int| 0 <= i < headers.drop_last().len() implies !same_but_case(
            (#[trigger] headers.drop_last()[i]).0,
            name,
        ) by {
            assert(headers.drop_last()[i] == headers[i]);
        }
        lemma_lookup_none(headers.drop_last(), name);
    }
}

/// The value of a header is that of the first with its name, in any case; without such a
/// header there is none.
pub proof fn law_first_header_counts(headers: Seq<HeaderText>, name: Seq<char>, i: int)
    ensures
        0 <= i < headers.len() && lowered(headers[i].0) == lowered(name) && (forall|k: int|
            0 <= k < i ==> lowered((#[trigger] headers[k]).0) != lowered(name)) ==> lookup(
            headers,
            name,
        ) == Some(headers[i].1),
        (forall|k: int|
            0 <= k < headers.len() ==> lowered((#[trigger] headers[k]).0) != lowered(name))
            ==> lookup(headers, name) is None,
{
    if 0 <= i < headers.len() && lowered(headers[i].0) == lowered(name) && (forall|k: int|
        0 <= k < i ==> lowered((#[trigger] headers[k]).0) != lowered(name)) {
        let front = headers.take(i + 1);
        let before = headers.take(i);
        assert forall|k: int| 0 <= k < before.len() implies !same_but_case(
            (#[trigger] before[k]).0,
            name,
        ) by {
            assert(before[k] == headers[k]);
        }
        lemma_lookup_none(before, name);
        assert(front.drop_last() =~= before);
        lemma_lookup_prefix(headers, name, i + 1);
    }
    if forall|k: int|
        0 <= k < headers.len() ==> lowered((#[trigger] headers[k]).0) != lowered(name) {
        assert forall|k: int| 0 <= k < headers.len() implies !same_but_case(
            (#[trigger] headers[k]).0,
            name,
        ) by {
            assert(lowered(headers[k].0) != lowered(name));
        }
        lemma_lookup_none(headers, name);
    }
}

/// Where a body is attached, all headers that do not describe one stay, in their order, and
/// those that do go, whatever their case.
pub proof fn law_other_headers_stay(a: Seq<HeaderText>, b: Seq<HeaderText>, h: HeaderText)
    ensures
        without_body_headers(a + b) == without_body_headers(a) + without_body_headers(b),
        without_body_headers(seq![h]) == (if lowered(h.0) == "content-type"@ || lowered(h.0)
            == "content-length"@ {
            Seq::empty()
        } else {
            seq![h]
        }),
    decreases b.len(),
{
    reveal_strlit("content-type");
    reveal_strlit("content-length");
    assert(lowered("content-type"@) =~= "content-type"@);
    assert(lowered("content-length"@) =~= "content-length"@);
    let one = seq![h];
    assert(one.drop_last() =~= Seq::<HeaderText>::empty());
    assert(one.last() == h);
    assert(without_body_headers(Seq::<HeaderText>::empty()) =~= Seq::<HeaderText>::empty());
    if !describes_body(h.0) {
        assert(without_body_headers(one) =~= seq![h]);
    }
    if b.len() == 0 {
        assert(a + b =~= a);
        assert(without_body_headers(a + b) =~= without_body_headers(a) + without_body_headers(b));
    } else {
        law_other_headers_stay(a, b.drop_last(), h);
        assert((a + b).drop_last() =~= a + b.drop_last());
        assert(without_body_headers(a + b) =~= without_body_headers(a) + without_body_headers(b));
    }
}

/// A body is as long as the first `Content-Length` says; without one, or with one that is no
/// number, there is none.
pub proof fn law_length_of_the_body(headers: Seq<HeaderText>, n: nat)
    ensures
        n <= usize::MAX && lookup(headers, "content-length"@) == Some(decimal(n))
            ==> content_length(headers) == n,
        lookup(headers, "content-length"@) is None ==> content_length(headers) == 0,
        (lookup(headers, "content-length"@) matches Some(v) && v.len() > 0 && v[0] == '-')
            ==> content_length(headers) == 0,
        content_length(headers) <= usize::MAX,
{
    if n <= usize::MAX {
        law_decimal_round_trip(n, usize::MAX as nat);
    }
}

/// Only a message whose first line begins with `RTSP/`, and has a number of 16 bits after its
/// first space, is taken for a response.
pub proof fn law_status_lines(line: Seq<char>)
    requires
        status_of(line) is Ok,
    ensures
        starts_with(line, "RTSP/"@),
        status_of(line) matches Ok((code, _)) && code <= 0xFFFF,
{
    reveal_strlit("RTSP/");
    lemma_find_from(line, seq![' '], 0);
    let word = before(line, ' ');
    assert(word.subrange(0, 5) =~= line.subrange(0, 5));
}

/// A message of another protocol, or with a status that is no number, is refused as soon as
/// its head is there, and not waited for.
pub proof fn law_bad_status_is_refused(version: Seq<char>, code: Seq<char>, reason: Seq<char>)
    requires
        is_free_of(version, ' '),
        is_free_of(code, ' '),
    ensures
        !starts_with(version, "RTSP/"@) || number(code, 0xFFFF) is None ==> status_of(
            version + seq![' '] + code + seq![' '] + reason,
        ) is Err,
        starts_with(version, "RTSP/"@) && number(code, 0xFFFF) is Some ==> status_of(
            version + seq![' '] + code + seq![' '] + reason,
        ) == Ok::<(nat, Seq<char>), Seq<char>>((number(code, 0xFFFF)->0, reason)),
{
    let rest = code + seq![' '] + reason;
    let line = version + seq![' '] + rest;
    assert(version + seq![' '] + code + seq![' '] + reason =~= line);
    law_cut_at_char(version, ' ', rest);
    law_cut_at_char(code, ' ', reason);
}

/// Headers are read line by line: each line gives the name before its first colon and the
/// value after it, and a line without a colon spoils the message.
pub proof fn law_header_lines_are_read(
    lines: Seq<Seq<char>>,
    name: Seq<char>,
    value: Seq<char>,
    bad: Seq<char>,
)
    requires
        headers_of(lines) is Ok,
        is_free_of(name, ':'),
        is_free_of(bad, ':'),
        bad.len() > 0,
    ensures
        headers_of(lines.push(name + seq![':'] + value)) == Ok::<Seq<HeaderText>, Seq<char>>(
            headers_of(lines)->Ok_0.push((trimmed(name), trimmed(value))),
        ),
        headers_of(lines.push(bad)) == Err::<Seq<HeaderText>, Seq<char>>(bad),
        headers_of(lines.push(Seq::empty())) == headers_of(lines),
        headers_of(Seq::empty()) == Ok::<Seq<HeaderText>, Seq<char>>(Seq::empty()),
{
    let line = name + seq![':'] + value;
    law_cut_at_char(name, ':', value);
    law_cut_at_char(bad, ':', value);
    assert(lines.push(line).drop_last() =~= lines);
    assert(lines.push(bad).drop_last() =~= lines);
    assert(lines.push(Seq::<char>::empty()).drop_last() =~= lines);
}

/// A header that is added comes after those that are there and changes nothing else.
pub proof fn law_header_is_added_last(r: RequestText, name: Seq<char>, value: Seq<char>)
    ensures
        ({
            let after = r.with_header(name, value);
            &&& after.headers.len() == r.headers.len() + 1
            &&& after.headers.last() == (name, value)
            &&& forall|i: int|
                0 <= i < r.headers.len() ==> #[trigger] after.headers[i] == r.headers[i]
            &&& after.method == r.method && after.uri == r.uri && after.body == r.body
        }),
{
}

/// A message is judged as soon as the empty line behind its headers is there: before that it
/// is waited for, and a head that is not UTF-8, or that is not the head of a response, is
/// refused without its body.
pub proof fn law_heads_are_judged(buf: Seq<u8>, end: int)
    ensures
        find(buf, seq![13u8, 10u8, 13u8, 10u8]) is None ==> received(buf) is Incomplete,
        find(buf, seq![13u8, 10u8, 13u8, 10u8]) == Some(end) ==> (received(buf) is Invalid
            <==> !valid_utf8(buf.take(end)) || head_of(buf.take(end)) is Err),
{
}

} // verus!
