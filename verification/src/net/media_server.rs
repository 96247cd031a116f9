//! The answers of the HTTP media server for DLNA casting.
//!
//! It serves a single media file to the renderer with HTTP `Range` support (so the TV can
//! seek) and the DLNA headers Samsung renderers expect.

use vstd::prelude::*;
use vstd::slice::slice_subrange;

use crate::discovery::ssdp::law_port_is_read;
use crate::discovery::ssdp::port_of;
use crate::net::upnp::is_http_url;
use crate::pipeline::address::law_text_has_no_slash;
use crate::pipeline::address::IpAddr;
use crate::text::all_digits;
use crate::text::before;
use crate::text::before_char;
use crate::text::chars_of;
use crate::text::decimal;
use crate::text::decimal_text;
use crate::text::find_last;
use crate::text::find_last_char;
use crate::text::is_digit;
use crate::text::is_free_of;
use crate::text::is_white;
use crate::text::law_cut_at_char;
use crate::text::law_decimal_round_trip;
use crate::text::law_last_char;
use crate::text::law_lower;
use crate::text::law_trim_finds;
use crate::text::lemma_decimal;
use crate::text::lower_chars;
use crate::text::lowered;
use crate::text::number;
use crate::text::parse_number;
use crate::text::push_decimal;
use crate::text::same_text;
use crate::text::split_at_char;
use crate::text::split_once;
use crate::text::starts_with;
use crate::text::starts_with_text;
use crate::text::string_of;
use crate::text::trim_chars;
use crate::text::trimmed;

verus! {

/// DLNA `contentFeatures.dlna.org` value: range/seek supported (OP=01), streaming flags.
/// Shared so the DIDL `<res protocolInfo>` we send matches what the server advertises.
pub const DLNA_CONTENT_FEATURES: &'static str =
    "DLNA.ORG_OP=01;DLNA.ORG_CI=0;DLNA.ORG_FLAGS=01700000000000000000000000000000";

/// The name and the value of a header.
pub type HeaderPair = (Seq<char>, Seq<char>);

/// What a list of headers says.
pub open spec fn header_pairs(headers: Seq<(String, String)>) -> Seq<HeaderPair> {
    headers.map_values(|h: (String, String)| (h.0@, h.1@))
}

// --- Content types -------------------------------------------------------------------

/// The last component of a path, where it is a name: what follows the last slash, with
/// trailing slashes and `.` components left out.
pub open spec fn file_name(path: Seq<char>) -> Option<Seq<char>>
    decreases path.len(),
{
    let (rest, name) = match find_last(path, '/') {
        Some(i) => (Some(path.take(i)), path.skip(i + 1)),
        None => (None, path),
    };
    if name.len() == 0 || name == seq!['.'] {
        match rest {
            Some(p) => if p.len() < path.len() {
                file_name(p)
            } else {
                None
            },
            None => None,
        }
    } else if name == seq!['.', '.'] {
        None
    } else {
        Some(name)
    }
}

/// The extension of a path: what follows the last dot of its file name, unless that dot
/// begins the name.
pub open spec fn extension(path: Seq<char>) -> Option<Seq<char>> {
    match file_name(path) {
        Some(name) => match find_last(name, '.') {
            Some(i) => if i > 0 {
                Some(name.skip(i + 1))
            } else {
                None
            },
            None => None,
        },
        None => None,
    }
}

/// The content type for an extension in lower case.
pub open spec fn content_type_of(ext: Seq<char>) -> Seq<char> {
    if ext == "mp4"@ || ext == "m4v"@ {
        "video/mp4"@
    } else if ext == "mkv"@ {
        "video/x-matroska"@
    } else if ext == "mov"@ {
        "video/quicktime"@
    } else if ext == "webm"@ {
        "video/webm"@
    } else if ext == "avi"@ {
        "video/x-msvideo"@
    } else if ext == "ts"@ {
        "video/mp2t"@
    } else if ext == "mpeg"@ || ext == "mpg"@ {
        "video/mpeg"@
    } else if ext == "mp3"@ {
        "audio/mpeg"@
    } else if ext == "flac"@ {
        "audio/flac"@
    } else if ext == "aac"@ {
        "audio/aac"@
    } else if ext == "wav"@ {
        "audio/wav"@
    } else if ext == "jpg"@ || ext == "jpeg"@ {
        "image/jpeg"@
    } else if ext == "png"@ {
        "image/png"@
    } else {
        "application/octet-stream"@
    }
}

/// The content type for an extension, whatever its case; without one, that of plain bytes.
pub open spec fn content_type_text(ext: Option<Seq<char>>) -> Seq<char> {
    match ext {
        Some(e) => content_type_of(lowered(e)),
        None => "application/octet-stream"@,
    }
}

/// The last component of a path written with `/` between its components, where it is a name.
pub fn last_component(path: &[char]) -> (r: Option<&[char]>)
    ensures
        match r {
            Some(name) => file_name(path@) == Some(name@),
            None => file_name(path@) is None,
        },
    decreases path@.len(),
{
    let n: usize = path.len();
    let cut: Option<usize> = find_last_char(path, '/');
    let name: &[char] = match cut {
        Some(i) => slice_subrange(path, i + 1, n),
        None => path,
    };
    proof {
        if let Some(i) = cut {
            assert(name@ =~= path@.skip(i + 1));
        }
    }
    let skipped: bool = name.len() == 0 || (name.len() == 1 && name[0] == '.');
    assert(skipped == (name@.len() == 0 || name@ == seq!['.'])) by {
        if name@.len() == 1 && name@[0] == '.' {
            assert(name@ =~= seq!['.']);
        }
    }
    if skipped {
        match cut {
            Some(i) => {
                let rest: &[char] = slice_subrange(path, 0, i);
                assert(rest@ =~= path@.take(i as int));
                last_component(rest)
            },
            None => None,
        }
    } else if name.len() == 2 && name[0] == '.' && name[1] == '.' {
        assert(name@ =~= seq!['.', '.']);
        None
    } else {
        assert(name@ != seq!['.', '.']);
        Some(name)
    }
}

/// The extension of a path written with `/` between its components.
pub fn extension_of(path: &str) -> (r: Option<String>)
    ensures
        match r {
            Some(e) => extension(path@) == Some(e@),
            None => extension(path@) is None,
        },
{
    let chars: Vec<char> = chars_of(path);
    match last_component(&chars) {
        Some(name) => match find_last_char(name, '.') {
            Some(i) => if i > 0 {
                let n: usize = name.len();
                let ext: &[char] = slice_subrange(name, i + 1, n);
                assert(ext@ =~= name@.skip(i + 1));
                Some(string_of(ext))
            } else {
                None
            },
            None => None,
        },
        None => None,
    }
}

/// The content type for an extension.
pub fn content_type_for_extension(ext: Option<&str>) -> (r: &'static str)
    ensures
        r@ == content_type_text(
            match ext {
                Some(e) => Some(e@),
                None => None,
            },
        ),
{
    let lower: String = match ext {
        Some(e) => string_of(&lower_chars(&chars_of(e))),
        None => {
            return "application/octet-stream";
        },
    };
    let e: &str = lower.as_str();
    if same_text(e, "mp4") || same_text(e, "m4v") {
        "video/mp4"
    } else if same_text(e, "mkv") {
        "video/x-matroska"
    } else if same_text(e, "mov") {
        "video/quicktime"
    } else if same_text(e, "webm") {
        "video/webm"
    } else if same_text(e, "avi") {
        "video/x-msvideo"
    } else if same_text(e, "ts") {
        "video/mp2t"
    } else if same_text(e, "mpeg") || same_text(e, "mpg") {
        "video/mpeg"
    } else if same_text(e, "mp3") {
        "audio/mpeg"
    } else if same_text(e, "flac") {
        "audio/flac"
    } else if same_text(e, "aac") {
        "audio/aac"
    } else if same_text(e, "wav") {
        "audio/wav"
    } else if same_text(e, "jpg") || same_text(e, "jpeg") {
        "image/jpeg"
    } else if same_text(e, "png") {
        "image/png"
    } else {
        "application/octet-stream"
    }
}

/// Map a file extension to a sensible `Content-Type` for TV playback.
#[must_use]
pub fn content_type_for(path: &str) -> (r: &'static str)
    ensures
        r@ == content_type_text(extension(path@)),
{
    match extension_of(path) {
        Some(e) => content_type_for_extension(Some(e.as_str())),
        None => content_type_for_extension(None),
    }
}

/// The URL of a media file that is served at an address and port. Its extension is in
/// lower case, `bin` where the file has none.
pub open spec fn media_url_text(ip: IpAddr, port: u16, ext: Option<Seq<char>>) -> Seq<char> {
    "http://"@ + ip.text() + ":"@ + decimal(port as nat) + "/media."@ + lowered(
        match ext {
            Some(e) => e,
            None => "bin"@,
        },
    )
}

/// The URL of a media file that is served at an address and port.
pub fn media_url(ip: &IpAddr, port: u16, ext: Option<&str>) -> (r: String)
    ensures
        r@ == media_url_text(
            *ip,
            port,
            match ext {
                Some(e) => Some(e@),
                None => None,
            },
        ),
{
    let name: &str = match ext {
        Some(e) => e,
        None => "bin",
    };
    let lower: String = string_of(&lower_chars(&chars_of(name)));
    let mut out: String = String::from_str("http://");
    ip.push_text(&mut out);
    out.append(":");
    push_decimal(&mut out, port as u64);
    out.append("/media.");
    out.append(lower.as_str());
    out
}

// --- Ranges --------------------------------------------------------------------------

/// The two sides of the dash in the first range of a `Range` header for bytes.
pub open spec fn range_sides(value: Seq<char>) -> Option<(Seq<char>, Seq<char>)> {
    if starts_with(value, "bytes="@) {
        split_once(trimmed(before(value.skip(6), ',')), '-')
    } else {
        None
    }
}

/// The first and the last byte that a `Range` header asks of a file of `total` bytes. With
/// nothing before the dash it asks for that many bytes at the end; with nothing after it,
/// for everything from there on. A range that ends past the file is cut off there; one
/// that is empty or begins past the file is none.
pub open spec fn range_of(value: Seq<char>, total: nat) -> Option<(nat, nat)> {
    match range_sides(value) {
        None => None,
        Some((first, last)) => if total == 0 {
            None
        } else if first.len() == 0 {
            match number(last, u64::MAX as nat) {
                Some(n) => if n == 0 {
                    None
                } else if n < total {
                    Some(((total - n) as nat, (total - 1) as nat))
                } else {
                    Some((0, (total - 1) as nat))
                },
                None => None,
            }
        } else {
            match number(first, u64::MAX as nat) {
                None => None,
                Some(start) => if last.len() == 0 {
                    if start < total {
                        Some((start, (total - 1) as nat))
                    } else {
                        None
                    }
                } else {
                    match number(last, u64::MAX as nat) {
                        None => None,
                        Some(n) => {
                            let end = if n < total {
                                n
                            } else {
                                (total - 1) as nat
                            };
                            if start <= end {
                                Some((start, end))
                            } else {
                                None
                            }
                        },
                    }
                },
            }
        },
    }
}

/// A `Range` header that is a well-formed range of bytes: a number on each side of the dash,
/// where one of the two may be left out.
pub open spec fn is_byte_range(value: Seq<char>) -> bool {
    match range_sides(value) {
        None => false,
        Some((first, last)) => if first.len() == 0 {
            number(last, u64::MAX as nat) is Some
        } else {
            number(first, u64::MAX as nat) is Some && (last.len() == 0 || number(
                last,
                u64::MAX as nat,
            ) is Some)
        },
    }
}

/// A well-formed range of bytes that a file of `total` bytes cannot have: none, or from past
/// its end on.
pub open spec fn cannot_be_satisfied(value: Seq<char>, total: nat) -> bool {
    is_byte_range(value) && (range_sides(value) matches Some((first, last)) && if first.len() == 0 {
        number(last, u64::MAX as nat) == Some(0nat)
    } else {
        number(first, u64::MAX as nat) matches Some(n) && n >= total
    })
}

/// The pair as numbers.
pub open spec fn range_pair(r: Option<(u64, u64)>) -> Option<(nat, nat)> {
    match r {
        Some((a, b)) => Some((a as nat, b as nat)),
        None => None,
    }
}

/// Parse a single HTTP `Range` header value against a known `total` length, returning an
/// inclusive `(start, end)` byte range clamped to the file, or `None` if unsatisfiable.
#[must_use]
pub fn parse_range(value: &str, total: u64) -> (r: Option<(u64, u64)>)
    ensures
        range_pair(r) == range_of(value@, total as nat),
{
    let chars: Vec<char> = chars_of(value);
    if total == 0 || !starts_with_text(&chars, "bytes=") {
        return None;
    }
    let last: u64 = total - 1;
    proof {
        reveal_strlit("bytes=");
    }
    let spec: &[char] = slice_subrange(&chars, 6, chars.len());
    assert(spec@ =~= value@.skip(6));
    let (s, e): (&[char], &[char]) = match split_at_char(trim_chars(before_char(spec, ',')), '-') {
        Some(p) => p,
        None => {
            return None;
        },
    };
    let (start, end): (u64, u64) = if s.len() == 0 {
        // Suffix form: bytes=-N => final N bytes.
        match parse_number(e, u64::MAX) {
            None => {
                return None;
            },
            Some(n) => {
                if n == 0 {
                    return None;
                }
                (if n < total {
                    total - n
                } else {
                    0
                }, last)
            },
        }
    } else {
        let start: u64 = match parse_number(s, u64::MAX) {
            None => {
                return None;
            },
            Some(n) => n,
        };
        let end: u64 = if e.len() == 0 {
            last
        } else {
            match parse_number(e, u64::MAX) {
                None => {
                    return None;
                },
                Some(n) => if n < last {
                    n
                } else {
                    last
                },
            }
        };
        (start, end)
    };
    if start > end || start > last {
        return None;
    }
    Some((start, end))
}

/// True if `value` is a well-formed `bytes=` range that cannot be satisfied for `total`
/// (so it warrants a 416). Malformed/non-`bytes=` headers return `false` (we ignore them
/// and serve the whole file instead, per the lenient reading of RFC 7233).
pub fn range_is_unsatisfiable(value: &str, total: u64) -> (r: bool)
    ensures
        r == cannot_be_satisfied(value@, total as nat),
{
    let chars: Vec<char> = chars_of(value);
    if !starts_with_text(&chars, "bytes=") {
        return false;
    }
    proof {
        reveal_strlit("bytes=");
    }
    let spec: &[char] = slice_subrange(&chars, 6, chars.len());
    assert(spec@ =~= value@.skip(6));
    match split_at_char(trim_chars(before_char(spec, ',')), '-') {
        None => false,
        Some((start, end)) => if start.len() == 0 {
            match parse_number(end, u64::MAX) {
                Some(n) => n == 0,
                None => false,
            }
        } else {
            let well_formed: bool = end.len() == 0 || parse_number(end, u64::MAX).is_some();
            match parse_number(start, u64::MAX) {
                Some(n) => well_formed && n >= total,
                None => false,
            }
        },
    }
}

// --- Answers -------------------------------------------------------------------------

/// Which bytes of the file an answer carries.
#[derive(Debug, Clone, Copy, PartialEq, Eq, Structural)]
pub enum MediaBody {
    /// None.
    Empty,
    /// All of them.
    Whole,
    /// `len` bytes from `start` on.
    Part { start: u64, len: u64 },
}

/// The answer to a request for the media file.
#[derive(Debug, PartialEq, Eq)]
pub struct MediaReply {
    /// HTTP status code.
    pub status: u16,
    /// Headers, with names in lower case.
    pub headers: Vec<(String, String)>,
    /// The body.
    pub body: MediaBody,
}

/// The headers that go with every answer that serves the file.
pub open spec fn media_headers(content_type: Seq<char>, wants_features: bool) -> Seq<HeaderPair> {
    let common = seq![
        ("accept-ranges"@, "bytes"@),
        ("content-type"@, content_type),
        ("transfermode.dlna.org"@, "Streaming"@),
    ];
    if wants_features {
        common.push(("contentfeatures.dlna.org"@, DLNA_CONTENT_FEATURES@))
    } else {
        common
    }
}

/// The range that a request asks for.
pub open spec fn requested(range: Option<Seq<char>>, total: nat) -> Option<(nat, nat)> {
    match range {
        Some(value) => range_of(value, total),
        None => None,
    }
}

/// The request asks for bytes that the file cannot have.
pub open spec fn is_refused(range: Option<Seq<char>>, total: nat) -> bool {
    range matches Some(value) && range_of(value, total) is None && cannot_be_satisfied(value, total)
}

/// The status of an answer: 416 for a range that cannot be satisfied, 206 for one that can,
/// and 200 otherwise.
pub open spec fn reply_status(range: Option<Seq<char>>, total: nat) -> u16 {
    if is_refused(range, total) {
        416
    } else if requested(range, total) is Some {
        206
    } else {
        200
    }
}

/// The headers of an answer.
pub open spec fn reply_headers(
    range: Option<Seq<char>>,
    wants_features: bool,
    content_type: Seq<char>,
    total: nat,
) -> Seq<HeaderPair> {
    if is_refused(range, total) {
        seq![("content-range"@, "bytes */"@ + decimal(total))]
    } else {
        let common = media_headers(content_type, wants_features);
        match requested(range, total) {
            Some((start, end)) => common.push(
                ("content-length"@, decimal((end - start + 1) as nat)),
            ).push(
                (
                    "content-range"@,
                    "bytes "@ + decimal(start) + "-"@ + decimal(end) + "/"@ + decimal(total),
                ),
            ),
            None => common.push(("content-length"@, decimal(total))),
        }
    }
}

/// The bytes that an answer carries. An answer to HEAD carries none.
pub open spec fn reply_body(range: Option<Seq<char>>, is_head: bool, total: nat) -> MediaBody {
    if is_refused(range, total) || is_head {
        MediaBody::Empty
    } else {
        match requested(range, total) {
            Some((start, end)) => MediaBody::Part {
                start: start as u64,
                len: (end - start + 1) as u64,
            },
            None => MediaBody::Whole,
        }
    }
}

/// What an optional piece of text holds.
pub open spec fn optional_str(s: Option<&str>) -> Option<Seq<char>> {
    match s {
        Some(t) => Some(t@),
        None => None,
    }
}

/// Answer a GET or HEAD for the media file, honoring an optional `Range` header. `total` is
/// the length of the file, and `wants_features` says whether the renderer asked for the
/// DLNA features.
pub fn media_reply(
    range: Option<&str>,
    wants_features: bool,
    is_head: bool,
    content_type: &str,
    total: u64,
) -> (r: MediaReply)
    ensures
        r.status == reply_status(optional_str(range), total as nat),
        header_pairs(r.headers@) == reply_headers(
            optional_str(range),
            wants_features,
            content_type@,
            total as nat,
        ),
        r.body == reply_body(optional_str(range), is_head, total as nat),
{
    let wanted: Option<(u64, u64)> = match range {
        Some(value) => parse_range(value, total),
        None => None,
    };
    proof {
        law_range_is_inside(optional_str(range), total as nat);
    }
    let refused: bool = match range {
        Some(value) => wanted.is_none() && range_is_unsatisfiable(value, total),
        None => false,
    };
    let mut headers: Vec<(String, String)> = Vec::new();
    // A well-formed but unsatisfiable byte range gets 416 (RFC 7233).
    if refused {
        let mut text: String = String::from_str("bytes */");
        push_decimal(&mut text, total);
        headers.push(("content-range".to_owned(), text));
        assert(header_pairs(headers@) =~= reply_headers(
            optional_str(range),
            wants_features,
            content_type@,
            total as nat,
        ));
        return MediaReply { status: 416, headers, body: MediaBody::Empty };
    }
    headers.push(("accept-ranges".to_owned(), "bytes".to_owned()));
    headers.push(("content-type".to_owned(), content_type.to_owned()));
    headers.push(("transfermode.dlna.org".to_owned(), "Streaming".to_owned()));
    if wants_features {
        headers.push(("contentfeatures.dlna.org".to_owned(), DLNA_CONTENT_FEATURES.to_owned()));
    }
    let ghost common = header_pairs(headers@);
    assert(common =~= media_headers(content_type@, wants_features));
    match wanted {
        Some((start, end)) => {
            let len: u64 = end - start + 1;
            headers.push(("content-length".to_owned(), decimal_text(len)));
            let mut text: String = String::from_str("bytes ");
            push_decimal(&mut text, start);
            text.append("-");
            push_decimal(&mut text, end);
            text.append("/");
            push_decimal(&mut text, total);
            headers.push(("content-range".to_owned(), text));
            assert(header_pairs(headers@) =~= reply_headers(
                optional_str(range),
                wants_features,
                content_type@,
                total as nat,
            ));
            let body = if is_head {
                MediaBody::Empty
            } else {
                MediaBody::Part { start, len }
            };
            MediaReply { status: 206, headers, body }
        },
        None => {
            headers.push(("content-length".to_owned(), decimal_text(total)));
            assert(header_pairs(headers@) =~= reply_headers(
                optional_str(range),
                wants_features,
                content_type@,
                total as nat,
            ));
            let body = if is_head {
                MediaBody::Empty
            } else {
                MediaBody::Whole
            };
            MediaReply { status: 200, headers, body }
        },
    }
}

// --- Laws ----------------------------------------------------------------------------

/// A range that is served is not empty and lies inside the file.
pub proof fn law_range_is_inside(range: Option<Seq<char>>, total: nat)
    ensures
        requested(range, total) matches Some((start, end)) ==> start <= end < total,
{
}

/// No range is both served and refused.
pub proof fn law_refused_range_is_not_served(value: Seq<char>, total: nat)
    requires
        cannot_be_satisfied(value, total),
    ensures
        range_of(value, total) is None,
{
}

/// A header that is not a well-formed range of bytes is passed over: the whole file is
/// served, with 200.
pub proof fn law_other_ranges_are_ignored(value: Seq<char>, total: nat)
    requires
        !is_byte_range(value),
    ensures
        reply_status(Some(value), total) == 200,
        reply_body(Some(value), false, total) == MediaBody::Whole,
{
}

/// How many bytes of a file of `total` bytes an answer carries.
pub open spec fn body_length(body: MediaBody, total: nat) -> nat {
    match body {
        MediaBody::Empty => 0,
        MediaBody::Whole => total,
        MediaBody::Part { start, len } => len as nat,
    }
}

/// An answer that serves the file announces as its length the number of bytes that it
/// carries, and they lie inside the file.
pub proof fn law_length_is_announced(
    range: Option<Seq<char>>,
    wants_features: bool,
    content_type: Seq<char>,
    total: nat,
)
    requires
        !is_refused(range, total),
        total <= u64::MAX,
    ensures
        reply_headers(range, wants_features, content_type, total).contains(
            ("content-length"@, decimal(body_length(reply_body(range, false, total), total))),
        ),
        reply_body(range, false, total) matches MediaBody::Part { start, len } ==> 0 < len && start
            + len <= total,
{
    law_range_is_inside(range, total);
    let headers = reply_headers(range, wants_features, content_type, total);
    let k = media_headers(content_type, wants_features).len() as int;
    assert(headers[k] == (
        "content-length"@,
        decimal(body_length(reply_body(range, false, total), total)),
    ));
}

/// A side of a range: no white space, and no comma or dash.
pub open spec fn is_side(s: Seq<char>) -> bool {
    forall|i: int|
        0 <= i < s.len() ==> (#[trigger] s[i]) != ',' && s[i] != '-' && !is_white(s[i])
}

proof fn lemma_digits_are_side(s: Seq<char>)
    requires
        all_digits(s),
    ensures
        is_side(s),
{
    assert forall|i: int| 0 <= i < s.len() implies (#[trigger] s[i]) != ',' && s[i] != '-'
        && !is_white(s[i]) by {
        assert(is_digit(s[i]));
    }
}

/// The sides of a range are what stands before and after its dash. Further ranges, behind a
/// comma, have no part in it.
proof fn lemma_range_sides(first: Seq<char>, last: Seq<char>, more: Seq<char>)
    requires
        is_side(first),
        is_side(last),
        more.len() > 0 ==> more[0] == ',',
    ensures
        range_sides("bytes="@ + first + "-"@ + last + more) == Some((first, last)),
{
    reveal_strlit("bytes=");
    reveal_strlit("-");
    let value = "bytes="@ + first + "-"@ + last + more;
    let part = first + "-"@ + last;
    assert(value.subrange(0, 6) =~= "bytes="@);
    assert(value.skip(6) =~= part + more);
    assert forall|i: int| 0 <= i < part.len() implies #[trigger] part[i] != ',' && !is_white(
        part[i],
    ) by {
        if i < first.len() {
            assert(part[i] == first[i]);
        } else if i > first.len() {
            assert(part[i] == last[i - first.len() - 1]);
        }
    }
    if more.len() > 0 {
        assert(part + more =~= part + seq![','] + more.skip(1));
        law_cut_at_char(part, ',', more.skip(1));
    } else {
        assert(part + more =~= part);
        law_cut_at_char(part, ',', more);
    }
    assert(before(value.skip(6), ',') == part);
    let none = Seq::<char>::empty();
    law_trim_finds(none, part, none);
    assert(none + part + none =~= part);
    law_cut_at_char(first, '-', last);
    assert(part =~= first + seq!['-'] + last);
}

/// A range with a side that is neither left out nor a number is not well-formed, nor is one
/// with both sides left out: it is passed over, and the whole file is served. So is a header
/// that asks for something else than bytes.
pub proof fn law_malformed_range(
    first: Seq<char>,
    last: Seq<char>,
    more: Seq<char>,
    other: Seq<char>,
    total: nat,
)
    requires
        is_side(first),
        is_side(last),
        more.len() > 0 ==> more[0] == ',',
        ({
            ||| first.len() > 0 && number(first, u64::MAX as nat) is None
            ||| last.len() > 0 && number(last, u64::MAX as nat) is None
            ||| first.len() == 0 && last.len() == 0
        }),
        !starts_with(other, "bytes="@),
    ensures
        reply_status(Some("bytes="@ + first + "-"@ + last + more), total) == 200,
        reply_status(Some(other), total) == 200,
{
    lemma_range_sides(first, last, more);
    let value = "bytes="@ + first + "-"@ + last + more;
    assert(range_sides(value) == Some((first, last)));
    assert(number(Seq::<char>::empty(), u64::MAX as nat) is None);
    if first.len() == 0 && last.len() == 0 {
        assert(last =~= Seq::<char>::empty());
    }
}

/// `bytes=a-b` asks for the bytes from `a` to `b`, both of them among them, as far as the file
/// goes. Where it begins behind its own end there is no such range; where it begins behind the
/// file it is refused. Ranges after a first one are passed over.
pub proof fn law_range_from_to(a: nat, b: nat, more: Seq<char>, total: nat)
    requires
        a <= u64::MAX,
        b <= u64::MAX,
        more.len() > 0 ==> more[0] == ',',
    ensures
        ({
            let value = "bytes="@ + decimal(a) + "-"@ + decimal(b) + more;
            &&& a <= b < total ==> range_of(value, total) == Some((a, b))
            &&& a < total <= b ==> range_of(value, total) == Some((a, (total - 1) as nat))
            &&& a > b || a >= total ==> range_of(value, total) is None
            &&& cannot_be_satisfied(value, total) <==> a >= total
        }),
{
    lemma_decimal(a);
    lemma_decimal(b);
    lemma_digits_are_side(decimal(a));
    lemma_digits_are_side(decimal(b));
    lemma_range_sides(decimal(a), decimal(b), more);
    law_decimal_round_trip(a, u64::MAX as nat);
    law_decimal_round_trip(b, u64::MAX as nat);
}

/// `bytes=a-` asks for everything from `a` on; where that lies behind the file it is refused.
pub proof fn law_range_from(a: nat, more: Seq<char>, total: nat)
    requires
        a <= u64::MAX,
        more.len() > 0 ==> more[0] == ',',
    ensures
        ({
            let value = "bytes="@ + decimal(a) + "-"@ + more;
            &&& a < total ==> range_of(value, total) == Some((a, (total - 1) as nat))
            &&& a >= total ==> range_of(value, total) is None
            &&& cannot_be_satisfied(value, total) <==> a >= total
        }),
{
    let none = Seq::<char>::empty();
    lemma_decimal(a);
    lemma_digits_are_side(decimal(a));
    lemma_range_sides(decimal(a), none, more);
    assert("bytes="@ + decimal(a) + "-"@ + none + more =~= "bytes="@ + decimal(a) + "-"@ + more);
    law_decimal_round_trip(a, u64::MAX as nat);
}

/// `bytes=-n` asks for the last `n` bytes, or for all where the file has fewer; where that is
/// none of them it is refused.
pub proof fn law_range_of_the_last(n: nat, more: Seq<char>, total: nat)
    requires
        n <= u64::MAX,
        more.len() > 0 ==> more[0] == ',',
    ensures
        ({
            let value = "bytes=-"@ + decimal(n) + more;
            &&& 0 < n <= total ==> range_of(value, total) == Some(
                ((total - n) as nat, (total - 1) as nat),
            )
            &&& 0 < total < n ==> range_of(value, total) == Some((0nat, (total - 1) as nat))
            &&& n == 0 || total == 0 ==> range_of(value, total) is None
            &&& cannot_be_satisfied(value, total) <==> n == 0
        }),
{
    let none = Seq::<char>::empty();
    reveal_strlit("bytes=-");
    reveal_strlit("bytes=");
    reveal_strlit("-");
    lemma_decimal(n);
    lemma_digits_are_side(decimal(n));
    lemma_range_sides(none, decimal(n), more);
    assert("bytes="@ + none + "-"@ + decimal(n) + more =~= "bytes=-"@ + decimal(n) + more);
    law_decimal_round_trip(n, u64::MAX as nat);
}

/// What a served answer tells besides its body: a header that says how long the body is, one
/// that says what it is, that ranges of bytes can be asked for, how it is transferred, and,
/// if they were asked for, the DLNA features.
pub open spec fn tells_of_media(
    headers: Seq<HeaderPair>,
    wants_features: bool,
    content_type: Seq<char>,
    length: nat,
) -> bool {
    &&& headers.contains(("content-length"@, decimal(length)))
    &&& headers.contains(("content-type"@, content_type))
    &&& headers.contains(("accept-ranges"@, "bytes"@))
    &&& headers.contains(("transfermode.dlna.org"@, "Streaming"@))
    &&& wants_features ==> headers.contains(("contentfeatures.dlna.org"@, DLNA_CONTENT_FEATURES@))
    &&& !wants_features ==> forall|i: int|
        0 <= i < headers.len() ==> (#[trigger] headers[i]).0 != "contentfeatures.dlna.org"@
}

proof fn lemma_header_names()
    ensures
        "content-length"@ != "contentfeatures.dlna.org"@,
        "content-type"@ != "contentfeatures.dlna.org"@,
        "accept-ranges"@ != "contentfeatures.dlna.org"@,
        "transfermode.dlna.org"@ != "contentfeatures.dlna.org"@,
        "content-range"@ != "contentfeatures.dlna.org"@,
        "content-length"@ != "content-range"@,
        "content-type"@ != "content-range"@,
        "accept-ranges"@ != "content-range"@,
        "transfermode.dlna.org"@ != "content-range"@,
{
    reveal_strlit("content-length");
    reveal_strlit("content-type");
    reveal_strlit("accept-ranges");
    reveal_strlit("transfermode.dlna.org");
    reveal_strlit("content-range");
    reveal_strlit("contentfeatures.dlna.org");
    assert("contentfeatures.dlna.org"@.len() == 24 && "content-range"@.len() == 13);
    assert("content-length"@.len() == 14 && "content-type"@.len() == 12);
    assert("accept-ranges"@[0] == 'a' && "content-range"@[0] == 'c');
    assert("accept-ranges"@.len() == 13 && "transfermode.dlna.org"@.len() == 21);
}

proof fn lemma_common_headers(headers: Seq<HeaderPair>, wants_features: bool, content_type: Seq<char>)
    requires
        ({
            let common = media_headers(content_type, wants_features);
            common.len() <= headers.len() && common == headers.take(common.len() as int)
        }),
        forall|i: int|
            media_headers(content_type, wants_features).len() <= i < headers.len() ==> (
            #[trigger] headers[i]).0 != "contentfeatures.dlna.org"@,
    ensures
        headers.contains(("content-type"@, content_type)),
        headers.contains(("accept-ranges"@, "bytes"@)),
        headers.contains(("transfermode.dlna.org"@, "Streaming"@)),
        wants_features ==> headers.contains(
            ("contentfeatures.dlna.org"@, DLNA_CONTENT_FEATURES@),
        ),
        !wants_features ==> forall|i: int|
            0 <= i < headers.len() ==> (#[trigger] headers[i]).0 != "contentfeatures.dlna.org"@,
{
    lemma_header_names();
    let common = media_headers(content_type, wants_features);
    assert forall|i: int| 0 <= i < common.len() implies headers[i] == common[i] by {
        assert(headers.take(common.len() as int)[i] == headers[i]);
    }
    assert(common[0] == ("accept-ranges"@, "bytes"@));
    assert(common[1] == ("content-type"@, content_type));
    assert(common[2] == ("transfermode.dlna.org"@, "Streaming"@));
    assert(headers[0] == common[0] && headers[1] == common[1] && headers[2] == common[2]);
    if wants_features {
        assert(common[3] == ("contentfeatures.dlna.org"@, DLNA_CONTENT_FEATURES@));
        assert(headers[3] == common[3]);
    } else {
        assert forall|i: int| 0 <= i < headers.len() implies (#[trigger] headers[i]).0
            != "contentfeatures.dlna.org"@ by {
            if i < 3 {
                assert(headers[i] == common[i]);
            }
        }
    }
}

/// A range that the file has is answered with 206: the answer tells which bytes of how many it
/// carries, and how many they are, and carries exactly those, or none to HEAD.
pub proof fn law_range_is_served(
    value: Seq<char>,
    start: nat,
    end: nat,
    wants_features: bool,
    is_head: bool,
    content_type: Seq<char>,
    total: nat,
)
    requires
        range_of(value, total) == Some((start, end)),
        total <= u64::MAX,
    ensures
        ({
            let headers = reply_headers(Some(value), wants_features, content_type, total);
            &&& reply_status(Some(value), total) == 206
            &&& tells_of_media(headers, wants_features, content_type, (end - start + 1) as nat)
            &&& headers.len() == (if wants_features {
                6int
            } else {
                5int
            })
            &&& headers.contains(
                (
                    "content-range"@,
                    "bytes "@ + decimal(start) + "-"@ + decimal(end) + "/"@ + decimal(total),
                ),
            )
            &&& is_head ==> reply_body(Some(value), is_head, total) is Empty
            &&& !is_head ==> reply_body(Some(value), is_head, total) == (MediaBody::Part {
                start: start as u64,
                len: (end - start + 1) as u64,
            })
            &&& 0 <= start <= end < total
        }),
{
    law_range_is_inside(Some(value), total);
    lemma_header_names();
    let headers = reply_headers(Some(value), wants_features, content_type, total);
    let common = media_headers(content_type, wants_features);
    let k = common.len() as int;
    assert(headers.take(k) =~= common);
    assert(headers[k] == ("content-length"@, decimal((end - start + 1) as nat)));
    assert(headers[k + 1] == (
        "content-range"@,
        "bytes "@ + decimal(start) + "-"@ + decimal(end) + "/"@ + decimal(total),
    ));
    lemma_common_headers(headers, wants_features, content_type);
}

/// A request without a range, and one whose range is not well-formed or begins behind its own
/// end, is answered with 200 and the whole file, or nothing of it to HEAD; no range is told.
pub proof fn law_whole_file_is_served(
    range: Option<Seq<char>>,
    wants_features: bool,
    is_head: bool,
    content_type: Seq<char>,
    total: nat,
)
    requires
        range matches Some(value) ==> range_of(value, total) is None && !cannot_be_satisfied(
            value,
            total,
        ),
    ensures
        ({
            let headers = reply_headers(range, wants_features, content_type, total);
            &&& reply_status(range, total) == 200
            &&& tells_of_media(headers, wants_features, content_type, total)
            &&& headers.len() == (if wants_features {
                5int
            } else {
                4int
            })
            &&& forall|i: int|
                0 <= i < headers.len() ==> (#[trigger] headers[i]).0 != "content-range"@
            &&& reply_body(range, is_head, total) == (if is_head {
                MediaBody::Empty
            } else {
                MediaBody::Whole
            })
        }),
{
    lemma_header_names();
    let headers = reply_headers(range, wants_features, content_type, total);
    let common = media_headers(content_type, wants_features);
    let k = common.len() as int;
    assert(headers.take(k) =~= common);
    assert(headers[k] == ("content-length"@, decimal(total)));
    lemma_common_headers(headers, wants_features, content_type);
    assert("contentfeatures.dlna.org"@ != "content-range"@);
}

/// A range that the file cannot have is answered with 416, its length and no body.
pub proof fn law_refused_range_is_told(
    value: Seq<char>,
    wants_features: bool,
    is_head: bool,
    content_type: Seq<char>,
    total: nat,
)
    requires
        cannot_be_satisfied(value, total),
    ensures
        reply_status(Some(value), total) == 416,
        reply_headers(Some(value), wants_features, content_type, total) == seq![
            ("content-range"@, "bytes */"@ + decimal(total)),
        ],
        reply_body(Some(value), is_head, total) is Empty,
{
    law_refused_range_is_not_served(value, total);
}

/// The file name of a path is what follows its last slash, unless that is nothing, `.` or
/// `..`. Slashes at its end, and `.` components, do not count.
pub proof fn law_file_name(dir: Seq<char>, name: Seq<char>)
    requires
        is_free_of(name, '/'),
    ensures
        name.len() > 0 && name != seq!['.'] && name != seq!['.', '.'] ==> file_name(
            dir + seq!['/'] + name,
        ) == Some(name) && file_name(name) == Some(name),
        name.len() == 0 || name == seq!['.'] ==> file_name(dir + seq!['/'] + name) == file_name(
            dir,
        ) && file_name(name) is None,
        name == seq!['.', '.'] ==> file_name(dir + seq!['/'] + name) is None && file_name(
            name,
        ) is None,
{
    let path = dir + seq!['/'] + name;
    law_last_char(dir, '/', name);
    assert(path.take(dir.len() as int) =~= dir);
    assert(path.skip(dir.len() as int + 1) =~= name);
    assert(seq!['.'] != seq!['.', '.']) by {
        assert(seq!['.'].len() == 1 && seq!['.', '.'].len() == 2);
    }
}

/// The extension of a file name is what follows its last dot; a name that has no dot, or only
/// one at its front, has none.
pub proof fn law_extension(dir: Seq<char>, stem: Seq<char>, ext: Seq<char>)
    requires
        is_free_of(stem, '/'),
        is_free_of(ext, '/'),
        is_free_of(ext, '.'),
        ext.len() > 0,
    ensures
        stem.len() > 0 ==> extension(dir + seq!['/'] + stem + seq!['.'] + ext) == Some(ext),
        stem.len() > 0 ==> extension(stem + seq!['.'] + ext) == Some(ext),
        extension(dir + seq!['/'] + seq!['.'] + ext) is None,
        extension(dir + seq!['/'] + ext) is None,
        extension(ext) is None,
{
    let name = stem + seq!['.'] + ext;
    let hidden = seq!['.'] + ext;
    assert(is_free_of(name, '/')) by {
        assert forall|i: int| 0 <= i < name.len() implies #[trigger] name[i] != '/' by {
            if i < stem.len() {
                assert(name[i] == stem[i]);
            } else if i > stem.len() {
                assert(name[i] == ext[i - stem.len() - 1]);
            }
        }
    }
    assert(is_free_of(hidden, '/')) by {
        assert forall|i: int| 0 <= i < hidden.len() implies #[trigger] hidden[i] != '/' by {
            if i > 0 {
                assert(hidden[i] == ext[i - 1]);
            }
        }
    }
    assert(ext[0] != '.' && ext[ext.len() - 1] != '.');
    assert(seq!['.'][0] == '.' && seq!['.', '.'][0] == '.');
    assert(seq!['.', '.'][1] == '.' && seq!['.', '.'].len() == 2 && seq!['.'].len() == 1);
    assert(name.last() == ext.last());
    assert(hidden[1] == ext[0]);
    assert(hidden.len() >= 2);
    law_file_name(dir, name);
    law_file_name(dir, hidden);
    law_file_name(dir, ext);
    law_last_char(stem, '.', ext);
    law_last_char(Seq::empty(), '.', ext);
    assert(Seq::<char>::empty() + seq!['.'] + ext =~= hidden);
    if stem.len() > 0 {
        assert(name.len() >= 2);
        if name == seq!['.', '.'] {
            assert(name[1] == ext.last());
        }
        assert(name.skip(stem.len() as int + 1) =~= ext);
    }
    assert(dir + seq!['/'] + stem + seq!['.'] + ext =~= dir + seq!['/'] + name);
    assert(dir + seq!['/'] + seq!['.'] + ext =~= dir + seq!['/'] + hidden);
    if ext == seq!['.'] {
        assert(ext[0] == '.');
    }
    if ext == seq!['.', '.'] {
        assert(ext[0] == '.');
    }
}

/// The case of an extension does not matter to its content type, and an extension that is not
/// one of those known has that of plain bytes.
pub proof fn law_content_type(ext: Seq<char>)
    ensures
        content_type_text(Some(ext)) == content_type_text(Some(lowered(ext))),
        !seq![
            "mp4"@,
            "m4v"@,
            "mkv"@,
            "mov"@,
            "webm"@,
            "avi"@,
            "ts"@,
            "mpeg"@,
            "mpg"@,
            "mp3"@,
            "flac"@,
            "aac"@,
            "wav"@,
            "jpg"@,
            "jpeg"@,
            "png"@,
        ].contains(lowered(ext)) ==> content_type_text(Some(ext)) == "application/octet-stream"@,
{
    assert(lowered(lowered(ext)) =~= lowered(ext));
    let known = seq![
        "mp4"@,
        "m4v"@,
        "mkv"@,
        "mov"@,
        "webm"@,
        "avi"@,
        "ts"@,
        "mpeg"@,
        "mpg"@,
        "mp3"@,
        "flac"@,
        "aac"@,
        "wav"@,
        "jpg"@,
        "jpeg"@,
        "png"@,
    ];
    assert forall|i: int| 0 <= i < known.len() implies known.contains(#[trigger] known[i]) by {}
    assert(known[0] == "mp4"@ && known[1] == "m4v"@ && known[2] == "mkv"@ && known[3] == "mov"@);
    assert(known[4] == "webm"@ && known[5] == "avi"@ && known[6] == "ts"@ && known[7] == "mpeg"@);
    assert(known[8] == "mpg"@ && known[9] == "mp3"@ && known[10] == "flac"@);
    assert(known[11] == "aac"@ && known[12] == "wav"@ && known[13] == "jpg"@);
    assert(known[14] == "jpeg"@ && known[15] == "png"@);
}

/// The URL of a served file is an absolute HTTP URL with the port that the file is served on
/// and, in lower case, the extension of the file, so that its content type is that of the
/// file.
pub proof fn law_media_url(ip: IpAddr, port: u16, ext: Seq<char>)
    requires
        ext.len() > 0,
        is_free_of(ext, '/'),
        is_free_of(ext, '.'),
    ensures
        ({
            let url = media_url_text(ip, port, Some(ext));
            &&& is_http_url(url)
            &&& port_of(url) == Some(port as nat)
            &&& extension(url) == Some(lowered(ext))
            &&& content_type_text(extension(url)) == content_type_text(Some(ext))
        }),
{
    let url = media_url_text(ip, port, Some(ext));
    let low = lowered(ext);
    let host = ip.text();
    law_text_has_no_slash(ip);
    reveal_strlit("http://");
    reveal_strlit("http");
    reveal_strlit("://");
    reveal_strlit(":");
    reveal_strlit("/media.");
    reveal_strlit("media");
    assert(is_free_of(low, '/') && is_free_of(low, '.')) by {
        assert forall|i: int| 0 <= i < low.len() implies #[trigger] low[i] != '/' && low[i]
            != '.' by {
            assert(ext[i] != '/' && ext[i] != '.');
            law_lower(ext, i);
        }
    }
    let front = "http://"@ + host + ":"@ + decimal(port as nat);
    assert(url =~= front + seq!['/'] + "media"@ + seq!['.'] + low);
    law_extension(front, "media"@, low);
    assert(url.subrange(0, 7) =~= "http://"@);
    let path = "/media."@ + low;
    assert(url =~= "http"@ + "://"@ + host + ":"@ + decimal(port as nat) + path);
    law_port_is_read("http"@, host, port as nat, path);
    law_content_type(ext);
}

/// A file without an extension is served under `bin`.
pub proof fn law_media_url_without_extension(ip: IpAddr, port: u16)
    ensures
        media_url_text(ip, port, None) == media_url_text(ip, port, Some("bin"@)),
{
}

} // verus!
