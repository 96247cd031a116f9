//! What an RTSP response is on the wire, and that it is read back.

use vstd::prelude::*;
use vstd::utf8::char_is_scalar;
use vstd::utf8::char_u32_cast;
use vstd::utf8::decode_utf8;
use vstd::utf8::encode_scalar;
use vstd::utf8::encode_utf8;
use vstd::utf8::encode_utf8_decode_utf8;
use vstd::utf8::encode_utf8_valid_utf8;
use vstd::utf8::has_width_1_encoding;

use crate::net::rtsp::content_length;
use crate::net::rtsp::head_mark;
use crate::net::rtsp::header_lines;
use crate::net::rtsp::headers_of;
use crate::net::rtsp::received;
use crate::net::rtsp::status_of;
use crate::net::rtsp::HeaderText;
use crate::net::rtsp::Received;
use crate::net::rtsp::RequestText;
use crate::net::rtsp::ResponseText;
use crate::text::before;
use crate::text::decimal;
use crate::text::find;
use crate::text::is_digit;
use crate::text::is_white;
use crate::text::law_decimal_round_trip;
use crate::text::lemma_decimal;
use crate::text::lemma_find_from;
use crate::text::lemma_find_is;
use crate::text::occurs_at;
use crate::text::split;
use crate::text::trim_start;
use crate::text::trimmed;

verus! {

/// The text holds no line end.
pub open spec fn is_one_line(s: Seq<char>) -> bool {
    forall|i: int| 0 <= i < s.len() ==> (#[trigger] s[i]) != '\r' && s[i] != '\n'
}

/// The header can be written on a line of its own: no line ends, no colon in its name, and
/// no white space around its name or its value.
pub open spec fn is_plain_header(h: HeaderText) -> bool {
    &&& is_one_line(h.0)
    &&& is_one_line(h.1)
    &&& trimmed(h.0) == h.0
    &&& trimmed(h.1) == h.1
    &&& !h.0.contains(':')
}

/// The first line of a response.
pub open spec fn status_line(status: nat, reason: Seq<char>) -> Seq<char> {
    "RTSP/1.0 "@ + decimal(status) + " "@ + reason
}

/// The status line, the headers and the blank line of a response.
pub open spec fn response_head(r: ResponseText) -> Seq<char> {
    status_line(r.status, r.reason) + "\r\n"@ + header_lines(r.headers) + "\r\n"@
}

/// A response on the wire.
pub open spec fn response_bytes(r: ResponseText) -> Seq<u8> {
    encode_utf8(response_head(r)) + r.body
}

/// What a receiver says is what is read: a response that is written out, with a status of 16
/// bits, plain headers and a body as long as they say, is read back whole, with every byte of
/// it used.
pub proof fn law_response_is_read(r: ResponseText)
    requires
        r.status <= 0xFFFF,
        is_one_line(r.reason),
        forall|i: int| 0 <= i < r.headers.len() ==> is_plain_header(#[trigger] r.headers[i]),
        content_length(r.headers) == r.body.len(),
    ensures
        received(response_bytes(r)) == Received::Complete(r, response_bytes(r).len() as int),
{
    let lines = response_lines(r);
    let text = joined(lines);
    let front = text.take(text.len() - 2);
    let crlf = seq![13u8, 10u8];
    let bytes = response_bytes(r);
    lemma_lines_are_plain(r);
    lemma_head_is_joined(r);
    lemma_crlf_bytes();
    lemma_encode_concat(text, "\r\n"@);
    assert(bytes =~= encode_utf8(text) + crlf + r.body);
    lemma_find_mark(lines, r.body);
    lemma_joined_ends(lines);
    lemma_encode_concat(front, "\r\n"@);
    assert(text =~= front + "\r\n"@);
    let end = encode_utf8(front).len() as int;
    assert(bytes.take(end) =~= encode_utf8(front));
    encode_utf8_valid_utf8(front);
    encode_utf8_decode_utf8(front);
    lemma_split_lines(lines);
    lemma_status(r.status, r.reason);
    assert(lines.skip(1) =~= r.headers.map_values(|h: HeaderText| header_line(h)));
    lemma_headers(r.headers);
    assert(bytes.subrange(end + 4, bytes.len() as int) =~= r.body);
}

// --- Lines ---------------------------------------------------------------------------

/// The line of a header.
spec fn header_line(h: HeaderText) -> Seq<char> {
    h.0 + ": "@ + h.1
}

/// The lines of the head of a response.
spec fn response_lines(r: ResponseText) -> Seq<Seq<char>> {
    seq![status_line(r.status, r.reason)] + r.headers.map_values(|h: HeaderText| header_line(h))
}

/// Lines one after the other, each with its line end.
spec fn joined(lines: Seq<Seq<char>>) -> Seq<char>
    decreases lines.len(),
{
    if lines.len() == 0 {
        Seq::empty()
    } else {
        lines[0] + "\r\n"@ + joined(lines.skip(1))
    }
}

proof fn lemma_joined_push(lines: Seq<Seq<char>>, line: Seq<char>)
    ensures
        joined(lines.push(line)) == joined(lines) + line + "\r\n"@,
    decreases lines.len(),
{
    let all = lines.push(line);
    if lines.len() == 0 {
        assert(all.skip(1) =~= Seq::<Seq<char>>::empty());
        assert(joined(all.skip(1)) =~= Seq::<char>::empty());
        assert(joined(all) =~= joined(lines) + line + "\r\n"@);
    } else {
        lemma_joined_push(lines.skip(1), line);
        assert(all.skip(1) =~= lines.skip(1).push(line));
        assert(joined(all) =~= joined(lines) + line + "\r\n"@);
    }
}

proof fn lemma_header_lines(headers: Seq<HeaderText>)
    ensures
        header_lines(headers) == joined(headers.map_values(|h: HeaderText| header_line(h))),
    decreases headers.len(),
{
    let lines = headers.map_values(|h: HeaderText| header_line(h));
    if headers.len() > 0 {
        let front = headers.drop_last();
        let front_lines = front.map_values(|h: HeaderText| header_line(h));
        lemma_header_lines(front);
        lemma_joined_push(front_lines, header_line(headers.last()));
        assert(lines =~= front_lines.push(header_line(headers.last())));
        assert(header_lines(headers) =~= joined(lines));
    }
}

proof fn lemma_head_is_joined(r: ResponseText)
    ensures
        response_head(r) == joined(response_lines(r)) + "\r\n"@,
{
    let lines = response_lines(r);
    lemma_header_lines(r.headers);
    assert(lines.skip(1) =~= r.headers.map_values(|h: HeaderText| header_line(h)));
    assert(response_head(r) =~= joined(lines) + "\r\n"@);
}

proof fn lemma_joined_ends(lines: Seq<Seq<char>>)
    requires
        lines.len() > 0,
    ensures
        joined(lines).len() >= 2,
        joined(lines).skip(joined(lines).len() - 2) == "\r\n"@,
{
    reveal_strlit("\r\n");
    lemma_joined_push(lines.drop_last(), lines.last());
    assert(lines.drop_last().push(lines.last()) =~= lines);
    assert(joined(lines).skip(joined(lines).len() - 2) =~= "\r\n"@);
}

proof fn lemma_lines_are_plain(r: ResponseText)
    requires
        is_one_line(r.reason),
        forall|i: int| 0 <= i < r.headers.len() ==> is_plain_header(#[trigger] r.headers[i]),
    ensures
        forall|i: int|
            0 <= i < response_lines(r).len() ==> is_one_line(#[trigger] response_lines(r)[i])
                && response_lines(r)[i].len() > 0,
{
    reveal_strlit("RTSP/1.0 ");
    reveal_strlit(" ");
    reveal_strlit(": ");
    lemma_decimal(r.status);
    let lines = response_lines(r);
    assert forall|i: int| 0 <= i < lines.len() implies is_one_line(#[trigger] lines[i])
        && lines[i].len() > 0 by {
        if i == 0 {
            let d = decimal(r.status);
            assert forall|k: int| 0 <= k < lines[0].len() implies (#[trigger] lines[0][k]) != '\r'
                && lines[0][k] != '\n' by {
                if 9 <= k < 9 + d.len() {
                    assert(lines[0][k] == d[k - 9]);
                    assert(is_digit(d[k - 9]));
                } else if k > 9 + d.len() {
                    assert(lines[0][k] == r.reason[k - 10 - d.len()]);
                }
            }
        } else {
            let h = r.headers[i - 1];
            assert(is_plain_header(h));
            assert(lines[i] == header_line(h));
            assert forall|k: int| 0 <= k < lines[i].len() implies (#[trigger] lines[i][k]) != '\r'
                && lines[i][k] != '\n' by {
                if k < h.0.len() {
                    assert(lines[i][k] == h.0[k]);
                } else if k >= h.0.len() + 2 {
                    assert(lines[i][k] == h.1[k - h.0.len() - 2]);
                }
            }
        }
    }
}

// --- Splitting -----------------------------------------------------------------------

/// The first line end is after the first line.
proof fn lemma_first_line_end(line: Seq<char>, rest: Seq<char>)
    requires
        is_one_line(line),
    ensures
        find(line + "\r\n"@ + rest, "\r\n"@) == Some(line.len() as int),
{
    reveal_strlit("\r\n");
    let s = line + "\r\n"@ + rest;
    let n = line.len() as int;
    assert(s.subrange(n, n + 2) =~= "\r\n"@);
    assert forall|j: int| 0 <= j < n implies !occurs_at(s, "\r\n"@, j) by {
        assert(s[j] == line[j]);
        if occurs_at(s, "\r\n"@, j) {
            assert(s.subrange(j, j + 2)[0] == s[j]);
        }
    }
    lemma_find_is(s, "\r\n"@, 0, n);
}

proof fn lemma_split_lines(lines: Seq<Seq<char>>)
    requires
        lines.len() > 0,
        forall|i: int| 0 <= i < lines.len() ==> is_one_line(#[trigger] lines[i]),
    ensures
        split(joined(lines).take(joined(lines).len() - 2), "\r\n"@) == lines,
    decreases lines.len(),
{
    reveal_strlit("\r\n");
    let text = joined(lines);
    let front = text.take(text.len() - 2);
    let line = lines[0];
    let rest = lines.skip(1);
    assert(is_one_line(line));
    if lines.len() == 1 {
        assert(joined(rest) =~= Seq::<char>::empty());
        assert(front =~= line);
        lemma_find_from(line, "\r\n"@, 0);
        if find(line, "\r\n"@) is Some {
            let j = find(line, "\r\n"@)->0;
            assert(line.subrange(j, j + 2)[0] == line[j]);
        }
        assert(split(front, "\r\n"@) =~= lines);
    } else {
        lemma_joined_ends(rest);
        let tail = joined(rest).take(joined(rest).len() - 2);
        assert forall|i: int| 0 <= i < rest.len() implies is_one_line(#[trigger] rest[i]) by {
            assert(rest[i] == lines[i + 1]);
        }
        lemma_split_lines(rest);
        assert(front =~= line + "\r\n"@ + tail);
        lemma_first_line_end(line, tail);
        assert(front.take(line.len() as int) =~= line);
        assert(front.skip(line.len() as int + 2) =~= tail);
        assert(split(front, "\r\n"@) =~= seq![line] + rest);
        assert(seq![line] + rest =~= lines);
    }
}

/// A character with none like it before it is the first.
proof fn lemma_first_char(s: Seq<char>, c: char, i: int)
    requires
        0 <= i < s.len(),
        s[i] == c,
        forall|j: int| 0 <= j < i ==> s[j] != c,
    ensures
        find(s, seq![c]) == Some(i),
{
    assert(s.subrange(i, i + 1) =~= seq![c]);
    assert forall|j: int| 0 <= j < i implies !occurs_at(s, seq![c], j) by {
        if occurs_at(s, seq![c], j) {
            assert(s.subrange(j, j + 1)[0] == s[j]);
            assert(seq![c][0] == c);
        }
    }
    lemma_find_is(s, seq![c], 0, i);
}

proof fn lemma_status(status: nat, reason: Seq<char>)
    requires
        status <= 0xFFFF,
    ensures
        status_of(status_line(status, reason)) == Ok::<(nat, Seq<char>), Seq<char>>(
            (status, reason),
        ),
{
    reveal_strlit("RTSP/1.0 ");
    reveal_strlit("RTSP/");
    reveal_strlit(" ");
    let line = status_line(status, reason);
    let d = decimal(status);
    lemma_decimal(status);
    law_decimal_round_trip(status, 0xFFFF);
    lemma_first_char(line, ' ', 8);
    assert(before(line, ' ').subrange(0, 5) =~= "RTSP/"@);
    let rest = line.skip(9);
    assert(rest =~= d + " "@ + reason);
    assert forall|j: int| 0 <= j < d.len() implies rest[j] != ' ' by {
        assert(is_digit(d[j]));
        assert(rest[j] == d[j]);
    }
    lemma_first_char(rest, ' ', d.len() as int);
    assert(rest.take(d.len() as int) =~= d);
    assert(rest.skip(d.len() as int + 1) =~= reason);
}

proof fn lemma_headers(headers: Seq<HeaderText>)
    requires
        forall|i: int| 0 <= i < headers.len() ==> is_plain_header(#[trigger] headers[i]),
    ensures
        headers_of(headers.map_values(|h: HeaderText| header_line(h))) == Ok::<
            Seq<HeaderText>,
            Seq<char>,
        >(headers),
    decreases headers.len(),
{
    let lines = headers.map_values(|h: HeaderText| header_line(h));
    if headers.len() > 0 {
        reveal_strlit(": ");
        let front = headers.drop_last();
        let h = headers.last();
        let line = header_line(h);
        assert forall|i: int| 0 <= i < front.len() implies is_plain_header(#[trigger] front[i]) by {
            assert(front[i] == headers[i]);
        }
        lemma_headers(front);
        assert(lines.drop_last() =~= front.map_values(|h: HeaderText| header_line(h)));
        assert(lines.last() == line);
        assert(is_plain_header(headers[headers.len() - 1]));
        let n = h.0.len() as int;
        assert forall|j: int| 0 <= j < n implies line[j] != ':' by {
            assert(line[j] == h.0[j]);
            assert(h.0.contains(h.0[j]));
        }
        lemma_first_char(line, ':', n);
        assert(line.take(n) =~= h.0);
        let value = line.skip(n + 1);
        assert(value.skip(1) =~= h.1);
        assert(value[0] == ' ' && is_white(' '));
        assert(trim_start(value) == trim_start(h.1));
        assert(trimmed(value) == h.1);
        assert(front.push(h) =~= headers);
    } else {
        assert(headers =~= Seq::<HeaderText>::empty());
        assert(headers_of(lines) == Ok::<Seq<HeaderText>, Seq<char>>(Seq::empty()));
    }
}

// --- Bytes ---------------------------------------------------------------------------

/// Text is encoded piece by piece.
proof fn lemma_encode_concat(a: Seq<char>, b: Seq<char>)
    ensures
        encode_utf8(a + b) == encode_utf8(a) + encode_utf8(b),
    decreases a.len(),
{
    if a.len() == 0 {
        assert(a + b =~= b);
        assert(encode_utf8(a + b) =~= encode_utf8(a) + encode_utf8(b));
    } else {
        lemma_encode_concat(a.drop_first(), b);
        assert((a + b).drop_first() =~= a.drop_first() + b);
        assert(encode_utf8(a + b) =~= encode_utf8(a) + encode_utf8(b));
    }
}

/// The bytes of characters past ASCII are past ASCII, and those in it are themselves.
proof fn lemma_scalar_bytes(v: u32)
    ensures
        v < 0x80 ==> encode_scalar(v) == seq![v as u8],
        v >= 0x80 ==> forall|i: int|
            0 <= i < encode_scalar(v).len() ==> (#[trigger] encode_scalar(v)[i]) >= 0x80,
        encode_scalar(v).len() > 0,
{
    assert(v < 0x80 ==> vstd::utf8::leading_byte_width_1(v) == v as u8) by (bit_vector);
    assert(vstd::utf8::leading_byte_width_2(v) >= 0x80 && vstd::utf8::leading_byte_width_3(v)
        >= 0x80 && vstd::utf8::leading_byte_width_4(v) >= 0x80
        && vstd::utf8::last_continuation_byte(v) >= 0x80
        && vstd::utf8::second_last_continuation_byte(v) >= 0x80
        && vstd::utf8::third_last_continuation_byte(v) >= 0x80) by (bit_vector);
    assert(has_width_1_encoding(v) == (v < 0x80));
}

/// A line has no byte of a line end.
proof fn lemma_line_bytes(line: Seq<char>)
    requires
        is_one_line(line),
    ensures
        forall|i: int|
            0 <= i < encode_utf8(line).len() ==> (#[trigger] encode_utf8(line)[i]) != 13
                && encode_utf8(line)[i] != 10,
        line.len() > 0 ==> encode_utf8(line).len() > 0,
    decreases line.len(),
{
    if line.len() > 0 {
        let first = encode_scalar(line[0] as u32);
        let rest = line.drop_first();
        let all = encode_utf8(line);
        assert(line[0] != '\r' && line[0] != '\n');
        assert forall|i: int| 0 <= i < rest.len() implies (#[trigger] rest[i]) != '\r' && rest[i]
            != '\n' by {
            assert(rest[i] == line[i + 1]);
        }
        lemma_line_bytes(rest);
        lemma_scalar_bytes(line[0] as u32);
        char_is_scalar(line[0]);
        char_u32_cast(line[0], line[0] as u32);
        assert(line[0] as u32 != 13 && line[0] as u32 != 10);
        assert forall|i: int| 0 <= i < all.len() implies (#[trigger] all[i]) != 13 && all[i]
            != 10 by {
            if i < first.len() {
                assert(all[i] == first[i]);
            } else {
                assert(all[i] == encode_utf8(rest)[i - first.len()]);
            }
        }
    }
}

proof fn lemma_crlf_bytes()
    ensures
        encode_utf8("\r\n"@) == seq![13u8, 10u8],
{
    reveal_strlit("\r\n");
    let s = "\r\n"@;
    lemma_scalar_bytes('\r' as u32);
    lemma_scalar_bytes('\n' as u32);
    let rest = s.drop_first();
    assert(rest =~= seq!['\n']);
    assert(rest.drop_first() =~= Seq::<char>::empty());
    assert(encode_utf8(rest.drop_first()) =~= Seq::<u8>::empty());
    assert(encode_utf8(rest) =~= seq![10u8]);
    assert(encode_utf8(s) =~= seq![13u8, 10u8]);
}

/// The first empty line is the one after the lines.
proof fn lemma_find_mark(lines: Seq<Seq<char>>, body: Seq<u8>)
    requires
        lines.len() > 0,
        forall|i: int|
            0 <= i < lines.len() ==> is_one_line(#[trigger] lines[i]) && lines[i].len() > 0,
    ensures
        find(encode_utf8(joined(lines)) + seq![13u8, 10u8] + body, head_mark()) == Some(
            encode_utf8(joined(lines)).len() - 2,
        ),
    decreases lines.len(),
{
    let crlf = seq![13u8, 10u8];
    let mark = head_mark();
    let line = encode_utf8(lines[0]);
    let rest = lines.skip(1);
    let after = encode_utf8(joined(rest));
    let tail = after + crlf + body;
    let whole = encode_utf8(joined(lines)) + crlf + body;
    let n = line.len() as int;
    assert(is_one_line(lines[0]));
    lemma_line_bytes(lines[0]);
    lemma_crlf_bytes();
    lemma_encode_concat(lines[0] + "\r\n"@, joined(rest));
    lemma_encode_concat(lines[0], "\r\n"@);
    assert(encode_utf8(joined(lines)) =~= line + crlf + after);
    assert(whole =~= line + crlf + tail);
    assert forall|j: int| 0 <= j < n implies !occurs_at(whole, mark, j) by {
        assert(whole[j] == line[j]);
        if occurs_at(whole, mark, j) {
            assert(whole.subrange(j, j + 4)[0] == whole[j]);
        }
    }
    if rest.len() == 0 {
        assert(joined(rest) =~= Seq::<char>::empty());
        assert(after =~= Seq::<u8>::empty());
        assert(whole.subrange(n, n + 4) =~= mark);
        lemma_find_is(whole, mark, 0, n);
    } else {
        assert forall|i: int| 0 <= i < rest.len() implies is_one_line(#[trigger] rest[i])
            && rest[i].len() > 0 by {
            assert(rest[i] == lines[i + 1]);
        }
        lemma_find_mark(rest, body);
        lemma_find_from(tail, mark, 0);
        assert(is_one_line(rest[0]) && rest[0].len() > 0);
        lemma_line_bytes(rest[0]);
        lemma_encode_concat(rest[0], "\r\n"@ + joined(rest.skip(1)));
        assert(rest[0] + ("\r\n"@ + joined(rest.skip(1))) =~= joined(rest));
        assert(tail[0] == encode_utf8(rest[0])[0]);
        let at = after.len() - 2;
        assert(whole.subrange(n + 2 + at, n + 2 + at + 4) =~= tail.subrange(at, at + 4));
        assert forall|j: int| 0 <= j < n + 2 + at implies !occurs_at(whole, mark, j) by {
            if occurs_at(whole, mark, j) {
                assert(whole.subrange(j, j + 4)[0] == whole[j]);
                assert(whole.subrange(j, j + 4)[2] == whole[j + 2]);
                if j == n {
                    assert(whole[j + 2] == tail[0]);
                } else if j == n + 1 {
                    assert(whole[j] == 10);
                } else if j >= n + 2 {
                    assert(whole.subrange(j, j + 4) =~= tail.subrange(j - n - 2, j - n - 2 + 4));
                    assert(!occurs_at(tail, mark, j - n - 2));
                }
            }
        }
        lemma_find_is(whole, mark, 0, n + 2 + at);
    }
}

// --- Requests ------------------------------------------------------------------------

/// The lines of the head of a request.
spec fn request_lines(r: RequestText) -> Seq<Seq<char>> {
    seq![r.method + " "@ + r.uri + " RTSP/1.0"@] + r.headers.map_values(
        |h: HeaderText| header_line(h),
    )
}

proof fn lemma_request_lines_are_plain(r: RequestText)
    requires
        is_one_line(r.method),
        is_one_line(r.uri),
        forall|i: int| 0 <= i < r.headers.len() ==> is_plain_header(#[trigger] r.headers[i]),
    ensures
        forall|i: int|
            0 <= i < request_lines(r).len() ==> is_one_line(#[trigger] request_lines(r)[i])
                && request_lines(r)[i].len() > 0,
{
    reveal_strlit(" RTSP/1.0");
    reveal_strlit(" ");
    reveal_strlit(": ");
    let lines = request_lines(r);
    let m = r.method.len();
    let u = r.uri.len();
    assert forall|i: int| 0 <= i < lines.len() implies is_one_line(#[trigger] lines[i])
        && lines[i].len() > 0 by {
        if i == 0 {
            let line = lines[0];
            assert forall|k: int| 0 <= k < line.len() implies (#[trigger] line[k]) != '\r'
                && line[k] != '\n' by {
                if k < m {
                    assert(line[k] == r.method[k]);
                } else if m < k < m + 1 + u {
                    assert(line[k] == r.uri[k - m - 1]);
                } else if k > m {
                    assert(line[k] == " RTSP/1.0"@[k - m - 1 - u]);
                }
            }
        } else {
            let h = r.headers[i - 1];
            assert(is_plain_header(h));
            assert(lines[i] == header_line(h));
            assert forall|k: int| 0 <= k < lines[i].len() implies (#[trigger] lines[i][k]) != '\r'
                && lines[i][k] != '\n' by {
                if k < h.0.len() {
                    assert(lines[i][k] == h.0[k]);
                } else if k >= h.0.len() + 2 {
                    assert(lines[i][k] == h.1[k - h.0.len() - 2]);
                }
            }
        }
    }
}

/// What a receiver finds in a request on the wire: up to the first empty line the request
/// line, which is the method, the URI and the version with a space between them, and then a
/// line for each header, in order, with its name, a colon and its value; and after the empty
/// line the body and nothing else.
pub proof fn law_request_on_the_wire(r: RequestText, end: int)
    requires
        is_one_line(r.method),
        is_one_line(r.uri),
        forall|i: int| 0 <= i < r.headers.len() ==> is_plain_header(#[trigger] r.headers[i]),
        find(r.bytes(), seq![13u8, 10u8, 13u8, 10u8]) == Some(end),
    ensures
        r.bytes().skip(end + 4) == r.body,
        ({
            let lines = split(decode_utf8(r.bytes().take(end)), "\r\n"@);
            &&& lines.len() == r.headers.len() + 1
            &&& lines[0] == r.method + " "@ + r.uri + " RTSP/1.0"@
            &&& headers_of(lines.skip(1)) == Ok::<Seq<HeaderText>, Seq<char>>(r.headers)
        }),
{
    let lines = request_lines(r);
    let text = joined(lines);
    let front = text.take(text.len() - 2);
    let crlf = seq![13u8, 10u8];
    let bytes = r.bytes();
    lemma_request_lines_are_plain(r);
    lemma_request_head(r);
    lemma_crlf_bytes();
    lemma_encode_concat(text, "\r\n"@);
    assert(bytes =~= encode_utf8(text) + crlf + r.body);
    lemma_find_mark(lines, r.body);
    lemma_joined_ends(lines);
    lemma_encode_concat(front, "\r\n"@);
    assert(text =~= front + "\r\n"@);
    assert(end == encode_utf8(front).len());
    assert(bytes.take(end) =~= encode_utf8(front));
    encode_utf8_decode_utf8(front);
    lemma_split_lines(lines);
    assert(lines.skip(1) =~= r.headers.map_values(|h: HeaderText| header_line(h)));
    lemma_headers(r.headers);
    assert(bytes.skip(end + 4) =~= r.body);
}

/// Every request has the empty line that ends its headers.
pub proof fn law_request_has_an_end(r: RequestText)
    ensures
        find(r.bytes(), seq![13u8, 10u8, 13u8, 10u8]) is Some,
{
    reveal_strlit("\r\n");
    reveal_strlit(" RTSP/1.0\r\n");
    lemma_crlf_bytes();
    lemma_header_lines_end(r.headers);
    let lines = header_lines(r.headers);
    let first = r.method + " "@ + r.uri + " RTSP/1.0\r\n"@;
    let front = first + lines;
    let n = front.len() - 2;
    assert(front.skip(n) =~= "\r\n"@);
    lemma_encode_concat(front, "\r\n"@);
    lemma_encode_concat(front.take(n), "\r\n"@);
    assert(front =~= front.take(n) + "\r\n"@);
    assert(r.head() =~= front + "\r\n"@);
    let k = encode_utf8(front.take(n)).len() as int;
    let bytes = r.bytes();
    assert(bytes.subrange(k, k + 4) =~= seq![13u8, 10u8, 13u8, 10u8]);
    assert(occurs_at(bytes, seq![13u8, 10u8, 13u8, 10u8], k));
    lemma_find_from(bytes, seq![13u8, 10u8, 13u8, 10u8], 0);
}

proof fn lemma_header_lines_end(headers: Seq<HeaderText>)
    ensures
        headers.len() > 0 ==> header_lines(headers).len() >= 2 && header_lines(headers).skip(
            header_lines(headers).len() - 2,
        ) == "\r\n"@,
{
    reveal_strlit("\r\n");
    if headers.len() > 0 {
        let s = header_lines(headers);
        assert(s.skip(s.len() - 2) =~= "\r\n"@);
    } else {
        assert(header_lines(headers).len() == 0);
    }
}

proof fn lemma_request_head(r: RequestText)
    ensures
        r.head() == joined(request_lines(r)) + "\r\n"@,
{
    reveal_strlit("\r\n");
    reveal_strlit(" RTSP/1.0\r\n");
    reveal_strlit(" RTSP/1.0");
    let lines = request_lines(r);
    lemma_header_lines(r.headers);
    assert(" RTSP/1.0\r\n"@ =~= " RTSP/1.0"@ + "\r\n"@);
    assert(lines.skip(1) =~= r.headers.map_values(|h: HeaderText| header_line(h)));
    assert(r.head() =~= joined(lines) + "\r\n"@);
}

} // verus!
