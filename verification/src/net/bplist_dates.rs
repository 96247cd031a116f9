//! Which dates a property list may hold: those that every platform's clock can represent.
//!
//! A binary property list gives a date as a number, and one that is out of range is an
//! error. An XML property list gives it as text, and reading one whose year lies at the end
//! of the calendar, or before the epoch of a platform's clock, does not return. Such text is
//! told apart here before it is read.

use vstd::prelude::*;

use crate::net::bplist::magic;
use crate::text::starts_with;

verus! {

/// The first year that every platform's clock holds whole, whatever the time zone.
pub const FIRST_YEAR: u32 = 1602;

/// The last year of the calendar that is whole, whatever the time zone.
pub const LAST_YEAR: u32 = 9998;

/// White space between the parts of a tag.
pub open spec fn is_gap(b: u8) -> bool {
    b == 32 || b == 9 || b == 10 || b == 13
}

/// A tag name `date`, with a prefix or without, ends right before position `i`: the letters
/// stand after `<` or `:`, and the name is over after them.
pub open spec fn is_date_name(bytes: Seq<u8>, i: int) -> bool {
    &&& 5 <= i < bytes.len()
    &&& bytes[i - 5] == 60 || bytes[i - 5] == 58
    &&& bytes[i - 4] == 100
    &&& bytes[i - 3] == 97
    &&& bytes[i - 2] == 116
    &&& bytes[i - 1] == 101
    &&& bytes[i] == 62 || bytes[i] == 47 || is_gap(bytes[i])
}

/// The position of the first `>` from `i` on, or the end.
pub open spec fn tag_close(bytes: Seq<u8>, i: int) -> int
    decreases bytes.len() - i,
{
    if i < 0 || i >= bytes.len() {
        bytes.len() as int
    } else if bytes[i] == 62 {
        i
    } else {
        tag_close(bytes, i + 1)
    }
}

/// The position of the first `<` or `&` from `i` on, or the end.
pub open spec fn text_close(bytes: Seq<u8>, i: int) -> int
    decreases bytes.len() - i,
{
    if i < 0 || i >= bytes.len() {
        bytes.len() as int
    } else if bytes[i] == 60 || bytes[i] == 38 {
        i
    } else {
        text_close(bytes, i + 1)
    }
}

/// A quotation mark, of either kind, stands from `i` up to `to`.
pub open spec fn has_quote(bytes: Seq<u8>, i: int, to: int) -> bool {
    exists|k: int| i <= k < to && ((#[trigger] bytes[k]) == 34 || bytes[k] == 39)
}

/// The text of an element goes on past position `i`, after something that is not part of it:
/// a reference, a comment, a section, or an instruction.
pub open spec fn text_goes_on(bytes: Seq<u8>, i: int) -> bool {
    ||| i < bytes.len() && bytes[i] == 38
    ||| i + 1 < bytes.len() && bytes[i] == 60 && (bytes[i + 1] == 33 || bytes[i + 1] == 63)
}

/// The byte is one of 0 to 9.
pub open spec fn is_digit_byte(b: u8) -> bool {
    48 <= b <= 57
}

/// Four digits stand at position `i`, and the year that they give is out of range.
pub open spec fn is_far_year(bytes: Seq<u8>, i: int) -> bool {
    &&& is_digit_byte(bytes[i])
    &&& is_digit_byte(bytes[i + 1])
    &&& is_digit_byte(bytes[i + 2])
    &&& is_digit_byte(bytes[i + 3])
    &&& {
        let year = (bytes[i] - 48) * 1000 + (bytes[i + 1] - 48) * 100 + (bytes[i + 2] - 48) * 10 + (
        bytes[i + 3] - 48);
        year < FIRST_YEAR || year > LAST_YEAR
    }
}

/// What follows the name of a date tag, from position `i` on, does not give a year out of
/// range. A tag that is not closed, or that closes itself, gives none. Any other has no
/// quotation marks, so that it ends at the first `>`; and the text after it either shows its
/// first four characters, which are no year out of range, or is over before them.
pub open spec fn is_plain_date(bytes: Seq<u8>, i: int) -> bool {
    let close = tag_close(bytes, i);
    let from = close + 1;
    let to = text_close(bytes, from);
    if close >= bytes.len() {
        true
    } else if has_quote(bytes, i, close) {
        false
    } else if i < close && bytes[close - 1] == 47 {
        true
    } else if to - from >= 4 {
        !is_far_year(bytes, from)
    } else {
        !text_goes_on(bytes, to)
    }
}

/// No date in the property list is out of range: it is binary, or whatever looks like a date
/// tag in it is plain.
pub open spec fn plain_dates(bytes: Seq<u8>) -> bool {
    starts_with(bytes, magic()) || forall|i: int| #[trigger]
        is_date_name(bytes, i) ==> is_plain_date(bytes, i)
}

fn find_tag_close(bytes: &[u8], i: usize) -> (r: usize)
    requires
        i <= bytes.len(),
    ensures
        r == tag_close(bytes@, i as int),
        i <= r <= bytes@.len(),
{
    let mut k: usize = i;
    while k < bytes.len()
        invariant
            i <= k <= bytes.len(),
            tag_close(bytes@, i as int) == tag_close(bytes@, k as int),
        decreases bytes.len() - k,
    {
        if bytes[k] == 62 {
            return k;
        }
        k += 1;
    }
    k
}

fn find_text_close(bytes: &[u8], i: usize) -> (r: usize)
    requires
        i <= bytes.len(),
    ensures
        r == text_close(bytes@, i as int),
        i <= r <= bytes@.len(),
{
    let mut k: usize = i;
    while k < bytes.len()
        invariant
            i <= k <= bytes.len(),
            text_close(bytes@, i as int) == text_close(bytes@, k as int),
        decreases bytes.len() - k,
    {
        if bytes[k] == 60 || bytes[k] == 38 {
            return k;
        }
        k += 1;
    }
    k
}

fn find_quote(bytes: &[u8], i: usize, to: usize) -> (r: bool)
    requires
        i <= to <= bytes.len(),
    ensures
        r == has_quote(bytes@, i as int, to as int),
{
    let mut k: usize = i;
    while k < to
        invariant
            i <= k <= to <= bytes.len(),
            forall|j: int| i <= j < k ==> (#[trigger] bytes@[j]) != 34 && bytes@[j] != 39,
        decreases to - k,
    {
        if bytes[k] == 34 || bytes[k] == 39 {
            return true;
        }
        k += 1;
    }
    false
}

fn far_year(bytes: &[u8], i: usize) -> (r: bool)
    requires
        i + 4 <= bytes.len(),
    ensures
        r == is_far_year(bytes@, i as int),
{
    let (a, b, c, d) = (bytes[i], bytes[i + 1], bytes[i + 2], bytes[i + 3]);
    if 48 <= a && a <= 57 && 48 <= b && b <= 57 && 48 <= c && c <= 57 && 48 <= d && d <= 57 {
        let year: u32 = (a - 48) as u32 * 1000 + (b - 48) as u32 * 100 + (c - 48) as u32 * 10 + (d
            - 48) as u32;
        year < FIRST_YEAR || year > LAST_YEAR
    } else {
        false
    }
}

fn plain_date(bytes: &[u8], i: usize) -> (r: bool)
    requires
        i <= bytes.len(),
    ensures
        r == is_plain_date(bytes@, i as int),
{
    let total: usize = bytes.len();
    let close: usize = find_tag_close(bytes, i);
    if close >= total {
        return true;
    }
    if find_quote(bytes, i, close) {
        return false;
    }
    if i < close && bytes[close - 1] == 47 {
        return true;
    }
    let from: usize = close + 1;
    let to: usize = find_text_close(bytes, from);
    if to - from >= 4 {
        !far_year(bytes, from)
    } else {
        let goes_on: bool = to < total && (bytes[to] == 38 || (total - to > 1 && bytes[to] == 60 && (
        bytes[to + 1] == 33 || bytes[to + 1] == 63)));
        !goes_on
    }
}

fn date_name(bytes: &[u8], i: usize) -> (r: bool)
    requires
        i <= bytes.len(),
    ensures
        r == is_date_name(bytes@, i as int),
{
    i >= 5 && i < bytes.len() && (bytes[i - 5] == 60 || bytes[i - 5] == 58) && bytes[i - 4] == 100
        && bytes[i - 3] == 97 && bytes[i - 2] == 116 && bytes[i - 1] == 101 && (bytes[i] == 62
        || bytes[i] == 47 || bytes[i] == 32 || bytes[i] == 9 || bytes[i] == 10 || bytes[i] == 13)
}

fn has_magic(bytes: &[u8]) -> (r: bool)
    ensures
        r == starts_with(bytes@, magic()),
{
    if bytes.len() < 8 {
        return false;
    }
    let r: bool = bytes[0] == 98 && bytes[1] == 112 && bytes[2] == 108 && bytes[3] == 105 && bytes[4]
        == 115 && bytes[5] == 116 && bytes[6] == 48 && bytes[7] == 48;
    proof {
        let front = bytes@.subrange(0, 8);
        assert forall|k: int| 0 <= k < 8 implies front[k] == bytes@[k] by {}
        if r {
            assert(front =~= magic());
        } else if front == magic() {
            assert(front[0] == 98 && front[1] == 112 && front[2] == 108 && front[3] == 105
                && front[4] == 115 && front[5] == 116 && front[6] == 48 && front[7] == 48);
        }
    }
    r
}

/// Whether no date in the property list is out of range, so that it can be decoded.
pub fn has_plain_dates(bytes: &[u8]) -> (r: bool)
    ensures
        r == plain_dates(bytes@),
{
    if has_magic(bytes) {
        return true;
    }
    let mut i: usize = 0;
    while i < bytes.len()
        invariant
            i <= bytes.len(),
            !starts_with(bytes@, magic()),
            forall|k: int| 0 <= k < i && #[trigger] is_date_name(bytes@, k) ==> is_plain_date(
                bytes@,
                k,
            ),
        decreases bytes.len() - i,
    {
        if date_name(bytes, i) && !plain_date(bytes, i) {
            assert(is_date_name(bytes@, i as int) && !is_plain_date(bytes@, i as int));
            return false;
        }
        i += 1;
    }
    true
}

/// A property list in which nothing looks like a date tag can be decoded.
pub proof fn law_dateless_is_plain(bytes: Seq<u8>)
    requires
        forall|i: int| !#[trigger] is_date_name(bytes, i),
    ensures
        plain_dates(bytes),
{
}

/// A year of four digits in a date tag is told apart by its value: from 1602 to 9998 it may
/// stand there, and any other makes the list one that is not read, whatever stands around it.
pub proof fn law_years(front: Seq<u8>, a: u8, b: u8, c: u8, d: u8, rest: Seq<u8>)
    requires
        a < 10 && b < 10 && c < 10 && d < 10,
    ensures
        ({
            let date = seq![60u8, 100u8, 97u8, 116u8, 101u8, 62u8];
            let year = seq![(48 + a) as u8, (48 + b) as u8, (48 + c) as u8, (48 + d) as u8];
            let bytes = front + date + year + rest;
            let n = a * 1000 + b * 100 + c * 10 + d;
            &&& is_date_name(bytes, front.len() as int + 5)
            &&& is_plain_date(bytes, front.len() as int + 5) <==> 1602 <= n <= 9998
            &&& !starts_with(bytes, magic()) && !(1602 <= n <= 9998) ==> !plain_dates(bytes)
        }),
{
    let date = seq![60u8, 100u8, 97u8, 116u8, 101u8, 62u8];
    let year = seq![(48 + a) as u8, (48 + b) as u8, (48 + c) as u8, (48 + d) as u8];
    let bytes = front + date + year + rest;
    let i = front.len() as int + 5;
    assert(bytes[i] == 62 && bytes[i - 5] == 60 && bytes[i - 4] == 100 && bytes[i - 3] == 97
        && bytes[i - 2] == 116 && bytes[i - 1] == 101);
    assert(tag_close(bytes, i) == i);
    let from = i + 1;
    assert(bytes[from] == 48 + a && bytes[from + 1] == 48 + b && bytes[from + 2] == 48 + c
        && bytes[from + 3] == 48 + d);
    assert(text_close(bytes, from) == text_close(bytes, from + 1));
    assert(text_close(bytes, from + 1) == text_close(bytes, from + 2));
    assert(text_close(bytes, from + 2) == text_close(bytes, from + 3));
    assert(text_close(bytes, from + 3) == text_close(bytes, from + 4));
    lemma_text_close_after(bytes, from + 4);
    assert(!has_quote(bytes, i, i));
    assert(is_date_name(bytes, i));
    let n = a * 1000 + b * 100 + c * 10 + d;
    assert(is_far_year(bytes, from) <==> !(1602 <= n <= 9998));
    assert(is_plain_date(bytes, i) <==> 1602 <= n <= 9998);
}

proof fn lemma_text_close_after(bytes: Seq<u8>, i: int)
    requires
        0 <= i <= bytes.len(),
    ensures
        i <= text_close(bytes, i) <= bytes.len(),
    decreases bytes.len() - i,
{
    if i < bytes.len() && bytes[i] != 60 && bytes[i] != 38 {
        lemma_text_close_after(bytes, i + 1);
    }
}

/// A tag name `date` is told, with a prefix before it or without, wherever it stands, and
/// whether the tag closes, closes itself or goes on behind it; no other name is.
pub proof fn law_date_names(front: Seq<u8>, open: u8, end: u8, rest: Seq<u8>)
    ensures
        is_date_name(
            front + seq![open, 100u8, 97u8, 116u8, 101u8, end] + rest,
            front.len() as int + 5,
        ) <==> (open == 60 || open == 58) && seq![62u8, 47u8, 32u8, 9u8, 10u8, 13u8].contains(end),
{
    let name = seq![open, 100u8, 97u8, 116u8, 101u8, end];
    let bytes = front + name + rest;
    let n = front.len() as int;
    assert forall|k: int| 0 <= k < 6 implies bytes[n + k] == #[trigger] name[k] by {}
    assert(name[0] == open && name[1] == 100 && name[2] == 97 && name[3] == 116 && name[4] == 101
        && name[5] == end);
    let ends = seq![62u8, 47u8, 32u8, 9u8, 10u8, 13u8];
    assert(ends[0] == 62 && ends[1] == 47 && ends[2] == 32 && ends[3] == 9 && ends[4] == 10
        && ends[5] == 13);
}

/// What decides on a date tag whose name ends before `i`, which closes at `close`, the first
/// `>` from there on, and whose text ends at `to`, the first `<` or `&` behind that. With a
/// quotation mark in the tag the list is not read. A tag that closes itself is fine. Any other
/// is fine with a text of four characters or more that does not begin with a year out of range;
/// and with a shorter one only where it does not go on behind a reference, a comment, a section
/// or an instruction.
pub proof fn law_date_tags(bytes: Seq<u8>, i: int, close: int, to: int)
    requires
        0 <= i <= close < to <= bytes.len(),
        bytes[close] == 62,
        forall|k: int| i <= k < close ==> #[trigger] bytes[k] != 62,
        to < bytes.len() ==> bytes[to] == 60 || bytes[to] == 38,
        forall|k: int| close < k < to ==> #[trigger] bytes[k] != 60 && bytes[k] != 38,
    ensures
        ({
            let quoted = exists|k: int|
                i <= k < close && (#[trigger] bytes[k] == 34 || bytes[k] == 39);
            let closed = i < close && bytes[close - 1] == 47;
            let (a, b, c, d) = (
                bytes[close + 1] - 48,
                bytes[close + 2] - 48,
                bytes[close + 3] - 48,
                bytes[close + 4] - 48,
            );
            let year = a * 1000 + b * 100 + c * 10 + d;
            &&& quoted ==> !is_plain_date(bytes, i)
            &&& !quoted && closed ==> is_plain_date(bytes, i)
            &&& !quoted && !closed && to - close > 4 ==> (is_plain_date(bytes, i) <==> !(0 <= a <= 9
                && 0 <= b <= 9 && 0 <= c <= 9 && 0 <= d <= 9) || 1602 <= year <= 9998)
            &&& !quoted && !closed && to - close <= 4 ==> (is_plain_date(bytes, i) <==> !(to
                < bytes.len() && (bytes[to] == 38 || (to + 1 < bytes.len() && (bytes[to + 1] == 33
                || bytes[to + 1] == 63)))))
        }),
{
    lemma_tag_close_is(bytes, i, close);
    lemma_text_close_is(bytes, close + 1, to);
    assert(has_quote(bytes, i, close) <==> exists|k: int|
        i <= k < close && (#[trigger] bytes[k] == 34 || bytes[k] == 39));
}

proof fn lemma_tag_close_is(bytes: Seq<u8>, i: int, close: int)
    requires
        0 <= i <= close < bytes.len(),
        bytes[close] == 62,
        forall|k: int| i <= k < close ==> #[trigger] bytes[k] != 62,
    ensures
        tag_close(bytes, i) == close,
    decreases close - i,
{
    if i < close {
        assert(bytes[i] != 62);
        lemma_tag_close_is(bytes, i + 1, close);
    }
}

proof fn lemma_text_close_is(bytes: Seq<u8>, i: int, to: int)
    requires
        0 <= i <= to <= bytes.len(),
        to < bytes.len() ==> bytes[to] == 60 || bytes[to] == 38,
        forall|k: int| i <= k < to ==> #[trigger] bytes[k] != 60 && bytes[k] != 38,
    ensures
        text_close(bytes, i) == to,
    decreases to - i,
{
    if i < to {
        assert(bytes[i] != 60 && bytes[i] != 38);
        lemma_text_close_is(bytes, i + 1, to);
    }
}

/// A binary list is always read, whatever its bytes look like; and the beginning of one is
/// `bplist00`.
pub proof fn law_binary_is_plain(rest: Seq<u8>)
    ensures
        plain_dates(seq![98u8, 112u8, 108u8, 105u8, 115u8, 116u8, 48u8, 48u8] + rest),
{
    let bytes = magic() + rest;
    assert(bytes.subrange(0, 8) =~= magic());
}

} // verus!
