//! Text as sequences of characters: searching, splitting, trimming, and decimal numbers.
//!
//! Text is taken apart as `&[char]`. The specification functions here say what each
//! operation means; the contracts of the other modules are written with them.

use vstd::prelude::*;
use vstd::slice::slice_subrange;

verus! {

/// `String::push` appends one character to the end of the string.
pub assume_specification[ String::push ](s: &mut String, c: char)
    ensures
        final(s)@ == old(s)@.push(c),
;

/// The error of `core::str::from_utf8`.
#[verifier::external_type_specification]
#[verifier::external_body]
pub struct ExUtf8Error(core::str::Utf8Error);

/// `core::str::from_utf8` accepts exactly the byte strings that are valid UTF-8, and gives
/// the text that they encode.
pub assume_specification<'a>[ core::str::from_utf8 ](v: &'a [u8]) -> (r: Result<
    &'a str,
    core::str::Utf8Error,
>)
    ensures
        r is Ok <==> vstd::utf8::valid_utf8(v@),
        r matches Ok(s) ==> s@ == vstd::utf8::decode_utf8(v@),
;

/// What Rust's `{:?}` shows of a piece of text: the text in quotes, with what cannot be
/// printed escaped.
pub uninterp spec fn debug_text(s: Seq<char>) -> Seq<char>;

/// The `Debug` formatting of `str`. Which characters it escapes follows std's tables of
/// printable characters, so its result is only named here.
#[verifier::external_body]
pub(crate) fn debug_string(s: &str) -> (r: String)
    ensures
        r@ == debug_text(s@),
{
    format!("{s:?}")
}

/// What `String::from_utf8_lossy` makes of bytes: text with every piece that is not UTF-8
/// replaced.
pub uninterp spec fn lossy_text(bytes: Seq<u8>) -> Seq<char>;

/// `String::from_utf8_lossy`. Bytes that are UTF-8 give the text that they encode; what
/// becomes of others is only named.
#[verifier::external_body]
pub(crate) fn lossy_string(bytes: &[u8]) -> (r: String)
    ensures
        r@ == lossy_text(bytes@),
        vstd::utf8::valid_utf8(bytes@) ==> r@ == vstd::utf8::decode_utf8(bytes@),
{
    String::from_utf8_lossy(bytes).into_owned()
}

// --- Searching -----------------------------------------------------------------------

/// `needle` stands in `s` at position `i`.
pub open spec fn occurs_at<T>(s: Seq<T>, needle: Seq<T>, i: int) -> bool {
    &&& 0 <= i
    &&& i + needle.len() <= s.len()
    &&& s.subrange(i, i + needle.len()) =~= needle
}

/// The first position at or after `from` where `needle` stands in `s`.
pub open spec fn find_from<T>(s: Seq<T>, needle: Seq<T>, from: int) -> Option<int>
    decreases s.len() - from,
{
    if from + needle.len() > s.len() {
        None
    } else if occurs_at(s, needle, from) {
        Some(from)
    } else {
        find_from(s, needle, from + 1)
    }
}

/// The first position where `needle` stands in `s`.
pub open spec fn find<T>(s: Seq<T>, needle: Seq<T>) -> Option<int> {
    find_from(s, needle, 0)
}

/// The last position of `c` in `s`.
pub open spec fn find_last(s: Seq<char>, c: char) -> Option<int>
    decreases s.len(),
{
    if s.len() == 0 {
        None
    } else if s.last() == c {
        Some(s.len() - 1)
    } else {
        find_last(s.drop_last(), c)
    }
}

/// `s` ends with `suffix`.
pub open spec fn ends_with<T>(s: Seq<T>, suffix: Seq<T>) -> bool {
    occurs_at(s, suffix, s.len() - suffix.len())
}

/// `s` begins with `prefix`.
pub open spec fn starts_with<T>(s: Seq<T>, prefix: Seq<T>) -> bool {
    occurs_at(s, prefix, 0)
}

/// The pieces of `s` between the occurrences of `sep`, taken from the left.
pub open spec fn split<T>(s: Seq<T>, sep: Seq<T>) -> Seq<Seq<T>>
    decreases s.len(),
{
    match find(s, sep) {
        Some(i) => if sep.len() > 0 && 0 <= i && i + sep.len() <= s.len() {
            seq![s.take(i)] + split(s.skip(i + sep.len()), sep)
        } else {
            seq![s]
        },
        None => seq![s],
    }
}

/// The parts of `s` before and after the first `c`.
pub open spec fn split_once(s: Seq<char>, c: char) -> Option<(Seq<char>, Seq<char>)> {
    match find(s, seq![c]) {
        Some(i) => Some((s.take(i), s.skip(i + 1))),
        None => None,
    }
}

/// The part of `s` before the first `c`, or all of it.
pub open spec fn before(s: Seq<char>, c: char) -> Seq<char> {
    match find(s, seq![c]) {
        Some(i) => s.take(i),
        None => s,
    }
}

/// The first occurrence is where the needle stands with none before it.
pub proof fn lemma_find_from<T>(s: Seq<T>, needle: Seq<T>, from: int)
    requires
        0 <= from,
    ensures
        match find_from(s, needle, from) {
            Some(i) => {
                &&& from <= i
                &&& occurs_at(s, needle, i)
                &&& forall|j: int| from <= j < i ==> !occurs_at(s, needle, j)
            },
            None => forall|j: int| from <= j ==> !occurs_at(s, needle, j),
        },
    decreases s.len() - from,
{
    if from + needle.len() <= s.len() && !occurs_at(s, needle, from) {
        lemma_find_from(s, needle, from + 1);
    }
}

/// An occurrence with none before it is the first.
pub proof fn lemma_find_is<T>(s: Seq<T>, needle: Seq<T>, from: int, i: int)
    requires
        0 <= from <= i,
        occurs_at(s, needle, i),
        forall|j: int| from <= j < i ==> !occurs_at(s, needle, j),
    ensures
        find_from(s, needle, from) == Some(i),
{
    lemma_find_from(s, needle, from);
    match find_from(s, needle, from) {
        Some(k) => {
            if k < i {
                assert(!occurs_at(s, needle, k));
            }
            if i < k {
                assert(!occurs_at(s, needle, i));
            }
        },
        None => {
            assert(!occurs_at(s, needle, i));
        },
    }
}

/// Text that follows a first occurrence does not move it.
pub proof fn lemma_find_prefix<T>(s: Seq<T>, more: Seq<T>, needle: Seq<T>)
    requires
        find(s, needle) is Some,
    ensures
        find(s + more, needle) == find(s, needle),
{
    lemma_find_from(s, needle, 0);
    let i = find(s, needle)->0;
    let whole = s + more;
    assert(whole.subrange(i, i + needle.len()) =~= s.subrange(i, i + needle.len()));
    assert forall|j: int| 0 <= j < i implies !occurs_at(whole, needle, j) by {
        assert(!occurs_at(s, needle, j));
        assert(whole.subrange(j, j + needle.len()) =~= s.subrange(j, j + needle.len()));
    }
    lemma_find_is(whole, needle, 0, i);
}

/// Whether `needle` stands in `s` at position `i`.
fn occurs_here(s: &[char], needle: &[char], i: usize) -> (r: bool)
    requires
        i + needle@.len() <= s.len(),
    ensures
        r == occurs_at(s@, needle@, i as int),
{
    let mut k: usize = 0;
    while k < needle.len()
        invariant
            k <= needle@.len(),
            i + needle@.len() <= s.len(),
            forall|j: int| 0 <= j < k ==> s@[i + j] == needle@[j],
        decreases needle@.len() - k,
    {
        if s[i + k] != needle[k] {
            assert(s@.subrange(i as int, i + needle@.len())[k as int] == s@[i + k]);
            return false;
        }
        k += 1;
    }
    true
}

/// The first position where `needle` stands in `s`.
pub fn find_chars(s: &[char], needle: &[char]) -> (r: Option<usize>)
    ensures
        match r {
            Some(i) => find(s@, needle@) == Some(i as int),
            None => find(s@, needle@) is None,
        },
{
    if needle.len() > s.len() {
        return None;
    }
    let last: usize = s.len() - needle.len();
    let mut i: usize = 0;
    while i <= last
        invariant
            i <= last + 1,
            last + needle@.len() == s@.len(),
            find(s@, needle@) == find_from(s@, needle@, i as int),
        decreases last + 1 - i,
    {
        if occurs_here(s, needle, i) {
            return Some(i);
        }
        if i == last {
            assert(find_from(s@, needle@, i + 1) is None);
            return None;
        }
        i += 1;
    }
    None
}

/// The first position of `c` in `s`.
pub fn find_char(s: &[char], c: char) -> (r: Option<usize>)
    ensures
        match r {
            Some(i) => find(s@, seq![c]) == Some(i as int) && i < s@.len(),
            None => find(s@, seq![c]) is None,
        },
{
    let mut i: usize = 0;
    while i < s.len()
        invariant
            i <= s@.len(),
            find(s@, seq![c]) == find_from(s@, seq![c], i as int),
        decreases s@.len() - i,
    {
        assert(s@.subrange(i as int, i + 1) =~= seq![s@[i as int]]);
        if s[i] == c {
            assert(occurs_at(s@, seq![c], i as int));
            return Some(i);
        }
        proof {
            assert(seq![c][0] == c);
            assert(!occurs_at(s@, seq![c], i as int)) by {
                if occurs_at(s@, seq![c], i as int) {
                    assert(s@.subrange(i as int, i + 1)[0] == seq![c][0]);
                }
            }
        }
        i += 1;
    }
    None
}

/// The last position of `c` in `s`.
pub fn find_last_char(s: &[char], c: char) -> (r: Option<usize>)
    ensures
        match r {
            Some(i) => find_last(s@, c) == Some(i as int) && i < s@.len(),
            None => find_last(s@, c) is None,
        },
{
    let mut n: usize = s.len();
    assert(s@.take(n as int) =~= s@);
    while n > 0
        invariant
            n <= s@.len(),
            find_last(s@, c) == find_last(s@.take(n as int), c),
        decreases n,
    {
        if s[n - 1] == c {
            return Some(n - 1);
        }
        assert(s@.take(n as int).drop_last() =~= s@.take(n - 1));
        n -= 1;
    }
    None
}

/// Whether `s` begins with `prefix`.
pub fn starts_with_text(s: &[char], prefix: &str) -> (r: bool)
    ensures
        r == starts_with(s@, prefix@),
{
    let p: Vec<char> = chars_of(prefix);
    s.len() >= p.len() && occurs_here(s, &p, 0)
}

/// Whether `s` ends with `suffix`.
pub fn ends_with_text(s: &[char], suffix: &str) -> (r: bool)
    ensures
        r == ends_with(s@, suffix@),
{
    let p: Vec<char> = chars_of(suffix);
    s.len() >= p.len() && occurs_here(s, &p, s.len() - p.len())
}

/// Whether `needle` stands anywhere in `s`.
pub fn contains_text(s: &[char], needle: &str) -> (r: bool)
    ensures
        r == find(s@, needle@) is Some,
{
    let n: Vec<char> = chars_of(needle);
    find_chars(s, &n).is_some()
}

/// The parts of `s` before and after the first `c`.
pub fn split_at_char(s: &[char], c: char) -> (r: Option<(&[char], &[char])>)
    ensures
        match r {
            Some((a, b)) => split_once(s@, c) == Some((a@, b@)),
            None => split_once(s@, c) is None,
        },
{
    match find_char(s, c) {
        Some(i) => {
            let n: usize = s.len();
            let a: &[char] = slice_subrange(s, 0, i);
            let b: &[char] = slice_subrange(s, i + 1, n);
            assert(a@ =~= s@.take(i as int));
            assert(b@ =~= s@.skip(i + 1));
            Some((a, b))
        },
        None => None,
    }
}

/// The part of `s` before the first `c`, or all of it.
pub fn before_char(s: &[char], c: char) -> (r: &[char])
    ensures
        r@ == before(s@, c),
{
    match find_char(s, c) {
        Some(i) => {
            let a: &[char] = slice_subrange(s, 0, i);
            assert(a@ =~= s@.take(i as int));
            a
        },
        None => s,
    }
}

/// What a list of slices holds.
pub open spec fn pieces(v: Seq<&[char]>) -> Seq<Seq<char>> {
    v.map_values(|x: &[char]| x@)
}

/// The pieces of `s` between the occurrences of `sep`.
pub fn split_text<'a>(s: &'a [char], sep: &[char]) -> (r: Vec<&'a [char]>)
    requires
        sep@.len() > 0,
    ensures
        pieces(r@) == split(s@, sep@),
        r@.len() > 0,
{
    let mut out: Vec<&'a [char]> = Vec::new();
    let mut rest: &'a [char] = s;
    assert(split(s@, sep@) =~= pieces(out@) + split(rest@, sep@));
    loop
        invariant
            sep@.len() > 0,
            split(s@, sep@) == pieces(out@) + split(rest@, sep@),
        decreases rest@.len(),
    {
        let ghost done = pieces(out@);
        proof {
            lemma_find_from(rest@, sep@, 0);
        }
        match find_chars(rest, sep) {
            None => {
                out.push(rest);
                assert(pieces(out@) =~= done + seq![rest@]);
                return out;
            },
            Some(i) => {
                let n: usize = rest.len();
                let piece: &'a [char] = slice_subrange(rest, 0, i);
                let next: &'a [char] = slice_subrange(rest, i + sep.len(), n);
                assert(piece@ =~= rest@.take(i as int));
                assert(next@ =~= rest@.skip(i + sep@.len()));
                out.push(piece);
                assert(pieces(out@) + split(next@, sep@) =~= done + (seq![piece@] + split(
                    next@,
                    sep@,
                )));
                rest = next;
            },
        }
    }
}

// --- Characters and strings ----------------------------------------------------------

/// The characters of a string.
pub fn chars_of(s: &str) -> (r: Vec<char>)
    ensures
        r@ == s@,
{
    let mut out: Vec<char> = Vec::new();
    for c in it: s.chars()
        invariant
            it.seq() == s@,
            out@ == s@.take(it.index() as int),
    {
        out.push(c);
        assert(out@ =~= s@.take(it.index() + 1));
    }
    assert(s@.take(s@.len() as int) =~= s@);
    out
}

/// The string with the given characters.
pub fn string_of(chars: &[char]) -> (r: String)
    ensures
        r@ == chars@,
{
    let mut out: String = String::new();
    let mut i: usize = 0;
    while i < chars.len()
        invariant
            i <= chars@.len(),
            out@ == chars@.take(i as int),
        decreases chars@.len() - i,
    {
        out.push(chars[i]);
        i += 1;
        assert(out@ =~= chars@.take(i as int));
    }
    assert(chars@.take(chars@.len() as int) =~= chars@);
    out
}

/// Whether two strings hold the same characters.
pub fn same_text(a: &str, b: &str) -> (r: bool)
    ensures
        r == (a@ == b@),
{
    let x: Vec<char> = chars_of(a);
    let y: Vec<char> = chars_of(b);
    same_chars(&x, &y)
}

/// Whether two slices hold the same characters.
pub fn same_chars(a: &[char], b: &[char]) -> (r: bool)
    ensures
        r == (a@ == b@),
{
    if a.len() != b.len() {
        return false;
    }
    let r: bool = occurs_here(a, b, 0);
    assert(a@.subrange(0, a@.len() as int) =~= a@);
    r
}

// --- Case and white space ------------------------------------------------------------

/// `c` with A to Z made lower case and everything else left alone.
pub open spec fn lower(c: char) -> char {
    if 'A' <= c && c <= 'Z' {
        (c as u32 + 32) as char
    } else {
        c
    }
}

/// `s` with A to Z made lower case.
pub open spec fn lowered(s: Seq<char>) -> Seq<char> {
    s.map_values(|c: char| lower(c))
}

/// `a` and `b` differ at most in the case of A to Z.
pub open spec fn same_but_case(a: Seq<char>, b: Seq<char>) -> bool {
    lowered(a) == lowered(b)
}

/// White space as Unicode defines it.
pub open spec fn is_white(c: char) -> bool {
    let u = c as u32;
    ||| 0x09 <= u <= 0x0D
    ||| u == 0x20
    ||| u == 0x85
    ||| u == 0xA0
    ||| u == 0x1680
    ||| 0x2000 <= u <= 0x200A
    ||| u == 0x2028
    ||| u == 0x2029
    ||| u == 0x202F
    ||| u == 0x205F
    ||| u == 0x3000
}

/// `s` without its leading white space.
pub open spec fn trim_start(s: Seq<char>) -> Seq<char>
    decreases s.len(),
{
    if s.len() > 0 && is_white(s[0]) {
        trim_start(s.skip(1))
    } else {
        s
    }
}

/// `s` without its trailing white space.
pub open spec fn trim_end(s: Seq<char>) -> Seq<char>
    decreases s.len(),
{
    if s.len() > 0 && is_white(s.last()) {
        trim_end(s.drop_last())
    } else {
        s
    }
}

/// `s` without the white space at its two ends.
pub open spec fn trimmed(s: Seq<char>) -> Seq<char> {
    trim_end(trim_start(s))
}

/// `c` with A to Z made lower case.
pub fn lower_char(c: char) -> (r: char)
    ensures
        r == lower(c),
{
    match c {
        'A' => 'a',
        'B' => 'b',
        'C' => 'c',
        'D' => 'd',
        'E' => 'e',
        'F' => 'f',
        'G' => 'g',
        'H' => 'h',
        'I' => 'i',
        'J' => 'j',
        'K' => 'k',
        'L' => 'l',
        'M' => 'm',
        'N' => 'n',
        'O' => 'o',
        'P' => 'p',
        'Q' => 'q',
        'R' => 'r',
        'S' => 's',
        'T' => 't',
        'U' => 'u',
        'V' => 'v',
        'W' => 'w',
        'X' => 'x',
        'Y' => 'y',
        'Z' => 'z',
        _ => c,
    }
}

/// `s` with A to Z made lower case.
pub fn lower_chars(s: &[char]) -> (r: Vec<char>)
    ensures
        r@ == lowered(s@),
{
    let mut out: Vec<char> = Vec::new();
    let mut i: usize = 0;
    while i < s.len()
        invariant
            i <= s@.len(),
            out@ == lowered(s@.take(i as int)),
        decreases s@.len() - i,
    {
        out.push(lower_char(s[i]));
        i += 1;
        assert(out@ =~= lowered(s@.take(i as int)));
    }
    assert(s@.take(s@.len() as int) =~= s@);
    out
}

/// Whether `a` and `b` differ at most in the case of A to Z.
pub fn eq_ignore_case(a: &str, b: &str) -> (r: bool)
    ensures
        r == same_but_case(a@, b@),
{
    let x: Vec<char> = lower_chars(&chars_of(a));
    let y: Vec<char> = lower_chars(&chars_of(b));
    same_chars(&x, &y)
}

/// Whether `c` is white space.
pub fn is_white_space(c: char) -> (r: bool)
    ensures
        r == is_white(c),
{
    let u: u32 = c as u32;
    (0x09 <= u && u <= 0x0D) || u == 0x20 || u == 0x85 || u == 0xA0 || u == 0x1680 || (0x2000 <= u
        && u <= 0x200A) || u == 0x2028 || u == 0x2029 || u == 0x202F || u == 0x205F || u == 0x3000
}

/// `s` without the white space at its two ends.
pub fn trim_chars(s: &[char]) -> (r: &[char])
    ensures
        r@ == trimmed(s@),
{
    let mut from: usize = 0;
    assert(s@.skip(0) =~= s@);
    while from < s.len() && is_white_space(s[from])
        invariant
            from <= s@.len(),
            trim_start(s@) == trim_start(s@.skip(from as int)),
        decreases s@.len() - from,
    {
        assert(s@.skip(from as int).skip(1) =~= s@.skip(from + 1));
        from += 1;
    }
    let mut to: usize = s.len();
    assert(s@.subrange(from as int, to as int) =~= s@.skip(from as int));
    while from < to && is_white_space(s[to - 1])
        invariant
            from <= to <= s@.len(),
            trimmed(s@) == trim_end(s@.subrange(from as int, to as int)),
        decreases to - from,
    {
        assert(s@.subrange(from as int, to as int).drop_last() =~= s@.subrange(
            from as int,
            to - 1,
        ));
        to -= 1;
    }
    slice_subrange(s, from, to)
}

// --- Order ---------------------------------------------------------------------------

/// `a` comes before `b` in the order of code points: where they first differ it has the
/// smaller character, or it ends there.
pub open spec fn text_less(a: Seq<char>, b: Seq<char>) -> bool
    decreases a.len(),
{
    if b.len() == 0 {
        false
    } else if a.len() == 0 {
        true
    } else if a[0] != b[0] {
        a[0] < b[0]
    } else {
        text_less(a.skip(1), b.skip(1))
    }
}

/// No text comes before itself.
pub proof fn lemma_text_irreflexive(a: Seq<char>)
    ensures
        !text_less(a, a),
    decreases a.len(),
{
    if a.len() > 0 {
        lemma_text_irreflexive(a.skip(1));
    }
}

/// The order of text is transitive.
pub proof fn lemma_text_transitive(a: Seq<char>, b: Seq<char>, c: Seq<char>)
    requires
        text_less(a, b),
        text_less(b, c),
    ensures
        text_less(a, c),
    decreases a.len(),
{
    if a.len() > 0 && b.len() > 0 && c.len() > 0 && a[0] == b[0] && b[0] == c[0] {
        lemma_text_transitive(a.skip(1), b.skip(1), c.skip(1));
    }
}

/// Of two different texts one comes first.
pub proof fn lemma_text_total(a: Seq<char>, b: Seq<char>)
    ensures
        a == b || text_less(a, b) || text_less(b, a),
    decreases a.len(),
{
    if a.len() > 0 && b.len() > 0 && a[0] == b[0] {
        lemma_text_total(a.skip(1), b.skip(1));
        if a.skip(1) == b.skip(1) {
            assert(a =~= seq![a[0]] + a.skip(1));
            assert(b =~= seq![b[0]] + b.skip(1));
        }
    } else if a.len() == 0 && b.len() == 0 {
        assert(a =~= b);
    }
}

/// Whether `a` comes before `b` in the order of code points.
pub fn text_precedes(a: &str, b: &str) -> (r: bool)
    ensures
        r == text_less(a@, b@),
{
    let x: Vec<char> = chars_of(a);
    let y: Vec<char> = chars_of(b);
    let mut i: usize = 0;
    assert(a@.skip(0) =~= a@);
    assert(b@.skip(0) =~= b@);
    while i < x.len() && i < y.len()
        invariant
            i <= x@.len(),
            i <= y@.len(),
            x@ == a@,
            y@ == b@,
            text_less(a@, b@) == text_less(a@.skip(i as int), b@.skip(i as int)),
        decreases x@.len() - i,
    {
        if x[i] != y[i] {
            return x[i] < y[i];
        }
        assert(a@.skip(i as int).skip(1) =~= a@.skip(i + 1));
        assert(b@.skip(i as int).skip(1) =~= b@.skip(i + 1));
        i += 1;
    }
    i < y.len()
}

// --- Decimal numbers -----------------------------------------------------------------

/// `c` is one of 0 to 9.
pub open spec fn is_digit(c: char) -> bool {
    '0' <= c && c <= '9'
}

/// Every character of `s` is one of 0 to 9.
pub open spec fn all_digits(s: Seq<char>) -> bool {
    forall|i: int| 0 <= i < s.len() ==> is_digit(#[trigger] s[i])
}

/// The number that a run of digits stands for.
pub open spec fn digits_value(s: Seq<char>) -> nat
    decreases s.len(),
{
    if s.len() == 0 {
        0
    } else {
        digits_value(s.drop_last()) * 10 + (s.last() as u32 - '0' as u32) as nat
    }
}

/// The number that `s` stands for: digits, after at most one plus sign, with a value that
/// does not exceed `max`.
pub open spec fn number(s: Seq<char>, max: nat) -> Option<nat> {
    let digits = if s.len() > 0 && s[0] == '+' {
        s.skip(1)
    } else {
        s
    };
    if digits.len() > 0 && all_digits(digits) && digits_value(digits) <= max {
        Some(digits_value(digits))
    } else {
        None
    }
}

/// The digit for a number below ten.
pub open spec fn digit(n: nat) -> char {
    ('0' as u32 + n) as char
}

/// The decimal notation of `n`.
pub open spec fn decimal(n: nat) -> Seq<char>
    decreases n,
{
    if n < 10 {
        seq![digit(n)]
    } else {
        decimal(n / 10).push(digit(n % 10))
    }
}

/// More digits do not make a smaller number.
proof fn lemma_digits_value_grows(s: Seq<char>, k: int)
    requires
        0 <= k <= s.len(),
    ensures
        digits_value(s.take(k)) <= digits_value(s),
    decreases s.len() - k,
{
    if k == s.len() {
        assert(s.take(k) =~= s);
    } else {
        lemma_digits_value_grows(s, k + 1);
        assert(s.take(k + 1).drop_last() =~= s.take(k));
    }
}

/// The number that `s` stands for, if it is one that does not exceed `max`.
pub fn parse_number(s: &[char], max: u64) -> (r: Option<u64>)
    ensures
        match r {
            Some(n) => number(s@, max as nat) == Some(n as nat) && n <= max,
            None => number(s@, max as nat) is None,
        },
{
    let start: usize = if s.len() > 0 && s[0] == '+' {
        1
    } else {
        0
    };
    let ghost digits = if start == 1 {
        s@.skip(1)
    } else {
        s@
    };
    assert(digits =~= s@.skip(start as int));
    if start == s.len() {
        return None;
    }
    let mut value: u64 = 0;
    let mut i: usize = start;
    while i < s.len()
        invariant
            start <= i <= s@.len(),
            start < s@.len(),
            digits == s@.skip(start as int),
            number(s@, max as nat) == (if all_digits(digits) && digits_value(digits) <= max {
                Some(digits_value(digits))
            } else {
                None
            }),
            all_digits(digits.take(i - start)),
            value == digits_value(digits.take(i - start)),
            value <= max,
        decreases s@.len() - i,
    {
        let c: char = s[i];
        let ghost k = i - start;
        assert(digits[k] == c);
        if !(c >= '0' && c <= '9') {
            assert(!all_digits(digits));
            return None;
        }
        let d: u64 = (c as u32 - '0' as u32) as u64;
        assert(digits.take(k + 1).drop_last() =~= digits.take(k));
        proof {
            lemma_digits_value_grows(digits, k + 1);
        }
        if value > (u64::MAX - d) / 10 || value * 10 + d > max {
            return None;
        }
        value = value * 10 + d;
        i += 1;
        assert(all_digits(digits.take(k + 1))) by {
            assert forall|j: int| 0 <= j < k + 1 implies is_digit(#[trigger] digits.take(k + 1)[j]) by {
                if j < k {
                    assert(is_digit(digits.take(k)[j]));
                }
            }
        }
    }
    assert(digits.take(digits.len() as int) =~= digits);
    Some(value)
}

fn digit_char(n: u64) -> (c: char)
    requires
        n < 10,
    ensures
        c == digit(n as nat),
{
    if n == 0 {
        '0'
    } else if n == 1 {
        '1'
    } else if n == 2 {
        '2'
    } else if n == 3 {
        '3'
    } else if n == 4 {
        '4'
    } else if n == 5 {
        '5'
    } else if n == 6 {
        '6'
    } else if n == 7 {
        '7'
    } else if n == 8 {
        '8'
    } else {
        '9'
    }
}

/// Append the decimal notation of `n`.
pub fn push_decimal(out: &mut String, n: u64)
    ensures
        final(out)@ == old(out)@ + decimal(n as nat),
    decreases n,
{
    if n >= 10 {
        push_decimal(out, n / 10);
    }
    out.push(digit_char(n % 10));
    assert(out@ =~= old(out)@ + decimal(n as nat));
}

/// The decimal notation of `n`.
pub fn decimal_text(n: u64) -> (r: String)
    ensures
        r@ == decimal(n as nat),
{
    let mut out: String = String::new();
    push_decimal(&mut out, n);
    assert(out@ =~= decimal(n as nat));
    out
}

/// A number is read back from its decimal notation.
pub proof fn law_decimal_round_trip(n: nat, max: nat)
    requires
        n <= max,
    ensures
        number(decimal(n), max) == Some(n),
{
    lemma_decimal(n);
}

/// Decimal notation is made of digits, at least one, and stands for its number.
pub proof fn lemma_decimal(n: nat)
    ensures
        decimal(n).len() > 0,
        all_digits(decimal(n)),
        digits_value(decimal(n)) == n,
    decreases n,
{
    assert(decimal(n).last() == digit(n % 10));
    assert(digit(n % 10) as u32 == '0' as u32 + n % 10);
    if n < 10 {
        assert(decimal(n).drop_last() =~= Seq::<char>::empty());
        assert(digits_value(Seq::<char>::empty()) == 0);
    } else {
        lemma_decimal(n / 10);
        assert(decimal(n).drop_last() =~= decimal(n / 10));
        assert forall|i: int| 0 <= i < decimal(n).len() implies is_digit(#[trigger] decimal(n)[i]) by {
            if i < decimal(n / 10).len() {
                assert(is_digit(decimal(n / 10)[i]));
            }
        }
    }
}

// --- Laws ----------------------------------------------------------------------------

/// Only A to Z change case, to the letter that stands 32 places after them; nothing that
/// was made lower case changes again.
pub proof fn law_lower(s: Seq<char>, i: int)
    requires
        0 <= i < s.len(),
    ensures
        lowered(s).len() == s.len(),
        65 <= s[i] as u32 <= 90 ==> lowered(s)[i] as u32 == s[i] as u32 + 32,
        !(65 <= s[i] as u32 <= 90) ==> lowered(s)[i] == s[i],
        lowered(lowered(s)) == lowered(s),
{
    assert(lowered(lowered(s)) =~= lowered(s));
}

/// The white space of Unicode, code point by code point.
pub proof fn law_white_space(c: char)
    ensures
        is_white(c) <==> seq![
            0x09u32,
            0x0A,
            0x0B,
            0x0C,
            0x0D,
            0x20,
            0x85,
            0xA0,
            0x1680,
            0x2000,
            0x2001,
            0x2002,
            0x2003,
            0x2004,
            0x2005,
            0x2006,
            0x2007,
            0x2008,
            0x2009,
            0x200A,
            0x2028,
            0x2029,
            0x202F,
            0x205F,
            0x3000,
        ].contains(c as u32),
{
    let list = seq![
        0x09u32,
        0x0A,
        0x0B,
        0x0C,
        0x0D,
        0x20,
        0x85,
        0xA0,
        0x1680,
        0x2000,
        0x2001,
        0x2002,
        0x2003,
        0x2004,
        0x2005,
        0x2006,
        0x2007,
        0x2008,
        0x2009,
        0x200A,
        0x2028,
        0x2029,
        0x202F,
        0x205F,
        0x3000,
    ];
    let u = c as u32;
    if is_white(c) {
        let k: int = if u <= 0x0D {
            u - 0x09
        } else if u == 0x20 {
            5
        } else if u == 0x85 {
            6
        } else if u == 0xA0 {
            7
        } else if u == 0x1680 {
            8
        } else if u <= 0x200A {
            9 + (u - 0x2000)
        } else if u == 0x2028 {
            20
        } else if u == 0x2029 {
            21
        } else if u == 0x202F {
            22
        } else if u == 0x205F {
            23
        } else {
            24
        };
        assert(list[k] == u);
    }
}

proof fn lemma_trim_start(s: Seq<char>) -> (i: int)
    ensures
        0 <= i <= s.len(),
        trim_start(s) == s.skip(i),
        forall|k: int| 0 <= k < i ==> is_white(#[trigger] s[k]),
        i < s.len() ==> !is_white(s[i]),
    decreases s.len(),
{
    if s.len() > 0 && is_white(s[0]) {
        let i = lemma_trim_start(s.skip(1));
        assert(s.skip(1).skip(i) =~= s.skip(i + 1));
        assert forall|k: int| 0 <= k < i + 1 implies is_white(#[trigger] s[k]) by {
            if k > 0 {
                assert(s.skip(1)[k - 1] == s[k]);
            }
        }
        i + 1
    } else {
        assert(s.skip(0) =~= s);
        0
    }
}

proof fn lemma_trim_end(s: Seq<char>) -> (j: int)
    ensures
        0 <= j <= s.len(),
        trim_end(s) == s.take(j),
        forall|k: int| j <= k < s.len() ==> is_white(#[trigger] s[k]),
        0 < j ==> !is_white(s[j - 1]),
    decreases s.len(),
{
    if s.len() > 0 && is_white(s.last()) {
        let j = lemma_trim_end(s.drop_last());
        assert(s.drop_last().take(j) =~= s.take(j));
        assert forall|k: int| j <= k < s.len() implies is_white(#[trigger] s[k]) by {
            if k < s.len() - 1 {
                assert(s.drop_last()[k] == s[k]);
            }
        }
        j
    } else {
        assert(s.take(s.len() as int) =~= s);
        s.len() as int
    }
}

/// Trimming cuts white space off both ends and nothing else: what is left begins and ends
/// with other characters, and what was cut off is white space.
pub proof fn law_trim(s: Seq<char>)
    ensures
        exists|i: int, j: int|
            0 <= i <= j <= s.len() && trimmed(s) == #[trigger] s.subrange(i, j) && (forall|k: int|
                0 <= k < s.len() && (k < i || j <= k) ==> is_white(#[trigger] s[k])),
        trimmed(s).len() > 0 ==> !is_white(trimmed(s)[0]) && !is_white(trimmed(s).last()),
{
    let i = lemma_trim_start(s);
    let rest = s.skip(i);
    let m = lemma_trim_end(rest);
    assert(trimmed(s) =~= s.subrange(i, i + m));
    assert forall|k: int| 0 <= k < s.len() && (k < i || i + m <= k) implies is_white(
        #[trigger] s[k],
    ) by {
        if k >= i {
            assert(rest[k - i] == s[k]);
        }
    }
    if m > 0 {
        assert(trimmed(s)[0] == s[i]);
        assert(trimmed(s).last() == rest[m - 1]);
    }
}

/// Text between white space is what trimming leaves of it.
pub proof fn law_trim_finds(a: Seq<char>, text: Seq<char>, b: Seq<char>)
    requires
        forall|k: int| 0 <= k < a.len() ==> is_white(#[trigger] a[k]),
        forall|k: int| 0 <= k < b.len() ==> is_white(#[trigger] b[k]),
        text.len() > 0 ==> !is_white(text[0]) && !is_white(text.last()),
    ensures
        trimmed(a + text + b) == text,
{
    let s = a + text + b;
    let i = lemma_trim_start(s);
    let rest = s.skip(i);
    let m = lemma_trim_end(rest);
    if text.len() > 0 {
        assert(s[a.len() as int] == text[0]);
        if i < a.len() {
            assert(s[i] == a[i]);
        }
        assert(i == a.len());
        assert(rest =~= text + b);
        assert(rest[text.len() - 1] == text.last());
        if m > text.len() {
            assert(rest[m - 1] == b[m - 1 - text.len()]);
        }
        assert(m == text.len());
        assert(rest.take(m) =~= text);
    } else {
        if i < s.len() {
            if i < a.len() {
                assert(s[i] == a[i]);
            } else {
                assert(s[i] == b[i - a.len()]);
            }
        }
        assert(trimmed(s) =~= text);
    }
}

/// `c` does not occur in `s`.
pub open spec fn is_free_of(s: Seq<char>, c: char) -> bool {
    forall|i: int| 0 <= i < s.len() ==> #[trigger] s[i] != c
}

/// The first `c` of a text stands after what is free of it.
pub proof fn lemma_first_char(a: Seq<char>, c: char, b: Seq<char>)
    requires
        is_free_of(a, c),
    ensures
        find(a + seq![c] + b, seq![c]) == Some(a.len() as int),
        find(a, seq![c]) is None,
{
    let s = a + seq![c] + b;
    let n = a.len() as int;
    assert(seq![c][0] == c);
    assert(s.subrange(n, n + 1) =~= seq![c]);
    assert forall|j: int| 0 <= j < n implies !occurs_at(s, seq![c], j) by {
        if occurs_at(s, seq![c], j) {
            assert(s.subrange(j, j + 1)[0] == s[j]);
            assert(s[j] == a[j]);
        }
    }
    lemma_find_is(s, seq![c], 0, n);
    lemma_find_from(a, seq![c], 0);
    if let Some(j) = find(a, seq![c]) {
        assert(a.subrange(j, j + 1)[0] == a[j]);
    }
}

/// A text is cut at the first of the characters: what stands before it is free of it. Text
/// without the character is not cut.
pub proof fn law_cut_at_char(a: Seq<char>, c: char, b: Seq<char>)
    requires
        is_free_of(a, c),
    ensures
        split_once(a + seq![c] + b, c) == Some((a, b)),
        split_once(a, c) is None,
        before(a + seq![c] + b, c) == a,
        before(a, c) == a,
{
    let s = a + seq![c] + b;
    lemma_first_char(a, c, b);
    assert(s.take(a.len() as int) =~= a);
    assert(s.skip(a.len() as int + 1) =~= b);
}

/// The last of the characters in a text is followed by none of them.
pub proof fn law_last_char(a: Seq<char>, c: char, b: Seq<char>)
    requires
        is_free_of(b, c),
    ensures
        find_last(a + seq![c] + b, c) == Some(a.len() as int),
        find_last(b, c) is None,
    decreases b.len(),
{
    let s = a + seq![c] + b;
    if b.len() > 0 {
        assert(b[b.len() - 1] != c);
        assert(s.last() == b.last());
        assert(s.drop_last() =~= a + seq![c] + b.drop_last());
        law_last_char(a, c, b.drop_last());
    } else {
        assert(s.last() == c);
    }
}

/// Pieces put together again, with the separator between them.
pub open spec fn put_together<T>(parts: Seq<Seq<T>>, sep: Seq<T>) -> Seq<T>
    decreases parts.len(),
{
    if parts.len() == 0 {
        Seq::empty()
    } else if parts.len() == 1 {
        parts[0]
    } else {
        parts[0] + sep + put_together(parts.skip(1), sep)
    }
}

/// The pieces of a text put together again, with the separator between them, are the text,
/// and the separator stands in none of them.
pub proof fn law_split_round_trip<T>(s: Seq<T>, sep: Seq<T>)
    requires
        sep.len() > 0,
    ensures
        split(s, sep).len() > 0,
        put_together(split(s, sep), sep) == s,
        forall|i: int, j: int|
            0 <= i < split(s, sep).len() ==> !#[trigger] occurs_at(split(s, sep)[i], sep, j),
    decreases s.len(),
{
    lemma_find_from(s, sep, 0);
    let parts = split(s, sep);
    match find(s, sep) {
        Some(i) => {
            let rest = s.skip(i + sep.len());
            law_split_round_trip(rest, sep);
            let more = split(rest, sep);
            assert(parts =~= seq![s.take(i)] + more);
            assert(parts.skip(1) =~= more);
            assert(s.take(i) + sep + rest =~= s) by {
                assert(s.subrange(i, i + sep.len()) =~= sep);
                assert forall|k: int| 0 <= k < sep.len() implies s[i + k] == sep[k] by {
                    assert(s.subrange(i, i + sep.len())[k] == s[i + k]);
                }
            }
            assert forall|p: int, j: int| 0 <= p < parts.len() implies !#[trigger] occurs_at(
                parts[p],
                sep,
                j,
            ) by {
                if p == 0 {
                    if occurs_at(parts[0], sep, j) {
                        assert(s.subrange(j, j + sep.len()) =~= parts[0].subrange(
                            j,
                            j + sep.len(),
                        ));
                        assert(occurs_at(s, sep, j));
                    }
                } else {
                    assert(parts[p] == more[p - 1]);
                }
            }
        },
        None => {
            assert forall|p: int, j: int| 0 <= p < parts.len() implies !#[trigger] occurs_at(
                parts[p],
                sep,
                j,
            ) by {
                if occurs_at(s, sep, j) {
                    assert(0 <= j);
                }
            }
        },
    }
}

/// The order of text is that of the first characters in which two texts differ, and a text
/// comes before what it is the beginning of.
pub proof fn law_text_order(front: Seq<char>, x: char, a: Seq<char>, y: char, b: Seq<char>)
    ensures
        x < y ==> text_less(front + seq![x] + a, front + seq![y] + b),
        text_less(front, front + seq![x] + a),
        !text_less(front + seq![x] + a, front),
    decreases front.len(),
{
    if front.len() > 0 {
        law_text_order(front.skip(1), x, a, y, b);
        assert((front + seq![x] + a).skip(1) =~= front.skip(1) + seq![x] + a);
        assert((front + seq![y] + b).skip(1) =~= front.skip(1) + seq![y] + b);
    } else {
        assert((front + seq![x] + a)[0] == x);
        assert((front + seq![y] + b)[0] == y);
    }
}

/// A number is read digit by digit, from left to right: with one more digit at its end it is
/// ten times as large and that digit more. One plus sign may stand before it.
pub proof fn law_number_grows(s: Seq<char>, n: nat, d: nat, max: nat)
    requires
        all_digits(s),
        d < 10,
        number(s, max) == Some(n),
    ensures
        number(s.push((48 + d) as char), max) == (if 10 * n + d <= max {
            Some((10 * n + d) as nat)
        } else {
            None
        }),
        number(seq!['+'] + s, max) == Some(n),
{
    let c = (48 + d) as char;
    assert(c as u32 == 48 + d);
    let t = s.push(c);
    assert(is_digit(s[0]));
    assert(t[0] == s[0]);
    assert forall|i: int| 0 <= i < t.len() implies is_digit(#[trigger] t[i]) by {
        if i < s.len() {
            assert(is_digit(s[i]));
        }
    }
    assert(t.drop_last() =~= s);
    assert((seq!['+'] + s).skip(1) =~= s);
}

/// What is not made of digits is no number, apart from one plus sign before them, and neither
/// is an empty text.
pub proof fn law_no_number(s: Seq<char>, i: int, max: nat)
    ensures
        0 < i < s.len() && !(48 <= s[i] as u32 <= 57) ==> number(s, max) is None,
        s.len() > 0 && !(48 <= s[0] as u32 <= 57) && s[0] != '+' ==> number(s, max) is None,
        s.len() == 0 ==> number(s, max) is None,
        s == seq!['+'] ==> number(s, max) is None,
{
    if 0 < i < s.len() && !is_digit(s[i]) {
        assert(s.skip(1)[i - 1] == s[i]);
    }
}

/// Each single digit stands for its value, and no number is read that is too large.
pub proof fn law_number_of_a_digit(d: nat, max: nat, s: Seq<char>)
    requires
        d < 10,
    ensures
        d <= max ==> number(seq![(48 + d) as char], max) == Some(d),
        number(s, max) matches Some(n) ==> n <= max,
{
    let one = seq![(48 + d) as char];
    assert(one[0] as u32 == 48 + d);
    assert(one.drop_last() =~= Seq::<char>::empty());
    assert(digits_value(Seq::<char>::empty()) == 0);
    assert(all_digits(one));
}

/// Decimal notation has no zero in front, but for that of zero itself.
pub proof fn law_decimal_is_short(n: nat)
    ensures
        n > 0 ==> decimal(n)[0] != '0',
        n < 10 ==> decimal(n).len() == 1,
        n >= 10 ==> decimal(n).len() == decimal(n / 10).len() + 1,
    decreases n,
{
    if n >= 10 {
        law_decimal_is_short(n / 10);
        lemma_decimal(n / 10);
        assert(decimal(n)[0] == decimal(n / 10)[0]);
    } else if n > 0 {
        assert(digit(n) as u32 == '0' as u32 + n);
    }
}

/// Text begins with what was put in front of it, and ends with what was put behind it; text
/// that begins or ends so is made up in that way.
pub proof fn law_ends(a: Seq<char>, b: Seq<char>)
    ensures
        starts_with(a + b, a),
        ends_with(a + b, b),
        starts_with(a, b) ==> a == b + a.skip(b.len() as int),
        ends_with(a, b) ==> a == a.take(a.len() - b.len()) + b,
{
    let s = a + b;
    assert(s.subrange(0, a.len() as int) =~= a);
    assert(s.subrange(a.len() as int, s.len() as int) =~= b);
    if starts_with(a, b) {
        assert(a =~= a.subrange(0, b.len() as int) + a.skip(b.len() as int));
    }
    if ends_with(a, b) {
        let n = a.len() - b.len();
        assert(a =~= a.take(n) + a.subrange(n, n + b.len()));
    }
}

/// What follows the last separator is the last piece.
pub proof fn law_split_last(x: Seq<char>, c: char, y: Seq<char>)
    requires
        is_free_of(y, c),
    ensures
        split(x + seq![c] + y, seq![c]) == split(x, seq![c]).push(y),
        split(y, seq![c]) == seq![y],
    decreases x.len(),
{
    let sep = seq![c];
    let whole = x + sep + y;
    lemma_first_char(y, c, Seq::empty());
    lemma_find_from(x, sep, 0);
    match find(x, sep) {
        None => {
            assert(is_free_of(x, c)) by {
                assert forall|i: int| 0 <= i < x.len() implies #[trigger] x[i] != c by {
                    assert(x.subrange(i, i + 1) =~= seq![x[i]]);
                    assert(!occurs_at(x, sep, i));
                }
            }
            lemma_first_char(x, c, y);
            assert(whole.take(x.len() as int) =~= x);
            assert(whole.skip(x.len() as int + sep.len()) =~= y);
            assert(split(whole, sep) == seq![x] + split(y, sep));
            assert(split(x, sep) == seq![x]);
            assert(seq![x] + seq![y] =~= seq![x].push(y));
        },
        Some(i) => {
            lemma_find_prefix(x, sep + y, sep);
            assert(whole =~= x + (sep + y));
            let rest = x.skip(i + 1);
            law_split_last(rest, c, y);
            assert(sep.len() == 1);
            assert(whole.skip(i + 1) =~= rest + sep + y);
            assert(whole.take(i) =~= x.take(i));
            assert(split(whole, sep) == seq![x.take(i)] + split(rest + sep + y, sep));
            assert(split(x, sep) == seq![x.take(i)] + split(rest, sep));
            assert(seq![x.take(i)] + split(rest, sep).push(y) =~= (seq![x.take(i)] + split(
                rest,
                sep,
            )).push(y));
        },
    }
}

} // verus!
