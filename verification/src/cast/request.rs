//! What is cast: a file or a URL, its title, and what is reported.

use vstd::prelude::*;
use vstd::slice::slice_subrange;

use crate::net::media_server::file_name;
use crate::net::media_server::law_file_name;
use crate::net::media_server::last_component;
use crate::net::upnp::is_http;
use crate::net::upnp::is_http_url;
use crate::pipeline::address::IpAddr;
use crate::text::before;
use crate::text::before_char;
use crate::text::chars_of;
use crate::text::find;
use crate::text::find_last;
use crate::text::find_last_char;
use crate::text::is_free_of;
use crate::text::law_cut_at_char;
use crate::text::law_ends;
use crate::text::law_last_char;
use crate::text::lemma_find_from;
use crate::text::lemma_find_is;
use crate::text::occurs_at;
use crate::text::string_of;
use crate::text::trim_chars;
use crate::text::trimmed;

verus! {

/// The title that is shown where the media gives none.
pub const DEFAULT_TITLE: &'static str = "HorizonCast";

/// How long the network is searched for the device, in seconds.
pub const SEARCH_SECS: u64 = 5;

/// The part of `s` after the last `c`, or all of it.
pub open spec fn after_last(s: Seq<char>, c: char) -> Seq<char> {
    match find_last(s, c) {
        Some(i) => s.skip(i + 1),
        None => s,
    }
}

/// The part of `s` before the last `c`, or all of it.
pub open spec fn before_last(s: Seq<char>, c: char) -> Seq<char> {
    match find_last(s, c) {
        Some(i) => s.take(i),
        None => s,
    }
}

/// The last segment of a path or URL, without its extension.
pub open spec fn title_stem(media: Seq<char>) -> Seq<char> {
    let path = before(before(media, '?'), '#');
    before_last(after_last(after_last(path, '/'), '\\'), '.')
}

/// The title of a file path or URL.
pub open spec fn title_of(media: Seq<char>) -> Seq<char> {
    if title_stem(media).len() == 0 {
        DEFAULT_TITLE@
    } else {
        title_stem(media)
    }
}

fn part_after_last(s: &[char], c: char) -> (r: &[char])
    ensures
        r@ == after_last(s@, c),
{
    match find_last_char(s, c) {
        Some(i) => {
            let n: usize = s.len();
            let r: &[char] = slice_subrange(s, i + 1, n);
            assert(r@ =~= s@.skip(i + 1));
            r
        },
        None => s,
    }
}

fn part_before_last(s: &[char], c: char) -> (r: &[char])
    ensures
        r@ == before_last(s@, c),
{
    match find_last_char(s, c) {
        Some(i) => {
            let r: &[char] = slice_subrange(s, 0, i);
            assert(r@ =~= s@.take(i as int));
            r
        },
        None => s,
    }
}

/// Derive a display title from a file path or URL: last path segment, without extension.
pub fn media_title(media: &str) -> (r: String)
    ensures
        r@ == title_of(media@),
{
    let chars: Vec<char> = chars_of(media);
    let path: &[char] = before_char(before_char(&chars, '?'), '#');
    let last: &[char] = part_after_last(part_after_last(path, '/'), '\\');
    let stem: &[char] = part_before_last(last, '.');
    if stem.len() == 0 {
        DEFAULT_TITLE.to_owned()
    } else {
        string_of(stem)
    }
}

/// The name before its last dot, unless that dot begins it.
pub open spec fn stem_of(name: Seq<char>) -> Seq<char> {
    match find_last(name, '.') {
        Some(i) => if i > 0 {
            name.take(i)
        } else {
            name
        },
        None => name,
    }
}

/// The title of a file: its name without the extension, or the default title where the path
/// names no file.
pub open spec fn file_title_of(path: Seq<char>) -> Seq<char> {
    match file_name(path) {
        Some(name) => stem_of(name),
        None => DEFAULT_TITLE@,
    }
}

/// Derive a display title from the path of a file: its name, without extension.
pub fn file_title(path: &str) -> (r: String)
    ensures
        r@ == file_title_of(path@),
{
    let chars: Vec<char> = chars_of(path);
    match last_component(&chars) {
        Some(name) => match find_last_char(name, '.') {
            Some(i) => if i > 0 {
                let stem: &[char] = slice_subrange(name, 0, i);
                assert(stem@ =~= name@.take(i as int));
                string_of(stem)
            } else {
                string_of(name)
            },
            None => string_of(name),
        },
        None => DEFAULT_TITLE.to_owned(),
    }
}

/// A cast to make.
#[derive(Debug, PartialEq, Eq)]
pub enum CastRequest {
    /// Point the renderer at a URL that it can reach itself.
    Url { control_url: String, url: String, title: String },
    /// Serve a local file and point the renderer at it.
    File { control_url: String, address: IpAddr, path: String, title: String },
}

/// The message for media that is neither a URL nor a file, if it is that.
pub fn check_media(media: &str, is_file: bool) -> (r: Option<String>)
    ensures
        match r {
            Some(message) => !is_http_url(media@) && !is_file && message@
                == "media not found (expected a local file path or an http(s) URL): "@ + media@,
            None => is_http_url(media@) || is_file,
        },
{
    if is_http(media) || is_file {
        None
    } else {
        Some(
            String::from_str(
                "media not found (expected a local file path or an http(s) URL): ",
            ).concat(media),
        )
    }
}

/// The cast that plays `media` on the renderer at `address`: an absolute HTTP URL is
/// handed on, anything else is a file to serve.
pub fn cast_request(media: &str, address: IpAddr, control_url: &str) -> (r: CastRequest)
    ensures
        match r {
            CastRequest::Url { control_url: c, url, title } => is_http_url(media@) && c@
                == control_url@ && url@ == media@ && title@ == title_of(media@),
            CastRequest::File { control_url: c, address: a, path, title } => !is_http_url(media@)
                && c@ == control_url@ && a == address && path@ == media@ && title@ == title_of(
                media@,
            ),
        },
{
    let title: String = media_title(media);
    if is_http(media) {
        CastRequest::Url { control_url: control_url.to_owned(), url: media.to_owned(), title }
    } else {
        CastRequest::File {
            control_url: control_url.to_owned(),
            address,
            path: media.to_owned(),
            title,
        }
    }
}

/// The message for a device that did not turn up.
pub fn device_not_found(device: &str) -> (r: String)
    ensures
        r@ == "device '"@ + device@ + "' not found on the local network."@,
{
    let mut out: String = String::from_str("device '");
    out.append(device);
    out.append("' not found on the local network.");
    out
}

/// The message for a device to which media cannot be cast.
pub fn no_cast_endpoint(name: &str) -> (r: String)
    ensures
        r@ == "'"@ + name@
            + "' has no usable DLNA media endpoint (real-time mirroring is not implemented yet)."@,
{
    let mut out: String = String::from_str("'");
    out.append(name);
    out.append(
        "' has no usable DLNA media endpoint (real-time mirroring is not implemented yet).",
    );
    out
}

/// The message for a device to which the screen cannot be mirrored.
pub fn no_mirror_endpoint(name: &str) -> (r: String)
    ensures
        r@ == "'"@ + name@
            + "' has no DLNA media endpoint to mirror to (AirPlay-only devices aren't supported)."@,
{
    let mut out: String = String::from_str("'");
    out.append(name);
    out.append(
        "' has no DLNA media endpoint to mirror to (AirPlay-only devices aren't supported).",
    );
    out
}

/// The URL in a text field, without white space around it, if there is one.
pub fn entered_url(text: &str) -> (r: Option<String>)
    ensures
        match r {
            Some(url) => url@ == trimmed(text@) && url@.len() > 0,
            None => trimmed(text@).len() == 0,
        },
{
    let chars: Vec<char> = chars_of(text);
    let url: &[char] = trim_chars(&chars);
    if url.len() == 0 {
        None
    } else {
        Some(string_of(url))
    }
}

/// The title of a path or a URL is its last segment without the extension: the directories
/// before it, in either notation, the extension, the query and the fragment have no part in
/// it. Where nothing is left it is the default title.
pub proof fn law_title(dir: Seq<char>, stem: Seq<char>, ext: Seq<char>, tail: Seq<char>)
    requires
        is_plain(dir, true),
        is_plain(stem, false),
        is_plain(ext, false),
        is_free_of(ext, '.'),
        tail.len() > 0 ==> tail[0] == '?' || tail[0] == '#',
    ensures
        ({
            let title = if stem.len() > 0 {
                stem
            } else {
                "HorizonCast"@
            };
            &&& title_of(dir + seq!['/'] + stem + seq!['.'] + ext + tail) == title
            &&& title_of(stem + seq!['.'] + ext + tail) == title
            &&& is_free_of(dir, '/') ==> title_of(
                dir + seq!['\\'] + stem + seq!['.'] + ext + tail,
            ) == title
        }),
{
    let name = stem + seq!['.'] + ext;
    let (unix, windows) = (dir + seq!['/'] + name, dir + seq!['\\'] + name);
    lemma_plain_name(stem, ext);
    lemma_plain_path(dir, '/', name);
    lemma_plain_path(dir, '\\', name);
    lemma_tail_goes(unix, tail);
    lemma_tail_goes(windows, tail);
    lemma_tail_goes(name, tail);
    assert(dir + seq!['/'] + stem + seq!['.'] + ext + tail =~= unix + tail);
    assert(dir + seq!['\\'] + stem + seq!['.'] + ext + tail =~= windows + tail);
    law_last_char(dir, '/', name);
    law_last_char(dir, '\\', name);
    law_last_char(stem, '.', ext);
    assert(unix.skip(dir.len() as int + 1) =~= name);
    assert(windows.skip(dir.len() as int + 1) =~= name);
    assert(name.take(stem.len() as int) =~= stem);
    if is_free_of(dir, '/') {
        assert(is_free_of(windows, '/')) by {
            assert forall|i: int| 0 <= i < windows.len() implies #[trigger] windows[i] != '/' by {
                if i < dir.len() {
                    assert(windows[i] == dir[i]);
                } else if i > dir.len() {
                    assert(windows[i] == name[i - dir.len() - 1]);
                }
            }
        }
        law_last_char(Seq::empty(), '/', windows);
    }
}

/// Text without a query or a fragment and, unless it is a path, without separators.
pub open spec fn is_plain(s: Seq<char>, is_path: bool) -> bool {
    is_free_of(s, '?') && is_free_of(s, '#') && (is_path || (is_free_of(s, '/') && is_free_of(
        s,
        '\\',
    )))
}

proof fn lemma_plain_name(stem: Seq<char>, ext: Seq<char>)
    requires
        is_plain(stem, false),
        is_plain(ext, false),
    ensures
        is_plain(stem + seq!['.'] + ext, false),
{
    let name = stem + seq!['.'] + ext;
    assert forall|i: int| 0 <= i < name.len() implies {
        let c = #[trigger] name[i];
        c != '?' && c != '#' && c != '/' && c != '\\'
    } by {
        if i < stem.len() {
            assert(name[i] == stem[i]);
        } else if i > stem.len() {
            assert(name[i] == ext[i - stem.len() - 1]);
        }
    }
}

proof fn lemma_plain_path(dir: Seq<char>, sep: char, name: Seq<char>)
    requires
        is_plain(dir, true),
        is_plain(name, true),
        sep != '?' && sep != '#',
    ensures
        is_plain(dir + seq![sep] + name, true),
{
    let path = dir + seq![sep] + name;
    assert forall|i: int| 0 <= i < path.len() implies {
        let c = #[trigger] path[i];
        c != '?' && c != '#'
    } by {
        if i < dir.len() {
            assert(path[i] == dir[i]);
        } else if i > dir.len() {
            assert(path[i] == name[i - dir.len() - 1]);
        }
    }
}

proof fn lemma_tail_goes(path: Seq<char>, tail: Seq<char>)
    requires
        is_plain(path, true),
        tail.len() > 0 ==> tail[0] == '?' || tail[0] == '#',
    ensures
        before(before(path + tail, '?'), '#') == path,
{
    if tail.len() == 0 {
        assert(path + tail =~= path);
        law_cut_at_char(path, '?', tail);
        law_cut_at_char(path, '#', tail);
    } else if tail[0] == '?' {
        assert(path + tail =~= path + seq!['?'] + tail.skip(1));
        law_cut_at_char(path, '?', tail.skip(1));
        law_cut_at_char(path, '#', tail);
    } else {
        // A question mark in the fragment goes with it.
        let rest = before(tail, '?');
        lemma_find_from(tail, seq!['?'], 0);
        lemma_find_from(path + tail, seq!['?'], 0);
        let whole = path + tail;
        let n = path.len() as int;
        assert(before(whole, '?') == path + rest) by {
            assert(seq!['?'][0] == '?');
            match find(tail, seq!['?']) {
                Some(k) => {
                    assert(whole.subrange(n + k, n + k + 1) =~= tail.subrange(k, k + 1));
                    assert forall|j: int| 0 <= j < n + k implies !occurs_at(
                        whole,
                        seq!['?'],
                        j,
                    ) by {
                        if occurs_at(whole, seq!['?'], j) {
                            assert(whole.subrange(j, j + 1)[0] == whole[j]);
                            if j < n {
                                assert(whole[j] == path[j]);
                            } else {
                                assert(tail.subrange(j - n, j - n + 1) =~= seq!['?']);
                                assert(occurs_at(tail, seq!['?'], j - n));
                            }
                        }
                    }
                    lemma_find_is(whole, seq!['?'], 0, n + k);
                    assert(whole.take(n + k) =~= path + tail.take(k));
                },
                None => {
                    if let Some(j) = find(whole, seq!['?']) {
                        assert(whole.subrange(j, j + 1)[0] == whole[j]);
                        if j < n {
                            assert(whole[j] == path[j]);
                        } else {
                            assert(tail.subrange(j - n, j - n + 1) =~= seq!['?']);
                            assert(occurs_at(tail, seq!['?'], j - n));
                        }
                    }
                },
            }
        }
        assert(rest.len() > 0 && rest[0] == '#') by {
            if let Some(k) = find(tail, seq!['?']) {
                assert(tail.subrange(k, k + 1)[0] == tail[k]);
                assert(seq!['?'][0] == '?');
                assert(k > 0);
            }
        }
        assert(path + rest =~= path + seq!['#'] + rest.skip(1));
        law_cut_at_char(path, '#', rest.skip(1));
    }
}

/// The title of a file is its name without the extension; a name that begins with its only
/// dot has none. The directories before it have no part in it.
pub proof fn law_file_title(dir: Seq<char>, stem: Seq<char>, ext: Seq<char>)
    requires
        stem.len() > 0,
        is_free_of(stem, '/'),
        is_free_of(ext, '/'),
        is_free_of(ext, '.'),
        ext.len() > 0,
    ensures
        file_title_of(dir + seq!['/'] + stem + seq!['.'] + ext) == stem,
        file_title_of(stem + seq!['.'] + ext) == stem,
        file_title_of(dir + seq!['/'] + ext) == ext,
        file_title_of(dir + seq!['/'] + seq!['.'] + ext) == seq!['.'] + ext,
{
    let name = stem + seq!['.'] + ext;
    let hidden = seq!['.'] + ext;
    assert(is_free_of(name, '/')) by {
        assert forall|i: int| 0 <= i < name.len() implies #[trigger] name[i] != '/' by {
            if i < stem.len() {
                assert(name[i] == stem[i]);
            } else if i > stem.len() {
                assert(name[i] == ext[i - stem.len() - 1]);
            }
        }
    }
    assert(is_free_of(hidden, '/')) by {
        assert forall|i: int| 0 <= i < hidden.len() implies #[trigger] hidden[i] != '/' by {
            if i > 0 {
                assert(hidden[i] == ext[i - 1]);
            }
        }
    }
    assert(ext[0] != '.' && ext[ext.len() - 1] != '.');
    assert(seq!['.'][0] == '.' && seq!['.'].len() == 1 && seq!['.', '.'].len() == 2);
    assert(seq!['.', '.'][0] == '.' && seq!['.', '.'][1] == '.');
    assert(name.last() == ext.last());
    assert(hidden[1] == ext[0] && hidden.len() >= 2);
    if name == seq!['.', '.'] {
        assert(name[1] == ext.last());
    }
    law_file_name(dir, name);
    law_file_name(dir, hidden);
    law_file_name(dir, ext);
    law_last_char(stem, '.', ext);
    law_last_char(Seq::empty(), '.', ext);
    assert(Seq::<char>::empty() + seq!['.'] + ext =~= hidden);
    assert(name.take(stem.len() as int) =~= stem);
    assert(dir + seq!['/'] + stem + seq!['.'] + ext =~= dir + seq!['/'] + name);
    assert(dir + seq!['/'] + seq!['.'] + ext =~= dir + seq!['/'] + hidden);
}

/// What is cast as a URL begins with `http://` or `https://`; everything else is a file.
pub proof fn law_url_or_file(rest: Seq<char>, media: Seq<char>)
    ensures
        is_http_url("http://"@ + rest),
        is_http_url("https://"@ + rest),
        is_http_url(media) ==> media == "http://"@ + media.skip(7) || media == "https://"@
            + media.skip(8),
{
    reveal_strlit("http://");
    reveal_strlit("https://");
    law_ends("http://"@, rest);
    law_ends("https://"@, rest);
    law_ends(media, "http://"@);
    law_ends(media, "https://"@);
}

} // verus!
