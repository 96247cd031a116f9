use horizoncast::net::live_stream::live_headers;
use horizoncast::net::live_stream::live_url;
use horizoncast::net::live_stream::DLNA_LIVE_FEATURES;
use horizoncast::net::media_server::content_type_for;
use horizoncast::net::media_server::content_type_for_extension;
use horizoncast::net::media_server::extension_of;
use horizoncast::net::media_server::media_reply;
use horizoncast::net::media_server::media_url;
use horizoncast::net::media_server::parse_range;
use horizoncast::net::media_server::range_is_unsatisfiable;
use horizoncast::net::media_server::MediaBody;
use horizoncast::net::media_server::MediaReply;
use horizoncast::net::media_server::DLNA_CONTENT_FEATURES;
use horizoncast::pipeline::address::IpAddr;
use horizoncast::pipeline::address::Ipv4Addr;

fn header<'a>(reply: &'a MediaReply, name: &str) -> Option<&'a str> {
    reply
        .headers
        .iter()
        .find(|h| h.0 == name)
        .map(|h| h.1.as_str())
}

#[test]
fn content_type_by_extension() {
    assert_eq!(content_type_for("a.mp4"), "video/mp4");
    assert_eq!(content_type_for("A.MKV"), "video/x-matroska");
    assert_eq!(
        content_type_for("clip.unknownext"),
        "application/octet-stream"
    );
    assert_eq!(content_type_for("noext"), "application/octet-stream");
}

#[test]
fn content_type_of_every_extension() {
    let table = [
        ("mp4", "video/mp4"),
        ("m4v", "video/mp4"),
        ("mkv", "video/x-matroska"),
        ("mov", "video/quicktime"),
        ("webm", "video/webm"),
        ("avi", "video/x-msvideo"),
        ("ts", "video/mp2t"),
        ("mpeg", "video/mpeg"),
        ("mpg", "video/mpeg"),
        ("mp3", "audio/mpeg"),
        ("flac", "audio/flac"),
        ("aac", "audio/aac"),
        ("wav", "audio/wav"),
        ("jpg", "image/jpeg"),
        ("jpeg", "image/jpeg"),
        ("png", "image/png"),
    ];
    for (ext, mime) in table {
        assert_eq!(content_type_for(&format!("/media/clip.{ext}")), mime);
        assert_eq!(content_type_for_extension(Some(&ext.to_uppercase())), mime);
    }
    assert_eq!(content_type_for_extension(None), "application/octet-stream");
}

#[test]
fn extensions_are_those_of_std() {
    let paths = [
        "", "/", ".", "..", "a", "a.b", ".b", "a.b.c", "a.", "a/b.c", "a.b/c", "a.b/", "a.b/.",
        "a.b/..", "a.b//", "./a.b", "../a.b", "a/..b", "...", "..a", "/a.b/./.",
    ];
    for path in paths {
        let expected = std::path::Path::new(path)
            .extension()
            .and_then(|e| e.to_str());
        assert_eq!(extension_of(path).as_deref(), expected, "{path:?}");
    }
}

#[test]
fn parse_range_variants() {
    assert_eq!(parse_range("bytes=0-99", 1000), Some((0, 99)));
    assert_eq!(parse_range("bytes=100-", 1000), Some((100, 999)));
    assert_eq!(parse_range("bytes=-50", 1000), Some((950, 999)));
    assert_eq!(parse_range("bytes=500-100000", 1000), Some((500, 999))); // end clamped
    assert_eq!(parse_range("bytes=2000-3000", 1000), None); // start past end
    assert_eq!(parse_range("bytes=50-10", 1000), None); // start > end
    assert_eq!(parse_range("nonsense", 1000), None);
    assert_eq!(parse_range("bytes=0-0", 0), None); // empty file
    assert_eq!(parse_range("bytes=-0", 1000), None); // zero-length suffix
}

#[test]
fn parse_range_edges() {
    assert_eq!(parse_range("bytes=-5000", 1000), Some((0, 999)));
    assert_eq!(parse_range("bytes= 1-2 ,5-6", 1000), Some((1, 2)));
    assert_eq!(parse_range("bytes=+1-+2", 1000), Some((1, 2)));
    assert_eq!(parse_range("bytes=1 -2", 1000), None);
    assert_eq!(parse_range("bytes=12", 1000), None);
    assert_eq!(parse_range("bytes=-", 1000), None);
    assert_eq!(parse_range("Bytes=0-1", 1000), None);
    assert_eq!(
        parse_range("bytes=0-18446744073709551615", 1000),
        Some((0, 999))
    );
    assert_eq!(parse_range("bytes=0-18446744073709551616", 1000), None);
    assert_eq!(parse_range("bytes=999-999", 1000), Some((999, 999)));
    assert_eq!(parse_range("bytes=1000-", 1000), None);
}

#[test]
fn unsatisfiable_range_detection() {
    assert!(range_is_unsatisfiable("bytes=500-600", 100)); // start past end
    assert!(range_is_unsatisfiable("bytes=-0", 100)); // zero-length suffix
    assert!(!range_is_unsatisfiable("bytes=0-50", 100)); // satisfiable
    assert!(!range_is_unsatisfiable("bytes=50-", 100)); // satisfiable open-ended
    assert!(!range_is_unsatisfiable("garbage", 100)); // not a bytes range: ignore
}

#[test]
fn malformed_range_is_not_unsatisfiable() {
    assert!(!range_is_unsatisfiable("bytes=500-abc", 100));
    assert!(!range_is_unsatisfiable("bytes=500-5x", 100));
    assert!(!range_is_unsatisfiable("bytes=-x", 100));
    assert!(range_is_unsatisfiable("bytes=500-", 100));
    assert!(range_is_unsatisfiable("bytes=100-100", 100));
}

#[test]
fn no_range_is_both_served_and_refused() {
    for value in ["bytes=0-", "bytes=99-", "bytes=100-", "bytes=-0", "bytes=-1", "bytes=9-1", "x"] {
        for total in [0, 1, 99, 100, 101] {
            assert!(parse_range(value, total).is_none() || !range_is_unsatisfiable(value, total));
        }
    }
}

#[test]
fn serves_full_ranged_and_head() {
    // Full GET.
    let resp = media_reply(None, false, false, "video/mp4", 5000);
    assert_eq!(resp.status, 200);
    assert_eq!(header(&resp, "accept-ranges"), Some("bytes"));
    assert_eq!(header(&resp, "content-type"), Some("video/mp4"));
    assert_eq!(header(&resp, "content-length"), Some("5000"));
    assert_eq!(header(&resp, "transfermode.dlna.org"), Some("Streaming"));
    assert_eq!(header(&resp, "contentfeatures.dlna.org"), None);
    assert_eq!(resp.body, MediaBody::Whole);

    // Ranged GET.
    let resp = media_reply(Some("bytes=100-199"), true, false, "video/mp4", 5000);
    assert_eq!(resp.status, 206);
    assert_eq!(header(&resp, "content-range"), Some("bytes 100-199/5000"));
    assert_eq!(header(&resp, "content-length"), Some("100"));
    assert_eq!(
        header(&resp, "contentfeatures.dlna.org"),
        Some(DLNA_CONTENT_FEATURES)
    );
    assert_eq!(
        resp.body,
        MediaBody::Part {
            start: 100,
            len: 100
        }
    );

    // HEAD: status + length, empty body.
    let resp = media_reply(None, false, true, "video/mp4", 5000);
    assert_eq!(resp.status, 200);
    assert_eq!(header(&resp, "content-length"), Some("5000"));
    assert_eq!(resp.body, MediaBody::Empty);
}

#[test]
fn unsatisfiable_range_returns_416() {
    let resp = media_reply(
        Some("bytes=500-600"),
        true,
        false,
        "application/octet-stream",
        100,
    );
    assert_eq!(resp.status, 416);
    assert_eq!(header(&resp, "content-range"), Some("bytes */100"));
    assert_eq!(resp.headers.len(), 1);
    assert_eq!(resp.body, MediaBody::Empty);
}

#[test]
fn malformed_range_serves_the_whole_file() {
    for value in ["items=0-1", "bytes=a-b", "bytes=5-1", "bytes=500-abc"] {
        let resp = media_reply(Some(value), false, false, "video/mp4", 10);
        assert_eq!(resp.status, 200);
        assert_eq!(resp.body, MediaBody::Whole);
    }
}

#[test]
fn urls_of_the_servers() {
    let ip = IpAddr::V4(Ipv4Addr::new(127, 0, 0, 1));
    assert_eq!(
        media_url(&ip, 8080, Some("MP4")),
        "http://127.0.0.1:8080/media.mp4"
    );
    assert_eq!(media_url(&ip, 1, None), "http://127.0.0.1:1/media.bin");
    assert_eq!(live_url(&ip, 65_535, "ts"), "http://127.0.0.1:65535/live.ts");
}

#[test]
fn live_answer_headers() {
    let plain = live_headers("video/mp2t", false);
    assert_eq!(plain.len(), 3);
    assert_eq!(plain[0], ("content-type".into(), "video/mp2t".into()));
    assert_eq!(plain[1], ("accept-ranges".into(), "none".into()));
    assert_eq!(plain[2], ("transfermode.dlna.org".into(), "Streaming".into()));
    let asked = live_headers("video/mp2t", true);
    assert_eq!(
        asked[3],
        ("contentfeatures.dlna.org".into(), DLNA_LIVE_FEATURES.into())
    );
}
