use horizoncast::net::rtsp::find_subsequence;
use horizoncast::net::rtsp::RtspConnection;
use horizoncast::net::rtsp::RtspRequest;
use horizoncast::net::rtsp::RtspResponse;

#[test]
fn serializes_request_with_headers() {
    let bytes = RtspRequest::new("GET_PARAMETER", "rtsp://10.0.0.1/stream")
        .header("CSeq", "3")
        .header("User-Agent", "HorizonCast/0.0")
        .serialize();
    let text = String::from_utf8(bytes).unwrap();
    assert_eq!(
        text,
        "GET_PARAMETER rtsp://10.0.0.1/stream RTSP/1.0\r\n\
         CSeq: 3\r\n\
         User-Agent: HorizonCast/0.0\r\n\
         \r\n"
    );
}

#[test]
fn with_body_sets_content_headers_and_replaces_duplicates() {
    let req = RtspRequest::new("POST", "/pair-setup")
        .header("Content-Length", "999") // stale, must be replaced
        .with_body("application/octet-stream", vec![1, 2, 3, 4]);
    let text = String::from_utf8(req.serialize()).unwrap();
    assert!(text.contains("POST /pair-setup RTSP/1.0\r\n"));
    assert!(text.contains("Content-Type: application/octet-stream\r\n"));
    assert!(text.contains("Content-Length: 4\r\n"));
    // Only one Content-Length header (the stale 999 was removed).
    assert_eq!(text.matches("Content-Length:").count(), 1);
    assert!(text.ends_with("\r\n\r\n\u{1}\u{2}\u{3}\u{4}"));
}

#[test]
fn with_body_keeps_other_headers_in_order() {
    let req = RtspRequest::new("POST", "/x")
        .header("A", "1")
        .header("CONTENT-TYPE", "text/plain")
        .header("B", "2")
        .with_body("text/html", vec![]);
    let names: Vec<&str> = req.headers.iter().map(|h| h.0.as_str()).collect();
    assert_eq!(names, vec!["A", "B", "Content-Type", "Content-Length"]);
    assert_eq!(req.headers[2].1, "text/html");
    assert_eq!(req.headers[3].1, "0");
}

#[test]
fn parses_response_with_body() {
    let raw = b"RTSP/1.0 200 OK\r\nCSeq: 3\r\nContent-Length: 5\r\n\r\nhello";
    let (resp, consumed) = RtspResponse::parse(raw).unwrap().expect("complete message");
    assert_eq!(consumed, raw.len());
    assert_eq!(resp.status, 200);
    assert_eq!(resp.reason, "OK");
    assert!(resp.is_success());
    assert_eq!(resp.header("cseq"), Some("3")); // case-insensitive
    assert_eq!(resp.body, b"hello");
}

#[test]
fn parses_response_without_body() {
    let raw = b"RTSP/1.0 200 OK\r\nCSeq: 1\r\n\r\n";
    let (resp, consumed) = RtspResponse::parse(raw).unwrap().unwrap();
    assert_eq!(consumed, raw.len());
    assert!(resp.body.is_empty());
}

#[test]
fn returns_none_when_headers_incomplete() {
    let raw = b"RTSP/1.0 200 OK\r\nCSeq: 1\r\n"; // no terminating CRLFCRLF
    assert_eq!(RtspResponse::parse(raw).unwrap(), None);
}

#[test]
fn returns_none_when_body_incomplete() {
    let raw = b"RTSP/1.0 200 OK\r\nContent-Length: 10\r\n\r\nshort";
    assert_eq!(RtspResponse::parse(raw).unwrap(), None);
}

#[test]
fn reports_consumed_so_pipelined_messages_can_follow() {
    let mut raw = b"RTSP/1.0 200 OK\r\nContent-Length: 2\r\n\r\nAB".to_vec();
    let trailing = b"RTSP/1.0 100 Continue\r\n\r\n";
    raw.extend_from_slice(trailing);
    let (first, consumed) = RtspResponse::parse(&raw).unwrap().unwrap();
    assert_eq!(first.body, b"AB");
    // The next message starts exactly where the first ended.
    let (second, _) = RtspResponse::parse(&raw[consumed..]).unwrap().unwrap();
    assert_eq!(second.status, 100);
}

#[test]
fn rejects_non_rtsp_status_line() {
    let raw = b"HTTP/1.1 200 OK\r\n\r\n";
    assert!(RtspResponse::parse(raw).is_err());
}

#[test]
fn rejects_bad_status_code() {
    let raw = b"RTSP/1.0 NOTACODE OK\r\n\r\n";
    assert!(RtspResponse::parse(raw).is_err());
}

#[test]
fn error_texts_quote_the_line() {
    let text = |raw: &[u8]| RtspResponse::parse(raw).unwrap_err().text();
    assert_eq!(
        text(b"HTTP/1.1 200 \"OK\"\r\n\r\n"),
        "protocol error: invalid RTSP status line: \"HTTP/1.1 200 \\\"OK\\\"\""
    );
    assert_eq!(
        text(b"RTSP/1.0 70000 OK\r\n\r\n"),
        "protocol error: invalid RTSP status code: \"RTSP/1.0 70000 OK\""
    );
    assert_eq!(
        text(b"RTSP/1.0\r\n\r\n"),
        "protocol error: invalid RTSP status code: \"RTSP/1.0\""
    );
    assert_eq!(
        text(b"RTSP/1.0 200 OK\r\nno colon\there\r\n\r\n"),
        "protocol error: malformed RTSP header: \"no colon\\there\""
    );
    assert_eq!(
        text(b"RTSP/1.0 200 OK\r\nX: \xFF\r\n\r\n"),
        "protocol error: RTSP header is not valid UTF-8"
    );
}

#[test]
fn reason_may_hold_spaces_or_be_missing() {
    let (resp, _) = RtspResponse::parse(b"RTSP/1.0 404 Not Found\r\n\r\n")
        .unwrap()
        .unwrap();
    assert_eq!(resp.reason, "Not Found");
    assert!(!resp.is_success());
    let (resp, _) = RtspResponse::parse(b"RTSP/1.0 +299\r\n\r\n").unwrap().unwrap();
    assert_eq!(resp.status, 299);
    assert_eq!(resp.reason, "");
    assert!(resp.is_success());
}

#[test]
fn headers_are_trimmed_and_first_match_wins() {
    let raw = "RTSP/1.0 200 OK\r\n X-A :  1 \r\nx-a: 2\r\nÜ: \u{2003}ü\r\n\r\n".as_bytes();
    let (resp, _) = RtspResponse::parse(raw).unwrap().unwrap();
    assert_eq!(resp.header("X-a"), Some("1"));
    assert_eq!(resp.header("Ü"), Some("ü"));
    assert_eq!(resp.header("missing"), None);
}

#[test]
fn content_length_that_is_no_number_counts_as_zero() {
    let raw = b"RTSP/1.0 200 OK\r\nContent-Length: -5\r\n\r\nrest";
    let (resp, consumed) = RtspResponse::parse(raw).unwrap().unwrap();
    assert!(resp.body.is_empty());
    assert_eq!(consumed, raw.len() - 4);
}

#[test]
fn huge_content_length_waits_for_more() {
    let raw = b"RTSP/1.0 200 OK\r\nContent-Length: 18446744073709551615\r\n\r\nx";
    assert_eq!(RtspResponse::parse(raw).unwrap(), None);
}

#[test]
fn later_bytes_do_not_change_a_message() {
    let raw = b"RTSP/1.0 200 OK\r\nContent-Length: 1\r\n\r\nZ".to_vec();
    let mut more = raw.clone();
    more.extend_from_slice(b"\r\n\r\n\xFF junk");
    assert_eq!(
        RtspResponse::parse(&raw).unwrap(),
        RtspResponse::parse(&more).unwrap()
    );
}

#[test]
fn find_subsequence_finds_the_first() {
    assert_eq!(find_subsequence(b"abcabc", b"bc"), Some(1));
    assert_eq!(find_subsequence(b"aab", b"ab"), Some(1));
    assert_eq!(find_subsequence(b"abc", b"x"), None);
    assert_eq!(find_subsequence(b"abc", b""), None);
    assert_eq!(find_subsequence(b"ab", b"abc"), None);
}

#[test]
fn connection_sends_request_with_cseq_and_parses_response() {
    let mut conn = RtspConnection::new();
    assert_eq!(conn.next_cseq(), 1);
    let sent = String::from_utf8(conn.request(RtspRequest::new("OPTIONS", "*"))).unwrap();
    assert!(conn.response().unwrap().is_none());
    conn.receive(b"RTSP/1.0 200 OK\r\nCSeq: 1\r\nContent-Length: 2\r\n\r\nok")
        .unwrap();
    let resp = conn.response().unwrap().unwrap();

    assert_eq!(resp.status, 200);
    assert_eq!(resp.body, b"ok");
    assert_eq!(conn.next_cseq(), 2, "CSeq must advance after a request");

    // The driver added a CSeq header to what it sent.
    assert!(sent.starts_with("OPTIONS * RTSP/1.0\r\n"));
    assert!(sent.contains("CSeq: 1\r\n"));
}

#[test]
fn connection_reassembles_and_keeps_what_follows() {
    let mut conn = RtspConnection::new();
    let raw = b"RTSP/1.0 200 OK\r\nContent-Length: 2\r\n\r\nABRTSP/1.0 100 Continue\r\n\r\n";
    for byte in &raw[..38] {
        conn.receive(&[*byte]).unwrap();
        assert!(conn.response().unwrap().is_none());
    }
    conn.receive(&raw[38..]).unwrap();
    assert_eq!(conn.response().unwrap().unwrap().body, b"AB");
    assert_eq!(conn.response().unwrap().unwrap().status, 100);
    assert!(conn.response().unwrap().is_none());
}

#[test]
fn closed_connection_is_an_error() {
    let mut conn = RtspConnection::new();
    assert_eq!(
        conn.receive(&[]).unwrap_err().text(),
        "protocol error: connection closed before a complete RTSP response"
    );
}

#[test]
fn bad_response_is_an_error_of_the_connection() {
    let mut conn = RtspConnection::new();
    conn.receive(b"HTTP/1.1 200 OK\r\n\r\n").unwrap();
    assert!(conn.response().is_err());
}
