use horizoncast::net::upnp::build_play;
use horizoncast::net::upnp::build_set_av_transport_uri;
use horizoncast::net::upnp::build_stop;
use horizoncast::net::upnp::describe;
use horizoncast::net::upnp::description_result;
use horizoncast::net::upnp::didl_lite_live_video;
use horizoncast::net::upnp::didl_lite_video;
use horizoncast::net::upnp::parse_device_description;
use horizoncast::net::upnp::resolve_url;
use horizoncast::net::upnp::soap_action_header;
use horizoncast::net::upnp::soap_outcome;
use horizoncast::net::upnp::soap_result;
use horizoncast::net::upnp::xml_escape;
use horizoncast::net::upnp::DeviceDescription;
use horizoncast::net::upnp::HttpReply;
use horizoncast::net::upnp::AV_TRANSPORT;
use horizoncast::net::xml::XmlEvent;
use horizoncast::sink::dlna::document_control_url;
use horizoncast::sink::dlna::mime_for_url;

const SAMSUNG_DESC: &str = r#"<?xml version="1.0"?>
<root xmlns="urn:schemas-upnp-org:device-1-0">
  <device>
    <deviceType>urn:schemas-upnp-org:device:MediaRenderer:1</deviceType>
    <friendlyName>[TV] Samsung Q80</friendlyName>
    <manufacturer>Samsung Electronics</manufacturer>
    <serviceList>
      <service>
        <serviceType>urn:schemas-upnp-org:service:RenderingControl:1</serviceType>
        <controlURL>/upnp/control/RenderingControl1</controlURL>
      </service>
      <service>
        <serviceType>urn:schemas-upnp-org:service:AVTransport:1</serviceType>
        <controlURL>/upnp/control/AVTransport1</controlURL>
      </service>
    </serviceList>
  </device>
</root>"#;

#[test]
fn parses_friendly_name_and_av_transport_control_url() {
    let d = parse_device_description(SAMSUNG_DESC);
    assert_eq!(d.friendly_name.as_deref(), Some("[TV] Samsung Q80"));
    assert_eq!(
        d.av_transport_control_url.as_deref(),
        Some("/upnp/control/AVTransport1")
    );
}

#[test]
fn picks_av_transport_not_rendering_control() {
    // RenderingControl appears first; we must skip it and pick AVTransport.
    let d = parse_device_description(SAMSUNG_DESC);
    assert_eq!(
        d.av_transport_control_url.as_deref(),
        Some("/upnp/control/AVTransport1")
    );
}

#[test]
fn malformed_xml_does_not_panic() {
    let d = parse_device_description("<root><device><friendlyName>X");
    assert_eq!(d.friendly_name.as_deref(), Some("X"));
}

#[test]
fn empty_xml_yields_empty_description() {
    assert_eq!(parse_device_description(""), DeviceDescription::default());
}

#[test]
fn reading_stops_where_the_document_breaks() {
    let d = parse_device_description("<a><friendlyName>N</friendlyName></b><service></service>");
    assert_eq!(d.friendly_name.as_deref(), Some("N"));
    assert_eq!(d.av_transport_control_url, None);
}

#[test]
fn prefixes_comments_and_blank_names_are_passed_over() {
    let d = parse_device_description(
        "<?xml version='1.0'?><!-- c --><u:friendlyName> \n </u:friendlyName>\
         <u:friendlyName> Den &amp; TV</u:friendlyName><friendlyName>Later</friendlyName>",
    );
    assert_eq!(d.friendly_name.as_deref(), Some("Den"));
}

#[test]
fn line_ends_in_text_become_line_feeds() {
    let d = parse_device_description("<friendlyName>A\r\nB\rC</friendlyName>");
    assert_eq!(d.friendly_name.as_deref(), Some("A\nB\nC"));
}

#[test]
fn control_url_outside_a_service_is_ignored() {
    let d = parse_device_description(
        "<r><controlURL>/x</controlURL><service><serviceType>AVTransport</serviceType></service>\
         <service><serviceType>AVTransport:2</serviceType><controlURL>/y</controlURL></service></r>",
    );
    assert_eq!(d.av_transport_control_url.as_deref(), Some("/y"));
}

fn start(name: &str) -> XmlEvent {
    XmlEvent::Start(name.as_bytes().to_vec())
}

fn end(name: &str) -> XmlEvent {
    XmlEvent::End(name.as_bytes().to_vec())
}

fn text(content: &str) -> XmlEvent {
    XmlEvent::Text(content.as_bytes().to_vec())
}

#[test]
fn description_of_events() {
    let events = vec![
        start("friendlyName"),
        text("  "),
        XmlEvent::Text(vec![0xFF]),
        text(" TV "),
        text("second"),
        end("friendlyName"),
        start("service"),
        start("serviceType"),
        text("x:AV"),
        XmlEvent::Other,
        text("Transport:1"),
        end("serviceType"),
        start("controlURL"),
        text(" /a "),
        text(" b "),
        end("controlURL"),
        end("service"),
        start("service"),
        start("serviceType"),
        text("AVTransport"),
        end("serviceType"),
        start("controlURL"),
        text("/late"),
        end("controlURL"),
        end("service"),
        XmlEvent::Eof,
        start("friendlyName"),
    ];
    let d = describe(&events);
    assert_eq!(d.friendly_name.as_deref(), Some("TV"));
    assert_eq!(d.av_transport_control_url.as_deref(), Some("/ab"));
}

#[test]
fn events_after_a_malformed_place_do_not_count() {
    let events = vec![XmlEvent::Malformed, start("friendlyName"), text("TV")];
    assert_eq!(describe(&events), DeviceDescription::default());
}

#[test]
fn resolves_relative_control_url() {
    let base = "http://192.168.1.50:9197/dmr/desc.xml";
    assert_eq!(
        resolve_url(base, "/upnp/control/AVTransport1").as_deref(),
        Some("http://192.168.1.50:9197/upnp/control/AVTransport1")
    );
}

#[test]
fn resolves_relative_without_leading_slash() {
    let base = "http://10.0.0.2:80/desc.xml";
    assert_eq!(
        resolve_url(base, "ctrl/AV").as_deref(),
        Some("http://10.0.0.2:80/ctrl/AV")
    );
}

#[test]
fn absolute_control_url_passthrough() {
    assert_eq!(
        resolve_url("http://x/desc.xml", "http://other:99/c").as_deref(),
        Some("http://other:99/c")
    );
}

#[test]
fn location_without_scheme_or_path() {
    assert_eq!(resolve_url("no scheme", "/c"), None);
    assert_eq!(
        resolve_url("http://host", "c").as_deref(),
        Some("http://host/c")
    );
    assert_eq!(
        resolve_url("no scheme", "https://s/c").as_deref(),
        Some("https://s/c")
    );
}

#[test]
fn xml_escape_handles_all_specials() {
    assert_eq!(
        xml_escape(r#"a&b<c>d"e'f"#),
        "a&amp;b&lt;c&gt;d&quot;e&apos;f"
    );
}

#[test]
fn didl_escapes_title_and_uri_and_has_protocol_info() {
    let didl = didl_lite_video("Tom & Jerry", "http://h/v.mp4?a=1&b=2", "video/mp4");
    assert!(didl.contains("Tom &amp; Jerry"));
    assert!(didl.contains("a=1&amp;b=2"));
    assert!(didl.contains("object.item.videoItem"));
    // Samsung-required protocolInfo with the matching MIME type.
    assert!(didl.contains("protocolInfo="));
    assert!(didl.contains("http-get:*:video/mp4:"));
}

#[test]
fn didl_documents_in_full() {
    assert_eq!(
        didl_lite_video("T", "u", "video/mp4"),
        "<DIDL-Lite xmlns=\"urn:schemas-upnp-org:metadata-1-0/DIDL-Lite/\" \
         xmlns:dc=\"http://purl.org/dc/elements/1.1/\" \
         xmlns:upnp=\"urn:schemas-upnp-org:metadata-1-0/upnp/\">\
         <item id=\"0\" parentID=\"-1\" restricted=\"1\">\
         <dc:title>T</dc:title>\
         <upnp:class>object.item.videoItem</upnp:class>\
         <res protocolInfo=\"http-get:*:video/mp4:DLNA.ORG_OP=01;DLNA.ORG_CI=0;\
         DLNA.ORG_FLAGS=01700000000000000000000000000000\">u</res>\
         </item></DIDL-Lite>"
    );
    assert!(didl_lite_live_video("T", "u", "video/mp2t").contains(
        "http-get:*:video/mp2t:DLNA.ORG_OP=00;DLNA.ORG_CI=0;\
         DLNA.ORG_FLAGS=0D500000000000000000000000000000"
    ));
}

#[test]
fn set_av_transport_uri_contains_uri_and_metadata() {
    let didl = didl_lite_video("Clip", "http://h/v.mp4", "video/mp4");
    let body = build_set_av_transport_uri("http://h/v.mp4", &didl);
    assert!(body.contains("SetAVTransportURI"));
    assert!(body.contains(AV_TRANSPORT));
    assert!(body.contains("<CurrentURI>http://h/v.mp4</CurrentURI>"));
    // DIDL is nested, so its angle brackets must be escaped inside the envelope.
    assert!(body.contains("&lt;DIDL-Lite"));
}

#[test]
fn play_and_stop_bodies_are_well_formed() {
    assert!(build_play().contains("<u:Play"));
    assert!(build_play().contains("<Speed>1</Speed>"));
    assert!(build_stop().contains("<u:Stop"));
}

#[test]
fn envelope_in_full() {
    assert_eq!(
        build_stop(),
        "<?xml version=\"1.0\" encoding=\"utf-8\"?>\
         <s:Envelope xmlns:s=\"http://schemas.xmlsoap.org/soap/envelope/\" \
         s:encodingStyle=\"http://schemas.xmlsoap.org/soap/encoding/\">\
         <s:Body><u:Stop xmlns:u=\"urn:schemas-upnp-org:service:AVTransport:1\">\
         <InstanceID>0</InstanceID></u:Stop></s:Body>\
         </s:Envelope>"
    );
}

#[test]
fn soap_action_header_format() {
    assert_eq!(
        soap_action_header("Play"),
        "\"urn:schemas-upnp-org:service:AVTransport:1#Play\""
    );
}

#[test]
fn soap_answers() {
    assert_eq!(
        soap_outcome("Play", 200, "200 OK", "done".into()).unwrap(),
        "done"
    );
    assert_eq!(
        soap_outcome("Play", 500, "500 Internal Server Error", "oops".into())
            .unwrap_err()
            .text(),
        "sink error: Play failed: HTTP 500 Internal Server Error: oops"
    );
    assert!(soap_outcome("Play", 199, "199", String::new()).is_err());
    assert!(soap_outcome("Play", 300, "300", String::new()).is_err());
}

fn answer(status: u16, status_line: &str, body: &str) -> HttpReply {
    HttpReply::Answer {
        status,
        status_line: status_line.into(),
        body: body.into(),
    }
}

#[test]
fn soap_replies() {
    assert_eq!(
        soap_result("Play", answer(204, "204 No Content", "")).unwrap(),
        ""
    );
    let cases = [
        (
            answer(404, "404 Not Found", "gone"),
            "sink error: Stop failed: HTTP 404 Not Found: gone",
        ),
        (
            HttpReply::Unreachable("refused".into()),
            "device unreachable: refused",
        ),
        (
            HttpReply::Unreadable("reset".into()),
            "sink error: reading SOAP response: reset",
        ),
        (HttpReply::NoClient("no roots".into()), "sink error: no roots"),
    ];
    for (reply, text) in cases {
        assert_eq!(soap_result("Stop", reply).unwrap_err().text(), text);
    }
}

#[test]
fn description_replies() {
    // The document is taken whatever the status.
    assert_eq!(
        description_result(answer(500, "500 Internal Server Error", "<root/>")).unwrap(),
        "<root/>"
    );
    let cases = [
        (
            HttpReply::Unreachable("refused".into()),
            "device unreachable: refused",
        ),
        (
            HttpReply::Unreadable("reset".into()),
            "protocol error: reading description: reset",
        ),
        (HttpReply::NoClient("no roots".into()), "no roots"),
    ];
    for (reply, text) in cases {
        assert_eq!(description_result(reply).unwrap_err().text(), text);
    }
}

#[test]
fn escaping_goes_piece_by_piece() {
    let (a, b) = ("a<b&", "\"c'>");
    let both = format!("{a}{b}");
    assert_eq!(
        xml_escape(&both),
        format!("{}{}", xml_escape(a), xml_escape(b))
    );
    let escaped = xml_escape("&&x&lt;");
    for (i, _) in escaped.match_indices('&') {
        assert!(escaped[i..].starts_with("&amp;"));
    }
}

#[test]
fn mime_for_url_uses_extension_ignoring_query() {
    assert_eq!(mime_for_url("http://h/v.mp4?token=1"), "video/mp4");
    assert_eq!(mime_for_url("http://h/a/b/clip.mkv"), "video/x-matroska");
    assert_eq!(mime_for_url("http://h/stream"), "application/octet-stream");
}

#[test]
fn mime_for_url_ignores_the_fragment() {
    assert_eq!(mime_for_url("http://h/v.webm#t=1?x.mp4"), "video/webm");
}

#[test]
fn resolve_control_url_from_description() {
    // A Samsung-like description gives an absolute AVTransport control URL resolved against
    // the description location.
    const DESC: &str = "<?xml version=\"1.0\"?>\
        <root xmlns=\"urn:schemas-upnp-org:device-1-0\"><device>\
        <friendlyName>TV</friendlyName>\
        <serviceList><service>\
        <serviceType>urn:schemas-upnp-org:service:AVTransport:1</serviceType>\
        <controlURL>/upnp/control/AVTransport1</controlURL>\
        </service></serviceList></device></root>";
    let port = 40_123;
    let location = format!("http://127.0.0.1:{port}/desc.xml");
    assert_eq!(
        document_control_url(&location, DESC).as_deref(),
        Some(format!("http://127.0.0.1:{port}/upnp/control/AVTransport1").as_str())
    );
    assert_eq!(document_control_url(&location, "<root/>"), None);
}
