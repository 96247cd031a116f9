use horizoncast::discovery::ssdp::SEARCH_REPEATS;
use horizoncast::discovery::search::SearchCourse;
use horizoncast::discovery::search::SearchEvent;
use horizoncast::discovery::search::SearchStep;
use horizoncast::discovery::mdns::instance_label;
use horizoncast::discovery::mdns::observe_service;
use horizoncast::discovery::registry::DeviceRegistry;
use horizoncast::discovery::ssdp::is_media_renderer;
use horizoncast::discovery::ssdp::msearch_packet;
use horizoncast::discovery::ssdp::observe_document;
use horizoncast::discovery::ssdp::parse_ssdp_response;
use horizoncast::discovery::ssdp::port_from_location;
use horizoncast::discovery::ssdp::SsdpResponse;
use horizoncast::discovery::ssdp::SsdpSearch;
use horizoncast::pipeline::address::IpAddr;
use horizoncast::pipeline::address::Ipv4Addr;
use horizoncast::pipeline::time::Duration;
use horizoncast::pipeline::types::Protocol;

const SAMSUNG_RESPONSE: &str = "HTTP/1.1 200 OK\r\n\
    CACHE-CONTROL: max-age=1800\r\n\
    LOCATION: http://192.168.1.50:9197/dmr/SamsungMRDesc.xml\r\n\
    SERVER: SHP, UPnP/1.0, Samsung UPnP SDK/1.0\r\n\
    ST: urn:schemas-upnp-org:device:MediaRenderer:1\r\n\
    USN: uuid:abcd-1234::urn:schemas-upnp-org:device:MediaRenderer:1\r\n\
    \r\n";

fn ip(d: u8) -> IpAddr {
    IpAddr::V4(Ipv4Addr::new(192, 168, 1, d))
}

#[test]
fn parses_core_headers_case_insensitively() {
    let resp = parse_ssdp_response(SAMSUNG_RESPONSE);
    assert_eq!(
        resp.location.as_deref(),
        Some("http://192.168.1.50:9197/dmr/SamsungMRDesc.xml")
    );
    assert!(resp.usn.as_deref().unwrap().contains("uuid:abcd-1234"));
    assert!(resp.server.as_deref().unwrap().contains("Samsung"));
    assert!(resp.st.as_deref().unwrap().contains("MediaRenderer"));
}

#[test]
fn lowercase_header_keys_still_parse() {
    let raw = "location: http://10.0.0.2:80/d.xml\r\nst: upnp:rootdevice\r\n";
    let resp = parse_ssdp_response(raw);
    assert_eq!(resp.location.as_deref(), Some("http://10.0.0.2:80/d.xml"));
    assert_eq!(resp.st.as_deref(), Some("upnp:rootdevice"));
}

#[test]
fn identifies_media_renderer() {
    assert!(is_media_renderer(&parse_ssdp_response(SAMSUNG_RESPONSE)));
}

#[test]
fn rejects_non_media_renderer() {
    let raw = "ST: upnp:rootdevice\r\nUSN: uuid:x::upnp:rootdevice\r\n";
    assert!(!is_media_renderer(&parse_ssdp_response(raw)));
}

#[test]
fn renderer_may_be_named_by_its_usn_in_any_case() {
    assert!(is_media_renderer(&parse_ssdp_response(
        "USN: uuid:x::MEDIARENDERER"
    )));
    assert!(!is_media_renderer(&SsdpResponse::default()));
}

#[test]
fn extracts_port_from_location() {
    assert_eq!(
        port_from_location("http://192.168.1.50:9197/dmr/desc.xml"),
        Some(9197)
    );
    assert_eq!(port_from_location("http://10.0.0.2:80/d.xml"), Some(80));
}

#[test]
fn port_absent_or_malformed_is_none() {
    assert_eq!(port_from_location("http://192.168.1.50/desc.xml"), None);
    assert_eq!(port_from_location("not a url"), None);
}

#[test]
fn ipv6_authority_takes_last_colon_as_port() {
    assert_eq!(
        port_from_location("http://[fe80::1]:9197/d.xml"),
        Some(9197)
    );
}

#[test]
fn port_edges() {
    assert_eq!(port_from_location("http://h:65535"), Some(65_535));
    assert_eq!(port_from_location("http://h:65536/"), None);
    assert_eq!(port_from_location("http://h:/"), None);
    assert_eq!(port_from_location("http://a://b:5/"), None);
}

#[test]
fn malformed_lines_are_ignored() {
    let resp = parse_ssdp_response("garbage line without colon\r\nLOCATION: http://x/y\r\n");
    assert_eq!(resp.location.as_deref(), Some("http://x/y"));
}

#[test]
fn last_header_with_a_value_wins() {
    let resp = parse_ssdp_response("NT: a\nST: b\nST:\nUSN : u\r\n");
    assert_eq!(resp.st.as_deref(), Some("b"));
    assert_eq!(resp.usn.as_deref(), Some("u"));
    assert_eq!(resp.server, None);
}

#[test]
fn search_packet_in_full() {
    assert_eq!(
        msearch_packet(),
        "M-SEARCH * HTTP/1.1\r\n\
         HOST: 239.255.255.250:1900\r\n\
         MAN: \"ssdp:discover\"\r\n\
         MX: 2\r\n\
         ST: urn:schemas-upnp-org:device:MediaRenderer:1\r\n\
         \r\n"
    );
}

#[test]
fn search_collects_renderers_once() {
    let mut search = SsdpSearch::new();
    let seen = search
        .datagram(SAMSUNG_RESPONSE.as_bytes(), ip(50))
        .unwrap();
    assert_eq!(seen.address, ip(50));
    assert_eq!(seen.port, 9197);
    assert_eq!(seen.protocol, Protocol::Dlna);
    assert_eq!(seen.name, None);
    assert_eq!(
        seen.stable_id.as_deref(),
        Some("uuid:abcd-1234::urn:schemas-upnp-org:device:MediaRenderer:1")
    );
    assert_eq!(
        seen.dlna_location.as_deref(),
        Some("http://192.168.1.50:9197/dmr/SamsungMRDesc.xml")
    );
    // A second answer from the same address is sighted, but its URL is not taken.
    let again = search.datagram(b"ST: MediaRenderer\r\nLOCATION: http://other/\r\n", ip(50));
    assert_eq!(again.unwrap().port, 0);
    // Not a renderer, and a renderer without a description.
    assert!(search.datagram(b"ST: upnp:rootdevice\r\n", ip(7)).is_none());
    assert!(search.datagram(b"ST: MediaRenderer\r\n", ip(8)).is_some());
    assert_eq!(
        search.locations(),
        vec![(
            ip(50),
            "http://192.168.1.50:9197/dmr/SamsungMRDesc.xml".to_string()
        )]
    );
}

#[test]
fn bytes_that_are_not_utf8_are_replaced() {
    let mut search = SsdpSearch::new();
    let seen = search
        .datagram(b"USN: MediaRenderer \xFF!\r\n", ip(1))
        .unwrap();
    assert_eq!(seen.stable_id.as_deref(), Some("MediaRenderer \u{FFFD}!"));
}

#[test]
fn description_adds_name_and_control_url() {
    let xml = "<root><friendlyName>TV</friendlyName><service>\
               <serviceType>AVTransport</serviceType><controlURL>ctl</controlURL>\
               </service></root>";
    let seen = observe_document(ip(3), "http://192.168.1.3:80/d.xml", xml).unwrap();
    assert_eq!(seen.name.as_deref(), Some("TV"));
    assert_eq!(seen.port, 0);
    assert_eq!(
        seen.dlna_control_url.as_deref(),
        Some("http://192.168.1.3:80/ctl")
    );
    assert_eq!(seen.stable_id, None);
    assert!(observe_document(ip(3), "http://192.168.1.3/d.xml", "<root/>").is_none());
}

#[test]
fn instance_label_strips_service_suffix() {
    assert_eq!(
        instance_label("Living Room._airplay._tcp.local.", "_airplay._tcp.local."),
        "Living Room"
    );
}

#[test]
fn instance_label_handles_name_with_dots() {
    assert_eq!(
        instance_label(
            "Sam's TV (Den)._airplay._tcp.local.",
            "_airplay._tcp.local."
        ),
        "Sam's TV (Den)"
    );
}

#[test]
fn instance_label_passthrough_when_suffix_absent() {
    assert_eq!(
        instance_label("WeirdName", "_airplay._tcp.local."),
        "WeirdName"
    );
}

#[test]
fn instance_label_drops_final_dots() {
    assert_eq!(instance_label("A.B...", "x"), "A.B");
    assert_eq!(instance_label("_airplay._tcp.local.", "_airplay._tcp.local."), "");
}

#[test]
fn resolved_service_is_seen_at_each_address() {
    let mut reg = DeviceRegistry::new(Duration::from_secs(15));
    observe_service(
        &mut reg,
        "Den._airplay._tcp.local.",
        7000,
        &vec![ip(9), ip(8)],
        Duration::from_secs(1),
    );
    assert_eq!(reg.len(), 2);
    let devices = reg.devices();
    assert_eq!(devices.len(), 1);
    assert_eq!(devices[0].name, "Den");
    assert_eq!(devices[0].id, "Den._airplay._tcp.local.");
    assert_eq!(devices[0].address, ip(8));
    assert_eq!(devices[0].port, 7000);
    assert_eq!(devices[0].protocols, vec![Protocol::AirPlayMirror]);
}

#[test]
fn search_sends_a_few_packets_and_then_listens() {
    let (mut course, step) = SearchCourse::new(Duration::from_secs(4));
    assert_eq!(step, SearchStep::Bind);
    let mut step = course.next(SearchEvent::Done, Duration::from_millis(0));
    for i in 1..=u64::from(SEARCH_REPEATS) {
        assert_eq!(step, SearchStep::Send);
        assert_eq!(
            course.next(SearchEvent::Done, Duration::from_millis(i * 100)),
            SearchStep::Pause
        );
        step = course.next(SearchEvent::Done, Duration::from_millis(i * 100));
    }
    assert_eq!(step, SearchStep::Receive(Duration::from_millis(3700)));
    // An answer came; there is time for more.
    assert_eq!(
        course.next(SearchEvent::Done, Duration::from_millis(3999)),
        SearchStep::Receive(Duration::from_millis(1))
    );
    // Another came just as the window was over.
    assert_eq!(
        course.next(SearchEvent::Done, Duration::from_secs(4)),
        SearchStep::Enrich
    );
    assert_eq!(
        course.next(SearchEvent::Done, Duration::from_secs(5)),
        SearchStep::End
    );
}

#[test]
fn search_goes_on_after_a_failed_send() {
    let (mut course, _) = SearchCourse::new(Duration::from_secs(1));
    assert_eq!(
        course.next(SearchEvent::Done, Duration::from_secs(0)),
        SearchStep::Send
    );
    assert_eq!(
        course.next(SearchEvent::Failed, Duration::from_secs(0)),
        SearchStep::Receive(Duration::from_secs(1))
    );
    assert_eq!(
        course.next(SearchEvent::Failed, Duration::from_millis(10)),
        SearchStep::Enrich
    );
}

#[test]
fn search_without_a_socket_ends() {
    let (mut course, _) = SearchCourse::new(Duration::from_secs(1));
    assert_eq!(
        course.next(SearchEvent::Failed, Duration::from_secs(0)),
        SearchStep::End
    );
}
