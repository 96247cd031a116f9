use horizoncast::cast::choices::average_fps;
use horizoncast::cast::choices::bitrate_for;
use horizoncast::cast::choices::fps_for;
use horizoncast::cast::choices::mirroring_text;
use horizoncast::cast::labels::device_kind;
use horizoncast::cast::labels::device_lines;
use horizoncast::cast::labels::protocol_label;
use horizoncast::cast::pump::MirrorPump;
use horizoncast::cast::pump::PumpEvent;
use horizoncast::cast::pump::PumpStep;
use horizoncast::cast::request::cast_request;
use horizoncast::cast::request::check_media;
use horizoncast::cast::request::device_not_found;
use horizoncast::cast::request::entered_url;
use horizoncast::cast::request::file_title;
use horizoncast::cast::request::media_title;
use horizoncast::cast::request::no_cast_endpoint;
use horizoncast::cast::request::no_mirror_endpoint;
use horizoncast::cast::request::CastRequest;
use horizoncast::cast::target::control_endpoint;
use horizoncast::cast::target::find_by_id;
use horizoncast::cast::target::find_device;
use horizoncast::cast::target::selected_device;
use horizoncast::cast::target::ControlEndpoint;
use horizoncast::encode::encoder::EncoderConfig;
use horizoncast::pipeline::address::IpAddr;
use horizoncast::pipeline::address::Ipv4Addr;
use horizoncast::pipeline::time::Duration;
use horizoncast::pipeline::types::Device;
use horizoncast::pipeline::types::Protocol;

fn device(d: u8, id: &str, name: &str, protocols: Vec<Protocol>) -> Device {
    Device {
        id: id.to_string(),
        name: name.to_string(),
        address: IpAddr::V4(Ipv4Addr::new(10, 0, 0, d)),
        port: 7000,
        protocols,
        dlna_control_url: None,
        dlna_location: None,
    }
}

#[test]
fn devices_are_listed() {
    assert_eq!(
        device_lines(&vec![]),
        vec!["No cast devices found on the local network.".to_string()]
    );
    let list = vec![
        device(1, "a", "Den", vec![Protocol::AirPlayMirror, Protocol::Dlna]),
        device(2, "b", "Attic", vec![]),
    ];
    assert_eq!(
        device_lines(&list),
        vec![
            "Found 2 device(s):".to_string(),
            "  • Den  —  10.0.0.1:7000  [AirPlay (mirror), DLNA]".to_string(),
            "  • Attic  —  10.0.0.2:7000  []".to_string(),
        ]
    );
}

#[test]
fn protocol_labels() {
    assert_eq!(protocol_label(Protocol::AirPlayMirror), "AirPlay (mirror)");
    assert_eq!(protocol_label(Protocol::AirPlayVideo), "AirPlay (video)");
    assert_eq!(protocol_label(Protocol::Dlna), "DLNA");
    assert_eq!(protocol_label(Protocol::Miracast), "Miracast");
    assert_eq!(protocol_label(Protocol::Cast), "Cast");
    assert_eq!(device_kind(&device(1, "", "", vec![])), "Unknown");
    assert_eq!(
        device_kind(&device(1, "", "", vec![Protocol::AirPlayVideo, Protocol::Dlna])),
        "AirPlay"
    );
    assert_eq!(device_kind(&device(1, "", "", vec![Protocol::Dlna])), "DLNA");
}

#[test]
fn devices_are_found_by_id_address_or_name() {
    let list = vec![
        device(1, "id-1", "Living Room", vec![]),
        device(2, "id-2", "DEN", vec![]),
        device(3, "id-3", "den", vec![]),
    ];
    assert_eq!(find_device(&list, "id-2").unwrap().id, "id-2");
    assert_eq!(find_device(&list, "10.0.0.3").unwrap().id, "id-3");
    assert_eq!(find_device(&list, "Den").unwrap().id, "id-2");
    assert_eq!(find_device(&list, "living room").unwrap().id, "id-1");
    assert!(find_device(&list, "ID-1").is_none());
    assert_eq!(find_by_id(&list, "id-3").unwrap().name, "den");
    assert!(find_by_id(&list, "den").is_none());
    assert_eq!(selected_device(&list, 1).unwrap().id, "id-2");
    assert!(selected_device(&list, -1).is_none());
    assert!(selected_device(&list, 3).is_none());
}

#[test]
fn control_endpoints() {
    let mut d = device(1, "", "", vec![]);
    assert_eq!(control_endpoint(&d), ControlEndpoint::Missing);
    d.dlna_location = Some("http://l".into());
    assert_eq!(
        control_endpoint(&d),
        ControlEndpoint::Describe("http://l".into())
    );
    d.dlna_control_url = Some("http://c".into());
    assert_eq!(control_endpoint(&d), ControlEndpoint::Known("http://c".into()));
}

#[test]
fn titles() {
    assert_eq!(media_title("/home/u/My Clip.final.mp4"), "My Clip.final");
    assert_eq!(media_title("C:\\videos\\clip.mkv"), "clip");
    assert_eq!(media_title("http://h/a/v.mp4?x=/y.z#q"), "v");
    assert_eq!(media_title("noext"), "noext");
    assert_eq!(media_title(".mp4"), "HorizonCast");
    assert_eq!(media_title("http://h/dir/"), "HorizonCast");
    assert_eq!(media_title(""), "HorizonCast");
}

#[test]
fn requests() {
    assert_eq!(
        check_media("/no/file", false).as_deref(),
        Some("media not found (expected a local file path or an http(s) URL): /no/file")
    );
    assert_eq!(check_media("/a/file", true), None);
    assert_eq!(check_media("https://h/v", false), None);
    let a = IpAddr::V4(Ipv4Addr::new(10, 0, 0, 1));
    assert_eq!(
        cast_request("http://h/v.mp4", a, "http://c"),
        CastRequest::Url {
            control_url: "http://c".into(),
            url: "http://h/v.mp4".into(),
            title: "v".into(),
        }
    );
    assert_eq!(
        cast_request("/x/v.mp4", a, "http://c"),
        CastRequest::File {
            control_url: "http://c".into(),
            address: a,
            path: "/x/v.mp4".into(),
            title: "v".into(),
        }
    );
}

#[test]
fn messages() {
    assert_eq!(
        device_not_found("TV"),
        "device 'TV' not found on the local network."
    );
    assert_eq!(
        no_cast_endpoint("TV"),
        "'TV' has no usable DLNA media endpoint (real-time mirroring is not implemented yet)."
    );
    assert_eq!(
        no_mirror_endpoint("TV"),
        "'TV' has no DLNA media endpoint to mirror to (AirPlay-only devices aren't supported)."
    );
    assert_eq!(mirroring_text("TV"), "TV · screen");
    assert_eq!(entered_url("  http://x \n").as_deref(), Some("http://x"));
    assert_eq!(entered_url(" \t "), None);
}

#[test]
fn settings() {
    assert_eq!(fps_for(1), 30);
    assert_eq!(fps_for(0), 60);
    assert_eq!(fps_for(7), 60);
    assert_eq!(bitrate_for(3), 45_000);
    assert_eq!(bitrate_for(2), 24_000);
    assert_eq!(bitrate_for(1), 12_000);
    assert_eq!(bitrate_for(0), 16_000);
    assert_eq!(bitrate_for(-4), 16_000);
    assert_eq!(average_fps(90, 3), 30);
    assert_eq!(average_fps(90, 0), 90);
}

fn frame(secs: u64) -> PumpEvent {
    PumpEvent::Frame {
        width: 640,
        height: 480,
        pts: Duration::from_secs(secs),
    }
}

#[test]
fn pump_encodes_until_capture_ends() {
    let (mut pump, step) = MirrorPump::new(30, 8000);
    assert_eq!(step, PumpStep::StartCapture);
    assert_eq!(pump.next(PumpEvent::Done), PumpStep::NextFrame);
    assert_eq!(
        pump.next(frame(5)),
        PumpStep::CreateEncoder(EncoderConfig::for_mirror(640, 480, 30, 8000))
    );
    assert_eq!(pump.next(PumpEvent::Done), PumpStep::Encode(0));
    assert_eq!(pump.next(PumpEvent::Done), PumpStep::NextFrame);
    assert_eq!(pump.next(frame(6)), PumpStep::Encode(90_000));
    assert_eq!(pump.next(PumpEvent::Done), PumpStep::NextFrame);
    assert_eq!(pump.next(PumpEvent::CaptureEnded), PumpStep::FinishAndStop);
    assert_eq!(pump.next(PumpEvent::Done), PumpStep::End);
}

#[test]
fn pump_ends_on_failures() {
    // Capture does not start: there is nothing to stop.
    let (mut pump, _) = MirrorPump::new(30, 1);
    assert_eq!(pump.next(PumpEvent::Failed), PumpStep::End);
    // No first frame.
    let (mut pump, _) = MirrorPump::new(30, 1);
    pump.next(PumpEvent::Done);
    assert_eq!(pump.next(PumpEvent::CaptureEnded), PumpStep::Stop);
    // No encoder.
    let (mut pump, _) = MirrorPump::new(30, 1);
    pump.next(PumpEvent::Done);
    pump.next(frame(0));
    assert_eq!(pump.next(PumpEvent::Failed), PumpStep::Stop);
    // Encoding fails.
    let (mut pump, _) = MirrorPump::new(30, 1);
    pump.next(PumpEvent::Done);
    pump.next(frame(0));
    pump.next(PumpEvent::Done);
    assert_eq!(pump.next(PumpEvent::Failed), PumpStep::FinishAndStop);
    // The receiver is gone.
    let (mut pump, _) = MirrorPump::new(30, 1);
    pump.next(PumpEvent::Done);
    pump.next(frame(0));
    pump.next(PumpEvent::Done);
    assert_eq!(pump.next(PumpEvent::ReceiverGone), PumpStep::Stop);
}

#[test]
fn file_titles() {
    for (path, title) in [
        ("/home/me/holiday.film.mp4", "holiday.film"),
        ("clip.mkv", "clip"),
        ("clip", "clip"),
        (".hidden", ".hidden"),
        (".hidden.mp4", ".hidden"),
        ("dir/clip.mp4/", "clip"),
        ("clip.", "clip"),
        ("..", "HorizonCast"),
        ("/", "HorizonCast"),
        ("", "HorizonCast"),
    ] {
        assert_eq!(file_title(path), title, "{path}");
    }
}
