use horizoncast::net::media_server::content_type_for;
use horizoncast::net::media_server::media_reply;
use horizoncast::net::media_server::media_url;
use horizoncast::net::media_server::MediaBody;
use horizoncast::net::live_stream::live_url;
use horizoncast::net::mpegts::MpegTsMuxer;
use horizoncast::net::upnp::build_play;
use horizoncast::net::upnp::build_stop;
use horizoncast::pipeline::address::IpAddr;
use horizoncast::pipeline::address::Ipv4Addr;
use horizoncast::pipeline::error::Error;
use horizoncast::sink::dlna::SoapCall;
use horizoncast::sink::dlna::LIVE_EXTENSION;
use horizoncast::sink::flow::CastEvent;
use horizoncast::sink::flow::CastFlow;
use horizoncast::sink::flow::CastSource;
use horizoncast::sink::flow::CastStep;

fn posted(step: CastStep) -> SoapCall {
    match step {
        CastStep::Post(call) => call,
        other => panic!("expected a call, not {other:?}"),
    }
}

fn between<'a>(s: &'a str, start: &str, end: &str) -> Option<&'a str> {
    let i = s.find(start)? + start.len();
    let j = s[i..].find(end)? + i;
    Some(&s[i..j])
}

fn current_uri(call: &SoapCall) -> Option<&str> {
    between(&call.body, "<CurrentURI>", "</CurrentURI>")
}

fn file_source() -> CastSource {
    CastSource::File {
        title: "Clip".into(),
        mime: "video/mp4".into(),
    }
}

#[test]
fn cast_file_drives_renderer_and_serves_media() {
    // The renderer is (1) told to load our media URL, (2) told to play, (3) served the whole
    // file at that URL, and (4) told to stop on teardown.
    let data: Vec<u8> = (0u32..3000).map(|i| (i % 256) as u8).collect();
    let path = "hc_cast_integration.mp4";
    let local = IpAddr::V4(Ipv4Addr::new(127, 0, 0, 1));

    let (mut flow, step) = CastFlow::new(CastSource::File {
        title: "Clip".into(),
        mime: content_type_for(path).into(),
    });
    assert!(matches!(step, CastStep::StartServer));
    let media = media_url(&local, 8123, Some("mp4"));

    let load = posted(flow.next(CastEvent::ServerStarted(media.clone())));
    assert!(
        load.action.contains("SetAVTransportURI"),
        "renderer must receive SetAVTransportURI"
    );
    assert_eq!(
        current_uri(&load),
        Some(media.as_str()),
        "renderer must be pointed at our media server URL"
    );
    let play = posted(flow.next(CastEvent::Answered));
    assert!(play.action.contains("Play"), "renderer must receive Play");
    assert_eq!(play.body, build_play());
    assert!(matches!(flow.next(CastEvent::Answered), CastStep::Playing));

    let reply = media_reply(None, false, false, "video/mp4", data.len() as u64);
    assert_eq!(
        (reply.status, reply.body),
        (200, MediaBody::Whole),
        "served bytes must match the file"
    );

    let stop = posted(flow.next(CastEvent::StopRequested));
    assert!(
        stop.action.contains("Stop"),
        "renderer must receive Stop on teardown"
    );
    assert_eq!(stop.body, build_stop());
    assert!(matches!(
        flow.next(CastEvent::Answered),
        CastStep::StopServer(None)
    ));
}

#[test]
fn cast_url_points_renderer_at_external_url_without_a_server() {
    // No media server is started; the renderer is simply pointed at the given URL.
    let ext = "http://example.test/path/video.mp4?token=abc";
    let (mut flow, step) = CastFlow::new(CastSource::Link {
        url: ext.into(),
        title: "Clip".into(),
    });
    let load = posted(step);
    assert_eq!(current_uri(&load), Some(ext));
    assert!(load.action.contains("SetAVTransportURI"));
    assert!(load.body.contains("http-get:*:video/mp4:DLNA.ORG_OP=01"));
    let play = posted(flow.next(CastEvent::Answered));
    assert!(play.action.contains("Play"));
    assert!(matches!(flow.next(CastEvent::Answered), CastStep::Playing));

    let stop = posted(flow.next(CastEvent::StopRequested));
    assert!(stop.action.contains("Stop"));
    assert!(matches!(
        flow.next(CastEvent::Answered),
        CastStep::Finish(None)
    ));
}

#[test]
fn live_mirror_issues_control_and_accepts_access_units() {
    // The renderer is pointed at the live-stream URL (SetAVTransportURI + Play), access units
    // are muxed, and the renderer is told to stop on teardown.
    let local = IpAddr::V4(Ipv4Addr::new(127, 0, 0, 1));
    let (mut flow, step) = CastFlow::new(CastSource::Live {
        title: "Screen".into(),
    });
    assert!(matches!(step, CastStep::StartServer));
    let url = live_url(&local, 8124, LIVE_EXTENSION);
    assert!(url.ends_with("/live.ts"));
    let load = posted(flow.next(CastEvent::ServerStarted(url.clone())));
    assert!(load.action.contains("SetAVTransportURI"));
    assert_eq!(current_uri(&load), Some(url.as_str()));
    assert!(load.body.contains("DLNA.ORG_OP=00"));
    assert!(posted(flow.next(CastEvent::Answered)).action.contains("Play"));
    assert!(matches!(flow.next(CastEvent::Answered), CastStep::Playing));

    let mut muxer = MpegTsMuxer::new();
    let first = muxer.push_access_unit(&[0, 0, 0, 1, 0x65, 1, 2, 3], 0, true);
    let second = muxer.push_access_unit(&[0, 0, 0, 1, 0x41, 4, 5, 6], 3000, false);
    assert_eq!((first.len(), second.len()), (3 * 188, 188));

    assert!(posted(flow.next(CastEvent::StopRequested))
        .action
        .contains("Stop"));
    assert!(matches!(
        flow.next(CastEvent::Answered),
        CastStep::StopServer(None)
    ));
}

#[test]
fn cast_file_errors_when_media_missing() {
    // No SOAP is attempted because the media server refuses to start.
    let missing = "hc_definitely_missing_media.mp4";
    let (mut flow, _) = CastFlow::new(CastSource::File {
        title: "Test".into(),
        mime: content_type_for(missing).into(),
    });
    let cause = Error::Sink(format!("media file not found: {missing}"));
    match flow.next(CastEvent::ServerFailed(cause)) {
        CastStep::Finish(Some(e)) => assert_eq!(
            e.text(),
            format!("sink error: media file not found: {missing}")
        ),
        other => panic!("missing media file must fail fast, not {other:?}"),
    }
    assert!(matches!(flow.next(CastEvent::Answered), CastStep::Nothing));
}

#[test]
fn failed_calls_stop_the_server() {
    // Loading fails: the renderer is never told to play.
    let (mut flow, _) = CastFlow::new(file_source());
    flow.next(CastEvent::ServerStarted("http://a/media.mp4".into()));
    match flow.next(CastEvent::CallFailed(Error::Sink("no".into()))) {
        CastStep::StopServer(Some(e)) => assert_eq!(e.text(), "sink error: no"),
        other => panic!("{other:?}"),
    }
    assert!(matches!(flow.next(CastEvent::Answered), CastStep::Nothing));

    // Playing fails.
    let (mut flow, _) = CastFlow::new(file_source());
    flow.next(CastEvent::ServerStarted("http://a/media.mp4".into()));
    flow.next(CastEvent::Answered);
    assert!(matches!(
        flow.next(CastEvent::CallFailed(Error::Sink("no".into()))),
        CastStep::StopServer(Some(_))
    ));

    // Stopping fails: the server is stopped all the same.
    let (mut flow, _) = CastFlow::new(file_source());
    flow.next(CastEvent::ServerStarted("http://a/media.mp4".into()));
    flow.next(CastEvent::Answered);
    flow.next(CastEvent::Answered);
    flow.next(CastEvent::StopRequested);
    assert!(matches!(
        flow.next(CastEvent::CallFailed(Error::DeviceUnreachable("off".into()))),
        CastStep::StopServer(Some(_))
    ));
}

#[test]
fn failed_link_has_no_server_to_stop() {
    let (mut flow, _) = CastFlow::new(CastSource::Link {
        url: "http://a/b.mp4".into(),
        title: "b".into(),
    });
    assert!(matches!(
        flow.next(CastEvent::CallFailed(Error::Sink("no".into()))),
        CastStep::Finish(Some(_))
    ));
}
