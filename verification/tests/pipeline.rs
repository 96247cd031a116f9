use horizoncast::pipeline::clock::PtsClock;
use horizoncast::pipeline::error::Error;
use horizoncast::pipeline::session::ErrorReason;
use horizoncast::pipeline::session::Event;
use horizoncast::pipeline::session::SessionState;
use horizoncast::pipeline::time::Duration;
use horizoncast::pipeline::types::VideoCodec;
use horizoncast::pipeline::types::VideoConfig;

#[test]
fn first_sample_anchors_to_zero() {
    let mut clock = PtsClock::new();
    // First sample is PTS 0 regardless of its absolute time.
    assert_eq!(clock.pts(Duration::from_secs(5)), 0);
}

#[test]
fn ninety_khz_scale() {
    let mut clock = PtsClock::new();
    clock.pts(Duration::from_secs(10)); // anchor
    assert_eq!(clock.pts(Duration::from_secs(11)), 90_000); // +1s
    assert_eq!(clock.pts(Duration::from_millis(10_500)), 45_000); // +0.5s
    assert_eq!(clock.pts(Duration::from_secs(12)), 180_000); // +2s
}

#[test]
fn monotonic_nondecreasing_and_backwards_clamped() {
    let mut clock = PtsClock::new();
    clock.pts(Duration::from_secs(1));
    let a = clock.pts(Duration::from_secs(2));
    let b = clock.pts(Duration::from_secs(1)); // went backwards
    assert_eq!(a, 90_000);
    assert_eq!(
        b, 0,
        "a sample before the anchor clamps to 0, never underflows"
    );
}

#[test]
fn ticks_are_whole_and_held_within_64_bits() {
    let mut clock = PtsClock::default();
    assert_eq!(clock.pts(Duration::from_secs(0)), 0);
    assert_eq!(clock.pts(Duration::new(0, 11_111)), 0);
    assert_eq!(clock.pts(Duration::new(0, 11_112)), 1);
    assert_eq!(clock.pts(Duration::new(u64::MAX, 999_999_999)), u64::MAX);
}

#[test]
fn duration_arithmetic() {
    assert_eq!(Duration::from_millis(1_500).as_nanos(), 1_500_000_000);
    assert_eq!(Duration::from_millis(1_500), Duration::new(1, 500_000_000));
    let window = Duration::from_secs(3);
    assert_eq!(
        Duration::left(window, Duration::from_millis(500)),
        Some(Duration::from_millis(2_500))
    );
    assert_eq!(Duration::left(window, window), None);
    assert_eq!(Duration::left(window, Duration::from_secs(4)), None);
}

fn drive(start: SessionState, events: &[Event]) -> Option<SessionState> {
    let mut state = start;
    for ev in events {
        state = state.next(ev)?;
    }
    Some(state)
}

#[test]
fn happy_path_reaches_streaming() {
    let end = drive(
        SessionState::Idle,
        &[
            Event::StartDiscovery,
            Event::DeviceChosen,
            Event::BeginNegotiate,
            Event::CapsNegotiated,
            Event::Connected,
        ],
    );
    assert_eq!(end, Some(SessionState::Streaming));
}

#[test]
fn congestion_round_trip() {
    assert_eq!(
        SessionState::Streaming.next(&Event::Congested),
        Some(SessionState::Degraded)
    );
    assert_eq!(
        SessionState::Degraded.next(&Event::Recovered),
        Some(SessionState::Streaming)
    );
}

#[test]
fn reconnect_path() {
    assert_eq!(
        SessionState::Streaming.next(&Event::ConnectionLost),
        Some(SessionState::Reconnecting)
    );
    assert_eq!(
        SessionState::Reconnecting.next(&Event::Connected),
        Some(SessionState::Streaming)
    );
}

#[test]
fn invalid_transition_is_none() {
    assert!(SessionState::Idle.next(&Event::Connected).is_none());
    assert!(SessionState::Idle.next(&Event::Stop).is_none());
}

#[test]
fn failure_from_any_active_state() {
    assert_eq!(
        SessionState::Streaming.next(&Event::Failed(ErrorReason::DeviceUnreachable)),
        Some(SessionState::Error(ErrorReason::DeviceUnreachable))
    );
}

#[test]
fn idle_session_cannot_fail() {
    for reason in [
        ErrorReason::PermissionDenied,
        ErrorReason::DeviceUnreachable,
        ErrorReason::ProtocolFailed,
        ErrorReason::NetworkChanged,
    ] {
        assert_eq!(SessionState::Idle.next(&Event::Failed(reason)), None);
        assert_eq!(
            SessionState::Discovering.next(&Event::Failed(reason)),
            Some(SessionState::Error(reason))
        );
    }
}

#[test]
fn every_active_session_can_stop() {
    let active = [
        SessionState::Discovering,
        SessionState::DeviceSelected,
        SessionState::Negotiating,
        SessionState::Connecting,
        SessionState::Streaming,
        SessionState::Degraded,
        SessionState::Reconnecting,
        SessionState::Stopping,
        SessionState::Error(ErrorReason::NetworkChanged),
    ];
    for state in active {
        assert_eq!(
            drive(state, &[Event::Stop, Event::Stopped]),
            Some(SessionState::Idle)
        );
    }
    assert!(SessionState::Error(ErrorReason::ProtocolFailed)
        .next(&Event::Connected)
        .is_none());
    assert!(SessionState::Degraded.next(&Event::Congested).is_none());
}

#[test]
fn error_texts() {
    let cases = [
        (Error::Capture("x".into()), "capture error: x"),
        (Error::Encode("x".into()), "encode error: x"),
        (Error::Sink("x".into()), "sink error: x"),
        (Error::Discovery("x".into()), "discovery error: x"),
        (Error::PermissionDenied("x".into()), "permission denied: x"),
        (Error::DeviceUnreachable("x".into()), "device unreachable: x"),
        (Error::Protocol("x".into()), "protocol error: x"),
        (Error::Unsupported("x".into()), "not supported: x"),
        (Error::Other("x".into()), "x"),
    ];
    for (error, text) in cases {
        assert_eq!(error.text(), text);
    }
}

#[test]
fn default_video_config() {
    let c = VideoConfig::default();
    assert_eq!((c.width, c.height, c.fps), (1920, 1080, 60));
    assert_eq!(c.bitrate_kbps, 20_000);
    assert_eq!(c.codec, VideoCodec::H264);
}
