use horizoncast::capture::frame::Nv12Planes;
use horizoncast::encode::annexb::avcc_nal_types;
use horizoncast::encode::annexb::cmtime_to_90k;
use horizoncast::encode::annexb::sample_to_encoded;
use horizoncast::encode::encoder::EncodedFrame;
use horizoncast::encode::encoder::EncoderConfig;
use horizoncast::encode::encoder::H264Encoder;
use horizoncast::encode::media_foundation::is_clean_point;
use horizoncast::encode::media_foundation::mf_settings;
use horizoncast::encode::media_foundation::output_buffer_size;
use horizoncast::encode::media_foundation::pack_u64;
use horizoncast::encode::media_foundation::sample_pts;
use horizoncast::encode::media_foundation::time_100ns;
use horizoncast::encode::planes::contiguous_nv12;
use horizoncast::encode::planes::plane_copies;
use horizoncast::encode::planes::RowCopy;
use horizoncast::encode::video_toolbox::to_signed;
use horizoncast::encode::video_toolbox::vt_settings;

#[test]
fn encoded_frame_holds_data() {
    let f = EncodedFrame {
        data: vec![0, 0, 0, 1, 0x65],
        pts: 90_000,
        keyframe: true,
    };
    assert!(f.keyframe);
    assert_eq!(f.pts, 90_000);
}

#[test]
fn default_config_is_low_latency_1080p60() {
    let c = EncoderConfig::default();
    assert_eq!((c.width, c.height, c.fps), (1920, 1080, 60));
    assert!(c.keyframe_interval > 0);
}

#[test]
fn new_is_unsupported_without_a_backend() {
    assert!(
        H264Encoder::new(EncoderConfig::default()).is_err(),
        "platforms without an encoder backend report it unsupported"
    );
}

#[test]
fn unsupported_encoder_says_so() {
    let text = match H264Encoder::new(EncoderConfig::default()) {
        Ok(_) => String::new(),
        Err(e) => e.text(),
    };
    assert_eq!(
        text,
        "not supported: no H.264 encoding backend is built for this platform"
    );
}

#[test]
fn mirror_config_has_a_keyframe_every_two_seconds() {
    let c = EncoderConfig::for_mirror(1280, 720, 30, 8000);
    assert_eq!((c.width, c.height, c.fps, c.bitrate_kbps), (1280, 720, 30, 8000));
    assert_eq!(c.keyframe_interval, 60);
    assert_eq!(EncoderConfig::for_mirror(1, 1, 0, 1).keyframe_interval, 1);
    assert_eq!(
        EncoderConfig::for_mirror(1, 1, u32::MAX, 1).keyframe_interval,
        u32::MAX
    );
}

#[test]
fn nal_types_are_listed() {
    let avcc = [0, 0, 0, 2, 0x67, 1, 0, 0, 0, 1, 0x65, 0, 0, 0, 9, 0x41];
    assert_eq!(avcc_nal_types(&avcc), vec![7, 5, 1]);
    assert!(avcc_nal_types(&[0, 0, 0]).is_empty());
    assert!(avcc_nal_types(&[0, 0, 0, 5]).is_empty());
    assert_eq!(avcc_nal_types(&[0xFF, 0xFF, 0xFF, 0xFF, 0x06]), vec![6]);
    // A unit without a byte: the type is that of what stands after its length.
    assert_eq!(avcc_nal_types(&[0, 0, 0, 0, 0, 0, 0, 1, 0x65]), vec![0, 5]);
}

#[test]
fn keyframe_sample_gets_parameter_sets() {
    let avcc = [0, 0, 0, 2, 0x65, 0xAA, 0, 0, 0, 1, 0x06];
    let sets = vec![vec![0x67, 1], vec![0x68]];
    let f = sample_to_encoded(&avcc, &sets, 2, 1);
    assert!(f.keyframe);
    assert_eq!(f.pts, 180_000);
    assert_eq!(
        f.data,
        vec![
            0, 0, 0, 1, 0x67, 1, 0, 0, 0, 1, 0x68, 0, 0, 0, 1, 0x65, 0xAA, 0, 0, 0, 1, 0x06
        ]
    );
}

#[test]
fn other_sample_gets_none_and_stops_at_a_cut_unit() {
    let avcc = [0, 0, 0, 1, 0x41, 0, 0, 0, 3, 0x01, 0x02];
    let f = sample_to_encoded(&avcc, &vec![vec![0x67]], 1, 30);
    assert!(!f.keyframe);
    assert_eq!(f.pts, 3000);
    assert_eq!(f.data, vec![0, 0, 0, 1, 0x41]);
}

#[test]
fn media_times_become_ticks() {
    assert_eq!(cmtime_to_90k(1, 3), 30_000);
    assert_eq!(cmtime_to_90k(1, 90_001), 0);
    assert_eq!(cmtime_to_90k(5, 0), 0);
    assert_eq!(cmtime_to_90k(5, -1), 0);
    assert_eq!(cmtime_to_90k(-5, 1), 0);
    assert_eq!(cmtime_to_90k(i64::MAX, 1), 0, "past 64 bits");
    assert_eq!(cmtime_to_90k(i64::MAX, 90_000), i64::MAX as u64);
}

#[test]
fn media_foundation_settings() {
    assert_eq!(pack_u64(1920, 1080), (1920u64 << 32) | 1080);
    let s = mf_settings(&EncoderConfig::for_mirror(1920, 1080, 30, 8000));
    assert_eq!(s.avg_bitrate, 8_000_000);
    assert_eq!(s.frame_size, pack_u64(1920, 1080));
    assert_eq!(s.frame_rate, pack_u64(30, 1));
    assert_eq!(s.pixel_aspect_ratio, pack_u64(1, 1));
    assert_eq!(s.frame_duration_100ns, 333_333);
    assert_eq!(s.gop_size, 60);
    let s = mf_settings(&EncoderConfig::for_mirror(2, 2, 0, u32::MAX));
    assert_eq!(s.avg_bitrate, u32::MAX);
    assert_eq!(s.frame_duration_100ns, 10_000_000);
    assert_eq!(output_buffer_size(10, 4, 4), 16);
    assert_eq!(output_buffer_size(17, 4, 4), 17);
}

#[test]
fn video_toolbox_settings() {
    let s = vt_settings(&EncoderConfig::for_mirror(1920, 1080, 60, 12_000));
    assert_eq!((s.width, s.height), (1920, 1080));
    assert!(s.real_time && !s.allow_frame_reordering);
    assert_eq!(s.average_bit_rate, 12_000_000);
    assert_eq!(s.max_key_frame_interval, 120);
    assert_eq!(to_signed(u32::MAX), -1);
    assert_eq!(to_signed(0x8000_0000), i32::MIN);
    assert_eq!(to_signed(0x7FFF_FFFF), i32::MAX);
}

#[test]
fn sample_times() {
    assert_eq!(time_100ns(90_000), 10_000_000);
    assert_eq!(time_100ns(1), 111);
    let wide = i64::MAX as u64;
    for pts in [0, 9, 12_345, wide, wide + 1, u64::MAX, u64::MAX - 9] {
        assert_eq!(time_100ns(pts), (pts as i64).saturating_mul(1000) / 9);
    }
    assert_eq!(sample_pts(Some(10_000_000)), 90_000);
    assert_eq!(sample_pts(Some(-1)), 0);
    assert_eq!(sample_pts(None), 0);
    assert_eq!(sample_pts(Some(i64::MAX)), (i64::MAX as u64).saturating_mul(9) / 1000);
}

#[test]
fn timestamps_survive_the_encoder_clock() {
    for pts in 0..2_000u64 {
        let back = sample_pts(Some(time_100ns(pts)));
        assert!(back == pts || back + 1 == pts);
    }
}

#[test]
fn clean_points() {
    assert!(is_clean_point(Some(1)));
    assert!(!is_clean_point(Some(0)));
    assert!(!is_clean_point(None));
}

#[test]
fn planes_are_tightened() {
    let planes = Nv12Planes {
        y: vec![1, 2, 99, 3, 4, 99],
        y_stride: 3,
        uv: vec![5, 6, 98, 98],
        uv_stride: 4,
    };
    assert_eq!(contiguous_nv12(&planes, 2, 2), vec![1, 2, 3, 4, 5, 6]);
}

#[test]
fn rows_are_copied_where_they_fit() {
    assert_eq!(
        plane_copies(10, 4, 8, 3, 3),
        vec![
            RowCopy { from: 0, to: 0, len: 3 },
            RowCopy { from: 4, to: 8, len: 3 },
        ]
    );
    assert_eq!(
        plane_copies(100, 16, 4, 8, 1),
        vec![RowCopy { from: 0, to: 0, len: 4 }]
    );
}
