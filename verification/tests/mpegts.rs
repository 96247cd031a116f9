use horizoncast::net::mpegts::build_pes;
use horizoncast::net::mpegts::crc32_mpeg;
use horizoncast::net::mpegts::encode_timestamp;
use horizoncast::net::mpegts::pat_section;
use horizoncast::net::mpegts::pmt_section;
use horizoncast::net::mpegts::MpegTsMuxer;
use horizoncast::net::mpegts::PID_AUDIO;
use horizoncast::net::mpegts::PID_PAT;
use horizoncast::net::mpegts::PID_PMT;
use horizoncast::net::mpegts::PID_VIDEO;
use horizoncast::net::mpegts::STREAM_ID_AUDIO;
use horizoncast::net::mpegts::STREAM_ID_VIDEO;
use horizoncast::net::mpegts::STREAM_TYPE_AAC;
use horizoncast::net::mpegts::STREAM_TYPE_H264;
use horizoncast::net::mpegts::SYNC_BYTE;
use horizoncast::net::mpegts::TS_PACKET_LEN;

fn pid_of(pkt: &[u8]) -> u16 {
    (u16::from(pkt[1] & 0x1F) << 8) | u16::from(pkt[2])
}

fn pusi(pkt: &[u8]) -> bool {
    pkt[1] & 0x40 != 0
}

fn payload_of(pkt: &[u8]) -> &[u8] {
    if pkt[3] & 0x20 != 0 {
        &pkt[5 + pkt[4] as usize..]
    } else {
        &pkt[4..]
    }
}

#[test]
fn crc32_mpeg_known_vector() {
    // CRC-32/MPEG-2 of "123456789" is 0x0376E6E7.
    assert_eq!(crc32_mpeg(b"123456789"), 0x0376_E6E7);
}

#[test]
fn timestamp_packs_and_unpacks() {
    let decode = |b: &[u8; 5]| -> u64 {
        (u64::from(b[0] >> 1 & 0x07) << 30)
            | (u64::from(b[1]) << 22)
            | (u64::from(b[2] >> 1 & 0x7F) << 15)
            | (u64::from(b[3]) << 7)
            | u64::from(b[4] >> 1 & 0x7F)
    };
    for &ts in &[0u64, 1, 90_000, 1_234_567, (1u64 << 33) - 1] {
        let enc = encode_timestamp(0b0010, ts);
        assert_eq!(enc[0] >> 4, 0b0010, "prefix preserved");
        assert_eq!(enc[0] & 1, 1);
        assert_eq!(enc[2] & 1, 1);
        assert_eq!(enc[4] & 1, 1);
        assert_eq!(decode(&enc), ts);
    }
}

#[test]
fn timestamp_keeps_33_bits() {
    assert_eq!(encode_timestamp(2, 1 << 33), encode_timestamp(2, 0));
    assert_eq!(encode_timestamp(2, 90_000), [0x21, 0x00, 0x05, 0xBF, 0x21]);
}

#[test]
fn pes_length_set_for_small_zero_for_large() {
    let small = build_pes(STREAM_ID_AUDIO, 0, &[1, 2, 3]);
    assert_eq!(u16::from_be_bytes([small[4], small[5]]) as usize, 8 + 3);
    let large = build_pes(STREAM_ID_VIDEO, 0, &vec![0u8; 70_000]);
    assert_eq!(
        u16::from_be_bytes([large[4], large[5]]),
        0,
        "unbounded for large video"
    );
}

#[test]
fn pes_length_at_the_limit() {
    let fits = build_pes(STREAM_ID_AUDIO, 0, &vec![0u8; 65_527]);
    assert_eq!(u16::from_be_bytes([fits[4], fits[5]]), 65_535);
    let over = build_pes(STREAM_ID_AUDIO, 0, &vec![0u8; 65_528]);
    assert_eq!(u16::from_be_bytes([over[4], over[5]]), 0);
}

#[test]
fn keyframe_emits_pat_pmt_then_video_all_188() {
    let mut mux = MpegTsMuxer::new();
    let au = vec![0x00, 0x00, 0x00, 0x01, 0x65, 0xAA, 0xBB];
    let ts = mux.push_access_unit(&au, 90_000, true);

    assert_eq!(ts.len() % TS_PACKET_LEN, 0, "whole packets only");
    for chunk in ts.chunks(TS_PACKET_LEN) {
        assert_eq!(chunk[0], SYNC_BYTE, "every packet starts with sync byte");
    }
    assert_eq!(pid_of(&ts[0..]), PID_PAT);
    assert!(pusi(&ts[0..]));
    assert_eq!(pid_of(&ts[TS_PACKET_LEN..]), PID_PMT);
    let v = &ts[2 * TS_PACKET_LEN..];
    assert_eq!(pid_of(v), PID_VIDEO);
    assert!(pusi(v), "first video packet carries PES start");
}

#[test]
fn non_keyframe_has_no_psi() {
    let mut mux = MpegTsMuxer::new();
    let ts = mux.push_access_unit(&[0x00, 0x00, 0x01, 0x41, 0x10], 180_000, false);
    for chunk in ts.chunks(TS_PACKET_LEN) {
        assert_eq!(pid_of(chunk), PID_VIDEO, "no PAT/PMT for a non-keyframe AU");
    }
}

#[test]
fn large_access_unit_spans_packets_with_incrementing_cc() {
    let mut mux = MpegTsMuxer::new();
    let au = vec![0x42u8; 1000];
    let ts = mux.push_access_unit(&au, 90_000, false);
    let packets: Vec<&[u8]> = ts.chunks(TS_PACKET_LEN).collect();
    assert!(
        packets.len() > 1,
        "a 1000-byte AU must span multiple packets"
    );
    let ccs: Vec<u8> = packets.iter().map(|p| p[3] & 0x0F).collect();
    for w in ccs.windows(2) {
        assert_eq!(w[1], (w[0] + 1) & 0x0F);
    }
    assert!(pusi(packets[0]));
    assert!(packets[1..].iter().all(|p| !pusi(p)));
}

#[test]
fn pmt_lists_video_and_audio_streams_with_valid_crc() {
    let s = pmt_section();
    assert_eq!(s[2], 0x17, "section_length covers two ES entries");
    assert_eq!(s[12], STREAM_TYPE_H264, "first ES is H.264 video");
    assert_eq!(s[17], STREAM_TYPE_AAC, "second ES is AAC audio");
    let (body, crc) = s.split_at(s.len() - 4);
    assert_eq!(crc32_mpeg(body).to_be_bytes(), crc);
}

#[test]
fn audio_access_unit_uses_audio_pid_and_stream_id() {
    let mut mux = MpegTsMuxer::new();
    let ts = mux.push_audio_access_unit(&[0xFF, 0xF1, 0x40, 0x00, 0x11], 90_000);
    assert_eq!(ts.len() % TS_PACKET_LEN, 0);
    assert_eq!(ts[0], SYNC_BYTE);
    assert_eq!(pid_of(&ts), PID_AUDIO);
    assert!(pusi(&ts), "first audio packet carries PES start");
}

#[test]
fn audio_and_video_use_independent_continuity_counters() {
    let mut mux = MpegTsMuxer::new();
    // Two video AUs then two audio AUs; each PID's CC must advance independently.
    let _ = mux.push_access_unit(&[0, 0, 0, 1, 0x41, 1], 0, false);
    let _ = mux.push_access_unit(&[0, 0, 0, 1, 0x41, 2], 3000, false);
    let a1 = mux.push_audio_access_unit(&[0xFF, 0xF1, 1], 0);
    let a2 = mux.push_audio_access_unit(&[0xFF, 0xF1, 2], 3000);
    // First audio packet CC starts at 0 (independent of video), second at 1.
    assert_eq!(a1[3] & 0x0F, 0);
    assert_eq!(a2[3] & 0x0F, 1);
}

#[test]
fn pat_section_has_valid_self_crc() {
    let s = pat_section();
    let (body, crc) = s.split_at(s.len() - 4);
    assert_eq!(crc32_mpeg(body).to_be_bytes(), crc);
}

#[test]
fn section_with_its_crc_checks_to_zero() {
    assert_eq!(crc32_mpeg(&pat_section()), 0);
    assert_eq!(crc32_mpeg(&pmt_section()), 0);
}

#[test]
fn payloads_put_together_are_the_pes_packet() {
    // Lengths around every boundary of the packetizer.
    for n in [0usize, 1, 161, 162, 163, 344, 345, 346, 347, 1000] {
        let au: Vec<u8> = (0..n).map(|i| (i % 251) as u8).collect();
        let mut mux = MpegTsMuxer::new();
        let ts = mux.push_access_unit(&au, 123_456, true);
        let mut video = Vec::new();
        for pkt in ts.chunks(TS_PACKET_LEN) {
            assert_eq!(pkt.len(), TS_PACKET_LEN);
            if pid_of(pkt) == PID_VIDEO {
                video.extend_from_slice(payload_of(pkt));
            }
        }
        assert_eq!(video, build_pes(STREAM_ID_VIDEO, 123_456, &au));
        assert_eq!(&video[14..], au.as_slice());
    }
}

#[test]
fn audio_payloads_put_together_are_the_pes_packet() {
    for n in [0usize, 168, 169, 170, 171, 600] {
        let au: Vec<u8> = (0..n).map(|i| (i % 241) as u8).collect();
        let mut mux = MpegTsMuxer::new();
        let ts = mux.push_audio_access_unit(&au, 777);
        let mut audio = Vec::new();
        for pkt in ts.chunks(TS_PACKET_LEN) {
            assert_eq!(pid_of(pkt), PID_AUDIO);
            audio.extend_from_slice(payload_of(pkt));
        }
        assert_eq!(audio, build_pes(STREAM_ID_AUDIO, 777, &au));
    }
}

#[test]
fn first_video_packet_carries_the_clock_reference() {
    let mut mux = MpegTsMuxer::new();
    let ts = mux.push_access_unit(&[1, 2, 3], (1 << 33) - 1, false);
    assert_eq!(ts[5], 0x10, "PCR flag");
    assert_eq!(&ts[6..12], &[0xFF, 0xFF, 0xFF, 0xFF, 0xFE, 0x00]);
}

#[test]
fn counters_wrap_after_sixteen_packets() {
    let mut mux = MpegTsMuxer::new();
    for i in 0..20u8 {
        let ts = mux.push_audio_access_unit(&[1], 0);
        assert_eq!(ts.len(), TS_PACKET_LEN);
        assert_eq!(ts[3] & 0x0F, i % 16);
    }
}

#[test]
fn default_muxer_is_a_fresh_one() {
    let mut a = MpegTsMuxer::default();
    let mut b = MpegTsMuxer::new();
    assert_eq!(
        a.push_access_unit(&[9, 9], 5, true),
        b.push_access_unit(&[9, 9], 5, true)
    );
}

#[test]
fn counters_of_each_pid_run_on_over_interleaved_calls() {
    let mut mux = MpegTsMuxer::new();
    let mut ts = Vec::new();
    for i in 0..40u64 {
        let unit = vec![7u8; (i as usize * 97) % 900];
        ts.extend(mux.push_access_unit(&unit, i * 3000, i % 3 == 0));
        if i % 2 == 0 {
            ts.extend(mux.push_audio_access_unit(&unit, i * 3000));
        }
    }
    let mut seen = std::collections::BTreeMap::new();
    for pkt in ts.chunks(TS_PACKET_LEN) {
        let k: &mut usize = seen.entry(pid_of(pkt)).or_insert(0);
        assert_eq!(usize::from(pkt[3] & 0x0F), *k % 16);
        *k += 1;
    }
    assert_eq!(
        seen.keys().copied().collect::<Vec<u16>>(),
        vec![PID_PAT, PID_VIDEO, PID_AUDIO, PID_PMT]
    );
}
