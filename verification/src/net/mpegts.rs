//! Minimal MPEG-TS muxer: wraps H.264 video and AAC audio access units into an MPEG-2
//! Transport Stream (188-byte packets: PAT, PMT, PES-with-PTS, PCR) for a DLNA renderer
//! to play as a live `video/mp2t` stream.

use vstd::prelude::*;

use crate::bytes::append_be16;
use crate::bytes::append_be32;
use crate::bytes::append_bytes;
use crate::bytes::append_range;
use crate::bytes::be16;
use crate::bytes::be32;

verus! {

/// Length of every transport packet.
pub const TS_PACKET_LEN: usize = 188;

/// First byte of every transport packet.
pub const SYNC_BYTE: u8 = 0x47;

/// PID of the program association table.
pub const PID_PAT: u16 = 0x0000;

/// PID of the program map table.
pub const PID_PMT: u16 = 0x1000;

/// PID of the video stream, which also carries the program clock reference.
pub const PID_VIDEO: u16 = 0x0100;

/// PID of the audio stream.
pub const PID_AUDIO: u16 = 0x0101;

/// `stream_type` of H.264 video.
pub const STREAM_TYPE_H264: u8 = 0x1B;

/// `stream_type` of AAC in ADTS.
pub const STREAM_TYPE_AAC: u8 = 0x0F;

/// PES `stream_id` of the video stream.
pub const STREAM_ID_VIDEO: u8 = 0xE0;

/// PES `stream_id` of the audio stream.
pub const STREAM_ID_AUDIO: u8 = 0xC0;

/// Timestamps have 33 bits.
pub const TIMESTAMP_RANGE: u64 = 0x2_0000_0000;

// --- CRC-32/MPEG-2 -------------------------------------------------------------------

/// One bit of the division by the generator polynomial 0x04C11DB7, most significant first.
pub open spec fn crc_bit(crc: u32) -> u32 {
    if crc & 0x8000_0000 != 0 {
        (crc << 1) ^ 0x04C1_1DB7
    } else {
        crc << 1
    }
}

/// `n` bits of the division.
pub open spec fn crc_bits(crc: u32, n: nat) -> u32
    decreases n,
{
    if n == 0 {
        crc
    } else {
        crc_bit(crc_bits(crc, (n - 1) as nat))
    }
}

/// The remainder after one more byte.
pub open spec fn crc_byte(crc: u32, byte: u8) -> u32 {
    crc_bits(crc ^ ((byte as u32) << 24), 8)
}

/// The remainder after `data`, starting from all ones, without reflection and without a
/// final xor.
pub open spec fn crc32(data: Seq<u8>) -> u32
    decreases data.len(),
{
    if data.len() == 0 {
        0xFFFF_FFFF
    } else {
        crc_byte(crc32(data.drop_last()), data.last())
    }
}

/// CRC-32/MPEG-2 (poly 0x04C11DB7, init 0xFFFFFFFF, no reflection, no final xor).
pub fn crc32_mpeg(data: &[u8]) -> (crc: u32)
    ensures
        crc == crc32(data@),
{
    let mut crc: u32 = 0xFFFF_FFFF;
    let mut i: usize = 0;
    while i < data.len()
        invariant
            i <= data@.len(),
            crc == crc32(data@.take(i as int)),
        decreases data@.len() - i,
    {
        assert(data@.take(i + 1).drop_last() =~= data@.take(i as int));
        let start: u32 = crc ^ ((data[i] as u32) << 24u32);
        crc = start;
        let mut bit: u32 = 0;
        while bit < 8
            invariant
                bit <= 8,
                crc == crc_bits(start, bit as nat),
            decreases 8 - bit,
        {
            crc = if crc & 0x8000_0000 != 0 {
                (crc << 1) ^ 0x04C1_1DB7
            } else {
                crc << 1
            };
            bit += 1;
        }
        i += 1;
    }
    assert(data@.take(data@.len() as int) =~= data@);
    crc
}

// --- Timestamps ----------------------------------------------------------------------

/// A 33-bit timestamp in five bytes: a 4-bit prefix, then 3, 15 and 15 bits, each group
/// closed by a marker bit.
pub open spec fn timestamp_bytes(prefix: u8, ts: u64) -> Seq<u8> {
    seq![
        (prefix % 16 * 16 + ts / 0x4000_0000 % 8 * 2 + 1) as u8,
        (ts / 0x40_0000 % 256) as u8,
        (ts / 0x8000 % 128 * 2 + 1) as u8,
        (ts / 0x80 % 256) as u8,
        (ts % 128 * 2 + 1) as u8,
    ]
}

/// The timestamp that five bytes of a PES header stand for.
pub open spec fn timestamp_value(b: Seq<u8>) -> int {
    b[0] / 2 % 8 * 0x4000_0000 + b[1] * 0x40_0000 + b[2] / 2 * 0x8000 + b[3] * 0x80 + b[4] / 2
}

/// A program clock reference in six bytes: a 33-bit base, six reserved ones, extension 0.
pub open spec fn pcr_bytes(base: u64) -> Seq<u8> {
    seq![
        (base / 0x200_0000 % 256) as u8,
        (base / 0x2_0000 % 256) as u8,
        (base / 0x200 % 256) as u8,
        (base / 2 % 256) as u8,
        (base % 2 * 128 + 0x7E) as u8,
        0u8,
    ]
}

/// The base of the program clock reference that six bytes stand for.
pub open spec fn pcr_base(b: Seq<u8>) -> int {
    b[0] * 0x200_0000 + b[1] * 0x2_0000 + b[2] * 0x200 + b[3] * 2 + b[4] / 128
}

/// Encode a 33-bit PTS/DTS timestamp with the given 4-bit prefix (`0b0010` for PTS-only).
pub fn encode_timestamp(prefix: u8, ts: u64) -> (bytes: [u8; 5])
    ensures
        bytes@ == timestamp_bytes(prefix, ts),
{
    let bytes: [u8; 5] = [
        (prefix << 4) | (((ts >> 30) & 0x07) as u8) << 1 | 1,
        ((ts >> 22) & 0xFF) as u8,
        ((((ts >> 15) & 0x7F) as u8) << 1) | 1,
        ((ts >> 7) & 0xFF) as u8,
        (((ts & 0x7F) as u8) << 1) | 1,
    ];
    proof {
        assert((prefix << 4) | (((ts >> 30) & 0x07) as u8) << 1 | 1 == (prefix % 16 * 16 + ts
            / 0x4000_0000 % 8 * 2 + 1) as u8) by (bit_vector);
        assert(((ts >> 22) & 0xFF) as u8 == (ts / 0x40_0000 % 256) as u8) by (bit_vector);
        assert(((((ts >> 15) & 0x7F) as u8) << 1) | 1 == (ts / 0x8000 % 128 * 2 + 1) as u8)
            by (bit_vector);
        assert(((ts >> 7) & 0xFF) as u8 == (ts / 0x80 % 256) as u8) by (bit_vector);
        assert((((ts & 0x7F) as u8) << 1) | 1 == (ts % 128 * 2 + 1) as u8) by (bit_vector);
        assert(bytes@ =~= timestamp_bytes(prefix, ts));
    }
    bytes
}

/// Encode a PCR (program clock reference) into 6 bytes; 33-bit base @ 90 kHz, ext 0.
fn encode_pcr(base: u64) -> (bytes: [u8; 6])
    ensures
        bytes@ == pcr_bytes(base),
{
    let bytes: [u8; 6] = [
        ((base >> 25) & 0xFF) as u8,
        ((base >> 17) & 0xFF) as u8,
        ((base >> 9) & 0xFF) as u8,
        ((base >> 1) & 0xFF) as u8,
        (((base & 0x1) as u8) << 7) | 0x7E,
        0x00,
    ];
    proof {
        assert(((base >> 25) & 0xFF) as u8 == (base / 0x200_0000 % 256) as u8) by (bit_vector);
        assert(((base >> 17) & 0xFF) as u8 == (base / 0x2_0000 % 256) as u8) by (bit_vector);
        assert(((base >> 9) & 0xFF) as u8 == (base / 0x200 % 256) as u8) by (bit_vector);
        assert(((base >> 1) & 0xFF) as u8 == (base / 2 % 256) as u8) by (bit_vector);
        assert((((base & 0x1) as u8) << 7) | 0x7E == (base % 2 * 128 + 0x7E) as u8)
            by (bit_vector);
        assert(bytes@ =~= pcr_bytes(base));
    }
    bytes
}

// --- Packetized elementary stream ----------------------------------------------------

/// The `PES_packet_length` of a packet that carries `n` bytes: the number of bytes that
/// follow the field, or 0 (unbounded) where that does not fit in 16 bits.
pub open spec fn pes_length(n: nat) -> u16 {
    if n + 8 <= 0xFFFF {
        (n + 8) as u16
    } else {
        0
    }
}

/// A PES packet for `stream_id` with a PTS-only header.
pub open spec fn pes_bytes(stream_id: u8, pts: u64, payload: Seq<u8>) -> Seq<u8> {
    seq![0x00u8, 0x00u8, 0x01u8, stream_id] + be16(pes_length(payload.len())) + seq![
        0x80u8,
        0x80u8,
        0x05u8,
    ] + timestamp_bytes(2, pts) + payload
}

/// Build a PES packet for `stream_id` with a PTS-only header. `PES_packet_length` is set
/// when the packet fits in 16 bits (always true for audio) and left 0 ("unbounded",
/// permitted for video) otherwise.
pub fn build_pes(stream_id: u8, pts: u64, payload: &[u8]) -> (pes: Vec<u8>)
    ensures
        pes@ == pes_bytes(stream_id, pts, payload@),
{
    let length_field: u16 = if payload.len() <= 0xFFF7 {
        (payload.len() + 8) as u16
    } else {
        0
    };
    let mut pes: Vec<u8> = Vec::new();
    append_bytes(&mut pes, &[0x00, 0x00, 0x01, stream_id]);
    append_be16(&mut pes, length_field);
    append_bytes(&mut pes, &[0x80, 0x80, 0x05]);
    append_bytes(&mut pes, &encode_timestamp(0b0010, pts));
    append_bytes(&mut pes, payload);
    assert(pes@ =~= pes_bytes(stream_id, pts, payload@));
    pes
}

// --- Program specific information ----------------------------------------------------

/// A table section: its body followed by the body's CRC.
pub open spec fn section_bytes(body: Seq<u8>) -> Seq<u8> {
    body + be32(crc32(body))
}

/// The program association table, up to its CRC: program 1 is described on [`PID_PMT`].
pub open spec fn pat_body() -> Seq<u8> {
    seq![
        0x00u8,  // table_id (PAT)
        0xB0u8,
        0x0Du8,  // syntax indicator + section_length = 13
        0x00u8,
        0x01u8,  // transport_stream_id
        0xC1u8,  // version 0, current_next = 1
        0x00u8,
        0x00u8,  // section_number, last_section_number
        0x00u8,
        0x01u8,  // program_number 1
        (0xE0 + PID_PMT / 256) as u8,
        (PID_PMT % 256) as u8,  // reserved + PMT PID
    ]
}

/// The program map table, up to its CRC: H.264 on [`PID_VIDEO`], which carries the clock,
/// and AAC on [`PID_AUDIO`].
pub open spec fn pmt_body() -> Seq<u8> {
    seq![
        0x02u8,  // table_id (PMT)
        0xB0u8,
        0x17u8,  // syntax indicator + section_length = 23 (two ES entries)
        0x00u8,
        0x01u8,  // program_number 1
        0xC1u8,  // version 0, current_next = 1
        0x00u8,
        0x00u8,  // section_number, last_section_number
        (0xE0 + PID_VIDEO / 256) as u8,
        (PID_VIDEO % 256) as u8,  // reserved + PCR PID (= video)
        0xF0u8,
        0x00u8,  // reserved + program_info_length 0
        STREAM_TYPE_H264,
        (0xE0 + PID_VIDEO / 256) as u8,
        (PID_VIDEO % 256) as u8,
        0xF0u8,
        0x00u8,
        STREAM_TYPE_AAC,
        (0xE0 + PID_AUDIO / 256) as u8,
        (PID_AUDIO % 256) as u8,
        0xF0u8,
        0x00u8,
    ]
}

/// The program association table section.
pub fn pat_section() -> (section: Vec<u8>)
    ensures
        section@ == section_bytes(pat_body()),
        section@.len() == 16,
{
    let mut s: Vec<u8> = vec![
        0x00,
        0xB0,
        0x0D,
        0x00,
        0x01,
        0xC1,
        0x00,
        0x00,
        0x00,
        0x01,
        (0xE0 + PID_PMT / 256) as u8,
        (PID_PMT % 256) as u8,
    ];
    assert(s@ =~= pat_body());
    let crc: u32 = crc32_mpeg(&s);
    append_be32(&mut s, crc);
    s
}

/// The program map table section.
pub fn pmt_section() -> (section: Vec<u8>)
    ensures
        section@ == section_bytes(pmt_body()),
        section@.len() == 26,
{
    let mut s: Vec<u8> = vec![
        0x02,
        0xB0,
        0x17,
        0x00,
        0x01,
        0xC1,
        0x00,
        0x00,
        (0xE0 + PID_VIDEO / 256) as u8,
        (PID_VIDEO % 256) as u8,
        0xF0,
        0x00,
        STREAM_TYPE_H264,
        (0xE0 + PID_VIDEO / 256) as u8,
        (PID_VIDEO % 256) as u8,
        0xF0,
        0x00,
        STREAM_TYPE_AAC,
        (0xE0 + PID_AUDIO / 256) as u8,
        (PID_AUDIO % 256) as u8,
        0xF0,
        0x00,
    ];
    assert(s@ =~= pmt_body());
    let crc: u32 = crc32_mpeg(&s);
    append_be32(&mut s, crc);
    s
}

// --- Transport packets ---------------------------------------------------------------

/// The four header bytes of a transport packet. `pusi` marks the start of a payload unit,
/// `afc` says what follows (1: payload, 3: adaptation field and payload) and `cc` is the
/// continuity counter, taken modulo 16.
pub open spec fn header_bytes(pid: u16, pusi: bool, afc: u8, cc: int) -> Seq<u8> {
    seq![
        SYNC_BYTE,
        ((if pusi {
            64int
        } else {
            0int
        }) + pid / 256 % 32) as u8,
        (pid % 256) as u8,
        (afc % 16 * 16 + cc % 16) as u8,
    ]
}

/// A run of `n` stuffing bytes.
pub open spec fn stuffing(n: int) -> Seq<u8> {
    Seq::new(n as nat, |i: int| 0xFFu8)
}

/// The packet that carries a whole table section.
pub open spec fn psi_bytes(pid: u16, section: Seq<u8>, cc: int) -> Seq<u8> {
    header_bytes(pid, true, 1, cc) + seq![0x00u8] + section + stuffing(183 - section.len())
}

/// How many of `remaining` payload bytes the next packet carries: 176 beside a clock
/// reference, 184 where no adaptation field is needed, at most 182 beside stuffing.
pub open spec fn chunk_len(remaining: int, pcr: Option<u64>) -> int {
    if pcr is Some {
        if remaining < 176 {
            remaining
        } else {
            176
        }
    } else if remaining >= 184 {
        184
    } else if remaining < 182 {
        remaining
    } else {
        182
    }
}

/// The packet that carries `data`, padded by an adaptation field, which also holds the
/// clock reference where there is one.
#[verifier::opaque]
pub open spec fn packet_bytes(
    pid: u16,
    pusi: bool,
    cc: int,
    pcr: Option<u64>,
    data: Seq<u8>,
) -> Seq<u8> {
    match pcr {
        Some(base) => header_bytes(pid, pusi, 3, cc) + seq![
            (183 - data.len()) as u8,
            0x10u8,
        ] + pcr_bytes(base) + stuffing(176 - data.len()) + data,
        None => if data.len() == 184 {
            header_bytes(pid, pusi, 1, cc) + data
        } else {
            header_bytes(pid, pusi, 3, cc) + seq![(183 - data.len()) as u8, 0x00u8] + stuffing(
                182 - data.len(),
            ) + data
        },
    }
}

/// The packets that carry `payload` on `pid`, numbered from `cc`. The first one marks the
/// start of the unit where `first` is set, and holds the clock reference `pcr`.
pub open spec fn packetize(
    pid: u16,
    first: bool,
    cc: int,
    pcr: Option<u64>,
    payload: Seq<u8>,
) -> Seq<u8>
    decreases payload.len(),
{
    if payload.len() == 0 {
        Seq::empty()
    } else {
        let n = chunk_len(payload.len() as int, pcr);
        packet_bytes(pid, first, cc, pcr, payload.take(n)) + packetize(
            pid,
            false,
            cc + 1,
            None,
            payload.skip(n),
        )
    }
}

fn ts_header(pid: u16, pusi: bool, afc: u8, cc: u8) -> (bytes: [u8; 4])
    ensures
        bytes@ == header_bytes(pid, pusi, afc, cc as int),
{
    let start: u8 = if pusi {
        64
    } else {
        0
    };
    let bytes: [u8; 4] = [
        SYNC_BYTE,
        start + (pid / 256 % 32) as u8,
        (pid % 256) as u8,
        afc % 16 * 16 + cc % 16,
    ];
    assert(bytes@ =~= header_bytes(pid, pusi, afc, cc as int));
    bytes
}

fn append_stuffing(out: &mut Vec<u8>, n: usize)
    ensures
        final(out)@ == old(out)@ + stuffing(n as int),
{
    let mut i: usize = 0;
    while i < n
        invariant
            i <= n,
            out@ =~= old(out)@ + stuffing(i as int),
        decreases n - i,
    {
        out.push(0xFF);
        i += 1;
    }
}

/// Which continuity counter a packet takes.
#[derive(Clone, Copy, PartialEq, Eq, Structural)]
pub enum Cc {
    Video,
    Audio,
    Pat,
    Pmt,
}

/// The PID of the packets that take a continuity counter.
pub open spec fn pid_for(which: Cc) -> u16 {
    match which {
        Cc::Video => PID_VIDEO,
        Cc::Audio => PID_AUDIO,
        Cc::Pat => PID_PAT,
        Cc::Pmt => PID_PMT,
    }
}

/// A call of the muxer.
pub enum MuxCall {
    /// One video access unit.
    Video { annexb: Seq<u8>, pts: u64, keyframe: bool },
    /// One audio access unit.
    Audio { adts: Seq<u8>, pts: u64 },
}

/// Muxes H.264 video and AAC audio access units into MPEG-TS packets, tracking per-PID
/// continuity counters.
#[derive(Debug)]
pub struct MpegTsMuxer {
    video_cc: u8,
    audio_cc: u8,
    pat_cc: u8,
    pmt_cc: u8,
}

impl Default for MpegTsMuxer {
    fn default() -> (mux: Self)
        ensures
            forall|which: Cc| mux.counter(which) == 0,
    {
        MpegTsMuxer { video_cc: 0, audio_cc: 0, pat_cc: 0, pmt_cc: 0 }
    }
}

impl MpegTsMuxer {
    /// The continuity counter of the next packet of a kind.
    pub closed spec fn counter(&self, which: Cc) -> int {
        match which {
            Cc::Video => self.video_cc as int % 16,
            Cc::Audio => self.audio_cc as int % 16,
            Cc::Pat => self.pat_cc as int % 16,
            Cc::Pmt => self.pmt_cc as int % 16,
        }
    }

    /// `self` is `before` after `n` packets of one kind.
    pub open spec fn advanced(&self, before: &MpegTsMuxer, which: Cc, n: int) -> bool {
        forall|c: Cc| #[trigger]
            self.counter(c) == if c == which {
                (before.counter(c) + n) % 16
            } else {
                before.counter(c)
            }
    }

    /// The video packets of an access unit.
    pub open spec fn video_packets(&self, annexb: Seq<u8>, pts: u64) -> Seq<u8> {
        packetize(
            PID_VIDEO,
            true,
            self.counter(Cc::Video),
            Some(pts),
            pes_bytes(STREAM_ID_VIDEO, pts, annexb),
        )
    }

    /// The audio packets of an access unit.
    pub open spec fn audio_packets(&self, adts: Seq<u8>, pts: u64) -> Seq<u8> {
        packetize(
            PID_AUDIO,
            true,
            self.counter(Cc::Audio),
            None,
            pes_bytes(STREAM_ID_AUDIO, pts, adts),
        )
    }

    /// The tables that precede a keyframe: the PAT packet, then the PMT packet.
    pub open spec fn table_packets(&self) -> Seq<u8> {
        psi_bytes(PID_PAT, section_bytes(pat_body()), self.counter(Cc::Pat)) + psi_bytes(
            PID_PMT,
            section_bytes(pmt_body()),
            self.counter(Cc::Pmt),
        )
    }

    /// The packets that a call gives.
    pub open spec fn output(&self, call: MuxCall) -> Seq<u8> {
        match call {
            MuxCall::Video { annexb, pts, keyframe } => (if keyframe {
                self.table_packets()
            } else {
                Seq::empty()
            }) + self.video_packets(annexb, pts),
            MuxCall::Audio { adts, pts } => self.audio_packets(adts, pts),
        }
    }

    /// How many packets of a kind a call gives.
    pub open spec fn packets_in(&self, call: MuxCall, which: Cc) -> int {
        match call {
            MuxCall::Video { annexb, pts, keyframe } => match which {
                Cc::Video => self.video_packets(annexb, pts).len() as int / 188,
                Cc::Audio => 0,
                _ => if keyframe {
                    1
                } else {
                    0
                },
            },
            MuxCall::Audio { adts, pts } => match which {
                Cc::Audio => self.audio_packets(adts, pts).len() as int / 188,
                _ => 0,
            },
        }
    }

    /// `self` is `before` after a call: every counter has moved on by the packets of its kind.
    pub open spec fn called(&self, before: &MpegTsMuxer, call: MuxCall) -> bool {
        forall|c: Cc| #[trigger]
            self.counter(c) == (before.counter(c) + before.packets_in(call, c)) % 16
    }

    /// Create a fresh muxer.
    #[must_use]
    pub fn new() -> (mux: Self)
        ensures
            forall|which: Cc| mux.counter(which) == 0,
    {
        Self::default()
    }

    /// Mux one H.264 video access unit (Annex-B, with start codes) carrying `pts` on the
    /// 90 kHz clock. When `keyframe` is true a PAT+PMT pair is emitted first so a renderer
    /// can join the stream at any keyframe. Returns whole 188-byte TS packets.
    pub fn push_access_unit(&mut self, annexb: &[u8], pts: u64, keyframe: bool) -> (out: Vec<u8>)
        ensures
            out@ == old(self).output(MuxCall::Video { annexb: annexb@, pts, keyframe }),
            final(self).called(old(self), MuxCall::Video { annexb: annexb@, pts, keyframe }),
    {
        let mut out: Vec<u8> = Vec::new();
        if keyframe {
            let pat: Vec<u8> = self.psi_packet(PID_PAT, &pat_section(), Cc::Pat);
            append_bytes(&mut out, &pat);
            let pmt: Vec<u8> = self.psi_packet(PID_PMT, &pmt_section(), Cc::Pmt);
            append_bytes(&mut out, &pmt);
            assert(out@ =~= old(self).table_packets());
        }
        let pes: Vec<u8> = build_pes(STREAM_ID_VIDEO, pts, annexb);
        // PCR rides the video PID (the PMT's PCR_PID).
        let video: Vec<u8> = self.write_payload(PID_VIDEO, Cc::Video, &pes, Some(pts));
        append_bytes(&mut out, &video);
        out
    }

    /// Mux one AAC (ADTS) audio access unit carrying `pts` on the 90 kHz clock.
    pub fn push_audio_access_unit(&mut self, adts: &[u8], pts: u64) -> (out: Vec<u8>)
        ensures
            out@ == old(self).output(MuxCall::Audio { adts: adts@, pts }),
            final(self).called(old(self), MuxCall::Audio { adts: adts@, pts }),
    {
        let pes: Vec<u8> = build_pes(STREAM_ID_AUDIO, pts, adts);
        self.write_payload(PID_AUDIO, Cc::Audio, &pes, None)
    }

    fn psi_packet(&mut self, pid: u16, section: &[u8], which: Cc) -> (pkt: Vec<u8>)
        requires
            section@.len() <= 183,
        ensures
            pkt@ == psi_bytes(pid, section@, old(self).counter(which)),
            final(self).advanced(old(self), which, 1),
    {
        let cc: u8 = self.take_cc(which);
        let mut pkt: Vec<u8> = Vec::new();
        append_bytes(&mut pkt, &ts_header(pid, true, 0b01, cc));
        pkt.push(0x00);
        append_bytes(&mut pkt, section);
        append_stuffing(&mut pkt, 183 - section.len());
        assert(pkt@ =~= psi_bytes(pid, section@, old(self).counter(which)));
        pkt
    }

    /// Split `payload` across TS packets on `pid`. The first packet sets PUSI and, if
    /// `pcr` is given, carries a PCR in its adaptation field; the final packet is padded
    /// to 188 bytes with adaptation-field stuffing.
    fn write_payload(&mut self, pid: u16, kind: Cc, payload: &[u8], pcr: Option<u64>) -> (out: Vec<
        u8,
    >)
        ensures
            out@ == packetize(pid, true, old(self).counter(kind), pcr, payload@),
            final(self).advanced(old(self), kind, out@.len() as int / 188),
    {
        let mut out: Vec<u8> = Vec::new();
        let mut offset: usize = 0;
        let mut first = true;
        let ghost whole = packetize(pid, true, self.counter(kind), pcr, payload@);
        let ghost mut sent: int = 0;
        assert(payload@.skip(0) =~= payload@);

        while offset < payload.len()
            invariant
                offset <= payload@.len(),
                0 <= sent,
                out@.len() == 188 * sent,
                self.advanced(old(self), kind, sent),
                whole == out@ + packetize(
                    pid,
                    first,
                    old(self).counter(kind) + sent,
                    if first {
                        pcr
                    } else {
                        None
                    },
                    payload@.skip(offset as int),
                ),
            decreases payload@.len() - offset,
        {
            let ghost rest = payload@.skip(offset as int);
            let ghost out0 = out@;
            let remaining: usize = payload.len() - offset;
            let clock: Option<u64> = if first {
                pcr
            } else {
                None
            };
            let cc: u8 = self.take_cc(kind);
            let take: usize = chunk_size(remaining, clock);
            append_packet(&mut out, pid, first, cc, clock, payload, offset, take);
            proof {
                assert(payload@.subrange(offset as int, offset + take) =~= rest.take(take as int));
                assert(payload@.skip(offset + take) =~= rest.skip(take as int));
                lemma_header_counter(pid, first, cc as int, old(self).counter(kind) + sent, clock,
                    rest.take(take as int));
                sent = sent + 1;
            }
            offset += take;
            first = false;
        }
        out
    }

    fn take_cc(&mut self, which: Cc) -> (cc: u8)
        ensures
            cc == old(self).counter(which),
            final(self).advanced(old(self), which, 1),
    {
        match which {
            Cc::Video => {
                let cc: u8 = self.video_cc % 16;
                self.video_cc = (cc + 1) % 16;
                cc
            },
            Cc::Audio => {
                let cc: u8 = self.audio_cc % 16;
                self.audio_cc = (cc + 1) % 16;
                cc
            },
            Cc::Pat => {
                let cc: u8 = self.pat_cc % 16;
                self.pat_cc = (cc + 1) % 16;
                cc
            },
            Cc::Pmt => {
                let cc: u8 = self.pmt_cc % 16;
                self.pmt_cc = (cc + 1) % 16;
                cc
            },
        }
    }
}

fn chunk_size(remaining: usize, pcr: Option<u64>) -> (take: usize)
    ensures
        take == chunk_len(remaining as int, pcr),
{
    if pcr.is_some() {
        if remaining < 176 {
            remaining
        } else {
            176
        }
    } else if remaining >= 184 {
        184
    } else if remaining < 182 {
        remaining
    } else {
        182
    }
}

fn append_packet(
    out: &mut Vec<u8>,
    pid: u16,
    first: bool,
    cc: u8,
    pcr: Option<u64>,
    payload: &[u8],
    offset: usize,
    take: usize,
)
    requires
        offset + take <= payload.len(),
        take == chunk_len(payload@.len() - offset, pcr),
    ensures
        final(out)@ == old(out)@ + packet_bytes(
            pid,
            first,
            cc as int,
            pcr,
            payload@.subrange(offset as int, offset + take),
        ),
        final(out)@.len() == old(out)@.len() + 188,
{
    if pcr.is_none() && take == 184 {
        append_bytes(out, &ts_header(pid, first, 0b01, cc));
    } else {
        append_bytes(out, &ts_header(pid, first, 0b11, cc));
        out.push((183 - take) as u8);
        match pcr {
            Some(base) => {
                out.push(0x10);
                append_bytes(out, &encode_pcr(base));
                append_stuffing(out, 176 - take);
            },
            None => {
                out.push(0x00);
                append_stuffing(out, 182 - take);
            },
        }
    }
    append_range(out, payload, offset, offset + take);
    reveal(packet_bytes);
    assert(out@ =~= old(out)@ + packet_bytes(
        pid,
        first,
        cc as int,
        pcr,
        payload@.subrange(offset as int, offset + take),
    ));
}

/// Continuity counters are taken modulo 16.
proof fn lemma_header_counter(
    pid: u16,
    pusi: bool,
    a: int,
    b: int,
    pcr: Option<u64>,
    data: Seq<u8>,
)
    requires
        a % 16 == b % 16,
    ensures
        packet_bytes(pid, pusi, a, pcr, data) == packet_bytes(pid, pusi, b, pcr, data),
{
    reveal(packet_bytes);
}

// --- Reading a transport stream back -------------------------------------------------

/// The PID that a packet belongs to.
pub open spec fn packet_pid(pkt: Seq<u8>) -> int {
    pkt[1] % 32 * 256 + pkt[2]
}

/// Whether a packet starts a payload unit.
pub open spec fn packet_starts_unit(pkt: Seq<u8>) -> bool {
    pkt[1] / 64 % 2 == 1
}

/// The continuity counter of a packet.
pub open spec fn packet_counter(pkt: Seq<u8>) -> int {
    pkt[3] as int % 16
}

/// What a packet carries after its header and its adaptation field.
pub open spec fn packet_payload(pkt: Seq<u8>) -> Seq<u8> {
    if pkt[3] / 32 % 2 == 1 {
        pkt.skip(5 + pkt[4])
    } else {
        pkt.skip(4)
    }
}

/// Packet `i` of a transport stream.
pub open spec fn packet_at(ts: Seq<u8>, i: int) -> Seq<u8> {
    ts.subrange(188 * i, 188 * i + 188)
}

/// The payloads of the packets of `pid`, one after the other.
pub open spec fn stream_of(ts: Seq<u8>, pid: int) -> Seq<u8>
    decreases ts.len(),
{
    if ts.len() < 188 {
        Seq::empty()
    } else {
        (if packet_pid(ts.take(188)) == pid {
            packet_payload(ts.take(188))
        } else {
            Seq::empty()
        }) + stream_of(ts.skip(188), pid)
    }
}

/// A packet is 188 bytes long, begins with the sync byte, and names its PID, its place in
/// the unit and its counter; its payload is the data that was put in.
proof fn lemma_packet(pid: u16, pusi: bool, cc: int, pcr: Option<u64>, data: Seq<u8>, len: int)
    requires
        pid < 0x2000,
        data.len() == chunk_len(len, pcr),
        0 < len,
    ensures
        packet_bytes(pid, pusi, cc, pcr, data).len() == 188,
        packet_bytes(pid, pusi, cc, pcr, data)[0] == SYNC_BYTE,
        packet_pid(packet_bytes(pid, pusi, cc, pcr, data)) == pid,
        packet_starts_unit(packet_bytes(pid, pusi, cc, pcr, data)) == pusi,
        packet_counter(packet_bytes(pid, pusi, cc, pcr, data)) == cc % 16,
        packet_payload(packet_bytes(pid, pusi, cc, pcr, data)) == data,
{
    reveal(packet_bytes);
    let pkt = packet_bytes(pid, pusi, cc, pcr, data);
    assert(packet_payload(pkt) =~= data);
}

/// Splitting a payload across packets gives whole packets. Each begins with the sync byte
/// and names `pid`; only the first can start the unit; the counters run on from `cc`,
/// modulo 16; and the payloads of the packets put together are the payload.
pub proof fn law_packetize(pid: u16, first: bool, cc: int, pcr: Option<u64>, payload: Seq<u8>)
    requires
        pid < 0x2000,
    ensures
        packetize(pid, first, cc, pcr, payload).len() % 188 == 0,
        forall|i: int|
            0 <= i < packetize(pid, first, cc, pcr, payload).len() / 188 ==> {
                let pkt = #[trigger] packet_at(packetize(pid, first, cc, pcr, payload), i);
                &&& pkt[0] == SYNC_BYTE
                &&& packet_pid(pkt) == pid
                &&& packet_starts_unit(pkt) == (first && i == 0)
                &&& packet_counter(pkt) == (cc + i) % 16
            },
        stream_of(packetize(pid, first, cc, pcr, payload), pid as int) == payload,
    decreases payload.len(),
{
    if payload.len() > 0 {
        let n = chunk_len(payload.len() as int, pcr);
        let ts = packetize(pid, first, cc, pcr, payload);
        let head = packet_bytes(pid, first, cc, pcr, payload.take(n));
        let tail = packetize(pid, false, cc + 1, None, payload.skip(n));
        lemma_packet(pid, first, cc, pcr, payload.take(n), payload.len() as int);
        law_packetize(pid, false, cc + 1, None, payload.skip(n));
        assert(ts =~= head + tail);
        assert(ts.take(188) =~= head);
        assert(ts.skip(188) =~= tail);
        assert(payload.take(n) + payload.skip(n) =~= payload);
        assert forall|i: int| 0 <= i < ts.len() / 188 implies {
            let pkt = #[trigger] packet_at(ts, i);
            &&& pkt[0] == SYNC_BYTE
            &&& packet_pid(pkt) == pid
            &&& packet_starts_unit(pkt) == (first && i == 0)
            &&& packet_counter(pkt) == (cc + i) % 16
        } by {
            if i == 0 {
                assert(packet_at(ts, 0) =~= head);
            } else {
                assert(packet_at(ts, i) =~= packet_at(tail, i - 1));
            }
        }
    }
}

/// The packets of `pid`, one after the other.
pub open spec fn packets_of(ts: Seq<u8>, pid: int) -> Seq<Seq<u8>>
    decreases ts.len(),
{
    if ts.len() < 188 {
        Seq::empty()
    } else {
        (if packet_pid(ts.take(188)) == pid {
            seq![ts.take(188)]
        } else {
            Seq::empty()
        }) + packets_of(ts.skip(188), pid)
    }
}

/// The packets are numbered from `cc` on, modulo 16.
pub open spec fn numbered_from(packets: Seq<Seq<u8>>, cc: int) -> bool {
    forall|k: int|
        0 <= k < packets.len() ==> packet_counter(#[trigger] packets[k]) == (cc + k) % 16
}

/// Streams of whole packets are taken apart piece by piece.
proof fn lemma_packets_concat(a: Seq<u8>, b: Seq<u8>, pid: int)
    requires
        a.len() % 188 == 0,
    ensures
        packets_of(a + b, pid) == packets_of(a, pid) + packets_of(b, pid),
    decreases a.len(),
{
    if a.len() == 0 {
        assert(a + b =~= b);
        assert(packets_of(a + b, pid) =~= packets_of(a, pid) + packets_of(b, pid));
    } else {
        lemma_packets_concat(a.skip(188), b, pid);
        assert((a + b).take(188) =~= a.take(188));
        assert((a + b).skip(188) =~= a.skip(188) + b);
        assert(packets_of(a + b, pid) =~= packets_of(a, pid) + packets_of(b, pid));
    }
}

/// The packets that carry a payload all belong to its PID and are numbered from `cc` on.
proof fn lemma_packets_of_payload(
    pid: u16,
    first: bool,
    cc: int,
    pcr: Option<u64>,
    payload: Seq<u8>,
    other: int,
)
    requires
        pid < 0x2000,
    ensures
        packetize(pid, first, cc, pcr, payload).len() % 188 == 0,
        packets_of(packetize(pid, first, cc, pcr, payload), other).len() == if other == pid {
            packetize(pid, first, cc, pcr, payload).len() as int / 188
        } else {
            0
        },
        numbered_from(packets_of(packetize(pid, first, cc, pcr, payload), other), cc),
    decreases payload.len(),
{
    if payload.len() > 0 {
        let n = chunk_len(payload.len() as int, pcr);
        let ts = packetize(pid, first, cc, pcr, payload);
        let head = packet_bytes(pid, first, cc, pcr, payload.take(n));
        let tail = packetize(pid, false, cc + 1, None, payload.skip(n));
        lemma_packet(pid, first, cc, pcr, payload.take(n), payload.len() as int);
        lemma_packets_of_payload(pid, false, cc + 1, None, payload.skip(n), other);
        assert(ts.take(188) =~= head);
        assert(ts.skip(188) =~= tail);
        let all = packets_of(ts, other);
        let rest = packets_of(tail, other);
        assert forall|k: int| 0 <= k < all.len() implies packet_counter(#[trigger] all[k]) == (cc
            + k) % 16 by {
            if k > 0 {
                assert(all[k] == rest[k - 1]);
            }
        }
    }
}

/// The packets of a single packet.
proof fn lemma_packets_of_one(pkt: Seq<u8>, pid: int)
    requires
        pkt.len() == 188,
    ensures
        packets_of(pkt, pid) == if packet_pid(pkt) == pid {
            seq![pkt]
        } else {
            Seq::empty()
        },
{
    assert(pkt.take(188) =~= pkt);
    assert(packets_of(pkt.skip(188), pid) =~= Seq::<Seq<u8>>::empty());
    assert(packets_of(pkt, pid) =~= if packet_pid(pkt) == pid {
        seq![pkt]
    } else {
        Seq::empty()
    });
}

/// Two packets, one with the PAT and one with the PMT, hold one packet of each of the two
/// PIDs.
proof fn lemma_packets_of_pair(ts: Seq<u8>, which: Cc, pat_cc: int, pmt_cc: int)
    requires
        ts.len() == 376,
        packet_pid(packet_at(ts, 0)) == PID_PAT,
        packet_pid(packet_at(ts, 1)) == PID_PMT,
        packet_counter(packet_at(ts, 0)) == pat_cc,
        packet_counter(packet_at(ts, 1)) == pmt_cc,
    ensures
        packets_of(ts, pid_for(which) as int).len() == if which == Cc::Pat || which == Cc::Pmt {
            1int
        } else {
            0
        },
        which == Cc::Pat ==> numbered_from(packets_of(ts, pid_for(which) as int), pat_cc),
        which == Cc::Pmt ==> numbered_from(packets_of(ts, pid_for(which) as int), pmt_cc),
{
    let pid = pid_for(which) as int;
    let (pat, pmt) = (packet_at(ts, 0), packet_at(ts, 1));
    assert(ts =~= pat + pmt);
    lemma_packets_concat(pat, pmt, pid);
    lemma_packets_of_one(pat, pid);
    lemma_packets_of_one(pmt, pid);
    let all = packets_of(ts, pid);
    assert(which == Cc::Pat ==> all =~= seq![pat]);
    assert(which == Cc::Pmt ==> all =~= seq![pmt]);
    assert(which == Cc::Video || which == Cc::Audio ==> all =~= Seq::<Seq<u8>>::empty());
}

/// The tables are one packet of each of their PIDs, with the counters of those.
proof fn lemma_packets_of_tables(mux: MpegTsMuxer, which: Cc)
    ensures
        mux.table_packets().len() == 376,
        packets_of(mux.table_packets(), pid_for(which) as int).len() == if which == Cc::Pat || which
            == Cc::Pmt {
            1int
        } else {
            0
        },
        numbered_from(packets_of(mux.table_packets(), pid_for(which) as int), mux.counter(which)),
{
    law_table_packets(mux);
    lemma_packets_of_pair(
        mux.table_packets(),
        which,
        mux.counter(Cc::Pat),
        mux.counter(Cc::Pmt),
    );
}

/// The packets of each PID in what one call gives are as many as its counter moves on, and
/// numbered from it.
proof fn lemma_packets_of_call(mux: MpegTsMuxer, call: MuxCall, which: Cc)
    ensures
        mux.output(call).len() % 188 == 0,
        packets_of(mux.output(call), pid_for(which) as int).len() == mux.packets_in(call, which),
        numbered_from(packets_of(mux.output(call), pid_for(which) as int), mux.counter(which)),
{
    let pid = pid_for(which) as int;
    match call {
        MuxCall::Video { annexb, pts, keyframe } => {
            let pes = pes_bytes(STREAM_ID_VIDEO, pts, annexb);
            let cc = mux.counter(Cc::Video);
            let video = mux.video_packets(annexb, pts);
            lemma_packets_of_payload(PID_VIDEO, true, cc, Some(pts), pes, pid);
            if keyframe {
                lemma_packets_of_tables(mux, which);
                lemma_packets_concat(mux.table_packets(), video, pid);
                let (a, b) = (packets_of(mux.table_packets(), pid), packets_of(video, pid));
                assert(a.len() == 0 ==> a + b =~= b);
                assert(b.len() == 0 ==> a + b =~= a);
            } else {
                assert(mux.output(call) =~= video);
            }
        },
        MuxCall::Audio { adts, pts } => {
            let pes = pes_bytes(STREAM_ID_AUDIO, pts, adts);
            lemma_packets_of_payload(PID_AUDIO, true, mux.counter(Cc::Audio), None, pes, pid);
        },
    }
}

/// The outputs of calls, one after the other.
pub open spec fn sent_by(muxers: Seq<MpegTsMuxer>, calls: Seq<MuxCall>) -> Seq<u8>
    decreases calls.len(),
{
    if calls.len() == 0 {
        Seq::empty()
    } else {
        let n = calls.len() - 1;
        sent_by(muxers, calls.drop_last()) + muxers[n].output(calls[n])
    }
}

/// A muxer goes through these states: fresh at first, and from each state to the next by a
/// call.
pub open spec fn is_mux_run(muxers: Seq<MpegTsMuxer>, calls: Seq<MuxCall>) -> bool {
    &&& muxers.len() == calls.len() + 1
    &&& forall|c: Cc| #[trigger] muxers[0].counter(c) == 0
    &&& forall|i: int|
        0 <= i < calls.len() ==> muxers[i + 1].called(&muxers[i], #[trigger] calls[i])
}

proof fn lemma_count_on(cc: int, n: int, j: int)
    requires
        cc == n % 16,
    ensures
        (cc + j) % 16 == (n + j) % 16,
{
}

/// Packets that are numbered from where others end run on from them.
proof fn lemma_numbered_concat(a: Seq<Seq<u8>>, b: Seq<Seq<u8>>, cc: int)
    requires
        numbered_from(a, 0),
        numbered_from(b, cc),
        cc == a.len() % 16,
    ensures
        numbered_from(a + b, 0),
        (cc + b.len()) % 16 == (a + b).len() % 16,
{
    let all = a + b;
    lemma_count_on(cc, a.len() as int, b.len() as int);
    assert forall|k: int| 0 <= k < all.len() implies packet_counter(#[trigger] all[k]) == (0 + k)
        % 16 by {
        if k < a.len() {
            assert(packet_counter(a[k]) == (0 + k) % 16);
        } else {
            let j = k - a.len();
            assert(packet_counter(b[j]) == (cc + j) % 16);
            lemma_count_on(cc, a.len() as int, j);
        }
    }
}

/// However video and audio calls follow each other, the packets of each PID, taken alone and
/// counted over all calls, are numbered from 0 without a gap or a repeat, modulo 16; and the
/// counter that comes next is the number of them.
pub proof fn law_counters_run_on(muxers: Seq<MpegTsMuxer>, calls: Seq<MuxCall>, which: Cc)
    requires
        is_mux_run(muxers, calls),
    ensures
        sent_by(muxers, calls).len() % 188 == 0,
        numbered_from(packets_of(sent_by(muxers, calls), pid_for(which) as int), 0),
        muxers.last().counter(which) == packets_of(
            sent_by(muxers, calls),
            pid_for(which) as int,
        ).len() % 16,
    decreases calls.len(),
{
    let pid = pid_for(which) as int;
    if calls.len() > 0 {
        let n = calls.len() - 1;
        let (some, rest) = (muxers.drop_last(), calls.drop_last());
        assert(is_mux_run(some, rest)) by {
            assert(some[0] == muxers[0]);
            assert forall|c: Cc| #[trigger] some[0].counter(c) == 0 by {
                assert(muxers[0].counter(c) == 0);
            }
            assert forall|i: int| 0 <= i < rest.len() implies some[i + 1].called(
                &some[i],
                #[trigger] rest[i],
            ) by {
                assert(muxers[i + 1].called(&muxers[i], calls[i]));
            }
        }
        law_counters_run_on(some, rest, which);
        lemma_sent_same(some, muxers, rest);
        let before = sent_by(muxers, rest);
        let out = muxers[n].output(calls[n]);
        assert(some.last() == muxers[n]);
        lemma_packets_of_call(muxers[n], calls[n], which);
        assert(muxers[n + 1].called(&muxers[n], calls[n]));
        lemma_packets_concat(before, out, pid);
        lemma_numbered_concat(
            packets_of(before, pid),
            packets_of(out, pid),
            muxers[n].counter(which),
        );
        assert(muxers[n + 1].counter(which) == (muxers[n].counter(which) + packets_of(out, pid).len())
            % 16);
    } else {
        assert(muxers.last() == muxers[0]);
        assert(muxers[0].counter(which) == 0);
    }
}

/// Only the states before the calls matter for what they give.
proof fn lemma_sent_same(a: Seq<MpegTsMuxer>, b: Seq<MpegTsMuxer>, calls: Seq<MuxCall>)
    requires
        calls.len() <= a.len(),
        calls.len() <= b.len(),
        forall|i: int| 0 <= i < calls.len() ==> a[i] == b[i],
    ensures
        sent_by(a, calls) == sent_by(b, calls),
    decreases calls.len(),
{
    if calls.len() > 0 {
        lemma_sent_same(a, b, calls.drop_last());
    }
}

/// The first packet of a video access unit carries the clock: its adaptation field is marked
/// as holding a clock reference, and that is the timestamp, modulo 2^33.
pub proof fn law_clock_rides_the_video(mux: MpegTsMuxer, annexb: Seq<u8>, pts: u64)
    ensures
        ({
            let pkt = packet_at(mux.video_packets(annexb, pts), 0);
            &&& pkt[3] / 32 % 2 == 1
            &&& pkt[4] >= 7
            &&& pkt[5] == 0x10
            &&& pcr_base(pkt.subrange(6, 12)) == pts % TIMESTAMP_RANGE
        }),
{
    let cc = mux.counter(Cc::Video);
    let pes = pes_bytes(STREAM_ID_VIDEO, pts, annexb);
    let n = chunk_len(pes.len() as int, Some(pts));
    let data = pes.take(n);
    let first = packet_bytes(PID_VIDEO, true, cc, Some(pts), data);
    lemma_packet(PID_VIDEO, true, cc, Some(pts), data, pes.len() as int);
    assert(packet_at(mux.video_packets(annexb, pts), 0) =~= first);
    reveal(packet_bytes);
    assert(first.subrange(6, 12) =~= pcr_bytes(pts));
    law_pcr_round_trip(pts);
}

/// No packet of one PID adds to the stream of another.
proof fn lemma_other_stream(pid: u16, first: bool, cc: int, pcr: Option<u64>, payload: Seq<u8>, other: int)
    requires
        pid < 0x2000,
        other != pid,
    ensures
        stream_of(packetize(pid, first, cc, pcr, payload), other) == Seq::<u8>::empty(),
    decreases payload.len(),
{
    if payload.len() > 0 {
        let n = chunk_len(payload.len() as int, pcr);
        let ts = packetize(pid, first, cc, pcr, payload);
        lemma_packet(pid, first, cc, pcr, payload.take(n), payload.len() as int);
        lemma_other_stream(pid, false, cc + 1, None, payload.skip(n), other);
        assert(ts.take(188) =~= packet_bytes(pid, first, cc, pcr, payload.take(n)));
        assert(ts.skip(188) =~= packetize(pid, false, cc + 1, None, payload.skip(n)));
    }
}

/// A timestamp is read back from its five bytes, modulo 2^33, and the prefix from the
/// first of them.
pub proof fn law_timestamp_round_trip(prefix: u8, ts: u64)
    ensures
        timestamp_value(timestamp_bytes(prefix, ts)) == ts % TIMESTAMP_RANGE,
        timestamp_bytes(prefix, ts)[0] / 16 == prefix % 16,
{
    let (a, b, c, d, e) = (
        ts / 0x4000_0000 % 8,
        ts / 0x40_0000 % 256,
        ts / 0x8000 % 128,
        ts / 0x80 % 256,
        ts % 128,
    );
    assert(ts / 0x4000_0000 % 8 * 0x4000_0000 + ts / 0x40_0000 % 256 * 0x40_0000 + ts / 0x8000 % 128
        * 0x8000 + ts / 0x80 % 256 * 0x80 + ts % 128 == ts % 0x2_0000_0000) by (bit_vector);
    lemma_timestamp_fields(prefix, a, b, c, d, e);
}

proof fn lemma_timestamp_fields(prefix: u8, a: u64, b: u64, c: u64, d: u64, e: u64)
    requires
        a < 8,
        b < 256,
        c < 128,
        d < 256,
        e < 128,
    ensures
        timestamp_value(
            seq![
                (prefix % 16 * 16 + a * 2 + 1) as u8,
                b as u8,
                (c * 2 + 1) as u8,
                d as u8,
                (e * 2 + 1) as u8,
            ],
        ) == a * 0x4000_0000 + b * 0x40_0000 + c * 0x8000 + d * 0x80 + e,
        (prefix % 16 * 16 + a * 2 + 1) as u8 / 16 == prefix % 16,
{
}

/// A clock reference is read back from its six bytes, modulo 2^33.
pub proof fn law_pcr_round_trip(base: u64)
    ensures
        pcr_base(pcr_bytes(base)) == base % TIMESTAMP_RANGE,
{
    assert(base / 0x200_0000 % 256 * 0x200_0000 + base / 0x2_0000 % 256 * 0x2_0000 + base / 0x200
        % 256 * 0x200 + base / 2 % 256 * 2 + base % 2 == base % 0x2_0000_0000) by (bit_vector);
    lemma_pcr_fields(
        base / 0x200_0000 % 256,
        base / 0x2_0000 % 256,
        base / 0x200 % 256,
        base / 2 % 256,
        base % 2,
    );
}

proof fn lemma_pcr_fields(a: u64, b: u64, c: u64, d: u64, e: u64)
    requires
        a < 256,
        b < 256,
        c < 256,
        d < 256,
        e < 2,
    ensures
        pcr_base(seq![a as u8, b as u8, c as u8, d as u8, (e * 128 + 0x7E) as u8, 0u8]) == a
            * 0x200_0000 + b * 0x2_0000 + c * 0x200 + d * 2 + e,
{
}

/// A PES packet gives back the stream, the timestamp (modulo 2^33), the payload, and,
/// where it fits in 16 bits, the number of bytes after the length field.
pub proof fn law_pes_round_trip(stream_id: u8, pts: u64, payload: Seq<u8>)
    ensures
        pes_bytes(stream_id, pts, payload).take(3) == seq![0u8, 0u8, 1u8],
        pes_bytes(stream_id, pts, payload)[3] == stream_id,
        payload.len() + 8 <= 0xFFFF ==> pes_bytes(stream_id, pts, payload)[4] * 256 + pes_bytes(
            stream_id,
            pts,
            payload,
        )[5] == pes_bytes(stream_id, pts, payload).len() - 6,
        payload.len() + 8 > 0xFFFF ==> pes_bytes(stream_id, pts, payload)[4] == 0 && pes_bytes(
            stream_id,
            pts,
            payload,
        )[5] == 0,
        timestamp_value(pes_bytes(stream_id, pts, payload).subrange(9, 14)) == pts
            % TIMESTAMP_RANGE,
        pes_bytes(stream_id, pts, payload).skip(14) == payload,
{
    let pes = pes_bytes(stream_id, pts, payload);
    assert(pes.take(3) =~= seq![0u8, 0u8, 1u8]);
    assert(pes.subrange(9, 14) =~= timestamp_bytes(2, pts));
    assert(pes.skip(14) =~= payload);
    law_timestamp_round_trip(2, pts);
}

/// A section checks: the CRC of a body followed by its own CRC is zero.
pub proof fn law_section_crc(body: Seq<u8>)
    ensures
        crc32(section_bytes(body)) == 0,
{
    let c = crc32(body);
    let s = section_bytes(body);
    let b = be32(c);
    let s1 = body.push(b[0]);
    let s2 = s1.push(b[1]);
    let s3 = s2.push(b[2]);
    assert(s =~= s3.push(b[3]));
    assert(s.drop_last() =~= s3);
    assert(s3.drop_last() =~= s2);
    assert(s2.drop_last() =~= s1);
    assert(s1.drop_last() =~= body);
    assert(c ^ (((c / 0x100_0000) as u8 as u32) << 24) == c & 0xFF_FFFF) by (bit_vector);
    let c1 = c & 0xFF_FFFF;
    assert(c & 0xFF_FFFF < 0x100_0000) by (bit_vector);
    lemma_crc_shift(c1);
    assert(crc32(s1) == c1 << 8);
    assert((c1 << 8) ^ (((c / 0x1_0000 % 256) as u8 as u32) << 24) == (c & 0xFFFF) << 8)
        by (bit_vector)
        requires
            c1 == c & 0xFF_FFFF,
    ;
    assert((c & 0xFFFF) << 8 < 0x100_0000) by (bit_vector);
    lemma_crc_shift((c & 0xFFFF) << 8);
    assert(crc32(s2) == (c & 0xFFFF) << 8 << 8);
    assert(((c & 0xFFFF) << 8 << 8) ^ (((c / 0x100 % 256) as u8 as u32) << 24) == (c & 0xFF) << 16
        && (c & 0xFF) << 16 < 0x100_0000 && ((c & 0xFF) << 16 << 8) ^ (((c % 256) as u8 as u32)
        << 24) == 0 && 0u32 << 8 == 0) by (bit_vector);
    lemma_crc_shift((c & 0xFF) << 16);
    assert(crc32(s3) == (c & 0xFF) << 16 << 8);
    lemma_crc_shift(0);
}

/// Eight bits of division of a remainder whose top byte is clear only shift it.
proof fn lemma_crc_shift(crc: u32)
    requires
        crc < 0x100_0000,
    ensures
        crc_bits(crc, 8) == crc << 8,
{
    reveal_with_fuel(crc_bits, 9);
    let x = crc;
    assert(x & 0x8000_0000 == 0 && (x << 1) & 0x8000_0000 == 0 && (x << 1 << 1) & 0x8000_0000 == 0
        && (x << 1 << 1 << 1) & 0x8000_0000 == 0 && (x << 1 << 1 << 1 << 1) & 0x8000_0000 == 0 && (x
        << 1 << 1 << 1 << 1 << 1) & 0x8000_0000 == 0 && (x << 1 << 1 << 1 << 1 << 1 << 1)
        & 0x8000_0000 == 0 && (x << 1 << 1 << 1 << 1 << 1 << 1 << 1) & 0x8000_0000 == 0 && x << 1
        << 1 << 1 << 1 << 1 << 1 << 1 << 1 == x << 8) by (bit_vector)
        requires
            x < 0x100_0000,
    ;
}

/// The table packets are two whole packets, the PAT on its PID and then the PMT on its
/// own, both starting a unit.
pub proof fn law_table_packets(mux: MpegTsMuxer)
    ensures
        mux.table_packets().len() == 376,
        packet_pid(packet_at(mux.table_packets(), 0)) == PID_PAT,
        packet_pid(packet_at(mux.table_packets(), 1)) == PID_PMT,
        forall|i: int|
            0 <= i < 2 ==> (#[trigger] packet_at(mux.table_packets(), i))[0] == SYNC_BYTE
                && packet_starts_unit(packet_at(mux.table_packets(), i)),
        packet_counter(packet_at(mux.table_packets(), 0)) == mux.counter(Cc::Pat),
        packet_counter(packet_at(mux.table_packets(), 1)) == mux.counter(Cc::Pmt),
        packet_at(mux.table_packets(), 0).subrange(5, 21) == section_bytes(pat_body()),
        packet_at(mux.table_packets(), 1).subrange(5, 31) == section_bytes(pmt_body()),
{
    let pat = psi_bytes(PID_PAT, section_bytes(pat_body()), mux.counter(Cc::Pat));
    let pmt = psi_bytes(PID_PMT, section_bytes(pmt_body()), mux.counter(Cc::Pmt));
    assert(packet_at(mux.table_packets(), 0) =~= pat);
    assert(packet_at(mux.table_packets(), 1) =~= pmt);
    assert(pat.subrange(5, 21) =~= section_bytes(pat_body()));
    assert(pmt.subrange(5, 31) =~= section_bytes(pmt_body()));
}

/// What one video access unit puts on the wire, with the tables before it or without: the
/// packets are whole and begin with the sync byte, and the video stream in them is one PES
/// packet with the access unit and its timestamp, with nothing on the audio PID.
pub proof fn law_video_access_unit(
    mux: MpegTsMuxer,
    annexb: Seq<u8>,
    pts: u64,
    keyframe: bool,
    ts: Seq<u8>,
)
    requires
        ts == (if keyframe {
            mux.table_packets()
        } else {
            Seq::empty()
        }) + mux.video_packets(annexb, pts),
    ensures
        ts.len() % 188 == 0,
        forall|i: int| 0 <= i < ts.len() / 188 ==> (#[trigger] packet_at(ts, i))[0] == SYNC_BYTE,
        stream_of(ts, PID_VIDEO as int) == pes_bytes(STREAM_ID_VIDEO, pts, annexb),
        stream_of(ts, PID_AUDIO as int) == Seq::<u8>::empty(),
        !keyframe ==> forall|i: int|
            0 <= i < ts.len() / 188 ==> packet_pid(#[trigger] packet_at(ts, i)) == PID_VIDEO,
{
    let tables = if keyframe {
        mux.table_packets()
    } else {
        Seq::empty()
    };
    let pes = pes_bytes(STREAM_ID_VIDEO, pts, annexb);
    let video = mux.video_packets(annexb, pts);
    law_packetize(PID_VIDEO, true, mux.counter(Cc::Video), Some(pts), pes);
    lemma_other_stream(PID_VIDEO, true, mux.counter(Cc::Video), Some(pts), pes, PID_AUDIO as int);
    law_table_packets(mux);
    let k = tables.len() / 188;
    assert forall|i: int| 0 <= i < ts.len() / 188 implies (#[trigger] packet_at(ts, i))[0]
        == SYNC_BYTE && (!keyframe ==> packet_pid(packet_at(ts, i)) == PID_VIDEO) by {
        if i < k {
            assert(packet_at(ts, i) =~= packet_at(tables, i));
        } else {
            assert(packet_at(ts, i) =~= packet_at(video, i - k));
        }
    }
    if keyframe {
        let rest = ts.skip(188);
        assert(ts.take(188) =~= packet_at(tables, 0));
        assert(rest.take(188) =~= packet_at(tables, 1));
        assert(rest.skip(188) =~= video);
        assert(stream_of(rest, PID_VIDEO as int) =~= stream_of(video, PID_VIDEO as int));
        assert(stream_of(ts, PID_VIDEO as int) =~= stream_of(rest, PID_VIDEO as int));
        assert(stream_of(rest, PID_AUDIO as int) =~= Seq::<u8>::empty());
        assert(stream_of(ts, PID_AUDIO as int) =~= Seq::<u8>::empty());
    } else {
        assert(ts =~= video);
    }
}

/// What one audio access unit puts on the wire: whole packets of the audio PID, whose
/// stream is one PES packet with the access unit and its timestamp.
pub proof fn law_audio_access_unit(mux: MpegTsMuxer, adts: Seq<u8>, pts: u64)
    ensures
        mux.audio_packets(adts, pts).len() % 188 == 0,
        forall|i: int|
            0 <= i < mux.audio_packets(adts, pts).len() / 188 ==> {
                let pkt = #[trigger] packet_at(mux.audio_packets(adts, pts), i);
                pkt[0] == SYNC_BYTE && packet_pid(pkt) == PID_AUDIO
            },
        stream_of(mux.audio_packets(adts, pts), PID_AUDIO as int) == pes_bytes(
            STREAM_ID_AUDIO,
            pts,
            adts,
        ),
        stream_of(mux.audio_packets(adts, pts), PID_VIDEO as int) == Seq::<u8>::empty(),
{
    let pes = pes_bytes(STREAM_ID_AUDIO, pts, adts);
    law_packetize(PID_AUDIO, true, mux.counter(Cc::Audio), None, pes);
    lemma_other_stream(PID_AUDIO, true, mux.counter(Cc::Audio), None, pes, PID_VIDEO as int);
}

/// How a demultiplexer reads a PES packet: the two flag bytes say that a timestamp and no
/// decode time follows, the header length says where the payload begins, the timestamp lies
/// in what that length covers, and the payload is all that comes after it.
pub proof fn law_pes_is_read(stream_id: u8, pts: u64, payload: Seq<u8>)
    ensures
        ({
            let pes = pes_bytes(stream_id, pts, payload);
            let h = pes[8];
            &&& pes[6] / 64 == 2
            &&& pes[7] / 64 == 2
            &&& pes[6] % 64 == 0 && pes[7] % 64 == 0
            &&& h == 5
            &&& pes.skip(9 + h) == payload
            &&& pes[9] / 16 == 2
            &&& timestamp_value(pes.subrange(9, 9 + h)) == pts % TIMESTAMP_RANGE
            &&& (pes[9] / 2 % 8) * 0x4000_0000 + pes[10] * 0x40_0000 + pes[11] / 2 * 0x8000
                + pes[12] * 0x80 + pes[13] / 2 == pts % 0x2_0000_0000
            &&& pes[9] % 2 == 1 && pes[11] % 2 == 1 && pes[13] % 2 == 1
        }),
{
    let pes = pes_bytes(stream_id, pts, payload);
    law_pes_round_trip(stream_id, pts, payload);
    law_timestamp_round_trip(2, pts);
    law_timestamp_markers(2, pts);
    assert(pes.subrange(9, 14) =~= timestamp_bytes(2, pts));
}

/// A timestamp takes five bytes, and the last bit of the first, third and fifth is set.
pub proof fn law_timestamp_markers(prefix: u8, ts: u64)
    ensures
        timestamp_bytes(prefix, ts).len() == 5,
        timestamp_bytes(prefix, ts)[0] % 2 == 1,
        timestamp_bytes(prefix, ts)[2] % 2 == 1,
        timestamp_bytes(prefix, ts)[4] % 2 == 1,
{
    assert(prefix % 16 * 16 + ts / 0x4000_0000 % 8 * 2 + 1 < 256);
}

/// A clock reference takes six bytes; its reserved bits are set and its extension is 0.
pub proof fn law_pcr_markers(base: u64)
    ensures
        pcr_bytes(base).len() == 6,
        pcr_bytes(base)[4] / 2 % 64 == 63,
        pcr_bytes(base)[4] % 2 == 0,
        pcr_bytes(base)[5] == 0,
{
}

/// A packet is laid out as demultiplexers expect: no error, priority or scrambling is marked,
/// and there is a payload. An adaptation field holds a clock reference where `clock` says
/// so and is filled up with ones; it leaves room for the payload.
pub open spec fn is_laid_out(pkt: Seq<u8>, clock: bool) -> bool {
    &&& pkt.len() == 188
    &&& pkt[0] == 0x47
    &&& pkt[1] / 128 == 0
    &&& pkt[1] / 32 % 2 == 0
    &&& pkt[3] / 64 == 0
    &&& pkt[3] / 16 % 2 == 1
    &&& clock ==> pkt[3] / 32 % 2 == 1
    &&& pkt[3] / 32 % 2 == 1 ==> {
        let filled: int = if clock {
            12
        } else {
            6
        };
        &&& filled <= 5 + pkt[4] < 188
        &&& pkt[5] == (if clock {
            0x10u8
        } else {
            0u8
        })
        &&& forall|k: int| filled <= k < 5 + pkt[4] ==> #[trigger] pkt[k] == 0xFF
    }
}

proof fn lemma_laid_out(pid: u16, pusi: bool, cc: int, pcr: Option<u64>, data: Seq<u8>, len: int)
    requires
        pid < 0x2000,
        data.len() == chunk_len(len, pcr),
        0 < len,
    ensures
        is_laid_out(packet_bytes(pid, pusi, cc, pcr, data), pcr is Some),
{
    reveal(packet_bytes);
    let pkt = packet_bytes(pid, pusi, cc, pcr, data);
    assert(pkt.len() == 188);
    assert((3u8 % 16 * 16 + cc % 16) / 32 == 1 && (3u8 % 16 * 16 + cc % 16) / 16 == 3);
    assert((1u8 % 16 * 16 + cc % 16) / 32 == 0 && (1u8 % 16 * 16 + cc % 16) / 16 == 1);
    assert(pid / 256 % 32 == pid / 256);
}

/// Every packet of a payload is laid out as demultiplexers expect, and only the first holds the
/// clock reference, where there is one.
pub proof fn law_packets_are_laid_out(
    pid: u16,
    first: bool,
    cc: int,
    pcr: Option<u64>,
    payload: Seq<u8>,
    ts: Seq<u8>,
    i: int,
)
    requires
        pid < 0x2000,
        ts == packetize(pid, first, cc, pcr, payload),
        0 <= i < ts.len() / 188,
    ensures
        is_laid_out(packet_at(ts, i), pcr is Some && i == 0),
    decreases payload.len(),
{
    if payload.len() > 0 {
        let n = chunk_len(payload.len() as int, pcr);
        let head = packet_bytes(pid, first, cc, pcr, payload.take(n));
        let tail = packetize(pid, false, cc + 1, None, payload.skip(n));
        lemma_packet(pid, first, cc, pcr, payload.take(n), payload.len() as int);
        lemma_laid_out(pid, first, cc, pcr, payload.take(n), payload.len() as int);
        if i == 0 {
            assert(packet_at(ts, 0) =~= head);
        } else {
            law_packets_are_laid_out(pid, false, cc + 1, None, payload.skip(n), tail, i - 1);
            assert(packet_at(ts, i) =~= packet_at(tail, i - 1));
        }
    }
}

/// No packet is sent half empty: each but the last carries all that it can hold, 176 bytes
/// beside a clock reference and 184 otherwise. The one exception is a packet of 182 bytes
/// before a last one of a single byte.
pub proof fn law_packets_are_full(
    pid: u16,
    first: bool,
    cc: int,
    pcr: Option<u64>,
    payload: Seq<u8>,
    ts: Seq<u8>,
    i: int,
)
    requires
        pid < 0x2000,
        ts == packetize(pid, first, cc, pcr, payload),
        0 <= i < ts.len() / 188 - 1,
    ensures
        ({
            let n = packet_payload(packet_at(ts, i)).len();
            ||| n == (if pcr is Some && i == 0 {
                176int
            } else {
                184int
            })
            ||| n == 182 && i + 2 == ts.len() / 188 && packet_payload(packet_at(ts, i + 1)).len()
                == 1
        }),
    decreases payload.len(),
{
    if payload.len() > 0 {
        let n = chunk_len(payload.len() as int, pcr);
        let rest = payload.skip(n);
        let head = packet_bytes(pid, first, cc, pcr, payload.take(n));
        let tail = packetize(pid, false, cc + 1, None, rest);
        lemma_packet(pid, first, cc, pcr, payload.take(n), payload.len() as int);
        assert(ts.len() == 188 + tail.len());
        if i == 0 {
            assert(packet_at(ts, 0) =~= head);
            if n == 182 && pcr is None && rest.len() > 0 {
                let m = chunk_len(rest.len() as int, None);
                assert(rest.len() == 1 && m == 1);
                let last = packet_bytes(pid, false, cc + 1, None, rest.take(m));
                lemma_packet(pid, false, cc + 1, None, rest.take(m), 1);
                assert(rest.skip(m).len() == 0);
                assert(packetize(pid, false, cc + 2, None, rest.skip(m)) =~= Seq::<u8>::empty());
                assert(tail =~= last);
                assert(packet_at(ts, 1) =~= last);
            }
        } else {
            law_packets_are_full(pid, false, cc + 1, None, rest, tail, i - 1);
            assert(packet_at(ts, i) =~= packet_at(tail, i - 1));
            assert(packet_at(ts, i + 1) =~= packet_at(tail, i));
        }
    }
}

/// How a demultiplexer reads the program association table: a current section with the
/// length that it has, which names program 1 alone and says that its map is on PID 0x1000.
pub proof fn law_pat_is_read()
    ensures
        ({
            let s = section_bytes(pat_body());
            &&& s.len() == 16
            &&& s[0] == 0
            &&& s[1] / 16 == 0xB
            &&& s[1] % 16 * 256 + s[2] == s.len() - 3
            &&& s[3] * 256 + s[4] == 1
            &&& s[5] == 0xC1
            &&& s[6] == 0 && s[7] == 0
            &&& s[8] * 256 + s[9] == 1
            &&& s[10] / 32 == 7
            &&& s[10] % 32 * 256 + s[11] == 0x1000
            &&& crc32(s) == 0
        }),
{
    law_section_crc(pat_body());
}

/// How a demultiplexer reads the program map table: a current section with the length that
/// it has, of program 1, whose clock is on PID 0x100 and which has two streams: H.264 (type
/// 0x1B) on PID 0x100 and AAC (type 0x0F) on PID 0x101, without descriptors.
pub proof fn law_pmt_is_read()
    ensures
        ({
            let s = section_bytes(pmt_body());
            &&& s.len() == 26
            &&& s[0] == 2
            &&& s[1] / 16 == 0xB
            &&& s[1] % 16 * 256 + s[2] == s.len() - 3
            &&& s[3] * 256 + s[4] == 1
            &&& s[5] == 0xC1
            &&& s[6] == 0 && s[7] == 0
            &&& s[8] / 32 == 7 && s[8] % 32 * 256 + s[9] == 0x100
            &&& s[10] / 16 == 15 && s[10] % 16 * 256 + s[11] == 0
            &&& s[12] == 0x1B
            &&& s[13] / 32 == 7 && s[13] % 32 * 256 + s[14] == 0x100
            &&& s[15] / 16 == 15 && s[15] % 16 * 256 + s[16] == 0
            &&& s[17] == 0x0F
            &&& s[18] / 32 == 7 && s[18] % 32 * 256 + s[19] == 0x101
            &&& s[20] / 16 == 15 && s[20] % 16 * 256 + s[21] == 0
            &&& crc32(s) == 0
        }),
{
    law_section_crc(pmt_body());
}

/// A packet that carries a section holds nothing else: no adaptation field, the section
/// begins right after the pointer byte, and what it leaves free is filled with ones.
pub open spec fn holds_section(pkt: Seq<u8>, pid: int, section: Seq<u8>) -> bool {
    &&& is_laid_out(pkt, false)
    &&& pkt[3] / 32 % 2 == 0
    &&& packet_pid(pkt) == pid
    &&& packet_starts_unit(pkt)
    &&& pkt[4] == 0
    &&& pkt.subrange(5, 5 + section.len() as int) == section
    &&& forall|k: int| 5 + section.len() <= k < 188 ==> #[trigger] pkt[k] == 0xFF
}

proof fn lemma_section_packet(pid: u16, section: Seq<u8>, cc: int)
    requires
        pid < 0x2000,
        section.len() <= 183,
    ensures
        holds_section(psi_bytes(pid, section, cc), pid as int, section),
{
    let pkt = psi_bytes(pid, section, cc);
    assert(pkt.subrange(5, 5 + section.len() as int) =~= section);
    assert((1u8 % 16 * 16 + cc % 16) / 32 == 0 && (1u8 % 16 * 16 + cc % 16) / 16 == 1);
    assert(pid / 256 % 32 == pid / 256);
}

/// What a call with a video access unit sends. With a keyframe the program association
/// table and the program map table come first, in one packet each; all other packets are of
/// the video PID 0x100, and their payloads put together are the PES packet of stream 0xE0
/// with the unit. The first of them starts the unit and holds the clock reference, and no
/// other does. Without a keyframe there are no tables.
pub proof fn law_video_call(
    mux: MpegTsMuxer,
    annexb: Seq<u8>,
    pts: u64,
    keyframe: bool,
    ts: Seq<u8>,
    k: int,
)
    requires
        ts == mux.output(MuxCall::Video { annexb, pts, keyframe }),
        k == (if keyframe {
            2int
        } else {
            0int
        }),
    ensures
        ts.len() % 188 == 0,
        ts.len() / 188 > k,
        keyframe ==> holds_section(packet_at(ts, 0), 0, section_bytes(pat_body())),
        keyframe ==> holds_section(packet_at(ts, 1), 0x1000, section_bytes(pmt_body())),
        forall|i: int|
            k <= i < ts.len() / 188 ==> {
                let pkt = #[trigger] packet_at(ts, i);
                &&& packet_pid(pkt) == 0x100
                &&& packet_starts_unit(pkt) == (i == k)
                &&& is_laid_out(pkt, i == k)
            },
        pcr_base(packet_at(ts, k).subrange(6, 12)) == pts % 0x2_0000_0000,
        stream_of(ts, 0x100) == pes_bytes(0xE0, pts, annexb),
        stream_of(ts, 0x101) == Seq::<u8>::empty(),
{
    law_video_access_unit(mux, annexb, pts, keyframe, ts);
    let video = mux.video_packets(annexb, pts);
    let cc = mux.counter(Cc::Video);
    let pes = pes_bytes(STREAM_ID_VIDEO, pts, annexb);
    law_packetize(PID_VIDEO, true, cc, Some(pts), pes);
    law_clock_rides_the_video(mux, annexb, pts);
    lemma_not_empty(PID_VIDEO, true, cc, Some(pts), pes);
    if keyframe {
        law_table_packets(mux);
        let pat = psi_bytes(PID_PAT, section_bytes(pat_body()), mux.counter(Cc::Pat));
        let pmt = psi_bytes(PID_PMT, section_bytes(pmt_body()), mux.counter(Cc::Pmt));
        lemma_section_packet(PID_PAT, section_bytes(pat_body()), mux.counter(Cc::Pat));
        lemma_section_packet(PID_PMT, section_bytes(pmt_body()), mux.counter(Cc::Pmt));
        assert(packet_at(ts, 0) =~= pat);
        assert(packet_at(ts, 1) =~= pmt);
    }
    assert forall|i: int| k <= i < ts.len() / 188 implies {
        let pkt = #[trigger] packet_at(ts, i);
        &&& packet_pid(pkt) == 0x100
        &&& packet_starts_unit(pkt) == (i == k)
        &&& is_laid_out(pkt, i == k)
    } by {
        assert(packet_at(ts, i) =~= packet_at(video, i - k));
        law_packets_are_laid_out(PID_VIDEO, true, cc, Some(pts), pes, video, i - k);
    }
    assert(packet_at(ts, k) =~= packet_at(video, 0));
}

proof fn lemma_not_empty(pid: u16, first: bool, cc: int, pcr: Option<u64>, payload: Seq<u8>)
    requires
        pid < 0x2000,
        payload.len() > 0,
    ensures
        packetize(pid, first, cc, pcr, payload).len() >= 188,
{
    let n = chunk_len(payload.len() as int, pcr);
    lemma_packet(pid, first, cc, pcr, payload.take(n), payload.len() as int);
}

/// What a call with an audio access unit sends: packets of the audio PID 0x101 alone, whose
/// payloads put together are the PES packet of stream 0xC0 with the unit. The first of them
/// starts the unit, and none holds a clock reference.
pub proof fn law_audio_call(mux: MpegTsMuxer, adts: Seq<u8>, pts: u64, ts: Seq<u8>)
    requires
        ts == mux.output(MuxCall::Audio { adts, pts }),
    ensures
        ts.len() % 188 == 0,
        ts.len() / 188 > 0,
        forall|i: int|
            0 <= i < ts.len() / 188 ==> {
                let pkt = #[trigger] packet_at(ts, i);
                &&& packet_pid(pkt) == 0x101
                &&& packet_starts_unit(pkt) == (i == 0)
                &&& is_laid_out(pkt, false)
            },
        stream_of(ts, 0x101) == pes_bytes(0xC0, pts, adts),
        stream_of(ts, 0x100) == Seq::<u8>::empty(),
{
    law_audio_access_unit(mux, adts, pts);
    let cc = mux.counter(Cc::Audio);
    let pes = pes_bytes(STREAM_ID_AUDIO, pts, adts);
    law_packetize(PID_AUDIO, true, cc, None, pes);
    lemma_not_empty(PID_AUDIO, true, cc, None, pes);
    assert forall|i: int| 0 <= i < ts.len() / 188 implies {
        let pkt = #[trigger] packet_at(ts, i);
        &&& packet_pid(pkt) == 0x101
        &&& packet_starts_unit(pkt) == (i == 0)
        &&& is_laid_out(pkt, false)
    } by {
        law_packets_are_laid_out(PID_AUDIO, true, cc, None, pes, ts, i);
    }
}

/// A call sends no more packets than its unit needs: each packet of the stream but the last
/// is full, as [`law_packets_are_full`] says.
pub proof fn law_calls_fill_their_packets(
    mux: MpegTsMuxer,
    unit: Seq<u8>,
    pts: u64,
    video: Seq<u8>,
    audio: Seq<u8>,
    i: int,
)
    requires
        video == mux.output(MuxCall::Video { annexb: unit, pts, keyframe: false }),
        audio == mux.output(MuxCall::Audio { adts: unit, pts }),
        0 <= i,
    ensures
        i < video.len() / 188 - 2 ==> packet_payload(packet_at(video, i)).len() == (if i == 0 {
            176int
        } else {
            184int
        }),
        i < audio.len() / 188 - 2 ==> packet_payload(packet_at(audio, i)).len() == 184,
{
    let v = pes_bytes(STREAM_ID_VIDEO, pts, unit);
    let a = pes_bytes(STREAM_ID_AUDIO, pts, unit);
    let none = Seq::<u8>::empty();
    assert(video =~= packetize(PID_VIDEO, true, mux.counter(Cc::Video), Some(pts), v)) by {
        assert(none + mux.video_packets(unit, pts) =~= mux.video_packets(unit, pts));
    }
    if i < video.len() / 188 - 2 {
        law_packets_are_full(PID_VIDEO, true, mux.counter(Cc::Video), Some(pts), v, video, i);
    }
    if i < audio.len() / 188 - 2 {
        law_packets_are_full(PID_AUDIO, true, mux.counter(Cc::Audio), None, a, audio, i);
    }
}

} // verus!
