//! The capture and encode loop of a screen mirror: which step comes after what happened.
//!
//! Whoever holds the capture, the encoder and the channel does the step that it is given
//! and hands back what came of it, until the loop has ended.

use vstd::prelude::*;

use crate::encode::encoder::config_for;
use crate::encode::encoder::EncoderConfig;
use crate::pipeline::clock::ticks;
use crate::pipeline::clock::PtsClock;
use crate::pipeline::time::Duration;

verus! {

/// What to do next.
#[derive(Debug, Clone, Copy, PartialEq, Eq, Structural)]
pub enum PumpStep {
    /// Start capturing.
    StartCapture,
    /// Wait for the next frame.
    NextFrame,
    /// Create the encoder.
    CreateEncoder(EncoderConfig),
    /// Encode the frame at this 90 kHz timestamp, and send what comes out.
    Encode(u64),
    /// Flush the encoder, stop the capture, and end.
    FinishAndStop,
    /// Stop the capture, and end.
    Stop,
    /// End.
    End,
}

/// What came of a step.
#[derive(Debug, Clone, Copy, PartialEq, Eq, Structural)]
pub enum PumpEvent {
    /// The step did what it should.
    Done,
    /// A frame of this size was captured at this time.
    Frame { width: u32, height: u32, pts: Duration },
    /// There are no more frames.
    CaptureEnded,
    /// The step failed: capture or the encoder did not start, or encoding failed.
    Failed,
    /// Nobody takes the encoded units any more.
    ReceiverGone,
}

/// Where the loop is.
#[derive(Debug, Clone, Copy, PartialEq, Eq, Structural)]
pub enum PumpStage {
    /// The capture is being started.
    Starting,
    /// The first frame, which gives the encoder's dimensions, is awaited.
    First,
    /// The encoder is being created; the first frame was captured at this time.
    Preparing(Duration),
    /// A frame is being encoded and sent.
    Encoding,
    /// A frame is awaited.
    Waiting,
    /// The loop has ended.
    Ended,
}

/// The capture and encode loop.
pub struct MirrorPump {
    fps: u32,
    bitrate_kbps: u32,
    clock: PtsClock,
    stage: PumpStage,
}

/// What a loop is at.
pub struct PumpText {
    pub fps: u32,
    pub bitrate_kbps: u32,
    /// The time of the first frame that was encoded, in nanoseconds.
    pub anchor: Option<nat>,
    pub stage: PumpStage,
}

/// The timestamp of a frame at `t` nanoseconds.
pub open spec fn frame_ticks(anchor: Option<nat>, t: nat) -> nat {
    ticks(
        match anchor {
            Some(base) => base,
            None => t,
        },
        t,
    )
}

/// The state with the clock anchored, at the latest, by a frame at `t` nanoseconds.
pub open spec fn anchored(s: PumpText, t: nat) -> PumpText {
    PumpText {
        anchor: Some(
            match s.anchor {
                Some(base) => base,
                None => t,
            },
        ),
        stage: PumpStage::Encoding,
        ..s
    }
}

/// The loop has ended with this step.
pub open spec fn ended(s: PumpText, step: PumpStep) -> (PumpText, PumpStep) {
    (PumpText { stage: PumpStage::Ended, ..s }, step)
}

/// What comes after what happened. A capture that did not start has nothing to stop. The
/// encoder is flushed when the frames or the encoding end, but not for a receiver that is
/// gone.
pub open spec fn pump_step(s: PumpText, event: PumpEvent) -> (PumpText, PumpStep) {
    match s.stage {
        PumpStage::Starting => match event {
            PumpEvent::Done => (PumpText { stage: PumpStage::First, ..s }, PumpStep::NextFrame),
            _ => ended(s, PumpStep::End),
        },
        PumpStage::First => match event {
            PumpEvent::Frame { width, height, pts } => (
                PumpText { stage: PumpStage::Preparing(pts), ..s },
                PumpStep::CreateEncoder(config_for(width, height, s.fps, s.bitrate_kbps)),
            ),
            _ => ended(s, PumpStep::Stop),
        },
        PumpStage::Preparing(first) => match event {
            PumpEvent::Done => (
                anchored(s, first.nanoseconds()),
                PumpStep::Encode(frame_ticks(s.anchor, first.nanoseconds()) as u64),
            ),
            _ => ended(s, PumpStep::Stop),
        },
        PumpStage::Encoding => match event {
            PumpEvent::Done => (PumpText { stage: PumpStage::Waiting, ..s }, PumpStep::NextFrame),
            PumpEvent::ReceiverGone => ended(s, PumpStep::Stop),
            _ => ended(s, PumpStep::FinishAndStop),
        },
        PumpStage::Waiting => match event {
            PumpEvent::Frame { width, height, pts } => (
                anchored(s, pts.nanoseconds()),
                PumpStep::Encode(frame_ticks(s.anchor, pts.nanoseconds()) as u64),
            ),
            _ => ended(s, PumpStep::FinishAndStop),
        },
        PumpStage::Ended => ended(s, PumpStep::End),
    }
}

impl View for MirrorPump {
    type V = PumpText;

    closed spec fn view(&self) -> PumpText {
        PumpText {
            fps: self.fps,
            bitrate_kbps: self.bitrate_kbps,
            anchor: self.clock.anchor(),
            stage: self.stage,
        }
    }
}

impl MirrorPump {
    /// A loop at the given frame rate and bitrate. Its first step is to start the capture.
    pub fn new(fps: u32, bitrate_kbps: u32) -> (r: (MirrorPump, PumpStep))
        ensures
            r.0@ == (PumpText { fps, bitrate_kbps, anchor: None, stage: PumpStage::Starting }),
            r.1 == PumpStep::StartCapture,
    {
        (
            MirrorPump {
                fps,
                bitrate_kbps,
                clock: PtsClock::new(),
                stage: PumpStage::Starting,
            },
            PumpStep::StartCapture,
        )
    }

    /// What to do after what happened.
    pub fn next(&mut self, event: PumpEvent) -> (step: PumpStep)
        ensures
            (final(self)@, step) == pump_step(old(self)@, event),
    {
        match self.stage {
            PumpStage::Starting => match event {
                PumpEvent::Done => {
                    self.stage = PumpStage::First;
                    PumpStep::NextFrame
                },
                _ => self.end(PumpStep::End),
            },
            PumpStage::First => match event {
                PumpEvent::Frame { width, height, pts } => {
                    self.stage = PumpStage::Preparing(pts);
                    PumpStep::CreateEncoder(
                        EncoderConfig::for_mirror(width, height, self.fps, self.bitrate_kbps),
                    )
                },
                _ => self.end(PumpStep::Stop),
            },
            PumpStage::Preparing(first) => match event {
                PumpEvent::Done => self.encode(first),
                _ => self.end(PumpStep::Stop),
            },
            PumpStage::Encoding => match event {
                PumpEvent::Done => {
                    self.stage = PumpStage::Waiting;
                    PumpStep::NextFrame
                },
                PumpEvent::ReceiverGone => self.end(PumpStep::Stop),
                _ => self.end(PumpStep::FinishAndStop),
            },
            PumpStage::Waiting => match event {
                PumpEvent::Frame { width, height, pts } => self.encode(pts),
                _ => self.end(PumpStep::FinishAndStop),
            },
            PumpStage::Ended => self.end(PumpStep::End),
        }
    }

    fn encode(&mut self, t: Duration) -> (step: PumpStep)
        ensures
            final(self)@ == anchored(old(self)@, t.nanoseconds()),
            step == PumpStep::Encode(
                frame_ticks(old(self)@.anchor, t.nanoseconds()) as u64,
            ),
    {
        let pts: u64 = self.clock.pts(t);
        self.stage = PumpStage::Encoding;
        PumpStep::Encode(pts)
    }

    fn end(&mut self, step: PumpStep) -> (r: PumpStep)
        ensures
            (final(self)@, r) == ended(old(self)@, step),
    {
        self.stage = PumpStage::Ended;
        step
    }
}

/// A loop whose capture was started ends with the capture stopped, exactly once: while it
/// runs no step stops the capture, the step that ends it does, and after that comes none.
pub proof fn law_capture_is_stopped_once(s: PumpText, event: PumpEvent)
    ensures
        ({
            let (after, step) = pump_step(s, event);
            let stops = step is Stop || step is FinishAndStop;
            &&& !(s.stage is Starting) && !(s.stage is Ended) ==> (stops <==> after.stage is Ended)
            &&& s.stage is Ended ==> after.stage is Ended && step is End
            &&& s.stage is Starting && after.stage is Ended ==> step is End
        }),
{
}

/// The first frame has timestamp 0.
pub proof fn law_first_frame_is_zero(s: PumpText, t: nat)
    requires
        s.anchor is None,
    ensures
        frame_ticks(s.anchor, t) == 0,
{
}

/// The timestamp of a later frame is never before that of an earlier one.
pub proof fn law_frames_in_order(base: nat, t: nat, later: nat)
    requires
        t <= later,
    ensures
        frame_ticks(Some(base), t) <= frame_ticks(Some(base), later),
{
}

/// The course of a mirror whose frames come at `t0`, `t1` and so on: the capture is started,
/// the first frame gives the encoder its size, and each frame is encoded at the time that
/// has passed since the first, on the 90 kHz clock; after each, the next is awaited.
pub proof fn law_course_of_a_mirror(
    fps: u32,
    bitrate_kbps: u32,
    width: u32,
    height: u32,
    t0: Duration,
    width1: u32,
    height1: u32,
    t1: Duration,
)
    ensures
        ({
            let s0 = PumpText { fps, bitrate_kbps, anchor: None, stage: PumpStage::Starting };
            let (s1, a1) = pump_step(s0, PumpEvent::Done);
            let (s2, a2) = pump_step(s1, PumpEvent::Frame { width, height, pts: t0 });
            let (s3, a3) = pump_step(s2, PumpEvent::Done);
            let (s4, a4) = pump_step(s3, PumpEvent::Done);
            let (s5, a5) = pump_step(
                s4,
                PumpEvent::Frame { width: width1, height: height1, pts: t1 },
            );
            let (s6, a6) = pump_step(s5, PumpEvent::Done);
            &&& a1 == PumpStep::NextFrame
            &&& a2 matches PumpStep::CreateEncoder(c) && c.width == width && c.height == height
                && c.fps == fps && c.bitrate_kbps == bitrate_kbps
            &&& a3 == PumpStep::Encode(0)
            &&& a4 == PumpStep::NextFrame
            &&& a5 == PumpStep::Encode(ticks(t0.nanoseconds(), t1.nanoseconds()) as u64)
            &&& a6 == PumpStep::NextFrame
            &&& s6 == s4
        }),
{
}

/// Once the first frame was encoded, all later ones are measured from it: no step moves the
/// zero point, the frame rate or the bitrate.
pub proof fn law_zero_point_stays(s: PumpText, event: PumpEvent)
    ensures
        s.anchor is Some ==> pump_step(s, event).0.anchor == s.anchor,
        pump_step(s, event).0.fps == s.fps,
        pump_step(s, event).0.bitrate_kbps == s.bitrate_kbps,
{
}

/// How a mirror ends: without a capture there is nothing to stop; without an encoder the
/// capture is stopped; once there is one it is flushed before the capture is stopped, unless
/// what was encoded has nobody to go to.
pub proof fn law_how_a_mirror_ends(s: PumpText, event: PumpEvent)
    requires
        pump_step(s, event).0.stage is Ended,
    ensures
        ({
            let step = pump_step(s, event).1;
            &&& s.stage is Starting || s.stage is Ended ==> step == PumpStep::End
            &&& s.stage is First || s.stage is Preparing ==> step == PumpStep::Stop
            &&& s.stage is Encoding && event is ReceiverGone ==> step == PumpStep::Stop
            &&& s.stage is Encoding && !(event is ReceiverGone) ==> step
                == PumpStep::FinishAndStop
            &&& s.stage is Waiting ==> step == PumpStep::FinishAndStop
        }),
{
}

/// What ends a mirror: anything but what each stage waits for.
pub proof fn law_what_ends_a_mirror(s: PumpText, event: PumpEvent)
    ensures
        pump_step(s, event).0.stage is Ended <==> match s.stage {
            PumpStage::Starting => !(event is Done),
            PumpStage::First => !(event is Frame),
            PumpStage::Preparing(_) => !(event is Done),
            PumpStage::Encoding => !(event is Done),
            PumpStage::Waiting => !(event is Frame),
            PumpStage::Ended => true,
        },
{
}

} // verus!
