//! The flow of a cast: which step comes after what happened, from the server that hosts the
//! media to the end of playback.
//!
//! Whoever holds the sockets does the step that it is given and hands back what came of it.

use vstd::prelude::*;

use crate::net::live_stream::DLNA_LIVE_FEATURES;
use crate::net::media_server::content_type_text;
use crate::net::media_server::extension;
use crate::net::media_server::DLNA_CONTENT_FEATURES;
use crate::net::upnp::didl_text;
use crate::net::upnp::law_metadata_tells_all;
use crate::net::upnp::law_protocol_info_tells_the_mime;
use crate::net::upnp::law_set_uri_tells_all;
use crate::net::upnp::play_text;
use crate::net::upnp::protocol_info_text;
use crate::net::upnp::set_uri_text;
use crate::net::upnp::stop_text;
use crate::pipeline::error::Error;
use crate::pipeline::error::ErrorKind;
use crate::sink::dlna::live_load_call;
use crate::sink::dlna::load_call;
use crate::sink::dlna::mime_for_url;
use crate::sink::dlna::play_call;
use crate::sink::dlna::stop_call;
use crate::sink::dlna::url_path;
use crate::sink::dlna::SoapCall;
use crate::sink::dlna::LIVE_MIME;

verus! {

/// What is cast.
#[derive(Debug, PartialEq, Eq)]
pub enum CastSource {
    /// A local file, which is served as this MIME type.
    File { title: String, mime: String },
    /// A URL that the renderer can reach itself.
    Link { url: String, title: String },
    /// The live stream of a screen mirror, which is served.
    Live { title: String },
}

/// What came of a step.
#[derive(Debug)]
pub enum CastEvent {
    /// The server runs and serves the media at this URL.
    ServerStarted(String),
    /// The server did not start.
    ServerFailed(Error),
    /// The renderer did what the call asked for.
    Answered,
    /// The call failed.
    CallFailed(Error),
    /// Playback is to end.
    StopRequested,
}

/// What to do next.
#[derive(Debug)]
pub enum CastStep {
    /// Start the server for the media.
    StartServer,
    /// Make the call.
    Post(SoapCall),
    /// Nothing for now: the renderer plays.
    Playing,
    /// Stop the server, and end with the error, if there is one.
    StopServer(Option<Error>),
    /// End with the error, if there is one.
    Finish(Option<Error>),
    /// Nothing: what happened does not belong here.
    Nothing,
}

/// Where the flow is.
#[derive(Debug, Clone, Copy, PartialEq, Eq, Structural)]
pub enum CastStage {
    /// The server is being started.
    Starting,
    /// The renderer is being told what to play.
    Loading,
    /// The renderer is being told to play.
    Beginning,
    /// The renderer plays.
    Running,
    /// The renderer is being told to stop.
    Stopping,
    /// The flow has ended.
    Ended,
}

/// What a source says.
pub enum SourceText {
    File { title: Seq<char>, mime: Seq<char> },
    Link { url: Seq<char>, title: Seq<char> },
    Live { title: Seq<char> },
}

/// What an event says.
pub enum EventText {
    ServerStarted(Seq<char>),
    ServerFailed((ErrorKind, Seq<char>)),
    Answered,
    CallFailed((ErrorKind, Seq<char>)),
    StopRequested,
}

/// What a step says: a call by its action and its body.
pub enum StepText {
    StartServer,
    Post(Seq<char>, Seq<char>),
    Playing,
    StopServer(Option<(ErrorKind, Seq<char>)>),
    Finish(Option<(ErrorKind, Seq<char>)>),
    Nothing,
}

impl View for CastSource {
    type V = SourceText;

    open spec fn view(&self) -> SourceText {
        match self {
            CastSource::File { title, mime } => SourceText::File { title: title@, mime: mime@ },
            CastSource::Link { url, title } => SourceText::Link { url: url@, title: title@ },
            CastSource::Live { title } => SourceText::Live { title: title@ },
        }
    }
}

impl View for CastEvent {
    type V = EventText;

    open spec fn view(&self) -> EventText {
        match self {
            CastEvent::ServerStarted(url) => EventText::ServerStarted(url@),
            CastEvent::ServerFailed(e) => EventText::ServerFailed(e@),
            CastEvent::Answered => EventText::Answered,
            CastEvent::CallFailed(e) => EventText::CallFailed(e@),
            CastEvent::StopRequested => EventText::StopRequested,
        }
    }
}

/// What an optional error says.
pub open spec fn optional_error(e: Option<Error>) -> Option<(ErrorKind, Seq<char>)> {
    match e {
        Some(e) => Some(e@),
        None => None,
    }
}

impl View for CastStep {
    type V = StepText;

    open spec fn view(&self) -> StepText {
        match self {
            CastStep::StartServer => StepText::StartServer,
            CastStep::Post(call) => StepText::Post(call.action@, call.body@),
            CastStep::Playing => StepText::Playing,
            CastStep::StopServer(e) => StepText::StopServer(optional_error(*e)),
            CastStep::Finish(e) => StepText::Finish(optional_error(*e)),
            CastStep::Nothing => StepText::Nothing,
        }
    }
}

/// Whether the media is served from here.
pub open spec fn is_hosted(source: SourceText) -> bool {
    !(source is Link)
}

/// The call that tells the renderer to load the media at `url`. The metadata names how the
/// media is served: a file as its own type, a link as its URL suggests, a live stream as one
/// that cannot be sought in.
pub open spec fn load_step(source: SourceText, url: Seq<char>) -> StepText {
    let (title, info) = match source {
        SourceText::File { title, mime } => (
            title,
            protocol_info_text(mime, DLNA_CONTENT_FEATURES@),
        ),
        SourceText::Link { url: link, title } => (
            title,
            protocol_info_text(
                content_type_text(extension(url_path(link))),
                DLNA_CONTENT_FEATURES@,
            ),
        ),
        SourceText::Live { title } => (title, protocol_info_text(LIVE_MIME@, DLNA_LIVE_FEATURES@)),
    };
    StepText::Post("SetAVTransportURI"@, set_uri_text(url, didl_text(title, url, info)))
}

/// What a flow is at.
pub struct FlowText {
    pub source: SourceText,
    pub stage: CastStage,
}

/// The first state and the first step: media that is not on a server yet needs one.
pub open spec fn flow_start(source: SourceText) -> (FlowText, StepText) {
    match source {
        SourceText::Link { url, title } => (
            FlowText { source, stage: CastStage::Loading },
            load_step(source, url),
        ),
        _ => (FlowText { source, stage: CastStage::Starting }, StepText::StartServer),
    }
}

/// The flow is over: a server that was started is stopped.
pub open spec fn over(f: FlowText, e: Option<(ErrorKind, Seq<char>)>) -> (FlowText, StepText) {
    (
        FlowText { stage: CastStage::Ended, ..f },
        if is_hosted(f.source) {
            StepText::StopServer(e)
        } else {
            StepText::Finish(e)
        },
    )
}

/// What comes after what happened.
pub open spec fn flow_step(f: FlowText, event: EventText) -> (FlowText, StepText) {
    match (f.stage, event) {
        (CastStage::Starting, EventText::ServerStarted(url)) => (
            FlowText { stage: CastStage::Loading, ..f },
            load_step(f.source, url),
        ),
        (CastStage::Starting, EventText::ServerFailed(e)) => (
            FlowText { stage: CastStage::Ended, ..f },
            StepText::Finish(Some(e)),
        ),
        (CastStage::Loading, EventText::Answered) => (
            FlowText { stage: CastStage::Beginning, ..f },
            StepText::Post("Play"@, play_text()),
        ),
        (CastStage::Beginning, EventText::Answered) => (
            FlowText { stage: CastStage::Running, ..f },
            StepText::Playing,
        ),
        (CastStage::Running, EventText::StopRequested) => (
            FlowText { stage: CastStage::Stopping, ..f },
            StepText::Post("Stop"@, stop_text()),
        ),
        (CastStage::Stopping, EventText::Answered) => over(f, None),
        (CastStage::Loading, EventText::CallFailed(e)) => over(f, Some(e)),
        (CastStage::Beginning, EventText::CallFailed(e)) => over(f, Some(e)),
        (CastStage::Stopping, EventText::CallFailed(e)) => over(f, Some(e)),
        _ => (f, StepText::Nothing),
    }
}

/// A cast, from its start to its end.
#[derive(Debug)]
pub struct CastFlow {
    source: CastSource,
    stage: CastStage,
}

impl View for CastFlow {
    type V = FlowText;

    closed spec fn view(&self) -> FlowText {
        FlowText { source: self.source@, stage: self.stage }
    }
}

impl CastFlow {
    /// A cast of `source`, and its first step.
    pub fn new(source: CastSource) -> (r: (CastFlow, CastStep))
        ensures
            (r.0@, r.1@) == flow_start(source@),
    {
        let link: Option<String> = match &source {
            CastSource::Link { url, title: _ } => Some(url.clone()),
            _ => None,
        };
        match link {
            Some(url) => {
                let flow = CastFlow { source, stage: CastStage::Loading };
                let step = flow.load(url.as_str());
                (flow, step)
            },
            None => (CastFlow { source, stage: CastStage::Starting }, CastStep::StartServer),
        }
    }

    /// What to do after what happened.
    pub fn next(&mut self, event: CastEvent) -> (step: CastStep)
        ensures
            (final(self)@, step@) == flow_step(old(self)@, event@),
    {
        match (self.stage, event) {
            (CastStage::Starting, CastEvent::ServerStarted(url)) => {
                self.stage = CastStage::Loading;
                self.load(url.as_str())
            },
            (CastStage::Starting, CastEvent::ServerFailed(e)) => {
                self.stage = CastStage::Ended;
                CastStep::Finish(Some(e))
            },
            (CastStage::Loading, CastEvent::Answered) => {
                self.stage = CastStage::Beginning;
                CastStep::Post(play_call())
            },
            (CastStage::Beginning, CastEvent::Answered) => {
                self.stage = CastStage::Running;
                CastStep::Playing
            },
            (CastStage::Running, CastEvent::StopRequested) => {
                self.stage = CastStage::Stopping;
                CastStep::Post(stop_call())
            },
            (CastStage::Stopping, CastEvent::Answered) => self.end(None),
            (CastStage::Loading, CastEvent::CallFailed(e)) => self.end(Some(e)),
            (CastStage::Beginning, CastEvent::CallFailed(e)) => self.end(Some(e)),
            (CastStage::Stopping, CastEvent::CallFailed(e)) => self.end(Some(e)),
            _ => CastStep::Nothing,
        }
    }

    fn load(&self, url: &str) -> (step: CastStep)
        ensures
            step@ == load_step(self@.source, url@),
    {
        match &self.source {
            CastSource::File { title, mime } => CastStep::Post(
                load_call(url, title.as_str(), mime.as_str()),
            ),
            CastSource::Link { url: link, title } => CastStep::Post(
                load_call(url, title.as_str(), mime_for_url(link.as_str())),
            ),
            CastSource::Live { title } => CastStep::Post(live_load_call(url, title.as_str())),
        }
    }

    fn end(&mut self, e: Option<Error>) -> (step: CastStep)
        ensures
            (final(self)@, step@) == over(old(self)@, optional_error(e)),
    {
        self.stage = CastStage::Ended;
        match &self.source {
            CastSource::Link { url: _, title: _ } => CastStep::Finish(e),
            _ => CastStep::StopServer(e),
        }
    }
}

// --- Laws ----------------------------------------------------------------------------

/// The renderer is told to play only after it has done what the call to load asked for.
pub proof fn law_play_follows_load(f: FlowText, event: EventText)
    requires
        flow_step(f, event).1 matches StepText::Post(action, _) && action == "Play"@,
    ensures
        f.stage == CastStage::Loading,
        event is Answered,
{
    reveal_strlit("Play");
    reveal_strlit("Stop");
    reveal_strlit("SetAVTransportURI");
    assert("Play"@.len() != "SetAVTransportURI"@.len());
    assert("Play"@[0] != "Stop"@[0]);
}

/// Whichever call fails, the flow ends with its error, and a server that was started is
/// stopped.
pub proof fn law_failed_call_ends(f: FlowText, e: (ErrorKind, Seq<char>))
    requires
        f.stage == CastStage::Loading || f.stage == CastStage::Beginning || f.stage
            == CastStage::Stopping,
    ensures
        flow_step(f, EventText::CallFailed(e)).0.stage == CastStage::Ended,
        flow_step(f, EventText::CallFailed(e)).1 == if is_hosted(f.source) {
            StepText::StopServer(Some(e))
        } else {
            StepText::Finish(Some(e))
        },
{
}

/// A server is stopped exactly where a flow that has one ends; a server that did not start is
/// not stopped.
pub proof fn law_server_is_stopped(f: FlowText, event: EventText)
    requires
        f.stage != CastStage::Ended,
    ensures
        flow_step(f, event).1 is StopServer <==> is_hosted(f.source) && f.stage
            != CastStage::Starting && flow_step(f, event).0.stage == CastStage::Ended,
{
}

/// Once a flow has ended, nothing leads on, so that a server is stopped once.
pub proof fn law_ended_flow_stays(f: FlowText, event: EventText)
    requires
        f.stage == CastStage::Ended,
    ensures
        flow_step(f, event) == (f, StepText::Nothing),
{
}

/// The states after a run of events.
pub open spec fn flow_run(f: FlowText, events: Seq<EventText>) -> FlowText
    decreases events.len(),
{
    if events.len() == 0 {
        f
    } else {
        flow_step(flow_run(f, events.drop_last()), events.last()).0
    }
}

/// The renderer plays only after both calls were answered, one after the other.
pub proof fn law_playing_needs_both_answers(f: FlowText, event: EventText)
    requires
        flow_step(f, event).1 is Playing,
    ensures
        f.stage == CastStage::Beginning && event is Answered,
        flow_step(f, event).0.stage == CastStage::Running,
{
}

/// A cast that goes well comes from the server over the two calls to playback, and over the
/// stop to its end.
pub proof fn law_cast_goes_through(source: SourceText, url: Seq<char>)
    requires
        is_hosted(source),
    ensures
        flow_run(
            flow_start(source).0,
            seq![EventText::ServerStarted(url), EventText::Answered, EventText::Answered],
        ).stage == CastStage::Running,
        flow_run(
            FlowText { source, stage: CastStage::Running },
            seq![EventText::StopRequested, EventText::Answered],
        ).stage == CastStage::Ended,
{
    let up = seq![EventText::ServerStarted(url), EventText::Answered, EventText::Answered];
    let down = seq![EventText::StopRequested, EventText::Answered];
    reveal_with_fuel(flow_run, 4);
    assert(up.drop_last() =~= seq![EventText::ServerStarted(url), EventText::Answered]);
    assert(up.drop_last().drop_last() =~= seq![EventText::ServerStarted(url)]);
    assert(up.drop_last().drop_last().drop_last() =~= Seq::<EventText>::empty());
    assert(down.drop_last() =~= seq![EventText::StopRequested]);
    assert(down.drop_last().drop_last() =~= Seq::<EventText>::empty());
}

/// Once its server runs at some URL, a file is loaded from that URL, under its title and as
/// its MIME type, in which it can be sought.
pub proof fn law_file_is_loaded(title: Seq<char>, mime: Seq<char>, url: Seq<char>)
    ensures
        ({
            let (f, step) = flow_start(SourceText::File { title, mime });
            &&& step is StartServer
            &&& flow_step(f, EventText::ServerStarted(url)).1 == StepText::Post(
                "SetAVTransportURI"@,
                set_uri_text(
                    url,
                    didl_text(title, url, protocol_info_text(mime, DLNA_CONTENT_FEATURES@)),
                ),
            )
        }),
{
}

/// A link needs no server: the first step tells the renderer to load it, under its title and
/// as the MIME type that its path suggests.
pub proof fn law_link_is_loaded(url: Seq<char>, title: Seq<char>)
    ensures
        flow_start(SourceText::Link { url, title }).1 == StepText::Post(
            "SetAVTransportURI"@,
            set_uri_text(
                url,
                didl_text(
                    title,
                    url,
                    protocol_info_text(
                        content_type_text(extension(url_path(url))),
                        DLNA_CONTENT_FEATURES@,
                    ),
                ),
            ),
        ),
{
}

/// Once its server runs at some URL, a live stream is loaded from that URL, under its title
/// and as a transport stream in which it cannot be sought.
pub proof fn law_live_stream_is_loaded(title: Seq<char>, url: Seq<char>)
    ensures
        ({
            let (f, step) = flow_start(SourceText::Live { title });
            &&& step is StartServer
            &&& flow_step(f, EventText::ServerStarted(url)).1 == StepText::Post(
                "SetAVTransportURI"@,
                set_uri_text(
                    url,
                    didl_text(
                        title,
                        url,
                        protocol_info_text("video/mp2t"@, DLNA_LIVE_FEATURES@),
                    ),
                ),
            )
        }),
{
}

/// What the renderer is asked to load differs wherever the title, the MIME type or the URL
/// does: nothing of the three is lost in the call.
pub proof fn law_load_tells_all(
    title: Seq<char>,
    mime: Seq<char>,
    url: Seq<char>,
    title2: Seq<char>,
    mime2: Seq<char>,
    url2: Seq<char>,
)
    requires
        load_step(SourceText::File { title, mime }, url) == load_step(
            SourceText::File { title: title2, mime: mime2 },
            url2,
        ),
    ensures
        title == title2 && mime == mime2 && url == url2,
{
    let info = protocol_info_text(mime, DLNA_CONTENT_FEATURES@);
    let info2 = protocol_info_text(mime2, DLNA_CONTENT_FEATURES@);
    law_set_uri_tells_all(
        url,
        didl_text(title, url, info),
        url2,
        didl_text(title2, url2, info2),
    );
    law_metadata_tells_all(title, url, info, title2, url2, info2);
    law_protocol_info_tells_the_mime(mime, mime2, DLNA_CONTENT_FEATURES@);
}

/// The steps of a cast that goes well, from its server to its end: start the server, load,
/// play, go on playing until a stop is asked for, stop, and stop the server.
pub proof fn law_steps_of_a_cast(source: SourceText, url: Seq<char>)
    requires
        !(source is Link),
    ensures
        ({
            let (f0, s0) = flow_start(source);
            let (f1, s1) = flow_step(f0, EventText::ServerStarted(url));
            let (f2, s2) = flow_step(f1, EventText::Answered);
            let (f3, s3) = flow_step(f2, EventText::Answered);
            let (f4, s4) = flow_step(f3, EventText::StopRequested);
            let (f5, s5) = flow_step(f4, EventText::Answered);
            &&& s0 is StartServer
            &&& s1 matches StepText::Post(action, _) && action == "SetAVTransportURI"@
            &&& s2 == StepText::Post("Play"@, play_text())
            &&& s3 is Playing
            &&& s4 == StepText::Post("Stop"@, stop_text())
            &&& s5 == StepText::StopServer(None)
            &&& f5.stage == CastStage::Ended
        }),
{
}

/// The steps of a cast of a link that goes well: there is no server to start or to stop.
pub proof fn law_steps_of_a_link(url: Seq<char>, title: Seq<char>)
    ensures
        ({
            let (f1, s1) = flow_start(SourceText::Link { url, title });
            let (f2, s2) = flow_step(f1, EventText::Answered);
            let (f3, s3) = flow_step(f2, EventText::Answered);
            let (f4, s4) = flow_step(f3, EventText::StopRequested);
            let (f5, s5) = flow_step(f4, EventText::Answered);
            &&& s1 matches StepText::Post(action, _) && action == "SetAVTransportURI"@
            &&& s2 == StepText::Post("Play"@, play_text())
            &&& s3 is Playing
            &&& s4 == StepText::Post("Stop"@, stop_text())
            &&& s5 == StepText::Finish(None)
            &&& f5.stage == CastStage::Ended
        }),
{
}

/// What does not belong where the flow is changes nothing: the flow stays, and there is no
/// step. A server event belongs to the start, an answer or a failed call to a call that is
/// under way, a stop to playback.
pub proof fn law_stray_events_change_nothing(f: FlowText, event: EventText)
    ensures
        ({
            let awaited = match event {
                EventText::ServerStarted(_) => f.stage == CastStage::Starting,
                EventText::ServerFailed(_) => f.stage == CastStage::Starting,
                EventText::StopRequested => f.stage == CastStage::Running,
                _ => f.stage == CastStage::Loading || f.stage == CastStage::Beginning || f.stage
                    == CastStage::Stopping,
            };
            &&& !awaited ==> flow_step(f, event) == (f, StepText::Nothing)
            &&& awaited ==> flow_step(f, event).0.stage != f.stage && !(flow_step(
                f,
                event,
            ).1 is Nothing)
            &&& flow_step(f, event).0.source == f.source
        }),
{
}

/// A server that does not start ends the flow with its error, and nothing is asked of the
/// renderer.
pub proof fn law_failed_server_ends(source: SourceText, e: (ErrorKind, Seq<char>))
    requires
        !(source is Link),
    ensures
        ({
            let (f, step) = flow_step(flow_start(source).0, EventText::ServerFailed(e));
            f.stage == CastStage::Ended && step == StepText::Finish(Some(e))
        }),
{
}

} // verus!
