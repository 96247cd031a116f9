//! The course of an SSDP search: which step comes after what happened.
//!
//! UDP discovery packets can be lost, so a few are sent, spaced out; then answers are taken
//! in until the window is over, and what was found is looked up. Whoever holds the socket
//! does the step that it is given and hands back what came of it, with the time that has
//! passed since the search began.

use vstd::prelude::*;

use crate::discovery::ssdp::SEARCH_REPEATS;
use crate::pipeline::time::Duration;

verus! {

/// What to do next.
#[derive(Debug, Clone, Copy, PartialEq, Eq, Structural)]
pub enum SearchStep {
    /// Open the socket.
    Bind,
    /// Send a search packet.
    Send,
    /// Pause before the next packet.
    Pause,
    /// Wait for an answer, for no longer than this.
    Receive(Duration),
    /// Look up the renderers that answered, and end.
    Enrich,
    /// End.
    End,
}

/// What came of a step.
#[derive(Debug, Clone, Copy, PartialEq, Eq, Structural)]
pub enum SearchEvent {
    /// The step did what it should: for a wait, an answer came.
    Done,
    /// The step failed: for a wait, none came in time.
    Failed,
}

/// Where the search is.
#[derive(Debug, Clone, Copy, PartialEq, Eq, Structural)]
pub enum SearchStage {
    /// The socket is being opened.
    Binding,
    /// A packet is being sent; so many were before it.
    Sending(u32),
    /// The pause after so many packets.
    Pausing(u32),
    /// An answer is awaited.
    Receiving,
    /// The search has ended.
    Ended,
}

/// What a step says: a wait by its length in nanoseconds.
pub enum SearchStepText {
    Bind,
    Send,
    Pause,
    Receive(nat),
    Enrich,
    End,
}

impl View for SearchStep {
    type V = SearchStepText;

    open spec fn view(&self) -> SearchStepText {
        match self {
            SearchStep::Bind => SearchStepText::Bind,
            SearchStep::Send => SearchStepText::Send,
            SearchStep::Pause => SearchStepText::Pause,
            SearchStep::Receive(d) => SearchStepText::Receive(d.nanoseconds()),
            SearchStep::Enrich => SearchStepText::Enrich,
            SearchStep::End => SearchStepText::End,
        }
    }
}

/// What a search is at.
pub struct SearchText {
    /// How long the search may take, in nanoseconds.
    pub window: nat,
    pub stage: SearchStage,
}

/// Answers are taken in for what is left of the window; after that, the search is over.
pub open spec fn listen(s: SearchText, elapsed: nat) -> (SearchText, SearchStepText) {
    if elapsed < s.window {
        (
            SearchText { stage: SearchStage::Receiving, ..s },
            SearchStepText::Receive((s.window - elapsed) as nat),
        )
    } else {
        (SearchText { stage: SearchStage::Ended, ..s }, SearchStepText::Enrich)
    }
}

/// What comes after what happened, `elapsed` nanoseconds after the search began. Without a
/// socket there is no search. A packet that cannot be sent ends the sending, but not the
/// search; a wait without an answer ends it.
pub open spec fn search_step(s: SearchText, event: SearchEvent, elapsed: nat) -> (
    SearchText,
    SearchStepText,
) {
    match (s.stage, event) {
        (SearchStage::Binding, SearchEvent::Done) => (
            SearchText { stage: SearchStage::Sending(0), ..s },
            SearchStepText::Send,
        ),
        (SearchStage::Binding, SearchEvent::Failed) => (
            SearchText { stage: SearchStage::Ended, ..s },
            SearchStepText::End,
        ),
        (SearchStage::Sending(n), SearchEvent::Done) => if n < SEARCH_REPEATS {
            (SearchText { stage: SearchStage::Pausing((n + 1) as u32), ..s }, SearchStepText::Pause)
        } else {
            listen(s, elapsed)
        },
        (SearchStage::Sending(n), SearchEvent::Failed) => listen(s, elapsed),
        (SearchStage::Pausing(n), _) => if n < SEARCH_REPEATS {
            (SearchText { stage: SearchStage::Sending(n), ..s }, SearchStepText::Send)
        } else {
            listen(s, elapsed)
        },
        (SearchStage::Receiving, SearchEvent::Done) => listen(s, elapsed),
        (SearchStage::Receiving, SearchEvent::Failed) => (
            SearchText { stage: SearchStage::Ended, ..s },
            SearchStepText::Enrich,
        ),
        (SearchStage::Ended, _) => (s, SearchStepText::End),
    }
}

/// The course of a search.
#[derive(Debug)]
pub struct SearchCourse {
    window: Duration,
    stage: SearchStage,
}

impl View for SearchCourse {
    type V = SearchText;

    closed spec fn view(&self) -> SearchText {
        SearchText { window: self.window.nanoseconds(), stage: self.stage }
    }
}

impl SearchCourse {
    /// A search for as long as `window`. Its first step is to open the socket.
    pub fn new(window: Duration) -> (r: (SearchCourse, SearchStep))
        ensures
            r.0@ == (SearchText { window: window.nanoseconds(), stage: SearchStage::Binding }),
            r.1 == SearchStep::Bind,
    {
        (SearchCourse { window, stage: SearchStage::Binding }, SearchStep::Bind)
    }

    /// What to do after what happened, `elapsed` after the search began.
    pub fn next(&mut self, event: SearchEvent, elapsed: Duration) -> (step: SearchStep)
        ensures
            (final(self)@, step@) == search_step(old(self)@, event, elapsed.nanoseconds()),
    {
        match (self.stage, event) {
            (SearchStage::Binding, SearchEvent::Done) => {
                self.stage = SearchStage::Sending(0);
                SearchStep::Send
            },
            (SearchStage::Binding, SearchEvent::Failed) => {
                self.stage = SearchStage::Ended;
                SearchStep::End
            },
            (SearchStage::Sending(n), SearchEvent::Done) => if n < SEARCH_REPEATS {
                self.stage = SearchStage::Pausing(n + 1);
                SearchStep::Pause
            } else {
                self.listen(elapsed)
            },
            (SearchStage::Sending(_), SearchEvent::Failed) => self.listen(elapsed),
            (SearchStage::Pausing(n), _) => if n < SEARCH_REPEATS {
                self.stage = SearchStage::Sending(n);
                SearchStep::Send
            } else {
                self.listen(elapsed)
            },
            (SearchStage::Receiving, SearchEvent::Done) => self.listen(elapsed),
            (SearchStage::Receiving, SearchEvent::Failed) => {
                self.stage = SearchStage::Ended;
                SearchStep::Enrich
            },
            (SearchStage::Ended, _) => SearchStep::End,
        }
    }

    fn listen(&mut self, elapsed: Duration) -> (step: SearchStep)
        ensures
            (final(self)@, step@) == listen(old(self)@, elapsed.nanoseconds()),
    {
        match Duration::left(self.window, elapsed) {
            Some(left) => {
                self.stage = SearchStage::Receiving;
                SearchStep::Receive(left)
            },
            None => {
                self.stage = SearchStage::Ended;
                SearchStep::Enrich
            },
        }
    }
}

// --- Laws ----------------------------------------------------------------------------

/// The state after a run of events, each at its time.
pub open spec fn search_run(s: SearchText, events: Seq<(SearchEvent, nat)>) -> SearchText
    decreases events.len(),
{
    if events.len() == 0 {
        s
    } else {
        search_step(search_run(s, events.drop_last()), events.last().0, events.last().1).0
    }
}

/// How many steps of a run are of the kind that `f` tells.
pub open spec fn steps_of(
    s: SearchText,
    events: Seq<(SearchEvent, nat)>,
    f: spec_fn(SearchStepText) -> bool,
) -> nat
    decreases events.len(),
{
    if events.len() == 0 {
        0
    } else {
        let rest = events.drop_last();
        let step = search_step(search_run(s, rest), events.last().0, events.last().1).1;
        steps_of(s, rest, f) + (if f(step) {
            1nat
        } else {
            0
        })
    }
}

/// The state in which a search begins.
pub open spec fn search_start(window: nat) -> SearchText {
    SearchText { window, stage: SearchStage::Binding }
}

/// Whatever happens, no more than the set number of packets are sent.
pub proof fn law_packets_are_limited(window: nat, events: Seq<(SearchEvent, nat)>)
    ensures
        steps_of(search_start(window), events, |step: SearchStepText| step is Send)
            <= SEARCH_REPEATS,
{
    lemma_packets_sent(window, events, |step: SearchStepText| step is Send);
}

/// How many packets were sent shows in the stage.
proof fn lemma_packets_sent(
    window: nat,
    events: Seq<(SearchEvent, nat)>,
    f: spec_fn(SearchStepText) -> bool,
)
    requires
        forall|step: SearchStepText| #[trigger] f(step) == (step is Send),
    ensures
        steps_of(search_start(window), events, f) <= SEARCH_REPEATS,
        match search_run(search_start(window), events).stage {
            SearchStage::Binding => steps_of(search_start(window), events, f) == 0,
            SearchStage::Sending(n) => n < SEARCH_REPEATS && steps_of(
                search_start(window),
                events,
                f,
            ) == n + 1,
            SearchStage::Pausing(n) => steps_of(search_start(window), events, f) == n,
            _ => true,
        },
    decreases events.len(),
{
    if events.len() > 0 {
        lemma_packets_sent(window, events.drop_last(), f);
        let s = search_run(search_start(window), events.drop_last());
        let step = search_step(s, events.last().0, events.last().1).1;
        assert(f(step) == (step is Send));
    }
}

/// What was found is looked up at most once: after it the search has ended, and nothing leads
/// on from there.
pub proof fn law_search_ends_once(s: SearchText, event: SearchEvent, elapsed: nat)
    ensures
        search_step(s, event, elapsed).1 is Enrich ==> s.stage != SearchStage::Ended
            && search_step(s, event, elapsed).0.stage == SearchStage::Ended,
        s.stage == SearchStage::Ended ==> search_step(s, event, elapsed) == (s, SearchStepText::End),
{
}

/// No wait goes past the window, and a packet that cannot be sent does not end the search
/// before the window does.
pub proof fn law_search_listens(s: SearchText, event: SearchEvent, elapsed: nat)
    ensures
        search_step(s, event, elapsed).1 matches SearchStepText::Receive(n) ==> 0 < n && elapsed + n
            == s.window,
        s.stage is Sending && event is Failed && elapsed < s.window ==> search_step(
            s,
            event,
            elapsed,
        ).1 is Receive,
{
}

/// A search in which all goes well sends three packets, with a pause after each, and then
/// waits for answers for what is left of the window.
pub proof fn law_search_sends_three(window: nat, t: Seq<nat>)
    requires
        t.len() == 7,
    ensures
        ({
            let (s1, a1) = search_step(search_start(window), SearchEvent::Done, t[0]);
            let (s2, a2) = search_step(s1, SearchEvent::Done, t[1]);
            let (s3, a3) = search_step(s2, SearchEvent::Done, t[2]);
            let (s4, a4) = search_step(s3, SearchEvent::Done, t[3]);
            let (s5, a5) = search_step(s4, SearchEvent::Done, t[4]);
            let (s6, a6) = search_step(s5, SearchEvent::Done, t[5]);
            let (s7, a7) = search_step(s6, SearchEvent::Done, t[6]);
            &&& a1 is Send && a2 is Pause && a3 is Send && a4 is Pause && a5 is Send && a6 is Pause
            &&& t[6] < window ==> a7 == SearchStepText::Receive((window - t[6]) as nat)
                && s7.stage is Receiving
            &&& t[6] >= window ==> a7 is Enrich && s7.stage is Ended
            &&& s7.window == window
        }),
{
}

/// While answers come in, a search goes on until its window is over; the first wait without
/// one ends it. Either way what was found is looked up.
pub proof fn law_search_takes_answers(s: SearchText, elapsed: nat)
    requires
        s.stage is Receiving,
    ensures
        elapsed < s.window ==> search_step(s, SearchEvent::Done, elapsed) == (
            s,
            SearchStepText::Receive((s.window - elapsed) as nat),
        ),
        elapsed >= s.window ==> search_step(s, SearchEvent::Done, elapsed).1 is Enrich,
        search_step(s, SearchEvent::Failed, elapsed).1 is Enrich,
{
}

/// Without a socket nothing is sent, awaited or looked up.
pub proof fn law_search_needs_a_socket(window: nat, elapsed: nat)
    ensures
        ({
            let (s, step) = search_step(search_start(window), SearchEvent::Failed, elapsed);
            step is End && s.stage is Ended
        }),
{
}

/// Whatever happens, the window stays what it was, and a packet that cannot be sent is the
/// last.
pub proof fn law_failed_packet_is_the_last(s: SearchText, event: SearchEvent, elapsed: nat)
    ensures
        search_step(s, event, elapsed).0.window == s.window,
        s.stage is Sending && event is Failed ==> {
            let (after, step) = search_step(s, event, elapsed);
            &&& elapsed < s.window ==> step == SearchStepText::Receive(
                (s.window - elapsed) as nat,
            ) && after.stage is Receiving
            &&& elapsed >= s.window ==> step is Enrich && after.stage is Ended
        },
        s.stage is Receiving || s.stage is Ended ==> !(search_step(s, event, elapsed).1 is Send),
{
}

} // verus!
