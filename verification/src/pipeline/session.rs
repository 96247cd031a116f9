//! Session state machine.
//!
//! The GUI and CLI are thin projections of this state. Transitions are validated by
//! [`SessionState::next`]; an invalid `(state, event)` pair returns `None` so callers
//! can treat illegal transitions as bugs rather than silently misbehaving.

use vstd::prelude::*;

verus! {

/// Why a session entered the [`SessionState::Error`] state.
#[derive(Debug, Clone, Copy, PartialEq, Eq, Structural)]
pub enum ErrorReason {
    /// An OS permission (e.g. Screen Recording) was not granted.
    PermissionDenied,
    /// The chosen device became unreachable.
    DeviceUnreachable,
    /// A protocol-level failure (handshake, stream).
    ProtocolFailed,
    /// The network changed underneath us (e.g. Wi-Fi switch).
    NetworkChanged,
}

/// High-level state of a single cast session.
#[derive(Debug, Clone, Copy, PartialEq, Eq, Structural)]
pub enum SessionState {
    /// Nothing happening.
    Idle,
    /// Scanning the network for devices.
    Discovering,
    /// A device has been chosen.
    DeviceSelected,
    /// Negotiating capabilities/quality with the device.
    Negotiating,
    /// Establishing the transport session.
    Connecting,
    /// Actively streaming.
    Streaming,
    /// Streaming but degraded (reduced quality under congestion).
    Degraded,
    /// Lost connection; attempting to reconnect.
    Reconnecting,
    /// Tearing down.
    Stopping,
    /// Terminal error with a reason.
    Error(ErrorReason),
}

/// Events that drive [`SessionState`] transitions.
#[derive(Debug, Clone, Copy, PartialEq, Eq, Structural)]
pub enum Event {
    /// Begin discovery.
    StartDiscovery,
    /// User picked a device.
    DeviceChosen,
    /// Begin capability negotiation.
    BeginNegotiate,
    /// Capabilities negotiated; ready to connect.
    CapsNegotiated,
    /// Transport session established and streaming started.
    Connected,
    /// Network congestion detected.
    Congested,
    /// Congestion cleared.
    Recovered,
    /// Connection lost mid-stream.
    ConnectionLost,
    /// User requested stop.
    Stop,
    /// Teardown complete.
    Stopped,
    /// A failure occurred.
    Failed(ErrorReason),
}

/// The state after an event, if the event is valid: the steps of a session that goes well or
/// recovers, each from the states where it belongs; a stop and a failure from every active
/// state.
pub open spec fn step(state: SessionState, event: Event) -> Option<SessionState> {
    match event {
        Event::StartDiscovery => if state == SessionState::Idle {
            Some(SessionState::Discovering)
        } else {
            None
        },
        Event::DeviceChosen => if state == SessionState::Discovering {
            Some(SessionState::DeviceSelected)
        } else {
            None
        },
        Event::BeginNegotiate => if state == SessionState::DeviceSelected {
            Some(SessionState::Negotiating)
        } else {
            None
        },
        Event::CapsNegotiated => if state == SessionState::Negotiating {
            Some(SessionState::Connecting)
        } else {
            None
        },
        Event::Connected => if state == SessionState::Connecting || state
            == SessionState::Reconnecting {
            Some(SessionState::Streaming)
        } else {
            None
        },
        Event::Congested => if state == SessionState::Streaming {
            Some(SessionState::Degraded)
        } else {
            None
        },
        Event::Recovered => if state == SessionState::Degraded {
            Some(SessionState::Streaming)
        } else {
            None
        },
        Event::ConnectionLost => if state == SessionState::Streaming || state
            == SessionState::Degraded {
            Some(SessionState::Reconnecting)
        } else {
            None
        },
        Event::Stopped => if state == SessionState::Stopping {
            Some(SessionState::Idle)
        } else {
            None
        },
        Event::Stop => if state == SessionState::Idle {
            None
        } else {
            Some(SessionState::Stopping)
        },
        Event::Failed(reason) => if state == SessionState::Idle {
            None
        } else {
            Some(SessionState::Error(reason))
        },
    }
}

/// The state after a run of events, if each is valid where it comes.
pub open spec fn run(state: SessionState, events: Seq<Event>) -> Option<SessionState>
    decreases events.len(),
{
    if events.len() == 0 {
        Some(state)
    } else {
        match run(state, events.drop_last()) {
            Some(s) => step(s, events.last()),
            None => None,
        }
    }
}

impl SessionState {
    /// Returns the next state for `event`, or `None` if the transition is invalid from
    /// the current state. `Stop` and `Failed` are accepted from any active state.
    #[must_use]
    pub fn next(&self, event: &Event) -> (r: Option<SessionState>)
        ensures
            r == step(*self, *event),
    {
        let next = match (*self, *event) {
            (SessionState::Idle, Event::StartDiscovery) => SessionState::Discovering,
            (SessionState::Discovering, Event::DeviceChosen) => SessionState::DeviceSelected,
            (SessionState::DeviceSelected, Event::BeginNegotiate) => SessionState::Negotiating,
            (SessionState::Negotiating, Event::CapsNegotiated) => SessionState::Connecting,
            (SessionState::Connecting, Event::Connected) => SessionState::Streaming,
            (SessionState::Reconnecting, Event::Connected) => SessionState::Streaming,
            (SessionState::Streaming, Event::Congested) => SessionState::Degraded,
            (SessionState::Degraded, Event::Recovered) => SessionState::Streaming,
            (SessionState::Streaming, Event::ConnectionLost) => SessionState::Reconnecting,
            (SessionState::Degraded, Event::ConnectionLost) => SessionState::Reconnecting,
            (SessionState::Stopping, Event::Stopped) => SessionState::Idle,
            // Stop and Failed are valid from any active (non-idle) state.
            (SessionState::Idle, Event::Stop) => {
                return None;
            },
            (SessionState::Idle, Event::Failed(_)) => {
                return None;
            },
            (_, Event::Stop) => SessionState::Stopping,
            (_, Event::Failed(reason)) => SessionState::Error(reason),
            _ => {
                return None;
            },
        };
        Some(next)
    }
}

/// From every active state a session can be stopped and is then idle again.
pub proof fn law_active_session_can_stop(state: SessionState)
    requires
        state != SessionState::Idle,
    ensures
        run(state, seq![Event::Stop, Event::Stopped]) == Some(SessionState::Idle),
{
    let events = seq![Event::Stop, Event::Stopped];
    assert(events.drop_last() =~= seq![Event::Stop]);
    assert(seq![Event::Stop].drop_last() =~= Seq::<Event>::empty());
    reveal_with_fuel(run, 3);
}

/// A failure is accepted in every active state and leads to the error state with its reason.
pub proof fn law_failure_is_accepted(state: SessionState, reason: ErrorReason)
    requires
        state != SessionState::Idle,
    ensures
        step(state, Event::Failed(reason)) == Some(SessionState::Error(reason)),
{
}

/// An idle session has nothing to stop and nothing that could fail: all that it accepts is
/// the start of discovery.
pub proof fn law_idle_only_starts(event: Event)
    ensures
        step(SessionState::Idle, event) is Some <==> event is StartDiscovery,
{
}

/// From the error state only a stop or another failure leads on.
pub proof fn law_error_is_terminal(reason: ErrorReason, event: Event)
    ensures
        step(SessionState::Error(reason), event) is Some <==> event is Stop || event is Failed,
{
}

/// Streaming is entered only by connecting, or by recovering from congestion.
pub proof fn law_streaming_is_entered_by_connecting(state: SessionState, event: Event)
    requires
        step(state, event) == Some(SessionState::Streaming),
    ensures
        event is Connected || event is Recovered,
{
}

/// What leads on from each state, and where to: the events of the course of a session, and
/// from every active state a stop and a failure. Everything else is refused.
pub proof fn law_what_each_state_accepts(state: SessionState, event: Event)
    ensures
        match state {
            SessionState::Idle => match event {
                Event::StartDiscovery => step(state, event) == Some(SessionState::Discovering),
                _ => step(state, event) is None,
            },
            _ => match event {
                Event::Stop => step(state, event) == Some(SessionState::Stopping),
                Event::Failed(reason) => step(state, event) == Some(SessionState::Error(reason)),
                _ => step(state, event) == (match (state, event) {
                    (SessionState::Discovering, Event::DeviceChosen) => Some(
                        SessionState::DeviceSelected,
                    ),
                    (SessionState::DeviceSelected, Event::BeginNegotiate) => Some(
                        SessionState::Negotiating,
                    ),
                    (SessionState::Negotiating, Event::CapsNegotiated) => Some(
                        SessionState::Connecting,
                    ),
                    (SessionState::Connecting, Event::Connected) => Some(SessionState::Streaming),
                    (SessionState::Streaming, Event::Congested) => Some(SessionState::Degraded),
                    (SessionState::Streaming, Event::ConnectionLost) => Some(
                        SessionState::Reconnecting,
                    ),
                    (SessionState::Degraded, Event::Recovered) => Some(SessionState::Streaming),
                    (SessionState::Degraded, Event::ConnectionLost) => Some(
                        SessionState::Reconnecting,
                    ),
                    (SessionState::Reconnecting, Event::Connected) => Some(
                        SessionState::Streaming,
                    ),
                    (SessionState::Stopping, Event::Stopped) => Some(SessionState::Idle),
                    _ => None,
                }),
            },
        },
{
}

/// A stream that loses its connection, congested or not, goes on as soon as it is connected
/// again; no other state has a connection to lose.
pub proof fn law_lost_stream_is_resumed(state: SessionState)
    ensures
        state is Streaming || state is Degraded ==> run(
            state,
            seq![Event::ConnectionLost, Event::Connected],
        ) == Some(SessionState::Streaming),
        !(state is Streaming || state is Degraded) ==> step(state, Event::ConnectionLost) is None,
{
    let events = seq![Event::ConnectionLost, Event::Connected];
    assert(events.drop_last() =~= seq![Event::ConnectionLost]);
    assert(seq![Event::ConnectionLost].drop_last() =~= Seq::<Event>::empty());
    reveal_with_fuel(run, 3);
}

/// Congestion that clears leaves the stream as it was.
pub proof fn law_congestion_clears(state: SessionState)
    requires
        step(state, Event::Congested) is Some,
    ensures
        step(step(state, Event::Congested)->0, Event::Recovered) == Some(state),
{
}

} // verus!
