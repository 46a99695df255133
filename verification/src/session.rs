use vstd::prelude::*;

verus! {

/// Lifecycle of one connection session. A session starts `Connecting` when
/// the listener accepts the socket, turns `Active` once a connect request
/// has registered a player, enters `Closing` when the disconnect path
/// starts — whether requested, timed out, or forced by a transport fault —
/// and is `Closed` once both loops stopped and the registries are clean.
#[derive(Debug, Clone, Copy, PartialEq, Eq, Structural)]
pub enum SessionState {
    Connecting,
    Active,
    Closing,
    Closed,
}

/// What can happen to a session, as its loops and the sweep see it.
#[derive(Debug, Clone, Copy, PartialEq, Eq, Structural)]
pub enum SessionEvent {
    /// A connect request was accepted and the player registered.
    ConnectAccepted,
    /// The client asked to disconnect.
    DisconnectRequested,
    /// The timeout sweep evicted the identity.
    TimedOut,
    /// A read or write on the transport failed fatally.
    TransportFailed,
    /// Both loops have stopped and the registries no longer know the
    /// identity.
    TeardownComplete,
}

/// Where a session goes on an event. Teardown events lead any live state to
/// `Closing`; an event that does not apply to the current state leaves it in
/// place; `Closed` is final.
pub open spec fn spec_session_transition(s: SessionState, e: SessionEvent) -> SessionState {
    match s {
        SessionState::Connecting => match e {
            SessionEvent::ConnectAccepted => SessionState::Active,
            SessionEvent::DisconnectRequested => SessionState::Closing,
            SessionEvent::TimedOut => SessionState::Closing,
            SessionEvent::TransportFailed => SessionState::Closing,
            SessionEvent::TeardownComplete => SessionState::Connecting,
        },
        SessionState::Active => match e {
            SessionEvent::ConnectAccepted => SessionState::Active,
            SessionEvent::DisconnectRequested => SessionState::Closing,
            SessionEvent::TimedOut => SessionState::Closing,
            SessionEvent::TransportFailed => SessionState::Closing,
            SessionEvent::TeardownComplete => SessionState::Active,
        },
        SessionState::Closing => match e {
            SessionEvent::TeardownComplete => SessionState::Closed,
            _ => SessionState::Closing,
        },
        SessionState::Closed => SessionState::Closed,
    }
}

/// Step the session lifecycle by one event.
pub fn session_transition(s: SessionState, e: SessionEvent) -> (r: SessionState)
    ensures
        r == spec_session_transition(s, e),
{
    match s {
        SessionState::Connecting => match e {
            SessionEvent::ConnectAccepted => SessionState::Active,
            SessionEvent::DisconnectRequested => SessionState::Closing,
            SessionEvent::TimedOut => SessionState::Closing,
            SessionEvent::TransportFailed => SessionState::Closing,
            SessionEvent::TeardownComplete => SessionState::Connecting,
        },
        SessionState::Active => match e {
            SessionEvent::ConnectAccepted => SessionState::Active,
            SessionEvent::DisconnectRequested => SessionState::Closing,
            SessionEvent::TimedOut => SessionState::Closing,
            SessionEvent::TransportFailed => SessionState::Closing,
            SessionEvent::TeardownComplete => SessionState::Active,
        },
        SessionState::Closing => match e {
            SessionEvent::TeardownComplete => SessionState::Closed,
            _ => SessionState::Closing,
        },
        SessionState::Closed => SessionState::Closed,
    }
}

/// A closed session never comes back: every event leaves `Closed` in place.
pub proof fn lemma_closed_is_final(e: SessionEvent)
    ensures
        spec_session_transition(SessionState::Closed, e) == SessionState::Closed,
{
}

} // verus!
