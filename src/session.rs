//! The decisions of a print exchange, as a state machine. The caller does
//! the sending and receiving and reports what happened; no step retries.
use vstd::prelude::*;
use crate::operation::SessionError;
use crate::status::status_is_success;
use crate::status::is_success;

verus! {

#[derive(Debug, Clone, Copy, PartialEq, Eq, Structural)]
pub enum SessionState {
    Idle,
    AttributesQueried,
    JobBuilt,
    Sent,
    /// Terminal: the printer accepted the job.
    ResponseReceived,
    /// Terminal: the exchange ended with this error.
    Failed(SessionError),
}

/// What happened since the last step.
#[derive(Debug, Clone, Copy, PartialEq, Eq, Structural)]
pub enum SessionEvent {
    /// The printer answered the attribute query with this status.
    AttributesAnswered(u16),
    /// The Print-Job request has been built.
    JobReady,
    /// The request has been handed to the transport.
    RequestSent,
    /// The printer answered the job with this status.
    JobAnswered(u16),
    /// The transport failed.
    TransportFailed,
    /// The response could not be read as a message.
    ResponseMalformed,
}

pub open spec fn is_terminal(s: SessionState) -> bool {
    s is ResponseReceived || s is Failed
}

/// The next state. The attribute query is optional; every other step comes
/// in order. A failure ends the exchange; an event out of order leaves the
/// state as it was.
pub open spec fn next_state(s: SessionState, e: SessionEvent) -> SessionState {
    if is_terminal(s) {
        s
    } else {
        match e {
            SessionEvent::TransportFailed => SessionState::Failed(SessionError::TransportError),
            SessionEvent::ResponseMalformed => SessionState::Failed(SessionError::MalformedMessage),
            SessionEvent::AttributesAnswered(code) => if s is Idle {
                if status_is_success(code) {
                    SessionState::AttributesQueried
                } else {
                    SessionState::Failed(SessionError::UnsupportedStatus(code))
                }
            } else {
                s
            },
            SessionEvent::JobReady => if s is Idle || s is AttributesQueried {
                SessionState::JobBuilt
            } else {
                s
            },
            SessionEvent::RequestSent => if s is JobBuilt {
                SessionState::Sent
            } else {
                s
            },
            SessionEvent::JobAnswered(code) => if s is Sent {
                if status_is_success(code) {
                    SessionState::ResponseReceived
                } else {
                    SessionState::Failed(SessionError::UnsupportedStatus(code))
                }
            } else {
                s
            },
        }
    }
}

/// Takes one step of the exchange.
pub fn step(s: SessionState, e: SessionEvent) -> (r: SessionState)
    ensures
        r == next_state(s, e),
{
    match s {
        SessionState::ResponseReceived | SessionState::Failed(_) => s,
        _ => match e {
            SessionEvent::TransportFailed => SessionState::Failed(SessionError::TransportError),
            SessionEvent::ResponseMalformed => SessionState::Failed(SessionError::MalformedMessage),
            SessionEvent::AttributesAnswered(code) => match s {
                SessionState::Idle => if is_success(code) {
                    SessionState::AttributesQueried
                } else {
                    SessionState::Failed(SessionError::UnsupportedStatus(code))
                },
                _ => s,
            },
            SessionEvent::JobReady => match s {
                SessionState::Idle | SessionState::AttributesQueried => SessionState::JobBuilt,
                _ => s,
            },
            SessionEvent::RequestSent => match s {
                SessionState::JobBuilt => SessionState::Sent,
                _ => s,
            },
            SessionEvent::JobAnswered(code) => match s {
                SessionState::Sent => if is_success(code) {
                    SessionState::ResponseReceived
                } else {
                    SessionState::Failed(SessionError::UnsupportedStatus(code))
                },
                _ => s,
            },
        },
    }
}

/// Once the exchange has ended, no event changes its state.
pub proof fn lemma_terminal_stays(s: SessionState, e: SessionEvent)
    requires
        is_terminal(s),
    ensures
        next_state(s, e) == s,
{
}

} // verus!
