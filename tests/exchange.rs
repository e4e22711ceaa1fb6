use ipp_print::operation::SessionError;
use ipp_print::session::{step, SessionEvent, SessionState};

#[test]
fn full_exchange_succeeds() {
    let s = SessionState::Idle;
    let s = step(s, SessionEvent::AttributesAnswered(0x0000));
    assert_eq!(s, SessionState::AttributesQueried);
    let s = step(s, SessionEvent::JobReady);
    assert_eq!(s, SessionState::JobBuilt);
    let s = step(s, SessionEvent::RequestSent);
    assert_eq!(s, SessionState::Sent);
    let s = step(s, SessionEvent::JobAnswered(0x0001));
    assert_eq!(s, SessionState::ResponseReceived);
    assert_eq!(step(s, SessionEvent::TransportFailed), SessionState::ResponseReceived);
}

#[test]
fn attribute_query_is_optional() {
    assert_eq!(step(SessionState::Idle, SessionEvent::JobReady), SessionState::JobBuilt);
}

#[test]
fn failures_end_the_exchange() {
    let s = step(SessionState::Sent, SessionEvent::JobAnswered(0x0400));
    assert_eq!(s, SessionState::Failed(SessionError::UnsupportedStatus(0x0400)));
    assert_eq!(step(s, SessionEvent::JobReady), s);
    assert_eq!(
        step(SessionState::JobBuilt, SessionEvent::TransportFailed),
        SessionState::Failed(SessionError::TransportError)
    );
    assert_eq!(
        step(SessionState::Sent, SessionEvent::ResponseMalformed),
        SessionState::Failed(SessionError::MalformedMessage)
    );
    assert_eq!(
        step(SessionState::Idle, SessionEvent::AttributesAnswered(0x0500)),
        SessionState::Failed(SessionError::UnsupportedStatus(0x0500))
    );
}

#[test]
fn out_of_order_events_are_ignored() {
    assert_eq!(step(SessionState::Idle, SessionEvent::RequestSent), SessionState::Idle);
    assert_eq!(step(SessionState::JobBuilt, SessionEvent::JobAnswered(0)), SessionState::JobBuilt);
    assert_eq!(step(SessionState::Sent, SessionEvent::AttributesAnswered(0)), SessionState::Sent);
}
