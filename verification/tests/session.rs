use syncwhole::session::{
    negotiate, Address, CloseReason, Direction, PeerDescriptor, SessionAction, SessionConfig,
    SessionEvent, SessionState,
};

fn addr(port: u16) -> Address {
    Address { ip: 0x7f00_0001, port }
}

fn settings() -> SessionConfig {
    SessionConfig { versions: vec![1, 2, 3], idle_timeout_ms: 30_000, ping_interval_ms: 10_000 }
}

fn hello(versions: Vec<u32>) -> SessionEvent {
    SessionEvent::Hello {
        name: Some(String::from("peer")),
        versions,
        domains: vec![String::from("test")],
    }
}

fn established(now: i64) -> PeerDescriptor {
    let mut p = PeerDescriptor::outbound(addr(1), now);
    assert_eq!(p.step(now, SessionEvent::Connected, &settings()), SessionAction::SendHello);
    assert_eq!(p.step(now, hello(vec![2, 3, 4]), &settings()), SessionAction::NotifyConnected);
    p
}

#[test]
fn the_greatest_common_version_is_agreed_on() {
    assert_eq!(negotiate(&vec![1, 2, 3], &vec![2, 3, 4]), Some(3));
    assert_eq!(negotiate(&vec![3, 1, 2], &vec![2, 1]), Some(2));
    assert_eq!(negotiate(&vec![1, 2, 3], &vec![4, 5]), None);
    assert_eq!(negotiate(&vec![], &vec![1]), None);
    assert_eq!(negotiate(&vec![1], &vec![]), None);
    assert_eq!(negotiate(&vec![7, 7], &vec![7]), Some(7));
}

#[test]
fn an_outbound_session_starts_out_connecting() {
    let p = PeerDescriptor::outbound(addr(9), 5);
    assert_eq!(p.state(), SessionState::Connecting);
    assert_eq!(p.direction(), Direction::Outbound);
    assert_eq!(p.address(), addr(9));
    assert_eq!(p.last_activity(), 5);
    assert_eq!(p.version(), None);
    assert_eq!(p.name(), None);
    assert_eq!(p.reason(), None);
    assert!(p.is_live());
}

#[test]
fn an_inbound_session_starts_out_handshaking() {
    let p = PeerDescriptor::inbound(addr(9), 5);
    assert_eq!(p.state(), SessionState::Handshaking);
    assert_eq!(p.direction(), Direction::Inbound);
    assert!(p.is_live());
}

#[test]
fn a_session_is_established_once_a_version_is_agreed_on() {
    let mut p = PeerDescriptor::outbound(addr(1), 100);
    assert_eq!(p.step(110, SessionEvent::Connected, &settings()), SessionAction::SendHello);
    assert_eq!(p.state(), SessionState::Handshaking);
    assert_eq!(p.last_activity(), 110);
    assert_eq!(p.step(120, hello(vec![2, 3, 4]), &settings()), SessionAction::NotifyConnected);
    assert_eq!(p.state(), SessionState::Established);
    assert_eq!(p.version(), Some(3));
    assert_eq!(p.name(), Some("peer"));
    assert_eq!(p.last_activity(), 120);
    // no event reports the session as connected again
    assert_eq!(p.step(130, SessionEvent::Connected, &settings()), SessionAction::Idle);
    assert_eq!(p.step(130, SessionEvent::Traffic, &settings()), SessionAction::Idle);
    assert_eq!(p.state(), SessionState::Established);
}

#[test]
fn a_session_without_a_common_version_closes_at_once() {
    let mut p = PeerDescriptor::inbound(addr(1), 100);
    assert_eq!(
        p.step(120, hello(vec![8, 9]), &settings()),
        SessionAction::NotifyClosed(CloseReason::VersionMismatch)
    );
    assert_eq!(p.state(), SessionState::Closed);
    assert_eq!(p.reason(), Some(CloseReason::VersionMismatch));
    assert!(!p.is_live());
    assert_eq!(p.step(130, SessionEvent::TransportClosed, &settings()), SessionAction::Idle);
}

#[test]
fn silence_is_answered_with_a_ping_and_then_with_a_timeout() {
    let mut p = established(0);
    assert_eq!(p.step(9_999, SessionEvent::Tick, &settings()), SessionAction::Idle);
    assert_eq!(p.step(10_000, SessionEvent::Tick, &settings()), SessionAction::SendPing);
    // no second ping within the interval
    assert_eq!(p.step(15_000, SessionEvent::Tick, &settings()), SessionAction::Idle);
    assert_eq!(p.step(20_000, SessionEvent::Tick, &settings()), SessionAction::SendPing);
    assert_eq!(p.step(29_999, SessionEvent::Tick, &settings()), SessionAction::Idle);
    assert_eq!(p.state(), SessionState::Established);
    assert_eq!(p.step(30_000, SessionEvent::Tick, &settings()), SessionAction::Disconnect);
    assert_eq!(p.state(), SessionState::Closing);
    assert_eq!(p.reason(), Some(CloseReason::Timeout));
    assert_eq!(
        p.step(30_001, SessionEvent::TransportClosed, &settings()),
        SessionAction::NotifyClosed(CloseReason::Timeout)
    );
    assert_eq!(p.state(), SessionState::Closed);
}

#[test]
fn traffic_puts_the_timeout_off() {
    let mut p = established(0);
    assert_eq!(p.step(25_000, SessionEvent::Traffic, &settings()), SessionAction::Idle);
    assert_eq!(p.last_activity(), 25_000);
    assert_eq!(p.step(30_000, SessionEvent::Tick, &settings()), SessionAction::Idle);
    assert_eq!(p.step(54_999, SessionEvent::Tick, &settings()), SessionAction::SendPing);
    assert_eq!(p.step(55_000, SessionEvent::Tick, &settings()), SessionAction::Disconnect);
}

#[test]
fn time_far_apart_does_not_overflow() {
    let mut p = established(i64::MIN);
    assert_eq!(p.step(i64::MAX, SessionEvent::Tick, &settings()), SessionAction::Disconnect);
    assert_eq!(p.reason(), Some(CloseReason::Timeout));
}

#[test]
fn a_transport_failure_closes_the_session() {
    for start in 0..3 {
        let mut p = match start {
            0 => PeerDescriptor::outbound(addr(1), 0),
            1 => PeerDescriptor::inbound(addr(1), 0),
            _ => established(0),
        };
        assert_eq!(p.step(5, SessionEvent::TransportFailed, &settings()), SessionAction::Disconnect);
        assert_eq!(p.state(), SessionState::Closing);
        assert_eq!(p.reason(), Some(CloseReason::TransportError));
        assert_eq!(
            p.step(6, SessionEvent::TransportClosed, &settings()),
            SessionAction::NotifyClosed(CloseReason::TransportError)
        );
        assert_eq!(p.state(), SessionState::Closed);
    }
}

#[test]
fn every_way_out_reports_its_reason() {
    let cases = [
        (SessionEvent::Violation, CloseReason::ProtocolViolation),
        (SessionEvent::ResponseOverdue, CloseReason::Timeout),
        (SessionEvent::Close, CloseReason::Shutdown),
        (SessionEvent::TransportFailed, CloseReason::TransportError),
        (hello(vec![1]), CloseReason::ProtocolViolation),
    ];
    for (event, reason) in cases {
        let mut p = established(0);
        assert_eq!(p.step(5, event, &settings()), SessionAction::Disconnect);
        assert_eq!(p.reason(), Some(reason));
        assert_eq!(
            p.step(6, SessionEvent::TransportClosed, &settings()),
            SessionAction::NotifyClosed(reason)
        );
    }
    // a transport that goes down under a live session
    let mut p = established(0);
    assert_eq!(
        p.step(6, SessionEvent::TransportClosed, &settings()),
        SessionAction::NotifyClosed(CloseReason::TransportError)
    );
}

#[test]
fn a_session_is_reported_closed_exactly_once() {
    let events = || {
        vec![
            SessionEvent::Traffic,
            SessionEvent::Tick,
            SessionEvent::Violation,
            SessionEvent::Close,
            SessionEvent::TransportFailed,
            SessionEvent::TransportClosed,
            SessionEvent::TransportFailed,
            SessionEvent::TransportClosed,
            SessionEvent::Close,
            hello(vec![1]),
            SessionEvent::Connected,
            SessionEvent::Tick,
        ]
    };
    let mut p = established(0);
    let mut closed = 0;
    let mut connected = 0;
    for (i, e) in events().into_iter().enumerate() {
        match p.step(i as i64, e, &settings()) {
            SessionAction::NotifyClosed(reason) => {
                closed += 1;
                assert!(!reason.text().is_empty());
                assert_eq!(reason, CloseReason::ProtocolViolation);
            }
            SessionAction::NotifyConnected => connected += 1,
            _ => {}
        }
    }
    assert_eq!(closed, 1);
    assert_eq!(connected, 0);
    assert_eq!(p.state(), SessionState::Closed);
}

#[test]
fn reasons_have_their_words() {
    assert_eq!(CloseReason::Timeout.text(), "timeout");
    assert_eq!(CloseReason::TransportError.text(), "transport error");
    assert_eq!(CloseReason::VersionMismatch.text(), "version mismatch");
    assert_eq!(CloseReason::ProtocolViolation.text(), "protocol violation");
    assert_eq!(CloseReason::Shutdown.text(), "shutdown");
}

#[test]
fn a_session_that_is_closing_waits_for_its_transport() {
    let mut p = established(0);
    assert_eq!(p.step(5, SessionEvent::Close, &settings()), SessionAction::Disconnect);
    assert_eq!(p.step(6, SessionEvent::Traffic, &settings()), SessionAction::Idle);
    assert_eq!(p.step(7, SessionEvent::Tick, &settings()), SessionAction::Idle);
    assert_eq!(p.step(8, SessionEvent::Violation, &settings()), SessionAction::Idle);
    assert_eq!(p.state(), SessionState::Closing);
    assert_eq!(p.reason(), Some(CloseReason::Shutdown));
    assert_eq!(p.last_activity(), 5);
}
