use syncwhole::peers::{PeerConfig, PeerTable, Refusal};
use syncwhole::session::{
    Address, CloseReason, SessionAction, SessionConfig, SessionEvent, SessionState,
};

fn at(port: u16) -> Address {
    Address { ip: 0x7f00_0001, port }
}

fn table(max_sessions: usize) -> PeerTable {
    PeerTable::new(PeerConfig {
        max_sessions,
        backoff_base_ms: 1_000,
        backoff_max_ms: 10_000,
        session: SessionConfig {
            versions: vec![1],
            idle_timeout_ms: 30_000,
            ping_interval_ms: 10_000,
        },
    })
}

fn greeting() -> SessionEvent {
    SessionEvent::Hello { name: None, versions: vec![1], domains: vec![String::from("test")] }
}

fn establish(t: &mut PeerTable, a: Address, now: i64) {
    assert_eq!(t.begin_dial(a, now), Ok(()));
    assert_eq!(t.handle(&a, now, SessionEvent::Connected), SessionAction::SendHello);
    assert_eq!(t.handle(&a, now, greeting()), SessionAction::NotifyConnected);
}

fn fail_dial(t: &mut PeerTable, a: Address, now: i64) {
    assert_eq!(t.begin_dial(a, now), Ok(()));
    assert_eq!(t.handle(&a, now, SessionEvent::TransportFailed), SessionAction::Disconnect);
    assert_eq!(
        t.handle(&a, now, SessionEvent::TransportClosed),
        SessionAction::NotifyClosed(CloseReason::TransportError)
    );
}

#[test]
fn a_new_table_knows_no_peer() {
    let t = table(4);
    assert_eq!(t.len(), 0);
    assert_eq!(t.connection_count(), 0);
    assert_eq!(t.live_sessions(), 0);
    assert_eq!(t.state_of(&at(1)), None);
    assert!(t.wants_dial(&at(1), 0));
}

#[test]
fn only_established_sessions_count_as_connections() {
    let mut t = table(8);
    assert_eq!(t.begin_dial(at(1), 0), Ok(()));
    assert_eq!(t.connection_count(), 0);
    assert_eq!(t.live_sessions(), 1);
    assert_eq!(t.handle(&at(1), 1, SessionEvent::Connected), SessionAction::SendHello);
    assert_eq!(t.connection_count(), 0);
    assert_eq!(t.handle(&at(1), 2, greeting()), SessionAction::NotifyConnected);
    assert_eq!(t.connection_count(), 1);
    establish(&mut t, at(2), 3);
    assert_eq!(t.connection_count(), 2);
    assert_eq!(t.handle(&at(1), 4, SessionEvent::Close), SessionAction::Disconnect);
    assert_eq!(t.connection_count(), 1);
    assert_eq!(t.live_sessions(), 1);
    assert_eq!(t.state_of(&at(1)), Some(SessionState::Closing));
}

#[test]
fn one_address_has_one_session_whichever_side_opens_it() {
    let mut t = table(8);
    assert_eq!(t.begin_dial(at(1), 0), Ok(()));
    // while the outbound session is under way, neither side may open another
    assert_eq!(t.begin_dial(at(1), 1), Err(Refusal::Duplicate));
    assert_eq!(t.accept(at(1), 1), Err(Refusal::Duplicate));
    assert_eq!(t.handle(&at(1), 2, SessionEvent::Connected), SessionAction::SendHello);
    assert_eq!(t.handle(&at(1), 3, greeting()), SessionAction::NotifyConnected);
    assert_eq!(t.accept(at(1), 4), Err(Refusal::Duplicate));
    assert_eq!(t.begin_dial(at(1), 4), Err(Refusal::Duplicate));
    assert_eq!(t.len(), 1);
    assert_eq!(t.connection_count(), 1);
    // and the other way round
    assert_eq!(t.accept(at(2), 5), Ok(SessionAction::SendHello));
    assert_eq!(t.begin_dial(at(2), 6), Err(Refusal::Duplicate));
    assert_eq!(t.handle(&at(2), 7, greeting()), SessionAction::NotifyConnected);
    assert_eq!(t.begin_dial(at(2), 8), Err(Refusal::Duplicate));
    // a closing session still holds its address
    assert_eq!(t.handle(&at(2), 9, SessionEvent::Close), SessionAction::Disconnect);
    assert_eq!(t.accept(at(2), 10), Err(Refusal::Duplicate));
    assert_eq!(
        t.handle(&at(2), 11, SessionEvent::TransportClosed),
        SessionAction::NotifyClosed(CloseReason::Shutdown)
    );
    assert_eq!(t.accept(at(2), 12), Ok(SessionAction::SendHello));
    assert_eq!(t.len(), 2);
}

#[test]
fn inbound_connections_beyond_the_limit_are_refused() {
    let mut t = table(2);
    assert_eq!(t.accept(at(1), 0), Ok(SessionAction::SendHello));
    assert_eq!(t.accept(at(2), 0), Ok(SessionAction::SendHello));
    assert_eq!(t.accept(at(3), 0), Err(Refusal::LimitReached));
    assert_eq!(t.accept(at(1), 0), Err(Refusal::LimitReached));
    assert_eq!(t.len(), 2);
    // a session that ends makes room
    assert_eq!(t.handle(&at(1), 1, SessionEvent::TransportFailed), SessionAction::Disconnect);
    assert_eq!(t.accept(at(3), 2), Ok(SessionAction::SendHello));
    assert_eq!(t.accept(at(4), 2), Err(Refusal::LimitReached));
    let mut none = table(0);
    assert_eq!(none.accept(at(1), 0), Err(Refusal::LimitReached));
}

#[test]
fn failed_attempts_are_retried_with_growing_waits() {
    let mut t = table(8);
    fail_dial(&mut t, at(1), 0);
    // first failure: one second
    assert!(!t.wants_dial(&at(1), 999));
    assert_eq!(t.begin_dial(at(1), 999), Err(Refusal::Backoff));
    assert!(t.wants_dial(&at(1), 1_000));
    fail_dial(&mut t, at(1), 1_000);
    // second failure: two seconds
    assert!(!t.wants_dial(&at(1), 2_999));
    assert!(t.wants_dial(&at(1), 3_000));
    fail_dial(&mut t, at(1), 3_000);
    // third: four seconds
    assert!(!t.wants_dial(&at(1), 6_999));
    assert!(t.wants_dial(&at(1), 7_000));
    fail_dial(&mut t, at(1), 7_000);
    // fourth: eight seconds
    assert!(!t.wants_dial(&at(1), 14_999));
    assert!(t.wants_dial(&at(1), 15_000));
    fail_dial(&mut t, at(1), 15_000);
    // fifth: sixteen would be more than the longest wait of ten
    assert!(!t.wants_dial(&at(1), 24_999));
    assert!(t.wants_dial(&at(1), 25_000));
    for round in 0..40 {
        let now = 100_000 + round * 10_000;
        fail_dial(&mut t, at(1), now);
        assert!(!t.wants_dial(&at(1), now + 9_999));
        assert!(t.wants_dial(&at(1), now + 10_000));
    }
}

#[test]
fn an_established_session_clears_the_failures() {
    let mut t = table(8);
    fail_dial(&mut t, at(1), 0);
    fail_dial(&mut t, at(1), 1_000);
    establish(&mut t, at(1), 3_000);
    assert_eq!(t.handle(&at(1), 4_000, SessionEvent::TransportFailed), SessionAction::Disconnect);
    assert_eq!(
        t.handle(&at(1), 4_001, SessionEvent::TransportClosed),
        SessionAction::NotifyClosed(CloseReason::TransportError)
    );
    // a session that was established and then lost is retried at once
    assert!(t.wants_dial(&at(1), 4_001));
    fail_dial(&mut t, at(1), 4_001);
    assert!(!t.wants_dial(&at(1), 5_000));
    assert!(t.wants_dial(&at(1), 5_001));
}

#[test]
fn a_wait_near_the_end_of_time_does_not_overflow() {
    let mut t = table(8);
    fail_dial(&mut t, at(1), i64::MAX - 5);
    assert!(!t.wants_dial(&at(1), i64::MAX - 1));
    assert!(t.wants_dial(&at(1), i64::MAX));
}

#[test]
fn fixed_peers_without_a_session_are_dialled() {
    let mut t = table(8);
    let fixed = vec![at(1), at(2), at(3), at(4)];
    assert_eq!(t.plan_dials(&fixed, 0), fixed);
    establish(&mut t, at(2), 0);
    assert_eq!(t.begin_dial(at(3), 0), Ok(()));
    fail_dial(&mut t, at(4), 0);
    assert_eq!(t.plan_dials(&fixed, 500), vec![at(1)]);
    assert_eq!(t.plan_dials(&fixed, 1_000), vec![at(1), at(4)]);
    assert_eq!(t.plan_dials(&vec![], 1_000), vec![]);
    assert_eq!(t.plan_dials(&vec![at(4), at(1), at(4)], 1_000), vec![at(4), at(1), at(4)]);
}

#[test]
fn events_for_unknown_addresses_change_nothing() {
    let mut t = table(8);
    assert_eq!(t.handle(&at(9), 0, SessionEvent::Connected), SessionAction::Idle);
    assert_eq!(t.handle(&at(9), 0, SessionEvent::TransportClosed), SessionAction::Idle);
    assert_eq!(t.len(), 0);
}

#[test]
fn only_closed_sessions_are_forgotten() {
    let mut t = table(8);
    establish(&mut t, at(1), 0);
    establish(&mut t, at(2), 0);
    assert!(!t.forget(&at(1)));
    assert!(!t.forget(&at(7)));
    assert_eq!(t.handle(&at(1), 1, SessionEvent::TransportClosed), SessionAction::NotifyClosed(CloseReason::TransportError));
    assert!(t.forget(&at(1)));
    assert_eq!(t.len(), 1);
    assert_eq!(t.state_of(&at(1)), None);
    assert_eq!(t.state_of(&at(2)), Some(SessionState::Established));
}
