use syncwhole::exchange::Violation;
use syncwhole::key::Key;
use syncwhole::service::{answer, receive_record, serve, Request, Response};
use syncwhole::session::{
    Address, CloseReason, PeerDescriptor, SessionAction, SessionConfig, SessionEvent, SessionState,
};
use syncwhole::store::{LoadResult, MemoryStore, StoreResult};

fn skey(last: u8) -> Key {
    let mut bytes = [0u8; 64];
    bytes[63] = last;
    Key::new(bytes)
}

fn rules() -> SessionConfig {
    SessionConfig { versions: vec![1], idle_timeout_ms: 30_000, ping_interval_ms: 10_000 }
}

fn peer() -> PeerDescriptor {
    let mut p = PeerDescriptor::inbound(Address { ip: 1, port: 2 }, 0);
    let hello = SessionEvent::Hello { name: None, versions: vec![1], domains: vec![] };
    assert_eq!(p.step(0, hello, &rules()), SessionAction::NotifyConnected);
    p
}

fn store() -> MemoryStore {
    let mut s = MemoryStore::new(String::from("test"), 8);
    assert_eq!(s.store(10, &skey(1), b"one"), StoreResult::Stored);
    assert_eq!(s.store(20, &skey(5), b"five"), StoreResult::Stored);
    assert_eq!(s.store(30, &skey(9), b"nine"), StoreResult::Stored);
    s
}

fn domain() -> String {
    String::from("test")
}

#[test]
fn a_ping_is_answered_with_a_pong() {
    let (mut s, mut p) = (store(), peer());
    let (response, action) = serve(&mut s, &mut p, 100, Request::Ping, &rules());
    assert!(matches!(response, Some(Response::Pong)));
    assert_eq!(action, SessionAction::Idle);
    assert_eq!(p.last_activity(), 100);
}

#[test]
fn a_range_count_reports_the_watermark_it_used() {
    let (mut s, mut p) = (store(), peer());
    let ask = Request::RangeCount { domain: domain(), start: Key::min(), end: Key::max(), watermark: 25 };
    let (response, action) = serve(&mut s, &mut p, 100, ask, &rules());
    match response {
        Some(Response::RangeCount { count, watermark }) => {
            assert_eq!(count, 2);
            assert_eq!(watermark, 25);
        }
        other => panic!("unexpected answer: {:?}", other),
    }
    assert_eq!(action, SessionAction::Idle);
    // a watermark ahead of the node's clock is brought back to it
    let ask = Request::RangeCount { domain: domain(), start: skey(2), end: Key::max(), watermark: 500 };
    let (response, _) = serve(&mut s, &mut p, 20, ask, &rules());
    match response {
        Some(Response::RangeCount { count, watermark }) => {
            assert_eq!(count, 1);
            assert_eq!(watermark, 20);
        }
        other => panic!("unexpected answer: {:?}", other),
    }
}

#[test]
fn a_key_list_comes_in_rising_order() {
    let (mut s, mut p) = (store(), peer());
    let ask = Request::KeyList { domain: domain(), start: skey(2), end: skey(9), watermark: 100 };
    let (response, _) = serve(&mut s, &mut p, 100, ask, &rules());
    match response {
        Some(Response::KeyList { keys }) => {
            let lasts: Vec<u8> = keys.iter().map(|k| k.to_bytes()[63]).collect();
            assert_eq!(lasts, vec![5, 9]);
        }
        other => panic!("unexpected answer: {:?}", other),
    }
}

#[test]
fn a_record_request_is_answered_with_the_value_or_not_found() {
    let (mut s, mut p) = (store(), peer());
    let ask = Request::RecordRequest { domain: domain(), key: skey(5) };
    let (response, _) = serve(&mut s, &mut p, 100, ask, &rules());
    match response {
        Some(Response::Record { value }) => assert_eq!(value, b"five".to_vec()),
        other => panic!("unexpected answer: {:?}", other),
    }
    let ask = Request::RecordRequest { domain: domain(), key: skey(6) };
    let (response, _) = serve(&mut s, &mut p, 100, ask, &rules());
    assert!(matches!(response, Some(Response::NotFound)));
    assert_eq!(p.state(), SessionState::Established);
}

#[test]
fn a_pushed_record_is_stored() {
    let (mut s, mut p) = (store(), peer());
    let push = Request::RecordPush { domain: domain(), key: skey(7), value: b"seven".to_vec() };
    let (response, action) = serve(&mut s, &mut p, 100, push, &rules());
    assert!(response.is_none());
    assert_eq!(action, SessionAction::Idle);
    assert_eq!(s.load(100, &skey(7)), LoadResult::Found(b"seven".to_vec()));
    assert_eq!(s.load(99, &skey(7)), LoadResult::NotFound);
    assert_eq!(s.total_count(), 4);
    assert_eq!(p.state(), SessionState::Established);
}

#[test]
fn an_oversized_push_closes_the_session_and_leaves_the_store_alone() {
    let (mut s, mut p) = (store(), peer());
    let push = Request::RecordPush { domain: domain(), key: skey(7), value: b"123456789".to_vec() };
    let (response, action) = serve(&mut s, &mut p, 100, push, &rules());
    assert!(response.is_none());
    assert_eq!(action, SessionAction::Disconnect);
    assert_eq!(p.state(), SessionState::Closing);
    assert_eq!(p.reason(), Some(CloseReason::ProtocolViolation));
    assert_eq!(p.reason().unwrap().text(), "protocol violation");
    assert_eq!(s.total_count(), 3);
    assert_eq!(s.load(i64::MAX, &skey(7)), LoadResult::NotFound);
    assert_eq!(
        p.step(101, SessionEvent::TransportClosed, &rules()),
        SessionAction::NotifyClosed(CloseReason::ProtocolViolation)
    );
    // a value of exactly the largest size is taken
    let (mut s, mut p) = (store(), peer());
    let push = Request::RecordPush { domain: domain(), key: skey(7), value: b"12345678".to_vec() };
    let (_, action) = serve(&mut s, &mut p, 100, push, &rules());
    assert_eq!(action, SessionAction::Idle);
    assert_eq!(s.total_count(), 4);
}

#[test]
fn an_oversized_answer_to_a_record_request_closes_the_session() {
    let (mut s, mut p) = (store(), peer());
    let (outcome, action) = receive_record(&mut s, &mut p, 100, &skey(7), b"123456789", &rules());
    assert_eq!(outcome, Err(Violation::OversizedValue));
    assert_eq!(action, SessionAction::Disconnect);
    assert_eq!(p.reason(), Some(CloseReason::ProtocolViolation));
    assert_eq!(s.total_count(), 3);
    let (mut s, mut p) = (store(), peer());
    let (outcome, action) = receive_record(&mut s, &mut p, 100, &skey(5), b"five", &rules());
    assert_eq!(outcome, Ok(StoreResult::Duplicate));
    assert_eq!(action, SessionAction::Idle);
    let (outcome, _) = receive_record(&mut s, &mut p, 100, &skey(5), b"FIVE", &rules());
    assert_eq!(outcome, Ok(StoreResult::Stored));
}

#[test]
fn a_request_for_another_domain_breaks_the_protocol() {
    let (mut s, mut p) = (store(), peer());
    let ask = Request::RecordRequest { domain: String::from("other"), key: skey(5) };
    let (response, action) = serve(&mut s, &mut p, 100, ask, &rules());
    assert!(response.is_none());
    assert_eq!(action, SessionAction::Disconnect);
    assert_eq!(p.reason(), Some(CloseReason::ProtocolViolation));
    let (mut s, mut p) = (store(), peer());
    let push = Request::RecordPush { domain: String::from("other"), key: skey(7), value: vec![1] };
    let (_, action) = serve(&mut s, &mut p, 100, push, &rules());
    assert_eq!(action, SessionAction::Disconnect);
    assert_eq!(s.total_count(), 3);
}

#[test]
fn a_request_before_the_greeting_breaks_the_protocol() {
    let mut s = store();
    let mut p = PeerDescriptor::inbound(Address { ip: 1, port: 2 }, 0);
    let (response, action) = serve(&mut s, &mut p, 100, Request::Ping, &rules());
    assert!(response.is_none());
    assert_eq!(action, SessionAction::Disconnect);
    assert_eq!(p.state(), SessionState::Closing);
}

#[test]
fn answer_names_the_breach() {
    let mut s = store();
    let ask = Request::KeyList { domain: String::from("other"), start: Key::min(), end: Key::max(), watermark: 1 };
    assert_eq!(answer(&mut s, 100, ask).unwrap_err(), Violation::WrongDomain);
    let ask = Request::RangeCount { domain: String::from("other"), start: Key::min(), end: Key::max(), watermark: 1 };
    assert_eq!(answer(&mut s, 100, ask).unwrap_err(), Violation::WrongDomain);
    let push = Request::RecordPush { domain: domain(), key: skey(7), value: vec![0u8; 9] };
    assert_eq!(answer(&mut s, 100, push).unwrap_err(), Violation::OversizedValue);
    let push = Request::RecordPush { domain: String::from("other"), key: skey(7), value: vec![0u8; 9] };
    assert_eq!(answer(&mut s, 100, push).unwrap_err(), Violation::WrongDomain);
    assert_eq!(s.total_count(), 3);
    assert!(matches!(answer(&mut s, 100, Request::Ping), Ok(Some(Response::Pong))));
}
