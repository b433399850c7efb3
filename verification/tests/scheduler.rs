use syncwhole::scheduler::{Grant, Scheduler, SchedulerConfig};
use syncwhole::session::Address;

fn seat(port: u16) -> Address {
    Address { ip: 1, port }
}

fn scheduler(session_ceiling: usize, global_ceiling: usize) -> Scheduler {
    Scheduler::new(SchedulerConfig { session_ceiling, global_ceiling, idle_interval_ms: 5_000, turn_budget: 32 })
}

fn grant(port: u16, domain: usize, fresh: bool) -> Option<Grant> {
    Some(Grant { address: seat(port), domain, fresh, budget: 32 })
}

#[test]
fn a_scheduler_without_sessions_grants_nothing() {
    let mut s = scheduler(2, 4);
    assert_eq!(s.next(0), None);
    assert!(!s.remove_session(&seat(1)));
    assert!(!s.complete(&seat(1), 0, true, 0));
}

#[test]
fn a_session_is_added_once() {
    let mut s = scheduler(2, 4);
    assert!(s.add_session(seat(1), 2));
    assert!(!s.add_session(seat(1), 3));
    assert!(s.add_session(seat(2), 0));
    assert!(s.remove_session(&seat(1)));
    assert!(!s.remove_session(&seat(1)));
    assert!(s.add_session(seat(1), 1));
}

#[test]
fn sessions_are_served_in_turn_and_domains_within_them() {
    let mut s = scheduler(8, 8);
    assert!(s.add_session(seat(1), 2));
    assert!(s.add_session(seat(2), 2));
    assert!(s.add_session(seat(3), 1));
    assert_eq!(s.next(0), grant(1, 0, false));
    assert_eq!(s.next(0), grant(2, 0, false));
    assert_eq!(s.next(0), grant(3, 0, false));
    assert_eq!(s.next(0), grant(1, 1, false));
    assert_eq!(s.next(0), grant(2, 1, false));
    // every lane is busy
    assert_eq!(s.next(0), None);
    // a lane that has not converged comes up again
    assert!(s.complete(&seat(2), 0, false, 1));
    assert!(s.complete(&seat(1), 0, false, 1));
    // the turn had passed to the third session; the round goes on from there
    assert_eq!(s.next(1), grant(1, 0, false));
    assert_eq!(s.next(1), grant(2, 0, false));
    assert_eq!(s.next(1), None);
}

#[test]
fn a_lane_is_never_granted_twice_at_once() {
    let mut s = scheduler(8, 8);
    assert!(s.add_session(seat(1), 1));
    assert_eq!(s.next(0), grant(1, 0, false));
    assert_eq!(s.next(0), None);
    assert!(s.complete(&seat(1), 0, false, 0));
    assert!(!s.complete(&seat(1), 0, false, 0));
    assert!(!s.complete(&seat(1), 5, false, 0));
    assert_eq!(s.next(0), grant(1, 0, false));
}

#[test]
fn no_session_has_more_lanes_busy_than_its_ceiling() {
    let mut s = scheduler(2, 100);
    assert!(s.add_session(seat(1), 5));
    assert_eq!(s.next(0), grant(1, 0, false));
    assert_eq!(s.next(0), grant(1, 1, false));
    assert_eq!(s.next(0), None);
    assert!(s.complete(&seat(1), 0, false, 0));
    // the turn within the session has moved on
    assert_eq!(s.next(0), grant(1, 2, false));
    assert_eq!(s.next(0), None);
}

#[test]
fn the_node_has_no_more_lanes_busy_than_its_ceiling() {
    let mut s = scheduler(5, 3);
    assert!(s.add_session(seat(1), 2));
    assert!(s.add_session(seat(2), 2));
    assert_eq!(s.next(0), grant(1, 0, false));
    assert_eq!(s.next(0), grant(2, 0, false));
    assert_eq!(s.next(0), grant(1, 1, false));
    assert_eq!(s.next(0), None);
    assert!(s.complete(&seat(1), 0, false, 0));
    assert_eq!(s.next(0), grant(2, 1, false));
    assert_eq!(s.next(0), None);
    let mut none = scheduler(5, 0);
    assert!(none.add_session(seat(1), 2));
    assert_eq!(none.next(0), None);
}

#[test]
fn a_converged_lane_rests_before_it_starts_afresh() {
    let mut s = scheduler(8, 8);
    assert!(s.add_session(seat(1), 1));
    assert_eq!(s.next(100), grant(1, 0, false));
    assert!(s.complete(&seat(1), 0, true, 200));
    assert_eq!(s.next(200), None);
    assert_eq!(s.next(5_199), None);
    assert_eq!(s.next(5_200), grant(1, 0, true));
    assert_eq!(s.next(5_200), None);
    // the fresh reconciliation has not converged
    assert!(s.complete(&seat(1), 0, false, 5_300));
    assert_eq!(s.next(5_300), grant(1, 0, false));
}

#[test]
fn a_lane_that_has_not_converged_goes_before_one_that_has_rested() {
    let mut s = scheduler(8, 8);
    assert!(s.add_session(seat(1), 1));
    assert!(s.add_session(seat(2), 1));
    assert_eq!(s.next(0), grant(1, 0, false));
    assert_eq!(s.next(0), grant(2, 0, false));
    assert!(s.complete(&seat(1), 0, true, 0));
    assert!(s.complete(&seat(2), 0, false, 0));
    // the turn is with the first session, which has rested; the second,
    // which has not converged, is served first all the same
    assert_eq!(s.next(10_000), grant(2, 0, false));
    assert_eq!(s.next(10_000), grant(1, 0, true));
    assert_eq!(s.next(10_000), None);
}

#[test]
fn closing_a_session_frees_its_lanes() {
    let mut s = scheduler(8, 2);
    assert!(s.add_session(seat(1), 2));
    assert!(s.add_session(seat(2), 2));
    assert_eq!(s.next(0), grant(1, 0, false));
    assert_eq!(s.next(0), grant(2, 0, false));
    assert_eq!(s.next(0), None);
    assert!(s.remove_session(&seat(1)));
    assert_eq!(s.next(0), grant(2, 1, false));
    assert_eq!(s.next(0), None);
    assert!(!s.complete(&seat(1), 0, false, 0));
}

#[test]
fn a_rest_near_the_end_of_time_does_not_overflow() {
    let mut s = scheduler(8, 8);
    assert!(s.add_session(seat(1), 1));
    assert_eq!(s.next(0), grant(1, 0, false));
    assert!(s.complete(&seat(1), 0, true, i64::MAX - 10));
    assert_eq!(s.next(i64::MAX - 1), None);
    assert_eq!(s.next(i64::MAX), grant(1, 0, true));
}
