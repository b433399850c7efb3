use syncwhole::bisect::Verdict;
use syncwhole::cursor::{judge, Cursor};
use syncwhole::key::Key;
use syncwhole::range::KeyRange;
use syncwhole::reconcile::{clamp, reconcile_turn, ReconcileConfig, ReconcileError, TurnReport};
use syncwhole::store::{LoadResult, MemoryStore, StoreResult};

fn rkey(last: u8) -> Key {
    let mut bytes = [0u8; 64];
    bytes[63] = last;
    Key::new(bytes)
}

fn wide_key(first: u8, last: u8) -> Key {
    let mut bytes = [0u8; 64];
    bytes[0] = first;
    bytes[63] = last;
    Key::new(bytes)
}

fn store_of(records: &[(u8, &[u8])]) -> MemoryStore {
    let mut s = MemoryStore::new(String::from("test"), 1024);
    for (k, v) in records {
        assert_eq!(s.store(1, &rkey(*k), v), StoreResult::Stored);
    }
    s
}

fn contents(s: &MemoryStore) -> Vec<(Vec<u8>, Vec<u8>)> {
    s.for_each(i64::MAX, &Key::min(), &Key::max())
        .into_iter()
        .map(|r| (r.key.to_vec(), r.value))
        .collect()
}

fn config(threshold: u64, budget: u64) -> ReconcileConfig {
    ReconcileConfig { exact_threshold: threshold, turn_budget: budget }
}

#[test]
fn two_stores_with_one_private_key_each_converge_in_two_exchanges() {
    // A = {k1, k2}, B = {k1, k3}, k1 < k2 < k3, one domain, one watermark
    let mut a = store_of(&[(1, b"v1"), (2, b"v2")]);
    let mut b = store_of(&[(1, b"v1"), (3, b"v3")]);
    let mut cursor = Cursor::new(10);
    let report = reconcile_turn(&mut cursor, &mut a, &mut b, 11, 10, &config(16, 1000)).unwrap();
    assert!(report.converged);
    assert!(cursor.is_converged());
    // one record goes each way: k2 to B and k3 to A; nothing is sent for k1
    assert_eq!(report.pushed, 1);
    assert_eq!(report.pulled, 1);
    assert_eq!(report.pushed + report.pulled, 2);
    let want = contents(&store_of(&[(1, b"v1"), (2, b"v2"), (3, b"v3")]));
    assert_eq!(contents(&a), want);
    assert_eq!(contents(&b), want);
    assert_eq!(a.load(i64::MAX, &rkey(3)), LoadResult::Found(b"v3".to_vec()));
    assert_eq!(b.load(i64::MAX, &rkey(2)), LoadResult::Found(b"v2".to_vec()));
    // k1 was not written again: it still dates from time 1, the new records from 11
    assert_eq!(a.count(1, &Key::min(), &Key::max()), 2);
    assert_eq!(b.count(1, &Key::min(), &Key::max()), 2);
    assert_eq!(a.count(11, &Key::min(), &Key::max()), 3);
}

#[test]
fn a_second_pass_over_converged_stores_sends_nothing() {
    let mut a = store_of(&[(1, b"v1"), (2, b"v2")]);
    let mut b = store_of(&[(1, b"v1"), (3, b"v3")]);
    let mut cursor = Cursor::new(10);
    reconcile_turn(&mut cursor, &mut a, &mut b, 11, 10, &config(16, 1000)).unwrap();
    let mut again = Cursor::new(20);
    let report = reconcile_turn(&mut again, &mut a, &mut b, 21, 20, &config(16, 1000)).unwrap();
    assert_eq!(report, TurnReport { compared: 1, pushed: 0, pulled: 0, converged: true });
}

#[test]
fn two_empty_stores_converge_without_any_exchange() {
    let mut a = store_of(&[]);
    let mut b = store_of(&[]);
    let mut cursor = Cursor::new(10);
    let report = reconcile_turn(&mut cursor, &mut a, &mut b, 11, 10, &config(0, 1000)).unwrap();
    assert_eq!(report, TurnReport { compared: 1, pushed: 0, pulled: 0, converged: true });
    assert_eq!(a.total_count(), 0);
    assert_eq!(b.total_count(), 0);
}

#[test]
fn stores_of_different_domains_are_not_reconciled() {
    let mut a = MemoryStore::new(String::from("one"), 1024);
    let mut b = MemoryStore::new(String::from("two"), 1024);
    a.store(1, &rkey(1), b"x");
    let mut cursor = Cursor::new(10);
    assert_eq!(
        reconcile_turn(&mut cursor, &mut a, &mut b, 11, 10, &config(16, 1000)),
        Err(ReconcileError::DomainMismatch)
    );
    assert_eq!(b.total_count(), 0);
    assert_eq!(cursor.pending_ranges(), 1);
}

#[test]
fn stores_with_different_limits_are_not_reconciled() {
    let mut a = MemoryStore::new(String::from("test"), 1024);
    let mut b = MemoryStore::new(String::from("test"), 512);
    a.store(1, &rkey(1), b"x");
    let mut cursor = Cursor::new(10);
    assert_eq!(
        reconcile_turn(&mut cursor, &mut a, &mut b, 11, 10, &config(16, 1000)),
        Err(ReconcileError::LimitMismatch)
    );
    assert_eq!(b.total_count(), 0);
}

#[test]
fn bisection_finds_a_missing_key_among_many() {
    // B lacks one of A's two hundred keys; nothing is compared key by key
    // before the ranges are down to eight keys
    let mut a = MemoryStore::new(String::from("test"), 1024);
    let mut b = MemoryStore::new(String::from("test"), 1024);
    for first in 0u8..200 {
        a.store(1, &wide_key(first, 7), &[first]);
        if first != 137 {
            b.store(1, &wide_key(first, 7), &[first]);
        }
    }
    let mut cursor = Cursor::new(10);
    let report = reconcile_turn(&mut cursor, &mut a, &mut b, 11, 10, &config(8, 10_000)).unwrap();
    assert!(report.converged);
    assert_eq!(report.pushed, 1);
    assert_eq!(report.pulled, 0);
    assert_eq!(b.load(i64::MAX, &wide_key(137, 7)), LoadResult::Found(vec![137]));
    assert_eq!(contents(&a), contents(&b));
    // the cost follows the divergence, not the size of the stores
    assert!(report.compared <= 1024 + 1);
    assert!(report.compared < 40);
}

#[test]
fn a_pass_identifies_exactly_the_keys_that_one_side_lacks() {
    // stores that share most keys; the keys at multiples of 17 are in A only
    let mut state: u32 = 12345;
    let mut a = MemoryStore::new(String::from("test"), 1024);
    let mut b = MemoryStore::new(String::from("test"), 1024);
    let mut missing = 0u64;
    for i in 0u32..300 {
        state = state.wrapping_mul(1664525).wrapping_add(1013904223);
        let mut bytes = [0u8; 64];
        bytes[0] = (state >> 24) as u8;
        bytes[1] = (state >> 16) as u8;
        bytes[2] = (i >> 8) as u8;
        bytes[3] = i as u8;
        let k = Key::new(bytes);
        a.store(1, &k, &bytes[..4]);
        if i % 17 == 0 {
            missing += 1;
        } else {
            b.store(1, &k, &bytes[..4]);
        }
    }
    let b_before = contents(&b);
    let a_before = contents(&a);
    let mut cursor = Cursor::new(10);
    let report = reconcile_turn(&mut cursor, &mut a, &mut b, 11, 10, &config(4, 1_000_000)).unwrap();
    assert!(report.converged);
    assert_eq!(report.pushed, missing);
    assert_eq!(report.pulled, 0);
    assert_eq!(contents(&a), a_before);
    assert_eq!(contents(&b), a_before);
    assert_eq!(b_before.len() as u64 + missing, a_before.len() as u64);
    assert!(report.compared <= 1024 * missing + 1);
}

#[test]
fn equal_counts_above_the_threshold_hide_a_divergence() {
    // each side holds three keys that the other lacks: the counts agree
    let mut a = store_of(&[(1, b"a"), (2, b"b"), (3, b"c")]);
    let mut b = store_of(&[(4, b"d"), (5, b"e"), (6, b"f")]);
    let mut cursor = Cursor::new(10);
    let report = reconcile_turn(&mut cursor, &mut a, &mut b, 11, 10, &config(2, 1000)).unwrap();
    assert_eq!(report, TurnReport { compared: 1, pushed: 0, pulled: 0, converged: true });
    assert_eq!(a.total_count(), 3);
    assert_eq!(b.total_count(), 3);
    // at a threshold of three the whole range is compared key by key
    let mut cursor = Cursor::new(10);
    let report = reconcile_turn(&mut cursor, &mut a, &mut b, 11, 10, &config(3, 1000)).unwrap();
    assert_eq!(report, TurnReport { compared: 1, pushed: 3, pulled: 3, converged: true });
    assert_eq!(contents(&a), contents(&b));
    assert_eq!(a.total_count(), 6);
}

#[test]
fn a_budget_spreads_a_pass_over_several_turns() {
    let mut a = MemoryStore::new(String::from("test"), 1024);
    let mut b = MemoryStore::new(String::from("test"), 1024);
    for first in 0u8..100 {
        a.store(1, &wide_key(first, 1), &[first]);
        if first % 10 != 0 {
            b.store(1, &wide_key(first, 1), &[first]);
        }
    }
    let mut whole_a = MemoryStore::new(String::from("test"), 1024);
    let mut whole_b = MemoryStore::new(String::from("test"), 1024);
    for r in a.for_each(i64::MAX, &Key::min(), &Key::max()) {
        whole_a.store(1, &r.key, &r.value);
    }
    for r in b.for_each(i64::MAX, &Key::min(), &Key::max()) {
        whole_b.store(1, &r.key, &r.value);
    }
    let mut cursor = Cursor::new(10);
    let mut turns = 0;
    let mut compared = 0;
    let mut pushed = 0;
    loop {
        let report = reconcile_turn(&mut cursor, &mut a, &mut b, 11, 10, &config(4, 3)).unwrap();
        turns += 1;
        compared += report.compared;
        pushed += report.pushed;
        assert!(report.compared <= 3);
        assert_eq!(report.converged, cursor.is_converged());
        if report.converged {
            break;
        }
        assert_eq!(report.compared, 3);
        assert!(turns < 1000);
    }
    assert!(turns > 1);
    assert_eq!(pushed, 10);
    assert_eq!(contents(&a), contents(&b));
    // one turn with a large budget does the same
    let mut one = Cursor::new(10);
    let report = reconcile_turn(&mut one, &mut whole_a, &mut whole_b, 11, 10, &config(4, 100_000)).unwrap();
    assert_eq!(report.compared, compared);
    assert_eq!(report.pushed, 10);
    assert_eq!(contents(&whole_a), contents(&a));
    assert_eq!(contents(&whole_b), contents(&b));
}

#[test]
fn a_turn_without_budget_compares_nothing() {
    let mut a = store_of(&[(1, b"v1")]);
    let mut b = store_of(&[]);
    let mut cursor = Cursor::new(10);
    let report = reconcile_turn(&mut cursor, &mut a, &mut b, 11, 10, &config(16, 0)).unwrap();
    assert_eq!(report, TurnReport { compared: 0, pushed: 0, pulled: 0, converged: false });
    assert_eq!(b.total_count(), 0);
}

#[test]
fn records_written_after_the_watermark_are_not_compared() {
    let mut a = store_of(&[(1, b"v1")]);
    let mut b = store_of(&[(1, b"v1")]);
    a.store(50, &rkey(2), b"late");
    let mut cursor = Cursor::new(10);
    let report = reconcile_turn(&mut cursor, &mut a, &mut b, 60, 100, &config(16, 1000)).unwrap();
    assert_eq!(report.pushed, 0);
    assert_eq!(b.total_count(), 1);
    // a later pass sees the record
    let mut cursor = Cursor::new(55);
    let report = reconcile_turn(&mut cursor, &mut a, &mut b, 60, 100, &config(16, 1000)).unwrap();
    assert_eq!(report.pushed, 1);
    assert_eq!(b.load(i64::MAX, &rkey(2)), LoadResult::Found(b"late".to_vec()));
}

#[test]
fn the_smaller_of_watermark_and_remote_clock_is_used() {
    assert_eq!(clamp(10, 20), 10);
    assert_eq!(clamp(20, 10), 10);
    assert_eq!(clamp(-5, -5), -5);
    let mut a = store_of(&[]);
    let mut b = store_of(&[]);
    a.store(30, &rkey(2), b"x");
    // the remote clock of 20 hides the record written at 30
    let mut cursor = Cursor::new(40);
    let report = reconcile_turn(&mut cursor, &mut a, &mut b, 50, 20, &config(16, 1000)).unwrap();
    assert_eq!(report.pushed, 0);
    let mut cursor = Cursor::new(40);
    let report = reconcile_turn(&mut cursor, &mut a, &mut b, 50, 40, &config(16, 1000)).unwrap();
    assert_eq!(report.pushed, 1);
}

#[test]
fn the_verdict_follows_the_counts() {
    let wide = KeyRange::new(rkey(1), rkey(9)).unwrap();
    let single = KeyRange::new(rkey(4), rkey(4)).unwrap();
    assert_eq!(judge(&wide, 0, 0, 16), Verdict::Converged);
    assert_eq!(judge(&wide, 0, 0, 0), Verdict::Converged);
    assert_eq!(judge(&wide, 3, 0, 16), Verdict::Exchange);
    assert_eq!(judge(&wide, 16, 16, 16), Verdict::Exchange);
    assert_eq!(judge(&wide, 17, 17, 16), Verdict::Converged);
    assert_eq!(judge(&wide, 17, 16, 16), Verdict::Split);
    assert_eq!(judge(&wide, 0, 17, 16), Verdict::Split);
    assert_eq!(judge(&single, 1, 0, 0), Verdict::Exchange);
    assert_eq!(judge(&single, 1, 1, 0), Verdict::Exchange);
    assert_eq!(judge(&single, 0, 0, 0), Verdict::Converged);
}

#[test]
fn a_cursor_works_through_its_ranges_depth_first() {
    let mut cursor = Cursor::new(77);
    assert_eq!(cursor.watermark(), 77);
    assert_eq!(cursor.pending_ranges(), 1);
    assert!(!cursor.is_converged());
    let top = cursor.peek().unwrap();
    assert_eq!(top.start().to_bytes(), [0u8; 64]);
    assert_eq!(top.end().to_bytes(), [0xffu8; 64]);
    // different counts above the threshold: the range is cut
    assert_eq!(cursor.settle(5, 9, 2), Some(Verdict::Split));
    assert_eq!(cursor.pending_ranges(), 2);
    let next = cursor.peek().unwrap();
    assert_eq!(next.start().to_bytes(), [0u8; 64]);
    let mut mid = [0xffu8; 64];
    mid[0] = 0x7f;
    assert_eq!(next.end().to_bytes(), mid);
    // equal counts: the lower half is done with
    assert_eq!(cursor.settle(5, 5, 2), Some(Verdict::Converged));
    assert_eq!(cursor.pending_ranges(), 1);
    let next = cursor.peek().unwrap();
    assert_eq!(next.end().to_bytes(), [0xffu8; 64]);
    assert_eq!(cursor.settle(0, 2, 2), Some(Verdict::Exchange));
    assert!(cursor.is_converged());
    assert!(cursor.peek().is_none());
    assert_eq!(cursor.settle(1, 2, 2), None);
}

#[test]
fn a_range_in_which_a_record_was_sent_is_marked() {
    let mut a = store_of(&[(1, b"v1"), (2, b"v2")]);
    let mut b = store_of(&[(1, b"v1"), (3, b"v3")]);
    let mut cursor = Cursor::new(10);
    assert_eq!(cursor.marked_ranges(), 0);
    reconcile_turn(&mut cursor, &mut a, &mut b, 11, 10, &config(16, 1000)).unwrap();
    assert_eq!(cursor.marked_ranges(), 1);
    let marked = cursor.marked_range(0).unwrap();
    assert_eq!(marked.start().to_bytes(), [0u8; 64]);
    assert_eq!(marked.end().to_bytes(), [0xffu8; 64]);
    assert!(cursor.marked_range(1).is_none());
    // a pass that sends nothing marks nothing
    let mut again = Cursor::new(20);
    reconcile_turn(&mut again, &mut a, &mut b, 21, 20, &config(16, 1000)).unwrap();
    assert_eq!(again.marked_ranges(), 0);
}

#[test]
fn a_restart_looks_again_at_every_marked_range_by_itself() {
    let mut a = MemoryStore::new(String::from("test"), 1024);
    let mut b = MemoryStore::new(String::from("test"), 1024);
    for first in 0u8..200 {
        a.store(1, &wide_key(first, 7), &[first]);
        if first != 20 && first != 137 {
            b.store(1, &wide_key(first, 7), &[first]);
        }
    }
    let mut cursor = Cursor::new(10);
    let report = reconcile_turn(&mut cursor, &mut a, &mut b, 11, 10, &config(8, 10_000)).unwrap();
    assert!(report.converged);
    assert_eq!(report.pushed, 2);
    assert_eq!(cursor.marked_ranges(), 2);
    let fresh = cursor.restart(20);
    assert_eq!(fresh.watermark(), 20);
    assert_eq!(fresh.marked_ranges(), 0);
    // two marked ranges and the three stretches around them
    assert_eq!(fresh.pending_ranges(), 5);
    let marked: Vec<([u8; 64], [u8; 64])> = (0..2)
        .map(|i| cursor.marked_range(i).unwrap())
        .map(|r| (r.start().to_bytes(), r.end().to_bytes()))
        .collect();
    // the work list fills the key space in rising order, the highest range on top
    let mut work = fresh.clone();
    let mut ranges = Vec::new();
    while let Some(top) = work.peek() {
        ranges.push((top.start().to_bytes(), top.end().to_bytes()));
        // equal counts above the threshold: the range is done with
        assert!(work.settle(100, 100, 8).is_some());
    }
    ranges.reverse();
    assert_eq!(ranges.len(), 5);
    assert_eq!(ranges[0].0, [0u8; 64]);
    assert_eq!(ranges[4].1, [0xffu8; 64]);
    for pair in ranges.windows(2) {
        let end = Key::new(pair[0].1);
        let start = Key::new(pair[1].0);
        assert_eq!(end.successor().unwrap().to_bytes(), start.to_bytes());
        assert_eq!(start.predecessor().unwrap().to_bytes(), end.to_bytes());
    }
    for m in &marked {
        assert!(ranges.contains(m));
    }
    // run over converged stores, the fresh pass sends nothing
    let mut fresh = fresh;
    let report = reconcile_turn(&mut fresh, &mut a, &mut b, 21, 20, &config(8, 10_000)).unwrap();
    assert!(report.converged);
    assert_eq!((report.pushed, report.pulled), (0, 0));
    assert_eq!(report.compared, 5);
}

#[test]
fn a_restart_without_marks_starts_with_the_whole_key_space() {
    let cursor = Cursor::new(10);
    let fresh = cursor.restart(30);
    assert_eq!(fresh.pending_ranges(), 1);
    let top = fresh.peek().unwrap();
    assert_eq!(top.start().to_bytes(), [0u8; 64]);
    assert_eq!(top.end().to_bytes(), [0xffu8; 64]);
}

#[test]
fn a_restart_finds_what_equal_counts_hid() {
    // pass one repairs the low keys; meanwhile both sides gain a key in the
    // range that was repaired, so that the counts of the whole agree
    let mut a = MemoryStore::new(String::from("test"), 1024);
    let mut b = MemoryStore::new(String::from("test"), 1024);
    for first in 0u8..40 {
        a.store(1, &wide_key(first, 0), &[first]);
        b.store(1, &wide_key(first, 0), &[first]);
    }
    a.store(1, &wide_key(200, 1), b"a-only");
    let mut cursor = Cursor::new(10);
    let report = reconcile_turn(&mut cursor, &mut a, &mut b, 11, 10, &config(4, 10_000)).unwrap();
    assert_eq!(report.pushed, 1);
    assert_eq!(cursor.marked_ranges(), 1);
    let marked = cursor.marked_range(0).unwrap();
    assert!(marked.contains(&wide_key(200, 1)));
    // one new key on each side, both in the marked range
    let mut k1 = marked.start();
    let mut k2 = marked.end();
    if k1.same(&wide_key(200, 1)) {
        k1 = k1.successor().unwrap();
    }
    if k2.same(&wide_key(200, 1)) {
        k2 = k2.predecessor().unwrap();
    }
    a.store(15, &k1, b"new in a");
    b.store(15, &k2, b"new in b");
    // a pass from the whole key space sees 42 keys on either side
    let mut plain = Cursor::new(20);
    let mut a2 = MemoryStore::new(String::from("test"), 1024);
    let mut b2 = MemoryStore::new(String::from("test"), 1024);
    for r in a.for_each(i64::MAX, &Key::min(), &Key::max()) {
        a2.store(15, &r.key, &r.value);
    }
    for r in b.for_each(i64::MAX, &Key::min(), &Key::max()) {
        b2.store(15, &r.key, &r.value);
    }
    let report = reconcile_turn(&mut plain, &mut a2, &mut b2, 21, 20, &config(4, 10_000)).unwrap();
    assert_eq!((report.pushed, report.pulled), (0, 0));
    // the restarted pass compares the marked range by itself
    let mut fresh = cursor.restart(20);
    let report = reconcile_turn(&mut fresh, &mut a, &mut b, 21, 20, &config(4, 10_000)).unwrap();
    assert!(report.converged);
    assert_eq!((report.pushed, report.pulled), (1, 1));
    assert_eq!(contents(&a), contents(&b));
}
