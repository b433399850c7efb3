use syncwhole::key::Key;
use syncwhole::store::{LoadResult, MemoryStore, StoreResult};

fn key(last: u8) -> Key {
    let mut bytes = [0u8; 64];
    bytes[63] = last;
    Key::new(bytes)
}

fn sample() -> MemoryStore {
    let mut s = MemoryStore::new(String::from("test"), 1024);
    assert_eq!(s.store(10, &key(5), b"five"), StoreResult::Stored);
    assert_eq!(s.store(20, &key(1), b"one"), StoreResult::Stored);
    assert_eq!(s.store(30, &key(9), b"nine"), StoreResult::Stored);
    assert_eq!(s.store(40, &key(3), b"three"), StoreResult::Stored);
    s
}

#[test]
fn a_new_store_is_empty() {
    let s = MemoryStore::new(String::from("test"), 1024);
    assert_eq!(s.domain(), "test");
    assert_eq!(s.max_value_size(), 1024);
    assert_eq!(s.total_count(), 0);
    assert_eq!(s.count(i64::MAX, &Key::min(), &Key::max()), 0);
    assert!(s.for_each(i64::MAX, &Key::min(), &Key::max()).is_empty());
    assert_eq!(s.load(i64::MAX, &key(1)), LoadResult::NotFound);
}

#[test]
fn load_finds_what_was_stored() {
    let s = sample();
    assert_eq!(s.load(100, &key(5)), LoadResult::Found(b"five".to_vec()));
    assert_eq!(s.load(100, &key(1)), LoadResult::Found(b"one".to_vec()));
    assert_eq!(s.load(100, &key(2)), LoadResult::NotFound);
    assert_eq!(s.total_count(), 4);
}

#[test]
fn storing_the_same_value_twice_is_a_duplicate() {
    let mut s = sample();
    assert_eq!(s.store(50, &key(7), b"seven"), StoreResult::Stored);
    let before: Vec<_> = s
        .for_each(i64::MAX, &Key::min(), &Key::max())
        .into_iter()
        .map(|r| (r.key.to_vec(), r.value))
        .collect();
    assert_eq!(s.store(60, &key(7), b"seven"), StoreResult::Duplicate);
    let after: Vec<_> = s
        .for_each(i64::MAX, &Key::min(), &Key::max())
        .into_iter()
        .map(|r| (r.key.to_vec(), r.value))
        .collect();
    assert_eq!(before, after);
    // the duplicate kept the time of the first write
    assert_eq!(s.load(50, &key(7)), LoadResult::Found(b"seven".to_vec()));
    assert_eq!(s.total_count(), 5);
}

#[test]
fn storing_a_different_value_replaces_the_old_one() {
    let mut s = sample();
    assert_eq!(s.store(50, &key(5), b"FIVE"), StoreResult::Stored);
    assert_eq!(s.load(100, &key(5)), LoadResult::Found(b"FIVE".to_vec()));
    assert_eq!(s.total_count(), 4);
    // the record now dates from the second write
    assert_eq!(s.load(49, &key(5)), LoadResult::NotFound);
    assert_eq!(s.load(50, &key(5)), LoadResult::Found(b"FIVE".to_vec()));
    // the other keys are as they were
    assert_eq!(s.load(100, &key(1)), LoadResult::Found(b"one".to_vec()));
    assert_eq!(s.load(100, &key(9)), LoadResult::Found(b"nine".to_vec()));
}

#[test]
fn a_value_larger_than_the_store_admits_is_rejected() {
    let mut s = MemoryStore::new(String::from("test"), 4);
    assert_eq!(s.store(1, &key(1), b"12345"), StoreResult::Rejected);
    assert_eq!(s.total_count(), 0);
    assert_eq!(s.store(1, &key(1), b"1234"), StoreResult::Stored);
    assert_eq!(s.store(1, &key(2), b""), StoreResult::Stored);
    assert_eq!(s.total_count(), 2);
}

#[test]
fn count_takes_both_ends_of_the_range() {
    let s = sample();
    assert_eq!(s.count(100, &Key::min(), &Key::max()), 4);
    assert_eq!(s.count(100, &key(1), &key(9)), 4);
    assert_eq!(s.count(100, &key(2), &key(8)), 2);
    assert_eq!(s.count(100, &key(3), &key(5)), 2);
    assert_eq!(s.count(100, &key(4), &key(4)), 0);
    assert_eq!(s.count(100, &key(5), &key(5)), 1);
    assert_eq!(s.count(100, &key(9), &key(1)), 0);
}

#[test]
fn a_query_sees_the_records_written_by_its_watermark() {
    let s = sample();
    assert_eq!(s.count(9, &Key::min(), &Key::max()), 0);
    assert_eq!(s.count(10, &Key::min(), &Key::max()), 1);
    assert_eq!(s.count(25, &Key::min(), &Key::max()), 2);
    assert_eq!(s.count(40, &Key::min(), &Key::max()), 4);
    assert_eq!(s.load(19, &key(1)), LoadResult::NotFound);
    assert_eq!(s.load(20, &key(1)), LoadResult::Found(b"one".to_vec()));
    let keys: Vec<_> = s.key_list(30, &Key::min(), &Key::max()).iter().map(|k| k.to_vec()[63]).collect();
    assert_eq!(keys, vec![1, 5, 9]);
    // the total does not depend on a watermark
    assert_eq!(s.total_count(), 4);
}

#[test]
fn for_each_hands_out_the_records_in_key_order() {
    let s = sample();
    let all = s.for_each(100, &Key::min(), &Key::max());
    let seen: Vec<(u8, Vec<u8>)> = all.iter().map(|r| (r.key.to_vec()[63], r.value.clone())).collect();
    assert_eq!(
        seen,
        vec![
            (1, b"one".to_vec()),
            (3, b"three".to_vec()),
            (5, b"five".to_vec()),
            (9, b"nine".to_vec())
        ]
    );
    let some = s.for_each(100, &key(2), &key(5));
    let seen: Vec<u8> = some.iter().map(|r| r.key.to_vec()[63]).collect();
    assert_eq!(seen, vec![3, 5]);
}

#[test]
fn count_is_the_number_of_records_that_for_each_hands_out() {
    let s = sample();
    for w in [0i64, 10, 20, 30, 40, 100] {
        for lo in 0u8..11 {
            for hi in 0u8..11 {
                let n = s.count(w, &key(lo), &key(hi));
                assert_eq!(n as usize, s.for_each(w, &key(lo), &key(hi)).len());
                assert_eq!(n as usize, s.key_list(w, &key(lo), &key(hi)).len());
            }
        }
    }
}

#[test]
fn stores_tell_their_domains_apart() {
    let a = MemoryStore::new(String::from("one"), 8);
    let b = MemoryStore::new(String::from("two"), 8);
    let c = MemoryStore::new(String::from("one"), 16);
    assert!(!a.same_domain(&b));
    assert!(a.same_domain(&c));
    assert!(a.is_domain(&String::from("one")));
    assert!(!a.is_domain(&String::from("two")));
}
