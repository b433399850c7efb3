use syncwhole::key::{Key, KEY_SIZE};
use syncwhole::range::KeyRange;

fn key(last: u8) -> Key {
    let mut bytes = [0u8; 64];
    bytes[63] = last;
    Key::new(bytes)
}

fn key2(first: u8, last: u8) -> Key {
    let mut bytes = [0u8; 64];
    bytes[0] = first;
    bytes[63] = last;
    Key::new(bytes)
}

#[test]
fn keys_have_sixty_four_bytes() {
    assert_eq!(KEY_SIZE, 64);
    assert_eq!(Key::min().to_vec().len(), 64);
    assert_eq!(Key::min().to_bytes(), [0u8; 64]);
    assert_eq!(Key::max().to_bytes(), [0xffu8; 64]);
}

#[test]
fn from_slice_takes_exactly_sixty_four_bytes() {
    assert!(Key::from_slice(&[7u8; 64]).is_some());
    assert_eq!(Key::from_slice(&[7u8; 64]).unwrap().to_bytes(), [7u8; 64]);
    assert!(Key::from_slice(&[7u8; 63]).is_none());
    assert!(Key::from_slice(&[7u8; 65]).is_none());
    assert!(Key::from_slice(&[]).is_none());
}

#[test]
fn keys_are_ordered_by_their_first_differing_byte() {
    assert!(key(1).lt(&key(2)));
    assert!(!key(2).lt(&key(1)));
    assert!(!key(2).lt(&key(2)));
    assert!(key(2).le(&key(2)));
    assert!(key(2).same(&key(2)));
    assert!(!key(2).same(&key(3)));
    // the first byte outweighs the last
    assert!(key2(0, 255).lt(&key2(1, 0)));
    assert!(!key2(1, 0).lt(&key2(0, 255)));
    assert!(Key::min().lt(&Key::max()));
}

#[test]
fn midpoint_is_the_rounded_down_mean() {
    assert_eq!(key(2).midpoint(&key(6)).to_bytes(), key(4).to_bytes());
    assert_eq!(key(2).midpoint(&key(5)).to_bytes(), key(3).to_bytes());
    assert_eq!(key(5).midpoint(&key(2)).to_bytes(), key(3).to_bytes());
    assert_eq!(key(7).midpoint(&key(7)).to_bytes(), key(7).to_bytes());
    // a carry out of the top byte is not lost
    assert_eq!(Key::max().midpoint(&Key::max()).to_bytes(), [0xffu8; 64]);
    let mut want = [0xffu8; 64];
    want[0] = 0x7f;
    assert_eq!(Key::min().midpoint(&Key::max()).to_bytes(), want);
    // a borrow runs through the bytes: (0x0100 + 0) / 2 = 0x0080
    let mut a = [0u8; 64];
    a[62] = 1;
    assert_eq!(Key::new(a).midpoint(&Key::min()).to_bytes(), key(0x80).to_bytes());
}

#[test]
fn successor_carries_and_stops_at_the_greatest_key() {
    assert_eq!(key(1).successor().unwrap().to_bytes(), key(2).to_bytes());
    let mut want = [0u8; 64];
    want[62] = 1;
    assert_eq!(key(255).successor().unwrap().to_bytes(), want);
    assert!(Key::max().successor().is_none());
    assert!(key(3).is_odd());
    assert!(!key(4).is_odd());
}

#[test]
fn a_range_needs_its_start_before_its_end() {
    assert!(KeyRange::new(key(1), key(2)).is_some());
    assert!(KeyRange::new(key(2), key(2)).is_some());
    assert!(KeyRange::new(key(3), key(2)).is_none());
    let r = KeyRange::new(key(1), key(9)).unwrap();
    assert_eq!(r.start().to_bytes(), key(1).to_bytes());
    assert_eq!(r.end().to_bytes(), key(9).to_bytes());
    assert!(r.contains(&key(1)));
    assert!(r.contains(&key(9)));
    assert!(!r.contains(&key(0)));
    assert!(!r.contains(&key(10)));
    assert!(!r.is_single());
    assert!(KeyRange::new(key(2), key(2)).unwrap().is_single());
    let full = KeyRange::full();
    assert_eq!(full.start().to_bytes(), [0u8; 64]);
    assert_eq!(full.end().to_bytes(), [0xffu8; 64]);
}

#[test]
fn a_range_of_one_key_cannot_be_cut() {
    assert!(KeyRange::new(key(2), key(2)).unwrap().split().is_none());
}

#[test]
fn split_hands_out_the_narrower_half_first() {
    // [1, 5] has five keys: [1, 3] and [4, 5]; the upper half is narrower
    let (first, second) = KeyRange::new(key(1), key(5)).unwrap().split().unwrap();
    assert_eq!(first.start().to_bytes(), key(4).to_bytes());
    assert_eq!(first.end().to_bytes(), key(5).to_bytes());
    assert_eq!(second.start().to_bytes(), key(1).to_bytes());
    assert_eq!(second.end().to_bytes(), key(3).to_bytes());
    // [1, 4] has four keys: [1, 2] and [3, 4]; equally wide, the lower first
    let (first, second) = KeyRange::new(key(1), key(4)).unwrap().split().unwrap();
    assert_eq!(first.start().to_bytes(), key(1).to_bytes());
    assert_eq!(first.end().to_bytes(), key(2).to_bytes());
    assert_eq!(second.start().to_bytes(), key(3).to_bytes());
    assert_eq!(second.end().to_bytes(), key(4).to_bytes());
    // two keys
    let (first, second) = KeyRange::new(key(8), key(9)).unwrap().split().unwrap();
    assert!(first.is_single() && second.is_single());
    assert_eq!(first.start().to_bytes(), key(8).to_bytes());
    assert_eq!(second.start().to_bytes(), key(9).to_bytes());
}

#[test]
fn the_whole_key_space_splits_in_the_middle() {
    let (first, second) = KeyRange::full().split().unwrap();
    let mut mid = [0xffu8; 64];
    mid[0] = 0x7f;
    let mut above = [0u8; 64];
    above[0] = 0x80;
    assert_eq!(first.start().to_bytes(), [0u8; 64]);
    assert_eq!(first.end().to_bytes(), mid);
    assert_eq!(second.start().to_bytes(), above);
    assert_eq!(second.end().to_bytes(), [0xffu8; 64]);
}

#[test]
fn bisection_reaches_a_single_key_within_the_number_of_key_bits() {
    let mut range = KeyRange::full();
    let mut cuts = 0;
    while let Some((first, _)) = range.split() {
        range = first;
        cuts += 1;
        assert!(cuts <= 512);
    }
    assert_eq!(cuts, 512);
    assert!(range.is_single());
}

#[test]
fn predecessor_borrows_and_stops_at_the_least_key() {
    assert_eq!(key(2).predecessor().unwrap().to_bytes(), key(1).to_bytes());
    assert_eq!(key(1).predecessor().unwrap().to_bytes(), [0u8; 64]);
    assert!(Key::min().predecessor().is_none());
    let mut a = [0u8; 64];
    a[62] = 1;
    assert_eq!(Key::new(a).predecessor().unwrap().to_bytes(), key(255).to_bytes());
    let mut top = [0xffu8; 64];
    top[63] = 0xfe;
    assert_eq!(Key::max().predecessor().unwrap().to_bytes(), top);
}
