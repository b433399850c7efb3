use sha2::{Digest, Sha512};
use syncwhole::random::{RandomSource, BLOCK_SIZE};

fn block(counter: u128) -> Vec<u8> {
    Sha512::digest(counter.to_ne_bytes()).as_slice().to_vec()
}

#[test]
fn a_new_source_has_not_been_started() {
    assert_eq!(RandomSource::new().counter(), 0);
    assert_eq!(BLOCK_SIZE, 64);
}

#[test]
fn each_block_is_the_digest_of_the_next_counter_value() {
    let mut source = RandomSource::new();
    let mut buf = vec![0u8; 64];
    source.get_random_bytes(41, &mut buf);
    assert_eq!(buf, block(42));
    assert_eq!(source.counter(), 42);
    // the known digest of the sixteen bytes of zero but for a leading 42
    assert_ne!(buf, vec![0u8; 64]);
    assert_ne!(&buf[..16], &42u128.to_ne_bytes()[..]);
    // the seed is used once only
    source.get_random_bytes(7, &mut buf);
    assert_eq!(buf, block(43));
    assert_eq!(source.counter(), 43);
}

#[test]
fn a_long_buffer_takes_one_counter_value_for_every_sixty_four_bytes() {
    let mut source = RandomSource::new();
    let mut buf = vec![0u8; 150];
    source.get_random_bytes(1000, &mut buf);
    assert_eq!(buf.len(), 150);
    assert_eq!(&buf[..64], &block(1001)[..]);
    assert_eq!(&buf[64..128], &block(1002)[..]);
    assert_eq!(&buf[128..], &block(1003)[..22]);
    assert_eq!(source.counter(), 1003);
}

#[test]
fn a_short_buffer_takes_the_first_bytes_of_a_digest() {
    let mut source = RandomSource::new();
    let mut buf = vec![0u8; 5];
    source.get_random_bytes(9, &mut buf);
    assert_eq!(&buf[..], &block(10)[..5]);
    assert_eq!(source.counter(), 10);
}

#[test]
fn an_empty_buffer_takes_nothing_but_the_seed() {
    let mut source = RandomSource::new();
    let mut buf: Vec<u8> = Vec::new();
    source.get_random_bytes(9, &mut buf);
    assert!(buf.is_empty());
    assert_eq!(source.counter(), 9);
}

#[test]
fn the_counter_wraps_around() {
    let mut source = RandomSource::new();
    let mut buf = vec![0u8; 128];
    source.get_random_bytes(u128::MAX - 1, &mut buf);
    assert_eq!(&buf[..64], &block(u128::MAX)[..]);
    assert_eq!(&buf[64..], &block(0)[..]);
    // the counter is back at zero: the next call starts from its seed again
    assert_eq!(source.counter(), 0);
    source.get_random_bytes(5, &mut buf);
    assert_eq!(&buf[..64], &block(6)[..]);
}

#[test]
fn the_digest_is_sha_512() {
    // SHA-512 of the empty input starts with cf83e135
    let empty = Sha512::digest(b"");
    assert_eq!(&empty.as_slice()[..4], &[0xcf, 0x83, 0xe1, 0x35]);
    // the first block drawn from seed 0 is the digest of the counter value 1
    let mut source = RandomSource::new();
    let mut buf = vec![0u8; 64];
    source.get_random_bytes(0, &mut buf);
    let mut hasher = Sha512::new();
    hasher.update(1u128.to_ne_bytes());
    assert_eq!(buf, hasher.finalize().as_slice().to_vec());
}
