use syncwhole::frame::{frame, unframe, Unframed, MAX_PAYLOAD, PREFIX_SIZE};

#[test]
fn a_frame_is_the_length_and_then_the_message() {
    assert_eq!(PREFIX_SIZE, 4);
    assert_eq!(MAX_PAYLOAD, 0xffff_ffff);
    assert_eq!(frame(b"").unwrap(), vec![0, 0, 0, 0]);
    assert_eq!(frame(b"abc").unwrap(), vec![0, 0, 0, 3, b'a', b'b', b'c']);
    let long = vec![7u8; 0x1_0203];
    let framed = frame(&long).unwrap();
    assert_eq!(&framed[..4], &[0, 1, 2, 3]);
    assert_eq!(&framed[4..], &long[..]);
}

#[test]
fn unframe_takes_one_whole_frame() {
    let mut stream = frame(b"abc").unwrap();
    stream.extend_from_slice(&frame(b"de").unwrap());
    assert_eq!(unframe(&stream, 100), Unframed::Frame { payload: b"abc".to_vec(), consumed: 7 });
    assert_eq!(unframe(&stream[7..], 100), Unframed::Frame { payload: b"de".to_vec(), consumed: 6 });
    assert_eq!(unframe(&stream[13..], 100), Unframed::Incomplete);
    assert_eq!(unframe(&[0, 0, 0, 0], 0), Unframed::Frame { payload: vec![], consumed: 4 });
}

#[test]
fn a_frame_that_has_not_arrived_whole_is_waited_for() {
    let stream = frame(b"abcdef").unwrap();
    for cut in 0..stream.len() {
        assert_eq!(unframe(&stream[..cut], 100), Unframed::Incomplete);
    }
    assert_eq!(unframe(&stream, 100), Unframed::Frame { payload: b"abcdef".to_vec(), consumed: 10 });
}

#[test]
fn a_frame_beyond_the_limit_breaks_the_stream() {
    let stream = frame(b"abcdef").unwrap();
    assert_eq!(unframe(&stream, 5), Unframed::Oversized);
    assert_eq!(unframe(&stream, 6), Unframed::Frame { payload: b"abcdef".to_vec(), consumed: 10 });
    // the length alone tells
    assert_eq!(unframe(&[0xff, 0xff, 0xff, 0xff], 1 << 20), Unframed::Oversized);
    assert_eq!(unframe(&[0, 0, 1, 0], 255), Unframed::Oversized);
    assert_eq!(unframe(&[0, 0, 1, 0], 256), Unframed::Incomplete);
}
