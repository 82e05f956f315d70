use audioboot::frame::Frame;
use audioboot::manchester::ManchesterEncoder;

#[test]
fn test_encode_0_byte() {
    let mut encoder = ManchesterEncoder::new();
    let expected = vec![
        0x7f, 0x25, 0x00, 0x25, // 0
        0x7f, 0xd9, 0xff, 0xd9, // 0
        0x7f, 0x25, 0x00, 0x25, // 0
        0x7f, 0xd9, 0xff, 0xd9, // 0
        0x7f, 0x25, 0x00, 0x25, // 0
        0x7f, 0xd9, 0xff, 0xd9, // 0
        0x7f, 0x25, 0x00, 0x25, // 0
        0x7f, 0xd9, 0xff, 0xd9, // 0
    ];

    assert_eq!(expected, encoder.encode(0x00));
}

#[test]
fn test_encode_ff_byte() {
    let mut encoder = ManchesterEncoder::new();
    let expected = vec![
        0x7f, 0x00, 0x7f, 0xff, // 1
        0x7f, 0x00, 0x7f, 0xff, // 1
        0x7f, 0x00, 0x7f, 0xff, // 1
        0x7f, 0x00, 0x7f, 0xff, // 1
        0x7f, 0x00, 0x7f, 0xff, // 1
        0x7f, 0x00, 0x7f, 0xff, // 1
        0x7f, 0x00, 0x7f, 0xff, // 1
        0x7f, 0x00, 0x7f, 0xff, // 1
    ];

    assert_eq!(expected, encoder.encode(0xff));
}

#[test]
fn test_encode_two_aa_bytes() {
    let mut encoder = ManchesterEncoder::new();
    let expected = vec![
        0x7f, 0x00, 0x7f, 0xff, // 1
        0x7f, 0x25, 0x00, 0x25, // 0
        0x7f, 0xff, 0x7f, 0x00, // 1
        0x7f, 0xd9, 0xff, 0xd9, // 0
        0x7f, 0x00, 0x7f, 0xff, // 1
        0x7f, 0x25, 0x00, 0x25, // 0
        0x7f, 0xff, 0x7f, 0x00, // 1
        0x7f, 0xd9, 0xff, 0xd9, // 0
    ];

    assert_eq!(expected, encoder.encode(0xaa));
    assert_eq!(expected, encoder.encode(0xaa));
}

#[test]
fn test_encode_two_ab_bytes() {
    // The second byte comes out inverted: the first leaves the polarity flipped.
    let mut encoder = ManchesterEncoder::new();
    let expected1 = vec![
        0x7f, 0x00, 0x7f, 0xff, // 1
        0x7f, 0x25, 0x00, 0x25, // 0
        0x7f, 0xff, 0x7f, 0x00, // 1
        0x7f, 0xd9, 0xff, 0xd9, // 0
        0x7f, 0x00, 0x7f, 0xff, // 1
        0x7f, 0x25, 0x00, 0x25, // 0
        0x7f, 0xff, 0x7f, 0x00, // 1
        0x7f, 0xff, 0x7f, 0x00, // 1
    ];

    assert_eq!(expected1, encoder.encode(0xab));

    let expected2 = vec![
        0x7f, 0xff, 0x7f, 0x00, // 1
        0x7f, 0xd9, 0xff, 0xd9, // 0
        0x7f, 0x00, 0x7f, 0xff, // 1
        0x7f, 0x25, 0x00, 0x25, // 0
        0x7f, 0xff, 0x7f, 0x00, // 1
        0x7f, 0xd9, 0xff, 0xd9, // 0
        0x7f, 0x00, 0x7f, 0xff, // 1
        0x7f, 0x00, 0x7f, 0xff, // 1
    ];

    assert_eq!(expected2, encoder.encode(0xab));
}

#[test]
fn test_stop() {
    let mut encoder = ManchesterEncoder::new();
    assert_eq!(vec![0x7f, 0x00], encoder.stop());
}

#[test]
fn manchester_ab_twice_differs() {
    let mut encoder = ManchesterEncoder::new();
    let first = encoder.encode(0xab);
    let second = encoder.encode(0xab);
    assert_eq!(first.len(), 32);
    assert_eq!(second.len(), 32);
    assert_ne!(first, second);
}

#[test]
fn manchester_stop_twice_is_complementary() {
    let mut encoder = ManchesterEncoder::new();
    let a = encoder.stop();
    let b = encoder.stop();
    assert_eq!(a[0], b[0]);
    assert_eq!(a[1], !b[1]);
    assert_eq!(b, vec![0x7f, 0xff]);
}

#[test]
fn manchester_frame_layout() {
    let mut encoder = ManchesterEncoder::new();
    let frame = Frame::run(4);
    let wire = frame.clone().to_bytes();
    let audio = encoder.encode_frame(frame);
    assert_eq!(audio.len(), 500 + 32 * wire.len() + 2);
    assert!(audio[..500].iter().all(|&s| s == 0x7f));
    let mut again = ManchesterEncoder::new();
    let mut body = Vec::new();
    for b in wire {
        body.extend(again.encode(b));
    }
    assert_eq!(&audio[500..500 + body.len()], &body[..]);
    assert_eq!(&audio[500 + body.len()..], &again.stop()[..]);
    assert_eq!(encoder.state, again.state);
}
