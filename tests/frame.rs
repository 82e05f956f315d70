use audioboot::frame::Frame;

#[test]
fn test_data_frame_pads_to_length() {
    let frame = Frame::data(1, &[1; 2], 10);
    let expected = Frame {
        command: 2,
        offset: 1,
        page: vec![1, 1, 0xff, 0xff, 0xff, 0xff, 0xff, 0xff, 0xff, 0xff],
    };
    assert_eq!(expected, frame);
}

#[test]
fn frame_test_data_frame_pads_to_length() {
    let frame = Frame::data(10, &[1; 2], 10);
    let expected = Frame {
        command: 2,
        offset: 10,
        page: vec![1, 1, 0xff, 0xff, 0xff, 0xff, 0xff, 0xff, 0xff, 0xff],
    };
    assert_eq!(expected, frame);
}

#[test]
fn test_run_frame_pads_to_length() {
    let frame = Frame::run(10);
    let expected = Frame {
        command: 3,
        offset: 0,
        page: vec![0; 10],
    };
    assert_eq!(expected, frame);
}

#[test]
fn test_bytes_are_split_into_numbered_frames() {
    let bytes = [1, 2, 3, 4, 5, 6, 7, 8, 9, 10];
    let page_size = 6;
    let frames: Vec<Frame> = Frame::bytes_to_frames(&bytes, page_size);

    let expected = vec![
        Frame {
            command: 2,
            offset: 0,
            page: vec![1, 2, 3, 4, 5, 6],
        },
        Frame {
            command: 2,
            offset: 6,
            page: vec![7, 8, 9, 10, 255, 255],
        },
    ];

    assert_eq!(expected, frames);
}

#[test]
fn frame_is_rendered_as_bytes_with_crc() {
    let frame = Frame {
        command: 2,
        offset: 0,
        page: vec![0; 128],
    };

    let head = vec![0, 0, 0, 1, 2, 0, 0];
    let mut body = vec![0; 128];
    let mut tail = vec![0xAF, 0xF2];

    let mut expected: Vec<u8> = head;
    expected.append(&mut body);
    expected.append(&mut tail);

    let bytes: Vec<u8> = frame.into();

    assert_eq!(expected, bytes);
}

#[test]
fn frame_offset_is_little_endian_in_wire_image() {
    let frame = Frame {
        command: 2,
        offset: 0x1234,
        page: vec![0xaa, 0x55],
    };
    let bytes = frame.to_bytes();
    assert_eq!(&bytes[..7], &[0, 0, 0, 1, 2, 0x34, 0x12]);
    assert_eq!(&bytes[7..9], &[0xaa, 0x55]);
    let c = audioboot::crc::crc_xmodem(&bytes[4..9]);
    assert_eq!(&bytes[9..], &[(c & 0xff) as u8, (c >> 8) as u8]);
}

#[test]
fn frame_chunking_edge_cases() {
    assert!(Frame::bytes_to_frames(&[], 4).is_empty());
    let exact = Frame::bytes_to_frames(&[1, 2, 3, 4, 5, 6, 7, 8], 4);
    assert_eq!(exact.len(), 2);
    assert_eq!(exact[1].offset, 4);
    assert_eq!(exact[1].page, vec![5, 6, 7, 8]);
    let long = Frame::data(3, &[9; 5], 3);
    assert_eq!(long.page, vec![9; 5]);
}

#[test]
fn frame_offsets_wrap_at_sixteen_bits() {
    let bytes = vec![0u8; 0x10000 + 1];
    let frames = Frame::bytes_to_frames(&bytes, 0x8000);
    assert_eq!(frames.len(), 3);
    assert_eq!(frames[1].offset, 0x8000);
    assert_eq!(frames[2].offset, 0);
}

#[test]
fn frame_test_run_frame_pads_to_length() {
    let frame = Frame::run(10);
    let expected = Frame {
        command: 3,
        offset: 0,
        page: vec![0; 10],
    };
    assert_eq!(expected, frame);
}

#[test]
fn frame_frame_is_rendered_as_bytes_with_crc() {
    let frame = Frame {
        command: 2,
        offset: 0,
        page: vec![0; 128],
    };

    let head = vec![0, 0, 0, 1, 2, 0, 0];
    let mut body = vec![0; 128];
    let mut tail = vec![0xAF, 0xF2];

    let mut expected: Vec<u8> = head;
    expected.append(&mut body);
    expected.append(&mut tail);

    let bytes: Vec<u8> = frame.into();

    assert_eq!(expected, bytes);
}

#[test]
fn frame_test_bytes_are_split_into_numbered_frames() {
    let bytes = [1, 2, 3, 4, 5, 6, 7, 8, 9, 10];
    let page_size = 6;
    let frames: Vec<Frame> = Frame::bytes_to_frames(&bytes, page_size);

    let expected = vec![
        Frame {
            command: 2,
            offset: 0,
            page: vec![1, 2, 3, 4, 5, 6],
        },
        Frame {
            command: 2,
            offset: 6,
            page: vec![7, 8, 9, 10, 255, 255],
        },
    ];

    assert_eq!(expected, frames);
}
