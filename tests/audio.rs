use audioboot::audio::{
    audio_for_firmware, create_audio_data, find_page_size, get_firmware_bytes, AddressSpace,
    DataRecord,
};
use audioboot::frame::Frame;
use audioboot::manchester::ManchesterEncoder;

#[test]
fn firmware_bytes_fills_gaps() {
    let records = vec![
        Some(DataRecord { offset: 0, value: vec![1, 2] }),
        None,
        Some(DataRecord { offset: 4, value: vec![3] }),
        Some(DataRecord { offset: 2, value: vec![4] }),
    ];
    assert_eq!(get_firmware_bytes(&records, 0xff), vec![1, 2, 0xff, 0xff, 3, 4]);
    assert_eq!(get_firmware_bytes(&records, 0x00), vec![1, 2, 0, 0, 3, 4]);
}

#[test]
fn create_audio_data_parses_hex() {
    let hex = ":0400000001020304F2\n:02000600AABB93\n:00000001FF\n".to_string();
    let audio = create_audio_data(hex, 4);

    let mut encoder = ManchesterEncoder::new();
    let mut expected = Vec::new();
    expected.extend(encoder.encode_frame(Frame::data(0, &[1, 2, 3, 4], 4)));
    expected.extend(encoder.encode_frame(Frame::data(4, &[0xff, 0xff, 0xaa, 0xbb], 4)));
    expected.extend(encoder.encode_frame(Frame::run(4)));
    assert_eq!(audio, expected);
    assert_eq!(audio, audio_for_firmware(&[1, 2, 3, 4, 0xff, 0xff, 0xaa, 0xbb], 4));
}

#[test]
fn create_audio_data_of_empty_text_is_run_frame_only() {
    let audio = create_audio_data(String::new(), 8);
    let mut encoder = ManchesterEncoder::new();
    assert_eq!(audio, encoder.encode_frame(Frame::run(8)));
}

#[test]
fn page_size_comes_from_first_prog_space() {
    let spaces = vec![
        AddressSpace { name: "data".to_string(), segment_page_sizes: vec![Some(4)] },
        AddressSpace { name: "prog".to_string(), segment_page_sizes: vec![Some(128), Some(64)] },
        AddressSpace { name: "prog".to_string(), segment_page_sizes: vec![Some(32)] },
    ];
    assert_eq!(find_page_size(&spaces), Some(128));
    let none = vec![AddressSpace { name: "prog".to_string(), segment_page_sizes: vec![None] }];
    assert_eq!(find_page_size(&none), None);
    assert_eq!(find_page_size(&Vec::new()), None);
}
