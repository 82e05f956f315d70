use audioboot::frame::Frame;
use audioboot::manchester::ManchesterEncoder;
use audioboot::receiver::{check_frame, FrameReceiver};
use audioboot::signal::SignalReceiver;

const SAMPLE_RATE: f32 = 44000.0;
const CUTOFF: f32 = 10000.0;
const TICKS_PER_SAMPLE: usize = 8;

fn low_pass(samples: &[u8], cutoff: f32, sample_rate: f32) -> Vec<f32> {
    let rc = 1.0 / (2.0 * std::f32::consts::PI * cutoff);
    let dt = 1.0 / sample_rate;
    let alpha = dt / (dt + rc);
    let mut value: f32 = 127.0;
    samples
        .iter()
        .map(|&s| {
            value += alpha * (s as f32 - value);
            value
        })
        .collect()
}

fn comparator_levels(audio: &[u8]) -> Vec<bool> {
    let mut levels = Vec::new();
    for v in low_pass(audio, CUTOFF, SAMPLE_RATE) {
        for _ in 0..TICKS_PER_SAMPLE {
            levels.push(v > 127.5);
        }
    }
    levels
}

fn pseudo_random_page(size: usize, seed: u32) -> Vec<u8> {
    let mut state = seed;
    (0..size)
        .map(|_| {
            state = state.wrapping_mul(1_103_515_245).wrapping_add(12_345);
            (state >> 16) as u8
        })
        .collect()
}

fn encode_frames(frames: Vec<Vec<u8>>) -> Vec<u8> {
    let mut encoder = ManchesterEncoder::new();
    let mut audio = Vec::new();
    for wire in frames {
        for _ in 0..500 {
            audio.push(0x7f);
        }
        for b in wire {
            audio.extend(encoder.encode(b));
        }
        audio.extend(encoder.stop());
    }
    audio
}

fn check_round_trip(page_size: usize, pages: Vec<Vec<u8>>) {
    let mut encoder = ManchesterEncoder::new();
    let mut audio = Vec::new();
    for (i, page) in pages.iter().enumerate() {
        let frame = Frame::data((i * page_size) as u16, page, page_size);
        audio.extend(encoder.encode_frame(frame));
    }
    audio.extend(encoder.encode_frame(Frame::run(page_size)));

    let mut receiver = FrameReceiver::new(SignalReceiver::new(comparator_levels(&audio)), page_size);
    for (i, page) in pages.iter().enumerate() {
        let frame = receiver.receive_frame().expect("frame should decode");
        assert_eq!(frame.command, 2);
        assert_eq!(frame.page_address as usize, i * page_size);
        assert_eq!(&frame.page, page);
        assert!(!frame.is_run());
    }
    let run = receiver.receive_frame().expect("run frame should decode");
    assert!(run.is_run());
    assert_eq!(run.page_address, 0);
    assert_eq!(run.page, vec![0; page_size]);
    assert!(receiver.receive_frame().is_none());
}

#[test]
fn round_trip_all_zero_pages() {
    for size in [64, 128, 256] {
        check_round_trip(size, vec![vec![0; size], vec![0; size]]);
    }
}

#[test]
fn round_trip_all_ff_pages() {
    for size in [64, 128, 256] {
        check_round_trip(size, vec![vec![0xff; size], vec![0xff; size]]);
    }
}

#[test]
fn round_trip_pseudo_random_pages() {
    for size in [64, 128, 256] {
        check_round_trip(
            size,
            vec![pseudo_random_page(size, 7), pseudo_random_page(size, 99)],
        );
    }
}

fn check_corruption_recovery(page_size: usize, index: usize) {
    let first = pseudo_random_page(page_size, 3);
    let second = pseudo_random_page(page_size, 4);
    let mut bad = Frame::data(0, &first, page_size).to_bytes();
    bad[index] ^= 0x01;
    let good = Frame::data(page_size as u16, &second, page_size).to_bytes();
    let audio = encode_frames(vec![bad, good]);

    let mut receiver = FrameReceiver::new(SignalReceiver::new(comparator_levels(&audio)), page_size);
    assert!(receiver.receive_frame().is_none());
    let frame = receiver.receive_frame().expect("next frame should decode");
    assert_eq!(frame.command, 2);
    assert_eq!(frame.page_address as usize, page_size);
    assert_eq!(frame.page, second);
}

#[test]
fn receiver_rejects_corrupt_last_payload_byte() {
    // sentinel (4), command and offset (3), then the payload
    check_corruption_recovery(64, 4 + 3 + 64 - 1);
}

#[test]
fn receiver_rejects_corrupt_checksum_byte() {
    check_corruption_recovery(64, 4 + 3 + 64);
    check_corruption_recovery(128, 4 + 3 + 128 + 1);
}

#[test]
fn receiver_reports_nothing_on_silence() {
    let mut receiver = FrameReceiver::new(SignalReceiver::new(vec![false; 1000]), 64);
    assert!(receiver.receive_frame().is_none());
    let mut empty = FrameReceiver::new(SignalReceiver::new(Vec::new()), 64);
    assert!(empty.receive_frame().is_none());
}

#[test]
fn signal_receiver_calibrates_on_regular_edges() {
    // edges every 32 ticks: 24 ticks of delay; then a one-bit cell
    let mut levels = Vec::new();
    let mut level = false;
    for _ in 0..20 {
        for _ in 0..32 {
            levels.push(level);
        }
        level = !level;
    }
    // one cell with a mid-cell transition
    for _ in 0..16 {
        levels.push(level);
    }
    for _ in 0..16 {
        levels.push(!level);
    }
    levels.push(level);
    let mut sig = SignalReceiver::new(levels);
    assert!(sig.sync());
    assert_eq!(sig.delay_time, 24);
}

#[test]
fn check_frame_accepts_wire_image_and_rejects_any_flip() {
    let page = pseudo_random_page(64, 11);
    let wire = Frame::data(0x0140, &page, 64).to_bytes();
    let body = &wire[4..];
    let frame = check_frame(body, 64).expect("valid frame");
    assert_eq!(frame.command, 2);
    assert_eq!(frame.page_address, 0x0140);
    assert_eq!(frame.page, page);
    assert_eq!(frame.checksum, body[67] as u16 + 256 * body[68] as u16);
    for i in 0..body.len() {
        let mut bad = body.to_vec();
        bad[i] ^= 0x80;
        assert!(check_frame(&bad, 64).is_none());
    }
    assert!(check_frame(&body[..68], 64).is_none());
    assert!(check_frame(body, 63).is_none());
}

#[test]
fn get_decodes_ideal_line_coded_bytes() {
    // cells of 32 ticks: a change at each cell start, another at 16 ticks for a one
    for b in [0x00u8, 0xff, 0xab, 0x5a, 0x01] {
        let mut levels = vec![false; 10];
        let mut level = false;
        for j in 0..8 {
            let bit = (b >> (7 - j)) & 1 == 1;
            level = !level;
            for t in 0..32 {
                if bit && t == 16 {
                    level = !level;
                }
                levels.push(level);
            }
        }
        levels.push(!level);
        let mut sig = SignalReceiver::new(levels);
        sig.delay_time = 24;
        assert_eq!(sig.get(), Some(b));
        assert_eq!(sig.pos, 10 + 7 * 32 + 24);
    }
}
