use audioboot::crc::{crc_xmodem, crc_xmodem_update};
use crc::{Crc, CRC_16_XMODEM};

const XMODEM: Crc<u16> = Crc::<u16>::new(&CRC_16_XMODEM);

#[test]
fn crc_every_byte_bulk_matches_incremental() {
    for b in 0..=255u8 {
        let bulk = crc_xmodem(&[b]);
        let incremental = crc_xmodem_update(0, b);
        assert_eq!(bulk, incremental);
        assert_eq!(bulk, XMODEM.checksum(&[b]));
    }
}

#[test]
fn crc_check_value() {
    assert_eq!(crc_xmodem(b"123456789"), 0x31c3);
    assert_eq!(crc_xmodem(&[]), 0);
}

#[test]
fn crc_long_pseudo_random_sequence_agrees() {
    let mut state: u32 = 0x1234_5678;
    let mut data: Vec<u8> = Vec::with_capacity(1_000_000);
    let mut running: u16 = 0;
    for _ in 0..1_000_000 {
        state = state.wrapping_mul(1_664_525).wrapping_add(1_013_904_223);
        let b = (state >> 24) as u8;
        data.push(b);
        running = crc_xmodem_update(running, b);
    }
    assert_eq!(running, crc_xmodem(&data));
    assert_eq!(running, XMODEM.checksum(&data));
}

#[test]
fn crc_split_sequence_continues() {
    let data: Vec<u8> = (0..=255u8).collect();
    let mut c = crc_xmodem(&data[..100]);
    for &b in &data[100..] {
        c = crc_xmodem_update(c, b);
    }
    assert_eq!(c, crc_xmodem(&data));
}
