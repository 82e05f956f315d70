//! Firmware transfer over an audio channel: the host side frames a firmware
//! image and encodes it as a differential Manchester waveform; the target
//! side recovers bits from comparator edge timing, validates frames with a
//! streaming CRC-16/XMODEM and commits pages to flash.

pub mod audio;
pub mod capture;
pub mod crc;
pub mod frame;
pub mod mailbox;
pub mod manchester;
pub mod receiver;
pub mod signal;
pub mod spm;
