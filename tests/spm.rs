use audioboot::receiver::Frame;
use audioboot::spm::{FrameWriter, Writer};

#[test]
fn page_commit_leaves_only_the_filled_page_changed() {
    // 8 pages of 4 words, flash pre-loaded with a recognisable pattern
    let mut writer = Writer::new(32, 4);
    for (i, w) in writer.flash.iter_mut().enumerate() {
        *w = 0x1000 + i as u16;
    }
    let before = writer.flash.clone();
    let address: u16 = 8; // third page: words 4..8
    writer.page_erase(address);
    assert!(writer.flash[4..8].iter().all(|&w| w == 0xffff));
    assert!(!writer.rww_enabled);
    let words = [0xbeef, 0x1234, 0x0000, 0xa5a5];
    for (i, &w) in words.iter().enumerate() {
        writer.page_fill(address + 2 * i as u16, w);
    }
    writer.page_write(address);
    writer.rww_enable();
    assert!(writer.rww_enabled);
    assert_eq!(&writer.flash[4..8], &words);
    assert_eq!(&writer.flash[..4], &before[..4]);
    assert_eq!(&writer.flash[8..], &before[8..]);
    assert!(writer.buffer.iter().all(|&w| w == 0xffff));
}

#[test]
fn frame_writer_commits_little_endian_words() {
    let mut writer = Writer::new(16, 4);
    let frame = Frame {
        command: 2,
        page_address: 16,
        page: vec![0x01, 0x02, 0x03, 0x04, 0x05, 0x06, 0x07, 0x08],
        checksum: 0,
    };
    FrameWriter::new().write(&mut writer, &frame);
    assert_eq!(&writer.flash[8..12], &[0x0201, 0x0403, 0x0605, 0x0807]);
    assert!(writer.flash[..8].iter().all(|&w| w == 0xffff));
    assert!(writer.flash[12..].iter().all(|&w| w == 0xffff));
    assert!(writer.rww_enabled);
}
