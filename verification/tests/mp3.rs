use splitter::mp3cut::crc16;
use splitter::mp3index::{parse_header, MpegVersion};

#[test]
fn crc16_matches_reference() {
    // CRC-16/ARC check value.
    assert_eq!(crc16(b"123456789"), 0xBB3D);
}

#[test]
fn parses_128k_44100_stereo() {
    let h = parse_header(&[0xFF, 0xFB, 0x90, 0x00]).unwrap();
    assert_eq!(h.version, MpegVersion::V1);
    assert_eq!(h.bitrate_kbps, 128);
    assert_eq!(h.sample_rate, 44100);
    assert_eq!(h.channels, 2);
    assert_eq!(h.frame_len, 417);
    assert_eq!(h.samples, 1152);
}

#[test]
fn rejects_non_layer3() {
    assert!(parse_header(&[0xFF, 0xFD, 0x90, 0x00]).is_none()); // layer II
    assert!(parse_header(&[0xFF, 0xFB, 0x0C, 0x00]).is_none()); // free format
}
