use shinelink::crc::{checksum, crc_suffixed};

#[test]
fn crc_test_crc() {
    assert_eq!(checksum(b"123456789"), 19255);
    assert_eq!(checksum(b"12345678"), 14301);
}

#[test]
fn crc_of_empty_input_is_the_initial_value() {
    assert_eq!(checksum(b""), 0xFFFF);
}

#[test]
fn crc_suffixed_accepts_a_matching_checksum() {
    let mut data = b"123456789".to_vec();
    data.extend_from_slice(&[0x4B, 0x37]);
    assert_eq!(crc_suffixed(&data), Some(&b"123456789"[..]));
}

#[test]
fn crc_suffixed_rejects_a_wrong_checksum() {
    let mut data = b"123456789".to_vec();
    data.extend_from_slice(&[0x37, 0x4B]);
    assert_eq!(crc_suffixed(&data), None);
}

#[test]
fn crc_suffixed_rejects_short_input() {
    assert_eq!(crc_suffixed(&[]), None);
    assert_eq!(crc_suffixed(&[0xFF]), None);
}

#[test]
fn crc_suffixed_accepts_an_empty_frame() {
    assert_eq!(crc_suffixed(&[0xFF, 0xFF]), Some(&[][..]));
}
