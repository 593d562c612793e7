use shinelink::{bits_to_byte, unambiguous};

#[test]
fn bits_to_byte_is_msb_first() {
    let bits = [true, false, true, false, false, true, false, true];
    assert_eq!(bits_to_byte(&bits), 0xA5);
}

#[test]
fn bits_to_byte_extremes() {
    assert_eq!(bits_to_byte(&[false; 8]), 0);
    assert_eq!(bits_to_byte(&[true; 8]), 255);
    assert_eq!(bits_to_byte(&[false, false, false, false, false, false, false, true]), 1);
}

#[test]
fn unambiguous_shows_plain_bytes_and_brackets_others() {
    assert_eq!(unambiguous(b"RF"), "R F");
    assert_eq!(unambiguous(&[b'a', 0, 7, 42, 200, b' ']), "a [0] [7] * [200] [32]");
    assert_eq!(unambiguous(&[]), "");
    assert_eq!(unambiguous(&[10, 99, 255]), "[10] c [255]");
}
