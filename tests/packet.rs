use shinelink::packet::{classify, complete_packets, parse_packet, sn_packet};

fn frame(request_low: u8, payload: &[u8]) -> Vec<u8> {
    let mut f = b"RF".to_vec();
    f.push(0x07);
    f.extend_from_slice(b"ABC");
    f.extend_from_slice(b"SN12345678ABCDEFGHIJ");
    f.push(0x00);
    f.extend_from_slice(&[0x01, request_low]);
    f.extend_from_slice(payload);
    f
}

#[test]
fn sn_packet_checks_magic_length_and_serial() {
    assert!(sn_packet(&frame(0xAA, b"h")));
    assert!(!sn_packet(&frame(0xAA, b"")));
    let mut lower = frame(0xAA, b"h");
    lower[10] = b'a';
    assert!(!sn_packet(&lower));
    let mut magic = frame(0xAA, b"h");
    magic[0] = b'X';
    assert!(!sn_packet(&magic));
}

#[test]
fn classify_agreeing_frames() {
    let frames = vec![frame(0xAA, b"h"), frame(0xAA, b"hello"), b"noise".to_vec()];
    assert_eq!(classify(&frames), Some(0xAA));
}

#[test]
fn classify_disagreeing_or_missing_frames() {
    assert_eq!(classify(&vec![frame(0xAA, b"h"), frame(0xAB, b"h")]), None);
    assert_eq!(classify(&vec![b"noise".to_vec()]), None);
    assert_eq!(classify(&vec![]), None);
}

#[test]
fn parse_packet_reads_the_fields() {
    let p = parse_packet(&frame(0xAA, b"hello")).expect("a complete packet");
    assert_eq!(p.seq, 0x07);
    assert_eq!(p.prefix, *b"ABC");
    assert_eq!(p.serial, b"SN12345678ABCDEFGHIJ".to_vec());
    assert_eq!(p.request, 0x01AA);
    assert_eq!(p.payload, b"hello".to_vec());
}

#[test]
fn parse_packet_needs_four_payload_bytes() {
    assert!(parse_packet(&frame(0xAA, b"hel")).is_none());
    assert!(parse_packet(&frame(0xAA, b"hell")).is_some());
}

#[test]
fn complete_packets_keeps_order() {
    let frames = vec![frame(1, b"aaaa"), b"noise".to_vec(), frame(2, b"bbbbb")];
    let packets = complete_packets(&frames);
    assert_eq!(packets.len(), 2);
    assert_eq!(packets[0].request, 0x0101);
    assert_eq!(packets[1].payload, b"bbbbb".to_vec());
}
