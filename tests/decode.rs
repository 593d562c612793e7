use shinelink::crc::checksum;
use shinelink::clock::recover_bytes;
use shinelink::decode::{decode_differential, decode_runs};
use shinelink::frames::{attempt_decrypt, likely_valid};
use shinelink::runs::find_runs;

const KEY: &[u8; 10] = b"GROWATTRF.";

fn body() -> Vec<u8> {
    let mut b = b"RF".to_vec();
    b.push(0x07);
    b.extend_from_slice(b"ABC");
    b.extend_from_slice(b"SN12345678ABCDEFGHIJ");
    b.push(0x00);
    b.extend_from_slice(&[0x00, 0xAA]);
    b.extend_from_slice(b"hello");
    b
}

/// A leading byte, the frame, its big-endian checksum and two trailing bytes.
fn plaintext(frame: &[u8]) -> Vec<u8> {
    let crc = checksum(frame);
    let mut p = vec![0x2A];
    p.extend_from_slice(frame);
    p.extend_from_slice(&crc.to_be_bytes());
    p.extend_from_slice(&[0x55, 0x55]);
    p
}

fn encrypt(plain: &[u8], offset: usize) -> Vec<u8> {
    plain.iter().enumerate().map(|(j, &c)| c ^ KEY[(j + offset) % KEY.len()]).collect()
}

fn to_bits(bytes: &[u8]) -> Vec<bool> {
    let mut bits = Vec::new();
    for &b in bytes {
        for i in (0..8).rev() {
            bits.push((b >> i) & 1 == 1);
        }
    }
    bits
}

/// Runs of `samples_per_bit` samples per bit; a run of ones has a negative
/// peak in front of it, one of zeros a positive one. `jitter` is added to and
/// taken from alternate runs.
fn to_runs(bits: &[bool], samples_per_bit: usize, jitter: isize) -> Vec<(usize, bool)> {
    let mut runs = Vec::new();
    let mut i = 0;
    while i < bits.len() {
        let mut j = i;
        while j < bits.len() && bits[j] == bits[i] {
            j += 1;
        }
        let sign = if runs.len() % 2 == 0 { jitter } else { -jitter };
        let len = ((j - i) * samples_per_bit) as isize + sign;
        runs.push((len as usize, !bits[i]));
        i = j;
    }
    runs
}

fn transmission(key_offset: usize) -> Vec<u8> {
    let mut bytes = vec![0xAA, 0xAA];
    bytes.extend_from_slice(b"jack");
    bytes.extend_from_slice(&encrypt(&plaintext(&body()), key_offset));
    bytes.extend_from_slice(&[0xAA, 0xAA]);
    bytes
}

#[test]
fn one_clean_frame() {
    let runs = to_runs(&to_bits(&transmission(0)), 18, 0);
    let (crc, _plausible) = decode_runs(&runs, 1800);
    assert_eq!(crc, vec![body()]);
}

#[test]
fn clock_drift_is_tolerated() {
    let runs = to_runs(&to_bits(&transmission(0)), 18, 1);
    let (crc, _plausible) = decode_runs(&runs, 1800);
    assert_eq!(crc, vec![body()]);
}

#[test]
fn a_slower_clock_within_the_sweep_is_found() {
    let runs = to_runs(&to_bits(&transmission(0)), 20, 0);
    let (crc, _plausible) = decode_runs(&runs, 1800);
    assert_eq!(crc, vec![body()]);
}

#[test]
fn key_offset_is_discovered() {
    let runs = to_runs(&to_bits(&transmission(3)), 18, 0);
    let (crc, _plausible) = decode_runs(&runs, 1800);
    assert_eq!(crc, vec![body()]);
}

#[test]
fn plausible_plaintext_is_reported() {
    let runs = to_runs(&to_bits(&transmission(3)), 18, 0);
    let (_crc, plausible) = decode_runs(&runs, 1800);
    let plain = plaintext(&body());
    assert!(plausible.iter().any(|p| p.starts_with(&plain)));
}

#[test]
fn recover_bytes_finds_the_bytes_after_the_header() {
    let runs = to_runs(&to_bits(&transmission(0)), 18, 0);
    let candidates = recover_bytes(&runs, 1800);
    let mut expected = encrypt(&plaintext(&body()), 0);
    expected.extend_from_slice(&[0xAA, 0xAA]);
    assert!(candidates.contains(&expected));
}

#[test]
fn no_header_gives_no_candidate() {
    let runs = to_runs(&to_bits(b"jac"), 18, 0);
    assert!(recover_bytes(&runs, 1800).is_empty());
    assert!(recover_bytes(&[], 1800).is_empty());
}

#[test]
fn a_bare_header_gives_an_empty_candidate() {
    let runs = to_runs(&to_bits(b"jack"), 18, 0);
    assert!(recover_bytes(&runs, 1800).contains(&Vec::new()));
}

#[test]
fn attempt_decrypt_validates_an_encrypted_frame() {
    let candidates = vec![encrypt(&plaintext(b"RF!"), 7)];
    let (crc, _plausible) = attempt_decrypt(&candidates);
    assert!(crc.contains(&b"RF!".to_vec()));
}

#[test]
fn attempt_decrypt_ignores_the_leading_byte() {
    // the checksum covers the bytes after the first one
    let frame = b"xy".to_vec();
    let crc = checksum(&frame).to_be_bytes();
    let plain = vec![0x00, b'x', b'y', crc[0], crc[1]];
    let (found, _plausible) = attempt_decrypt(&vec![encrypt(&plain, 0)]);
    assert!(found.contains(&frame));
}

#[test]
fn attempt_decrypt_finds_nothing_in_noise() {
    let (crc, plausible) = attempt_decrypt(&vec![vec![1, 2, 3, 4, 5, 6, 7, 8]]);
    assert!(crc.is_empty());
    assert!(plausible.is_empty());
}

#[test]
fn likely_valid_needs_twenty_serial_bytes_or_ten_zeros() {
    assert!(likely_valid(b"xxSN12345678ABCDEFGHIJxx"));
    assert!(!likely_valid(b"xxSN12345678ABCDEFGHIxx"));
    assert!(!likely_valid(b"SN12345678abcdefghij"));
    assert!(likely_valid(&[1, 0, 0, 0, 0, 0, 0, 0, 0, 0, 0, 1]));
    assert!(!likely_valid(&[0, 0, 0, 0, 0, 0, 0, 0, 0]));
    assert!(!likely_valid(&[]));
}

fn bits(v: f32) -> u32 {
    v.to_bits()
}

#[test]
fn find_runs_reports_peaks() {
    let mut d = vec![0.0f32; 40];
    d[12] = 0.7;
    d[13] = 0.9;
    d[14] = 0.8;
    d[23] = -0.6;
    d[24] = -0.95;
    d[25] = -0.6;
    d[30] = 0.9;
    let d: Vec<u32> = d.into_iter().map(bits).collect();
    assert_eq!(find_runs(&d), vec![(13, true), (11, false), (6, true)]);
}

#[test]
fn find_runs_takes_the_last_of_equal_peaks_and_drops_an_open_edge() {
    let d: Vec<u32> = [0.0f32, 0.8, -0.8, 0.0, 0.0, 0.9, 0.9].into_iter().map(bits).collect();
    assert_eq!(find_runs(&d), vec![(2, false)]);
}

#[test]
fn find_runs_ignores_nan_and_small_values() {
    let d: Vec<u32> = [0.0f32, f32::NAN, 0.5, -0.5, 0.0].into_iter().map(bits).collect();
    assert!(find_runs(&d).is_empty());
}

#[test]
fn differential_of_no_signal_gives_no_frame() {
    let d = vec![bits(0.0); 1000];
    let (crc, plausible) = decode_differential(&d, 1800);
    assert!(crc.is_empty());
    assert!(plausible.is_empty());
}
