//! Decryption with the rotating key, CRC validation and the plausibility
//! test of plaintexts.
use vstd::prelude::*;

use crate::byteset::{contains_bytes, distinct_bytes, insert_bytes};
use crate::crc::{crc_suffixed, crc_suffixed_spec};

verus! {

/// The XOR key, `"GROWATTRF."`, repeated over the whole transmission.
pub open spec fn encryption_key() -> Seq<u8> {
    seq![71u8, 82u8, 79u8, 87u8, 65u8, 84u8, 84u8, 82u8, 70u8, 46u8]
}

/// How many bytes the key has, hence how many key offsets are tried.
pub const KEY_LEN: usize = 10;

fn key_bytes() -> (r: Vec<u8>)
    ensures
        r@ == encryption_key(),
{
    let r = vec![71u8, 82u8, 79u8, 87u8, 65u8, 84u8, 84u8, 82u8, 70u8, 46u8];
    assert(r@ =~= encryption_key());
    r
}

/// `cand` XORed with the key rotated left by `offset` bytes.
pub open spec fn decrypt_spec(cand: Seq<u8>, offset: int) -> Seq<u8> {
    Seq::new(cand.len(), |j: int| cand[j] ^ encryption_key()[(j + offset) % 10])
}

fn decrypt(cand: &[u8], key: &Vec<u8>, offset: usize) -> (r: Vec<u8>)
    requires
        key@ == encryption_key(),
        offset < KEY_LEN,
    ensures
        r@ == decrypt_spec(cand@, offset as int),
{
    let mut r: Vec<u8> = Vec::new();
    let mut k: usize = offset;
    let mut j: usize = 0;
    while j < cand.len()
        invariant
            key@ == encryption_key(),
            j <= cand@.len(),
            k == (j + offset) % 10,
            r@ == decrypt_spec(cand@, offset as int).take(j as int),
        decreases cand@.len() - j,
    {
        r.push(cand[j] ^ key[k]);
        k = if k + 1 == KEY_LEN { 0 } else { k + 1 };
        j = j + 1;
        assert(r@ =~= decrypt_spec(cand@, offset as int).take(j as int));
    }
    assert(r@ =~= decrypt_spec(cand@, offset as int));
    r
}

/// A byte that may stand in a device serial number: `0-9` or `A-Z`.
pub open spec fn serial_byte(b: u8) -> bool {
    (48 <= b <= 57) || (65 <= b <= 90)
}

/// The twenty bytes from `i` on are serial-number bytes.
pub open spec fn serial_window(s: Seq<u8>, i: int) -> bool {
    forall|j: int| i <= j < i + 20 ==> serial_byte(#[trigger] s[j])
}

/// The ten bytes from `i` on are zero.
pub open spec fn zero_window(s: Seq<u8>, i: int) -> bool {
    forall|j: int| i <= j < i + 10 ==> #[trigger] s[j] == 0
}

/// A plaintext is worth a look when it holds twenty consecutive serial-number
/// bytes or ten consecutive zero bytes.
pub open spec fn likely_valid_spec(s: Seq<u8>) -> bool {
    (exists|i: int| 0 <= i && i + 20 <= s.len() && #[trigger] serial_window(s, i))
        || (exists|i: int| 0 <= i && i + 10 <= s.len() && #[trigger] zero_window(s, i))
}

fn all_serial(w: &[u8]) -> (r: bool)
    ensures
        r == forall|t: int| 0 <= t < w@.len() ==> serial_byte(#[trigger] w@[t]),
{
    let mut j: usize = 0;
    while j < w.len()
        invariant
            j <= w@.len(),
            forall|t: int| 0 <= t < j ==> serial_byte(#[trigger] w@[t]),
        decreases w@.len() - j,
    {
        let b = w[j];
        if !((48 <= b && b <= 57) || (65 <= b && b <= 90)) {
            return false;
        }
        j = j + 1;
    }
    true
}

fn all_zero(w: &[u8]) -> (r: bool)
    ensures
        r == forall|t: int| 0 <= t < w@.len() ==> #[trigger] w@[t] == 0,
{
    let mut j: usize = 0;
    while j < w.len()
        invariant
            j <= w@.len(),
            forall|t: int| 0 <= t < j ==> #[trigger] w@[t] == 0,
        decreases w@.len() - j,
    {
        if w[j] != 0 {
            return false;
        }
        j = j + 1;
    }
    true
}

/// Whether a plaintext holds twenty consecutive `[0-9A-Z]` bytes (a serial
/// number) or ten consecutive zero bytes.
pub fn likely_valid(input: &[u8]) -> (r: bool)
    ensures
        r == likely_valid_spec(input@),
{
    let mut i: usize = 0;
    while i < input.len() && input.len() - i >= 20
        invariant
            forall|t: int| 0 <= t < i ==> !#[trigger] serial_window(input@, t),
        decreases input@.len() - i,
    {
        let w = &input[i..i + 20];
        if all_serial(w) {
            assert(serial_window(input@, i as int)) by {
                assert forall|j: int| i <= j < i + 20 implies serial_byte(#[trigger] input@[j]) by {
                    assert(input@[j] == w@[j - i]);
                }
            }
            return true;
        }
        assert(!serial_window(input@, i as int)) by {
            let t = choose|t: int| 0 <= t < w@.len() && !serial_byte(#[trigger] w@[t]);
            assert(input@[i + t] == w@[t]);
        }
        i = i + 1;
    }
    let mut i: usize = 0;
    while i < input.len() && input.len() - i >= 10
        invariant
            forall|t: int| 0 <= t && t + 20 <= input@.len() ==> !#[trigger] serial_window(input@, t),
            forall|t: int| 0 <= t < i ==> !#[trigger] zero_window(input@, t),
        decreases input@.len() - i,
    {
        let w = &input[i..i + 10];
        if all_zero(w) {
            assert(zero_window(input@, i as int)) by {
                assert forall|j: int| i <= j < i + 10 implies #[trigger] input@[j] == 0 by {
                    assert(input@[j] == w@[j - i]);
                }
            }
            return true;
        }
        assert(!zero_window(input@, i as int)) by {
            let t = choose|t: int| 0 <= t < w@.len() && #[trigger] w@[t] != 0;
            assert(input@[i + t] == w@[t]);
        }
        i = i + 1;
    }
    false
}

/// The plaintext carries a frame ending before index `i`: the bytes from 1 up
/// to `i`, followed at `i` by their big-endian CRC-16/MODBUS. The first byte
/// is not covered by the checksum.
pub open spec fn crc_frame_at(plain: Seq<u8>, i: int) -> bool {
    2 <= i && i + 2 <= plain.len() && crc_suffixed_spec(plain.subrange(1, i + 2))
}

/// `s` is a CRC-validated frame of the plaintext.
pub open spec fn is_crc_frame(plain: Seq<u8>, s: Seq<u8>) -> bool {
    exists|i: int| #[trigger] crc_frame_at(plain, i) && s == plain.subrange(1, i)
}

fn collect_crc_frames(plain: &[u8], found: &mut Vec<Vec<u8>>)
    requires
        distinct_bytes(old(found)@),
    ensures
        distinct_bytes(final(found)@),
        forall|s: Seq<u8>|
            #[trigger] contains_bytes(final(found)@, s) == (contains_bytes(old(found)@, s)
                || is_crc_frame(plain@, s)),
{
    let mut end: usize = plain.len();
    while end >= 4
        invariant
            end <= plain@.len(),
            distinct_bytes(found@),
            forall|s: Seq<u8>|
                #[trigger] contains_bytes(found@, s) == (contains_bytes(old(found)@, s)
                    || exists|i: int| end - 2 < i && #[trigger] crc_frame_at(plain@, i) && s == plain@.subrange(1, i)),
        decreases end,
    {
        let tail = &plain[1..end];
        assert(tail@ == plain@.subrange(1, end as int));
        match crc_suffixed(tail) {
            Some(frame) => {
                let ghost i = end - 2;
                assert(frame@ =~= plain@.subrange(1, i));
                assert(crc_frame_at(plain@, i));
                insert_bytes(found, vstd::slice::slice_to_vec(frame));
            },
            None => {
                assert(!crc_frame_at(plain@, end - 2));
            },
        }
        end = end - 1;
    }
}

/// Every frame and plausible plaintext found in the candidates: for each
/// candidate and each of the ten key offsets, the candidate is decrypted with
/// the key rotated by that offset. The first set holds each CRC-validated
/// frame of each plaintext (see `is_crc_frame`), the second each plaintext
/// that `likely_valid` accepts. Neither holds a byte sequence twice.
pub fn attempt_decrypt(candidate_bytes: &Vec<Vec<u8>>) -> (r: (Vec<Vec<u8>>, Vec<Vec<u8>>))
    ensures
        distinct_bytes(r.0@),
        distinct_bytes(r.1@),
        forall|s: Seq<u8>|
            #[trigger] contains_bytes(r.0@, s) == exists|c: int, o: int|
                0 <= c < candidate_bytes@.len() && 0 <= o < 10
                    && #[trigger] is_crc_frame(decrypt_spec(candidate_bytes@[c]@, o), s),
        forall|s: Seq<u8>|
            #[trigger] contains_bytes(r.1@, s) == exists|c: int, o: int|
                0 <= c < candidate_bytes@.len() && 0 <= o < 10
                    && s == #[trigger] decrypt_spec(candidate_bytes@[c]@, o)
                    && likely_valid_spec(s),
{
    let key = key_bytes();
    let mut matches_crc: Vec<Vec<u8>> = Vec::new();
    let mut looks_plausible: Vec<Vec<u8>> = Vec::new();
    let mut c: usize = 0;
    while c < candidate_bytes.len()
        invariant
            key@ == encryption_key(),
            c <= candidate_bytes@.len(),
            distinct_bytes(matches_crc@),
            distinct_bytes(looks_plausible@),
            forall|s: Seq<u8>|
                #[trigger] contains_bytes(matches_crc@, s) == exists|ci: int, o: int|
                    0 <= ci < c && 0 <= o < 10
                        && #[trigger] is_crc_frame(decrypt_spec(candidate_bytes@[ci]@, o), s),
            forall|s: Seq<u8>|
                #[trigger] contains_bytes(looks_plausible@, s) == exists|ci: int, o: int|
                    0 <= ci < c && 0 <= o < 10
                        && s == #[trigger] decrypt_spec(candidate_bytes@[ci]@, o)
                        && likely_valid_spec(s),
        decreases candidate_bytes@.len() - c,
    {
        let cand = candidate_bytes[c].as_slice();
        let mut offset: usize = 0;
        while offset < KEY_LEN
            invariant
                key@ == encryption_key(),
                c < candidate_bytes@.len(),
                cand@ == candidate_bytes@[c as int]@,
                offset <= 10,
                distinct_bytes(matches_crc@),
                distinct_bytes(looks_plausible@),
                forall|s: Seq<u8>|
                    #[trigger] contains_bytes(matches_crc@, s) == exists|ci: int, o: int|
                        0 <= ci <= c && 0 <= o < 10 && (ci < c || o < offset)
                            && #[trigger] is_crc_frame(decrypt_spec(candidate_bytes@[ci]@, o), s),
                forall|s: Seq<u8>|
                    #[trigger] contains_bytes(looks_plausible@, s) == exists|ci: int, o: int|
                        0 <= ci <= c && 0 <= o < 10 && (ci < c || o < offset)
                            && s == #[trigger] decrypt_spec(candidate_bytes@[ci]@, o)
                            && likely_valid_spec(s),
            decreases 10 - offset,
        {
            let decrypted = decrypt(cand, &key, offset);
            collect_crc_frames(decrypted.as_slice(), &mut matches_crc);
            if likely_valid(decrypted.as_slice()) {
                insert_bytes(&mut looks_plausible, decrypted);
            }
            offset = offset + 1;
        }
        c = c + 1;
    }
    (matches_crc, looks_plausible)
}

} // verus!
