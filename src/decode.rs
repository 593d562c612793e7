//! The decoder from runs to frames, and its round trip.
use vstd::prelude::*;

use crate::byteset::{contains_bytes, distinct_bytes};
use crate::clock::{bit_count, candidate_at, first_occurrence, known_header, pack_bits, recover_bytes, recovered, run_bits};
use crate::crc::{be_u16, modbus_crc};
use crate::frames::{attempt_decrypt, crc_frame_at, decrypt_spec, encryption_key, is_crc_frame, likely_valid_spec};
use crate::runs::{find_runs, scan_runs};

verus! {

/// `s` is a CRC-validated frame of some candidate recovered from the runs,
/// decrypted at some key offset.
pub open spec fn decoded_frame(runs: Seq<(usize, bool)>, edge: int, s: Seq<u8>) -> bool {
    exists|c: Seq<u8>, o: int|
        recovered(runs, edge, c) && 0 <= o < 10 && #[trigger] is_crc_frame(decrypt_spec(c, o), s)
}

/// `s` is a plaintext of some candidate recovered from the runs, decrypted at
/// some key offset, that `likely_valid` accepts.
pub open spec fn decoded_plausible(runs: Seq<(usize, bool)>, edge: int, s: Seq<u8>) -> bool {
    exists|c: Seq<u8>, o: int|
        recovered(runs, edge, c) && 0 <= o < 10 && s == #[trigger] decrypt_spec(c, o) && likely_valid_spec(s)
}

/// The CRC-validated frames and the plausible plaintexts of a burst, given
/// its runs and the nominal edge length in hundredths of a sample:
/// `recover_bytes` followed by `attempt_decrypt`.
pub fn decode_runs(runs: &[(usize, bool)], edge_hundredths: u32) -> (r: (Vec<Vec<u8>>, Vec<Vec<u8>>))
    ensures
        distinct_bytes(r.0@),
        distinct_bytes(r.1@),
        forall|s: Seq<u8>| #[trigger] contains_bytes(r.0@, s) == decoded_frame(runs@, edge_hundredths as int, s),
        forall|s: Seq<u8>| #[trigger] contains_bytes(r.1@, s) == decoded_plausible(runs@, edge_hundredths as int, s),
{
    let candidates = recover_bytes(runs, edge_hundredths);
    let r = attempt_decrypt(&candidates);
    proof {
        let e = edge_hundredths as int;
        assert forall|s: Seq<u8>| #[trigger] contains_bytes(r.0@, s) == decoded_frame(runs@, e, s) by {
            if contains_bytes(r.0@, s) {
                let (c, o) = choose|c: int, o: int|
                    0 <= c < candidates@.len() && 0 <= o < 10
                        && #[trigger] is_crc_frame(decrypt_spec(candidates@[c]@, o), s);
                assert(contains_bytes(candidates@, candidates@[c]@));
            }
            if decoded_frame(runs@, e, s) {
                let (c, o) = choose|c: Seq<u8>, o: int|
                    recovered(runs@, e, c) && 0 <= o < 10 && #[trigger] is_crc_frame(decrypt_spec(c, o), s);
                assert(contains_bytes(candidates@, c));
                let i = choose|i: int| 0 <= i < candidates@.len() && (#[trigger] candidates@[i])@ == c;
                assert(is_crc_frame(decrypt_spec(candidates@[i]@, o), s));
            }
        }
        assert forall|s: Seq<u8>| #[trigger] contains_bytes(r.1@, s) == decoded_plausible(runs@, e, s) by {
            if contains_bytes(r.1@, s) {
                let (c, o) = choose|c: int, o: int|
                    0 <= c < candidates@.len() && 0 <= o < 10
                        && s == #[trigger] decrypt_spec(candidates@[c]@, o) && likely_valid_spec(s);
                assert(contains_bytes(candidates@, candidates@[c]@));
            }
            if decoded_plausible(runs@, e, s) {
                let (c, o) = choose|c: Seq<u8>, o: int|
                    recovered(runs@, e, c) && 0 <= o < 10 && s == #[trigger] decrypt_spec(c, o) && likely_valid_spec(s);
                assert(contains_bytes(candidates@, c));
                let i = choose|i: int| 0 <= i < candidates@.len() && (#[trigger] candidates@[i])@ == c;
                assert(s == decrypt_spec(candidates@[i]@, o));
            }
        }
    }
    r
}

/// The CRC-validated frames and the plausible plaintexts of a burst, given
/// its edge differential as single-precision bit patterns and the nominal
/// edge length in hundredths of a sample: `find_runs` followed by
/// `decode_runs`.
pub fn decode_differential(differential: &[u32], edge_hundredths: u32) -> (r: (Vec<Vec<u8>>, Vec<Vec<u8>>))
    ensures
        distinct_bytes(r.0@),
        distinct_bytes(r.1@),
        forall|s: Seq<u8>| #[trigger] contains_bytes(r.0@, s) == decoded_frame(
            scan_runs(differential@, differential@.len() as int).0,
            edge_hundredths as int,
            s,
        ),
        forall|s: Seq<u8>| #[trigger] contains_bytes(r.1@, s) == decoded_plausible(
            scan_runs(differential@, differential@.len() as int).0,
            edge_hundredths as int,
            s,
        ),
{
    let runs = find_runs(differential);
    decode_runs(runs.as_slice(), edge_hundredths)
}

/// A run of `len` samples lies within half a bit of `k` bits at a bit clock
/// of `clock` hundredths of a sample.
pub open spec fn within_half_bit(len: nat, clock: nat, k: nat) -> bool {
    let d = 100 * len - k * clock;
    -(clock as int) < 2 * d < clock
}

/// A run within half a bit of `k` bits stands for exactly `k` bits.
pub proof fn lemma_bit_count_tolerance(len: nat, clock: nat, k: nat)
    requires
        clock > 0,
        within_half_bit(len, clock, k),
    ensures
        bit_count(len, clock) == k,
{
    let x: int = 200 * len as int + clock as int;
    let d: int = 2 * clock as int;
    let r: int = x - k * d;
    assert(x == k * d + r);
    assert(0 <= r < d) by (nonlinear_arith)
        requires
            r == 200 * len + clock - k * (2 * clock),
            -(clock as int) < 2 * (100 * len - k * clock) < clock,
            d == 2 * clock,
    ;
    vstd::arithmetic::div_mod::lemma_fundamental_div_mod_converse(x, d, k as int, r);
}

/// The bits of runs that stand for `counts[i]` bits each.
pub open spec fn counted_bits(runs: Seq<(usize, bool)>, counts: Seq<nat>) -> Seq<bool>
    decreases runs.len(),
{
    if runs.len() == 0 {
        Seq::empty()
    } else {
        counted_bits(runs.drop_last(), counts.drop_last()) + Seq::new(
            counts.last(),
            |_j: int| !runs.last().1,
        )
    }
}

/// When every run lies within half a bit of its count at a bit clock, the
/// bits recovered at that clock are the counted bits.
pub proof fn lemma_run_bits_tolerance(runs: Seq<(usize, bool)>, counts: Seq<nat>, clock: nat)
    requires
        clock > 0,
        runs.len() == counts.len(),
        forall|i: int| 0 <= i < runs.len() ==> within_half_bit(#[trigger] runs[i].0 as nat, clock, counts[i]),
    ensures
        run_bits(runs, clock) == counted_bits(runs, counts),
    decreases runs.len(),
{
    if runs.len() > 0 {
        let n = runs.len() - 1;
        assert(within_half_bit(runs[n].0 as nat, clock, counts[n]));
        lemma_bit_count_tolerance(runs[n].0 as nat, clock, counts[n]);
        lemma_run_bits_tolerance(runs.drop_last(), counts.drop_last(), clock);
    }
}

/// XOR with the rotated key is its own inverse: decrypting undoes encrypting.
pub proof fn lemma_decrypt_involution(plain: Seq<u8>, offset: int)
    ensures
        decrypt_spec(decrypt_spec(plain, offset), offset) == plain,
{
    assert forall|j: int| 0 <= j < plain.len() implies #[trigger] decrypt_spec(decrypt_spec(plain, offset), offset)[j]
        == plain[j] by {
        let k = encryption_key()[(j + offset) % 10];
        let x = plain[j];
        assert((x ^ k) ^ k == x) by (bit_vector);
    }
    assert(decrypt_spec(decrypt_spec(plain, offset), offset) =~= plain);
}

/// A transmitted plaintext: a leading byte, the frame, its big-endian
/// CRC-16/MODBUS, and whatever follows.
pub open spec fn framed(lead: u8, body: Seq<u8>, tail: Seq<u8>) -> Seq<u8> {
    let crc = modbus_crc(body);
    seq![lead] + body + seq![(crc / 256) as u8, (crc % 256) as u8] + tail
}

/// A non-empty frame sent with its checksum is a CRC-validated frame of the
/// plaintext.
pub proof fn lemma_framed_validates(lead: u8, body: Seq<u8>, tail: Seq<u8>)
    requires
        body.len() >= 1,
    ensures
        is_crc_frame(framed(lead, body, tail), body),
{
    let plain = framed(lead, body, tail);
    let i: int = body.len() as int + 1;
    let data = plain.subrange(1, i + 2);
    let crc = modbus_crc(body);
    assert(plain.subrange(1, i) =~= body);
    assert(data.take(data.len() - 2) =~= body);
    assert(data[data.len() - 2] == (crc / 256) as u8);
    assert(data[data.len() - 1] == (crc % 256) as u8);
    assert(be_u16((crc / 256) as u8, (crc % 256) as u8) == crc);
    assert(crc_frame_at(plain, i));
}

/// Round trip of the decoder on exact runs. Take runs that each lie within
/// half a bit of a count at the nominal clock `edge` (hundredths of a
/// sample), so that they stand for at least 32 bits. When, at some bit
/// offset, the bytes packed from those bits hold the `"jack"` header first
/// at `p`, followed by a framed plaintext encrypted at key offset `o`, the
/// frame is among the CRC-validated frames that `decode_runs` lists.
pub proof fn lemma_round_trip(
    runs: Seq<(usize, bool)>,
    counts: Seq<nat>,
    edge: int,
    offset: int,
    p: int,
    o: int,
    lead: u8,
    body: Seq<u8>,
    tail: Seq<u8>,
)
    requires
        edge > 0,
        0 <= offset < 8,
        0 <= o < 10,
        body.len() >= 1,
        runs.len() == counts.len(),
        forall|i: int| 0 <= i < runs.len() ==> within_half_bit(#[trigger] runs[i].0 as nat, edge as nat, counts[i]),
        counted_bits(runs, counts).len() >= 32,
        first_occurrence(pack_bits(counted_bits(runs, counts).skip(offset)), known_header(), p),
        pack_bits(counted_bits(runs, counts).skip(offset)).skip(p + 4) == decrypt_spec(framed(lead, body, tail), o),
    ensures
        decoded_frame(runs, edge, body),
{
    lemma_run_bits_tolerance(runs, counts, edge as nat);
    let cipher = decrypt_spec(framed(lead, body, tail), o);
    assert(candidate_at(runs, edge, offset, cipher));
    assert(recovered(runs, edge, cipher));
    lemma_decrypt_involution(framed(lead, body, tail), o);
    lemma_framed_validates(lead, body, tail);
    assert(is_crc_frame(decrypt_spec(cipher, o), body));
}

} // verus!
