//! Bit-clock sweep: from runs to the byte sequences that follow the
//! `"jack"` header.
use vstd::prelude::*;

use crate::bits_to_byte;
use crate::bits_value;
use crate::byteset::{contains_bytes, distinct_bytes, insert_bytes};

verus! {

/// The preamble that precedes every frame: `"jack"`.
pub open spec fn known_header() -> Seq<u8> {
    seq![106u8, 97u8, 99u8, 107u8]
}

fn header_bytes() -> (r: Vec<u8>)
    ensures
        r@ == known_header(),
{
    let r = vec![106u8, 97u8, 99u8, 107u8];
    assert(r@ =~= known_header());
    r
}

/// `needle` occurs in `hay` at `p`.
pub open spec fn occurs_at(hay: Seq<u8>, needle: Seq<u8>, p: int) -> bool {
    0 <= p && p + needle.len() <= hay.len() && hay.subrange(p, p + needle.len()) == needle
}

/// `p` is the first place where `needle` occurs in `hay`.
pub open spec fn first_occurrence(hay: Seq<u8>, needle: Seq<u8>, p: int) -> bool {
    occurs_at(hay, needle, p) && forall|q: int| 0 <= q < p ==> !#[trigger] occurs_at(hay, needle, q)
}

/// Relies on `memchr::memmem::find`: the index of the first occurrence of
/// `needle` in `haystack`, or `None` when it does not occur.
#[verifier::external_body]
fn find_first(haystack: &[u8], needle: &[u8]) -> (r: Option<usize>)
    ensures
        r matches Some(p) ==> first_occurrence(haystack@, needle@, p as int),
        r is None ==> forall|q: int| !#[trigger] occurs_at(haystack@, needle@, q),
{
    memchr::memmem::find(haystack, needle)
}

/// How many bits a run of `len` samples stands for at a bit clock of `clock`
/// hundredths of a sample: `len / (clock / 100)` rounded to the nearest
/// integer, halves up.
pub open spec fn bit_count(len: nat, clock: nat) -> nat {
    (200 * len + clock) / (2 * clock)
}

/// The bits that the runs stand for at a bit clock of `clock` hundredths of
/// a sample: each run gives `bit_count` copies of the opposite of its
/// polarity.
pub open spec fn run_bits(runs: Seq<(usize, bool)>, clock: nat) -> Seq<bool>
    decreases runs.len(),
{
    if runs.len() == 0 {
        Seq::empty()
    } else {
        let (len, positive) = runs.last();
        run_bits(runs.drop_last(), clock) + Seq::new(bit_count(len as nat, clock), |_j: int| !positive)
    }
}

/// Groups of eight bits packed into bytes, most significant bit first; a
/// trailing partial group is dropped.
pub open spec fn pack_bits(bits: Seq<bool>) -> Seq<u8> {
    Seq::new(bits.len() / 8, |k: int| bits_value(bits.subrange(8 * k, 8 * k + 8)) as u8)
}

/// At bit clock `clock` (hundredths of a sample) and bit offset `offset`,
/// the runs give at least 32 bits and `s` follows the first header in the
/// bytes packed from the bits that follow the offset.
pub open spec fn candidate_at(runs: Seq<(usize, bool)>, clock: int, offset: int, s: Seq<u8>) -> bool {
    let bits = run_bits(runs, clock as nat);
    let packed = pack_bits(bits.skip(offset));
    &&& clock > 0
    &&& bits.len() >= 32
    &&& exists|p: int| #[trigger] first_occurrence(packed, known_header(), p) && s == packed.skip(p + 4)
}

/// `s` is recovered from the runs at some bit clock within three samples of
/// `edge` (both in hundredths of a sample, in steps of one hundredth) and
/// some bit offset below eight.
pub open spec fn recovered(runs: Seq<(usize, bool)>, edge: int, s: Seq<u8>) -> bool {
    exists|clock: int, offset: int|
        edge - 300 <= clock < edge + 300 && 0 <= offset < 8 && #[trigger] candidate_at(runs, clock, offset, s)
}

proof fn lemma_run_bits_step(runs: Seq<(usize, bool)>, i: int, clock: nat)
    requires
        0 <= i < runs.len(),
    ensures
        run_bits(runs.take(i + 1), clock) == run_bits(runs.take(i), clock) + Seq::new(
            bit_count(runs[i].0 as nat, clock),
            |_j: int| !runs[i].1,
        ),
{
    assert(runs.take(i + 1).drop_last() =~= runs.take(i));
}

fn run_bits_exec(runs: &[(usize, bool)], clock: u64) -> (r: Vec<bool>)
    requires
        clock > 0,
    ensures
        r@ == run_bits(runs@, clock as nat),
{
    let mut bits: Vec<bool> = Vec::new();
    let mut i: usize = 0;
    while i < runs.len()
        invariant
            clock > 0,
            i <= runs@.len(),
            bits@ == run_bits(runs@.take(i as int), clock as nat),
        decreases runs@.len() - i,
    {
        let (len, positive) = runs[i];
        let count: u128 = (200 * (len as u128) + clock as u128) / (2 * clock as u128);
        let ghost start = bits@;
        let mut j: u128 = 0;
        while j < count
            invariant
                j <= count,
                bits@ == start + Seq::new(j as nat, |_t: int| !positive),
            decreases count - j,
        {
            bits.push(!positive);
            j = j + 1;
            assert(bits@ =~= start + Seq::new(j as nat, |_t: int| !positive));
        }
        proof {
            lemma_run_bits_step(runs@, i as int, clock as nat);
        }
        i = i + 1;
    }
    assert(runs@.take(runs@.len() as int) =~= runs@);
    bits
}

fn pack_bits_exec(bits: &[bool]) -> (r: Vec<u8>)
    ensures
        r@ == pack_bits(bits@),
{
    let mut r: Vec<u8> = Vec::new();
    let mut start: usize = 0;
    while start < bits.len() && bits.len() - start >= 8
        invariant
            start <= bits@.len(),
            start == 8 * r@.len(),
            r@ == pack_bits(bits@).take(r@.len() as int),
        decreases bits@.len() - start,
    {
        let group = &bits[start..start + 8];
        let b = bits_to_byte(group);
        proof {
            crate::lemma_bits_value_bound(group@);
            vstd::arithmetic::power2::lemma2_to64();
        }
        r.push(b);
        start = start + 8;
        assert(r@ =~= pack_bits(bits@).take(r@.len() as int));
    }
    assert(r@ =~= pack_bits(bits@));
    r
}

/// `s` is a candidate at a clock from `lo` up to `clock`, where at `clock`
/// itself only the offsets below `offset` count.
pub open spec fn found_before(runs: Seq<(usize, bool)>, lo: int, clock: int, offset: int, s: Seq<u8>) -> bool {
    exists|c: int, o: int|
        lo <= c <= clock && 0 <= o < 8 && (c < clock || o < offset) && #[trigger] candidate_at(runs, c, o, s)
}

proof fn lemma_found_next_offset(runs: Seq<(usize, bool)>, lo: int, clock: int, offset: int, s: Seq<u8>)
    requires
        lo <= clock,
        0 <= offset < 8,
    ensures
        found_before(runs, lo, clock, offset + 1, s) == (found_before(runs, lo, clock, offset, s)
            || candidate_at(runs, clock, offset, s)),
{
    if found_before(runs, lo, clock, offset + 1, s) {
        let (c, o) = choose|c: int, o: int|
            lo <= c <= clock && 0 <= o < 8 && (c < clock || o < offset + 1) && #[trigger] candidate_at(runs, c, o, s);
        if c < clock || o < offset {
            assert(found_before(runs, lo, clock, offset, s));
        }
    }
    if found_before(runs, lo, clock, offset, s) {
        let (c, o) = choose|c: int, o: int|
            lo <= c <= clock && 0 <= o < 8 && (c < clock || o < offset) && #[trigger] candidate_at(runs, c, o, s);
        assert(found_before(runs, lo, clock, offset + 1, s));
    }
}

proof fn lemma_found_next_clock(runs: Seq<(usize, bool)>, lo: int, clock: int, s: Seq<u8>)
    ensures
        found_before(runs, lo, clock, 8, s) == found_before(runs, lo, clock + 1, 0, s),
{
    if found_before(runs, lo, clock, 8, s) {
        let (c, o) = choose|c: int, o: int|
            lo <= c <= clock && 0 <= o < 8 && (c < clock || o < 8) && #[trigger] candidate_at(runs, c, o, s);
        assert(found_before(runs, lo, clock + 1, 0, s));
    }
    if found_before(runs, lo, clock + 1, 0, s) {
        let (c, o) = choose|c: int, o: int|
            lo <= c <= clock + 1 && 0 <= o < 8 && (c < clock + 1 || o < 0) && #[trigger] candidate_at(runs, c, o, s);
        assert(found_before(runs, lo, clock, 8, s));
    }
}

/// Every byte sequence that follows the first `"jack"` header in the bytes
/// packed from the bits of the runs, over the bit clocks from three samples
/// below `edge_hundredths` to three samples above it in steps of a hundredth
/// and the bit offsets 0 to 7 (see `recovered`). Clocks that give fewer than
/// 32 bits, and clocks that are not positive, are skipped.
pub fn recover_bytes(runs: &[(usize, bool)], edge_hundredths: u32) -> (r: Vec<Vec<u8>>)
    ensures
        distinct_bytes(r@),
        forall|s: Seq<u8>| #[trigger] contains_bytes(r@, s) == recovered(runs@, edge_hundredths as int, s),
{
    let ghost lo: int = edge_hundredths - 300;
    let header = header_bytes();
    let mut found: Vec<Vec<u8>> = Vec::new();
    let mut step: i64 = 0;
    while step < 600
        invariant
            header@ == known_header(),
            lo == edge_hundredths - 300,
            0 <= step <= 600,
            distinct_bytes(found@),
            forall|s: Seq<u8>| #[trigger] contains_bytes(found@, s) == found_before(runs@, lo, lo + step, 0, s),
        decreases 600 - step,
    {
        let clock: i64 = edge_hundredths as i64 - 300 + step;
        let mut offset: usize = 0;
        if clock > 0 {
            let bits = run_bits_exec(runs, clock as u64);
            if bits.len() >= 32 {
                while offset < 8
                    invariant
                        header@ == known_header(),
                        clock == lo + step,
                        0 <= step < 600,
                        clock > 0,
                        bits@ == run_bits(runs@, clock as nat),
                        bits@.len() >= 32,
                        offset <= 8,
                        distinct_bytes(found@),
                        forall|s: Seq<u8>|
                            #[trigger] contains_bytes(found@, s) == found_before(runs@, lo, clock as int, offset as int, s),
                    decreases 8 - offset,
                {
                    let packed = pack_bits_exec(&bits[offset..bits.len()]);
                    assert(bits@.subrange(offset as int, bits@.len() as int) == bits@.skip(offset as int));
                    match find_first(packed.as_slice(), header.as_slice()) {
                        Some(p) => {
                            let rest = vstd::slice::slice_to_vec(&packed[p + 4..packed.len()]);
                            assert(rest@ =~= packed@.skip(p + 4));
                            assert(candidate_at(runs@, clock as int, offset as int, rest@));
                            proof {
                                assert forall|s: Seq<u8>| #[trigger]
                                    candidate_at(runs@, clock as int, offset as int, s) implies s == rest@ by {
                                    let q = choose|q: int|
                                        #[trigger] first_occurrence(packed@, known_header(), q) && s == packed@.skip(q + 4);
                                    if q < p {
                                        assert(occurs_at(packed@, known_header(), q));
                                    }
                                    if p < q {
                                        assert(occurs_at(packed@, known_header(), p as int));
                                    }
                                }
                            }
                            insert_bytes(&mut found, rest);
                        },
                        None => {
                            proof {
                                assert forall|s: Seq<u8>|
                                    !#[trigger] candidate_at(runs@, clock as int, offset as int, s) by {
                                    if candidate_at(runs@, clock as int, offset as int, s) {
                                        let q = choose|q: int|
                                            #[trigger] first_occurrence(packed@, known_header(), q) && s == packed@.skip(q + 4);
                                        assert(occurs_at(packed@, known_header(), q));
                                    }
                                }
                            }
                        },
                    }
                    proof {
                        assert forall|s: Seq<u8>| #[trigger] contains_bytes(found@, s) == found_before(
                            runs@,
                            lo,
                            clock as int,
                            offset + 1,
                            s,
                        ) by {
                            lemma_found_next_offset(runs@, lo, clock as int, offset as int, s);
                        }
                    }
                    offset = offset + 1;
                }
            }
        }
        proof {
            assert forall|s: Seq<u8>| #[trigger] contains_bytes(found@, s) == found_before(runs@, lo, lo + step + 1, 0, s) by {
                lemma_found_next_clock(runs@, lo, lo + step, s);
                if offset < 8 {
                    // this clock was skipped: nothing is a candidate at it
                    assert forall|o: int| 0 <= o < 8 implies !#[trigger] candidate_at(runs@, lo + step, o, s) by {}
                    if found_before(runs@, lo, lo + step, 8, s) {
                        let (c, o) = choose|c: int, o: int|
                            lo <= c <= lo + step && 0 <= o < 8 && (c < lo + step || o < 8) && #[trigger] candidate_at(runs@, c, o, s);
                        assert(found_before(runs@, lo, lo + step, 0, s));
                    }
                }
            }
        }
        step = step + 1;
    }
    proof {
        assert forall|s: Seq<u8>| #[trigger] contains_bytes(found@, s) == recovered(runs@, edge_hundredths as int, s) by {
            if found_before(runs@, lo, lo + 600, 0, s) {
                let (c, o) = choose|c: int, o: int|
                    lo <= c <= lo + 600 && 0 <= o < 8 && (c < lo + 600 || o < 0) && #[trigger] candidate_at(runs@, c, o, s);
                assert(recovered(runs@, edge_hundredths as int, s));
            }
            if recovered(runs@, edge_hundredths as int, s) {
                let (c, o) = choose|c: int, o: int|
                    edge_hundredths - 300 <= c < edge_hundredths + 300 && 0 <= o < 8 && #[trigger] candidate_at(runs@, c, o, s);
                assert(found_before(runs@, lo, lo + 600, 0, s));
            }
        }
    }
    found
}

} // verus!
