//! Recovery of the packets that Shinelink / GROWATTRF monitoring dongles send
//! over FM radio: bit-clock recovery, de-framing, decryption and CRC checks.
//!
//! The floating-point front end (FM demodulation, edge correlation and
//! normalisation) hands this crate plain values: per-chunk flags, the bit
//! patterns of the edge differential, run lengths in samples.
use vstd::prelude::*;

pub mod byteset;
pub mod clock;
pub mod crc;
pub mod decode;
pub mod frames;
pub mod packet;
pub mod runs;
pub mod squelch;

verus! {

/// The value of a bit sequence read most significant bit first.
pub open spec fn bits_value(bits: Seq<bool>) -> nat
    decreases bits.len(),
{
    if bits.len() == 0 {
        0
    } else {
        2 * bits_value(bits.drop_last()) + if bits.last() { 1nat } else { 0nat }
    }
}

/// A bit sequence has a value below two to the power of its length.
pub proof fn lemma_bits_value_bound(bits: Seq<bool>)
    ensures
        bits_value(bits) < vstd::arithmetic::power2::pow2(bits.len()),
    decreases bits.len(),
{
    if bits.len() > 0 {
        vstd::arithmetic::power2::lemma_pow2_unfold(bits.len());
        lemma_bits_value_bound(bits.drop_last());
    } else {
        vstd::arithmetic::power2::lemma_pow2_pos(0);
        assert(vstd::arithmetic::power2::pow2(0) == 1) by {
            vstd::arithmetic::power2::lemma2_to64();
        }
    }
}

/// Packs eight bits into a byte, the first bit being the most significant.
pub fn bits_to_byte(bits: &[bool]) -> (r: u8)
    requires
        bits@.len() == 8,
    ensures
        r as nat == bits_value(bits@),
{
    let mut acc: u8 = 0;
    let mut i: usize = 0;
    while i < 8
        invariant
            i <= 8,
            bits@.len() == 8,
            acc as nat == bits_value(bits@.take(i as int)),
        decreases 8 - i,
    {
        proof {
            let next = bits@.take(i as int + 1);
            assert(next.drop_last() =~= bits@.take(i as int));
            lemma_bits_value_bound(next);
            vstd::arithmetic::power2::lemma2_to64();
        }
        acc = 2 * acc + if bits[i] { 1u8 } else { 0u8 };
        i = i + 1;
    }
    assert(bits@.take(8) =~= bits@);
    acc
}

/// A byte shown as itself by `unambiguous`: an ASCII letter, digit or
/// punctuation character.
pub open spec fn plain_byte(c: u8) -> bool {
    ||| 48 <= c <= 57
    ||| 65 <= c <= 90
    ||| 97 <= c <= 122
    ||| 33 <= c <= 47
    ||| 58 <= c <= 64
    ||| 91 <= c <= 96
    ||| 123 <= c <= 126
}

/// The decimal digit `d` as a character.
pub open spec fn digit_char(d: int) -> char {
    (48 + d) as char
}

/// A byte written in decimal, without leading zeros.
pub open spec fn decimal(c: u8) -> Seq<char> {
    if c >= 100 {
        seq![digit_char(c as int / 100), digit_char(c as int / 10 % 10), digit_char(c as int % 10)]
    } else if c >= 10 {
        seq![digit_char(c as int / 10), digit_char(c as int % 10)]
    } else {
        seq![digit_char(c as int)]
    }
}

/// How `unambiguous` shows one byte: the character itself when it is plain,
/// otherwise its decimal value in brackets.
pub open spec fn token(c: u8) -> Seq<char> {
    if plain_byte(c) {
        seq![c as char]
    } else {
        seq!['['] + decimal(c) + seq![']']
    }
}

/// The tokens of the bytes, separated by single spaces.
pub open spec fn unambiguous_spec(input: Seq<u8>) -> Seq<char>
    decreases input.len(),
{
    if input.len() == 0 {
        Seq::empty()
    } else if input.len() == 1 {
        token(input[0])
    } else {
        unambiguous_spec(input.drop_last()) + seq![' '] + token(input.last())
    }
}

/// Relies on `String::from_iter` over `char`s: the string holds the
/// characters in order.
#[verifier::external_body]
fn string_of(chars: Vec<char>) -> (r: String)
    ensures
        r@ == chars@,
{
    String::from_iter(chars)
}

fn push_digit(out: &mut Vec<char>, d: u8)
    requires
        d < 10,
    ensures
        final(out)@ == old(out)@.push(digit_char(d as int)),
{
    out.push((48u8 + d) as char);
}

/// Shows bytes for a reader: letters, digits and punctuation as themselves,
/// any other byte as its decimal value in brackets, separated by spaces.
pub fn unambiguous(input: &[u8]) -> (r: String)
    ensures
        r@ == unambiguous_spec(input@),
{
    let mut out: Vec<char> = Vec::new();
    let mut i: usize = 0;
    while i < input.len()
        invariant
            i <= input@.len(),
            out@ == unambiguous_spec(input@.take(i as int)),
        decreases input@.len() - i,
    {
        let ghost before = out@;
        if i > 0 {
            out.push(' ');
        }
        let c = input[i];
        if (48 <= c && c <= 57) || (65 <= c && c <= 90) || (97 <= c && c <= 122) || (33 <= c && c <= 47)
            || (58 <= c && c <= 64) || (91 <= c && c <= 96) || (123 <= c && c <= 126) {
            out.push(c as char);
        } else {
            out.push('[');
            if c >= 100 {
                push_digit(&mut out, c / 100);
                push_digit(&mut out, c / 10 % 10);
            } else if c >= 10 {
                push_digit(&mut out, c / 10);
            }
            push_digit(&mut out, c % 10);
            out.push(']');
        }
        proof {
            let next = input@.take(i as int + 1);
            assert(next.drop_last() =~= input@.take(i as int));
            if i == 0 {
                assert(out@ =~= token(c));
            } else {
                assert(out@ =~= before + seq![' '] + token(c));
            }
        }
        i = i + 1;
    }
    assert(input@.take(input@.len() as int) =~= input@);
    string_of(out)
}

} // verus!
