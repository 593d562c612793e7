//! CRC-16/MODBUS framing: a frame is followed by its checksum, big-endian.
use vstd::prelude::*;

verus! {

/// The CRC-16/MODBUS checksum of a byte sequence (polynomial 0x8005
/// reflected, initial value 0xFFFF, reflected input and output, no final
/// XOR), as the `crc` crate computes it.
pub uninterp spec fn modbus_crc(data: Seq<u8>) -> u16;

/// Relies on `crc::Crc::<u16>::checksum` configured with `crc::CRC_16_MODBUS`:
/// the checksum is a function of the bytes alone.
#[verifier::external_body]
fn modbus_checksum(data: &[u8]) -> (r: u16)
    ensures
        r == modbus_crc(data@),
{
    ::crc::Crc::<u16>::new(&::crc::CRC_16_MODBUS).checksum(data)
}

/// The CRC-16/MODBUS checksum of `data`.
pub fn checksum(data: &[u8]) -> (r: u16)
    ensures
        r == modbus_crc(data@),
{
    modbus_checksum(data)
}

/// The 16-bit value of two bytes, the first one most significant.
pub open spec fn be_u16(hi: u8, lo: u8) -> u16 {
    (hi as nat * 256 + lo as nat) as u16
}

/// `data` is a frame followed by the big-endian checksum of that frame.
pub open spec fn crc_suffixed_spec(data: Seq<u8>) -> bool {
    &&& data.len() >= 2
    &&& modbus_crc(data.take(data.len() - 2)) == be_u16(data[data.len() - 2], data[data.len() - 1])
}

/// The frame in front of a trailing big-endian CRC-16/MODBUS checksum, when
/// the checksum matches; `None` when it does not or when `data` is shorter
/// than two bytes.
pub fn crc_suffixed(data: &[u8]) -> (r: Option<&[u8]>)
    ensures
        r.is_some() == crc_suffixed_spec(data@),
        r matches Some(frame) ==> frame@ == data@.take(data@.len() - 2),
{
    if data.len() < 2 {
        return None;
    }
    let (input, check) = data.split_at(data.len() - 2);
    let expected: u16 = check[0] as u16 * 256 + check[1] as u16;
    if modbus_checksum(input) == expected {
        Some(input)
    } else {
        None
    }
}

} // verus!
