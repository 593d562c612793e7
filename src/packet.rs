//! The application layer of validated frames: `"RF"`, a sequence byte, a
//! three-byte prefix, a twenty-character serial number, a reserved byte, a
//! big-endian request code and the payload.
use vstd::prelude::*;

use crate::crc::be_u16;
use crate::frames::serial_byte;

verus! {

/// The frame starts with `"RF"`, is at least 30 bytes long, and its bytes 6
/// to 25 are serial-number characters (`0-9`, `A-Z`).
pub open spec fn sn_packet_spec(s: Seq<u8>) -> bool {
    &&& s.len() >= 30
    &&& s[0] == 82 && s[1] == 70
    &&& forall|j: int| 6 <= j < 26 ==> serial_byte(#[trigger] s[j])
}

/// Whether a validated frame carries a serial number (see `sn_packet_spec`).
pub fn sn_packet(sample: &[u8]) -> (r: bool)
    ensures
        r == sn_packet_spec(sample@),
{
    if sample.len() < 30 || sample[0] != 82 || sample[1] != 70 {
        return false;
    }
    let mut j: usize = 6;
    while j < 26
        invariant
            6 <= j <= 26,
            sample@.len() >= 30,
            forall|t: int| 6 <= t < j ==> serial_byte(#[trigger] sample@[t]),
        decreases 26 - j,
    {
        let b = sample[j];
        if !((48 <= b && b <= 57) || (65 <= b && b <= 90)) {
            return false;
        }
        j = j + 1;
    }
    true
}

/// The values of byte 28 over the frames that carry a serial number.
pub open spec fn byte28_values(frames: Seq<Vec<u8>>) -> Set<u8> {
    Set::new(|b: u8| exists|i: int| 0 <= i < frames.len() && sn_packet_spec(#[trigger] frames[i]@) && frames[i]@[28] == b)
}

/// A burst is perfect when its frames that carry a serial number agree on
/// byte 28 (the low byte of the request code): that byte, or `None` when
/// there are no such frames or they disagree.
pub fn classify(crc: &Vec<Vec<u8>>) -> (r: Option<u8>)
    ensures
        r matches Some(b) ==> byte28_values(crc@) == set![b],
        r is None ==> forall|b: u8| byte28_values(crc@) != set![b],
{
    let mut first: Option<u8> = None;
    let mut i: usize = 0;
    while i < crc.len()
        invariant
            i <= crc@.len(),
            first is None ==> forall|t: int| 0 <= t < i ==> !sn_packet_spec(#[trigger] crc@[t]@),
            first matches Some(b) ==> forall|t: int|
                0 <= t < i && sn_packet_spec(#[trigger] crc@[t]@) ==> crc@[t]@[28] == b,
            first matches Some(b) ==> exists|t: int| 0 <= t < i && sn_packet_spec(#[trigger] crc@[t]@) && crc@[t]@[28] == b,
        decreases crc@.len() - i,
    {
        let frame = crc[i].as_slice();
        if sn_packet(frame) {
            let v = frame[28];
            match first {
                None => {
                    first = Some(v);
                },
                Some(b) => {
                    if b != v {
                        proof {
                            let t = choose|t: int| 0 <= t < i && sn_packet_spec(#[trigger] crc@[t]@) && crc@[t]@[28] == b;
                            assert(byte28_values(crc@).contains(b));
                            assert(byte28_values(crc@).contains(v));
                            assert forall|x: u8| byte28_values(crc@) != set![x] by {
                                if byte28_values(crc@) == set![x] {
                                    assert(set![x].contains(b) && set![x].contains(v));
                                }
                            }
                        }
                        return None;
                    }
                },
            }
        }
        i = i + 1;
    }
    proof {
        match first {
            Some(b) => {
                assert(byte28_values(crc@) =~= set![b]);
            },
            None => {
                assert(byte28_values(crc@) =~= Set::empty());
                assert forall|x: u8| byte28_values(crc@) != set![x] by {
                    assert(set![x].contains(x));
                }
            },
        }
    }
    first
}

/// The fields of an application frame.
pub struct Packet {
    /// Byte 2.
    pub seq: u8,
    /// Bytes 3 to 5; their meaning is unknown.
    pub prefix: [u8; 3],
    /// Bytes 6 to 25, the device serial number.
    pub serial: Vec<u8>,
    /// Bytes 27 and 28, big-endian.
    pub request: u16,
    /// The bytes from 29 on.
    pub payload: Vec<u8>,
}

/// The frame is a complete packet: it carries a serial number and at least
/// four payload bytes.
pub open spec fn complete_packet(s: Seq<u8>) -> bool {
    sn_packet_spec(s) && s.len() >= 33
}

/// `p` holds the fields of `frame`.
pub open spec fn fields_of(p: Packet, frame: Seq<u8>) -> bool {
    &&& p.seq == frame[2]
    &&& p.prefix@ == frame.subrange(3, 6)
    &&& p.serial@ == frame.subrange(6, 26)
    &&& p.request == be_u16(frame[27], frame[28])
    &&& p.payload@ == frame.subrange(29, frame.len() as int)
}

/// The frames of `frames` that `complete_packet` accepts, in order.
pub open spec fn complete_frames(frames: Seq<Vec<u8>>) -> Seq<Vec<u8>> {
    frames.filter(|f: Vec<u8>| complete_packet(f@))
}

/// The fields of a frame that `complete_packet` accepts; `None` for any
/// other frame.
pub fn parse_packet(frame: &[u8]) -> (r: Option<Packet>)
    ensures
        r is Some == complete_packet(frame@),
        r matches Some(p) ==> fields_of(p, frame@),
{
    if frame.len() < 33 || !sn_packet(frame) {
        return None;
    }
    let prefix: [u8; 3] = [frame[3], frame[4], frame[5]];
    assert(prefix@ =~= frame@.subrange(3, 6));
    let request: u16 = frame[27] as u16 * 256 + frame[28] as u16;
    Some(Packet {
        seq: frame[2],
        prefix,
        serial: vstd::slice::slice_to_vec(&frame[6..26]),
        request,
        payload: vstd::slice::slice_to_vec(&frame[29..frame.len()]),
    })
}

/// The packets of the complete frames among `frames`, in order.
pub fn complete_packets(frames: &Vec<Vec<u8>>) -> (r: Vec<Packet>)
    ensures
        r@.len() == complete_frames(frames@).len(),
        forall|i: int| 0 <= i < r@.len() ==> fields_of(#[trigger] r@[i], complete_frames(frames@)[i]@),
{
    let mut r: Vec<Packet> = Vec::new();
    let mut i: usize = 0;
    while i < frames.len()
        invariant
            i <= frames@.len(),
            r@.len() == complete_frames(frames@.take(i as int)).len(),
            forall|k: int| 0 <= k < r@.len() ==> fields_of(#[trigger] r@[k], complete_frames(frames@.take(i as int))[k]@),
        decreases frames@.len() - i,
    {
        proof {
            reveal(Seq::filter);
            assert(frames@.take(i as int + 1).drop_last() =~= frames@.take(i as int));
        }
        match parse_packet(frames[i].as_slice()) {
            Some(p) => {
                r.push(p);
            },
            None => {},
        }
        i = i + 1;
    }
    assert(frames@.take(frames@.len() as int) =~= frames@);
    r
}

} // verus!
