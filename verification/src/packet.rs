//! One datagram-sized fragment of a frame, and its wire format.
//!
//! A datagram is `META_SIZE` header bytes followed by the payload:
//!
//! | offset | bytes | field                      |
//! |--------|-------|----------------------------|
//! | 0      | 1     | `index`                    |
//! | 1      | 4     | `frame_id`, little-endian  |
//! | 5      | N     | payload                    |

use std::cmp::Ordering;
use vstd::arithmetic::div_mod::lemma_fundamental_div_mod_converse;
use vstd::prelude::*;
use vstd::slice::{slice_subrange, slice_to_vec};
use vstd::std_specs::cmp::{PartialEqSpecImpl, PartialOrdSpecImpl};

verus! {

/// One fragment of a frame.
pub struct Packet {
    /// Position of the fragment within its frame; fragment 0 comes first.
    pub index: u8,
    /// The frame that the fragment belongs to.
    pub frame_id: u32,
    /// The fragment's share of the frame's bytes.
    pub data: Vec<u8>,
}

/// What a packet is, mathematically.
pub struct PacketView {
    pub index: u8,
    pub frame_id: u32,
    pub payload: Seq<u8>,
}

impl View for Packet {
    type V = PacketView;

    open spec fn view(&self) -> PacketView {
        PacketView { index: self.index, frame_id: self.frame_id, payload: self.data@ }
    }
}

/// The four bytes of a frame id on the wire, least significant first.
pub open spec fn frame_id_bytes(frame_id: u32) -> Seq<u8> {
    seq![
        (frame_id % 256) as u8,
        (frame_id / 256 % 256) as u8,
        (frame_id / 65536 % 256) as u8,
        (frame_id / 16777216) as u8,
    ]
}

/// The frame id that four wire bytes stand for.
pub open spec fn frame_id_of(b0: u8, b1: u8, b2: u8, b3: u8) -> u32 {
    (b0 + 256 * b1 + 65536 * b2 + 16777216 * b3) as u32
}

/// The datagram of a packet.
pub open spec fn encode(packet: PacketView) -> Seq<u8> {
    seq![packet.index] + frame_id_bytes(packet.frame_id) + packet.payload
}

/// The packet of a datagram; none if the datagram is shorter than a header.
pub open spec fn decode(bytes: Seq<u8>) -> Option<PacketView> {
    if bytes.len() < Packet::META_SIZE {
        None
    } else {
        Some(
            PacketView {
                index: bytes[0],
                frame_id: frame_id_of(bytes[1], bytes[2], bytes[3], bytes[4]),
                payload: bytes.subrange(Packet::META_SIZE as int, bytes.len() as int),
            },
        )
    }
}

/// Why a datagram is no packet.
#[derive(Clone, Copy, Debug, PartialEq, Eq, Structural)]
pub enum PacketError {
    /// The datagram is shorter than the header.
    MalformedPacket,
}

impl Packet {
    /// Bytes of header in front of the payload.
    pub const META_SIZE: usize = 5;

    /// The most bytes that one datagram holds, header included.
    pub const CHUNK_SIZE: usize = 65000;

    /// The most payload bytes that one datagram holds.
    pub const MAX_PAYLOAD: usize = 64995;

    /// A packet with a copy of `data` as its payload.
    pub fn new(index: u8, frame_id: u32, data: &[u8]) -> (packet: Packet)
        ensures
            packet@ == (PacketView { index, frame_id, payload: data@ }),
    {
        Packet { index, frame_id, data: slice_to_vec(data) }
    }

    /// The packet's datagram.
    pub fn to_bytes(&self) -> (bytes: Vec<u8>)
        ensures
            bytes@ == encode(self@),
    {
        let id: u32 = self.frame_id;
        let mut bytes: Vec<u8> = Vec::new();
        bytes.push(self.index);
        bytes.push((id % 256) as u8);
        bytes.push((id / 256 % 256) as u8);
        bytes.push((id / 65536 % 256) as u8);
        bytes.push((id / 16777216) as u8);
        bytes.extend_from_slice(self.data.as_slice());
        assert(bytes@ =~= encode(self@));
        bytes
    }

    /// Reads a datagram as a packet. A datagram shorter than the header is malformed; any
    /// other is a packet, whose payload is all that follows the header.
    pub fn from_bytes(bytes: Vec<u8>) -> (result: Result<Packet, PacketError>)
        ensures
            match result {
                Ok(packet) => decode(bytes@) == Some(packet@),
                Err(error) => decode(bytes@).is_none() && error == PacketError::MalformedPacket,
            },
    {
        if bytes.len() < Packet::META_SIZE {
            return Err(PacketError::MalformedPacket);
        }
        let b1: u32 = bytes[1] as u32;
        let b2: u32 = bytes[2] as u32;
        let b3: u32 = bytes[3] as u32;
        let b4: u32 = bytes[4] as u32;
        let frame_id: u32 = b1 + 256 * b2 + 65536 * b3 + 16777216 * b4;
        let payload = slice_subrange(bytes.as_slice(), Packet::META_SIZE, bytes.len());
        Ok(Packet { index: bytes[0], frame_id, data: slice_to_vec(payload) })
    }
}

impl Clone for Packet {
    fn clone(&self) -> (copy: Packet)
        ensures
            copy@ == self@,
    {
        Packet { index: self.index, frame_id: self.frame_id, data: self.data.clone() }
    }
}

impl PartialEq for Packet {
    /// Two packets are equal when they stand at the same place of the same frame, whatever
    /// they carry.
    fn eq(&self, other: &Packet) -> (equal: bool) {
        self.index == other.index && self.frame_id == other.frame_id
    }
}

impl PartialEqSpecImpl for Packet {
    open spec fn obeys_eq_spec() -> bool {
        true
    }

    open spec fn eq_spec(&self, other: &Packet) -> bool {
        self.index == other.index && self.frame_id == other.frame_id
    }
}

impl PartialOrd for Packet {
    /// Packets of one frame are ordered by index; packets of different frames are not
    /// comparable.
    fn partial_cmp(&self, other: &Packet) -> (order: Option<Ordering>) {
        if self.frame_id != other.frame_id {
            None
        } else if self.index < other.index {
            Some(Ordering::Less)
        } else if self.index == other.index {
            Some(Ordering::Equal)
        } else {
            Some(Ordering::Greater)
        }
    }
}

impl PartialOrdSpecImpl for Packet {
    open spec fn obeys_partial_cmp_spec() -> bool {
        true
    }

    open spec fn partial_cmp_spec(&self, other: &Packet) -> Option<Ordering> {
        if self.frame_id != other.frame_id {
            None
        } else if self.index < other.index {
            Some(Ordering::Less)
        } else if self.index == other.index {
            Some(Ordering::Equal)
        } else {
            Some(Ordering::Greater)
        }
    }
}

/// A full payload and a header fill a datagram.
pub proof fn lemma_max_payload()
    ensures
        Packet::MAX_PAYLOAD + Packet::META_SIZE == Packet::CHUNK_SIZE,
{
}

/// The four wire bytes of a frame id stand for that frame id.
pub proof fn lemma_frame_id_of_bytes(frame_id: u32)
    ensures
        frame_id_bytes(frame_id).len() == 4,
        frame_id_of(
            frame_id_bytes(frame_id)[0],
            frame_id_bytes(frame_id)[1],
            frame_id_bytes(frame_id)[2],
            frame_id_bytes(frame_id)[3],
        ) == frame_id,
{
    let x = frame_id as int;
    let b0 = x % 256;
    let b1 = x / 256 % 256;
    let b2 = x / 65536 % 256;
    let b3 = x / 16777216;
    assert(x == 256 * (x / 256) + b0);
    assert(x / 256 == 256 * (x / 256 / 256) + b1);
    assert(x / 256 / 256 == x / 65536);
    assert(x / 65536 == 256 * (x / 65536 / 256) + b2);
    assert(x / 65536 / 256 == x / 16777216);
    assert(x == b0 + 256 * b1 + 65536 * b2 + 16777216 * b3);
}

/// The frame id that four bytes stand for has those four bytes on the wire.
pub proof fn lemma_frame_id_bytes_of(b0: u8, b1: u8, b2: u8, b3: u8)
    ensures
        frame_id_bytes(frame_id_of(b0, b1, b2, b3)) == seq![b0, b1, b2, b3],
{
    let x = b0 + 256 * b1 + 65536 * b2 + 16777216 * b3;
    assert(0 <= x <= u32::MAX);
    lemma_fundamental_div_mod_converse(x, 256, b1 + 256 * b2 + 65536 * b3, b0 as int);
    lemma_fundamental_div_mod_converse(x / 256, 256, b2 + 256 * b3, b1 as int);
    lemma_fundamental_div_mod_converse(x, 65536, b2 + 256 * b3, b0 + 256 * b1);
    lemma_fundamental_div_mod_converse(x / 65536, 256, b3 as int, b2 as int);
    lemma_fundamental_div_mod_converse(x, 16777216, b3 as int, b0 + 256 * b1 + 65536 * b2);
    assert(frame_id_bytes(x as u32) =~= seq![b0, b1, b2, b3]);
}

/// Decoding the datagram of a packet gives the packet back, payload included.
pub proof fn lemma_decode_encode(packet: PacketView)
    ensures
        decode(encode(packet)) == Some(packet),
{
    let bytes = encode(packet);
    lemma_frame_id_of_bytes(packet.frame_id);
    assert(bytes.len() == 5 + packet.payload.len());
    assert(bytes[1] == frame_id_bytes(packet.frame_id)[0]);
    assert(bytes[2] == frame_id_bytes(packet.frame_id)[1]);
    assert(bytes[3] == frame_id_bytes(packet.frame_id)[2]);
    assert(bytes[4] == frame_id_bytes(packet.frame_id)[3]);
    assert(bytes.subrange(5, bytes.len() as int) =~= packet.payload);
}

/// Encoding the packet of a datagram gives the datagram back.
pub proof fn lemma_encode_decode(bytes: Seq<u8>)
    requires
        bytes.len() >= Packet::META_SIZE,
    ensures
        decode(bytes) matches Some(packet) && encode(packet) == bytes,
{
    let packet = decode(bytes).unwrap();
    lemma_frame_id_bytes_of(bytes[1], bytes[2], bytes[3], bytes[4]);
    assert(encode(packet) =~= bytes);
}

} // verus!
