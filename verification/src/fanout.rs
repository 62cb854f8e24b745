//! The sending side: a compressed frame is cut into fragments, and every fragment goes to every
//! client.

use crate::frame_model::{
    add_packet_spec, add_packets_spec, assemble, complete, first_complete_at, frame_index,
    get_frame_spec, has_frame, lemma_first_complete, lemma_insert_last, open_frame, sequential,
    views, FrameView, GetFrameView,
};
use crate::packet::{Packet, PacketView};
use bytes::Bytes;
use std::ops::Deref;
use vstd::prelude::*;
use vstd::slice::slice_subrange;

verus! {

/// `bytes::Bytes`, a shared buffer of bytes. Verus sees nothing inside it.
#[verifier::external_type_specification]
#[verifier::external_body]
pub struct ExBytes(bytes::Bytes);

/// The bytes that a `Bytes` holds, in order.
pub uninterp spec fn bytes_contents(buffer: Bytes) -> Seq<u8>;

/// `<Bytes as From<Vec<u8>>>::from`: the buffer takes the vector over and holds its bytes
/// unchanged.
#[verifier::external_body]
fn bytes_from_vec(data: Vec<u8>) -> (buffer: Bytes)
    ensures
        bytes_contents(buffer) == data@,
{
    Bytes::from(data)
}

/// `<Bytes as Deref>::deref`: the slice that a buffer hands out is the bytes that it holds.
#[verifier::external_body]
fn bytes_as_slice(buffer: &Bytes) -> (slice: &[u8])
    ensures
        slice@ == bytes_contents(*buffer),
{
    buffer.deref()
}

/// How many fragments a frame of `len` bytes has: one for each full payload, and a last one
/// for what is left, which may be nothing. The last fragment is always shorter than a full
/// payload; that is how the receiver knows the end of the frame.
pub open spec fn fragment_count(len: nat) -> nat {
    len / (Packet::MAX_PAYLOAD as nat) + 1
}

/// The fragment with index `i` of a frame.
pub open spec fn fragment_spec(data: Seq<u8>, frame_id: u32, i: int) -> PacketView {
    let start = i * Packet::MAX_PAYLOAD;
    let end = if start + Packet::MAX_PAYLOAD <= data.len() {
        start + Packet::MAX_PAYLOAD
    } else {
        data.len() as int
    };
    PacketView { index: i as u8, frame_id, payload: data.subrange(start, end) }
}

/// The fragments of a frame, in the order of their indices.
pub open spec fn fragments_spec(data: Seq<u8>, frame_id: u32) -> Seq<PacketView> {
    Seq::new(fragment_count(data.len()), |i: int| fragment_spec(data, frame_id, i))
}

/// Why a frame cannot be sent.
#[derive(Clone, Copy, Debug, PartialEq, Eq, Structural)]
pub enum FragmentError {
    /// The frame needs more than 256 fragments, and an index is one byte.
    TooManyFragments,
}

/// A compressed frame that waits to be sent, with the id under which it will go out.
pub struct ProcessedFrame {
    pub bytes: Bytes,
    pub frame_id: u32,
}

/// What a frame that waits to be sent is, mathematically.
pub struct ProcessedFrameView {
    pub bytes: Seq<u8>,
    pub frame_id: u32,
}

impl View for ProcessedFrame {
    type V = ProcessedFrameView;

    open spec fn view(&self) -> ProcessedFrameView {
        ProcessedFrameView { bytes: bytes_contents(self.bytes), frame_id: self.frame_id }
    }
}

impl ProcessedFrame {
    /// The most fragments that a frame can have.
    pub const MAX_FRAGMENTS: usize = 256;

    /// Wraps the bytes of a compressed frame for sending.
    pub fn new(compressed: Vec<u8>, frame_id: u32) -> (frame: ProcessedFrame)
        ensures
            frame@ == (ProcessedFrameView { bytes: compressed@, frame_id }),
    {
        ProcessedFrame { bytes: bytes_from_vec(compressed), frame_id }
    }

    /// The number of bytes of the frame.
    pub fn len(&self) -> (len: usize)
        ensures
            len == self@.bytes.len(),
    {
        bytes_as_slice(&self.bytes).len()
    }

    /// Cuts the frame into its fragments: consecutive pieces of `MAX_PAYLOAD` bytes, and a
    /// last, shorter piece, which is empty if the frame is a whole number of payloads. A frame
    /// that needs more than `MAX_FRAGMENTS` fragments is refused.
    pub fn fragments(&self) -> (result: Result<Vec<Packet>, FragmentError>)
        ensures
            match result {
                Ok(packets) => fragment_count(self@.bytes.len()) <= Self::MAX_FRAGMENTS && views(
                    packets@,
                ) == fragments_spec(self@.bytes, self@.frame_id),
                Err(error) => fragment_count(self@.bytes.len()) > Self::MAX_FRAGMENTS && error
                    == FragmentError::TooManyFragments,
            },
    {
        let data = bytes_as_slice(&self.bytes);
        let len: usize = data.len();
        let count: usize = len / Packet::MAX_PAYLOAD + 1;
        if count > Self::MAX_FRAGMENTS {
            return Err(FragmentError::TooManyFragments);
        }
        let mut packets: Vec<Packet> = Vec::new();
        let mut i: usize = 0;
        while i < count
            invariant
                0 <= i <= count,
                count == fragment_count(data@.len()),
                count <= Self::MAX_FRAGMENTS,
                len == data@.len(),
                views(packets@) == fragments_spec(data@, self.frame_id).take(i as int),
            decreases count - i,
        {
            let start: usize = i * Packet::MAX_PAYLOAD;
            let end: usize = if len - start >= Packet::MAX_PAYLOAD {
                start + Packet::MAX_PAYLOAD
            } else {
                len
            };
            let packet = Packet::new(i as u8, self.frame_id, slice_subrange(data, start, end));
            assert(packet@ == fragment_spec(data@, self.frame_id, i as int));
            let ghost before = views(packets@);
            packets.push(packet);
            assert(views(packets@) =~= before.push(packet@));
            assert(views(packets@) =~= fragments_spec(data@, self.frame_id).take(i + 1));
            i += 1;
        }
        assert(views(packets@) =~= fragments_spec(data@, self.frame_id));
        Ok(packets)
    }
}

/// The shape of the fragments of a frame: there is at least one; all but the last carry a full
/// payload and the last carries less, so that the frame is complete with it and not before;
/// all bear the frame's id; and while they are at most 256, their indices run 0, 1, 2, ...
pub proof fn lemma_fragments_shape(data: Seq<u8>, frame_id: u32)
    ensures
        fragments_spec(data, frame_id).len() == fragment_count(data.len()),
        fragments_spec(data, frame_id).len() >= 1,
        forall|i: int|
            0 <= i < fragments_spec(data, frame_id).len() - 1 ==> (#[trigger] fragments_spec(
                data,
                frame_id,
            )[i]).payload.len() == Packet::MAX_PAYLOAD,
        fragments_spec(data, frame_id).last().payload.len() == data.len() % (
        Packet::MAX_PAYLOAD as nat),
        fragments_spec(data, frame_id).last().payload.len() < Packet::MAX_PAYLOAD,
        forall|i: int|
            0 <= i < fragments_spec(data, frame_id).len() ==> (#[trigger] fragments_spec(
                data,
                frame_id,
            )[i]).frame_id == frame_id,
        fragment_count(data.len()) <= ProcessedFrame::MAX_FRAGMENTS ==> sequential(
            fragments_spec(data, frame_id),
        ),
{
}

/// The payloads of the first `count` fragments, one behind the other, are the bytes of the
/// frame up to where those fragments end.
proof fn lemma_assemble_prefix(data: Seq<u8>, frame_id: u32, count: int)
    requires
        0 <= count <= fragment_count(data.len()),
    ensures
        assemble(fragments_spec(data, frame_id).take(count)) == data.subrange(
            0,
            if count * Packet::MAX_PAYLOAD <= data.len() {
                count * Packet::MAX_PAYLOAD
            } else {
                data.len() as int
            },
        ),
    decreases count,
{
    let fragments = fragments_spec(data, frame_id);
    let payloads = |packet: PacketView| packet.payload;
    if count == 0 {
        assert(fragments.take(0).map_values(payloads) =~= Seq::<Seq<u8>>::empty());
        assert(assemble(fragments.take(0)) =~= data.subrange(0, 0));
    } else {
        lemma_assemble_prefix(data, frame_id, count - 1);
        let earlier = fragments.take(count - 1);
        let piece = fragments[count - 1];
        assert(fragments.take(count) =~= earlier.push(piece));
        assert(earlier.push(piece).map_values(payloads) =~= earlier.map_values(payloads).push(
            piece.payload,
        ));
        earlier.map_values(payloads).lemma_flatten_push(piece.payload);
        assert(assemble(fragments.take(count)) =~= assemble(earlier) + piece.payload);
        assert(assemble(earlier) + piece.payload =~= data.subrange(
            0,
            if count * Packet::MAX_PAYLOAD <= data.len() {
                count * Packet::MAX_PAYLOAD
            } else {
                data.len() as int
            },
        ));
    }
}

/// Cutting loses nothing: the payloads of the fragments of a frame, one behind the other, are
/// the bytes of the frame.
pub proof fn lemma_fragments_assemble(data: Seq<u8>, frame_id: u32)
    ensures
        assemble(fragments_spec(data, frame_id)) == data,
{
    let fragments = fragments_spec(data, frame_id);
    lemma_assemble_prefix(data, frame_id, fragments.len() as int);
    assert(fragments.take(fragments.len() as int) =~= fragments);
    assert(data.subrange(0, data.len() as int) =~= data);
}

/// An empty cache that takes in the first `count` fragments of a frame, in order, holds one
/// frame, which is made of those fragments.
proof fn lemma_cache_of_fragments(data: Seq<u8>, frame_id: u32, count: int)
    requires
        fragment_count(data.len()) <= ProcessedFrame::MAX_FRAGMENTS,
        1 <= count <= fragment_count(data.len()),
    ensures
        add_packets_spec(Seq::empty(), fragments_spec(data, frame_id).take(count)) == seq![
            FrameView { id: frame_id, packets: fragments_spec(data, frame_id).take(count) },
        ],
    decreases count,
{
    let fragments = fragments_spec(data, frame_id);
    let piece = fragments[count - 1];
    let earlier = fragments.take(count - 1);
    assert(fragments.take(count).drop_last() =~= earlier);
    assert(fragments.take(count).last() == piece);
    let before = add_packets_spec(Seq::empty(), earlier);
    if count == 1 {
        assert(before =~= Seq::<FrameView>::empty());
        let opened = open_frame(before, frame_id);
        assert(opened =~= seq![FrameView { id: frame_id, packets: Seq::empty() }]);
    } else {
        lemma_cache_of_fragments(data, frame_id, count - 1);
        assert(before[0].id == frame_id);
        assert(has_frame(before, frame_id));
    }
    let opened = open_frame(before, frame_id);
    assert(opened.len() == 1 && opened[0].id == frame_id);
    assert(frame_index(opened, frame_id) == 0);
    assert(opened[0].packets =~= earlier);
    lemma_insert_last(earlier, piece);
    assert(earlier.push(piece) =~= fragments.take(count));
    assert(add_packet_spec(before, piece) =~= seq![
        FrameView { id: frame_id, packets: fragments.take(count) },
    ]);
}

/// What is cut on one side is joined on the other: an empty cache that takes in the fragments
/// of a frame, in order, hands out the bytes of the frame and is empty again.
pub proof fn lemma_fragments_reassemble(data: Seq<u8>, frame_id: u32)
    requires
        fragment_count(data.len()) <= ProcessedFrame::MAX_FRAGMENTS,
    ensures
        get_frame_spec(add_packets_spec(Seq::empty(), fragments_spec(data, frame_id))) == (
            GetFrameView::Ready(data),
            Seq::<FrameView>::empty(),
        ),
{
    let fragments = fragments_spec(data, frame_id);
    lemma_cache_of_fragments(data, frame_id, fragments.len() as int);
    assert(fragments.take(fragments.len() as int) =~= fragments);
    lemma_fragments_shape(data, frame_id);
    lemma_fragments_assemble(data, frame_id);
    let cache = add_packets_spec(Seq::empty(), fragments);
    assert(complete(cache[0]));
    assert(first_complete_at(cache, 0));
    lemma_first_complete(cache, 0);
    assert(cache.remove(0) =~= Seq::<FrameView>::empty());
}

} // verus!
