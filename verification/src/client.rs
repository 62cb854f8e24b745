//! The receiving side: what a client does with each outcome of a receive on its socket, and
//! what it shows at each turn of its display. The socket is read and the window is drawn
//! elsewhere; what came of the read or of the keepalive is handed in here, and the answer says
//! how to go on.

use crate::frame_buffer::{FrameBuffer, GetFrameResult};
use crate::frame_model::{add_packet_spec, get_frame_spec, views, FrameView, GetFrameView};
use crate::packet::{decode, Packet, PacketView};
use vstd::prelude::*;

verus! {

/// Why a receive failed.
#[derive(Clone, Copy, Debug, PartialEq, Eq, Structural)]
pub enum RecvError {
    /// Nothing has come in yet.
    WouldBlock,
    /// The server has closed the connection by force.
    ConnectionReset,
    /// Any other failure.
    Other,
}

/// What came of one receive.
pub enum Received {
    /// A datagram came in; these are its bytes.
    Datagram(Vec<u8>),
    /// The receive failed.
    Failed(RecvError),
}

/// What came of one receive, mathematically.
pub enum ReceivedView {
    Datagram(Seq<u8>),
    Failed(RecvError),
}

impl View for Received {
    type V = ReceivedView;

    open spec fn view(&self) -> ReceivedView {
        match self {
            Received::Datagram(bytes) => ReceivedView::Datagram(bytes@),
            Received::Failed(error) => ReceivedView::Failed(*error),
        }
    }
}

/// What was done with what came in.
#[derive(Clone, Copy, Debug, PartialEq, Eq, Structural)]
pub enum IngestStep {
    /// The datagram was a fragment and went into the cache.
    Stored,
    /// The datagram was shorter than a header and was dropped.
    TooShort,
    /// The datagram was longer than any fragment and was dropped.
    TooLong,
    /// Nothing had come in.
    Idle,
    /// The datagram was empty: the server has closed the connection.
    Closed,
    /// The server has closed the connection by force.
    Reset,
    /// The receive failed for another reason.
    Failed,
}

impl IngestStep {
    /// The status with which the client ends after this step; none if it goes on.
    pub open spec fn exit_status(self) -> Option<i32> {
        match self {
            IngestStep::Closed => Some(0),
            IngestStep::Reset => Some(0),
            IngestStep::Failed => Some(1),
            _ => None,
        }
    }

    /// The status with which the client must end after this step; none if it goes on
    /// receiving.
    pub fn exit_code(&self) -> (status: Option<i32>)
        ensures
            status == self.exit_status(),
    {
        match self {
            IngestStep::Closed => Some(0),
            IngestStep::Reset => Some(0),
            IngestStep::Failed => Some(1),
            _ => None,
        }
    }
}

/// What the client does with what came of a receive, and the cache that this leaves. An empty
/// datagram means that the server is gone. A datagram shorter than a header or longer than a
/// full fragment is dropped. Any other datagram is a fragment and goes into the cache. A
/// receive that found nothing changes nothing; every other failure ends the client.
pub open spec fn ingest_spec(frames: Seq<FrameView>, event: ReceivedView) -> (
    IngestStep,
    Seq<FrameView>,
) {
    match event {
        ReceivedView::Datagram(bytes) => {
            if bytes.len() == 0 {
                (IngestStep::Closed, frames)
            } else if bytes.len() < Packet::META_SIZE {
                (IngestStep::TooShort, frames)
            } else if bytes.len() > Packet::CHUNK_SIZE {
                (IngestStep::TooLong, frames)
            } else {
                (IngestStep::Stored, add_packet_spec(frames, decode(bytes).unwrap()))
            }
        },
        ReceivedView::Failed(RecvError::WouldBlock) => (IngestStep::Idle, frames),
        ReceivedView::Failed(RecvError::ConnectionReset) => (IngestStep::Reset, frames),
        ReceivedView::Failed(RecvError::Other) => (IngestStep::Failed, frames),
    }
}

/// Deals with what came of one receive: stores a fragment in the cache, drops what is no
/// fragment, and says how the client goes on.
pub fn on_receive(cache: &mut FrameBuffer, event: Received) -> (step: IngestStep)
    requires
        old(cache).wf(),
    ensures
        final(cache).wf(),
        (step, final(cache)@) == ingest_spec(old(cache)@, event@),
{
    match event {
        Received::Datagram(bytes) => {
            let len: usize = bytes.len();
            if len == 0 {
                IngestStep::Closed
            } else if len < Packet::META_SIZE {
                IngestStep::TooShort
            } else if len > Packet::CHUNK_SIZE {
                IngestStep::TooLong
            } else {
                match Packet::from_bytes(bytes) {
                    Ok(packet) => {
                        cache.add_packet(packet);
                        IngestStep::Stored
                    },
                    Err(_) => IngestStep::TooShort,
                }
            }
        },
        Received::Failed(RecvError::WouldBlock) => IngestStep::Idle,
        Received::Failed(RecvError::ConnectionReset) => IngestStep::Reset,
        Received::Failed(RecvError::Other) => IngestStep::Failed,
    }
}

/// What the display does at one turn.
pub enum Update {
    /// The keepalive did not go out: the stream is closed and the client ends.
    Quit,
    /// No frame is complete; the picture stays.
    Wait,
    /// The oldest complete frame has a gap; these are the indices that it holds.
    Gap(Vec<u8>),
    /// A frame is ready; these are its bytes.
    Show(Vec<u8>),
}

/// What the display does at one turn, mathematically.
pub enum UpdateView {
    Quit,
    Wait,
    Gap(Seq<u8>),
    Show(Seq<u8>),
}

impl View for Update {
    type V = UpdateView;

    open spec fn view(&self) -> UpdateView {
        match self {
            Update::Quit => UpdateView::Quit,
            Update::Wait => UpdateView::Wait,
            Update::Gap(indices) => UpdateView::Gap(indices@),
            Update::Show(bytes) => UpdateView::Show(bytes@),
        }
    }
}

/// The indices of a run of fragments.
pub open spec fn indices(packets: Seq<PacketView>) -> Seq<u8> {
    packets.map_values(|packet: PacketView| packet.index)
}

/// What the display does at one turn, and the cache that this leaves. If the keepalive did not
/// go out, the client ends and the cache is not asked. Else the display shows what the cache
/// hands out: a ready frame, the indices of a frame with a gap, or nothing.
pub open spec fn update_spec(frames: Seq<FrameView>, ping_delivered: bool) -> (
    UpdateView,
    Seq<FrameView>,
) {
    if !ping_delivered {
        (UpdateView::Quit, frames)
    } else {
        match get_frame_spec(frames).0 {
            GetFrameView::NoFrame => (UpdateView::Wait, get_frame_spec(frames).1),
            GetFrameView::NonSequential(packets) => (
                UpdateView::Gap(indices(packets)),
                get_frame_spec(frames).1,
            ),
            GetFrameView::Ready(bytes) => (UpdateView::Show(bytes), get_frame_spec(frames).1),
        }
    }
}

/// Decides one turn of the display from whether the keepalive went out and from what the cache
/// hands out.
pub fn on_update(cache: &mut FrameBuffer, ping_delivered: bool) -> (update: Update)
    requires
        old(cache).wf(),
    ensures
        final(cache).wf(),
        (update@, final(cache)@) == update_spec(old(cache)@, ping_delivered),
{
    if !ping_delivered {
        return Update::Quit;
    }
    match cache.get_frame() {
        GetFrameResult::NoFrame => Update::Wait,
        GetFrameResult::NonSequential(packets) => {
            let mut found: Vec<u8> = Vec::new();
            let mut i: usize = 0;
            while i < packets.len()
                invariant
                    0 <= i <= packets@.len(),
                    found@ == indices(views(packets@)).take(i as int),
                decreases packets@.len() - i,
            {
                found.push(packets[i].index);
                assert(found@ =~= indices(views(packets@)).take(i + 1));
                i += 1;
            }
            assert(found@ =~= indices(views(packets@)));
            Update::Gap(found)
        },
        GetFrameResult::Ready(bytes) => Update::Show(bytes),
    }
}

/// The client never hangs on a server that is gone: an empty datagram, whatever the cache
/// holds, ends the client with status 0 and leaves the cache as it is.
pub proof fn lemma_closed_ends_the_client(frames: Seq<FrameView>)
    ensures
        ingest_spec(frames, ReceivedView::Datagram(Seq::empty())) == (IngestStep::Closed, frames),
        IngestStep::Closed.exit_status() == Some(0i32),
{
}

/// Only a datagram of the size of a fragment touches the cache; after every other receive the
/// cache is as it was.
pub proof fn lemma_only_fragments_are_stored(frames: Seq<FrameView>, event: ReceivedView)
    ensures
        ingest_spec(frames, event).0 != IngestStep::Stored ==> ingest_spec(frames, event).1
            == frames,
        ingest_spec(frames, event).0 == IngestStep::Stored <==> (event matches ReceivedView::Datagram(
            bytes,
        ) && Packet::META_SIZE <= bytes.len() <= Packet::CHUNK_SIZE),
        ingest_spec(frames, event).0.exit_status().is_some() <==> (event matches ReceivedView::Datagram(
            bytes,
        ) && bytes.len() == 0) || event == ReceivedView::Failed(RecvError::ConnectionReset)
            || event == ReceivedView::Failed(RecvError::Other),
{
}

} // verus!
