//! The reassembly cache as mathematics: what a frame and a cache are, what taking a fragment in
//! and handing a frame out do to them, and what holds of every cache.

use crate::frame_buffer::FrameBuffer;
use crate::packet::{Packet, PacketView};
use vstd::prelude::*;

verus! {

/// What one frame of the cache is, mathematically: its id and its fragments in cache order.
pub struct FrameView {
    pub id: u32,
    pub packets: Seq<PacketView>,
}

/// The views of a run of packets.
pub open spec fn views(packets: Seq<Packet>) -> Seq<PacketView> {
    packets.map_values(|packet: Packet| packet@)
}

/// The fragments stand in strictly ascending order of index, so none occurs twice.
pub open spec fn sorted(packets: Seq<PacketView>) -> bool {
    forall|i: int, j: int| 0 <= i < j < packets.len() ==> packets[i].index < packets[j].index
}

/// The fragments of a frame are sorted and all carry the frame's id.
pub open spec fn frame_ordered(frame: FrameView) -> bool {
    &&& sorted(frame.packets)
    &&& forall|i: int| 0 <= i < frame.packets.len() ==> frame.packets[i].frame_id == frame.id
}

/// Some frame of the cache has this id.
pub open spec fn has_frame(frames: Seq<FrameView>, id: u32) -> bool {
    exists|k: int| 0 <= k < frames.len() && frames[k].id == id
}

/// Where the frame with this id stands in the cache.
pub open spec fn frame_index(frames: Seq<FrameView>, id: u32) -> int {
    choose|k: int| 0 <= k < frames.len() && frames[k].id == id
}

/// No two frames of the cache share an id.
pub open spec fn distinct_ids(frames: Seq<FrameView>) -> bool {
    forall|i: int, j: int| 0 <= i < j < frames.len() ==> frames[i].id != frames[j].id
}

/// What holds of the cache between any two operations: it is within its bound, its frames have
/// distinct ids, and each frame holds at least one fragment, sorted by index.
pub open spec fn well_formed(frames: Seq<FrameView>) -> bool {
    &&& frames.len() <= FrameBuffer::MAX_FRAMES
    &&& distinct_ids(frames)
    &&& forall|k: int|
        0 <= k < frames.len() ==> frame_ordered(#[trigger] frames[k]) && frames[k].packets.len()
            > 0
}

/// As `well_formed`, but a frame may still be empty.
pub open spec fn well_formed_or_empty(frames: Seq<FrameView>) -> bool {
    &&& frames.len() <= FrameBuffer::MAX_FRAMES
    &&& distinct_ids(frames)
    &&& forall|k: int| 0 <= k < frames.len() ==> frame_ordered(#[trigger] frames[k])
}

/// Some fragment of the run has this index.
pub open spec fn has_index(packets: Seq<PacketView>, index: u8) -> bool {
    exists|i: int| 0 <= i < packets.len() && packets[i].index == index
}

/// Every fragment before place `at` has a smaller index, every fragment from `at` on a greater
/// one.
pub open spec fn splits_at(packets: Seq<PacketView>, index: u8, at: int) -> bool {
    &&& 0 <= at <= packets.len()
    &&& forall|i: int| 0 <= i < at ==> packets[i].index < index
    &&& forall|i: int| at <= i < packets.len() ==> packets[i].index > index
}

/// The fragments of a frame after one more fragment came in: a fragment whose index is there
/// already changes nothing; any other goes where the order by index puts it.
pub open spec fn insert_packet(packets: Seq<PacketView>, packet: PacketView) -> Seq<PacketView> {
    if exists|at: int| splits_at(packets, packet.index, at) {
        packets.insert(choose|at: int| splits_at(packets, packet.index, at), packet)
    } else {
        packets
    }
}

/// The cache with room for one more frame: at the bound, the oldest frame leaves.
pub open spec fn make_room(frames: Seq<FrameView>) -> Seq<FrameView> {
    if frames.len() >= FrameBuffer::MAX_FRAMES {
        frames.drop_first()
    } else {
        frames
    }
}

/// The cache with a frame for this id: one that is there stays as it is; a new one is begun,
/// empty, behind the others.
pub open spec fn open_frame(frames: Seq<FrameView>, id: u32) -> Seq<FrameView> {
    if has_frame(frames, id) {
        frames
    } else {
        make_room(frames).push(FrameView { id, packets: Seq::empty() })
    }
}

/// The cache after a fragment went into the frame that bears its id.
pub open spec fn place(frames: Seq<FrameView>, packet: PacketView) -> Seq<FrameView> {
    let k = frame_index(frames, packet.frame_id);
    frames.update(
        k,
        FrameView { id: packet.frame_id, packets: insert_packet(frames[k].packets, packet) },
    )
}

/// The cache after `add_packet`.
pub open spec fn add_packet_spec(frames: Seq<FrameView>, packet: PacketView) -> Seq<FrameView> {
    place(open_frame(frames, packet.frame_id), packet)
}

/// The ids of the frames of the cache, oldest first.
pub open spec fn frame_ids(frames: Seq<FrameView>) -> Seq<u32> {
    frames.map_values(|frame: FrameView| frame.id)
}

/// The cache after a run of fragments came in, one after the other.
pub open spec fn add_packets_spec(frames: Seq<FrameView>, packets: Seq<PacketView>) -> Seq<
    FrameView,
>
    decreases packets.len(),
{
    if packets.len() == 0 {
        frames
    } else {
        add_packet_spec(add_packets_spec(frames, packets.drop_last()), packets.last())
    }
}

/// The ids of the frames that a run of fragments begins, in the order in which it begins them:
/// a fragment begins a frame when the cache holds no frame with its id as it comes in.
pub open spec fn begun(frames: Seq<FrameView>, packets: Seq<PacketView>) -> Seq<u32>
    decreases packets.len(),
{
    if packets.len() == 0 {
        Seq::empty()
    } else {
        let earlier = packets.drop_last();
        if has_frame(add_packets_spec(frames, earlier), packets.last().frame_id) {
            begun(frames, earlier)
        } else {
            begun(frames, earlier).push(packets.last().frame_id)
        }
    }
}

/// The last `count` of the ids, or all of them if they are fewer.
pub open spec fn newest(ids: Seq<u32>, count: int) -> Seq<u32> {
    if ids.len() <= count {
        ids
    } else {
        ids.skip(ids.len() - count)
    }
}

/// The frame is complete: its last fragment is shorter than a full payload, which marks the
/// end of the frame.
pub open spec fn complete(frame: FrameView) -> bool {
    frame.packets.len() > 0 && frame.packets.last().payload.len() < Packet::MAX_PAYLOAD
}

/// Some frame of the cache is complete.
pub open spec fn some_complete(frames: Seq<FrameView>) -> bool {
    exists|k: int| 0 <= k < frames.len() && complete(frames[k])
}

/// The frame at place `k` is complete and no older frame is.
pub open spec fn first_complete_at(frames: Seq<FrameView>, k: int) -> bool {
    &&& 0 <= k < frames.len()
    &&& complete(frames[k])
    &&& forall|j: int| 0 <= j < k ==> !complete(frames[j])
}

/// The place of the oldest complete frame.
pub open spec fn first_complete(frames: Seq<FrameView>) -> int {
    choose|k: int| first_complete_at(frames, k)
}

/// The indices of the fragments are 0, 1, 2, ... without a gap.
pub open spec fn sequential(packets: Seq<PacketView>) -> bool {
    forall|i: int| 0 <= i < packets.len() ==> packets[i].index == i
}

/// The payloads of the fragments, one behind the other.
pub open spec fn assemble(packets: Seq<PacketView>) -> Seq<u8> {
    packets.map_values(|packet: PacketView| packet.payload).flatten()
}

/// What a `GetFrameResult` is, mathematically.
pub enum GetFrameView {
    NoFrame,
    NonSequential(Seq<PacketView>),
    Ready(Seq<u8>),
}

/// What `get_frame` hands out, and the cache that it leaves. With no complete frame it hands
/// out nothing. Else it looks at the oldest complete frame: one without a gap is assembled and
/// leaves the cache; one with a gap is shown and stays.
pub open spec fn get_frame_spec(frames: Seq<FrameView>) -> (GetFrameView, Seq<FrameView>) {
    if !some_complete(frames) {
        (GetFrameView::NoFrame, frames)
    } else {
        let k = first_complete(frames);
        if sequential(frames[k].packets) {
            (GetFrameView::Ready(assemble(frames[k].packets)), frames.remove(k))
        } else {
            (GetFrameView::NonSequential(frames[k].packets), frames)
        }
    }
}

/// The oldest complete frame is the one that is complete with no complete frame before it.
pub proof fn lemma_first_complete(frames: Seq<FrameView>, k: int)
    requires
        first_complete_at(frames, k),
    ensures
        some_complete(frames),
        first_complete(frames) == k,
{
    let chosen = first_complete(frames);
    assert(first_complete_at(frames, chosen));
    if chosen < k {
        assert(!complete(frames[chosen]));
    }
    if k < chosen {
        assert(!complete(frames[k]));
    }
}

/// A frame that leaves a well-formed cache leaves it well formed.
pub proof fn lemma_remove_well_formed(frames: Seq<FrameView>, k: int)
    requires
        well_formed(frames),
        0 <= k < frames.len(),
    ensures
        well_formed(frames.remove(k)),
{
    let rest = frames.remove(k);
    assert forall|j: int| 0 <= j < rest.len() implies frame_ordered(#[trigger] rest[j])
        && rest[j].packets.len() > 0 by {
        if j < k {
            assert(rest[j] == frames[j]);
        } else {
            assert(rest[j] == frames[j + 1]);
        }
    }
    assert forall|i: int, j: int| 0 <= i < j < rest.len() implies rest[i].id != rest[j].id by {
        let a = if i < k { i } else { i + 1 };
        let b = if j < k { j } else { j + 1 };
        assert(rest[i] == frames[a] && rest[j] == frames[b]);
    }
}

/// Opening a frame keeps the cache in order and leaves a frame with that id.
pub proof fn lemma_open_frame(frames: Seq<FrameView>, id: u32)
    requires
        well_formed_or_empty(frames),
    ensures
        well_formed_or_empty(open_frame(frames, id)),
        has_frame(open_frame(frames, id), id),
        well_formed(frames) ==> forall|k: int|
            0 <= k < open_frame(frames, id).len() && #[trigger] open_frame(frames, id)[k].id
                != id ==> open_frame(frames, id)[k].packets.len() > 0,
{
    let opened = open_frame(frames, id);
    if !has_frame(frames, id) {
        let room = make_room(frames);
        assert forall|k: int| 0 <= k < room.len() implies frame_ordered(#[trigger] room[k])
            && room[k].id != id && (well_formed(frames) ==> room[k].packets.len() > 0) by {
            if frames.len() >= FrameBuffer::MAX_FRAMES {
                assert(room[k] == frames[k + 1]);
            } else {
                assert(room[k] == frames[k]);
            }
        }
        assert forall|i: int, j: int| 0 <= i < j < room.len() implies room[i].id
            != room[j].id by {
            if frames.len() >= FrameBuffer::MAX_FRAMES {
                assert(room[i] == frames[i + 1]);
                assert(room[j] == frames[j + 1]);
            }
        }
        assert(opened[opened.len() - 1].id == id);
        assert forall|k: int| 0 <= k < opened.len() implies frame_ordered(
            #[trigger] opened[k],
        ) by {
            if k < room.len() {
                assert(opened[k] == room[k]);
            }
        }
    }
}

/// A fragment that goes into a sorted run leaves it sorted, and the run holds a fragment with
/// its index afterwards.
pub proof fn lemma_insert_packet(packets: Seq<PacketView>, packet: PacketView)
    requires
        sorted(packets),
    ensures
        sorted(insert_packet(packets, packet)),
        has_index(insert_packet(packets, packet), packet.index),
        insert_packet(packets, packet).len() > 0,
        has_index(packets, packet.index) ==> insert_packet(packets, packet) == packets,
        !has_index(packets, packet.index) ==> insert_packet(packets, packet).len() == packets.len()
            + 1,
{
    let after = insert_packet(packets, packet);
    if exists|at: int| splits_at(packets, packet.index, at) {
        let at = choose|at: int| splits_at(packets, packet.index, at);
        assert(after[at] == packet);
        assert forall|i: int, j: int| 0 <= i < j < after.len() implies after[i].index
            < after[j].index by {
            if i < at && j > at {
                assert(after[i] == packets[i]);
                assert(after[j] == packets[j - 1]);
            } else if i < at && j < at {
                assert(after[i] == packets[i] && after[j] == packets[j]);
            } else if i > at {
                assert(after[i] == packets[i - 1] && after[j] == packets[j - 1]);
            } else if i == at {
                assert(after[j] == packets[j - 1]);
            } else {
                assert(after[i] == packets[i]);
            }
        }
        if has_index(packets, packet.index) {
            let i = choose|i: int| 0 <= i < packets.len() && packets[i].index == packet.index;
            if i < at {
                assert(packets[i].index < packet.index);
            } else {
                assert(packets[i].index > packet.index);
            }
        }
    } else if !has_index(packets, packet.index) {
        lemma_split_exists(packets, packet.index);
    }
}

/// A sorted run that lacks an index splits around it.
pub proof fn lemma_split_exists(packets: Seq<PacketView>, index: u8)
    requires
        sorted(packets),
        !has_index(packets, index),
    ensures
        exists|at: int| splits_at(packets, index, at),
    decreases packets.len(),
{
    if packets.len() == 0 {
        assert(splits_at(packets, index, 0));
    } else {
        let rest = packets.drop_last();
        assert forall|i: int, j: int| 0 <= i < j < rest.len() implies rest[i].index
            < rest[j].index by {
            assert(rest[i] == packets[i] && rest[j] == packets[j]);
        }
        if has_index(rest, index) {
            let i = choose|i: int| 0 <= i < rest.len() && rest[i].index == index;
            assert(packets[i].index == index);
        }
        lemma_split_exists(rest, index);
        let at = choose|at: int| splits_at(rest, index, at);
        if packets.last().index < index {
            assert forall|i: int| 0 <= i < packets.len() implies packets[i].index < index by {
                if i < packets.len() - 1 {
                    assert(packets[i].index < packets[packets.len() - 1].index);
                }
            }
            assert(splits_at(packets, index, packets.len() as int));
        } else {
            assert(packets[packets.len() - 1].index != index);
            assert forall|i: int| 0 <= i < at implies packets[i].index < index by {
                assert(rest[i] == packets[i]);
            }
            assert forall|i: int| at <= i < packets.len() implies packets[i].index > index by {
                if i < rest.len() {
                    assert(rest[i] == packets[i]);
                }
            }
            assert(splits_at(packets, index, at));
        }
    }
}

/// Taking a fragment in keeps the cache well formed: within its bound, its frames distinct,
/// none empty, each sorted by index.
pub proof fn lemma_add_packet_well_formed(frames: Seq<FrameView>, packet: PacketView)
    requires
        well_formed(frames),
    ensures
        well_formed(add_packet_spec(frames, packet)),
{
    lemma_open_frame(frames, packet.frame_id);
    let opened = open_frame(frames, packet.frame_id);
    let k = frame_index(opened, packet.frame_id);
    let after = add_packet_spec(frames, packet);
    assert(frame_ordered(opened[k]));
    lemma_insert_packet(opened[k].packets, packet);
    let merged = insert_packet(opened[k].packets, packet);
    assert forall|i: int| 0 <= i < merged.len() implies merged[i].frame_id
        == packet.frame_id by {
        if exists|at: int| splits_at(opened[k].packets, packet.index, at) {
            let at = choose|at: int| splits_at(opened[k].packets, packet.index, at);
            if i < at {
                assert(merged[i] == opened[k].packets[i]);
            } else if i > at {
                assert(merged[i] == opened[k].packets[i - 1]);
            }
        }
    }
    assert forall|j: int| 0 <= j < after.len() implies frame_ordered(#[trigger] after[j])
        && after[j].packets.len() > 0 by {
        if j != k {
            assert(after[j] == opened[j]);
            assert(opened[j].id != packet.frame_id);
        }
    }
    assert forall|i: int, j: int| 0 <= i < j < after.len() implies after[i].id
        != after[j].id by {
        assert(after[i].id == opened[i].id);
        assert(after[j].id == opened[j].id);
    }
}

/// A frame with this id is in the cache exactly if the id is among the cache's ids.
pub proof fn lemma_has_frame_ids(frames: Seq<FrameView>, id: u32)
    ensures
        has_frame(frames, id) <==> frame_ids(frames).contains(id),
{
    if has_frame(frames, id) {
        let k = choose|k: int| 0 <= k < frames.len() && frames[k].id == id;
        assert(frame_ids(frames)[k] == id);
    }
    if frame_ids(frames).contains(id) {
        let k = choose|k: int| 0 <= k < frame_ids(frames).len() && frame_ids(frames)[k] == id;
        assert(frames[k].id == id);
    }
}

/// Adding a fragment twice is adding it once: a second fragment with the frame id and the
/// index of the first, whatever it carries, leaves the cache as the first left it.
pub proof fn lemma_add_packet_twice(frames: Seq<FrameView>, first: PacketView, second: PacketView)
    requires
        well_formed(frames),
        second.frame_id == first.frame_id,
        second.index == first.index,
    ensures
        add_packet_spec(add_packet_spec(frames, first), second) == add_packet_spec(frames, first),
{
    let id = first.frame_id;
    lemma_open_frame(frames, id);
    lemma_add_packet_well_formed(frames, first);
    let opened = open_frame(frames, id);
    let k = frame_index(opened, id);
    let once = add_packet_spec(frames, first);
    assert(once[k].id == id);
    assert(has_frame(once, id));
    let again = frame_index(once, id);
    assert(again == k) by {
        if again < k {
            assert(once[again].id != once[k].id);
        }
        if k < again {
            assert(once[k].id != once[again].id);
        }
    }
    assert(frame_ordered(opened[k]));
    lemma_insert_packet(opened[k].packets, first);
    lemma_insert_packet(once[k].packets, second);
    assert(place(once, second) =~= once);
}

/// What `add_packet` does to the ids of the cache: a fragment of a frame that is there leaves
/// them as they are; any other puts its frame id behind them, and of more than `MAX_FRAMES`
/// ids the oldest leaves.
pub proof fn lemma_add_packet_ids(frames: Seq<FrameView>, packet: PacketView)
    requires
        well_formed(frames),
    ensures
        has_frame(frames, packet.frame_id) ==> frame_ids(add_packet_spec(frames, packet))
            == frame_ids(frames),
        !has_frame(frames, packet.frame_id) ==> frame_ids(add_packet_spec(frames, packet))
            == newest(frame_ids(frames).push(packet.frame_id), FrameBuffer::MAX_FRAMES as int),
{
    let id = packet.frame_id;
    lemma_open_frame(frames, id);
    let opened = open_frame(frames, id);
    let after = add_packet_spec(frames, packet);
    assert(frame_ids(after) =~= frame_ids(opened));
    if !has_frame(frames, id) {
        assert(frame_ids(opened) =~= newest(
            frame_ids(frames).push(id),
            FrameBuffer::MAX_FRAMES as int,
        ));
    }
}

/// Keeping the newest of the newest with one more id is keeping the newest of all with it.
pub proof fn lemma_newest_push(ids: Seq<u32>, id: u32, count: int)
    requires
        count >= 1,
    ensures
        newest(newest(ids, count).push(id), count) == newest(ids.push(id), count),
{
    assert(newest(newest(ids, count).push(id), count) =~= newest(ids.push(id), count));
}

/// The cache always holds the frames that were begun last: after any run of fragments its
/// frames are, in the order in which they were begun, the newest `MAX_FRAMES` (or all, if
/// fewer) of the frames that it held before and of those that the fragments began.
pub proof fn lemma_newest_frames_stay(frames: Seq<FrameView>, packets: Seq<PacketView>)
    requires
        well_formed(frames),
    ensures
        well_formed(add_packets_spec(frames, packets)),
        frame_ids(add_packets_spec(frames, packets)) == newest(
            frame_ids(frames) + begun(frames, packets),
            FrameBuffer::MAX_FRAMES as int,
        ),
    decreases packets.len(),
{
    let bound = FrameBuffer::MAX_FRAMES as int;
    if packets.len() == 0 {
        assert(frame_ids(frames) + begun(frames, packets) =~= frame_ids(frames));
    } else {
        let earlier = packets.drop_last();
        let packet = packets.last();
        lemma_newest_frames_stay(frames, earlier);
        let before = add_packets_spec(frames, earlier);
        let history = frame_ids(frames) + begun(frames, earlier);
        lemma_add_packet_well_formed(before, packet);
        lemma_add_packet_ids(before, packet);
        if !has_frame(before, packet.frame_id) {
            lemma_newest_push(history, packet.frame_id, bound);
            assert(history.push(packet.frame_id) =~= frame_ids(frames) + begun(frames, packets));
        }
    }
}

/// The eviction bound: fragments of frames that are all new to the cache and all different
/// begin one frame each; once they are `MAX_FRAMES` or more, the cache holds exactly
/// `MAX_FRAMES` frames, those of the last `MAX_FRAMES` fragments, in their order.
pub proof fn lemma_eviction_bound(frames: Seq<FrameView>, packets: Seq<PacketView>)
    requires
        well_formed(frames),
        forall|i: int, j: int|
            0 <= i < j < packets.len() ==> packets[i].frame_id != packets[j].frame_id,
        forall|i: int| 0 <= i < packets.len() ==> !has_frame(frames, packets[i].frame_id),
    ensures
        begun(frames, packets) == packets.map_values(|packet: PacketView| packet.frame_id),
        packets.len() >= FrameBuffer::MAX_FRAMES ==> {
            let after = add_packets_spec(frames, packets);
            &&& after.len() == FrameBuffer::MAX_FRAMES
            &&& forall|k: int|
                0 <= k < FrameBuffer::MAX_FRAMES ==> (#[trigger] after[k]).id == packets[packets.len()
                    - FrameBuffer::MAX_FRAMES + k].frame_id
        },
    decreases packets.len(),
{
    let bound = FrameBuffer::MAX_FRAMES as int;
    let ids = packets.map_values(|packet: PacketView| packet.frame_id);
    if packets.len() == 0 {
        assert(begun(frames, packets) =~= ids);
    } else {
        let earlier = packets.drop_last();
        let packet = packets.last();
        let earlier_ids = earlier.map_values(|packet: PacketView| packet.frame_id);
        lemma_eviction_bound(frames, earlier);
        lemma_newest_frames_stay(frames, earlier);
        let before = add_packets_spec(frames, earlier);
        let history = frame_ids(frames) + earlier_ids;
        assert(!has_frame(before, packet.frame_id)) by {
            lemma_has_frame_ids(before, packet.frame_id);
            lemma_has_frame_ids(frames, packet.frame_id);
            if frame_ids(before).contains(packet.frame_id) {
                let k = choose|k: int|
                    0 <= k < frame_ids(before).len() && frame_ids(before)[k] == packet.frame_id;
                let shift = if history.len() <= bound {
                    0
                } else {
                    history.len() - bound
                };
                assert(history[k + shift] == packet.frame_id);
                if k + shift < frames.len() {
                    assert(frame_ids(frames)[k + shift] == packet.frame_id);
                } else {
                    assert(earlier[k + shift - frames.len()].frame_id == packet.frame_id);
                    assert(packets[k + shift - frames.len()].frame_id == packet.frame_id);
                }
            }
        }
        assert(begun(frames, packets) =~= ids);
    }
    if packets.len() >= bound {
        lemma_newest_frames_stay(frames, packets);
        let after = add_packets_spec(frames, packets);
        let history = frame_ids(frames) + ids;
        assert(frame_ids(after).len() == bound);
        assert forall|k: int| 0 <= k < bound implies (#[trigger] after[k]).id == packets[packets.len()
            - bound + k].frame_id by {
            assert(frame_ids(after)[k] == history[history.len() - bound + k]);
        }
    }
}

/// A complete frame in the cache means that some frame is the oldest complete one.
pub proof fn lemma_first_complete_exists(frames: Seq<FrameView>, k: int)
    requires
        0 <= k < frames.len(),
        complete(frames[k]),
    ensures
        some_complete(frames),
        first_complete_at(frames, first_complete(frames)),
        first_complete(frames) <= k,
    decreases k,
{
    if exists|j: int| 0 <= j < k && complete(frames[j]) {
        let j = choose|j: int| 0 <= j < k && complete(frames[j]);
        lemma_first_complete_exists(frames, j);
    } else {
        assert(first_complete_at(frames, k));
        lemma_first_complete(frames, k);
    }
}

/// `get_frame` answers `NoFrame` exactly if no frame of the cache is complete, as with an
/// empty cache or with frames that all still wait for their short last fragment; the cache
/// then stays as it is.
pub proof fn lemma_no_frame(frames: Seq<FrameView>)
    ensures
        (forall|k: int| 0 <= k < frames.len() ==> !complete(#[trigger] frames[k]))
            <==> get_frame_spec(frames).0 == GetFrameView::NoFrame,
        get_frame_spec(frames).0 == GetFrameView::NoFrame ==> get_frame_spec(frames).1 == frames,
        frames.len() == 0 ==> get_frame_spec(frames).0 == GetFrameView::NoFrame,
{
    if some_complete(frames) {
        let k = choose|k: int| 0 <= k < frames.len() && complete(frames[k]);
        assert(complete(frames[k]));
    }
}

/// Only `Ready` takes a frame out of the cache; `NoFrame` and `NonSequential` leave the cache
/// as it is.
pub proof fn lemma_get_frame_keeps(frames: Seq<FrameView>)
    ensures
        !(get_frame_spec(frames).0 is Ready) ==> get_frame_spec(frames).1 == frames,
        get_frame_spec(frames).0 is Ready ==> get_frame_spec(frames).1 == frames.remove(
            first_complete(frames),
        ),
{
}

/// Handing a frame out keeps the cache well formed.
pub proof fn lemma_get_frame_well_formed(frames: Seq<FrameView>)
    requires
        well_formed(frames),
    ensures
        well_formed(get_frame_spec(frames).1),
{
    if some_complete(frames) {
        let k = choose|k: int| 0 <= k < frames.len() && complete(frames[k]);
        lemma_first_complete_exists(frames, k);
        lemma_remove_well_formed(frames, first_complete(frames));
    }
}

/// A run splits around an index at one place only, and a fragment with that index goes there.
pub proof fn lemma_insert_at(packets: Seq<PacketView>, packet: PacketView, at: int)
    requires
        splits_at(packets, packet.index, at),
    ensures
        insert_packet(packets, packet) == packets.insert(at, packet),
{
    let chosen = choose|at: int| splits_at(packets, packet.index, at);
    if chosen < at {
        assert(packets[chosen].index > packet.index);
    }
    if at < chosen {
        assert(packets[at].index > packet.index);
    }
}

/// A fragment whose index is greater than all the indices of a run goes behind it.
pub proof fn lemma_insert_last(packets: Seq<PacketView>, packet: PacketView)
    requires
        forall|i: int| 0 <= i < packets.len() ==> packets[i].index < packet.index,
    ensures
        insert_packet(packets, packet) == packets.push(packet),
{
    let end = packets.len() as int;
    lemma_insert_at(packets, packet, end);
    assert(packets.insert(end, packet) =~= packets.push(packet));
}

} // verus!
