//! The reassembly cache: it gathers fragments into frames, keeps at most `MAX_FRAMES` frames in
//! the order in which they were begun, and hands out the oldest frame that is complete.

use crate::frame_model::{
    add_packet_spec, assemble, complete, first_complete_at, frame_index, frame_ordered,
    get_frame_spec, has_frame, insert_packet, lemma_add_packet_well_formed,
    lemma_first_complete, lemma_insert_at, lemma_insert_packet, lemma_open_frame,
    lemma_remove_well_formed, make_room, open_frame, place, views, well_formed,
    well_formed_or_empty, FrameView, GetFrameView,
};
use crate::packet::{Packet, PacketView};
use std::collections::HashMap;
use vstd::prelude::*;

verus! {

/// What `get_frame` hands out.
pub enum GetFrameResult {
    /// No frame is complete yet.
    NoFrame,
    /// The oldest complete frame has a gap; these are its fragments.
    NonSequential(Vec<Packet>),
    /// The bytes of the oldest complete frame.
    Ready(Vec<u8>),
}

impl View for GetFrameResult {
    type V = GetFrameView;

    open spec fn view(&self) -> GetFrameView {
        match self {
            GetFrameResult::NoFrame => GetFrameView::NoFrame,
            GetFrameResult::NonSequential(packets) => GetFrameView::NonSequential(views(packets@)),
            GetFrameResult::Ready(bytes) => GetFrameView::Ready(bytes@),
        }
    }
}

/// Bounded cache of the frames that are being reassembled.
pub struct FrameBuffer {
    frames: HashMap<u32, Vec<Packet>>,
    order: Vec<u32>,
}

impl View for FrameBuffer {
    type V = Seq<FrameView>;

    /// The frames, oldest first.
    closed spec fn view(&self) -> Seq<FrameView> {
        Seq::new(
            self.order@.len(),
            |k: int| FrameView { id: self.order@[k], packets: views(self.frames@[self.order@[k]]@) },
        )
    }
}

impl FrameBuffer {
    /// The most frames that the cache holds.
    pub const MAX_FRAMES: usize = 3;

    /// The map holds exactly the frames that the order names, each once.
    spec fn linked(&self) -> bool {
        &&& self.order@.no_duplicates()
        &&& forall|id: u32| self.frames@.contains_key(id) <==> self.order@.contains(id)
    }

    /// The cache's invariant.
    pub closed spec fn wf(&self) -> bool {
        &&& self.linked()
        &&& well_formed(self@)
    }

    /// A cache that satisfies its invariant is well formed.
    pub proof fn lemma_wf(&self)
        requires
            self.wf(),
        ensures
            well_formed(self@),
    {
    }

    proof fn lemma_len(&self)
        requires
            self.linked(),
        ensures
            self.frames@.len() == self.order@.len(),
            self@.len() == self.order@.len(),
    {
        self.order@.unique_seq_to_set();
        assert(self.frames@.dom() =~= self.order@.to_set());
    }

    proof fn lemma_has_frame(&self, id: u32)
        requires
            self.linked(),
        ensures
            has_frame(self@, id) <==> self.frames@.contains_key(id),
    {
        if has_frame(self@, id) {
            let k = choose|k: int| 0 <= k < self@.len() && self@[k].id == id;
            assert(self.order@[k] == id);
        }
        if self.order@.contains(id) {
            let k = choose|k: int| 0 <= k < self.order@.len() && self.order@[k] == id;
            assert(self@[k].id == id);
        }
    }

    /// An empty cache.
    pub fn new() -> (cache: FrameBuffer)
        ensures
            cache.wf(),
            cache@ == Seq::<FrameView>::empty(),
    {
        let cache = FrameBuffer { frames: HashMap::new(), order: Vec::new() };
        assert(cache@ =~= Seq::<FrameView>::empty());
        cache
    }

    /// The number of frames in the cache.
    pub fn len(&self) -> (count: usize)
        requires
            self.wf(),
        ensures
            count == self@.len(),
    {
        proof {
            self.lemma_len();
        }
        self.frames.len()
    }

    /// Begins an empty frame behind the others; at the bound the oldest frame leaves first.
    fn create_frame(&mut self, frame_id: u32)
        requires
            old(self).linked(),
            well_formed_or_empty(old(self)@),
            !has_frame(old(self)@, frame_id),
        ensures
            final(self).linked(),
            final(self)@ == open_frame(old(self)@, frame_id),
    {
        proof {
            self.lemma_len();
            self.lemma_has_frame(frame_id);
        }
        if self.frames.len() >= Self::MAX_FRAMES {
            let oldest_frame: u32 = self.order.remove(0);
            self.frames.remove(&oldest_frame);
            assert(self.order@ =~= old(self).order@.drop_first());
            assert forall|id: u32| self.frames@.contains_key(id) <==> self.order@.contains(
                id,
            ) by {
                if self.order@.contains(id) {
                    let k = choose|k: int| 0 <= k < self.order@.len() && self.order@[k] == id;
                    assert(old(self).order@[k + 1] == id);
                }
                if id != oldest_frame && old(self).order@.contains(id) {
                    let k = choose|k: int|
                        0 <= k < old(self).order@.len() && old(self).order@[k] == id;
                    assert(self.order@[k - 1] == id);
                }
            }
            assert(self@ =~= old(self)@.drop_first());
            assert forall|i: int, j: int|
                0 <= i < self.order@.len() && 0 <= j < self.order@.len() && i != j implies self.order@[i]
                != self.order@[j] by {
                assert(self.order@[i] == old(self).order@[i + 1]);
                assert(self.order@[j] == old(self).order@[j + 1]);
            }
        }
        let ghost middle = *self;
        assert(middle.linked());
        assert(middle@ == make_room(old(self)@));
        assert(!middle.frames@.contains_key(frame_id)) by {
            if middle.order@.contains(frame_id) {
                let k = choose|k: int| 0 <= k < middle.order@.len() && middle.order@[k] == frame_id;
                assert(middle@[k].id == frame_id);
                if old(self)@.len() >= Self::MAX_FRAMES {
                    assert(old(self)@[k + 1].id == frame_id);
                } else {
                    assert(old(self)@[k].id == frame_id);
                }
            }
        }
        self.frames.insert(frame_id, Vec::new());
        self.order.push(frame_id);
        assert forall|id: u32| self.frames@.contains_key(id) <==> self.order@.contains(id) by {
            if middle.order@.contains(id) {
                let k = choose|k: int| 0 <= k < middle.order@.len() && middle.order@[k] == id;
                assert(self.order@[k] == id);
            }
            assert(self.order@[self.order@.len() - 1] == frame_id);
        }
        assert forall|i: int, j: int|
            0 <= i < self.order@.len() && 0 <= j < self.order@.len() && i != j implies self.order@[i]
            != self.order@[j] by {
            if i < middle.order@.len() {
                assert(middle.order@.contains(middle.order@[i]));
            }
            if j < middle.order@.len() {
                assert(middle.order@.contains(middle.order@[j]));
            }
        }
        assert(views(Seq::<Packet>::empty()) =~= Seq::<PacketView>::empty());
        assert(self@ =~= middle@.push(FrameView { id: frame_id, packets: Seq::empty() }));
    }

    /// Puts a fragment into the frame that bears its id, at its place in the order by index,
    /// unless the frame holds a fragment with that index already.
    fn add_packet_to_frame(&mut self, packet: Packet)
        requires
            old(self).linked(),
            well_formed_or_empty(old(self)@),
            has_frame(old(self)@, packet.frame_id),
        ensures
            final(self).linked(),
            final(self)@ == place(old(self)@, packet@),
    {
        let frame_id: u32 = packet.frame_id;
        proof {
            self.lemma_has_frame(frame_id);
        }
        let ghost k = frame_index(self@, frame_id);
        assert(self.order@[k] == frame_id);
        let mut frame: Vec<Packet> = match self.frames.remove(&frame_id) {
            Some(frame) => frame,
            None => Vec::new(),
        };
        let ghost before = views(frame@);
        assert(before == old(self)@[k].packets);
        assert(frame_ordered(old(self)@[k]));
        let mut at: usize = 0;
        while at < frame.len() && frame[at].index < packet.index
            invariant
                0 <= at <= frame.len(),
                views(frame@) == before,
                forall|i: int| 0 <= i < at ==> before[i].index < packet.index,
            decreases frame.len() - at,
        {
            at += 1;
        }
        if at == frame.len() || frame[at].index != packet.index {
            proof {
                assert forall|i: int| at <= i < before.len() implies before[i].index
                    > packet.index by {
                    if i > at {
                        assert(before[at as int].index < before[i].index);
                    }
                }
                lemma_insert_at(before, packet@, at as int);
            }
            frame.insert(at, packet);
            assert(views(frame@) =~= before.insert(at as int, packet@));
        } else {
            proof {
                assert(before[at as int] == frame@[at as int]@);
                lemma_insert_packet(before, packet@);
            }
        }
        assert(views(frame@) == insert_packet(before, packet@));
        self.frames.insert(frame_id, frame);
        assert(self.frames@ =~= old(self).frames@.insert(frame_id, frame));
        assert forall|id: u32| self.frames@.contains_key(id) <==> self.order@.contains(id) by {
            assert(old(self).frames@.contains_key(id) <==> old(self).order@.contains(id));
        }
        assert(self@ =~= place(old(self)@, packet@));
    }

    /// Takes a fragment into the cache. A fragment of a frame that the cache does not hold
    /// begins that frame, behind the others; at the bound the oldest frame leaves first. The
    /// fragment then goes to its place in its frame's order by index, unless the frame holds a
    /// fragment with that index already.
    pub fn add_packet(&mut self, packet: Packet)
        requires
            old(self).wf(),
        ensures
            final(self).wf(),
            final(self)@ == add_packet_spec(old(self)@, packet@),
    {
        proof {
            self.lemma_has_frame(packet.frame_id);
            lemma_add_packet_well_formed(self@, packet@);
        }
        if !self.frames.contains_key(&packet.frame_id) {
            self.create_frame(packet.frame_id);
        }
        proof {
            lemma_open_frame(old(self)@, packet.frame_id);
        }
        self.add_packet_to_frame(packet);
    }

    /// Whether the frame at place `slot` is complete.
    fn is_complete(&self, slot: usize) -> (done: bool)
        requires
            self.wf(),
            slot < self@.len(),
        ensures
            done == complete(self@[slot as int]),
    {
        match self.frames.get(&self.order[slot]) {
            Some(frame) => {
                assert(views(frame@) == self@[slot as int].packets);
                if frame.len() > 0 {
                    assert(views(frame@).last() == frame@[frame@.len() - 1]@);
                    frame[frame.len() - 1].data.len() < Packet::MAX_PAYLOAD
                } else {
                    false
                }
            },
            None => {
                assert(self.order@.contains(self.order@[slot as int]));
                false
            },
        }
    }

    /// Hands out the oldest complete frame. A frame is complete once its last fragment is
    /// shorter than a full payload. With no complete frame the answer is `NoFrame`. If the
    /// indices of the oldest complete frame run 0, 1, 2, ... without a gap, its payloads are
    /// joined in that order, the frame leaves the cache and the answer is `Ready`. If they do
    /// not, the answer is `NonSequential` with the frame's fragments, and the frame stays.
    pub fn get_frame(&mut self) -> (result: GetFrameResult)
        requires
            old(self).wf(),
        ensures
            final(self).wf(),
            (result@, final(self)@) == get_frame_spec(old(self)@),
    {
        proof {
            self.lemma_len();
        }
        let mut slot: usize = 0;
        while slot < self.order.len() && !self.is_complete(slot)
            invariant
                *self == *old(self),
                self.wf(),
                self@.len() == self.order@.len(),
                0 <= slot <= self.order@.len(),
                forall|j: int| 0 <= j < slot ==> !complete(self@[j]),
            decreases self.order@.len() - slot,
        {
            slot += 1;
        }
        if slot == self.order.len() {
            return GetFrameResult::NoFrame;
        }
        proof {
            assert(first_complete_at(self@, slot as int));
            lemma_first_complete(self@, slot as int);
        }
        let frame_id: u32 = self.order[slot];
        let packets: &Vec<Packet> = match self.frames.get(&frame_id) {
            Some(packets) => packets,
            None => {
                assert(self.order@.contains(frame_id));
                return GetFrameResult::NoFrame;
            },
        };
        let ghost frame = self@[slot as int];
        assert(views(packets@) == frame.packets);

        let mut next: usize = 0;
        while next < packets.len() && packets[next].index as usize == next
            invariant
                0 <= next <= packets.len(),
                views(packets@) == frame.packets,
                forall|i: int| 0 <= i < next ==> frame.packets[i].index == i,
            decreases packets.len() - next,
        {
            next += 1;
        }
        if next < packets.len() {
            assert(frame.packets[next as int] == packets@[next as int]@);
            let shown: Vec<Packet> = packets.clone();
            assert(views(shown@) =~= frame.packets);
            return GetFrameResult::NonSequential(shown);
        }
        let mut buffer: Vec<u8> = Vec::new();
        let mut taken: usize = 0;
        assert(frame.packets.take(0) =~= Seq::<PacketView>::empty());
        while taken < packets.len()
            invariant
                0 <= taken <= packets.len(),
                views(packets@) == frame.packets,
                buffer@ == assemble(frame.packets.take(taken as int)),
            decreases packets.len() - taken,
        {
            buffer.extend_from_slice(packets[taken].data.as_slice());
            proof {
                let before = frame.packets.take(taken as int);
                let piece = frame.packets[taken as int];
                assert(piece == packets@[taken as int]@);
                assert(frame.packets.take(taken + 1) =~= before.push(piece));
                assert(before.push(piece).map_values(|packet: PacketView| packet.payload)
                    =~= before.map_values(|packet: PacketView| packet.payload).push(
                    piece.payload,
                ));
                before.map_values(|packet: PacketView| packet.payload).lemma_flatten_push(
                    piece.payload,
                );
                assert(buffer@ =~= assemble(before) + piece.payload);
            }
            taken += 1;
        }
        assert(frame.packets.take(taken as int) =~= frame.packets);
        self.frames.remove(&frame_id);
        self.order.remove(slot);
        proof {
            assert(self.order@ =~= old(self).order@.remove(slot as int));
            assert forall|id: u32| self.frames@.contains_key(id) <==> self.order@.contains(
                id,
            ) by {
                if self.order@.contains(id) {
                    let k = choose|k: int| 0 <= k < self.order@.len() && self.order@[k] == id;
                    if k < slot {
                        assert(old(self).order@[k] == id);
                    } else {
                        assert(old(self).order@[k + 1] == id);
                    }
                }
                if id != frame_id && old(self).order@.contains(id) {
                    let k = choose|k: int|
                        0 <= k < old(self).order@.len() && old(self).order@[k] == id;
                    if k < slot {
                        assert(self.order@[k] == id);
                    } else {
                        assert(self.order@[k - 1] == id);
                    }
                }
            }
            assert(self@ =~= old(self)@.remove(slot as int));
            lemma_remove_well_formed(old(self)@, slot as int);
        }
        GetFrameResult::Ready(buffer)
    }
}

} // verus!
