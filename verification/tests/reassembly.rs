use screen_stream::frame_buffer::{FrameBuffer, GetFrameResult};
use screen_stream::packet::Packet;

fn full(byte: u8) -> Vec<u8> {
    vec![byte; Packet::MAX_PAYLOAD]
}

fn indices(packets: &[Packet]) -> Vec<u8> {
    packets.iter().map(|packet| packet.index).collect()
}

#[test]
fn a_new_cache_is_empty() {
    let cache = FrameBuffer::new();
    assert_eq!(cache.len(), 0);
}

#[test]
fn an_empty_cache_has_no_frame() {
    let mut cache = FrameBuffer::new();
    assert!(matches!(cache.get_frame(), GetFrameResult::NoFrame));
    assert_eq!(cache.len(), 0);
}

#[test]
fn frames_without_a_short_last_fragment_are_no_frame() {
    let mut cache = FrameBuffer::new();
    cache.add_packet(Packet::new(0, 1, &full(1)));
    cache.add_packet(Packet::new(1, 1, &full(2)));
    cache.add_packet(Packet::new(0, 2, &full(3)));
    assert!(matches!(cache.get_frame(), GetFrameResult::NoFrame));
    assert_eq!(cache.len(), 2);
}

#[test]
fn three_fragments_in_order_make_a_frame() {
    let mut cache = FrameBuffer::new();
    cache.add_packet(Packet::new(0, 7, &full(0xa0)));
    cache.add_packet(Packet::new(1, 7, &full(0xa1)));
    cache.add_packet(Packet::new(2, 7, &[0xa2; 37]));
    match cache.get_frame() {
        GetFrameResult::Ready(bytes) => {
            assert_eq!(bytes.len(), 2 * (Packet::CHUNK_SIZE - Packet::META_SIZE) + 37);
            let mut expected = full(0xa0);
            expected.extend_from_slice(&full(0xa1));
            expected.extend_from_slice(&[0xa2; 37]);
            assert_eq!(bytes, expected);
        }
        _ => panic!("the frame is complete and has no gap"),
    }
    assert_eq!(cache.len(), 0);
    assert!(matches!(cache.get_frame(), GetFrameResult::NoFrame));
}

#[test]
fn fragments_out_of_order_are_joined_by_index() {
    let mut cache = FrameBuffer::new();
    cache.add_packet(Packet::new(2, 7, &[3, 3]));
    cache.add_packet(Packet::new(0, 7, &full(1)));
    cache.add_packet(Packet::new(1, 7, &full(2)));
    match cache.get_frame() {
        GetFrameResult::Ready(bytes) => {
            let mut expected = full(1);
            expected.extend_from_slice(&full(2));
            expected.extend_from_slice(&[3, 3]);
            assert_eq!(bytes, expected);
        }
        _ => panic!("the frame is complete and has no gap"),
    }
}

#[test]
fn an_empty_last_fragment_ends_a_frame() {
    let mut cache = FrameBuffer::new();
    cache.add_packet(Packet::new(0, 5, &full(9)));
    assert!(matches!(cache.get_frame(), GetFrameResult::NoFrame));
    cache.add_packet(Packet::new(1, 5, &[]));
    match cache.get_frame() {
        GetFrameResult::Ready(bytes) => assert_eq!(bytes, full(9)),
        _ => panic!("the empty fragment ends the frame"),
    }
}

#[test]
fn a_gap_is_reported_and_the_frame_stays() {
    let mut cache = FrameBuffer::new();
    cache.add_packet(Packet::new(0, 9, &full(1)));
    cache.add_packet(Packet::new(2, 9, &[5; 10]));
    match cache.get_frame() {
        GetFrameResult::NonSequential(packets) => {
            assert_eq!(packets.len(), 2);
            assert_eq!(indices(&packets), vec![0u8, 2]);
            assert_eq!(packets[0].frame_id, 9);
            assert_eq!(packets[1].frame_id, 9);
            assert_eq!(packets[0].data, full(1));
            assert_eq!(packets[1].data, vec![5u8; 10]);
        }
        _ => panic!("index 1 is missing"),
    }
    assert_eq!(cache.len(), 1);
    assert!(matches!(cache.get_frame(), GetFrameResult::NonSequential(_)));
    assert_eq!(cache.len(), 1);
}

#[test]
fn a_gap_that_is_filled_later_gives_the_frame() {
    let mut cache = FrameBuffer::new();
    cache.add_packet(Packet::new(0, 9, &full(1)));
    cache.add_packet(Packet::new(2, 9, &[5; 10]));
    assert!(matches!(cache.get_frame(), GetFrameResult::NonSequential(_)));
    cache.add_packet(Packet::new(1, 9, &full(2)));
    match cache.get_frame() {
        GetFrameResult::Ready(bytes) => {
            assert_eq!(bytes.len(), 2 * Packet::MAX_PAYLOAD + 10);
        }
        _ => panic!("the gap is filled"),
    }
    assert_eq!(cache.len(), 0);
}

#[test]
fn a_frame_that_does_not_start_at_zero_has_a_gap() {
    let mut cache = FrameBuffer::new();
    cache.add_packet(Packet::new(1, 4, &[1]));
    match cache.get_frame() {
        GetFrameResult::NonSequential(packets) => assert_eq!(indices(&packets), vec![1u8]),
        _ => panic!("index 0 is missing"),
    }
}

#[test]
fn the_same_packet_twice_counts_once() {
    let mut cache = FrameBuffer::new();
    cache.add_packet(Packet::new(0, 3, &[1, 2]));
    cache.add_packet(Packet::new(0, 3, &[1, 2]));
    assert_eq!(cache.len(), 1);
    match cache.get_frame() {
        GetFrameResult::Ready(bytes) => assert_eq!(bytes, vec![1u8, 2]),
        _ => panic!("one short fragment with index 0 is a frame"),
    }
}

#[test]
fn a_duplicate_with_another_payload_is_dropped() {
    let mut cache = FrameBuffer::new();
    cache.add_packet(Packet::new(0, 3, &full(1)));
    cache.add_packet(Packet::new(1, 3, &[7]));
    cache.add_packet(Packet::new(1, 3, &[8, 8, 8]));
    cache.add_packet(Packet::new(0, 3, &[]));
    match cache.get_frame() {
        GetFrameResult::Ready(bytes) => {
            let mut expected = full(1);
            expected.push(7);
            assert_eq!(bytes, expected);
        }
        _ => panic!("the frame is complete and has no gap"),
    }
}

#[test]
fn packets_are_kept_sorted_by_index() {
    let mut cache = FrameBuffer::new();
    for index in [5u8, 1, 9, 3, 200, 7, 1, 9] {
        cache.add_packet(Packet::new(index, 11, &[index]));
    }
    match cache.get_frame() {
        GetFrameResult::NonSequential(packets) => {
            assert_eq!(indices(&packets), vec![1u8, 3, 5, 7, 9, 200]);
        }
        _ => panic!("the frame has gaps"),
    }
}

#[test]
fn the_cache_holds_at_most_three_frames() {
    let mut cache = FrameBuffer::new();
    for frame_id in 1..=4u32 {
        cache.add_packet(Packet::new(1, frame_id, &[frame_id as u8]));
        assert!(cache.len() <= 3);
    }
    assert_eq!(cache.len(), 3);
}

#[test]
fn the_newest_three_frames_stay() {
    let mut cache = FrameBuffer::new();
    for frame_id in 1..=5u32 {
        cache.add_packet(Packet::new(0, frame_id, &[frame_id as u8]));
    }
    assert_eq!(cache.len(), 3);
    for expected in 3..=5u8 {
        match cache.get_frame() {
            GetFrameResult::Ready(bytes) => assert_eq!(bytes, vec![expected]),
            _ => panic!("each frame is one short fragment with index 0"),
        }
    }
    assert_eq!(cache.len(), 0);
}

#[test]
fn a_fragment_of_a_held_frame_evicts_nothing() {
    let mut cache = FrameBuffer::new();
    cache.add_packet(Packet::new(0, 1, &full(1)));
    cache.add_packet(Packet::new(0, 2, &full(2)));
    cache.add_packet(Packet::new(0, 3, &full(3)));
    cache.add_packet(Packet::new(1, 1, &[1]));
    assert_eq!(cache.len(), 3);
    match cache.get_frame() {
        GetFrameResult::Ready(bytes) => {
            let mut expected = full(1);
            expected.push(1);
            assert_eq!(bytes, expected);
        }
        _ => panic!("frame 1 is complete"),
    }
    assert_eq!(cache.len(), 2);
}

#[test]
fn eviction_goes_by_age_not_by_completeness() {
    let mut cache = FrameBuffer::new();
    cache.add_packet(Packet::new(0, 1, &[1]));
    cache.add_packet(Packet::new(0, 2, &full(2)));
    cache.add_packet(Packet::new(0, 3, &full(3)));
    cache.add_packet(Packet::new(0, 4, &full(4)));
    assert_eq!(cache.len(), 3);
    assert!(matches!(cache.get_frame(), GetFrameResult::NoFrame));
}

#[test]
fn an_evicted_frame_that_comes_again_is_the_newest() {
    let mut cache = FrameBuffer::new();
    for frame_id in [1u32, 2, 3, 4, 1] {
        cache.add_packet(Packet::new(0, frame_id, &[frame_id as u8]));
    }
    for expected in [3u8, 4, 1] {
        match cache.get_frame() {
            GetFrameResult::Ready(bytes) => assert_eq!(bytes, vec![expected]),
            _ => panic!("each frame is one short fragment with index 0"),
        }
    }
}

#[test]
fn the_oldest_complete_frame_comes_first() {
    let mut cache = FrameBuffer::new();
    cache.add_packet(Packet::new(0, 1, &full(1)));
    cache.add_packet(Packet::new(0, 2, &[2]));
    cache.add_packet(Packet::new(0, 3, &[3]));
    match cache.get_frame() {
        GetFrameResult::Ready(bytes) => assert_eq!(bytes, vec![2u8]),
        _ => panic!("frame 2 is the oldest complete frame"),
    }
    assert_eq!(cache.len(), 2);
    match cache.get_frame() {
        GetFrameResult::Ready(bytes) => assert_eq!(bytes, vec![3u8]),
        _ => panic!("frame 3 is the oldest complete frame"),
    }
    assert!(matches!(cache.get_frame(), GetFrameResult::NoFrame));
    assert_eq!(cache.len(), 1);
}

#[test]
fn an_older_frame_with_a_gap_hides_a_newer_complete_frame() {
    let mut cache = FrameBuffer::new();
    cache.add_packet(Packet::new(1, 1, &[1]));
    cache.add_packet(Packet::new(0, 2, &[2]));
    assert!(matches!(cache.get_frame(), GetFrameResult::NonSequential(_)));
    assert!(matches!(cache.get_frame(), GetFrameResult::NonSequential(_)));
    assert_eq!(cache.len(), 2);
}

#[test]
fn a_full_last_fragment_does_not_end_a_frame() {
    let mut cache = FrameBuffer::new();
    cache.add_packet(Packet::new(0, 1, &[1]));
    cache.add_packet(Packet::new(1, 1, &full(2)));
    assert!(matches!(cache.get_frame(), GetFrameResult::NoFrame));
}

#[test]
fn a_frame_of_256_fragments_is_joined() {
    let mut cache = FrameBuffer::new();
    for index in (0..=255u8).rev() {
        let payload = if index == 255 { vec![index; 3] } else { vec![index; Packet::MAX_PAYLOAD] };
        cache.add_packet(Packet::new(index, 77, &payload));
    }
    match cache.get_frame() {
        GetFrameResult::Ready(bytes) => {
            assert_eq!(bytes.len(), 255 * Packet::MAX_PAYLOAD + 3);
            assert_eq!(bytes[0], 0);
            assert_eq!(bytes[Packet::MAX_PAYLOAD], 1);
            assert_eq!(bytes[bytes.len() - 1], 255);
        }
        _ => panic!("the frame is complete and has no gap"),
    }
}
