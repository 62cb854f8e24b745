use screen_stream::client::{on_receive, on_update, IngestStep, Received, RecvError, Update};
use screen_stream::frame_buffer::{FrameBuffer, GetFrameResult};
use screen_stream::packet::Packet;

#[test]
fn an_empty_datagram_ends_the_client_with_status_0() {
    let mut cache = FrameBuffer::new();
    cache.add_packet(Packet::new(0, 1, &[1]));
    let step = on_receive(&mut cache, Received::Datagram(Vec::new()));
    assert_eq!(step, IngestStep::Closed);
    assert_eq!(step.exit_code(), Some(0));
    assert_eq!(cache.len(), 1);
}

#[test]
fn a_datagram_shorter_than_a_header_is_dropped() {
    let mut cache = FrameBuffer::new();
    for len in 1..Packet::META_SIZE {
        let step = on_receive(&mut cache, Received::Datagram(vec![2u8; len]));
        assert_eq!(step, IngestStep::TooShort);
        assert_eq!(step.exit_code(), None);
    }
    assert_eq!(cache.len(), 0);
}

#[test]
fn a_control_byte_is_no_fragment() {
    let mut cache = FrameBuffer::new();
    assert_eq!(on_receive(&mut cache, Received::Datagram(vec![1u8])), IngestStep::TooShort);
    assert_eq!(cache.len(), 0);
}

#[test]
fn a_fragment_goes_into_the_cache() {
    let mut cache = FrameBuffer::new();
    let datagram = Packet::new(0, 12, &[4, 5, 6]).to_bytes();
    let step = on_receive(&mut cache, Received::Datagram(datagram));
    assert_eq!(step, IngestStep::Stored);
    assert_eq!(step.exit_code(), None);
    assert_eq!(cache.len(), 1);
    match cache.get_frame() {
        GetFrameResult::Ready(bytes) => assert_eq!(bytes, vec![4u8, 5, 6]),
        _ => panic!("one short fragment with index 0 is a frame"),
    }
}

#[test]
fn a_bare_header_is_a_fragment() {
    let mut cache = FrameBuffer::new();
    let step = on_receive(&mut cache, Received::Datagram(vec![0u8, 9, 0, 0, 0]));
    assert_eq!(step, IngestStep::Stored);
    assert_eq!(cache.len(), 1);
}

#[test]
fn a_full_datagram_is_a_fragment() {
    let mut cache = FrameBuffer::new();
    let step = on_receive(&mut cache, Received::Datagram(vec![0u8; Packet::CHUNK_SIZE]));
    assert_eq!(step, IngestStep::Stored);
    assert_eq!(cache.len(), 1);
    assert!(matches!(cache.get_frame(), GetFrameResult::NoFrame));
}

#[test]
fn a_datagram_longer_than_a_fragment_is_dropped() {
    let mut cache = FrameBuffer::new();
    let step = on_receive(&mut cache, Received::Datagram(vec![0u8; Packet::CHUNK_SIZE + 1]));
    assert_eq!(step, IngestStep::TooLong);
    assert_eq!(step.exit_code(), None);
    assert_eq!(cache.len(), 0);
}

#[test]
fn no_data_yet_is_no_error() {
    let mut cache = FrameBuffer::new();
    let step = on_receive(&mut cache, Received::Failed(RecvError::WouldBlock));
    assert_eq!(step, IngestStep::Idle);
    assert_eq!(step.exit_code(), None);
}

#[test]
fn a_reset_ends_the_client_with_status_0() {
    let mut cache = FrameBuffer::new();
    let step = on_receive(&mut cache, Received::Failed(RecvError::ConnectionReset));
    assert_eq!(step, IngestStep::Reset);
    assert_eq!(step.exit_code(), Some(0));
}

#[test]
fn any_other_failure_ends_the_client_with_status_1() {
    let mut cache = FrameBuffer::new();
    let step = on_receive(&mut cache, Received::Failed(RecvError::Other));
    assert_eq!(step, IngestStep::Failed);
    assert_eq!(step.exit_code(), Some(1));
}

#[test]
fn duplicates_and_disorder_are_taken_silently() {
    let mut cache = FrameBuffer::new();
    for index in [2u8, 0, 2, 1, 0] {
        let payload = if index == 2 { vec![index; 3] } else { vec![index; Packet::MAX_PAYLOAD] };
        let datagram = Packet::new(index, 8, &payload).to_bytes();
        assert_eq!(on_receive(&mut cache, Received::Datagram(datagram)), IngestStep::Stored);
    }
    match cache.get_frame() {
        GetFrameResult::Ready(bytes) => assert_eq!(bytes.len(), 2 * Packet::MAX_PAYLOAD + 3),
        _ => panic!("all fragments came in"),
    }
}

#[test]
fn a_failed_keepalive_ends_the_display() {
    let mut cache = FrameBuffer::new();
    cache.add_packet(Packet::new(0, 1, &[1]));
    assert!(matches!(on_update(&mut cache, false), Update::Quit));
    assert_eq!(cache.len(), 1);
}

#[test]
fn the_display_waits_without_a_frame() {
    let mut cache = FrameBuffer::new();
    assert!(matches!(on_update(&mut cache, true), Update::Wait));
    cache.add_packet(Packet::new(0, 1, &vec![0u8; Packet::MAX_PAYLOAD]));
    assert!(matches!(on_update(&mut cache, true), Update::Wait));
    assert_eq!(cache.len(), 1);
}

#[test]
fn the_display_shows_a_ready_frame() {
    let mut cache = FrameBuffer::new();
    cache.add_packet(Packet::new(0, 1, &[7, 7]));
    match on_update(&mut cache, true) {
        Update::Show(bytes) => assert_eq!(bytes, vec![7u8, 7]),
        _ => panic!("the frame is ready"),
    }
    assert_eq!(cache.len(), 0);
}

#[test]
fn the_display_reports_the_indices_of_a_frame_with_a_gap() {
    let mut cache = FrameBuffer::new();
    cache.add_packet(Packet::new(3, 1, &[1]));
    cache.add_packet(Packet::new(0, 1, &vec![0u8; Packet::MAX_PAYLOAD]));
    match on_update(&mut cache, true) {
        Update::Gap(indices) => assert_eq!(indices, vec![0u8, 3]),
        _ => panic!("indices 1 and 2 are missing"),
    }
    assert_eq!(cache.len(), 1);
}
