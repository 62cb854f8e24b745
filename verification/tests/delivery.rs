use screen_stream::fanout::{FragmentError, ProcessedFrame};
use screen_stream::frame_buffer::{FrameBuffer, GetFrameResult};
use screen_stream::packet::Packet;
use screen_stream::registry::{ClientRegistry, Peer};
use screen_stream::sweep::{Dispatch, Sweep, SweepOutcome};

fn peer(n: u16) -> Peer {
    Peer { host: 0x7f00_0001, port: 9000 + n }
}

fn pattern(len: usize) -> Vec<u8> {
    (0..len).map(|i| (i % 251) as u8).collect()
}

fn registry_of(count: u16) -> ClientRegistry {
    let mut registry = ClientRegistry::new();
    for n in 1..=count {
        registry.add(peer(n));
    }
    registry
}

fn run(sweep: &mut Sweep, reaches: &dyn Fn(Dispatch) -> bool) -> Vec<Dispatch> {
    let mut log = Vec::new();
    while let Some(dispatch) = sweep.next() {
        log.push(dispatch);
        sweep.record(reaches(dispatch));
    }
    log
}

#[test]
fn a_processed_frame_keeps_its_bytes_and_id() {
    let frame = ProcessedFrame::new(vec![1, 2, 3], 42);
    assert_eq!(frame.frame_id, 42);
    assert_eq!(frame.len(), 3);
    assert_eq!(&frame.bytes[..], &[1u8, 2, 3]);
}

#[test]
fn a_processed_frame_can_wrap_a_buffer_made_elsewhere() {
    let frame = ProcessedFrame { bytes: bytes::Bytes::from(vec![9u8, 8, 7, 6]), frame_id: 5 };
    assert_eq!(frame.len(), 4);
    let packets = frame.fragments().unwrap();
    assert_eq!(packets.len(), 1);
    assert_eq!(packets[0].data, vec![9u8, 8, 7, 6]);
}

#[test]
fn a_short_frame_is_one_fragment() {
    let packets = ProcessedFrame::new(vec![5u8; 100], 7).fragments().unwrap();
    assert_eq!(packets.len(), 1);
    assert_eq!(packets[0].index, 0);
    assert_eq!(packets[0].frame_id, 7);
    assert_eq!(packets[0].data, vec![5u8; 100]);
}

#[test]
fn an_empty_frame_is_one_empty_fragment() {
    let packets = ProcessedFrame::new(Vec::new(), 7).fragments().unwrap();
    assert_eq!(packets.len(), 1);
    assert_eq!(packets[0].index, 0);
    assert!(packets[0].data.is_empty());
}

#[test]
fn a_frame_is_cut_into_full_payloads_and_a_rest() {
    let data = pattern(2 * Packet::MAX_PAYLOAD + 37);
    let packets = ProcessedFrame::new(data.clone(), 0xabcd).fragments().unwrap();
    assert_eq!(packets.len(), 3);
    assert_eq!(packets[0].data, data[..Packet::MAX_PAYLOAD].to_vec());
    assert_eq!(packets[1].data, data[Packet::MAX_PAYLOAD..2 * Packet::MAX_PAYLOAD].to_vec());
    assert_eq!(packets[2].data, data[2 * Packet::MAX_PAYLOAD..].to_vec());
    for (i, packet) in packets.iter().enumerate() {
        assert_eq!(packet.index as usize, i);
        assert_eq!(packet.frame_id, 0xabcd);
    }
}

#[test]
fn a_whole_number_of_payloads_ends_with_an_empty_fragment() {
    let data = pattern(2 * Packet::MAX_PAYLOAD);
    let packets = ProcessedFrame::new(data, 1).fragments().unwrap();
    assert_eq!(packets.len(), 3);
    assert_eq!(packets[0].data.len(), Packet::MAX_PAYLOAD);
    assert_eq!(packets[1].data.len(), Packet::MAX_PAYLOAD);
    assert!(packets[2].data.is_empty());
}

#[test]
fn the_largest_frame_has_256_fragments() {
    let data = vec![1u8; 256 * Packet::MAX_PAYLOAD - 1];
    let packets = ProcessedFrame::new(data, 1).fragments().unwrap();
    assert_eq!(packets.len(), ProcessedFrame::MAX_FRAGMENTS);
    assert_eq!(packets[255].index, 255);
    assert_eq!(packets[255].data.len(), Packet::MAX_PAYLOAD - 1);
}

#[test]
fn a_frame_of_more_than_256_fragments_is_refused() {
    let data = vec![1u8; 256 * Packet::MAX_PAYLOAD];
    let result = ProcessedFrame::new(data, 1).fragments();
    assert!(matches!(result, Err(FragmentError::TooManyFragments)));
}

#[test]
fn every_fragment_fits_a_datagram() {
    let data = pattern(3 * Packet::MAX_PAYLOAD + 1);
    for packet in ProcessedFrame::new(data, 1).fragments().unwrap() {
        assert!(packet.to_bytes().len() <= Packet::CHUNK_SIZE);
    }
}

#[test]
fn what_is_cut_is_joined_again() {
    for len in [0usize, 1, 37, Packet::MAX_PAYLOAD - 1, Packet::MAX_PAYLOAD, Packet::MAX_PAYLOAD + 1, 3 * Packet::MAX_PAYLOAD] {
        let data = pattern(len);
        let mut cache = FrameBuffer::new();
        for packet in ProcessedFrame::new(data.clone(), 99).fragments().unwrap() {
            let datagram = packet.to_bytes();
            cache.add_packet(Packet::from_bytes(datagram).unwrap());
        }
        match cache.get_frame() {
            GetFrameResult::Ready(bytes) => assert_eq!(bytes, data),
            _ => panic!("all fragments came in"),
        }
        assert_eq!(cache.len(), 0);
    }
}

#[test]
fn what_is_cut_is_joined_again_in_any_order() {
    let data = pattern(4 * Packet::MAX_PAYLOAD + 5);
    let mut packets = ProcessedFrame::new(data.clone(), 3).fragments().unwrap();
    packets.reverse();
    packets.swap(0, 2);
    let mut cache = FrameBuffer::new();
    for packet in packets {
        cache.add_packet(packet);
    }
    match cache.get_frame() {
        GetFrameResult::Ready(bytes) => assert_eq!(bytes, data),
        _ => panic!("all fragments came in"),
    }
}

#[test]
fn a_sweep_sends_every_fragment_to_every_client() {
    let registry = registry_of(2);
    let mut sweep = Sweep::begin(&registry, 3);
    assert!(!sweep.is_done());
    let log = run(&mut sweep, &|_| true);
    assert!(sweep.is_done());
    assert!(sweep.next().is_none());
    let pairs: Vec<(usize, usize)> = log.iter().map(|d| (d.fragment, d.client)).collect();
    assert_eq!(pairs, vec![(0, 0), (0, 1), (1, 0), (1, 1), (2, 0), (2, 1)]);
    assert_eq!(log[0].to, peer(1));
    assert_eq!(log[1].to, peer(2));
    assert!(!sweep.has_failed(0));
    assert!(!sweep.has_failed(1));
}

#[test]
fn a_client_that_fails_leaves_after_the_sweep_and_the_others_get_everything() {
    let mut registry = registry_of(3);
    let mut sweep = Sweep::begin(&registry, 4);
    let log = run(&mut sweep, &|dispatch| dispatch.to != peer(2));
    assert_eq!(registry.len(), 3);
    for client in [peer(1), peer(3)] {
        let fragments: Vec<usize> =
            log.iter().filter(|d| d.to == client).map(|d| d.fragment).collect();
        assert_eq!(fragments, vec![0usize, 1, 2, 3]);
    }
    assert!(!sweep.has_failed(0));
    assert!(sweep.has_failed(1));
    assert!(!sweep.has_failed(2));
    let outcome = sweep.finish(&mut registry);
    assert_eq!(outcome, SweepOutcome::Delivered);
    assert_eq!(registry.clients(), vec![peer(1), peer(3)]);
}

#[test]
fn one_failed_send_marks_a_client() {
    let mut registry = registry_of(2);
    let mut sweep = Sweep::begin(&registry, 3);
    let log = run(&mut sweep, &|dispatch| !(dispatch.client == 0 && dispatch.fragment == 1));
    assert_eq!(log.len(), 6);
    assert!(sweep.has_failed(0));
    assert!(!sweep.has_failed(1));
    assert_eq!(sweep.finish(&mut registry), SweepOutcome::Delivered);
    assert_eq!(registry.clients(), vec![peer(2)]);
}

#[test]
fn a_failure_of_one_client_does_not_cut_the_others_short() {
    let registry = registry_of(3);
    let mut sweep = Sweep::begin(&registry, 2);
    let log = run(&mut sweep, &|dispatch| dispatch.client != 0);
    let pairs: Vec<(usize, usize)> = log.iter().map(|d| (d.fragment, d.client)).collect();
    assert_eq!(pairs, vec![(0, 0), (0, 1), (0, 2), (1, 0), (1, 1), (1, 2)]);
}

#[test]
fn when_every_client_fails_there_is_no_viable_client() {
    let mut registry = registry_of(2);
    let mut sweep = Sweep::begin(&registry, 2);
    run(&mut sweep, &|_| false);
    assert_eq!(sweep.finish(&mut registry), SweepOutcome::NoViableClients);
    assert!(registry.is_empty());
}

#[test]
fn a_sweep_without_clients_is_over_at_once() {
    let mut registry = ClientRegistry::new();
    let sweep = Sweep::begin(&registry, 5);
    assert!(sweep.is_done());
    assert!(sweep.next().is_none());
    assert_eq!(sweep.finish(&mut registry), SweepOutcome::NoViableClients);
}

#[test]
fn a_sweep_without_fragments_is_over_at_once() {
    let mut registry = registry_of(2);
    let sweep = Sweep::begin(&registry, 0);
    assert!(sweep.is_done());
    assert_eq!(sweep.finish(&mut registry), SweepOutcome::Delivered);
    assert_eq!(registry.len(), 2);
}

#[test]
fn a_client_that_comes_during_a_sweep_stays() {
    let mut registry = registry_of(2);
    let mut sweep = Sweep::begin(&registry, 1);
    registry.add(peer(7));
    let log = run(&mut sweep, &|dispatch| dispatch.to != peer(1));
    assert_eq!(log.len(), 2);
    assert_eq!(sweep.finish(&mut registry), SweepOutcome::Delivered);
    assert_eq!(registry.clients(), vec![peer(2), peer(7)]);
}
