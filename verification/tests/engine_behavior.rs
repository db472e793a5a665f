use mig::endpoint_role::EndpointRole;
use mig::engine::connection::Connection;
use mig::engine::stream::{Stream, StreamState};
use mig::engine::udp_packet::{IncomingUdpPacket, PeerAddress};
use mig::engine::QuicEngine;
use mig::frames::stream::StreamFrame;
use mig::frames::Frame;
use mig::packets::{Packet, PacketHeader, PacketPayload, RegularPacket};
use mig::threaded::timer::ThreadedTimer;

fn test_address() -> PeerAddress {
    PeerAddress { is_v6: false, ip: 0x7F000001, port: 4433, flowinfo: 0, scope_id: 0 }
}

fn stream_data_packet(connection_id: u64, packet_number: u64, data: Vec<u8>) -> Vec<u8> {
    let packet = Packet::Regular(RegularPacket {
        header: PacketHeader {
            key_phase: false,
            packet_number_size: 4,
            multipath: false,
            connection_id: Some(connection_id),
        },
        version: None,
        packet_number,
        payload: PacketPayload {
            frames: vec![Frame::Stream(StreamFrame {
                stream_id: 0,
                offset: 0,
                stream_data: data,
                fin: false,
            })],
        },
    });
    let mut bytes = Vec::new();
    packet.encode(&mut bytes);
    bytes
}

#[test]
fn engine_accepts_and_delivers() {
    let mut engine = QuicEngine::new(ThreadedTimer::new(), true);
    let bytes = stream_data_packet(9, 1, vec![0x68, 0x69]);
    engine.handle_incoming_packet(
        IncomingUdpPacket { source_address: test_address(), payload: bytes },
        0,
    );

    // the packet reached a connection, so the handler flushed: the first
    // window update and the queued cumulative acknowledgment are staged
    let out = engine.pop_pending_packets();
    assert_eq!(out.len(), 2);
    assert_eq!(out[0].destination_address, test_address());
    match Packet::decode(&out[0].payload, EndpointRole::Client).unwrap() {
        Packet::Regular(p) => {
            assert!(matches!(p.payload.frames[0], Frame::WindowUpdate(_)));
        },
        _ => panic!("expected a regular packet"),
    }
    match Packet::decode(&out[1].payload, EndpointRole::Client).unwrap() {
        Packet::Regular(p) => {
            assert_eq!(p.payload.frames.len(), 1);
            match &p.payload.frames[0] {
                Frame::Ack(a) => assert_eq!(a.largest_acknowledged, 1),
                _ => panic!("expected an ack frame"),
            }
        },
        _ => panic!("expected a regular packet"),
    }

    assert!(engine.have_connections());
    let id = engine.pop_new_connection();
    assert_eq!(id, 9);
    assert!(engine.data_available(9, 0));

    let mut buf = vec![0u8; 4];
    let n = engine.read(9, 0, &mut buf, 0).unwrap();
    assert_eq!(n, 2);
    assert_eq!(&buf[..2], &[0x68, 0x69]);

    // the read moved the receive window, so its flush staged the
    // matching window update at once
    let out = engine.pop_pending_packets();
    assert_eq!(out.len(), 1);
    match Packet::decode(&out[0].payload, EndpointRole::Client).unwrap() {
        Packet::Regular(p) => {
            assert!(matches!(p.payload.frames[0], Frame::WindowUpdate(_)));
        },
        _ => panic!("expected a regular packet"),
    }
}

#[test]
fn engine_drops_unknown_when_not_accepting() {
    let mut engine = QuicEngine::new(ThreadedTimer::new(), false);
    let bytes = stream_data_packet(9, 1, vec![0x68]);
    engine.handle_incoming_packet(
        IncomingUdpPacket { source_address: test_address(), payload: bytes },
        0,
    );
    assert!(!engine.have_connections());
    assert!(engine.pop_pending_packets().is_empty());
}

#[test]
fn packetization_splits_at_budget() {
    let mut conn = Connection::new(1, EndpointRole::Client, test_address());
    let data: Vec<u8> = (0..2500u32).map(|i| (i % 251) as u8).collect();
    conn.write(0, &data).unwrap();

    let packets = conn.drain_outgoing_packets();
    // three budget-sized data packets, then the first window update
    assert_eq!(packets.len(), 4);
    match &packets[3] {
        Packet::Regular(p) => assert!(matches!(p.payload.frames[0], Frame::WindowUpdate(_))),
        _ => panic!("expected a regular packet"),
    }

    let mut rebuilt: Vec<u8> = Vec::new();
    let mut expected_offset: u64 = 0;
    for (i, packet) in packets.iter().take(3).enumerate() {
        match packet {
            Packet::Regular(p) => {
                assert_eq!(p.packet_number, 1 + i as u64);
                assert_eq!(p.payload.frames.len(), 1);
                match &p.payload.frames[0] {
                    Frame::Stream(sf) => {
                        assert!(sf.stream_data.len() <= 1000);
                        assert_eq!(sf.offset, expected_offset);
                        expected_offset += sf.stream_data.len() as u64;
                        rebuilt.extend_from_slice(&sf.stream_data);
                    },
                    _ => panic!("expected a stream frame"),
                }
            },
            _ => panic!("expected a regular packet"),
        }
    }
    assert_eq!(rebuilt, data);
}

#[test]
fn fin_frame_emitted_once() {
    let mut conn = Connection::new(1, EndpointRole::Client, test_address());
    conn.write(0, &vec![1, 2, 3]).unwrap();
    conn.finalize_outgoing_stream(0).unwrap();

    let packets = conn.drain_outgoing_packets();
    // the data packet, its terminal fin packet, and the first window update
    assert_eq!(packets.len(), 3);
    match &packets[1] {
        Packet::Regular(p) => match &p.payload.frames[0] {
            Frame::Stream(sf) => {
                assert!(sf.fin);
                assert_eq!(sf.offset, 3);
                assert!(sf.stream_data.is_empty());
            },
            _ => panic!("expected a stream frame"),
        },
        _ => panic!("expected a regular packet"),
    }

    // draining again produces no second fin and no new window update
    let packets = conn.drain_outgoing_packets();
    assert!(packets.is_empty());
}

#[test]
fn stream_state_machine_table() {
    let states = [
        StreamState::Idle,
        StreamState::Open,
        StreamState::RemoteClosed,
        StreamState::LocalClosed,
        StreamState::Closed,
    ];
    let outgoing_expect = [
        StreamState::LocalClosed,
        StreamState::LocalClosed,
        StreamState::Closed,
        StreamState::LocalClosed,
        StreamState::Closed,
    ];
    let incoming_expect = [
        StreamState::RemoteClosed,
        StreamState::RemoteClosed,
        StreamState::RemoteClosed,
        StreamState::Closed,
        StreamState::Closed,
    ];
    for i in 0..5 {
        let mut s = Stream::new(0);
        s.state = states[i];
        s.finalize_outgoing();
        assert_eq!(s.state, outgoing_expect[i]);
        // repeating is idempotent
        s.finalize_outgoing();
        assert_eq!(s.state, outgoing_expect[i]);

        let mut s = Stream::new(0);
        s.state = states[i];
        s.finalize_incoming(7);
        assert_eq!(s.state, incoming_expect[i]);
        s.finalize_incoming(7);
        assert_eq!(s.state, incoming_expect[i]);
        assert_eq!(s.fin_offset, 7);
    }
}

#[test]
fn timer_schedule_and_pop() {
    let mut timer = ThreadedTimer::new();
    assert!(timer.time_until_next_event(0).is_none());
    let packet = Packet::PublicReset(mig::packets::PublicResetPacket {
        header: PacketHeader {
            key_phase: false,
            packet_number_size: 1,
            multipath: false,
            connection_id: None,
        },
    });
    timer.schedule(0, 100, mig::engine::timer::ScheduledEvent::ResendUnackedPacket(packet));
    assert_eq!(timer.time_until_next_event(30), Some(70));
    assert!(timer.pop_due_events(99).is_empty());
    let due = timer.pop_due_events(100);
    assert_eq!(due.len(), 1);
    assert!(timer.pop_due_events(1000).is_empty());
}

#[test]
fn handle_generator_counts_up() {
    let mut generator = mig::threaded::handle::HandleGenerator::new();
    assert_eq!(generator.generate(), 1);
    assert_eq!(generator.generate(), 2);
    assert_eq!(generator.generate(), 3);
}

#[test]
fn initiate_connection_registers_client() {
    let mut engine = QuicEngine::new(ThreadedTimer::new(), false);
    let id = engine.initiate_connection(test_address());
    // the id is random; writing through it must reach the registered connection
    engine.write(id, 2, &vec![0x61, 0x62], 0).unwrap();
    let out = engine.pop_pending_packets();
    // the stream-data packet, then window updates for the lazily
    // instantiated streams
    assert_eq!(out.len(), 4);
    match Packet::decode(&out[0].payload, EndpointRole::Server).unwrap() {
        Packet::Regular(p) => {
            assert_eq!(p.header.connection_id, Some(id));
            match &p.payload.frames[0] {
                Frame::Stream(sf) => {
                    assert_eq!(sf.stream_id, 2);
                    assert_eq!(sf.stream_data, vec![0x61, 0x62]);
                },
                _ => panic!("expected a stream frame"),
            }
        },
        _ => panic!("expected a regular packet"),
    }
}
