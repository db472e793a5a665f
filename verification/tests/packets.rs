use mig::endpoint_role::EndpointRole;
use mig::errors::Error;
use mig::frames::{padding, ping, Frame};
use mig::packets;
use mig::QUIC_VERSION;

fn padding_ping_payload() -> packets::PacketPayload {
    packets::PacketPayload {
        frames: vec![
            Frame::Padding(padding::PaddingFrame {}),
            Frame::Ping(ping::PingFrame {}),
        ],
    }
}

#[test]
fn mod_test_payload_encoding() {
    let payload = padding_ping_payload();
    let mut write = Vec::new();
    payload.encode(&mut write, 6);
    assert_eq!(write, vec![0x00, 0x07]);
}

#[test]
fn mod_test_payload_decoding() {
    let read = vec![0x00, 0x07];
    assert_eq!(packets::PacketPayload::decode(&read, 0, 6).unwrap(), padding_ping_payload());

    let read = vec![
        0x00, 0x04, 0x00, 0x00, 0x00, 0x2A, 0x00, 0x00, 0x00, 0x00, 0x00, 0x00, 0x00,
    ];
    assert!(matches!(packets::PacketPayload::decode(&read, 0, 6), Err(Error::Decoding)));

    let read = Vec::new();
    assert!(matches!(packets::PacketPayload::decode(&read, 0, 6), Err(Error::Decoding)));
}

#[test]
fn test_packet_encoding() {
    let packet = packets::Packet::Regular(packets::RegularPacket {
        header: packets::PacketHeader {
            key_phase: true,
            packet_number_size: 4,
            multipath: true,
            connection_id: Some(0xABCDEF1234567890),
        },
        version: Some(0x12345678),
        packet_number: 0x1234567890ABCDEF,
        payload: padding_ping_payload(),
    });
    let mut write = Vec::new();
    packet.encode(&mut write);
    assert_eq!(
        write,
        vec![
            0x6D, 0xAB, 0xCD, 0xEF, 0x12, 0x34, 0x56, 0x78, 0x90, 0x12, 0x34, 0x56, 0x78, 0x90,
            0xAB, 0xCD, 0xEF, 0x00, 0x07,
        ]
    );

    let packet = packets::Packet::Regular(packets::RegularPacket {
        header: packets::PacketHeader {
            key_phase: false,
            packet_number_size: 4,
            multipath: false,
            connection_id: None,
        },
        version: None,
        packet_number: 0x1234567890ABCDEF,
        payload: padding_ping_payload(),
    });
    let mut write = Vec::new();
    packet.encode(&mut write);
    assert_eq!(write, vec![0x20, 0x90, 0xAB, 0xCD, 0xEF, 0x00, 0x07]);

    let packet = packets::Packet::VersionNegotiation(packets::VersionNegotiationPacket {
        header: packets::PacketHeader {
            key_phase: false,
            packet_number_size: 1,
            multipath: false,
            connection_id: Some(0xABCDEF1234567890),
        },
        versions: vec![0x12345678, 0xABCDEF12],
    });
    let mut write = Vec::new();
    packet.encode(&mut write);
    assert_eq!(
        write,
        vec![
            0x09, 0xAB, 0xCD, 0xEF, 0x12, 0x34, 0x56, 0x78, 0x90, 0x12, 0x34, 0x56, 0x78, 0xAB,
            0xCD, 0xEF, 0x12,
        ]
    );

    let packet = packets::Packet::PublicReset(packets::PublicResetPacket {
        header: packets::PacketHeader {
            key_phase: false,
            packet_number_size: 1,
            multipath: false,
            connection_id: Some(0xABCDEF1234567890),
        },
    });
    let mut write = Vec::new();
    packet.encode(&mut write);
    assert_eq!(write, vec![0x0A, 0xAB, 0xCD, 0xEF, 0x12, 0x34, 0x56, 0x78, 0x90]);
}

#[test]
fn test_packet_decoding() {
    let read = vec![
        0x6D, 0xAB, 0xCD, 0xEF, 0x12, 0x34, 0x56, 0x78, 0x90, 0xFA, 0xB0, 0x00, 0x01, 0x90, 0xAB,
        0xCD, 0xEF, 0x00, 0x07,
    ];
    assert_eq!(
        packets::Packet::decode(&read, EndpointRole::Server).unwrap(),
        packets::Packet::Regular(packets::RegularPacket {
            header: packets::PacketHeader {
                key_phase: true,
                packet_number_size: 4,
                multipath: true,
                connection_id: Some(0xABCDEF1234567890),
            },
            version: Some(QUIC_VERSION),
            packet_number: 0x0000000090ABCDEF,
            payload: padding_ping_payload(),
        })
    );

    let read = vec![0x20, 0x90, 0xAB, 0xCD, 0xEF, 0x00, 0x07];
    assert_eq!(
        packets::Packet::decode(&read, EndpointRole::Server).unwrap(),
        packets::Packet::Regular(packets::RegularPacket {
            header: packets::PacketHeader {
                key_phase: false,
                packet_number_size: 4,
                multipath: false,
                connection_id: None,
            },
            version: None,
            packet_number: 0x0000000090ABCDEF,
            payload: padding_ping_payload(),
        })
    );

    let read = vec![
        0x09, 0xAB, 0xCD, 0xEF, 0x12, 0x34, 0x56, 0x78, 0x90, 0x12, 0x34, 0x56, 0x78, 0xAB, 0xCD,
        0xEF, 0x12,
    ];
    assert_eq!(
        packets::Packet::decode(&read, EndpointRole::Client).unwrap(),
        packets::Packet::VersionNegotiation(packets::VersionNegotiationPacket {
            header: packets::PacketHeader {
                key_phase: false,
                packet_number_size: 1,
                multipath: false,
                connection_id: Some(0xABCDEF1234567890),
            },
            versions: vec![0x12345678, 0xABCDEF12],
        })
    );

    let read = vec![0x0A, 0xAB, 0xCD, 0xEF, 0x12, 0x34, 0x56, 0x78, 0x90];
    assert_eq!(
        packets::Packet::decode(&read, EndpointRole::Server).unwrap(),
        packets::Packet::PublicReset(packets::PublicResetPacket {
            header: packets::PacketHeader {
                key_phase: false,
                packet_number_size: 1,
                multipath: false,
                connection_id: Some(0xABCDEF1234567890),
            },
        })
    );

    let read = vec![
        0x6D, 0xAB, 0xCD, 0xEF, 0x12, 0x34, 0x56, 0x78, 0x90, 0xFA, 0xC0, 0x00, 0x01, 0x90, 0xAB,
        0xCD, 0xEF, 0x00, 0x07,
    ];
    assert!(matches!(
        packets::Packet::decode(&read, EndpointRole::Server),
        Err(Error::UnsupportedVersion(_))
    ));

    let read = vec![
        0x09, 0xAB, 0xCD, 0xEF, 0x12, 0x34, 0x56, 0x78, 0x90, 0x12, 0x34, 0x56, 0x78, 0xAB, 0xCD,
        0xEF, 0x12,
    ];
    assert!(matches!(
        packets::Packet::decode(&read, EndpointRole::Server),
        Err(Error::UnsupportedVersion(_))
    ));

    let read = vec![0x6D, 0xAB, 0xCD, 0xEF, 0x12, 0x34, 0x56, 0x78, 0x90, 0x12, 0x34, 0x56, 0x78];
    assert!(matches!(
        packets::Packet::decode(&read, EndpointRole::Server),
        Err(Error::UnsupportedVersion(_))
    ));

    let read = Vec::new();
    assert!(matches!(
        packets::Packet::decode(&read, EndpointRole::Server),
        Err(Error::Decoding)
    ));
}

#[test]
fn packet_round_trip_regular() {
    let packet = packets::Packet::Regular(packets::RegularPacket {
        header: packets::PacketHeader {
            key_phase: false,
            packet_number_size: 2,
            multipath: false,
            connection_id: Some(7),
        },
        version: None,
        packet_number: 0x0102,
        payload: padding_ping_payload(),
    });
    let mut bytes = Vec::new();
    packet.encode(&mut bytes);
    assert_eq!(packets::Packet::decode(&bytes, EndpointRole::Client).unwrap(), packet);
}

#[test]
fn truncate_keeps_low_bytes() {
    assert_eq!(mig::wire::truncate_u64(0x1234567890, 2), 0x7890);
    assert_eq!(mig::wire::truncate_u64(0x1234567890, 6), 0x1234567890);
    assert_eq!(mig::wire::truncate_u64(7, 0), 0);
}
