use mig::errors::Error;
use mig::frames::ack;
use mig::frames::blocked;
use mig::frames::connection_close;
use mig::frames::goaway;
use mig::frames::padding;
use mig::frames::ping;
use mig::frames::rst_stream;
use mig::frames::stop_waiting;
use mig::frames::stream;
use mig::frames::window_update;
use mig::frames::Frame;

#[test]
fn ack_test_encoding() {
    let frame = ack::AckFrame {
        largest_acknowledged: 42,
        ack_delay: 32,
        first_ack_block_length: 64,
        extra_ack_blocks: Vec::new(),
        first_timestamp: None,
        extra_timestamps: Vec::new(),
    };
    let mut write = Vec::new();
    frame.encode(&mut write);
    assert_eq!(
        write,
        vec![
            0x4F, 0x00, 0x00, 0x00, 0x00, 0x00, 0x00, 0x2A, 0x00, 0x20, 0x00, 0x00, 0x00, 0x00,
            0x00, 0x40,
        ]
    );

    let frame = ack::AckFrame {
        largest_acknowledged: 42,
        ack_delay: 32,
        first_ack_block_length: 64,
        extra_ack_blocks: vec![
            ack::ExtraAckBlock { gap: 31, block_length: 0xDEADCAFE },
            ack::ExtraAckBlock { gap: 33, block_length: 0xAABBCCDDEEFF },
        ],
        first_timestamp: Some(ack::FirstAckTimestamp { delta_la: 1, delta_timestamp: 0xAABBCCDD }),
        extra_timestamps: vec![ack::ExtraAckTimestamp { delta_la: 2, delta_timestamp: 0xBBCC }],
    };
    let mut write = Vec::new();
    frame.encode(&mut write);
    assert_eq!(
        write,
        vec![
            0x6F, 0x02, 0x02, 0x00, 0x00, 0x00, 0x00, 0x00, 0x2A, 0x00, 0x20, 0x00, 0x00, 0x00,
            0x00, 0x00, 0x40, 0x1F, 0x00, 0x00, 0xDE, 0xAD, 0xCA, 0xFE, 0x21, 0xAA, 0xBB, 0xCC,
            0xDD, 0xEE, 0xFF, 0x01, 0xAA, 0xBB, 0xCC, 0xDD, 0x02, 0xBB, 0xCC,
        ]
    );
}

#[test]
fn ack_test_decoding() {
    let read = vec![
        0x4F, 0x00, 0x00, 0x00, 0x00, 0x00, 0x00, 0x2A, 0x00, 0x20, 0x00, 0x00, 0x00, 0x00, 0x00,
        0x40,
    ];
    let (frame, _) = ack::AckFrame::decode(&read, 0).unwrap();
    assert_eq!(
        frame,
        ack::AckFrame {
            largest_acknowledged: 42,
            ack_delay: 32,
            first_ack_block_length: 64,
            extra_ack_blocks: Vec::new(),
            first_timestamp: None,
            extra_timestamps: Vec::new(),
        }
    );

    let read = vec![
        0x6F, 0x02, 0x02, 0x00, 0x00, 0x00, 0x00, 0x00, 0x2A, 0x00, 0x20, 0x00, 0x00, 0x00, 0x00,
        0x00, 0x40, 0x1F, 0x00, 0x00, 0xDE, 0xAD, 0xCA, 0xFE, 0x21, 0xAA, 0xBB, 0xCC, 0xDD, 0xEE,
        0xFF, 0x01, 0xAA, 0xBB, 0xCC, 0xDD, 0x02, 0xBB, 0xCC,
    ];
    let (frame, _) = ack::AckFrame::decode(&read, 0).unwrap();
    assert_eq!(
        frame,
        ack::AckFrame {
            largest_acknowledged: 42,
            ack_delay: 32,
            first_ack_block_length: 64,
            extra_ack_blocks: vec![
                ack::ExtraAckBlock { gap: 31, block_length: 0xDEADCAFE },
                ack::ExtraAckBlock { gap: 33, block_length: 0xAABBCCDDEEFF },
            ],
            first_timestamp: Some(ack::FirstAckTimestamp {
                delta_la: 1,
                delta_timestamp: 0xAABBCCDD
            }),
            extra_timestamps: vec![ack::ExtraAckTimestamp { delta_la: 2, delta_timestamp: 0xBBCC }],
        }
    );

    let read = vec![
        0x6F, 0x02, 0x02, 0x00, 0x00, 0x00, 0x00, 0x00, 0x2A, 0x00, 0x20, 0x00, 0x00, 0x00, 0x00,
        0x00, 0x40, 0x1F, 0x00, 0x00, 0xDE, 0xAD, 0xCA, 0xFE, 0x21, 0xAA, 0xBB, 0xCC, 0xDD, 0xEE,
        0xFF, 0x01, 0xAA, 0xBB, 0xCC, 0xDD, 0x02, 0xBB,
    ];
    assert!(matches!(ack::AckFrame::decode(&read, 0), Err(Error::Decoding)));
}

#[test]
fn blocked_test_encoding() {
    let frame = blocked::BlockedFrame { stream_id: 42 };
    let mut write = Vec::new();
    frame.encode(&mut write);
    assert_eq!(write, vec![0x05, 0x00, 0x00, 0x00, 0x2A]);
}

#[test]
fn blocked_test_decoding() {
    let read = vec![0x05, 0x00, 0x00, 0x00, 0x2A];
    let (frame, _) = blocked::BlockedFrame::decode(&read, 0).unwrap();
    assert_eq!(frame, blocked::BlockedFrame { stream_id: 42 });

    let read = vec![0x05, 0x00, 0x00, 0x00];
    assert!(matches!(blocked::BlockedFrame::decode(&read, 0), Err(Error::Decoding)));
}

#[test]
fn connection_close_test_encoding() {
    let frame = connection_close::ConnectionCloseFrame { error_code: 42, reason_phrase: None };
    let mut write = Vec::new();
    frame.encode(&mut write);
    assert_eq!(write, vec![0x02, 0x00, 0x00, 0x00, 0x2A, 0x00, 0x00]);

    let frame = connection_close::ConnectionCloseFrame {
        error_code: 42,
        reason_phrase: Some(vec![0x68, 0x65, 0x6C, 0x6C, 0x6F]),
    };
    let mut write = Vec::new();
    frame.encode(&mut write);
    assert_eq!(
        write,
        vec![0x02, 0x00, 0x00, 0x00, 0x2A, 0x00, 0x05, 0x68, 0x65, 0x6C, 0x6C, 0x6F]
    );
}

#[test]
fn connection_close_test_decoding() {
    let read = vec![0x02, 0x00, 0x00, 0x00, 0x2A, 0x00, 0x00];
    let (frame, _) = connection_close::ConnectionCloseFrame::decode(&read, 0).unwrap();
    assert_eq!(
        frame,
        connection_close::ConnectionCloseFrame { error_code: 42, reason_phrase: None }
    );

    let read = vec![0x02, 0x00, 0x00, 0x00, 0x2A, 0x00, 0x05, 0x68, 0x65, 0x6C, 0x6C, 0x6F];
    let (frame, _) = connection_close::ConnectionCloseFrame::decode(&read, 0).unwrap();
    assert_eq!(
        frame,
        connection_close::ConnectionCloseFrame {
            error_code: 42,
            reason_phrase: Some(vec![0x68, 0x65, 0x6C, 0x6C, 0x6F]),
        }
    );

    let read = vec![0x02, 0x00, 0x00, 0x00, 0x2A, 0x00, 0x05, 0x68, 0x65, 0x6C, 0x6C];
    assert!(matches!(
        connection_close::ConnectionCloseFrame::decode(&read, 0),
        Err(Error::Decoding)
    ));
}

#[test]
fn goaway_test_encoding() {
    let frame = goaway::GoAwayFrame {
        error_code: 42,
        last_good_stream_id: 32,
        reason_phrase: None,
    };
    let mut write = Vec::new();
    frame.encode(&mut write);
    assert_eq!(
        write,
        vec![0x03, 0x00, 0x00, 0x00, 0x2A, 0x00, 0x00, 0x00, 0x20, 0x00, 0x00]
    );

    let frame = goaway::GoAwayFrame {
        error_code: 42,
        last_good_stream_id: 32,
        reason_phrase: Some(vec![0x68, 0x65, 0x6C, 0x6C, 0x6F]),
    };
    let mut write = Vec::new();
    frame.encode(&mut write);
    assert_eq!(
        write,
        vec![
            0x03, 0x00, 0x00, 0x00, 0x2A, 0x00, 0x00, 0x00, 0x20, 0x00, 0x05, 0x68, 0x65, 0x6C,
            0x6C, 0x6F,
        ]
    );
}

#[test]
fn goaway_test_decoding() {
    let read = vec![0x03, 0x00, 0x00, 0x00, 0x2A, 0x00, 0x00, 0x00, 0x20, 0x00, 0x00];
    let (frame, _) = goaway::GoAwayFrame::decode(&read, 0).unwrap();
    assert_eq!(
        frame,
        goaway::GoAwayFrame { error_code: 42, last_good_stream_id: 32, reason_phrase: None }
    );

    let read = vec![
        0x03, 0x00, 0x00, 0x00, 0x2A, 0x00, 0x00, 0x00, 0x20, 0x00, 0x05, 0x68, 0x65, 0x6C, 0x6C,
        0x6F,
    ];
    let (frame, _) = goaway::GoAwayFrame::decode(&read, 0).unwrap();
    assert_eq!(
        frame,
        goaway::GoAwayFrame {
            error_code: 42,
            last_good_stream_id: 32,
            reason_phrase: Some(vec![0x68, 0x65, 0x6C, 0x6C, 0x6F]),
        }
    );

    let read = vec![
        0x03, 0x00, 0x00, 0x00, 0x2A, 0x00, 0x00, 0x00, 0x20, 0x00, 0x05, 0x68, 0x65, 0x6C, 0x6C,
    ];
    assert!(matches!(goaway::GoAwayFrame::decode(&read, 0), Err(Error::Decoding)));
}

#[test]
fn padding_test_encoding() {
    let frame = padding::PaddingFrame {};
    let mut write = Vec::new();
    frame.encode(&mut write);
    assert_eq!(write, vec![0x00]);
}

#[test]
fn padding_test_decoding() {
    let read = vec![0x00];
    let (frame, _) = padding::PaddingFrame::decode(&read, 0).unwrap();
    assert_eq!(frame, padding::PaddingFrame {});

    let read = Vec::new();
    assert!(matches!(padding::PaddingFrame::decode(&read, 0), Err(Error::UnexpectedEof)));
}

#[test]
fn ping_test_encoding() {
    let frame = ping::PingFrame {};
    let mut write = Vec::new();
    frame.encode(&mut write);
    assert_eq!(write, vec![0x07]);
}

#[test]
fn ping_test_decoding() {
    let read = vec![0x07];
    let (frame, _) = ping::PingFrame::decode(&read, 0).unwrap();
    assert_eq!(frame, ping::PingFrame {});

    let read = Vec::new();
    assert!(matches!(ping::PingFrame::decode(&read, 0), Err(Error::UnexpectedEof)));
}

#[test]
fn rst_stream_test_encoding() {
    let frame = rst_stream::RstStreamFrame { error_code: 42, stream_id: 32, final_offset: 64 };
    let mut write = Vec::new();
    frame.encode(&mut write);
    assert_eq!(
        write,
        vec![
            0x01, 0x00, 0x00, 0x00, 0x2A, 0x00, 0x00, 0x00, 0x20, 0x00, 0x00, 0x00, 0x00, 0x00,
            0x00, 0x00, 0x40,
        ]
    );
}

#[test]
fn rst_stream_test_decoding() {
    let read = vec![
        0x01, 0x00, 0x00, 0x00, 0x2A, 0x00, 0x00, 0x00, 0x20, 0x00, 0x00, 0x00, 0x00, 0x00, 0x00,
        0x00, 0x40,
    ];
    let (frame, _) = rst_stream::RstStreamFrame::decode(&read, 0).unwrap();
    assert_eq!(
        frame,
        rst_stream::RstStreamFrame { error_code: 42, stream_id: 32, final_offset: 64 }
    );

    let read = vec![
        0x01, 0x00, 0x00, 0x00, 0x2A, 0x00, 0x00, 0x00, 0x20, 0x00, 0x00, 0x00, 0x00, 0x00, 0x00,
        0x00,
    ];
    assert!(matches!(rst_stream::RstStreamFrame::decode(&read, 0), Err(Error::Decoding)));
}

#[test]
fn stop_waiting_test_encoding() {
    let frame = stop_waiting::StopWaitingFrame { least_acked_delta: 0x00000000000000FE };
    let mut write = Vec::new();
    frame.encode(&mut write, 1);
    assert_eq!(write, vec![0x06, 0xFE]);

    let frame = stop_waiting::StopWaitingFrame { least_acked_delta: 0x000000000000CAFE };
    let mut write = Vec::new();
    frame.encode(&mut write, 2);
    assert_eq!(write, vec![0x06, 0xCA, 0xFE]);

    let frame = stop_waiting::StopWaitingFrame { least_acked_delta: 0x00000000DEADCAFE };
    let mut write = Vec::new();
    frame.encode(&mut write, 4);
    assert_eq!(write, vec![0x06, 0xDE, 0xAD, 0xCA, 0xFE]);

    let frame = stop_waiting::StopWaitingFrame { least_acked_delta: 0x00001042DEADCAFE };
    let mut write = Vec::new();
    frame.encode(&mut write, 6);
    assert_eq!(write, vec![0x06, 0x10, 0x42, 0xDE, 0xAD, 0xCA, 0xFE]);
}

#[test]
fn stop_waiting_test_decoding() {
    let read = vec![0x06, 0xFE];
    let (frame, _) = stop_waiting::StopWaitingFrame::decode(&read, 0, 1).unwrap();
    assert_eq!(frame, stop_waiting::StopWaitingFrame { least_acked_delta: 0x00000000000000FE });

    let read = vec![0x06, 0xCA, 0xFE];
    let (frame, _) = stop_waiting::StopWaitingFrame::decode(&read, 0, 2).unwrap();
    assert_eq!(frame, stop_waiting::StopWaitingFrame { least_acked_delta: 0x000000000000CAFE });

    let read = vec![0x06, 0xDE, 0xAD, 0xCA, 0xFE];
    let (frame, _) = stop_waiting::StopWaitingFrame::decode(&read, 0, 4).unwrap();
    assert_eq!(frame, stop_waiting::StopWaitingFrame { least_acked_delta: 0x00000000DEADCAFE });

    let read = vec![0x06, 0x10, 0x42, 0xDE, 0xAD, 0xCA, 0xFE];
    let (frame, _) = stop_waiting::StopWaitingFrame::decode(&read, 0, 6).unwrap();
    assert_eq!(frame, stop_waiting::StopWaitingFrame { least_acked_delta: 0x00001042DEADCAFE });

    let read = vec![0x06, 0x10, 0x42, 0xDE, 0xAD, 0xCA];
    assert!(matches!(
        stop_waiting::StopWaitingFrame::decode(&read, 0, 6),
        Err(Error::Decoding)
    ));
}

#[test]
fn stream_test_encoding() {
    let frame = stream::StreamFrame {
        stream_id: 42,
        offset: 32,
        stream_data: vec![0x68, 0x65, 0x6C, 0x6C, 0x6F],
        fin: false,
    };
    let mut write = Vec::new();
    frame.encode(&mut write, false);
    assert_eq!(
        write,
        vec![
            0xBF, 0x00, 0x05, 0x00, 0x00, 0x00, 0x2A, 0x00, 0x00, 0x00, 0x00, 0x00, 0x00, 0x00,
            0x20, 0x68, 0x65, 0x6C, 0x6C, 0x6F,
        ]
    );

    let frame = stream::StreamFrame {
        stream_id: 0xDEADCAFE,
        offset: 0x10111213DEADCAFE,
        stream_data: vec![0x68, 0x65, 0x6C, 0x6C, 0x6F, 0x32],
        fin: true,
    };
    let mut write = Vec::new();
    frame.encode(&mut write, true);
    assert_eq!(
        write,
        vec![
            0xDF, 0xDE, 0xAD, 0xCA, 0xFE, 0x10, 0x11, 0x12, 0x13, 0xDE, 0xAD, 0xCA, 0xFE, 0x68,
            0x65, 0x6C, 0x6C, 0x6F, 0x32,
        ]
    );
}

#[test]
fn stream_test_decoding() {
    let read = vec![
        0xBF, 0x00, 0x05, 0x00, 0x00, 0x00, 0x2A, 0x00, 0x00, 0x00, 0x00, 0x00, 0x00, 0x00, 0x20,
        0x68, 0x65, 0x6C, 0x6C, 0x6F,
    ];
    let (frame, _) = stream::StreamFrame::decode(&read, 0).unwrap();
    assert_eq!(
        frame,
        stream::StreamFrame {
            stream_id: 42,
            offset: 32,
            stream_data: vec![0x68, 0x65, 0x6C, 0x6C, 0x6F],
            fin: false,
        }
    );

    let read = vec![
        0xDF, 0xDE, 0xAD, 0xCA, 0xFE, 0x10, 0x11, 0x12, 0x13, 0xDE, 0xAD, 0xCA, 0xFE, 0x68, 0x65,
        0x6C, 0x6C, 0x6F, 0x32,
    ];
    let (frame, _) = stream::StreamFrame::decode(&read, 0).unwrap();
    assert_eq!(
        frame,
        stream::StreamFrame {
            stream_id: 0xDEADCAFE,
            offset: 0x10111213DEADCAFE,
            stream_data: vec![0x68, 0x65, 0x6C, 0x6C, 0x6F, 0x32],
            fin: true,
        }
    );

    let read = vec![
        0xDF, 0xDE, 0xAD, 0xCA, 0xFE, 0x10, 0x11, 0x12, 0x13, 0xDE, 0xAD, 0xCA, 0xFE,
    ];
    let (frame, _) = stream::StreamFrame::decode(&read, 0).unwrap();
    assert_eq!(
        frame,
        stream::StreamFrame {
            stream_id: 0xDEADCAFE,
            offset: 0x10111213DEADCAFE,
            stream_data: Vec::new(),
            fin: true,
        }
    );

    let read = vec![
        0xFF, 0x00, 0x00, 0x00, 0x00, 0x00, 0x2A, 0x00, 0x00, 0x00, 0x00, 0x00, 0x00, 0x00, 0x20,
    ];
    let (frame, _) = stream::StreamFrame::decode(&read, 0).unwrap();
    assert_eq!(
        frame,
        stream::StreamFrame { stream_id: 42, offset: 32, stream_data: Vec::new(), fin: true }
    );

    let read = vec![
        0xBF, 0x00, 0x00, 0x00, 0x00, 0x00, 0x2A, 0x00, 0x00, 0x00, 0x00, 0x00, 0x00, 0x00, 0x20,
    ];
    assert!(matches!(stream::StreamFrame::decode(&read, 0), Err(Error::Decoding)));

    let read = vec![
        0xBF, 0x00, 0x05, 0x00, 0x00, 0x00, 0x2A, 0x00, 0x00, 0x00, 0x00, 0x00, 0x00, 0x00, 0x20,
        0x68, 0x65, 0x6C, 0x6C,
    ];
    assert!(matches!(stream::StreamFrame::decode(&read, 0), Err(Error::Decoding)));
}

#[test]
fn window_update_test_encoding() {
    let frame = window_update::WindowUpdateFrame { stream_id: 42, byte_offset: 32 };
    let mut write = Vec::new();
    frame.encode(&mut write);
    assert_eq!(
        write,
        vec![0x04, 0x00, 0x00, 0x00, 0x2A, 0x00, 0x00, 0x00, 0x00, 0x00, 0x00, 0x00, 0x20]
    );
}

#[test]
fn window_update_test_decoding() {
    let read = vec![0x04, 0x00, 0x00, 0x00, 0x2A, 0x00, 0x00, 0x00, 0x00, 0x00, 0x00, 0x00, 0x20];
    let (frame, _) = window_update::WindowUpdateFrame::decode(&read, 0).unwrap();
    assert_eq!(frame, window_update::WindowUpdateFrame { stream_id: 42, byte_offset: 32 });

    let read = vec![0x04, 0x00, 0x00, 0x00, 0x2A, 0x00, 0x00, 0x00, 0x00, 0x00, 0x00, 0x00];
    assert!(matches!(
        window_update::WindowUpdateFrame::decode(&read, 0),
        Err(Error::Decoding)
    ));
}

fn all_frames_bytes() -> Vec<u8> {
    vec![
        // ack frame
        0x4F, 0x00, 0x00, 0x00, 0x00, 0x00, 0x00, 0x2A, 0x00, 0x20, 0x00, 0x00, 0x00, 0x00, 0x00,
        0x40, // blocked frame
        0x05, 0x00, 0x00, 0x00, 0x2A, // connection close frame
        0x02, 0x00, 0x00, 0x00, 0x2A, 0x00, 0x00, // goaway frame
        0x03, 0x00, 0x00, 0x00, 0x2A, 0x00, 0x00, 0x00, 0x20, 0x00, 0x00, // padding frame
        0x00, // ping frame
        0x07, // rst stream frame
        0x01, 0x00, 0x00, 0x00, 0x2A, 0x00, 0x00, 0x00, 0x20, 0x00, 0x00, 0x00, 0x00, 0x00, 0x00,
        0x00, 0x40, // stop waiting frame
        0x06, 0x10, 0x42, 0xDE, 0xAD, 0xCA, 0xFE, // stream frame
        0xBF, 0x00, 0x05, 0x00, 0x00, 0x00, 0x2A, 0x00, 0x00, 0x00, 0x00, 0x00, 0x00, 0x00, 0x20,
        0x68, 0x65, 0x6C, 0x6C, 0x6F, // window update frame
        0x04, 0x00, 0x00, 0x00, 0x2A, 0x00, 0x00, 0x00, 0x00, 0x00, 0x00, 0x00, 0x20,
    ]
}

fn all_frames() -> Vec<Frame> {
    vec![
        Frame::Ack(ack::AckFrame {
            largest_acknowledged: 42,
            ack_delay: 32,
            first_ack_block_length: 64,
            extra_ack_blocks: Vec::new(),
            first_timestamp: None,
            extra_timestamps: Vec::new(),
        }),
        Frame::Blocked(blocked::BlockedFrame { stream_id: 42 }),
        Frame::ConnectionClose(connection_close::ConnectionCloseFrame {
            error_code: 42,
            reason_phrase: None,
        }),
        Frame::GoAway(goaway::GoAwayFrame {
            error_code: 42,
            last_good_stream_id: 32,
            reason_phrase: None,
        }),
        Frame::Padding(padding::PaddingFrame {}),
        Frame::Ping(ping::PingFrame {}),
        Frame::RstStream(rst_stream::RstStreamFrame {
            error_code: 42,
            stream_id: 32,
            final_offset: 64,
        }),
        Frame::StopWaiting(stop_waiting::StopWaitingFrame {
            least_acked_delta: 0x00001042DEADCAFE,
        }),
        Frame::Stream(stream::StreamFrame {
            stream_id: 42,
            offset: 32,
            stream_data: vec![0x68, 0x65, 0x6C, 0x6C, 0x6F],
            fin: false,
        }),
        Frame::WindowUpdate(window_update::WindowUpdateFrame { stream_id: 42, byte_offset: 32 }),
    ]
}

#[test]
fn mod_test_encoding() {
    let mut write = Vec::new();
    for frame in all_frames() {
        frame.encode(&mut write, 6, false);
    }
    assert_eq!(write, all_frames_bytes());
}

#[test]
fn mod_test_decoding() {
    let read = all_frames_bytes();
    let expected = all_frames();
    let mut pos = 0;
    for want in expected {
        let (frame, next) = Frame::decode(&read, pos, 6).unwrap();
        assert_eq!(frame, want);
        pos = next;
    }
    assert_eq!(pos, read.len());
}
