use bytes::BytesMut;
use protohackers::speed_daemon::codec::{
    encode_client_message, encode_server_message, parse_client_message, parse_server_message,
    ClientToServerCodec, ClientToServerMessage, CodecError, ServerToClientCodec,
    ServerToClientMessage,
};

fn plate(text: &str, timestamp: u32) -> ClientToServerMessage {
    ClientToServerMessage::Plate { plate: text.to_string(), timestamp }
}

fn ticket() -> ServerToClientMessage {
    ServerToClientMessage::Ticket {
        plate: "UN1X".to_string(),
        road: 66,
        mile1: 100,
        timestamp1: 123456,
        mile2: 110,
        timestamp2: 123816,
        speed: 10000,
    }
}

const TICKET_BYTES: [u8; 22] = [
    0x21, 0x04, 0x55, 0x4e, 0x31, 0x58, 0x00, 0x42, 0x00, 0x64, 0x00, 0x01, 0xe2, 0x40, 0x00,
    0x6e, 0x00, 0x01, 0xe3, 0xa8, 0x27, 0x10,
];

fn client_messages() -> Vec<ClientToServerMessage> {
    vec![
        plate("UN1X", 1000),
        plate("", 0),
        plate("RE05BKG", 123456),
        plate("Zürich", u32::MAX),
        ClientToServerMessage::WantHeartbeat { interval: 0 },
        ClientToServerMessage::WantHeartbeat { interval: 1243 },
        ClientToServerMessage::IAmCamera { road: 66, mile: 100, limit: 60 },
        ClientToServerMessage::IAmCamera { road: 65535, mile: 0, limit: 65535 },
        ClientToServerMessage::IAmDispatcher { roads: vec![] },
        ClientToServerMessage::IAmDispatcher { roads: vec![66] },
        ClientToServerMessage::IAmDispatcher { roads: vec![66, 368, 5000] },
    ]
}

fn server_messages() -> Vec<ServerToClientMessage> {
    vec![
        ServerToClientMessage::Error("bad".to_string()),
        ServerToClientMessage::Error(String::new()),
        ServerToClientMessage::Error("illegal msg".to_string()),
        ticket(),
        ServerToClientMessage::Ticket {
            plate: "RE05BKG".to_string(),
            road: 368,
            mile1: 1234,
            timestamp1: 1000000,
            mile2: 1235,
            timestamp2: 1000060,
            speed: 6000,
        },
        ServerToClientMessage::Heartbeat,
    ]
}

#[test]
fn plate_is_laid_out_as_tag_string_and_timestamp() {
    let frame = encode_client_message(&plate("UN1X", 1000)).unwrap();
    assert_eq!(frame, vec![0x20, 0x04, 0x55, 0x4e, 0x31, 0x58, 0x00, 0x00, 0x03, 0xe8]);
    let frame = encode_client_message(&plate("RE05BKG", 123456)).unwrap();
    assert_eq!(
        frame,
        vec![0x20, 0x07, 0x52, 0x45, 0x30, 0x35, 0x42, 0x4b, 0x47, 0x00, 0x01, 0xe2, 0x40]
    );
}

#[test]
fn want_heartbeat_is_laid_out_as_tag_and_interval() {
    let frame =
        encode_client_message(&ClientToServerMessage::WantHeartbeat { interval: 10 }).unwrap();
    assert_eq!(frame, vec![0x40, 0x00, 0x00, 0x00, 0x0a]);
    let frame =
        encode_client_message(&ClientToServerMessage::WantHeartbeat { interval: 1243 }).unwrap();
    assert_eq!(frame, vec![0x40, 0x00, 0x00, 0x04, 0xdb]);
}

#[test]
fn i_am_camera_is_laid_out_as_tag_and_three_integers() {
    let frame = encode_client_message(&ClientToServerMessage::IAmCamera {
        road: 66,
        mile: 100,
        limit: 60,
    })
    .unwrap();
    assert_eq!(frame, vec![0x80, 0x00, 0x42, 0x00, 0x64, 0x00, 0x3c]);
    let frame = encode_client_message(&ClientToServerMessage::IAmCamera {
        road: 368,
        mile: 1234,
        limit: 40,
    })
    .unwrap();
    assert_eq!(frame, vec![0x80, 0x01, 0x70, 0x04, 0xd2, 0x00, 0x28]);
}

#[test]
fn i_am_dispatcher_is_laid_out_as_tag_count_and_roads() {
    let frame =
        encode_client_message(&ClientToServerMessage::IAmDispatcher { roads: vec![66] }).unwrap();
    assert_eq!(frame, vec![0x81, 0x01, 0x00, 0x42]);
    let frame = encode_client_message(&ClientToServerMessage::IAmDispatcher {
        roads: vec![66, 368, 5000],
    })
    .unwrap();
    assert_eq!(frame, vec![0x81, 0x03, 0x00, 0x42, 0x01, 0x70, 0x13, 0x88]);
    let frame =
        encode_client_message(&ClientToServerMessage::IAmDispatcher { roads: vec![] }).unwrap();
    assert_eq!(frame, vec![0x81, 0x00]);
}

#[test]
fn error_is_laid_out_as_tag_and_string() {
    let frame = encode_server_message(&ServerToClientMessage::Error("bad".to_string())).unwrap();
    assert_eq!(frame, vec![0x10, 0x03, 0x62, 0x61, 0x64]);
    let frame =
        encode_server_message(&ServerToClientMessage::Error("illegal msg".to_string())).unwrap();
    assert_eq!(
        frame,
        vec![0x10, 0x0b, 0x69, 0x6c, 0x6c, 0x65, 0x67, 0x61, 0x6c, 0x20, 0x6d, 0x73, 0x67]
    );
}

#[test]
fn ticket_is_laid_out_field_by_field() {
    let frame = encode_server_message(&ticket()).unwrap();
    assert_eq!(frame, TICKET_BYTES.to_vec());
}

#[test]
fn heartbeat_is_one_byte() {
    let frame = encode_server_message(&ServerToClientMessage::Heartbeat).unwrap();
    assert_eq!(frame, vec![0x41]);
}

#[test]
fn every_client_message_survives_a_round_trip() {
    for message in client_messages() {
        let frame = encode_client_message(&message).unwrap();
        let parsed = parse_client_message(&frame).unwrap();
        assert_eq!(parsed, Some((message, frame.len())));
    }
}

#[test]
fn every_server_message_survives_a_round_trip() {
    for message in server_messages() {
        let frame = encode_server_message(&message).unwrap();
        let parsed = parse_server_message(&frame).unwrap();
        assert_eq!(parsed, Some((message, frame.len())));
    }
}

#[test]
fn every_frame_is_rebuilt_from_its_message() {
    let frames: Vec<Vec<u8>> = vec![
        vec![0x20, 0x04, 0x55, 0x4e, 0x31, 0x58, 0x00, 0x00, 0x03, 0xe8],
        vec![0x40, 0x00, 0x00, 0x04, 0xdb],
        vec![0x80, 0x01, 0x70, 0x04, 0xd2, 0x00, 0x28],
        vec![0x81, 0x03, 0x00, 0x42, 0x01, 0x70, 0x13, 0x88],
    ];
    for frame in frames {
        let (message, length) = parse_client_message(&frame).unwrap().unwrap();
        assert_eq!(length, frame.len());
        assert_eq!(encode_client_message(&message).unwrap(), frame);
    }
    let (message, length) = parse_server_message(&TICKET_BYTES).unwrap().unwrap();
    assert_eq!(length, TICKET_BYTES.len());
    assert_eq!(encode_server_message(&message).unwrap(), TICKET_BYTES.to_vec());
}

#[test]
fn a_frame_that_has_not_arrived_whole_waits() {
    for message in client_messages() {
        let frame = encode_client_message(&message).unwrap();
        for cut in 0..frame.len() {
            assert_eq!(parse_client_message(&frame[..cut]), Ok(None));
        }
    }
    for message in server_messages() {
        let frame = encode_server_message(&message).unwrap();
        for cut in 0..frame.len() {
            assert_eq!(parse_server_message(&frame[..cut]), Ok(None));
        }
    }
}

#[test]
fn what_follows_a_frame_is_left_alone() {
    for message in client_messages() {
        let mut bytes = encode_client_message(&message).unwrap();
        let length = bytes.len();
        bytes.extend_from_slice(&[0x99, 0x20, 0xff]);
        assert_eq!(parse_client_message(&bytes), Ok(Some((message, length))));
    }
}

#[test]
fn an_unknown_tag_is_an_error_at_once() {
    assert_eq!(
        parse_client_message(&[0x00]),
        Err(CodecError::UnknownMessageType { tag: 0x00 })
    );
    assert_eq!(
        parse_client_message(&[0x99, 0x01, 0x02]),
        Err(CodecError::UnknownMessageType { tag: 0x99 })
    );
    assert_eq!(
        parse_server_message(&[0x20, 0x00]),
        Err(CodecError::UnknownMessageType { tag: 0x20 })
    );
}

#[test]
fn a_client_may_not_send_server_messages() {
    for tag in [0x10u8, 0x21, 0x41] {
        assert_eq!(
            parse_client_message(&[tag, 0x00]),
            Err(CodecError::UnknownMessageType { tag })
        );
    }
    for tag in [0x20u8, 0x40, 0x80, 0x81] {
        assert_eq!(
            parse_server_message(&[tag, 0x00]),
            Err(CodecError::UnknownMessageType { tag })
        );
    }
}

#[test]
fn a_string_that_is_not_utf8_is_an_error() {
    let frame = [0x20, 0x02, 0xff, 0xfe, 0x00, 0x00, 0x00, 0x01];
    assert_eq!(parse_client_message(&frame), Err(CodecError::InvalidText));
    assert_eq!(parse_client_message(&frame[..7]), Ok(None));
    assert_eq!(parse_server_message(&[0x10, 0x01, 0x80]), Err(CodecError::InvalidText));
}

#[test]
fn a_field_that_is_too_long_is_not_encoded() {
    let long = "x".repeat(256);
    assert_eq!(encode_client_message(&plate(&long, 1)), Err(CodecError::FieldTooLong));
    assert_eq!(
        encode_server_message(&ServerToClientMessage::Error(long.clone())),
        Err(CodecError::FieldTooLong)
    );
    let roads: Vec<u16> = (0..256).collect();
    assert_eq!(
        encode_client_message(&ClientToServerMessage::IAmDispatcher { roads }),
        Err(CodecError::FieldTooLong)
    );
    let mut dst = BytesMut::from(&b"kept"[..]);
    let got = ServerToClientCodec.encode(ServerToClientMessage::Error(long), &mut dst);
    assert_eq!(got, Err(CodecError::FieldTooLong));
    assert_eq!(&dst[..], b"kept");
}

#[test]
fn the_longest_fields_are_encoded() {
    let longest = "x".repeat(255);
    let frame = encode_client_message(&plate(&longest, 7)).unwrap();
    assert_eq!(frame.len(), 1 + 1 + 255 + 4);
    assert_eq!(frame[1], 255);
    assert_eq!(parse_client_message(&frame), Ok(Some((plate(&longest, 7), 261))));
    let roads: Vec<u16> = (0..255).collect();
    let message = ClientToServerMessage::IAmDispatcher { roads };
    let frame = encode_client_message(&message).unwrap();
    assert_eq!(frame.len(), 2 + 2 * 255);
    assert_eq!(parse_client_message(&frame), Ok(Some((message, 512))));
}

#[test]
fn decode_takes_one_frame_at_a_time_out_of_the_buffer() {
    let mut codec = ClientToServerCodec;
    let mut src = BytesMut::new();
    src.extend_from_slice(&[0x80, 0x00, 0x42, 0x00, 0x64, 0x00, 0x3c]);
    src.extend_from_slice(&[0x20, 0x04, 0x55, 0x4e, 0x31, 0x58, 0x00, 0x00, 0x03, 0xe8]);
    src.extend_from_slice(&[0x40, 0x00]);
    assert_eq!(
        codec.decode(&mut src),
        Ok(Some(ClientToServerMessage::IAmCamera { road: 66, mile: 100, limit: 60 }))
    );
    assert_eq!(src.len(), 12);
    assert_eq!(codec.decode(&mut src), Ok(Some(plate("UN1X", 1000))));
    assert_eq!(&src[..], &[0x40, 0x00]);
    assert_eq!(codec.decode(&mut src), Ok(None));
    assert_eq!(&src[..], &[0x40, 0x00]);
    src.extend_from_slice(&[0x00, 0x00, 0x0a]);
    assert_eq!(
        codec.decode(&mut src),
        Ok(Some(ClientToServerMessage::WantHeartbeat { interval: 10 }))
    );
    assert!(src.is_empty());
    assert_eq!(codec.decode(&mut src), Ok(None));
}

#[test]
fn decode_leaves_the_buffer_alone_on_an_error() {
    let mut codec = ClientToServerCodec;
    let mut src = BytesMut::from(&[0x77u8, 0x01, 0x02][..]);
    assert_eq!(codec.decode(&mut src), Err(CodecError::UnknownMessageType { tag: 0x77 }));
    assert_eq!(&src[..], &[0x77, 0x01, 0x02]);
}

#[test]
fn the_end_of_the_stream_inside_a_frame_is_a_truncation() {
    let mut codec = ClientToServerCodec;
    let mut src = BytesMut::from(&[0x20u8, 0x04, 0x55][..]);
    assert_eq!(codec.decode_eof(&mut src), Err(CodecError::Truncated));
    let mut src = BytesMut::new();
    assert_eq!(codec.decode_eof(&mut src), Ok(None));
    let mut src = BytesMut::from(&[0x40u8, 0x00, 0x00, 0x00, 0x0a][..]);
    assert_eq!(
        codec.decode_eof(&mut src),
        Ok(Some(ClientToServerMessage::WantHeartbeat { interval: 10 }))
    );
    assert_eq!(codec.decode_eof(&mut src), Ok(None));
    let mut server = ServerToClientCodec;
    let mut src = BytesMut::from(&TICKET_BYTES[..21]);
    assert_eq!(server.decode_eof(&mut src), Err(CodecError::Truncated));
    let mut src = BytesMut::from(&[0x55u8][..]);
    assert_eq!(server.decode_eof(&mut src), Err(CodecError::UnknownMessageType { tag: 0x55 }));
}

#[test]
fn encode_appends_to_what_the_buffer_holds() {
    let mut codec = ServerToClientCodec;
    let mut dst = BytesMut::new();
    assert_eq!(codec.encode(ServerToClientMessage::Heartbeat, &mut dst), Ok(()));
    assert_eq!(codec.encode(ticket(), &mut dst), Ok(()));
    assert_eq!(codec.encode(ServerToClientMessage::Error("bad".to_string()), &mut dst), Ok(()));
    let mut expected = vec![0x41];
    expected.extend_from_slice(&TICKET_BYTES);
    expected.extend_from_slice(&[0x10, 0x03, 0x62, 0x61, 0x64]);
    assert_eq!(&dst[..], &expected[..]);
    assert_eq!(codec.decode(&mut dst), Ok(Some(ServerToClientMessage::Heartbeat)));
    assert_eq!(codec.decode(&mut dst), Ok(Some(ticket())));
    assert_eq!(
        codec.decode(&mut dst),
        Ok(Some(ServerToClientMessage::Error("bad".to_string())))
    );
    assert!(dst.is_empty());
}

#[test]
fn what_one_codec_encodes_the_same_codec_decodes() {
    let mut codec = ClientToServerCodec;
    let mut wire = BytesMut::new();
    for message in client_messages() {
        assert_eq!(codec.encode(message, &mut wire), Ok(()));
    }
    for message in client_messages() {
        assert_eq!(codec.decode(&mut wire), Ok(Some(message)));
    }
    assert!(wire.is_empty());
}

#[test]
fn text_beyond_ascii_counts_by_its_bytes() {
    let frame = encode_client_message(&plate("Zürich", 5)).unwrap();
    assert_eq!(frame[1], 7);
    assert_eq!(&frame[2..9], "Zürich".as_bytes());
    let long = "ü".repeat(128);
    assert_eq!(encode_client_message(&plate(&long, 5)), Err(CodecError::FieldTooLong));
    let fits = "ü".repeat(127);
    assert_eq!(encode_client_message(&plate(&fits, 5)).unwrap().len(), 1 + 1 + 254 + 4);
}
