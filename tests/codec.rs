use speed_daemon::codec::{
    decode_inbound, encode_error, encode_heartbeat, encode_ticket, DecodeStep, InboundMessage,
    Ticket,
};

fn decoded(buf: &[u8]) -> (InboundMessage, usize) {
    match decode_inbound(buf) {
        DecodeStep::Message { msg, used } => (msg, used),
        other => panic!("expected a message, got {:?}", matches!(other, DecodeStep::Incomplete)),
    }
}

#[test]
fn decode_plate() {
    let buf = [0x20, 0x04, b'U', b'N', b'1', b'X', 0x00, 0x00, 0x03, 0xe8, 0xff];
    let (msg, used) = decoded(&buf);
    assert_eq!(used, 10);
    match msg {
        InboundMessage::Plate { plate, timestamp } => {
            assert_eq!(plate, b"UN1X".to_vec());
            assert_eq!(timestamp, 1000);
        }
        _ => panic!("wrong kind"),
    }
}

#[test]
fn decode_want_heartbeat() {
    let (msg, used) = decoded(&[0x40, 0x00, 0x00, 0x04, 0xdb]);
    assert_eq!(used, 5);
    assert!(matches!(msg, InboundMessage::WantHeartbeat { interval: 1243 }));
}

#[test]
fn decode_i_am_camera() {
    let (msg, used) = decoded(&[0x80, 0x00, 0x42, 0x00, 0x64, 0x00, 0x3c]);
    assert_eq!(used, 7);
    assert!(matches!(msg, InboundMessage::IAmCamera { road: 66, mile: 100, limit: 60 }));
}

#[test]
fn decode_i_am_dispatcher() {
    let (msg, used) = decoded(&[0x81, 0x03, 0x00, 0x42, 0x01, 0x70, 0x13, 0x88]);
    assert_eq!(used, 8);
    match msg {
        InboundMessage::IAmDispatcher { roads } => assert_eq!(roads, vec![66, 368, 5000]),
        _ => panic!("wrong kind"),
    }
}

#[test]
fn decode_dispatcher_without_roads() {
    let (msg, used) = decoded(&[0x81, 0x00]);
    assert_eq!(used, 2);
    match msg {
        InboundMessage::IAmDispatcher { roads } => assert!(roads.is_empty()),
        _ => panic!("wrong kind"),
    }
}

#[test]
fn decode_empty_is_clean_end() {
    assert!(matches!(decode_inbound(&[]), DecodeStep::Empty));
}

#[test]
fn decode_unknown_tag() {
    assert!(matches!(decode_inbound(&[0x99, 0x00]), DecodeStep::UnknownTag));
    assert!(matches!(decode_inbound(&[0x10]), DecodeStep::UnknownTag));
}

#[test]
fn decode_truncated_is_incomplete() {
    assert!(matches!(decode_inbound(&[0x20]), DecodeStep::Incomplete));
    assert!(matches!(decode_inbound(&[0x20, 0x02, b'A', b'B', 0x00]), DecodeStep::Incomplete));
    assert!(matches!(decode_inbound(&[0x40, 0x00, 0x00]), DecodeStep::Incomplete));
    assert!(matches!(decode_inbound(&[0x80, 0x00, 0x42, 0x00, 0x64, 0x00]), DecodeStep::Incomplete));
    assert!(matches!(decode_inbound(&[0x81, 0x02, 0x00, 0x42, 0x01]), DecodeStep::Incomplete));
}

#[test]
fn encode_ticket_bytes() {
    let t = Ticket {
        plate: b"UN1X".to_vec(),
        road: 66,
        mile1: 100,
        timestamp1: 123456,
        mile2: 110,
        timestamp2: 123816,
        speed: 10000,
    };
    assert_eq!(
        encode_ticket(&t),
        vec![
            0x21, 0x04, b'U', b'N', b'1', b'X', 0x00, 0x42, 0x00, 0x64, 0x00, 0x01, 0xe2, 0x40,
            0x00, 0x6e, 0x00, 0x01, 0xe3, 0xa8, 0x27, 0x10
        ]
    );
}

#[test]
fn encode_error_bytes() {
    assert_eq!(encode_error("bad"), vec![0x10, 0x03, b'b', b'a', b'd']);
    assert_eq!(encode_error(""), vec![0x10, 0x00]);
}

#[test]
fn encode_error_clips_long_text() {
    let text = "x".repeat(300);
    let bytes = encode_error(&text);
    assert_eq!(bytes.len(), 257);
    assert_eq!(bytes[1], 255);
}

#[test]
fn encode_heartbeat_byte() {
    assert_eq!(encode_heartbeat(), vec![0x41]);
}

#[test]
fn decode_plate_not_utf8_is_invalid() {
    assert!(matches!(
        decode_inbound(&[0x20, 0x01, 0xff, 0x00, 0x00, 0x00, 0x00]),
        DecodeStep::InvalidPlate
    ));
    assert!(matches!(
        decode_inbound(&[0x20, 0x02, 0xc3, 0x28, 0x00, 0x00, 0x00, 0x01, 0x40]),
        DecodeStep::InvalidPlate
    ));
}

#[test]
fn decode_plate_not_utf8_but_truncated_is_incomplete() {
    assert!(matches!(decode_inbound(&[0x20, 0x01, 0xff, 0x00]), DecodeStep::Incomplete));
}

#[test]
fn decode_plate_multibyte_utf8() {
    let (msg, used) = decoded(&[0x20, 0x02, 0xc3, 0xa9, 0x00, 0x00, 0x00, 0x07]);
    assert_eq!(used, 8);
    match msg {
        InboundMessage::Plate { plate, timestamp } => {
            assert_eq!(plate, "é".as_bytes().to_vec());
            assert_eq!(timestamp, 7);
        }
        _ => panic!("wrong kind"),
    }
}
