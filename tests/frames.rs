use kagikachi::errors::SocketError;
use kagikachi::frame::{decode_frame, Opcode, Payload};
use kagikachi::response::Response;
use kagikachi::server::{dispatch, on_read, Dispatch};

#[test]
fn text_frame_of_130_bytes_round_trips() {
    let text: String = std::iter::repeat('q').take(130).collect();
    let mask = [1u8, 2, 3, 4];
    let bytes = Response::builder().set_body(Payload::Text(text.clone())).set_mask(mask).build();
    assert_eq!(bytes[0], 0x81);
    assert_eq!(bytes[1], 0x80 | 126);
    assert_eq!(bytes[2], 0);
    assert_eq!(bytes[3], 130);
    assert_eq!(&bytes[4..8], &mask);
    assert_eq!(bytes[8], b'q' ^ 1);
    assert_eq!(bytes.len(), 8 + 130);
    let f = decode_frame(&bytes).unwrap();
    assert!(f.opcode == Opcode::Text);
    assert_eq!(f.length, 130);
    assert_eq!(f.mask, Some(mask));
    assert!(matches!(f.payload, Payload::Text(ref s) if *s == text));
    assert_eq!(f.payload.bytes(), text.into_bytes());
}

#[test]
fn short_and_long_length_forms() {
    let b = Response::builder().set_body(Payload::Binary(vec![7; 5])).build();
    assert_eq!(b, vec![0x82, 5, 7, 7, 7, 7, 7]);
    let b = Response::builder().set_body(Payload::Binary(vec![0; 70000])).build();
    assert_eq!(b[1], 127);
    assert_eq!(&b[2..10], &[0, 0, 0, 0, 0, 1, 0x11, 0x70]);
    let f = decode_frame(&b).unwrap();
    assert_eq!(f.length, 70000);
    assert!(f.mask.is_none());
}

#[test]
fn decode_errors() {
    assert!(matches!(decode_frame(&[0x81]), Err(SocketError::CannotReadPayload)));
    assert!(matches!(decode_frame(&[0x81, 0xFE, 0]), Err(SocketError::CannotReadPayload)));
    assert!(matches!(decode_frame(&[0x81, 0x83, 1, 2]), Err(SocketError::CannotReadPayload)));
    assert!(matches!(decode_frame(&[0x81, 3, b'a']), Err(SocketError::InvalidFrame)));
    assert!(matches!(decode_frame(&[0x83, 0]), Err(SocketError::InvalidFrame)));
    assert!(matches!(decode_frame(&[0x81, 1, 0xFF]), Err(SocketError::InvalidFrame)));
    assert_eq!(SocketError::InvalidFrame.as_str(), "Invalid frame");
}

#[test]
fn ping_gets_pong_with_same_payload_and_mask() {
    let ping = [0x89u8, 0x82, 9, 8, 7, 6, b'h' ^ 9, b'i' ^ 8];
    let f = decode_frame(&ping).unwrap();
    assert!(f.opcode == Opcode::Ping);
    match dispatch(f) {
        Dispatch::Pong(bytes) => assert_eq!(bytes, vec![0x8A, 0x82, 9, 8, 7, 6, b'h' ^ 9, b'i' ^ 8]),
        _ => panic!("expected a pong"),
    }
    let close = decode_frame(&[0x88, 0]).unwrap();
    assert!(matches!(dispatch(close), Dispatch::Close));
    let text = decode_frame(&[0x81, 4, b'P', b'I', b'N', b'G']).unwrap();
    assert!(matches!(dispatch(text), Dispatch::Command(_)));
}

#[test]
fn opcode_codes() {
    assert_eq!(Opcode::Pong.to_u8(), 10);
    assert!(Opcode::from_u8(8) == Some(Opcode::ConnectionClosed));
    assert!(Opcode::from_u8(3).is_none());
}

#[test]
fn read_errors_are_reported() {
    assert!(matches!(on_read(Err(SocketError::CannotReadPayload)), Dispatch::Report(SocketError::CannotReadPayload)));
    assert!(matches!(on_read(Err(SocketError::InvalidFrame)), Dispatch::Report(SocketError::InvalidFrame)));
    assert!(matches!(on_read(Err(SocketError::ConnectionClosed)), Dispatch::Stop(SocketError::ConnectionClosed)));
    let text = decode_frame(&[0x81, 2, b'o', b'k']);
    assert!(matches!(on_read(text), Dispatch::Command(_)));
}

#[test]
fn payload_kind_follows_opcode() {
    let t = decode_frame(&[0x81, 2, b'o', b'k']).unwrap();
    assert!(matches!(t.payload, Payload::Text(ref s) if s == "ok"));
    let b = decode_frame(&[0x82, 2, b'o', b'k']).unwrap();
    assert!(matches!(b.payload, Payload::Binary(ref v) if v == &vec![b'o', b'k']));
}
