use minechat_protocol::packets::MineChatPacket;
use minechat_protocol::protocol::MineChatError;
use minechat_protocol::stream::{
    check_frame_sizes, decode_frame, decode_frame_body, encode_frame, TokioMessageStream,
};

fn be32(b: &[u8]) -> u32 {
    u32::from_be_bytes([b[0], b[1], b[2], b[3]])
}

#[test]
fn frame_round_trips() {
    let packet = MineChatPacket::SystemDisconnect {
        reason_code: 3,
        message: "Overloaded, try again later".to_string(),
    };
    let frame = encode_frame(&packet).unwrap();
    let (back, used) = decode_frame(&frame).unwrap();
    assert_eq!(back, packet);
    assert_eq!(used, frame.len());
}

#[test]
fn frame_header_gives_both_sizes() {
    let packet = MineChatPacket::Ping { timestamp_ms: 42 };
    let cbor = packet.to_bytes().unwrap();
    let frame = encode_frame(&packet).unwrap();
    assert_eq!(be32(&frame[0..4]) as usize, cbor.len());
    assert_eq!(be32(&frame[4..8]) as usize, frame.len() - 8);
    // the payload is the zstd-compressed CBOR
    let body = zstd::stream::decode_all(&frame[8..]).unwrap();
    assert_eq!(body, cbor);
}

#[test]
fn bytes_after_a_frame_are_left_alone() {
    let first = encode_frame(&MineChatPacket::AuthOk).unwrap();
    let second = encode_frame(&MineChatPacket::Pong { timestamp_ms: 9 }).unwrap();
    let mut both = first.clone();
    both.extend_from_slice(&second);
    let (p1, n1) = decode_frame(&both).unwrap();
    assert_eq!(p1, MineChatPacket::AuthOk);
    assert_eq!(n1, first.len());
    let (p2, n2) = decode_frame(&both[n1..]).unwrap();
    assert_eq!(p2, MineChatPacket::Pong { timestamp_ms: 9 });
    assert_eq!(n2, second.len());
}

#[test]
fn sizes_must_be_positive() {
    assert_eq!(check_frame_sizes(10, 5), Ok(5));
    assert_eq!(check_frame_sizes(0, 5), Err(MineChatError::InvalidFrameSize(0)));
    assert_eq!(check_frame_sizes(7, 0), Err(MineChatError::InvalidFrameSize(7)));
    // sizes are unsigned: the top bit is part of the size
    assert_eq!(check_frame_sizes(1, 0x8000_0000), Ok(0x8000_0000));
    assert_eq!(check_frame_sizes(0xffff_fffe, 0), Err(MineChatError::InvalidFrameSize(-2)));
}

#[test]
fn short_frames_are_io_errors() {
    assert_eq!(
        decode_frame(&[0, 0, 0]).unwrap_err(),
        MineChatError::Io("unexpected end of file".to_string())
    );
    let frame = encode_frame(&MineChatPacket::AuthOk).unwrap();
    assert_eq!(
        decode_frame(&frame[..frame.len() - 1]).unwrap_err(),
        MineChatError::Io("early eof".to_string())
    );
}

#[test]
fn zero_size_header_is_refused() {
    let frame = [0, 0, 0, 0, 0, 0, 0, 4, 1, 2, 3, 4];
    assert_eq!(decode_frame(&frame).unwrap_err(), MineChatError::InvalidFrameSize(0));
    let empty_payload = [0xff, 0xff, 0xff, 0xfe, 0, 0, 0, 0, 0];
    assert_eq!(decode_frame(&empty_payload).unwrap_err(), MineChatError::InvalidFrameSize(-2));
    // a size with the top bit set is a large size, not a refused one
    let large = [0, 0, 0, 1, 0x80, 0, 0, 0, 0];
    assert_eq!(decode_frame(&large).unwrap_err(), MineChatError::Io("early eof".to_string()));
}

#[test]
fn size_mismatch_is_a_zstd_error() {
    let frame = encode_frame(&MineChatPacket::AuthOk).unwrap();
    let real = be32(&frame[0..4]);
    assert_eq!(
        decode_frame_body(real + 1, &frame[8..]).unwrap_err(),
        MineChatError::Zstd("Decompressed size mismatch".to_string())
    );
    assert_eq!(decode_frame_body(real, &frame[8..]).unwrap(), MineChatPacket::AuthOk);
}

#[test]
fn garbage_payload_is_a_zstd_error() {
    let r = decode_frame_body(4, &[1, 2, 3, 4]);
    assert!(matches!(r, Err(MineChatError::Zstd(_))));
}

#[test]
fn bad_cbor_is_a_serde_error() {
    let compressed = zstd::encode_all(&[0x01u8][..], 0).unwrap();
    let r = decode_frame_body(1, &compressed);
    assert_eq!(
        r.unwrap_err(),
        MineChatError::Serde("Deserialization error: expected map envelope".to_string())
    );
}

#[test]
fn message_stream_keeps_its_stream() {
    let mut s = TokioMessageStream::new(vec![1u8, 2, 3]);
    s.stream_mut().push(4);
    assert_eq!(s.into_inner(), vec![1, 2, 3, 4]);
}

#[test]
fn error_texts() {
    assert_eq!(MineChatError::InvalidFrameSize(-2).to_string(), "Invalid frame size: -2");
    assert_eq!(MineChatError::Zstd("x".to_string()).to_string(), "Zstd error: x");
    assert_eq!(MineChatError::Io("early eof".to_string()).to_string(), "I/O error: early eof");
    assert_eq!(MineChatError::ServerNotLinked.to_string(), "Server not linked");
    assert_eq!(MineChatError::Disconnected.to_string(), "Disconnected");
    assert_eq!(MineChatError::InvalidPacketType(128).to_string(), "Invalid packet type: 128");
    assert_eq!(
        MineChatError::AuthFailed("Expected AUTH_OK".to_string()).to_string(),
        "Authentication failed: Expected AUTH_OK"
    );
    assert_eq!(MineChatError::ConfigError("c".to_string()).to_string(), "Config error: c");
    assert_eq!(MineChatError::Serde("s".to_string()).to_string(), "Serde error: s");
    assert_eq!(MineChatError::SerdeJson("j".to_string()).to_string(), "Serde JSON error: j");
    assert_eq!(MineChatError::Uuid("u".to_string()).to_string(), "UUID error: u");
}
