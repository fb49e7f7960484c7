use minechat_protocol::packets::{
    encode_varint, packet_type, ClientUuid, LinkCode, MessageFormat, MineChatPacket,
    MinecraftUuid, ModerationAction, ModerationScope, ValidationError,
};
use minechat_protocol::types::MessageContent;

#[test]
fn test_link_packet_serialization() {
    let packet = MineChatPacket::Link {
        linking_code: LinkCode::new("TEST123".to_string()).unwrap(),
        client_uuid: ClientUuid::new("550e8400-e29b-41d4-a716-446655440000".to_string())
            .unwrap(),
    };

    let bytes = packet.to_bytes().unwrap();

    // Verify the packet type is correct
    assert_eq!(packet.packet_type(), packet_type::LINK);

    // Verify we can deserialize it back
    let deserialized = MineChatPacket::from_bytes(&bytes).unwrap();
    assert_eq!(packet, deserialized);

    println!("LINK packet bytes: {:02X?}", &bytes);
}

#[test]
fn test_chat_message_serialization() {
    let packet = MineChatPacket::ChatMessage {
        format: MessageFormat::commonmark(),
        content: MessageContent::CommonMark("Hello, world!".to_string()),
    };

    let bytes = packet.to_bytes().unwrap();
    let deserialized = MineChatPacket::from_bytes(&bytes).unwrap();
    assert_eq!(packet, deserialized);
}

#[test]
fn test_ping_pong_distinction() {
    let ping = MineChatPacket::Ping { timestamp_ms: 12345 };
    let pong = MineChatPacket::Pong { timestamp_ms: 12345 };

    let ping_bytes = ping.to_bytes().unwrap();
    let pong_bytes = pong.to_bytes().unwrap();

    let ping_deserialized = MineChatPacket::from_bytes(&ping_bytes).unwrap();
    let pong_deserialized = MineChatPacket::from_bytes(&pong_bytes).unwrap();

    assert!(matches!(ping_deserialized, MineChatPacket::Ping { .. }));
    assert!(matches!(pong_deserialized, MineChatPacket::Pong { .. }));
}

#[test]
fn test_system_disconnect_serialization() {
    let packet = MineChatPacket::SystemDisconnect {
        reason_code: 0,
        message: "Server shutdown".to_string(),
    };

    let bytes = packet.to_bytes().unwrap();
    let deserialized = MineChatPacket::from_bytes(&bytes).unwrap();

    match deserialized {
        MineChatPacket::SystemDisconnect { reason_code, message } => {
            assert_eq!(reason_code, 0);
            assert_eq!(message, "Server shutdown");
        }
        _ => panic!("expected SystemDisconnect"),
    }
}

#[test]
fn test_moderation_serialization() {
    let packet = MineChatPacket::Moderation {
        action: ModerationAction::kick(),
        scope: ModerationScope::account(),
        reason: Some("Rule violation".to_string()),
        duration_seconds: None,
    };

    let bytes = packet.to_bytes().unwrap();
    let deserialized = MineChatPacket::from_bytes(&bytes).unwrap();

    match deserialized {
        MineChatPacket::Moderation { action, scope, reason, duration_seconds } => {
            assert_eq!(action.value(), 2); // KICK
            assert_eq!(scope.value(), 1); // ACCOUNT
            assert_eq!(reason, Some("Rule violation".to_string()));
            assert_eq!(duration_seconds, None);
        }
        _ => panic!("expected Moderation"),
    }
}

#[test]
fn test_auth_ok_serialization() {
    let packet = MineChatPacket::AuthOk;
    let bytes = packet.to_bytes().unwrap();
    let deserialized = MineChatPacket::from_bytes(&bytes).unwrap();
    assert_eq!(packet, deserialized);
}

#[test]
fn test_integer_keys_in_output() {
    let packet = MineChatPacket::Ping { timestamp_ms: 12345 };
    let bytes = packet.to_bytes().unwrap();

    // Verify that keys are integers (0 and 1), not strings
    // The first bytes should be: a2 00 06 01 ...
    // a2 = map(2), 00 = key 0, 06 = value 6 (PING), 01 = key 1
    assert!(bytes[0] == 0xa2, "Expected map(2) header");
    assert!(bytes[1] == 0x00, "Expected integer key 0");
    assert!(bytes[2] == 0x06, "Expected PING packet type (0x06)");
    assert!(bytes[3] == 0x01, "Expected integer key 1");

    println!("Integer key test passed. Bytes: {:02X?}", &bytes);
}

#[test]
fn payloads_are_maps_with_integer_keys() {
    let (t, payload) = MineChatPacket::Ping { timestamp_ms: 7 }.serialize_payload();
    assert_eq!(t, 0x06);
    assert_eq!(payload, vec![0xa1, 0x00, 0x07]);
    let (t, payload) = MineChatPacket::SystemDisconnect { reason_code: 2, message: "x".to_string() }
        .serialize_payload();
    assert_eq!(t, 0x09);
    assert_eq!(payload, vec![0xa2, 0x00, 0x02, 0x01, 0x61, b'x']);
    let (t, payload) = MineChatPacket::AuthOk.serialize_payload();
    assert_eq!(t, 0x04);
    assert_eq!(payload, vec![0xa0]);
}

// ---------------------------------------------------------------------------
// Exact bytes and round trips of every packet type
// ---------------------------------------------------------------------------

#[test]
fn ping_bytes_are_exact() {
    let bytes = MineChatPacket::Ping { timestamp_ms: 12345 }.to_bytes().unwrap();
    // { 0: 6, 1: { 0: 12345 } }
    assert_eq!(bytes, vec![0xa2, 0x00, 0x06, 0x01, 0xa1, 0x00, 0x19, 0x30, 0x39]);
}

#[test]
fn negative_timestamp_round_trips() {
    let packet = MineChatPacket::Pong { timestamp_ms: -5_000_000_000 };
    let bytes = packet.to_bytes().unwrap();
    assert_eq!(MineChatPacket::from_bytes(&bytes).unwrap(), packet);
}

#[test]
fn link_ok_round_trips() {
    let packet = MineChatPacket::LinkOk {
        minecraft_uuid: MinecraftUuid::new("069a79f4-44e9-4726-a5be-fca90e38aaf5".to_string())
            .unwrap(),
    };
    let bytes = packet.to_bytes().unwrap();
    assert_eq!(MineChatPacket::from_bytes(&bytes).unwrap(), packet);
    assert_eq!(packet.packet_type(), packet_type::LINK_OK);
}

#[test]
fn capabilities_round_trip() {
    let packet = MineChatPacket::Capabilities {
        supported_formats: vec!["commonmark".to_string(), "components".to_string()],
        preferred_format: Some("components".to_string()),
    };
    let bytes = packet.to_bytes().unwrap();
    assert_eq!(MineChatPacket::from_bytes(&bytes).unwrap(), packet);

    let without = MineChatPacket::Capabilities {
        supported_formats: vec![],
        preferred_format: None,
    };
    let bytes = without.to_bytes().unwrap();
    assert_eq!(MineChatPacket::from_bytes(&bytes).unwrap(), without);
}

#[test]
fn moderation_with_duration_round_trips() {
    let packet = MineChatPacket::Moderation {
        action: ModerationAction::ban(),
        scope: ModerationScope::client(),
        reason: None,
        duration_seconds: Some(3600),
    };
    let bytes = packet.to_bytes().unwrap();
    assert_eq!(MineChatPacket::from_bytes(&bytes).unwrap(), packet);
}

#[test]
fn components_chat_round_trips() {
    let json = "{\"text\":\"Hello\",\"color\":\"red\",\"bold\":true}".to_string();
    let packet = MineChatPacket::ChatMessage {
        format: MessageFormat::components(),
        content: MessageContent::Components(json),
    };
    let bytes = packet.to_bytes().unwrap();
    assert_eq!(MineChatPacket::from_bytes(&bytes).unwrap(), packet);
}

#[test]
fn packet_type_codes() {
    assert_eq!(MineChatPacket::AuthOk.packet_type(), 0x04);
    assert_eq!(MineChatPacket::Ping { timestamp_ms: 0 }.packet_type(), 0x06);
    assert_eq!(MineChatPacket::Pong { timestamp_ms: 0 }.packet_type(), 0x07);
    let d = MineChatPacket::SystemDisconnect { reason_code: 1, message: String::new() };
    assert_eq!(d.packet_type(), packet_type::SYSTEM_DISCONNECT);
}

// ---------------------------------------------------------------------------
// Reading refuses what is not a packet
// ---------------------------------------------------------------------------

fn deser_error(bytes: &[u8]) -> String {
    match MineChatPacket::from_bytes(bytes) {
        Err(ValidationError::Deserialization(m)) => m,
        other => panic!("expected a deserialization error, got {:?}", other),
    }
}

#[test]
fn truncated_input_is_malformed() {
    let bytes = MineChatPacket::AuthOk.to_bytes().unwrap();
    let m = deser_error(&bytes[..bytes.len() - 1]);
    assert_eq!(m, "CBOR error: malformed CBOR data item");
}

#[test]
fn non_map_envelope_is_refused() {
    // the integer 1
    assert_eq!(deser_error(&[0x01]), "expected map envelope");
}

#[test]
fn envelope_without_payload_is_refused() {
    // { 0: 4, 2: 0 }
    assert_eq!(deser_error(&[0xa2, 0x00, 0x04, 0x02, 0x00]), "missing payload");
    // { 1: {}, 2: 0 }
    assert_eq!(deser_error(&[0xa2, 0x01, 0xa0, 0x02, 0x00]), "missing packet_type");
}

#[test]
fn text_keys_are_accepted_in_the_envelope() {
    // { "0": 4, "1": {} }
    let bytes = [0xa2, 0x61, 0x30, 0x04, 0x61, 0x31, 0xa0];
    assert_eq!(MineChatPacket::from_bytes(&bytes).unwrap(), MineChatPacket::AuthOk);
}

#[test]
fn unknown_packet_type_is_refused() {
    // { 0: 0x20, 1: {} }
    let r = MineChatPacket::from_bytes(&[0xa2, 0x00, 0x18, 0x20, 0x01, 0xa0]);
    assert!(r.is_err());
}

#[test]
fn payload_field_names_are_accepted() {
    // { 0: 6, 1: { "timestamp_ms": 7 } }
    let mut bytes = vec![0xa2, 0x00, 0x06, 0x01, 0xa1, 0x6c];
    bytes.extend_from_slice(b"timestamp_ms");
    bytes.push(0x07);
    assert_eq!(
        MineChatPacket::from_bytes(&bytes).unwrap(),
        MineChatPacket::Ping { timestamp_ms: 7 }
    );
}

// ---------------------------------------------------------------------------
// Validated values
// ---------------------------------------------------------------------------

#[test]
fn message_format_accepts_only_known_formats() {
    assert_eq!(MessageFormat::new("commonmark".to_string()).unwrap().as_str(), "commonmark");
    assert_eq!(MessageFormat::new("components".to_string()).unwrap().as_str(), "components");
    let e = MessageFormat::new("html".to_string()).unwrap_err();
    assert_eq!(e, ValidationError::InvalidMessageFormat { format: "html".to_string() });
    assert_eq!(e.to_string(), "Invalid message format: html");
}

#[test]
fn link_code_length_limit() {
    assert_eq!(LinkCode::new(String::new()).unwrap().as_str(), "");
    let long = "x".repeat(100);
    assert_eq!(LinkCode::new(long.clone()).unwrap().as_str(), long);
    let e = LinkCode::new("x".repeat(101)).unwrap_err();
    assert_eq!(e, ValidationError::MessageTooLarge { size: 101, max_size: 100 });
    assert_eq!(e.to_string(), "Message too large: 101 bytes (max: 100)");
}

#[test]
fn uuids_are_checked() {
    let e = ClientUuid::new("not-a-uuid".to_string()).unwrap_err();
    assert_eq!(e.to_string(), "Invalid UUID: not-a-uuid");
    assert!(MinecraftUuid::new("zzz".to_string()).is_err());
    let generated = ClientUuid::generate();
    assert!(ClientUuid::new(generated.as_str().to_string()).is_ok());
}

#[test]
fn moderation_values_are_checked() {
    for v in 0..4 {
        assert_eq!(ModerationAction::new(v).unwrap().value(), v);
    }
    let e = ModerationAction::new(4).unwrap_err();
    assert_eq!(e.to_string(), "Invalid moderation action: 4 (must be 0-3)");
    assert_eq!(ModerationScope::new(1).unwrap().value(), 1);
    let e = ModerationScope::new(-1).unwrap_err();
    assert_eq!(e.to_string(), "Invalid moderation scope: -1 (must be 0-1)");
    assert_eq!(ModerationAction::warn().value(), 0);
    assert_eq!(ModerationAction::mute().value(), 1);
}

// ---------------------------------------------------------------------------
// Integer heads
// ---------------------------------------------------------------------------

#[test]
fn varint_encodings() {
    let enc = |v: i64| {
        let mut b = Vec::new();
        encode_varint(&mut b, v);
        b
    };
    assert_eq!(enc(0), vec![0x00]);
    assert_eq!(enc(23), vec![0x17]);
    assert_eq!(enc(24), vec![0x18, 0x18]);
    assert_eq!(enc(256), vec![0x19, 0x01, 0x00]);
    assert_eq!(enc(65536), vec![0x1a, 0x00, 0x01, 0x00, 0x00]);
    assert_eq!(enc(1 << 32), vec![0x1b, 0, 0, 0, 1, 0, 0, 0, 0]);
    assert_eq!(enc(-1), vec![0x20]);
    assert_eq!(enc(-25), vec![0x38, 0x18]);
    assert_eq!(enc(-257), vec![0x39, 0x01, 0x00]);
    assert_eq!(enc(-(1i64 << 32)), vec![0x3a, 0xff, 0xff, 0xff, 0xff]);
    assert_eq!(enc(-(1i64 << 32) - 1), vec![0x3b, 0, 0, 0, 1, 0, 0, 0, 0]);
    assert_eq!(enc(i64::MIN), vec![0x3b, 0x7f, 0xff, 0xff, 0xff, 0xff, 0xff, 0xff, 0xff]);
    assert_eq!(enc(i64::MAX), vec![0x1b, 0x7f, 0xff, 0xff, 0xff, 0xff, 0xff, 0xff, 0xff]);
    // appending keeps what was there
    let mut b = vec![0xaa];
    encode_varint(&mut b, -2);
    assert_eq!(b, vec![0xaa, 0x21]);
}

#[test]
fn every_uuid_form_is_accepted() {
    for ok in [
        "550e8400e29b41d4a716446655440000",
        "550E8400-E29B-41D4-A716-446655440000",
        "{550e8400-e29b-41d4-a716-446655440000}",
        "URN:uuid:550e8400-e29b-41d4-a716-446655440000",
    ] {
        assert!(ClientUuid::new(ok.to_string()).is_ok(), "{}", ok);
    }
    for bad in [
        "550e8400-e29b-41d4-a716-44665544000",
        "550e8400-e29b-41d4-a716_446655440000",
        "[550e8400-e29b-41d4-a716-446655440000]",
        "urn:uuix:550e8400-e29b-41d4-a716-446655440000",
        "550e8400e29b41d4a71644665544000g",
    ] {
        assert!(ClientUuid::new(bad.to_string()).is_err(), "{}", bad);
    }
}

#[test]
fn indefinite_lengths_are_read() {
    // {_ 0: 6, 1: {_ 0: 7 } }
    let bytes = [0xbf, 0x00, 0x06, 0x01, 0xbf, 0x00, 0x07, 0xff, 0xff];
    assert_eq!(
        MineChatPacket::from_bytes(&bytes).unwrap(),
        MineChatPacket::Ping { timestamp_ms: 7 }
    );
    // { 0: 9, 1: { 0: 2, 1: (_ "ov", "er") } }
    let bytes = [
        0xa2, 0x00, 0x09, 0x01, 0xa2, 0x00, 0x02, 0x01, 0x7f, 0x62, b'o', b'v', 0x62, b'e', b'r',
        0xff,
    ];
    assert_eq!(
        MineChatPacket::from_bytes(&bytes).unwrap(),
        MineChatPacket::SystemDisconnect { reason_code: 2, message: "over".to_string() }
    );
    // { 0: 3, 1: { 0: [_ "components"], 1: null } }
    let mut bytes = vec![0xa2, 0x00, 0x03, 0x01, 0xa2, 0x00, 0x9f, 0x6a];
    bytes.extend_from_slice(b"components");
    bytes.extend_from_slice(&[0xff, 0x01, 0xf6]);
    assert_eq!(
        MineChatPacket::from_bytes(&bytes).unwrap(),
        MineChatPacket::Capabilities {
            supported_formats: vec!["components".to_string()],
            preferred_format: None,
        }
    );
}
