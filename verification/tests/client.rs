use minechat_protocol::client::{
    auth_ok_response, chat_message_request, link_request, link_response,
};
use minechat_protocol::packets::{MessageFormat, MineChatPacket, MinecraftUuid};
use minechat_protocol::protocol::MineChatError;
use minechat_protocol::types::MessageContent;

const UUID: &str = "550e8400-e29b-41d4-a716-446655440000";

#[test]
fn link_with_known_uuid() {
    let (packet, id) = link_request(Some(UUID.to_string()), "ABC123").unwrap();
    assert_eq!(id, UUID);
    match packet {
        MineChatPacket::Link { linking_code, client_uuid } => {
            assert_eq!(linking_code.as_str(), "ABC123");
            assert_eq!(client_uuid.as_str(), UUID);
        }
        other => panic!("expected LINK, got {:?}", other),
    }
}

#[test]
fn link_generates_a_uuid_when_new() {
    let (packet, id) = link_request(None, "ABC123").unwrap();
    assert!(uuid::Uuid::parse_str(&id).is_ok());
    assert_eq!(id.len(), 36);
    assert_eq!(id.as_bytes()[14], b'4');
    assert!(matches!(id.as_bytes()[19], b'8' | b'9' | b'a' | b'b'));
    assert_eq!(id, id.to_lowercase());
    match packet {
        MineChatPacket::Link { client_uuid, .. } => assert_eq!(client_uuid.as_str(), id),
        other => panic!("expected LINK, got {:?}", other),
    }
}

#[test]
fn reconnection_needs_a_uuid() {
    assert_eq!(
        link_request(None, "").unwrap_err(),
        MineChatError::AuthFailed("Reconnection requires a client UUID".to_string())
    );
    // with a UUID, an empty code reconnects
    let (packet, _) = link_request(Some(UUID.to_string()), "").unwrap();
    assert!(matches!(packet, MineChatPacket::Link { .. }));
}

#[test]
fn bad_link_inputs_are_config_errors() {
    assert_eq!(
        link_request(Some(UUID.to_string()), &"x".repeat(101)).unwrap_err(),
        MineChatError::ConfigError(
            "invalid link code: Message too large: 101 bytes (max: 100)".to_string()
        )
    );
    assert_eq!(
        link_request(Some("nope".to_string()), "ABC").unwrap_err(),
        MineChatError::ConfigError("invalid client UUID: Invalid UUID: nope".to_string())
    );
}

#[test]
fn link_ok_answers_the_link() {
    let answer = MineChatPacket::LinkOk {
        minecraft_uuid: MinecraftUuid::new("069a79f4-44e9-4726-a5be-fca90e38aaf5".to_string())
            .unwrap(),
    };
    let (c, m) = link_response(UUID.to_string(), &answer).unwrap();
    assert_eq!(c, UUID);
    assert_eq!(m, "069a79f4-44e9-4726-a5be-fca90e38aaf5");
    assert_eq!(
        link_response(UUID.to_string(), &MineChatPacket::AuthOk).unwrap_err(),
        MineChatError::AuthFailed("Unexpected response".to_string())
    );
}

#[test]
fn auth_ok_completes_authentication() {
    assert_eq!(auth_ok_response(&MineChatPacket::AuthOk), Ok(()));
    assert_eq!(
        auth_ok_response(&MineChatPacket::Ping { timestamp_ms: 1 }).unwrap_err(),
        MineChatError::AuthFailed("Expected AUTH_OK".to_string())
    );
}

#[test]
fn chat_messages_carry_commonmark() {
    let p = chat_message_request("components", "**hi**").unwrap();
    assert_eq!(
        p,
        MineChatPacket::ChatMessage {
            format: MessageFormat::components(),
            content: MessageContent::CommonMark("**hi**".to_string()),
        }
    );
    assert_eq!(
        chat_message_request("html", "x").unwrap_err(),
        MineChatError::ConfigError("invalid format: Invalid message format: html".to_string())
    );
}
