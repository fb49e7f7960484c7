use kyori_component_json::{Color, Component, NamedColor};
use minechat_protocol::packets::{MessageFormat, MineChatPacket};
use minechat_protocol::types::MessageContent;

fn through_packet(format: MessageFormat, content: MessageContent) -> MessageContent {
    let packet = MineChatPacket::ChatMessage { format, content };
    let bytes = packet.to_bytes().unwrap();
    match MineChatPacket::from_bytes(&bytes).unwrap() {
        MineChatPacket::ChatMessage { content, .. } => content,
        other => panic!("expected CHAT_MESSAGE, got {:?}", other),
    }
}

#[test]
fn test_message_content_commonmark_serialization() {
    let content = MessageContent::CommonMark("Hello, world!".to_string());
    let deserialized = through_packet(MessageFormat::commonmark(), content);
    assert!(matches!(deserialized, MessageContent::CommonMark(_)));
}

#[test]
fn test_message_content_components_serialization() {
    let component = Component::text("Hello")
        .color(Some(Color::Named(NamedColor::Red)))
        .decoration(kyori_component_json::TextDecoration::Bold, Some(true));
    let content = MessageContent::components(serde_json::to_string(&component).unwrap());

    let deserialized = through_packet(MessageFormat::components(), content);

    assert!(matches!(deserialized, MessageContent::Components(_)));
}

#[test]
fn plain_text_of_contents() {
    let c = MessageContent::commonmark("**bold**".to_string());
    assert_eq!(c.to_plain_text(), "**bold**");
    let json = serde_json::to_string(&Component::text("Hi there")).unwrap();
    assert_eq!(MessageContent::components(json).to_plain_text(), "Hi there");
    // text that is not a component is shown as it is
    assert_eq!(MessageContent::components("{oops".to_string()).to_plain_text(), "{oops");
}

#[test]
fn cbor_string_is_the_carried_text() {
    assert_eq!(MessageContent::commonmark("x".to_string()).to_cbor_string(), "x");
    assert_eq!(MessageContent::components("{\"text\":\"y\"}".to_string()).to_cbor_string(), "{\"text\":\"y\"}");
}

#[test]
fn components_text_that_is_not_json_reads_back_as_a_text_component() {
    let packet = MineChatPacket::ChatMessage {
        format: MessageFormat::components(),
        content: MessageContent::Components("not json".to_string()),
    };
    let bytes = packet.to_bytes().unwrap();
    let expected = serde_json::to_string(&Component::text("not json")).unwrap();
    assert_ne!(expected, "not json");
    match MineChatPacket::from_bytes(&bytes).unwrap() {
        MineChatPacket::ChatMessage { content, .. } => {
            assert_eq!(content, MessageContent::Components(expected))
        }
        other => panic!("expected CHAT_MESSAGE, got {:?}", other),
    }
}

#[test]
fn commonmark_format_keeps_text_as_commonmark() {
    // content written as a component but sent under "commonmark" reads back as text
    let json = "{\"text\":\"x\"}".to_string();
    let packet = MineChatPacket::ChatMessage {
        format: MessageFormat::commonmark(),
        content: MessageContent::Components(json.clone()),
    };
    let bytes = packet.to_bytes().unwrap();
    match MineChatPacket::from_bytes(&bytes).unwrap() {
        MineChatPacket::ChatMessage { content, .. } => {
            assert_eq!(content, MessageContent::CommonMark(json))
        }
        other => panic!("expected CHAT_MESSAGE, got {:?}", other),
    }
}

#[test]
fn components_constructor_wraps_text_that_is_not_a_component() {
    let wrapped = MessageContent::components("{oops".to_string());
    let expected = serde_json::to_string(&Component::text("{oops")).unwrap();
    assert_eq!(wrapped, MessageContent::Components(expected));
    // and such content reads back unchanged through a packet
    let back = through_packet(MessageFormat::components(), wrapped.clone());
    assert_eq!(back, wrapped);
    // component JSON is kept as it is
    let json = "{\"text\":\"y\",\"bold\":true}".to_string();
    assert_eq!(MessageContent::components(json.clone()), MessageContent::Components(json));
}

#[test]
fn wrapped_text_is_escaped_as_json() {
    let wrapped = MessageContent::components("a\"b\\c\nd\u{1}é".to_string());
    assert_eq!(
        wrapped,
        MessageContent::Components("{\"text\":\"a\\\"b\\\\c\\nd\\u0001é\"}".to_string())
    );
    assert_eq!(wrapped.to_plain_text(), "a\"b\\c\nd\u{1}é");
}
