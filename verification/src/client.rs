//! Client-side protocol decisions: which packet to send at each step of the
//! handshake and of a session, and what the server's answers mean.
//!
//! Sending and receiving the packets is left to a message stream.
use crate::packets::{
    hyphenated_v4, link_code_ok, uuid_parses, ClientUuid, LinkCode, MessageFormat, MineChatPacket, PacketView,
    ValidationErrorView, MAX_LINK_CODE_LEN,
};
use crate::protocol::{MineChatError, MineChatErrorView};
use crate::types::{ContentView, MessageContent};
use vstd::prelude::*;
use vstd::utf8::encode_utf8;

verus! {

/// The error for a link code that does not fit.
pub open spec fn bad_link_code_error(code: Seq<char>) -> MineChatErrorView {
    MineChatErrorView::ConfigError(
        "invalid link code: "@ + (ValidationErrorView::MessageTooLarge {
            size: (#[verifier::truncate] (encode_utf8(code).len() as usize)),
            max_size: MAX_LINK_CODE_LEN,
        }).message(),
    )
}

/// The error for a client UUID that does not parse.
pub open spec fn bad_client_uuid_error(uuid: Seq<char>) -> MineChatErrorView {
    MineChatErrorView::ConfigError(
        "invalid client UUID: "@ + (ValidationErrorView::InvalidUuid { value: uuid }).message(),
    )
}

/// `prefix` followed by `rest`.
fn prefixed(prefix: &str, rest: &str) -> (r: String)
    ensures
        r@ == prefix@ + rest@,
{
    let mut r = String::from_str(prefix);
    r.append(rest);
    r
}

/// Builds the `LINK` packet that starts linking with the server, and gives
/// the client UUID it carries.
///
/// Without a client UUID a new random one is generated, except when the link
/// code is empty: reconnecting needs the UUID of an earlier link.
pub fn link_request(client_uuid: Option<String>, code: &str) -> (r: Result<
    (MineChatPacket, String),
    MineChatError,
>)
    ensures
        client_uuid is None && code@.len() == 0 ==> (r matches Err(e) && e@
            == MineChatErrorView::AuthFailed("Reconnection requires a client UUID"@)),
        !(client_uuid is None && code@.len() == 0) && !link_code_ok(code@) ==> (r matches Err(e)
            && e@ == bad_link_code_error(code@)),
        client_uuid matches Some(u) ==> (link_code_ok(code@) && !uuid_parses(u@) ==> (r matches Err(
            e,
        ) && e@ == bad_client_uuid_error(u@))),
        client_uuid matches Some(u) ==> (link_code_ok(code@) && uuid_parses(u@) ==> (r matches Ok(
            (p, id),
        ) && id@ == u@ && p@ == (PacketView::Link { linking_code: code@, client_uuid: u@ }))),
        link_code_ok(code@) && client_uuid is None && code@.len() > 0 ==> (r matches Ok((p, id))
            && uuid_parses(id@) && hyphenated_v4(id@) && p@ == (PacketView::Link {
            linking_code: code@,
            client_uuid: id@,
        })),
{
    if client_uuid.is_none() && code.unicode_len() == 0 {
        return Err(MineChatError::AuthFailed(String::from_str("Reconnection requires a client UUID")));
    }
    let linking_code = match LinkCode::new(code.to_string()) {
        Ok(c) => c,
        Err(e) => {
            let m = e.to_string();
            return Err(MineChatError::ConfigError(prefixed("invalid link code: ", m.as_str())));
        },
    };
    let client_uuid = match client_uuid {
        Some(u) => match ClientUuid::new(u) {
            Ok(id) => id,
            Err(e) => {
                let m = e.to_string();
                return Err(
                    MineChatError::ConfigError(prefixed("invalid client UUID: ", m.as_str())),
                );
            },
        },
        None => ClientUuid::generate(),
    };
    let id = client_uuid.as_str().to_string();
    Ok((MineChatPacket::Link { linking_code, client_uuid }, id))
}

/// Reads the server's answer to a `LINK` packet: `LINK_OK` gives the client
/// UUID and the Minecraft UUID of the linked account; anything else fails.
pub fn link_response(client_uuid: String, response: &MineChatPacket) -> (r: Result<
    (String, String),
    MineChatError,
>)
    ensures
        response@ matches PacketView::LinkOk { minecraft_uuid } ==> (r matches Ok((c, m)) && c@
            == client_uuid@ && m@ == minecraft_uuid),
        !(response@ is LinkOk) ==> (r matches Err(e) && e@ == MineChatErrorView::AuthFailed(
            "Unexpected response"@,
        )),
{
    match response {
        MineChatPacket::LinkOk { minecraft_uuid } => {
            Ok((client_uuid, minecraft_uuid.as_str().to_string()))
        },
        _ => Err(MineChatError::AuthFailed(String::from_str("Unexpected response"))),
    }
}

/// Reads the packet that should complete authentication: `AUTH_OK`.
pub fn auth_ok_response(response: &MineChatPacket) -> (r: Result<(), MineChatError>)
    ensures
        response@ is AuthOk ==> r is Ok,
        !(response@ is AuthOk) ==> (r matches Err(e) && e@ == MineChatErrorView::AuthFailed(
            "Expected AUTH_OK"@,
        )),
{
    match response {
        MineChatPacket::AuthOk => Ok(()),
        _ => Err(MineChatError::AuthFailed(String::from_str("Expected AUTH_OK"))),
    }
}

/// Builds the `CHAT_MESSAGE` packet for `content` in the given format; the
/// content is carried as CommonMark text.
pub fn chat_message_request(format: &str, content: &str) -> (r: Result<
    MineChatPacket,
    MineChatError,
>)
    ensures
        crate::packets::is_format(format@) ==> (r matches Ok(p) && p@ == (PacketView::ChatMessage {
            format: format@,
            content: ContentView::CommonMark(content@),
        })),
        !crate::packets::is_format(format@) ==> (r matches Err(e) && e@
            == MineChatErrorView::ConfigError(
            "invalid format: "@ + (ValidationErrorView::InvalidMessageFormat {
                format: format@,
            }).message(),
        )),
{
    let format = match MessageFormat::new(format.to_string()) {
        Ok(f) => f,
        Err(e) => {
            let m = e.to_string();
            return Err(MineChatError::ConfigError(prefixed("invalid format: ", m.as_str())));
        },
    };
    Ok(MineChatPacket::ChatMessage { format, content: MessageContent::CommonMark(content.to_string()) })
}

} // verus!
