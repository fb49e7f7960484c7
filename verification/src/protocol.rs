//! Protocol error types and constants.
use crate::display::{i64_text, int_text};
use vstd::prelude::*;

pub mod chat_format;
pub mod moderation_action;
pub mod moderation_scope;
pub mod packet_types;

verus! {

/// Errors that can occur during the operation of the MineChat protocol.
///
/// Where the error comes from another layer (I/O, CBOR, JSON, zstd, UUID
/// parsing), the variant holds that error's text.
#[derive(Debug, Clone, PartialEq)]
pub enum MineChatError {
    /// I/O error.
    Io(String),
    /// CBOR (de)serialization error.
    Serde(String),
    /// JSON (de)serialization error.
    SerdeJson(String),
    /// Zstd error.
    Zstd(String),
    /// Server not linked.
    ServerNotLinked,
    /// Configuration error.
    ConfigError(String),
    /// Authentication failed.
    AuthFailed(String),
    /// UUID error.
    Uuid(String),
    /// Disconnected.
    Disconnected,
    /// Invalid packet type.
    InvalidPacketType(i32),
    /// Invalid frame size.
    InvalidFrameSize(i32),
}

/// The view of a `MineChatError`: its texts as sequences of characters.
pub enum MineChatErrorView {
    Io(Seq<char>),
    Serde(Seq<char>),
    SerdeJson(Seq<char>),
    Zstd(Seq<char>),
    ServerNotLinked,
    ConfigError(Seq<char>),
    AuthFailed(Seq<char>),
    Uuid(Seq<char>),
    Disconnected,
    InvalidPacketType(i32),
    InvalidFrameSize(i32),
}

impl View for MineChatError {
    type V = MineChatErrorView;

    open spec fn view(&self) -> MineChatErrorView {
        match self {
            MineChatError::Io(m) => MineChatErrorView::Io(m@),
            MineChatError::Serde(m) => MineChatErrorView::Serde(m@),
            MineChatError::SerdeJson(m) => MineChatErrorView::SerdeJson(m@),
            MineChatError::Zstd(m) => MineChatErrorView::Zstd(m@),
            MineChatError::ServerNotLinked => MineChatErrorView::ServerNotLinked,
            MineChatError::ConfigError(m) => MineChatErrorView::ConfigError(m@),
            MineChatError::AuthFailed(m) => MineChatErrorView::AuthFailed(m@),
            MineChatError::Uuid(m) => MineChatErrorView::Uuid(m@),
            MineChatError::Disconnected => MineChatErrorView::Disconnected,
            MineChatError::InvalidPacketType(t) => MineChatErrorView::InvalidPacketType(*t),
            MineChatError::InvalidFrameSize(n) => MineChatErrorView::InvalidFrameSize(*n),
        }
    }
}

impl MineChatErrorView {
    /// The text of the error.
    pub open spec fn message(self) -> Seq<char> {
        match self {
            MineChatErrorView::Io(m) => "I/O error: "@ + m,
            MineChatErrorView::Serde(m) => "Serde error: "@ + m,
            MineChatErrorView::SerdeJson(m) => "Serde JSON error: "@ + m,
            MineChatErrorView::Zstd(m) => "Zstd error: "@ + m,
            MineChatErrorView::ServerNotLinked => "Server not linked"@,
            MineChatErrorView::ConfigError(m) => "Config error: "@ + m,
            MineChatErrorView::AuthFailed(m) => "Authentication failed: "@ + m,
            MineChatErrorView::Uuid(m) => "UUID error: "@ + m,
            MineChatErrorView::Disconnected => "Disconnected"@,
            MineChatErrorView::InvalidPacketType(t) => "Invalid packet type: "@ + int_text(
                t as int,
            ),
            MineChatErrorView::InvalidFrameSize(n) => "Invalid frame size: "@ + int_text(n as int),
        }
    }
}

/// `prefix` followed by `rest`.
fn prefixed(prefix: &str, rest: &str) -> (r: String)
    ensures
        r@ == prefix@ + rest@,
{
    let mut r = String::from_str(prefix);
    r.append(rest);
    r
}

impl MineChatError {
    /// The text of the error.
    pub fn to_string(&self) -> (r: String)
        ensures
            r@ == self@.message(),
    {
        match self {
            MineChatError::Io(m) => prefixed("I/O error: ", m.as_str()),
            MineChatError::Serde(m) => prefixed("Serde error: ", m.as_str()),
            MineChatError::SerdeJson(m) => prefixed("Serde JSON error: ", m.as_str()),
            MineChatError::Zstd(m) => prefixed("Zstd error: ", m.as_str()),
            MineChatError::ServerNotLinked => String::from_str("Server not linked"),
            MineChatError::ConfigError(m) => prefixed("Config error: ", m.as_str()),
            MineChatError::AuthFailed(m) => prefixed("Authentication failed: ", m.as_str()),
            MineChatError::Uuid(m) => prefixed("UUID error: ", m.as_str()),
            MineChatError::Disconnected => String::from_str("Disconnected"),
            MineChatError::InvalidPacketType(t) => {
                let n = i64_text(*t as i64);
                prefixed("Invalid packet type: ", n.as_str())
            },
            MineChatError::InvalidFrameSize(s) => {
                let n = i64_text(*s as i64);
                prefixed("Invalid frame size: ", n.as_str())
            },
        }
    }
}

} // verus!
