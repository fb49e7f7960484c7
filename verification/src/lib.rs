//! MineChat Protocol Library
//!
//! The MineChat protocol: binary-framed, compressed client-server chat
//! communication with a Minecraft server.
//!
//! ## Key Modules
//!
//! - `packets`: Packet type definitions with serialization
//! - `payloads`: Typed payload structs for each packet type
//! - `cbor`: CBOR reading and writing with integer keys
//! - `cbor_tree`: CBOR data items as trees, and the normalisation of their map keys
//! - `stream`: Message framing (sizes, zstd compression) for byte streams
//! - `client`: Client-side protocol decisions (linking, authentication)
//! - `protocol`: Error types and protocol constants
//! - `tls`: Certificate pinning for TLS connections
//! - `types`: Message content
//! - `ansi`: ANSI escape code rendering for terminal colors
//! - `display`: Decimal text of integers

/// ANSI escape code rendering of text components
pub mod ansi;
/// CBOR reading and writing with spec-compliant integer keys
pub mod cbor;
/// CBOR data items as trees, and their key normalisation
pub mod cbor_tree;
/// Client-side protocol decisions (linking, authentication)
pub mod client;
/// Decimal text of integers
pub mod display;
/// Packet type definitions with serialization
pub mod packets;
/// Typed payload structs for each packet type
pub mod payloads;
/// Error types and protocol constants
pub mod protocol;
/// Message framing for byte streams
pub mod stream;
/// TLS certificate pinning
pub mod tls;
/// Type definitions for messages
pub mod types;

pub use ansi::component_to_ansi;
pub use stream::TokioMessageStream;
pub use tls::rustls::RustlsTlsMessageStream;

pub use protocol::{chat_format, moderation_action, moderation_scope, packet_types, MineChatError};

pub use types::MessageContent;

pub use packets::{
    packet_type, system_disconnect_reason, ClientUuid, LinkCode, MessageFormat,
    MineChatPacket as Packet, MinecraftUuid, ModerationAction, ModerationScope, ValidationError,
};
