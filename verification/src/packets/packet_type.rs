//! Packet type codes of the MineChat protocol.
use vstd::prelude::*;

verus! {

/// `LINK` packet type (0x01) - Client → Server
pub const LINK: i32 = 0x01;

/// `LINK_OK` packet type (0x02) - Server → Client
pub const LINK_OK: i32 = 0x02;

/// `CAPABILITIES` packet type (0x03) - Client → Server
pub const CAPABILITIES: i32 = 0x03;

/// `AUTH_OK` packet type (0x04) - Server → Client
pub const AUTH_OK: i32 = 0x04;

/// `CHAT_MESSAGE` packet type (0x05) - Bidirectional
pub const CHAT_MESSAGE: i32 = 0x05;

/// `PING` packet type (0x06) - Bidirectional
pub const PING: i32 = 0x06;

/// `PONG` packet type (0x07) - Bidirectional
pub const PONG: i32 = 0x07;

/// `MODERATION` packet type (0x08) - Server → Client
pub const MODERATION: i32 = 0x08;

/// `SYSTEM_DISCONNECT` packet type (0x09) - Server → Client
pub const SYSTEM_DISCONNECT: i32 = 0x09;

} // verus!
