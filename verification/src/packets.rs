//! MineChat packet types and serialization.
//!
//! Each packet consists of an envelope with a packet type identifier and a
//! typed payload. All packets are serialized as CBOR maps with integer keys:
//!
//! ```cbor
//! { 0: packet_type, 1: payload }
//! ```
//!
//! The payload structure varies by packet type.
use crate::cbor::{
    envelope_bytes, definite_bytes, definite_lengths, skip_item, made_definite,
    lemma_indefinite_map_made_definite, lemma_made_definite_bytes, lemma_small_int_made_definite,
    concat_all,
    entries_bytes, envelope_key, item_end, item_everywhere, lemma_head_roundtrip, lemma_int_everywhere,
    lemma_int_item, lemma_map_item, lemma_occurs_split, lemma_text_array_everywhere,
    lemma_text_everywhere, lemma_null_everywhere, occurs_at, spec_head, wrap_i32, EnvelopeKey,
    MAX_NESTING, text_bytes, null_bytes, array_bytes, text_items,
    be_bytes, head_bytes,
    deserialize_envelope, encode_head, int_bytes, map_bytes, push_bytes, spec_envelope, texts_fit,
    string_views, CborError, CborErrorView,
};
use crate::display::{decimal, i64_text, int_text, u64_text};
use crate::payloads::{
    lemma_capabilities_roundtrip, lemma_chat_roundtrip, lemma_disconnect_roundtrip,
    lemma_entries_two, lemma_link_ok_roundtrip, lemma_link_roundtrip, lemma_moderation_roundtrip,
    lemma_timestamp_roundtrip, int_entry, text_entry, opt_text_bytes,
    capabilities_entries, capabilities_from, chat_entries, chat_from, disconnect_entries,
    disconnect_from, fits, link_entries, link_from, link_ok_entries, link_ok_from,
    moderation_entries, moderation_from, opt_view, timestamp_entries, timestamp_from,
    AuthOkPayload, CapabilitiesPayload, ChatMessagePayload, LinkOkPayload, LinkPayload,
    ModerationPayload, PingPayload, PongPayload, SystemDisconnectPayload,
};
use crate::types::{
    component_json_plain_text, content_text, is_component_json, text_component,
    text_component_json, ContentView, MessageContent,
};
use vstd::prelude::*;
use vstd::utf8::encode_utf8;

pub mod packet_type;
pub mod system_disconnect_reason;

verus! {

// ---------------------------------------------------------------------------
// Validation errors
// ---------------------------------------------------------------------------

/// Error type for packet validation
#[derive(Debug, Clone, PartialEq)]
pub enum ValidationError {
    /// Invalid message format
    InvalidMessageFormat {
        /// The invalid format value
        format: String,
    },
    /// Invalid UUID format
    InvalidUuid {
        /// The invalid UUID value
        value: String,
    },
    /// Invalid moderation action value
    InvalidAction {
        /// The invalid action value
        action: i32,
    },
    /// Invalid moderation scope value
    InvalidScope {
        /// The invalid scope value
        scope: i32,
    },
    /// Message content exceeds maximum size
    MessageTooLarge {
        /// Actual message size in bytes
        size: usize,
        /// Maximum allowed size in bytes
        max_size: usize,
    },
    /// Serialization error
    Serialization(String),
    /// Deserialization error
    Deserialization(String),
}

/// The view of a `ValidationError`.
pub enum ValidationErrorView {
    InvalidMessageFormat { format: Seq<char> },
    InvalidUuid { value: Seq<char> },
    InvalidAction { action: i32 },
    InvalidScope { scope: i32 },
    MessageTooLarge { size: usize, max_size: usize },
    Serialization(Seq<char>),
    Deserialization(Seq<char>),
}

impl View for ValidationError {
    type V = ValidationErrorView;

    open spec fn view(&self) -> ValidationErrorView {
        match self {
            ValidationError::InvalidMessageFormat { format } => {
                ValidationErrorView::InvalidMessageFormat { format: format@ }
            },
            ValidationError::InvalidUuid { value } => ValidationErrorView::InvalidUuid {
                value: value@,
            },
            ValidationError::InvalidAction { action } => ValidationErrorView::InvalidAction {
                action: *action,
            },
            ValidationError::InvalidScope { scope } => ValidationErrorView::InvalidScope {
                scope: *scope,
            },
            ValidationError::MessageTooLarge { size, max_size } => {
                ValidationErrorView::MessageTooLarge { size: *size, max_size: *max_size }
            },
            ValidationError::Serialization(m) => ValidationErrorView::Serialization(m@),
            ValidationError::Deserialization(m) => ValidationErrorView::Deserialization(m@),
        }
    }
}

impl ValidationErrorView {
    /// The text of the error.
    pub open spec fn message(self) -> Seq<char> {
        match self {
            ValidationErrorView::InvalidMessageFormat { format } => "Invalid message format: "@
                + format,
            ValidationErrorView::InvalidUuid { value } => "Invalid UUID: "@ + value,
            ValidationErrorView::InvalidAction { action } => "Invalid moderation action: "@
                + int_text(action as int) + " (must be 0-3)"@,
            ValidationErrorView::InvalidScope { scope } => "Invalid moderation scope: "@
                + int_text(scope as int) + " (must be 0-1)"@,
            ValidationErrorView::MessageTooLarge { size, max_size } => "Message too large: "@
                + decimal(size as nat) + " bytes (max: "@ + decimal(max_size as nat) + ")"@,
            ValidationErrorView::Serialization(m) => "Serialization error: "@ + m,
            ValidationErrorView::Deserialization(m) => "Deserialization error: "@ + m,
        }
    }
}

impl ValidationError {
    /// The text of the error.
    pub fn to_string(&self) -> (r: String)
        ensures
            r@ == self@.message(),
    {
        match self {
            ValidationError::InvalidMessageFormat { format } => {
                let mut r = String::from_str("Invalid message format: ");
                r.append(format.as_str());
                r
            },
            ValidationError::InvalidUuid { value } => {
                let mut r = String::from_str("Invalid UUID: ");
                r.append(value.as_str());
                r
            },
            ValidationError::InvalidAction { action } => {
                let mut r = String::from_str("Invalid moderation action: ");
                let n = i64_text(*action as i64);
                r.append(n.as_str());
                r.append(" (must be 0-3)");
                r
            },
            ValidationError::InvalidScope { scope } => {
                let mut r = String::from_str("Invalid moderation scope: ");
                let n = i64_text(*scope as i64);
                r.append(n.as_str());
                r.append(" (must be 0-1)");
                r
            },
            ValidationError::MessageTooLarge { size, max_size } => {
                let mut r = String::from_str("Message too large: ");
                let a = u64_text(*size as u64);
                r.append(a.as_str());
                r.append(" bytes (max: ");
                let b = u64_text(*max_size as u64);
                r.append(b.as_str());
                r.append(")");
                r
            },
            ValidationError::Serialization(m) => {
                let mut r = String::from_str("Serialization error: ");
                r.append(m.as_str());
                r
            },
            ValidationError::Deserialization(m) => {
                let mut r = String::from_str("Deserialization error: ");
                r.append(m.as_str());
                r
            },
        }
    }
}

// ---------------------------------------------------------------------------
// Validated newtypes
// ---------------------------------------------------------------------------

/// Whether `f` names a message format: "commonmark" or "components".
pub open spec fn is_format(f: Seq<char>) -> bool {
    f == "commonmark"@ || f == "components"@
}

/// Whether two strings are equal.
fn str_eq(a: &str, b: &str) -> (r: bool)
    ensures
        r == (a@ == b@),
{
    let r = crate::cbor::bytes_eq(a.as_bytes(), b.as_bytes());
    proof {
        vstd::utf8::encode_utf8_decode_utf8(a@);
        vstd::utf8::encode_utf8_decode_utf8(b@);
    }
    r
}

/// Chat format constants with validation
#[derive(Debug, PartialEq)]
pub struct MessageFormat(String);

impl Clone for MessageFormat {
    fn clone(&self) -> (r: Self)
        ensures
            r@ == self@,
    {
        proof {
            use_type_invariant(self);
        }
        MessageFormat(self.0.clone())
    }
}

impl View for MessageFormat {
    type V = Seq<char>;

    closed spec fn view(&self) -> Seq<char> {
        self.0@
    }
}

impl MessageFormat {
    #[verifier::type_invariant]
    spec fn valid(self) -> bool {
        is_format(self.0@)
    }

    /// Creates a CommonMark message format
    pub fn commonmark() -> (r: Self)
        ensures
            r@ == "commonmark"@,
    {
        MessageFormat(String::from_str("commonmark"))
    }

    /// Creates a Components (rich text) message format
    pub fn components() -> (r: Self)
        ensures
            r@ == "components"@,
    {
        MessageFormat(String::from_str("components"))
    }

    /// Creates a MessageFormat from a string value.
    /// Returns ValidationError if the value is not "commonmark" or "components".
    pub fn new(value: String) -> (r: Result<Self, ValidationError>)
        ensures
            is_format(value@) ==> (r matches Ok(f) && f@ == value@),
            !is_format(value@) ==> (r matches Err(e) && e@ == (
            ValidationErrorView::InvalidMessageFormat { format: value@ })),
    {
        if str_eq(value.as_str(), "commonmark") || str_eq(value.as_str(), "components") {
            Ok(MessageFormat(value))
        } else {
            Err(ValidationError::InvalidMessageFormat { format: value })
        }
    }

    /// Returns the string representation of this format
    pub fn as_str(&self) -> (r: &str)
        ensures
            r@ == self@,
            is_format(r@),
    {
        proof {
            use_type_invariant(self);
        }
        self.0.as_str()
    }
}

/// Whether `b` is an ASCII hexadecimal digit, either case.
pub open spec fn hex_ascii(b: u8) -> bool {
    (0x30 <= b <= 0x39) || (0x41 <= b <= 0x46) || (0x61 <= b <= 0x66)
}

/// Whether `b` is a UUID in hyphenated form: 36 bytes, hyphens at 8, 13,
/// 18 and 23, hexadecimal digits elsewhere.
pub open spec fn hyphenated_bytes(b: Seq<u8>) -> bool {
    &&& b.len() == 36
    &&& forall|i: int|
        0 <= i < 36 ==> if i == 8 || i == 13 || i == 18 || i == 23 {
            b[i] == 0x2d
        } else {
            hex_ascii(#[trigger] b[i])
        }
}

/// Byte `c` with ASCII capitals made small.
pub open spec fn ascii_lower(c: u8) -> u8 {
    if 0x41 <= c <= 0x5a {
        (c + 0x20) as u8
    } else {
        c
    }
}

/// The bytes of `urn:uuid:`.
pub open spec fn urn_prefix() -> Seq<u8> {
    seq![0x75u8, 0x72, 0x6e, 0x3a, 0x75, 0x75, 0x69, 0x64, 0x3a]
}

/// What `uuid::Uuid::parse_str` accepts: 32 hexadecimal digits; the
/// hyphenated form; the hyphenated form between `{` and `}`; or
/// `urn:uuid:` (in any ASCII case) followed by the hyphenated form.
#[verifier::opaque]
pub open spec fn uuid_parses(s: Seq<char>) -> bool {
    let b = encode_utf8(s);
    ||| b.len() == 32 && (forall|i: int| 0 <= i < 32 ==> hex_ascii(#[trigger] b[i]))
    ||| hyphenated_bytes(b)
    ||| b.len() == 38 && b[0] == 0x7b && b[37] == 0x7d && hyphenated_bytes(b.subrange(1, 37))
    ||| b.len() == 45 && (forall|i: int| 0 <= i < 9 ==> ascii_lower(#[trigger] b[i]) == urn_prefix()[i])
        && hyphenated_bytes(b.subrange(9, 45))
}

/// `uuid::Uuid::parse_str(s).is_ok()`.
///
/// Trusted: the answer is `uuid_parses(s)`, the forms that `parse_str`
/// (through the crate's `try_parse`) accepts.
#[verifier::external_body]
fn parse_uuid(s: &str) -> (r: bool)
    ensures
        r == uuid_parses(s@),
{
    uuid::Uuid::parse_str(s).is_ok()
}

/// Whether `c` is a lowercase hexadecimal digit.
pub open spec fn is_lower_hex(c: char) -> bool {
    ('0' <= c <= '9') || ('a' <= c <= 'f')
}

/// Whether `s` is a version 4 UUID in lowercase hyphenated form:
/// `xxxxxxxx-xxxx-4xxx-yxxx-xxxxxxxxxxxx`, with `y` one of `8`, `9`, `a`,
/// `b` (the RFC 4122 variant).
pub open spec fn hyphenated_v4(s: Seq<char>) -> bool {
    &&& s.len() == 36
    &&& forall|i: int|
        0 <= i < 36 ==> if i == 8 || i == 13 || i == 18 || i == 23 {
            s[i] == '-'
        } else {
            is_lower_hex(#[trigger] s[i])
        }
    &&& s[14] == '4'
    &&& (s[19] == '8' || s[19] == '9' || s[19] == 'a' || s[19] == 'b')
}

/// A version 4 UUID in lowercase hyphenated form is a UUID that
/// `Uuid::parse_str` accepts.
pub proof fn lemma_hyphenated_v4_parses(s: Seq<char>)
    requires
        hyphenated_v4(s),
    ensures
        uuid_parses(s),
{
    assert(vstd::utf8::is_ascii_chars(s)) by {
        assert forall|i: int| 0 <= i < s.len() implies '\0' <= #[trigger] s[i] <= '\u{7f}' by {
            if !(i == 8 || i == 13 || i == 18 || i == 23) {
                assert(is_lower_hex(s[i]));
            }
        }
    }
    vstd::utf8::is_ascii_chars_encode_utf8(s);
    let b = encode_utf8(s);
    assert forall|i: int| 0 <= i < 36 implies if i == 8 || i == 13 || i == 18 || i == 23 {
        b[i] == 0x2d
    } else {
        hex_ascii(#[trigger] b[i])
    } by {
        assert(s[i] as u8 == b[i]);
        if !(i == 8 || i == 13 || i == 18 || i == 23) {
            assert(is_lower_hex(s[i]));
        }
    }
    assert(hyphenated_bytes(b));
    reveal(uuid_parses);
}

/// `uuid::Uuid::new_v4().to_string()`: a random UUID with the version and
/// variant bits of version 4 set, written (`Display`, which is `LowerHex`) in
/// lowercase hyphenated form. Nothing is claimed of which random bits come
/// out.
#[verifier::external_body]
fn random_uuid() -> (r: String)
    ensures
        hyphenated_v4(r@),
{
    uuid::Uuid::new_v4().to_string()
}

/// The longest link code, in UTF-8 bytes.
pub const MAX_LINK_CODE_LEN: usize = 100;

/// Whether `code` fits in a link code.
pub open spec fn link_code_ok(code: Seq<char>) -> bool {
    encode_utf8(code).len() <= MAX_LINK_CODE_LEN
}

/// Newtype for Link Codes with validation
#[derive(Debug, PartialEq, Eq, Hash)]
pub struct LinkCode(String);

impl Clone for LinkCode {
    fn clone(&self) -> (r: Self)
        ensures
            r@ == self@,
    {
        proof {
            use_type_invariant(self);
        }
        LinkCode(self.0.clone())
    }
}

impl View for LinkCode {
    type V = Seq<char>;

    closed spec fn view(&self) -> Seq<char> {
        self.0@
    }
}

impl LinkCode {
    #[verifier::type_invariant]
    spec fn valid(self) -> bool {
        link_code_ok(self.0@)
    }

    /// Creates a new LinkCode from a string.
    /// Returns ValidationError if the code is too long (empty is allowed for reconnection).
    pub fn new(code: String) -> (r: Result<Self, ValidationError>)
        ensures
            link_code_ok(code@) ==> (r matches Ok(c) && c@ == code@),
            !link_code_ok(code@) ==> (r matches Err(e) && e@ == (
            ValidationErrorView::MessageTooLarge {
                size: (#[verifier::truncate] (encode_utf8(code@).len() as usize)),
                max_size: MAX_LINK_CODE_LEN,
            })),
    {
        let len = code.as_str().as_bytes().len();
        if len > MAX_LINK_CODE_LEN {
            return Err(ValidationError::MessageTooLarge { size: len, max_size: MAX_LINK_CODE_LEN });
        }
        Ok(LinkCode(code))
    }

    /// Returns the string representation of this link code
    pub fn as_str(&self) -> (r: &str)
        ensures
            r@ == self@,
            link_code_ok(r@),
    {
        proof {
            use_type_invariant(self);
        }
        self.0.as_str()
    }
}

/// Newtype for Client UUIDs with validation
#[derive(Debug, PartialEq, Eq, Hash)]
pub struct ClientUuid(String);

impl Clone for ClientUuid {
    fn clone(&self) -> (r: Self)
        ensures
            r@ == self@,
    {
        proof {
            use_type_invariant(self);
        }
        ClientUuid(self.0.clone())
    }
}

impl View for ClientUuid {
    type V = Seq<char>;

    closed spec fn view(&self) -> Seq<char> {
        self.0@
    }
}

impl ClientUuid {
    #[verifier::type_invariant]
    spec fn valid(self) -> bool {
        uuid_parses(self.0@)
    }

    /// Creates a new ClientUuid from a string.
    /// Returns ValidationError if the string is not a valid UUID.
    pub fn new(uuid: String) -> (r: Result<Self, ValidationError>)
        ensures
            uuid_parses(uuid@) ==> (r matches Ok(c) && c@ == uuid@),
            !uuid_parses(uuid@) ==> (r matches Err(e) && e@ == (ValidationErrorView::InvalidUuid {
                value: uuid@,
            })),
    {
        if parse_uuid(uuid.as_str()) {
            Ok(ClientUuid(uuid))
        } else {
            Err(ValidationError::InvalidUuid { value: uuid })
        }
    }

    /// Generates a new random ClientUuid
    pub fn generate() -> (r: Self)
        ensures
            uuid_parses(r@),
            hyphenated_v4(r@),
    {
        let u = random_uuid();
        proof {
            lemma_hyphenated_v4_parses(u@);
        }
        ClientUuid(u)
    }

    /// Returns the string representation of this UUID
    pub fn as_str(&self) -> (r: &str)
        ensures
            r@ == self@,
            uuid_parses(r@),
    {
        proof {
            use_type_invariant(self);
        }
        self.0.as_str()
    }
}

/// Newtype for Minecraft UUIDs with validation
#[derive(Debug, PartialEq, Eq, Hash)]
pub struct MinecraftUuid(String);

impl Clone for MinecraftUuid {
    fn clone(&self) -> (r: Self)
        ensures
            r@ == self@,
    {
        proof {
            use_type_invariant(self);
        }
        MinecraftUuid(self.0.clone())
    }
}

impl View for MinecraftUuid {
    type V = Seq<char>;

    closed spec fn view(&self) -> Seq<char> {
        self.0@
    }
}

impl MinecraftUuid {
    #[verifier::type_invariant]
    spec fn valid(self) -> bool {
        uuid_parses(self.0@)
    }

    /// Creates a new MinecraftUuid from a string.
    /// Returns ValidationError if the string is not a valid UUID.
    pub fn new(uuid: String) -> (r: Result<Self, ValidationError>)
        ensures
            uuid_parses(uuid@) ==> (r matches Ok(c) && c@ == uuid@),
            !uuid_parses(uuid@) ==> (r matches Err(e) && e@ == (ValidationErrorView::InvalidUuid {
                value: uuid@,
            })),
    {
        if parse_uuid(uuid.as_str()) {
            Ok(MinecraftUuid(uuid))
        } else {
            Err(ValidationError::InvalidUuid { value: uuid })
        }
    }

    /// Returns the string representation of this UUID
    pub fn as_str(&self) -> (r: &str)
        ensures
            r@ == self@,
            uuid_parses(r@),
    {
        proof {
            use_type_invariant(self);
        }
        self.0.as_str()
    }
}

/// Moderation action with validation
#[derive(Debug, PartialEq)]
pub struct ModerationAction(i32);

impl Clone for ModerationAction {
    fn clone(&self) -> (r: Self)
        ensures
            r@ == self@,
    {
        proof {
            use_type_invariant(self);
        }
        ModerationAction(self.0)
    }
}

impl View for ModerationAction {
    type V = i32;

    closed spec fn view(&self) -> i32 {
        self.0
    }
}

impl ModerationAction {
    /// Warn action (0)
    pub fn warn() -> (r: ModerationAction)
        ensures
            r@ == 0,
    {
        ModerationAction(0)
    }

    /// Mute action (1)
    pub fn mute() -> (r: ModerationAction)
        ensures
            r@ == 1,
    {
        ModerationAction(1)
    }

    /// Kick action (2)
    pub fn kick() -> (r: ModerationAction)
        ensures
            r@ == 2,
    {
        ModerationAction(2)
    }

    /// Ban action (3)
    pub fn ban() -> (r: ModerationAction)
        ensures
            r@ == 3,
    {
        ModerationAction(3)
    }

    #[verifier::type_invariant]
    spec fn valid(self) -> bool {
        0 <= self.0 <= 3
    }

    /// Creates a new ModerationAction from an i32.
    /// Returns ValidationError if the value is not 0-3.
    pub fn new(action: i32) -> (r: Result<Self, ValidationError>)
        ensures
            0 <= action <= 3 ==> (r matches Ok(a) && a@ == action),
            !(0 <= action <= 3) ==> (r matches Err(e) && e@ == (ValidationErrorView::InvalidAction {
                action,
            })),
    {
        if 0 <= action && action <= 3 {
            Ok(ModerationAction(action))
        } else {
            Err(ValidationError::InvalidAction { action })
        }
    }

    /// Returns the integer value of this action
    pub fn value(&self) -> (r: i32)
        ensures
            r == self@,
            0 <= r <= 3,
    {
        proof {
            use_type_invariant(self);
        }
        self.0
    }
}

/// Moderation scope with validation
#[derive(Debug, PartialEq)]
pub struct ModerationScope(i32);

impl Clone for ModerationScope {
    fn clone(&self) -> (r: Self)
        ensures
            r@ == self@,
    {
        proof {
            use_type_invariant(self);
        }
        ModerationScope(self.0)
    }
}

impl View for ModerationScope {
    type V = i32;

    closed spec fn view(&self) -> i32 {
        self.0
    }
}

impl ModerationScope {
    /// Client scope (0) - affects only the current device
    pub fn client() -> (r: ModerationScope)
        ensures
            r@ == 0,
    {
        ModerationScope(0)
    }

    /// Account scope (1) - affects the entire Minecraft account
    pub fn account() -> (r: ModerationScope)
        ensures
            r@ == 1,
    {
        ModerationScope(1)
    }

    #[verifier::type_invariant]
    spec fn valid(self) -> bool {
        0 <= self.0 <= 1
    }

    /// Creates a new ModerationScope from an i32.
    /// Returns ValidationError if the value is not 0-1.
    pub fn new(scope: i32) -> (r: Result<Self, ValidationError>)
        ensures
            0 <= scope <= 1 ==> (r matches Ok(a) && a@ == scope),
            !(0 <= scope <= 1) ==> (r matches Err(e) && e@ == (ValidationErrorView::InvalidScope {
                scope,
            })),
    {
        if 0 <= scope && scope <= 1 {
            Ok(ModerationScope(scope))
        } else {
            Err(ValidationError::InvalidScope { scope })
        }
    }

    /// Returns the integer value of this scope
    pub fn value(&self) -> (r: i32)
        ensures
            r == self@,
            0 <= r <= 1,
    {
        proof {
            use_type_invariant(self);
        }
        self.0
    }
}


// ---------------------------------------------------------------------------
// Packets
// ---------------------------------------------------------------------------

/// A MineChat packet with proper type tagging.
///
/// Each variant corresponds to a packet type of the protocol.
#[derive(Debug, Clone, PartialEq)]
pub enum MineChatPacket {
    /// `LINK` packet (0x01) - Client → Server
    Link {
        /// The linking code from the Minecraft server
        linking_code: LinkCode,
        /// The client UUID identifying this device
        client_uuid: ClientUuid,
    },
    /// `LINK_OK` packet (0x02) - Server → Client
    LinkOk {
        /// The Minecraft UUID of the linked account
        minecraft_uuid: MinecraftUuid,
    },
    /// `CAPABILITIES` packet (0x03) - Client → Server
    Capabilities {
        /// The set of message formats the client supports
        supported_formats: Vec<String>,
        /// The client's preferred format for receiving messages (optional)
        preferred_format: Option<String>,
    },
    /// `AUTH_OK` packet (0x04) - Server → Client
    AuthOk,
    /// `CHAT_MESSAGE` packet (0x05) - Bidirectional
    ChatMessage {
        /// The message format ("commonmark" or "components")
        format: MessageFormat,
        /// The message content
        content: MessageContent,
    },
    /// `PING` packet (0x06) - Bidirectional
    Ping {
        /// Timestamp in milliseconds
        timestamp_ms: i64,
    },
    /// `PONG` packet (0x07) - Bidirectional
    Pong {
        /// Timestamp in milliseconds (should match the corresponding PING)
        timestamp_ms: i64,
    },
    /// `MODERATION` packet (0x08) - Server → Client
    Moderation {
        /// The moderation action (0=warn, 1=mute, 2=kick, 3=ban)
        action: ModerationAction,
        /// The scope of the moderation (0=client, 1=account)
        scope: ModerationScope,
        /// Optional reason for the moderation action
        reason: Option<String>,
        /// Optional duration in seconds (for mute/ban)
        duration_seconds: Option<i32>,
    },
    /// `SYSTEM_DISCONNECT` packet (0x09) - Server → Client
    SystemDisconnect {
        /// The reason code (0=shutdown, 1=maintenance, 2=internal_error, 3=overloaded)
        reason_code: i32,
        /// Human-readable message describing the disconnect
        message: String,
    },
}

/// The view of a packet: its fields as mathematical values.
pub enum PacketView {
    Link { linking_code: Seq<char>, client_uuid: Seq<char> },
    LinkOk { minecraft_uuid: Seq<char> },
    Capabilities { supported_formats: Seq<Seq<char>>, preferred_format: Option<Seq<char>> },
    AuthOk,
    ChatMessage { format: Seq<char>, content: ContentView },
    Ping { timestamp_ms: i64 },
    Pong { timestamp_ms: i64 },
    Moderation {
        action: i32,
        scope: i32,
        reason: Option<Seq<char>>,
        duration_seconds: Option<i32>,
    },
    SystemDisconnect { reason_code: i32, message: Seq<char> },
}

impl View for MineChatPacket {
    type V = PacketView;

    open spec fn view(&self) -> PacketView {
        match self {
            MineChatPacket::Link { linking_code, client_uuid } => PacketView::Link {
                linking_code: linking_code@,
                client_uuid: client_uuid@,
            },
            MineChatPacket::LinkOk { minecraft_uuid } => PacketView::LinkOk {
                minecraft_uuid: minecraft_uuid@,
            },
            MineChatPacket::Capabilities { supported_formats, preferred_format } => {
                PacketView::Capabilities {
                    supported_formats: string_views(supported_formats@),
                    preferred_format: opt_view(*preferred_format),
                }
            },
            MineChatPacket::AuthOk => PacketView::AuthOk,
            MineChatPacket::ChatMessage { format, content } => PacketView::ChatMessage {
                format: format@,
                content: content@,
            },
            MineChatPacket::Ping { timestamp_ms } => PacketView::Ping { timestamp_ms: *timestamp_ms },
            MineChatPacket::Pong { timestamp_ms } => PacketView::Pong { timestamp_ms: *timestamp_ms },
            MineChatPacket::Moderation { action, scope, reason, duration_seconds } => {
                PacketView::Moderation {
                    action: action@,
                    scope: scope@,
                    reason: opt_view(*reason),
                    duration_seconds: *duration_seconds,
                }
            },
            MineChatPacket::SystemDisconnect { reason_code, message } => {
                PacketView::SystemDisconnect { reason_code: *reason_code, message: message@ }
            },
        }
    }
}

impl PacketView {
    /// The packet type identifier of this packet.
    pub open spec fn type_code(self) -> i32 {
        match self {
            PacketView::Link { .. } => packet_type::LINK,
            PacketView::LinkOk { .. } => packet_type::LINK_OK,
            PacketView::Capabilities { .. } => packet_type::CAPABILITIES,
            PacketView::AuthOk => packet_type::AUTH_OK,
            PacketView::ChatMessage { .. } => packet_type::CHAT_MESSAGE,
            PacketView::Ping { .. } => packet_type::PING,
            PacketView::Pong { .. } => packet_type::PONG,
            PacketView::Moderation { .. } => packet_type::MODERATION,
            PacketView::SystemDisconnect { .. } => packet_type::SYSTEM_DISCONNECT,
        }
    }

    /// The entries of this packet's payload map.
    pub open spec fn payload_entries(self) -> Seq<(nat, Seq<u8>)> {
        match self {
            PacketView::Link { linking_code, client_uuid } => link_entries(
                linking_code,
                client_uuid,
            ),
            PacketView::LinkOk { minecraft_uuid } => link_ok_entries(minecraft_uuid),
            PacketView::Capabilities { supported_formats, preferred_format } => {
                capabilities_entries(supported_formats, preferred_format)
            },
            PacketView::AuthOk => Seq::empty(),
            PacketView::ChatMessage { format, content } => chat_entries(
                format,
                content_text(content),
            ),
            PacketView::Ping { timestamp_ms } => timestamp_entries(timestamp_ms),
            PacketView::Pong { timestamp_ms } => timestamp_entries(timestamp_ms),
            PacketView::Moderation { action, scope, reason, duration_seconds } => {
                moderation_entries(action, scope, reason, duration_seconds)
            },
            PacketView::SystemDisconnect { reason_code, message } => disconnect_entries(
                reason_code,
                message,
            ),
        }
    }

    /// The values a packet of the library can hold: those its constructors
    /// admit, with every text short enough to be written.
    pub open spec fn wf(self) -> bool {
        match self {
            PacketView::Link { linking_code, client_uuid } => link_code_ok(linking_code)
                && uuid_parses(client_uuid) && fits(client_uuid),
            PacketView::LinkOk { minecraft_uuid } => uuid_parses(minecraft_uuid) && fits(
                minecraft_uuid,
            ),
            PacketView::Capabilities { supported_formats, preferred_format } => texts_fit(
                supported_formats,
            ) && supported_formats.len() <= usize::MAX && (preferred_format matches Some(t)
                ==> fits(t)),
            PacketView::AuthOk => true,
            PacketView::ChatMessage { format, content } => is_format(format) && fits(format)
                && fits(content_text(content)),
            PacketView::Ping { .. } => true,
            PacketView::Pong { .. } => true,
            PacketView::Moderation { action, scope, reason, .. } => 0 <= action <= 3 && 0
                <= scope <= 1 && (reason matches Some(t) ==> fits(t)),
            PacketView::SystemDisconnect { message, .. } => fits(message),
        }
    }

    /// A chat message's content agrees with its format: CommonMark text
    /// under "commonmark", component JSON under "components".
    pub open spec fn consistent(self) -> bool {
        match self {
            PacketView::ChatMessage { format, content } => match content {
                ContentView::CommonMark(t) => format == "commonmark"@,
                ContentView::Components(j) => format == "components"@ && is_component_json(j),
            },
            _ => true,
        }
    }
}

/// Encodes a variable-length integer to CBOR bytes: the shortest head of
/// major type 0 for `value >= 0`, of major type 1 with argument
/// `-1 - value` otherwise.
pub fn encode_varint(buf: &mut Vec<u8>, value: i64)
    ensures
        final(buf)@ == old(buf)@ + int_bytes(value as int),
{
    if value >= 0 {
        encode_head(buf, 0, value as u64);
    } else {
        let abs_value: i64 = -1 - value;
        encode_head(buf, 1, abs_value as u64);
    }
}

/// Appends the 4 low-order bytes of `v`, most significant first.
pub(crate) fn push_be4(buf: &mut Vec<u8>, v: u64)
    ensures
        final(buf)@ == old(buf)@ + be_bytes(v as nat, 4),
{
    let b0 = ((v / 0x100_0000) % 256) as u8;
    let b1 = ((v / 0x1_0000) % 256) as u8;
    let b2 = ((v / 0x100) % 256) as u8;
    let b3 = (v % 256) as u8;
    buf.push(b0);
    buf.push(b1);
    buf.push(b2);
    buf.push(b3);
    proof {
        let n = v as nat;
        assert(n / 256 / 256 == n / 0x1_0000) by {
            vstd::arithmetic::div_mod::lemma_div_denominator(n as int, 256, 256);
        }
        assert(n / 0x1_0000 / 256 == n / 0x100_0000) by {
            vstd::arithmetic::div_mod::lemma_div_denominator(n as int, 0x1_0000, 256);
        }
        reveal_with_fuel(be_bytes, 5);
    }
    assert(buf@ =~= old(buf)@ + be_bytes(v as nat, 4));
}

/// The bytes of a packet: the envelope `{ 0: packet_type, 1: payload }`,
/// with the payload written as a map with integer keys.
pub open spec fn packet_bytes(p: PacketView) -> Seq<u8> {
    seq![0xa2u8, 0x00u8] + int_bytes(p.type_code() as int) + seq![0x01u8] + map_bytes(
        p.payload_entries(),
    )
}


/// Every packet is written as an envelope with integer keys, `0` for the
/// packet type and `1` for the payload, whose payload is a map keyed by the
/// unsigned integer indices of its fields; field names are never written.
pub proof fn lemma_integer_keys(p: PacketView)
    ensures
        packet_bytes(p) == envelope_bytes(p.type_code(), map_bytes(p.payload_entries())),
{
    let tb = int_bytes(p.type_code() as int);
    let m = map_bytes(p.payload_entries());
    lemma_entries_two((0nat, tb), (1nat, m));
    assert(int_bytes(0) =~= seq![0u8]);
    assert(int_bytes(1) =~= seq![1u8]);
    assert(head_bytes(5, 2) =~= seq![0xa2u8]);
    assert(packet_bytes(p) =~= envelope_bytes(p.type_code(), m));
}

/// The text of a `CborError`.
pub open spec fn cbor_error_text(e: CborErrorView) -> Seq<char> {
    match e {
        CborErrorView::Serde(m) => "CBOR error: "@ + m,
        CborErrorView::Custom(m) => m,
    }
}

/// The packet that the payload at `pos` makes for packet type `t`. Payloads
/// that do not decode give `Deserialization` errors; field values that the
/// packet's types refuse give `Serialization` errors carrying that refusal's
/// text; an unknown packet type is a `Deserialization` error.
#[verifier::opaque]
pub open spec fn spec_from_payload(s: Seq<u8>, t: i32, pos: int) -> Result<
    PacketView,
    ValidationErrorView,
> {
    if t == packet_type::LINK {
        match link_from(s, pos) {
            Err(m) => Err(ValidationErrorView::Deserialization(m)),
            Ok((code, uuid)) => if !link_code_ok(code) {
                Err(
                    ValidationErrorView::Serialization(
                        ValidationErrorView::MessageTooLarge {
                            size: encode_utf8(code).len() as usize,
                            max_size: MAX_LINK_CODE_LEN,
                        }.message(),
                    ),
                )
            } else if !uuid_parses(uuid) {
                Err(
                    ValidationErrorView::Serialization(
                        ValidationErrorView::InvalidUuid { value: uuid }.message(),
                    ),
                )
            } else {
                Ok(PacketView::Link { linking_code: code, client_uuid: uuid })
            },
        }
    } else if t == packet_type::LINK_OK {
        match link_ok_from(s, pos) {
            Err(m) => Err(ValidationErrorView::Deserialization(m)),
            Ok(uuid) => if !uuid_parses(uuid) {
                Err(
                    ValidationErrorView::Serialization(
                        ValidationErrorView::InvalidUuid { value: uuid }.message(),
                    ),
                )
            } else {
                Ok(PacketView::LinkOk { minecraft_uuid: uuid })
            },
        }
    } else if t == packet_type::CAPABILITIES {
        match capabilities_from(s, pos) {
            Err(m) => Err(ValidationErrorView::Deserialization(m)),
            Ok((formats, preferred)) => Ok(
                PacketView::Capabilities {
                    supported_formats: formats,
                    preferred_format: preferred,
                },
            ),
        }
    } else if t == packet_type::AUTH_OK {
        Ok(PacketView::AuthOk)
    } else if t == packet_type::CHAT_MESSAGE {
        match chat_from(s, pos) {
            Err(m) => Err(ValidationErrorView::Deserialization(m)),
            Ok((format, content)) => if !is_format(format) {
                Err(
                    ValidationErrorView::Serialization(
                        ValidationErrorView::InvalidMessageFormat { format }.message(),
                    ),
                )
            } else if format == "components"@ {
                if is_component_json(content) {
                    Ok(
                        PacketView::ChatMessage {
                            format,
                            content: ContentView::Components(content),
                        },
                    )
                } else {
                    Ok(
                        PacketView::ChatMessage {
                            format,
                            content: ContentView::Components(text_component_json(content)),
                        },
                    )
                }
            } else {
                Ok(PacketView::ChatMessage { format, content: ContentView::CommonMark(content) })
            },
        }
    } else if t == packet_type::PING {
        match timestamp_from(s, pos) {
            Err(m) => Err(ValidationErrorView::Deserialization(m)),
            Ok(ts) => Ok(PacketView::Ping { timestamp_ms: ts }),
        }
    } else if t == packet_type::PONG {
        match timestamp_from(s, pos) {
            Err(m) => Err(ValidationErrorView::Deserialization(m)),
            Ok(ts) => Ok(PacketView::Pong { timestamp_ms: ts }),
        }
    } else if t == packet_type::MODERATION {
        match moderation_from(s, pos) {
            Err(m) => Err(ValidationErrorView::Deserialization(m)),
            Ok((action, scope, reason, duration)) => if !(0 <= action <= 3) {
                Err(
                    ValidationErrorView::Serialization(
                        ValidationErrorView::InvalidAction { action }.message(),
                    ),
                )
            } else if !(0 <= scope <= 1) {
                Err(
                    ValidationErrorView::Serialization(
                        ValidationErrorView::InvalidScope { scope }.message(),
                    ),
                )
            } else {
                Ok(
                    PacketView::Moderation {
                        action,
                        scope,
                        reason,
                        duration_seconds: duration,
                    },
                )
            },
        }
    } else if t == packet_type::SYSTEM_DISCONNECT {
        match disconnect_from(s, pos) {
            Err(m) => Err(ValidationErrorView::Deserialization(m)),
            Ok((code, message)) => Ok(
                PacketView::SystemDisconnect { reason_code: code, message },
            ),
        }
    } else {
        Err(ValidationErrorView::Deserialization("unknown packet type: "@ + int_text(t as int)))
    }
}

/// The packet that the definite-length bytes `s` hold: the envelope is read
/// first (its errors become `Deserialization` errors with the envelope
/// error's text), then the payload for the packet type.
pub open spec fn spec_read_packet(s: Seq<u8>) -> Result<PacketView, ValidationErrorView> {
    match spec_envelope(s) {
        Err(e) => Err(ValidationErrorView::Deserialization(cbor_error_text(e))),
        Ok((t, a, b)) => spec_from_payload(s, t, a),
    }
}

/// The packet that `bytes` hold. Bytes that are one well-formed item with
/// definite lengths are read as they are; bytes that are one only with
/// indefinite lengths somewhere are read as their definite-length form
/// (`definite_bytes`); anything else meets the error that reading it as it
/// is gives.
pub open spec fn spec_from_bytes(s: Seq<u8>) -> Result<PacketView, ValidationErrorView> {
    if item_end(s, 0, MAX_NESTING as nat) == Some(s.len() as int) {
        spec_read_packet(s)
    } else {
        match definite_bytes(s) {
            Some(d) => spec_read_packet(d),
            None => spec_read_packet(s),
        }
    }
}

/// What reading back the bytes of packet `p` gives. A chat message's
/// content is read in the kind its format names: under "commonmark" as
/// CommonMark text; under "components" as component JSON, text that is not
/// component JSON being wrapped as a text component. Every other packet
/// reads back as itself.
pub open spec fn read_back(p: PacketView) -> PacketView {
    match p {
        PacketView::ChatMessage { format, content } => {
            let t = content_text(content);
            if format == "components"@ {
                if is_component_json(t) {
                    PacketView::ChatMessage { format, content: ContentView::Components(t) }
                } else {
                    PacketView::ChatMessage {
                        format,
                        content: ContentView::Components(text_component_json(t)),
                    }
                }
            } else {
                PacketView::ChatMessage { format, content: ContentView::CommonMark(t) }
            }
        },
        _ => p,
    }
}

/// The view of a packet result.
pub open spec fn packet_result_view(r: Result<MineChatPacket, ValidationError>) -> Result<
    PacketView,
    ValidationErrorView,
> {
    match r {
        Ok(p) => Ok(p@),
        Err(e) => Err(e@),
    }
}


impl MineChatPacket {
    /// Returns the packet type identifier for this packet.
    pub fn packet_type(&self) -> (r: i32)
        ensures
            r == self@.type_code(),
            0x01 <= r <= 0x09,
    {
        match self {
            MineChatPacket::Link { .. } => packet_type::LINK,
            MineChatPacket::LinkOk { .. } => packet_type::LINK_OK,
            MineChatPacket::Capabilities { .. } => packet_type::CAPABILITIES,
            MineChatPacket::AuthOk => packet_type::AUTH_OK,
            MineChatPacket::ChatMessage { .. } => packet_type::CHAT_MESSAGE,
            MineChatPacket::Ping { .. } => packet_type::PING,
            MineChatPacket::Pong { .. } => packet_type::PONG,
            MineChatPacket::Moderation { .. } => packet_type::MODERATION,
            MineChatPacket::SystemDisconnect { .. } => packet_type::SYSTEM_DISCONNECT,
        }
    }

    /// Serializes the payload portion and returns (packet_type, payload_bytes).
    ///
    /// The payload bytes are one definite-length CBOR map whose keys are the
    /// unsigned integer indices of the payload's fields (`map_bytes`); field
    /// names are never written.
    pub fn serialize_payload(&self) -> (r: (i32, Vec<u8>))
        ensures
            r.0 == self@.type_code(),
            r.1@ == map_bytes(self@.payload_entries()),
            self@.wf(),
    {
        let packet_type = self.packet_type();
        let payload_bytes = match self {
            MineChatPacket::Link { linking_code, client_uuid } => {
                let payload = LinkPayload {
                    linking_code: String::from_str(linking_code.as_str()),
                    client_uuid: String::from_str(client_uuid.as_str()),
                };
                payload.to_cbor()
            },
            MineChatPacket::LinkOk { minecraft_uuid } => {
                let payload = LinkOkPayload {
                    minecraft_uuid: String::from_str(minecraft_uuid.as_str()),
                };
                payload.to_cbor()
            },
            MineChatPacket::Capabilities { supported_formats, preferred_format } => {
                let payload = CapabilitiesPayload {
                    supported_formats: supported_formats.clone(),
                    preferred_format: preferred_format.clone(),
                };
                proof {
                    assert(string_views(payload.supported_formats@) =~= string_views(
                        supported_formats@,
                    ));
                }
                payload.to_cbor()
            },
            MineChatPacket::AuthOk => {
                let payload = AuthOkPayload {  };
                payload.to_cbor()
            },
            MineChatPacket::ChatMessage { format, content } => {
                let payload = ChatMessagePayload {
                    format: String::from_str(format.as_str()),
                    content: content.to_cbor_string(),
                };
                payload.to_cbor()
            },
            MineChatPacket::Ping { timestamp_ms } => {
                let payload = PingPayload { timestamp_ms: *timestamp_ms };
                payload.to_cbor()
            },
            MineChatPacket::Pong { timestamp_ms } => {
                let payload = PongPayload { timestamp_ms: *timestamp_ms };
                payload.to_cbor()
            },
            MineChatPacket::Moderation { action, scope, reason, duration_seconds } => {
                let payload = ModerationPayload {
                    action: action.value(),
                    scope: scope.value(),
                    reason: reason.clone(),
                    duration_seconds: *duration_seconds,
                };
                payload.to_cbor()
            },
            MineChatPacket::SystemDisconnect { reason_code, message } => {
                let payload = SystemDisconnectPayload {
                    reason_code: *reason_code,
                    message: message.clone(),
                };
                payload.to_cbor()
            },
        };
        (packet_type, payload_bytes)
    }

    /// Serializes this packet to CBOR bytes with integer keys:
    /// `{ 0: packet_type, 1: payload }`.
    ///
    /// This method should be used for network transmission. What it writes
    /// reads back, by `from_bytes`, as `read_back` says: as this same packet
    /// whenever a chat message's content agrees with its format.
    pub fn to_bytes(&self) -> (r: Result<Vec<u8>, ValidationError>)
        ensures
            r matches Ok(b) && b@ == packet_bytes(self@),
            self@.wf(),
            r matches Ok(b) && spec_from_bytes(b@) == Ok::<_, ValidationErrorView>(read_back(self@)),
            r matches Ok(b) && (self@.consistent() ==> spec_from_bytes(b@) == Ok::<
                _,
                ValidationErrorView,
            >(self@)),
    {
        let (packet_type, payload_bytes) = self.serialize_payload();
        let mut buf: Vec<u8> = Vec::new();
        // map header (2 entries)
        buf.push(0xa2);
        // key 0: packet type
        buf.push(0x00);
        encode_varint(&mut buf, packet_type as i64);
        // key 1: payload
        buf.push(0x01);
        push_bytes(&mut buf, payload_bytes.as_slice());
        assert(buf@ =~= packet_bytes(self@));
        proof {
            lemma_packet_read_back(self@);
            if self@.consistent() {
                lemma_packet_roundtrip(self@);
            }
        }
        Ok(buf)
    }

    /// Deserializes a packet from CBOR bytes.
    ///
    /// Map keys may be integers (as written by `to_bytes`) or, for
    /// robustness, the keys' names.
    pub fn from_bytes(bytes: &[u8]) -> (r: Result<Self, ValidationError>)
        ensures
            packet_result_view(r) == spec_from_bytes(bytes@),
    {
        if let Some(e) = skip_item(bytes, 0, MAX_NESTING) {
            if e == bytes.len() {
                return Self::read_packet(bytes);
            }
        }
        match definite_lengths(bytes) {
            Some(d) => Self::read_packet(d.as_slice()),
            None => Self::read_packet(bytes),
        }
    }

    /// Reads a packet from bytes with definite lengths.
    fn read_packet(bytes: &[u8]) -> (r: Result<Self, ValidationError>)
        ensures
            packet_result_view(r) == spec_read_packet(bytes@),
    {
        match deserialize_envelope(bytes) {
            Err(e) => {
                let ghost ev = e.view();
                let m = e.to_string();
                proof {
                    assert(m@ == cbor_error_text(ev));
                }
                Err(ValidationError::Deserialization(m))
            },
            Ok((packet_type, start, _end)) => Self::from_payload(packet_type, bytes, start),
        }
    }

    /// Deserializes from a packet type and the payload at `pos` of `data`.
    fn from_payload(packet_type: i32, data: &[u8], pos: usize) -> (r: Result<Self, ValidationError>)
        ensures
            packet_result_view(r) == spec_from_payload(data@, packet_type, pos as int),
    {
        reveal(spec_from_payload);
        if packet_type == packet_type::LINK {
            let payload = match LinkPayload::from_cbor(data, pos) {
                Ok(p) => p,
                Err(m) => return Err(ValidationError::Deserialization(m)),
            };
            let linking_code = match LinkCode::new(payload.linking_code) {
                Ok(c) => c,
                Err(e) => return Err(ValidationError::Serialization(e.to_string())),
            };
            let client_uuid = match ClientUuid::new(payload.client_uuid) {
                Ok(c) => c,
                Err(e) => return Err(ValidationError::Serialization(e.to_string())),
            };
            Ok(MineChatPacket::Link { linking_code, client_uuid })
        } else if packet_type == packet_type::LINK_OK {
            let payload = match LinkOkPayload::from_cbor(data, pos) {
                Ok(p) => p,
                Err(m) => return Err(ValidationError::Deserialization(m)),
            };
            let minecraft_uuid = match MinecraftUuid::new(payload.minecraft_uuid) {
                Ok(c) => c,
                Err(e) => return Err(ValidationError::Serialization(e.to_string())),
            };
            Ok(MineChatPacket::LinkOk { minecraft_uuid })
        } else if packet_type == packet_type::CAPABILITIES {
            let payload = match CapabilitiesPayload::from_cbor(data, pos) {
                Ok(p) => p,
                Err(m) => return Err(ValidationError::Deserialization(m)),
            };
            Ok(
                MineChatPacket::Capabilities {
                    supported_formats: payload.supported_formats,
                    preferred_format: payload.preferred_format,
                },
            )
        } else if packet_type == packet_type::AUTH_OK {
            Ok(MineChatPacket::AuthOk)
        } else if packet_type == packet_type::CHAT_MESSAGE {
            let payload = match ChatMessagePayload::from_cbor(data, pos) {
                Ok(p) => p,
                Err(m) => return Err(ValidationError::Deserialization(m)),
            };
            let components = str_eq(payload.format.as_str(), "components");
            let format = match MessageFormat::new(payload.format) {
                Ok(f) => f,
                Err(e) => return Err(ValidationError::Serialization(e.to_string())),
            };
            let content = if components {
                if component_json_plain_text(payload.content.as_str()).is_some() {
                    MessageContent::Components(payload.content)
                } else {
                    MessageContent::Components(text_component(payload.content.as_str()))
                }
            } else {
                MessageContent::CommonMark(payload.content)
            };
            Ok(MineChatPacket::ChatMessage { format, content })
        } else if packet_type == packet_type::PING {
            let payload = match PingPayload::from_cbor(data, pos) {
                Ok(p) => p,
                Err(m) => return Err(ValidationError::Deserialization(m)),
            };
            Ok(MineChatPacket::Ping { timestamp_ms: payload.timestamp_ms })
        } else if packet_type == packet_type::PONG {
            let payload = match PongPayload::from_cbor(data, pos) {
                Ok(p) => p,
                Err(m) => return Err(ValidationError::Deserialization(m)),
            };
            Ok(MineChatPacket::Pong { timestamp_ms: payload.timestamp_ms })
        } else if packet_type == packet_type::MODERATION {
            let payload = match ModerationPayload::from_cbor(data, pos) {
                Ok(p) => p,
                Err(m) => return Err(ValidationError::Deserialization(m)),
            };
            let action = match ModerationAction::new(payload.action) {
                Ok(a) => a,
                Err(e) => return Err(ValidationError::Serialization(e.to_string())),
            };
            let scope = match ModerationScope::new(payload.scope) {
                Ok(a) => a,
                Err(e) => return Err(ValidationError::Serialization(e.to_string())),
            };
            Ok(
                MineChatPacket::Moderation {
                    action,
                    scope,
                    reason: payload.reason,
                    duration_seconds: payload.duration_seconds,
                },
            )
        } else if packet_type == packet_type::SYSTEM_DISCONNECT {
            let payload = match SystemDisconnectPayload::from_cbor(data, pos) {
                Ok(p) => p,
                Err(m) => return Err(ValidationError::Deserialization(m)),
            };
            Ok(
                MineChatPacket::SystemDisconnect {
                    reason_code: payload.reason_code,
                    message: payload.message,
                },
            )
        } else {
            let mut m = String::from_str("unknown packet type: ");
            let n = i64_text(packet_type as i64);
            m.append(n.as_str());
            Err(ValidationError::Deserialization(m))
        }
    }
}


// ---------------------------------------------------------------------------
// Reading back what was written
// ---------------------------------------------------------------------------

/// Each payload entry of a valid packet is a well-formed item wherever it
/// occurs, at the nesting depth left inside the payload map.
proof fn lemma_payload_entries_everywhere(s: Seq<u8>, p: PacketView)
    requires
        p.wf(),
    ensures
        forall|i: int|
            0 <= i < p.payload_entries().len() ==> (#[trigger] p.payload_entries()[i]).0
                < 0x1_0000_0000_0000_0000 && item_everywhere(
                s,
                p.payload_entries()[i].1,
                (MAX_NESTING - 2) as nat,
            ),
{
    let es = p.payload_entries();
    let d = (MAX_NESTING - 2) as nat;
    match p {
        PacketView::Link { linking_code, client_uuid } => {
            lemma_text_everywhere(s, linking_code, d);
            lemma_text_everywhere(s, client_uuid, d);
        },
        PacketView::LinkOk { minecraft_uuid } => {
            lemma_text_everywhere(s, minecraft_uuid, d);
        },
        PacketView::Capabilities { supported_formats, preferred_format } => {
            lemma_text_array_everywhere(s, supported_formats, (d - 1) as nat);
            match preferred_format {
                Some(t) => lemma_text_everywhere(s, t, d),
                None => lemma_null_everywhere(s, d),
            }
            assert(es[0].1 == array_bytes(text_items(supported_formats)));
            assert(es[1].1 == opt_text_bytes(preferred_format));
        },
        PacketView::AuthOk => {},
        PacketView::ChatMessage { format, content } => {
            lemma_text_everywhere(s, format, d);
            lemma_text_everywhere(s, content_text(content), d);
        },
        PacketView::Ping { timestamp_ms } => {
            lemma_int_everywhere(s, timestamp_ms as int, d);
        },
        PacketView::Pong { timestamp_ms } => {
            lemma_int_everywhere(s, timestamp_ms as int, d);
        },
        PacketView::Moderation { action, scope, reason, duration_seconds } => {
            lemma_int_everywhere(s, action as int, d);
            lemma_int_everywhere(s, scope as int, d);
            if let Some(t) = reason {
                lemma_text_everywhere(s, t, d);
            }
            if let Some(v) = duration_seconds {
                lemma_int_everywhere(s, v as int, d);
            }
            let ri: int = 2;
            let di: int = if reason is Some { 3 } else { 2 };
            assert(reason is Some ==> es[ri] == text_entry(2, reason->Some_0));
            assert(duration_seconds is Some ==> es[di] == int_entry(3, duration_seconds->Some_0 as int));
            assert(es.len() == 2 + (if reason is Some { 1int } else { 0 }) + (
            if duration_seconds is Some { 1int } else { 0 }));
            assert forall|i: int| 0 <= i < es.len() implies (#[trigger] es[i]).0
                < 0x1_0000_0000_0000_0000 && item_everywhere(s, es[i].1, d) by {
                if i >= 2 && i == ri && reason is Some {
                } else if i >= 2 {
                    assert(duration_seconds is Some && i == di);
                }
            }
        },
        PacketView::SystemDisconnect { reason_code, message } => {
            lemma_int_everywhere(s, reason_code as int, d);
            lemma_text_everywhere(s, message, d);
        },
    }
}

/// The payload map of a valid packet is a well-formed item wherever it occurs.
proof fn lemma_payload_everywhere(s: Seq<u8>, p: PacketView)
    requires
        p.wf(),
    ensures
        item_everywhere(s, map_bytes(p.payload_entries()), (MAX_NESTING - 1) as nat),
{
    let es = p.payload_entries();
    lemma_payload_entries_everywhere(s, p);
    assert(es.len() <= 4);
    crate::cbor::lemma_head_bytes_len(5, es.len());
    assert forall|q: int| #[trigger] occurs_at(s, q, map_bytes(es)) implies item_end(
        s,
        q,
        (MAX_NESTING - 1) as nat,
    ) == Some(q + map_bytes(es).len()) by {
        lemma_map_item(s, q, es, (MAX_NESTING - 2) as nat);
    }
}

/// The payload written for a valid packet reads back as `read_back` says.
proof fn lemma_payload_roundtrip(s: Seq<u8>, pos: int, p: PacketView)
    requires
        p.wf(),
        occurs_at(s, pos, map_bytes(p.payload_entries())),
    ensures
        spec_from_payload(s, p.type_code(), pos) == Ok::<_, ValidationErrorView>(read_back(p)),
{
    match p {
        PacketView::Link { .. } => lemma_link_payload_back(s, pos, p),
        PacketView::LinkOk { .. } => lemma_link_ok_payload_back(s, pos, p),
        PacketView::Capabilities { .. } => lemma_capabilities_payload_back(s, pos, p),
        PacketView::AuthOk => lemma_auth_ok_payload_back(s, pos, p),
        PacketView::ChatMessage { .. } => lemma_chat_payload_back(s, pos, p),
        PacketView::Ping { .. } => lemma_ping_payload_back(s, pos, p),
        PacketView::Pong { .. } => lemma_pong_payload_back(s, pos, p),
        PacketView::Moderation { .. } => lemma_moderation_payload_back(s, pos, p),
        PacketView::SystemDisconnect { .. } => lemma_disconnect_payload_back(s, pos, p),
    }
}

#[verifier::spinoff_prover]
proof fn lemma_link_payload_back(s: Seq<u8>, pos: int, p: PacketView)
    requires
        p is Link,
        p.wf(),
        p.consistent(),
        occurs_at(s, pos, map_bytes(p.payload_entries())),
    ensures
        spec_from_payload(s, p.type_code(), pos) == Ok::<_, ValidationErrorView>(p),
{
    reveal(spec_from_payload);
    if let PacketView::Link { linking_code, client_uuid } = p {
        lemma_link_roundtrip(s, pos, linking_code, client_uuid);
    }
}

#[verifier::spinoff_prover]
proof fn lemma_link_ok_payload_back(s: Seq<u8>, pos: int, p: PacketView)
    requires
        p is LinkOk,
        p.wf(),
        p.consistent(),
        occurs_at(s, pos, map_bytes(p.payload_entries())),
    ensures
        spec_from_payload(s, p.type_code(), pos) == Ok::<_, ValidationErrorView>(p),
{
    reveal(spec_from_payload);
    if let PacketView::LinkOk { minecraft_uuid } = p {
        lemma_link_ok_roundtrip(s, pos, minecraft_uuid);
    }
}

#[verifier::spinoff_prover]
proof fn lemma_capabilities_payload_back(s: Seq<u8>, pos: int, p: PacketView)
    requires
        p is Capabilities,
        p.wf(),
        p.consistent(),
        occurs_at(s, pos, map_bytes(p.payload_entries())),
    ensures
        spec_from_payload(s, p.type_code(), pos) == Ok::<_, ValidationErrorView>(p),
{
    reveal(spec_from_payload);
    if let PacketView::Capabilities { supported_formats, preferred_format } = p {
        lemma_capabilities_roundtrip(s, pos, supported_formats, preferred_format);
    }
}

#[verifier::spinoff_prover]
proof fn lemma_auth_ok_payload_back(s: Seq<u8>, pos: int, p: PacketView)
    requires
        p is AuthOk,
        p.wf(),
        p.consistent(),
        occurs_at(s, pos, map_bytes(p.payload_entries())),
    ensures
        spec_from_payload(s, p.type_code(), pos) == Ok::<_, ValidationErrorView>(p),
{
    reveal(spec_from_payload);
}

#[verifier::spinoff_prover]
#[verifier::rlimit(40)]
proof fn lemma_chat_payload_back(s: Seq<u8>, pos: int, p: PacketView)
    requires
        p is ChatMessage,
        p.wf(),
        occurs_at(s, pos, map_bytes(p.payload_entries())),
    ensures
        spec_from_payload(s, p.type_code(), pos) == Ok::<_, ValidationErrorView>(read_back(p)),
{
    reveal(spec_from_payload);
    if let PacketView::ChatMessage { format, content } = p {
        lemma_chat_roundtrip(s, pos, format, content_text(content));
    }
}

#[verifier::spinoff_prover]
proof fn lemma_ping_payload_back(s: Seq<u8>, pos: int, p: PacketView)
    requires
        p is Ping,
        p.wf(),
        p.consistent(),
        occurs_at(s, pos, map_bytes(p.payload_entries())),
    ensures
        spec_from_payload(s, p.type_code(), pos) == Ok::<_, ValidationErrorView>(p),
{
    reveal(spec_from_payload);
    if let PacketView::Ping { timestamp_ms } = p {
        lemma_timestamp_roundtrip(s, pos, timestamp_ms);
    }
}

#[verifier::spinoff_prover]
proof fn lemma_pong_payload_back(s: Seq<u8>, pos: int, p: PacketView)
    requires
        p is Pong,
        p.wf(),
        p.consistent(),
        occurs_at(s, pos, map_bytes(p.payload_entries())),
    ensures
        spec_from_payload(s, p.type_code(), pos) == Ok::<_, ValidationErrorView>(p),
{
    reveal(spec_from_payload);
    if let PacketView::Pong { timestamp_ms } = p {
        lemma_timestamp_roundtrip(s, pos, timestamp_ms);
    }
}

#[verifier::spinoff_prover]
proof fn lemma_moderation_payload_back(s: Seq<u8>, pos: int, p: PacketView)
    requires
        p is Moderation,
        p.wf(),
        p.consistent(),
        occurs_at(s, pos, map_bytes(p.payload_entries())),
    ensures
        spec_from_payload(s, p.type_code(), pos) == Ok::<_, ValidationErrorView>(p),
{
    reveal(spec_from_payload);
    if let PacketView::Moderation { action, scope, reason, duration_seconds } = p {
        lemma_moderation_roundtrip(s, pos, action, scope, reason, duration_seconds);
    }
}

#[verifier::spinoff_prover]
proof fn lemma_disconnect_payload_back(s: Seq<u8>, pos: int, p: PacketView)
    requires
        p is SystemDisconnect,
        p.wf(),
        p.consistent(),
        occurs_at(s, pos, map_bytes(p.payload_entries())),
    ensures
        spec_from_payload(s, p.type_code(), pos) == Ok::<_, ValidationErrorView>(p),
{
    reveal(spec_from_payload);
    if let PacketView::SystemDisconnect { reason_code, message } = p {
        lemma_disconnect_roundtrip(s, pos, reason_code, message);
    }
}

/// Reading back the bytes written for a packet gives the same packet: for
/// every valid packet whose chat content (if any) agrees with its format.
pub proof fn lemma_packet_roundtrip(p: PacketView)
    requires
        p.wf(),
        p.consistent(),
    ensures
        spec_from_bytes(packet_bytes(p)) == Ok::<_, ValidationErrorView>(p),
{
    lemma_packet_read_back(p);
    assert("commonmark"@ != "components"@) by {
        reveal_strlit("commonmark");
        reveal_strlit("components");
        assert("commonmark"@[3] != "components"@[3]);
    }
}

/// Input that is not one definite-length item reads as its definite-length
/// form does, when it has one.
pub proof fn lemma_from_bytes_indefinite(s: Seq<u8>, b: Seq<u8>)
    requires
        item_end(s, 0, MAX_NESTING as nat) != Some(s.len() as int),
        definite_bytes(s) == Some(b),
        item_end(b, 0, MAX_NESTING as nat) == Some(b.len() as int),
    ensures
        spec_from_bytes(s) == spec_from_bytes(b),
{
}

/// `{_ 0: 4, 1: {_ } }` made definite is `{ 0: 4, 1: {} }`.
proof fn lemma_indefinite_auth_ok_definite()
    ensures
        definite_bytes(seq![0xbfu8, 0x00u8, 0x04u8, 0x01u8, 0xbfu8, 0xffu8, 0xffu8]) == Some(
            seq![0xa2u8, 0x00u8, 0x04u8, 0x01u8, 0xa0u8],
        ),
{
    let m = MAX_NESTING as nat;
    let none = Seq::<Seq<u8>>::empty();
    lemma_indefinite_map_made_definite(none, none, (m - 2) as nat);
    assert(concat_all(none) =~= Seq::<u8>::empty());
    let e = seq![0xbfu8, 0xffu8];
    assert(seq![0xbfu8] + concat_all(none) + seq![0xffu8] =~= e);
    assert(head_bytes(5, 0) + concat_all(none) =~= seq![0xa0u8]);
    lemma_small_int_made_definite(0, (m - 1) as nat);
    lemma_small_int_made_definite(4, (m - 1) as nat);
    lemma_small_int_made_definite(1, (m - 1) as nat);
    let ps = seq![seq![0x00u8], seq![0x04u8], seq![0x01u8], e];
    let bs = seq![seq![0x00u8], seq![0x04u8], seq![0x01u8], seq![0xa0u8]];
    assert forall|i: int| 0 <= i < ps.len() implies made_definite(
        #[trigger] ps[i],
        bs[i],
        (m - 1) as nat,
    ) by {
        if i == 3 {
            assert(made_definite(e, seq![0xa0u8], (m - 1) as nat));
        }
    }
    lemma_indefinite_map_made_definite(ps, bs, (m - 1) as nat);
    assert(concat_all(ps) =~= seq![0x00u8, 0x04u8, 0x01u8, 0xbfu8, 0xffu8]) by {
        reveal_with_fuel(concat_all, 5);
    }
    assert(concat_all(bs) =~= seq![0x00u8, 0x04u8, 0x01u8, 0xa0u8]) by {
        reveal_with_fuel(concat_all, 5);
    }
    let s = seq![0xbfu8, 0x00u8, 0x04u8, 0x01u8, 0xbfu8, 0xffu8, 0xffu8];
    assert(seq![0xbfu8] + concat_all(ps) + seq![0xffu8] =~= s);
    assert(head_bytes(5, 2) =~= seq![0xa2u8]);
    let b = seq![0xa2u8, 0x00u8, 0x04u8, 0x01u8, 0xa0u8];
    assert(head_bytes(5, ps.len() / 2) + concat_all(bs) =~= b);
    lemma_made_definite_bytes(s, b);
}

/// The bytes of AUTH_OK are `{ 0: 4, 1: {} }`.
proof fn lemma_auth_ok_bytes()
    ensures
        packet_bytes(PacketView::AuthOk) == seq![0xa2u8, 0x00u8, 0x04u8, 0x01u8, 0xa0u8],
{
    assert(int_bytes(4) =~= seq![0x04u8]);
    assert(map_bytes(Seq::<(nat, Seq<u8>)>::empty()) =~= seq![0xa0u8]) by {
        assert(entries_bytes(Seq::<(nat, Seq<u8>)>::empty()) =~= Seq::<u8>::empty());
        assert(head_bytes(5, 0) =~= seq![0xa0u8]);
    }
    assert(packet_bytes(PacketView::AuthOk) =~= seq![0xa2u8, 0x00u8, 0x04u8, 0x01u8, 0xa0u8]);
}

/// An AUTH_OK envelope and payload written with indefinite-length maps,
/// `{_ 0: 4, 1: {_ } }`, reads as AUTH_OK.
#[verifier::spinoff_prover]
pub proof fn lemma_indefinite_auth_ok()
    ensures
        spec_from_bytes(seq![0xbfu8, 0x00u8, 0x04u8, 0x01u8, 0xbfu8, 0xffu8, 0xffu8])
            == Ok::<_, ValidationErrorView>(PacketView::AuthOk),
{
    let s = seq![0xbfu8, 0x00u8, 0x04u8, 0x01u8, 0xbfu8, 0xffu8, 0xffu8];
    let b = packet_bytes(PacketView::AuthOk);
    lemma_auth_ok_bytes();
    lemma_integer_keys(PacketView::AuthOk);
    crate::cbor::lemma_empty_map_item((MAX_NESTING - 2) as nat);
    assert(PacketView::AuthOk.payload_entries() =~= Seq::<(nat, Seq<u8>)>::empty());
    crate::cbor::lemma_envelope_item(4, map_bytes(Seq::<(nat, Seq<u8>)>::empty()));
    lemma_indefinite_auth_ok_definite();
    assert(spec_head(s, 0) is None);
    lemma_from_bytes_indefinite(s, b);
    assert(PacketView::AuthOk.wf());
    lemma_packet_read_back(PacketView::AuthOk);
}

/// Reading back the bytes written for any valid packet gives what
/// `read_back` says: the packet itself, except that a chat message's
/// content comes back in the kind its format names.
#[verifier::spinoff_prover]
#[verifier::rlimit(40)]
pub proof fn lemma_packet_read_back(p: PacketView)
    requires
        p.wf(),
    ensures
        spec_from_bytes(packet_bytes(p)) == Ok::<_, ValidationErrorView>(read_back(p)),
{
    let s = packet_bytes(p);
    let t = p.type_code();
    let m = map_bytes(p.payload_entries());
    let tb = int_bytes(t as int);
    assert(tb =~= seq![t as u8]);
    let env = seq![(0nat, tb), (1nat, m)];
    lemma_entries_two(env[0], env[1]);
    assert(int_bytes(0) =~= seq![0u8]);
    assert(int_bytes(1) =~= seq![1u8]);
    assert(head_bytes(5, 2) =~= seq![0xa2u8]);
    assert(s =~= map_bytes(env));
    assert(s.subrange(0, s.len() as int) =~= s);
    let d = (MAX_NESTING - 1) as nat;
    // the whole input is one well-formed item
    lemma_int_everywhere(s, t as int, d);
    lemma_payload_everywhere(s, p);
    assert(env[0].1 == tb && env[1].1 == m);
    lemma_map_item(s, 0, env, d);
    // its head, keys and values
    let first = seq![0xa2u8, 0x00u8, t as u8, 0x01u8];
    assert(s =~= first + m);
    lemma_occurs_split(s, 0, first, m);
    assert(s =~= seq![0xa2u8] + (seq![0x00u8, t as u8, 0x01u8] + m));
    lemma_occurs_split(s, 0, seq![0xa2u8], seq![0x00u8, t as u8, 0x01u8] + m);
    assert(seq![0x00u8, t as u8, 0x01u8] + m =~= seq![0x00u8] + (seq![t as u8, 0x01u8] + m));
    lemma_occurs_split(s, 1, seq![0x00u8], seq![t as u8, 0x01u8] + m);
    assert(seq![t as u8, 0x01u8] + m =~= seq![t as u8] + (seq![0x01u8] + m));
    lemma_occurs_split(s, 2, seq![t as u8], seq![0x01u8] + m);
    lemma_occurs_split(s, 3, seq![0x01u8], m);
    lemma_head_roundtrip(s, 0, 5, 2);
    lemma_int_item(s, 1, 0, d);
    lemma_int_item(s, 2, t as int, d);
    lemma_int_item(s, 3, 1, d);
    lemma_head_roundtrip(s, 1, 0, 0);
    lemma_head_roundtrip(s, 2, 0, t as nat);
    lemma_head_roundtrip(s, 3, 0, 1);
    assert(item_end(s, 4, d) == Some(s.len() as int));
    assert(envelope_key(s, 1) == EnvelopeKey::IntKey(0));
    assert(envelope_key(s, 3) == EnvelopeKey::IntKey(1));
    let tu = t as u64;
    assert(wrap_i32(false, tu) == t) by {
        assert(1 <= tu <= 9);
        assert(1 <= tu <= 9 ==> ((tu as u32) as i32) as u64 == tu) by (bit_vector);
    }
    assert(crate::cbor::spec_envelope(s) == Ok::<_, CborErrorView>((t, 4int, s.len() as int)));
    lemma_payload_roundtrip(s, 4, p);
}

} // verus!
