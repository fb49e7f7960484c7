//! Typed payload structs for each packet type.
//!
//! Each payload is written as a CBOR map whose keys are the field indices
//! (0, 1, 2, ...); a field whose value is absent and marked optional is left
//! out. When read, a key may also be the field's name, unknown keys are
//! skipped, and absent optional fields read as `None`.
use crate::cbor::{
    array_bytes, encode_null, field_int, field_opt_int, field_opt_text, field_text_array,
    lemma_head_bytes_len, lemma_int_everywhere, lemma_int_item, lemma_null_everywhere,
    lemma_null_item, lemma_text_array, lemma_text_array_everywhere, null_at, null_bytes,
    read_int_field, read_opt_int_field, read_opt_text_field, read_text_array_field, string_views,
    text_at, text_items, texts_fit, keys_ok, item_everywhere, int_at, spec_head, texts_from,
    encode_head, encode_int, encode_text, entries_bytes, field_text, head_bytes, int_bytes,
    lemma_struct_encoded,
    lemma_text_everywhere, lemma_text_item, map_bytes, name_views, occurs_at, read_struct,
    read_text_field, struct_fields, text_bytes, MAX_NESTING,
};
use vstd::prelude::*;
use vstd::utf8::*;

verus! {

/// Whether every string's UTF-8 length can be carried by a CBOR head.
pub open spec fn fits(t: Seq<char>) -> bool {
    encode_utf8(t).len() < 0x1_0000_0000_0000_0000
}

/// The text of a field entry.
pub open spec fn text_entry(k: nat, t: Seq<char>) -> (nat, Seq<u8>) {
    (k, text_bytes(t))
}

/// The integer of a field entry.
pub open spec fn int_entry(k: nat, v: int) -> (nat, Seq<u8>) {
    (k, int_bytes(v))
}

pub proof fn lemma_entries_two(e0: (nat, Seq<u8>), e1: (nat, Seq<u8>))
    ensures
        entries_bytes(seq![e0, e1]) == int_bytes(e0.0 as int) + e0.1 + int_bytes(e1.0 as int)
            + e1.1,
{
    let es = seq![e0, e1];
    assert(es.drop_first() =~= seq![e1]);
    assert(seq![e1].drop_first() =~= Seq::<(nat, Seq<u8>)>::empty());
    assert(entries_bytes(Seq::<(nat, Seq<u8>)>::empty()) =~= Seq::<u8>::empty());
    assert(entries_bytes(seq![e1]) =~= int_bytes(e1.0 as int) + e1.1);
    assert(entries_bytes(es) =~= int_bytes(e0.0 as int) + e0.1 + int_bytes(e1.0 as int) + e1.1);
}

pub proof fn lemma_entries_one(e0: (nat, Seq<u8>))
    ensures
        entries_bytes(seq![e0]) == int_bytes(e0.0 as int) + e0.1,
{
    assert(seq![e0].drop_first() =~= Seq::<(nat, Seq<u8>)>::empty());
    assert(entries_bytes(Seq::<(nat, Seq<u8>)>::empty()) =~= Seq::<u8>::empty());
    assert(entries_bytes(seq![e0]) =~= int_bytes(e0.0 as int) + e0.1);
}

pub proof fn lemma_entries_cons(e0: (nat, Seq<u8>), rest: Seq<(nat, Seq<u8>)>)
    ensures
        entries_bytes(seq![e0] + rest) == int_bytes(e0.0 as int) + e0.1 + entries_bytes(rest),
{
    assert((seq![e0] + rest).drop_first() =~= rest);
}

/// Appends the key and text of one field entry.
fn put_text_entry(buf: &mut Vec<u8>, k: u64, t: &str)
    ensures
        final(buf)@ == old(buf)@ + int_bytes(k as int) + text_bytes(t@),
        fits(t@),
{
    encode_head(buf, 0, k);
    encode_text(buf, t);
    assert(final(buf)@ =~= old(buf)@ + int_bytes(k as int) + text_bytes(t@));
}

/// Appends the key and integer of one field entry.
fn put_int_entry(buf: &mut Vec<u8>, k: u64, v: i64)
    ensures
        final(buf)@ == old(buf)@ + int_bytes(k as int) + int_bytes(v as int),
{
    encode_head(buf, 0, k);
    encode_int(buf, v);
    assert(final(buf)@ =~= old(buf)@ + int_bytes(k as int) + int_bytes(v as int));
}

// ---------------------------------------------------------------------------
// LINK
// ---------------------------------------------------------------------------

/// LINK payload (0x01) - Client → Server
///
/// Payload: `{ 0: linking_code, 1: client_uuid }`
///
/// Sent by the client during initial linking with the linking code
/// received from the Minecraft server.
#[derive(Debug, Clone)]
pub struct LinkPayload {
    /// The linking code from the Minecraft server
    pub linking_code: String,
    /// The client UUID identifying this device
    pub client_uuid: String,
}

/// The entries of a LINK payload.
pub open spec fn link_entries(code: Seq<char>, uuid: Seq<char>) -> Seq<(nat, Seq<u8>)> {
    seq![text_entry(0, code), text_entry(1, uuid)]
}

/// The field names of a LINK payload.
pub open spec fn link_names() -> Seq<Seq<char>> {
    seq!["linking_code"@, "client_uuid"@]
}

/// The LINK payload encoded at `pos`: linking code and client UUID.
pub open spec fn link_from(s: Seq<u8>, pos: int) -> Result<(Seq<char>, Seq<char>), Seq<char>> {
    match struct_fields(s, pos, link_names()) {
        Err(m) => Err(m),
        Ok(acc) => match field_text(s, acc[0], "linking_code"@) {
            Err(m) => Err(m),
            Ok(code) => match field_text(s, acc[1], "client_uuid"@) {
                Err(m) => Err(m),
                Ok(uuid) => Ok((code, uuid)),
            },
        },
    }
}

impl LinkPayload {
    /// Encodes this payload.
    pub fn to_cbor(&self) -> (r: Vec<u8>)
        ensures
            r@ == map_bytes(link_entries(self.linking_code@, self.client_uuid@)),
            fits(self.linking_code@),
            fits(self.client_uuid@),
    {
        let mut buf: Vec<u8> = Vec::new();
        encode_head(&mut buf, 5, 2);
        put_text_entry(&mut buf, 0, self.linking_code.as_str());
        put_text_entry(&mut buf, 1, self.client_uuid.as_str());
        proof {
            lemma_entries_two(
                text_entry(0, self.linking_code@),
                text_entry(1, self.client_uuid@),
            );
        }
        assert(buf@ =~= map_bytes(link_entries(self.linking_code@, self.client_uuid@)));
        buf
    }

    /// Decodes the payload encoded at `pos`.
    pub fn from_cbor(s: &[u8], pos: usize) -> (r: Result<LinkPayload, String>)
        ensures
            match r {
                Ok(p) => link_from(s@, pos as int) == Ok::<_, Seq<char>>(
                    (p.linking_code@, p.client_uuid@),
                ),
                Err(m) => link_from(s@, pos as int) == Err::<(Seq<char>, Seq<char>), _>(m@),
            },
    {
        let names: [&str; 2] = ["linking_code", "client_uuid"];
        assert(name_views(names@) =~= link_names());
        let acc = match read_struct(s, pos, &names) {
            Ok(a) => a,
            Err(m) => return Err(m),
        };
        let linking_code = match read_text_field(s, &acc, 0, "linking_code") {
            Ok(t) => t,
            Err(m) => return Err(m),
        };
        let client_uuid = match read_text_field(s, &acc, 1, "client_uuid") {
            Ok(t) => t,
            Err(m) => return Err(m),
        };
        Ok(LinkPayload { linking_code, client_uuid })
    }
}

/// A LINK payload is the map `{ 0: linking_code, 1: client_uuid }`, and
/// reading such a map gives the code under key 0 and the UUID under key 1.
pub proof fn lemma_link_layout(s: Seq<u8>, pos: int, code: Seq<char>, uuid: Seq<char>)
    ensures
        map_bytes(link_entries(code, uuid)) == head_bytes(5, 2) + int_bytes(0) + text_bytes(code)
            + int_bytes(1) + text_bytes(uuid),
        fits(code) && fits(uuid) && occurs_at(
            s,
            pos,
            head_bytes(5, 2) + int_bytes(0) + text_bytes(code) + int_bytes(1) + text_bytes(uuid),
        ) ==> link_from(s, pos) == Ok::<_, Seq<char>>((code, uuid)),
{
    lemma_entries_two(text_entry(0, code), text_entry(1, uuid));
    assert(map_bytes(link_entries(code, uuid)) =~= head_bytes(5, 2) + int_bytes(0) + text_bytes(
        code,
    ) + int_bytes(1) + text_bytes(uuid));
    if fits(code) && fits(uuid) && occurs_at(s, pos, map_bytes(link_entries(code, uuid))) {
        lemma_link_roundtrip(s, pos, code, uuid);
    }
}

/// An encoded LINK payload reads back as the same fields.
pub proof fn lemma_link_roundtrip(s: Seq<u8>, pos: int, code: Seq<char>, uuid: Seq<char>)
    requires
        fits(code),
        fits(uuid),
        occurs_at(s, pos, map_bytes(link_entries(code, uuid))),
    ensures
        link_from(s, pos) == Ok::<_, Seq<char>>((code, uuid)),
{
    let es = link_entries(code, uuid);
    lemma_text_everywhere(s, code, MAX_NESTING as nat);
    lemma_text_everywhere(s, uuid, MAX_NESTING as nat);
    assert(es[0] == text_entry(0, code) && es[1] == text_entry(1, uuid));
    lemma_struct_encoded(s, pos, es, link_names());
    let acc = struct_fields(s, pos, link_names())->Ok_0;
    assert(es[0].0 == 0 && es[1].0 == 1);
    let (a0, b0) = acc[0]->Some_0;
    let (a1, b1) = acc[1]->Some_0;
    lemma_text_item(s, a0, code, 0);
    lemma_text_item(s, a1, uuid, 0);
}


// ---------------------------------------------------------------------------
// LINK_OK
// ---------------------------------------------------------------------------

/// LINK_OK payload (0x02) - Server → Client
///
/// Payload: `{ 0: minecraft_uuid }`
///
/// Sent by the server when linking succeeds, containing the
/// Minecraft account UUID.
#[derive(Debug, Clone)]
pub struct LinkOkPayload {
    /// The Minecraft UUID of the linked account
    pub minecraft_uuid: String,
}

/// The entries of a LINK_OK payload.
pub open spec fn link_ok_entries(uuid: Seq<char>) -> Seq<(nat, Seq<u8>)> {
    seq![text_entry(0, uuid)]
}

/// The field names of a LINK_OK payload.
pub open spec fn link_ok_names() -> Seq<Seq<char>> {
    seq!["minecraft_uuid"@]
}

/// The LINK_OK payload encoded at `pos`: the Minecraft UUID.
pub open spec fn link_ok_from(s: Seq<u8>, pos: int) -> Result<Seq<char>, Seq<char>> {
    match struct_fields(s, pos, link_ok_names()) {
        Err(m) => Err(m),
        Ok(acc) => field_text(s, acc[0], "minecraft_uuid"@),
    }
}

impl LinkOkPayload {
    /// Encodes this payload.
    pub fn to_cbor(&self) -> (r: Vec<u8>)
        ensures
            r@ == map_bytes(link_ok_entries(self.minecraft_uuid@)),
            fits(self.minecraft_uuid@),
    {
        let mut buf: Vec<u8> = Vec::new();
        encode_head(&mut buf, 5, 1);
        put_text_entry(&mut buf, 0, self.minecraft_uuid.as_str());
        proof {
            lemma_entries_one(text_entry(0, self.minecraft_uuid@));
        }
        assert(buf@ =~= map_bytes(link_ok_entries(self.minecraft_uuid@)));
        buf
    }

    /// Decodes the payload encoded at `pos`.
    pub fn from_cbor(s: &[u8], pos: usize) -> (r: Result<LinkOkPayload, String>)
        ensures
            match r {
                Ok(p) => link_ok_from(s@, pos as int) == Ok::<_, Seq<char>>(p.minecraft_uuid@),
                Err(m) => link_ok_from(s@, pos as int) == Err::<Seq<char>, _>(m@),
            },
    {
        let names: [&str; 1] = ["minecraft_uuid"];
        assert(name_views(names@) =~= link_ok_names());
        let acc = match read_struct(s, pos, &names) {
            Ok(a) => a,
            Err(m) => return Err(m),
        };
        match read_text_field(s, &acc, 0, "minecraft_uuid") {
            Ok(minecraft_uuid) => Ok(LinkOkPayload { minecraft_uuid }),
            Err(m) => Err(m),
        }
    }
}

/// An encoded LINK_OK payload reads back as the same field.
pub proof fn lemma_link_ok_roundtrip(s: Seq<u8>, pos: int, uuid: Seq<char>)
    requires
        fits(uuid),
        occurs_at(s, pos, map_bytes(link_ok_entries(uuid))),
    ensures
        link_ok_from(s, pos) == Ok::<_, Seq<char>>(uuid),
{
    let es = link_ok_entries(uuid);
    lemma_text_everywhere(s, uuid, MAX_NESTING as nat);
    assert(es[0] == text_entry(0, uuid));
    lemma_struct_encoded(s, pos, es, link_ok_names());
    let acc = struct_fields(s, pos, link_ok_names())->Ok_0;
    let (a0, b0) = acc[0]->Some_0;
    lemma_text_item(s, a0, uuid, 0);
}

// ---------------------------------------------------------------------------
// CAPABILITIES
// ---------------------------------------------------------------------------

/// CAPABILITIES payload (0x03) - Client → Server
///
/// Payload: `{ 0: supported_formats, 1: preferred_format }`
///
/// Sent by the client immediately after linking or reconnecting
/// to declare supported features. An absent preferred format is
/// written as null.
#[derive(Debug, Clone)]
pub struct CapabilitiesPayload {
    /// The message formats the client supports
    pub supported_formats: Vec<String>,
    /// The client's preferred format for receiving messages
    pub preferred_format: Option<String>,
}

/// The encoding of an optional text: the text, or null.
pub open spec fn opt_text_bytes(t: Option<Seq<char>>) -> Seq<u8> {
    match t {
        Some(v) => text_bytes(v),
        None => null_bytes(),
    }
}

/// The entries of a CAPABILITIES payload.
pub open spec fn capabilities_entries(formats: Seq<Seq<char>>, preferred: Option<Seq<char>>) -> Seq<
    (nat, Seq<u8>),
> {
    seq![(0nat, array_bytes(text_items(formats))), (1nat, opt_text_bytes(preferred))]
}

/// The field names of a CAPABILITIES payload.
pub open spec fn capabilities_names() -> Seq<Seq<char>> {
    seq!["supported_formats"@, "preferred_format"@]
}

/// The CAPABILITIES payload encoded at `pos`: supported and preferred formats.
pub open spec fn capabilities_from(s: Seq<u8>, pos: int) -> Result<
    (Seq<Seq<char>>, Option<Seq<char>>),
    Seq<char>,
> {
    match struct_fields(s, pos, capabilities_names()) {
        Err(m) => Err(m),
        Ok(acc) => match field_text_array(s, acc[0], "supported_formats"@) {
            Err(m) => Err(m),
            Ok(formats) => match field_opt_text(s, acc[1], "preferred_format"@) {
                Err(m) => Err(m),
                Ok(preferred) => Ok((formats, preferred)),
            },
        },
    }
}

/// The view of an optional string.
pub open spec fn opt_view(o: Option<String>) -> Option<Seq<char>> {
    match o {
        Some(t) => Some(t@),
        None => None,
    }
}

/// Appends an array of texts.
fn put_text_array(buf: &mut Vec<u8>, ts: &Vec<String>)
    ensures
        final(buf)@ == old(buf)@ + array_bytes(text_items(string_views(ts@))),
        texts_fit(string_views(ts@)),
        ts@.len() <= usize::MAX,
{
    let n = ts.len();
    encode_head(buf, 4, n as u64);
    let ghost start = buf@;
    let ghost items = text_items(string_views(ts@));
    let mut i: usize = 0;
    while i < n
        invariant
            n == ts@.len(),
            i <= n,
            items == text_items(string_views(ts@)),
            buf@ == start + crate::cbor::concat_all(items.subrange(0, i as int)),
            forall|j: int| 0 <= j < i ==> fits(#[trigger] string_views(ts@)[j]),
        decreases n - i,
    {
        encode_text(buf, ts[i].as_str());
        proof {
            lemma_concat_snoc(items, i as int);
        }
        i = i + 1;
    }
    assert(items.subrange(0, n as int) =~= items);
    assert(texts_fit(string_views(ts@)));
}

pub proof fn lemma_concat_snoc(items: Seq<Seq<u8>>, i: int)
    requires
        0 <= i < items.len(),
    ensures
        crate::cbor::concat_all(items.subrange(0, i + 1)) == crate::cbor::concat_all(
            items.subrange(0, i),
        ) + items[i],
    decreases i,
{
    let a = items.subrange(0, i + 1);
    if i == 0 {
        assert(a.drop_first() =~= Seq::<Seq<u8>>::empty());
        assert(crate::cbor::concat_all(Seq::<Seq<u8>>::empty()) =~= Seq::<u8>::empty());
        assert(crate::cbor::concat_all(a) =~= items[0]);
        assert(items.subrange(0, 0) =~= Seq::<Seq<u8>>::empty());
    } else {
        let rest = items.drop_first();
        lemma_concat_snoc(rest, i - 1);
        assert(a.drop_first() =~= rest.subrange(0, i));
        assert(items.subrange(0, i).drop_first() =~= rest.subrange(0, i - 1));
        assert(rest[i - 1] == items[i]);
    }
}

impl CapabilitiesPayload {
    /// Encodes this payload.
    pub fn to_cbor(&self) -> (r: Vec<u8>)
        ensures
            r@ == map_bytes(
                capabilities_entries(
                    string_views(self.supported_formats@),
                    opt_view(self.preferred_format),
                ),
            ),
            texts_fit(string_views(self.supported_formats@)),
            self.supported_formats@.len() <= usize::MAX,
            self.preferred_format matches Some(t) ==> fits(t@),
    {
        let mut buf: Vec<u8> = Vec::new();
        encode_head(&mut buf, 5, 2);
        encode_head(&mut buf, 0, 0);
        put_text_array(&mut buf, &self.supported_formats);
        encode_head(&mut buf, 0, 1);
        match &self.preferred_format {
            Some(t) => encode_text(&mut buf, t.as_str()),
            None => encode_null(&mut buf),
        }
        let ghost es = capabilities_entries(
            string_views(self.supported_formats@),
            opt_view(self.preferred_format),
        );
        proof {
            lemma_entries_two(es[0], es[1]);
            assert(es =~= seq![es[0], es[1]]);
        }
        assert(buf@ =~= map_bytes(es));
        buf
    }

    /// Decodes the payload encoded at `pos`.
    pub fn from_cbor(s: &[u8], pos: usize) -> (r: Result<CapabilitiesPayload, String>)
        ensures
            match r {
                Ok(p) => capabilities_from(s@, pos as int) == Ok::<_, Seq<char>>(
                    (string_views(p.supported_formats@), opt_view(p.preferred_format)),
                ),
                Err(m) => capabilities_from(s@, pos as int) == Err::<
                    (Seq<Seq<char>>, Option<Seq<char>>),
                    _,
                >(m@),
            },
    {
        let names: [&str; 2] = ["supported_formats", "preferred_format"];
        assert(name_views(names@) =~= capabilities_names());
        let acc = match read_struct(s, pos, &names) {
            Ok(a) => a,
            Err(m) => return Err(m),
        };
        let supported_formats = match read_text_array_field(s, &acc, 0, "supported_formats") {
            Ok(v) => v,
            Err(m) => return Err(m),
        };
        let preferred_format = match read_opt_text_field(s, &acc, 1, "preferred_format") {
            Ok(v) => v,
            Err(m) => return Err(m),
        };
        Ok(CapabilitiesPayload { supported_formats, preferred_format })
    }
}

/// A CAPABILITIES payload is the map `{ 0: supported_formats,
/// 1: preferred_format }`, and reading such a map gives the formats under
/// key 0 and the preferred format under key 1.
pub proof fn lemma_capabilities_layout(
    s: Seq<u8>,
    pos: int,
    formats: Seq<Seq<char>>,
    preferred: Option<Seq<char>>,
)
    ensures
        map_bytes(capabilities_entries(formats, preferred)) == head_bytes(5, 2) + int_bytes(0)
            + array_bytes(text_items(formats)) + int_bytes(1) + opt_text_bytes(preferred),
        texts_fit(formats) && formats.len() < 0x1_0000_0000_0000_0000 && (preferred matches Some(
            t,
        ) ==> fits(t)) && occurs_at(
            s,
            pos,
            head_bytes(5, 2) + int_bytes(0) + array_bytes(text_items(formats)) + int_bytes(1)
                + opt_text_bytes(preferred),
        ) ==> capabilities_from(s, pos) == Ok::<_, Seq<char>>((formats, preferred)),
{
    lemma_entries_two((0nat, array_bytes(text_items(formats))), (1nat, opt_text_bytes(preferred)));
    assert(map_bytes(capabilities_entries(formats, preferred)) =~= head_bytes(5, 2) + int_bytes(0)
        + array_bytes(text_items(formats)) + int_bytes(1) + opt_text_bytes(preferred));
    if texts_fit(formats) && formats.len() < 0x1_0000_0000_0000_0000 && (preferred matches Some(
        t,
    ) ==> fits(t)) && occurs_at(s, pos, map_bytes(capabilities_entries(formats, preferred))) {
        lemma_capabilities_roundtrip(s, pos, formats, preferred);
    }
}

/// An encoded CAPABILITIES payload reads back as the same fields.
pub proof fn lemma_capabilities_roundtrip(
    s: Seq<u8>,
    pos: int,
    formats: Seq<Seq<char>>,
    preferred: Option<Seq<char>>,
)
    requires
        texts_fit(formats),
        formats.len() < 0x1_0000_0000_0000_0000,
        preferred matches Some(t) ==> fits(t),
        occurs_at(s, pos, map_bytes(capabilities_entries(formats, preferred))),
    ensures
        capabilities_from(s, pos) == Ok::<_, Seq<char>>((formats, preferred)),
{
    let es = capabilities_entries(formats, preferred);
    lemma_text_array_everywhere(s, formats, (MAX_NESTING - 1) as nat);
    match preferred {
        Some(t) => lemma_text_everywhere(s, t, MAX_NESTING as nat),
        None => lemma_null_everywhere(s, MAX_NESTING as nat),
    }
    lemma_struct_encoded(s, pos, es, capabilities_names());
    let acc = struct_fields(s, pos, capabilities_names())->Ok_0;
    assert(es[0].0 == 0 && es[1].0 == 1);
    let (a0, b0) = acc[0]->Some_0;
    let (a1, b1) = acc[1]->Some_0;
    lemma_text_array(s, a0, formats, 0);
    match preferred {
        Some(t) => {
            lemma_text_item(s, a1, t, 0);
            assert(s[a1] == s.subrange(a1, a1 + text_bytes(t).len())[0]);
            lemma_head_bytes_len(3, encode_utf8(t).len());
        },
        None => lemma_null_item(s, a1, 0),
    }
}

// ---------------------------------------------------------------------------
// AUTH_OK
// ---------------------------------------------------------------------------

/// AUTH_OK payload (0x04) - Server → Client
///
/// Payload: `{}` (empty)
///
/// Indicates that authentication is complete and the client
/// may begin sending messages.
#[derive(Debug, Clone)]
pub struct AuthOkPayload {}

impl AuthOkPayload {
    /// Encodes this payload: the empty map.
    pub fn to_cbor(&self) -> (r: Vec<u8>)
        ensures
            r@ == map_bytes(Seq::<(nat, Seq<u8>)>::empty()),
    {
        let mut buf: Vec<u8> = Vec::new();
        encode_head(&mut buf, 5, 0);
        assert(entries_bytes(Seq::<(nat, Seq<u8>)>::empty()) =~= Seq::<u8>::empty());
        assert(buf@ =~= map_bytes(Seq::<(nat, Seq<u8>)>::empty()));
        buf
    }
}


// ---------------------------------------------------------------------------
// CHAT_MESSAGE
// ---------------------------------------------------------------------------

/// CHAT_MESSAGE payload (0x05) - Bidirectional
///
/// Payload: `{ 0: format, 1: content }`
///
/// Carries chat messages between client and server. The format
/// field indicates whether content is CommonMark or Minecraft
/// text components.
#[derive(Debug, Clone)]
pub struct ChatMessagePayload {
    /// The message format ("commonmark" or "components")
    pub format: String,
    /// The message content
    pub content: String,
}

/// The entries of a CHAT_MESSAGE payload.
pub open spec fn chat_entries(format: Seq<char>, content: Seq<char>) -> Seq<(nat, Seq<u8>)> {
    seq![text_entry(0, format), text_entry(1, content)]
}

/// The field names of a CHAT_MESSAGE payload.
pub open spec fn chat_names() -> Seq<Seq<char>> {
    seq!["format"@, "content"@]
}

/// The CHAT_MESSAGE payload encoded at `pos`: format and content.
pub open spec fn chat_from(s: Seq<u8>, pos: int) -> Result<(Seq<char>, Seq<char>), Seq<char>> {
    match struct_fields(s, pos, chat_names()) {
        Err(m) => Err(m),
        Ok(acc) => match field_text(s, acc[0], "format"@) {
            Err(m) => Err(m),
            Ok(format) => match field_text(s, acc[1], "content"@) {
                Err(m) => Err(m),
                Ok(content) => Ok((format, content)),
            },
        },
    }
}

impl ChatMessagePayload {
    /// Encodes this payload.
    pub fn to_cbor(&self) -> (r: Vec<u8>)
        ensures
            r@ == map_bytes(chat_entries(self.format@, self.content@)),
            r@ == head_bytes(5, 2) + int_bytes(0) + text_bytes(self.format@) + int_bytes(1)
                + text_bytes(self.content@),
            fits(self.format@),
            fits(self.content@),
    {
        let mut buf: Vec<u8> = Vec::new();
        encode_head(&mut buf, 5, 2);
        put_text_entry(&mut buf, 0, self.format.as_str());
        put_text_entry(&mut buf, 1, self.content.as_str());
        proof {
            lemma_entries_two(text_entry(0, self.format@), text_entry(1, self.content@));
        }
        assert(buf@ =~= map_bytes(chat_entries(self.format@, self.content@)));
        proof {
            lemma_chat_layout(self.format@, self.content@);
        }
        buf
    }

    /// Decodes the payload encoded at `pos`.
    pub fn from_cbor(s: &[u8], pos: usize) -> (r: Result<ChatMessagePayload, String>)
        ensures
            match r {
                Ok(p) => chat_from(s@, pos as int) == Ok::<_, Seq<char>>((p.format@, p.content@)),
                Err(m) => chat_from(s@, pos as int) == Err::<(Seq<char>, Seq<char>), _>(m@),
            },
    {
        let names: [&str; 2] = ["format", "content"];
        assert(name_views(names@) =~= chat_names());
        let acc = match read_struct(s, pos, &names) {
            Ok(a) => a,
            Err(m) => return Err(m),
        };
        let format = match read_text_field(s, &acc, 0, "format") {
            Ok(t) => t,
            Err(m) => return Err(m),
        };
        let content = match read_text_field(s, &acc, 1, "content") {
            Ok(t) => t,
            Err(m) => return Err(m),
        };
        Ok(ChatMessagePayload { format, content })
    }
}

/// A CHAT_MESSAGE payload is the map `{ 0: format, 1: content }`: key 0
/// carries the format and key 1 the content.
pub proof fn lemma_chat_layout(format: Seq<char>, content: Seq<char>)
    ensures
        map_bytes(chat_entries(format, content)) == head_bytes(5, 2) + int_bytes(0) + text_bytes(
            format,
        ) + int_bytes(1) + text_bytes(content),
{
    lemma_entries_two(text_entry(0, format), text_entry(1, content));
    assert(map_bytes(chat_entries(format, content)) =~= head_bytes(5, 2) + int_bytes(0)
        + text_bytes(format) + int_bytes(1) + text_bytes(content));
}

/// Reading the map `{ 0: f, 1: c }` as a CHAT_MESSAGE payload gives the
/// format `f` (key 0) and the content `c` (key 1).
pub proof fn lemma_chat_reads_keys(s: Seq<u8>, pos: int, f: Seq<char>, c: Seq<char>)
    requires
        fits(f),
        fits(c),
        occurs_at(
            s,
            pos,
            head_bytes(5, 2) + int_bytes(0) + text_bytes(f) + int_bytes(1) + text_bytes(c),
        ),
    ensures
        chat_from(s, pos) == Ok::<_, Seq<char>>((f, c)),
{
    lemma_chat_layout(f, c);
    lemma_chat_roundtrip(s, pos, f, c);
}

/// An encoded CHAT_MESSAGE payload reads back as the same fields.
pub proof fn lemma_chat_roundtrip(s: Seq<u8>, pos: int, format: Seq<char>, content: Seq<char>)
    requires
        fits(format),
        fits(content),
        occurs_at(s, pos, map_bytes(chat_entries(format, content))),
    ensures
        chat_from(s, pos) == Ok::<_, Seq<char>>((format, content)),
{
    let es = chat_entries(format, content);
    lemma_text_everywhere(s, format, MAX_NESTING as nat);
    lemma_text_everywhere(s, content, MAX_NESTING as nat);
    assert(es[0] == text_entry(0, format) && es[1] == text_entry(1, content));
    lemma_struct_encoded(s, pos, es, chat_names());
    let acc = struct_fields(s, pos, chat_names())->Ok_0;
    assert(es[0].0 == 0 && es[1].0 == 1);
    let (a0, b0) = acc[0]->Some_0;
    let (a1, b1) = acc[1]->Some_0;
    lemma_text_item(s, a0, format, 0);
    lemma_text_item(s, a1, content, 0);
}

// ---------------------------------------------------------------------------
// PING and PONG
// ---------------------------------------------------------------------------

/// PING payload (0x06) - Bidirectional
///
/// Payload: `{ 0: timestamp_ms }`
///
/// Keep-alive packet for connection maintenance and RTT measurement.
#[derive(Debug, Clone)]
pub struct PingPayload {
    /// Timestamp in milliseconds
    pub timestamp_ms: i64,
}

/// PONG payload (0x07) - Bidirectional
///
/// Payload: `{ 0: timestamp_ms }`
///
/// Response to PING packet. The timestamp MUST match the
/// corresponding PING.
#[derive(Debug, Clone)]
pub struct PongPayload {
    /// Timestamp in milliseconds (must match the corresponding PING)
    pub timestamp_ms: i64,
}

/// The entries of a PING or PONG payload.
pub open spec fn timestamp_entries(ts: i64) -> Seq<(nat, Seq<u8>)> {
    seq![int_entry(0, ts as int)]
}

/// The field names of a PING or PONG payload.
pub open spec fn timestamp_names() -> Seq<Seq<char>> {
    seq!["timestamp_ms"@]
}

/// The PING or PONG payload encoded at `pos`: the timestamp.
pub open spec fn timestamp_from(s: Seq<u8>, pos: int) -> Result<i64, Seq<char>> {
    match struct_fields(s, pos, timestamp_names()) {
        Err(m) => Err(m),
        Ok(acc) => match field_int(s, acc[0], "timestamp_ms"@, i64::MIN as int, i64::MAX as int) {
            Err(m) => Err(m),
            Ok(v) => Ok(v as i64),
        },
    }
}

fn timestamp_to_cbor(ts: i64) -> (r: Vec<u8>)
    ensures
        r@ == map_bytes(timestamp_entries(ts)),
{
    let mut buf: Vec<u8> = Vec::new();
    encode_head(&mut buf, 5, 1);
    put_int_entry(&mut buf, 0, ts);
    proof {
        lemma_entries_one(int_entry(0, ts as int));
    }
    assert(buf@ =~= map_bytes(timestamp_entries(ts)));
    buf
}

fn timestamp_from_cbor(s: &[u8], pos: usize) -> (r: Result<i64, String>)
    ensures
        match r {
            Ok(v) => timestamp_from(s@, pos as int) == Ok::<_, Seq<char>>(v),
            Err(m) => timestamp_from(s@, pos as int) == Err::<i64, _>(m@),
        },
{
    let names: [&str; 1] = ["timestamp_ms"];
    assert(name_views(names@) =~= timestamp_names());
    let acc = match read_struct(s, pos, &names) {
        Ok(a) => a,
        Err(m) => return Err(m),
    };
    read_int_field(s, &acc, 0, "timestamp_ms", i64::MIN, i64::MAX)
}

impl PingPayload {
    /// Encodes this payload.
    pub fn to_cbor(&self) -> (r: Vec<u8>)
        ensures
            r@ == map_bytes(timestamp_entries(self.timestamp_ms)),
    {
        timestamp_to_cbor(self.timestamp_ms)
    }

    /// Decodes the payload encoded at `pos`.
    pub fn from_cbor(s: &[u8], pos: usize) -> (r: Result<PingPayload, String>)
        ensures
            match r {
                Ok(p) => timestamp_from(s@, pos as int) == Ok::<_, Seq<char>>(p.timestamp_ms),
                Err(m) => timestamp_from(s@, pos as int) == Err::<i64, _>(m@),
            },
    {
        match timestamp_from_cbor(s, pos) {
            Ok(timestamp_ms) => Ok(PingPayload { timestamp_ms }),
            Err(m) => Err(m),
        }
    }
}

impl PongPayload {
    /// Encodes this payload.
    pub fn to_cbor(&self) -> (r: Vec<u8>)
        ensures
            r@ == map_bytes(timestamp_entries(self.timestamp_ms)),
    {
        timestamp_to_cbor(self.timestamp_ms)
    }

    /// Decodes the payload encoded at `pos`.
    pub fn from_cbor(s: &[u8], pos: usize) -> (r: Result<PongPayload, String>)
        ensures
            match r {
                Ok(p) => timestamp_from(s@, pos as int) == Ok::<_, Seq<char>>(p.timestamp_ms),
                Err(m) => timestamp_from(s@, pos as int) == Err::<i64, _>(m@),
            },
    {
        match timestamp_from_cbor(s, pos) {
            Ok(timestamp_ms) => Ok(PongPayload { timestamp_ms }),
            Err(m) => Err(m),
        }
    }
}

/// An encoded PING or PONG payload reads back as the same timestamp.
pub proof fn lemma_timestamp_roundtrip(s: Seq<u8>, pos: int, ts: i64)
    requires
        occurs_at(s, pos, map_bytes(timestamp_entries(ts))),
    ensures
        timestamp_from(s, pos) == Ok::<_, Seq<char>>(ts),
{
    let es = timestamp_entries(ts);
    lemma_int_everywhere(s, ts as int, MAX_NESTING as nat);
    lemma_struct_encoded(s, pos, es, timestamp_names());
    let acc = struct_fields(s, pos, timestamp_names())->Ok_0;
    let (a0, b0) = acc[0]->Some_0;
    lemma_int_item(s, a0, ts as int, 0);
}

// ---------------------------------------------------------------------------
// MODERATION
// ---------------------------------------------------------------------------

/// MODERATION payload (0x08) - Server → Client
///
/// Payload: `{ 0: action, 1: scope, 2: reason?, 3: duration_seconds? }`
///
/// Used by the server to enforce moderation actions such as warnings,
/// mutes, kicks, or bans.
#[derive(Debug, Clone)]
pub struct ModerationPayload {
    /// The moderation action (0=warn, 1=mute, 2=kick, 3=ban)
    pub action: i32,
    /// The scope of the moderation (0=client, 1=account)
    pub scope: i32,
    /// Optional reason for the moderation action (left out when absent)
    pub reason: Option<String>,
    /// Optional duration in seconds (for mute/ban; left out when absent)
    pub duration_seconds: Option<i32>,
}

/// The entries of a MODERATION payload: absent optional fields are left out.
pub open spec fn moderation_entries(
    action: i32,
    scope: i32,
    reason: Option<Seq<char>>,
    duration: Option<i32>,
) -> Seq<(nat, Seq<u8>)> {
    seq![int_entry(0, action as int), int_entry(1, scope as int)] + match reason {
        Some(r) => seq![text_entry(2, r)],
        None => Seq::<(nat, Seq<u8>)>::empty(),
    } + match duration {
        Some(d) => seq![int_entry(3, d as int)],
        None => Seq::<(nat, Seq<u8>)>::empty(),
    }
}

/// The field names of a MODERATION payload.
pub open spec fn moderation_names() -> Seq<Seq<char>> {
    seq!["action"@, "scope"@, "reason"@, "duration_seconds"@]
}

/// The MODERATION payload encoded at `pos`.
pub open spec fn moderation_from(s: Seq<u8>, pos: int) -> Result<
    (i32, i32, Option<Seq<char>>, Option<i32>),
    Seq<char>,
> {
    match struct_fields(s, pos, moderation_names()) {
        Err(m) => Err(m),
        Ok(acc) => match field_int(s, acc[0], "action"@, i32::MIN as int, i32::MAX as int) {
            Err(m) => Err(m),
            Ok(action) => match field_int(s, acc[1], "scope"@, i32::MIN as int, i32::MAX as int) {
                Err(m) => Err(m),
                Ok(scope) => match field_opt_text(s, acc[2], "reason"@) {
                    Err(m) => Err(m),
                    Ok(reason) => match field_opt_int(
                        s,
                        acc[3],
                        "duration_seconds"@,
                        i32::MIN as int,
                        i32::MAX as int,
                    ) {
                        Err(m) => Err(m),
                        Ok(duration) => Ok(
                            (
                                action as i32,
                                scope as i32,
                                reason,
                                match duration {
                                    Some(d) => Some(d as i32),
                                    None => None,
                                },
                            ),
                        ),
                    },
                },
            },
        },
    }
}

impl ModerationPayload {
    /// Encodes this payload.
    #[verifier::spinoff_prover]
    #[verifier::rlimit(40)]
    pub fn to_cbor(&self) -> (r: Vec<u8>)
        ensures
            r@ == map_bytes(
                moderation_entries(
                    self.action,
                    self.scope,
                    opt_view(self.reason),
                    self.duration_seconds,
                ),
            ),
            r@ == head_bytes(
                5,
                moderation_count(opt_view(self.reason), self.duration_seconds),
            ) + int_bytes(0) + int_bytes(self.action as int) + int_bytes(1) + int_bytes(
                self.scope as int,
            ) + moderation_optional_bytes(opt_view(self.reason), self.duration_seconds),
            self.reason matches Some(t) ==> fits(t@),
    {
        let ghost es = moderation_entries(
            self.action,
            self.scope,
            opt_view(self.reason),
            self.duration_seconds,
        );
        let mut n: u64 = 2;
        if self.reason.is_some() {
            n = n + 1;
        }
        if self.duration_seconds.is_some() {
            n = n + 1;
        }
        let mut buf: Vec<u8> = Vec::new();
        encode_head(&mut buf, 5, n);
        let ghost h = buf@;
        put_int_entry(&mut buf, 0, self.action as i64);
        put_int_entry(&mut buf, 1, self.scope as i64);
        match &self.reason {
            Some(r) => put_text_entry(&mut buf, 2, r.as_str()),
            None => {},
        }
        match self.duration_seconds {
            Some(d) => put_int_entry(&mut buf, 3, d as i64),
            None => {},
        }
        proof {
            let e0 = int_entry(0, self.action as int);
            let e1 = int_entry(1, self.scope as int);
            let tail = match opt_view(self.reason) {
                Some(r) => seq![text_entry(2, r)],
                None => Seq::<(nat, Seq<u8>)>::empty(),
            } + match self.duration_seconds {
                Some(d) => seq![int_entry(3, d as int)],
                None => Seq::<(nat, Seq<u8>)>::empty(),
            };
            assert(es =~= seq![e0] + (seq![e1] + tail));
            lemma_entries_cons(e0, seq![e1] + tail);
            lemma_entries_cons(e1, tail);
            assert(entries_bytes(Seq::<(nat, Seq<u8>)>::empty()) =~= Seq::<u8>::empty());
            match opt_view(self.reason) {
                Some(r) => {
                    match self.duration_seconds {
                        Some(d) => {
                            assert(tail =~= seq![text_entry(2, r), int_entry(3, d as int)]);
                            lemma_entries_two(text_entry(2, r), int_entry(3, d as int));
                        },
                        None => {
                            assert(tail =~= seq![text_entry(2, r)]);
                            lemma_entries_one(text_entry(2, r));
                        },
                    }
                },
                None => {
                    match self.duration_seconds {
                        Some(d) => {
                            assert(tail =~= seq![int_entry(3, d as int)]);
                            lemma_entries_one(int_entry(3, d as int));
                        },
                        None => {
                            assert(tail =~= Seq::<(nat, Seq<u8>)>::empty());
                        },
                    }
                },
            }
        }
        assert(buf@ =~= map_bytes(es));
        proof {
            lemma_moderation_layout(
                self.action,
                self.scope,
                opt_view(self.reason),
                self.duration_seconds,
            );
        }
        buf
    }

    /// Decodes the payload encoded at `pos`.
    pub fn from_cbor(s: &[u8], pos: usize) -> (r: Result<ModerationPayload, String>)
        ensures
            match r {
                Ok(p) => moderation_from(s@, pos as int) == Ok::<_, Seq<char>>(
                    (p.action, p.scope, opt_view(p.reason), p.duration_seconds),
                ),
                Err(m) => moderation_from(s@, pos as int) == Err::<
                    (i32, i32, Option<Seq<char>>, Option<i32>),
                    _,
                >(m@),
            },
    {
        let names: [&str; 4] = ["action", "scope", "reason", "duration_seconds"];
        assert(name_views(names@) =~= moderation_names());
        let acc = match read_struct(s, pos, &names) {
            Ok(a) => a,
            Err(m) => return Err(m),
        };
        let action = match read_int_field(s, &acc, 0, "action", i32::MIN as i64, i32::MAX as i64) {
            Ok(v) => v as i32,
            Err(m) => return Err(m),
        };
        let scope = match read_int_field(s, &acc, 1, "scope", i32::MIN as i64, i32::MAX as i64) {
            Ok(v) => v as i32,
            Err(m) => return Err(m),
        };
        let reason = match read_opt_text_field(s, &acc, 2, "reason") {
            Ok(v) => v,
            Err(m) => return Err(m),
        };
        let duration_seconds = match read_opt_int_field(
            s,
            &acc,
            3,
            "duration_seconds",
            i32::MIN as i64,
            i32::MAX as i64,
        ) {
            Ok(Some(v)) => Some(v as i32),
            Ok(None) => None,
            Err(m) => return Err(m),
        };
        Ok(ModerationPayload { action, scope, reason, duration_seconds })
    }
}

/// The bytes of the optional entries of a MODERATION payload: key 2 with
/// the reason, key 3 with the duration, each only when present.
pub open spec fn moderation_optional_bytes(reason: Option<Seq<char>>, duration: Option<i32>) -> Seq<
    u8,
> {
    (match reason {
        Some(r) => int_bytes(2) + text_bytes(r),
        None => Seq::empty(),
    }) + match duration {
        Some(d) => int_bytes(3) + int_bytes(d as int),
        None => Seq::empty(),
    }
}

/// The number of entries of a MODERATION payload: two, and one for each
/// optional field present.
pub open spec fn moderation_count(reason: Option<Seq<char>>, duration: Option<i32>) -> nat {
    2 + (if reason is Some { 1nat } else { 0nat }) + (if duration is Some { 1nat } else { 0nat })
}

/// A MODERATION payload is the map `{ 0: action, 1: scope, 2: reason?,
/// 3: duration_seconds? }`: key 0 carries the action and key 1 the scope.
pub proof fn lemma_moderation_layout(
    action: i32,
    scope: i32,
    reason: Option<Seq<char>>,
    duration: Option<i32>,
)
    ensures
        map_bytes(moderation_entries(action, scope, reason, duration)) == head_bytes(
            5,
            moderation_count(reason, duration),
        ) + int_bytes(0) + int_bytes(action as int) + int_bytes(1) + int_bytes(scope as int)
            + moderation_optional_bytes(reason, duration),
{
    let es = moderation_entries(action, scope, reason, duration);
    let e0 = int_entry(0, action as int);
    let e1 = int_entry(1, scope as int);
    let tail = match reason {
        Some(r) => seq![text_entry(2, r)],
        None => Seq::<(nat, Seq<u8>)>::empty(),
    } + match duration {
        Some(d) => seq![int_entry(3, d as int)],
        None => Seq::<(nat, Seq<u8>)>::empty(),
    };
    assert(es =~= seq![e0] + (seq![e1] + tail));
    lemma_entries_cons(e0, seq![e1] + tail);
    lemma_entries_cons(e1, tail);
    assert(entries_bytes(Seq::<(nat, Seq<u8>)>::empty()) =~= Seq::<u8>::empty());
    match reason {
        Some(r) => {
            match duration {
                Some(d) => {
                    assert(tail =~= seq![text_entry(2, r), int_entry(3, d as int)]);
                    lemma_entries_two(text_entry(2, r), int_entry(3, d as int));
                },
                None => {
                    assert(tail =~= seq![text_entry(2, r)]);
                    lemma_entries_one(text_entry(2, r));
                },
            }
        },
        None => {
            match duration {
                Some(d) => {
                    assert(tail =~= seq![int_entry(3, d as int)]);
                    lemma_entries_one(int_entry(3, d as int));
                },
                None => {
                    assert(tail =~= Seq::<(nat, Seq<u8>)>::empty());
                },
            }
        },
    }
    assert(es.len() == moderation_count(reason, duration));
    assert(map_bytes(es) =~= head_bytes(5, moderation_count(reason, duration)) + int_bytes(0)
        + int_bytes(action as int) + int_bytes(1) + int_bytes(scope as int)
        + moderation_optional_bytes(reason, duration));
}

/// Reading the map `{ 0: a, 1: s, 2: reason?, 3: duration? }` as a
/// MODERATION payload gives the action `a` (key 0), the scope `s` (key 1),
/// and the reason and duration where present.
pub proof fn lemma_moderation_reads_keys(
    s: Seq<u8>,
    pos: int,
    a: i32,
    sc: i32,
    reason: Option<Seq<char>>,
    duration: Option<i32>,
)
    requires
        reason matches Some(t) ==> fits(t),
        occurs_at(
            s,
            pos,
            head_bytes(5, moderation_count(reason, duration)) + int_bytes(0) + int_bytes(a as int)
                + int_bytes(1) + int_bytes(sc as int) + moderation_optional_bytes(reason, duration),
        ),
    ensures
        moderation_from(s, pos) == Ok::<_, Seq<char>>((a, sc, reason, duration)),
{
    lemma_moderation_layout(a, sc, reason, duration);
    lemma_moderation_roundtrip(s, pos, a, sc, reason, duration);
}

/// An encoded MODERATION payload reads back as the same fields.
#[verifier::spinoff_prover]
#[verifier::rlimit(60)]
pub proof fn lemma_moderation_roundtrip(
    s: Seq<u8>,
    pos: int,
    action: i32,
    scope: i32,
    reason: Option<Seq<char>>,
    duration: Option<i32>,
)
    requires
        reason matches Some(t) ==> fits(t),
        occurs_at(s, pos, map_bytes(moderation_entries(action, scope, reason, duration))),
    ensures
        moderation_from(s, pos) == Ok::<_, Seq<char>>((action, scope, reason, duration)),
{
    let es = moderation_entries(action, scope, reason, duration);
    let names = moderation_names();
    lemma_int_everywhere(s, action as int, MAX_NESTING as nat);
    lemma_int_everywhere(s, scope as int, MAX_NESTING as nat);
    if let Some(t) = reason {
        lemma_text_everywhere(s, t, MAX_NESTING as nat);
    }
    if let Some(d) = duration {
        lemma_int_everywhere(s, d as int, MAX_NESTING as nat);
    }
    assert(es[0] == int_entry(0, action as int));
    assert(es[1] == int_entry(1, scope as int));
    // index of the reason entry, and of the duration entry
    let ri: int = 2;
    let di: int = if reason is Some { 3 } else { 2 };
    assert(reason is Some ==> es[ri] == text_entry(2, reason->Some_0));
    assert(duration is Some ==> es[di] == int_entry(3, duration->Some_0 as int));
    assert(es.len() == 2 + (if reason is Some { 1int } else { 0 }) + (if duration is Some { 1int } else { 0 }));
    assert forall|i: int| 0 <= i < es.len() implies item_everywhere(
        s,
        (#[trigger] es[i]).1,
        MAX_NESTING as nat,
    ) by {
        if i >= 2 && i == ri && reason is Some {
        } else if i >= 2 {
            assert(duration is Some && i == di);
        }
    }
    assert(keys_ok(es, names.len())) by {
        assert forall|i: int| 0 <= i < es.len() implies (#[trigger] es[i]).0 < names.len() by {
            if i >= 2 && i == ri && reason is Some {
            } else if i >= 2 {
                assert(duration is Some && i == di);
            }
        }
        assert forall|i: int, j: int| 0 <= i < j < es.len() implies (#[trigger] es[i]).0 < (
        #[trigger] es[j]).0 by {
            if j >= 2 && j == ri && reason is Some {
            } else if j >= 2 {
                assert(duration is Some && j == di);
                if i >= 2 {
                    assert(reason is Some && i == ri);
                }
            }
        }
    }
    lemma_struct_encoded(s, pos, es, names);
    let acc = struct_fields(s, pos, names)->Ok_0;
    let (a0, b0) = acc[0]->Some_0;
    let (a1, b1) = acc[1]->Some_0;
    lemma_int_item(s, a0, action as int, 0);
    lemma_int_item(s, a1, scope as int, 0);
    match reason {
        Some(t) => {
            assert(es[ri].0 == 2);
            let (a2, b2) = acc[2]->Some_0;
            lemma_text_item(s, a2, t, 0);
            assert(s[a2] == s.subrange(a2, a2 + text_bytes(t).len())[0]);
            lemma_head_bytes_len(3, encode_utf8(t).len());
        },
        None => {
            assert forall|i: int| 0 <= i < es.len() implies (#[trigger] es[i]).0 != 2 by {
                if i >= 2 {
                    assert(duration is Some && i == di);
                }
            }
        },
    }
    match duration {
        Some(d) => {
            assert(es[di].0 == 3);
            let (a3, b3) = acc[3]->Some_0;
            lemma_int_item(s, a3, d as int, 0);
            let hb = crate::cbor::int_bytes(d as int);
            assert(s[a3] == s.subrange(a3, a3 + hb.len())[0]);
            if d >= 0 {
                lemma_head_bytes_len(0, d as nat);
            } else {
                lemma_head_bytes_len(1, (-1 - d) as nat);
            }
        },
        None => {
            assert forall|i: int| 0 <= i < es.len() implies (#[trigger] es[i]).0 != 3 by {
                if i >= 2 {
                    assert(reason is Some && i == ri);
                }
            }
        },
    }
}

// ---------------------------------------------------------------------------
// SYSTEM_DISCONNECT
// ---------------------------------------------------------------------------

/// SYSTEM_DISCONNECT payload (0x09) - Server → Client
///
/// Payload: `{ 0: reason_code, 1: message }`
///
/// Indicates that the server is intentionally terminating the connection
/// due to a system-level lifecycle event (shutdown, maintenance, etc.).
/// After sending this packet, the server MUST immediately close the
/// underlying TCP connection.
#[derive(Debug, Clone)]
pub struct SystemDisconnectPayload {
    /// The reason code (0=shutdown, 1=maintenance, 2=internal_error, 3=overloaded)
    pub reason_code: i32,
    /// Human-readable message describing the disconnect
    pub message: String,
}

/// The entries of a SYSTEM_DISCONNECT payload.
pub open spec fn disconnect_entries(code: i32, message: Seq<char>) -> Seq<(nat, Seq<u8>)> {
    seq![int_entry(0, code as int), text_entry(1, message)]
}

/// The field names of a SYSTEM_DISCONNECT payload.
pub open spec fn disconnect_names() -> Seq<Seq<char>> {
    seq!["reason_code"@, "message"@]
}

/// The SYSTEM_DISCONNECT payload encoded at `pos`: reason code and message.
pub open spec fn disconnect_from(s: Seq<u8>, pos: int) -> Result<(i32, Seq<char>), Seq<char>> {
    match struct_fields(s, pos, disconnect_names()) {
        Err(m) => Err(m),
        Ok(acc) => match field_int(s, acc[0], "reason_code"@, i32::MIN as int, i32::MAX as int) {
            Err(m) => Err(m),
            Ok(code) => match field_text(s, acc[1], "message"@) {
                Err(m) => Err(m),
                Ok(message) => Ok((code as i32, message)),
            },
        },
    }
}

impl SystemDisconnectPayload {
    /// Encodes this payload.
    pub fn to_cbor(&self) -> (r: Vec<u8>)
        ensures
            r@ == map_bytes(disconnect_entries(self.reason_code, self.message@)),
            fits(self.message@),
    {
        let mut buf: Vec<u8> = Vec::new();
        encode_head(&mut buf, 5, 2);
        put_int_entry(&mut buf, 0, self.reason_code as i64);
        put_text_entry(&mut buf, 1, self.message.as_str());
        proof {
            lemma_entries_two(int_entry(0, self.reason_code as int), text_entry(1, self.message@));
        }
        assert(buf@ =~= map_bytes(disconnect_entries(self.reason_code, self.message@)));
        buf
    }

    /// Decodes the payload encoded at `pos`.
    pub fn from_cbor(s: &[u8], pos: usize) -> (r: Result<SystemDisconnectPayload, String>)
        ensures
            match r {
                Ok(p) => disconnect_from(s@, pos as int) == Ok::<_, Seq<char>>(
                    (p.reason_code, p.message@),
                ),
                Err(m) => disconnect_from(s@, pos as int) == Err::<(i32, Seq<char>), _>(m@),
            },
    {
        let names: [&str; 2] = ["reason_code", "message"];
        assert(name_views(names@) =~= disconnect_names());
        let acc = match read_struct(s, pos, &names) {
            Ok(a) => a,
            Err(m) => return Err(m),
        };
        let reason_code = match read_int_field(
            s,
            &acc,
            0,
            "reason_code",
            i32::MIN as i64,
            i32::MAX as i64,
        ) {
            Ok(v) => v as i32,
            Err(m) => return Err(m),
        };
        let message = match read_text_field(s, &acc, 1, "message") {
            Ok(t) => t,
            Err(m) => return Err(m),
        };
        Ok(SystemDisconnectPayload { reason_code, message })
    }
}

/// A SYSTEM_DISCONNECT payload is the map `{ 0: reason_code, 1: message }`,
/// and reading such a map gives the code under key 0 and the message under
/// key 1.
pub proof fn lemma_disconnect_layout(s: Seq<u8>, pos: int, code: i32, message: Seq<char>)
    ensures
        map_bytes(disconnect_entries(code, message)) == head_bytes(5, 2) + int_bytes(0) + int_bytes(
            code as int,
        ) + int_bytes(1) + text_bytes(message),
        fits(message) && occurs_at(
            s,
            pos,
            head_bytes(5, 2) + int_bytes(0) + int_bytes(code as int) + int_bytes(1) + text_bytes(
                message,
            ),
        ) ==> disconnect_from(s, pos) == Ok::<_, Seq<char>>((code, message)),
{
    lemma_entries_two(int_entry(0, code as int), text_entry(1, message));
    assert(map_bytes(disconnect_entries(code, message)) =~= head_bytes(5, 2) + int_bytes(0)
        + int_bytes(code as int) + int_bytes(1) + text_bytes(message));
    if fits(message) && occurs_at(s, pos, map_bytes(disconnect_entries(code, message))) {
        lemma_disconnect_roundtrip(s, pos, code, message);
    }
}

/// An encoded SYSTEM_DISCONNECT payload reads back as the same fields.
pub proof fn lemma_disconnect_roundtrip(s: Seq<u8>, pos: int, code: i32, message: Seq<char>)
    requires
        fits(message),
        occurs_at(s, pos, map_bytes(disconnect_entries(code, message))),
    ensures
        disconnect_from(s, pos) == Ok::<_, Seq<char>>((code, message)),
{
    let es = disconnect_entries(code, message);
    lemma_int_everywhere(s, code as int, MAX_NESTING as nat);
    lemma_text_everywhere(s, message, MAX_NESTING as nat);
    assert(es[0] == int_entry(0, code as int) && es[1] == text_entry(1, message));
    lemma_struct_encoded(s, pos, es, disconnect_names());
    let acc = struct_fields(s, pos, disconnect_names())->Ok_0;
    assert(es[0].0 == 0 && es[1].0 == 1);
    let (a0, b0) = acc[0]->Some_0;
    let (a1, b1) = acc[1]->Some_0;
    lemma_int_item(s, a0, code as int, 0);
    lemma_text_item(s, a1, message, 0);
}

} // verus!
