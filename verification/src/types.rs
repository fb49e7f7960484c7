//! Message content: CommonMark text, or a Minecraft text component held as
//! its JSON text.
use vstd::prelude::*;

verus! {

/// Message content that can be either CommonMark text or rich Components.
///
/// A component is held as its JSON text (the form it travels in inside a
/// CHAT_MESSAGE payload).
#[derive(Debug, Clone, PartialEq)]
pub enum MessageContent {
    /// Plain CommonMark text content
    CommonMark(String),
    /// Rich Minecraft text component content, as JSON text
    Components(String),
}

/// The view of a `MessageContent`.
pub enum ContentView {
    CommonMark(Seq<char>),
    Components(Seq<char>),
}

impl View for MessageContent {
    type V = ContentView;

    open spec fn view(&self) -> ContentView {
        match self {
            MessageContent::CommonMark(t) => ContentView::CommonMark(t@),
            MessageContent::Components(j) => ContentView::Components(j@),
        }
    }
}

/// The text that a content carries on the wire: the CommonMark text, or the
/// component's JSON text.
pub open spec fn content_text(c: ContentView) -> Seq<char> {
    match c {
        ContentView::CommonMark(t) => t,
        ContentView::Components(j) => j,
    }
}

/// What `serde_json::from_str::<kyori_component_json::Component>` makes of
/// `json`, read through `Component::to_plain_text`: `None` when the text is
/// not a component, else the component's plain text.
pub uninterp spec fn component_plain_text(json: Seq<char>) -> Option<Seq<char>>;

/// The lowercase hexadecimal digit of `n` (below 16).
pub open spec fn hex_digit(n: int) -> char {
    if n < 10 {
        (0x30 + n) as char
    } else {
        (0x61 + n - 10) as char
    }
}

/// How `serde_json` writes the character `c` inside a JSON string: `"` and
/// `\` and the control characters below U+0020 are escaped, the usual ones
/// by their short escapes and the others as `\u00XX`; every other character
/// stands as it is.
pub open spec fn json_char(c: char) -> Seq<char> {
    if c == '"' {
        seq!['\\', '"']
    } else if c == '\\' {
        seq!['\\', '\\']
    } else if c == '\u{8}' {
        seq!['\\', 'b']
    } else if c == '\u{c}' {
        seq!['\\', 'f']
    } else if c == '\n' {
        seq!['\\', 'n']
    } else if c == '\r' {
        seq!['\\', 'r']
    } else if c == '\t' {
        seq!['\\', 't']
    } else if (c as int) < 0x20 {
        seq!['\\', 'u', '0', '0', hex_digit((c as int) / 16), hex_digit((c as int) % 16)]
    } else {
        seq![c]
    }
}

/// The characters of `text` as `serde_json` writes them inside a string.
pub open spec fn json_string_contents(text: Seq<char>) -> Seq<char>
    decreases text.len(),
{
    if text.len() == 0 {
        Seq::empty()
    } else {
        json_string_contents(text.drop_last()) + json_char(text.last())
    }
}

/// The JSON text of `kyori_component_json::Component::text(text)` as
/// `serde_json::to_string` writes it: an object whose only member is
/// `"text"`, the text as a JSON string.
pub open spec fn text_component_json(text: Seq<char>) -> Seq<char> {
    "{\"text\":\""@ + json_string_contents(text) + "\"}"@
}

/// Whether `json` is the JSON text of a component.
pub open spec fn is_component_json(json: Seq<char>) -> bool {
    component_plain_text(json) is Some
}

/// Parses `json` as a `kyori_component_json::Component` with `serde_json`,
/// and gives its plain text (`Component::to_plain_text`), or `None` where the
/// text is not a component. The result is claimed to be a function of `json`
/// alone; nothing is claimed of what the plain text is.
#[verifier::external_body]
pub(crate) fn component_json_plain_text(json: &str) -> (r: Option<String>)
    ensures
        match r {
            Some(t) => component_plain_text(json@) == Some(t@),
            None => component_plain_text(json@) is None,
        },
{
    match serde_json::from_str::<kyori_component_json::Component>(json) {
        Ok(c) => Some(c.to_plain_text().into_owned()),
        Err(_) => None,
    }
}

/// The JSON text of `kyori_component_json::Component::text(text)`, written by
/// `serde_json::to_string`. That component is an object whose only field is
/// its text, and writing it to a string does not fail. The result is claimed
/// to be `text_component_json(text)`, and to read back, by
/// `component_json_plain_text`, as a component whose plain text is `text`.
#[verifier::external_body]
pub(crate) fn text_component(text: &str) -> (r: String)
    ensures
        r@ == text_component_json(text@),
        component_plain_text(r@) == Some(text@),
{
    serde_json::to_string(&kyori_component_json::Component::text(text))
        .expect("a text component always serializes")
}

impl MessageContent {
    /// Creates a CommonMark message content
    pub fn commonmark(text: String) -> (r: Self)
        ensures
            r@ == ContentView::CommonMark(text@),
    {
        MessageContent::CommonMark(text)
    }

    /// Creates a Components message content from a component's JSON text.
    /// Text that is not a component's JSON is taken as the text of a plain
    /// text component, so the content always holds a component.
    pub fn components(json: String) -> (r: Self)
        ensures
            r@ == ContentView::Components(
                if is_component_json(json@) {
                    json@
                } else {
                    text_component_json(json@)
                },
            ),
            is_component_json(content_text(r@)),
    {
        match component_json_plain_text(json.as_str()) {
            Some(_) => MessageContent::Components(json),
            None => MessageContent::Components(text_component(json.as_str())),
        }
    }

    /// Returns a plain text representation of this content: the CommonMark
    /// text, or the component's plain text. A Components value whose text is
    /// not component JSON is shown as that text.
    pub fn to_plain_text(&self) -> (r: String)
        ensures
            r@ == match self@ {
                ContentView::CommonMark(t) => t,
                ContentView::Components(j) => match component_plain_text(j) {
                    Some(p) => p,
                    None => j,
                },
            },
    {
        match self {
            MessageContent::CommonMark(text) => text.clone(),
            MessageContent::Components(json) => match component_json_plain_text(json.as_str()) {
                Some(p) => p,
                None => json.clone(),
            },
        }
    }

    /// The text this content carries in a CHAT_MESSAGE payload.
    pub fn to_cbor_string(&self) -> (r: String)
        ensures
            r@ == content_text(self@),
    {
        match self {
            MessageContent::CommonMark(text) => text.clone(),
            MessageContent::Components(json) => json.clone(),
        }
    }
}

} // verus!
