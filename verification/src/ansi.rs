//! ANSI escape code rendering of Minecraft text components for terminals.
//!
//! A component is held here as the parts of it that rendering reads: its
//! text, color, decorations and children.
use crate::display::decimal;
use vstd::prelude::*;
use vstd::utf8::encode_utf8;

verus! {

// ---------------------------------------------------------------------------
// Components
// ---------------------------------------------------------------------------

/// The predefined Minecraft colors.
#[derive(Debug, Clone, Copy, PartialEq, Eq)]
pub enum NamedColor {
    Black,
    DarkBlue,
    DarkGreen,
    DarkAqua,
    DarkRed,
    DarkPurple,
    Gold,
    Gray,
    DarkGray,
    Blue,
    Green,
    Aqua,
    Red,
    LightPurple,
    Yellow,
    White,
}

/// The color of a component: a predefined name, or hex text `#RRGGBB`.
#[derive(Debug, Clone, PartialEq)]
pub enum ComponentColor {
    Named(NamedColor),
    Hex(String),
}

/// A Minecraft text component, as far as rendering reads it.
#[derive(Debug)]
pub enum ComponentNode {
    /// A plain string (shorthand for `{text: "value"}`).
    Text(String),
    /// A list of components, rendered one after another.
    Array(Vec<ComponentNode>),
    /// A component object: optional text, style, and children that inherit
    /// the style.
    Object {
        text: Option<String>,
        color: Option<ComponentColor>,
        bold: Option<bool>,
        italic: Option<bool>,
        underlined: Option<bool>,
        strikethrough: Option<bool>,
        extra: Option<Vec<ComponentNode>>,
    },
}

// ---------------------------------------------------------------------------
// Terminal styles
// ---------------------------------------------------------------------------

/// A terminal color.
#[derive(Debug, Clone, Copy, PartialEq, Eq)]
pub enum AnsiColor {
    Black,
    White,
    /// A color of the 256-color palette.
    Fixed(u8),
    /// A 24-bit color.
    Rgb(u8, u8, u8),
}

/// A terminal text style: foreground color and decorations.
#[derive(Debug, Clone, Copy, PartialEq, Eq)]
pub struct AnsiStyle {
    pub foreground: Option<AnsiColor>,
    pub bold: bool,
    pub italic: bool,
    pub underline: bool,
    pub strikethrough: bool,
}

/// The style with nothing set.
pub open spec fn plain_style() -> AnsiStyle {
    AnsiStyle { foreground: None, bold: false, italic: false, underline: false, strikethrough: false }
}

/// The SGR code of a foreground color.
pub open spec fn foreground_code(c: AnsiColor) -> Seq<char> {
    match c {
        AnsiColor::Black => seq!['3', '0'],
        AnsiColor::White => seq!['3', '7'],
        AnsiColor::Fixed(n) => seq!['3', '8', ';', '5', ';'] + decimal(n as nat),
        AnsiColor::Rgb(r, g, b) => seq!['3', '8', ';', '2', ';'] + decimal(r as nat) + seq![';']
            + decimal(g as nat) + seq![';'] + decimal(b as nat),
    }
}

/// The SGR codes of a style, in the order they are written: bold `1`,
/// italic `3`, underline `4`, strikethrough `9`, then the foreground color.
pub open spec fn style_codes(style: AnsiStyle) -> Seq<Seq<char>> {
    (if style.bold { seq![seq!['1']] } else { Seq::empty() }) + (if style.italic {
        seq![seq!['3']]
    } else {
        Seq::empty()
    }) + (if style.underline { seq![seq!['4']] } else { Seq::empty() }) + (
    if style.strikethrough {
        seq![seq!['9']]
    } else {
        Seq::empty()
    }) + (match style.foreground {
        Some(c) => seq![foreground_code(c)],
        None => Seq::empty(),
    })
}

/// Codes separated by `;`.
pub open spec fn joined_codes(codes: Seq<Seq<char>>) -> Seq<char>
    decreases codes.len(),
{
    if codes.len() == 0 {
        Seq::empty()
    } else if codes.len() == 1 {
        codes[0]
    } else {
        joined_codes(codes.drop_last()) + seq![';'] + codes.last()
    }
}

/// What `nu_ansi_term` writes for `text` painted in `style`: nothing around
/// the text for the plain style; otherwise the escape `ESC [`, the style's
/// codes separated by `;`, `m`, the text, and the reset `ESC [ 0 m`.
pub open spec fn ansi_painted(style: AnsiStyle, text: Seq<char>) -> Seq<char> {
    if style == plain_style() {
        text
    } else {
        seq!['\x1b', '['] + joined_codes(style_codes(style)) + seq!['m'] + text + seq![
            '\x1b',
            '[',
            '0',
            'm',
        ]
    }
}

/// Paints `text` with `nu_ansi_term`: the `nu_ansi_term::Style` with the same
/// foreground and decorations (no background, no reset prefix), `Style::paint`,
/// and the painted text's `Display`, which writes the style's prefix, the
/// text and its suffix.
///
/// Trusted: the result is `ansi_painted`, as nu_ansi_term's `write_prefix`
/// and `write_suffix` write it without the `gnu_legacy` feature.
#[verifier::external_body]
fn paint(style: &AnsiStyle, text: &str) -> (r: String)
    ensures
        r@ == ansi_painted(*style, text@),
{
    let foreground = match style.foreground {
        None => None,
        Some(AnsiColor::Black) => Some(nu_ansi_term::Color::Black),
        Some(AnsiColor::White) => Some(nu_ansi_term::Color::White),
        Some(AnsiColor::Fixed(n)) => Some(nu_ansi_term::Color::Fixed(n)),
        Some(AnsiColor::Rgb(r, g, b)) => Some(nu_ansi_term::Color::Rgb(r, g, b)),
    };
    let s = nu_ansi_term::Style { foreground, is_bold: style.bold, is_italic: style.italic,
        is_underline: style.underline, is_strikethrough: style.strikethrough,
        ..nu_ansi_term::Style::default() };
    s.paint(text).to_string()
}

// ---------------------------------------------------------------------------
// Colors
// ---------------------------------------------------------------------------

/// The terminal color of a named Minecraft color.
pub open spec fn named_ansi(c: NamedColor) -> AnsiColor {
    match c {
        NamedColor::Black => AnsiColor::Black,
        NamedColor::DarkBlue => AnsiColor::Fixed(21),
        NamedColor::DarkGreen => AnsiColor::Fixed(28),
        NamedColor::DarkAqua => AnsiColor::Fixed(30),
        NamedColor::DarkRed => AnsiColor::Fixed(124),
        NamedColor::DarkPurple => AnsiColor::Fixed(127),
        NamedColor::Gold => AnsiColor::Fixed(214),
        NamedColor::Gray => AnsiColor::Fixed(145),
        NamedColor::DarkGray => AnsiColor::Fixed(59),
        NamedColor::Blue => AnsiColor::Fixed(75),
        NamedColor::Green => AnsiColor::Fixed(82),
        NamedColor::Aqua => AnsiColor::Fixed(86),
        NamedColor::Red => AnsiColor::Fixed(203),
        NamedColor::LightPurple => AnsiColor::Fixed(212),
        NamedColor::Yellow => AnsiColor::Fixed(227),
        NamedColor::White => AnsiColor::White,
    }
}

/// The value of a hexadecimal digit.
pub open spec fn hex_digit(b: u8) -> Option<u8> {
    if 0x30 <= b <= 0x39 {
        Some((b - 0x30) as u8)
    } else if 0x61 <= b <= 0x66 {
        Some((b - 0x61 + 10) as u8)
    } else if 0x41 <= b <= 0x46 {
        Some((b - 0x41 + 10) as u8)
    } else {
        None
    }
}

/// The byte that two characters spell as an unsigned hexadecimal number, as
/// `u8::from_str_radix(_, 16)` reads it: two digits, or a `+` sign and one
/// digit.
pub open spec fn hex_byte(a: u8, b: u8) -> Option<u8> {
    if a == 0x2b {
        hex_digit(b)
    } else {
        match (hex_digit(a), hex_digit(b)) {
            (Some(x), Some(y)) => Some((x * 16 + y) as u8),
            _ => None,
        }
    }
}

/// The terminal color of hex text: `#` and six more bytes, read as three
/// bytes red, green, blue; nothing for any other text.
pub open spec fn hex_ansi(hex: Seq<char>) -> Option<AnsiColor> {
    let b = encode_utf8(hex);
    if b.len() == 7 && b[0] == 0x23 {
        match (hex_byte(b[1], b[2]), hex_byte(b[3], b[4]), hex_byte(b[5], b[6])) {
            (Some(r), Some(g), Some(bl)) => Some(AnsiColor::Rgb(r, g, bl)),
            _ => None,
        }
    } else {
        None
    }
}

/// Whether a byte continues a UTF-8 sequence (so no character starts at it).
pub open spec fn is_continuation(b: u8) -> bool {
    0x80 <= b <= 0xbf
}

/// Whether hex text can be cut where it is read: a 7-byte text that starts
/// with `#` is cut into pairs after its first byte, one pair at a time, and
/// reading stops at the first pair that is not hex. The first two cuts need
/// a character to start at byte 3; the third, made only when the first pair
/// is hex, needs one to start at byte 5.
pub open spec fn hex_cuttable(hex: Seq<char>) -> bool {
    let b = encode_utf8(hex);
    b.len() == 7 && b[0] == 0x23 ==> !is_continuation(b[3]) && (hex_byte(b[1], b[2]) is Some
        ==> !is_continuation(b[5]))
}

/// The terminal color of a component color, if it has one.
pub open spec fn color_ansi(c: ComponentColor) -> Option<AnsiColor> {
    match c {
        ComponentColor::Named(n) => Some(named_ansi(n)),
        ComponentColor::Hex(h) => hex_ansi(h@),
    }
}

/// Maps a named Minecraft color to its terminal color.
fn named_color_to_ansi(color: NamedColor) -> (r: AnsiColor)
    ensures
        r == named_ansi(color),
{
    match color {
        NamedColor::Black => AnsiColor::Black,
        NamedColor::DarkBlue => AnsiColor::Fixed(21),
        NamedColor::DarkGreen => AnsiColor::Fixed(28),
        NamedColor::DarkAqua => AnsiColor::Fixed(30),
        NamedColor::DarkRed => AnsiColor::Fixed(124),
        NamedColor::DarkPurple => AnsiColor::Fixed(127),
        NamedColor::Gold => AnsiColor::Fixed(214),
        NamedColor::Gray => AnsiColor::Fixed(145),
        NamedColor::DarkGray => AnsiColor::Fixed(59),
        NamedColor::Blue => AnsiColor::Fixed(75),
        NamedColor::Green => AnsiColor::Fixed(82),
        NamedColor::Aqua => AnsiColor::Fixed(86),
        NamedColor::Red => AnsiColor::Fixed(203),
        NamedColor::LightPurple => AnsiColor::Fixed(212),
        NamedColor::Yellow => AnsiColor::Fixed(227),
        NamedColor::White => AnsiColor::White,
    }
}

/// The value of a hexadecimal digit.
fn digit_value(b: u8) -> (r: Option<u8>)
    ensures
        r == hex_digit(b),
{
    if 0x30 <= b && b <= 0x39 {
        Some(b - 0x30)
    } else if 0x61 <= b && b <= 0x66 {
        Some(b - 0x61 + 10)
    } else if 0x41 <= b && b <= 0x46 {
        Some(b - 0x41 + 10)
    } else {
        None
    }
}

/// Reads two characters as an unsigned hexadecimal byte.
fn parse_hex_byte(a: u8, b: u8) -> (r: Option<u8>)
    ensures
        r == hex_byte(a, b),
{
    if a == 0x2b {
        return digit_value(b);
    }
    match (digit_value(a), digit_value(b)) {
        (Some(x), Some(y)) => Some(x * 16 + y),
        _ => None,
    }
}

/// Maps a component color to a terminal color; hex text that is not
/// `#RRGGBB` has none.
fn color_to_ansi(color: &ComponentColor) -> (r: Option<AnsiColor>)
    requires
        color matches ComponentColor::Hex(h) ==> hex_cuttable(h@),
    ensures
        r == color_ansi(*color),
{
    match color {
        ComponentColor::Named(named) => Some(named_color_to_ansi(*named)),
        ComponentColor::Hex(hex) => {
            let b = hex.as_str().as_bytes();
            if b.len() == 7 && b[0] == 0x23 {
                let r = match parse_hex_byte(b[1], b[2]) {
                    Some(v) => v,
                    None => {
                        return None;
                    },
                };
                let g = match parse_hex_byte(b[3], b[4]) {
                    Some(v) => v,
                    None => {
                        return None;
                    },
                };
                let bl = match parse_hex_byte(b[5], b[6]) {
                    Some(v) => v,
                    None => {
                        return None;
                    },
                };
                Some(AnsiColor::Rgb(r, g, bl))
            } else {
                None
            }
        },
    }
}

// ---------------------------------------------------------------------------
// Styles
// ---------------------------------------------------------------------------

/// The style of a component object under its parent's style: its color, if
/// it has one that maps to a terminal color, replaces the parent's; each
/// decoration set to `true` is added; nothing is taken away.
pub open spec fn merged_style(
    parent: AnsiStyle,
    color: Option<ComponentColor>,
    bold: Option<bool>,
    italic: Option<bool>,
    underlined: Option<bool>,
    strikethrough: Option<bool>,
) -> AnsiStyle {
    AnsiStyle {
        foreground: match color {
            Some(c) => match color_ansi(c) {
                Some(a) => Some(a),
                None => parent.foreground,
            },
            None => parent.foreground,
        },
        bold: parent.bold || bold == Some(true),
        italic: parent.italic || italic == Some(true),
        underline: parent.underline || underlined == Some(true),
        strikethrough: parent.strikethrough || strikethrough == Some(true),
    }
}

/// A component object's own color, when it maps to a terminal color, is
/// the foreground of its style, whatever style its parent has; decorations
/// set on the parent stay set, and those the object sets to `true` are added.
pub proof fn lemma_own_color_wins(
    parent: AnsiStyle,
    c: ComponentColor,
    a: AnsiColor,
    bold: Option<bool>,
    italic: Option<bool>,
    underlined: Option<bool>,
    strikethrough: Option<bool>,
)
    requires
        color_ansi(c) == Some(a),
    ensures
        merged_style(parent, Some(c), bold, italic, underlined, strikethrough).foreground == Some(a),
        merged_style(parent, Some(c), bold, italic, underlined, strikethrough).bold == (parent.bold
            || bold == Some(true)),
        merged_style(parent, Some(c), bold, italic, underlined, strikethrough).italic == (
        parent.italic || italic == Some(true)),
        merged_style(parent, Some(c), bold, italic, underlined, strikethrough).underline == (
        parent.underline || underlined == Some(true)),
        merged_style(parent, Some(c), bold, italic, underlined, strikethrough).strikethrough == (
        parent.strikethrough || strikethrough == Some(true)),
{
}

/// A component object without a color of its own, or with one that maps to
/// no terminal color, keeps its parent's foreground.
pub proof fn lemma_inherited_color(
    parent: AnsiStyle,
    color: Option<ComponentColor>,
    bold: Option<bool>,
    italic: Option<bool>,
    underlined: Option<bool>,
    strikethrough: Option<bool>,
)
    requires
        color matches Some(c) ==> color_ansi(c) is None,
    ensures
        merged_style(parent, color, bold, italic, underlined, strikethrough).foreground
            == parent.foreground,
{
}

/// Text in a style: as it is under the plain style, else painted.
pub open spec fn styled(style: AnsiStyle, text: Seq<char>) -> Seq<char> {
    if style == plain_style() {
        text
    } else {
        ansi_painted(style, text)
    }
}

fn merge_style(
    parent: &AnsiStyle,
    color: &Option<ComponentColor>,
    bold: Option<bool>,
    italic: Option<bool>,
    underlined: Option<bool>,
    strikethrough: Option<bool>,
) -> (r: AnsiStyle)
    requires
        color matches Some(ComponentColor::Hex(h)) ==> hex_cuttable(h@),
    ensures
        r == merged_style(*parent, *color, bold, italic, underlined, strikethrough),
{
    let mut style = *parent;
    if let Some(c) = color {
        if let Some(a) = color_to_ansi(c) {
            style.foreground = Some(a);
        }
    }
    if bold == Some(true) {
        style.bold = true;
    }
    if italic == Some(true) {
        style.italic = true;
    }
    if underlined == Some(true) {
        style.underline = true;
    }
    if strikethrough == Some(true) {
        style.strikethrough = true;
    }
    style
}

fn is_plain(style: &AnsiStyle) -> (r: bool)
    ensures
        r == (*style == plain_style()),
{
    style.foreground.is_none() && !style.bold && !style.italic && !style.underline
        && !style.strikethrough
}

fn apply_style(style: &AnsiStyle, text: &str) -> (r: String)
    ensures
        r@ == styled(*style, text@),
{
    if is_plain(style) {
        text.to_string()
    } else {
        paint(style, text)
    }
}

// ---------------------------------------------------------------------------
// Rendering
// ---------------------------------------------------------------------------

/// Whether every hex color in a component can be read without cutting a
/// character.
pub open spec fn colors_cuttable(node: ComponentNode) -> bool
    decreases node,
{
    match node {
        ComponentNode::Text(_) => true,
        ComponentNode::Array(v) => colors_cuttable_all(v@),
        ComponentNode::Object { color, extra, .. } => (color matches Some(ComponentColor::Hex(h))
            ==> hex_cuttable(h@)) && (extra matches Some(v) ==> colors_cuttable_all(v@)),
    }
}

/// Whether every hex color in a list of components can be read.
pub open spec fn colors_cuttable_all(nodes: Seq<ComponentNode>) -> bool
    decreases nodes,
{
    if nodes.len() == 0 {
        true
    } else {
        colors_cuttable_all(nodes.drop_last()) && colors_cuttable(nodes.last())
    }
}

/// The terminal text of a component under an inherited style: a string in
/// that style; an object's text in its merged style, then its children
/// under the merged style; a list's members one after another.
pub open spec fn rendered(node: ComponentNode, style: AnsiStyle) -> Seq<char>
    decreases node,
{
    match node {
        ComponentNode::Text(t) => styled(style, t@),
        ComponentNode::Array(v) => rendered_all(v@, style),
        ComponentNode::Object { text, color, bold, italic, underlined, strikethrough, extra } => {
            let s = merged_style(style, color, bold, italic, underlined, strikethrough);
            (match text {
                Some(t) => styled(s, t@),
                None => Seq::empty(),
            }) + (match extra {
                Some(v) => rendered_all(v@, s),
                None => Seq::empty(),
            })
        },
    }
}

/// The terminal text of components one after another, all under `style`.
pub open spec fn rendered_all(nodes: Seq<ComponentNode>, style: AnsiStyle) -> Seq<char>
    decreases nodes,
{
    if nodes.len() == 0 {
        Seq::empty()
    } else {
        rendered_all(nodes.drop_last(), style) + rendered(nodes.last(), style)
    }
}

/// Renders a component under an inherited style onto `output`.
fn render_component(component: &ComponentNode, inherited_style: &AnsiStyle, output: &mut String)
    requires
        colors_cuttable(*component),
    ensures
        final(output)@ == old(output)@ + rendered(*component, *inherited_style),
    decreases component,
{
    match component {
        ComponentNode::Text(text) => {
            let styled = apply_style(inherited_style, text.as_str());
            output.append(styled.as_str());
        },
        ComponentNode::Object { text, color, bold, italic, underlined, strikethrough, extra } => {
            let style = merge_style(
                inherited_style,
                color,
                *bold,
                *italic,
                *underlined,
                *strikethrough,
            );
            if let Some(t) = text {
                let styled = apply_style(&style, t.as_str());
                output.append(styled.as_str());
            }
            if let Some(children) = extra {
                render_children(children, &style, output);
            }
            assert(output@ =~= old(output)@ + rendered(*component, *inherited_style));
        },
        ComponentNode::Array(components) => {
            render_children(components, inherited_style, output);
        },
    }
}

/// Renders components one after another under `style` onto `output`.
fn render_children(children: &Vec<ComponentNode>, style: &AnsiStyle, output: &mut String)
    requires
        colors_cuttable_all(children@),
    ensures
        final(output)@ == old(output)@ + rendered_all(children@, *style),
    decreases children,
{
    let mut i: usize = 0;
    let n = children.len();
    while i < n
        invariant
            n == children@.len(),
            i <= n,
            colors_cuttable_all(children@),
            output@ == old(output)@ + rendered_all(children@.subrange(0, i as int), *style),
        decreases n - i,
    {
        proof {
            lemma_cuttable_member(children@, i as int);
            assert(children@.subrange(0, i + 1).drop_last() =~= children@.subrange(0, i as int));
        }
        render_component(&children[i], style, output);
        i = i + 1;
    }
    assert(children@.subrange(0, n as int) =~= children@);
}

/// Each member of a list whose colors can all be read has readable colors.
proof fn lemma_cuttable_member(nodes: Seq<ComponentNode>, i: int)
    requires
        colors_cuttable_all(nodes),
        0 <= i < nodes.len(),
    ensures
        colors_cuttable(nodes[i]),
    decreases nodes.len(),
{
    if i < nodes.len() - 1 {
        lemma_cuttable_member(nodes.drop_last(), i);
    }
}

/// Converts a Minecraft component to its text for a terminal, with colors,
/// bold, italic, underline and strikethrough as ANSI escape codes.
pub fn component_to_ansi(component: &ComponentNode) -> (r: String)
    requires
        colors_cuttable(*component),
    ensures
        r@ == rendered(*component, plain_style()),
{
    let mut output = String::new();
    let style = AnsiStyle {
        foreground: None,
        bold: false,
        italic: false,
        underline: false,
        strikethrough: false,
    };
    render_component(component, &style, &mut output);
    assert(output@ =~= Seq::<char>::empty() + rendered(*component, plain_style()));
    output
}

/// Whether hex text can be cut where it is read (see `hex_cuttable`).
fn hex_can_be_cut(hex: &str) -> (r: bool)
    ensures
        r == hex_cuttable(hex@),
{
    let b = hex.as_bytes();
    if b.len() == 7 && b[0] == 0x23 {
        let first_is_hex = parse_hex_byte(b[1], b[2]).is_some();
        !(0x80 <= b[3] && b[3] <= 0xbf) && (!first_is_hex || !(0x80 <= b[5] && b[5] <= 0xbf))
    } else {
        true
    }
}

/// Whether every hex color in `component` can be read without cutting a
/// character, which `component_to_ansi` needs.
pub fn component_colors_readable(component: &ComponentNode) -> (r: bool)
    ensures
        r == colors_cuttable(*component),
    decreases component,
{
    match component {
        ComponentNode::Text(_) => true,
        ComponentNode::Array(components) => children_colors_readable(components),
        ComponentNode::Object { color, extra, .. } => {
            let own = match color {
                Some(ComponentColor::Hex(h)) => hex_can_be_cut(h.as_str()),
                _ => true,
            };
            let inner = match extra {
                Some(children) => children_colors_readable(children),
                None => true,
            };
            own && inner
        },
    }
}

/// Whether every hex color in `children` can be read.
fn children_colors_readable(children: &Vec<ComponentNode>) -> (r: bool)
    ensures
        r == colors_cuttable_all(children@),
    decreases children,
{
    let mut i: usize = 0;
    let n = children.len();
    while i < n
        invariant
            n == children@.len(),
            i <= n,
            colors_cuttable_all(children@.subrange(0, i as int)),
        decreases n - i,
    {
        assert(children@.subrange(0, i + 1).drop_last() =~= children@.subrange(0, i as int));
        if !component_colors_readable(&children[i]) {
            proof {
                if colors_cuttable_all(children@) {
                    lemma_cuttable_member(children@, i as int);
                }
            }
            return false;
        }
        i = i + 1;
    }
    assert(children@.subrange(0, n as int) =~= children@);
    true
}

} // verus!
