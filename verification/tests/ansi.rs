use minechat_protocol::ansi::{
    component_colors_readable, component_to_ansi, ComponentColor, ComponentNode, NamedColor,
};
use nu_ansi_term::{Color, Style};

fn object(text: &str, color: Option<ComponentColor>, bold: Option<bool>) -> ComponentNode {
    ComponentNode::Object {
        text: Some(text.to_string()),
        color,
        bold,
        italic: None,
        underlined: None,
        strikethrough: None,
        extra: None,
    }
}

#[test]
fn plain_text_is_unchanged() {
    assert_eq!(component_to_ansi(&ComponentNode::Text("hello".to_string())), "hello");
    let undecorated = object("hi", None, Some(false));
    assert_eq!(component_to_ansi(&undecorated), "hi");
}

#[test]
fn named_color_and_bold() {
    let c = object("Hello", Some(ComponentColor::Named(NamedColor::Red)), Some(true));
    let expected = Style::new().fg(Color::Fixed(203)).bold().paint("Hello").to_string();
    assert_eq!(component_to_ansi(&c), expected);
    assert_ne!(component_to_ansi(&c), "Hello");
}

#[test]
fn black_and_white_are_basic_colors() {
    let c = object("b", Some(ComponentColor::Named(NamedColor::Black)), None);
    assert_eq!(component_to_ansi(&c), Color::Black.paint("b").to_string());
    let c = object("w", Some(ComponentColor::Named(NamedColor::White)), None);
    assert_eq!(component_to_ansi(&c), Color::White.paint("w").to_string());
    let c = object("g", Some(ComponentColor::Named(NamedColor::Gold)), None);
    assert_eq!(component_to_ansi(&c), Color::Fixed(214).paint("g").to_string());
}

#[test]
fn hex_colors() {
    let c = object("x", Some(ComponentColor::Hex("#ff8000".to_string())), None);
    assert_eq!(component_to_ansi(&c), Color::Rgb(255, 128, 0).paint("x").to_string());
    // a sign before one digit is read as that digit
    let c = object("x", Some(ComponentColor::Hex("#+f0A+1".to_string())), None);
    assert_eq!(component_to_ansi(&c), Color::Rgb(15, 10, 1).paint("x").to_string());
    // anything else is no color
    for bad in ["ff8000", "#ff80", "#gg0000", "#ff80000", "#ff 000"] {
        let c = object("x", Some(ComponentColor::Hex(bad.to_string())), None);
        assert_eq!(component_to_ansi(&c), "x", "{}", bad);
    }
}

#[test]
fn children_inherit_the_style() {
    let child = ComponentNode::Object {
        text: Some("child".to_string()),
        color: None,
        bold: None,
        italic: Some(true),
        underlined: None,
        strikethrough: None,
        extra: None,
    };
    let parent = ComponentNode::Object {
        text: Some("parent".to_string()),
        color: Some(ComponentColor::Named(NamedColor::Green)),
        bold: None,
        italic: None,
        underlined: None,
        strikethrough: None,
        extra: Some(vec![child, ComponentNode::Text("tail".to_string())]),
    };
    let green = Style::new().fg(Color::Fixed(82));
    let expected = format!(
        "{}{}{}",
        green.paint("parent"),
        green.italic().paint("child"),
        green.paint("tail")
    );
    assert_eq!(component_to_ansi(&parent), expected);
}

#[test]
fn arrays_render_in_order_without_style() {
    let a = ComponentNode::Array(vec![
        ComponentNode::Text("a".to_string()),
        object("b", None, Some(true)),
        ComponentNode::Text("c".to_string()),
    ]);
    let expected = format!("a{}c", Style::new().bold().paint("b"));
    assert_eq!(component_to_ansi(&a), expected);
}

#[test]
fn decorations() {
    let c = ComponentNode::Object {
        text: Some("d".to_string()),
        color: None,
        bold: None,
        italic: None,
        underlined: Some(true),
        strikethrough: Some(true),
        extra: None,
    };
    let expected = Style::new().underline().strikethrough().paint("d").to_string();
    assert_eq!(component_to_ansi(&c), expected);
}

#[test]
fn colors_that_cut_a_character_are_found() {
    // '#', 'a', then a two-byte character at bytes 2..4, so byte 3 is inside it
    let c = object("x", Some(ComponentColor::Hex("#aé123".to_string())), None);
    assert!(!component_colors_readable(&c));
    let ok = object("x", Some(ComponentColor::Hex("#é1234".to_string())), None);
    assert!(component_colors_readable(&ok));
    assert_eq!(component_to_ansi(&ok), "x");
    // reading stops at a first pair that is not hex, before byte 5 is cut
    let stops = object("x", Some(ComponentColor::Hex("#gg1é2".to_string())), None);
    assert!(component_colors_readable(&stops));
    assert_eq!(component_to_ansi(&stops), "x");
    // a hex first pair goes on to cut at byte 5, inside the two-byte character
    let cuts = object("x", Some(ComponentColor::Hex("#ff1é2".to_string())), None);
    assert!(!component_colors_readable(&cuts));
    let nested = ComponentNode::Array(vec![ComponentNode::Text("t".to_string()), c]);
    assert!(!component_colors_readable(&nested));
}

#[test]
fn exact_escape_codes() {
    let c = object("Hello", Some(ComponentColor::Named(NamedColor::Red)), Some(true));
    assert_eq!(component_to_ansi(&c), "\x1b[1;38;5;203mHello\x1b[0m");
    let c = object("x", Some(ComponentColor::Hex("#ff8000".to_string())), None);
    assert_eq!(component_to_ansi(&c), "\x1b[38;2;255;128;0mx\x1b[0m");
    let c = object("w", Some(ComponentColor::Named(NamedColor::White)), Some(true));
    assert_eq!(component_to_ansi(&c), "\x1b[1;37mw\x1b[0m");
    let d = ComponentNode::Object {
        text: Some("d".to_string()),
        color: None,
        bold: None,
        italic: Some(true),
        underlined: Some(true),
        strikethrough: Some(true),
        extra: None,
    };
    assert_eq!(component_to_ansi(&d), "\x1b[3;4;9md\x1b[0m");
}
