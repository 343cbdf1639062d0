use retained_ui::style::{
    compute_style, is_inherited_style, parse_color, parse_display, pointer_events, str_eq,
    text_color, Display, Style,
};

fn style_of(pairs: &[(&str, &str)]) -> Style {
    let mut s = Style::new();
    for (k, v) in pairs {
        s.insert(k.to_string(), v.to_string());
    }
    s
}

#[test]
fn later_assignment_wins() {
    let s = style_of(&[("width", "10"), ("width", "20")]);
    assert_eq!(s.get("width").map(|v| v.as_str()), Some("20"));
    assert_eq!(s.get("height"), None);
}

#[test]
fn child_inherits_text_color_only() {
    let parent = style_of(&[("text_color", "ff0000"), ("width", "100")]);
    let child = style_of(&[("height", "5")]);
    let c = compute_style(&child, &parent);
    assert_eq!(c.get("text_color").map(|v| v.as_str()), Some("ff0000"));
    assert_eq!(c.get("width"), None);
    assert_eq!(c.get("height").map(|v| v.as_str()), Some("5"));
}

#[test]
fn own_declaration_wins_over_inherited() {
    let parent = style_of(&[("text_color", "ff0000")]);
    let child = style_of(&[("text_color", "00ff00")]);
    let c = compute_style(&child, &parent);
    assert_eq!(c.get("text_color").map(|v| v.as_str()), Some("00ff00"));
}

#[test]
fn display_values() {
    assert_eq!(parse_display("none"), Some(Display::Hidden));
    assert_eq!(parse_display("inline"), Some(Display::Inline));
    assert_eq!(parse_display("block"), Some(Display::Block));
    assert_eq!(parse_display("grid"), None);
}

#[test]
fn colors_and_flags() {
    assert_eq!(parse_color("ff8000"), 0xFF8000);
    assert_eq!(parse_color("00A0fF"), 0x00A0FF);
    assert_eq!(text_color(&Style::new()), 0);
    assert_eq!(text_color(&style_of(&[("text_color", "123456")])), 0x123456);
    assert!(pointer_events(&Style::new()));
    assert!(!pointer_events(&style_of(&[("pointer_events", "false")])));
    assert!(pointer_events(&style_of(&[("pointer_events", "true")])));
    assert!(is_inherited_style("text_color"));
    assert!(!is_inherited_style("background_color"));
    assert!(str_eq("abc", "abc"));
    assert!(!str_eq("abc", "abd"));
}
