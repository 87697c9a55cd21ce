use mkdir2::color::{parse_hex, should_use_color, ColorMode, Theme};
use std::str::FromStr;

#[test]
fn parses_hex_with_hash() {
    assert_eq!(parse_hex("#00FFFF").unwrap(), (0, 255, 255));
}

#[test]
fn parses_hex_without_hash() {
    assert_eq!(parse_hex("00ffff").unwrap(), (0, 255, 255));
}

#[test]
fn parses_mixed_case() {
    assert_eq!(parse_hex("#AaBbCc").unwrap(), (0xAA, 0xBB, 0xCC));
}

#[test]
fn rejects_invalid_hex() {
    assert!(parse_hex("#ZZZZZZ").is_err());
    assert!(parse_hex("#FFF").is_err());
    assert!(parse_hex("not-a-color").is_err());
}

#[test]
fn color_mode_parses_known_values() {
    assert_eq!(ColorMode::from_str("auto").unwrap(), ColorMode::Auto);
    assert_eq!(ColorMode::from_str("ALWAYS").unwrap(), ColorMode::Always);
    assert_eq!(ColorMode::from_str("never").unwrap(), ColorMode::Never);
    assert!(ColorMode::from_str("rainbow").is_err());
}

// Further cases.

#[test]
fn hex_error_message_quotes_the_input() {
    assert_eq!(
        parse_hex(" #12").unwrap_err(),
        "invalid hex color ' #12', expected a format like #00FFFF"
    );
}

#[test]
fn hex_with_whitespace_and_repeated_hash() {
    assert_eq!(parse_hex("  ##102030 ").unwrap(), (0x10, 0x20, 0x30));
    assert!(parse_hex("#1020 30").is_err());
}

#[test]
fn color_mode_error_message() {
    assert_eq!(
        ColorMode::from_str("Rainbow").unwrap_err(),
        "invalid value 'rainbow' for --color, expected auto|always|never"
    );
}

#[test]
fn color_decision() {
    assert!(should_use_color(ColorMode::Always, true, false));
    assert!(!should_use_color(ColorMode::Never, false, true));
    assert!(should_use_color(ColorMode::Auto, false, true));
    assert!(!should_use_color(ColorMode::Auto, true, true));
    assert!(!should_use_color(ColorMode::Auto, false, false));
}

#[test]
fn plain_theme_messages() {
    let theme = Theme { enabled: false, emoji: false, ..Theme::default() };
    assert_eq!(theme.success("ok"), "ok");
    assert_eq!(theme.error("bad"), "bad");
    let emoji = Theme { enabled: false, emoji: true, ..Theme::default() };
    assert_eq!(emoji.success("ok"), "\u{2705} ok");
    assert_eq!(emoji.error("bad"), "\u{274c} bad");
    assert_eq!(emoji.warn("hm"), "\u{26a0}\u{fe0f}  hm");
    assert_eq!(emoji.info("fyi"), "\u{1f4c1} fyi");
}

#[test]
fn colored_theme_message_wraps_or_keeps_the_text() {
    let theme = Theme { enabled: true, emoji: false, ..Theme::default() };
    let out = theme.info("fyi");
    assert!(out == "fyi" || (out.starts_with("\u{1b}[") && out.ends_with("fyi\u{1b}[0m")));
}

#[test]
fn default_theme_colors() {
    let t = Theme::default();
    assert_eq!(t.success, (0x00, 0xC8, 0x53));
    assert_eq!(t.error, (0xFF, 0x3B, 0x30));
    assert_eq!(t.warn, (0xFF, 0xA5, 0x00));
    assert_eq!(t.info, (0x00, 0xAF, 0xFF));
    assert!(t.enabled && t.emoji);
}

fn style_code(out: &str, text: &str) -> String {
    assert!(out.starts_with("\u{1b}["), "{:?}", out);
    let tail = format!("m{}\u{1b}[0m", text);
    assert!(out.ends_with(&tail), "{:?}", out);
    out[2..out.len() - tail.len()].to_string()
}

#[test]
fn each_message_kind_carries_its_own_color() {
    colored::control::set_override(true);
    let theme = Theme {
        success: (1, 2, 3),
        error: (4, 5, 6),
        warn: (7, 8, 9),
        info: (10, 11, 12),
        enabled: true,
        emoji: false,
    };
    let cases = [
        (theme.success("s"), "s", (1, 2, 3)),
        (theme.error("e"), "e", (4, 5, 6)),
        (theme.warn("w"), "w", (7, 8, 9)),
        (theme.info("i"), "i", (10, 11, 12)),
    ];
    for (out, text, (r, g, b)) in cases {
        let code = style_code(&out, text);
        let exact = format!("38;2;{};{};{}", r, g, b);
        let basic = code.len() == 2 && (code.starts_with('3') || code.starts_with('9'));
        assert!(code == exact || basic, "{:?}", code);
    }
}
