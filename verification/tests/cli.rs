use mkdir2::cli::{apply_custom_colors, parse_mode, Cli};
use mkdir2::color::Theme;

fn cli_with(success: Option<&str>, error: Option<&str>) -> Cli {
    Cli {
        paths: vec![],
        from: None,
        no_parents: false,
        force: false,
        no_recursive_remove: false,
        interactive: false,
        mode: None,
        gitkeep: false,
        verbose: false,
        quiet: false,
        dry_run: false,
        stats: false,
        json: false,
        strict: false,
        color: "auto".to_string(),
        no_emoji: false,
        color_success: success.map(|s| s.to_string()),
        color_error: error.map(|s| s.to_string()),
        color_warn: None,
        color_info: None,
    }
}

#[test]
fn mode_values() {
    assert_eq!(parse_mode(None), Ok(None));
    assert_eq!(parse_mode(Some("0755")), Ok(Some(0o755)));
    assert_eq!(parse_mode(Some("0o700")), Ok(Some(0o700)));
    assert_eq!(parse_mode(Some("+17")), Ok(Some(0o17)));
    assert_eq!(parse_mode(Some("37777777777")), Ok(Some(u32::MAX)));
    assert!(parse_mode(Some("40000000000")).is_err());
    assert!(parse_mode(Some("")).is_err());
    assert!(parse_mode(Some("-1")).is_err());
    assert_eq!(
        parse_mode(Some("0789")),
        Err("invalid permission mode '0789', expected octal like 0755".to_string())
    );
}

#[test]
fn custom_colors_are_applied() {
    let mut theme = Theme::default();
    assert_eq!(apply_custom_colors(&mut theme, &cli_with(Some("#010203"), Some("0a0B0c"))), Ok(()));
    assert_eq!(theme.success, (1, 2, 3));
    assert_eq!(theme.error, (10, 11, 12));
    assert_eq!(theme.info, Theme::default().info);
}

#[test]
fn first_bad_color_stops_the_rest() {
    let mut theme = Theme::default();
    let r = apply_custom_colors(&mut theme, &cli_with(Some("#010203"), Some("oops")));
    assert_eq!(r, Err("invalid hex color 'oops', expected a format like #00FFFF".to_string()));
    assert_eq!(theme.success, (1, 2, 3));
    assert_eq!(theme.error, Theme::default().error);
}
