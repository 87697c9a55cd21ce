use mkdir2::pathnorm::{looks_absolute, normalize_path, normalize_path_with};

#[test]
fn mixed_separators_become_uniform() {
    let p = normalize_path("a/b\\c");
    let s = p.replace('\\', "/");
    assert_eq!(s, "a/b/c");
}

#[test]
fn backslash_only_path() {
    let p = normalize_path("foo\\bar\\baz");
    let s = p.replace('\\', "/");
    assert_eq!(s, "foo/bar/baz");
}

#[test]
fn forward_slash_absolute_preserved() {
    let p = normalize_path("/usr/local/bin");
    let s = p.as_str();
    assert!(std::path::Path::new(&p).is_absolute() || s.starts_with('/'));
}

#[test]
fn windows_drive_is_detected() {
    assert!(looks_absolute("C:\\Users\\test"));
    assert!(looks_absolute("C:/Users/test"));
}

#[test]
fn relative_path_is_not_absolute() {
    assert!(!looks_absolute("foo/bar"));
    assert!(!looks_absolute("foo\\bar"));
}

#[test]
fn trailing_and_duplicate_separators_collapse() {
    let p = normalize_path("a//b///c/");
    let s = p.replace('\\', "/");
    assert_eq!(s, "a/b/c");
}

// Further cases.

#[test]
fn drive_prefix_is_kept_with_a_separator() {
    assert_eq!(normalize_path_with("C:\\foo/bar", '/'), "C:/foo/bar");
    assert_eq!(normalize_path_with("C:", '/'), "C:/");
    assert_eq!(normalize_path_with("\\C:\\x", '/'), "/C:/x");
}

#[test]
fn root_and_empty_inputs() {
    assert_eq!(normalize_path_with("/", '/'), "/");
    assert_eq!(normalize_path_with("\\\\", '/'), "/");
    assert_eq!(normalize_path_with("", '/'), "");
    assert_eq!(normalize_path_with("/usr/local/bin", '/'), "/usr/local/bin");
}

#[test]
fn backslash_and_slash_inputs_normalize_alike() {
    assert_eq!(normalize_path(r"data\2024\reports"), normalize_path("data/2024/reports"));
    assert_eq!(looks_absolute(r"\srv"), looks_absolute("/srv"));
}

#[test]
fn looks_absolute_needs_a_letter_before_the_colon() {
    assert!(!looks_absolute("1:/x"));
    assert!(!looks_absolute("C"));
    assert!(looks_absolute("z:"));
}

#[test]
fn normalizing_twice_changes_nothing() {
    for input in ["a//b\\\\c/", "/usr//local/", "C:\\foo\\\\bar", "\\\\", "", "c:", "x/C:/y"] {
        let once = normalize_path(input);
        assert_eq!(normalize_path(&once), once, "input {:?}", input);
    }
}

#[test]
fn windows_separator_is_used_when_asked() {
    assert_eq!(normalize_path_with("C:\\foo/bar", '\\'), "C:\\foo\\bar");
    assert_eq!(normalize_path_with("a/b\\c", '\\'), "a\\b\\c");
    assert_eq!(normalize_path_with("/usr//local/", '\\'), "\\usr\\local");
}

#[test]
fn platform_separator_result_is_the_normalized_path_written_with_it() {
    let native = normalize_path("a//b\\c/");
    let sep = std::path::MAIN_SEPARATOR;
    assert_eq!(native, normalize_path_with("a//b\\c/", sep));
    assert_eq!(native.replace(sep, "/"), "a/b/c");
}

#[test]
fn windows_drive_components_replace_what_came_before() {
    assert_eq!(normalize_path_with("/C:/x", '\\'), "C:\\x");
    assert_eq!(normalize_path_with("x/C:/y", '\\'), "C:y");
    assert_eq!(normalize_path_with("a/C:b/c", '\\'), "C:b\\c");
    assert_eq!(normalize_path_with("C:/D:", '\\'), "D:");
    assert_eq!(normalize_path_with("C:", '\\'), "C:\\");
    assert_eq!(normalize_path_with("\\\\", '\\'), "\\");
    // Unix rules keep every component.
    assert_eq!(normalize_path_with("x/C:/y", '/'), "x/C:/y");
}

#[test]
fn windows_normalizing_twice_changes_nothing_but_a_bare_drive() {
    for input in ["a//b\\\\c/", "/usr//local/", "C:\\foo\\\\bar", "/C:/x", "x/C:/y", "a/C:b/c", "", "c:"] {
        let once = normalize_path_with(input, '\\');
        assert_eq!(normalize_path_with(&once, '\\'), once, "input {:?}", input);
    }
    let bare = normalize_path_with("C:/D:", '\\');
    assert_eq!(normalize_path_with(&bare, '\\'), "D:\\");
}
