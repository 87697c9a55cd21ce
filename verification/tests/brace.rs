use mkdir2::brace::expand;

#[test]
fn simple_comma_list() {
    let mut got = expand("dir{1,2,3}");
    got.sort();
    assert_eq!(got, vec!["dir1", "dir2", "dir3"]);
}

#[test]
fn spaces_after_commas_are_trimmed() {
    let mut got = expand("dir{1, 2, 3}");
    got.sort();
    assert_eq!(got, vec!["dir1", "dir2", "dir3"]);
}

#[test]
fn spaces_before_and_after_commas_are_trimmed() {
    let mut got = expand("dir{ 1 , 2 , 3 }");
    got.sort();
    assert_eq!(got, vec!["dir1", "dir2", "dir3"]);
}

#[test]
fn space_trimming_works_with_nested_groups() {
    let mut got = expand("project/{ src, tests, docs }");
    got.sort();
    let mut expected = vec!["project/src", "project/tests", "project/docs"];
    expected.sort();
    assert_eq!(got, expected);
}

#[test]
fn backslash_before_brace_expands_like_forward_slash() {
    let got = expand(r"dir1\{dir2,dir3}");
    assert_eq!(
        got.len(),
        2,
        "should expand to 2 items, not stay as a literal"
    );
    assert!(got.iter().any(|s| s.contains("dir2")));
    assert!(got.iter().any(|s| s.contains("dir3")));
}

#[test]
fn backslash_before_brace_with_spaces_trimmed() {
    let got = expand(r"dir1\{dir2, dir3}");
    assert_eq!(got.len(), 2);
    for s in &got {
        assert!(!s.contains(" dir3"), "space must be trimmed: {:?}", s);
    }
    assert!(got.iter().any(|s| s.contains("dir2")));
    assert!(got.iter().any(|s| s.contains("dir3")));
}

#[test]
fn backslash_inside_brace_items_is_path_separator() {
    let mut got = expand(r"{src\main, tests\unit}");
    got.sort();
    assert!(got.iter().any(|s| s.contains("main")));
    assert!(got.iter().any(|s| s.contains("unit")));
}

#[test]
fn nested_groups() {
    let mut got = expand("project/{src/{main,lib},tests}");
    got.sort();
    let mut expected = vec!["project/src/main", "project/src/lib", "project/tests"];
    expected.sort();
    assert_eq!(got, expected);
}

#[test]
fn deeply_nested_groups() {
    let mut got = expand("a/{b/{c,d}/e,f}");
    got.sort();
    let mut expected = vec!["a/b/c/e", "a/b/d/e", "a/f"];
    expected.sort();
    assert_eq!(got, expected);
}

#[test]
fn numeric_range() {
    let got = expand("file{1..3}");
    assert_eq!(got, vec!["file1", "file2", "file3"]);
}

#[test]
fn numeric_range_padded() {
    let got = expand("file{01..03}");
    assert_eq!(got, vec!["file01", "file02", "file03"]);
}

#[test]
fn numeric_range_padded_negative() {
    let got = expand("neg{-05..-03}");
    assert_eq!(got, vec!["neg-05", "neg-04", "neg-03"]);
}

#[test]
fn numeric_range_with_step() {
    let got = expand("v{0..10..5}");
    assert_eq!(got, vec!["v0", "v5", "v10"]);
}

#[test]
fn numeric_range_descending() {
    let got = expand("v{3..1}");
    assert_eq!(got, vec!["v3", "v2", "v1"]);
}

#[test]
fn alpha_range() {
    let got = expand("{a..e}");
    assert_eq!(got, vec!["a", "b", "c", "d", "e"]);
}

#[test]
fn no_braces_passthrough() {
    let got = expand("plain/path");
    assert_eq!(got, vec!["plain/path"]);
}

#[test]
fn single_item_brace_is_literal() {
    let got = expand("{onlyone}");
    assert_eq!(got, vec!["{onlyone}"]);
}

#[test]
fn multiple_groups_cartesian_product() {
    let mut got = expand("a{1,2}b{x,y}");
    got.sort();
    let mut expected = vec!["a1bx", "a1by", "a2bx", "a2by"];
    expected.sort();
    assert_eq!(got, expected);
}

#[test]
fn empty_input_returns_empty_string() {
    assert_eq!(expand(""), vec![""]);
}

// Further cases of the expansion rules.

#[test]
fn cartesian_product_keeps_item_major_order() {
    assert_eq!(expand("a{1,2}b{x,y}"), vec!["a1bx", "a1by", "a2bx", "a2by"]);
}

#[test]
fn alpha_range_descending_and_across_cases() {
    assert_eq!(expand("{c..a}"), vec!["c", "b", "a"]);
    assert_eq!(expand("{Y..b}"), vec!["Y", "Z", "[", "\\", "]", "^", "_", "`", "a", "b"]);
}

#[test]
fn negative_step_uses_its_magnitude_and_zero_step_means_one() {
    assert_eq!(expand("{1..7..-3}"), vec!["1", "4", "7"]);
    assert_eq!(expand("{9..5..2}"), vec!["9", "7", "5"]);
    assert_eq!(expand("{1..3..0}"), vec!["1", "2", "3"]);
    assert_eq!(expand("{1..3..x}"), vec!["1", "2", "3"]);
}

#[test]
fn ranges_near_the_integer_limits() {
    assert_eq!(
        expand("{9223372036854775806..9223372036854775807}"),
        vec!["9223372036854775806", "9223372036854775807"]
    );
    assert_eq!(
        expand("{-9223372036854775807..-9223372036854775808}"),
        vec!["-9223372036854775807", "-9223372036854775808"]
    );
    assert_eq!(expand("{-01..1}"), vec!["-01", "00", "01"]);
}

#[test]
fn plus_sign_and_overflow_in_ranges() {
    assert_eq!(expand("{+1..3}"), vec!["1", "2", "3"]);
    assert_eq!(expand("{1..9223372036854775808}"), vec!["{1..9223372036854775808}"]);
    assert_eq!(expand("{1...3}"), vec!["{1...3}"]);
    assert_eq!(expand("{1..2..3..4}"), vec!["{1..2..3..4}"]);
    assert_eq!(expand("{ab..c}"), vec!["{ab..c}"]);
}

#[test]
fn unmatched_braces_stay_literal() {
    assert_eq!(expand("a{b"), vec!["a{b"]);
    assert_eq!(expand("a}b{c,d}"), vec!["a}bc", "a}bd"]);
    assert_eq!(expand("{{x,y}"), vec!["{x", "{y"]);
}

#[test]
fn literal_group_is_followed_by_expanded_suffix() {
    assert_eq!(expand("{a}{b,c}"), vec!["{a}b", "{a}c"]);
}

#[test]
fn empty_pieces_and_range_inside_list() {
    assert_eq!(expand("x{,y}"), vec!["x", "xy"]);
    assert_eq!(expand("{a,{1..2}}"), vec!["a", "1", "2"]);
}

#[test]
fn comma_anywhere_in_body_disables_ranges() {
    assert_eq!(expand("{1..3,x}"), vec!["1..3", "x"]);
}

#[test]
fn whitespace_inside_a_group_changes_nothing() {
    let spaced = expand("p{  a ,\tb  ,c }q");
    assert_eq!(spaced, vec!["paq", "pbq", "pcq"]);
    assert_eq!(spaced, expand("p{a,b,c}q"));
    assert_eq!(expand("dir1/{dir2, dir3}"), expand("dir1/{dir2,dir3}"));
}

#[test]
fn only_top_level_commas_split_a_group() {
    let got = expand("x{a,{b,c},d}y");
    assert_eq!(got, vec!["xay", "xby", "xcy", "xdy"]);
}
