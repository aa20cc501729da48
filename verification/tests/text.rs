use nkgrep::paths::{
    component_count, daemon_rank_path, has_parent_dir, is_absolute, join_path, path_component, same_components,
    serve_display_path, strip_dot_slash, strip_path_prefix,
};
use nkgrep::patterns::split_pattern_text;
use nkgrep::text::{
    byte_piece_ranges, chars_of, contains_text, find_text, parse_number, piece_ranges, push_number, split_words,
    string_of, trim_chars,
};

#[test]
fn texts_and_characters_round_trip() {
    let c = chars_of("h\u{e9}\u{1f600}");
    assert_eq!(c, vec!['h', '\u{e9}', '\u{1f600}']);
    assert_eq!(string_of(&c), "h\u{e9}\u{1f600}");
}

#[test]
fn pieces_lie_between_separators() {
    assert_eq!(piece_ranges(&chars_of("a,,b"), ','), vec![(0, 1), (2, 2), (3, 4)]);
    assert_eq!(byte_piece_ranges(b"", b'\n'), vec![(0, 0)]);
    assert_eq!(byte_piece_ranges(b"x\n", b'\n'), vec![(0, 1), (2, 2)]);
    assert_eq!(split_pattern_text("a\r\nb"), vec!["a", "b"]);
}

#[test]
fn texts_are_found() {
    assert!(contains_text("abc", "bc") && contains_text("abc", "") && !contains_text("abc", "ac"));
    assert_eq!(find_text(&chars_of("xabab"), &chars_of("ab")), Some(1));
    assert_eq!(find_text(&chars_of("x"), &chars_of("ab")), None);
    assert_eq!(trim_chars(&chars_of(" \ta b\n\u{a0}")), chars_of("a b"));
    assert_eq!(split_words(&chars_of("  a  bc\n")), vec![chars_of("a"), chars_of("bc")]);
}

#[test]
fn numbers_round_trip() {
    for n in [0u64, 7, 10, 65535, u64::MAX] {
        let mut s = String::new();
        push_number(&mut s, n);
        assert_eq!(s, n.to_string());
        assert_eq!(parse_number(&chars_of(&s), u64::MAX), Some(n));
    }
    assert_eq!(parse_number(&chars_of("+5"), 9), Some(5));
    for bad in ["", "+", "-1", "1a", "18446744073709551616"] {
        assert_eq!(parse_number(&chars_of(bad), u64::MAX), None, "{bad}");
    }
    assert_eq!(parse_number(&chars_of("10"), 9), None);
}

#[test]
fn components_are_counted() {
    assert_eq!(component_count("a/b/c"), 3);
    assert_eq!(component_count("/a//b/./c/"), 4);
    assert_eq!(component_count("./a"), 2);
    assert_eq!(component_count(""), 0);
    assert!(is_absolute("/a") && !is_absolute("a/b"));
    assert!(has_parent_dir("a/../b") && !has_parent_dir("a/..b"));
    assert_eq!(path_component("a//b", 1), vec!['b']);
    assert!(same_components("a//b/", "a/b") && !same_components("a/b", "a/c"));
}

#[test]
fn prefixes_are_stripped_by_component() {
    assert_eq!(strip_path_prefix("/r/sub/x", "/r"), Some("sub/x".to_string()));
    assert_eq!(strip_path_prefix("/r/sub", "/r/sub"), Some(String::new()));
    assert_eq!(strip_path_prefix("/root/x", "/r"), None);
    assert_eq!(strip_path_prefix("r/x", "/r"), None);
}

#[test]
fn paths_are_joined() {
    assert_eq!(join_path("a", "b"), "a/b");
    assert_eq!(join_path("a/", "b"), "a/b");
    assert_eq!(join_path("", "b"), "b");
    assert_eq!(join_path("a", "/b"), "/b");
    assert_eq!(strip_dot_slash("./a/b"), "a/b");
    assert_eq!(strip_dot_slash("a"), "a");
}

#[test]
fn daemon_paths_are_shown_from_the_root() {
    assert_eq!(serve_display_path("/r/a/b", "/r"), "a/b");
    assert_eq!(serve_display_path("/x/a", "/r"), "/x/a");
    assert_eq!(daemon_rank_path("/r/a/b", "/r", None, ""), "/r/a/b");
    assert_eq!(daemon_rank_path("/r/a/b", "/r", Some("a"), ""), "b");
    assert_eq!(daemon_rank_path("/r/a/b", "/r", Some("c"), "here"), "/r/a/b");
    assert_eq!(daemon_rank_path("/r/a/b", "/r", Some("a"), "here"), "here/b");
}
