use nkgrep::cli::{color_enabled, parse_color_when, ColorWhen};
use nkgrep::emit::{colorize, colorize_spans, emit_text_row, emit_text_row_colored, Colored};
use nkgrep::matcher::{build_matcher, LineMatcher};
use nkgrep::served::{json_hits_to_text, json_hits_to_text_colored, serve_text_out};

fn lit(pat: &str) -> LineMatcher {
    build_matcher(pat, false).ok().unwrap()
}

fn shown(text: &str, m: &LineMatcher) -> String {
    match colorize_spans(text, m) {
        Colored::Verbatim => text.to_string(),
        Colored::Styled(s) => s,
        Colored::Broken => panic!("highlighting must not split a character"),
    }
}

#[test]
fn parse_when_values() {
    assert_eq!(parse_color_when("auto"), Some(ColorWhen::Auto));
    assert_eq!(parse_color_when("always"), Some(ColorWhen::Always));
    assert_eq!(parse_color_when("never"), Some(ColorWhen::Never));
    assert_eq!(parse_color_when("ansi"), Some(ColorWhen::Always));
    assert_eq!(parse_color_when("bogus"), None);
    assert_eq!(parse_color_when(""), None);
    assert_eq!(parse_color_when("Always"), None);
}

#[test]
fn enabled_explicit_wins() {
    for tty in [false, true] {
        assert!(color_enabled(ColorWhen::Always, tty));
        assert!(!color_enabled(ColorWhen::Never, tty));
        assert_eq!(color_enabled(ColorWhen::Auto, tty), tty);
    }
}

#[test]
fn span_wrap_matches_rg_bytes() {
    let m = lit("hello");
    assert_eq!(shown("hello world", &m), "\x1b[0m\x1b[1m\x1b[31mhello\x1b[0m world");
}

#[test]
fn no_match_borrows_back_verbatim() {
    let m = lit("zzz");
    assert!(matches!(colorize_spans("hello world", &m), Colored::Verbatim));
    assert_eq!(shown("hello world", &m), "hello world");
}

#[test]
fn zero_width_spans_skipped() {
    // `x*` matches empty everywhere: must emit no codes at all.
    let m = lit("x*");
    let out = shown("ab", &m);
    assert_eq!(out, "ab");
    assert!(!out.bytes().any(|b| b == 0x1b));
}

#[test]
fn multi_span_all_wrapped() {
    let m = lit("o");
    assert_eq!(
        shown("foo boo", &m),
        "f\x1b[0m\x1b[1m\x1b[31mo\x1b[0m\x1b[0m\x1b[1m\x1b[31mo\x1b[0m b\x1b[0m\x1b[1m\x1b[31mo\x1b[0m\x1b[0m\x1b[1m\x1b[31mo\x1b[0m"
    );
}

#[test]
fn colored_row_delegates_framing() {
    // Plain and colored rows share `path:line:` framing; only the text
    // span differs.
    let m = lit("needle");
    let mut plain = Vec::new();
    let mut colored = Vec::new();
    emit_text_row(&mut plain, "a.txt", 7, "a needle here");
    assert!(emit_text_row_colored(&mut colored, "a.txt", 7, "a needle here", &m));
    assert_eq!(&plain, b"a.txt:7:a needle here\n");
    assert_eq!(&colored, b"a.txt:7:a \x1b[0m\x1b[1m\x1b[31mneedle\x1b[0m here\n");
}

#[test]
fn serve_colored_mirrors_plain_shape() {
    // Same rows, same order as the plain converter; only spans wrapped.
    let raw = b"{\"path\":\"a.txt\",\"line\":1,\"text\":\"hi needle\"}\n\
                {\"path\":\"b.txt\",\"line\":2,\"text\":\"no hit here\"}\n";
    let m = lit("needle");
    let plain = json_hits_to_text(raw);
    let colored = json_hits_to_text_colored(raw, &m).unwrap();
    assert_eq!(&plain, b"a.txt:1:hi needle\nb.txt:2:no hit here\n");
    assert_eq!(&colored, b"a.txt:1:hi \x1b[0m\x1b[1m\x1b[31mneedle\x1b[0m\nb.txt:2:no hit here\n");
    // Without color the bytes are the plain ones.
    assert_eq!(serve_text_out(raw, "needle", false, false, false, false).unwrap(), plain);
    assert_eq!(serve_text_out(raw, "needle", false, false, false, true).unwrap(), colored);
    // A query that does not compile falls back to plain rows.
    assert_eq!(serve_text_out(raw, "(", false, false, false, true).unwrap(), plain);
}

#[test]
fn split_characters_are_told() {
    // A span that ends inside a character leaves no text.
    assert!(matches!(colorize("\u{e9}", &[(0, 1)]), Colored::Broken));
    assert!(matches!(colorize("ab", &[(1, 1)]), Colored::Verbatim));
    let m = lit("a.");
    let mut buf = b"kept".to_vec();
    assert!(!emit_text_row_colored(&mut buf, "p", 1, "a\u{e9}", &m));
    assert_eq!(buf, b"kept");
}
