use nkgrep::emit::{emit_ctx_json, emit_ctx_row, emit_raw_with_path, emit_text_row, push_escaped_json, push_line_no, write_aggregates};

fn quoted_manual(s: &str) -> Vec<u8> {
    let mut m = Vec::with_capacity(s.len() + 2);
    m.push(b'"');
    push_escaped_json(&mut m, s);
    m.push(b'"');
    m
}

fn check_str(s: &str) {
    let o = serde_json::to_vec(&s).unwrap();
    assert_eq!(quoted_manual(s), o, "escape divergence on {s:?}");
}

fn serde_hit(path: &str, line: u64, text: &str, score: f64) -> Vec<u8> {
    // The members in the order in which a hit lists its fields.
    let mut o = b"{\"path\":".to_vec();
    o.extend(serde_json::to_vec(path).unwrap());
    o.extend(b",\"line\":");
    o.extend(serde_json::to_vec(&line).unwrap());
    o.extend(b",\"text\":");
    o.extend(serde_json::to_vec(text).unwrap());
    o.extend(b",\"score\":");
    o.extend(serde_json::to_vec(&score).unwrap());
    o.push(b'}');
    o
}

fn check_hit(path: &str, line: u64, text: &str, score: f64) {
    let mut m = Vec::new();
    let mut p = Vec::with_capacity(path.len() + 2);
    push_escaped_json(&mut p, path);
    emit_raw_with_path(&mut m, &p, line, text, &serde_json::to_vec(&score).unwrap());
    let mut o = serde_hit(path, line, text, score);
    o.push(b'\n');
    assert_eq!(m, o, "hit divergence on {path:?}:{line}:{text:?}:{score:?}");
}

#[test]
fn fuzz_vs_serde_full_matrix() {
    // Every single byte 0x00-0x7F standalone.
    for b in 0u8..=0x7Fu8 {
        check_str(&char::from_u32(b as u32).unwrap().to_string());
    }
    // Every control/quote/backslash embedded in text.
    let mut specials: Vec<char> = (0u8..0x20).map(|b| b as char).collect();
    specials.push('"');
    specials.push('\\');
    for c in &specials {
        check_str(&format!("a{c}b"));
        check_str(&format!("{c}lead"));
        check_str(&format!("trail{c}"));
    }
    // Full pair matrix over specials (byte-identical gate).
    for a in &specials {
        for b in &specials {
            check_str(&format!("{a}{b}"));
            check_str(&format!("x{a}y{b}z"));
        }
    }
    // Must-NOT-escape: DEL, high bytes via multibyte, slashes.
    for s in [
        "\x7f",
        "caf\u{e9}",
        "\u{1f600}",
        "\u{fffd}",
        "\u{4e2d}\u{6587}",
        "e\u{301}",
        "a/b\\c",
        "/abs/path/x.txt",
        "tab\there",
        "nl\nhere",
        "cr\rhere",
        "bs\x08here",
        "ff\x0chere",
        "q\"q",
        "b\\b",
        "\"quoted\"",
        "\\\\unc\\\\path",
        "",
        "plain ascii line with spaces 123",
    ] {
        check_str(s);
    }
    // Hit-level sweep: lines x scores x tricky strings.
    let texts = [
        "plain",
        "q\"q\\",
        "a\nb\tc",
        "\x01\x02\x1f mid \x7f",
        "uni \u{1f600} \u{fffd}",
        "",
        "trail\\",
    ];
    let lines = [0u64, 1, 42, u64::MAX];
    let scores = [
        0.0,
        -0.0,
        1.5,
        -42.25,
        123456.789,
        1e-7,
        1e300,
        99.999999,
        f64::INFINITY,
        f64::NEG_INFINITY,
        f64::NAN,
    ];
    for t in texts {
        for l in lines {
            for s in scores {
                check_hit("corpus/pkg_0/m_0.txt", l, t, s);
                check_hit("we\"ird\\path\x01.txt", l, t, s);
            }
        }
    }
}

#[test]
fn escapes_by_value() {
    let mut out = Vec::new();
    push_escaped_json(&mut out, "a\"b\\c\n\r\t\x08\x0c\x01\x1f\u{e9}");
    assert_eq!(out, "a\\\"b\\\\c\\n\\r\\t\\b\\f\\u0001\\u001f\u{e9}".as_bytes());
    // No two texts share an escaped form, and none holds a line break.
    let mut a = Vec::new();
    let mut b = Vec::new();
    push_escaped_json(&mut a, "\\n");
    push_escaped_json(&mut b, "\n");
    assert_ne!(a, b);
    assert!(!a.contains(&b'\n') && !b.contains(&b'\n'));
}

#[test]
fn context_line_is_marked() {
    let mut buf = Vec::new();
    emit_ctx_json(&mut buf, b"a.txt", 3, "x\ty", b"-1.5");
    assert_eq!(buf, b"{\"path\":\"a.txt\",\"line\":3,\"text\":\"x\\ty\",\"score\":-1.5,\"ctx\":true}\n");
}

#[test]
fn rows_are_framed() {
    let mut buf = Vec::new();
    emit_text_row(&mut buf, "a b.txt", 0, "x");
    emit_ctx_row(&mut buf, "c", 18446744073709551615, "");
    assert_eq!(buf, b"a b.txt:0:x\nc:18446744073709551615-\n");
    let mut n = Vec::new();
    push_line_no(&mut n, 1050);
    assert_eq!(n, b"1050");
}

#[test]
fn aggregates_list_paths_or_counts() {
    let rows = vec![("a".to_string(), 2usize), ("b/c".to_string(), 11)];
    assert_eq!(write_aggregates(&rows, true), b"a\nb/c\n");
    assert_eq!(write_aggregates(&rows, false), b"a:2\nb/c:11\n");
    assert!(write_aggregates(&[], false).is_empty());
}
