use nkgrep::grams::{
    branch_needs_fallback, gram_pack, is_plain_pattern, literal_runs, query_grams, query_grams_multi, split_branches, trigrams_of,
};
use nkgrep::matcher::{build_matcher, build_matcher_opts, search_bytes};
use nkgrep::patterns::{combine_patterns, is_pure_literal, regex_escape_into, split_pattern_lines};

fn sorted_branches(pat: &str) -> Option<Vec<Vec<u32>>> {
    query_grams(pat).map(|mut ors| {
        for b in &mut ors {
            b.sort();
        }
        ors.sort();
        ors
    })
}

#[test]
fn escaped_pipe_stays_one_branch() {
    // `abc\|def` is a single literal `abc|def`, not an alternation.
    let got = sorted_branches("abc\\|def").unwrap();
    assert_eq!(got.len(), 1, "escaped pipe must not split: {got:?}");
    assert!(got[0].contains(&gram_pack(b"abc")), "{got:?}");
    assert!(got[0].contains(&gram_pack(b"def")), "{got:?}");
}

#[test]
fn escaped_pipe_branch_still_indexes() {
    // A naive split would yield a bare `x` branch and force a full scan.
    let got = sorted_branches("needle_1\\|x|NEEDLE_ALPHA").unwrap();
    assert_eq!(got.len(), 2, "{got:?}");
}

#[test]
fn class_pipe_does_not_split() {
    let got = sorted_branches("[a|b]+needle_1").unwrap();
    assert_eq!(got.len(), 1, "class pipe must not split: {got:?}");
    assert!(got[0].contains(&gram_pack(b"nee")), "{got:?}");
}

#[test]
fn group_alternation_splits() {
    let got = sorted_branches("(needle_1|needle_2)_suffix").unwrap();
    assert_eq!(got.len(), 2, "{got:?}");
}

#[test]
fn no_literal_falls_back() {
    assert!(query_grams("a|b").is_none());
    assert!(query_grams(".*").is_none());
    assert!(query_grams("a\\|b").is_none()); // single branch, runs < 3
}

#[test]
fn group_and_repeat_falls_back() {
    // `(?` (flags, named groups, comments, lookaround) and `{n}`
    // repetition can drop a required trigram: full scan.
    assert!(query_grams("(?i)needle_alpha").is_none());
    assert!(query_grams("(?P<word>NEEDLE_ALPHA)").is_none());
    assert!(query_grams("(?#comment)NEEDLE_ALPHA").is_none());
    assert!(query_grams("NEEDLE_[A-Z]{2,}").is_none());
    assert!(query_grams("confi{1,}g").is_none());
    // Escaped or class-contained `(?` / `{d` stay literal: indexable.
    assert!(query_grams("[(?]needle_alpha").is_some());
}

#[test]
fn plain_queries_unchanged() {
    assert!(query_grams("TODO_FIXME_ALPHA").is_some());
    assert_eq!(sorted_branches("needle_1|needle_2|needle_3").unwrap().len(), 3);
    assert_eq!(sorted_branches("fn parse_config").unwrap().len(), 1);
}

#[test]
fn pack_bijective_and_ordered() {
    // Bijective: distinct triples pack distinctly, top byte stays zero.
    let mut seen = std::collections::HashSet::new();
    for a in [0u8, 1, 65, 95, 122, 200, 255] {
        for b in [0u8, 1, 65, 95, 122, 200, 255] {
            for c in [0u8, 1, 65, 95, 122, 200, 255] {
                let k = gram_pack(&[a, b, c]);
                assert_eq!(k >> 24, 0, "top byte must stay zero");
                assert_eq!(((k >> 16) & 0xFF) as u8, a);
                assert_eq!(((k >> 8) & 0xFF) as u8, b);
                assert_eq!((k & 0xFF) as u8, c);
                assert!(seen.insert(k), "collision on [{a}, {b}, {c}]");
            }
        }
    }
    // Numeric order equals lexicographic byte order.
    let mut trips: Vec<[u8; 3]> = vec![*b"abc", *b"abd", *b"bac", *b"aaa", *b"zzz", *b"a_c", *b"_aa"];
    trips.sort();
    let mut packed: Vec<u32> = trips.iter().map(gram_pack).collect();
    packed.sort();
    assert_eq!(packed, trips.iter().map(gram_pack).collect::<Vec<_>>());
}

#[test]
fn matchflags_combine_scopes_groups() {
    let one = |s: &str| s.to_string();
    // Single non-fixed passes through verbatim (default path identical).
    assert_eq!(combine_patterns(&[one("a|b")], false), "a|b");
    // Wrapping keeps (?i) scoped and inner | from merging branches.
    assert_eq!(combine_patterns(&[one("(?i)foo"), one("BAR")], false), "(?:(?i)foo)|(?:BAR)");
    assert_eq!(combine_patterns(&[one("(a|b)"), one("c")], false), "(?:(a|b))|(?:c)");
    // Fixed pre-escapes so separators stay regex alternation.
    assert_eq!(combine_patterns(&[one("a.c"), one("x|y")], true), "(?:a\\.c)|(?:x\\|y)");
    assert_eq!(combine_patterns(&[one("a.c")], true), "a.c");
}

#[test]
fn matchflags_grams_multi() {
    let one = |s: &str| s.to_string();
    // Single non-fixed delegates exactly.
    assert_eq!(query_grams_multi(&[one("NEEDLE_ALPHA")], false), query_grams("NEEDLE_ALPHA"));
    // Fixed uses literal windows, even where regex parse would bail.
    let g = query_grams_multi(&[one("foo*bar")], true).unwrap();
    assert_eq!(g.len(), 1);
    assert!(g[0].contains(&gram_pack(b"foo")));
    assert!(g[0].contains(&gram_pack(b"bar")));
    // Multi unions branches; any gram-less pattern forces a full scan.
    let u = query_grams_multi(&[one("NEEDLE_ALPHA"), one("needle_1")], false).unwrap();
    assert_eq!(u.len(), 2);
    assert!(query_grams_multi(&[one("NEEDLE_ALPHA"), one("a|b")], false).is_none());
    // Empty/short fixed patterns hold no trigram: full scan (an empty
    // pattern matches every line, so pruning would false-negative).
    assert!(query_grams_multi(&[one("")], true).is_none());
    assert!(query_grams_multi(&[one("ab")], true).is_none());
}

#[test]
fn matchflags_pattern_lines() {
    let v = |b: &[u8]| split_pattern_lines(b);
    assert!(v(b"").is_empty());
    assert_eq!(v(b"a\n"), vec!["a"]);
    // Interior empties kept (match-all); trailing artifact dropped.
    assert_eq!(v(b"a\n\nb\n"), vec!["a", "", "b"]);
    assert_eq!(v(b"\n"), vec![""]);
    assert_eq!(v(b"a\r\nb\r\n"), vec!["a", "b"]);
    assert_eq!(v(b"a\rb"), vec!["a\rb"]);
}

#[test]
fn pattern_lines_replace_faulty_bytes() {
    assert_eq!(split_pattern_lines(b"a\xffb\nc"), vec!["a\u{fffd}b", "c"]);
    assert_eq!(split_pattern_lines("caf\u{e9}\n".as_bytes()), vec!["caf\u{e9}"]);
}

#[test]
fn matchflags_matcher_word_fixed() {
    // Word bounds: foo-bar yes, foobar/foo_bar no.
    let w = build_matcher_opts("foo", false, true, false).ok().unwrap();
    for (line, want) in [("a foo b", 1), ("foobar", 0), ("foo_bar", 0), ("foo-bar", 1), ("foo", 1)] {
        let found = search_bytes(&w, line.as_bytes(), false);
        assert_eq!(found.len(), want, "word line {line:?}");
    }
    // Fixed treats metachars literally.
    let f = build_matcher_opts("a.c", false, false, true).ok().unwrap();
    let found = search_bytes(&f, b"a.c axc", false);
    assert_eq!(found.len(), 1);
    assert_eq!(found[0].1, b"a.c axc");
}

#[test]
fn word_boundaries_are_unicode() {
    let w = build_matcher_opts("foo", false, true, false).ok().unwrap();
    assert!(search_bytes(&w, "foo\u{e9}".as_bytes(), false).is_empty());
    assert_eq!(search_bytes(&w, b"foo-bar", false).len(), 1);
}

#[test]
fn case_folds_beyond_ascii() {
    let m = build_matcher("caf\u{e9}", true).ok().unwrap();
    assert_eq!(search_bytes(&m, "CAF\u{c9}\n".as_bytes(), false).len(), 1);
    let m = build_matcher("hello", true).ok().unwrap();
    assert_eq!(search_bytes(&m, b"x\nHELLO\n", false), vec![(2, b"HELLO\n".to_vec())]);
    let m = build_matcher("hello", false).ok().unwrap();
    assert!(search_bytes(&m, b"HELLO\n", false).is_empty());
}

#[test]
fn bad_pattern_is_refused_with_text() {
    let e = build_matcher("(", false).err().unwrap();
    assert!(e.text.contains("regex parse error"), "{}", e.text);
    let e = build_matcher("(", true).err().unwrap();
    assert!(e.text.contains("regex parse error"), "{}", e.text);
    // A literal search takes the same pattern.
    assert!(build_matcher_opts("(", false, false, true).is_ok());
}

#[test]
fn lines_are_numbered_and_whole() {
    let m = build_matcher("needle", false).ok().unwrap();
    let found = search_bytes(&m, b"one\nneedle a\r\n\nneedle b", false);
    assert_eq!(found, vec![(2, b"needle a\r\n".to_vec()), (4, b"needle b".to_vec())]);
    let rest = search_bytes(&m, b"one\nneedle a\r\n\nneedle b", true);
    assert_eq!(rest, vec![(1, b"one\n".to_vec()), (3, b"\n".to_vec())]);
}

#[test]
fn empty_and_binary_buffers_hold_no_lines() {
    let m = build_matcher("needle", false).ok().unwrap();
    assert!(search_bytes(&m, b"", false).is_empty());
    assert!(search_bytes(&m, b"needle\0", false).is_empty());
    assert!(search_bytes(&m, b"x\0", true).is_empty());
    // A NUL past the first 8192 bytes does not make a buffer binary.
    let mut late = b"needle\n".to_vec();
    late.extend(vec![b'a'; 8192]);
    late.push(0);
    assert_eq!(search_bytes(&m, &late, false).len(), 1);
    assert!(!nkgrep::lines::is_binary(&late));
    assert!(nkgrep::lines::is_binary(b"a\0"));
}

#[test]
fn branches_join_back() {
    for p in ["a|b", "", "|", "a\\|b|[x|y]|", "[]|]a|b", "[^]|]|c", "[a\\]|b]|d", "tail\\", "[open|"] {
        assert_eq!(split_branches(p).join("|"), p);
    }
    assert_eq!(split_branches("[]|]a|b"), vec!["[]|]a", "b"]);
    assert_eq!(split_branches("[a\\]|b]|d"), vec!["[a\\]|b]", "d"]);
    assert_eq!(split_branches("[open|x"), vec!["[open|x"]);
}

#[test]
fn runs_skip_escapes_and_classes() {
    assert_eq!(literal_runs("foo\\dbar[x]baz_9"), vec![b"foo".to_vec(), b"bar".to_vec(), b"baz_9".to_vec()]);
    assert_eq!(literal_runs("a[open"), vec![b"a".to_vec()]);
    assert!(literal_runs("\u{e9}").is_empty());
    assert!(literal_runs("").is_empty());
}

#[test]
fn fallback_is_told_by_unescaped_operators() {
    for p in ["a*", "a?", "(?:x)", "a{2}", "x?"] {
        assert!(branch_needs_fallback(p), "{p}");
    }
    for p in ["a\\*", "[*?]", "a+", "(x)", "a{b", "\\(?".trim_end_matches('?'), "{"] {
        assert!(!branch_needs_fallback(p), "{p}");
    }
}

#[test]
fn trigrams_are_windows() {
    let set = trigrams_of(b"abcd");
    assert_eq!(set.len(), 2);
    assert!(set.contains(&gram_pack(b"abc")) && set.contains(&gram_pack(b"bcd")));
    assert!(trigrams_of(b"ab").is_empty());
    assert_eq!(gram_pack(b"abc"), 0x616263);
}

#[test]
fn words_are_literals() {
    assert!(is_pure_literal("foo_9"));
    for p in ["", "a.b", "a|b", "\u{e9}t\u{e9}", "a b", "\\d"] {
        assert!(!is_pure_literal(p), "{p}");
    }
}

#[test]
fn escaping_guards_meta_characters() {
    let mut out = String::from(">");
    regex_escape_into(&mut out, "a.b+c#\u{e9}\\");
    assert_eq!(out, ">a\\.b\\+c\\#\u{e9}\\\\");
    // An escaped text is one branch.
    let mut bar = String::new();
    regex_escape_into(&mut bar, "x|y[z");
    assert_eq!(split_branches(&bar).len(), 1);
}

#[test]
fn escaping_tells_texts_apart() {
    let escape = |s: &str| {
        let mut out = String::new();
        regex_escape_into(&mut out, s);
        out
    };
    assert_ne!(escape("a.b"), escape("a\\.b"));
    assert_eq!(literal_runs("foo_1"), vec![b"foo_1".to_vec()]);
    assert_eq!(split_branches("foo_1"), vec!["foo_1"]);
}

#[test]
fn folded_case_survives_a_failed_attempt() {
    // A pattern that compiles folds case whatever the first attempt did.
    let m = build_matcher_opts("needle", true, true, false).ok().unwrap();
    assert_eq!(search_bytes(&m, b"a NEEDLE b\n", false).len(), 1);
    assert!(search_bytes(&m, b"needles\n", false).is_empty());
}

#[test]
fn unclear_patterns_are_scanned() {
    // Longer escapes, nested classes and every counted repetition.
    for p in [
        "\\x41BCD", "\\x{41}BCD", "\\u0041BCD", "\\pLabc", "\\b{start}foo", "[[a]bcd]", "[[:foo:]]needle",
        "[+-[:alpha:]|foo]needle", "\\p{Lu", "ABC{ 0}", "ABC{,0}", "foo{bar", "(foo", "foo)", "+foo", "foo|+bar", "[foo", "foo\\", "\\1foo",
    ] {
        assert!(query_grams(p).is_none(), "{p}");
        assert!(!is_plain_pattern(p), "{p}");
    }
    for p in ["foo\\.bar", "foo\\/bar", "\\bfoo\\b", "(foo|bar)+", "((foo)|bar+)baz", "foo-bar]}", "[]a]foo", "[^]\\]]foo"] {
        assert!(is_plain_pattern(p), "{p}");
        assert!(query_grams(p).is_some(), "{p}");
    }
}

#[test]
fn named_classes_and_properties_keep_the_rest_looked_up() {
    let needle = sorted_branches("needle");
    assert!(needle.is_some());
    for p in [
        "[[:alpha:]]needle", "[[:alpha:]xyz]needle", "[^[:digit:]_]needle", "[[:^space:][:punct:]]needle",
        "\\p{Lu}needle", "\\P{Greek}needle", "\\p{gc=Letter}needle", "needle[[:alpha:]|xyz]", "needle\\p{Latin}",
    ] {
        assert!(is_plain_pattern(p), "{p}");
        // Names and members of a class are no text of the pattern.
        assert_eq!(sorted_branches(p), needle, "{p}");
        assert_eq!(split_branches(p).len(), 1, "{p}");
    }
    assert_eq!(literal_runs("ab[[:alpha:]|x]cd\\p{Lu}ef"), vec![b"ab".to_vec(), b"cd".to_vec(), b"ef".to_vec()]);
}

#[test]
fn branches_hold_no_bar() {
    for p in ["a|b", "a\\|b|[x|y]|", "[]|]a|b", "[^]|]|c", "(a|b)|c\\\\|d"] {
        for b in split_branches(p) {
            assert_eq!(split_branches(&b).len(), 1, "{p}: {b}");
        }
    }
}
