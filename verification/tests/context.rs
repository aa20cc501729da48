use nkgrep::context::{compute_groups, ctx_file_groups, ctx_group_lines, ctx_rows, CtxRow};
use nkgrep::counts::{count_files, count_paths};
use nkgrep::hits::{
    apply_max_count, attach_context, bank_hits, banked_slice, banked_text, ctx_line_text, flat_scores,
    matched_file_count, trim_line_end, FileHits, HitFault,
};
use nkgrep::lines::find_line_starts;
use nkgrep::matcher::{build_matcher, search_bytes};
use nkgrep::rank::{raw_order, top_order};
use nkgrep::render::{push_hit_row, render_context, render_context_wire, render_json, render_text, RenderFault};
use nkgrep::served::{json_hits_to_text, read_wire_line, render_served_context, served_path_counts};
use nkgrep::topk::{search_mode, SearchMode};

/// Hits of one buffer; the key of a hit falls with its line.
fn hits_in(pid: u32, pattern: &str, buf: &[u8], invert: bool, file_key: u64) -> Option<FileHits> {
    let m = build_matcher(pattern, false).ok().unwrap();
    let lines = search_bytes(&m, buf, invert);
    let keys: Vec<u64> = lines.iter().map(|(n, _)| file_key - n).collect();
    bank_hits(pid, &lines, &keys)
}

fn attached(pid: u32, pattern: &str, buf: &[u8], file_key: u64) -> FileHits {
    let mut fh = hits_in(pid, pattern, buf, false, file_key).unwrap();
    assert!(attach_context(&mut fh, buf).is_ok());
    fh
}

fn text_of(fh: &FileHits, k: usize) -> String {
    banked_text(fh, &fh.metas[k]).ok().unwrap()
}

#[test]
fn groups_merge_overlap_and_adjacency() {
    // Overlap: [1,3]+[3,5] -> one group. Adjacency ([2,4]+[5,7]) merges
    // with no separator.
    assert_eq!(compute_groups(&[2, 4], 1, 1), vec![(1, 5)]);
    assert_eq!(compute_groups(&[3, 7], 1, 1), vec![(2, 4), (6, 8)]);
}

#[test]
fn groups_clamp_top_and_split() {
    // Line 1 with before=2 clamps at 1; far-apart windows stay split.
    assert_eq!(compute_groups(&[1], 2, 1), vec![(1, 2)]);
    assert_eq!(compute_groups(&[1, 8], 1, 1), vec![(1, 2), (7, 9)]);
    // Empty input, empty output; zero context is the line itself.
    assert!(compute_groups(&[], 2, 2).is_empty());
    assert_eq!(compute_groups(&[5], 0, 0), vec![(5, 5)]);
}

#[test]
fn groups_saturate_and_ignore_repeats() {
    assert_eq!(compute_groups(&[5], 0, usize::MAX), vec![(5, u64::MAX)]);
    assert_eq!(compute_groups(&[3, 3, 9], 1, 1), compute_groups(&[3, 9], 1, 1));
}

#[test]
fn matchflags_invert_and_max_count() {
    let buf = b"foo one\nbar two\nfoo three\nbaz four\n";
    let norm = hits_in(0, "foo", buf, false, 100).expect("plain must hit");
    assert_eq!(norm.metas.len(), 2);
    let inv = hits_in(0, "foo", buf, true, 100).expect("invert must hit");
    assert_eq!(inv.metas.len(), 2);
    assert_eq!((inv.metas[0].line, inv.metas[1].line), (2, 4));
    assert_eq!(text_of(&inv, 0), "bar two");
    // -m keeps file order (first m).
    let capped = apply_max_count(vec![norm], Some(1));
    assert_eq!(capped[0].metas.len(), 1);
    assert_eq!(capped[0].metas[0].line, 1);
}

#[test]
fn attach_remap_is_byte_identical() {
    // attach_context must not change decoded hit text: metas remapped
    // into the full-file arena decode exactly what the match-banked
    // arena decoded (CRLF + missing-trailing-newline included).
    let buf = b"first\r\nneedle one\nmiddle\nneedle two";
    let plain = hits_in(0, "needle", buf, false, 100).expect("must hit");
    let before: Vec<String> = (0..plain.metas.len()).map(|k| text_of(&plain, k)).collect();
    let now = attached(0, "needle", buf, 100);
    assert_eq!(now.line_starts.len(), 4);
    assert_eq!(now.metas.len(), before.len());
    for (k, b) in before.iter().enumerate() {
        assert_eq!(&text_of(&now, k), b);
    }
    // Context lines decode through the same table.
    assert_eq!(ctx_line_text(&now, 1).ok().unwrap(), "first");
    assert_eq!(ctx_line_text(&now, 3).ok().unwrap(), "middle");
    assert_eq!(ctx_line_text(&now, 4).ok().unwrap(), "needle two");
}

#[test]
fn top_zero_searches_nothing() {
    assert!(matches!(search_mode(Some(0)), SearchMode::Nothing));
    assert!(matches!(search_mode(None), SearchMode::Everything));
    assert!(matches!(search_mode(Some(3)), SearchMode::Best(_)));
}

#[test]
fn served_context_renders_rg_shape() {
    // Hits + carried ctx lines regroup into rows with `--` only between
    // disjoint in-file groups, never across files.
    let raw = b"{\"path\":\"b.txt\",\"line\":2,\"text\":\"hit B\",\"score\":1.0}\n\
                {\"path\":\"b.txt\",\"line\":1,\"text\":\"ctx B\",\"score\":1.0,\"ctx\":true}\n\
                {\"path\":\"a.txt\",\"line\":1,\"text\":\"hit A1\",\"score\":0.0}\n\
                {\"path\":\"a.txt\",\"line\":9,\"text\":\"hit A2\",\"score\":0.0}\n";
    let out = render_served_context(raw, 1, 1, "--", None).ok().unwrap();
    assert_eq!(&out, b"b.txt:1-ctx B\nb.txt:2:hit B\na.txt:1:hit A1\n--\na.txt:9:hit A2\n");
    // Empty separator prints no separator lines.
    let out = render_served_context(raw, 1, 1, "", None).ok().unwrap();
    assert_eq!(&out, b"b.txt:1-ctx B\nb.txt:2:hit B\na.txt:1:hit A1\na.txt:9:hit A2\n");
}

#[test]
fn no_hits_bank_nothing() {
    assert!(hits_in(0, "zzz", b"abc\n", false, 9).is_none());
    let fh = hits_in(7, "b", b"abc\nb\n", false, 9).unwrap();
    assert_eq!(fh.pid, 7);
    assert_eq!(fh.arena, b"abc\nb\n");
    assert_eq!((fh.metas[1].start, fh.metas[1].end, fh.metas[1].key), (4, 6, 7));
    assert!(fh.line_starts.is_empty());
}

#[test]
fn hit_faults_are_told() {
    let mut fh = hits_in(0, "b", b"a\nb\n", false, 9).unwrap();
    // The file shrank between the two reads.
    assert!(matches!(attach_context(&mut fh, b"a\n"), Err(HitFault::LinePastEnd { line: 2, lines: 1 })));
    fh.metas[0].line = 0;
    assert!(matches!(attach_context(&mut fh, b"a\n"), Err(HitFault::LineZero)));
    assert!(matches!(
        banked_slice(b"abc", 2, 4),
        Err(HitFault::BadOffsets { start: 2, end: 4, len: 3 })
    ));
    assert!(matches!(banked_slice(b"abc", 2, 1), Err(HitFault::BadOffsets { .. })));
    let fh = attached(0, "b", b"a\nb\n", 9);
    assert!(matches!(ctx_line_text(&fh, 0), Err(HitFault::LineZero)));
    assert!(matches!(ctx_line_text(&fh, 3), Err(HitFault::LinePastEnd { line: 3, lines: 2 })));
}

#[test]
fn line_ends_are_trimmed() {
    assert_eq!(trim_line_end("a\r\n"), "a");
    assert_eq!(trim_line_end("a\n\n\r"), "a");
    assert_eq!(trim_line_end(" a "), " a ");
    assert_eq!(trim_line_end("\n"), "");
    // Faulty bytes are replaced.
    assert_eq!(banked_slice(b"x\xffy\n", 0, 4).ok().unwrap(), "x\u{fffd}y");
}

#[test]
fn line_starts_join_to_buffer() {
    assert_eq!(find_line_starts(b"a\n\nb"), vec![0, 2, 3]);
    assert_eq!(find_line_starts(b"a\n"), vec![0]);
    assert_eq!(find_line_starts(b""), vec![0]);
}

#[test]
fn max_count_caps_each_file() {
    let a = hits_in(0, "a", b"a\na\na\n", false, 9).unwrap();
    let none = apply_max_count(vec![a], Some(0));
    assert_eq!((none.len(), none[0].metas.len()), (1, 0));
    let a = hits_in(0, "a", b"a\na\na\n", false, 9).unwrap();
    let two = apply_max_count(vec![a], Some(2));
    assert_eq!(two[0].metas.iter().map(|m| m.line).collect::<Vec<_>>(), vec![1, 2]);
    let a = hits_in(0, "a", b"a\na\na\n", false, 9).unwrap();
    assert_eq!(apply_max_count(vec![a], None)[0].metas.len(), 3);
}

#[test]
fn rows_show_a_line_once_or_each_hit() {
    assert_eq!(
        ctx_rows(&[2, 2, 9], 9, 1, 1, true),
        vec![
            CtxRow::Context(1),
            CtxRow::Hit(0),
            CtxRow::Hit(1),
            CtxRow::Context(3),
            CtxRow::Separator,
            CtxRow::Context(8),
            CtxRow::Hit(2),
        ]
    );
    assert_eq!(
        ctx_rows(&[2, 2], 2, 1, 1, false),
        vec![CtxRow::Context(1), CtxRow::Hit(0)]
    );
}

#[test]
fn rendering_follows_rank() {
    let files = vec![
        attached(0, "needle", b"x\nneedle a\ny\n", 100),
        attached(1, "needle", b"needle b\n\n\n\nneedle c\n", 200),
    ];
    let shown = vec!["one.txt".to_string(), "two.txt".to_string()];
    let (keys, loc) = flat_scores(&files);
    assert_eq!(keys, vec![98, 199, 195]);
    assert_eq!(loc, vec![(0, 0), (1, 0), (1, 1)]);
    let ord = raw_order(&keys);
    assert_eq!(ord, vec![1, 2, 0]);
    assert_eq!(matched_file_count(&ord, &loc), 2);
    let text = render_text(&files, &shown, &loc, &ord, None).ok().unwrap();
    assert_eq!(text, b"two.txt:1:needle b\ntwo.txt:5:needle c\none.txt:2:needle a\n");
    let scores = vec![vec![b"0.5".to_vec()], vec![b"2.0".to_vec(), b"1.5".to_vec()]];
    let json = render_json(&files, &shown, &loc, &ord, &scores).ok().unwrap();
    assert_eq!(
        json,
        b"{\"path\":\"two.txt\",\"line\":1,\"text\":\"needle b\",\"score\":2.0}\n\
          {\"path\":\"two.txt\",\"line\":5,\"text\":\"needle c\",\"score\":1.5}\n\
          {\"path\":\"one.txt\",\"line\":2,\"text\":\"needle a\",\"score\":0.5}\n"
    );
    // Served hits become the rows that a local search shows.
    assert_eq!(json_hits_to_text(&json), text);
    let local = render_context(&files, &shown, &loc, &ord, 1, 1, "--", None).ok().unwrap();
    assert_eq!(
        local,
        b"two.txt:1:needle b\ntwo.txt:2-\n--\ntwo.txt:4-\ntwo.txt:5:needle c\none.txt:1-x\none.txt:2:needle a\none.txt:3-y\n"
    );
    let file_scores = vec![b"0.6".to_vec(), b"2.1".to_vec()];
    let wire = render_context_wire(&files, &shown, &loc, &ord, 1, 1, &scores, &file_scores).ok().unwrap();
    assert!(wire.ends_with(
        b"{\"path\":\"one.txt\",\"line\":1,\"text\":\"x\",\"score\":0.6,\"ctx\":true}\n\
          {\"path\":\"one.txt\",\"line\":2,\"text\":\"needle a\",\"score\":0.5}\n\
          {\"path\":\"one.txt\",\"line\":3,\"text\":\"y\",\"score\":0.6,\"ctx\":true}\n"
    ));
    assert_eq!(render_served_context(&wire, 1, 1, "--", None).ok().unwrap(), local);
    let groups = ctx_file_groups(&files, &loc, &ord);
    assert_eq!(groups, vec![(1, vec![0, 1]), (0, vec![0])]);
    assert_eq!(ctx_group_lines(&files[1].metas, &[0, 1]), vec![1, 5]);
    let rows = count_files(&files, &shown, &loc, &ord);
    assert_eq!(rows, vec![("one.txt".to_string(), 1), ("two.txt".to_string(), 2)]);
    assert_eq!(served_path_counts(&json), rows);
}

#[test]
fn top_reply_is_a_prefix() {
    let files = vec![
        attached(0, "needle", b"x\nneedle a\ny\n", 100),
        attached(1, "needle", b"needle b\n\n\n\nneedle c\n", 200),
    ];
    let shown = vec!["one.txt".to_string(), "two.txt".to_string()];
    let (keys, loc) = flat_scores(&files);
    let scores = vec![vec![b"0.5".to_vec()], vec![b"2.0".to_vec(), b"1.5".to_vec()]];
    let all = render_json(&files, &shown, &loc, &top_order(&keys, None), &scores).ok().unwrap();
    for n in 0..5 {
        let some = render_json(&files, &shown, &loc, &top_order(&keys, Some(n)), &scores).ok().unwrap();
        assert!(all.starts_with(&some));
        assert_eq!(some.iter().filter(|b| **b == b'\n').count(), n.min(3));
    }
}

#[test]
fn plain_and_inverted_searches_share_the_lines_out() {
    let buf = b"one\n\ntwo needle\nneedle\n\nlast";
    for pattern in ["needle", "^$", "e", "o\\b", "\u{e9}|t"] {
        let m = build_matcher(pattern, false).ok().unwrap();
        let mut lines: Vec<u64> = search_bytes(&m, buf, false).iter().map(|l| l.0).collect();
        lines.extend(search_bytes(&m, buf, true).iter().map(|l| l.0));
        lines.sort();
        assert_eq!(lines, vec![1, 2, 3, 4, 5, 6], "{pattern}");
    }
}

#[test]
fn an_empty_buffer_has_no_lines() {
    for pattern in ["needle", "^$", "x*"] {
        let m = build_matcher(pattern, false).ok().unwrap();
        assert!(search_bytes(&m, b"", false).is_empty());
        assert!(search_bytes(&m, b"", true).is_empty());
    }
    assert!(hits_in(0, "needle", b"", true, 9).is_none());
}

#[test]
fn plain_and_inverted_hits_share_the_lines_out() {
    let buf = b"one\n\ntwo needle\nneedle\n\nlast";
    let plain = hits_in(0, "needle", buf, false, 90).unwrap();
    let rest = hits_in(0, "needle", buf, true, 90).unwrap();
    assert_eq!(plain.metas.iter().map(|m| m.line).collect::<Vec<u64>>(), vec![3, 4]);
    assert_eq!(rest.metas.iter().map(|m| m.line).collect::<Vec<u64>>(), vec![1, 2, 5, 6]);
}

#[test]
fn rendering_highlights() {
    let m = build_matcher("needle", false).ok().unwrap();
    let files = vec![attached(0, "needle", b"a needle\n", 9)];
    let shown = vec!["p".to_string()];
    let out = render_text(&files, &shown, &[(0, 0)], &[0], Some(&m)).ok().unwrap();
    assert_eq!(out, b"p:1:a \x1b[0m\x1b[1m\x1b[31mneedle\x1b[0m\n");
    let split = build_matcher("a.", false).ok().unwrap();
    let mut buf = Vec::new();
    assert!(matches!(
        push_hit_row(&mut buf, "p", 1, "a\u{e9}", Some(&split)),
        Err(RenderFault::BrokenColor)
    ));
}

#[test]
fn rendering_reports_bad_offsets() {
    let mut fh = attached(0, "a", b"a\n", 9);
    fh.metas[0].end = 99;
    let files = vec![fh];
    let res = render_text(&files, &["p".to_string()], &[(0, 0)], &[0], None);
    assert!(matches!(res, Err(RenderFault::Hit(HitFault::BadOffsets { start: 0, end: 99, len: 2 }))));
}

#[test]
fn counts_come_in_byte_order() {
    let paths: Vec<String> = ["b", "a", "b", "B", "b"].iter().map(|s| s.to_string()).collect();
    assert_eq!(
        count_paths(&paths),
        vec![("B".to_string(), 1), ("a".to_string(), 1), ("b".to_string(), 3)]
    );
}

#[test]
fn wire_lines_read_back() {
    let mut buf = Vec::new();
    let mut esc = Vec::new();
    nkgrep::emit::push_escaped_json(&mut esc, "we\"ird\\p\u{e9}");
    nkgrep::emit::emit_raw_with_path(&mut buf, &esc, 42, "a\tb\u{1f600}", b"-1.25");
    let hit = read_wire_line(&buf).unwrap();
    assert_eq!((hit.path.as_str(), hit.line, hit.text.as_str(), hit.ctx), ("we\"ird\\p\u{e9}", 42, "a\tb\u{1f600}", false));
    let mut ctx = Vec::new();
    nkgrep::emit::emit_ctx_json(&mut ctx, b"p", 1, "t", b"0.0");
    assert!(read_wire_line(&ctx).unwrap().ctx);
    // No object, or members missing or of another type.
    assert!(read_wire_line(b"nonsense").is_none());
    assert!(read_wire_line(b"{\"path\":1,\"line\":2,\"text\":\"x\"}").is_none());
    assert!(read_wire_line(b"{\"path\":\"p\",\"line\":-2,\"text\":\"x\"}").is_none());
    assert!(read_wire_line(b"{\"path\":\"p\",\"line\":2}").is_none());
}
