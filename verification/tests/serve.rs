use nkgrep::client::{classify_line, probe_step, ProbeStep, Reply, ReplyLine};
use nkgrep::emit::{emit_raw_with_path, push_escaped_json, unescape_json};
use nkgrep::fdcache::{needs_live, plan_limit, plan_read, replaces_held, retries_read, stamp_of, FileStat, Mtime, ReadPlan, Stamp};
use nkgrep::grams::trigrams_of;
use nkgrep::index::{build_index, Index};
use nkgrep::load::{load_index_for_query, load_index_for_serve};
use nkgrep::matcher::search_bytes;
use nkgrep::serve::{
    done_line, narrow_order, plan_query, query_matcher, query_patterns, query_subtree, refusal_line, request_verdict,
    shown_path, Query, RequestVerdict, Subtree, MAX_SERVE_LINE_BYTES,
};
use nkgrep::served::{line_is_context, served_file_count, served_matcher, served_path_counts};
use nkgrep::sidecar::{
    judge_sidecar, parse_starttime, plan_probe, process_runs, serve_info_path, stale_message, ProbePlan, ServerInfo,
    SidecarVerdict,
};
use std::collections::HashSet;

fn query(pattern: &str) -> Query {
    Query {
        pattern: pattern.to_string(),
        top: None,
        ignore_case: false,
        before: 0,
        after: 0,
        word: false,
        invert: false,
        max_count: None,
        patterns: vec![],
        fixed: false,
        qroot: String::new(),
        display_root: String::new(),
    }
}

fn stored() -> Index {
    let entries: Vec<(String, HashSet<u32>)> = [("a.txt", "needle"), ("sub/b.txt", "needle"), ("subway/c.txt", "hay")]
        .iter()
        .map(|(p, t)| (p.to_string(), trigrams_of(t.as_bytes())))
        .collect();
    build_index("/r", 1, 2, &entries)
}

#[test]
fn requests_are_judged_by_length_and_end() {
    assert_eq!(request_verdict(""), RequestVerdict::Closed);
    assert_eq!(request_verdict("{}\n"), RequestVerdict::Take);
    assert_eq!(request_verdict("{}"), RequestVerdict::Drop);
    let fits = "x".repeat(MAX_SERVE_LINE_BYTES as usize - 1) + "\n";
    assert_eq!(request_verdict(&fits), RequestVerdict::Take);
    assert_eq!(request_verdict(&format!("x{fits}")), RequestVerdict::Drop);
}

#[test]
fn query_patterns_fall_back_to_the_pattern() {
    let mut q = query("solo");
    assert_eq!(query_patterns(&q), vec!["solo"]);
    q.patterns = vec!["a".to_string(), "b".to_string()];
    assert_eq!(query_patterns(&q), vec!["a", "b"]);
}

#[test]
fn query_matcher_honours_flags() {
    let mut q = query("a.c");
    q.fixed = true;
    let m = query_matcher(&q).ok().unwrap();
    assert!(search_bytes(&m, b"abc\n", false).is_empty());
    assert_eq!(search_bytes(&m, b"a.c\n", false).len(), 1);
    let mut q = query("FOO");
    q.ignore_case = true;
    q.word = true;
    let m = query_matcher(&q).ok().unwrap();
    assert_eq!(search_bytes(&m, b"a foo b\nfoobar\n", false).len(), 1);
    assert!(query_matcher(&query("(")).err().unwrap().text.contains("unclosed group"));
}

#[test]
fn subtrees_are_told_by_components() {
    let mut q = query("needle");
    assert!(matches!(query_subtree(&q, "/r"), Subtree::Whole));
    q.qroot = "/r/sub".to_string();
    assert!(matches!(query_subtree(&q, "/r"), Subtree::Below(s) if s == "sub"));
    q.qroot = "/other".to_string();
    assert!(matches!(query_subtree(&q, "/r"), Subtree::Outside));
    let idx = load_index_for_serve(stored(), "/r", 1, 2).ok().unwrap();
    assert_eq!(narrow_order(&idx, &[2, 1, 0], &Subtree::Below("sub".to_string())), vec![1]);
    assert_eq!(narrow_order(&idx, &[2, 1, 0], &Subtree::Whole), vec![2, 1, 0]);
    assert!(narrow_order(&idx, &[0], &Subtree::Outside).is_empty());
}

#[test]
fn served_paths_are_local_paths() {
    let idx = load_index_for_serve(stored(), "/r", 1, 2).ok().unwrap();
    assert_eq!(shown_path(&idx.files[1], "/r", &Subtree::Whole, ""), "sub/b.txt");
    let local = load_index_for_query(&stored(), "/r", "/r/sub", 1, 2, "./sub").ok().unwrap();
    let served = shown_path(&idx.files[1], "/r", &Subtree::Below("sub".to_string()), "./sub");
    assert_eq!(served, local.files[0]);
    assert_eq!(served, "sub/b.txt");
}

#[test]
fn folded_and_inverted_queries_scan() {
    let idx = stored();
    assert_eq!(plan_query(&idx, &query("needle"), &Subtree::Whole).unwrap().candidates, vec![0, 1]);
    let mut q = query("needle");
    q.ignore_case = true;
    assert!(plan_query(&idx, &q, &Subtree::Whole).is_none());
    let mut q = query("needle");
    q.invert = true;
    assert!(plan_query(&idx, &q, &Subtree::Whole).is_none());
    assert!(plan_query(&idx, &query("n.*"), &Subtree::Whole).is_none());
}

#[test]
fn replies_end_as_written() {
    assert_eq!(done_line(12, false, false), b"{\"done\":true,\"ms\":12}\n");
    assert_eq!(done_line(0, true, true), b"{\"done\":true,\"ms\":0,\"ctx\":true,\"verify_error\":true}\n");
    for (ctx, bad) in [(false, false), (true, false), (false, true), (true, true)] {
        let line = String::from_utf8(done_line(5, ctx, bad)).unwrap();
        assert!(matches!(
            classify_line(&line, true),
            ReplyLine::Done { ctx: c, verify_error: v } if c == ctx && v == bad
        ));
    }
}

#[test]
fn refusals_are_read_with_their_reason() {
    assert_eq!(refusal_line("bad query"), b"{\"error\":\"bad query\"}\n");
    let line = String::from_utf8(refusal_line("no such \u{e9}")).unwrap();
    assert!(matches!(classify_line(&line, false), ReplyLine::Refused(s) if s == "no such \u{e9}"));
}

#[test]
fn refusals_take_one_line() {
    for why in ["regex parse error:\n    (\n    ^\nerror: unclosed group", "\"done\" and \"error\"", "a\\b\u{1}\t\"}", ""] {
        let bytes = refusal_line(why);
        assert_eq!(bytes.iter().filter(|b| **b == b'\n').count(), 1);
        let line = String::from_utf8(bytes).unwrap();
        assert!(matches!(classify_line(&line, false), ReplyLine::Refused(s) if s == why), "{why:?}");
        let value: serde_json::Value = serde_json::from_str(&line).unwrap();
        assert_eq!(value["error"], why);
    }
    let e = query_matcher(&query("(")).err().unwrap();
    assert!(e.text.contains('\n'));
    assert_eq!(refusal_line(&e.text).iter().filter(|b| **b == b'\n').count(), 1);
}

#[test]
fn escaped_texts_read_back() {
    assert_eq!(unescape_json(b"a\\\"b\\\\c\\n\\r\\t\\b\\f\\u001fz"), b"a\"b\\c\n\r\t\x08\x0c\x1fz");
    // What starts no escape stands for itself.
    assert_eq!(unescape_json(b"\\q\\u0041\\"), b"\\q\\u0041\\");
}

#[test]
fn hits_may_say_anything() {
    let mut raw = Vec::new();
    let hits = [("a", "done"), ("done", "x"), ("error", "\"done\""), ("p", "error"), ("p", "{\"done\":true}"), ("p", "")];
    for (path, text) in hits {
        let mut esc = Vec::new();
        push_escaped_json(&mut esc, path);
        emit_raw_with_path(&mut raw, &esc, 1, text, b"1.0");
    }
    for ctx_on in [false, true] {
        let mut r = Reply::new();
        for line in String::from_utf8(raw.clone()).unwrap().split_inclusive('\n') {
            assert_eq!(probe_step(&mut r, line, ctx_on), ProbeStep::More, "{line}");
        }
        let done = String::from_utf8(done_line(0, ctx_on, false)).unwrap();
        assert_eq!(probe_step(&mut r, &done, ctx_on), ProbeStep::Done);
        assert_eq!((r.raw.clone(), r.matches, r.refused), (raw.clone(), hits.len(), None));
    }
}

#[test]
fn subtree_reply_is_part_of_the_whole() {
    let idx = load_index_for_serve(stored(), "/r", 1, 2).ok().unwrap();
    let mut q = query("needle");
    let whole = plan_query(&idx, &q, &Subtree::Whole).unwrap().candidates;
    q.qroot = "/r/sub".to_string();
    let below = query_subtree(&q, "/r");
    let part = plan_query(&idx, &q, &below).unwrap().candidates;
    assert_eq!(narrow_order(&idx, &part, &below), narrow_order(&idx, &whole, &below));
    assert_eq!(narrow_order(&idx, &part, &below), vec![1]);
}

#[test]
fn reply_lines_are_told_apart() {
    assert!(matches!(classify_line("  \n", true), ReplyLine::Blank));
    let ctx = "{\"path\":\"p\",\"line\":1,\"text\":\"t\",\"score\":0.0,\"ctx\":true}\n";
    assert!(matches!(classify_line(ctx, true), ReplyLine::Context));
    assert!(matches!(classify_line(ctx, false), ReplyLine::Hit));
    // The mark inside the text of a hit makes no context line.
    let hit = "{\"path\":\"p\",\"line\":1,\"text\":\"\\\"ctx\\\":true\",\"score\":0.0}\n";
    assert!(matches!(classify_line(hit, true), ReplyLine::Hit));
    assert!(line_is_context(ctx.as_bytes()) && !line_is_context(hit.as_bytes()));
}

#[test]
fn members_may_come_in_any_order_and_spacing() {
    let is_done = |l: &str, c: bool, v: bool| {
        matches!(classify_line(l, false), ReplyLine::Done { ctx, verify_error } if ctx == c && verify_error == v)
    };
    assert!(is_done("{\"ms\":0,\"done\":true}\n", false, false));
    assert!(is_done("{ \"ctx\":true, \"done\": true, \"verify_error\": true }\n", true, true));
    assert!(is_done("{\"done\": true}", false, false));
    assert!(matches!(classify_line("{\"error\": \"x\"}\n", false), ReplyLine::Refused(s) if s == "x"));
    assert!(matches!(classify_line("{\"code\":3,\"error\":\"a\\\"b\"}\n", false), ReplyLine::Refused(s) if s == "a\"b"));
    // A hit is a hit whatever else it holds.
    let hit = "{\"path\":\"p\",\"line\":1,\"text\":\"t\",\"score\":0.0,\"done\":true,\"error\":\"x\"}\n";
    assert!(matches!(classify_line(hit, false), ReplyLine::Hit));
    // A reply that such a line ends is complete.
    let mut r = Reply::new();
    assert!(r.step("{\"path\":\"p\",\"line\":1,\"text\":\"t\",\"score\":0.0}\n", false));
    assert!(!r.step("{\"ms\":0,\"done\":true}\n", false));
    assert_eq!((r.matches, r.refused.is_none()), (1, true));
}

#[test]
fn replies_collect_hits() {
    let mut r = Reply::new();
    assert!(r.step("{\"path\":\"p\",\"line\":1,\"text\":\"t\",\"score\":0.0}\n", false));
    assert!(r.step("\n", false));
    assert!(r.step("{\"error\":\"why\"}\n", false));
    assert!(!r.step("{\"done\":true,\"ms\":1,\"verify_error\":true}\n", false));
    assert_eq!(r.raw, b"{\"path\":\"p\",\"line\":1,\"text\":\"t\",\"score\":0.0}\n");
    assert_eq!((r.matches, r.refused.as_deref(), r.ctx_echo, r.verify_error), (1, Some("why"), false, true));
}

#[test]
fn probes_give_up_on_old_daemons() {
    let mut r = Reply::new();
    assert_eq!(probe_step(&mut r, "{\"path\":\"p\",\"line\":1,\"text\":\"t\"}\n", true), ProbeStep::More);
    assert_eq!(probe_step(&mut r, "{\"done\":true,\"ms\":1}\n", true), ProbeStep::Miss);
    let mut r = Reply::new();
    assert_eq!(probe_step(&mut r, "{\"done\":true,\"ms\":1,\"ctx\":true}\n", true), ProbeStep::Done);
    let mut r = Reply::new();
    assert_eq!(probe_step(&mut r, "{\"done\":true,\"ms\":1}\n", false), ProbeStep::Done);
    let mut r = Reply::new();
    assert_eq!(probe_step(&mut r, "{\"error\":\"x\"}\n", false), ProbeStep::Miss);
}

#[test]
fn served_counts_leave_out_context() {
    let raw = b"{\"path\":\"b\",\"line\":2,\"text\":\"x\",\"score\":0.0}\n\
                {\"path\":\"b\",\"line\":3,\"text\":\"y\",\"score\":0.0}\n\
                {\"path\":\"a\",\"line\":1,\"text\":\"z\",\"score\":0.0}\n";
    assert_eq!(served_path_counts(raw), vec![("a".to_string(), 1), ("b".to_string(), 2)]);
    assert_eq!(served_file_count(raw), 2);
    assert_eq!(served_file_count(b""), 0);
}

#[test]
fn served_matcher_needs_color_and_a_pattern() {
    assert!(served_matcher("x", false, false, false, false).is_none());
    assert!(served_matcher("(", false, false, false, true).is_none());
    assert!(served_matcher("(", false, false, true, true).is_some());
}

#[test]
fn notes_are_followed_only_for_the_same_process() {
    let info = |starttime| ServerInfo { pid: 42, port: 7878, starttime };
    assert!(matches!(judge_sidecar(info(5), true, Some(5)), SidecarVerdict::Live(7878)));
    assert!(matches!(judge_sidecar(info(5), true, Some(6)), SidecarVerdict::Reused));
    assert!(matches!(judge_sidecar(info(5), false, None), SidecarVerdict::NotRunning));
    assert!(matches!(judge_sidecar(info(5), true, None), SidecarVerdict::Reused));
    assert!(matches!(judge_sidecar(info(0), true, Some(6)), SidecarVerdict::Live(_)));
    let unbound = ServerInfo { pid: 42, port: 0, starttime: 5 };
    assert!(matches!(judge_sidecar(unbound, true, Some(5)), SidecarVerdict::NotRunning));
}

#[test]
fn stale_notes_are_reported() {
    assert_eq!(serve_info_path("x.idx"), "x.idx.serve.json");
    assert_eq!(
        stale_message("x.idx.serve.json", 42, SidecarVerdict::NotRunning).unwrap(),
        "nkg: stale serve file x.idx.serve.json (pid 42 not running); falling back to cold index load"
    );
    assert_eq!(
        stale_message("n", 1, SidecarVerdict::Reused).unwrap(),
        "nkg: stale serve file n (pid 1 reused); falling back to cold index load"
    );
    assert!(stale_message("n", 1, SidecarVerdict::Live(1)).is_none());
}

#[test]
fn start_time_is_the_twentieth_word_after_the_name() {
    let stat = "12 (a) b) c) S 1 2 3 4 5 6 7 8 9 10 11 12 13 14 15 16 17 18 987654 20 21";
    assert_eq!(parse_starttime(stat), Some(987654));
    assert_eq!(parse_starttime("12 (x) S 1 2"), None);
    assert_eq!(parse_starttime("no name"), None);
}

fn stat(len: u64, secs: i64, ino: u64) -> FileStat {
    FileStat { len, modified: Some(Mtime { secs, nanos: 0 }), dev: 1, ino }
}

#[test]
fn held_files_are_read_only_when_unchanged() {
    let held = stamp_of(stat(10, 5, 3));
    let fd = Some(stat(10, 5, 3));
    assert_eq!(plan_read(held, fd, Some(stat(10, 5, 3))), ReadPlan::Held);
    // Replaced, rewritten or grown since.
    assert_eq!(plan_read(held, fd, Some(stat(10, 5, 4))), ReadPlan::Reopen);
    assert_eq!(plan_read(held, fd, Some(stat(10, 6, 3))), ReadPlan::Reopen);
    assert_eq!(plan_read(held, Some(stat(11, 5, 3)), Some(stat(11, 5, 3))), ReadPlan::Reopen);
    assert_eq!(plan_read(held, fd, None), ReadPlan::Plain);
    assert_eq!(plan_read(None, None, None), ReadPlan::Reopen);
    let untimed = FileStat { modified: None, ..stat(10, 5, 3) };
    assert_eq!(plan_read(held, fd, Some(untimed)), ReadPlan::Plain);
    assert!(needs_live(held, fd) && !needs_live(None, fd) && !needs_live(held, None));
}

#[test]
fn fresh_files_replace_other_ones() {
    let stamp = |secs, ino| stamp_of(stat(1, secs, ino)).unwrap();
    assert_eq!(stamp(4, 7), Stamp { len: 1, modified: Mtime { secs: 4, nanos: 0 }, dev: 1, ino: 7 });
    assert!(stamp_of(FileStat { modified: None, ..stat(1, 1, 1) }).is_none());
    assert!(replaces_held(None, stamp(1, 3)));
    assert!(replaces_held(Some(stamp(1, 3)), stamp(2, 3)));
    assert!(!replaces_held(Some(stamp(1, 3)), stamp(1, 3)));
    // Another file of the same length and time that was renamed into place.
    assert!(replaces_held(Some(stamp(1, 3)), stamp(1, 4)));
    assert!(retries_read(true, false));
    assert!(!retries_read(true, true) && !retries_read(false, false));
}

#[test]
fn limits_are_raised_when_they_fall_short() {
    assert_eq!(plan_limit(100, 228, 4096), None);
    assert_eq!(plan_limit(100, 227, 4096), Some((228, 4096)));
    assert_eq!(plan_limit(5000, 1024, 4096), Some((5128, 5128)));
    assert_eq!(plan_limit(usize::MAX, 0, 0), Some((u64::MAX, u64::MAX)));
}

#[test]
fn processes_run_unless_the_signal_finds_none() {
    assert!(process_runs(7, true, false) && process_runs(7, false, true));
    assert!(!process_runs(7, false, false) && !process_runs(0, true, true));
}

#[test]
fn probes_are_planned_by_the_note() {
    let info = ServerInfo { pid: 42, port: 7878, starttime: 5 };
    assert!(matches!(plan_probe("n", None, false, None), ProbePlan::Absent));
    assert!(matches!(plan_probe("n", Some(info), true, Some(5)), ProbePlan::Ask(7878)));
    let gone = "nkg: stale serve file n (pid 42 not running); falling back to cold index load";
    assert!(matches!(plan_probe("n", Some(info), false, None), ProbePlan::Stale(s) if s == gone));
    let reused = "nkg: stale serve file n (pid 42 reused); falling back to cold index load";
    assert!(matches!(plan_probe("n", Some(info), true, Some(6)), ProbePlan::Stale(s) if s == reused));
}
