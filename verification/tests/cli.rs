use nkgrep::cli::{parse_args, read_port, CliFault, ColorWhen, Options, Want};
use nkgrep::invoke::{
    check_operands, color_on, exit_status, find_notice, forces_scan, output_form, parse_index_args, parse_serve_args,
    plan_route, quiet_finds, resolve_search, stdin_label, walk_options, Form, Notice, Route,
};
use nkgrep::text::same_text;
use nkgrep::walk::{compile_globs, keep_entry, parse_filesize, WalkOptions};

fn args(v: &[&str]) -> Vec<String> {
    v.iter().map(|s| s.to_string()).collect()
}

fn parsed(v: &[&str]) -> Options {
    match parse_args(&args(v)) {
        Ok(o) => o,
        Err(_) => panic!("refused: {v:?}"),
    }
}

fn usage(v: &[&str]) -> bool {
    matches!(parse_args(&args(v)), Err(CliFault::Usage))
}

#[test]
fn defaults_ask_for_nothing() {
    let o = parsed(&[]);
    assert_eq!(o.flags, Options::new().flags);
    assert_eq!(o.limits, Options::new().limits);
    assert!(!o.flags.text_format);
    assert_eq!(o.flags.color, ColorWhen::Auto);
    assert_eq!(o.group_separator, "--");
    assert!(o.operands.is_empty() && o.patterns.is_empty() && o.globs.is_empty() && o.use_index.is_none());
}

#[test]
fn options_take_values_in_each_form() {
    let o = parsed(&["--top", "5", "--use-index", "i.idx", "-m3", "-A", "2", "-B1", "--context=4", "pat", "dir"]);
    assert_eq!(o.limits.top, Some(5));
    assert_eq!(o.use_index.as_deref(), Some("i.idx"));
    assert_eq!(o.limits.max_count, Some(3));
    assert_eq!((o.limits.after, o.limits.before, o.limits.around), (Some(2), Some(1), Some(4)));
    assert_eq!(o.operands, vec!["pat", "dir"]);
    let o = parsed(&["-e", "x", "--regexp=y", "-f", "file", "-g*.rs", "--glob", "!z"]);
    assert!(o.flags.explicit_patterns);
    assert_eq!(o.patterns, vec!["x", "y"]);
    assert_eq!(o.pattern_files, vec!["file"]);
    assert_eq!(o.globs, vec!["*.rs", "!z"]);
}

#[test]
fn switches_are_set() {
    let o = parsed(&["-i", "-q", "-c", "-l", "--hidden", "--no-ignore", "-F", "-v", "-w", "--follow"]);
    let f = o.flags;
    assert!(f.ignore_case && f.quiet && f.count && f.files_only && f.hidden && f.no_ignore);
    assert!(f.fixed && f.invert && f.word && f.follow);
    let f = parsed(&["--hidden", "--no-hidden", "-L", "--no-follow"]).flags;
    assert!(!f.hidden && !f.follow);
}

#[test]
fn double_dash_ends_options() {
    let o = parsed(&["--", "-i", "--top"]);
    assert_eq!(o.operands, vec!["-i", "--top"]);
    assert!(!o.flags.ignore_case);
}

#[test]
fn faulty_values_are_refused() {
    assert!(matches!(
        parse_args(&args(&["--top", "x"])),
        Err(CliFault::BadValue { want: Want::Number, .. })
    ));
    assert!(matches!(
        parse_args(&args(&["--color=sometimes"])),
        Err(CliFault::BadValue { want: Want::Color, .. })
    ));
    assert!(matches!(
        parse_args(&args(&["--format", "xml"])),
        Err(CliFault::BadValue { want: Want::Format, .. })
    ));
    assert!(matches!(
        parse_args(&args(&["--max-filesize", "12Q"])),
        Err(CliFault::BadValue { want: Want::Size, .. })
    ));
    assert!(matches!(
        parse_args(&args(&["--port", "70000"])),
        Err(CliFault::BadValue { want: Want::PortNumber, .. })
    ));
    assert!(usage(&["--top"]));
    for a in ["-x", "--pcre2", "-E", "-G"] {
        assert!(matches!(parse_args(&args(&[a])), Err(CliFault::Unsupported(u)) if u == a), "{a}");
    }
    // What is no option is an operand.
    assert_eq!(parsed(&["-Z", "--use-index=x", "-"]).operands, vec!["-Z", "--use-index=x", "-"]);
}

#[test]
fn operands_are_counted() {
    assert!(!check_operands(&parsed(&[])));
    assert!(check_operands(&parsed(&["p"])));
    assert!(check_operands(&parsed(&["p", "d"])));
    assert!(!check_operands(&parsed(&["p", "d", "x"])));
    assert!(check_operands(&parsed(&["-e", "p"])));
    assert!(!check_operands(&parsed(&["-e", "p", "d", "x"])));
}

#[test]
fn searches_are_resolved() {
    let s = resolve_search(&parsed(&["-F", "a.c", "dir", "-C2", "-A1"]), &[], true).ok().unwrap();
    assert_eq!((s.pattern.as_str(), s.root.as_str()), ("a.c", "dir"));
    assert!(s.fixed && s.fixed_single && !s.stdin);
    assert_eq!((s.before, s.after), (2, 1));
    let s = resolve_search(&parsed(&["-e", "a", "-F"]), &args(&["b|c"]), true).ok().unwrap();
    assert_eq!(s.patterns, vec!["a", "b|c"]);
    assert_eq!(s.pattern, "(?:a)|(?:b\\|c)");
    assert!(s.fixed && !s.fixed_single);
    assert_eq!(s.root, ".");
    // Nothing to look for is found nowhere.
    let s = resolve_search(&parsed(&["-f", "empty", "-F"]), &[], true).ok().unwrap();
    assert_eq!(s.patterns, vec!["\\b\\B"]);
    assert!(!s.fixed);
    // Standard input: named, or piped without a path.
    assert!(resolve_search(&parsed(&["p", "-"]), &[], true).ok().unwrap().stdin);
    assert!(resolve_search(&parsed(&["p"]), &[], false).ok().unwrap().stdin);
    assert!(!resolve_search(&parsed(&["p", "d"]), &[], false).ok().unwrap().stdin);
    assert!(matches!(
        resolve_search(&parsed(&["--port", "9", "p", "-"]), &[], true),
        Err(CliFault::StdinOverPort)
    ));
    assert_eq!(stdin_label(), "(standard input)");
}

#[test]
fn walks_follow_the_options() {
    let w = walk_options(&parsed(&["--hidden", "--max-depth", "3", "-g", "*.rs", "p"]));
    assert!(w.hidden && !w.no_ignore && !w.follow);
    assert_eq!((w.max_depth, w.max_filesize), (Some(3), None));
    assert_eq!(w.globs, vec!["*.rs"]);
    assert!(!w.is_default() && w.beyond_index() && w.within_index());
    let d = WalkOptions::new();
    assert!(d.is_default() && !d.beyond_index() && !d.within_index());
}

#[test]
fn color_needs_text() {
    assert!(color_on(&parsed(&["--color=always", "--format", "text", "p"]), false));
    assert!(!color_on(&parsed(&["--color=always", "--format=json", "p"]), true));
    assert!(!color_on(&parsed(&["--color", "always", "p"]), true));
    assert!(color_on(&parsed(&["--format=text", "p"]), true));
    assert!(!color_on(&parsed(&["--format=text", "p"]), false));
}

#[test]
fn exit_status_tells_faults_first() {
    assert_eq!((exit_status(true, true), exit_status(false, true), exit_status(false, false)), (2, 0, 1));
}

#[test]
fn a_cap_of_zero_matches_nothing() {
    assert!(quiet_finds(true, None) && quiet_finds(true, Some(1)));
    assert!(!quiet_finds(true, Some(0)) && !quiet_finds(false, None) && !quiet_finds(false, Some(3)));
}

#[test]
fn notices_come_before_the_double_dash() {
    assert!(matches!(find_notice(&args(&["p", "--help"])), Some(Notice::Help)));
    assert!(matches!(find_notice(&args(&["-V"])), Some(Notice::Version)));
    assert!(find_notice(&args(&["p", "--", "--help"])).is_none());
    assert!(find_notice(&args(&["p"])).is_none());
}

#[test]
fn subcommands_take_their_arguments() {
    let (root, out) = parse_index_args(&args(&["index", "dir", "--index", "o.idx"])).ok().unwrap();
    assert_eq!((root.as_str(), out.as_str()), ("dir", "o.idx"));
    assert_eq!(parse_index_args(&args(&["index", "dir"])).ok().unwrap().1, ".nkg.json");
    assert!(matches!(parse_index_args(&args(&["index"])), Err(CliFault::Usage)));
    assert!(matches!(parse_index_args(&args(&["index", "dir", "--index"])), Err(CliFault::Usage)));
    let (idx, port) = parse_serve_args(&args(&["serve", "--index", "i.idx", "--port", "81"])).ok().unwrap();
    assert_eq!((idx.as_str(), port), ("i.idx", 81));
    assert!(parse_serve_args(&args(&["serve", "--index", "i.idx"])).is_err());
    assert_eq!(read_port("65535"), Some(65535));
    assert_eq!(read_port("65536"), None);
    assert_eq!(read_port(""), None);
    assert!(same_text("ab", "ab") && !same_text("ab", "abc"));
}

#[test]
fn sizes_have_units() {
    assert_eq!(parse_filesize("10"), Some(10));
    assert_eq!(parse_filesize("10K"), Some(10240));
    assert_eq!(parse_filesize("2M"), Some(2097152));
    assert_eq!(parse_filesize("1G"), Some(1073741824));
    assert_eq!(parse_filesize("18446744073709551615K"), None);
    assert_eq!(parse_filesize("K"), None);
    assert_eq!(parse_filesize(""), None);
    assert_eq!(parse_filesize("1T"), None);
}

#[test]
fn globs_keep_and_leave_out() {
    let g = compile_globs(".", &args(&["*.rs", "!skip.rs"])).ok().unwrap();
    let keep = |p: &str, dir: bool| keep_entry(".", p, dir, None, false, None, Some(&g));
    assert!(keep("./a.rs", false));
    assert!(!keep("./a.txt", false));
    assert!(!keep("./x/skip.rs", false));
    assert!(keep("./x", true));
    let e = compile_globs(".", &args(&["ok", "[z-"])).err().unwrap();
    assert_eq!(e.glob.as_deref(), Some("[z-"));
    assert!(e.text.contains("[z-"), "{}", e.text);
}

#[test]
fn git_is_left_out_below_the_root_only() {
    let keep = |root: &str, p: &str, dir: bool| keep_entry(root, p, dir, None, true, None, None);
    assert!(!keep("/r", "/r/.git", true));
    assert!(!keep("/r", "/r/.git/HEAD", false));
    assert!(!keep("/r", "/r/x/.git/objects/pack/t.pack", false));
    assert!(keep("/r", "/r/.hidden.txt", false));
    assert!(keep("/r", "/r/.gitignore", false));
    // The named directory itself is searched.
    assert!(keep("/r/.git", "/r/.git", true));
    assert!(keep("/r/.git", "/r/.git/HEAD", false));
    assert!(keep_entry("/r", "/r/.git/HEAD", false, None, false, None, None));
}

#[test]
fn large_files_are_left_out() {
    let keep = |n: Option<u64>, dir: bool| keep_entry("/r", "/r/f", dir, n, false, Some(10), None);
    assert!(keep(Some(10), false));
    assert!(!keep(Some(11), false));
    assert!(keep(Some(11), true));
    assert!(keep(None, false));
}

#[test]
fn routes_follow_port_index_and_filters() {
    let route = |v: &[&str], stdin: bool| {
        let o = parsed(v);
        plan_route(&o, stdin, &walk_options(&o))
    };
    assert_eq!(route(&["--port", "9", "p"], false), Route::Port(9));
    assert_eq!(route(&["--port", "9", "--hidden", "p"], false), Route::Scan);
    assert_eq!(route(&["--port", "9", "--hidden", "--use-index", "i", "p"], false), Route::Index);
    assert_eq!(route(&["--use-index", "i", "p"], false), Route::Probe);
    assert_eq!(route(&["--use-index", "i", "-d1", "p"], false), Route::Index);
    assert_eq!(route(&["--use-index", "i", "p"], true), Route::Stdin);
    assert_eq!(route(&["p"], false), Route::Scan);
}

#[test]
fn some_queries_force_a_scan() {
    let forced = |v: &[&str]| {
        let o = parsed(v);
        forces_scan(&o, &walk_options(&o))
    };
    for v in [["-i", "p"], ["-v", "p"], ["--hidden", "p"], ["--no-ignore", "p"], ["-L", "p"]] {
        assert!(forced(&v), "{v:?}");
    }
    assert!(!forced(&["-g", "*.rs", "-d2", "p"]));
}

#[test]
fn counts_win_over_context_and_text() {
    assert_eq!(output_form(&parsed(&["-c", "--format=text", "p"]), true), Form::Counts);
    assert_eq!(output_form(&parsed(&["-l", "p"]), false), Form::Counts);
    assert_eq!(output_form(&parsed(&["--format=text", "p"]), true), Form::Context);
    assert_eq!(output_form(&parsed(&["--format=text", "p"]), false), Form::Text);
    assert_eq!(output_form(&parsed(&["p"]), false), Form::Json);
}
