use nkgrep::codec::{encode_index_bin, parse_index_auto, parse_index_bin, put_u32, put_u64, IndexData};
use nkgrep::grams::{gram_pack, query_grams_multi, trigrams_of};
use nkgrep::index::{
    accept_index, build_index, entry_grams, entry_path, posting_ids_in_range, posting_lists_sorted, sorted_keys, validate_stored_files,
    wants_binary, Index, IndexFault, UNREAD_GRAM,
};
use nkgrep::load::{index_fits, keep_walked, load_index_for_query, load_index_for_serve, narrow_index, serve_eligible_root, LoadFault};
use nkgrep::matcher::{build_matcher_opts, search_bytes};
use nkgrep::patterns::combine_patterns;
use nkgrep::rank::{order_candidates, path_bonus, rank_ors, rank_ors_rooted, scan_parts, top_order};
use nkgrep::serve::plan_local;
use std::collections::{HashMap, HashSet};

const FILES: [(&str, &str); 4] = [
    ("a.txt", "needle_alpha here\nnothing\n"),
    ("sub/b.txt", "plain\nNEEDLE_ALPHA\nneedle_beta\n"),
    ("sub/deep/needle.txt", "foo*bar\nneedle_alpha needle_beta\n"),
    ("z.txt", "\n"),
];

fn strings(v: &[&str]) -> Vec<String> {
    v.iter().map(|s| s.to_string()).collect()
}

fn small_index() -> Index {
    let entries: Vec<(String, HashSet<u32>)> =
        FILES.iter().map(|(p, t)| (p.to_string(), trigrams_of(t.as_bytes()))).collect();
    build_index("/data/corpus", 7, 9, &entries)
}

#[test]
fn built_index_posts_each_gram() {
    let idx = small_index();
    assert_eq!((idx.root.as_str(), idx.root_dev, idx.root_ino), ("/data/corpus", 7, 9));
    assert_eq!(idx.files, strings(&["a.txt", "sub/b.txt", "sub/deep/needle.txt", "z.txt"]));
    assert_eq!(idx.postings[&gram_pack(b"nee")], vec![0, 1, 2]);
    assert_eq!(idx.postings[&gram_pack(b"NEE")], vec![1]);
    assert!(!idx.postings.contains_key(&gram_pack(b"zzz")));
    assert!(posting_lists_sorted(&idx.postings));
    assert!(posting_ids_in_range(&idx.postings, 4));
    assert!(!posting_ids_in_range(&idx.postings, 2));
    let keys = sorted_keys(&idx.postings);
    assert_eq!(keys.len(), idx.postings.len());
    assert!(keys.windows(2).all(|w| w[0] < w[1]));
}

#[test]
fn binary_form_by_bytes() {
    let mut postings = HashMap::new();
    postings.insert(0x616263u32, vec![0u32]);
    postings.insert(0x010203u32, vec![]);
    let idx = Index { root: "/r".to_string(), root_dev: 1, root_ino: 258, files: strings(&["f"]), postings };
    let bytes = encode_index_bin(&idx);
    let mut want: Vec<u8> = Vec::new();
    want.extend(b"NKGREP02");
    put_u64(&mut want, 1);
    put_u64(&mut want, 258);
    put_u32(&mut want, 2);
    want.extend(b"/r");
    put_u32(&mut want, 1);
    put_u32(&mut want, 1);
    want.extend(b"f");
    put_u32(&mut want, 2);
    put_u32(&mut want, 0x010203);
    put_u32(&mut want, 0);
    put_u32(&mut want, 0x616263);
    put_u32(&mut want, 1);
    put_u32(&mut want, 0);
    assert_eq!(bytes, want);
    let mut le = Vec::new();
    put_u64(&mut le, 258);
    assert_eq!(le, [2, 1, 0, 0, 0, 0, 0, 0]);
}

#[test]
fn written_index_reads_back() {
    let idx = small_index();
    let bytes = encode_index_bin(&idx);
    let back = parse_index_bin(&bytes).ok().unwrap();
    assert_eq!((back.root, back.root_dev, back.root_ino), (idx.root.clone(), 7, 9));
    assert_eq!(back.files, idx.files);
    assert_eq!(back.postings, idx.postings);
    assert!(matches!(parse_index_auto(&bytes), IndexData::Binary(_)));
}

#[test]
fn cut_index_is_refused() {
    let bytes = encode_index_bin(&small_index());
    for n in 0..bytes.len() {
        assert!(parse_index_bin(&bytes[..n]).is_err(), "cut at {n}");
    }
    assert!(matches!(parse_index_bin(&bytes[..12]), Err(IndexFault::UnexpectedEnd)));
    assert!(matches!(parse_index_auto(&bytes[..12]), IndexData::Refused(IndexFault::UnexpectedEnd)));
}

#[test]
fn faulty_fields_are_refused() {
    let head = &encode_index_bin(&small_index())[0..8];
    let mut ids = head.to_vec();
    put_u64(&mut ids, 0);
    put_u64(&mut ids, 0);
    let mut long = ids.clone();
    put_u32(&mut long, 1 << 30);
    assert!(matches!(parse_index_bin(&long), Err(IndexFault::BadLengthPrefix)));
    let mut text = ids.clone();
    put_u32(&mut text, 1);
    text.push(0xff);
    assert!(matches!(parse_index_bin(&text), Err(IndexFault::NonUtf8Path)));
    let mut root = ids.clone();
    put_u32(&mut root, 0);
    let mut files = root.clone();
    put_u32(&mut files, u32::MAX);
    assert!(matches!(parse_index_bin(&files), Err(IndexFault::BadFileCount)));
    let mut lists = root.clone();
    put_u32(&mut lists, 0);
    put_u32(&mut lists, u32::MAX);
    assert!(matches!(parse_index_bin(&lists), Err(IndexFault::BadPostingCount)));
    let mut id = root.clone();
    put_u32(&mut id, 0);
    put_u32(&mut id, 1);
    put_u32(&mut id, 5);
    put_u32(&mut id, 1);
    put_u32(&mut id, 0);
    assert!(matches!(parse_index_bin(&id), Err(IndexFault::PostingIdOutOfRange)));
}

#[test]
fn stored_paths_stay_below_the_root() {
    assert!(validate_stored_files(&strings(&["a", "b/c", "..d/e", "f.."])).is_ok());
    assert!(matches!(validate_stored_files(&strings(&["a", "/etc/x"])), Err(IndexFault::AbsolutePath)));
    assert!(matches!(
        validate_stored_files(&strings(&["a/../../b"])),
        Err(IndexFault::EscapesRoot(p)) if p == "a/../../b"
    ));
}

#[test]
fn parsed_json_index_is_held_to_the_same_rules() {
    assert!(accept_index(small_index()).is_ok());
    let mut idx = small_index();
    idx.postings.insert(1, vec![9]);
    assert!(matches!(accept_index(idx), Err(IndexFault::PostingIdOutOfRange)));
}

#[test]
fn index_form_is_told_by_its_first_bytes() {
    let bytes = encode_index_bin(&small_index());
    let mut other = bytes.clone();
    other[7] = other[7].wrapping_add(1);
    assert!(matches!(parse_index_auto(&other), IndexData::Stale));
    assert!(matches!(parse_index_auto(b"{\"root\":1}"), IndexData::Json(s) if s == "{\"root\":1}"));
    assert!(matches!(parse_index_auto(b"\xff\xfe"), IndexData::NotText));
}

#[test]
fn narrowing_keeps_order_and_postings() {
    let idx = small_index();
    let sub = narrow_index(&idx, "sub", "./sub");
    assert_eq!(sub.files, strings(&["sub/b.txt", "sub/deep/needle.txt"]));
    assert_eq!(sub.postings[&gram_pack(b"nee")], vec![0, 1]);
    assert!(!sub.postings.contains_key(&gram_pack(b"her")));
    let file = narrow_index(&idx, "sub/b.txt", "sub/b.txt");
    assert_eq!(file.files, strings(&["sub/b.txt"]));
    let all = narrow_index(&idx, "", ".");
    assert_eq!(all.files, idx.files);
}

#[test]
fn loading_checks_the_root() {
    let idx = small_index();
    let ok = load_index_for_query(&idx, "/data/corpus", "/data/corpus/sub/deep", 7, 9, "deep").ok().unwrap();
    assert_eq!(ok.files, strings(&["deep/needle.txt"]));
    assert!(matches!(
        load_index_for_query(&idx, "/data/corpus", "/data/other", 7, 9, "x"),
        Err(LoadFault::OutsideRoot)
    ));
    assert!(matches!(
        load_index_for_query(&idx, "/data/corpus", "/data/corpus", 7, 10, "x"),
        Err(LoadFault::RootReplaced)
    ));
    let mut bad = small_index();
    bad.files[0] = "../x".to_string();
    assert!(matches!(
        load_index_for_query(&bad, "/data/corpus", "/data/corpus", 7, 9, "x"),
        Err(LoadFault::BadPath(IndexFault::EscapesRoot(_)))
    ));
    assert!(matches!(serve_eligible_root(&idx, "/data/corpus", "/data/corpus", 7, 9), Ok(true)));
    assert!(matches!(serve_eligible_root(&idx, "/data/corpus", "/data/corpus/sub", 7, 9), Ok(false)));
    let served = load_index_for_serve(small_index(), "/data/corpus", 7, 9).ok().unwrap();
    assert_eq!(served.files[1], "/data/corpus/sub/b.txt");
    assert!(matches!(load_index_for_serve(small_index(), "/data/moved", 7, 9), Err(LoadFault::RootReplaced)));
}

#[test]
fn candidates_hold_every_gram_of_a_branch() {
    let idx = small_index();
    let both = vec![vec![gram_pack(b"pla"), gram_pack(b"nee")], vec![gram_pack(b"foo")]];
    let plan = rank_ors(&idx, &both, &strings(&["needle"]));
    assert_eq!(plan.candidates, vec![1, 2]);
    // Two weighed occurrences of the first branch, one of the second.
    assert_eq!(
        plan.weighed,
        vec![(gram_pack(b"pla"), 1), (gram_pack(b"nee"), 3), (gram_pack(b"foo"), 1)]
    );
    assert_eq!(plan.parts[0].weighed, vec![0, 1]);
    assert_eq!((plan.parts[0].bonus, plan.parts[0].depth), (false, 2));
    assert_eq!(plan.parts[1].weighed, vec![1, 2]);
    assert_eq!((plan.parts[1].bonus, plan.parts[1].depth), (true, 3));
    let none = rank_ors(&idx, &[vec![gram_pack(b"zzz")]], &[]);
    assert!(none.candidates.is_empty());
}

#[test]
fn rooted_ranking_judges_the_shown_path() {
    let served = load_index_for_serve(small_index(), "/data/corpus", 7, 9).ok().unwrap();
    let ors = vec![vec![gram_pack(b"foo")]];
    let plan = rank_ors_rooted(&served, &ors, &strings(&["deep"]), Some("sub/deep"), "here");
    assert_eq!(plan.candidates, vec![2]);
    // `here/needle.txt` lacks the pattern that the stored path holds.
    assert_eq!((plan.parts[0].bonus, plan.parts[0].depth), (false, 2));
    let whole = rank_ors_rooted(&served, &ors, &strings(&["deep"]), None, "");
    // Without a subtree the path counts as held: root, data, corpus, sub, deep, file.
    assert_eq!((whole.parts[0].bonus, whole.parts[0].depth), (true, 6));
}

#[test]
fn bonus_needs_a_pattern_in_the_path() {
    assert!(path_bonus("src/foo.rs", &strings(&["zzz", "foo"])));
    assert!(!path_bonus("src/foo.rs", &strings(&["Foo"])));
    assert!(!path_bonus("src/foo.rs", &[]));
}

#[test]
fn candidates_come_best_first() {
    assert_eq!(order_candidates(&[3, 5, 8], &[10, 30, 10]), vec![5, 3, 8]);
}

#[test]
fn indexed_search_equals_scan() {
    let idx = small_index();
    let queries: Vec<(Vec<String>, bool)> = vec![
        (strings(&["needle_alpha"]), false),
        (strings(&["NEEDLE_ALPHA|needle_beta"]), false),
        (strings(&["foo*bar"]), true),
        (strings(&["foo*bar"]), false),
        (strings(&["needle_[ab]"]), false),
        (strings(&["needle_alpha", "nothing"]), false),
        (strings(&["a|b"]), false),
        (strings(&["no_such_text"]), false),
        (strings(&["(needle_alpha|needle_beta)\\b"]), false),
        (strings(&["(plain|noth)(ing)+"]), false),
        (strings(&["^needle_[^a]eta$", "fo+\\*bar"]), false),
        (strings(&["[]x|]+|nothing"]), false),
        (strings(&["\\x6eeedle_alpha"]), false),
        (strings(&["[[n]xyz]eedle_alpha"]), false),
        (strings(&["\\pLeedle_alpha"]), false),
        (strings(&["needle_alphax{ 0}"]), false),
        (strings(&["foo\\*bar"]), false),
        (strings(&["[[:alpha:]]eedle_alpha"]), false),
        (strings(&["[[:upper:]n|]eedle_\\p{Ll}lpha"]), false),
        (strings(&["\\p{Greek}|needle_\\P{Lu}eta"]), false),
        (strings(&["[+-[:alpha:]|needle_alpha]"]), false),
    ];
    for (pats, fixed) in queries {
        let combined = combine_patterns(&pats, fixed);
        let m = build_matcher_opts(&combined, false, false, fixed && pats.len() == 1).ok().unwrap();
        let found: HashSet<u32> = (0..FILES.len() as u32)
            .filter(|i| !search_bytes(&m, FILES[*i as usize].1.as_bytes(), false).is_empty())
            .collect();
        let plan = plan_local(&idx, &pats, fixed, false);
        assert_eq!(plan.is_some(), query_grams_multi(&pats, fixed).is_some());
        if let Some(p) = plan {
            for id in &found {
                assert!(p.candidates.contains(id), "{pats:?} misses file {id}");
            }
        }
        assert!(plan_local(&idx, &pats, fixed, true).is_none());
    }
}

#[test]
fn equal_indexes_have_equal_bytes() {
    let a = small_index();
    let mut b = small_index();
    let moved: Vec<(u32, Vec<u32>)> = b.postings.drain().collect();
    for (g, ids) in moved.into_iter().rev() {
        b.postings.insert(g, ids);
    }
    assert_eq!(encode_index_bin(&a), encode_index_bin(&b));
}

#[test]
fn parts_hold_no_other_grams() {
    let whole = trigrams_of(b"the needle text");
    assert!(trigrams_of(b"needle").is_subset(&whole));
}

#[test]
fn entries_leave_out_the_index_and_the_outside() {
    assert_eq!(entry_path("/r/a/b", None, "/r"), Some("a/b".to_string()));
    assert_eq!(entry_path("/r/i.json", Some("/r/i.json"), "/r"), None);
    assert_eq!(entry_path("/x/a", Some("/r/i.json"), "/r"), None);
    assert!(entry_grams(b"ab\0cdef").is_none());
    assert_eq!(entry_grams(b"abcd").unwrap(), trigrams_of(b"abcd"));
    assert!(wants_binary("x.bin") && !wants_binary("x.bin.json") && !wants_binary("bin"));
}

#[test]
fn walked_candidates_stay_in_order() {
    let idx = small_index();
    let walked = strings(&["z.txt", "sub/b.txt", "a.txt", "other"]);
    assert_eq!(keep_walked(&idx, &[2, 1, 3, 0], &walked), vec![1, 3, 0]);
    assert!(keep_walked(&idx, &[2], &walked).is_empty());
    assert!(keep_walked(&idx, &[0, 1], &[]).is_empty());
}

#[test]
fn top_order_cuts_the_ranking() {
    assert_eq!(top_order(&[1, 5, 3, 5], None), vec![1, 3, 2, 0]);
    assert_eq!(top_order(&[1, 5, 3, 5], Some(2)), vec![1, 3]);
    assert_eq!(top_order(&[1, 5], Some(9)), vec![1, 0]);
    assert!(top_order(&[1, 5], Some(0)).is_empty());
}

#[test]
fn scanned_files_score_by_path_alone() {
    let p = scan_parts("src/foo.rs", &strings(&["foo"]));
    assert!(p.weighed.is_empty());
    assert_eq!((p.bonus, p.depth), (true, 2));
}

#[test]
fn indexes_are_read_up_to_their_limit() {
    assert!(index_fits(0) && index_fits(4294967296) && !index_fits(4294967297));
}

#[test]
fn utf16_files_are_always_candidates() {
    // Searched decoded, so none of its bytes tells what it holds.
    assert!(entry_grams(&[0xff, 0xfe, 0x00, 0x4e]).is_none());
    let text: Vec<u8> = vec![0xff, 0xfe, 0x8c, 0x4e, 0x09, 0x4e, 0x42, 0x30];
    let m = build_matcher_opts("\u{4e8c}\u{4e09}\u{3042}", false, false, true).ok().unwrap();
    assert_eq!(search_bytes(&m, &text, false).len(), 1);
    let entries = vec![
        ("plain.txt".to_string(), entry_grams(b"needle").unwrap()),
        ("wide.txt".to_string(), entry_grams(&text).unwrap()),
    ];
    let idx = build_index("/r", 1, 2, &entries);
    assert_eq!(idx.postings[&UNREAD_GRAM], vec![1]);
    let plan = plan_local(&idx, &strings(&["\u{4e8c}\u{4e09}\u{3042}"]), true, false).unwrap();
    assert_eq!(plan.candidates, vec![1]);
    // It weighs no trigram, and comes along with every other candidate.
    assert!(plan.parts[0].weighed.is_empty());
    assert_eq!(plan_local(&idx, &strings(&["needle"]), false, false).unwrap().candidates, vec![0, 1]);
}

#[test]
fn rebuilt_index_leaves_itself_out() {
    let met = ["/r/a.txt", "/r/x.idx", "/r/sub/b.txt"];
    let first: Vec<String> = [met[0], met[2]].iter().filter_map(|p| entry_path(p, None, "/r")).collect();
    let again: Vec<String> = met.iter().filter_map(|p| entry_path(p, Some("/r/x.idx"), "/r")).collect();
    assert_eq!(first, again);
}
