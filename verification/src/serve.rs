//! The daemon's side: what a request asks, which files it concerns and what is
//! answered.

use crate::emit::{
    digits, is_one_line, json_bytes, law_escaped_holds_no_control, lemma_digits, lemma_no_newline_concat,
    push_escaped_json, push_line_no, push_text,
};
use crate::grams::{
    all_pattern_grams, law_patterns_are_looked_up_together, lists_hold, pattern_grams, query_grams_multi,
};
use crate::index::{ids_in_range, lists_sorted, Index, IndexView};
use crate::load::{narrowed_files, shown_below, suffix_below};
use crate::matcher::{build_matcher_opts, built_from, config_attempts, searches_lines, LineMatcher, PatternError};
use crate::paths::{
    components, display_path, join_path, joined, law_components_are_the_names, law_stripping_leaves_the_rest,
    rank_path, root_prefix, serve_display_path, strip_dot_slash, strip_path_prefix, stripped, without_dot_slash,
};
use crate::patterns::{combine_patterns, combined};
use crate::rank::{gram_lists, is_plan, rank_ors, rank_ors_rooted, subtree_view, RankPlan};
use crate::text::views;
use vstd::prelude::*;
use vstd::utf8::encode_utf8;

verus! {

/// Longest request line, in bytes.
pub const MAX_SERVE_LINE_BYTES: u64 = 1048576;

/// Number of connections that are answered at a time.
pub const MAX_SERVE_CONNECTIONS: usize = 64;

/// A query as it travels to a daemon. Fields that an older client does not send have
/// the value that means nothing was asked.
pub struct Query {
    pub pattern: String,
    pub top: Option<usize>,
    pub ignore_case: bool,
    pub before: usize,
    pub after: usize,
    pub word: bool,
    pub invert: bool,
    pub max_count: Option<usize>,
    pub patterns: Vec<String>,
    pub fixed: bool,
    pub qroot: String,
    pub display_root: String,
}

// ---- requests ----

/// What becomes of a request line.
#[derive(Clone, Copy, Debug, PartialEq, Eq, Structural)]
pub enum RequestVerdict {
    /// The client is gone.
    Closed,
    /// The line is too long or cut off: drop the connection.
    Drop,
    /// Answer it.
    Take,
}

/// What becomes of a request line: it must end in a newline and not be too long.
pub open spec fn request_verdict_of(line: Seq<char>) -> RequestVerdict {
    if line.len() == 0 {
        RequestVerdict::Closed
    } else if encode_utf8(line).len() > MAX_SERVE_LINE_BYTES || line.last() != '\n' {
        RequestVerdict::Drop
    } else {
        RequestVerdict::Take
    }
}

/// Judge a request line as read, cut off after one byte too many.
pub fn request_verdict(line: &str) -> (v: RequestVerdict)
    ensures
        v == request_verdict_of(line@),
{
    if line.is_empty() {
        return RequestVerdict::Closed;
    }
    let chars: Vec<char> = crate::text::chars_of(line);
    let bytes: &[u8] = line.as_bytes();
    if bytes.len() as u64 > MAX_SERVE_LINE_BYTES || chars[chars.len() - 1] != '\n' {
        return RequestVerdict::Drop;
    }
    RequestVerdict::Take
}

/// The patterns that a query asks for: its list, or its lone pattern.
pub open spec fn asked_patterns(q: Query) -> Seq<Seq<char>> {
    if q.patterns@.len() == 0 {
        seq![q.pattern@]
    } else {
        views(q.patterns@)
    }
}

/// The patterns that a query asks for.
pub fn query_patterns(q: &Query) -> (out: Vec<String>)
    ensures
        views(out@) == asked_patterns(*q),
{
    let mut out: Vec<String> = Vec::new();
    if q.patterns.len() == 0 {
        out.push(q.pattern.clone());
        assert(views(out@) =~= seq![q.pattern@]);
        return out;
    }
    let mut k: usize = 0;
    while k < q.patterns.len()
        invariant
            k <= q.patterns@.len(),
            views(out@) == views(q.patterns@).take(k as int),
        decreases q.patterns@.len() - k,
    {
        let ghost had = views(out@);
        out.push(q.patterns[k].clone());
        assert(views(out@) =~= had.push(q.patterns@[k as int]@));
        k = k + 1;
        assert(views(out@) =~= views(q.patterns@).take(k as int));
    }
    assert(views(q.patterns@).take(k as int) =~= views(q.patterns@));
    out
}

/// Compile what a query asks for.
pub fn query_matcher(q: &Query) -> (res: Result<LineMatcher, PatternError>)
    ensures
        built_from(
            res,
            combined(asked_patterns(*q), q.fixed),
            config_attempts(
                combined(asked_patterns(*q), q.fixed),
                q.ignore_case,
                q.word,
                q.fixed && asked_patterns(*q).len() == 1,
            ),
        ),
        res matches Ok(m) ==> searches_lines(m@.1),
{
    let pats: Vec<String> = query_patterns(q);
    assert(views(pats@).len() == pats@.len());
    let pattern: String = combine_patterns(&pats, q.fixed);
    build_matcher_opts(pattern.as_str(), q.ignore_case, q.word, q.fixed && pats.len() == 1)
}

// ---- subtrees ----

/// The part of the tree that a query asks for.
pub enum Subtree {
    /// All of it.
    Whole,
    /// What lies below this path, relative to the root.
    Below(String),
    /// Nothing: the path asked for lies outside.
    Outside,
}

/// The part of the tree that a query asks for.
pub enum SubtreeView {
    Whole,
    Below(Seq<char>),
    Outside,
}

impl View for Subtree {
    type V = SubtreeView;

    open spec fn view(&self) -> SubtreeView {
        match self {
            Subtree::Whole => SubtreeView::Whole,
            Subtree::Below(s) => SubtreeView::Below(s@),
            Subtree::Outside => SubtreeView::Outside,
        }
    }
}

/// The part of the tree that a query root names.
pub open spec fn subtree_of(qroot: Seq<char>, idx_root: Seq<char>) -> SubtreeView {
    if qroot.len() == 0 {
        SubtreeView::Whole
    } else {
        match stripped(qroot, idx_root) {
            Some(rel) => SubtreeView::Below(rel),
            None => SubtreeView::Outside,
        }
    }
}

/// The subtree as a relative path, where there is one.
pub open spec fn relative(s: SubtreeView) -> Option<Seq<char>> {
    match s {
        SubtreeView::Below(rel) => Some(rel),
        _ => None,
    }
}

/// Find the part of the tree that a query asks for.
pub fn query_subtree(q: &Query, idx_root: &str) -> (s: Subtree)
    ensures
        s@ == subtree_of(q.qroot@, idx_root@),
{
    if q.qroot.as_str().is_empty() {
        return Subtree::Whole;
    }
    match strip_path_prefix(q.qroot.as_str(), idx_root) {
        Some(rel) => Subtree::Below(rel),
        None => Subtree::Outside,
    }
}

/// The file lies in the subtree.
pub open spec fn in_subtree(file: Seq<char>, idx_root: Seq<char>, s: SubtreeView) -> bool {
    match s {
        SubtreeView::Whole => true,
        SubtreeView::Outside => false,
        SubtreeView::Below(rel) => rel.len() == 0 || stripped(display_path(file, idx_root), rel) is Some,
    }
}

/// The files of the subtree, in order.
pub open spec fn narrowed_order(order: Seq<u32>, idx: IndexView, s: SubtreeView) -> Seq<u32>
    decreases order.len(),
{
    if order.len() == 0 {
        Seq::empty()
    } else {
        let front = narrowed_order(order.drop_last(), idx, s);
        if in_subtree(idx.files[order.last() as int], idx.root, s) {
            front.push(order.last())
        } else {
            front
        }
    }
}

/// Whether a file lies in the subtree.
fn file_in_subtree(file: &str, idx_root: &str, s: &Subtree) -> (b: bool)
    ensures
        b == in_subtree(file@, idx_root@, s@),
{
    match s {
        Subtree::Whole => true,
        Subtree::Outside => false,
        Subtree::Below(rel) => {
            if rel.as_str().is_empty() {
                return true;
            }
            let shown: String = serve_display_path(file, idx_root);
            strip_path_prefix(shown.as_str(), rel.as_str()).is_some()
        },
    }
}

/// Keep the files of the subtree, in order.
pub fn narrow_order(idx: &Index, order: &[u32], s: &Subtree) -> (out: Vec<u32>)
    requires
        forall|k: int| 0 <= k < order@.len() ==> (#[trigger] order@[k]) < idx.files@.len(),
    ensures
        out@ == narrowed_order(order@, idx@, s@),
{
    let mut out: Vec<u32> = Vec::new();
    let mut k: usize = 0;
    while k < order.len()
        invariant
            k <= order@.len(),
            forall|k: int| 0 <= k < order@.len() ==> (#[trigger] order@[k]) < idx.files@.len(),
            out@ == narrowed_order(order@.take(k as int), idx@, s@),
        decreases order@.len() - k,
    {
        let id: u32 = order[k];
        proof {
            assert(order@.take(k + 1).drop_last() =~= order@.take(k as int));
            assert(order@.take(k + 1).last() == id);
            assert(order@[k as int] < idx.files@.len());
            assert(idx@.files[id as int] == idx.files@[id as int]@);
        }
        if file_in_subtree(idx.files[id as usize].as_str(), idx.root.as_str(), s) {
            out.push(id);
        }
        k = k + 1;
    }
    assert(order@.take(k as int) =~= order@);
    out
}

/// The path under which a file of the subtree is shown: relative to the root, or,
/// below the path that the client gave, as a local search shows it.
pub open spec fn served_path(
    file: Seq<char>,
    idx_root: Seq<char>,
    s: SubtreeView,
    display_root: Seq<char>,
) -> Seq<char> {
    let rel = display_path(file, idx_root);
    if display_root.len() == 0 {
        rel
    } else {
        match s {
            SubtreeView::Below(q) => match stripped(rel, q) {
                Some(sub) => if sub.len() == 0 {
                    without_dot_slash(display_root)
                } else {
                    without_dot_slash(joined(display_root, sub))
                },
                None => rel,
            },
            _ => rel,
        }
    }
}

/// The path under which a file is shown.
pub fn shown_path(file: &str, idx_root: &str, s: &Subtree, display_root: &str) -> (out: String)
    ensures
        out@ == served_path(file@, idx_root@, s@, display_root@),
{
    let rel: String = serve_display_path(file, idx_root);
    if display_root.is_empty() {
        return rel;
    }
    match s {
        Subtree::Below(q) => match strip_path_prefix(rel.as_str(), q.as_str()) {
            Some(sub) => {
                if sub.as_str().is_empty() {
                    return strip_dot_slash(display_root);
                }
                let whole: String = join_path(display_root, sub.as_str());
                strip_dot_slash(whole.as_str())
            },
            None => rel,
        },
        _ => rel,
    }
}

/// A file below the root is shown by the path that it is stored under: what loading
/// an index for serving joins, showing takes apart again.
pub proof fn law_shown_path_is_stored_path(root: Seq<char>, file: Seq<char>)
    requires
        root.len() > 0,
        file.len() > 0,
        !crate::paths::is_absolute_path(file),
    ensures
        display_path(joined(root, file), root) == file,
{
    let abs = joined(root, file);
    let prefix = root_prefix(root);
    let n = prefix.len() as int;
    if root.last() == '/' {
        assert(abs == root + file);
        assert(root =~= prefix.push('/'));
    } else {
        assert(abs == root.push('/') + file);
    }
    assert(abs.take(n) =~= prefix);
    assert(abs[n] == '/');
    assert(abs.skip(n + 1) =~= file);
}

/// A daemon shows a file of a queried subtree as a local search of the index does:
/// both take what lies below the subtree and put it below the path that was given.
pub proof fn law_served_path_is_local_path(
    root: Seq<char>,
    file: Seq<char>,
    rel: Seq<char>,
    query_root: Seq<char>,
)
    requires
        root.len() > 0,
        file.len() > 0,
        query_root.len() > 0,
        rel.len() > 0,
        !crate::paths::is_absolute_path(file),
        suffix_below(file, rel) is Some,
    ensures
        in_subtree(joined(root, file), root, SubtreeView::Below(rel)),
        served_path(joined(root, file), root, SubtreeView::Below(rel), query_root) == shown_below(
            suffix_below(file, rel)->Some_0,
            query_root,
        ),
{
    law_shown_path_is_stored_path(root, file);
}

// ---- candidates ----

/// The trigrams of a query that trigrams can narrow: folding case or inverting
/// matches lines in files that hold none of them.
pub open spec fn usable_grams(patterns: Seq<Seq<char>>, fixed: bool, force_scan: bool) -> Option<Seq<Set<u32>>> {
    if force_scan {
        None
    } else {
        all_pattern_grams(patterns, fixed)
    }
}

/// The plan is that of the required trigrams; no plan means that every file is
/// searched.
pub open spec fn plan_agrees(
    plan: Option<RankPlan>,
    idx: IndexView,
    sets: Option<Seq<Set<u32>>>,
    patterns: Seq<Seq<char>>,
    qrel: Option<Seq<char>>,
    display_root: Seq<char>,
) -> bool {
    match (plan, sets) {
        (Some(p), Some(s)) => exists|ors: Seq<Vec<u32>>| #[trigger]
            lists_hold(ors, s) && is_plan(p, idx, gram_lists(ors), patterns, qrel, display_root),
        (None, None) => true,
        _ => false,
    }
}

/// Plan a query that a daemon answers: the ranked candidates, or nothing when every
/// file is to be searched.
pub fn plan_query(idx: &Index, q: &Query, s: &Subtree) -> (plan: Option<RankPlan>)
    requires
        lists_sorted(idx@.postings),
        ids_in_range(idx@.postings, idx@.files.len()),
    ensures
        plan_agrees(
            plan,
            idx@,
            usable_grams(asked_patterns(*q), q.fixed, q.ignore_case || q.invert),
            asked_patterns(*q),
            relative(s@),
            q.display_root@,
        ),
{
    if q.ignore_case || q.invert {
        return None;
    }
    let pats: Vec<String> = query_patterns(q);
    let rel: Option<&str> = match s {
        Subtree::Below(r) => Some(r.as_str()),
        _ => None,
    };
    assert(subtree_view(rel) == relative(s@));
    match query_grams_multi(&pats, q.fixed) {
        None => None,
        Some(ors) => Some(rank_ors_rooted(idx, &ors, &pats, rel, q.display_root.as_str())),
    }
}

/// Plan a query that is answered from an index on disk. `force_scan` holds when case
/// is folded, matches are inverted, or files are asked for that an index does not
/// hold.
pub fn plan_local(idx: &Index, patterns: &[String], fixed: bool, force_scan: bool) -> (plan: Option<RankPlan>)
    requires
        lists_sorted(idx@.postings),
        ids_in_range(idx@.postings, idx@.files.len()),
    ensures
        plan_agrees(
            plan,
            idx@,
            usable_grams(views(patterns@), fixed, force_scan),
            views(patterns@),
            None,
            Seq::empty(),
        ),
{
    if force_scan {
        return None;
    }
    match query_grams_multi(patterns, fixed) {
        None => None,
        Some(ors) => Some(rank_ors(idx, &ors, patterns)),
    }
}

// ---- replies ----

/// The last line of a reply: how long it took, whether context was asked for, and
/// whether a file could not be read.
pub open spec fn done_line_of(ms: u64, ctx: bool, verify_error: bool) -> Seq<u8> {
    encode_utf8("{\"done\":true,\"ms\":"@) + digits(ms as nat) + (if ctx {
        encode_utf8(",\"ctx\":true"@)
    } else {
        Seq::empty()
    }) + (if verify_error {
        encode_utf8(",\"verify_error\":true"@)
    } else {
        Seq::empty()
    }) + encode_utf8("}\n"@)
}

/// The last line of a reply is one line.
pub proof fn law_done_line_is_one_line(ms: u64, ctx: bool, verify_error: bool)
    ensures
        is_one_line(done_line_of(ms, ctx, verify_error)),
{
    reveal_strlit("{\"done\":true,\"ms\":");
    reveal_strlit(",\"ctx\":true");
    reveal_strlit(",\"verify_error\":true");
    reveal_strlit("}\n");
    vstd::utf8::is_ascii_chars_encode_utf8("{\"done\":true,\"ms\":"@);
    vstd::utf8::is_ascii_chars_encode_utf8(",\"ctx\":true"@);
    vstd::utf8::is_ascii_chars_encode_utf8(",\"verify_error\":true"@);
    vstd::utf8::is_ascii_chars_encode_utf8("}\n"@);
    let a = encode_utf8("{\"done\":true,\"ms\":"@);
    let b = a + digits(ms as nat);
    let c = if ctx {
        encode_utf8(",\"ctx\":true"@)
    } else {
        Seq::empty()
    };
    let d = if verify_error {
        encode_utf8(",\"verify_error\":true"@)
    } else {
        Seq::empty()
    };
    let z = encode_utf8("}\n"@);
    lemma_digits(ms as nat);
    lemma_no_newline_concat(a, digits(ms as nat));
    lemma_no_newline_concat(b, c);
    lemma_no_newline_concat(b + c, d);
    lemma_no_newline_concat(b + c + d, z.drop_last());
    assert(done_line_of(ms, ctx, verify_error).drop_last() =~= b + c + d + z.drop_last());
}

/// Write the last line of a reply.
pub fn done_line(ms: u64, ctx: bool, verify_error: bool) -> (out: Vec<u8>)
    ensures
        out@ == done_line_of(ms, ctx, verify_error),
{
    let mut out: Vec<u8> = Vec::new();
    push_text(&mut out, "{\"done\":true,\"ms\":");
    push_line_no(&mut out, ms);
    if ctx {
        push_text(&mut out, ",\"ctx\":true");
    }
    if verify_error {
        push_text(&mut out, ",\"verify_error\":true");
    }
    push_text(&mut out, "}\n");
    assert(out@ =~= done_line_of(ms, ctx, verify_error));
    out
}

/// The line that refuses a query. The reason is escaped, so it takes one line whatever
/// it says.
pub open spec fn refusal_line_of(why: Seq<char>) -> Seq<u8> {
    encode_utf8("{\"error\":\""@) + json_bytes(encode_utf8(why)) + encode_utf8("\"}\n"@)
}

/// A refusal takes one line of a reply, whatever its reason.
pub proof fn law_refusal_is_one_line(why: Seq<char>)
    ensures
        is_one_line(refusal_line_of(why)),
{
    let a = encode_utf8("{\"error\":\""@);
    let b = json_bytes(encode_utf8(why));
    let z = encode_utf8("\"}\n"@);
    let all = refusal_line_of(why);
    reveal_strlit("{\"error\":\"");
    reveal_strlit("\"}\n");
    vstd::utf8::is_ascii_chars_encode_utf8("{\"error\":\""@);
    vstd::utf8::is_ascii_chars_encode_utf8("\"}\n"@);
    law_escaped_holds_no_control(encode_utf8(why));
    assert(all.last() == z.last());
    assert forall|i: int| 0 <= i < all.drop_last().len() implies #[trigger] all.drop_last()[i] != 10u8 by {
        if i < a.len() {
            assert(all[i] == a[i]);
        } else if i < a.len() + b.len() {
            assert(all[i] == b[i - a.len()]);
        } else {
            assert(all[i] == z[i - a.len() - b.len()]);
        }
    }
}

/// Write the line that refuses a query.
pub fn refusal_line(why: &str) -> (out: Vec<u8>)
    ensures
        out@ == refusal_line_of(why@),
{
    let mut out: Vec<u8> = Vec::new();
    push_text(&mut out, "{\"error\":\"");
    push_escaped_json(&mut out, why);
    push_text(&mut out, "\"}\n");
    assert(out@ =~= refusal_line_of(why@));
    out
}

// ---- what a served query concerns ----

/// A query of a subtree concerns a stored file exactly if the components of the subtree are
/// the first components of the path that the file is stored under. A query of the whole
/// index concerns every file, and one that lies outside of it none.
pub proof fn law_subtree_query_keeps_what_lies_below(root: Seq<char>, file: Seq<char>, rel: Seq<char>)
    requires
        root.len() > 0,
        file.len() > 0,
        file[0] != '/',
    ensures
        in_subtree(joined(root, file), root, SubtreeView::Below(rel)) <==> components(rel).len() <= components(file).len()
            && forall|k: int| 0 <= k < components(rel).len() ==> #[trigger] components(file)[k] == components(rel)[k],
        in_subtree(joined(root, file), root, SubtreeView::Below(rel)) <==> suffix_below(file, rel) is Some,
        in_subtree(joined(root, file), root, SubtreeView::Whole),
        !in_subtree(joined(root, file), root, SubtreeView::Outside),
{
    law_shown_path_is_stored_path(root, file);
    law_stripping_leaves_the_rest(file, rel);
    if rel.len() == 0 {
        law_components_are_the_names(file, rel);
    }
}

/// A file of a served index lies in a subtree exactly if the components of the subtree are
/// the first ones of the path that the file is shown by.
pub proof fn law_subtree_goes_by_components(file: Seq<char>, root: Seq<char>, rel: Seq<char>)
    ensures
        in_subtree(file, root, SubtreeView::Below(rel)) <==> components(rel).len() <= components(
            display_path(file, root),
        ).len() && forall|k: int|
            0 <= k < components(rel).len() ==> #[trigger] components(display_path(file, root))[k] == components(rel)[k],
{
    law_stripping_leaves_the_rest(display_path(file, root), rel);
    if rel.len() == 0 {
        law_components_are_the_names(file, rel);
    }
}

/// A query names the whole index if it names no path; a subtree if the path lies below the
/// root, and then by what the path adds to the root; and otherwise nothing of it.
pub proof fn law_query_names_its_subtree(qroot: Seq<char>, idx_root: Seq<char>)
    ensures
        subtree_of(qroot, idx_root) == SubtreeView::Whole <==> qroot.len() == 0,
        subtree_of(qroot, idx_root) is Below <==> qroot.len() > 0 && components(idx_root).len() <= components(qroot).len()
            && forall|k: int| 0 <= k < components(idx_root).len() ==> #[trigger] components(qroot)[k] == components(idx_root)[k],
        subtree_of(qroot, idx_root) matches SubtreeView::Below(rel) ==> components(rel) == components(qroot).skip(
            components(idx_root).len() as int,
        ),
{
    law_stripping_leaves_the_rest(qroot, idx_root);
}

/// Narrowing a search to a subtree keeps the files of the subtree, in their order, and no
/// others.
pub proof fn law_narrowing_filters_the_order(order: Seq<u32>, idx: IndexView, s: SubtreeView)
    ensures
        narrowed_order(order, idx, s) == order.filter(|id: u32| in_subtree(idx.files[id as int], idx.root, s)),
    decreases order.len(),
{
    reveal(Seq::filter);
    if order.len() > 0 {
        law_narrowing_filters_the_order(order.drop_last(), idx, s);
    }
}

/// A daemon that serves an index concerns itself, for a queried subtree, with the files that
/// loading the index for that subtree keeps, in the same order and shown by the same paths.
pub proof fn law_served_subtree_is_loaded_subtree(idx: IndexView, served: IndexView, rel: Seq<char>, query_root: Seq<char>)
    requires
        idx.files.len() <= u32::MAX,
        idx.root.len() > 0,
        rel.len() > 0,
        query_root.len() > 0,
        served.root == idx.root,
        served.files == Seq::new(idx.files.len(), |k: int| joined(idx.root, idx.files[k])),
        forall|k: int| 0 <= k < idx.files.len() ==> (#[trigger] idx.files[k]).len() > 0 && idx.files[k][0] != '/',
    ensures
        narrowed_order(Seq::new(idx.files.len(), |k: int| k as u32), served, SubtreeView::Below(rel)).map_values(
            |id: u32| served_path(served.files[id as int], served.root, SubtreeView::Below(rel), query_root),
        ) == narrowed_files(idx.files, rel, query_root),
{
    lemma_served_front(idx, served, rel, query_root, idx.files.len() as int);
    let every = Seq::new(idx.files.len(), |k: int| k as u32);
    assert(every.take(idx.files.len() as int) =~= every);
    assert(idx.files.take(idx.files.len() as int) =~= idx.files);
}

proof fn lemma_served_front(idx: IndexView, served: IndexView, rel: Seq<char>, query_root: Seq<char>, n: int)
    requires
        idx.files.len() <= u32::MAX,
        idx.root.len() > 0,
        rel.len() > 0,
        query_root.len() > 0,
        served.root == idx.root,
        served.files == Seq::new(idx.files.len(), |k: int| joined(idx.root, idx.files[k])),
        forall|k: int| 0 <= k < idx.files.len() ==> (#[trigger] idx.files[k]).len() > 0 && idx.files[k][0] != '/',
        0 <= n <= idx.files.len(),
    ensures
        narrowed_order(Seq::new(idx.files.len(), |k: int| k as u32).take(n), served, SubtreeView::Below(rel)).map_values(
            |id: u32| served_path(served.files[id as int], served.root, SubtreeView::Below(rel), query_root),
        ) == narrowed_files(idx.files.take(n), rel, query_root),
    decreases n,
{
    let every = Seq::new(idx.files.len(), |k: int| k as u32);
    let show = |id: u32| served_path(served.files[id as int], served.root, SubtreeView::Below(rel), query_root);
    if n > 0 {
        lemma_served_front(idx, served, rel, query_root, n - 1);
        let file = idx.files[n - 1];
        let id = (n - 1) as u32;
        assert(every.take(n).drop_last() =~= every.take(n - 1));
        assert(every.take(n).last() == id);
        assert(idx.files.take(n).drop_last() =~= idx.files.take(n - 1));
        assert(idx.files.take(n).last() == file);
        assert(served.files[id as int] == joined(idx.root, file));
        law_subtree_query_keeps_what_lies_below(idx.root, file, rel);
        let had = narrowed_order(every.take(n - 1), served, SubtreeView::Below(rel));
        if suffix_below(file, rel) is Some {
            law_served_path_is_local_path(idx.root, file, rel, query_root);
            assert(had.push(id).map_values(show) =~= had.map_values(show).push(show(id)));
        }
    } else {
        assert(every.take(0) =~= Seq::empty());
        assert(narrowed_order(every.take(0), served, SubtreeView::Below(rel)).map_values(show) =~= Seq::empty());
    }
}

/// A file that ranks in a subtree ranks by the path that it is shown by there.
pub proof fn law_files_rank_by_their_shown_path(
    root: Seq<char>,
    file: Seq<char>,
    rel: Seq<char>,
    query_root: Seq<char>,
)
    requires
        root.len() > 0,
        file.len() > 0,
        file[0] != '/',
        rel.len() > 0,
        query_root.len() > 0,
        suffix_below(file, rel) matches Some(s) && s.len() > 0,
    ensures
        rank_path(joined(root, file), root, Some(rel), query_root) == shown_below(
            suffix_below(file, rel)->Some_0,
            query_root,
        ),
        rank_path(joined(root, file), root, Some(rel), query_root) == served_path(
            joined(root, file),
            root,
            SubtreeView::Below(rel),
            query_root,
        ),
        rank_path(joined(root, file), root, None, query_root) == joined(root, file),
        rank_path(joined(root, file), root, Some(Seq::empty()), query_root) == joined(root, file),
{
    law_shown_path_is_stored_path(root, file);
}

/// A request is taken exactly if it is a whole line of at most a mebibyte; an empty one
/// means that the client is gone.
pub proof fn law_whole_lines_are_taken(line: Seq<char>)
    ensures
        request_verdict_of(line) == RequestVerdict::Take <==> line.len() > 0 && line.last() == '\n' && encode_utf8(line).len()
            <= 1048576,
        request_verdict_of(line) == RequestVerdict::Closed <==> line.len() == 0,
{
}

/// A query asks for its list of patterns, and for its one pattern if the list is empty.
pub proof fn law_query_asks_for_its_patterns(q: Query)
    ensures
        q.patterns@.len() == 0 ==> asked_patterns(q) == seq![q.pattern@],
        q.patterns@.len() > 0 ==> asked_patterns(q).len() == q.patterns@.len() && forall|k: int|
            0 <= k < q.patterns@.len() ==> #[trigger] asked_patterns(q)[k] == q.patterns@[k]@,
{
}

/// Without a subtree, or without a path to show it below, a file is shown by the path that it
/// is stored under.
pub proof fn law_whole_index_shows_stored_paths(root: Seq<char>, file: Seq<char>, rel: Seq<char>, query_root: Seq<char>)
    requires
        root.len() > 0,
        file.len() > 0,
        file[0] != '/',
    ensures
        served_path(joined(root, file), root, SubtreeView::Whole, query_root) == file,
        served_path(joined(root, file), root, SubtreeView::Below(rel), Seq::empty()) == file,
{
    law_shown_path_is_stored_path(root, file);
}

/// A query that folds case, inverts matches or asks for more than an index holds is a scan;
/// any other is looked up exactly if each of its patterns can be.
pub proof fn law_plans_are_made_for_what_can_be_looked_up(
    plan: Option<RankPlan>,
    idx: IndexView,
    patterns: Seq<Seq<char>>,
    fixed: bool,
    force_scan: bool,
    qrel: Option<Seq<char>>,
    display_root: Seq<char>,
)
    requires
        plan_agrees(plan, idx, usable_grams(patterns, fixed, force_scan), patterns, qrel, display_root),
    ensures
        plan is Some <==> !force_scan && forall|k: int|
            0 <= k < patterns.len() ==> pattern_grams(#[trigger] patterns[k], fixed) is Some,
        plan matches Some(p) ==> exists|ors: Seq<Vec<u32>>| #[trigger]
            lists_hold(ors, all_pattern_grams(patterns, fixed)->Some_0) && is_plan(
                p,
                idx,
                gram_lists(ors),
                patterns,
                qrel,
                display_root,
            ),
{
    law_patterns_are_looked_up_together(patterns, fixed);
}

/// The last line of a reply is a JSON object that says that it is done and how long it took,
/// and marks context and failed reads; a refusal is one with the reason.
pub proof fn law_last_lines_are_laid_out(ms: u64, why: Seq<char>)
    ensures
        done_line_of(ms, false, false) == encode_utf8("{\"done\":true,\"ms\":"@) + digits(ms as nat) + encode_utf8("}\n"@),
        done_line_of(ms, true, false) == encode_utf8("{\"done\":true,\"ms\":"@) + digits(ms as nat) + encode_utf8(
            ",\"ctx\":true"@,
        ) + encode_utf8("}\n"@),
        done_line_of(ms, false, true) == encode_utf8("{\"done\":true,\"ms\":"@) + digits(ms as nat) + encode_utf8(
            ",\"verify_error\":true"@,
        ) + encode_utf8("}\n"@),
        done_line_of(ms, true, true) == encode_utf8("{\"done\":true,\"ms\":"@) + digits(ms as nat) + encode_utf8(
            ",\"ctx\":true"@,
        ) + encode_utf8(",\"verify_error\":true"@) + encode_utf8("}\n"@),
        refusal_line_of(why) == encode_utf8("{\"error\":\""@) + json_bytes(encode_utf8(why)) + encode_utf8("\"}\n"@),
{
    let a = encode_utf8("{\"done\":true,\"ms\":"@) + digits(ms as nat);
    let none = Seq::<u8>::empty();
    assert(a + none + none =~= a);
    assert(a + encode_utf8(",\"ctx\":true"@) + none =~= a + encode_utf8(",\"ctx\":true"@));
    assert(a + none + encode_utf8(",\"verify_error\":true"@) =~= a + encode_utf8(",\"verify_error\":true"@));
}

} // verus!
