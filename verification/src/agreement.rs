//! A daemon and a local search agree: hits that travel with the lines around them are
//! shown as a local search shows them.

use crate::client::{are_wire_texts, fresh_reply, hits_among, law_written_reply_is_kept, reply_after_all, ReplyState};
use crate::context::{
    ascending, count_below, files_met, group_rows, groups_of, hits_in, in_groups, in_windows, is_line_order,
    law_groups_cover_windows, lemma_count_below, line_rows, lines_at, locs_fit, ord_fits, span_rows, window_lo,
    CtxRow,
};
use crate::counts::{counts_of, file_counts_of, files_with_hits, has_row, occurrences, path_keys};
use crate::emit::{ctx_json, hit_json, json_bytes};
use crate::hits::FileHits;
use crate::matcher::MatcherConfig;
use crate::order::{
    ascending_texts, comes_before, is_stable_order, law_text_order_is_permutation, lemma_lex_total,
    lemma_stable_order_exists, lex_less, text_before,
};
use crate::render::{
    by_line, context_text, ctx_text_files, ctx_text_row, ctx_text_rows, ctx_wire_files, ctx_wire_row, ctx_wire_rows,
    file_rows, hit_text, json_rows, lemma_hits_in_len, text_rows, RenderFault,
};
use crate::serve::done_line_of;
use crate::served::{
    files_noted, hit_lines, hit_paths, is_ctx_line, is_json_number, json_str_member, known_files, known_groups,
    known_row, known_rows, law_sent_hits_are_received, law_served_text_is_local_text, lemma_file_position,
    lemma_lines_before, lemma_sent, lemma_wire_line, lemma_wire_pieces, line_noted, lines_before, lines_read_back,
    list_sorted, path_reads_back, paths_read_back, scores_are_numbers, sent_hits, sent_scores, separator,
    wire_bytes, wire_hits, wire_line, wire_lines, wire_text, FileList, LineList, WireView,
};
use crate::text::{lemma_same_bytes, pieces};
use vstd::prelude::*;
use vstd::utf8::encode_utf8;

verus! {

/// Every hit has a line of its own within a file of `nlines` lines, and there is one.
pub open spec fn has_own_lines(lines: Seq<u64>, nlines: int) -> bool {
    &&& lines.len() > 0
    &&& forall|i: int, j: int| 0 <= i < j < lines.len() ==> lines[i] < lines[j]
    &&& forall|i: int| 0 <= i < lines.len() ==> 1 <= #[trigger] lines[i] <= nlines
}

// ---- rows of single lines ----

/// The row of line `n`.
spec fn row_at(lines: Seq<u64>, n: u64) -> CtxRow {
    if lines.contains(n) {
        CtxRow::Hit(count_below(lines, n as int) as usize)
    } else {
        CtxRow::Context(n)
    }
}

proof fn lemma_first_from(lines: Seq<u64>, n: int) -> (k: int)
    requires
        ascending(lines),
    ensures
        0 <= k <= lines.len(),
        forall|i: int| 0 <= i < k ==> lines[i] < n,
        k < lines.len() ==> lines[k] >= n,
        count_below(lines, n) == k,
    decreases lines.len(),
{
    if lines.len() == 0 {
        0
    } else {
        let front = lines.drop_last();
        let k = lemma_first_from(front, n);
        let r = if k < front.len() {
            assert(front[k] == lines[k]);
            k
        } else if lines.last() < n {
            k + 1
        } else {
            k
        };
        assert forall|i: int| 0 <= i < r implies lines[i] < n by {
            if i < front.len() {
                assert(front[i] == lines[i]);
            }
        }
        lemma_count_below(lines, n, r);
        r
    }
}

/// With one hit on a line at most, the count of lines grows by one past a hit.
proof fn lemma_count_step(lines: Seq<u64>, nlines: int, n: u64)
    requires
        has_own_lines(lines, nlines),
    ensures
        lines.contains(n) ==> count_below(lines, n as int) < lines.len() && lines[count_below(lines, n as int) as int] == n
            && count_below(lines, n + 1) == count_below(lines, n as int) + 1,
        !lines.contains(n) ==> count_below(lines, n + 1) == count_below(lines, n as int),
{
    let k = lemma_first_from(lines, n as int);
    let j = lemma_first_from(lines, n + 1);
    if lines.contains(n) {
        let x = choose|x: int| 0 <= x < lines.len() && lines[x] == n;
        assert(x >= k);
        if x > k {
            assert(lines[k] < lines[x]);
        }
        assert(k < j);
        if j > k + 1 {
            assert(lines[k] < lines[k + 1]);
        }
    } else {
        if k < j {
            assert(lines[k] == n);
        }
        if j < k {
            assert(lines[j] < n);
        }
    }
}

/// Without a hit in between, the count does not change.
proof fn lemma_count_gap(lines: Seq<u64>, a: int, b: int)
    requires
        ascending(lines),
        a <= b,
        forall|i: int| 0 <= i < lines.len() ==> !(a <= #[trigger] lines[i] < b),
    ensures
        count_below(lines, a) == count_below(lines, b),
{
    let k = lemma_first_from(lines, a);
    let j = lemma_first_from(lines, b);
    if k < j {
        assert(lines[k] < b);
    }
    if j < k {
        assert(lines[j] < a);
    }
}

proof fn lemma_line_row(lines: Seq<u64>, nlines: int, n: u64, every: bool)
    requires
        has_own_lines(lines, nlines),
        lines.len() <= usize::MAX,
    ensures
        line_rows(lines, n as int, every) == seq![row_at(lines, n)],
{
    lemma_count_step(lines, nlines, n);
    assert(line_rows(lines, n as int, every) =~= seq![row_at(lines, n)]);
}

/// The rows of the lines from `lo` to `hi`.
spec fn span_of(lines: Seq<u64>, lo: u64, hi: int) -> Seq<CtxRow> {
    Seq::new((hi - lo + 1) as nat, |i: int| row_at(lines, (lo + i) as u64))
}

proof fn lemma_span(lines: Seq<u64>, nlines: int, lo: u64, hi: int, every: bool)
    requires
        has_own_lines(lines, nlines),
        lines.len() <= usize::MAX,
        lo - 1 <= hi <= u64::MAX,
    ensures
        span_rows(lines, lo as int, hi, every) == span_of(lines, lo, hi),
    decreases hi - lo + 1,
{
    if hi < lo {
        assert(span_of(lines, lo, hi) =~= Seq::empty());
    } else {
        lemma_span(lines, nlines, lo, hi - 1, every);
        lemma_line_row(lines, nlines, hi as u64, every);
        assert(span_of(lines, lo, hi) =~= span_of(lines, lo, hi - 1) + seq![row_at(lines, hi as u64)]);
    }
}

// ---- what travels ----

/// What is known of line `n`: its number, its text, and whether it is a hit.
spec fn entry_at(fh: FileHits, mis: Seq<usize>, lines: Seq<u64>, n: u64) -> (u64, Seq<char>, bool) {
    if lines.contains(n) {
        (n, hit_text(fh, fh.metas@[mis[count_below(lines, n as int) as int] as int])->Ok_0, true)
    } else {
        (n, context_text(fh, n)->Ok_0, false)
    }
}

/// What is known of the lines from `lo` to `hi`.
spec fn span_entries(fh: FileHits, mis: Seq<usize>, lines: Seq<u64>, lo: u64, hi: int) -> LineList {
    Seq::new((hi - lo + 1) as nat, |i: int| entry_at(fh, mis, lines, (lo + i) as u64))
}

spec fn capped(hi: u64, nlines: int) -> int {
    if hi <= nlines {
        hi as int
    } else {
        nlines
    }
}

/// What is known of the lines of the groups.
spec fn group_entries(fh: FileHits, mis: Seq<usize>, lines: Seq<u64>, groups: Seq<(u64, u64)>, nlines: int) -> LineList
    decreases groups.len(),
{
    if groups.len() == 0 {
        Seq::empty()
    } else {
        group_entries(fh, mis, lines, groups.drop_last(), nlines) + span_entries(
            fh,
            mis,
            lines,
            groups.last().0,
            capped(groups.last().1, nlines),
        )
    }
}

/// A known line as it travels.
spec fn sent(path: Seq<char>, e: (u64, Seq<char>, bool)) -> WireView {
    WireView { path, line: e.0, text: e.1, ctx: !e.2 }
}

spec fn all_sent(path: Seq<char>, list: LineList) -> Seq<WireView> {
    Seq::new(list.len(), |i: int| sent(path, list[i]))
}

/// Some numbers stand for the scores in the bytes.
spec fn is_sent(bytes: Seq<u8>, hits: Seq<WireView>, scores: Seq<Seq<u8>>) -> bool {
    &&& scores.len() == hits.len()
    &&& bytes == wire_bytes(hits, scores)
    &&& forall|k: int| 0 <= k < scores.len() ==> is_json_number(#[trigger] scores[k])
}

proof fn lemma_sent_concat(a: Seq<u8>, x: Seq<WireView>, s: Seq<Seq<u8>>, b: Seq<u8>, y: Seq<WireView>, t: Seq<Seq<u8>>)
    requires
        is_sent(a, x, s),
        is_sent(b, y, t),
    ensures
        is_sent(a + b, x + y, s + t),
    decreases y.len(),
{
    assert forall|k: int| 0 <= k < (s + t).len() implies is_json_number(#[trigger] (s + t)[k]) by {
        if k < s.len() {
            assert((s + t)[k] == s[k]);
        } else {
            assert((s + t)[k] == t[k - s.len()]);
        }
    }
    if y.len() == 0 {
        assert(x + y =~= x);
        assert(s + t =~= s);
        assert(a + b =~= a);
    } else {
        let front = wire_bytes(y.drop_last(), t.drop_last());
        assert forall|k: int| 0 <= k < t.drop_last().len() implies is_json_number(#[trigger] t.drop_last()[k]) by {
            assert(t.drop_last()[k] == t[k]);
        }
        lemma_sent_concat(a, x, s, front, y.drop_last(), t.drop_last());
        assert((x + y).drop_last() =~= x + y.drop_last());
        assert((s + t).drop_last() =~= s + t.drop_last());
        assert((x + y).last() == y.last());
        assert((s + t).last() == t.last());
        let h = y.last();
        let line = wire_line(h.path, h.line, h.text, t.last(), h.ctx).push(10u8);
        assert(a + (front + line) =~= a + front + line);
    }
}

proof fn lemma_sent_one(h: WireView, score: Seq<u8>)
    requires
        is_json_number(score),
    ensures
        is_sent(
            if h.ctx {
                ctx_json(json_bytes(encode_utf8(h.path)), h.line, h.text, score)
            } else {
                hit_json(json_bytes(encode_utf8(h.path)), h.line, h.text, score)
            },
            seq![h],
            seq![score],
        ),
{
    lemma_wire_line(h.path, h.line, h.text, score, h.ctx);
    assert(seq![h].drop_last() =~= Seq::empty());
    assert(seq![score].drop_last() =~= Seq::empty());
    let none = wire_bytes(seq![h].drop_last(), seq![score].drop_last());
    assert(none =~= Seq::empty());
    let line = wire_line(h.path, h.line, h.text, score, h.ctx).push(10u8);
    assert(none + line =~= line);
}

/// The hits of a file fit: `mis` names hits, and `lines` are theirs.
spec fn hits_fit(fh: FileHits, mis: Seq<usize>, lines: Seq<u64>, scores: Seq<Seq<u8>>, file_score: Seq<u8>) -> bool {
    &&& lines == lines_at(fh.metas@, mis)
    &&& is_json_number(file_score)
    &&& forall|k: int| 0 <= k < mis.len() ==> is_json_number(scores[(#[trigger] mis[k]) as int])
}

proof fn lemma_wire_span(
    fh: FileHits,
    path: Seq<char>,
    mis: Seq<usize>,
    lines: Seq<u64>,
    nlines: int,
    lo: u64,
    hi: int,
    scores: Seq<Seq<u8>>,
    file_score: Seq<u8>,
) -> (s: Seq<Seq<u8>>)
    requires
        has_own_lines(lines, nlines),
        lines.len() <= usize::MAX,
        hits_fit(fh, mis, lines, scores, file_score),
        lo - 1 <= hi <= u64::MAX,
        ctx_wire_rows(fh, path, mis, span_of(lines, lo, hi), scores, file_score) is Ok,
    ensures
        is_sent(
            ctx_wire_rows(fh, path, mis, span_of(lines, lo, hi), scores, file_score)->Ok_0,
            all_sent(path, span_entries(fh, mis, lines, lo, hi)),
            s,
        ),
        forall|n: u64| lo <= n <= hi ==> #[trigger] entry_ok(fh, mis, lines, n),
    decreases hi - lo + 1,
{
    let rows = span_of(lines, lo, hi);
    let list = span_entries(fh, mis, lines, lo, hi);
    if hi < lo {
        assert(rows =~= Seq::empty());
        assert(all_sent(path, list) =~= Seq::empty());
        Seq::empty()
    } else {
        assert(rows.drop_last() =~= span_of(lines, lo, hi - 1));
        let front = lemma_wire_span(fh, path, mis, lines, nlines, lo, hi - 1, scores, file_score);
        let n = hi as u64;
        assert(rows.last() == row_at(lines, n));
        lemma_count_step(lines, nlines, n);
        let e = entry_at(fh, mis, lines, n);
        let k = count_below(lines, n as int) as int;
        let score = if lines.contains(n) {
            scores[mis[k] as int]
        } else {
            file_score
        };
        if lines.contains(n) {
            assert(fh.metas@[mis[k] as int].line == n);
        }
        lemma_sent_one(sent(path, e), score);
        let before = ctx_wire_rows(fh, path, mis, rows.drop_last(), scores, file_score)->Ok_0;
        let row = ctx_wire_row(fh, path, mis, rows.last(), scores, file_score)->Ok_0;
        let had = all_sent(path, span_entries(fh, mis, lines, lo, hi - 1));
        lemma_sent_concat(before, had, front, row, seq![sent(path, e)], seq![score]);
        assert(all_sent(path, list) =~= had + seq![sent(path, e)]);
        assert forall|m: u64| lo <= m <= hi implies #[trigger] entry_ok(fh, mis, lines, m) by {
            if m == n {
                assert(entry_ok(fh, mis, lines, n));
            }
        }
        front + seq![score]
    }
}

/// The text of line `n` can be had.
spec fn entry_ok(fh: FileHits, mis: Seq<usize>, lines: Seq<u64>, n: u64) -> bool {
    if lines.contains(n) {
        hit_text(fh, fh.metas@[mis[count_below(lines, n as int) as int] as int]) is Ok
    } else {
        context_text(fh, n) is Ok
    }
}

proof fn lemma_wire_rows_concat(
    fh: FileHits,
    path: Seq<char>,
    mis: Seq<usize>,
    a: Seq<CtxRow>,
    b: Seq<CtxRow>,
    scores: Seq<Seq<u8>>,
    file_score: Seq<u8>,
)
    ensures
        ctx_wire_rows(fh, path, mis, a + b, scores, file_score) == (match ctx_wire_rows(
            fh,
            path,
            mis,
            a,
            scores,
            file_score,
        ) {
            Err(e) => Err(e),
            Ok(x) => match ctx_wire_rows(fh, path, mis, b, scores, file_score) {
                Err(e) => Err::<Seq<u8>, RenderFault>(e),
                Ok(y) => Ok(x + y),
            },
        }),
    decreases b.len(),
{
    if b.len() == 0 {
        assert(a + b =~= a);
        if let Ok(x) = ctx_wire_rows(fh, path, mis, a, scores, file_score) {
            assert(x + Seq::<u8>::empty() =~= x);
        }
    } else {
        lemma_wire_rows_concat(fh, path, mis, a, b.drop_last(), scores, file_score);
        assert((a + b).drop_last() =~= a + b.drop_last());
        assert((a + b).last() == b.last());
        if let Ok(x) = ctx_wire_rows(fh, path, mis, a, scores, file_score) {
            if let Ok(y) = ctx_wire_rows(fh, path, mis, b.drop_last(), scores, file_score) {
                if let Ok(z) = ctx_wire_row(fh, path, mis, b.last(), scores, file_score) {
                    assert(x + (y + z) =~= x + y + z);
                }
            }
        }
    }
}

proof fn lemma_text_rows_concat(
    fh: FileHits,
    path: Seq<char>,
    mis: Seq<usize>,
    a: Seq<CtxRow>,
    b: Seq<CtxRow>,
    sep: Seq<char>,
    color: Option<(Seq<char>, MatcherConfig)>,
)
    ensures
        ctx_text_rows(fh, path, mis, a + b, sep, color) == (match ctx_text_rows(fh, path, mis, a, sep, color) {
            Err(e) => Err(e),
            Ok(x) => match ctx_text_rows(fh, path, mis, b, sep, color) {
                Err(e) => Err::<Seq<u8>, RenderFault>(e),
                Ok(y) => Ok(x + y),
            },
        }),
    decreases b.len(),
{
    if b.len() == 0 {
        assert(a + b =~= a);
        if let Ok(x) = ctx_text_rows(fh, path, mis, a, sep, color) {
            assert(x + Seq::<u8>::empty() =~= x);
        }
    } else {
        lemma_text_rows_concat(fh, path, mis, a, b.drop_last(), sep, color);
        assert((a + b).drop_last() =~= a + b.drop_last());
        assert((a + b).last() == b.last());
        if let Ok(x) = ctx_text_rows(fh, path, mis, a, sep, color) {
            if let Ok(y) = ctx_text_rows(fh, path, mis, b.drop_last(), sep, color) {
                if let Ok(z) = ctx_text_row(fh, path, mis, b.last(), sep, color) {
                    assert(x + (y + z) =~= x + y + z);
                }
            }
        }
    }
}

/// Groups as they come of the hits of a file: in order, apart, and begun within it.
spec fn groups_ok(groups: Seq<(u64, u64)>, nlines: int) -> bool {
    &&& forall|g: int| 0 <= g < groups.len() ==> 1 <= (#[trigger] groups[g]).0 <= groups[g].1 && groups[g].0 <= nlines
    &&& forall|g: int, h: int|
        0 <= g < h < groups.len() ==> (#[trigger] groups[g]).1 + 1 < (#[trigger] groups[h]).0
}

proof fn lemma_groups_ok(lines: Seq<u64>, nlines: int, before: usize, after: usize)
    requires
        has_own_lines(lines, nlines),
    ensures
        groups_ok(groups_of(lines, before, after), nlines),
        forall|k: int| 0 <= k < lines.len() ==> in_groups(groups_of(lines, before, after), #[trigger] lines[k]),
        groups_of(lines, before, after).len() > 0,
{
    let groups = groups_of(lines, before, after);
    law_groups_cover_windows(lines, before, after);
    assert forall|k: int| 0 <= k < lines.len() implies in_groups(groups, #[trigger] lines[k]) by {
        assert(in_windows(lines, before, after, lines[k]));
    }
    assert(in_groups(groups, lines[0]));
    assert forall|g: int| 0 <= g < groups.len() implies 1 <= (#[trigger] groups[g]).0 <= groups[g].1 && groups[g].0
        <= nlines by {
        lemma_group_begins(lines, before, after, g);
        let i = choose|i: int| 0 <= i < lines.len() && groups[g].0 <= #[trigger] lines[i];
        assert(lines[i] <= nlines);
    }
}

/// A group begins where the window of a hit does, so not after that hit.
proof fn lemma_group_begins(lines: Seq<u64>, before: usize, after: usize, g: int)
    requires
        ascending(lines),
        0 <= g < groups_of(lines, before, after).len(),
        forall|i: int| 0 <= i < lines.len() ==> 1 <= #[trigger] lines[i],
    ensures
        exists|i: int| 0 <= i < lines.len() && groups_of(lines, before, after)[g].0 <= #[trigger] lines[i],
    decreases lines.len(),
{
    let all = groups_of(lines, before, after);
    if lines.len() > 0 {
        let shorter = lines.drop_last();
        let front = groups_of(shorter, before, after);
        assert(lines[lines.len() - 1] == lines.last());
        assert(forall|i: int| 0 <= i < shorter.len() ==> shorter[i] == lines[i]);
        if g < front.len() {
            lemma_group_begins(shorter, before, after, g);
            let i = choose|i: int| 0 <= i < shorter.len() && front[g].0 <= #[trigger] shorter[i];
            assert(all[g].0 == front[g].0);
            assert(all[g].0 <= lines[i]);
        } else {
            assert(all[g].0 == window_lo(lines.last(), before));
            assert(all[g].0 <= lines[lines.len() - 1]);
        }
    }
}

proof fn lemma_groups_front(groups: Seq<(u64, u64)>, nlines: int)
    requires
        groups_ok(groups, nlines),
        groups.len() > 0,
    ensures
        groups_ok(groups.drop_last(), nlines),
        1 <= groups.last().0 <= groups.last().1,
        groups.last().0 <= capped(groups.last().1, nlines) <= groups.last().1,
{
    let front = groups.drop_last();
    assert(forall|g: int| 0 <= g < front.len() ==> front[g] == groups[g]);
    assert(groups[groups.len() - 1] == groups.last());
    assert forall|g: int, h: int| 0 <= g < h < front.len() implies (#[trigger] front[g]).1 + 1 < (
    #[trigger] front[h]).0 by {
        assert(groups[g].1 + 1 < groups[h].0);
    }
}

proof fn lemma_wire_groups(
    fh: FileHits,
    path: Seq<char>,
    mis: Seq<usize>,
    lines: Seq<u64>,
    groups: Seq<(u64, u64)>,
    nlines: int,
    scores: Seq<Seq<u8>>,
    file_score: Seq<u8>,
) -> (s: Seq<Seq<u8>>)
    requires
        has_own_lines(lines, nlines),
        lines.len() <= usize::MAX,
        hits_fit(fh, mis, lines, scores, file_score),
        groups_ok(groups, nlines),
        ctx_wire_rows(fh, path, mis, group_rows(lines, groups, nlines, true), scores, file_score) is Ok,
    ensures
        is_sent(
            ctx_wire_rows(fh, path, mis, group_rows(lines, groups, nlines, true), scores, file_score)->Ok_0,
            all_sent(path, group_entries(fh, mis, lines, groups, nlines)),
            s,
        ),
        forall|g: int, n: u64|
            0 <= g < groups.len() && groups[g].0 <= n <= capped(groups[g].1, nlines) ==> #[trigger] entry_in(
                fh,
                mis,
                lines,
                groups,
                g,
                n,
            ),
    decreases groups.len(),
{
    let list = group_entries(fh, mis, lines, groups, nlines);
    if groups.len() == 0 {
        assert(all_sent(path, list) =~= Seq::empty());
        Seq::empty()
    } else {
        let front = groups.drop_last();
        let lo = groups.last().0;
        let hi = capped(groups.last().1, nlines);
        lemma_groups_front(groups, nlines);
        let a = group_rows(lines, front, nlines, true);
        let mid: Seq<CtxRow> = if groups.len() > 1 {
            seq![CtxRow::Separator]
        } else {
            Seq::empty()
        };
        let span = span_of(lines, lo, hi);
        lemma_span(lines, nlines, lo, hi, true);
        lemma_wire_rows_concat(fh, path, mis, a + mid, span, scores, file_score);
        lemma_wire_rows_concat(fh, path, mis, a, mid, scores, file_score);
        let x = ctx_wire_rows(fh, path, mis, a, scores, file_score)->Ok_0;
        assert(ctx_wire_rows(fh, path, mis, mid, scores, file_score) == Ok::<Seq<u8>, RenderFault>(Seq::empty())) by {
            if groups.len() > 1 {
                reveal_with_fuel(ctx_wire_rows, 2);
                assert(mid.drop_last() =~= Seq::empty());
                assert(Seq::<u8>::empty() + Seq::<u8>::empty() =~= Seq::<u8>::empty());
            }
        }
        assert(x + Seq::<u8>::empty() =~= x);
        let s = lemma_wire_groups(fh, path, mis, lines, front, nlines, scores, file_score);
        let t = lemma_wire_span(fh, path, mis, lines, nlines, lo, hi, scores, file_score);
        let y = ctx_wire_rows(fh, path, mis, span, scores, file_score)->Ok_0;
        let had = group_entries(fh, mis, lines, front, nlines);
        let more = span_entries(fh, mis, lines, lo, hi);
        lemma_sent_concat(x, all_sent(path, had), s, y, all_sent(path, more), t);
        assert(all_sent(path, list) =~= all_sent(path, had) + all_sent(path, more));
        assert forall|g: int, n: u64|
            0 <= g < groups.len() && groups[g].0 <= n <= capped(groups[g].1, nlines) implies #[trigger] entry_in(
            fh,
            mis,
            lines,
            groups,
            g,
            n,
        ) by {
            if g < front.len() {
                assert(front[g] == groups[g]);
                assert(entry_in(fh, mis, lines, front, g, n));
            } else {
                assert(entry_ok(fh, mis, lines, n));
            }
        }
        s + t
    }
}

/// The text of line `n`, which lies in group `g`, can be had.
spec fn entry_in(fh: FileHits, mis: Seq<usize>, lines: Seq<u64>, groups: Seq<(u64, u64)>, g: int, n: u64) -> bool {
    entry_ok(fh, mis, lines, n)
}

// ---- what is shown ----

proof fn lemma_known_concat(
    path: Seq<char>,
    a: LineList,
    b: LineList,
    lo: u64,
    hi: u64,
    color: Option<(Seq<char>, MatcherConfig)>,
)
    ensures
        known_rows(path, a + b, lo, hi, color) == (match known_rows(path, a, lo, hi, color) {
            Err(e) => Err(e),
            Ok(x) => match known_rows(path, b, lo, hi, color) {
                Err(e) => Err::<Seq<u8>, RenderFault>(e),
                Ok(y) => Ok(x + y),
            },
        }),
    decreases b.len(),
{
    if b.len() == 0 {
        assert(a + b =~= a);
        if let Ok(x) = known_rows(path, a, lo, hi, color) {
            assert(x + Seq::<u8>::empty() =~= x);
        }
    } else {
        lemma_known_concat(path, a, b.drop_last(), lo, hi, color);
        assert((a + b).drop_last() =~= a + b.drop_last());
        assert((a + b).last() == b.last());
        if let Ok(x) = known_rows(path, a, lo, hi, color) {
            if let Ok(y) = known_rows(path, b.drop_last(), lo, hi, color) {
                if let Ok(z) = known_row(path, b.last(), color) {
                    assert(x + (y + z) =~= x + y + z);
                }
            }
        }
    }
}

proof fn lemma_known_outside(
    path: Seq<char>,
    list: LineList,
    lo: u64,
    hi: u64,
    color: Option<(Seq<char>, MatcherConfig)>,
)
    requires
        forall|i: int| 0 <= i < list.len() ==> !(lo <= (#[trigger] list[i]).0 <= hi),
    ensures
        known_rows(path, list, lo, hi, color) == Ok::<Seq<u8>, RenderFault>(Seq::empty()),
    decreases list.len(),
{
    if list.len() > 0 {
        let front = list.drop_last();
        assert forall|i: int| 0 <= i < front.len() implies !(lo <= (#[trigger] front[i]).0 <= hi) by {
            assert(front[i] == list[i]);
        }
        lemma_known_outside(path, front, lo, hi, color);
        assert(list[list.len() - 1] == list.last());
    }
}

proof fn lemma_known_span(
    fh: FileHits,
    path: Seq<char>,
    mis: Seq<usize>,
    lines: Seq<u64>,
    nlines: int,
    lo: u64,
    hi: int,
    top: u64,
    sep: Seq<char>,
    color: Option<(Seq<char>, MatcherConfig)>,
)
    requires
        has_own_lines(lines, nlines),
        lines.len() <= usize::MAX,
        lines == lines_at(fh.metas@, mis),
        lo - 1 <= hi <= top,
        forall|n: u64| lo <= n <= hi ==> #[trigger] entry_ok(fh, mis, lines, n),
    ensures
        known_rows(path, span_entries(fh, mis, lines, lo, hi), lo, top, color) == ctx_text_rows(
            fh,
            path,
            mis,
            span_of(lines, lo, hi),
            sep,
            color,
        ),
    decreases hi - lo + 1,
{
    let rows = span_of(lines, lo, hi);
    let list = span_entries(fh, mis, lines, lo, hi);
    if hi < lo {
        assert(rows =~= Seq::empty());
        assert(list =~= Seq::empty());
    } else {
        lemma_known_span(fh, path, mis, lines, nlines, lo, hi - 1, top, sep, color);
        assert(rows.drop_last() =~= span_of(lines, lo, hi - 1));
        assert(list.drop_last() =~= span_entries(fh, mis, lines, lo, hi - 1));
        let n = hi as u64;
        lemma_count_step(lines, nlines, n);
        assert(entry_ok(fh, mis, lines, n));
        assert(rows.last() == row_at(lines, n));
        assert(list.last() == entry_at(fh, mis, lines, n));
        let k = count_below(lines, n as int) as int;
        if lines.contains(n) {
            assert(fh.metas@[mis[k] as int].line == n);
        }
    }
}

proof fn lemma_entries_bounds(fh: FileHits, mis: Seq<usize>, lines: Seq<u64>, groups: Seq<(u64, u64)>, nlines: int)
    requires
        groups_ok(groups, nlines),
    ensures
        list_sorted(group_entries(fh, mis, lines, groups, nlines)),
        forall|i: int|
            0 <= i < group_entries(fh, mis, lines, groups, nlines).len() ==> groups.len() > 0 && (
            #[trigger] group_entries(fh, mis, lines, groups, nlines)[i]).0 <= groups.last().1,
        groups.len() > 0 ==> group_entries(fh, mis, lines, groups, nlines).len() > 0,
    decreases groups.len(),
{
    if groups.len() > 0 {
        let front = groups.drop_last();
        lemma_groups_front(groups, nlines);
        lemma_entries_bounds(fh, mis, lines, front, nlines);
        let had = group_entries(fh, mis, lines, front, nlines);
        let lo = groups.last().0;
        let hi = capped(groups.last().1, nlines);
        let more = span_entries(fh, mis, lines, lo, hi);
        let all = had + more;
        if front.len() > 0 {
            assert(groups[front.len() - 1].1 + 1 < groups[groups.len() - 1].0);
            assert(front.last() == groups[front.len() - 1]);
        }
        assert forall|i: int, j: int| 0 <= i < j < all.len() implies (#[trigger] all[i]).0 < (#[trigger] all[j]).0 by {
            if j < had.len() {
                assert(all[i] == had[i] && all[j] == had[j]);
            } else if i < had.len() {
                assert(all[i] == had[i]);
                assert(all[j] == more[j - had.len()]);
            } else {
                assert(all[i] == more[i - had.len()] && all[j] == more[j - had.len()]);
            }
        }
        assert forall|i: int| 0 <= i < all.len() implies (#[trigger] all[i]).0 <= groups.last().1 by {
            if i < had.len() {
                assert(all[i] == had[i]);
            } else {
                assert(all[i] == more[i - had.len()]);
            }
        }
    }
}

/// What is known of all groups, cut into what comes before group `g`, the group, and
/// what comes after it.
proof fn lemma_entries_cut(
    fh: FileHits,
    mis: Seq<usize>,
    lines: Seq<u64>,
    groups: Seq<(u64, u64)>,
    nlines: int,
    g: int,
) -> (rest: LineList)
    requires
        groups_ok(groups, nlines),
        0 <= g < groups.len(),
    ensures
        group_entries(fh, mis, lines, groups, nlines) == group_entries(fh, mis, lines, groups.take(g), nlines)
            + span_entries(fh, mis, lines, groups[g].0, capped(groups[g].1, nlines)) + rest,
        forall|i: int| 0 <= i < rest.len() ==> (#[trigger] rest[i]).0 > groups[g].1,
    decreases groups.len(),
{
    let front = groups.drop_last();
    lemma_groups_front(groups, nlines);
    let lo = groups.last().0;
    let hi = capped(groups.last().1, nlines);
    let more = span_entries(fh, mis, lines, lo, hi);
    if g == groups.len() - 1 {
        assert(groups.take(g) =~= front);
        assert(group_entries(fh, mis, lines, groups, nlines) =~= group_entries(fh, mis, lines, front, nlines) + more
            + Seq::<(u64, Seq<char>, bool)>::empty());
        Seq::empty()
    } else {
        let rest = lemma_entries_cut(fh, mis, lines, front, nlines, g);
        assert(front.take(g) =~= groups.take(g));
        assert(front[g] == groups[g]);
        let out = rest + more;
        assert(groups[g].1 + 1 < groups[groups.len() - 1].0);
        assert forall|i: int| 0 <= i < out.len() implies (#[trigger] out[i]).0 > groups[g].1 by {
            if i < rest.len() {
                assert(out[i] == rest[i]);
            } else {
                assert(out[i] == more[i - rest.len()]);
            }
        }
        let a = group_entries(fh, mis, lines, groups.take(g), nlines);
        let b = span_entries(fh, mis, lines, groups[g].0, capped(groups[g].1, nlines));
        assert(a + b + rest + more =~= a + b + out);
        out
    }
}

proof fn lemma_text_groups(
    fh: FileHits,
    path: Seq<char>,
    mis: Seq<usize>,
    lines: Seq<u64>,
    groups: Seq<(u64, u64)>,
    nlines: int,
    g: int,
    sep: Seq<char>,
    color: Option<(Seq<char>, MatcherConfig)>,
)
    requires
        has_own_lines(lines, nlines),
        lines.len() <= usize::MAX,
        lines == lines_at(fh.metas@, mis),
        groups_ok(groups, nlines),
        0 <= g <= groups.len(),
        forall|h: int, n: u64|
            0 <= h < groups.len() && groups[h].0 <= n <= capped(groups[h].1, nlines) ==> #[trigger] entry_in(
                fh,
                mis,
                lines,
                groups,
                h,
                n,
            ),
    ensures
        known_groups(path, group_entries(fh, mis, lines, groups, nlines), groups.take(g), sep, color) == ctx_text_rows(
            fh,
            path,
            mis,
            group_rows(lines, groups.take(g), nlines, false),
            sep,
            color,
        ),
    decreases g,
{
    let list = group_entries(fh, mis, lines, groups, nlines);
    let done = groups.take(g);
    if g > 0 {
        let front = groups.take(g - 1);
        assert(done.drop_last() =~= front);
        assert(done.last() == groups[g - 1]);
        lemma_text_groups(fh, path, mis, lines, groups, nlines, g - 1, sep, color);
        let lo = groups[g - 1].0;
        let top = groups[g - 1].1;
        let hi = capped(top, nlines);
        let rest = lemma_entries_cut(fh, mis, lines, groups, nlines, g - 1);
        let had = group_entries(fh, mis, lines, front, nlines);
        let here = span_entries(fh, mis, lines, lo, hi);
        lemma_front_ok(groups, nlines, g - 1);
        lemma_entries_bounds(fh, mis, lines, front, nlines);
        assert forall|i: int| 0 <= i < had.len() implies !(lo <= (#[trigger] had[i]).0 <= top) by {
            assert(had[i].0 <= front.last().1);
            assert(front.last() == groups[g - 2]);
            assert(groups[g - 2].1 + 1 < groups[g - 1].0);
        }
        lemma_known_outside(path, had, lo, top, color);
        lemma_known_outside(path, rest, lo, top, color);
        assert forall|n: u64| lo <= n <= hi implies #[trigger] entry_ok(fh, mis, lines, n) by {
            assert(entry_in(fh, mis, lines, groups, g - 1, n));
        }
        lemma_known_span(fh, path, mis, lines, nlines, lo, hi, top, sep, color);
        lemma_known_concat(path, had, here, lo, top, color);
        lemma_known_concat(path, had + here, rest, lo, top, color);
        if let Ok(z) = known_rows(path, here, lo, top, color) {
            assert(Seq::<u8>::empty() + z + Seq::<u8>::empty() =~= z);
        }
        let a = group_rows(lines, front, nlines, false);
        let mid: Seq<CtxRow> = if done.len() > 1 {
            seq![CtxRow::Separator]
        } else {
            Seq::empty()
        };
        let span = span_of(lines, lo, hi);
        lemma_span(lines, nlines, lo, hi, false);
        lemma_text_rows_concat(fh, path, mis, a + mid, span, sep, color);
        lemma_text_rows_concat(fh, path, mis, a, mid, sep, color);
        let bar: Seq<u8> = if done.len() > 1 {
            separator(sep)
        } else {
            Seq::empty()
        };
        assert(ctx_text_rows(fh, path, mis, mid, sep, color) == Ok::<Seq<u8>, RenderFault>(bar)) by {
            if done.len() > 1 {
                reveal_with_fuel(ctx_text_rows, 2);
                assert(mid.drop_last() =~= Seq::empty());
                assert(Seq::<u8>::empty() + bar =~= bar);
            }
        }
        assert(group_rows(lines, done, nlines, false) == a + mid + span);
    }
}

proof fn lemma_front_ok(groups: Seq<(u64, u64)>, nlines: int, g: int)
    requires
        groups_ok(groups, nlines),
        0 <= g < groups.len(),
    ensures
        groups_ok(groups.take(g), nlines),
        1 <= groups[g].0 <= groups[g].1,
        groups[g].0 <= capped(groups[g].1, nlines) <= groups[g].1,
{
    let front = groups.take(g);
    assert forall|h: int, k: int| 0 <= h < k < front.len() implies (#[trigger] front[h]).1 + 1 < (
    #[trigger] front[k]).0 by {
        assert(groups[h].1 + 1 < groups[k].0);
    }
    assert forall|h: int| 0 <= h < front.len() implies 1 <= (#[trigger] front[h]).0 <= front[h].1 && front[h].0
        <= nlines by {
        assert(front[h] == groups[h]);
    }
}

// ---- hits among the lines ----

proof fn lemma_hit_lines_concat(a: LineList, b: LineList)
    ensures
        hit_lines(a + b) == hit_lines(a) + hit_lines(b),
    decreases b.len(),
{
    if b.len() == 0 {
        assert(a + b =~= a);
        assert(hit_lines(a) + Seq::<u64>::empty() =~= hit_lines(a));
    } else {
        lemma_hit_lines_concat(a, b.drop_last());
        assert((a + b).drop_last() =~= a + b.drop_last());
        assert((a + b).last() == b.last());
        assert(hit_lines(a + b) =~= hit_lines(a) + hit_lines(b));
    }
}

proof fn lemma_hit_span(fh: FileHits, mis: Seq<usize>, lines: Seq<u64>, nlines: int, lo: u64, hi: int)
    requires
        has_own_lines(lines, nlines),
        lo - 1 <= hi <= u64::MAX,
    ensures
        0 <= count_below(lines, lo as int) <= count_below(lines, hi + 1) <= lines.len(),
        hit_lines(span_entries(fh, mis, lines, lo, hi)) == lines.subrange(
            count_below(lines, lo as int) as int,
            count_below(lines, hi + 1) as int,
        ),
    decreases hi - lo + 1,
{
    let list = span_entries(fh, mis, lines, lo, hi);
    let k = lemma_first_from(lines, lo as int);
    if hi < lo {
        assert(list =~= Seq::empty());
        assert(lines.subrange(k, k) =~= Seq::empty());
    } else {
        lemma_hit_span(fh, mis, lines, nlines, lo, hi - 1);
        let n = hi as u64;
        lemma_count_step(lines, nlines, n);
        let j = lemma_first_from(lines, n + 1);
        assert(list.drop_last() =~= span_entries(fh, mis, lines, lo, hi - 1));
        assert(list.last() == entry_at(fh, mis, lines, n));
        let c = count_below(lines, n as int) as int;
        if lines.contains(n) {
            assert(lines.subrange(k, c + 1) =~= lines.subrange(k, c).push(n));
        }
    }
}

proof fn lemma_hit_groups(
    fh: FileHits,
    mis: Seq<usize>,
    lines: Seq<u64>,
    groups: Seq<(u64, u64)>,
    nlines: int,
    g: int,
)
    requires
        has_own_lines(lines, nlines),
        groups_ok(groups, nlines),
        forall|k: int| 0 <= k < lines.len() ==> in_groups(groups, #[trigger] lines[k]),
        0 <= g <= groups.len(),
    ensures
        g == 0 ==> hit_lines(group_entries(fh, mis, lines, groups.take(g), nlines)) == Seq::<u64>::empty(),
        g > 0 ==> 0 <= count_below(lines, groups[g - 1].1 + 1) <= lines.len() && hit_lines(
            group_entries(fh, mis, lines, groups.take(g), nlines),
        ) == lines.take(count_below(lines, groups[g - 1].1 + 1) as int),
    decreases g,
{
    if g > 0 {
        let front = groups.take(g - 1);
        let done = groups.take(g);
        assert(done.drop_last() =~= front);
        assert(done.last() == groups[g - 1]);
        lemma_hit_groups(fh, mis, lines, groups, nlines, g - 1);
        lemma_front_ok(groups, nlines, g - 1);
        let lo = groups[g - 1].0;
        let top = groups[g - 1].1;
        let hi = capped(top, nlines);
        lemma_hit_span(fh, mis, lines, nlines, lo, hi);
        let had = group_entries(fh, mis, lines, front, nlines);
        let here = span_entries(fh, mis, lines, lo, hi);
        lemma_hit_lines_concat(had, here);
        let k = lemma_first_from(lines, lo as int);
        let j = lemma_first_from(lines, top + 1);
        assert forall|i: int| 0 <= i < lines.len() implies !(hi + 1 <= #[trigger] lines[i] < top + 1) by {}
        lemma_count_gap(lines, hi + 1, top + 1);
        if g == 1 {
            if k > 0 {
                assert(in_groups(groups, lines[0]));
                let h = choose|h: int| 0 <= h < groups.len() && (#[trigger] groups[h]).0 <= lines[0] <= groups[h].1;
                if h > 0 {
                    assert(groups[0].1 + 1 < groups[h].0);
                }
            }
            assert(Seq::<u64>::empty() + lines.subrange(0, j) =~= lines.take(j));
        } else {
            let prev = groups[g - 2].1;
            assert(prev + 1 < groups[g - 1].0);
            assert forall|i: int| 0 <= i < lines.len() implies !(prev + 1 <= #[trigger] lines[i] < lo) by {
                assert(in_groups(groups, lines[i]));
                let h = choose|h: int| 0 <= h < groups.len() && (#[trigger] groups[h]).0 <= lines[i] <= groups[h].1;
                if h < g - 2 {
                    assert(groups[h].1 + 1 < groups[g - 2].0);
                    assert(groups[g - 2].0 <= groups[g - 2].1);
                }
                if h > g - 1 {
                    assert(groups[g - 1].1 + 1 < groups[h].0);
                }
            }
            lemma_count_gap(lines, prev + 1, lo as int);
            assert(lines.take(k) + lines.subrange(k, j) =~= lines.take(j));
        }
    }
}

proof fn lemma_all_hits(fh: FileHits, mis: Seq<usize>, lines: Seq<u64>, groups: Seq<(u64, u64)>, nlines: int)
    requires
        has_own_lines(lines, nlines),
        groups_ok(groups, nlines),
        groups.len() > 0,
        forall|k: int| 0 <= k < lines.len() ==> in_groups(groups, #[trigger] lines[k]),
    ensures
        hit_lines(group_entries(fh, mis, lines, groups, nlines)) == lines,
{
    let n = groups.len() as int;
    lemma_hit_groups(fh, mis, lines, groups, nlines, n);
    assert(groups.take(n) =~= groups);
    let top = groups[n - 1].1;
    let j = lemma_first_from(lines, top + 1);
    if j < lines.len() {
        assert(in_groups(groups, lines[j]));
        let h = choose|h: int| 0 <= h < groups.len() && (#[trigger] groups[h]).0 <= lines[j] <= groups[h].1;
        if h < n - 1 {
            assert(groups[h].1 + 1 < groups[n - 1].0);
        }
    }
    assert(lines.take(j) =~= lines);
}

// ---- files ----

proof fn lemma_note_file(had: Seq<WireView>, path: Seq<char>, list: LineList)
    requires
        list_sorted(list),
        list.len() > 0,
        forall|i: int| 0 <= i < files_noted(had).len() ==> (#[trigger] files_noted(had)[i]).0 != path,
    ensures
        files_noted(had + all_sent(path, list)) == files_noted(had).push((path, list)),
    decreases list.len(),
{
    let known = files_noted(had);
    let all = had + all_sent(path, list);
    let e = list.last();
    let h = sent(path, e);
    let front = list.drop_last();
    assert(all.last() == h);
    assert(all.drop_last() =~= had + all_sent(path, front));
    if list.len() == 1 {
        assert(all.drop_last() =~= had);
        lemma_file_position(known, path, known.len() as int);
        let none: LineList = Seq::empty();
        assert(lines_before(none, e.0) == 0);
        assert(none.insert(0, e) =~= list);
        assert(line_noted(none, h.line, h.text, !h.ctx) == list);
    } else {
        assert(list_sorted(front)) by {
            assert forall|i: int, j: int| 0 <= i < j < front.len() implies (#[trigger] front[i]).0 < (
            #[trigger] front[j]).0 by {
                assert(front[i] == list[i] && front[j] == list[j]);
            }
        }
        lemma_note_file(had, path, front);
        let now = known.push((path, front));
        assert forall|i: int| 0 <= i < known.len() implies (#[trigger] now[i]).0 != path by {
            assert(now[i] == known[i]);
        }
        lemma_file_position(now, path, known.len() as int);
        assert forall|i: int| 0 <= i < front.len() implies (#[trigger] front[i]).0 < e.0 by {
            assert(list[i].0 < list[list.len() - 1].0);
        }
        lemma_lines_before(front, e.0, front.len() as int);
        assert(front.insert(front.len() as int, e) =~= list);
        assert(line_noted(front, h.line, h.text, !h.ctx) == list);
        assert(now.update(known.len() as int, (path, list)) =~= known.push((path, list)));
    }
}

/// The lines of the ordered hits of file `f`, ascending.
pub open spec fn ordered_lines(files: Seq<FileHits>, loc: Seq<(usize, usize)>, ord: Seq<usize>, f: usize) -> Seq<u64> {
    let metas = files[f as int].metas@;
    lines_at(metas, by_line(metas, hits_in(ord, loc, f)))
}

/// What is known of file `f`.
spec fn file_entries(
    files: Seq<FileHits>,
    loc: Seq<(usize, usize)>,
    ord: Seq<usize>,
    f: usize,
    before: usize,
    after: usize,
) -> LineList {
    let fh = files[f as int];
    let mis = by_line(fh.metas@, hits_in(ord, loc, f));
    let lines = lines_at(fh.metas@, mis);
    group_entries(fh, mis, lines, groups_of(lines, before, after), fh.line_starts@.len() as int)
}

/// What travels of the files.
spec fn sent_files(
    files: Seq<FileHits>,
    shown: Seq<Seq<char>>,
    loc: Seq<(usize, usize)>,
    ord: Seq<usize>,
    met: Seq<usize>,
    before: usize,
    after: usize,
) -> Seq<WireView>
    decreases met.len(),
{
    if met.len() == 0 {
        Seq::empty()
    } else {
        sent_files(files, shown, loc, ord, met.drop_last(), before, after) + all_sent(
            shown[met.last() as int],
            file_entries(files, loc, ord, met.last(), before, after),
        )
    }
}

/// What is known of the files.
spec fn known_of(
    files: Seq<FileHits>,
    shown: Seq<Seq<char>>,
    loc: Seq<(usize, usize)>,
    ord: Seq<usize>,
    met: Seq<usize>,
    before: usize,
    after: usize,
) -> FileList {
    Seq::new(
        met.len(),
        |i: int| (shown[met[i] as int], file_entries(files, loc, ord, met[i], before, after)),
    )
}

/// The files can be told apart by their paths, each ordered hit has a line of its own,
/// and all scores are numbers.
pub open spec fn can_travel(
    files: Seq<FileHits>,
    shown: Seq<Seq<char>>,
    loc: Seq<(usize, usize)>,
    ord: Seq<usize>,
    met: Seq<usize>,
    scores: Seq<Seq<Seq<u8>>>,
    file_scores: Seq<Seq<u8>>,
) -> bool {
    &&& forall|i: int, j: int| 0 <= i < j < met.len() ==> shown[(#[trigger] met[i]) as int] != shown[(#[trigger] met[j]) as int]
    &&& forall|i: int|
        0 <= i < met.len() ==> has_own_lines(
            ordered_lines(files, loc, ord, #[trigger] met[i]),
            files[met[i] as int].line_starts@.len() as int,
        )
    &&& forall|i: int|
        0 <= i < met.len() ==> ordered_lines(files, loc, ord, #[trigger] met[i]).len() <= usize::MAX && is_json_number(
            file_scores[met[i] as int],
        )
    &&& forall|i: int, k: int|
        0 <= i < met.len() && 0 <= k < scores[(#[trigger] met[i]) as int].len() ==> is_json_number(
            #[trigger] scores[met[i] as int][k],
        )
    &&& forall|i: int, k: int|
        0 <= i < met.len() && 0 <= k < by_line(files[(#[trigger] met[i]) as int].metas@, hits_in(ord, loc, met[i])).len()
            ==> (#[trigger] by_line(files[met[i] as int].metas@, hits_in(ord, loc, met[i]))[k]) < scores[met[i] as int].len()
}

proof fn lemma_front_travels(
    files: Seq<FileHits>,
    shown: Seq<Seq<char>>,
    loc: Seq<(usize, usize)>,
    ord: Seq<usize>,
    met: Seq<usize>,
    scores: Seq<Seq<Seq<u8>>>,
    file_scores: Seq<Seq<u8>>,
)
    requires
        met.len() > 0,
        can_travel(files, shown, loc, ord, met, scores, file_scores),
    ensures
        can_travel(files, shown, loc, ord, met.drop_last(), scores, file_scores),
{
    let front = met.drop_last();
    assert(forall|i: int| 0 <= i < front.len() ==> front[i] == met[i]);
    assert forall|i: int, j: int| 0 <= i < j < front.len() implies shown[(#[trigger] front[i]) as int] != shown[(
    #[trigger] front[j]) as int] by {
        assert(shown[met[i] as int] != shown[met[j] as int]);
    }
}

proof fn lemma_files(
    files: Seq<FileHits>,
    shown: Seq<Seq<char>>,
    loc: Seq<(usize, usize)>,
    ord: Seq<usize>,
    met: Seq<usize>,
    before: usize,
    after: usize,
    scores: Seq<Seq<Seq<u8>>>,
    file_scores: Seq<Seq<u8>>,
    sep: Seq<char>,
    color: Option<(Seq<char>, MatcherConfig)>,
) -> (s: Seq<Seq<u8>>)
    requires
        can_travel(files, shown, loc, ord, met, scores, file_scores),
        ctx_wire_files(files, shown, loc, ord, met, before, after, scores, file_scores) is Ok,
    ensures
        is_sent(
            ctx_wire_files(files, shown, loc, ord, met, before, after, scores, file_scores)->Ok_0,
            sent_files(files, shown, loc, ord, met, before, after),
            s,
        ),
        files_noted(sent_files(files, shown, loc, ord, met, before, after)) == known_of(
            files,
            shown,
            loc,
            ord,
            met,
            before,
            after,
        ),
        known_files(known_of(files, shown, loc, ord, met, before, after), before, after, sep, color) == ctx_text_files(
            files,
            shown,
            loc,
            ord,
            met,
            before,
            after,
            sep,
            color,
        ),
    decreases met.len(),
{
    let hits = sent_files(files, shown, loc, ord, met, before, after);
    let known = known_of(files, shown, loc, ord, met, before, after);
    if met.len() == 0 {
        assert(known =~= Seq::empty());
        Seq::empty()
    } else {
        let front = met.drop_last();
        let f = met.last();
        assert(met[met.len() - 1] == f);
        lemma_front_travels(files, shown, loc, ord, met, scores, file_scores);
        let s = lemma_files(files, shown, loc, ord, front, before, after, scores, file_scores, sep, color);
        let fh = files[f as int];
        let path = shown[f as int];
        let mis = by_line(fh.metas@, hits_in(ord, loc, f));
        let lines = ordered_lines(files, loc, ord, f);
        let nlines = fh.line_starts@.len() as int;
        let groups = groups_of(lines, before, after);
        let list = file_entries(files, loc, ord, f, before, after);
        assert(has_own_lines(lines, nlines));
        assert(lines == lines_at(fh.metas@, mis));
        assert forall|k: int| 0 <= k < mis.len() implies is_json_number(
            scores[f as int][(#[trigger] mis[k]) as int],
        ) by {
            assert(mis[k] < scores[met[met.len() - 1] as int].len());
            assert(is_json_number(scores[met[met.len() - 1] as int][mis[k] as int]));
        }
        lemma_groups_ok(lines, nlines, before, after);
        let t = lemma_wire_groups(fh, path, mis, lines, groups, nlines, scores[f as int], file_scores[f as int]);
        let had = sent_files(files, shown, loc, ord, front, before, after);
        lemma_sent_concat(
            ctx_wire_files(files, shown, loc, ord, front, before, after, scores, file_scores)->Ok_0,
            had,
            s,
            ctx_wire_rows(
                fh,
                path,
                mis,
                file_rows(files, loc, ord, f, before, after, true),
                scores[f as int],
                file_scores[f as int],
            )->Ok_0,
            all_sent(path, list),
            t,
        );
        lemma_entries_bounds(fh, mis, lines, groups, nlines);
        assert forall|i: int| 0 <= i < files_noted(had).len() implies (#[trigger] files_noted(had)[i]).0 != path by {
            assert(files_noted(had)[i].0 == shown[front[i] as int]);
            assert(front[i] == met[i]);
            assert(shown[met[i] as int] != shown[met[met.len() - 1] as int]);
        }
        lemma_note_file(had, path, list);
        assert(known =~= known_of(files, shown, loc, ord, front, before, after).push((path, list)));
        assert(known.drop_last() =~= known_of(files, shown, loc, ord, front, before, after));
        lemma_all_hits(fh, mis, lines, groups, nlines);
        lemma_text_groups(fh, path, mis, lines, groups, nlines, groups.len() as int, sep, color);
        assert(groups.take(groups.len() as int) =~= groups);
        s + t
    }
}

/// What a client shows of hits and context lines that a daemon sent is what a local
/// search shows of them: the same rows in the same groups, with the same separators.
pub proof fn law_served_context_is_local_context(
    files: Seq<FileHits>,
    shown: Seq<Seq<char>>,
    loc: Seq<(usize, usize)>,
    ord: Seq<usize>,
    before: usize,
    after: usize,
    scores: Seq<Seq<Seq<u8>>>,
    file_scores: Seq<Seq<u8>>,
    raw: Seq<u8>,
    sep: Seq<char>,
    color: Option<(Seq<char>, MatcherConfig)>,
)
    requires
        can_travel(files, shown, loc, ord, files_met(ord, loc), scores, file_scores),
        ctx_wire_files(files, shown, loc, ord, files_met(ord, loc), before, after, scores, file_scores) == Ok::<
            Seq<u8>,
            RenderFault,
        >(raw),
        lines_read_back(raw),
    ensures
        known_files(files_noted(wire_hits(pieces(raw, 10u8))), before, after, sep, color) == ctx_text_files(
            files,
            shown,
            loc,
            ord,
            files_met(ord, loc),
            before,
            after,
            sep,
            color,
        ),
{
    let met = files_met(ord, loc);
    let s = lemma_files(files, shown, loc, ord, met, before, after, scores, file_scores, sep, color);
    law_sent_hits_are_received(sent_files(files, shown, loc, ord, met, before, after), s);
}

// ---- what a search ranks ----

/// The hits of every file lie on lines of it, one on a line at most, in line order.
pub open spec fn hits_on_lines(files: Seq<FileHits>) -> bool {
    &&& forall|f: int, k: int|
        0 <= f < files.len() && 0 <= k < files[f].metas@.len() ==> 1 <= (#[trigger] files[f].metas@[k]).line
            <= files[f].line_starts@.len()
    &&& forall|f: int, j: int, k: int|
        0 <= f < files.len() && 0 <= j < k < files[f].metas@.len() ==> (#[trigger] files[f].metas@[j]).line < (
        #[trigger] files[f].metas@[k]).line
}

/// No hit is located or ranked twice, and each is located in its file.
pub open spec fn ranked_once(files: Seq<FileHits>, loc: Seq<(usize, usize)>, ord: Seq<usize>) -> bool {
    &&& locs_fit(files, loc)
    &&& ord_fits(ord, loc.len())
    &&& loc.no_duplicates()
    &&& ord.no_duplicates()
    &&& ord.len() <= usize::MAX
}

proof fn lemma_met(ord: Seq<usize>, loc: Seq<(usize, usize)>)
    ensures
        files_met(ord, loc).no_duplicates(),
        forall|f: usize| #[trigger]
            files_met(ord, loc).contains(f) ==> exists|i: int| 0 <= i < ord.len() && loc[(#[trigger] ord[i]) as int].0 == f,
    decreases ord.len(),
{
    if ord.len() > 0 {
        let shorter = ord.drop_last();
        lemma_met(shorter, loc);
        let front = files_met(shorter, loc);
        let last = loc[ord.last() as int].0;
        let all = files_met(ord, loc);
        assert forall|f: usize| #[trigger] all.contains(f) implies exists|i: int|
            0 <= i < ord.len() && loc[(#[trigger] ord[i]) as int].0 == f by {
            if front.contains(f) {
                let i = choose|i: int| 0 <= i < shorter.len() && loc[(#[trigger] shorter[i]) as int].0 == f;
                assert(ord[i] == shorter[i]);
            } else {
                assert(f == last);
                assert(ord[ord.len() - 1] == ord.last());
            }
        }
    }
}

/// The ordered hits in a file are those located there, each once.
proof fn lemma_hits_in(ord: Seq<usize>, loc: Seq<(usize, usize)>, f: usize)
    requires
        ord_fits(ord, loc.len()),
        loc.no_duplicates(),
        ord.no_duplicates(),
    ensures
        hits_in(ord, loc, f).no_duplicates(),
        hits_in(ord, loc, f).len() <= ord.len(),
        forall|k: usize| #[trigger]
            hits_in(ord, loc, f).contains(k) <==> exists|i: int| 0 <= i < ord.len() && #[trigger] loc[ord[i] as int] == (f, k),
    decreases ord.len(),
{
    if ord.len() > 0 {
        let shorter = ord.drop_last();
        lemma_hits_in(shorter, loc, f);
        let front = hits_in(shorter, loc, f);
        let at = loc[ord.last() as int];
        let all = hits_in(ord, loc, f);
        assert(ord[ord.len() - 1] == ord.last());
        assert forall|k: usize| #[trigger] all.contains(k) <==> exists|i: int|
            0 <= i < ord.len() && #[trigger] loc[ord[i] as int] == (f, k) by {
            if all.contains(k) {
                if front.contains(k) {
                    let i = choose|i: int| 0 <= i < shorter.len() && #[trigger] loc[shorter[i] as int] == (f, k);
                    assert(loc[ord[i] as int] == (f, k));
                } else {
                    assert(at == (f, k));
                    assert(loc[ord[ord.len() - 1] as int] == (f, k));
                }
            }
            if exists|i: int| 0 <= i < ord.len() && #[trigger] loc[ord[i] as int] == (f, k) {
                let i = choose|i: int| 0 <= i < ord.len() && #[trigger] loc[ord[i] as int] == (f, k);
                if i < ord.len() - 1 {
                    assert(loc[shorter[i] as int] == (f, k));
                    assert(front.contains(k));
                    let x = choose|x: int| 0 <= x < front.len() && front[x] == k;
                    assert(all[x] == k);
                } else {
                    assert(all[all.len() - 1] == k);
                }
            }
        }
        if at.0 == f {
            assert(!front.contains(at.1)) by {
                if front.contains(at.1) {
                    let i = choose|i: int| 0 <= i < shorter.len() && #[trigger] loc[shorter[i] as int] == (f, at.1);
                    assert(shorter[i] == ord[i]);
                    assert(ord[i] < loc.len() && ord[ord.len() - 1] < loc.len());
                    assert(ord[i] != ord[ord.len() - 1]);
                }
            }
        }
    }
}

/// Hits that a search ranked can travel: by line, each has a line of its own.
pub proof fn law_ranked_hits_can_travel(
    files: Seq<FileHits>,
    shown: Seq<Seq<char>>,
    loc: Seq<(usize, usize)>,
    ord: Seq<usize>,
    scores: Seq<Seq<Seq<u8>>>,
    file_scores: Seq<Seq<u8>>,
)
    requires
        hits_on_lines(files),
        ranked_once(files, loc, ord),
        shown.len() == files.len(),
        shown.no_duplicates(),
        scores.len() == files.len(),
        forall|f: int| 0 <= f < files.len() ==> (#[trigger] scores[f]).len() == files[f].metas@.len(),
        forall|f: int, k: int| 0 <= f < files.len() && 0 <= k < scores[f].len() ==> is_json_number(#[trigger] scores[f][k]),
        forall|f: int| 0 <= f < files.len() ==> is_json_number(#[trigger] file_scores[f]),
    ensures
        can_travel(files, shown, loc, ord, files_met(ord, loc), scores, file_scores),
{
    let met = files_met(ord, loc);
    lemma_met(ord, loc);
    assert forall|i: int| 0 <= i < met.len() implies (#[trigger] met[i]) < files.len() by {
        assert(met.contains(met[i]));
        let x = choose|x: int| 0 <= x < ord.len() && loc[(#[trigger] ord[x]) as int].0 == met[i];
        assert(ord[x] < loc.len());
    }
    assert forall|i: int, j: int| 0 <= i < j < met.len() implies shown[(#[trigger] met[i]) as int] != shown[(
    #[trigger] met[j]) as int] by {}
    assert forall|i: int| 0 <= i < met.len() implies has_own_lines(
        ordered_lines(files, loc, ord, #[trigger] met[i]),
        files[met[i] as int].line_starts@.len() as int,
    ) && ordered_lines(files, loc, ord, met[i]).len() <= usize::MAX && (forall|k: int|
        0 <= k < by_line(files[met[i] as int].metas@, hits_in(ord, loc, met[i])).len() ==> (#[trigger] by_line(
            files[met[i] as int].metas@,
            hits_in(ord, loc, met[i]),
        )[k]) < scores[met[i] as int].len()) by {
        lemma_own_lines(files, loc, ord, met[i]);
    }
}

proof fn lemma_own_lines(files: Seq<FileHits>, loc: Seq<(usize, usize)>, ord: Seq<usize>, f: usize)
    requires
        hits_on_lines(files),
        ranked_once(files, loc, ord),
        files_met(ord, loc).contains(f),
        f < files.len(),
    ensures
        has_own_lines(ordered_lines(files, loc, ord, f), files[f as int].line_starts@.len() as int),
        ordered_lines(files, loc, ord, f).len() <= usize::MAX,
        forall|k: int|
            0 <= k < by_line(files[f as int].metas@, hits_in(ord, loc, f)).len() ==> (#[trigger] by_line(
                files[f as int].metas@,
                hits_in(ord, loc, f),
            )[k]) < files[f as int].metas@.len(),
{
    let metas = files[f as int].metas@;
    let mis = hits_in(ord, loc, f);
    lemma_met(ord, loc);
    lemma_hits_in(ord, loc, f);
    let x = choose|x: int| 0 <= x < ord.len() && loc[(#[trigger] ord[x]) as int].0 == f;
    assert(loc[ord[x] as int] == (f, loc[ord[x] as int].1));
    assert(mis.contains(loc[ord[x] as int].1));
    assert forall|k: int| 0 <= k < mis.len() implies (#[trigger] mis[k]) < metas.len() by {
        assert(mis.contains(mis[k]));
        let i = choose|i: int| 0 <= i < ord.len() && #[trigger] loc[ord[i] as int] == (f, mis[k]);
        assert(ord[i] < loc.len());
    }
    let keys = lines_at(metas, mis);
    let p = lemma_stable_order_exists(keys);
    let sorted = Seq::new(p.len(), |k: int| mis[p[k] as int]);
    assert(is_line_order(metas, mis, sorted));
    let by = by_line(metas, mis);
    assert(is_line_order(metas, mis, by));
    let q = choose|q: Seq<usize>|
        #![trigger is_stable_order(lines_at(metas, mis), q)]
        is_stable_order(lines_at(metas, mis), q) && by == Seq::new(q.len(), |k: int| mis[q[k] as int]);
    let lines = ordered_lines(files, loc, ord, f);
    assert forall|k: int| 0 <= k < by.len() implies (#[trigger] by[k]) < metas.len() && 1 <= lines[k]
        <= files[f as int].line_starts@.len() by {
        assert(q[k] < keys.len());
        assert(by[k] == mis[q[k] as int]);
        assert(1 <= files[f as int].metas@[by[k] as int].line <= files[f as int].line_starts@.len());
    }
    assert forall|i: int| 0 <= i < lines.len() implies 1 <= #[trigger] lines[i] <= files[f as int].line_starts@.len() by {
        assert(by[i] < metas.len());
    }
    assert forall|i: int, j: int| 0 <= i < j < lines.len() implies lines[i] < lines[j] by {
        assert(comes_before(keys, q[i] as int, q[j] as int));
        assert(q[i] < keys.len() && q[j] < keys.len());
        let a = mis[q[i] as int];
        let b = mis[q[j] as int];
        assert(a < metas.len() && b < metas.len());
        if a < b {
            assert(files[f as int].metas@[a as int].line < files[f as int].metas@[b as int].line);
        } else if b < a {
            assert(files[f as int].metas@[b as int].line < files[f as int].metas@[a as int].line);
        } else {
            assert(q[i] == q[j]);
        }
    }
}

// ---- counts ----

/// The shown paths of the ordered hits.
pub open spec fn ordered_paths(shown: Seq<Seq<char>>, loc: Seq<(usize, usize)>, ord: Seq<usize>) -> Seq<Seq<char>> {
    Seq::new(ord.len(), |i: int| shown[loc[ord[i] as int].0 as int])
}

proof fn lemma_occurrences(shown: Seq<Seq<char>>, loc: Seq<(usize, usize)>, ord: Seq<usize>, f: usize)
    requires
        shown.no_duplicates(),
        f < shown.len(),
        forall|i: int| 0 <= i < ord.len() ==> loc[(#[trigger] ord[i]) as int].0 < shown.len(),
    ensures
        occurrences(ordered_paths(shown, loc, ord), shown[f as int]) == hits_in(ord, loc, f).len(),
    decreases ord.len(),
{
    if ord.len() > 0 {
        let front = ord.drop_last();
        let paths = ordered_paths(shown, loc, ord);
        assert forall|i: int| 0 <= i < front.len() implies loc[(#[trigger] front[i]) as int].0 < shown.len() by {
            assert(front[i] == ord[i]);
        }
        lemma_occurrences(shown, loc, front, f);
        assert(paths.drop_last() =~= ordered_paths(shown, loc, front));
        assert(ord[ord.len() - 1] == ord.last());
        let last = loc[ord.last() as int].0;
        assert(paths.last() == shown[last as int]);
        if last != f {
            assert(shown[last as int] != shown[f as int]);
        }
    }
}

proof fn lemma_with_hits(ord: Seq<usize>, loc: Seq<(usize, usize)>, n: int)
    requires
        0 <= n <= usize::MAX,
        ord.len() <= usize::MAX,
    ensures
        forall|k: int|
            0 <= k < files_with_hits(ord, loc, n).len() ==> (#[trigger] files_with_hits(ord, loc, n)[k]).0 < n
                && files_with_hits(ord, loc, n)[k].1 == hits_in(ord, loc, files_with_hits(ord, loc, n)[k].0).len()
                && files_with_hits(ord, loc, n)[k].1 > 0,
        forall|j: int, k: int|
            0 <= j < k < files_with_hits(ord, loc, n).len() ==> (#[trigger] files_with_hits(ord, loc, n)[j]).0 < (
            #[trigger] files_with_hits(ord, loc, n)[k]).0,
        forall|f: usize|
            f < n && #[trigger] hits_in(ord, loc, f).len() > 0 ==> exists|k: int|
                0 <= k < files_with_hits(ord, loc, n).len() && (#[trigger] files_with_hits(ord, loc, n)[k]).0 == f,
    decreases n,
{
    if n > 0 {
        lemma_with_hits(ord, loc, n - 1);
        let front = files_with_hits(ord, loc, n - 1);
        let all = files_with_hits(ord, loc, n);
        let f = (n - 1) as usize;
        lemma_hits_in_len(ord, loc, f);
        assert forall|g: usize| g < n && #[trigger] hits_in(ord, loc, g).len() > 0 implies exists|k: int|
            0 <= k < all.len() && (#[trigger] all[k]).0 == g by {
            if g < n - 1 {
                let k = choose|k: int| 0 <= k < front.len() && (#[trigger] front[k]).0 == g;
                assert(all[k] == front[k]);
            } else {
                assert(all[front.len() as int].0 == g);
            }
        }
        assert forall|j: int, k: int| 0 <= j < k < all.len() implies (#[trigger] all[j]).0 < (#[trigger] all[k]).0 by {
            assert(all[j] == front[j]);
            if k < front.len() {
                assert(all[k] == front[k]);
            }
        }
        assert forall|k: int| 0 <= k < all.len() implies (#[trigger] all[k]).0 < n && all[k].1 == hits_in(
            ord,
            loc,
            all[k].0,
        ).len() && all[k].1 > 0 by {
            if k < front.len() {
                assert(all[k] == front[k]);
            }
        }
    }
}

/// The counts of a local search are how often the paths of its hits occur.
pub proof fn law_local_counts_count_paths(
    rows: Seq<(Seq<char>, usize)>,
    shown: Seq<Seq<char>>,
    loc: Seq<(usize, usize)>,
    ord: Seq<usize>,
)
    requires
        shown.no_duplicates(),
        shown.len() <= usize::MAX,
        ord.len() <= usize::MAX,
        forall|i: int| 0 <= i < ord.len() ==> loc[(#[trigger] ord[i]) as int].0 < shown.len(),
        file_counts_of(rows, shown, files_with_hits(ord, loc, shown.len() as int)),
    ensures
        counts_of(rows, ordered_paths(shown, loc, ord)),
{
    let n = shown.len() as int;
    let kept = files_with_hits(ord, loc, n);
    let paths = ordered_paths(shown, loc, ord);
    let keys = path_keys(shown, kept);
    let p = choose|p: Seq<usize>|
        p.len() == kept.len() && #[trigger] ascending_texts(keys, p) && rows == Seq::new(
            p.len(),
            |k: int| (shown[kept[p[k] as int].0 as int], kept[p[k] as int].1),
        );
    lemma_with_hits(ord, loc, n);
    lemma_kept_len(ord, loc, n);
    law_text_order_is_permutation(keys, p);
    assert forall|i: int, j: int| 0 <= i < j < rows.len() implies lex_less(
        encode_utf8((#[trigger] rows[i]).0),
        encode_utf8((#[trigger] rows[j]).0),
    ) by {
        assert(text_before(keys, p[i] as int, p[j] as int));
        let a = kept[p[i] as int].0;
        let b = kept[p[j] as int].0;
        if keys[p[i] as int] == keys[p[j] as int] {
            lemma_same_bytes(shown[a as int], shown[b as int]);
            assert(a == b);
            if p[i] < p[j] {
                assert(kept[p[i] as int].0 < kept[p[j] as int].0);
            }
        }
    }
    assert forall|k: int| 0 <= k < rows.len() implies (#[trigger] rows[k]).1 == occurrences(paths, rows[k].0)
        && paths.contains(rows[k].0) by {
        let at = kept[p[k] as int];
        lemma_occurrences(shown, loc, ord, at.0);
        lemma_occurs_somewhere(paths, rows[k].0);
    }
    assert forall|i: int| 0 <= i < paths.len() implies has_row(rows, #[trigger] paths[i]) by {
        let f = loc[ord[i] as int].0;
        lemma_in_file(ord, loc, i);
        assert(hits_in(ord, loc, f).len() > 0);
        let x = choose|x: int| 0 <= x < kept.len() && (#[trigger] kept[x]).0 == f;
        assert(p.contains(x as usize));
        let k = choose|k: int| 0 <= k < p.len() && p[k] == x as usize;
        assert(rows[k].0 == paths[i]);
    }
}

proof fn lemma_kept_len(ord: Seq<usize>, loc: Seq<(usize, usize)>, n: int)
    requires
        0 <= n,
    ensures
        files_with_hits(ord, loc, n).len() <= n,
    decreases n,
{
    if n > 0 {
        lemma_kept_len(ord, loc, n - 1);
    }
}

proof fn lemma_occurs_somewhere(paths: Seq<Seq<char>>, p: Seq<char>)
    requires
        occurrences(paths, p) > 0,
    ensures
        paths.contains(p),
    decreases paths.len(),
{
    if paths.len() > 0 {
        if paths.last() == p {
            assert(paths[paths.len() - 1] == p);
        } else {
            lemma_occurs_somewhere(paths.drop_last(), p);
            let k = choose|k: int| 0 <= k < paths.drop_last().len() && paths.drop_last()[k] == p;
            assert(paths[k] == p);
        }
    }
}

proof fn lemma_in_file(ord: Seq<usize>, loc: Seq<(usize, usize)>, i: int)
    requires
        0 <= i < ord.len(),
    ensures
        hits_in(ord, loc, loc[ord[i] as int].0).len() > 0,
    decreases ord.len(),
{
    if i < ord.len() - 1 {
        assert(ord.drop_last()[i] == ord[i]);
        lemma_in_file(ord.drop_last(), loc, i);
    } else {
        assert(ord[i] == ord.last());
    }
}

proof fn lemma_same_rows(a: Seq<(Seq<char>, usize)>, b: Seq<(Seq<char>, usize)>, paths: Seq<Seq<char>>, n: int)
    requires
        counts_of(a, paths),
        counts_of(b, paths),
        0 <= n <= a.len(),
        n <= b.len(),
        forall|k: int| 0 <= k < n ==> a[k] == b[k],
        n < a.len(),
    ensures
        n < b.len() && a[n] == b[n],
{
    let p = a[n].0;
    assert(paths.contains(p));
    let x = choose|x: int| 0 <= x < paths.len() && paths[x] == p;
    let j = choose|j: int| 0 <= j < b.len() && (#[trigger] b[j]).0 == paths[x];
    if j < n {
        assert(lex_less(encode_utf8(a[j].0), encode_utf8(a[n].0)));
        lemma_lex_total(encode_utf8(a[j].0), encode_utf8(a[n].0));
    }
    if j > n {
        let q = b[n].0;
        assert(paths.contains(q));
        let y = choose|y: int| 0 <= y < paths.len() && paths[y] == q;
        let i = choose|i: int| 0 <= i < a.len() && (#[trigger] a[i]).0 == paths[y];
        assert(lex_less(encode_utf8(b[n].0), encode_utf8(b[j].0)));
        if i < n {
            assert(lex_less(encode_utf8(b[i].0), encode_utf8(b[n].0)));
            lemma_lex_total(encode_utf8(b[i].0), encode_utf8(b[n].0));
        } else if i > n {
            assert(lex_less(encode_utf8(a[n].0), encode_utf8(a[i].0)));
            lemma_lex_total(encode_utf8(p), encode_utf8(q));
        } else {
            lemma_lex_total(encode_utf8(q), encode_utf8(p));
        }
    }
}

/// The counts of paths are unique: one row per path, in one order.
pub proof fn law_counts_are_unique(a: Seq<(Seq<char>, usize)>, b: Seq<(Seq<char>, usize)>, paths: Seq<Seq<char>>)
    requires
        counts_of(a, paths),
        counts_of(b, paths),
    ensures
        a == b,
{
    lemma_common_rows(a, b, paths, a.len() as int);
    lemma_common_rows(b, a, paths, b.len() as int);
    assert(a =~= b);
}

proof fn lemma_common_rows(a: Seq<(Seq<char>, usize)>, b: Seq<(Seq<char>, usize)>, paths: Seq<Seq<char>>, n: int)
    requires
        counts_of(a, paths),
        counts_of(b, paths),
        0 <= n <= a.len(),
    ensures
        n <= b.len(),
        forall|k: int| 0 <= k < n ==> a[k] == b[k],
    decreases n,
{
    if n > 0 {
        lemma_common_rows(a, b, paths, n - 1);
        lemma_same_rows(a, b, paths, n - 1);
    }
}

proof fn lemma_sent_paths(lines: Seq<Seq<u8>>, hits: Seq<WireView>)
    requires
        lines.len() == hits.len(),
        forall|k: int|
            0 <= k < hits.len() ==> (#[trigger] lines[k]).len() > 0 && !is_ctx_line(lines[k])
                && json_str_member(lines[k], "path"@) == Some(hits[k].path),
    ensures
        hit_paths(lines) == Seq::new(hits.len(), |k: int| hits[k].path),
    decreases lines.len(),
{
    let want = Seq::new(hits.len(), |k: int| hits[k].path);
    if lines.len() > 0 {
        let front = lines.drop_last();
        assert forall|k: int| 0 <= k < front.len() implies (#[trigger] front[k]).len() > 0 && !is_ctx_line(front[k])
            && json_str_member(front[k], "path"@) == Some(hits.drop_last()[k].path) by {
            assert(front[k] == lines[k]);
        }
        lemma_sent_paths(front, hits.drop_last());
        assert(lines[lines.len() - 1] == lines.last());
        assert(want =~= Seq::new((hits.len() - 1) as nat, |k: int| hits.drop_last()[k].path).push(hits.last().path));
    } else {
        assert(want =~= Seq::empty());
    }
}

/// What a client counts of the hits that a daemon sent is what a local search counts.
pub proof fn law_served_counts_are_local_counts(
    files: Seq<FileHits>,
    shown: Seq<Seq<char>>,
    loc: Seq<(usize, usize)>,
    ord: Seq<usize>,
    scores: Seq<Seq<Seq<u8>>>,
    raw: Seq<u8>,
    served: Seq<(Seq<char>, usize)>,
    local: Seq<(Seq<char>, usize)>,
)
    requires
        shown.no_duplicates(),
        shown.len() <= usize::MAX,
        ord.len() <= usize::MAX,
        forall|i: int| 0 <= i < ord.len() ==> loc[(#[trigger] ord[i]) as int].0 < shown.len(),
        json_rows(files, shown, loc, ord, scores) == Ok::<Seq<u8>, RenderFault>(raw),
        scores_are_numbers(loc, ord, scores),
        paths_read_back(raw),
        counts_of(served, hit_paths(pieces(raw, 10u8))),
        file_counts_of(local, shown, files_with_hits(ord, loc, shown.len() as int)),
    ensures
        served == local,
{
    let hits = sent_hits(files, shown, loc, ord);
    let texts = sent_scores(loc, ord, scores);
    lemma_sent(files, shown, loc, ord, scores, None);
    assert forall|k: int| 0 <= k < texts.len() implies is_json_number(#[trigger] texts[k]) by {
        assert(is_json_number(scores[loc[ord[k] as int].0 as int][loc[ord[k] as int].1 as int]));
    }
    lemma_wire_pieces(hits, texts);
    let all = pieces(raw, 10u8);
    let lines = wire_lines(hits, texts);
    assert forall|k: int| 0 <= k < hits.len() implies (#[trigger] lines[k]).len() > 0 && !is_ctx_line(lines[k])
        && json_str_member(lines[k], "path"@) == Some(hits[k].path) by {
        let h = hits[k];
        assert(all[k] == lines[k]);
        assert(path_reads_back(all[k]));
        assert(lines[k] == wire_line(h.path, h.line, h.text, texts[k], false));
        lemma_wire_line(h.path, h.line, h.text, texts[k], false);
    }
    lemma_sent_paths(lines, hits);
    assert(all.drop_last() =~= lines);
    assert(hit_paths(all) == hit_paths(lines));
    assert(Seq::new(hits.len(), |k: int| hits[k].path) =~= ordered_paths(shown, loc, ord));
    law_local_counts_count_paths(local, shown, loc, ord);
    law_counts_are_unique(served, local, ordered_paths(shown, loc, ord));
}

// ---- whole replies ----

proof fn lemma_hits_all_count(hits: Seq<WireView>)
    ensures
        hits_among(hits, false) == hits.len(),
    decreases hits.len(),
{
    if hits.len() > 0 {
        lemma_hits_all_count(hits.drop_last());
    }
}

/// A client that reads a daemon's reply line by line to its end shows the rows that a
/// local search shows, and counts every hit: the lines are those of the bytes that the
/// daemon rendered, and the last line.
pub proof fn law_read_reply_shows_local_rows(
    files: Seq<FileHits>,
    shown: Seq<Seq<char>>,
    loc: Seq<(usize, usize)>,
    ord: Seq<usize>,
    scores: Seq<Seq<Seq<u8>>>,
    raw: Seq<u8>,
    lines: Seq<Seq<char>>,
    done: Seq<char>,
    ms: u64,
    verify_error: bool,
    color: Option<(Seq<char>, MatcherConfig)>,
)
    requires
        json_rows(files, shown, loc, ord, scores) == Ok::<Seq<u8>, RenderFault>(raw),
        scores_are_numbers(loc, ord, scores),
        lines_read_back(raw),
        lines.len() + 1 == pieces(raw, 10u8).len(),
        forall|k: int|
            0 <= k < lines.len() ==> encode_utf8(#[trigger] lines[k]) == pieces(raw, 10u8)[k].push(10u8),
        encode_utf8(done) == done_line_of(ms, false, verify_error),
    ensures
        reply_after_all(fresh_reply(), lines.push(done), false) == (ReplyState {
            raw,
            matches: ord.len(),
            refused: None,
            ctx_echo: false,
            verify_error,
        }),
        wire_text(wire_hits(pieces(raw, 10u8)), color) == text_rows(files, shown, loc, ord, color),
{
    let hits = sent_hits(files, shown, loc, ord);
    let texts = sent_scores(loc, ord, scores);
    lemma_sent(files, shown, loc, ord, scores, color);
    assert forall|k: int| 0 <= k < texts.len() implies is_json_number(#[trigger] texts[k]) by {
        assert(is_json_number(scores[loc[ord[k] as int].0 as int][loc[ord[k] as int].1 as int]));
    }
    lemma_wire_pieces(hits, texts);
    assert(are_wire_texts(lines, hits, texts)) by {
        assert forall|k: int| 0 <= k < lines.len() implies encode_utf8(#[trigger] lines[k]) == wire_line(
            hits[k].path,
            hits[k].line,
            hits[k].text,
            texts[k],
            hits[k].ctx,
        ).push(10u8) && is_json_number(texts[k]) by {
            assert(pieces(raw, 10u8)[k] == wire_lines(hits, texts)[k]);
        }
    }
    law_written_reply_is_kept(lines, hits, texts, done, ms, false, verify_error, false);
    lemma_hits_all_count(hits);
    law_served_text_is_local_text(files, shown, loc, ord, scores, raw, color);
}

} // verus!
