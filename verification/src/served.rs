//! The client's side of the wire: lines that a daemon sends, and what is shown.

use crate::context::{compute_groups, groups_of};
use crate::counts::{count_paths, counts_of};
use crate::emit::{
    counts_view, ctx_json, emit_ctx_row, hit_json, json_bytes, law_json_hit_is_one_line, no_newline, push_text,
    text_row,
};
use crate::hits::FileHits;
use crate::matcher::{build_matcher_opts, compile_outcome, config_attempts, LineMatcher, MatcherConfig};
use crate::render::{bytes_agree, color_of, hit_row, hit_text, json_rows, push_hit_row, text_rows, RenderFault};
use crate::text::{byte_piece_ranges, pieces, pieces_from, ranges_of, views};
use vstd::prelude::*;
use vstd::utf8::encode_utf8;

verus! {

// ---- JSON members ----

/// The string member of a JSON object, as `serde_json` reads it.
pub uninterp spec fn json_str_member(line: Seq<u8>, key: Seq<char>) -> Option<Seq<char>>;

/// The unsigned member of a JSON object, as `serde_json` reads it.
pub uninterp spec fn json_u64_member(line: Seq<u8>, key: Seq<char>) -> Option<u64>;

/// The truth member of a JSON object, as `serde_json` reads it.
pub uninterp spec fn json_bool_member(line: Seq<u8>, key: Seq<char>) -> Option<bool>;

/// Decimal digits, at least one and at most `max`.
pub open spec fn is_digit_run(s: Seq<u8>, max: nat) -> bool {
    0 < s.len() <= max && forall|k: int| 0 <= k < s.len() ==> 48 <= #[trigger] s[k] <= 57
}

/// A number as JSON writes it, of modest size: digits without a needless zero in
/// front, and behind them an optional fraction and an optional exponent.
pub open spec fn is_json_number(s: Seq<u8>) -> bool {
    exists|neg: bool, whole: Seq<u8>, frac: Seq<u8>, exp: Seq<u8>| #[trigger]
        is_number_made_of(s, neg, whole, frac, exp)
}

/// The parts of a number: sign, whole part, fraction with its point, exponent with
/// its letter and sign.
pub open spec fn is_number_made_of(s: Seq<u8>, neg: bool, whole: Seq<u8>, frac: Seq<u8>, exp: Seq<u8>) -> bool {
    &&& s == (if neg {
        seq![45u8]
    } else {
        Seq::empty()
    }) + whole + frac + exp
    &&& is_digit_run(whole, 20)
    &&& whole.len() > 1 ==> whole[0] != 48
    &&& frac.len() == 0 || (frac[0] == 46 && is_digit_run(frac.drop_first(), 40))
    &&& exp.len() == 0 || (exp[0] == 101 && (is_digit_run(exp.drop_first(), 2) || (exp.len() > 1 && exp[1] == 45
        && is_digit_run(exp.skip(2), 2))))
}

/// The line that a daemon sends for a hit or, marked, for a context line, without
/// its newline.
pub open spec fn wire_line(path: Seq<char>, line: u64, text: Seq<char>, score: Seq<u8>, ctx: bool) -> Seq<u8> {
    (if ctx {
        ctx_json(json_bytes(encode_utf8(path)), line, text, score)
    } else {
        hit_json(json_bytes(encode_utf8(path)), line, text, score)
    }).drop_last()
}

/// Of a written line, the members `path` and `text` are what was written.
pub open spec fn gives_back_text(bytes: Seq<u8>, key: Seq<char>, res: Option<String>) -> bool {
    forall|path: Seq<char>, line: u64, text: Seq<char>, score: Seq<u8>, ctx: bool|
        bytes == #[trigger] wire_line(path, line, text, score, ctx) && is_json_number(score) ==> (key == "path"@ ==> (
        res matches Some(s) && s@ == path)) && (key == "text"@ ==> (res matches Some(s) && s@ == text))
}

/// Of a written line, the member `line` is the number that was written.
pub open spec fn gives_back_number(bytes: Seq<u8>, key: Seq<char>, res: Option<u64>) -> bool {
    forall|path: Seq<char>, line: u64, text: Seq<char>, score: Seq<u8>, ctx: bool|
        bytes == #[trigger] wire_line(path, line, text, score, ctx) && is_json_number(score) && key == "line"@ ==> res
            == Some(line)
}

/// Of a written line, the member `ctx` is true on a context line and missing on a
/// hit.
pub open spec fn gives_back_mark(bytes: Seq<u8>, key: Seq<char>, res: Option<bool>) -> bool {
    forall|path: Seq<char>, line: u64, text: Seq<char>, score: Seq<u8>, ctx: bool|
        bytes == #[trigger] wire_line(path, line, text, score, ctx) && is_json_number(score) && key == "ctx"@ ==> res
            == (if ctx {
            Some(true)
        } else {
            None
        })
}

/// The string member `key` of a JSON line. `serde_json::from_slice` into a `Value`
/// depends on the bytes alone; a line that is no JSON object, or whose member is no
/// string, has none. Of a line that a daemon writes, `path` and `text` are the path
/// and the text that were written.
#[verifier::external_body]
pub(crate) fn json_str(line: &[u8], key: &str) -> (res: Option<String>)
    ensures
        match res {
            Some(s) => json_str_member(line@, key@) == Some(s@),
            None => json_str_member(line@, key@) is None,
        },
        gives_back_text(line@, key@, res),
{
    let value: serde_json::Value = serde_json::from_slice(line).ok()?;
    value.get(key)?.as_str().map(String::from)
}

/// The unsigned member `key` of a JSON line, as above. Of a line that a daemon
/// writes, `line` is the number that was written.
#[verifier::external_body]
fn json_u64(line: &[u8], key: &str) -> (res: Option<u64>)
    ensures
        res == json_u64_member(line@, key@),
        gives_back_number(line@, key@, res),
{
    let value: serde_json::Value = serde_json::from_slice(line).ok()?;
    value.get(key)?.as_u64()
}

/// The truth member `key` of a JSON line, as above. Of a line that a daemon writes,
/// `ctx` is true on a context line and missing on a hit.
#[verifier::external_body]
pub(crate) fn json_bool(line: &[u8], key: &str) -> (res: Option<bool>)
    ensures
        res == json_bool_member(line@, key@),
        gives_back_mark(line@, key@, res),
{
    let value: serde_json::Value = serde_json::from_slice(line).ok()?;
    value.get(key)?.as_bool()
}

// ---- hits on the wire ----

/// A hit or context line as received.
pub struct WireHit {
    pub path: String,
    pub line: u64,
    pub text: String,
    pub ctx: bool,
}

/// A hit or context line as received.
pub struct WireView {
    pub path: Seq<char>,
    pub line: u64,
    pub text: Seq<char>,
    pub ctx: bool,
}

impl View for WireHit {
    type V = WireView;

    open spec fn view(&self) -> WireView {
        WireView { path: self.path@, line: self.line, text: self.text@, ctx: self.ctx }
    }
}

/// The line is marked as context.
pub open spec fn is_ctx_line(line: Seq<u8>) -> bool {
    json_bool_member(line, "ctx"@) == Some(true)
}

/// The hit that a line carries: it needs a path, a line and a text.
pub open spec fn wire_hit(line: Seq<u8>) -> Option<WireView> {
    match (json_str_member(line, "path"@), json_u64_member(line, "line"@), json_str_member(line, "text"@)) {
        (Some(path), Some(n), Some(text)) => Some(WireView { path, line: n, text, ctx: is_ctx_line(line) }),
        _ => None,
    }
}

/// A line that a daemon wrote carries what was written.
pub open spec fn reads_back(bytes: Seq<u8>) -> bool {
    forall|path: Seq<char>, line: u64, text: Seq<char>, score: Seq<u8>, ctx: bool|
        bytes == #[trigger] wire_line(path, line, text, score, ctx) && is_json_number(score) ==> wire_hit(bytes) == Some(
            WireView { path, line, text, ctx },
        )
}

/// Every line that a daemon wrote carries what was written.
pub open spec fn lines_read_back(raw: Seq<u8>) -> bool {
    forall|k: int| 0 <= k < pieces(raw, 10u8).len() ==> reads_back(#[trigger] pieces(raw, 10u8)[k])
}

/// Read a line of the wire. A line that a daemon writes gives back what was
/// written.
pub fn read_wire_line(line: &[u8]) -> (res: Option<WireHit>)
    ensures
        match res {
            Some(h) => wire_hit(line@) == Some(h@),
            None => wire_hit(line@) is None,
        },
        forall|path: Seq<char>, n: u64, text: Seq<char>, score: Seq<u8>, ctx: bool|
            line@ == #[trigger] wire_line(path, n, text, score, ctx) && is_json_number(score) ==> (
            res matches Some(h) && h@ == (WireView { path, line: n, text, ctx })),
        reads_back(line@),
{
    let ctx: Option<bool> = json_bool(line, "ctx");
    let marked: bool = match ctx {
        Some(b) => b,
        None => false,
    };
    match (json_str(line, "path"), json_u64(line, "line"), json_str(line, "text")) {
        (Some(path), Some(n), Some(text)) => Some(WireHit { path, line: n, text, ctx: marked }),
        _ => None,
    }
}

/// A line that a daemon wrote for a hit is not marked as context and gives back the
/// path that was written.
pub open spec fn path_reads_back(bytes: Seq<u8>) -> bool {
    forall|path: Seq<char>, line: u64, text: Seq<char>, score: Seq<u8>|
        bytes == #[trigger] wire_line(path, line, text, score, false) && is_json_number(score) ==> !is_ctx_line(bytes)
            && json_str_member(bytes, "path"@) == Some(path)
}

/// Every line that a daemon wrote for a hit gives back its path.
pub open spec fn paths_read_back(raw: Seq<u8>) -> bool {
    forall|k: int| 0 <= k < pieces(raw, 10u8).len() ==> path_reads_back(#[trigger] pieces(raw, 10u8)[k])
}

/// A line that a daemon wrote is marked as context where it was written so.
pub open spec fn mark_reads_back(bytes: Seq<u8>) -> bool {
    forall|path: Seq<char>, line: u64, text: Seq<char>, score: Seq<u8>, ctx: bool|
        bytes == #[trigger] wire_line(path, line, text, score, ctx) && is_json_number(score) ==> is_ctx_line(bytes) == ctx
}

/// Whether a line is marked as context. A line that a daemon writes is marked as it
/// was written.
pub fn line_is_context(line: &[u8]) -> (b: bool)
    ensures
        b == is_ctx_line(line@),
        mark_reads_back(line@),
{
    match json_bool(line, "ctx") {
        Some(b) => b,
        None => false,
    }
}

/// The hits of received lines, in order; lines that carry none are passed over.
pub open spec fn wire_hits(lines: Seq<Seq<u8>>) -> Seq<WireView>
    decreases lines.len(),
{
    if lines.len() == 0 {
        Seq::empty()
    } else {
        let front = wire_hits(lines.drop_last());
        if lines.last().len() == 0 {
            front
        } else {
            match wire_hit(lines.last()) {
                Some(h) => front.push(h),
                None => front,
            }
        }
    }
}

/// Received hits.
pub open spec fn hits_view(v: Seq<WireHit>) -> Seq<WireView> {
    Seq::new(v.len(), |k: int| v[k]@)
}

proof fn lemma_nothing_reads_back(bytes: Seq<u8>)
    requires
        bytes.len() == 0,
    ensures
        reads_back(bytes),
        path_reads_back(bytes),
{
    assert forall|path: Seq<char>, line: u64, text: Seq<char>, score: Seq<u8>|
        bytes == #[trigger] wire_line(path, line, text, score, false) && is_json_number(score) implies !is_ctx_line(bytes)
        && json_str_member(bytes, "path"@) == Some(path) by {
        lemma_wire_line(path, line, text, score, false);
    }
    assert forall|path: Seq<char>, line: u64, text: Seq<char>, score: Seq<u8>, ctx: bool|
        bytes == #[trigger] wire_line(path, line, text, score, ctx) && is_json_number(score) implies wire_hit(bytes)
        == Some(WireView { path, line, text, ctx }) by {
        lemma_wire_line(path, line, text, score, ctx);
    }
}

/// Read all lines of the wire.
fn read_wire(raw: &[u8]) -> (out: Vec<WireHit>)
    ensures
        hits_view(out@) == wire_hits(pieces(raw@, 10u8)),
        lines_read_back(raw@),
{
    let ranges: Vec<(usize, usize)> = byte_piece_ranges(raw, 10);
    let ghost lines = ranges_of(raw@, ranges@);
    let mut out: Vec<WireHit> = Vec::new();
    let mut k: usize = 0;
    assert(hits_view(out@) =~= Seq::empty());
    while k < ranges.len()
        invariant
            k <= ranges@.len(),
            lines == ranges_of(raw@, ranges@),
            forall|x: int| 0 <= x < ranges@.len() ==> (#[trigger] ranges@[x]).0 <= ranges@[x].1 <= raw@.len(),
            hits_view(out@) == wire_hits(lines.take(k as int)),
            forall|x: int| 0 <= x < k ==> reads_back(#[trigger] lines[x]),
        decreases ranges@.len() - k,
    {
        let from: usize = ranges[k].0;
        let to: usize = ranges[k].1;
        proof {
            assert(lines.take(k + 1).drop_last() =~= lines.take(k as int));
            assert(lines.take(k + 1).last() == raw@.subrange(from as int, to as int));
            if from == to {
                lemma_nothing_reads_back(lines[k as int]);
            }
        }
        if from < to {
            if let Some(h) = read_wire_line(&raw[from..to]) {
                let ghost had = hits_view(out@);
                out.push(h);
                assert(hits_view(out@) =~= had.push(h@));
            }
        }
        k = k + 1;
    }
    assert(lines.take(k as int) =~= lines);
    out
}

// ---- what a daemon writes ----

/// The bytes in which a daemon sends hits and context lines.
pub open spec fn wire_bytes(hits: Seq<WireView>, scores: Seq<Seq<u8>>) -> Seq<u8>
    decreases hits.len(),
{
    if hits.len() == 0 {
        Seq::empty()
    } else {
        let h = hits.last();
        wire_bytes(hits.drop_last(), scores.drop_last()) + wire_line(h.path, h.line, h.text, scores.last(), h.ctx).push(
            10u8,
        )
    }
}

proof fn lemma_number_is_no_newline(s: Seq<u8>)
    requires
        is_json_number(s),
    ensures
        no_newline(s),
{
    let (neg, whole, frac, exp) = choose|neg: bool, whole: Seq<u8>, frac: Seq<u8>, exp: Seq<u8>| #[trigger]
        is_number_made_of(s, neg, whole, frac, exp);
    let sign = if neg {
        seq![45u8]
    } else {
        Seq::empty()
    };
    assert forall|i: int| 0 <= i < s.len() implies #[trigger] s[i] != 10u8 by {
        let a = i - sign.len();
        let b = a - whole.len();
        let c = b - frac.len();
        if a < 0 {
            assert(s[i] == sign[i]);
        } else if b < 0 {
            assert(s[i] == whole[a]);
        } else if c < 0 {
            assert(s[i] == frac[b]);
            if b > 0 {
                assert(frac[b] == frac.drop_first()[b - 1]);
            }
        } else {
            assert(s[i] == exp[c]);
            if c > 0 {
                assert(exp[c] == exp.drop_first()[c - 1]);
            }
            if c > 1 {
                assert(exp[c] == exp.skip(2)[c - 2]);
            }
        }
    }
}

pub proof fn lemma_wire_line(path: Seq<char>, line: u64, text: Seq<char>, score: Seq<u8>, ctx: bool)
    requires
        is_json_number(score),
    ensures
        wire_line(path, line, text, score, ctx).len() > 0,
        no_newline(wire_line(path, line, text, score, ctx)),
        wire_line(path, line, text, score, ctx).push(10u8) == (if ctx {
            ctx_json(json_bytes(encode_utf8(path)), line, text, score)
        } else {
            hit_json(json_bytes(encode_utf8(path)), line, text, score)
        }),
{
    lemma_number_is_no_newline(score);
    law_json_hit_is_one_line(encode_utf8(path), line, text, score);
    let full = if ctx {
        ctx_json(json_bytes(encode_utf8(path)), line, text, score)
    } else {
        hit_json(json_bytes(encode_utf8(path)), line, text, score)
    };
    assert(full.drop_last().push(10u8) =~= full);
    let (neg, whole, frac, exp) = choose|neg: bool, whole: Seq<u8>, frac: Seq<u8>, exp: Seq<u8>| #[trigger]
        is_number_made_of(score, neg, whole, frac, exp);
    assert(score.len() > 0);
    reveal_strlit("}\n");
    reveal_strlit(",\"ctx\":true}\n");
    vstd::utf8::is_ascii_chars_encode_utf8("}\n"@);
    vstd::utf8::is_ascii_chars_encode_utf8(",\"ctx\":true}\n"@);
}

proof fn lemma_pieces_append(s: Seq<u8>, t: Seq<u8>, sep: u8, start: int, i: int)
    requires
        0 <= start <= i <= s.len(),
    ensures
        pieces_from(s, sep, start, i).len() > 0,
        pieces_from(s, sep, start, i).last().len() <= s.len(),
        pieces_from(s + t, sep, start, i) == pieces_from(s, sep, start, i).drop_last() + pieces_from(
            s + t,
            sep,
            s.len() - pieces_from(s, sep, start, i).last().len(),
            s.len() as int,
        ),
    decreases s.len() - i,
{
    let all = s + t;
    let had = pieces_from(s, sep, start, i);
    if i == s.len() {
        assert(had =~= seq![s.subrange(start, s.len() as int)]);
        assert(had.drop_last() =~= Seq::empty());
        assert(had.drop_last() + pieces_from(all, sep, start, i) =~= pieces_from(all, sep, start, i));
    } else {
        assert(all[i] == s[i]);
        if s[i] == sep {
            lemma_pieces_append(s, t, sep, i + 1, i + 1);
            let more = pieces_from(s, sep, i + 1, i + 1);
            let piece = s.subrange(start, i);
            assert(all.subrange(start, i) =~= piece);
            assert(had =~= seq![piece] + more);
            assert(had.drop_last() =~= seq![piece] + more.drop_last());
            let rest = pieces_from(all, sep, s.len() - more.last().len(), s.len() as int);
            assert(seq![piece] + (more.drop_last() + rest) =~= seq![piece] + more.drop_last() + rest);
        } else {
            lemma_pieces_append(s, t, sep, start, i + 1);
        }
    }
}

proof fn lemma_last_line(s: Seq<u8>, sep: u8, start: int, i: int)
    requires
        0 <= start <= i < s.len(),
        s.last() == sep,
        forall|k: int| i <= k < s.len() - 1 ==> #[trigger] s[k] != sep,
    ensures
        pieces_from(s, sep, start, i) == seq![s.subrange(start, s.len() - 1), Seq::empty()],
    decreases s.len() - i,
{
    if i == s.len() - 1 {
        assert(s.subrange(i + 1, s.len() as int) =~= Seq::empty());
        assert(pieces_from(s, sep, i + 1, i + 1) =~= seq![Seq::empty()]);
        assert(pieces_from(s, sep, start, i) =~= seq![s.subrange(start, i), Seq::empty()]);
    } else {
        lemma_last_line(s, sep, start, i + 1);
    }
}

/// The lines that a daemon sends, one for each hit or context line.
pub open spec fn wire_lines(hits: Seq<WireView>, scores: Seq<Seq<u8>>) -> Seq<Seq<u8>> {
    Seq::new(
        hits.len(),
        |k: int| wire_line(hits[k].path, hits[k].line, hits[k].text, scores[k], hits[k].ctx),
    )
}

pub proof fn lemma_wire_pieces(hits: Seq<WireView>, scores: Seq<Seq<u8>>)
    requires
        scores.len() == hits.len(),
        forall|k: int| 0 <= k < scores.len() ==> is_json_number(#[trigger] scores[k]),
    ensures
        pieces(wire_bytes(hits, scores), 10u8) == wire_lines(hits, scores).push(Seq::empty()),
    decreases hits.len(),
{
    let all = wire_bytes(hits, scores);
    if hits.len() == 0 {
        assert(all.subrange(0, 0) =~= Seq::empty());
        assert(pieces(all, 10u8) =~= wire_lines(hits, scores).push(Seq::empty()));
    } else {
        let h = hits.last();
        let front = wire_bytes(hits.drop_last(), scores.drop_last());
        let line = wire_line(h.path, h.line, h.text, scores.last(), h.ctx);
        lemma_wire_pieces(hits.drop_last(), scores.drop_last());
        lemma_wire_line(h.path, h.line, h.text, scores.last(), h.ctx);
        lemma_pieces_append(front, line.push(10u8), 10u8, 0, 0);
        assert forall|k: int| front.len() <= k < all.len() - 1 implies #[trigger] all[k] != 10u8 by {
            assert(all[k] == line[k - front.len()]);
        }
        lemma_last_line(all, 10u8, front.len() as int, front.len() as int);
        assert(all.subrange(front.len() as int, all.len() - 1) =~= line);
        let had = wire_lines(hits.drop_last(), scores.drop_last());
        assert(had.push(Seq::empty()).drop_last() =~= had);
        assert(wire_lines(hits, scores) =~= had.push(line));
        assert(had + seq![line, Seq::empty()] =~= had.push(line).push(Seq::empty()));
    }
}

/// A client reads back the hits and context lines that a daemon sent, in order and
/// with the same path, line, text and mark.
pub proof fn law_sent_hits_are_received(hits: Seq<WireView>, scores: Seq<Seq<u8>>)
    requires
        scores.len() == hits.len(),
        forall|k: int| 0 <= k < scores.len() ==> is_json_number(#[trigger] scores[k]),
        lines_read_back(wire_bytes(hits, scores)),
    ensures
        wire_hits(pieces(wire_bytes(hits, scores), 10u8)) == hits,
{
    let lines = wire_lines(hits, scores);
    let all = pieces(wire_bytes(hits, scores), 10u8);
    lemma_wire_pieces(hits, scores);
    assert forall|k: int| 0 <= k < lines.len() implies reads_back(#[trigger] lines[k]) by {
        assert(all[k] == lines[k]);
    }
    lemma_received(hits, scores, hits.len() as int);
    assert(lines.take(hits.len() as int) =~= lines);
    assert(hits.take(hits.len() as int) =~= hits);
    assert(all.drop_last() =~= lines);
}

proof fn lemma_received(hits: Seq<WireView>, scores: Seq<Seq<u8>>, n: int)
    requires
        0 <= n <= hits.len(),
        scores.len() == hits.len(),
        forall|k: int| 0 <= k < scores.len() ==> is_json_number(#[trigger] scores[k]),
        forall|k: int| 0 <= k < hits.len() ==> reads_back(#[trigger] wire_lines(hits, scores)[k]),
    ensures
        wire_hits(wire_lines(hits, scores).take(n)) == hits.take(n),
    decreases n,
{
    let lines = wire_lines(hits, scores);
    if n > 0 {
        let h = hits[n - 1];
        lemma_received(hits, scores, n - 1);
        assert(lines.take(n).drop_last() =~= lines.take(n - 1));
        assert(lines.take(n).last() == lines[n - 1]);
        assert(reads_back(lines[n - 1]));
        assert(lines[n - 1] == wire_line(h.path, h.line, h.text, scores[n - 1], h.ctx));
        lemma_wire_line(h.path, h.line, h.text, scores[n - 1], h.ctx);
        assert(hits.take(n) =~= hits.take(n - 1).push(h));
    }
}

// ---- counts ----

/// The paths of the received hits, context left out.
pub open spec fn hit_paths(lines: Seq<Seq<u8>>) -> Seq<Seq<char>>
    decreases lines.len(),
{
    if lines.len() == 0 {
        Seq::empty()
    } else {
        let front = hit_paths(lines.drop_last());
        if lines.last().len() == 0 || is_ctx_line(lines.last()) {
            front
        } else {
            match json_str_member(lines.last(), "path"@) {
                Some(p) => front.push(p),
                None => front,
            }
        }
    }
}

/// Count the received hits per path, in byte order of the path. Context lines never
/// count.
pub fn served_path_counts(raw: &[u8]) -> (rows: Vec<(String, usize)>)
    ensures
        counts_of(counts_view(rows@), hit_paths(pieces(raw@, 10u8))),
        paths_read_back(raw@),
{
    let ranges: Vec<(usize, usize)> = byte_piece_ranges(raw, 10);
    let ghost lines = ranges_of(raw@, ranges@);
    let mut paths: Vec<String> = Vec::new();
    let mut k: usize = 0;
    assert(views(paths@) =~= Seq::empty());
    while k < ranges.len()
        invariant
            k <= ranges@.len(),
            lines == ranges_of(raw@, ranges@),
            forall|x: int| 0 <= x < ranges@.len() ==> (#[trigger] ranges@[x]).0 <= ranges@[x].1 <= raw@.len(),
            views(paths@) == hit_paths(lines.take(k as int)),
            forall|x: int| 0 <= x < k ==> path_reads_back(#[trigger] lines[x]),
        decreases ranges@.len() - k,
    {
        let from: usize = ranges[k].0;
        let to: usize = ranges[k].1;
        proof {
            assert(lines.take(k + 1).drop_last() =~= lines.take(k as int));
            assert(lines.take(k + 1).last() == raw@.subrange(from as int, to as int));
            if from == to {
                lemma_nothing_reads_back(lines[k as int]);
            }
        }
        if from < to {
            let line: &[u8] = &raw[from..to];
            if !line_is_context(line) {
                if let Some(p) = json_str(line, "path") {
                    let ghost had = views(paths@);
                    paths.push(p);
                    assert(views(paths@) =~= had.push(p@));
                }
            }
        }
        k = k + 1;
    }
    assert(lines.take(k as int) =~= lines);
    count_paths(&paths)
}

/// Number of distinct files among the received hits.
pub fn served_file_count(raw: &[u8]) -> (n: usize)
    ensures
        exists|rows: Seq<(Seq<char>, usize)>| #[trigger] counts_of(rows, hit_paths(pieces(raw@, 10u8))) && n == rows.len(),
{
    let rows: Vec<(String, usize)> = served_path_counts(raw);
    assert(counts_view(rows@).len() == rows@.len());
    rows.len()
}

// ---- text ----

/// The rows of received hits.
pub open spec fn wire_text(hits: Seq<WireView>, color: Option<(Seq<char>, MatcherConfig)>) -> Result<
    Seq<u8>,
    RenderFault,
>
    decreases hits.len(),
{
    if hits.len() == 0 {
        Ok(Seq::empty())
    } else {
        match wire_text(hits.drop_last(), color) {
            Err(e) => Err(e),
            Ok(front) => match hit_row(hits.last().path, hits.last().line, hits.last().text, color) {
                Err(e) => Err(e),
                Ok(row) => Ok(front + row),
            },
        }
    }
}

proof fn lemma_wire_text_fault(hits: Seq<WireView>, color: Option<(Seq<char>, MatcherConfig)>, k: int)
    requires
        0 <= k <= hits.len(),
        wire_text(hits.take(k), color) is Err,
    ensures
        wire_text(hits, color) == wire_text(hits.take(k), color),
    decreases hits.len() - k,
{
    if k == hits.len() {
        assert(hits.take(k) =~= hits);
    } else {
        assert(hits.take(k + 1).drop_last() =~= hits.take(k));
        lemma_wire_text_fault(hits, color, k + 1);
    }
}

proof fn lemma_plain_text_never_fails(hits: Seq<WireView>)
    ensures
        wire_text(hits, None) is Ok,
    decreases hits.len(),
{
    if hits.len() > 0 {
        lemma_plain_text_never_fails(hits.drop_last());
    }
}

/// Every ordered hit has a number for its score.
pub open spec fn scores_are_numbers(loc: Seq<(usize, usize)>, ord: Seq<usize>, scores: Seq<Seq<Seq<u8>>>) -> bool {
    forall|i: int|
        0 <= i < ord.len() ==> is_json_number(scores[loc[(#[trigger] ord[i]) as int].0 as int][loc[ord[i] as int].1 as int])
}

/// The ordered hits as they travel.
pub open spec fn sent_hits(files: Seq<FileHits>, shown: Seq<Seq<char>>, loc: Seq<(usize, usize)>, ord: Seq<usize>) -> Seq<
    WireView,
> {
    Seq::new(
        ord.len(),
        |i: int|
            {
                let (f, k) = loc[ord[i] as int];
                let m = files[f as int].metas@[k as int];
                WireView {
                    path: shown[f as int],
                    line: m.line,
                    text: hit_text(files[f as int], m)->Ok_0,
                    ctx: false,
                }
            },
    )
}

/// The scores of the ordered hits.
pub open spec fn sent_scores(loc: Seq<(usize, usize)>, ord: Seq<usize>, scores: Seq<Seq<Seq<u8>>>) -> Seq<Seq<u8>> {
    Seq::new(ord.len(), |i: int| scores[loc[ord[i] as int].0 as int][loc[ord[i] as int].1 as int])
}

pub proof fn lemma_sent(
    files: Seq<FileHits>,
    shown: Seq<Seq<char>>,
    loc: Seq<(usize, usize)>,
    ord: Seq<usize>,
    scores: Seq<Seq<Seq<u8>>>,
    color: Option<(Seq<char>, MatcherConfig)>,
)
    requires
        json_rows(files, shown, loc, ord, scores) is Ok,
        scores_are_numbers(loc, ord, scores),
    ensures
        json_rows(files, shown, loc, ord, scores)->Ok_0 == wire_bytes(
            sent_hits(files, shown, loc, ord),
            sent_scores(loc, ord, scores),
        ),
        wire_text(sent_hits(files, shown, loc, ord), color) == text_rows(files, shown, loc, ord, color),
    decreases ord.len(),
{
    let hits = sent_hits(files, shown, loc, ord);
    let texts = sent_scores(loc, ord, scores);
    if ord.len() > 0 {
        let front = ord.drop_last();
        let (f, k) = loc[ord.last() as int];
        let m = files[f as int].metas@[k as int];
        assert forall|i: int| 0 <= i < front.len() implies is_json_number(
            scores[loc[(#[trigger] front[i]) as int].0 as int][loc[front[i] as int].1 as int],
        ) by {
            assert(front[i] == ord[i]);
        }
        lemma_sent(files, shown, loc, front, scores, color);
        assert(hits.drop_last() =~= sent_hits(files, shown, loc, front));
        assert(texts.drop_last() =~= sent_scores(loc, front, scores));
        assert(ord[ord.len() - 1] == ord.last());
        lemma_wire_line(shown[f as int], m.line, hits.last().text, texts.last(), false);
    }
}

/// What a client shows of the hits that a daemon sent is what a local search shows
/// of them: the same rows, in the same order.
pub proof fn law_served_text_is_local_text(
    files: Seq<FileHits>,
    shown: Seq<Seq<char>>,
    loc: Seq<(usize, usize)>,
    ord: Seq<usize>,
    scores: Seq<Seq<Seq<u8>>>,
    raw: Seq<u8>,
    color: Option<(Seq<char>, MatcherConfig)>,
)
    requires
        json_rows(files, shown, loc, ord, scores) == Ok::<Seq<u8>, RenderFault>(raw),
        scores_are_numbers(loc, ord, scores),
        lines_read_back(raw),
    ensures
        wire_text(wire_hits(pieces(raw, 10u8)), color) == text_rows(files, shown, loc, ord, color),
{
    lemma_sent(files, shown, loc, ord, scores, color);
    let texts = sent_scores(loc, ord, scores);
    assert forall|k: int| 0 <= k < texts.len() implies is_json_number(#[trigger] texts[k]) by {
        assert(is_json_number(scores[loc[ord[k] as int].0 as int][loc[ord[k] as int].1 as int]));
    }
    law_sent_hits_are_received(sent_hits(files, shown, loc, ord), texts);
}

/// Of hits that a daemon sent, the rows are those of a local search.
pub open spec fn shows_local_rows(
    raw: Seq<u8>,
    color: Option<(Seq<char>, MatcherConfig)>,
    res: Result<Seq<u8>, RenderFault>,
) -> bool {
    forall|
        files: Seq<FileHits>,
        shown: Seq<Seq<char>>,
        loc: Seq<(usize, usize)>,
        ord: Seq<usize>,
        scores: Seq<Seq<Seq<u8>>>,
    |
        #[trigger] json_rows(files, shown, loc, ord, scores) == Ok::<Seq<u8>, RenderFault>(raw) && scores_are_numbers(
            loc,
            ord,
            scores,
        ) ==> res == text_rows(files, shown, loc, ord, color)
}

proof fn lemma_shows_local_rows(raw: Seq<u8>, color: Option<(Seq<char>, MatcherConfig)>)
    requires
        lines_read_back(raw),
    ensures
        shows_local_rows(raw, color, wire_text(wire_hits(pieces(raw, 10u8)), color)),
{
    assert forall|
        files: Seq<FileHits>,
        shown: Seq<Seq<char>>,
        loc: Seq<(usize, usize)>,
        ord: Seq<usize>,
        scores: Seq<Seq<Seq<u8>>>,
    |
        #[trigger] json_rows(files, shown, loc, ord, scores) == Ok::<Seq<u8>, RenderFault>(raw) && scores_are_numbers(
            loc,
            ord,
            scores,
        ) implies wire_text(wire_hits(pieces(raw, 10u8)), color) == text_rows(files, shown, loc, ord, color) by {
        law_served_text_is_local_text(files, shown, loc, ord, scores, raw, color);
    }
}

fn wire_to_text(raw: &[u8], matcher: Option<&LineMatcher>) -> (res: Result<Vec<u8>, RenderFault>)
    ensures
        bytes_agree(res, wire_text(wire_hits(pieces(raw@, 10u8)), color_of(matcher))),
        shows_local_rows(raw@, color_of(matcher), wire_text(wire_hits(pieces(raw@, 10u8)), color_of(matcher))),
{
    let hits: Vec<WireHit> = read_wire(raw);
    proof {
        lemma_shows_local_rows(raw@, color_of(matcher));
    }
    rows_of_hits(&hits, matcher)
}

/// Render hits as text rows.
fn rows_of_hits(hits: &[WireHit], matcher: Option<&LineMatcher>) -> (res: Result<Vec<u8>, RenderFault>)
    ensures
        bytes_agree(res, wire_text(hits_view(hits@), color_of(matcher))),
{
    let ghost all = hits_view(hits@);
    let ghost color = color_of(matcher);
    let mut out: Vec<u8> = Vec::new();
    let mut k: usize = 0;
    while k < hits.len()
        invariant
            k <= hits@.len(),
            all == hits_view(hits@),
            color == color_of(matcher),
            wire_text(all.take(k as int), color) == Ok::<Seq<u8>, RenderFault>(out@),
        decreases hits@.len() - k,
    {
        proof {
            assert(all.take(k + 1).drop_last() =~= all.take(k as int));
            assert(all.take(k + 1).last() == hits@[k as int]@);
        }
        match push_hit_row(&mut out, hits[k].path.as_str(), hits[k].line, hits[k].text.as_str(), matcher) {
            Err(e) => {
                proof {
                    lemma_wire_text_fault(all, color, k + 1);
                }
                return Err(e);
            },
            Ok(_) => {},
        }
        k = k + 1;
    }
    assert(all.take(k as int) =~= all);
    Ok(out)
}

/// Render received hits as text rows, in the order received: of hits that a daemon
/// sent, the rows that a local search shows.
pub fn json_hits_to_text(raw: &[u8]) -> (out: Vec<u8>)
    ensures
        wire_text(wire_hits(pieces(raw@, 10u8)), None) == Ok::<Seq<u8>, RenderFault>(out@),
        shows_local_rows(raw@, None, Ok(out@)),
{
    proof {
        lemma_plain_text_never_fails(wire_hits(pieces(raw@, 10u8)));
    }
    match wire_to_text(raw, None) {
        Ok(out) => out,
        Err(_) => Vec::new(),
    }
}

/// Render received hits as text rows with their matches highlighted.
pub fn json_hits_to_text_colored(raw: &[u8], matcher: &LineMatcher) -> (res: Result<Vec<u8>, RenderFault>)
    ensures
        bytes_agree(res, wire_text(wire_hits(pieces(raw@, 10u8)), Some(matcher@))),
        shows_local_rows(raw@, Some(matcher@), wire_text(wire_hits(pieces(raw@, 10u8)), Some(matcher@))),
{
    wire_to_text(raw, Some(matcher))
}

/// The settings under which the first attempt compiles, if any does.
pub open spec fn first_compiling(pattern: Seq<char>, attempts: Seq<MatcherConfig>) -> Option<MatcherConfig>
    decreases attempts.len(),
{
    if attempts.len() == 0 {
        None
    } else {
        match first_compiling(pattern, attempts.drop_last()) {
            Some(c) => Some(c),
            None => if compile_outcome(pattern, attempts.last()) is Ok {
                Some(attempts.last())
            } else {
                None
            },
        }
    }
}

proof fn lemma_first_compiling(pattern: Seq<char>, attempts: Seq<MatcherConfig>, n: int)
    requires
        0 <= n <= attempts.len(),
    ensures
        match first_compiling(pattern, attempts.take(n)) {
            Some(c) => exists|k: int|
                0 <= k < n && c == #[trigger] attempts[k] && compile_outcome(pattern, attempts[k]) is Ok
                    && forall|j: int| 0 <= j < k ==> compile_outcome(pattern, #[trigger] attempts[j]) is Err,
            None => forall|j: int| 0 <= j < n ==> compile_outcome(pattern, #[trigger] attempts[j]) is Err,
        },
    decreases n,
{
    if n > 0 {
        lemma_first_compiling(pattern, attempts, n - 1);
        assert(attempts.take(n).drop_last() =~= attempts.take(n - 1));
        assert(attempts.take(n).last() == attempts[n - 1]);
    }
}

/// What highlights received rows: the compiled query when color is on and it
/// compiles.
pub open spec fn served_color(
    pattern: Seq<char>,
    ignore_case: bool,
    word: bool,
    fixed: bool,
    color_on: bool,
) -> Option<(Seq<char>, MatcherConfig)> {
    if color_on {
        match first_compiling(pattern, config_attempts(pattern, ignore_case, word, fixed)) {
            Some(c) => Some((pattern, c)),
            None => None,
        }
    } else {
        None
    }
}

/// The matcher that highlights received rows.
pub fn served_matcher(pattern: &str, ignore_case: bool, word: bool, fixed: bool, color_on: bool) -> (m: Option<
    LineMatcher,
>)
    ensures
        match m {
            Some(m) => served_color(pattern@, ignore_case, word, fixed, color_on) == Some(m@),
            None => served_color(pattern@, ignore_case, word, fixed, color_on) is None,
        },
{
    if !color_on {
        return None;
    }
    let ghost attempts = config_attempts(pattern@, ignore_case, word, fixed);
    proof {
        lemma_first_compiling(pattern@, attempts, attempts.len() as int);
        assert(attempts.take(attempts.len() as int) =~= attempts);
    }
    match build_matcher_opts(pattern, ignore_case, word, fixed) {
        Ok(m) => {
            proof {
                let k = choose|k: int|
                    0 <= k < attempts.len() && m@ == (pattern@, #[trigger] attempts[k]) && compile_outcome(
                        pattern@,
                        attempts[k],
                    ) is Ok && forall|j: int| 0 <= j < k ==> compile_outcome(pattern@, #[trigger] attempts[j]) is Err;
                match first_compiling(pattern@, attempts) {
                    Some(c) => {
                        let i = choose|i: int|
                            0 <= i < attempts.len() && c == #[trigger] attempts[i] && compile_outcome(
                                pattern@,
                                attempts[i],
                            ) is Ok && forall|j: int|
                                0 <= j < i ==> compile_outcome(pattern@, #[trigger] attempts[j]) is Err;
                        if i < k {
                            assert(compile_outcome(pattern@, attempts[i]) is Err);
                        }
                        if k < i {
                            assert(compile_outcome(pattern@, attempts[k]) is Err);
                        }
                    },
                    None => {
                        assert(compile_outcome(pattern@, attempts[k]) is Err);
                    },
                }
            }
            Some(m)
        },
        Err(_) => None,
    }
}

/// Render received hits as text rows, highlighted when color is on and the query
/// compiles.
pub fn serve_text_out(
    raw: &[u8],
    pattern: &str,
    ignore_case: bool,
    word: bool,
    fixed: bool,
    color_on: bool,
) -> (res: Result<Vec<u8>, RenderFault>)
    ensures
        bytes_agree(
            res,
            wire_text(wire_hits(pieces(raw@, 10u8)), served_color(pattern@, ignore_case, word, fixed, color_on)),
        ),
        shows_local_rows(
            raw@,
            served_color(pattern@, ignore_case, word, fixed, color_on),
            wire_text(wire_hits(pieces(raw@, 10u8)), served_color(pattern@, ignore_case, word, fixed, color_on)),
        ),
{
    match served_matcher(pattern, ignore_case, word, fixed, color_on) {
        Some(m) => json_hits_to_text_colored(raw, &m),
        None => Ok(json_hits_to_text(raw)),
    }
}

// ---- context ----

/// The lines known of one file, ascending: number, text, and whether it is a hit.
pub type LineList = Seq<(u64, Seq<char>, bool)>;

/// Number of known lines before line `n`.
pub open spec fn lines_before(list: LineList, n: u64) -> nat
    decreases list.len(),
{
    if list.len() == 0 {
        0
    } else {
        lines_before(list.drop_last(), n) + (if list.last().0 < n {
            1nat
        } else {
            0
        })
    }
}

/// The lines with one more noted. A line that is known keeps its text, and is a hit
/// as soon as it was once received as one.
pub open spec fn line_noted(list: LineList, n: u64, text: Seq<char>, hit: bool) -> LineList {
    let at = lines_before(list, n) as int;
    if at < list.len() && list[at].0 == n {
        list.update(at, (n, list[at].1, list[at].2 || hit))
    } else {
        list.insert(at, (n, text, hit))
    }
}

/// The known lines per file, files as first met.
pub type FileList = Seq<(Seq<char>, LineList)>;

/// Position of a file among those met, or their number.
pub open spec fn file_position(files: FileList, path: Seq<char>) -> int
    decreases files.len(),
{
    if files.len() == 0 {
        0
    } else if files[0].0 == path {
        0
    } else {
        1 + file_position(files.drop_first(), path)
    }
}

/// The files with one more received line noted.
pub open spec fn file_noted(files: FileList, h: WireView) -> FileList {
    let at = file_position(files, h.path);
    if at < files.len() {
        files.update(at, (files[at].0, line_noted(files[at].1, h.line, h.text, !h.ctx)))
    } else {
        files.push((h.path, line_noted(Seq::empty(), h.line, h.text, !h.ctx)))
    }
}

/// What the received lines say of each file.
pub open spec fn files_noted(hits: Seq<WireView>) -> FileList
    decreases hits.len(),
{
    if hits.len() == 0 {
        Seq::empty()
    } else {
        file_noted(files_noted(hits.drop_last()), hits.last())
    }
}

/// The numbers of the lines that are hits.
pub open spec fn hit_lines(list: LineList) -> Seq<u64>
    decreases list.len(),
{
    if list.len() == 0 {
        Seq::empty()
    } else if list.last().2 {
        hit_lines(list.drop_last()).push(list.last().0)
    } else {
        hit_lines(list.drop_last())
    }
}

/// The row of a known line.
pub open spec fn known_row(
    path: Seq<char>,
    line: (u64, Seq<char>, bool),
    color: Option<(Seq<char>, MatcherConfig)>,
) -> Result<Seq<u8>, RenderFault> {
    if line.2 {
        hit_row(path, line.0, line.1, color)
    } else {
        Ok(text_row(path, line.0, 45, encode_utf8(line.1)))
    }
}

/// The rows of the known lines from `lo` to `hi`.
pub open spec fn known_rows(
    path: Seq<char>,
    list: LineList,
    lo: u64,
    hi: u64,
    color: Option<(Seq<char>, MatcherConfig)>,
) -> Result<Seq<u8>, RenderFault>
    decreases list.len(),
{
    if list.len() == 0 {
        Ok(Seq::empty())
    } else {
        match known_rows(path, list.drop_last(), lo, hi, color) {
            Err(e) => Err(e),
            Ok(front) => if lo <= list.last().0 <= hi {
                match known_row(path, list.last(), color) {
                    Err(e) => Err(e),
                    Ok(row) => Ok(front + row),
                }
            } else {
                Ok(front)
            },
        }
    }
}

/// The line between two groups of one file.
pub open spec fn separator(sep: Seq<char>) -> Seq<u8> {
    if sep.len() == 0 {
        Seq::empty()
    } else {
        encode_utf8(sep).push(10u8)
    }
}

/// The rows of the groups of one file.
pub open spec fn known_groups(
    path: Seq<char>,
    list: LineList,
    groups: Seq<(u64, u64)>,
    sep: Seq<char>,
    color: Option<(Seq<char>, MatcherConfig)>,
) -> Result<Seq<u8>, RenderFault>
    decreases groups.len(),
{
    if groups.len() == 0 {
        Ok(Seq::empty())
    } else {
        match known_groups(path, list, groups.drop_last(), sep, color) {
            Err(e) => Err(e),
            Ok(front) => match known_rows(path, list, groups.last().0, groups.last().1, color) {
                Err(e) => Err(e),
                Ok(rows) => Ok(
                    front + (if groups.len() > 1 {
                        separator(sep)
                    } else {
                        Seq::empty()
                    }) + rows,
                ),
            },
        }
    }
}

/// The rows of all files.
pub open spec fn known_files(
    files: FileList,
    before: usize,
    after: usize,
    sep: Seq<char>,
    color: Option<(Seq<char>, MatcherConfig)>,
) -> Result<Seq<u8>, RenderFault>
    decreases files.len(),
{
    if files.len() == 0 {
        Ok(Seq::empty())
    } else {
        let f = files.last();
        match known_files(files.drop_last(), before, after, sep, color) {
            Err(e) => Err(e),
            Ok(front) => match known_groups(f.0, f.1, groups_of(hit_lines(f.1), before, after), sep, color) {
                Err(e) => Err(e),
                Ok(rows) => Ok(front + rows),
            },
        }
    }
}

/// A known line.
struct KnownLine {
    number: u64,
    text: String,
    hit: bool,
}

/// What is known of one file.
struct KnownFile {
    path: String,
    lines: Vec<KnownLine>,
}

spec fn line_list(lines: Seq<KnownLine>) -> LineList {
    Seq::new(lines.len(), |k: int| (lines[k].number, lines[k].text@, lines[k].hit))
}

spec fn file_list(files: Seq<KnownFile>) -> FileList {
    Seq::new(files.len(), |k: int| (files[k].path@, line_list(files[k].lines@)))
}

/// Line numbers ascend.
pub open spec fn list_sorted(list: LineList) -> bool {
    forall|i: int, j: int| 0 <= i < j < list.len() ==> (#[trigger] list[i]).0 < (#[trigger] list[j]).0
}

pub proof fn lemma_lines_before(list: LineList, n: u64, k: int)
    requires
        list_sorted(list),
        0 <= k <= list.len(),
        forall|i: int| 0 <= i < k ==> (#[trigger] list[i]).0 < n,
        k < list.len() ==> list[k].0 >= n,
    ensures
        lines_before(list, n) == k,
    decreases list.len(),
{
    if list.len() > 0 {
        let front = list.drop_last();
        assert(list_sorted(front)) by {
            assert forall|i: int, j: int| 0 <= i < j < front.len() implies (#[trigger] front[i]).0 < (
            #[trigger] front[j]).0 by {
                assert(front[i] == list[i] && front[j] == list[j]);
            }
        }
        assert forall|i: int| 0 <= i < k && i < front.len() implies (#[trigger] front[i]).0 < n by {
            assert(front[i] == list[i]);
        }
        if k < list.len() {
            if k < list.len() - 1 {
                assert(list[k].0 < list[list.len() - 1].0);
            }
            lemma_lines_before(front, n, k);
        } else {
            assert(list[list.len() - 1].0 < n);
            lemma_lines_before(front, n, k - 1);
        }
    }
}

/// Note a line.
fn note_line(lines: &mut Vec<KnownLine>, number: u64, text: String, hit: bool)
    requires
        list_sorted(line_list(old(lines)@)),
    ensures
        line_list(final(lines)@) == line_noted(line_list(old(lines)@), number, text@, hit),
        list_sorted(line_list(final(lines)@)),
{
    let ghost list = line_list(lines@);
    let mut k: usize = 0;
    while k < lines.len() && lines[k].number < number
        invariant
            k <= lines@.len(),
            list == line_list(lines@),
            forall|i: int| 0 <= i < k ==> (#[trigger] list[i]).0 < number,
        decreases lines@.len() - k,
    {
        assert(list[k as int].0 == lines@[k as int].number);
        k = k + 1;
    }
    proof {
        if k < lines@.len() {
            assert(list[k as int].0 == lines@[k as int].number);
        }
        lemma_lines_before(list, number, k as int);
    }
    if k < lines.len() && lines[k].number == number {
        let was: KnownLine = lines.remove(k);
        let ghost kept = (was.number, was.text@, was.hit || hit);
        lines.insert(k, KnownLine { number: was.number, text: was.text, hit: was.hit || hit });
        proof {
            assert(list[k as int] == (was.number, was.text@, was.hit));
            assert(line_list(lines@) =~= list.update(k as int, kept));
        }
    } else {
        let ghost fresh = (number, text@, hit);
        lines.insert(k, KnownLine { number, text, hit });
        assert(line_list(lines@) =~= list.insert(k as int, fresh));
    }
    proof {
        let now = line_list(lines@);
        assert forall|i: int, j: int| 0 <= i < j < now.len() implies (#[trigger] now[i]).0 < (
        #[trigger] now[j]).0 by {
            if now.len() == list.len() {
                assert(now[i].0 == list[i].0 && now[j].0 == list[j].0);
            } else {
                if j < k {
                    assert(now[i] == list[i] && now[j] == list[j]);
                } else if i > k {
                    assert(now[i] == list[i - 1] && now[j] == list[j - 1]);
                } else if j == k {
                    assert(now[i] == list[i]);
                } else if i == k {
                    assert(now[j] == list[j - 1]);
                    if j - 1 > k {
                        assert(list[k as int].0 < list[j - 1].0);
                    }
                } else {
                    assert(now[i] == list[i] && now[j] == list[j - 1]);
                }
            }
        }
    }
}

pub proof fn lemma_file_position(files: FileList, path: Seq<char>, k: int)
    requires
        0 <= k <= files.len(),
        forall|i: int| 0 <= i < k ==> (#[trigger] files[i]).0 != path,
        k < files.len() ==> files[k].0 == path,
    ensures
        file_position(files, path) == k,
    decreases files.len(),
{
    if files.len() > 0 && k > 0 {
        assert(files[0].0 != path);
        let rest = files.drop_first();
        assert forall|i: int| 0 <= i < k - 1 implies (#[trigger] rest[i]).0 != path by {
            assert(rest[i] == files[i + 1]);
        }
        lemma_file_position(rest, path, k - 1);
    }
}

/// The lines of every file ascend.
spec fn all_sorted(files: Seq<KnownFile>) -> bool {
    forall|k: int| 0 <= k < files.len() ==> list_sorted(line_list((#[trigger] files[k]).lines@))
}

/// Note a received line.
fn note_hit(files: &mut Vec<KnownFile>, h: WireHit)
    requires
        all_sorted(old(files)@),
    ensures
        file_list(final(files)@) == file_noted(file_list(old(files)@), h@),
        all_sorted(final(files)@),
{
    let ghost list = file_list(files@);
    let ghost was = files@;
    let mut k: usize = 0;
    while k < files.len() && files[k].path != h.path
        invariant
            k <= files@.len(),
            list == file_list(files@),
            was == files@,
            forall|i: int| 0 <= i < k ==> (#[trigger] list[i]).0 != h.path@,
        decreases files@.len() - k,
    {
        assert(list[k as int].0 == files@[k as int].path@);
        k = k + 1;
    }
    proof {
        if k < files@.len() {
            assert(list[k as int].0 == files@[k as int].path@);
        }
        lemma_file_position(list, h.path@, k as int);
    }
    let hit: bool = !h.ctx;
    if k < files.len() {
        let f: KnownFile = files.remove(k);
        let mut lines: Vec<KnownLine> = f.lines;
        assert(f == was[k as int]);
        note_line(&mut lines, h.line, h.text, hit);
        let ghost now = (f.path@, line_list(lines@));
        files.insert(k, KnownFile { path: f.path, lines });
        proof {
            assert(list[k as int] == (was[k as int].path@, line_list(was[k as int].lines@)));
            assert(file_list(files@) =~= list.update(k as int, now));
            assert forall|i: int| 0 <= i < files@.len() implies list_sorted(
                line_list((#[trigger] files@[i]).lines@),
            ) by {
                if i != k {
                    assert(files@[i] == was[i]);
                }
            }
        }
    } else {
        let mut lines: Vec<KnownLine> = Vec::new();
        assert(line_list(lines@) =~= Seq::empty());
        note_line(&mut lines, h.line, h.text, hit);
        let ghost now = (h.path@, line_list(lines@));
        files.push(KnownFile { path: h.path, lines });
        assert(file_list(files@) =~= list.push(now));
    }
}

proof fn lemma_known_rows_fault(
    path: Seq<char>,
    list: LineList,
    lo: u64,
    hi: u64,
    color: Option<(Seq<char>, MatcherConfig)>,
    k: int,
)
    requires
        0 <= k <= list.len(),
        known_rows(path, list.take(k), lo, hi, color) is Err,
    ensures
        known_rows(path, list, lo, hi, color) == known_rows(path, list.take(k), lo, hi, color),
    decreases list.len() - k,
{
    if k == list.len() {
        assert(list.take(k) =~= list);
    } else {
        assert(list.take(k + 1).drop_last() =~= list.take(k));
        lemma_known_rows_fault(path, list, lo, hi, color, k + 1);
    }
}

proof fn lemma_known_groups_fault(
    path: Seq<char>,
    list: LineList,
    groups: Seq<(u64, u64)>,
    sep: Seq<char>,
    color: Option<(Seq<char>, MatcherConfig)>,
    k: int,
)
    requires
        0 <= k <= groups.len(),
        known_groups(path, list, groups.take(k), sep, color) is Err,
    ensures
        known_groups(path, list, groups, sep, color) == known_groups(path, list, groups.take(k), sep, color),
    decreases groups.len() - k,
{
    if k == groups.len() {
        assert(groups.take(k) =~= groups);
    } else {
        assert(groups.take(k + 1).drop_last() =~= groups.take(k));
        lemma_known_groups_fault(path, list, groups, sep, color, k + 1);
    }
}

proof fn lemma_known_files_fault(
    files: FileList,
    before: usize,
    after: usize,
    sep: Seq<char>,
    color: Option<(Seq<char>, MatcherConfig)>,
    k: int,
)
    requires
        0 <= k <= files.len(),
        known_files(files.take(k), before, after, sep, color) is Err,
    ensures
        known_files(files, before, after, sep, color) == known_files(files.take(k), before, after, sep, color),
    decreases files.len() - k,
{
    if k == files.len() {
        assert(files.take(k) =~= files);
    } else {
        assert(files.take(k + 1).drop_last() =~= files.take(k));
        lemma_known_files_fault(files, before, after, sep, color, k + 1);
    }
}

/// Append the rows of the known lines from `lo` to `hi`.
fn push_known_rows(
    out: &mut Vec<u8>,
    path: &str,
    lines: &[KnownLine],
    lo: u64,
    hi: u64,
    matcher: Option<&LineMatcher>,
) -> (res: Result<(), RenderFault>)
    ensures
        match known_rows(path@, line_list(lines@), lo, hi, color_of(matcher)) {
            Ok(b) => res is Ok && final(out)@ == old(out)@ + b,
            Err(f) => res == Err::<(), RenderFault>(f),
        },
{
    let ghost had = out@;
    let ghost list = line_list(lines@);
    let ghost color = color_of(matcher);
    let mut k: usize = 0;
    assert(had + Seq::<u8>::empty() =~= had);
    while k < lines.len()
        invariant
            k <= lines@.len(),
            list == line_list(lines@),
            color == color_of(matcher),
            known_rows(path@, list.take(k as int), lo, hi, color) matches Ok(b) && out@ == had + b,
        decreases lines@.len() - k,
    {
        let ghost done = known_rows(path@, list.take(k as int), lo, hi, color)->Ok_0;
        let line: &KnownLine = &lines[k];
        proof {
            assert(list.take(k + 1).drop_last() =~= list.take(k as int));
            assert(list.take(k + 1).last() == (line.number, line.text@, line.hit));
        }
        if lo <= line.number && line.number <= hi {
            if line.hit {
                match push_hit_row(out, path, line.number, line.text.as_str(), matcher) {
                    Err(f) => {
                        proof {
                            lemma_known_rows_fault(path@, list, lo, hi, color, k + 1);
                        }
                        return Err(f);
                    },
                    Ok(_) => {
                        proof {
                            let row = hit_row(path@, line.number, line.text@, color)->Ok_0;
                            assert(out@ =~= had + (done + row));
                        }
                    },
                }
            } else {
                emit_ctx_row(out, path, line.number, line.text.as_str());
                assert(out@ =~= had + (done + text_row(path@, line.number, 45, encode_utf8(line.text@))));
            }
        }
        k = k + 1;
    }
    assert(list.take(k as int) =~= list);
    Ok(())
}

/// The numbers of the lines that are hits.
fn find_hit_lines(lines: &[KnownLine]) -> (out: Vec<u64>)
    ensures
        out@ == hit_lines(line_list(lines@)),
{
    let ghost list = line_list(lines@);
    let mut out: Vec<u64> = Vec::new();
    let mut k: usize = 0;
    while k < lines.len()
        invariant
            k <= lines@.len(),
            list == line_list(lines@),
            out@ == hit_lines(list.take(k as int)),
        decreases lines@.len() - k,
    {
        proof {
            assert(list.take(k + 1).drop_last() =~= list.take(k as int));
            assert(list.take(k + 1).last() == (lines@[k as int].number, lines@[k as int].text@, lines@[k as int].hit));
        }
        if lines[k].hit {
            out.push(lines[k].number);
        }
        k = k + 1;
    }
    assert(list.take(k as int) =~= list);
    out
}

/// Append the rows of one file.
fn push_known_file(
    out: &mut Vec<u8>,
    f: &KnownFile,
    before: usize,
    after: usize,
    sep: &str,
    matcher: Option<&LineMatcher>,
) -> (res: Result<(), RenderFault>)
    ensures
        match known_groups(
            f.path@,
            line_list(f.lines@),
            groups_of(hit_lines(line_list(f.lines@)), before, after),
            sep@,
            color_of(matcher),
        ) {
            Ok(b) => res is Ok && final(out)@ == old(out)@ + b,
            Err(e) => res == Err::<(), RenderFault>(e),
        },
{
    let hits: Vec<u64> = find_hit_lines(&f.lines);
    let groups: Vec<(u64, u64)> = compute_groups(&hits, before, after);
    let ghost had = out@;
    let ghost list = line_list(f.lines@);
    let ghost color = color_of(matcher);
    let mut g: usize = 0;
    assert(had + Seq::<u8>::empty() =~= had);
    while g < groups.len()
        invariant
            g <= groups@.len(),
            list == line_list(f.lines@),
            groups@ == groups_of(hit_lines(list), before, after),
            color == color_of(matcher),
            known_groups(f.path@, list, groups@.take(g as int), sep@, color) matches Ok(b) && out@ == had + b,
        decreases groups@.len() - g,
    {
        let ghost done = known_groups(f.path@, list, groups@.take(g as int), sep@, color)->Ok_0;
        proof {
            assert(groups@.take(g + 1).drop_last() =~= groups@.take(g as int));
            assert(groups@.take(g + 1).last() == groups@[g as int]);
        }
        let ghost mid: Seq<u8> = if g > 0 {
            separator(sep@)
        } else {
            Seq::empty()
        };
        if g > 0 && !sep.is_empty() {
            push_text(out, sep);
            out.push(10);
        }
        assert(out@ =~= had + (done + mid));
        match push_known_rows(out, f.path.as_str(), &f.lines, groups[g].0, groups[g].1, matcher) {
            Err(e) => {
                proof {
                    lemma_known_groups_fault(f.path@, list, groups@, sep@, color, g + 1);
                }
                return Err(e);
            },
            Ok(_) => {
                proof {
                    let rows = known_rows(f.path@, list, groups@[g as int].0, groups@[g as int].1, color)->Ok_0;
                    assert(out@ =~= had + (done + mid + rows));
                }
            },
        }
        g = g + 1;
    }
    assert(groups@.take(g as int) =~= groups@);
    Ok(())
}

/// What the received lines say of each file, files as first met.
fn gather_files(raw: &[u8]) -> (files: Vec<KnownFile>)
    ensures
        file_list(files@) == files_noted(wire_hits(pieces(raw@, 10u8))),
        lines_read_back(raw@),
{
    let hits: Vec<WireHit> = read_wire(raw);
    note_all(&hits)
}

/// Note all received lines.
fn note_all(hits: &[WireHit]) -> (files: Vec<KnownFile>)
    ensures
        file_list(files@) == files_noted(hits_view(hits@)),
{
    let ghost all = hits_view(hits@);
    let mut files: Vec<KnownFile> = Vec::new();
    assert(file_list(files@) =~= Seq::empty());
    let mut n: usize = 0;
    while n < hits.len()
        invariant
            n <= hits@.len(),
            all == hits_view(hits@),
            file_list(files@) == files_noted(all.take(n as int)),
            all_sorted(files@),
        decreases hits@.len() - n,
    {
        let h: &WireHit = &hits[n];
        proof {
            assert(all.take(n + 1).drop_last() =~= all.take(n as int));
            assert(all.take(n + 1).last() == h@);
        }
        note_hit(&mut files, WireHit { path: h.path.clone(), line: h.line, text: h.text.clone(), ctx: h.ctx });
        n = n + 1;
    }
    assert(all.take(n as int) =~= all);
    files
}

/// Render what is known of the files.
fn render_known(
    files: &[KnownFile],
    before: usize,
    after: usize,
    sep: &str,
    matcher: Option<&LineMatcher>,
) -> (res: Result<Vec<u8>, RenderFault>)
    ensures
        bytes_agree(res, known_files(file_list(files@), before, after, sep@, color_of(matcher))),
{
    let ghost color = color_of(matcher);
    let ghost list = file_list(files@);
    let mut out: Vec<u8> = Vec::new();
    let mut k: usize = 0;
    while k < files.len()
        invariant
            k <= files@.len(),
            list == file_list(files@),
            color == color_of(matcher),
            known_files(list.take(k as int), before, after, sep@, color) == Ok::<Seq<u8>, RenderFault>(out@),
        decreases files@.len() - k,
    {
        proof {
            assert(list.take(k + 1).drop_last() =~= list.take(k as int));
            assert(list.take(k + 1).last() == (files@[k as int].path@, line_list(files@[k as int].lines@)));
        }
        match push_known_file(&mut out, &files[k], before, after, sep, matcher) {
            Err(e) => {
                proof {
                    lemma_known_files_fault(list, before, after, sep@, color, k + 1);
                }
                return Err(e);
            },
            Ok(_) => {},
        }
        k = k + 1;
    }
    assert(list.take(k as int) =~= list);
    Ok(out)
}

/// Render received hits and context lines: regroup them by file, as first met, merge
/// the windows of the hit lines, and show hits and context as a local search does.
/// A line received both as hit and as context is a hit.
pub fn render_served_context(
    raw: &[u8],
    before: usize,
    after: usize,
    sep: &str,
    matcher: Option<&LineMatcher>,
) -> (res: Result<Vec<u8>, RenderFault>)
    ensures
        bytes_agree(
            res,
            known_files(files_noted(wire_hits(pieces(raw@, 10u8))), before, after, sep@, color_of(matcher)),
        ),
        lines_read_back(raw@),
{
    let files: Vec<KnownFile> = gather_files(raw);
    render_known(&files, before, after, sep, matcher)
}

/// The paths of a reply are those of its hits, in order: blank lines, lines around hits and
/// lines without a path do not count.
pub proof fn law_paths_are_those_of_the_hits(lines: Seq<Seq<u8>>)
    ensures
        hit_paths(lines) == lines.filter_map(
            |l: Seq<u8>|
                if l.len() == 0 || json_bool_member(l, "ctx"@) == Some(true) {
                    None
                } else {
                    json_str_member(l, "path"@)
                },
        ),
        wire_hits(lines) == lines.filter_map(
            |l: Seq<u8>|
                if l.len() == 0 {
                    None
                } else {
                    wire_hit(l)
                },
        ),
    decreases lines.len(),
{
    if lines.len() > 0 {
        law_paths_are_those_of_the_hits(lines.drop_last());
        let l = lines.last();
        let had = hit_paths(lines.drop_last());
        let hits = wire_hits(lines.drop_last());
        if json_str_member(l, "path"@) is Some {
            let p = json_str_member(l, "path"@)->Some_0;
            assert(had.push(p) =~= had + seq![p]);
        }
        if wire_hit(l) is Some {
            let h = wire_hit(l)->Some_0;
            assert(hits.push(h) =~= hits + seq![h]);
        }
    }
}

/// A line is a hit exactly if it has a path, a line number and a text, and is context exactly
/// if it says so.
pub proof fn law_hits_have_path_line_and_text(line: Seq<u8>)
    ensures
        wire_hit(line) is Some <==> json_str_member(line, "path"@) is Some && json_u64_member(line, "line"@) is Some
            && json_str_member(line, "text"@) is Some,
        wire_hit(line) matches Some(h) ==> json_str_member(line, "path"@) == Some(h.path) && json_u64_member(line, "line"@)
            == Some(h.line) && json_str_member(line, "text"@) == Some(h.text) && (h.ctx <==> json_bool_member(
            line,
            "ctx"@,
        ) == Some(true)),
{
}

/// The settings that highlight a served reply are the first that compile, so a reply is
/// highlighted exactly if some attempt does.
pub proof fn law_first_attempt_that_compiles_counts(pattern: Seq<char>, attempts: Seq<MatcherConfig>, k: int)
    requires
        0 <= k <= attempts.len(),
        forall|j: int| 0 <= j < k ==> compile_outcome(pattern, #[trigger] attempts[j]) is Err,
    ensures
        k < attempts.len() && compile_outcome(pattern, attempts[k]) is Ok ==> first_compiling(pattern, attempts) == Some(
            attempts[k],
        ),
        k == attempts.len() ==> first_compiling(pattern, attempts) is None,
    decreases attempts.len(),
{
    if attempts.len() > 0 {
        let front = attempts.drop_last();
        assert(forall|j: int| 0 <= j < front.len() ==> front[j] == attempts[j]);
        assert(attempts.last() == attempts[attempts.len() - 1]);
        if k >= front.len() {
            law_first_attempt_that_compiles_counts(pattern, front, front.len() as int);
        } else {
            law_first_attempt_that_compiles_counts(pattern, front, k);
        }
    }
}

/// A served reply is highlighted only if that was asked for, with the settings that a local
/// search would compile.
pub proof fn law_served_color_is_local_color(pattern: Seq<char>, ignore_case: bool, word: bool, fixed: bool, k: int)
    requires
        0 <= k < config_attempts(pattern, ignore_case, word, fixed).len(),
        compile_outcome(pattern, config_attempts(pattern, ignore_case, word, fixed)[k]) is Ok,
        forall|j: int|
            0 <= j < k ==> compile_outcome(
                pattern,
                #[trigger] config_attempts(pattern, ignore_case, word, fixed)[j],
            ) is Err,
    ensures
        served_color(pattern, ignore_case, word, fixed, true) == Some(
            (pattern, config_attempts(pattern, ignore_case, word, fixed)[k]),
        ),
        served_color(pattern, ignore_case, word, fixed, false) is None,
{
    law_first_attempt_that_compiles_counts(pattern, config_attempts(pattern, ignore_case, word, fixed), k);
}

} // verus!
