//! Rendering ranked hits, with or without context.
//!
//! Hits come as files, a flat order and the place of each hit. `shown` gives the
//! path to print for each file, and `scores` the score of each hit as text.

use crate::context::{
    ctx_file_groups, ctx_rows, files_met, is_file_group, is_line_order, lines_at, locs_fit, ord_fits, rows_of,
    CtxRow,
};
use crate::emit::{
    ctx_json, digits, emit_ctx_json, emit_ctx_row, emit_raw_with_path, emit_text_row, emit_text_row_colored,
    highlighted, hit_json, json_bytes, law_rows_are_laid_out, lemma_nonempty_spans, push_escaped_json, push_text, row_text, text_row,
};
use crate::hits::{banked_text, ctx_line_text, ctx_range, line_text, FileHits, HitFault, HitMeta};
use crate::matcher::{found_spans, LineMatcher, MatcherConfig};
use crate::text::views;
use vstd::prelude::*;
use vstd::utf8::encode_utf8;

verus! {

/// Why hits cannot be rendered.
#[derive(Clone, Copy, Debug, PartialEq, Eq, Structural)]
pub enum RenderFault {
    /// A hit cannot be shown.
    Hit(HitFault),
    /// Highlighting splits a character.
    BrokenColor,
}

/// The text of a hit.
pub open spec fn hit_text(fh: FileHits, m: HitMeta) -> Result<Seq<char>, RenderFault> {
    if m.start <= m.end <= fh.arena@.len() {
        Ok(line_text(fh.arena@.subrange(m.start as int, m.end as int)))
    } else {
        Err(RenderFault::Hit(HitFault::BadOffsets { start: m.start, end: m.end, len: fh.arena@.len() as usize }))
    }
}

/// The text of a context line.
pub open spec fn context_text(fh: FileHits, n: u64) -> Result<Seq<char>, RenderFault> {
    match ctx_range(fh, n) {
        Ok((start, end)) => Ok(line_text(fh.arena@.subrange(start as int, end as int))),
        Err(f) => Err(RenderFault::Hit(f)),
    }
}

/// The pattern and settings of a matcher that highlights, if any.
pub open spec fn color_of(matcher: Option<&LineMatcher>) -> Option<(Seq<char>, MatcherConfig)> {
    match matcher {
        Some(m) => Some(m@),
        None => None,
    }
}

/// The row of a hit, highlighted where that is asked for.
pub open spec fn hit_row(
    path: Seq<char>,
    line: u64,
    text: Seq<char>,
    color: Option<(Seq<char>, MatcherConfig)>,
) -> Result<Seq<u8>, RenderFault> {
    match color {
        None => Ok(text_row(path, line, 58, encode_utf8(text))),
        Some(c) => match row_text(encode_utf8(text), found_spans(c.0, c.1, encode_utf8(text))) {
            Some(t) => Ok(text_row(path, line, 58, t)),
            None => Err(RenderFault::BrokenColor),
        },
    }
}

/// A result agrees with the bytes or the fault that is stated.
pub open spec fn bytes_agree(got: Result<Vec<u8>, RenderFault>, want: Result<Seq<u8>, RenderFault>) -> bool {
    match (got, want) {
        (Ok(v), Ok(b)) => v@ == b,
        (Err(f), Err(g)) => f == g,
        _ => false,
    }
}

/// Append the row of a hit.
pub fn push_hit_row(buf: &mut Vec<u8>, path: &str, line: u64, text: &str, matcher: Option<&LineMatcher>) -> (res:
    Result<(), RenderFault>)
    ensures
        match hit_row(path@, line, text@, color_of(matcher)) {
            Ok(b) => res is Ok && final(buf)@ == old(buf)@ + b,
            Err(f) => res == Err::<(), RenderFault>(f) && final(buf)@ == old(buf)@,
        },
{
    match matcher {
        None => {
            emit_text_row(buf, path, line, text);
            Ok(())
        },
        Some(m) => {
            if emit_text_row_colored(buf, path, line, text, m) {
                Ok(())
            } else {
                Err(RenderFault::BrokenColor)
            }
        },
    }
}

// ---- without context ----

/// The rows of the ordered hits.
pub open spec fn text_rows(
    files: Seq<FileHits>,
    shown: Seq<Seq<char>>,
    loc: Seq<(usize, usize)>,
    ord: Seq<usize>,
    color: Option<(Seq<char>, MatcherConfig)>,
) -> Result<Seq<u8>, RenderFault>
    decreases ord.len(),
{
    if ord.len() == 0 {
        Ok(Seq::empty())
    } else {
        let (f, k) = loc[ord.last() as int];
        let m = files[f as int].metas@[k as int];
        match text_rows(files, shown, loc, ord.drop_last(), color) {
            Err(e) => Err(e),
            Ok(front) => match hit_text(files[f as int], m) {
                Err(e) => Err(e),
                Ok(text) => match hit_row(shown[f as int], m.line, text, color) {
                    Err(e) => Err(e),
                    Ok(row) => Ok(front + row),
                },
            },
        }
    }
}

/// The score texts of all hits, by file.
pub open spec fn score_texts(scores: Seq<Vec<Vec<u8>>>) -> Seq<Seq<Seq<u8>>> {
    Seq::new(scores.len(), |f: int| Seq::new(scores[f]@.len(), |k: int| scores[f]@[k]@))
}

/// Every hit has a score.
pub open spec fn scores_fit(files: Seq<FileHits>, scores: Seq<Vec<Vec<u8>>>) -> bool {
    scores.len() == files.len() && forall|f: int|
        0 <= f < files.len() ==> (#[trigger] scores[f])@.len() == files[f].metas@.len()
}

/// The JSON lines of the ordered hits.
pub open spec fn json_rows(
    files: Seq<FileHits>,
    shown: Seq<Seq<char>>,
    loc: Seq<(usize, usize)>,
    ord: Seq<usize>,
    scores: Seq<Seq<Seq<u8>>>,
) -> Result<Seq<u8>, RenderFault>
    decreases ord.len(),
{
    if ord.len() == 0 {
        Ok(Seq::empty())
    } else {
        let (f, k) = loc[ord.last() as int];
        let m = files[f as int].metas@[k as int];
        match json_rows(files, shown, loc, ord.drop_last(), scores) {
            Err(e) => Err(e),
            Ok(front) => match hit_text(files[f as int], m) {
                Err(e) => Err(e),
                Ok(text) => Ok(
                    front + hit_json(
                        json_bytes(encode_utf8(shown[f as int])),
                        m.line,
                        text,
                        scores[f as int][k as int],
                    ),
                ),
            },
        }
    }
}

proof fn lemma_text_rows_fault(
    files: Seq<FileHits>,
    shown: Seq<Seq<char>>,
    loc: Seq<(usize, usize)>,
    ord: Seq<usize>,
    color: Option<(Seq<char>, MatcherConfig)>,
    k: int,
)
    requires
        0 <= k <= ord.len(),
        text_rows(files, shown, loc, ord.take(k), color) is Err,
    ensures
        text_rows(files, shown, loc, ord, color) == text_rows(files, shown, loc, ord.take(k), color),
    decreases ord.len() - k,
{
    if k == ord.len() {
        assert(ord.take(k) =~= ord);
    } else {
        assert(ord.take(k + 1).drop_last() =~= ord.take(k));
        lemma_text_rows_fault(files, shown, loc, ord, color, k + 1);
    }
}

proof fn lemma_json_rows_fault(
    files: Seq<FileHits>,
    shown: Seq<Seq<char>>,
    loc: Seq<(usize, usize)>,
    ord: Seq<usize>,
    scores: Seq<Seq<Seq<u8>>>,
    k: int,
)
    requires
        0 <= k <= ord.len(),
        json_rows(files, shown, loc, ord.take(k), scores) is Err,
    ensures
        json_rows(files, shown, loc, ord, scores) == json_rows(files, shown, loc, ord.take(k), scores),
    decreases ord.len() - k,
{
    if k == ord.len() {
        assert(ord.take(k) =~= ord);
    } else {
        assert(ord.take(k + 1).drop_last() =~= ord.take(k));
        lemma_json_rows_fault(files, shown, loc, ord, scores, k + 1);
    }
}

/// Render hits as text rows, in rank order.
pub fn render_text(
    files: &[FileHits],
    shown: &[String],
    loc: &[(usize, usize)],
    ord: &[usize],
    matcher: Option<&LineMatcher>,
) -> (res: Result<Vec<u8>, RenderFault>)
    requires
        shown@.len() == files@.len(),
        locs_fit(files@, loc@),
        ord_fits(ord@, loc@.len()),
    ensures
        bytes_agree(res, text_rows(files@, views(shown@), loc@, ord@, color_of(matcher))),
{
    let mut buf: Vec<u8> = Vec::new();
    let ghost paths = views(shown@);
    let ghost color = color_of(matcher);
    let mut i: usize = 0;
    while i < ord.len()
        invariant
            i <= ord@.len(),
            paths == views(shown@),
            color == color_of(matcher),
            shown@.len() == files@.len(),
            locs_fit(files@, loc@),
            ord_fits(ord@, loc@.len()),
            text_rows(files@, paths, loc@, ord@.take(i as int), color) == Ok::<Seq<u8>, RenderFault>(buf@),
        decreases ord@.len() - i,
    {
        proof {
            assert(ord@.take(i + 1).drop_last() =~= ord@.take(i as int));
            assert(ord@.take(i + 1).last() == ord@[i as int]);
        }
        let at: (usize, usize) = loc[ord[i]];
        let fh: &FileHits = &files[at.0];
        let m: HitMeta = fh.metas[at.1];
        assert(paths[at.0 as int] == shown@[at.0 as int]@);
        match banked_text(fh, &m) {
            Err(f) => {
                proof {
                    lemma_text_rows_fault(files@, paths, loc@, ord@, color, i + 1);
                }
                return Err(RenderFault::Hit(f));
            },
            Ok(text) => {
                match push_hit_row(&mut buf, shown[at.0].as_str(), m.line, text.as_str(), matcher) {
                    Err(f) => {
                        proof {
                            lemma_text_rows_fault(files@, paths, loc@, ord@, color, i + 1);
                        }
                        return Err(f);
                    },
                    Ok(_) => {},
                }
            },
        }
        i = i + 1;
    }
    assert(ord@.take(i as int) =~= ord@);
    Ok(buf)
}

/// The escaped form of each path.
pub open spec fn escaped_paths(esc: Seq<Vec<u8>>, shown: Seq<Seq<char>>) -> bool {
    esc.len() == shown.len() && forall|f: int|
        0 <= f < esc.len() ==> (#[trigger] esc[f])@ == json_bytes(encode_utf8(shown[f]))
}

/// Escape each path once.
fn escape_paths(shown: &[String]) -> (esc: Vec<Vec<u8>>)
    ensures
        escaped_paths(esc@, views(shown@)),
{
    let mut esc: Vec<Vec<u8>> = Vec::new();
    let mut k: usize = 0;
    while k < shown.len()
        invariant
            k <= shown@.len(),
            esc@.len() == k,
            forall|f: int| 0 <= f < k ==> (#[trigger] esc@[f])@ == json_bytes(encode_utf8(views(shown@)[f])),
        decreases shown@.len() - k,
    {
        let mut one: Vec<u8> = Vec::new();
        push_escaped_json(&mut one, shown[k].as_str());
        assert(one@ =~= json_bytes(encode_utf8(views(shown@)[k as int])));
        esc.push(one);
        k = k + 1;
    }
    esc
}

/// Render hits as JSON lines, in rank order.
pub fn render_json(
    files: &[FileHits],
    shown: &[String],
    loc: &[(usize, usize)],
    ord: &[usize],
    scores: &[Vec<Vec<u8>>],
) -> (res: Result<Vec<u8>, RenderFault>)
    requires
        shown@.len() == files@.len(),
        scores_fit(files@, scores@),
        locs_fit(files@, loc@),
        ord_fits(ord@, loc@.len()),
    ensures
        bytes_agree(res, json_rows(files@, views(shown@), loc@, ord@, score_texts(scores@))),
{
    let esc: Vec<Vec<u8>> = escape_paths(shown);
    let mut buf: Vec<u8> = Vec::new();
    let ghost paths = views(shown@);
    let ghost texts = score_texts(scores@);
    let mut i: usize = 0;
    while i < ord.len()
        invariant
            i <= ord@.len(),
            paths == views(shown@),
            texts == score_texts(scores@),
            escaped_paths(esc@, paths),
            shown@.len() == files@.len(),
            scores_fit(files@, scores@),
            locs_fit(files@, loc@),
            ord_fits(ord@, loc@.len()),
            json_rows(files@, paths, loc@, ord@.take(i as int), texts) == Ok::<Seq<u8>, RenderFault>(buf@),
        decreases ord@.len() - i,
    {
        proof {
            assert(ord@.take(i + 1).drop_last() =~= ord@.take(i as int));
            assert(ord@.take(i + 1).last() == ord@[i as int]);
        }
        let at: (usize, usize) = loc[ord[i]];
        let fh: &FileHits = &files[at.0];
        let m: HitMeta = fh.metas[at.1];
        proof {
            assert(scores@[at.0 as int]@.len() == fh.metas@.len());
            assert(texts[at.0 as int][at.1 as int] == scores@[at.0 as int]@[at.1 as int]@);
            assert(esc@[at.0 as int]@ == json_bytes(encode_utf8(paths[at.0 as int])));
        }
        match banked_text(fh, &m) {
            Err(f) => {
                proof {
                    lemma_json_rows_fault(files@, paths, loc@, ord@, texts, i + 1);
                }
                return Err(RenderFault::Hit(f));
            },
            Ok(text) => {
                emit_raw_with_path(&mut buf, &esc[at.0], m.line, text.as_str(), &scores[at.0][at.1]);
            },
        }
        i = i + 1;
    }
    assert(ord@.take(i as int) =~= ord@);
    Ok(buf)
}

// ---- with context ----

/// One row of a file's context display, as text.
pub open spec fn ctx_text_row(
    fh: FileHits,
    path: Seq<char>,
    mis: Seq<usize>,
    row: CtxRow,
    sep: Seq<char>,
    color: Option<(Seq<char>, MatcherConfig)>,
) -> Result<Seq<u8>, RenderFault> {
    match row {
        CtxRow::Separator => Ok(
            if sep.len() == 0 {
                Seq::empty()
            } else {
                encode_utf8(sep).push(10u8)
            },
        ),
        CtxRow::Hit(k) => {
            let m = fh.metas@[mis[k as int] as int];
            match hit_text(fh, m) {
                Ok(text) => hit_row(path, m.line, text, color),
                Err(e) => Err(e),
            }
        },
        CtxRow::Context(n) => match context_text(fh, n) {
            Ok(text) => Ok(text_row(path, n, 45, encode_utf8(text))),
            Err(e) => Err(e),
        },
    }
}

/// The rows of a file's context display, as text.
pub open spec fn ctx_text_rows(
    fh: FileHits,
    path: Seq<char>,
    mis: Seq<usize>,
    rows: Seq<CtxRow>,
    sep: Seq<char>,
    color: Option<(Seq<char>, MatcherConfig)>,
) -> Result<Seq<u8>, RenderFault>
    decreases rows.len(),
{
    if rows.len() == 0 {
        Ok(Seq::empty())
    } else {
        match ctx_text_rows(fh, path, mis, rows.drop_last(), sep, color) {
            Err(e) => Err(e),
            Ok(front) => match ctx_text_row(fh, path, mis, rows.last(), sep, color) {
                Err(e) => Err(e),
                Ok(row) => Ok(front + row),
            },
        }
    }
}

/// One row of a file's context display, as JSON; separators do not travel.
pub open spec fn ctx_wire_row(
    fh: FileHits,
    path: Seq<char>,
    mis: Seq<usize>,
    row: CtxRow,
    scores: Seq<Seq<u8>>,
    file_score: Seq<u8>,
) -> Result<Seq<u8>, RenderFault> {
    match row {
        CtxRow::Separator => Ok(Seq::empty()),
        CtxRow::Hit(k) => {
            let m = fh.metas@[mis[k as int] as int];
            match hit_text(fh, m) {
                Ok(text) => Ok(
                    hit_json(json_bytes(encode_utf8(path)), m.line, text, scores[mis[k as int] as int]),
                ),
                Err(e) => Err(e),
            }
        },
        CtxRow::Context(n) => match context_text(fh, n) {
            Ok(text) => Ok(ctx_json(json_bytes(encode_utf8(path)), n, text, file_score)),
            Err(e) => Err(e),
        },
    }
}

/// The rows of a file's context display, as JSON.
pub open spec fn ctx_wire_rows(
    fh: FileHits,
    path: Seq<char>,
    mis: Seq<usize>,
    rows: Seq<CtxRow>,
    scores: Seq<Seq<u8>>,
    file_score: Seq<u8>,
) -> Result<Seq<u8>, RenderFault>
    decreases rows.len(),
{
    if rows.len() == 0 {
        Ok(Seq::empty())
    } else {
        match ctx_wire_rows(fh, path, mis, rows.drop_last(), scores, file_score) {
            Err(e) => Err(e),
            Ok(front) => match ctx_wire_row(fh, path, mis, rows.last(), scores, file_score) {
                Err(e) => Err(e),
                Ok(row) => Ok(front + row),
            },
        }
    }
}

proof fn lemma_ctx_text_fault(
    fh: FileHits,
    path: Seq<char>,
    mis: Seq<usize>,
    rows: Seq<CtxRow>,
    sep: Seq<char>,
    color: Option<(Seq<char>, MatcherConfig)>,
    k: int,
)
    requires
        0 <= k <= rows.len(),
        ctx_text_rows(fh, path, mis, rows.take(k), sep, color) is Err,
    ensures
        ctx_text_rows(fh, path, mis, rows, sep, color) == ctx_text_rows(fh, path, mis, rows.take(k), sep, color),
    decreases rows.len() - k,
{
    if k == rows.len() {
        assert(rows.take(k) =~= rows);
    } else {
        assert(rows.take(k + 1).drop_last() =~= rows.take(k));
        lemma_ctx_text_fault(fh, path, mis, rows, sep, color, k + 1);
    }
}

proof fn lemma_ctx_wire_fault(
    fh: FileHits,
    path: Seq<char>,
    mis: Seq<usize>,
    rows: Seq<CtxRow>,
    scores: Seq<Seq<u8>>,
    file_score: Seq<u8>,
    k: int,
)
    requires
        0 <= k <= rows.len(),
        ctx_wire_rows(fh, path, mis, rows.take(k), scores, file_score) is Err,
    ensures
        ctx_wire_rows(fh, path, mis, rows, scores, file_score) == ctx_wire_rows(
            fh,
            path,
            mis,
            rows.take(k),
            scores,
            file_score,
        ),
    decreases rows.len() - k,
{
    if k == rows.len() {
        assert(rows.take(k) =~= rows);
    } else {
        assert(rows.take(k + 1).drop_last() =~= rows.take(k));
        lemma_ctx_wire_fault(fh, path, mis, rows, scores, file_score, k + 1);
    }
}

/// Hit rows name hits of the file.
pub open spec fn rows_fit(rows: Seq<CtxRow>, n: nat) -> bool {
    forall|i: int| 0 <= i < rows.len() ==> ((#[trigger] rows[i]) matches CtxRow::Hit(k) ==> k < n)
}

/// The lines of the hits `mis`.
fn group_lines(metas: &[HitMeta], mis: &[usize]) -> (lines: Vec<u64>)
    requires
        ord_fits(mis@, metas@.len()),
    ensures
        lines@ == lines_at(metas@, mis@),
{
    let mut lines: Vec<u64> = Vec::new();
    let mut k: usize = 0;
    while k < mis.len()
        invariant
            k <= mis@.len(),
            ord_fits(mis@, metas@.len()),
            lines@ == lines_at(metas@, mis@).take(k as int),
        decreases mis@.len() - k,
    {
        lines.push(metas[mis[k]].line);
        k = k + 1;
        assert(lines@ =~= lines_at(metas@, mis@).take(k as int));
    }
    assert(lines@ =~= lines_at(metas@, mis@));
    lines
}

/// Append the context display of one file, as text.
fn push_ctx_text(
    buf: &mut Vec<u8>,
    fh: &FileHits,
    path: &str,
    mis: &[usize],
    rows: &[CtxRow],
    sep: &str,
    matcher: Option<&LineMatcher>,
) -> (res: Result<(), RenderFault>)
    requires
        ord_fits(mis@, fh.metas@.len()),
        rows_fit(rows@, mis@.len()),
    ensures
        match ctx_text_rows(*fh, path@, mis@, rows@, sep@, color_of(matcher)) {
            Ok(b) => res is Ok && final(buf)@ == old(buf)@ + b,
            Err(f) => res == Err::<(), RenderFault>(f),
        },
{
    let ghost had = buf@;
    let ghost color = color_of(matcher);
    let mut i: usize = 0;
    assert(had + Seq::<u8>::empty() =~= had);
    while i < rows.len()
        invariant
            i <= rows@.len(),
            color == color_of(matcher),
            ord_fits(mis@, fh.metas@.len()),
            rows_fit(rows@, mis@.len()),
            ctx_text_rows(*fh, path@, mis@, rows@.take(i as int), sep@, color) matches Ok(b) && buf@ == had + b,
        decreases rows@.len() - i,
    {
        let ghost done = ctx_text_rows(*fh, path@, mis@, rows@.take(i as int), sep@, color)->Ok_0;
        proof {
            assert(rows@.take(i + 1).drop_last() =~= rows@.take(i as int));
            assert(rows@.take(i + 1).last() == rows@[i as int]);
        }
        match rows[i] {
            CtxRow::Separator => {
                if !sep.is_empty() {
                    push_text(buf, sep);
                    buf.push(10);
                    assert(buf@ =~= had + (done + encode_utf8(sep@).push(10u8)));
                } else {
                    assert(buf@ =~= had + (done + Seq::<u8>::empty()));
                }
            },
            CtxRow::Hit(k) => {
                assert(rows@[i as int] is Hit);
                let m: HitMeta = fh.metas[mis[k]];
                match banked_text(fh, &m) {
                    Err(f) => {
                        proof {
                            lemma_ctx_text_fault(*fh, path@, mis@, rows@, sep@, color, i + 1);
                        }
                        return Err(RenderFault::Hit(f));
                    },
                    Ok(text) => {
                        match push_hit_row(buf, path, m.line, text.as_str(), matcher) {
                            Err(f) => {
                                proof {
                                    lemma_ctx_text_fault(*fh, path@, mis@, rows@, sep@, color, i + 1);
                                }
                                return Err(f);
                            },
                            Ok(_) => {
                                proof {
                                    let row = hit_row(path@, m.line, text@, color)->Ok_0;
                                    assert(buf@ =~= had + (done + row));
                                }
                            },
                        }
                    },
                }
            },
            CtxRow::Context(n) => {
                match ctx_line_text(fh, n) {
                    Err(f) => {
                        proof {
                            lemma_ctx_text_fault(*fh, path@, mis@, rows@, sep@, color, i + 1);
                        }
                        return Err(RenderFault::Hit(f));
                    },
                    Ok(text) => {
                        emit_ctx_row(buf, path, n, text.as_str());
                        assert(buf@ =~= had + (done + text_row(path@, n, 45, encode_utf8(text@))));
                    },
                }
            },
        }
        i = i + 1;
    }
    assert(rows@.take(i as int) =~= rows@);
    Ok(())
}

/// Append the context display of one file, as JSON.
fn push_ctx_wire(
    buf: &mut Vec<u8>,
    fh: &FileHits,
    path: &str,
    mis: &[usize],
    rows: &[CtxRow],
    scores: &[Vec<u8>],
    file_score: &[u8],
) -> (res: Result<(), RenderFault>)
    requires
        ord_fits(mis@, fh.metas@.len()),
        rows_fit(rows@, mis@.len()),
        scores@.len() == fh.metas@.len(),
    ensures
        match ctx_wire_rows(
            *fh,
            path@,
            mis@,
            rows@,
            Seq::new(scores@.len(), |k: int| scores@[k]@),
            file_score@,
        ) {
            Ok(b) => res is Ok && final(buf)@ == old(buf)@ + b,
            Err(f) => res == Err::<(), RenderFault>(f),
        },
{
    let ghost had = buf@;
    let ghost texts = Seq::new(scores@.len(), |k: int| scores@[k]@);
    let mut esc: Vec<u8> = Vec::new();
    push_escaped_json(&mut esc, path);
    assert(esc@ =~= json_bytes(encode_utf8(path@)));
    let mut i: usize = 0;
    assert(had + Seq::<u8>::empty() =~= had);
    while i < rows.len()
        invariant
            i <= rows@.len(),
            esc@ == json_bytes(encode_utf8(path@)),
            texts == Seq::new(scores@.len(), |k: int| scores@[k]@),
            ord_fits(mis@, fh.metas@.len()),
            rows_fit(rows@, mis@.len()),
            scores@.len() == fh.metas@.len(),
            ctx_wire_rows(*fh, path@, mis@, rows@.take(i as int), texts, file_score@) matches Ok(b) && buf@ == had + b,
        decreases rows@.len() - i,
    {
        let ghost done = ctx_wire_rows(*fh, path@, mis@, rows@.take(i as int), texts, file_score@)->Ok_0;
        proof {
            assert(rows@.take(i + 1).drop_last() =~= rows@.take(i as int));
            assert(rows@.take(i + 1).last() == rows@[i as int]);
        }
        match rows[i] {
            CtxRow::Separator => {
                assert(buf@ =~= had + (done + Seq::<u8>::empty()));
            },
            CtxRow::Hit(k) => {
                assert(rows@[i as int] is Hit);
                let mi: usize = mis[k];
                let m: HitMeta = fh.metas[mi];
                match banked_text(fh, &m) {
                    Err(f) => {
                        proof {
                            lemma_ctx_wire_fault(*fh, path@, mis@, rows@, texts, file_score@, i + 1);
                        }
                        return Err(RenderFault::Hit(f));
                    },
                    Ok(text) => {
                        emit_raw_with_path(buf, &esc, m.line, text.as_str(), &scores[mi]);
                        assert(buf@ =~= had + (done + hit_json(esc@, m.line, text@, texts[mi as int])));
                    },
                }
            },
            CtxRow::Context(n) => {
                match ctx_line_text(fh, n) {
                    Err(f) => {
                        proof {
                            lemma_ctx_wire_fault(*fh, path@, mis@, rows@, texts, file_score@, i + 1);
                        }
                        return Err(RenderFault::Hit(f));
                    },
                    Ok(text) => {
                        emit_ctx_json(buf, &esc, n, text.as_str(), file_score);
                        assert(buf@ =~= had + (done + ctx_json(esc@, n, text@, file_score@)));
                    },
                }
            },
        }
        i = i + 1;
    }
    assert(rows@.take(i as int) =~= rows@);
    Ok(())
}

proof fn lemma_count_bound(lines: Seq<u64>, n: int)
    ensures
        crate::context::count_below(lines, n) <= lines.len(),
    decreases lines.len(),
{
    if lines.len() > 0 {
        lemma_count_bound(lines.drop_last(), n);
    }
}

proof fn lemma_fit_concat(a: Seq<CtxRow>, b: Seq<CtxRow>, n: nat)
    requires
        rows_fit(a, n),
        rows_fit(b, n),
    ensures
        rows_fit(a + b, n),
{
    assert forall|i: int| 0 <= i < (a + b).len() implies ((#[trigger] (a + b)[i]) matches CtxRow::Hit(k) ==> k < n) by {
        if i < a.len() {
            assert((a + b)[i] == a[i]);
        } else {
            assert((a + b)[i] == b[i - a.len()]);
        }
    }
}

proof fn lemma_span_fit(lines: Seq<u64>, lo: int, hi: int, every: bool)
    requires
        lines.len() <= usize::MAX,
    ensures
        rows_fit(crate::context::span_rows(lines, lo, hi, every), lines.len()),
    decreases hi - lo + 1,
{
    if hi >= lo {
        lemma_span_fit(lines, lo, hi - 1, every);
        lemma_count_bound(lines, hi);
        lemma_count_bound(lines, hi + 1);
        lemma_fit_concat(
            crate::context::span_rows(lines, lo, hi - 1, every),
            crate::context::line_rows(lines, hi, every),
            lines.len(),
        );
    }
}

proof fn lemma_groups_fit(lines: Seq<u64>, groups: Seq<(u64, u64)>, nlines: int, every: bool)
    requires
        lines.len() <= usize::MAX,
    ensures
        rows_fit(crate::context::group_rows(lines, groups, nlines, every), lines.len()),
    decreases groups.len(),
{
    if groups.len() > 0 {
        let hi = if groups.last().1 <= nlines {
            groups.last().1 as int
        } else {
            nlines
        };
        let front = crate::context::group_rows(lines, groups.drop_last(), nlines, every);
        let sep: Seq<CtxRow> = if groups.len() > 1 {
            seq![CtxRow::Separator]
        } else {
            Seq::empty()
        };
        lemma_groups_fit(lines, groups.drop_last(), nlines, every);
        lemma_span_fit(lines, groups.last().0 as int, hi, every);
        lemma_fit_concat(front, sep, lines.len());
        lemma_fit_concat(
            front + sep,
            crate::context::span_rows(lines, groups.last().0 as int, hi, every),
            lines.len(),
        );
    }
}

/// The hits `mis` by line.
pub open spec fn by_line(metas: Seq<HitMeta>, mis: Seq<usize>) -> Seq<usize> {
    choose|sorted: Seq<usize>| is_line_order(metas, mis, sorted)
}

proof fn lemma_by_line(metas: Seq<HitMeta>, mis: Seq<usize>, sorted: Seq<usize>)
    requires
        is_line_order(metas, mis, sorted),
        mis.len() <= usize::MAX,
    ensures
        sorted == by_line(metas, mis),
{
    let other = by_line(metas, mis);
    let lines = lines_at(metas, mis);
    let p = choose|p: Seq<usize>|
        #![trigger crate::order::is_stable_order(lines, p)]
        crate::order::is_stable_order(lines, p) && sorted == Seq::new(p.len(), |k: int| mis[p[k] as int]);
    let q = choose|q: Seq<usize>|
        #![trigger crate::order::is_stable_order(lines, q)]
        crate::order::is_stable_order(lines, q) && other == Seq::new(q.len(), |k: int| mis[q[k] as int]);
    crate::order::law_stable_order_is_unique(lines, p, q);
}

pub proof fn lemma_hits_in_len(ord: Seq<usize>, loc: Seq<(usize, usize)>, f: usize)
    ensures
        crate::context::hits_in(ord, loc, f).len() <= ord.len(),
    decreases ord.len(),
{
    if ord.len() > 0 {
        lemma_hits_in_len(ord.drop_last(), loc, f);
    }
}

/// The rows of file `f` of the ranked hits.
pub open spec fn file_rows(
    files: Seq<FileHits>,
    loc: Seq<(usize, usize)>,
    ord: Seq<usize>,
    f: usize,
    before: usize,
    after: usize,
    every: bool,
) -> Seq<CtxRow> {
    let fh = files[f as int];
    let mis = by_line(fh.metas@, crate::context::hits_in(ord, loc, f));
    rows_of(lines_at(fh.metas@, mis), fh.line_starts@.len() as int, before, after, every)
}

/// The context display of the files `met`, as text.
pub open spec fn ctx_text_files(
    files: Seq<FileHits>,
    shown: Seq<Seq<char>>,
    loc: Seq<(usize, usize)>,
    ord: Seq<usize>,
    met: Seq<usize>,
    before: usize,
    after: usize,
    sep: Seq<char>,
    color: Option<(Seq<char>, MatcherConfig)>,
) -> Result<Seq<u8>, RenderFault>
    decreases met.len(),
{
    if met.len() == 0 {
        Ok(Seq::empty())
    } else {
        let f = met.last();
        let fh = files[f as int];
        let mis = by_line(fh.metas@, crate::context::hits_in(ord, loc, f));
        match ctx_text_files(files, shown, loc, ord, met.drop_last(), before, after, sep, color) {
            Err(e) => Err(e),
            Ok(front) => match ctx_text_rows(
                fh,
                shown[f as int],
                mis,
                file_rows(files, loc, ord, f, before, after, false),
                sep,
                color,
            ) {
                Err(e) => Err(e),
                Ok(rows) => Ok(front + rows),
            },
        }
    }
}

/// The context display of the files `met`, as JSON.
pub open spec fn ctx_wire_files(
    files: Seq<FileHits>,
    shown: Seq<Seq<char>>,
    loc: Seq<(usize, usize)>,
    ord: Seq<usize>,
    met: Seq<usize>,
    before: usize,
    after: usize,
    scores: Seq<Seq<Seq<u8>>>,
    file_scores: Seq<Seq<u8>>,
) -> Result<Seq<u8>, RenderFault>
    decreases met.len(),
{
    if met.len() == 0 {
        Ok(Seq::empty())
    } else {
        let f = met.last();
        let fh = files[f as int];
        let mis = by_line(fh.metas@, crate::context::hits_in(ord, loc, f));
        match ctx_wire_files(files, shown, loc, ord, met.drop_last(), before, after, scores, file_scores) {
            Err(e) => Err(e),
            Ok(front) => match ctx_wire_rows(
                fh,
                shown[f as int],
                mis,
                file_rows(files, loc, ord, f, before, after, true),
                scores[f as int],
                file_scores[f as int],
            ) {
                Err(e) => Err(e),
                Ok(rows) => Ok(front + rows),
            },
        }
    }
}

proof fn lemma_ctx_text_files_fault(
    files: Seq<FileHits>,
    shown: Seq<Seq<char>>,
    loc: Seq<(usize, usize)>,
    ord: Seq<usize>,
    met: Seq<usize>,
    before: usize,
    after: usize,
    sep: Seq<char>,
    color: Option<(Seq<char>, MatcherConfig)>,
    k: int,
)
    requires
        0 <= k <= met.len(),
        ctx_text_files(files, shown, loc, ord, met.take(k), before, after, sep, color) is Err,
    ensures
        ctx_text_files(files, shown, loc, ord, met, before, after, sep, color) == ctx_text_files(
            files,
            shown,
            loc,
            ord,
            met.take(k),
            before,
            after,
            sep,
            color,
        ),
    decreases met.len() - k,
{
    if k == met.len() {
        assert(met.take(k) =~= met);
    } else {
        assert(met.take(k + 1).drop_last() =~= met.take(k));
        lemma_ctx_text_files_fault(files, shown, loc, ord, met, before, after, sep, color, k + 1);
    }
}

proof fn lemma_ctx_wire_files_fault(
    files: Seq<FileHits>,
    shown: Seq<Seq<char>>,
    loc: Seq<(usize, usize)>,
    ord: Seq<usize>,
    met: Seq<usize>,
    before: usize,
    after: usize,
    scores: Seq<Seq<Seq<u8>>>,
    file_scores: Seq<Seq<u8>>,
    k: int,
)
    requires
        0 <= k <= met.len(),
        ctx_wire_files(files, shown, loc, ord, met.take(k), before, after, scores, file_scores) is Err,
    ensures
        ctx_wire_files(files, shown, loc, ord, met, before, after, scores, file_scores) == ctx_wire_files(
            files,
            shown,
            loc,
            ord,
            met.take(k),
            before,
            after,
            scores,
            file_scores,
        ),
    decreases met.len() - k,
{
    if k == met.len() {
        assert(met.take(k) =~= met);
    } else {
        assert(met.take(k + 1).drop_last() =~= met.take(k));
        lemma_ctx_wire_files_fault(files, shown, loc, ord, met, before, after, scores, file_scores, k + 1);
    }
}

/// Render hits with the lines around them: files as ranking meets them, lines
/// ascending within a file, a separator between disjoint groups of one file and
/// none between files. A line with several hits is shown once.
pub fn render_context(
    files: &[FileHits],
    shown: &[String],
    loc: &[(usize, usize)],
    ord: &[usize],
    before: usize,
    after: usize,
    sep: &str,
    matcher: Option<&LineMatcher>,
) -> (res: Result<Vec<u8>, RenderFault>)
    requires
        shown@.len() == files@.len(),
        locs_fit(files@, loc@),
        ord_fits(ord@, loc@.len()),
    ensures
        bytes_agree(
            res,
            ctx_text_files(
                files@,
                views(shown@),
                loc@,
                ord@,
                files_met(ord@, loc@),
                before,
                after,
                sep@,
                color_of(matcher),
            ),
        ),
{
    let groups: Vec<(usize, Vec<usize>)> = ctx_file_groups(files, loc, ord);
    let ghost met = files_met(ord@, loc@);
    let ghost paths = views(shown@);
    let ghost color = color_of(matcher);
    let _hits: usize = ord.len();
    let mut buf: Vec<u8> = Vec::new();
    let mut g: usize = 0;
    while g < groups.len()
        invariant
            g <= groups@.len(),
            met == files_met(ord@, loc@),
            paths == views(shown@),
            color == color_of(matcher),
            ord@.len() <= usize::MAX,
            shown@.len() == files@.len(),
            groups@.len() == met.len(),
            forall|k: int| 0 <= k < groups@.len() ==> is_file_group(#[trigger] groups@[k], files@, loc@, ord@, met[k]),
            ctx_text_files(files@, paths, loc@, ord@, met.take(g as int), before, after, sep@, color) == Ok::<
                Seq<u8>,
                RenderFault,
            >(buf@),
        decreases groups@.len() - g,
    {
        let f: usize = groups[g].0;
        let mis: &Vec<usize> = &groups[g].1;
        assert(is_file_group(groups@[g as int], files@, loc@, ord@, met[g as int]));
        let fh: &FileHits = &files[f];
        let lines: Vec<u64> = group_lines(&fh.metas, mis);
        let rows: Vec<CtxRow> = ctx_rows(&lines, fh.line_starts.len() as u64, before, after, false);
        proof {
            assert(met.take(g + 1).drop_last() =~= met.take(g as int));
            assert(met.take(g + 1).last() == f);
            assert(paths[f as int] == shown@[f as int]@);
            lemma_hits_in_len(ord@, loc@, f);
            lemma_by_line(fh.metas@, crate::context::hits_in(ord@, loc@, f), mis@);
            assert(rows@ == file_rows(files@, loc@, ord@, f, before, after, false));
            lemma_groups_fit(
                lines@,
                crate::context::groups_of(lines@, before, after),
                fh.line_starts@.len() as int,
                false,
            );
        }
        let ghost had = buf@;
        match push_ctx_text(&mut buf, fh, shown[f].as_str(), mis, &rows, sep, matcher) {
            Err(e) => {
                proof {
                    lemma_ctx_text_files_fault(files@, paths, loc@, ord@, met, before, after, sep@, color, g + 1);
                }
                return Err(e);
            },
            Ok(_) => {},
        }
        g = g + 1;
    }
    assert(met.take(g as int) =~= met);
    Ok(buf)
}

/// The bytes of a list of texts.
pub open spec fn text_list(v: Seq<Vec<u8>>) -> Seq<Seq<u8>> {
    Seq::new(v.len(), |k: int| v[k]@)
}

/// Render hits with the lines around them as JSON lines, context lines marked as
/// such and carrying the score of their file.
pub fn render_context_wire(
    files: &[FileHits],
    shown: &[String],
    loc: &[(usize, usize)],
    ord: &[usize],
    before: usize,
    after: usize,
    scores: &[Vec<Vec<u8>>],
    file_scores: &[Vec<u8>],
) -> (res: Result<Vec<u8>, RenderFault>)
    requires
        shown@.len() == files@.len(),
        file_scores@.len() == files@.len(),
        scores_fit(files@, scores@),
        locs_fit(files@, loc@),
        ord_fits(ord@, loc@.len()),
    ensures
        bytes_agree(
            res,
            ctx_wire_files(
                files@,
                views(shown@),
                loc@,
                ord@,
                files_met(ord@, loc@),
                before,
                after,
                score_texts(scores@),
                text_list(file_scores@),
            ),
        ),
{
    let groups: Vec<(usize, Vec<usize>)> = ctx_file_groups(files, loc, ord);
    let ghost met = files_met(ord@, loc@);
    let ghost paths = views(shown@);
    let ghost texts = score_texts(scores@);
    let ghost ftexts = text_list(file_scores@);
    let _hits: usize = ord.len();
    let mut buf: Vec<u8> = Vec::new();
    let mut g: usize = 0;
    while g < groups.len()
        invariant
            g <= groups@.len(),
            met == files_met(ord@, loc@),
            paths == views(shown@),
            texts == score_texts(scores@),
            ftexts == text_list(file_scores@),
            ord@.len() <= usize::MAX,
            shown@.len() == files@.len(),
            file_scores@.len() == files@.len(),
            scores_fit(files@, scores@),
            groups@.len() == met.len(),
            forall|k: int| 0 <= k < groups@.len() ==> is_file_group(#[trigger] groups@[k], files@, loc@, ord@, met[k]),
            ctx_wire_files(files@, paths, loc@, ord@, met.take(g as int), before, after, texts, ftexts) == Ok::<
                Seq<u8>,
                RenderFault,
            >(buf@),
        decreases groups@.len() - g,
    {
        let f: usize = groups[g].0;
        let mis: &Vec<usize> = &groups[g].1;
        assert(is_file_group(groups@[g as int], files@, loc@, ord@, met[g as int]));
        let fh: &FileHits = &files[f];
        let lines: Vec<u64> = group_lines(&fh.metas, mis);
        let rows: Vec<CtxRow> = ctx_rows(&lines, fh.line_starts.len() as u64, before, after, true);
        proof {
            assert(met.take(g + 1).drop_last() =~= met.take(g as int));
            assert(met.take(g + 1).last() == f);
            assert(paths[f as int] == shown@[f as int]@);
            assert(scores@[f as int]@.len() == fh.metas@.len());
            assert(texts[f as int] == Seq::new(scores@[f as int]@.len(), |k: int| scores@[f as int]@[k]@));
            lemma_hits_in_len(ord@, loc@, f);
            lemma_by_line(fh.metas@, crate::context::hits_in(ord@, loc@, f), mis@);
            assert(rows@ == file_rows(files@, loc@, ord@, f, before, after, true));
            lemma_groups_fit(
                lines@,
                crate::context::groups_of(lines@, before, after),
                fh.line_starts@.len() as int,
                true,
            );
        }
        match push_ctx_wire(&mut buf, fh, shown[f].as_str(), mis, &rows, &scores[f], &file_scores[f]) {
            Err(e) => {
                proof {
                    lemma_ctx_wire_files_fault(files@, paths, loc@, ord@, met, before, after, texts, ftexts, g + 1);
                }
                return Err(e);
            },
            Ok(_) => {},
        }
        g = g + 1;
    }
    assert(met.take(g as int) =~= met);
    Ok(buf)
}

// ---- what is shown ----

/// Hits are shown in their rank order, each by the path of its file, its line and its text
/// without the end of the line, and nothing else is.
pub proof fn law_text_shows_the_ranked_hits(
    files: Seq<FileHits>,
    shown: Seq<Seq<char>>,
    loc: Seq<(usize, usize)>,
    ord: Seq<usize>,
)
    ensures
        text_rows(files, shown, loc, ord, None) is Ok <==> forall|i: int|
            #![trigger ord[i]]
            0 <= i < ord.len() ==> {
                let m = files[loc[ord[i] as int].0 as int].metas@[loc[ord[i] as int].1 as int];
                m.start <= m.end <= files[loc[ord[i] as int].0 as int].arena@.len()
            },
        text_rows(files, shown, loc, ord, None) matches Ok(bytes) ==> bytes == Seq::new(
            ord.len(),
            |i: int|
                {
                    let (f, k) = loc[ord[i] as int];
                    let m = files[f as int].metas@[k as int];
                    encode_utf8(shown[f as int]) + seq![58u8] + digits(m.line as nat) + seq![58u8] + encode_utf8(
                        line_text(files[f as int].arena@.subrange(m.start as int, m.end as int)),
                    ) + seq![10u8]
                },
        ).flatten(),
    decreases ord.len(),
{
    let write = |i: int|
        {
            let (f, k) = loc[ord[i] as int];
            let m = files[f as int].metas@[k as int];
            encode_utf8(shown[f as int]) + seq![58u8] + digits(m.line as nat) + seq![58u8] + encode_utf8(
                line_text(files[f as int].arena@.subrange(m.start as int, m.end as int)),
            ) + seq![10u8]
        };
    let all = Seq::new(ord.len(), write);
    all.lemma_flatten_and_flatten_alt_are_equivalent();
    if ord.len() > 0 {
        let front = ord.drop_last();
        law_text_shows_the_ranked_hits(files, shown, loc, front);
        let had = Seq::new(
            front.len(),
            |i: int|
                {
                    let (f, k) = loc[front[i] as int];
                    let m = files[f as int].metas@[k as int];
                    encode_utf8(shown[f as int]) + seq![58u8] + digits(m.line as nat) + seq![58u8] + encode_utf8(
                        line_text(files[f as int].arena@.subrange(m.start as int, m.end as int)),
                    ) + seq![10u8]
                },
        );
        had.lemma_flatten_and_flatten_alt_are_equivalent();
        assert(all.drop_last() =~= had);
        assert(ord[ord.len() - 1] == ord.last());
        assert(forall|i: int| 0 <= i < front.len() ==> front[i] == ord[i]);
        let (f, k) = loc[ord.last() as int];
        let m = files[f as int].metas@[k as int];
        if m.start <= m.end <= files[f as int].arena@.len() {
            let text = line_text(files[f as int].arena@.subrange(m.start as int, m.end as int));
            law_rows_are_laid_out(shown[f as int], m.line, 58, encode_utf8(text), 0);
            assert(all.last() == text_row(shown[f as int], m.line, 58, encode_utf8(text)));
        }
    }
}

/// JSON shows the same hits in the same order, each as an object with the score that was
/// given for it.
pub proof fn law_json_shows_the_ranked_hits(
    files: Seq<FileHits>,
    shown: Seq<Seq<char>>,
    loc: Seq<(usize, usize)>,
    ord: Seq<usize>,
    scores: Seq<Seq<Seq<u8>>>,
)
    ensures
        json_rows(files, shown, loc, ord, scores) is Ok <==> text_rows(files, shown, loc, ord, None) is Ok,
        json_rows(files, shown, loc, ord, scores) matches Ok(bytes) ==> bytes == Seq::new(
            ord.len(),
            |i: int|
                {
                    let (f, k) = loc[ord[i] as int];
                    let m = files[f as int].metas@[k as int];
                    hit_json(
                        json_bytes(encode_utf8(shown[f as int])),
                        m.line,
                        line_text(files[f as int].arena@.subrange(m.start as int, m.end as int)),
                        scores[f as int][k as int],
                    )
                },
        ).flatten(),
    decreases ord.len(),
{
    let write = |i: int|
        {
            let (f, k) = loc[ord[i] as int];
            let m = files[f as int].metas@[k as int];
            hit_json(
                json_bytes(encode_utf8(shown[f as int])),
                m.line,
                line_text(files[f as int].arena@.subrange(m.start as int, m.end as int)),
                scores[f as int][k as int],
            )
        };
    let all = Seq::new(ord.len(), write);
    all.lemma_flatten_and_flatten_alt_are_equivalent();
    if ord.len() > 0 {
        let front = ord.drop_last();
        law_json_shows_the_ranked_hits(files, shown, loc, front, scores);
        let had = Seq::new(
            front.len(),
            |i: int|
                {
                    let (f, k) = loc[front[i] as int];
                    let m = files[f as int].metas@[k as int];
                    hit_json(
                        json_bytes(encode_utf8(shown[f as int])),
                        m.line,
                        line_text(files[f as int].arena@.subrange(m.start as int, m.end as int)),
                        scores[f as int][k as int],
                    )
                },
        );
        had.lemma_flatten_and_flatten_alt_are_equivalent();
        assert(all.drop_last() =~= had);
        assert(ord[ord.len() - 1] == ord.last());
    }
}

/// In a display with context a hit is shown as it is without, a line around hits with a dash
/// in place of the second colon, and a separator on a line of its own unless it is empty.
pub proof fn law_context_rows_are_laid_out(
    fh: FileHits,
    path: Seq<char>,
    mis: Seq<usize>,
    k: usize,
    n: u64,
    sep: Seq<char>,
)
    ensures
        ({
            let m = fh.metas@[mis[k as int] as int];
            m.start <= m.end <= fh.arena@.len() ==> ctx_text_row(fh, path, mis, CtxRow::Hit(k), sep, None) == Ok::<
                Seq<u8>,
                RenderFault,
            >(
                encode_utf8(path) + seq![58u8] + digits(m.line as nat) + seq![58u8] + encode_utf8(
                    line_text(fh.arena@.subrange(m.start as int, m.end as int)),
                ) + seq![10u8],
            )
        }),
        ctx_range(fh, n) matches Ok((a, b)) ==> ctx_text_row(fh, path, mis, CtxRow::Context(n), sep, None) == Ok::<
            Seq<u8>,
            RenderFault,
        >(
            encode_utf8(path) + seq![58u8] + digits(n as nat) + seq![45u8] + encode_utf8(
                line_text(fh.arena@.subrange(a as int, b as int)),
            ) + seq![10u8],
        ),
        ctx_text_row(fh, path, mis, CtxRow::Separator, sep, None) == Ok::<Seq<u8>, RenderFault>(
            if sep.len() == 0 {
                Seq::empty()
            } else {
                encode_utf8(sep) + seq![10u8]
            },
        ),
{
    let m = fh.metas@[mis[k as int] as int];
    if m.start <= m.end <= fh.arena@.len() {
        let text = line_text(fh.arena@.subrange(m.start as int, m.end as int));
        law_rows_are_laid_out(path, m.line, 58, encode_utf8(text), 0);
    }
    if ctx_range(fh, n) is Ok {
        let (a, b) = ctx_range(fh, n)->Ok_0;
        law_rows_are_laid_out(path, n, 45, encode_utf8(line_text(fh.arena@.subrange(a as int, b as int))), 0);
    }
    assert(encode_utf8(sep).push(10u8) =~= encode_utf8(sep) + seq![10u8]);
}

/// The rows of a file are written one after the other, each once and nothing in between.
pub proof fn law_every_context_row_is_written(
    fh: FileHits,
    path: Seq<char>,
    mis: Seq<usize>,
    rows: Seq<CtxRow>,
    sep: Seq<char>,
    color: Option<(Seq<char>, MatcherConfig)>,
)
    ensures
        ctx_text_rows(fh, path, mis, rows, sep, color) is Ok <==> forall|i: int|
            0 <= i < rows.len() ==> ctx_text_row(fh, path, mis, #[trigger] rows[i], sep, color) is Ok,
        ctx_text_rows(fh, path, mis, rows, sep, color) matches Ok(bytes) ==> bytes == rows.map_values(
            |r: CtxRow| ctx_text_row(fh, path, mis, r, sep, color)->Ok_0,
        ).flatten(),
    decreases rows.len(),
{
    let write = |r: CtxRow| ctx_text_row(fh, path, mis, r, sep, color)->Ok_0;
    let all = rows.map_values(write);
    all.lemma_flatten_and_flatten_alt_are_equivalent();
    if rows.len() > 0 {
        let front = rows.drop_last();
        law_every_context_row_is_written(fh, path, mis, front, sep, color);
        front.map_values(write).lemma_flatten_and_flatten_alt_are_equivalent();
        assert(all.drop_last() =~= front.map_values(write));
        assert(rows[rows.len() - 1] == rows.last());
        assert(forall|i: int| 0 <= i < front.len() ==> front[i] == rows[i]);
    }
}

/// The files of a display with context are written one after the other, in the order in which
/// ranking meets them, each with its own rows.
pub proof fn law_every_file_is_written(
    files: Seq<FileHits>,
    shown: Seq<Seq<char>>,
    loc: Seq<(usize, usize)>,
    ord: Seq<usize>,
    met: Seq<usize>,
    before: usize,
    after: usize,
    sep: Seq<char>,
    color: Option<(Seq<char>, MatcherConfig)>,
)
    ensures
        ctx_text_files(files, shown, loc, ord, met, before, after, sep, color) matches Ok(bytes) ==> bytes == met.map_values(
            |f: usize|
                ctx_text_rows(
                    files[f as int],
                    shown[f as int],
                    by_line(files[f as int].metas@, crate::context::hits_in(ord, loc, f)),
                    file_rows(files, loc, ord, f, before, after, false),
                    sep,
                    color,
                )->Ok_0,
        ).flatten(),
    decreases met.len(),
{
    let write = |f: usize|
        ctx_text_rows(
            files[f as int],
            shown[f as int],
            by_line(files[f as int].metas@, crate::context::hits_in(ord, loc, f)),
            file_rows(files, loc, ord, f, before, after, false),
            sep,
            color,
        )->Ok_0;
    let all = met.map_values(write);
    all.lemma_flatten_and_flatten_alt_are_equivalent();
    if met.len() > 0 {
        let front = met.drop_last();
        law_every_file_is_written(files, shown, loc, ord, front, before, after, sep, color);
        front.map_values(write).lemma_flatten_and_flatten_alt_are_equivalent();
        assert(all.drop_last() =~= front.map_values(write));
    }
}

/// A highlighted hit is shown as a plain one is, but for its text: the spans that are not
/// empty are wrapped, and without any the text stays as it is.
pub proof fn law_highlighted_rows_wrap_the_spans(path: Seq<char>, line: u64, text: Seq<char>, c: (Seq<char>, MatcherConfig))
    ensures
        ({
            let kept = found_spans(c.0, c.1, encode_utf8(text)).filter(|s: (usize, usize)| s.0 < s.1);
            let styled = if kept.len() == 0 {
                encode_utf8(text)
            } else {
                highlighted(encode_utf8(text), kept)
            };
            hit_row(path, line, text, Some(c)) matches Ok(row) ==> row == encode_utf8(path) + seq![58u8] + digits(
                line as nat,
            ) + seq![58u8] + styled + seq![10u8]
        }),
{
    let bytes = encode_utf8(text);
    let spans = found_spans(c.0, c.1, bytes);
    lemma_nonempty_spans(spans);
    if row_text(bytes, spans) is Some {
        law_rows_are_laid_out(path, line, 58, row_text(bytes, spans)->Some_0, 0);
    }
}

} // verus!
