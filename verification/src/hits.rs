//! Hits in memory: per file, the bytes of its matched lines and where each lies.

use crate::context::{files_met, law_files_are_met_best_first};
use crate::lines::{find_line_starts, ints, lemma_starts, line_count, line_end, line_of, line_starts_of};
use crate::matcher::{are_lines_of, has_line, lines_view, split_lines};
use crate::text::{chars_of, lossy_text, string_of, utf8_lossy};
use std::collections::HashSet;
use vstd::prelude::*;

verus! {

broadcast use vstd::std_specs::hash::group_hash_axioms;

/// One hit: its line, where its bytes lie in the arena, and its ranking key.
#[derive(Clone, Copy, Debug, PartialEq, Eq, Structural)]
pub struct HitMeta {
    pub line: u64,
    pub start: usize,
    pub end: usize,
    pub key: u64,
}

/// The hits of one file.
pub struct FileHits {
    /// Id of the file.
    pub pid: u32,
    /// The bytes that hits point into.
    pub arena: Vec<u8>,
    /// The hits, in file order.
    pub metas: Vec<HitMeta>,
    /// Where lines start in the arena; empty unless the arena is the whole file.
    pub line_starts: Vec<usize>,
}

/// Why a hit cannot be shown.
#[derive(Clone, Copy, Debug, PartialEq, Eq, Structural)]
pub enum HitFault {
    /// A hit or a context line has number zero.
    LineZero,
    /// A line lies past the last of `lines` lines.
    LinePastEnd { line: u64, lines: usize },
    /// The bytes of a hit lie outside the arena.
    BadOffsets { start: usize, end: usize, len: usize },
}

// ---- banking ----

/// The line number that is kept for a reported one.
pub open spec fn kept_line(n: u64) -> u64 {
    if n == 0 {
        1
    } else {
        n
    }
}

/// The bytes of the lines, one after the other.
pub open spec fn banked_bytes(lines: Seq<(u64, Seq<u8>)>) -> Seq<u8>
    decreases lines.len(),
{
    if lines.len() == 0 {
        Seq::empty()
    } else {
        banked_bytes(lines.drop_last()) + lines.last().1
    }
}

/// The hit that the line at position `k` becomes.
pub open spec fn banked_meta(lines: Seq<(u64, Seq<u8>)>, keys: Seq<u64>, k: int) -> HitMeta {
    HitMeta {
        line: kept_line(lines[k].0),
        start: banked_bytes(lines.take(k)).len() as usize,
        end: banked_bytes(lines.take(k + 1)).len() as usize,
        key: keys[k],
    }
}

/// The hits are those of the lines, one for one, with their bytes end to end.
pub open spec fn is_bank_of(fh: FileHits, lines: Seq<(u64, Seq<u8>)>, keys: Seq<u64>) -> bool {
    &&& fh.arena@ == banked_bytes(lines)
    &&& fh.metas@.len() == lines.len()
    &&& forall|k: int| 0 <= k < lines.len() ==> #[trigger] fh.metas@[k] == banked_meta(lines, keys, k)
    &&& fh.line_starts@.len() == 0
}

/// Bank found lines as hits; `keys` gives the ranking key of each. No lines, no
/// hits.
pub fn bank_hits(pid: u32, lines: &[(u64, Vec<u8>)], keys: &[u64]) -> (res: Option<FileHits>)
    requires
        lines@.len() == keys@.len(),
    ensures
        match res {
            Some(fh) => lines@.len() > 0 && fh.pid == pid && is_bank_of(fh, lines_view(lines@), keys@),
            None => lines@.len() == 0,
        },
{
    if lines.len() == 0 {
        return None;
    }
    let ghost all = lines_view(lines@);
    let mut arena: Vec<u8> = Vec::new();
    let mut metas: Vec<HitMeta> = Vec::new();
    let mut k: usize = 0;
    assert(all.take(0) =~= Seq::empty());
    while k < lines.len()
        invariant
            k <= lines@.len(),
            lines@.len() == keys@.len(),
            all == lines_view(lines@),
            arena@ == banked_bytes(all.take(k as int)),
            metas@.len() == k,
            forall|x: int| 0 <= x < k ==> #[trigger] metas@[x] == banked_meta(all, keys@, x),
        decreases lines@.len() - k,
    {
        proof {
            assert(all.take(k + 1).drop_last() =~= all.take(k as int));
            assert(all.take(k + 1).last() == (lines@[k as int].0, lines@[k as int].1@));
        }
        let number: u64 = if lines[k].0 == 0 {
            1
        } else {
            lines[k].0
        };
        let start: usize = arena.len();
        arena.extend_from_slice(lines[k].1.as_slice());
        assert(arena@ =~= banked_bytes(all.take(k + 1)));
        let end: usize = arena.len();
        metas.push(HitMeta { line: number, start, end, key: keys[k] });
        k = k + 1;
    }
    assert(all.take(k as int) =~= all);
    Some(FileHits { pid, arena, metas, line_starts: Vec::new() })
}

proof fn lemma_banked_slice(lines: Seq<(u64, Seq<u8>)>, k: int)
    requires
        0 <= k < lines.len(),
    ensures
        banked_bytes(lines.take(k)).len() + lines[k].1.len() == banked_bytes(lines.take(k + 1)).len(),
        banked_bytes(lines.take(k + 1)).len() <= banked_bytes(lines).len(),
        banked_bytes(lines).subrange(
            banked_bytes(lines.take(k)).len() as int,
            banked_bytes(lines.take(k + 1)).len() as int,
        ) == lines[k].1,
    decreases lines.len(),
{
    assert(lines.take(k + 1).drop_last() =~= lines.take(k));
    assert(lines.take(k + 1).last() == lines[k]);
    let n = lines.len() as int;
    assert(banked_bytes(lines) == banked_bytes(lines.drop_last()) + lines.last().1);
    if k == n - 1 {
        assert(lines.take(k + 1) =~= lines);
        assert(lines.take(k) =~= lines.drop_last());
        assert(banked_bytes(lines).subrange(
            banked_bytes(lines.take(k)).len() as int,
            banked_bytes(lines).len() as int,
        ) =~= lines[k].1);
    } else {
        let front = lines.drop_last();
        lemma_banked_slice(front, k);
        assert(front.take(k) =~= lines.take(k));
        assert(front.take(k + 1) =~= lines.take(k + 1));
        let a = banked_bytes(lines.take(k)).len() as int;
        let b = banked_bytes(lines.take(k + 1)).len() as int;
        assert(banked_bytes(lines).subrange(a, b) =~= banked_bytes(front).subrange(a, b));
    }
}

/// A banked hit points at the bytes of its line.
pub proof fn law_banked_hit_holds_line(fh: FileHits, lines: Seq<(u64, Seq<u8>)>, keys: Seq<u64>, k: int)
    requires
        is_bank_of(fh, lines, keys),
        0 <= k < lines.len(),
        fh.arena@.len() <= usize::MAX,
    ensures
        fh.metas@[k].start <= fh.metas@[k].end <= fh.arena@.len(),
        fh.arena@.subrange(fh.metas@[k].start as int, fh.metas@[k].end as int) == lines[k].1,
{
    lemma_banked_slice(lines, k);
    assert(fh.metas@[k] == banked_meta(lines, keys, k));
}

/// What banking lines gives: no lines, no hits.
pub open spec fn banks(res: Option<FileHits>, lines: Seq<(u64, Seq<u8>)>, keys: Seq<u64>) -> bool {
    match res {
        Some(fh) => lines.len() > 0 && is_bank_of(fh, lines, keys),
        None => lines.len() == 0,
    }
}

/// Some hit is on line `n`.
pub open spec fn has_hit_on(res: Option<FileHits>, n: int) -> bool {
    res matches Some(fh) && exists|k: int| 0 <= k < fh.metas@.len() && (#[trigger] fh.metas@[k]).line == n
}

/// The lines of the hits ascend and are lines of the buffer.
pub open spec fn hits_ascend(res: Option<FileHits>, buf: Seq<u8>) -> bool {
    res matches Some(fh) ==> {
        &&& forall|k: int| 0 <= k < fh.metas@.len() ==> 1 <= (#[trigger] fh.metas@[k]).line <= line_count(buf)
        &&& forall|j: int, k: int|
            0 <= j < k < fh.metas@.len() ==> (#[trigger] fh.metas@[j]).line < (#[trigger] fh.metas@[k]).line
    }
}

proof fn lemma_hits_of_lines(res: Option<FileHits>, lines: Seq<(u64, Seq<u8>)>, keys: Seq<u64>, buf: Seq<u8>)
    requires
        banks(res, lines, keys),
        are_lines_of(lines, buf),
    ensures
        hits_ascend(res, buf),
        forall|n: int| has_hit_on(res, n) <==> #[trigger] has_line(lines, n),
{
    if let Some(fh) = res {
        assert forall|k: int| 0 <= k < lines.len() implies (#[trigger] fh.metas@[k]).line == lines[k].0 && 1
            <= lines[k].0 <= line_count(buf) by {
            assert(fh.metas@[k] == banked_meta(lines, keys, k));
            assert(1 <= lines[k].0);
        }
        assert forall|n: int| has_hit_on(res, n) <==> #[trigger] has_line(lines, n) by {
            if has_hit_on(res, n) {
                let k = choose|k: int| 0 <= k < fh.metas@.len() && (#[trigger] fh.metas@[k]).line == n;
                assert(lines[k].0 == n);
            }
            if has_line(lines, n) {
                let k = choose|k: int| 0 <= k < lines.len() && (#[trigger] lines[k]).0 == n;
                assert(fh.metas@[k].line == n);
            }
        }
        assert forall|j: int, k: int| 0 <= j < k < fh.metas@.len() implies (#[trigger] fh.metas@[j]).line < (
        #[trigger] fh.metas@[k]).line by {
            assert(lines[j].0 < lines[k].0);
        }
    }
}

/// The hits of a plain and of an inverted search of a buffer share its lines out: every
/// line holds a hit of exactly one of them, and the hits of each ascend.
pub proof fn law_plain_and_inverted_hits_share_the_lines(
    buf: Seq<u8>,
    plain: Seq<(u64, Seq<u8>)>,
    inverted: Seq<(u64, Seq<u8>)>,
    plain_keys: Seq<u64>,
    inverted_keys: Seq<u64>,
    plain_hits: Option<FileHits>,
    inverted_hits: Option<FileHits>,
    n: int,
)
    requires
        are_lines_of(plain, buf),
        are_lines_of(inverted, buf),
        split_lines(plain, inverted, buf),
        banks(plain_hits, plain, plain_keys),
        banks(inverted_hits, inverted, inverted_keys),
        1 <= n <= line_count(buf),
    ensures
        has_hit_on(plain_hits, n) <==> !has_hit_on(inverted_hits, n),
        hits_ascend(plain_hits, buf),
        hits_ascend(inverted_hits, buf),
{
    lemma_hits_of_lines(plain_hits, plain, plain_keys, buf);
    lemma_hits_of_lines(inverted_hits, inverted, inverted_keys, buf);
    assert(has_line(plain, n) <==> !has_line(inverted, n));
}

// ---- context ----

/// The first hit whose line the buffer does not have.
pub open spec fn first_bad_line(metas: Seq<HitMeta>, lines: nat) -> Option<HitFault>
    decreases metas.len(),
{
    if metas.len() == 0 {
        None
    } else {
        match first_bad_line(metas.drop_last(), lines) {
            Some(f) => Some(f),
            None => if metas.last().line == 0 {
                Some(HitFault::LineZero)
            } else if metas.last().line > lines {
                Some(HitFault::LinePastEnd { line: metas.last().line, lines: lines as usize })
            } else {
                None
            },
        }
    }
}

/// The hit re-pointed at its line in the whole buffer.
pub open spec fn moved_to_line(m: HitMeta, buf: Seq<u8>) -> HitMeta {
    HitMeta {
        start: line_starts_of(buf)[m.line - 1] as usize,
        end: line_end(buf, m.line as int) as usize,
        ..m
    }
}

/// `now` is `was` over the whole buffer.
pub open spec fn is_attached(now: FileHits, was: FileHits, buf: Seq<u8>) -> bool {
    &&& now.pid == was.pid
    &&& now.arena@ == buf
    &&& ints(now.line_starts@) == line_starts_of(buf)
    &&& now.metas@.len() == was.metas@.len()
    &&& forall|k: int| 0 <= k < was.metas@.len() ==> #[trigger] now.metas@[k] == moved_to_line(was.metas@[k], buf)
}

proof fn lemma_bad_line_persists(metas: Seq<HitMeta>, lines: nat, k: int)
    requires
        0 <= k <= metas.len(),
        first_bad_line(metas.take(k), lines) is Some,
    ensures
        first_bad_line(metas, lines) == first_bad_line(metas.take(k), lines),
    decreases metas.len() - k,
{
    if k == metas.len() {
        assert(metas.take(k) =~= metas);
    } else {
        assert(metas.take(k + 1).drop_last() =~= metas.take(k));
        lemma_bad_line_persists(metas, lines, k + 1);
    }
}

/// Lay the hits of a file over its whole bytes, so that lines around hits can be
/// shown: the arena becomes the buffer and each hit points at its line in it. A hit
/// whose line the buffer does not have is a fault, and changes nothing.
pub fn attach_context(fh: &mut FileHits, buf: &[u8]) -> (res: Result<(), HitFault>)
    ensures
        match res {
            Ok(_) => first_bad_line(old(fh).metas@, line_starts_of(buf@).len()) is None && is_attached(
                *final(fh),
                *old(fh),
                buf@,
            ),
            Err(f) => first_bad_line(old(fh).metas@, line_starts_of(buf@).len()) == Some(f) && *final(fh) == *old(fh),
        },
{
    let starts: Vec<usize> = find_line_starts(buf);
    let ghost was = *fh;
    let size: usize = buf.len();
    proof {
        lemma_starts(buf@, buf@.len() as int);
        assert(ints(starts@).len() == starts@.len());
    }
    let count: usize = starts.len();
    let mut metas: Vec<HitMeta> = Vec::new();
    let mut k: usize = 0;
    while k < fh.metas.len()
        invariant
            k <= fh.metas@.len(),
            *fh == was,
            size == buf@.len(),
            count == starts@.len() == line_starts_of(buf@).len(),
            ints(starts@) == line_starts_of(buf@),
            first_bad_line(was.metas@.take(k as int), line_starts_of(buf@).len()) is None,
            metas@.len() == k,
            forall|x: int| 0 <= x < k ==> #[trigger] metas@[x] == moved_to_line(was.metas@[x], buf@),
        decreases fh.metas@.len() - k,
    {
        let m: HitMeta = fh.metas[k];
        proof {
            assert(was.metas@.take(k + 1).drop_last() =~= was.metas@.take(k as int));
            assert(was.metas@.take(k + 1).last() == m);
        }
        if m.line == 0 {
            proof {
                lemma_bad_line_persists(was.metas@, line_starts_of(buf@).len(), k + 1);
            }
            return Err(HitFault::LineZero);
        }
        if m.line > count as u64 {
            proof {
                lemma_bad_line_persists(was.metas@, line_starts_of(buf@).len(), k + 1);
            }
            return Err(HitFault::LinePastEnd { line: m.line, lines: count });
        }
        let n: usize = m.line as usize;
        let start: usize = starts[n - 1];
        let end: usize = if n < count {
            starts[n]
        } else {
            size
        };
        proof {
            assert(line_starts_of(buf@)[n - 1] == ints(starts@)[n - 1]);
            if n < count {
                assert(line_starts_of(buf@)[n as int] == ints(starts@)[n as int]);
            }
        }
        metas.push(HitMeta { line: m.line, start, end, key: m.key });
        k = k + 1;
    }
    assert(was.metas@.take(k as int) =~= was.metas@);
    let mut arena: Vec<u8> = Vec::new();
    arena.extend_from_slice(buf);
    assert(arena@ =~= buf@);
    fh.arena = arena;
    fh.metas = metas;
    fh.line_starts = starts;
    Ok(())
}

/// Attaching context changes no hit's bytes: each points at the same line as before,
/// and none is refused. The lines are those that a search of a buffer without byte
/// order mark reports.
pub proof fn law_attached_hits_keep_bytes(
    was: FileHits,
    now: FileHits,
    lines: Seq<(u64, Seq<u8>)>,
    keys: Seq<u64>,
    buf: Seq<u8>,
    k: int,
)
    requires
        are_lines_of(lines, buf),
        is_bank_of(was, lines, keys),
        was.arena@.len() <= usize::MAX,
        buf.len() <= usize::MAX,
        is_attached(now, was, buf),
        0 <= k < lines.len(),
    ensures
        first_bad_line(was.metas@, line_starts_of(buf).len()) is None,
        now.metas@[k].line == was.metas@[k].line,
        now.metas@[k].start <= now.metas@[k].end <= now.arena@.len(),
        now.arena@.subrange(now.metas@[k].start as int, now.metas@[k].end as int) == was.arena@.subrange(
            was.metas@[k].start as int,
            was.metas@[k].end as int,
        ),
{
    law_banked_hit_holds_line(was, lines, keys, k);
    lemma_starts(buf, buf.len() as int);
    assert(1 <= lines[k].0 <= line_count(buf) && lines[k].1 == line_of(buf, lines[k].0 as int));
    assert(was.metas@[k] == banked_meta(lines, keys, k));
    let n = lines[k].0 as int;
    let s = line_starts_of(buf);
    if n < s.len() {
        assert(s[n - 1] < s[n]);
    }
    lemma_no_bad_line(was.metas@, lines, keys, buf, was.metas@.len() as int);
    assert(was.metas@.take(was.metas@.len() as int) =~= was.metas@);
}

proof fn lemma_no_bad_line(metas: Seq<HitMeta>, lines: Seq<(u64, Seq<u8>)>, keys: Seq<u64>, buf: Seq<u8>, n: int)
    requires
        are_lines_of(lines, buf),
        metas.len() == lines.len(),
        forall|k: int| 0 <= k < lines.len() ==> #[trigger] metas[k] == banked_meta(lines, keys, k),
        0 <= n <= metas.len(),
    ensures
        first_bad_line(metas.take(n), line_starts_of(buf).len()) is None,
    decreases n,
{
    if n > 0 {
        lemma_no_bad_line(metas, lines, keys, buf, n - 1);
        assert(metas.take(n).drop_last() =~= metas.take(n - 1));
        assert(metas.take(n).last() == metas[n - 1]);
        assert(1 <= lines[n - 1].0 <= line_count(buf));
    }
}

// ---- decoding ----

/// The text without newlines and carriage returns at its end.
pub open spec fn without_line_end(s: Seq<char>) -> Seq<char>
    decreases s.len(),
{
    if s.len() > 0 && (s.last() == '\n' || s.last() == '\r') {
        without_line_end(s.drop_last())
    } else {
        s
    }
}

/// The text of a line's bytes.
pub open spec fn line_text(bytes: Seq<u8>) -> Seq<char> {
    without_line_end(utf8_lossy(bytes))
}

/// The text without newlines and carriage returns at its end.
pub fn trim_line_end(text: &str) -> (out: String)
    ensures
        out@ == without_line_end(text@),
{
    let chars: Vec<char> = chars_of(text);
    let mut n: usize = chars.len();
    assert(chars@.take(n as int) =~= chars@);
    while n > 0 && (chars[n - 1] == '\n' || chars[n - 1] == '\r')
        invariant
            n <= chars@.len(),
            chars@ == text@,
            without_line_end(chars@.take(n as int)) == without_line_end(text@),
        decreases n,
    {
        assert(chars@.take(n as int).drop_last() =~= chars@.take(n - 1));
        n = n - 1;
    }
    let s: String = string_of(&chars[0..n]);
    assert(s@ =~= chars@.take(n as int));
    s
}

/// The text of a range of the arena.
pub fn banked_slice(arena: &[u8], start: usize, end: usize) -> (res: Result<String, HitFault>)
    ensures
        match res {
            Ok(s) => start <= end <= arena@.len() && s@ == line_text(arena@.subrange(start as int, end as int)),
            Err(f) => !(start <= end <= arena@.len()) && f == (HitFault::BadOffsets {
                start,
                end,
                len: arena@.len() as usize,
            }),
        },
{
    let len: usize = arena.len();
    if start > end || end > len {
        return Err(HitFault::BadOffsets { start, end, len });
    }
    let text: String = lossy_text(&arena[start..end]);
    Ok(trim_line_end(text.as_str()))
}

/// The text of a hit.
pub fn banked_text(fh: &FileHits, m: &HitMeta) -> (res: Result<String, HitFault>)
    ensures
        match res {
            Ok(s) => m.start <= m.end <= fh.arena@.len() && s@ == line_text(
                fh.arena@.subrange(m.start as int, m.end as int),
            ),
            Err(f) => !(m.start <= m.end <= fh.arena@.len()) && f == (HitFault::BadOffsets {
                start: m.start,
                end: m.end,
                len: fh.arena@.len() as usize,
            }),
        },
{
    banked_slice(fh.arena.as_slice(), m.start, m.end)
}

/// Where line `n` of an attached file lies.
pub open spec fn ctx_range(fh: FileHits, n: u64) -> Result<(usize, usize), HitFault> {
    if n == 0 {
        Err(HitFault::LineZero)
    } else if n > fh.line_starts@.len() {
        Err(HitFault::LinePastEnd { line: n, lines: fh.line_starts@.len() as usize })
    } else {
        let start = fh.line_starts@[n - 1];
        let end = if n < fh.line_starts@.len() {
            fh.line_starts@[n as int]
        } else {
            fh.arena@.len() as usize
        };
        if start <= end <= fh.arena@.len() {
            Ok((start, end))
        } else {
            Err(HitFault::BadOffsets { start, end, len: fh.arena@.len() as usize })
        }
    }
}

/// The text of line `line_no` of an attached file.
pub fn ctx_line_text(fh: &FileHits, line_no: u64) -> (res: Result<String, HitFault>)
    ensures
        match res {
            Ok(s) => ctx_range(*fh, line_no) matches Ok((start, end)) && s@ == line_text(
                fh.arena@.subrange(start as int, end as int),
            ),
            Err(f) => ctx_range(*fh, line_no) == Err::<(usize, usize), HitFault>(f),
        },
{
    if line_no == 0 {
        return Err(HitFault::LineZero);
    }
    let count: usize = fh.line_starts.len();
    if line_no > count as u64 {
        return Err(HitFault::LinePastEnd { line: line_no, lines: count });
    }
    let n: usize = line_no as usize;
    let start: usize = fh.line_starts[n - 1];
    let end: usize = if n < count {
        fh.line_starts[n]
    } else {
        fh.arena.len()
    };
    banked_slice(fh.arena.as_slice(), start, end)
}

/// Every line of an attached file can be shown, and is the line of the buffer.
pub proof fn law_context_line_is_line(now: FileHits, was: FileHits, buf: Seq<u8>, n: u64)
    requires
        is_attached(now, was, buf),
        buf.len() <= usize::MAX,
        1 <= n <= line_count(buf),
    ensures
        ctx_range(now, n) matches Ok((start, end)) && now.arena@.subrange(start as int, end as int) == line_of(
            buf,
            n as int,
        ),
{
    lemma_starts(buf, buf.len() as int);
    let s = line_starts_of(buf);
    assert(ints(now.line_starts@)[n - 1] == s[n - 1]);
    if n < s.len() {
        assert(ints(now.line_starts@)[n as int] == s[n as int]);
        assert(s[n - 1] < s[n as int]);
    }
}

// ---- many files ----

/// `-m`: keep the first `m` hits of each file.
pub open spec fn capped(metas: Seq<HitMeta>, max_count: Option<usize>) -> Seq<HitMeta> {
    match max_count {
        Some(m) if m < metas.len() => metas.take(m as int),
        _ => metas,
    }
}

/// `now` is `was` with its hits capped.
pub open spec fn is_capped(now: FileHits, was: FileHits, max_count: Option<usize>) -> bool {
    now.pid == was.pid && now.arena == was.arena && now.line_starts == was.line_starts && now.metas@ == capped(
        was.metas@,
        max_count,
    )
}

/// Keep the first hits of each file. Hits come in file order, so these are the ones
/// an early stop would have found.
pub fn apply_max_count(hits: Vec<FileHits>, max_count: Option<usize>) -> (out: Vec<FileHits>)
    ensures
        out@.len() == hits@.len(),
        forall|k: int| 0 <= k < hits@.len() ==> is_capped(#[trigger] out@[k], hits@[k], max_count),
{
    let mut left: Vec<FileHits> = hits;
    let mut back: Vec<FileHits> = Vec::new();
    while left.len() > 0
        invariant
            left@.len() + back@.len() == hits@.len(),
            left@ == hits@.take(left@.len() as int),
            forall|k: int|
                0 <= k < back@.len() ==> is_capped(#[trigger] back@[k], hits@[hits@.len() - 1 - k], max_count),
        decreases left@.len(),
    {
        if let Some(fh) = left.pop() {
            let mut metas: Vec<HitMeta> = fh.metas;
            if let Some(m) = max_count {
                if m < metas.len() {
                    metas.truncate(m);
                    assert(metas@ =~= capped(fh.metas@, max_count));
                }
            }
            back.push(FileHits { pid: fh.pid, arena: fh.arena, metas, line_starts: fh.line_starts });
            assert(left@ =~= hits@.take(left@.len() as int));
        }
    }
    let mut out: Vec<FileHits> = Vec::new();
    let ghost turned = back@;
    while back.len() > 0
        invariant
            turned.len() == hits@.len(),
            back@.len() + out@.len() == hits@.len(),
            back@ == turned.take(back@.len() as int),
            forall|k: int|
                0 <= k < turned.len() ==> is_capped(#[trigger] turned[k], hits@[hits@.len() - 1 - k], max_count),
            forall|k: int| 0 <= k < out@.len() ==> is_capped(#[trigger] out@[k], hits@[k], max_count),
        decreases back@.len(),
    {
        if let Some(fh) = back.pop() {
            assert(fh == turned[back@.len() as int]);
            out.push(fh);
            assert(back@ =~= turned.take(back@.len() as int));
        }
    }
    out
}

/// The keys of the hits of all files, file by file.
pub open spec fn flat_keys(files: Seq<FileHits>) -> Seq<u64>
    decreases files.len(),
{
    if files.len() == 0 {
        Seq::empty()
    } else {
        flat_keys(files.drop_last()) + Seq::new(files.last().metas@.len(), |k: int| files.last().metas@[k].key)
    }
}

/// For each hit of all files, file by file: the file and the hit in it.
pub open spec fn flat_locs(files: Seq<FileHits>) -> Seq<(usize, usize)>
    decreases files.len(),
{
    if files.len() == 0 {
        Seq::empty()
    } else {
        flat_locs(files.drop_last()) + Seq::new(
            files.last().metas@.len(),
            |k: int| ((files.len() - 1) as usize, k as usize),
        )
    }
}

/// Every location names a hit, and carries its key.
pub proof fn lemma_flat(files: Seq<FileHits>)
    requires
        files.len() <= usize::MAX,
        forall|f: int| 0 <= f < files.len() ==> (#[trigger] files[f]).metas@.len() <= usize::MAX,
    ensures
        flat_keys(files).len() == flat_locs(files).len(),
        forall|i: int|
            0 <= i < flat_locs(files).len() ==> (#[trigger] flat_locs(files)[i]).0 < files.len() && flat_locs(
                files,
            )[i].1 < files[flat_locs(files)[i].0 as int].metas@.len() && flat_keys(files)[i]
                == files[flat_locs(files)[i].0 as int].metas@[flat_locs(files)[i].1 as int].key,
    decreases files.len(),
{
    if files.len() > 0 {
        let front = files.drop_last();
        assert forall|f: int| 0 <= f < front.len() implies (#[trigger] front[f]).metas@.len() <= usize::MAX by {
            assert(front[f] == files[f]);
        }
        lemma_flat(front);
        let n = flat_locs(front).len() as int;
        assert(files.last() == files[files.len() - 1]);
        assert forall|i: int| 0 <= i < flat_locs(files).len() implies (#[trigger] flat_locs(files)[i]).0 < files.len()
            && flat_locs(files)[i].1 < files[flat_locs(files)[i].0 as int].metas@.len() && flat_keys(files)[i]
            == files[flat_locs(files)[i].0 as int].metas@[flat_locs(files)[i].1 as int].key by {
            if i < n {
                assert(flat_locs(files)[i] == flat_locs(front)[i]);
                assert(flat_keys(files)[i] == flat_keys(front)[i]);
            }
        }
    }
}

/// Every hit is located once, in its file.
pub proof fn law_hits_are_located_once(files: Seq<FileHits>)
    requires
        files.len() <= usize::MAX,
        forall|f: int| 0 <= f < files.len() ==> (#[trigger] files[f]).metas@.len() <= usize::MAX,
    ensures
        flat_locs(files).no_duplicates(),
        forall|f: usize, k: usize|
            f < files.len() && k < files[f as int].metas@.len() ==> #[trigger] flat_locs(files).contains((f, k)),
        forall|i: int|
            0 <= i < flat_locs(files).len() ==> (#[trigger] flat_locs(files)[i]).0 < files.len() && flat_locs(
                files,
            )[i].1 < files[flat_locs(files)[i].0 as int].metas@.len(),
    decreases files.len(),
{
    lemma_flat(files);
    if files.len() > 0 {
        let front = files.drop_last();
        assert forall|f: int| 0 <= f < front.len() implies (#[trigger] front[f]).metas@.len() <= usize::MAX by {
            assert(front[f] == files[f]);
        }
        law_hits_are_located_once(front);
        let had = flat_locs(front);
        let all = flat_locs(files);
        let last = (files.len() - 1) as usize;
        assert(files.last() == files[files.len() - 1]);
        assert forall|i: int, j: int| 0 <= i < j < all.len() implies all[i] != all[j] by {
            if j < had.len() {
                assert(all[i] == had[i] && all[j] == had[j]);
            } else if i < had.len() {
                assert(all[i] == had[i]);
                assert(all[j].0 == last);
            }
        }
        assert forall|f: usize, k: usize| f < files.len() && k < files[f as int].metas@.len() implies #[trigger] all.contains((f, k)) by {
            if f < last {
                assert(front[f as int] == files[f as int]);
                assert(had.contains((f, k)));
                let i = choose|i: int| 0 <= i < had.len() && had[i] == (f, k);
                assert(all[i] == (f, k));
            } else {
                assert(all[had.len() + k] == (f, k));
            }
        }
    }
}

/// The keys and locations of the hits of all files.
pub fn flat_scores(files: &[FileHits]) -> (res: (Vec<u64>, Vec<(usize, usize)>))
    ensures
        res.0@ == flat_keys(files@),
        res.1@ == flat_locs(files@),
{
    let mut keys: Vec<u64> = Vec::new();
    let mut loc: Vec<(usize, usize)> = Vec::new();
    let mut f: usize = 0;
    while f < files.len()
        invariant
            f <= files@.len(),
            keys@ == flat_keys(files@.take(f as int)),
            loc@ == flat_locs(files@.take(f as int)),
        decreases files@.len() - f,
    {
        let ghost had_keys = keys@;
        let ghost had_loc = loc@;
        let ghost metas = files@[f as int].metas@;
        proof {
            assert(files@.take(f + 1).drop_last() =~= files@.take(f as int));
            assert(files@.take(f + 1).last() == files@[f as int]);
        }
        let mut k: usize = 0;
        while k < files[f].metas.len()
            invariant
                f < files@.len(),
                metas == files@[f as int].metas@,
                k <= metas.len(),
                keys@ == had_keys + Seq::new(k as nat, |x: int| metas[x].key),
                loc@ == had_loc + Seq::new(k as nat, |x: int| (f, x as usize)),
            decreases metas.len() - k,
        {
            keys.push(files[f].metas[k].key);
            loc.push((f, k));
            k = k + 1;
            assert(keys@ =~= had_keys + Seq::new(k as nat, |x: int| metas[x].key));
            assert(loc@ =~= had_loc + Seq::new(k as nat, |x: int| (f, x as usize)));
        }
        assert(keys@ =~= flat_keys(files@.take(f + 1)));
        assert(loc@ =~= flat_locs(files@.take(f + 1)));
        f = f + 1;
    }
    assert(files@.take(f as int) =~= files@);
    (keys, loc)
}

/// The files that the ordered hits lie in.
pub open spec fn hit_files(ord: Seq<usize>, loc: Seq<(usize, usize)>) -> Set<usize> {
    Set::new(|f: usize| exists|i: int| 0 <= i < ord.len() && (#[trigger] loc[ord[i] as int]).0 == f)
}

/// Number of distinct files that the ordered hits lie in.
pub fn matched_file_count(ord: &[usize], loc: &[(usize, usize)]) -> (n: usize)
    requires
        forall|i: int| 0 <= i < ord@.len() ==> (#[trigger] ord@[i]) < loc@.len(),
    ensures
        n == hit_files(ord@, loc@).len(),
{
    let mut seen: HashSet<usize> = HashSet::new();
    let mut k: usize = 0;
    assert(hit_files(ord@.take(0), loc@) =~= Set::empty());
    while k < ord.len()
        invariant
            k <= ord@.len(),
            forall|i: int| 0 <= i < ord@.len() ==> (#[trigger] ord@[i]) < loc@.len(),
            seen@ == hit_files(ord@.take(k as int), loc@),
        decreases ord@.len() - k,
    {
        let f: usize = loc[ord[k]].0;
        let ghost was = ord@.take(k as int);
        let ghost now = ord@.take(k + 1);
        seen.insert(f);
        proof {
            assert forall|x: usize| hit_files(now, loc@).contains(x) <==> hit_files(was, loc@).contains(x) || x == f by {
                if hit_files(was, loc@).contains(x) {
                    let i = choose|i: int| 0 <= i < was.len() && (#[trigger] loc@[was[i] as int]).0 == x;
                    assert(loc@[now[i] as int].0 == x);
                }
                if x == f {
                    assert(loc@[now[k as int] as int].0 == x);
                }
                if hit_files(now, loc@).contains(x) && x != f {
                    let i = choose|i: int| 0 <= i < now.len() && (#[trigger] loc@[now[i] as int]).0 == x;
                    assert(loc@[was[i] as int].0 == x);
                }
            }
            assert(hit_files(now, loc@) =~= hit_files(was, loc@).insert(f));
        }
        k = k + 1;
    }
    assert(ord@.take(k as int) =~= ord@);
    seen.len()
}

// ---- caps and ends ----

/// A cap keeps the first hits of a file, at most so many; without one all of them stay.
pub proof fn law_cap_keeps_the_first_hits(now: FileHits, was: FileHits, max_count: Option<usize>)
    requires
        is_capped(now, was, max_count),
    ensures
        now.metas@.is_prefix_of(was.metas@),
        max_count is None ==> now.metas@ == was.metas@,
        max_count matches Some(m) ==> now.metas@.len() == (if m < was.metas@.len() {
            m as nat
        } else {
            was.metas@.len()
        }),
        now.arena@ == was.arena@ && now.pid == was.pid && now.line_starts@ == was.line_starts@,
{
    assert(was.metas@.subrange(0, now.metas@.len() as int) =~= now.metas@);
}

/// The text of a line is the line without the newlines and carriage returns at its end, and
/// with everything else.
pub proof fn law_line_ends_are_cut_off(s: Seq<char>)
    ensures
        without_line_end(s).is_prefix_of(s),
        forall|k: int| without_line_end(s).len() <= k < s.len() ==> #[trigger] s[k] == '\n' || s[k] == '\r',
        without_line_end(s).len() > 0 ==> without_line_end(s).last() != '\n' && without_line_end(s).last() != '\r',
    decreases s.len(),
{
    let t = without_line_end(s);
    if s.len() > 0 && (s.last() == '\n' || s.last() == '\r') {
        let front = s.drop_last();
        law_line_ends_are_cut_off(front);
        assert forall|k: int| t.len() <= k < s.len() implies #[trigger] s[k] == '\n' || s[k] == '\r' by {
            if k < front.len() {
                assert(front[k] == s[k]);
            }
        }
        assert(front.subrange(0, t.len() as int) =~= s.subrange(0, t.len() as int));
    } else {
        assert(s.subrange(0, t.len() as int) =~= t);
    }
}

/// Hits are told as faulty by the first of them whose line the buffer does not have, and not
/// at all if it has them all.
pub proof fn law_first_missing_line_is_told(metas: Seq<HitMeta>, lines: nat, k: int)
    requires
        0 <= k <= metas.len(),
        forall|j: int| 0 <= j < k ==> 1 <= (#[trigger] metas[j]).line <= lines,
    ensures
        k == metas.len() ==> first_bad_line(metas, lines) is None,
        k < metas.len() && metas[k].line == 0 ==> first_bad_line(metas, lines) == Some(HitFault::LineZero),
        k < metas.len() && metas[k].line > lines ==> first_bad_line(metas, lines) == Some(
            HitFault::LinePastEnd { line: metas[k].line, lines: lines as usize },
        ),
    decreases metas.len(),
{
    if metas.len() > 0 {
        let front = metas.drop_last();
        assert(forall|j: int| 0 <= j < front.len() ==> front[j] == metas[j]);
        assert(metas.last() == metas[metas.len() - 1]);
        if k >= front.len() {
            law_first_missing_line_is_told(front, lines, front.len() as int);
        } else {
            law_first_missing_line_is_told(front, lines, k);
        }
    }
}

/// The keys of the hits stand as the hits are located, file by file and hit by hit.
pub proof fn law_keys_stand_as_located(files: Seq<FileHits>)
    requires
        files.len() <= usize::MAX,
        forall|f: int| 0 <= f < files.len() ==> (#[trigger] files[f]).metas@.len() <= usize::MAX,
    ensures
        flat_keys(files).len() == flat_locs(files).len(),
        forall|i: int|
            0 <= i < flat_locs(files).len() ==> #[trigger] flat_keys(files)[i] == files[flat_locs(files)[i].0 as int].metas@[
            flat_locs(files)[i].1 as int].key,
        forall|i: int, j: int|
            0 <= i < j < flat_locs(files).len() ==> (#[trigger] flat_locs(files)[i]).0 < (#[trigger] flat_locs(files)[j]).0
                || (flat_locs(files)[i].0 == flat_locs(files)[j].0 && flat_locs(files)[i].1 < flat_locs(files)[j].1),
    decreases files.len(),
{
    lemma_flat(files);
    if files.len() > 0 {
        let front = files.drop_last();
        assert forall|f: int| 0 <= f < front.len() implies (#[trigger] front[f]).metas@.len() <= usize::MAX by {
            assert(front[f] == files[f]);
        }
        law_keys_stand_as_located(front);
        lemma_flat(front);
        let had = flat_locs(front);
        let all = flat_locs(files);
        assert(files.last() == files[files.len() - 1]);
        assert forall|i: int, j: int| 0 <= i < j < all.len() implies (#[trigger] all[i]).0 < (#[trigger] all[j]).0 || (
        all[i].0 == all[j].0 && all[i].1 < all[j].1) by {
            if i < had.len() {
                assert(all[i] == had[i]);
            }
            if j < had.len() {
                assert(all[j] == had[j]);
            }
        }
    }
}

/// Every line that was found is a hit of its own, on that line and with its key, and its
/// bytes follow on those of the hit before it.
pub proof fn law_every_found_line_is_a_hit(res: Option<FileHits>, lines: Seq<(u64, Seq<u8>)>, keys: Seq<u64>, k: int)
    requires
        banks(res, lines, keys),
        res matches Some(fh) ==> fh.arena@.len() <= usize::MAX,
    ensures
        res is None <==> lines.len() == 0,
        res matches Some(fh) ==> fh.metas@.len() == lines.len(),
        0 <= k < lines.len() && lines[k].0 > 0 ==> (res matches Some(fh) && fh.metas@[k].line == lines[k].0),
        0 <= k < lines.len() ==> (res matches Some(fh) && fh.metas@[k].key == keys[k] && fh.metas@[k].end
            - fh.metas@[k].start == lines[k].1.len() && (k == 0 ==> fh.metas@[k].start == 0) && (k > 0 ==> fh.metas@[k].start
            == fh.metas@[k - 1].end)),
{
    if 0 <= k < lines.len() {
        let fh = res->Some_0;
        law_banked_hit_holds_line(fh, lines, keys, k);
        assert(fh.metas@[k] == banked_meta(lines, keys, k));
        if k > 0 {
            assert(fh.metas@[k - 1] == banked_meta(lines, keys, k - 1));
        } else {
            assert(lines.take(0) =~= Seq::empty());
        }
    }
}

/// The files that are counted are those that ranking meets, each once.
pub proof fn law_files_are_counted_once(ord: Seq<usize>, loc: Seq<(usize, usize)>)
    ensures
        hit_files(ord, loc) == files_met(ord, loc).to_set(),
        hit_files(ord, loc).len() == files_met(ord, loc).len(),
{
    let met = files_met(ord, loc);
    let first = law_files_are_met_best_first(ord, loc);
    assert forall|f: usize| hit_files(ord, loc).contains(f) <==> met.to_set().contains(f) by {
        if hit_files(ord, loc).contains(f) {
            let i = choose|i: int| 0 <= i < ord.len() && (#[trigger] loc[ord[i] as int]).0 == f;
            assert(met.contains(loc[ord[i] as int].0));
        }
        if met.contains(f) {
            let a = choose|a: int| 0 <= a < met.len() && met[a] == f;
            assert(0 <= first[a] < ord.len());
            assert(loc[ord[first[a]] as int].0 == f);
        }
    }
    assert(hit_files(ord, loc) =~= met.to_set());
    assert forall|a: int, b: int| 0 <= a < b < met.len() implies met[a] != met[b] by {
        assert(first[a] < first[b]);
        assert(loc[ord[first[a]] as int].0 == met[a]);
        assert(loc[ord[first[a]] as int].0 != met[b]);
    }
    assert(met.no_duplicates());
    met.unique_seq_to_set();
}

} // verus!
