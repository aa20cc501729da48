//! Context around hits: windows of lines, merged, and the rows to show.

use crate::hits::{FileHits, HitMeta};
use crate::order::{comes_before, is_stable_order, law_stable_order_is_permutation, stable_order};
use vstd::prelude::*;

verus! {

// ---- windows ----

/// The first line of the window of a hit: `before` lines up, but not above line one.
pub open spec fn window_lo(line: u64, before: usize) -> u64 {
    if line - before >= 1 {
        (line - before) as u64
    } else {
        1
    }
}

/// The last line of the window of a hit: `after` lines down.
pub open spec fn window_hi(line: u64, after: usize) -> u64 {
    if line + after > u64::MAX {
        u64::MAX
    } else if line + after >= 1 {
        (line + after) as u64
    } else {
        1
    }
}

/// The windows of the lines, each merged into the one before it when they overlap
/// or touch.
pub open spec fn groups_of(lines: Seq<u64>, before: usize, after: usize) -> Seq<(u64, u64)>
    decreases lines.len(),
{
    if lines.len() == 0 {
        Seq::empty()
    } else {
        let front = groups_of(lines.drop_last(), before, after);
        let lo = window_lo(lines.last(), before);
        let hi = window_hi(lines.last(), after);
        if front.len() > 0 && lo <= front.last().1 + 1 {
            if hi > front.last().1 {
                front.drop_last().push((front.last().0, hi))
            } else {
                front
            }
        } else {
            front.push((lo, hi))
        }
    }
}

/// Line `n` lies in some group.
pub open spec fn in_groups(groups: Seq<(u64, u64)>, n: u64) -> bool {
    exists|g: int| 0 <= g < groups.len() && (#[trigger] groups[g]).0 <= n <= groups[g].1
}

/// Line `n` lies in the window of some hit.
pub open spec fn in_windows(lines: Seq<u64>, before: usize, after: usize, n: u64) -> bool {
    exists|k: int|
        0 <= k < lines.len() && window_lo(#[trigger] lines[k], before) <= n <= window_hi(lines[k], after)
}

/// The lines do not descend.
pub open spec fn ascending(lines: Seq<u64>) -> bool {
    forall|i: int, j: int| 0 <= i <= j < lines.len() ==> lines[i] <= lines[j]
}

/// For hits in line order, the groups cover exactly the windows of the hits; they
/// come in order, and at least one line lies between any two.
pub proof fn law_groups_cover_windows(lines: Seq<u64>, before: usize, after: usize)
    requires
        ascending(lines),
    ensures
        forall|n: u64|
            in_groups(groups_of(lines, before, after), n) <==> in_windows(lines, before, after, n),
        forall|g: int|
            0 <= g < groups_of(lines, before, after).len() ==> 1 <= (#[trigger] groups_of(lines, before, after)[g]).0
                <= groups_of(lines, before, after)[g].1,
        forall|g: int, h: int|
            0 <= g < h < groups_of(lines, before, after).len() ==> (#[trigger] groups_of(lines, before, after)[g]).1
                + 1 < (#[trigger] groups_of(lines, before, after)[h]).0,
    decreases lines.len(),
{
    let all = groups_of(lines, before, after);
    if lines.len() > 0 {
        let shorter = lines.drop_last();
        let front = groups_of(shorter, before, after);
        let last = lines.last();
        let lo = window_lo(last, before);
        let hi = window_hi(last, after);
        law_groups_cover_windows(shorter, before, after);
        assert(lines[lines.len() - 1] == last);
        lemma_last_group(lines, before, after);
        assert forall|n: u64| in_windows(lines, before, after, n) <==> in_windows(shorter, before, after, n) || lo <= n
            <= hi by {
            if in_windows(shorter, before, after, n) {
                let k = choose|k: int|
                    0 <= k < shorter.len() && window_lo(#[trigger] shorter[k], before) <= n <= window_hi(
                        shorter[k],
                        after,
                    );
                assert(lines[k] == shorter[k]);
            }
            if in_windows(lines, before, after, n) && !(lo <= n <= hi) {
                let k = choose|k: int|
                    0 <= k < lines.len() && window_lo(#[trigger] lines[k], before) <= n <= window_hi(lines[k], after);
                assert(shorter[k] == lines[k]);
            }
        }
        if front.len() > 0 && lo <= front.last().1 + 1 {
            let top = front.last();
            assert(top == front[front.len() - 1]);
            if hi > top.1 {
                assert forall|n: u64| in_groups(all, n) <==> in_groups(front, n) || lo <= n <= hi by {
                    if in_groups(front, n) {
                        let g = choose|g: int| 0 <= g < front.len() && (#[trigger] front[g]).0 <= n <= front[g].1;
                        assert(all[g].0 <= n <= all[g].1);
                    }
                    if lo <= n <= hi {
                        assert(all[all.len() - 1].0 <= n <= all[all.len() - 1].1);
                    }
                    if in_groups(all, n) {
                        let g = choose|g: int| 0 <= g < all.len() && (#[trigger] all[g]).0 <= n <= all[g].1;
                        if g < all.len() - 1 {
                            assert(front[g] == all[g]);
                        } else if n <= top.1 {
                            assert(front[front.len() - 1].0 <= n <= front[front.len() - 1].1);
                        }
                    }
                }
                assert forall|g: int, h: int| 0 <= g < h < all.len() implies (#[trigger] all[g]).1 + 1 < (
                #[trigger] all[h]).0 by {
                    assert(front[g].1 + 1 < front[h].0);
                }
            } else {
                assert forall|n: u64| in_groups(all, n) <==> in_groups(front, n) || lo <= n <= hi by {
                    if lo <= n <= hi {
                        assert(front[front.len() - 1].0 <= n <= front[front.len() - 1].1);
                    }
                }
            }
        } else {
            assert forall|n: u64| in_groups(all, n) <==> in_groups(front, n) || lo <= n <= hi by {
                if in_groups(front, n) {
                    let g = choose|g: int| 0 <= g < front.len() && (#[trigger] front[g]).0 <= n <= front[g].1;
                    assert(all[g] == front[g]);
                }
                if lo <= n <= hi {
                    assert(all[front.len() as int] == (lo, hi));
                }
                if in_groups(all, n) {
                    let g = choose|g: int| 0 <= g < all.len() && (#[trigger] all[g]).0 <= n <= all[g].1;
                    if g < front.len() {
                        assert(front[g] == all[g]);
                    }
                }
            }
            assert forall|g: int, h: int| 0 <= g < h < all.len() implies (#[trigger] all[g]).1 + 1 < (
            #[trigger] all[h]).0 by {
                if h < front.len() {
                    assert(front[g].1 + 1 < front[h].0);
                } else if g < front.len() - 1 {
                    assert(front[g].1 + 1 < front[front.len() - 1].0);
                    assert(front[front.len() - 1].0 <= front[front.len() - 1].1);
                } else {
                    assert(front[g] == front.last());
                }
            }
        }
    } else {
        assert forall|n: u64| in_groups(all, n) <==> in_windows(lines, before, after, n) by {}
    }
}

/// The last group begins at or before the window of the last hit.
proof fn lemma_last_group(lines: Seq<u64>, before: usize, after: usize)
    requires
        ascending(lines),
        lines.len() > 0,
    ensures
        groups_of(lines, before, after).len() > 0,
        groups_of(lines, before, after).last().0 <= window_lo(lines.last(), before),
        lines.len() > 1 ==> groups_of(lines.drop_last(), before, after).len() > 0 && groups_of(
            lines.drop_last(),
            before,
            after,
        ).last().0 <= window_lo(lines.last(), before),
    decreases lines.len(),
{
    if lines.len() > 1 {
        let shorter = lines.drop_last();
        lemma_last_group(shorter, before, after);
        assert(shorter.last() == lines[lines.len() - 2]);
        assert(lines[lines.len() - 2] <= lines[lines.len() - 1]);
    } else {
        assert(groups_of(lines.drop_last(), before, after).len() == 0);
    }
}

/// Context windows over hit lines: `before` lines up, clamped at the first line, and
/// `after` lines down, merged when they overlap or touch. The low end is clamped,
/// the high end is not: callers leave out lines past the end.
pub fn compute_groups(lines: &[u64], before: usize, after: usize) -> (groups: Vec<(u64, u64)>)
    ensures
        groups@ == groups_of(lines@, before, after),
{
    let mut groups: Vec<(u64, u64)> = Vec::new();
    let mut k: usize = 0;
    let b: u64 = before as u64;
    let a: u64 = after as u64;
    while k < lines.len()
        invariant
            k <= lines@.len(),
            a == after,
            b == before,
            groups@ == groups_of(lines@.take(k as int), before, after),
        decreases lines@.len() - k,
    {
        proof {
            assert(lines@.take(k + 1).drop_last() =~= lines@.take(k as int));
            assert(lines@.take(k + 1).last() == lines@[k as int]);
        }
        let l: u64 = lines[k];
        let lo: u64 = if l > b {
            l - b
        } else {
            1
        };
        let sum: u64 = if a > u64::MAX - l {
            u64::MAX
        } else {
            l + a
        };
        let hi: u64 = if sum == 0 {
            1
        } else {
            sum
        };
        assert(lo == window_lo(l, before));
        assert(hi == window_hi(l, after));
        let n: usize = groups.len();
        let joins: bool = n > 0 && (groups[n - 1].1 == u64::MAX || lo <= groups[n - 1].1 + 1);
        if joins {
            if hi > groups[n - 1].1 {
                let first: u64 = groups[n - 1].0;
                let ghost was = groups@;
                groups.pop();
                groups.push((first, hi));
                assert(groups@ =~= was.drop_last().push((was.last().0, hi)));
            }
        } else {
            groups.push((lo, hi));
        }
        k = k + 1;
    }
    assert(lines@.take(k as int) =~= lines@);
    groups
}

// ---- rows of one file ----

/// One row of a context display.
#[derive(Clone, Copy, Debug, PartialEq, Eq, Structural)]
pub enum CtxRow {
    /// Between two groups of one file.
    Separator,
    /// A hit, by its position among the hits of the file.
    Hit(usize),
    /// A line around hits.
    Context(u64),
}

/// Number of lines below `n`.
pub open spec fn count_below(lines: Seq<u64>, n: int) -> nat
    decreases lines.len(),
{
    if lines.len() == 0 {
        0
    } else {
        count_below(lines.drop_last(), n) + (if lines.last() < n {
            1nat
        } else {
            0
        })
    }
}

/// The rows of line `n`: its hits, all or the first, or the line as context.
pub open spec fn line_rows(lines: Seq<u64>, n: int, every: bool) -> Seq<CtxRow> {
    let a = count_below(lines, n);
    let b = count_below(lines, n + 1);
    if a >= b {
        seq![CtxRow::Context(n as u64)]
    } else if every {
        Seq::new((b - a) as nat, |i: int| CtxRow::Hit((a + i) as usize))
    } else {
        seq![CtxRow::Hit(a as usize)]
    }
}

/// The rows of the lines from `lo` to `hi`.
pub open spec fn span_rows(lines: Seq<u64>, lo: int, hi: int, every: bool) -> Seq<CtxRow>
    decreases hi - lo + 1,
{
    if hi < lo {
        Seq::empty()
    } else {
        span_rows(lines, lo, hi - 1, every) + line_rows(lines, hi, every)
    }
}

/// The rows of the groups, cut off at line `nlines`.
pub open spec fn group_rows(lines: Seq<u64>, groups: Seq<(u64, u64)>, nlines: int, every: bool) -> Seq<CtxRow>
    decreases groups.len(),
{
    if groups.len() == 0 {
        Seq::empty()
    } else {
        let hi = if groups.last().1 <= nlines {
            groups.last().1 as int
        } else {
            nlines
        };
        group_rows(lines, groups.drop_last(), nlines, every) + (if groups.len() > 1 {
            seq![CtxRow::Separator]
        } else {
            Seq::empty()
        }) + span_rows(lines, groups.last().0 as int, hi, every)
    }
}

/// The rows of one file: its hit lines in order, and the lines around them.
pub open spec fn rows_of(lines: Seq<u64>, nlines: int, before: usize, after: usize, every: bool) -> Seq<CtxRow> {
    group_rows(lines, groups_of(lines, before, after), nlines, every)
}

pub proof fn lemma_count_below(lines: Seq<u64>, n: int, k: int)
    requires
        ascending(lines),
        0 <= k <= lines.len(),
        forall|i: int| 0 <= i < k ==> lines[i] < n,
        k < lines.len() ==> lines[k] >= n,
    ensures
        count_below(lines, n) == k,
    decreases lines.len(),
{
    if lines.len() > 0 {
        let front = lines.drop_last();
        if k < lines.len() {
            assert(lines[k] <= lines[lines.len() - 1]);
            lemma_count_below(front, n, k);
        } else {
            lemma_count_below(front, n, k - 1);
        }
    }
}

/// The rows of one file. `lines` are the lines of its hits, ascending; `every` shows
/// each hit of a line, else a line is shown once.
pub fn ctx_rows(lines: &[u64], nlines: u64, before: usize, after: usize, every: bool) -> (rows: Vec<CtxRow>)
    requires
        ascending(lines@),
    ensures
        rows@ == rows_of(lines@, nlines as int, before, after, every),
{
    let groups: Vec<(u64, u64)> = compute_groups(lines, before, after);
    proof {
        law_groups_cover_windows(lines@, before, after);
    }
    let mut rows: Vec<CtxRow> = Vec::new();
    let mut g: usize = 0;
    while g < groups.len()
        invariant
            g <= groups@.len(),
            ascending(lines@),
            forall|x: int| 0 <= x < groups@.len() ==> 1 <= (#[trigger] groups@[x]).0 <= groups@[x].1,
            rows@ == group_rows(lines@, groups@.take(g as int), nlines as int, every),
        decreases groups@.len() - g,
    {
        let lo: u64 = groups[g].0;
        let hi: u64 = if groups[g].1 <= nlines {
            groups[g].1
        } else {
            nlines
        };
        let ghost had = rows@;
        proof {
            assert(groups@.take(g + 1).drop_last() =~= groups@.take(g as int));
            assert(groups@.take(g + 1).last() == groups@[g as int]);
        }
        let ghost sep: Seq<CtxRow> = if g > 0 {
            seq![CtxRow::Separator]
        } else {
            Seq::empty()
        };
        if g > 0 {
            rows.push(CtxRow::Separator);
        }
        assert(rows@ =~= had + sep);
        let mut k: usize = 0;
        while k < lines.len() && lines[k] < lo
            invariant
                k <= lines@.len(),
                forall|i: int| 0 <= i < k ==> lines@[i] < lo,
            decreases lines@.len() - k,
        {
            k = k + 1;
        }
        let mut ln: u64 = lo;
        assert(span_rows(lines@, lo as int, lo - 1, every) =~= Seq::empty());
        assert(rows@ =~= had + sep + span_rows(lines@, lo as int, lo - 1, every));
        let mut more: bool = ln <= hi;
        while more
            invariant
                1 <= lo,
                ascending(lines@),
                lo <= ln,
                more ==> ln <= hi,
                k <= lines@.len(),
                more ==> forall|i: int| 0 <= i < k ==> lines@[i] < ln,
                more ==> (k < lines@.len() ==> lines@[k as int] >= ln),
                more ==> rows@ == had + sep + span_rows(lines@, lo as int, ln - 1, every),
                !more ==> rows@ == had + sep + span_rows(lines@, lo as int, hi as int, every),
            decreases (if more { hi - ln + 1 } else { 0int }),
        {
            let first: usize = k;
            while k < lines.len() && lines[k] == ln
                invariant
                    first <= k <= lines@.len(),
                    forall|i: int| first <= i < k ==> lines@[i] == ln,
                decreases lines@.len() - k,
            {
                k = k + 1;
            }
            proof {
                lemma_count_below(lines@, ln as int, first as int);
                if k < lines@.len() && first < lines@.len() {
                    assert(lines@[first as int] <= lines@[k as int]);
                }
                lemma_count_below(lines@, ln + 1, k as int);
            }
            let ghost mid = rows@;
            if first == k {
                rows.push(CtxRow::Context(ln));
            } else if every {
                let mut j: usize = first;
                while j < k
                    invariant
                        first <= j <= k,
                        rows@ == mid + Seq::new((j - first) as nat, |i: int| CtxRow::Hit((first + i) as usize)),
                    decreases k - j,
                {
                    rows.push(CtxRow::Hit(j));
                    j = j + 1;
                    assert(rows@ =~= mid + Seq::new((j - first) as nat, |i: int| CtxRow::Hit((first + i) as usize)));
                }
            } else {
                rows.push(CtxRow::Hit(first));
            }
            assert(rows@ =~= mid + line_rows(lines@, ln as int, every));
            assert(rows@ =~= had + sep + span_rows(lines@, lo as int, ln as int, every));
            if ln < hi {
                ln = ln + 1;
            } else {
                more = false;
            }
        }
        proof {
            if lo > hi {
                assert(span_rows(lines@, lo as int, hi as int, every) =~= Seq::empty());
            }
        }
        assert(rows@ =~= group_rows(lines@, groups@.take(g + 1), nlines as int, every));
        g = g + 1;
    }
    assert(groups@.take(g as int) =~= groups@);
    rows
}

// ---- rows of many files ----

/// The files of the ordered hits, each where it is first met.
pub open spec fn files_met(ord: Seq<usize>, loc: Seq<(usize, usize)>) -> Seq<usize>
    decreases ord.len(),
{
    if ord.len() == 0 {
        Seq::empty()
    } else {
        let front = files_met(ord.drop_last(), loc);
        let f = loc[ord.last() as int].0;
        if front.contains(f) {
            front
        } else {
            front.push(f)
        }
    }
}

/// The ordered hits that lie in file `f`.
pub open spec fn hits_in(ord: Seq<usize>, loc: Seq<(usize, usize)>, f: usize) -> Seq<usize>
    decreases ord.len(),
{
    if ord.len() == 0 {
        Seq::empty()
    } else {
        let front = hits_in(ord.drop_last(), loc, f);
        if loc[ord.last() as int].0 == f {
            front.push(loc[ord.last() as int].1)
        } else {
            front
        }
    }
}

/// The lines of hits.
pub open spec fn lines_at(metas: Seq<HitMeta>, mis: Seq<usize>) -> Seq<u64> {
    Seq::new(mis.len(), |k: int| metas[mis[k] as int].line)
}

/// `sorted` is `mis` by line, hits of one line kept in order.
pub open spec fn is_line_order(metas: Seq<HitMeta>, mis: Seq<usize>, sorted: Seq<usize>) -> bool {
    exists|p: Seq<usize>|
        #![trigger is_stable_order(lines_at(metas, mis), p)]
        is_stable_order(lines_at(metas, mis), p) && sorted == Seq::new(p.len(), |k: int| mis[p[k] as int])
}

/// Locations name hits of the files.
pub open spec fn locs_fit(files: Seq<FileHits>, loc: Seq<(usize, usize)>) -> bool {
    forall|i: int|
        0 <= i < loc.len() ==> (#[trigger] loc[i]).0 < files.len() && loc[i].1 < files[loc[i].0 as int].metas@.len()
}

/// Ordered positions name locations.
pub open spec fn ord_fits(ord: Seq<usize>, n: nat) -> bool {
    forall|i: int| 0 <= i < ord.len() ==> (#[trigger] ord[i]) < n
}

/// The hits `mis` by line, hits of one line kept in order.
fn sort_by_line(metas: &[HitMeta], mis: &[usize]) -> (sorted: Vec<usize>)
    requires
        ord_fits(mis@, metas@.len()),
    ensures
        is_line_order(metas@, mis@, sorted@),
        sorted@.len() == mis@.len(),
        ascending(lines_at(metas@, sorted@)),
        ord_fits(sorted@, metas@.len()),
{
    let mut lines: Vec<u64> = Vec::new();
    let mut k: usize = 0;
    while k < mis.len()
        invariant
            k <= mis@.len(),
            ord_fits(mis@, metas@.len()),
            lines@ == lines_at(metas@, mis@).take(k as int),
        decreases mis@.len() - k,
    {
        lines.push(metas[mis[k]].line);
        k = k + 1;
        assert(lines@ =~= lines_at(metas@, mis@).take(k as int));
    }
    assert(lines@ =~= lines_at(metas@, mis@));
    let p: Vec<usize> = stable_order(&lines);
    let ghost want = Seq::new(p@.len(), |k: int| mis@[p@[k] as int]);
    let mut sorted: Vec<usize> = Vec::new();
    let mut j: usize = 0;
    while j < p.len()
        invariant
            j <= p@.len(),
            lines@.len() == mis@.len(),
            is_stable_order(lines@, p@),
            want == Seq::new(p@.len(), |k: int| mis@[p@[k] as int]),
            sorted@ == want.take(j as int),
        decreases p@.len() - j,
    {
        sorted.push(mis[p[j]]);
        j = j + 1;
        assert(sorted@ =~= want.take(j as int));
    }
    assert(sorted@ =~= want);
    proof {
        assert(is_stable_order(lines_at(metas@, mis@), p@));
        assert forall|a: int, b: int| 0 <= a <= b < sorted@.len() implies lines_at(metas@, sorted@)[a] <= lines_at(
            metas@,
            sorted@,
        )[b] by {
            if a < b {
                assert(comes_before(lines@, p@[a] as int, p@[b] as int));
            }
        }
        assert forall|i: int| 0 <= i < sorted@.len() implies (#[trigger] sorted@[i]) < metas@.len() by {
            assert(mis@[p@[i] as int] < metas@.len());
        }
    }
    sorted
}

/// The group of one file: the file and its hits by line.
pub open spec fn is_file_group(
    group: (usize, Vec<usize>),
    files: Seq<FileHits>,
    loc: Seq<(usize, usize)>,
    ord: Seq<usize>,
    f: usize,
) -> bool {
    &&& group.0 == f
    &&& f < files.len()
    &&& is_line_order(files[f as int].metas@, hits_in(ord, loc, f), group.1@)
    &&& ascending(lines_at(files[f as int].metas@, group.1@))
    &&& ord_fits(group.1@, files[f as int].metas@.len())
}

/// Ranked hits folded into files: files in the order in which ranking meets them,
/// the hits of a file by line. The ranking was cut before, so only surviving hits
/// are shown.
pub fn ctx_file_groups(files: &[FileHits], loc: &[(usize, usize)], ord: &[usize]) -> (out: Vec<(usize, Vec<usize>)>)
    requires
        locs_fit(files@, loc@),
        ord_fits(ord@, loc@.len()),
    ensures
        out@.len() == files_met(ord@, loc@).len(),
        forall|k: int|
            0 <= k < out@.len() ==> is_file_group(
                #[trigger] out@[k],
                files@,
                loc@,
                ord@,
                files_met(ord@, loc@)[k],
            ),
{
    let (met, buckets) = share_out(files, loc, ord);
    let mut out: Vec<(usize, Vec<usize>)> = Vec::new();
    let mut n: usize = 0;
    while n < met.len()
        invariant
            n <= met@.len(),
            met@ == files_met(ord@, loc@),
            ord_fits(met@, files@.len()),
            buckets_hold(buckets@, files@, loc@, ord@),
            out@.len() == n,
            forall|x: int| 0 <= x < n ==> is_file_group(#[trigger] out@[x], files@, loc@, ord@, met@[x]),
        decreases met@.len() - n,
    {
        let f: usize = met[n];
        assert(met@[n as int] < files@.len());
        assert(buckets@[f as int]@ == hits_in(ord@, loc@, f));
        let sorted: Vec<usize> = sort_by_line(files[f].metas.as_slice(), &buckets[f]);
        out.push((f, sorted));
        n = n + 1;
    }
    out
}

/// Each bucket holds the ordered hits of its file.
spec fn buckets_hold(
    buckets: Seq<Vec<usize>>,
    files: Seq<FileHits>,
    loc: Seq<(usize, usize)>,
    ord: Seq<usize>,
) -> bool {
    &&& buckets.len() == files.len()
    &&& forall|f: int|
        0 <= f < files.len() ==> (#[trigger] buckets[f])@ == hits_in(ord, loc, f as usize) && ord_fits(
            buckets[f]@,
            files[f].metas@.len(),
        )
}

/// The files in the order in which ranking meets them, and the ordered hits of each file.
fn share_out(files: &[FileHits], loc: &[(usize, usize)], ord: &[usize]) -> (res: (Vec<usize>, Vec<Vec<usize>>))
    requires
        locs_fit(files@, loc@),
        ord_fits(ord@, loc@.len()),
    ensures
        res.0@ == files_met(ord@, loc@),
        ord_fits(res.0@, files@.len()),
        buckets_hold(res.1@, files@, loc@, ord@),
{
    let count: usize = files.len();
    let mut met: Vec<usize> = Vec::new();
    let mut buckets: Vec<Vec<usize>> = Vec::new();
    let ghost none = ord@.take(0);
    while buckets.len() < count
        invariant
            buckets@.len() <= count == files@.len(),
            none.len() == 0,
            forall|f: int| 0 <= f < buckets@.len() ==> (#[trigger] buckets@[f])@ =~= hits_in(none, loc@, f as usize),
        ensures
            buckets@.len() == files@.len(),
        decreases files@.len() - buckets@.len(),
    {
        buckets.push(Vec::new());
    }
    let mut k: usize = 0;
    while k < ord.len()
        invariant
            k <= ord@.len(),
            count == files@.len(),
            locs_fit(files@, loc@),
            ord_fits(ord@, loc@.len()),
            met@ == files_met(ord@.take(k as int), loc@),
            ord_fits(met@, files@.len()),
            buckets_hold(buckets@, files@, loc@, ord@.take(k as int)),
        decreases ord@.len() - k,
    {
        let ghost had = buckets@;
        let ghost done = ord@.take(k as int);
        let ghost more = ord@.take(k + 1);
        let at: (usize, usize) = loc[ord[k]];
        let f: usize = at.0;
        proof {
            assert(more.drop_last() =~= done);
            assert(more.last() == ord@[k as int]);
            lemma_met_has_hits(done, loc@, f);
            assert(had[f as int]@ == hits_in(done, loc@, f));
        }
        if buckets[f].len() == 0 {
            met.push(f);
        }
        let bucket: &mut Vec<usize> = &mut buckets[f];
        bucket.push(at.1);
        proof {
            assert forall|g: int| 0 <= g < files@.len() implies (#[trigger] buckets@[g])@ == hits_in(
                more,
                loc@,
                g as usize,
            ) && ord_fits(buckets@[g]@, files@[g].metas@.len()) by {
                assert(had[g]@ == hits_in(done, loc@, g as usize));
                if g == f {
                    assert(buckets@[g]@ =~= had[g]@.push(at.1));
                }
            }
        }
        k = k + 1;
    }
    assert(ord@.take(k as int) =~= ord@);
    (met, buckets)
}

/// A file was met if and only if it has ordered hits.
proof fn lemma_met_has_hits(ord: Seq<usize>, loc: Seq<(usize, usize)>, f: usize)
    ensures
        files_met(ord, loc).contains(f) <==> hits_in(ord, loc, f).len() > 0,
    decreases ord.len(),
{
    if ord.len() > 0 {
        let front = ord.drop_last();
        lemma_met_has_hits(front, loc, f);
        let met = files_met(front, loc);
        let all = files_met(ord, loc);
        if met.contains(f) {
            let x = choose|x: int| 0 <= x < met.len() && met[x] == f;
            assert(all[x] == f);
        }
        if all.contains(f) {
            let x = choose|x: int| 0 <= x < all.len() && all[x] == f;
            if x < met.len() {
                assert(met[x] == f);
            }
        }
        if loc[ord.last() as int].0 == f && !met.contains(f) {
            assert(all[met.len() as int] == f);
        }
    }
}

/// The lines of hits, ascending, each once.
pub fn ctx_group_lines(metas: &[HitMeta], mis: &[usize]) -> (lines: Vec<u64>)
    requires
        ord_fits(mis@, metas@.len()),
    ensures
        forall|i: int, j: int| 0 <= i < j < lines@.len() ==> lines@[i] < lines@[j],
        forall|x: u64| #[trigger] lines@.contains(x) <==> lines_at(metas@, mis@).contains(x),
{
    let sorted: Vec<usize> = sort_by_line(metas, mis);
    let ghost all = lines_at(metas@, sorted@);
    let mut lines: Vec<u64> = Vec::new();
    let mut k: usize = 0;
    while k < sorted.len()
        invariant
            k <= sorted@.len(),
            ord_fits(sorted@, metas@.len()),
            all == lines_at(metas@, sorted@),
            ascending(all),
            forall|i: int, j: int| 0 <= i < j < lines@.len() ==> lines@[i] < lines@[j],
            k > 0 ==> lines@.len() > 0 && lines@.last() == all[k - 1],
            k == 0 ==> lines@.len() == 0,
            forall|i: int| 0 <= i < lines@.len() ==> all.contains(#[trigger] lines@[i]),
            forall|i: int| 0 <= i < k ==> lines@.contains(#[trigger] all[i]),
        decreases sorted@.len() - k,
    {
        let x: u64 = metas[sorted[k]].line;
        assert(all[k as int] == x);
        let ghost before = lines@;
        let fresh: bool = if lines.len() == 0 {
            true
        } else {
            lines[lines.len() - 1] != x
        };
        if k > 0 {
            assert(all[k - 1] <= all[k as int]);
        }
        if fresh {
            lines.push(x);
        }
        proof {
            assert(lines@[lines@.len() - 1] == x);
            assert forall|y: u64| before.contains(y) implies lines@.contains(y) by {
                let i = choose|i: int| 0 <= i < before.len() && before[i] == y;
                assert(lines@[i] == y);
            }
        }
        k = k + 1;
    }
    proof {
        let given = lines_at(metas@, mis@);
        let p = choose|p: Seq<usize>|
            #![trigger is_stable_order(given, p)]
            is_stable_order(given, p) && sorted@ == Seq::new(p.len(), |k: int| mis@[p[k] as int]);
        law_stable_order_is_permutation(given, p);
        assert forall|x: u64| all.contains(x) <==> given.contains(x) by {
            if all.contains(x) {
                let i = choose|i: int| 0 <= i < all.len() && all[i] == x;
                assert(given[p[i] as int] == x);
            }
            if given.contains(x) {
                let i = choose|i: int| 0 <= i < given.len() && given[i] == x;
                assert(p.contains(i as usize));
                let j = choose|j: int| 0 <= j < p.len() && p[j] == i as usize;
                assert(all[j] == x);
            }
        }
        assert forall|x: u64| all.contains(x) implies lines@.contains(x) by {
            let i = choose|i: int| 0 <= i < all.len() && all[i] == x;
            assert(lines@.contains(all[i]));
        }
    }
    lines
}

/// Repeated lines change no group.
pub proof fn law_groups_ignore_repeats(lines: Seq<u64>, uniq: Seq<u64>, before: usize, after: usize)
    requires
        ascending(lines),
        forall|i: int, j: int| 0 <= i < j < uniq.len() ==> uniq[i] < uniq[j],
        forall|x: u64| lines.contains(x) <==> uniq.contains(x),
    ensures
        groups_of(lines, before, after) == groups_of(uniq, before, after),
    decreases lines.len(),
{
    if lines.len() == 0 {
        if uniq.len() > 0 {
            assert(uniq.contains(uniq[0]));
        }
        assert(lines =~= uniq);
    } else {
        let x = lines.last();
        assert(lines[lines.len() - 1] == x);
        assert(lines.contains(x));
        assert(uniq.contains(x));
        let front = lines.drop_last();
        if front.contains(x) {
            assert forall|y: u64| front.contains(y) <==> uniq.contains(y) by {
                if front.contains(y) {
                    let i = choose|i: int| 0 <= i < front.len() && front[i] == y;
                    assert(lines[i] == y);
                }
                if uniq.contains(y) && y != x {
                    assert(lines.contains(y));
                    let i = choose|i: int| 0 <= i < lines.len() && lines[i] == y;
                    assert(front[i] == y);
                }
            }
            law_groups_ignore_repeats(front, uniq, before, after);
            let i = choose|i: int| 0 <= i < front.len() && front[i] == x;
            assert(lines[i] <= lines[front.len() - 1]);
            assert(lines[front.len() - 1] <= lines[lines.len() - 1]);
            assert(front.last() == x);
            lemma_last_window(front, before, after);
        } else {
            let short = uniq.drop_last();
            let p = choose|p: int| 0 <= p < uniq.len() && uniq[p] == x;
            assert(uniq.contains(uniq.last()));
            assert(lines.contains(uniq.last()));
            let q = choose|q: int| 0 <= q < lines.len() && lines[q] == uniq.last();
            assert(lines[q] <= lines[lines.len() - 1]);
            assert(p == uniq.len() - 1) by {
                if p < uniq.len() - 1 {
                    assert(uniq[p] < uniq[uniq.len() - 1]);
                }
            }
            assert forall|y: u64| front.contains(y) <==> short.contains(y) by {
                if front.contains(y) {
                    let i = choose|i: int| 0 <= i < front.len() && front[i] == y;
                    assert(lines[i] == y);
                    assert(lines.contains(y));
                    let j = choose|j: int| 0 <= j < uniq.len() && uniq[j] == y;
                    assert(short[j] == y);
                }
                if short.contains(y) {
                    let j = choose|j: int| 0 <= j < short.len() && short[j] == y;
                    assert(uniq[j] == y);
                    assert(uniq.contains(y));
                    let i = choose|i: int| 0 <= i < lines.len() && lines[i] == y;
                    assert(uniq[j] < uniq[uniq.len() - 1]);
                    assert(front[i] == y);
                }
            }
            law_groups_ignore_repeats(front, short, before, after);
        }
    }
}

/// The last group reaches at least to the end of the last window.
proof fn lemma_last_window(lines: Seq<u64>, before: usize, after: usize)
    requires
        lines.len() > 0,
        ascending(lines),
    ensures
        groups_of(lines, before, after).len() > 0,
        groups_of(lines, before, after).last().1 >= window_hi(lines.last(), after),
        window_lo(lines.last(), before) <= window_hi(lines.last(), after) + 1,
{
}

// ---- what is shown ----

/// A line is shown exactly if some hit lies no more than `after` lines above it and no more
/// than `before` lines below it. Groups come in order, and at least one line that is not
/// shown lies between any two.
pub proof fn law_groups_hold_the_lines_around_hits(lines: Seq<u64>, before: usize, after: usize, n: u64)
    requires
        forall|i: int, j: int| 0 <= i <= j < lines.len() ==> lines[i] <= lines[j],
        forall|i: int| 0 <= i < lines.len() ==> 1 <= #[trigger] lines[i],
        1 <= n,
    ensures
        (exists|g: int|
            0 <= g < groups_of(lines, before, after).len() && (#[trigger] groups_of(lines, before, after)[g]).0 <= n
                <= groups_of(lines, before, after)[g].1) <==> exists|k: int|
            0 <= k < lines.len() && (#[trigger] lines[k]) <= n + before && n <= lines[k] + after,
        forall|g: int|
            0 <= g < groups_of(lines, before, after).len() ==> 1 <= (#[trigger] groups_of(lines, before, after)[g]).0
                <= groups_of(lines, before, after)[g].1,
        forall|g: int, h: int|
            0 <= g < h < groups_of(lines, before, after).len() ==> (#[trigger] groups_of(lines, before, after)[g]).1
                + 1 < (#[trigger] groups_of(lines, before, after)[h]).0,
{
    let groups = groups_of(lines, before, after);
    law_groups_cover_windows(lines, before, after);
    assert(in_groups(groups, n) <==> in_windows(lines, before, after, n));
    assert forall|k: int| 0 <= k < lines.len() implies (window_lo(#[trigger] lines[k], before) <= n <= window_hi(
        lines[k],
        after,
    ) <==> lines[k] <= n + before && n <= lines[k] + after) by {}
    if in_windows(lines, before, after, n) {
        let k = choose|k: int|
            0 <= k < lines.len() && window_lo(#[trigger] lines[k], before) <= n <= window_hi(lines[k], after);
        assert(lines[k] <= n + before && n <= lines[k] + after);
    }
    if exists|k: int| 0 <= k < lines.len() && (#[trigger] lines[k]) <= n + before && n <= lines[k] + after {
        let k = choose|k: int| 0 <= k < lines.len() && (#[trigger] lines[k]) <= n + before && n <= lines[k] + after;
        assert(window_lo(lines[k], before) <= n <= window_hi(lines[k], after));
    }
}

/// The line that a row shows.
pub open spec fn row_line(lines: Seq<u64>, row: CtxRow) -> int {
    match row {
        CtxRow::Separator => 0,
        CtxRow::Hit(k) => lines[k as int] as int,
        CtxRow::Context(n) => n as int,
    }
}

/// Hits and the lines around them are shown in order and each once: a hit as a hit, every
/// one or the first of its line, and a line without one exactly if it is near enough to
/// some hit. A separator stands where lines are left out in between, and nowhere else.
pub proof fn law_rows_show_hits_and_lines_around(
    lines: Seq<u64>,
    nlines: int,
    before: usize,
    after: usize,
    every: bool,
)
    requires
        forall|i: int, j: int| 0 <= i <= j < lines.len() ==> lines[i] <= lines[j],
        forall|i: int| 0 <= i < lines.len() ==> 1 <= #[trigger] lines[i] <= nlines,
        lines.len() <= usize::MAX,
        nlines <= u64::MAX,
    ensures
        forall|k: usize| #[trigger]
            rows_of(lines, nlines, before, after, every).contains(CtxRow::Hit(k)) <==> k < lines.len() && (every || k == 0
                || lines[k - 1] < lines[k as int]),
        forall|n: u64| #[trigger]
            rows_of(lines, nlines, before, after, every).contains(CtxRow::Context(n)) <==> 1 <= n <= nlines && (forall|
                k: int,
            | 0 <= k < lines.len() ==> #[trigger] lines[k] != n) && exists|k: int|
                0 <= k < lines.len() && (#[trigger] lines[k]) <= n + before && n <= lines[k] + after,
        rows_in_order(lines, rows_of(lines, nlines, before, after, every)),
{
    let groups = groups_of(lines, before, after);
    let rows = rows_of(lines, nlines, before, after, every);
    law_groups_cover_windows(lines, before, after);
    assert forall|g: int| 0 <= g < groups.len() implies (#[trigger] groups[g]).0 <= nlines by {
        lemma_groups_start_by(lines, before, after, nlines, g);
    }
    lemma_group_rows_hold(lines, groups, nlines, every);
    assert forall|k: usize| #[trigger] rows.contains(CtxRow::Hit(k)) <==> k < lines.len() && (every || k == 0 || lines[k
        - 1] < lines[k as int]) by {
        if k < lines.len() {
            let n = lines[k as int];
            law_groups_hold_the_lines_around_hits(lines, before, after, n);
            assert(lines[k as int] <= n + before && n <= lines[k as int] + after);
            assert(in_groups(groups, n));
            lemma_line_rows(lines, n as int, every);
        }
        if rows.contains(CtxRow::Hit(k)) {
            lemma_line_rows(lines, row_line(lines, CtxRow::Hit(k)), every);
        }
    }
    assert forall|n: u64| #[trigger] rows.contains(CtxRow::Context(n)) <==> 1 <= n <= nlines && (forall|k: int|
        0 <= k < lines.len() ==> #[trigger] lines[k] != n) && exists|k: int|
        0 <= k < lines.len() && (#[trigger] lines[k]) <= n + before && n <= lines[k] + after by {
        lemma_line_rows(lines, n as int, every);
        if n >= 1 {
            law_groups_hold_the_lines_around_hits(lines, before, after, n);
        }
        if rows.contains(CtxRow::Context(n)) {
            assert(in_groups(groups, n));
            let g = choose|g: int| 0 <= g < groups.len() && (#[trigger] groups[g]).0 <= n <= groups[g].1;
            assert(1 <= groups[g].0);
        }
    }
}

/// The rows ascend by line, and of one line by hit; lines follow on each other unless a
/// separator stands between them, and it does exactly if some are left out.
#[verifier::opaque]
pub open spec fn rows_in_order(lines: Seq<u64>, rows: Seq<CtxRow>) -> bool {
    &&& forall|i: int, j: int|
        0 <= i < j < rows.len() && !((#[trigger] rows[i]) is Separator) && !((#[trigger] rows[j]) is Separator)
            ==> row_line(lines, rows[i]) < row_line(lines, rows[j]) || (rows[i] matches CtxRow::Hit(a) && rows[j] matches CtxRow::Hit(
            b,
        ) && a < b && row_line(lines, rows[i]) == row_line(lines, rows[j]))
    &&& forall|i: int|
        0 <= i < rows.len() && (#[trigger] rows[i]) is Separator ==> 0 < i < rows.len() - 1 && !(rows[i - 1] is Separator)
            && !(rows[i + 1] is Separator) && row_line(lines, rows[i - 1]) + 1 < row_line(lines, rows[i + 1])
    &&& forall|i: int|
        0 < i < rows.len() && !((#[trigger] rows[i]) is Separator) && !(rows[i - 1] is Separator) ==> row_line(
            lines,
            rows[i],
        ) <= row_line(lines, rows[i - 1]) + 1
}

proof fn lemma_groups_start_by(lines: Seq<u64>, before: usize, after: usize, nlines: int, g: int)
    requires
        forall|i: int| 0 <= i < lines.len() ==> 1 <= #[trigger] lines[i] <= nlines,
        0 <= g < groups_of(lines, before, after).len(),
    ensures
        groups_of(lines, before, after)[g].0 <= nlines,
    decreases lines.len(),
{
    if lines.len() > 0 {
        let shorter = lines.drop_last();
        let front = groups_of(shorter, before, after);
        assert(lines[lines.len() - 1] == lines.last());
        assert forall|i: int| 0 <= i < shorter.len() implies 1 <= #[trigger] shorter[i] <= nlines by {
            assert(shorter[i] == lines[i]);
        }
        if g < front.len() {
            lemma_groups_start_by(shorter, before, after, nlines, g);
        }
    }
}

/// The rows of one line are its hits, or the line itself if it has none.
proof fn lemma_line_rows(lines: Seq<u64>, n: int, every: bool)
    requires
        ascending(lines),
        lines.len() <= usize::MAX,
        0 <= n <= u64::MAX,
    ensures
        line_rows(lines, n, every).len() > 0,
        forall|k: usize| #[trigger]
            line_rows(lines, n, every).contains(CtxRow::Hit(k)) <==> k < lines.len() && lines[k as int] == n && (every || k
                == 0 || lines[k - 1] < n),
        forall|m: u64| #[trigger]
            line_rows(lines, n, every).contains(CtxRow::Context(m)) <==> m == n && forall|k: int|
                0 <= k < lines.len() ==> #[trigger] lines[k] != n,
        forall|i: int|
            0 <= i < line_rows(lines, n, every).len() ==> !((#[trigger] line_rows(lines, n, every)[i]) is Separator)
                && row_line(lines, line_rows(lines, n, every)[i]) == n,
        forall|i: int, j: int|
            0 <= i < j < line_rows(lines, n, every).len() ==> ((#[trigger] line_rows(lines, n, every)[i]) matches CtxRow::Hit(
                a,
            ) && (#[trigger] line_rows(lines, n, every)[j]) matches CtxRow::Hit(b) && a < b),
{
    let a = lemma_place_below(lines, n);
    let b = lemma_place_below(lines, n + 1);
    let rows = line_rows(lines, n, every);
    assert forall|k: int| 0 <= k < lines.len() implies (#[trigger] lines[k] == n <==> a <= k < b) by {}
    assert forall|k: usize| #[trigger] rows.contains(CtxRow::Hit(k)) <==> k < lines.len() && lines[k as int] == n && (
    every || k == 0 || lines[k - 1] < n) by {
        if rows.contains(CtxRow::Hit(k)) {
            let i = choose|i: int| 0 <= i < rows.len() && rows[i] == CtxRow::Hit(k);
            assert(k == a + i);
        }
        if k < lines.len() && lines[k as int] == n && (every || k == 0 || lines[k - 1] < n) {
            assert(a <= k < b);
            if !every {
                if a < k {
                    assert(lines[k - 1] == n);
                }
            }
            assert(rows[k - a] == CtxRow::Hit(k));
        }
    }
    assert forall|m: u64| #[trigger] rows.contains(CtxRow::Context(m)) <==> m == n && forall|k: int|
        0 <= k < lines.len() ==> #[trigger] lines[k] != n by {
        if rows.contains(CtxRow::Context(m)) {
            let i = choose|i: int| 0 <= i < rows.len() && rows[i] == CtxRow::Context(m);
            assert(a >= b);
        }
        if m == n && forall|k: int| 0 <= k < lines.len() ==> #[trigger] lines[k] != n {
            if a < b {
                assert(lines[a] == n);
            }
            assert(rows[0] == CtxRow::Context(m));
        }
    }
    assert forall|i: int| 0 <= i < rows.len() implies !((#[trigger] rows[i]) is Separator) && row_line(lines, rows[i])
        == n by {
        if a < b {
            assert(lines[a + i] == n);
        }
    }
}

proof fn lemma_line_rows_in_order(lines: Seq<u64>, n: int, every: bool)
    requires
        ascending(lines),
        lines.len() <= usize::MAX,
        0 <= n <= u64::MAX,
    ensures
        rows_in_order(lines, line_rows(lines, n, every)),
{
    reveal(rows_in_order);
    lemma_line_rows(lines, n, every);
}

/// How many lines lie below `n`: the place of `n` among the lines.
proof fn lemma_place_below(lines: Seq<u64>, n: int) -> (k: int)
    requires
        ascending(lines),
    ensures
        k == count_below(lines, n),
        0 <= k <= lines.len(),
        forall|i: int| 0 <= i < lines.len() ==> (#[trigger] lines[i] < n <==> i < k),
    decreases lines.len(),
{
    if lines.len() == 0 {
        0
    } else {
        let front = lines.drop_last();
        let k = lemma_place_below(front, n);
        assert forall|i: int| 0 <= i < front.len() implies (#[trigger] lines[i] < n <==> i < k) by {
            assert(front[i] == lines[i]);
        }
        if lines.last() < n {
            if k < front.len() {
                assert(lines[k] <= lines[lines.len() - 1]);
            }
            k + 1
        } else {
            k
        }
    }
}

/// The rows of a span of lines.
#[verifier::spinoff_prover]
#[verifier::rlimit(40)]
proof fn lemma_span_rows_hold(lines: Seq<u64>, lo: int, hi: int, every: bool)
    requires
        ascending(lines),
        lines.len() <= usize::MAX,
        0 <= lo <= hi <= u64::MAX,
    ensures
        span_rows(lines, lo, hi, every).len() > 0,
        row_line(lines, span_rows(lines, lo, hi, every)[0]) == lo,
        row_line(lines, span_rows(lines, lo, hi, every).last()) == hi,
        forall|r: CtxRow| #[trigger]
            span_rows(lines, lo, hi, every).contains(r) <==> lo <= row_line(lines, r) <= hi && line_rows(
                lines,
                row_line(lines, r),
                every,
            ).contains(r),
        forall|i: int|
            0 <= i < span_rows(lines, lo, hi, every).len() ==> !((#[trigger] span_rows(lines, lo, hi, every)[i]) is Separator)
                && lo <= row_line(lines, span_rows(lines, lo, hi, every)[i]) <= hi,
        rows_in_order(lines, span_rows(lines, lo, hi, every)),
    decreases hi - lo,
{
    let all = span_rows(lines, lo, hi, every);
    let own = line_rows(lines, hi, every);
    lemma_line_rows(lines, hi, every);
    if lo == hi {
        assert(span_rows(lines, lo, hi - 1, every) =~= Seq::empty());
        assert(all =~= own);
        lemma_line_rows_in_order(lines, hi, every);
        assert forall|r: CtxRow| #[trigger] all.contains(r) <==> lo <= row_line(lines, r) <= hi && line_rows(
            lines,
            row_line(lines, r),
            every,
        ).contains(r) by {
            if all.contains(r) {
                let i = choose|i: int| 0 <= i < own.len() && own[i] == r;
                assert(row_line(lines, own[i]) == hi);
            }
        }
    } else {
        let front = span_rows(lines, lo, hi - 1, every);
        lemma_span_rows_hold(lines, lo, hi - 1, every);
        assert(all[0] == front[0]);
        assert(all.last() == own.last());
        assert(own.last() == own[own.len() - 1]);
        assert forall|r: CtxRow| #[trigger] all.contains(r) <==> lo <= row_line(lines, r) <= hi && line_rows(
            lines,
            row_line(lines, r),
            every,
        ).contains(r) by {
            lemma_in_concat(front, own, r);
            if own.contains(r) {
                let i = choose|i: int| 0 <= i < own.len() && own[i] == r;
                assert(row_line(lines, own[i]) == hi);
            }
        }
        assert forall|i: int| 0 <= i < all.len() implies !((#[trigger] all[i]) is Separator) && lo <= row_line(
            lines,
            all[i],
        ) <= hi by {
            if i < front.len() {
                assert(all[i] == front[i]);
            } else {
                assert(all[i] == own[i - front.len()]);
            }
        }
        assert(front.last() == front[front.len() - 1]);
        lemma_line_rows_in_order(lines, hi, every);
        lemma_order_of_concat(lines, front, own, hi - 1, hi);
    }
}

proof fn lemma_in_concat(a: Seq<CtxRow>, b: Seq<CtxRow>, r: CtxRow)
    ensures
        (a + b).contains(r) <==> a.contains(r) || b.contains(r),
{
    if a.contains(r) {
        let i = choose|i: int| 0 <= i < a.len() && a[i] == r;
        assert((a + b)[i] == r);
    }
    if b.contains(r) {
        let i = choose|i: int| 0 <= i < b.len() && b[i] == r;
        assert((a + b)[a.len() + i] == r);
    }
    if (a + b).contains(r) {
        let i = choose|i: int| 0 <= i < (a + b).len() && (a + b)[i] == r;
        if i < a.len() {
            assert(a[i] == r);
        } else {
            assert(b[i - a.len()] == r);
        }
    }
}

/// Rows up to one line and rows from the next line on are in order together.
proof fn lemma_order_of_concat(lines: Seq<u64>, a: Seq<CtxRow>, b: Seq<CtxRow>, last: int, next: int)
    requires
        rows_in_order(lines, a),
        rows_in_order(lines, b),
        a.len() > 0 && b.len() > 0,
        !(a.last() is Separator) && !(b[0] is Separator),
        row_line(lines, a.last()) == last,
        row_line(lines, b[0]) == next,
        next == last + 1,
        forall|i: int| 0 <= i < a.len() && !((#[trigger] a[i]) is Separator) ==> row_line(lines, a[i]) <= last,
        forall|i: int| 0 <= i < b.len() && !((#[trigger] b[i]) is Separator) ==> row_line(lines, b[i]) >= next,
    ensures
        rows_in_order(lines, a + b),
{
    reveal(rows_in_order);
    let all = a + b;
    let n = a.len() as int;
    assert forall|i: int| 0 <= i < all.len() implies (#[trigger] all[i]) == (if i < n {
        a[i]
    } else {
        b[i - n]
    }) by {}
    assert(a.last() == a[n - 1]);
    assert forall|i: int| 0 <= i < all.len() && (#[trigger] all[i]) is Separator implies 0 < i < all.len() - 1 && !(all[i
        - 1] is Separator) && !(all[i + 1] is Separator) && row_line(lines, all[i - 1]) + 1 < row_line(lines, all[i + 1]) by {
        if i < n {
            assert(a[i] is Separator);
        } else {
            assert(b[i - n] is Separator);
        }
    }
    assert forall|i: int| 0 < i < all.len() && !((#[trigger] all[i]) is Separator) && !(all[i - 1] is Separator) implies row_line(
        lines,
        all[i],
    ) <= row_line(lines, all[i - 1]) + 1 by {
        if i < n {
            assert(!(a[i] is Separator));
        } else if i > n {
            assert(!(b[i - n] is Separator));
        }
    }
}

/// The rows of groups.
#[verifier::spinoff_prover]
#[verifier::rlimit(40)]
proof fn lemma_group_rows_hold(lines: Seq<u64>, groups: Seq<(u64, u64)>, nlines: int, every: bool)
    requires
        ascending(lines),
        lines.len() <= usize::MAX,
        nlines <= u64::MAX,
        forall|g: int| 0 <= g < groups.len() ==> 1 <= (#[trigger] groups[g]).0 <= groups[g].1 && groups[g].0 <= nlines,
        forall|g: int, h: int|
            0 <= g < h < groups.len() ==> (#[trigger] groups[g]).1 + 1 < (#[trigger] groups[h]).0,
    ensures
        forall|r: CtxRow|
            !(r is Separator) ==> (#[trigger] group_rows(lines, groups, nlines, every).contains(r) <==> 1 <= row_line(lines, r)
                <= nlines && in_groups(groups, row_line(lines, r) as u64) && line_rows(
                lines,
                row_line(lines, r),
                every,
            ).contains(r)),
        rows_in_order(lines, group_rows(lines, groups, nlines, every)),
        forall|i: int|
            0 <= i < group_rows(lines, groups, nlines, every).len() && !((#[trigger] group_rows(
                lines,
                groups,
                nlines,
                every,
            )[i]) is Separator) ==> row_line(lines, group_rows(lines, groups, nlines, every)[i]) <= groups.last().1,
        groups.len() > 0 ==> group_rows(lines, groups, nlines, every).len() > 0 && !(group_rows(
            lines,
            groups,
            nlines,
            every,
        ).last() is Separator) && row_line(lines, group_rows(lines, groups, nlines, every).last()) == (if groups.last().1
            <= nlines {
            groups.last().1 as int
        } else {
            nlines
        }),
    decreases groups.len(),
{
    let all = group_rows(lines, groups, nlines, every);
    if groups.len() == 0 {
        assert(all =~= Seq::empty());
        reveal(rows_in_order);
    } else {
        let front = groups.drop_last();
        let top = groups.last();
        assert(top == groups[groups.len() - 1]);
        let hi = if top.1 <= nlines {
            top.1 as int
        } else {
            nlines
        };
        let had = group_rows(lines, front, nlines, every);
        let own = span_rows(lines, top.0 as int, hi, every);
        assert forall|g: int| 0 <= g < front.len() implies 1 <= (#[trigger] front[g]).0 <= front[g].1 && front[g].0
            <= nlines by {
            assert(front[g] == groups[g]);
        }
        assert forall|g: int, h: int| 0 <= g < h < front.len() implies (#[trigger] front[g]).1 + 1 < (
        #[trigger] front[h]).0 by {
            assert(front[g] == groups[g] && front[h] == groups[h]);
        }
        lemma_group_rows_hold(lines, front, nlines, every);
        lemma_span_rows_hold(lines, top.0 as int, hi, every);
        let sep: Seq<CtxRow> = if groups.len() > 1 {
            seq![CtxRow::Separator]
        } else {
            Seq::empty()
        };
        assert(all == had + sep + own);
        assert(all.last() == own.last());
        assert(own.last() == own[own.len() - 1]);
        assert forall|r: CtxRow| !(r is Separator) implies (#[trigger] all.contains(r) <==> 1 <= row_line(lines, r)
            <= nlines && in_groups(groups, row_line(lines, r) as u64) && line_rows(
            lines,
            row_line(lines, r),
            every,
        ).contains(r)) by {
            lemma_in_concat(had + sep, own, r);
            lemma_in_concat(had, sep, r);
            let n = row_line(lines, r);
            if 0 <= n <= nlines {
                let m = n as u64;
                if in_groups(front, m) {
                    let g = choose|g: int| 0 <= g < front.len() && (#[trigger] front[g]).0 <= m <= front[g].1;
                    assert(groups[g] == front[g]);
                }
                if in_groups(groups, m) && !(top.0 <= m <= top.1) {
                    let g = choose|g: int| 0 <= g < groups.len() && (#[trigger] groups[g]).0 <= m <= groups[g].1;
                    assert(front[g] == groups[g]);
                }
                if top.0 <= m <= top.1 {
                    assert(in_groups(groups, m));
                }
            }
        }
        assert forall|i: int| 0 <= i < all.len() implies (#[trigger] all[i]) == (if i < had.len() {
            had[i]
        } else if i < had.len() + sep.len() {
            CtxRow::Separator
        } else {
            own[i - had.len() - sep.len()]
        }) by {}
        if groups.len() > 1 {
            assert(front.last() == groups[groups.len() - 2]);
            assert(front.last().1 + 1 < top.0);
            lemma_order_around_separator(lines, had, own, front.last().1 as int, top.0 as int);
            assert(all =~= had + seq![CtxRow::Separator] + own);
            assert forall|i: int| 0 <= i < all.len() && !((#[trigger] all[i]) is Separator) implies row_line(lines, all[i])
                <= top.1 by {
                if i < had.len() {
                    assert(all[i] == had[i]);
                } else if i > had.len() {
                    assert(all[i] == own[i - had.len() - 1]);
                }
            }
        } else {
            assert(had =~= Seq::empty());
            assert(all =~= own);
        }
    }
}

/// Rows before a separator and rows behind it are in order together.
proof fn lemma_order_around_separator(lines: Seq<u64>, a: Seq<CtxRow>, b: Seq<CtxRow>, last: int, next: int)
    requires
        rows_in_order(lines, a),
        rows_in_order(lines, b),
        a.len() > 0 && b.len() > 0,
        !(a.last() is Separator) && !(b[0] is Separator),
        last + 1 < next,
        forall|i: int| 0 <= i < a.len() && !((#[trigger] a[i]) is Separator) ==> row_line(lines, a[i]) <= last,
        forall|i: int| 0 <= i < b.len() && !((#[trigger] b[i]) is Separator) ==> row_line(lines, b[i]) >= next,
    ensures
        rows_in_order(lines, a + seq![CtxRow::Separator] + b),
{
    reveal(rows_in_order);
    let all = a + seq![CtxRow::Separator] + b;
    let n = a.len() as int;
    assert forall|i: int| 0 <= i < all.len() implies (#[trigger] all[i]) == (if i < n {
        a[i]
    } else if i == n {
        CtxRow::Separator
    } else {
        b[i - n - 1]
    }) by {}
    assert(a.last() == a[n - 1]);
    assert forall|i: int| 0 <= i < all.len() && (#[trigger] all[i]) is Separator implies 0 < i < all.len() - 1 && !(all[i
        - 1] is Separator) && !(all[i + 1] is Separator) && row_line(lines, all[i - 1]) + 1 < row_line(lines, all[i + 1]) by {
        if i < n {
            assert(a[i] is Separator);
        } else if i > n {
            assert(b[i - n - 1] is Separator);
        } else {
            assert(!(a[n - 1] is Separator));
            assert(!(b[0] is Separator));
        }
    }
    assert forall|i: int| 0 < i < all.len() && !((#[trigger] all[i]) is Separator) && !(all[i - 1] is Separator) implies row_line(
        lines,
        all[i],
    ) <= row_line(lines, all[i - 1]) + 1 by {
        if i < n {
            assert(!(a[i] is Separator));
        } else {
            assert(!(b[i - n - 1] is Separator));
        }
    }
}

/// The hits of a file are those that ranking lists for it, in their order.
pub proof fn law_hits_in_are_the_hits_of_the_file(ord: Seq<usize>, loc: Seq<(usize, usize)>, f: usize)
    ensures
        hits_in(ord, loc, f) == ord.filter(|p: usize| loc[p as int].0 == f).map_values(|p: usize| loc[p as int].1),
    decreases ord.len(),
{
    reveal(Seq::filter);
    let keep = |p: usize| loc[p as int].0 == f;
    let give = |p: usize| loc[p as int].1;
    if ord.len() > 0 {
        law_hits_in_are_the_hits_of_the_file(ord.drop_last(), loc, f);
        let front = ord.drop_last().filter(keep);
        if keep(ord.last()) {
            assert(ord.filter(keep) == front.push(ord.last()));
            assert(front.push(ord.last()).map_values(give) =~= front.map_values(give).push(give(ord.last())));
        }
    } else {
        assert(ord.filter(keep).map_values(give) =~= Seq::empty());
    }
}

/// Files are shown in the order in which ranking first meets them, each once: `first` tells
/// where.
pub proof fn law_files_are_met_best_first(ord: Seq<usize>, loc: Seq<(usize, usize)>) -> (first: Seq<int>)
    ensures
        first.len() == files_met(ord, loc).len(),
        forall|a: int|
            0 <= a < first.len() ==> 0 <= #[trigger] first[a] < ord.len() && loc[ord[first[a]] as int].0 == files_met(
                ord,
                loc,
            )[a] && forall|i: int| 0 <= i < first[a] ==> loc[#[trigger] ord[i] as int].0 != files_met(ord, loc)[a],
        forall|a: int, b: int| 0 <= a < b < first.len() ==> first[a] < first[b],
        forall|i: int| 0 <= i < ord.len() ==> files_met(ord, loc).contains(loc[#[trigger] ord[i] as int].0),
    decreases ord.len(),
{
    if ord.len() == 0 {
        Seq::empty()
    } else {
        let front = ord.drop_last();
        let met = files_met(front, loc);
        let all = files_met(ord, loc);
        let had = law_files_are_met_best_first(front, loc);
        let f = loc[ord.last() as int].0;
        let first = if met.contains(f) {
            had
        } else {
            had.push(ord.len() - 1)
        };
        assert(forall|i: int| 0 <= i < front.len() ==> front[i] == ord[i]);
        assert forall|i: int| 0 <= i < ord.len() implies all.contains(loc[#[trigger] ord[i] as int].0) by {
            if i < front.len() {
                let g = loc[front[i] as int].0;
                assert(met.contains(g));
                let x = choose|x: int| 0 <= x < met.len() && met[x] == g;
                assert(all[x] == g);
            } else if met.contains(f) {
                let x = choose|x: int| 0 <= x < met.len() && met[x] == f;
                assert(all[x] == f);
            } else {
                assert(all[met.len() as int] == f);
            }
        }
        assert forall|a: int| 0 <= a < first.len() implies 0 <= #[trigger] first[a] < ord.len() && loc[ord[first[a]] as int].0
            == all[a] && forall|i: int| 0 <= i < first[a] ==> loc[#[trigger] ord[i] as int].0 != all[a] by {
            if a < had.len() {
                assert(first[a] == had[a]);
                assert(all[a] == met[a]);
                assert forall|i: int| 0 <= i < first[a] implies loc[#[trigger] ord[i] as int].0 != all[a] by {
                    assert(front[i] == ord[i]);
                }
            } else {
                assert(all[a] == f);
                assert forall|i: int| 0 <= i < first[a] implies loc[#[trigger] ord[i] as int].0 != all[a] by {
                    assert(front[i] == ord[i]);
                    assert(met.contains(loc[front[i] as int].0));
                }
            }
        }
        first
    }
}

} // verus!
