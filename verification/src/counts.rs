//! Counting hits per file, for `-c` and `-l`.

use crate::context::{hits_in, law_hits_in_are_the_hits_of_the_file, ord_fits};
use crate::emit::counts_view;
use crate::hits::FileHits;
use crate::order::{
    ascending_texts, law_text_order_is_permutation, lemma_lex_total, lex_less, order_texts, text_before, text_keys,
};
use crate::render::lemma_hits_in_len;
use crate::text::{lemma_same_bytes, views};
use vstd::prelude::*;
use vstd::utf8::encode_utf8;

verus! {

/// How often a path occurs.
pub open spec fn occurrences(paths: Seq<Seq<char>>, p: Seq<char>) -> nat
    decreases paths.len(),
{
    if paths.len() == 0 {
        0
    } else {
        occurrences(paths.drop_last(), p) + (if paths.last() == p {
            1nat
        } else {
            0
        })
    }
}

/// There is a row for path `p`.
pub open spec fn has_row(rows: Seq<(Seq<char>, usize)>, p: Seq<char>) -> bool {
    exists|k: int| 0 <= k < rows.len() && (#[trigger] rows[k]).0 == p
}

/// The rows name each path once, in byte order, with how often it occurs.
pub open spec fn counts_of(rows: Seq<(Seq<char>, usize)>, paths: Seq<Seq<char>>) -> bool {
    &&& forall|i: int, j: int|
        0 <= i < j < rows.len() ==> lex_less(encode_utf8((#[trigger] rows[i]).0), encode_utf8((#[trigger] rows[j]).0))
    &&& forall|k: int|
        0 <= k < rows.len() ==> (#[trigger] rows[k]).1 == occurrences(paths, rows[k].0) && paths.contains(rows[k].0)
    &&& forall|i: int| 0 <= i < paths.len() ==> has_row(rows, #[trigger] paths[i])
}

/// The names ascend in byte order, so none comes twice.
spec fn names_ascend(names: Seq<String>) -> bool {
    forall|i: int, j: int|
        0 <= i < j < names.len() ==> lex_less(encode_utf8((#[trigger] names[i])@), encode_utf8((#[trigger] names[j])@))
}

/// The distinct paths in byte order, and for each path its place among them.
fn name_paths(paths: &[String]) -> (res: (Vec<String>, Vec<usize>))
    ensures
        names_ascend(res.0@),
        forall|r: int| 0 <= r < res.0@.len() ==> views(paths@).contains((#[trigger] res.0@[r])@),
        res.1@.len() == paths@.len(),
        forall|i: int|
            0 <= i < paths@.len() ==> (#[trigger] res.1@[i]) < res.0@.len() && res.0@[res.1@[i] as int]@ == paths@[i]@,
{
    let ord: Vec<usize> = order_texts(paths);
    let total: usize = ord.len();
    let ghost keys = text_keys(paths@);
    let ghost all = views(paths@);
    proof {
        law_text_order_is_permutation(keys, ord@);
    }
    let mut names: Vec<String> = Vec::new();
    let mut place: Vec<usize> = Vec::new();
    while place.len() < total
        invariant
            place@.len() <= total,
        ensures
            place@.len() == total,
        decreases total - place@.len(),
    {
        place.push(0);
    }
    let mut k: usize = 0;
    while k < total
        invariant
            k <= total == ord@.len() == paths@.len() == place@.len(),
            all == views(paths@),
            keys == text_keys(paths@),
            ascending_texts(keys, ord@),
            ord@.no_duplicates(),
            names_ascend(names@),
            forall|r: int| 0 <= r < names@.len() ==> all.contains((#[trigger] names@[r])@),
            forall|x: int|
                0 <= x < k ==> place@[(#[trigger] ord@[x]) as int] < names@.len() && names@[place@[ord@[x] as int] as int]@
                    == all[ord@[x] as int],
            k > 0 ==> names@.len() > 0 && names@.last()@ == all[ord@[k - 1] as int],
            k == 0 ==> names@.len() == 0,
        decreases total - k,
    {
        let at: usize = ord[k];
        let path: &String = &paths[at];
        let ghost here = all[at as int];
        assert(here == path@);
        assert(keys[at as int] == encode_utf8(path@));
        let fresh: bool = if names.len() == 0 {
            true
        } else {
            names[names.len() - 1] != *path
        };
        let ghost before = names@;
        let ghost placed = place@;
        if fresh {
            names.push(path.clone());
            proof {
                assert(all.contains(here));
                if k > 0 {
                    let prev = all[ord@[k - 1] as int];
                    assert(keys[ord@[k - 1] as int] == encode_utf8(prev));
                    assert(text_before(keys, ord@[k - 1] as int, ord@[k as int] as int));
                    if encode_utf8(prev) == encode_utf8(here) {
                        lemma_same_bytes(prev, here);
                    }
                    assert forall|i: int, j: int| 0 <= i < j < names@.len() implies lex_less(
                        encode_utf8((#[trigger] names@[i])@),
                        encode_utf8((#[trigger] names@[j])@),
                    ) by {
                        if j < before.len() {
                            assert(names@[i] == before[i] && names@[j] == before[j]);
                        } else if i < before.len() - 1 {
                            assert(names@[i] == before[i]);
                            assert(lex_less(encode_utf8(before[i]@), encode_utf8(before[before.len() - 1]@)));
                            crate::order::lemma_lex_transitive(
                                encode_utf8(before[i]@),
                                encode_utf8(prev),
                                encode_utf8(here),
                            );
                        }
                    }
                }
            }
        }
        place.set(at, names.len() - 1);
        proof {
            assert forall|x: int| 0 <= x < k + 1 implies place@[(#[trigger] ord@[x]) as int] < names@.len()
                && names@[place@[ord@[x] as int] as int]@ == all[ord@[x] as int] by {
                if x < k {
                    assert(ord@[x] != ord@[k as int]);
                    assert(place@[ord@[x] as int] == placed[ord@[x] as int]);
                    assert(names@[place@[ord@[x] as int] as int] == before[place@[ord@[x] as int] as int]);
                }
            }
        }
        k = k + 1;
    }
    proof {
        assert forall|i: int| 0 <= i < paths@.len() implies (#[trigger] place@[i]) < names@.len()
            && names@[place@[i] as int]@ == paths@[i]@ by {
            assert(ord@.contains(i as usize));
            let x = choose|x: int| 0 <= x < ord@.len() && ord@[x] == i as usize;
            assert(place@[ord@[x] as int] < names@.len());
        }
    }
    (names, place)
}

/// Count how often each path occurs; rows come in byte order of the path.
pub fn count_paths(paths: &[String]) -> (rows: Vec<(String, usize)>)
    ensures
        counts_of(counts_view(rows@), views(paths@)),
{
    let (names, place) = name_paths(paths);
    let ghost all = views(paths@);
    let mut counts: Vec<usize> = Vec::new();
    while counts.len() < names.len()
        invariant
            counts@.len() <= names@.len(),
            forall|r: int| 0 <= r < counts@.len() ==> counts@[r] == 0,
        ensures
            counts@.len() == names@.len(),
        decreases names@.len() - counts@.len(),
    {
        counts.push(0);
    }
    let mut i: usize = 0;
    assert(all.take(0) =~= Seq::empty());
    while i < paths.len()
        invariant
            i <= paths@.len() == place@.len(),
            all == views(paths@),
            names_ascend(names@),
            counts@.len() == names@.len(),
            forall|x: int|
                0 <= x < paths@.len() ==> (#[trigger] place@[x]) < names@.len() && names@[place@[x] as int]@ == paths@[x]@,
            forall|r: int|
                0 <= r < names@.len() ==> (#[trigger] counts@[r]) == occurrences(all.take(i as int), names@[r]@) && counts@[r]
                    <= i,
        decreases paths@.len() - i,
    {
        let at: usize = place[i];
        let ghost had = counts@;
        counts.set(at, counts[at] + 1);
        proof {
            let more = all.take(i + 1);
            assert(more.drop_last() =~= all.take(i as int));
            assert(more.last() == paths@[i as int]@);
            assert forall|r: int| 0 <= r < names@.len() implies (#[trigger] counts@[r]) == occurrences(more, names@[r]@)
                && counts@[r] <= i + 1 by {
                if r != at {
                    lemma_names_differ(names@, r, at as int);
                    assert(counts@[r] == had[r]);
                }
            }
        }
        i = i + 1;
    }
    assert(all.take(i as int) =~= all);
    let mut rows: Vec<(String, usize)> = Vec::new();
    let mut r: usize = 0;
    while r < names.len()
        invariant
            r <= names@.len() == counts@.len(),
            rows@.len() == r,
            forall|x: int| 0 <= x < r ==> (#[trigger] rows@[x]).0@ == names@[x]@ && rows@[x].1 == counts@[x],
        decreases names@.len() - r,
    {
        rows.push((names[r].clone(), counts[r]));
        r = r + 1;
    }
    proof {
        let view = counts_view(rows@);
        assert forall|x: int| 0 <= x < all.len() implies has_row(view, #[trigger] all[x]) by {
            assert(place@[x] < names@.len());
            assert(view[place@[x] as int].0 == all[x]);
        }
        assert forall|x: int, y: int| 0 <= x < y < view.len() implies lex_less(
            encode_utf8((#[trigger] view[x]).0),
            encode_utf8((#[trigger] view[y]).0),
        ) by {
            assert(view[x].0 == names@[x]@ && view[y].0 == names@[y]@);
        }
        assert forall|x: int| 0 <= x < view.len() implies (#[trigger] view[x]).1 == occurrences(all, view[x].0)
            && all.contains(view[x].0) by {
            assert(view[x].0 == names@[x]@ && view[x].1 == counts@[x]);
        }
    }
    rows
}

proof fn lemma_names_differ(names: Seq<String>, i: int, j: int)
    requires
        names_ascend(names),
        0 <= i < names.len(),
        0 <= j < names.len(),
        i != j,
    ensures
        names[i]@ != names[j]@,
{
    if i < j {
        assert(lex_less(encode_utf8(names[i]@), encode_utf8(names[j]@)));
    } else {
        assert(lex_less(encode_utf8(names[j]@), encode_utf8(names[i]@)));
    }
    lemma_lex_total(encode_utf8(names[i]@), encode_utf8(names[j]@));
}

/// The files that hold ordered hits, with how many, in file order.
pub open spec fn files_with_hits(ord: Seq<usize>, loc: Seq<(usize, usize)>, n: int) -> Seq<(usize, usize)>
    decreases n,
{
    if n <= 0 {
        Seq::empty()
    } else {
        let front = files_with_hits(ord, loc, n - 1);
        let c = hits_in(ord, loc, (n - 1) as usize).len();
        if c > 0 {
            front.push(((n - 1) as usize, c as usize))
        } else {
            front
        }
    }
}

/// The bytes of the paths of the files.
pub open spec fn path_keys(shown: Seq<Seq<char>>, kept: Seq<(usize, usize)>) -> Seq<Seq<u8>> {
    Seq::new(kept.len(), |k: int| encode_utf8(shown[kept[k].0 as int]))
}

/// The rows count the hits of the files, in byte order of the shown path.
pub open spec fn file_counts_of(
    rows: Seq<(Seq<char>, usize)>,
    shown: Seq<Seq<char>>,
    kept: Seq<(usize, usize)>,
) -> bool {
    exists|p: Seq<usize>|
        p.len() == kept.len() && #[trigger] ascending_texts(path_keys(shown, kept), p) && rows == Seq::new(p.len(), |k: int| (shown[kept[p[k] as int].0 as int], kept[p[k] as int].1))
}

/// Number of ordered hits in each of the first `n` files.
fn count_each(ord: &[usize], loc: &[(usize, usize)], n: usize) -> (counts: Vec<usize>)
    requires
        ord_fits(ord@, loc@.len()),
    ensures
        counts@.len() == n,
        forall|f: int| 0 <= f < n ==> (#[trigger] counts@[f]) == hits_in(ord@, loc@, f as usize).len(),
{
    let mut counts: Vec<usize> = Vec::new();
    while counts.len() < n
        invariant
            counts@.len() <= n,
            forall|f: int| 0 <= f < counts@.len() ==> counts@[f] == 0,
        ensures
            counts@.len() == n,
        decreases n - counts@.len(),
    {
        counts.push(0);
    }
    let mut i: usize = 0;
    while i < ord.len()
        invariant
            i <= ord@.len(),
            ord_fits(ord@, loc@.len()),
            counts@.len() == n,
            forall|f: int|
                0 <= f < n ==> (#[trigger] counts@[f]) == hits_in(ord@.take(i as int), loc@, f as usize).len() && counts@[f]
                    <= i,
        decreases ord@.len() - i,
    {
        proof {
            assert(ord@.take(i + 1).drop_last() =~= ord@.take(i as int));
            assert(ord@.take(i + 1).last() == ord@[i as int]);
        }
        let f: usize = loc[ord[i]].0;
        if f < n {
            counts.set(f, counts[f] + 1);
        }
        i = i + 1;
    }
    assert(ord@.take(i as int) =~= ord@);
    counts
}

/// Count the ordered hits of each file; rows come in byte order of the shown path,
/// and files without hits have none.
pub fn count_files(
    files: &[FileHits],
    shown: &[String],
    loc: &[(usize, usize)],
    ord: &[usize],
) -> (rows: Vec<(String, usize)>)
    requires
        shown@.len() == files@.len(),
        ord_fits(ord@, loc@.len()),
    ensures
        file_counts_of(
            counts_view(rows@),
            views(shown@),
            files_with_hits(ord@, loc@, files@.len() as int),
        ),
{
    let counts: Vec<usize> = count_each(ord, loc, files.len());
    let mut kept: Vec<(usize, usize)> = Vec::new();
    let mut texts: Vec<String> = Vec::new();
    let mut f: usize = 0;
    while f < files.len()
        invariant
            f <= files@.len(),
            shown@.len() == files@.len(),
            counts@.len() == files@.len(),
            forall|g: int| 0 <= g < files@.len() ==> (#[trigger] counts@[g]) == hits_in(ord@, loc@, g as usize).len(),
            kept@ == files_with_hits(ord@, loc@, f as int),
            texts@.len() == kept@.len(),
            forall|k: int| 0 <= k < kept@.len() ==> (#[trigger] kept@[k]).0 < files@.len(),
            forall|k: int| 0 <= k < kept@.len() ==> (#[trigger] texts@[k])@ == shown@[kept@[k].0 as int]@,
        decreases files@.len() - f,
    {
        let c: usize = counts[f];
        if c > 0 {
            kept.push((f, c));
            texts.push(shown[f].clone());
        }
        f = f + 1;
    }
    let p: Vec<usize> = order_texts(&texts);
    let ghost want_keys = path_keys(views(shown@), kept@);
    proof {
        assert forall|k: int| 0 <= k < kept@.len() implies text_keys(texts@)[k] == want_keys[k] by {
            assert(texts@[k]@ == shown@[kept@[k].0 as int]@);
            assert(kept@[k].0 < files@.len());
        }
        assert(text_keys(texts@) =~= want_keys);
    }
    let ghost want = Seq::new(p@.len(), |k: int| (views(shown@)[kept@[p@[k] as int].0 as int], kept@[p@[k] as int].1));
    let mut rows: Vec<(String, usize)> = Vec::new();
    let mut k: usize = 0;
    while k < p.len()
        invariant
            k <= p@.len(),
            p@.len() == kept@.len(),
            texts@.len() == kept@.len(),
            shown@.len() == files@.len(),
            ascending_texts(want_keys, p@),
            want_keys.len() == kept@.len(),
            forall|k: int| 0 <= k < kept@.len() ==> (#[trigger] kept@[k]).0 < files@.len(),
            want == Seq::new(
                p@.len(),
                |k: int| (views(shown@)[kept@[p@[k] as int].0 as int], kept@[p@[k] as int].1),
            ),
            counts_view(rows@) == want.take(k as int),
        decreases p@.len() - k,
    {
        let at: (usize, usize) = kept[p[k]];
        let ghost had = counts_view(rows@);
        rows.push((shown[at.0].clone(), at.1));
        assert(counts_view(rows@) =~= had.push((shown@[at.0 as int]@, at.1)));
        k = k + 1;
        assert(counts_view(rows@) =~= want.take(k as int));
    }
    assert(counts_view(rows@) =~= want);
    rows
}

// ---- what is counted ----

/// A row counts how often its path occurs among the hits, and every path that occurs has one
/// row; rows ascend in byte order.
pub proof fn law_rows_count_occurrences(rows: Seq<(Seq<char>, usize)>, paths: Seq<Seq<char>>, i: int)
    requires
        counts_of(rows, paths),
    ensures
        forall|k: int|
            0 <= k < rows.len() ==> (#[trigger] rows[k]).1 == paths.to_multiset().count(rows[k].0) && rows[k].1 > 0,
        0 <= i < paths.len() ==> exists|k: int| 0 <= k < rows.len() && (#[trigger] rows[k]).0 == paths[i],
        forall|i: int, j: int| 0 <= i < j < rows.len() ==> rows[i].0 != rows[j].0,
{
    broadcast use vstd::seq_lib::group_to_multiset_ensures;

    assert forall|k: int| 0 <= k < rows.len() implies (#[trigger] rows[k]).1 == paths.to_multiset().count(rows[k].0)
        && rows[k].1 > 0 by {
        lemma_occurrences(paths, rows[k].0);
        assert(paths.contains(rows[k].0));
    }
    if 0 <= i < paths.len() {
        assert(has_row(rows, paths[i]));
    }
    assert forall|i: int, j: int| 0 <= i < j < rows.len() implies rows[i].0 != rows[j].0 by {
        assert(lex_less(encode_utf8(rows[i].0), encode_utf8(rows[j].0)));
        lemma_lex_total(encode_utf8(rows[i].0), encode_utf8(rows[j].0));
    }
}

proof fn lemma_occurrences(paths: Seq<Seq<char>>, p: Seq<char>)
    ensures
        occurrences(paths, p) == paths.to_multiset().count(p),
    decreases paths.len(),
{
    broadcast use vstd::seq_lib::group_to_multiset_ensures;

    if paths.len() > 0 {
        lemma_occurrences(paths.drop_last(), p);
        assert(paths =~= paths.drop_last().push(paths.last()));
    } else {
        assert(paths.to_multiset().count(p) == 0);
    }
}

/// A file is counted exactly if ranking lists a hit in it, with the number of such hits; the
/// files come in their order.
pub proof fn law_files_with_hits_are_counted(ord: Seq<usize>, loc: Seq<(usize, usize)>, n: int, f: usize, c: usize)
    requires
        0 <= n <= usize::MAX,
        ord.len() <= usize::MAX,
    ensures
        files_with_hits(ord, loc, n).contains((f, c)) <==> f < n && c > 0 && c == ord.filter(
            |p: usize| loc[p as int].0 == f,
        ).len(),
        forall|i: int, j: int|
            0 <= i < j < files_with_hits(ord, loc, n).len() ==> (#[trigger] files_with_hits(ord, loc, n)[i]).0 < (
            #[trigger] files_with_hits(ord, loc, n)[j]).0,
        forall|i: int| 0 <= i < files_with_hits(ord, loc, n).len() ==> (#[trigger] files_with_hits(ord, loc, n)[i]).0 < n,
    decreases n,
{
    if n > 0 {
        law_files_with_hits_are_counted(ord, loc, n - 1, f, c);
        let front = files_with_hits(ord, loc, n - 1);
        let all = files_with_hits(ord, loc, n);
        let g = (n - 1) as usize;
        law_hits_in_are_the_hits_of_the_file(ord, loc, g);
        lemma_hits_in_len(ord, loc, g);
        if front.contains((f, c)) {
            let i = choose|i: int| 0 <= i < front.len() && front[i] == (f, c);
            assert(all[i] == (f, c));
        }
        if all.contains((f, c)) && f != g {
            let i = choose|i: int| 0 <= i < all.len() && all[i] == (f, c);
            assert(front[i] == (f, c));
        }
        if all.contains((f, c)) && f == g {
            let i = choose|i: int| 0 <= i < all.len() && all[i] == (f, c);
            if i < front.len() {
                assert(front[i].0 < n - 1);
            }
        }
        if f == g && c > 0 && c == hits_in(ord, loc, g).len() {
            assert(all[front.len() as int] == (f, c));
        }
    }
}

} // verus!
