//! Taking a stored index into use: checking its root and re-basing its files.

use crate::index::{
    id_lists, ids_in_range, law_stored_paths_pass, list_of, lists_sorted, sorted_keys, stored_path_fault,
    validate_stored_files, Index, IndexFault, IndexFaultView, IndexView,
};
use crate::order::{ascending_texts, find_ordered, order_texts, text_keys};
use crate::paths::{
    components, has_parent_component, is_absolute_path, join_path, joined, law_components_are_the_names,
    law_stripping_leaves_the_rest, strip_dot_slash, strip_path_prefix, stripped, without_dot_slash,
};
use crate::prefilter::strictly_sorted;
use crate::text::views;
use std::collections::HashMap;
use vstd::prelude::*;

verus! {

broadcast use vstd::std_specs::hash::group_hash_axioms;

/// The longest index that is read: 4 GiB.
pub const MAX_INDEX_BYTES: u64 = 4294967296;

/// Whether an index of this length is read.
pub fn index_fits(len: u64) -> (b: bool)
    ensures
        b == (len <= 4294967296),
{
    len <= MAX_INDEX_BYTES
}

/// Why a stored index cannot serve a query.
pub enum LoadFault {
    /// The queried path lies outside the tree of the index.
    OutsideRoot,
    /// Another tree stands at the root by now.
    RootReplaced,
    /// A stored path is refused.
    BadPath(IndexFault),
}

/// A load fault with the text it names.
pub enum LoadFaultView {
    OutsideRoot,
    RootReplaced,
    BadPath(IndexFaultView),
}

impl View for LoadFault {
    type V = LoadFaultView;

    open spec fn view(&self) -> LoadFaultView {
        match self {
            LoadFault::OutsideRoot => LoadFaultView::OutsideRoot,
            LoadFault::RootReplaced => LoadFaultView::RootReplaced,
            LoadFault::BadPath(f) => LoadFaultView::BadPath(f@),
        }
    }
}

// ---- narrowing to a subtree ----

/// A stored path relative to the subtree `rel`; `None` when it lies outside.
pub open spec fn suffix_below(file: Seq<char>, rel: Seq<char>) -> Option<Seq<char>> {
    if rel.len() == 0 {
        Some(file)
    } else {
        stripped(file, rel)
    }
}

/// The path of a file as a scan of `query_root` shows it.
pub open spec fn shown_below(suffix: Seq<char>, query_root: Seq<char>) -> Seq<char> {
    if suffix.len() == 0 {
        without_dot_slash(query_root)
    } else {
        without_dot_slash(joined(query_root, suffix))
    }
}

/// The files of the subtree, in order, as a scan of `query_root` shows them.
pub open spec fn narrowed_files(files: Seq<Seq<char>>, rel: Seq<char>, query_root: Seq<char>) -> Seq<Seq<char>>
    decreases files.len(),
{
    if files.len() == 0 {
        Seq::empty()
    } else {
        let front = narrowed_files(files.drop_last(), rel, query_root);
        match suffix_below(files.last(), rel) {
            Some(suffix) => front.push(shown_below(suffix, query_root)),
            None => front,
        }
    }
}

/// The id that a file gets in the subtree: the number of kept files before it.
pub open spec fn narrowed_id(files: Seq<Seq<char>>, rel: Seq<char>, id: int) -> Option<u32> {
    match suffix_below(files[id], rel) {
        Some(_) => Some(narrowed_files(files.take(id), rel, Seq::empty()).len() as u32),
        None => None,
    }
}

/// The ids of the files of the subtree, in order, as renumbered.
pub open spec fn narrowed_ids(ids: Seq<u32>, files: Seq<Seq<char>>, rel: Seq<char>) -> Seq<u32>
    decreases ids.len(),
{
    if ids.len() == 0 {
        Seq::empty()
    } else {
        let front = narrowed_ids(ids.drop_last(), files, rel);
        match narrowed_id(files, rel, ids.last() as int) {
            Some(n) => front.push(n),
            None => front,
        }
    }
}

/// The posting table of the subtree; lists that become empty are dropped.
pub open spec fn narrowed_postings(postings: Map<u32, Seq<u32>>, files: Seq<Seq<char>>, rel: Seq<char>) -> Map<
    u32,
    Seq<u32>,
> {
    Map::new(
        |g: u32| postings.contains_key(g) && narrowed_ids(postings[g], files, rel).len() > 0,
        |g: u32| narrowed_ids(postings[g], files, rel),
    )
}

/// The index of the subtree `rel`, shown below `query_root`.
pub open spec fn narrowed(idx: IndexView, rel: Seq<char>, query_root: Seq<char>) -> IndexView {
    IndexView {
        files: narrowed_files(idx.files, rel, query_root),
        postings: narrowed_postings(idx.postings, idx.files, rel),
        ..idx
    }
}

proof fn lemma_narrowed_len(files: Seq<Seq<char>>, rel: Seq<char>, a: Seq<char>, b: Seq<char>)
    ensures
        narrowed_files(files, rel, a).len() == narrowed_files(files, rel, b).len(),
        narrowed_files(files, rel, a).len() <= files.len(),
    decreases files.len(),
{
    if files.len() > 0 {
        lemma_narrowed_len(files.drop_last(), rel, a, b);
    }
}

/// Kept files are renumbered in order, without gaps below the number of kept files.
proof fn lemma_narrowed_id_order(files: Seq<Seq<char>>, rel: Seq<char>, i: int, j: int)
    requires
        0 <= i < j <= files.len(),
        suffix_below(files[i], rel) is Some,
    ensures
        narrowed_files(files.take(i), rel, Seq::empty()).len() < narrowed_files(
            files.take(j),
            rel,
            Seq::empty(),
        ).len(),
    decreases j - i,
{
    assert(files.take(j).drop_last() =~= files.take(j - 1));
    assert(files.take(j).last() == files[j - 1]);
    if j - 1 > i {
        lemma_narrowed_id_order(files, rel, i, j - 1);
    }
}

/// Narrowing shows each kept file at its new id, and posts it under exactly the
/// trigrams it was posted under.
pub proof fn law_narrowing_keeps_postings(idx: IndexView, rel: Seq<char>, query_root: Seq<char>, id: u32, g: u32)
    requires
        idx.files.len() <= u32::MAX,
        ids_in_range(idx.postings, idx.files.len()),
        id < idx.files.len(),
        suffix_below(idx.files[id as int], rel) is Some,
    ensures
        narrowed_id(idx.files, rel, id as int) matches Some(n) && n < narrowed(idx, rel, query_root).files.len()
            && narrowed(idx, rel, query_root).files[n as int] == shown_below(
            suffix_below(idx.files[id as int], rel)->Some_0,
            query_root,
        ) && (list_of(idx.postings, g).contains(id) <==> list_of(
            narrowed(idx, rel, query_root).postings,
            g,
        ).contains(n)),
{
    let files = idx.files;
    let n = narrowed_files(files.take(id as int), rel, Seq::empty()).len();
    lemma_narrowed_len(files.take(id as int), rel, Seq::empty(), query_root);
    lemma_narrowed_file_at(files, rel, query_root, id as int, files.len() as int);
    assert(files.take(files.len() as int) =~= files);
    let new = narrowed_postings(idx.postings, files, rel);
    if idx.postings.contains_key(g) {
        let ids = idx.postings[g];
        assert forall|k: int| 0 <= k < ids.len() implies #[trigger] ids[k] < files.len() by {
            assert(idx.postings[g][k] < files.len());
        }
        lemma_narrowed_contains(ids, files, rel, id);
        if narrowed_ids(ids, files, rel).len() == 0 {
            assert(!narrowed_ids(ids, files, rel).contains(n as u32));
        }
    }
}

proof fn lemma_narrowed_file_at(files: Seq<Seq<char>>, rel: Seq<char>, query_root: Seq<char>, i: int, j: int)
    requires
        0 <= i < j <= files.len(),
        suffix_below(files[i], rel) is Some,
    ensures
        ({
            let n = narrowed_files(files.take(i), rel, query_root).len();
            let now = narrowed_files(files.take(j), rel, query_root);
            n < now.len() && now[n as int] == shown_below(suffix_below(files[i], rel)->Some_0, query_root)
        }),
    decreases j - i,
{
    assert(files.take(j).drop_last() =~= files.take(j - 1));
    assert(files.take(j).last() == files[j - 1]);
    if j - 1 > i {
        lemma_narrowed_file_at(files, rel, query_root, i, j - 1);
    }
}

proof fn lemma_narrowed_contains(ids: Seq<u32>, files: Seq<Seq<char>>, rel: Seq<char>, id: u32)
    requires
        files.len() <= u32::MAX,
        id < files.len(),
        suffix_below(files[id as int], rel) is Some,
        forall|k: int| 0 <= k < ids.len() ==> #[trigger] ids[k] < files.len(),
    ensures
        ids.contains(id) <==> narrowed_ids(ids, files, rel).contains(narrowed_id(files, rel, id as int)->Some_0),
    decreases ids.len(),
{
    let n = narrowed_id(files, rel, id as int)->Some_0;
    if ids.len() > 0 {
        let front = ids.drop_last();
        let last = ids.last();
        assert(last == ids[ids.len() - 1]);
        assert forall|k: int| 0 <= k < front.len() implies #[trigger] front[k] < files.len() by {
            assert(front[k] == ids[k]);
        }
        lemma_narrowed_contains(front, files, rel, id);
        assert(ids =~= front.push(last));
        assert(ids.contains(id) <==> front.contains(id) || last == id) by {
            if front.contains(id) {
                let x = choose|x: int| 0 <= x < front.len() && front[x] == id;
                assert(ids[x] == id);
            }
            if ids.contains(id) && last != id {
                let x = choose|x: int| 0 <= x < ids.len() && ids[x] == id;
                assert(front[x] == id);
            }
        }
        let nf = narrowed_ids(front, files, rel);
        let all = narrowed_ids(ids, files, rel);
        match narrowed_id(files, rel, last as int) {
            None => {},
            Some(m) => {
                assert(all == nf.push(m));
                assert(all.contains(n) <==> nf.contains(n) || m == n) by {
                    if nf.contains(n) {
                        let x = choose|x: int| 0 <= x < nf.len() && nf[x] == n;
                        assert(all[x] == n);
                    }
                    assert(all[nf.len() as int] == m);
                    if all.contains(n) && m != n {
                        let x = choose|x: int| 0 <= x < all.len() && all[x] == n;
                        assert(nf[x] == n);
                    }
                }
                lemma_narrowed_len(files.take(last as int), rel, Seq::empty(), Seq::empty());
                lemma_narrowed_len(files.take(id as int), rel, Seq::empty(), Seq::empty());
                if last < id {
                    lemma_narrowed_id_order(files, rel, last as int, id as int);
                } else if id < last {
                    lemma_narrowed_id_order(files, rel, id as int, last as int);
                }
            },
        }
    }
}

/// Narrowing keeps posting lists sorted and posted ids in range.
pub proof fn law_narrowing_keeps_order(idx: IndexView, rel: Seq<char>, query_root: Seq<char>)
    requires
        idx.files.len() <= u32::MAX,
        ids_in_range(idx.postings, idx.files.len()),
        lists_sorted(idx.postings),
    ensures
        lists_sorted(narrowed(idx, rel, query_root).postings),
        ids_in_range(narrowed(idx, rel, query_root).postings, narrowed(idx, rel, query_root).files.len()),
{
    let new = narrowed(idx, rel, query_root);
    lemma_narrowed_len(idx.files, rel, query_root, Seq::empty());
    assert forall|g: u32| new.postings.contains_key(g) implies strictly_sorted(#[trigger] new.postings[g]) by {
        lemma_narrowed_list(idx, rel, g, idx.postings[g].len() as int);
        assert(idx.postings[g].take(idx.postings[g].len() as int) =~= idx.postings[g]);
    }
    assert forall|g: u32, k: int| new.postings.contains_key(g) && 0 <= k < new.postings[g].len() implies (
    #[trigger] new.postings[g][k]) < new.files.len() by {
        lemma_narrowed_list(idx, rel, g, idx.postings[g].len() as int);
        assert(idx.postings[g].take(idx.postings[g].len() as int) =~= idx.postings[g]);
        if idx.postings[g].len() > 0 {
            let last = idx.postings[g].last() as int;
            assert(idx.postings[g][idx.postings[g].len() - 1] < idx.files.len());
            let m = narrowed_files(idx.files.take(last + 1), rel, Seq::empty()).len();
            lemma_narrowed_monotone(idx.files, rel, last + 1, idx.files.len() as int);
            assert(idx.files.take(idx.files.len() as int) =~= idx.files);
        }
    }
}

proof fn lemma_narrowed_monotone(files: Seq<Seq<char>>, rel: Seq<char>, i: int, j: int)
    requires
        0 <= i <= j <= files.len(),
    ensures
        narrowed_files(files.take(i), rel, Seq::empty()).len() <= narrowed_files(
            files.take(j),
            rel,
            Seq::empty(),
        ).len(),
    decreases j - i,
{
    if i < j {
        assert(files.take(j).drop_last() =~= files.take(j - 1));
        lemma_narrowed_monotone(files, rel, i, j - 1);
    }
}

proof fn lemma_narrowed_list(idx: IndexView, rel: Seq<char>, g: u32, n: int)
    requires
        idx.files.len() <= u32::MAX,
        ids_in_range(idx.postings, idx.files.len()),
        lists_sorted(idx.postings),
        idx.postings.contains_key(g),
        0 <= n <= idx.postings[g].len(),
    ensures
        ({
            let out = narrowed_ids(idx.postings[g].take(n), idx.files, rel);
            strictly_sorted(out) && (n == 0 ==> out.len() == 0) && (n > 0 ==> forall|k: int|
                0 <= k < out.len() ==> #[trigger] out[k] < narrowed_files(
                    idx.files.take(idx.postings[g][n - 1] + 1),
                    rel,
                    Seq::empty(),
                ).len())
        }),
    decreases n,
{
    if n > 0 {
        let ids = idx.postings[g];
        let files = idx.files;
        lemma_narrowed_list(idx, rel, g, n - 1);
        assert(ids.take(n).drop_last() =~= ids.take(n - 1));
        assert(ids.take(n).last() == ids[n - 1]);
        let id = ids[n - 1] as int;
        assert(idx.postings[g][n - 1] < files.len());
        lemma_narrowed_monotone(files, rel, id, id + 1);
        lemma_narrowed_len(files.take(id), rel, Seq::empty(), Seq::empty());
        assert(files.take(id + 1).drop_last() =~= files.take(id));
        if n > 1 {
            assert(strictly_sorted(ids));
            assert(ids[n - 2] < ids[n - 1]);
            lemma_narrowed_monotone(files, rel, ids[n - 2] + 1, id);
        }
    }
}

/// The subtree of an index that a query asks for: the canonical query root relative
/// to the canonical index root, when the tree is still the one that was indexed.
pub open spec fn queried_subtree(
    idx: IndexView,
    idx_canon: Seq<char>,
    q_canon: Seq<char>,
    dev: u64,
    ino: u64,
) -> Result<Seq<char>, LoadFaultView> {
    match stripped(q_canon, idx_canon) {
        None => Err(LoadFaultView::OutsideRoot),
        Some(rel) => if dev == idx.root_dev && ino == idx.root_ino {
            Ok(rel)
        } else {
            Err(LoadFaultView::RootReplaced)
        },
    }
}

/// Find the queried subtree.
fn find_subtree(idx: &Index, idx_canon: &str, q_canon: &str, dev: u64, ino: u64) -> (res: Result<String, LoadFault>)
    ensures
        match res {
            Ok(rel) => queried_subtree(idx@, idx_canon@, q_canon@, dev, ino) == Ok::<Seq<char>, LoadFaultView>(rel@),
            Err(f) => queried_subtree(idx@, idx_canon@, q_canon@, dev, ino) == Err::<Seq<char>, LoadFaultView>(f@),
        },
{
    match strip_path_prefix(q_canon, idx_canon) {
        None => Err(LoadFault::OutsideRoot),
        Some(rel) => {
            if dev == idx.root_dev && ino == idx.root_ino {
                Ok(rel)
            } else {
                Err(LoadFault::RootReplaced)
            }
        },
    }
}

/// Whether a running daemon for this index may answer the query: only when the
/// query is for the whole tree of the index.
pub fn serve_eligible_root(idx: &Index, idx_canon: &str, q_canon: &str, dev: u64, ino: u64) -> (res: Result<
    bool,
    LoadFault,
>)
    ensures
        match res {
            Ok(whole) => queried_subtree(idx@, idx_canon@, q_canon@, dev, ino) matches Ok(rel) && whole == (rel.len()
                == 0),
            Err(f) => queried_subtree(idx@, idx_canon@, q_canon@, dev, ino) == Err::<Seq<char>, LoadFaultView>(f@),
        },
{
    match find_subtree(idx, idx_canon, q_canon, dev, ino) {
        Ok(rel) => Ok(rel.as_str().is_empty()),
        Err(f) => Err(f),
    }
}

/// The files of the subtree and, per file, its new id.
fn narrow_files(files: &[String], rel: &str, query_root: &str) -> (res: (Vec<String>, Vec<Option<u32>>))
    requires
        files@.len() <= u32::MAX,
    ensures
        views(res.0@) == narrowed_files(views(files@), rel@, query_root@),
        res.1@.len() == files@.len(),
        forall|i: int| 0 <= i < files@.len() ==> #[trigger] res.1@[i] == narrowed_id(views(files@), rel@, i),
{
    let mut kept: Vec<String> = Vec::new();
    let mut remap: Vec<Option<u32>> = Vec::new();
    let mut k: usize = 0;
    let whole: bool = rel.is_empty();
    assert(whole == (rel@.len() == 0));
    assert(views(kept@) =~= Seq::empty());
    while k < files.len()
        invariant
            k <= files@.len() <= u32::MAX,
            whole == (rel@.len() == 0),
            views(kept@) == narrowed_files(views(files@).take(k as int), rel@, query_root@),
            remap@.len() == k,
            forall|i: int| 0 <= i < k ==> #[trigger] remap@[i] == narrowed_id(views(files@), rel@, i),
        decreases files@.len() - k,
    {
        let ghost all = views(files@);
        proof {
            assert(all.take(k + 1).drop_last() =~= all.take(k as int));
            assert(all.take(k + 1).last() == files@[k as int]@);
            lemma_narrowed_len(all.take(k as int), rel@, query_root@, Seq::empty());
            assert(views(kept@).len() == kept@.len());
        }
        let suffix: Option<String> = if whole {
            Some(files[k].clone())
        } else {
            strip_path_prefix(files[k].as_str(), rel)
        };
        match suffix {
            None => {
                remap.push(None);
            },
            Some(s) => {
                let shown: String = if s.as_str().is_empty() {
                    strip_dot_slash(query_root)
                } else {
                    let whole: String = join_path(query_root, s.as_str());
                    strip_dot_slash(whole.as_str())
                };
                remap.push(Some(kept.len() as u32));
                let ghost had = views(kept@);
                kept.push(shown);
                assert(views(kept@) =~= had.push(shown@));
            },
        }
        k = k + 1;
    }
    assert(views(files@).take(k as int) =~= views(files@));
    (kept, remap)
}

/// The index of the subtree `rel`, its files shown as a scan of `query_root` shows
/// them.
pub fn narrow_index(idx: &Index, rel: &str, query_root: &str) -> (out: Index)
    requires
        idx.files@.len() <= u32::MAX,
        ids_in_range(idx@.postings, idx@.files.len()),
    ensures
        out@ == narrowed(idx@, rel@, query_root@),
{
    let (files, remap) = narrow_files(&idx.files, rel, query_root);
    let keys: Vec<u32> = sorted_keys(&idx.postings);
    let mut postings: HashMap<u32, Vec<u32>> = HashMap::new();
    let ghost old_lists = idx@.postings;
    let ghost old_files = idx@.files;
    let mut k: usize = 0;
    assert(id_lists(postings@) =~= narrowed_postings(old_lists, old_files, rel@).restrict(
        keys@.take(0).to_set(),
    ));
    while k < keys.len()
        invariant
            k <= keys@.len(),
            strictly_sorted(keys@),
            old_lists == idx@.postings,
            old_files == idx@.files,
            ids_in_range(old_lists, old_files.len()),
            remap@.len() == old_files.len(),
            forall|i: int| 0 <= i < old_files.len() ==> #[trigger] remap@[i] == narrowed_id(old_files, rel@, i),
            forall|g: u32| #[trigger] keys@.contains(g) <==> old_lists.contains_key(g),
            id_lists(postings@) == narrowed_postings(old_lists, old_files, rel@).restrict(
                keys@.take(k as int).to_set(),
            ),
        decreases keys@.len() - k,
    {
        let g: u32 = keys[k];
        assert(keys@.contains(g));
        let ghost was = id_lists(postings@);
        let ghost done = keys@.take(k as int);
        let ghost more = keys@.take(k + 1);
        let ghost target = narrowed_postings(old_lists, old_files, rel@);
        let mut list: Vec<u32> = Vec::new();
        if let Some(ids) = idx.postings.get(&g) {
            assert(ids@ == old_lists[g]);
            let mut i: usize = 0;
            while i < ids.len()
                invariant
                    i <= ids@.len(),
                    ids@ == old_lists[g],
                    old_lists.contains_key(g),
                    ids_in_range(old_lists, old_files.len()),
                    remap@.len() == old_files.len(),
                    forall|i: int| 0 <= i < old_files.len() ==> #[trigger] remap@[i] == narrowed_id(old_files, rel@, i),
                    list@ == narrowed_ids(ids@.take(i as int), old_files, rel@),
                decreases ids@.len() - i,
            {
                assert(old_lists[g][i as int] < old_files.len());
                proof {
                    assert(ids@.take(i + 1).drop_last() =~= ids@.take(i as int));
                    assert(ids@.take(i + 1).last() == ids@[i as int]);
                }
                match remap[ids[i] as usize] {
                    Some(n) => {
                        list.push(n);
                    },
                    None => {},
                }
                i = i + 1;
            }
            assert(ids@.take(i as int) =~= ids@);
        }
        let ghost out = list@;
        assert(out == narrowed_ids(old_lists[g], old_files, rel@));
        if list.len() > 0 {
            postings.insert(g, list);
            assert(id_lists(postings@) =~= was.insert(g, out));
        }
        proof {
            assert(more =~= done.push(g));
            assert forall|h: u32| #[trigger] more.contains(h) <==> done.contains(h) || h == g by {
                if done.contains(h) {
                    let x = choose|x: int| 0 <= x < done.len() && done[x] == h;
                    assert(more[x] == h);
                }
                assert(more[k as int] == g);
                if more.contains(h) {
                    let x = choose|x: int| 0 <= x < more.len() && more[x] == h;
                    if x < k {
                        assert(done[x] == h);
                    }
                }
            }
            assert(id_lists(postings@) =~= target.restrict(more.to_set()));
        }
        k = k + 1;
    }
    proof {
        assert(keys@.take(k as int) =~= keys@);
        assert(id_lists(postings@) =~= narrowed_postings(old_lists, old_files, rel@));
    }
    Index { root: idx.root.clone(), root_dev: idx.root_dev, root_ino: idx.root_ino, files, postings }
}

/// What loading an index for a query gives.
pub open spec fn loaded_for_query(
    idx: IndexView,
    idx_canon: Seq<char>,
    q_canon: Seq<char>,
    dev: u64,
    ino: u64,
    query_root: Seq<char>,
) -> Result<IndexView, LoadFaultView> {
    match queried_subtree(idx, idx_canon, q_canon, dev, ino) {
        Err(f) => Err(f),
        Ok(rel) => match stored_path_fault(idx.files) {
            Some(f) => Err(LoadFaultView::BadPath(f)),
            None => Ok(narrowed(idx, rel, query_root)),
        },
    }
}

/// A loaded index agrees with what is stated.
pub open spec fn load_agrees(got: Result<Index, LoadFault>, want: Result<IndexView, LoadFaultView>) -> bool {
    match (got, want) {
        (Ok(idx), Ok(v)) => idx@ == v,
        (Err(f), Err(w)) => f@ == w,
        _ => false,
    }
}

/// Load an index for a query at `query_root`, whose canonical form is `q_canon`:
/// keep the files below it and show them as a scan shows them. `idx_canon`, `dev`
/// and `ino` are what stands at the root of the index now.
pub fn load_index_for_query(
    idx: &Index,
    idx_canon: &str,
    q_canon: &str,
    dev: u64,
    ino: u64,
    query_root: &str,
) -> (res: Result<Index, LoadFault>)
    requires
        idx.files@.len() <= u32::MAX,
        ids_in_range(idx@.postings, idx@.files.len()),
    ensures
        load_agrees(res, loaded_for_query(idx@, idx_canon@, q_canon@, dev, ino, query_root@)),
{
    match find_subtree(idx, idx_canon, q_canon, dev, ino) {
        Err(f) => Err(f),
        Ok(rel) => match validate_stored_files(&idx.files) {
            Err(f) => Err(LoadFault::BadPath(f)),
            Ok(_) => Ok(narrow_index(idx, rel.as_str(), query_root)),
        },
    }
}

/// What loading an index for serving gives: the files below the stored root.
pub open spec fn loaded_for_serve(idx: IndexView, live: Seq<char>, dev: u64, ino: u64) -> Result<
    IndexView,
    LoadFaultView,
> {
    if live != idx.root || dev != idx.root_dev || ino != idx.root_ino {
        Err(LoadFaultView::RootReplaced)
    } else {
        match stored_path_fault(idx.files) {
            Some(f) => Err(LoadFaultView::BadPath(f)),
            None => Ok(
                IndexView { files: Seq::new(idx.files.len(), |k: int| joined(idx.root, idx.files[k])), ..idx },
            ),
        }
    }
}

/// Load an index for serving: refuse it when the tree moved or was replaced, and
/// make its paths absolute. `live`, `dev` and `ino` are what stands at the root now.
pub fn load_index_for_serve(idx: Index, live: &str, dev: u64, ino: u64) -> (res: Result<Index, LoadFault>)
    ensures
        load_agrees(res, loaded_for_serve(idx@, live@, dev, ino)),
{
    let live_root: String = live.to_owned();
    if live_root != idx.root || dev != idx.root_dev || ino != idx.root_ino {
        return Err(LoadFault::RootReplaced);
    }
    match validate_stored_files(&idx.files) {
        Err(f) => return Err(LoadFault::BadPath(f)),
        Ok(_) => {},
    }
    let mut files: Vec<String> = Vec::new();
    let ghost whole = Seq::new(idx@.files.len(), |k: int| joined(idx@.root, idx@.files[k]));
    let mut k: usize = 0;
    while k < idx.files.len()
        invariant
            k <= idx.files@.len(),
            whole == Seq::new(idx@.files.len(), |k: int| joined(idx@.root, idx@.files[k])),
            views(files@) == whole.take(k as int),
        decreases idx.files@.len() - k,
    {
        let ghost had = views(files@);
        let path: String = join_path(idx.root.as_str(), idx.files[k].as_str());
        files.push(path);
        assert(views(files@) =~= had.push(path@));
        k = k + 1;
        assert(views(files@) =~= whole.take(k as int));
    }
    assert(whole.take(k as int) =~= whole);
    Ok(Index { root: idx.root, root_dev: idx.root_dev, root_ino: idx.root_ino, files, postings: idx.postings })
}

// ---- narrowing to a traversal ----

/// The files, in order, that the traversal met.
pub open spec fn met_files(order: Seq<u32>, files: Seq<Seq<char>>, walked: Seq<Seq<char>>) -> Seq<u32>
    decreases order.len(),
{
    if order.len() == 0 {
        Seq::empty()
    } else {
        let front = met_files(order.drop_last(), files, walked);
        if walked.contains(files[order.last() as int]) {
            front.push(order.last())
        } else {
            front
        }
    }
}

/// Keep the files that a traversal met, in order.
pub fn keep_walked(idx: &Index, order: &[u32], walked: &[String]) -> (out: Vec<u32>)
    requires
        forall|k: int| 0 <= k < order@.len() ==> (#[trigger] order@[k]) < idx.files@.len(),
    ensures
        out@ == met_files(order@, idx@.files, views(walked@)),
{
    let by_text: Vec<usize> = order_texts(walked);
    let mut out: Vec<u32> = Vec::new();
    let mut k: usize = 0;
    while k < order.len()
        invariant
            k <= order@.len(),
            by_text@.len() == walked@.len(),
            ascending_texts(text_keys(walked@), by_text@),
            forall|k: int| 0 <= k < order@.len() ==> (#[trigger] order@[k]) < idx.files@.len(),
            out@ == met_files(order@.take(k as int), idx@.files, views(walked@)),
        decreases order@.len() - k,
    {
        let id: u32 = order[k];
        proof {
            assert(order@.take(k + 1).drop_last() =~= order@.take(k as int));
            assert(order@.take(k + 1).last() == id);
            assert(order@[k as int] < idx.files@.len());
            assert(idx@.files[id as int] == idx.files@[id as int]@);
        }
        if find_ordered(walked, &by_text, idx.files[id as usize].as_str()) {
            out.push(id);
        }
        k = k + 1;
    }
    assert(order@.take(k as int) =~= order@);
    out
}

/// A candidate stays exactly when the traversal met its file.
pub proof fn law_walked_files_stay(order: Seq<u32>, files: Seq<Seq<char>>, walked: Seq<Seq<char>>, id: u32)
    ensures
        met_files(order, files, walked).contains(id) <==> order.contains(id) && walked.contains(files[id as int]),
    decreases order.len(),
{
    let kept = met_files(order, files, walked);
    if order.len() > 0 {
        let front = met_files(order.drop_last(), files, walked);
        law_walked_files_stay(order.drop_last(), files, walked, id);
        assert(order =~= order.drop_last().push(order.last()));
        if order.contains(id) && order.last() != id {
            let k = choose|k: int| 0 <= k < order.len() && order[k] == id;
            assert(order.drop_last()[k] == id);
        }
        if order.drop_last().contains(id) {
            let k = choose|k: int| 0 <= k < order.drop_last().len() && order.drop_last()[k] == id;
            assert(order[k] == id);
        }
        if order.last() == id {
            assert(order[order.len() - 1] == id);
        }
        if walked.contains(files[order.last() as int]) {
            assert(kept == front.push(order.last()));
            if front.contains(id) {
                let k = choose|k: int| 0 <= k < front.len() && front[k] == id;
                assert(kept[k] == id);
            }
            if order.last() == id {
                assert(kept[front.len() as int] == id);
            }
            if kept.contains(id) && order.last() != id {
                let k = choose|k: int| 0 <= k < kept.len() && kept[k] == id;
                assert(front[k] == id);
            }
        }
    }
}

// ---- what loading keeps ----

/// Loading an index for a path keeps the files below the path, in their order, each shown
/// as the path and what it adds to it: a file is below if the components of the subtree are
/// the first of its own.
pub proof fn law_narrowing_keeps_files_below(files: Seq<Seq<char>>, rel: Seq<char>, query_root: Seq<char>)
    ensures
        narrowed_files(files, rel, query_root) == files.filter(
            |f: Seq<char>|
                components(rel).len() <= components(f).len() && forall|k: int|
                    0 <= k < components(rel).len() ==> #[trigger] components(f)[k] == components(rel)[k],
        ).map_values(|f: Seq<char>| shown_below(suffix_below(f, rel)->Some_0, query_root)),
    decreases files.len(),
{
    reveal(Seq::filter);
    let keep = |f: Seq<char>|
        components(rel).len() <= components(f).len() && forall|k: int|
            0 <= k < components(rel).len() ==> #[trigger] components(f)[k] == components(rel)[k];
    let show = |f: Seq<char>| shown_below(suffix_below(f, rel)->Some_0, query_root);
    if files.len() > 0 {
        let f = files.last();
        law_narrowing_keeps_files_below(files.drop_last(), rel, query_root);
        law_stripping_leaves_the_rest(f, rel);
        if rel.len() == 0 {
            law_components_are_the_names(f, rel);
        }
        assert(keep(f) <==> suffix_below(f, rel) is Some);
        let had = files.drop_last().filter(keep);
        if keep(f) {
            assert(had.push(f).map_values(show) =~= had.map_values(show).push(show(f)));
        }
    } else {
        assert(files.filter(keep).map_values(show) =~= Seq::empty());
    }
}

/// A file below the path is shown below the path as it was given: by its rest behind a
/// slash, and by the path alone if it is the path itself.
pub proof fn law_files_are_shown_below_the_path(file: Seq<char>, rel: Seq<char>, query_root: Seq<char>)
    requires
        suffix_below(file, rel) is Some,
    ensures
        rel.len() > 0 ==> components(suffix_below(file, rel)->Some_0) == components(file).skip(
            components(rel).len() as int,
        ),
        rel.len() == 0 ==> suffix_below(file, rel) == Some(file),
        shown_below(Seq::empty(), query_root) == without_dot_slash(query_root),
        forall|suffix: Seq<char>|
            suffix.len() > 0 && suffix[0] != '/' && query_root.len() > 0 && query_root.last() != '/'
                ==> #[trigger] shown_below(suffix, query_root) == without_dot_slash(query_root + seq!['/'] + suffix),
{
    law_stripping_leaves_the_rest(file, rel);
    assert forall|suffix: Seq<char>|
        suffix.len() > 0 && suffix[0] != '/' && query_root.len() > 0 && query_root.last() != '/' implies #[trigger] shown_below(
        suffix,
        query_root,
    ) == without_dot_slash(query_root + seq!['/'] + suffix) by {
        assert(query_root.push('/') + suffix =~= query_root + seq!['/'] + suffix);
    }
}

/// An index is loaded for a path exactly if the path lies below the root, the root is still
/// the directory that was indexed, and no stored path leads out of it.
pub proof fn law_index_loads_for_paths_below_its_root(
    idx: IndexView,
    idx_canon: Seq<char>,
    q_canon: Seq<char>,
    dev: u64,
    ino: u64,
    query_root: Seq<char>,
)
    ensures
        loaded_for_query(idx, idx_canon, q_canon, dev, ino, query_root) is Ok <==> {
            &&& components(idx_canon).len() <= components(q_canon).len()
            &&& forall|k: int|
                0 <= k < components(idx_canon).len() ==> #[trigger] components(q_canon)[k] == components(idx_canon)[k]
            &&& dev == idx.root_dev && ino == idx.root_ino
            &&& forall|k: int|
                0 <= k < idx.files.len() ==> !is_absolute_path(#[trigger] idx.files[k]) && !has_parent_component(
                    idx.files[k],
                )
        },
        loaded_for_query(idx, idx_canon, q_canon, dev, ino, query_root) == Err::<IndexView, LoadFaultView>(
            LoadFaultView::OutsideRoot,
        ) <==> !(components(idx_canon).len() <= components(q_canon).len() && forall|k: int|
            0 <= k < components(idx_canon).len() ==> #[trigger] components(q_canon)[k] == components(idx_canon)[k]),
        loaded_for_query(idx, idx_canon, q_canon, dev, ino, query_root) matches Ok(v) ==> exists|rel: Seq<char>|
            components(rel) == components(q_canon).skip(components(idx_canon).len() as int) && v.files
                == #[trigger] narrowed_files(idx.files, rel, query_root),
{
    law_stripping_leaves_the_rest(q_canon, idx_canon);
    law_stored_paths_pass(idx.files);
}

/// An index is taken into service exactly if its root resolves to itself and is still the
/// directory that was indexed, and no stored path leads out of it. Every file is then found
/// below the root, and under the same trigrams.
pub proof fn law_index_serves_its_own_root(idx: IndexView, live: Seq<char>, dev: u64, ino: u64)
    ensures
        loaded_for_serve(idx, live, dev, ino) is Ok <==> live == idx.root && dev == idx.root_dev && ino == idx.root_ino
            && forall|k: int|
            0 <= k < idx.files.len() ==> !is_absolute_path(#[trigger] idx.files[k]) && !has_parent_component(idx.files[k]),
        loaded_for_serve(idx, live, dev, ino) matches Ok(v) ==> v.root == idx.root && v.postings == idx.postings
            && v.files.len() == idx.files.len() && forall|k: int|
            0 <= k < idx.files.len() ==> #[trigger] v.files[k] == joined(idx.root, idx.files[k]),
{
    law_stored_paths_pass(idx.files);
}

/// Keeping what a traversal met leaves the order as it is.
pub proof fn law_walked_files_keep_their_order(order: Seq<u32>, files: Seq<Seq<char>>, walked: Seq<Seq<char>>)
    ensures
        met_files(order, files, walked) == order.filter(|id: u32| walked.contains(files[id as int])),
    decreases order.len(),
{
    reveal(Seq::filter);
    if order.len() > 0 {
        law_walked_files_keep_their_order(order.drop_last(), files, walked);
    }
}

/// A query is for the whole tree of an index exactly if it names the root itself.
pub proof fn law_root_is_the_whole_tree(idx: IndexView, idx_canon: Seq<char>, q_canon: Seq<char>, dev: u64, ino: u64)
    ensures
        queried_subtree(idx, idx_canon, q_canon, dev, ino) matches Ok(rel) ==> (rel.len() == 0 <==> components(q_canon)
            == components(idx_canon)),
        queried_subtree(idx, idx_canon, q_canon, dev, ino) is Ok <==> dev == idx.root_dev && ino == idx.root_ino
            && components(idx_canon).len() <= components(q_canon).len() && forall|k: int|
            0 <= k < components(idx_canon).len() ==> #[trigger] components(q_canon)[k] == components(idx_canon)[k],
{
    law_stripping_leaves_the_rest(q_canon, idx_canon);
    if stripped(q_canon, idx_canon) is Some {
        let rel = stripped(q_canon, idx_canon)->Some_0;
        let n = components(idx_canon).len() as int;
        law_components_are_the_names(q_canon, Seq::empty());
        if rel.len() == 0 {
            assert(rel =~= Seq::empty());
            assert(components(q_canon).skip(n).len() == 0);
        }
        if components(q_canon) == components(idx_canon) {
            assert(components(q_canon).take(n) =~= components(idx_canon));
        }
        if components(q_canon).len() == n {
            assert(components(q_canon) =~= components(idx_canon));
        }
    }
}

} // verus!
