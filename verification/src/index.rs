//! The trigram index: files of a tree and, per trigram, the files that hold it.

use crate::grams::{
    gram_at, has_gram, law_pack_is_injective_and_ordered, law_trigrams_are_windows_of_three_bytes, trigrams_of,
};
use crate::lines::{has_early_nul, has_utf16_mark, is_binary, is_utf16};
use crate::order::sorted_unique;
use crate::paths::{
    components, has_parent_component, has_parent_dir, is_absolute, is_absolute_path, law_stripping_leaves_the_rest,
    same_components, strip_path_prefix, stripped,
};
use crate::prefilter::strictly_sorted;
use crate::text::{chars_of, views};
use std::collections::{HashMap, HashSet};
use vstd::prelude::*;

verus! {

broadcast use vstd::std_specs::hash::group_hash_axioms;

/// A trigram index over the files of one tree.
pub struct Index {
    /// Canonical absolute path of the tree that the index was built from.
    pub root: String,
    /// Device of the root; 0 where unavailable.
    pub root_dev: u64,
    /// Inode of the root; 0 where unavailable.
    pub root_ino: u64,
    /// Paths below the root, by file id.
    pub files: Vec<String>,
    /// Packed trigram to the ids of the files that hold it.
    pub postings: HashMap<u32, Vec<u32>>,
}

/// What an index holds.
#[verifier::ext_equal]
pub struct IndexView {
    pub root: Seq<char>,
    pub root_dev: u64,
    pub root_ino: u64,
    pub files: Seq<Seq<char>>,
    pub postings: Map<u32, Seq<u32>>,
}

/// The id lists of a posting table.
pub open spec fn id_lists(postings: Map<u32, Vec<u32>>) -> Map<u32, Seq<u32>> {
    postings.map_values(|v: Vec<u32>| v@)
}

impl View for Index {
    type V = IndexView;

    open spec fn view(&self) -> IndexView {
        IndexView {
            root: self.root@,
            root_dev: self.root_dev,
            root_ino: self.root_ino,
            files: views(self.files@),
            postings: id_lists(self.postings@),
        }
    }
}

/// Every posted id names a file.
pub open spec fn ids_in_range(postings: Map<u32, Seq<u32>>, nfiles: nat) -> bool {
    forall|g: u32, k: int|
        postings.contains_key(g) && 0 <= k < postings[g].len() ==> (#[trigger] postings[g][k]) < nfiles
}

/// Every id list ascends without repetition.
pub open spec fn lists_sorted(postings: Map<u32, Seq<u32>>) -> bool {
    forall|g: u32| postings.contains_key(g) ==> strictly_sorted(#[trigger] postings[g])
}

/// Why an index is refused.
pub enum IndexFault {
    /// The data ends inside a field.
    UnexpectedEnd,
    /// A text is said to be longer than the data.
    BadLengthPrefix,
    /// A text is not UTF-8.
    NonUtf8Path,
    /// More files are announced than the data has bytes.
    BadFileCount,
    /// More posting lists are announced than the data has bytes.
    BadPostingCount,
    /// A posted id names no file.
    PostingIdOutOfRange,
    /// A stored path is absolute.
    AbsolutePath,
    /// A stored path has a `..` component.
    EscapesRoot(String),
}

/// An index fault with the text it names.
pub enum IndexFaultView {
    UnexpectedEnd,
    BadLengthPrefix,
    NonUtf8Path,
    BadFileCount,
    BadPostingCount,
    PostingIdOutOfRange,
    AbsolutePath,
    EscapesRoot(Seq<char>),
}

impl View for IndexFault {
    type V = IndexFaultView;

    open spec fn view(&self) -> IndexFaultView {
        match self {
            IndexFault::UnexpectedEnd => IndexFaultView::UnexpectedEnd,
            IndexFault::BadLengthPrefix => IndexFaultView::BadLengthPrefix,
            IndexFault::NonUtf8Path => IndexFaultView::NonUtf8Path,
            IndexFault::BadFileCount => IndexFaultView::BadFileCount,
            IndexFault::BadPostingCount => IndexFaultView::BadPostingCount,
            IndexFault::PostingIdOutOfRange => IndexFaultView::PostingIdOutOfRange,
            IndexFault::AbsolutePath => IndexFaultView::AbsolutePath,
            IndexFault::EscapesRoot(p) => IndexFaultView::EscapesRoot(p@),
        }
    }
}

// ---- stored paths ----

/// The first fault among stored paths, in order: an absolute path, or one with a
/// `..` component.
pub open spec fn stored_path_fault(files: Seq<Seq<char>>) -> Option<IndexFaultView>
    decreases files.len(),
{
    if files.len() == 0 {
        None
    } else {
        match stored_path_fault(files.drop_last()) {
            Some(f) => Some(f),
            None => if is_absolute_path(files.last()) {
                Some(IndexFaultView::AbsolutePath)
            } else if has_parent_component(files.last()) {
                Some(IndexFaultView::EscapesRoot(files.last()))
            } else {
                None
            },
        }
    }
}

proof fn lemma_fault_persists(files: Seq<Seq<char>>, k: int)
    requires
        0 <= k <= files.len(),
        stored_path_fault(files.take(k)) is Some,
    ensures
        stored_path_fault(files) == stored_path_fault(files.take(k)),
    decreases files.len() - k,
{
    if k == files.len() {
        assert(files.take(k) =~= files);
    } else {
        assert(files.take(k + 1).drop_last() =~= files.take(k));
        lemma_fault_persists(files, k + 1);
    }
}

/// Stored paths pass exactly when every one is relative and none has a `..`
/// component.
pub proof fn law_stored_paths_pass(files: Seq<Seq<char>>)
    ensures
        stored_path_fault(files) is None <==> forall|k: int|
            0 <= k < files.len() ==> !is_absolute_path(#[trigger] files[k]) && !has_parent_component(files[k]),
    decreases files.len(),
{
    if files.len() > 0 {
        let front = files.drop_last();
        law_stored_paths_pass(front);
        if stored_path_fault(files) is None {
            assert forall|k: int| 0 <= k < files.len() implies !is_absolute_path(#[trigger] files[k])
                && !has_parent_component(files[k]) by {
                if k < front.len() {
                    assert(front[k] == files[k]);
                }
            }
        }
        if forall|k: int|
            0 <= k < files.len() ==> !is_absolute_path(#[trigger] files[k]) && !has_parent_component(files[k]) {
            assert forall|k: int| 0 <= k < front.len() implies !is_absolute_path(#[trigger] front[k])
                && !has_parent_component(front[k]) by {
                assert(front[k] == files[k]);
            }
            assert(files.last() == files[files.len() - 1]);
        }
    }
}

/// Check that stored paths stay below the root they are joined to.
pub fn validate_stored_files(files: &[String]) -> (res: Result<(), IndexFault>)
    ensures
        match res {
            Ok(_) => stored_path_fault(views(files@)) is None,
            Err(f) => stored_path_fault(views(files@)) == Some(f@),
        },
{
    let mut k: usize = 0;
    while k < files.len()
        invariant
            k <= files@.len(),
            stored_path_fault(views(files@).take(k as int)) is None,
        decreases files@.len() - k,
    {
        let ghost all = views(files@);
        proof {
            assert(all.take(k + 1).drop_last() =~= all.take(k as int));
            assert(all.take(k + 1).last() == files@[k as int]@);
        }
        if is_absolute(files[k].as_str()) {
            proof {
                lemma_fault_persists(all, k + 1);
            }
            return Err(IndexFault::AbsolutePath);
        }
        if has_parent_dir(files[k].as_str()) {
            proof {
                lemma_fault_persists(all, k + 1);
            }
            return Err(IndexFault::EscapesRoot(files[k].clone()));
        }
        k = k + 1;
    }
    assert(views(files@).take(k as int) =~= views(files@));
    Ok(())
}

// ---- posting tables ----

/// The trigrams of a posting table, ascending.
pub fn sorted_keys(postings: &HashMap<u32, Vec<u32>>) -> (keys: Vec<u32>)
    ensures
        strictly_sorted(keys@),
        forall|g: u32| #[trigger] keys@.contains(g) <==> postings@.contains_key(g),
{
    let mut all: Vec<u32> = Vec::new();
    for g in it: postings.keys()
        invariant
            it.seq().unref().to_set() == postings@.dom(),
            all@ == it.seq().unref().take(it.index() as int),
            it.index() == it.seq().len() ==> all@ == it.seq().unref(),
    {
        all.push(*g);
        proof {
            let listed = it.seq().unref();
            assert(all@ =~= listed.take(it.index() + 1));
            assert(listed.take(listed.len() as int) =~= listed);
        }
    }
    let keys: Vec<u32> = sorted_unique(&all);
    proof {
        assert(all@.to_set() =~= postings@.dom());
        assert forall|g: u32| #[trigger] keys@.contains(g) <==> postings@.contains_key(g) by {
            assert(all@.contains(g) <==> all@.to_set().contains(g));
        }
    }
    keys
}

/// The trigrams of a set, ascending.
fn sorted_grams(set: &HashSet<u32>) -> (grams: Vec<u32>)
    ensures
        strictly_sorted(grams@),
        forall|g: u32| #[trigger] grams@.contains(g) <==> set@.contains(g),
{
    let mut all: Vec<u32> = Vec::new();
    for g in it: set.iter()
        invariant
            it.seq().unref().to_set() == set@,
            all@ == it.seq().unref().take(it.index() as int),
            it.index() == it.seq().len() ==> all@ == it.seq().unref(),
    {
        all.push(*g);
        proof {
            let listed = it.seq().unref();
            assert(all@ =~= listed.take(it.index() + 1));
            assert(listed.take(listed.len() as int) =~= listed);
        }
    }
    let grams: Vec<u32> = sorted_unique(&all);
    proof {
        assert forall|g: u32| #[trigger] grams@.contains(g) <==> set@.contains(g) by {
            assert(all@.contains(g) <==> all@.to_set().contains(g));
        }
    }
    grams
}

/// The ids posted for a trigram; none when it is not in the table.
pub open spec fn list_of(postings: Map<u32, Seq<u32>>, g: u32) -> Seq<u32> {
    if postings.contains_key(g) {
        postings[g]
    } else {
        Seq::empty()
    }
}

/// The table posts, for each trigram that some file holds, the ids of the files
/// that hold it, ascending; and nothing else.
pub open spec fn posts_exactly(postings: Map<u32, Seq<u32>>, grams: Seq<Set<u32>>) -> bool {
    &&& lists_sorted(postings)
    &&& forall|g: u32| #[trigger] postings.contains_key(g) ==> postings[g].len() > 0
    &&& forall|g: u32, id: u32|
        #![trigger list_of(postings, g).contains(id)]
        list_of(postings, g).contains(id) <==> id < grams.len() && grams[id as int].contains(g)
}

/// The contents of a list of trigram sets.
pub open spec fn gram_sets(entries: Seq<(String, HashSet<u32>)>) -> Seq<Set<u32>> {
    Seq::new(entries.len(), |k: int| entries[k].1@)
}

/// The paths of a list of entries.
pub open spec fn entry_paths(entries: Seq<(String, HashSet<u32>)>) -> Seq<Seq<char>> {
    Seq::new(entries.len(), |k: int| entries[k].0@)
}

/// Post `id` under every trigram of `set`.
fn post_file(postings: &mut HashMap<u32, Vec<u32>>, set: &HashSet<u32>, id: u32)
    ensures
        forall|g: u32| #[trigger]
            id_lists(final(postings)@).contains_key(g) <==> id_lists(old(postings)@).contains_key(g) || set@.contains(
                g,
            ),
        forall|g: u32|
            #![trigger list_of(id_lists(final(postings)@), g)]
            list_of(id_lists(final(postings)@), g) == if set@.contains(g) {
                list_of(id_lists(old(postings)@), g).push(id)
            } else {
                list_of(id_lists(old(postings)@), g)
            },
{
    let ghost before = id_lists(postings@);
    let grams: Vec<u32> = sorted_grams(set);
    let mut k: usize = 0;
    while k < grams.len()
        invariant
            k <= grams@.len(),
            strictly_sorted(grams@),
            forall|g: u32| #[trigger]
                id_lists(postings@).contains_key(g) <==> before.contains_key(g) || grams@.take(k as int).contains(g),
            forall|g: u32|
                #![trigger list_of(id_lists(postings@), g)]
                list_of(id_lists(postings@), g) == if grams@.take(k as int).contains(g) {
                    list_of(before, g).push(id)
                } else {
                    list_of(before, g)
                },
        decreases grams@.len() - k,
    {
        let g: u32 = grams[k];
        let ghost was = id_lists(postings@);
        let ghost done = grams@.take(k as int);
        let ghost more = grams@.take(k + 1);
        proof {
            assert(!done.contains(g));
            assert(more =~= done.push(g));
            assert forall|h: u32| #[trigger] more.contains(h) <==> done.contains(h) || h == g by {
                if done.contains(h) {
                    let x = choose|x: int| 0 <= x < done.len() && done[x] == h;
                    assert(more[x] == h);
                }
                assert(more[k as int] == g);
                if more.contains(h) {
                    let x = choose|x: int| 0 <= x < more.len() && more[x] == h;
                    if x < k {
                        assert(done[x] == h);
                    }
                }
            }
            assert(list_of(was, g) == list_of(before, g));
        }
        let mut list: Vec<u32> = match postings.remove(&g) {
            Some(v) => v,
            None => Vec::new(),
        };
        assert(list@ =~= list_of(was, g));
        list.push(id);
        postings.insert(g, list);
        proof {
            let now = id_lists(postings@);
            assert(now =~= was.insert(g, list_of(was, g).push(id)));
            assert forall|h: u32| #![trigger list_of(now, h)]
                list_of(now, h) == if more.contains(h) {
                    list_of(before, h).push(id)
                } else {
                    list_of(before, h)
                } by {
                if h != g {
                    assert(list_of(now, h) == list_of(was, h));
                }
            }
        }
        k = k + 1;
    }
    assert(grams@.take(k as int) =~= grams@);
}

/// Build the index of a tree from its files and their trigrams; the id of a file
/// is its position.
pub fn build_index(root: &str, root_dev: u64, root_ino: u64, entries: &[(String, HashSet<u32>)]) -> (idx: Index)
    requires
        entries@.len() <= u32::MAX,
    ensures
        idx@.root == root@,
        idx@.root_dev == root_dev,
        idx@.root_ino == root_ino,
        idx@.files == entry_paths(entries@),
        posts_exactly(idx@.postings, gram_sets(entries@)),
{
    let mut files: Vec<String> = Vec::new();
    let mut postings: HashMap<u32, Vec<u32>> = HashMap::new();
    let mut n: usize = 0;
    assert(id_lists(postings@) =~= Map::<u32, Seq<u32>>::empty());
    while n < entries.len()
        invariant
            n <= entries@.len() <= u32::MAX,
            views(files@) == entry_paths(entries@.take(n as int)),
            posts_exactly(id_lists(postings@), gram_sets(entries@.take(n as int))),
        decreases entries@.len() - n,
    {
        let id: u32 = n as u32;
        let ghost was = id_lists(postings@);
        let ghost sets = gram_sets(entries@.take(n as int));
        let ghost more = gram_sets(entries@.take(n + 1));
        let ghost had = views(files@);
        files.push(entries[n].0.clone());
        assert(views(files@) =~= had.push(entries@[n as int].0@));
        post_file(&mut postings, &entries[n].1, id);
        proof {
            let now = id_lists(postings@);
            assert(more =~= sets.push(entries@[n as int].1@));
            assert forall|g: u32, x: u32|
                #![trigger list_of(now, g).contains(x)]
                list_of(now, g).contains(x) <==> x < more.len() && more[x as int].contains(g) by {
                assert(list_of(was, g).contains(x) <==> x < sets.len() && sets[x as int].contains(g));
                let l = list_of(was, g);
                if entries@[n as int].1@.contains(g) {
                    assert(l.push(id).contains(x) <==> l.contains(x) || x == id) by {
                        if l.contains(x) {
                            let p = choose|p: int| 0 <= p < l.len() && l[p] == x;
                            assert(l.push(id)[p] == x);
                        }
                        assert(l.push(id)[l.len() as int] == id);
                    }
                }
            }
            assert forall|g: u32| now.contains_key(g) implies strictly_sorted(#[trigger] now[g]) by {
                let l = list_of(was, g);
                assert(now[g] == list_of(now, g));
                assert forall|i: int, j: int| 0 <= i < j < now[g].len() implies now[g][i] < now[g][j] by {
                    if entries@[n as int].1@.contains(g) && j == l.len() {
                        assert(l.contains(l[i]));
                    }
                    if was.contains_key(g) {
                        assert(strictly_sorted(was[g]));
                    }
                }
            }
            assert forall|g: u32| #[trigger] now.contains_key(g) implies now[g].len() > 0 by {
                assert(now[g] == list_of(now, g));
                if was.contains_key(g) {
                    assert(was[g].len() > 0);
                }
            }
            assert(entry_paths(entries@.take(n + 1)) =~= had.push(entries@[n as int].0@)) by {
                assert(had == entry_paths(entries@.take(n as int)));
                assert forall|k: int| 0 <= k < n implies had[k] == (#[trigger] entries@[k]).0@ by {
                    assert(entry_paths(entries@.take(n as int))[k] == entries@.take(n as int)[k].0@);
                }
            }
        }
        n = n + 1;
    }
    assert(entries@.take(n as int) =~= entries@);
    Index { root: root.to_owned(), root_dev, root_ino, files, postings }
}

/// The key of the files whose trigrams are not known. It is no trigram.
pub const UNREAD_GRAM: u32 = 16777216;

/// A file with these bytes is stored under `g`: a trigram of its bytes or, where it is
/// searched decoded, the key of the files whose trigrams are not known.
pub open spec fn stored_under(bytes: Seq<u8>, g: u32) -> bool {
    has_gram(bytes, g) || (g == UNREAD_GRAM && has_utf16_mark(bytes))
}

/// The trigram sets are those under which files with these bytes are stored.
pub open spec fn grams_of_texts(grams: Seq<Set<u32>>, texts: Seq<Seq<u8>>) -> bool {
    &&& grams.len() == texts.len()
    &&& forall|k: int, g: u32| 0 <= k < texts.len() ==> (#[trigger] grams[k].contains(g) <==> stored_under(texts[k], g))
}

/// The index of a tree posts every file under exactly the trigrams of its text, each
/// list ascending and naming files.
pub proof fn law_built_index_finds_grams(
    postings: Map<u32, Seq<u32>>,
    texts: Seq<Seq<u8>>,
    grams: Seq<Set<u32>>,
    id: u32,
    g: u32,
)
    requires
        posts_exactly(postings, grams),
        grams_of_texts(grams, texts),
        g < 0x1000000,
    ensures
        id < texts.len() && has_gram(texts[id as int], g) <==> list_of(postings, g).contains(id),
        lists_sorted(postings),
        ids_in_range(postings, texts.len()),
{
    assert(list_of(postings, g).contains(id) <==> id < grams.len() && grams[id as int].contains(g));
    if id < texts.len() {
        assert(grams[id as int].contains(g) <==> stored_under(texts[id as int], g));
    }
    assert forall|h: u32, k: int| #![trigger postings[h][k]]
        postings.contains_key(h) && 0 <= k < postings[h].len() implies postings[h][k] < texts.len() by {
        assert(list_of(postings, h).contains(postings[h][k]));
    }
}

/// Whether every posted id names a file.
pub fn posting_ids_in_range(postings: &HashMap<u32, Vec<u32>>, nfiles: usize) -> (ok: bool)
    ensures
        ok == ids_in_range(id_lists(postings@), nfiles as nat),
{
    let keys: Vec<u32> = sorted_keys(postings);
    let mut k: usize = 0;
    while k < keys.len()
        invariant
            k <= keys@.len(),
            forall|g: u32| #[trigger] keys@.contains(g) <==> postings@.contains_key(g),
            forall|x: int, y: int|
                0 <= x < k && 0 <= y < id_lists(postings@)[keys@[x]].len() ==> (#[trigger] id_lists(
                    postings@,
                )[keys@[x]][y]) < nfiles,
        decreases keys@.len() - k,
    {
        let g: u32 = keys[k];
        assert(keys@.contains(g));
        assert(id_lists(postings@)[g] == postings@[g]@);
        match postings.get(&g) {
            None => {},
            Some(list) => {
                let mut i: usize = 0;
                while i < list.len()
                    invariant
                        i <= list@.len(),
                        list@ == id_lists(postings@)[g],
                        postings@.contains_key(g),
                        forall|y: int| 0 <= y < i ==> (#[trigger] list@[y]) < nfiles,
                    decreases list@.len() - i,
                {
                    if list[i] as usize >= nfiles {
                        assert(id_lists(postings@)[g][i as int] >= nfiles);
                        return false;
                    }
                    i = i + 1;
                }
            },
        }
        k = k + 1;
    }
    proof {
        let lists = id_lists(postings@);
        assert forall|g: u32, y: int| lists.contains_key(g) && 0 <= y < lists[g].len() implies (
        #[trigger] lists[g][y]) < nfiles by {
            assert(keys@.contains(g));
            let x = choose|x: int| 0 <= x < keys@.len() && keys@[x] == g;
            assert(lists[keys@[x]][y] < nfiles);
        }
    }
    true
}

/// Whether every id list ascends without repetition.
pub fn posting_lists_sorted(postings: &HashMap<u32, Vec<u32>>) -> (ok: bool)
    ensures
        ok == lists_sorted(id_lists(postings@)),
{
    let keys: Vec<u32> = sorted_keys(postings);
    let mut k: usize = 0;
    while k < keys.len()
        invariant
            k <= keys@.len(),
            forall|g: u32| #[trigger] keys@.contains(g) <==> postings@.contains_key(g),
            forall|x: int| 0 <= x < k ==> strictly_sorted(id_lists(postings@)[#[trigger] keys@[x]]),
        decreases keys@.len() - k,
    {
        let g: u32 = keys[k];
        assert(keys@.contains(g));
        assert(id_lists(postings@)[g] == postings@[g]@);
        match postings.get(&g) {
            None => {},
            Some(list) => {
                let mut i: usize = 1;
                while i < list.len()
                    invariant
                        1 <= i,
                        list@ == id_lists(postings@)[g],
                        postings@.contains_key(g),
                        forall|x: int, y: int| 0 <= x < y < i && y < list@.len() ==> list@[x] < list@[y],
                    decreases list@.len() - i,
                {
                    if list[i - 1] >= list[i] {
                        assert(!strictly_sorted(id_lists(postings@)[g]));
                        return false;
                    }
                    i = i + 1;
                }
            },
        }
        k = k + 1;
    }
    proof {
        let lists = id_lists(postings@);
        assert forall|g: u32| lists.contains_key(g) implies strictly_sorted(#[trigger] lists[g]) by {
            assert(keys@.contains(g));
            let x = choose|x: int| 0 <= x < keys@.len() && keys@[x] == g;
            assert(strictly_sorted(lists[keys@[x]]));
        }
    }
    true
}

/// What a decoded index is refused for: a stored path, or else a posted id.
pub open spec fn index_fault(idx: IndexView) -> Option<IndexFaultView> {
    match stored_path_fault(idx.files) {
        Some(f) => Some(f),
        None => if ids_in_range(idx.postings, idx.files.len()) {
            None
        } else {
            Some(IndexFaultView::PostingIdOutOfRange)
        },
    }
}

/// Accept an index that was decoded elsewhere, or refuse it.
pub fn accept_index(idx: Index) -> (res: Result<Index, IndexFault>)
    ensures
        match res {
            Ok(same) => same@ == idx@ && index_fault(idx@) is None,
            Err(f) => index_fault(idx@) == Some(f@),
        },
{
    match validate_stored_files(&idx.files) {
        Err(f) => Err(f),
        Ok(_) => {
            if posting_ids_in_range(&idx.postings, idx.files.len()) {
                Ok(idx)
            } else {
                Err(IndexFault::PostingIdOutOfRange)
            }
        },
    }
}

// ---- building ----

/// The path under which a file is stored: relative to the root. A file outside the
/// root, and the index itself, are not stored.
pub open spec fn entry_path_of(canon: Seq<char>, idx_canon: Option<Seq<char>>, root: Seq<char>) -> Option<Seq<char>> {
    if idx_canon is Some && components(canon) == components(idx_canon->Some_0) {
        None
    } else {
        stripped(canon, root)
    }
}

/// The path under which a file is stored. `canon`, `idx_canon` and `root` are the
/// canonical paths of the file, of the index where it exists, and of the root.
pub fn entry_path(canon: &str, idx_canon: Option<&str>, root: &str) -> (path: Option<String>)
    ensures
        match path {
            Some(p) => entry_path_of(
                canon@,
                match idx_canon {
                    Some(i) => Some(i@),
                    None => None,
                },
                root@,
            ) == Some(p@),
            None => entry_path_of(
                canon@,
                match idx_canon {
                    Some(i) => Some(i@),
                    None => None,
                },
                root@,
            ) is None,
        },
{
    if let Some(i) = idx_canon {
        if same_components(canon, i) {
            return None;
        }
    }
    strip_path_prefix(canon, root)
}

/// The trigrams under which a file is stored; a binary file is not stored.
pub fn entry_grams(bytes: &[u8]) -> (grams: Option<HashSet<u32>>)
    ensures
        match grams {
            Some(g) => !has_early_nul(bytes@) && forall|k: u32| #[trigger] g@.contains(k) <==> stored_under(bytes@, k),
            None => has_early_nul(bytes@),
        },
{
    if is_binary(bytes) {
        None
    } else {
        let mut grams: HashSet<u32> = trigrams_of(bytes);
        if is_utf16(bytes) {
            grams.insert(UNREAD_GRAM);
        }
        Some(grams)
    }
}

/// The stored paths and bytes of the files that a traversal meets, given by canonical
/// path and bytes: the index itself, what lies outside the root and binary files are
/// left out.
pub open spec fn stored_entries(met: Seq<(Seq<char>, Seq<u8>)>, idx_canon: Option<Seq<char>>, root: Seq<char>) -> Seq<
    (Seq<char>, Seq<u8>),
>
    decreases met.len(),
{
    if met.len() == 0 {
        Seq::empty()
    } else {
        let front = stored_entries(met.drop_last(), idx_canon, root);
        match entry_path_of(met.last().0, idx_canon, root) {
            Some(path) => if has_early_nul(met.last().1) {
                front
            } else {
                front.push((path, met.last().1))
            },
            None => front,
        }
    }
}

/// The index is that of the stored files.
pub open spec fn is_index_of(idx: IndexView, stored: Seq<(Seq<char>, Seq<u8>)>) -> bool {
    exists|grams: Seq<Set<u32>>| #[trigger]
        posts_exactly(idx.postings, grams) && grams_of_texts(grams, Seq::new(stored.len(), |k: int| stored[k].1)) && idx.files
            == Seq::new(stored.len(), |k: int| stored[k].0)
}

/// The index of a tree lists the files met below its root that are neither binary nor
/// the index itself, and posts a file under a trigram if and only if that is a window of
/// three of its bytes; every list ascends and names files.
pub proof fn law_index_lists_what_was_met(
    idx: IndexView,
    met: Seq<(Seq<char>, Seq<u8>)>,
    idx_canon: Option<Seq<char>>,
    root: Seq<char>,
    id: u32,
    g: u32,
)
    requires
        is_index_of(idx, stored_entries(met, idx_canon, root)),
        g < 0x1000000,
    ensures
        idx.files.len() == stored_entries(met, idx_canon, root).len(),
        id < idx.files.len() ==> idx.files[id as int] == stored_entries(met, idx_canon, root)[id as int].0,
        list_of(idx.postings, g).contains(id) <==> id < idx.files.len() && has_gram(
            stored_entries(met, idx_canon, root)[id as int].1,
            g,
        ),
        lists_sorted(idx.postings),
        ids_in_range(idx.postings, idx.files.len()),
{
    let stored = stored_entries(met, idx_canon, root);
    let texts = Seq::new(stored.len(), |k: int| stored[k].1);
    let grams = choose|grams: Seq<Set<u32>>| #[trigger]
        posts_exactly(idx.postings, grams) && grams_of_texts(grams, texts) && idx.files == Seq::new(
            stored.len(),
            |k: int| stored[k].0,
        );
    law_built_index_finds_grams(idx.postings, texts, grams, id, g);
}

/// An index that lies in its own tree does not list itself: indexing again, with the
/// index met at `at`, stores what was stored when there was none.
pub proof fn law_rebuild_stores_the_same(
    met: Seq<(Seq<char>, Seq<u8>)>,
    at: int,
    idx_canon: Seq<char>,
    bytes: Seq<u8>,
    root: Seq<char>,
)
    requires
        0 <= at <= met.len(),
        forall|k: int| 0 <= k < met.len() ==> components((#[trigger] met[k]).0) != components(idx_canon),
    ensures
        stored_entries(met.insert(at, (idx_canon, bytes)), Some(idx_canon), root) == stored_entries(met, None, root),
    decreases met.len(),
{
    let again = met.insert(at, (idx_canon, bytes));
    if at == met.len() {
        assert(again.drop_last() =~= met);
        assert(again.last() == (idx_canon, bytes));
        lemma_other_files_stay(met, idx_canon, root);
    } else {
        assert(again.drop_last() =~= met.drop_last().insert(at, (idx_canon, bytes)));
        assert(again.last() == met.last());
        assert(components(met[met.len() - 1].0) != components(idx_canon));
        assert forall|k: int| 0 <= k < met.drop_last().len() implies components((#[trigger] met.drop_last()[k]).0)
            != components(idx_canon) by {
            assert(met.drop_last()[k] == met[k]);
        }
        law_rebuild_stores_the_same(met.drop_last(), at, idx_canon, bytes, root);
    }
}

proof fn lemma_other_files_stay(met: Seq<(Seq<char>, Seq<u8>)>, idx_canon: Seq<char>, root: Seq<char>)
    requires
        forall|k: int| 0 <= k < met.len() ==> components((#[trigger] met[k]).0) != components(idx_canon),
    ensures
        stored_entries(met, Some(idx_canon), root) == stored_entries(met, None, root),
    decreases met.len(),
{
    if met.len() > 0 {
        assert(components(met[met.len() - 1].0) != components(idx_canon));
        assert forall|k: int| 0 <= k < met.drop_last().len() implies components((#[trigger] met.drop_last()[k]).0)
            != components(idx_canon) by {
            assert(met.drop_last()[k] == met[k]);
        }
        lemma_other_files_stay(met.drop_last(), idx_canon, root);
    }
}

/// Whether an index is written in binary form: its name ends in `.bin`.
pub fn wants_binary(idx_path: &str) -> (b: bool)
    ensures
        b == ".bin"@.is_suffix_of(idx_path@),
{
    let p: Vec<char> = chars_of(idx_path);
    let n: usize = p.len();
    proof {
        reveal_strlit(".bin");
    }
    if n < 4 {
        return false;
    }
    let b: bool = p[n - 4] == '.' && p[n - 3] == 'b' && p[n - 2] == 'i' && p[n - 1] == 'n';
    proof {
        let end = p@.subrange(n - 4, n as int);
        if b {
            assert(".bin"@ =~= end);
        } else if ".bin"@.is_suffix_of(idx_path@) {
            assert(end[0] == p@[n - 4] && end[1] == p@[n - 3] && end[2] == p@[n - 2] && end[3] == p@[n - 1]);
        }
    }
    b
}

/// The fault that is told is that of the first stored path that leads out of the root.
pub proof fn law_first_bad_path_is_told(files: Seq<Seq<char>>, k: int)
    requires
        0 <= k < files.len(),
        forall|j: int| 0 <= j < k ==> !is_absolute_path(#[trigger] files[j]) && !has_parent_component(files[j]),
    ensures
        is_absolute_path(files[k]) ==> stored_path_fault(files) == Some(IndexFaultView::AbsolutePath),
        !is_absolute_path(files[k]) && has_parent_component(files[k]) ==> stored_path_fault(files) == Some(
            IndexFaultView::EscapesRoot(files[k]),
        ),
    decreases files.len(),
{
    let front = files.drop_last();
    if k == files.len() - 1 {
        law_stored_paths_pass(front);
        assert forall|j: int| 0 <= j < front.len() implies !is_absolute_path(#[trigger] front[j])
            && !has_parent_component(front[j]) by {
            assert(front[j] == files[j]);
        }
    } else {
        assert forall|j: int| 0 <= j < k implies !is_absolute_path(#[trigger] front[j]) && !has_parent_component(
            front[j],
        ) by {
            assert(front[j] == files[j]);
        }
        assert(front[k] == files[k]);
        law_first_bad_path_is_told(front, k);
    }
}

/// A file is stored by what its path adds to the root, unless it is the index itself or
/// does not lie below the root.
pub proof fn law_files_are_stored_relative_to_the_root(
    canon: Seq<char>,
    idx_canon: Option<Seq<char>>,
    root: Seq<char>,
)
    ensures
        entry_path_of(canon, idx_canon, root) is Some <==> components(root).len() <= components(canon).len() && (forall|
            k: int,
        | 0 <= k < components(root).len() ==> #[trigger] components(canon)[k] == components(root)[k]) && !(
        idx_canon matches Some(i) && components(i) == components(canon)),
        entry_path_of(canon, idx_canon, root) matches Some(p) ==> components(p) == components(canon).skip(
            components(root).len() as int,
        ),
{
    law_stripping_leaves_the_rest(canon, root);
}

/// A path leads out of its directory exactly if it is absolute or goes up somewhere.
pub proof fn law_parent_component_goes_up(p: Seq<char>)
    ensures
        has_parent_component(p) <==> components(p).contains(seq!['.', '.']),
        is_absolute_path(p) <==> p.len() > 0 && p[0] == '/',
{
    if components(p).contains(seq!['.', '.']) {
        let k = choose|k: int| 0 <= k < components(p).len() && components(p)[k] == seq!['.', '.'];
        assert(components(p)[k] == seq!['.', '.']);
    }
}

/// An index lists its entries in their order, and posts each under exactly its own trigrams;
/// lists ascend, and none is empty.
pub proof fn law_index_posts_its_entries(postings: Map<u32, Seq<u32>>, entries: Seq<(String, HashSet<u32>)>, id: u32, g: u32)
    requires
        posts_exactly(postings, gram_sets(entries)),
    ensures
        postings.contains_key(g) && postings[g].contains(id) <==> id < entries.len() && entries[id as int].1@.contains(g),
        postings.contains_key(g) ==> postings[g].len() > 0,
        postings.contains_key(g) ==> forall|i: int, j: int|
            0 <= i < j < postings[g].len() ==> postings[g][i] < postings[g][j],
        entry_paths(entries).len() == entries.len(),
        id < entries.len() ==> entry_paths(entries)[id as int] == entries[id as int].0@,
{
    assert(list_of(postings, g).contains(id) <==> id < gram_sets(entries).len() && gram_sets(entries)[id as int].contains(
        g,
    ));
    if postings.contains_key(g) {
        assert(strictly_sorted(postings[g]));
    }
}

/// A file is stored under the trigrams of its bytes and, if it is searched decoded, among the
/// files whose trigrams are not known.
pub proof fn law_files_are_stored_under_their_trigrams(bytes: Seq<u8>, g: u32)
    ensures
        g < 0x1000000 ==> (stored_under(bytes, g) <==> exists|i: int|
            0 <= i && i + 3 <= bytes.len() && g == #[trigger] bytes[i] * 65536 + bytes[i + 1] * 256 + bytes[i + 2]),
        has_utf16_mark(bytes) ==> stored_under(bytes, 0x1000000),
        !has_utf16_mark(bytes) && g >= 0x1000000 ==> !stored_under(bytes, g),
{
    law_trigrams_are_windows_of_three_bytes(bytes, g);
    if has_gram(bytes, g) {
        let i = choose|i: int| gram_at(bytes, i, g);
        law_pack_is_injective_and_ordered(bytes[i], bytes[i + 1], bytes[i + 2], 0, 0, 0);
    }
}

} // verus!
