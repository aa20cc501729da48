//! The binary form of an index.
//!
//! Little-endian fields in one line: the magic, the root's device and inode, the
//! root, the file count and paths, the list count and, per list, the trigram, the
//! id count and the ids. A text is its byte length and its UTF-8 bytes. Lists are
//! written by ascending trigram, so equal indexes have equal bytes.

use crate::index::{
    id_lists, ids_in_range, index_fault, sorted_keys, stored_path_fault, validate_stored_files, Index, IndexFault,
    IndexFaultView, IndexView,
};
use crate::prefilter::strictly_sorted;
use crate::text::{utf8_text, views};
use std::collections::HashMap;
use vstd::bytes::{
    lemma_auto_spec_u32_to_from_le_bytes, lemma_auto_spec_u64_to_from_le_bytes, spec_u32_from_le_bytes,
    spec_u32_to_le_bytes, spec_u64_from_le_bytes, spec_u64_to_le_bytes, u32_from_le_bytes, u32_to_le_bytes,
    u64_from_le_bytes, u64_to_le_bytes,
};
use vstd::prelude::*;
use vstd::utf8::{decode_utf8, encode_utf8, valid_utf8};

verus! {

broadcast use vstd::std_specs::hash::group_hash_axioms;

/// The magic of the current format, `NKGREP02`.
pub open spec fn bin_magic() -> Seq<u8> {
    seq![78u8, 75u8, 71u8, 82u8, 69u8, 80u8, 48u8, 50u8]
}

/// What the magics of all formats begin with, `NKGREP`.
pub open spec fn magic_stem() -> Seq<u8> {
    seq![78u8, 75u8, 71u8, 82u8, 69u8, 80u8]
}

// ---- the written form ----

/// A text: its byte length and its bytes.
pub open spec fn text_bytes(s: Seq<char>) -> Seq<u8> {
    spec_u32_to_le_bytes(encode_utf8(s).len() as u32) + encode_utf8(s)
}

/// The texts one after the other.
pub open spec fn texts_bytes(files: Seq<Seq<char>>) -> Seq<u8>
    decreases files.len(),
{
    if files.len() == 0 {
        Seq::empty()
    } else {
        texts_bytes(files.drop_last()) + text_bytes(files.last())
    }
}

/// The ids one after the other.
pub open spec fn ids_bytes(ids: Seq<u32>) -> Seq<u8>
    decreases ids.len(),
{
    if ids.len() == 0 {
        Seq::empty()
    } else {
        ids_bytes(ids.drop_last()) + spec_u32_to_le_bytes(ids.last())
    }
}

/// One posting list: its trigram, its length and its ids.
pub open spec fn list_bytes(g: u32, ids: Seq<u32>) -> Seq<u8> {
    spec_u32_to_le_bytes(g) + spec_u32_to_le_bytes(ids.len() as u32) + ids_bytes(ids)
}

/// The posting lists of `keys`, in order.
pub open spec fn lists_bytes(postings: Map<u32, Seq<u32>>, keys: Seq<u32>) -> Seq<u8>
    decreases keys.len(),
{
    if keys.len() == 0 {
        Seq::empty()
    } else {
        lists_bytes(postings, keys.drop_last()) + list_bytes(keys.last(), postings[keys.last()])
    }
}

/// `keys` lists the trigrams of the table, ascending.
pub open spec fn are_keys_of(postings: Map<u32, Seq<u32>>, keys: Seq<u32>) -> bool {
    &&& strictly_sorted(keys)
    &&& forall|g: u32| #[trigger] keys.contains(g) <==> postings.contains_key(g)
}

/// The fields before the file count.
pub open spec fn head_bytes(idx: IndexView) -> Seq<u8> {
    bin_magic() + spec_u64_to_le_bytes(idx.root_dev) + spec_u64_to_le_bytes(idx.root_ino) + text_bytes(idx.root)
}

/// The whole index, its lists in the order `keys`.
pub open spec fn index_bytes(idx: IndexView, keys: Seq<u32>) -> Seq<u8> {
    head_bytes(idx) + spec_u32_to_le_bytes(idx.files.len() as u32) + texts_bytes(idx.files) + spec_u32_to_le_bytes(
        keys.len() as u32,
    ) + lists_bytes(idx.postings, keys)
}

// ---- the read form ----

/// `n` bytes at `pos`.
pub open spec fn read_bytes(d: Seq<u8>, pos: int, n: int) -> Result<Seq<u8>, IndexFaultView> {
    if pos + n > d.len() {
        Err(IndexFaultView::UnexpectedEnd)
    } else {
        Ok(d.subrange(pos, pos + n))
    }
}

/// A 32-bit number at `pos`.
pub open spec fn read_u32(d: Seq<u8>, pos: int) -> Result<u32, IndexFaultView> {
    match read_bytes(d, pos, 4) {
        Ok(b) => Ok(spec_u32_from_le_bytes(b)),
        Err(f) => Err(f),
    }
}

/// A 64-bit number at `pos`.
pub open spec fn read_u64(d: Seq<u8>, pos: int) -> Result<u64, IndexFaultView> {
    match read_bytes(d, pos, 8) {
        Ok(b) => Ok(spec_u64_from_le_bytes(b)),
        Err(f) => Err(f),
    }
}

/// A text at `pos`, and the position after it.
pub open spec fn read_text(d: Seq<u8>, pos: int) -> Result<(Seq<char>, int), IndexFaultView> {
    match read_u32(d, pos) {
        Err(f) => Err(f),
        Ok(n) => if n > d.len() {
            Err(IndexFaultView::BadLengthPrefix)
        } else {
            match read_bytes(d, pos + 4, n as int) {
                Err(f) => Err(f),
                Ok(b) => if valid_utf8(b) {
                    Ok((decode_utf8(b), pos + 4 + n))
                } else {
                    Err(IndexFaultView::NonUtf8Path)
                },
            }
        },
    }
}

/// `n` texts from `pos` on, and the position after them.
pub open spec fn read_texts(d: Seq<u8>, pos: int, n: nat) -> Result<(Seq<Seq<char>>, int), IndexFaultView>
    decreases n,
{
    if n == 0 {
        Ok((Seq::empty(), pos))
    } else {
        match read_texts(d, pos, (n - 1) as nat) {
            Err(f) => Err(f),
            Ok((texts, p)) => match read_text(d, p) {
                Err(f) => Err(f),
                Ok((t, q)) => Ok((texts.push(t), q)),
            },
        }
    }
}

/// The ids that the bytes hold, four bytes each.
pub open spec fn ids_of(raw: Seq<u8>) -> Seq<u32> {
    Seq::new(raw.len() / 4, |k: int| spec_u32_from_le_bytes(raw.subrange(4 * k, 4 * k + 4)))
}

/// A posting list at `pos`, and the position after it.
pub open spec fn read_list(d: Seq<u8>, pos: int, nfiles: nat) -> Result<(u32, Seq<u32>, int), IndexFaultView> {
    match read_u32(d, pos) {
        Err(f) => Err(f),
        Ok(g) => match read_u32(d, pos + 4) {
            Err(f) => Err(f),
            Ok(n) => match read_bytes(d, pos + 8, 4 * n) {
                Err(f) => Err(f),
                Ok(raw) => if forall|k: int| 0 <= k < ids_of(raw).len() ==> #[trigger] ids_of(raw)[k] < nfiles {
                    Ok((g, ids_of(raw), pos + 8 + 4 * n))
                } else {
                    Err(IndexFaultView::PostingIdOutOfRange)
                },
            },
        },
    }
}

/// `n` posting lists from `pos` on; a later list for a trigram replaces an earlier
/// one.
pub open spec fn read_lists(d: Seq<u8>, pos: int, n: nat, nfiles: nat) -> Result<
    (Map<u32, Seq<u32>>, int),
    IndexFaultView,
>
    decreases n,
{
    if n == 0 {
        Ok((Map::empty(), pos))
    } else {
        match read_lists(d, pos, (n - 1) as nat, nfiles) {
            Err(f) => Err(f),
            Ok((lists, p)) => match read_list(d, p, nfiles) {
                Err(f) => Err(f),
                Ok((g, ids, q)) => Ok((lists.insert(g, ids), q)),
            },
        }
    }
}

/// The files from `pos` on: their count, then their paths.
pub open spec fn read_files(d: Seq<u8>, pos: int) -> Result<(Seq<Seq<char>>, int), IndexFaultView> {
    match read_u32(d, pos) {
        Err(f) => Err(f),
        Ok(n) => if n > d.len() {
            Err(IndexFaultView::BadFileCount)
        } else {
            read_texts(d, pos + 4, n as nat)
        },
    }
}

/// The posting table from `pos` on: its list count, then its lists.
pub open spec fn read_postings(d: Seq<u8>, pos: int, nfiles: nat) -> Result<
    (Map<u32, Seq<u32>>, int),
    IndexFaultView,
> {
    match read_u32(d, pos) {
        Err(f) => Err(f),
        Ok(n) => if n > d.len() {
            Err(IndexFaultView::BadPostingCount)
        } else {
            read_lists(d, pos + 4, n as nat, nfiles)
        },
    }
}

/// The index that the data after the magic holds, or the first fault met.
pub open spec fn read_index(d: Seq<u8>) -> Result<IndexView, IndexFaultView> {
    match (read_u64(d, 8), read_u64(d, 16), read_text(d, 24)) {
        (Err(f), _, _) => Err(f),
        (_, Err(f), _) => Err(f),
        (_, _, Err(f)) => Err(f),
        (Ok(root_dev), Ok(root_ino), Ok((root, p))) => match read_files(d, p) {
            Err(f) => Err(f),
            Ok((files, q)) => match read_postings(d, q, files.len()) {
                Err(f) => Err(f),
                Ok((postings, _)) => match stored_path_fault(files) {
                    Some(f) => Err(f),
                    None => Ok(IndexView { root, root_dev, root_ino, files, postings }),
                },
            },
        },
    }
}

// ---- what is written is read back ----

/// `bytes` stand in `d` at `pos`.
spec fn stands_at(d: Seq<u8>, pos: int, bytes: Seq<u8>) -> bool {
    0 <= pos && pos + bytes.len() <= d.len() && d.subrange(pos, pos + bytes.len()) == bytes
}

proof fn lemma_stands_split(d: Seq<u8>, pos: int, a: Seq<u8>, b: Seq<u8>)
    requires
        stands_at(d, pos, a + b),
    ensures
        stands_at(d, pos, a),
        stands_at(d, pos + a.len(), b),
{
    let whole = d.subrange(pos, pos + (a + b).len());
    assert(d.subrange(pos, pos + a.len()) =~= whole.take(a.len() as int));
    assert(whole.take(a.len() as int) =~= a);
    assert(d.subrange(pos + a.len(), pos + a.len() + b.len()) =~= whole.skip(a.len() as int));
    assert(whole.skip(a.len() as int) =~= b);
}

proof fn lemma_read_u32(d: Seq<u8>, pos: int, x: u32)
    requires
        stands_at(d, pos, spec_u32_to_le_bytes(x)),
    ensures
        spec_u32_to_le_bytes(x).len() == 4,
        read_u32(d, pos) == Ok::<u32, IndexFaultView>(x),
{
    lemma_auto_spec_u32_to_from_le_bytes();
}

proof fn lemma_read_u64(d: Seq<u8>, pos: int, x: u64)
    requires
        stands_at(d, pos, spec_u64_to_le_bytes(x)),
    ensures
        spec_u64_to_le_bytes(x).len() == 8,
        read_u64(d, pos) == Ok::<u64, IndexFaultView>(x),
{
    lemma_auto_spec_u64_to_from_le_bytes();
}

proof fn lemma_read_text(d: Seq<u8>, pos: int, s: Seq<char>)
    requires
        stands_at(d, pos, text_bytes(s)),
        encode_utf8(s).len() <= u32::MAX,
    ensures
        text_bytes(s).len() == 4 + encode_utf8(s).len(),
        read_text(d, pos) == Ok::<(Seq<char>, int), IndexFaultView>((s, pos + text_bytes(s).len())),
{
    broadcast use {vstd::utf8::encode_utf8_valid_utf8, vstd::utf8::encode_utf8_decode_utf8};

    let n = encode_utf8(s).len() as u32;
    lemma_stands_split(d, pos, spec_u32_to_le_bytes(n), encode_utf8(s));
    lemma_read_u32(d, pos, n);
}

/// Every text can be written with a 32-bit length.
pub open spec fn texts_fit(files: Seq<Seq<char>>) -> bool {
    forall|k: int| 0 <= k < files.len() ==> encode_utf8(#[trigger] files[k]).len() <= u32::MAX
}

proof fn lemma_read_texts(d: Seq<u8>, pos: int, files: Seq<Seq<char>>)
    requires
        stands_at(d, pos, texts_bytes(files)),
        texts_fit(files),
    ensures
        texts_bytes(files).len() >= 4 * files.len(),
        read_texts(d, pos, files.len()) == Ok::<(Seq<Seq<char>>, int), IndexFaultView>(
            (files, pos + texts_bytes(files).len()),
        ),
    decreases files.len(),
{
    if files.len() > 0 {
        let front = files.drop_last();
        lemma_stands_split(d, pos, texts_bytes(front), text_bytes(files.last()));
        assert(texts_fit(front)) by {
            assert forall|k: int| 0 <= k < front.len() implies encode_utf8(#[trigger] front[k]).len() <= u32::MAX by {
                assert(front[k] == files[k]);
            }
        }
        lemma_read_texts(d, pos, front);
        assert(files.last() == files[files.len() - 1]);
        lemma_read_text(d, pos + texts_bytes(front).len(), files.last());
        assert(front.push(files.last()) =~= files);
    } else {
        assert(files =~= Seq::empty());
    }
}

proof fn lemma_ids_of_bytes(ids: Seq<u32>)
    ensures
        ids_bytes(ids).len() == 4 * ids.len(),
        ids_of(ids_bytes(ids)) == ids,
    decreases ids.len(),
{
    lemma_auto_spec_u32_to_from_le_bytes();
    if ids.len() > 0 {
        let front = ids.drop_last();
        lemma_ids_of_bytes(front);
        let a = ids_bytes(front);
        let b = spec_u32_to_le_bytes(ids.last());
        let raw = a + b;
        assert forall|k: int| 0 <= k < ids.len() implies ids_of(raw)[k] == ids[k] by {
            if k < front.len() {
                assert(raw.subrange(4 * k, 4 * k + 4) =~= a.subrange(4 * k, 4 * k + 4));
                assert(ids_of(a)[k] == front[k]);
            } else {
                assert(raw.subrange(4 * k, 4 * k + 4) =~= b);
            }
        }
        assert(ids_of(raw) =~= ids);
    } else {
        assert(ids_of(ids_bytes(ids)) =~= ids);
    }
}

proof fn lemma_read_list(d: Seq<u8>, pos: int, g: u32, ids: Seq<u32>, nfiles: nat)
    requires
        stands_at(d, pos, list_bytes(g, ids)),
        ids.len() <= u32::MAX,
        forall|k: int| 0 <= k < ids.len() ==> #[trigger] ids[k] < nfiles,
    ensures
        list_bytes(g, ids).len() >= 8,
        read_list(d, pos, nfiles) == Ok::<(u32, Seq<u32>, int), IndexFaultView>(
            (g, ids, pos + list_bytes(g, ids).len()),
        ),
{
    lemma_ids_of_bytes(ids);
    let n = ids.len() as u32;
    let a = spec_u32_to_le_bytes(g);
    let b = spec_u32_to_le_bytes(n);
    lemma_stands_split(d, pos, a + b, ids_bytes(ids));
    lemma_stands_split(d, pos, a, b);
    lemma_read_u32(d, pos, g);
    lemma_read_u32(d, pos + 4, n);
}

proof fn lemma_read_lists(d: Seq<u8>, pos: int, postings: Map<u32, Seq<u32>>, keys: Seq<u32>, nfiles: nat)
    requires
        stands_at(d, pos, lists_bytes(postings, keys)),
        forall|k: int| 0 <= k < keys.len() ==> postings.contains_key(#[trigger] keys[k]),
        forall|k: int| 0 <= k < keys.len() ==> postings[#[trigger] keys[k]].len() <= u32::MAX,
        ids_in_range(postings, nfiles),
    ensures
        lists_bytes(postings, keys).len() >= 8 * keys.len(),
        read_lists(d, pos, keys.len(), nfiles) == Ok::<(Map<u32, Seq<u32>>, int), IndexFaultView>(
            (postings.restrict(keys.to_set()), pos + lists_bytes(postings, keys).len()),
        ),
    decreases keys.len(),
{
    if keys.len() > 0 {
        let front = keys.drop_last();
        let g = keys.last();
        assert(g == keys[keys.len() - 1]);
        lemma_stands_split(d, pos, lists_bytes(postings, front), list_bytes(g, postings[g]));
        assert forall|k: int| 0 <= k < front.len() implies postings.contains_key(#[trigger] front[k])
            && postings[front[k]].len() <= u32::MAX by {
            assert(front[k] == keys[k]);
        }
        lemma_read_lists(d, pos, postings, front, nfiles);
        assert forall|k: int| 0 <= k < postings[g].len() implies #[trigger] postings[g][k] < nfiles by {}
        lemma_read_list(d, pos + lists_bytes(postings, front).len(), g, postings[g], nfiles);
        assert(keys =~= front.push(g));
        assert forall|h: u32| keys.to_set().contains(h) <==> front.to_set().contains(h) || h == g by {
            if front.contains(h) {
                let x = choose|x: int| 0 <= x < front.len() && front[x] == h;
                assert(keys[x] == h);
            }
            if keys.contains(h) {
                let x = choose|x: int| 0 <= x < keys.len() && keys[x] == h;
                if x < front.len() {
                    assert(front[x] == h);
                }
            }
        }
        assert(postings.restrict(front.to_set()).insert(g, postings[g]) =~= postings.restrict(keys.to_set()));
    } else {
        assert(postings.restrict(keys.to_set()) =~= Map::<u32, Seq<u32>>::empty());
    }
}

/// The sizes of an index can be written as 32-bit numbers.
pub open spec fn sizes_fit(idx: IndexView, keys: Seq<u32>) -> bool {
    &&& encode_utf8(idx.root).len() <= u32::MAX
    &&& idx.files.len() <= u32::MAX
    &&& texts_fit(idx.files)
    &&& keys.len() <= u32::MAX
    &&& forall|g: u32| idx.postings.contains_key(g) ==> (#[trigger] idx.postings[g]).len() <= u32::MAX
}

/// The fields of a written index stand one behind the other, up to its end.
proof fn lemma_written_fields(idx: IndexView, keys: Seq<u32>)
    requires
        are_keys_of(idx.postings, keys),
        sizes_fit(idx, keys),
        ids_in_range(idx.postings, idx.files.len()),
    ensures
        ({
            let d = index_bytes(idx, keys);
            let p = head_bytes(idx).len() as int;
            let q = p + 4 + texts_bytes(idx.files).len();
            &&& read_u64(d, 8) == Ok::<u64, IndexFaultView>(idx.root_dev)
            &&& read_u64(d, 16) == Ok::<u64, IndexFaultView>(idx.root_ino)
            &&& read_text(d, 24) == Ok::<(Seq<char>, int), IndexFaultView>((idx.root, p))
            &&& read_files(d, p) == Ok::<(Seq<Seq<char>>, int), IndexFaultView>((idx.files, q))
            &&& read_postings(d, q, idx.files.len()) == Ok::<(Map<u32, Seq<u32>>, int), IndexFaultView>(
                (idx.postings, d.len() as int),
            )
            &&& bin_magic().is_prefix_of(d)
        }),
{
    let d = index_bytes(idx, keys);
    let dev = spec_u64_to_le_bytes(idx.root_dev);
    let ino = spec_u64_to_le_bytes(idx.root_ino);
    let nf = idx.files.len() as u32;
    let nk = keys.len() as u32;
    let head = head_bytes(idx);
    let files = texts_bytes(idx.files);
    let lists = lists_bytes(idx.postings, keys);
    let fcount = spec_u32_to_le_bytes(nf);
    let kcount = spec_u32_to_le_bytes(nk);
    assert(d.subrange(0, d.len() as int) =~= d);
    lemma_stands_split(d, 0, head + fcount + files + kcount, lists);
    lemma_stands_split(d, 0, head + fcount + files, kcount);
    lemma_stands_split(d, 0, head + fcount, files);
    lemma_stands_split(d, 0, head, fcount);
    lemma_stands_split(d, 0, bin_magic() + dev + ino, text_bytes(idx.root));
    lemma_stands_split(d, 0, bin_magic() + dev, ino);
    lemma_stands_split(d, 0, bin_magic(), dev);
    lemma_read_u64(d, 8, idx.root_dev);
    lemma_read_u64(d, 16, idx.root_ino);
    lemma_read_text(d, 24, idx.root);
    let p = head.len() as int;
    lemma_read_u32(d, p, nf);
    lemma_read_texts(d, p + 4, idx.files);
    let q = p + 4 + files.len();
    lemma_read_u32(d, q, nk);
    assert forall|k: int| 0 <= k < keys.len() implies idx.postings.contains_key(#[trigger] keys[k])
        && idx.postings[keys[k]].len() <= u32::MAX by {
        assert(keys.contains(keys[k]));
    }
    lemma_read_lists(d, q + 4, idx.postings, keys, idx.files.len());
    assert(idx.postings.restrict(keys.to_set()) =~= idx.postings);
    assert(bin_magic() =~= d.take(8));
}

/// Reading what was written gives the index back, for every index that passes the
/// checks on stored paths and posted ids and whose sizes fit.
pub proof fn law_written_index_reads_back(idx: IndexView, keys: Seq<u32>)
    requires
        are_keys_of(idx.postings, keys),
        sizes_fit(idx, keys),
        index_fault(idx) is None,
    ensures
        read_index(index_bytes(idx, keys)) == Ok::<IndexView, IndexFaultView>(idx),
        bin_magic().is_prefix_of(index_bytes(idx, keys)),
{
    lemma_written_fields(idx, keys);
}

proof fn lemma_cut_bytes(d: Seq<u8>, k: int, pos: int, n: int)
    requires
        0 <= k <= d.len(),
        0 <= pos,
        0 <= n,
        read_bytes(d.take(k), pos, n) is Ok,
    ensures
        read_bytes(d, pos, n) == read_bytes(d.take(k), pos, n),
        pos + n <= k,
{
    assert(d.take(k).subrange(pos, pos + n) =~= d.subrange(pos, pos + n));
}

proof fn lemma_cut_text(d: Seq<u8>, k: int, pos: int)
    requires
        0 <= k <= d.len(),
        0 <= pos,
        read_text(d.take(k), pos) is Ok,
    ensures
        read_text(d, pos) == read_text(d.take(k), pos),
        pos <= read_text(d, pos)->Ok_0.1 <= k,
{
    lemma_cut_bytes(d, k, pos, 4);
    let n = read_u32(d, pos)->Ok_0;
    lemma_cut_bytes(d, k, pos + 4, n as int);
}

proof fn lemma_cut_texts(d: Seq<u8>, k: int, pos: int, n: nat)
    requires
        0 <= k <= d.len(),
        0 <= pos <= k,
        read_texts(d.take(k), pos, n) is Ok,
    ensures
        read_texts(d, pos, n) == read_texts(d.take(k), pos, n),
        pos <= read_texts(d, pos, n)->Ok_0.1 <= k,
    decreases n,
{
    if n > 0 {
        lemma_cut_texts(d, k, pos, (n - 1) as nat);
        lemma_cut_text(d, k, read_texts(d, pos, (n - 1) as nat)->Ok_0.1);
    }
}

proof fn lemma_cut_lists(d: Seq<u8>, k: int, pos: int, n: nat, nfiles: nat)
    requires
        0 <= k <= d.len(),
        0 <= pos <= k,
        read_lists(d.take(k), pos, n, nfiles) is Ok,
    ensures
        read_lists(d, pos, n, nfiles) == read_lists(d.take(k), pos, n, nfiles),
        pos <= read_lists(d, pos, n, nfiles)->Ok_0.1 <= k,
    decreases n,
{
    if n > 0 {
        lemma_cut_lists(d, k, pos, (n - 1) as nat, nfiles);
        let p = read_lists(d, pos, (n - 1) as nat, nfiles)->Ok_0.1;
        lemma_cut_bytes(d, k, p, 4);
        lemma_cut_bytes(d, k, p + 4, 4);
        let m = read_u32(d, p + 4)->Ok_0;
        lemma_cut_bytes(d, k, p + 8, 4 * m);
    }
}

/// A written index that was cut short is refused, wherever it was cut.
pub proof fn law_cut_index_is_refused(idx: IndexView, keys: Seq<u32>, k: int)
    requires
        are_keys_of(idx.postings, keys),
        sizes_fit(idx, keys),
        index_fault(idx) is None,
        0 <= k < index_bytes(idx, keys).len(),
    ensures
        read_index(index_bytes(idx, keys).take(k)) is Err,
{
    let d = index_bytes(idx, keys);
    let cut = d.take(k);
    lemma_written_fields(idx, keys);
    if read_index(cut) is Ok {
        lemma_cut_text(d, k, 24);
        let p = read_text(d, 24)->Ok_0.1;
        lemma_cut_bytes(d, k, p, 4);
        let n = read_u32(d, p)->Ok_0;
        lemma_cut_texts(d, k, p + 4, n as nat);
        let q = read_files(d, p)->Ok_0.1;
        lemma_cut_bytes(d, k, q, 4);
        let m = read_u32(d, q)->Ok_0;
        lemma_cut_lists(d, k, q + 4, m as nat, idx.files.len());
    }
}

/// An index has one binary form: its trigrams ascend in one way only.
pub proof fn law_binary_form_is_unique(idx: IndexView, a: Seq<u32>, b: Seq<u32>)
    requires
        are_keys_of(idx.postings, a),
        are_keys_of(idx.postings, b),
    ensures
        index_bytes(idx, a) == index_bytes(idx, b),
{
    assert forall|g: u32| a.contains(g) <==> b.contains(g) by {
        assert(a.contains(g) <==> idx.postings.contains_key(g));
    }
    crate::prefilter::law_sorted_lists_agree(a, b);
}

// ---- writing ----

/// Append a 64-bit number.
pub fn put_u64(out: &mut Vec<u8>, v: u64)
    ensures
        final(out)@ == old(out)@ + spec_u64_to_le_bytes(v),
{
    let mut b: Vec<u8> = u64_to_le_bytes(v);
    out.append(&mut b);
}

/// Append a 32-bit number.
pub fn put_u32(out: &mut Vec<u8>, v: u32)
    ensures
        final(out)@ == old(out)@ + spec_u32_to_le_bytes(v),
{
    let mut b: Vec<u8> = u32_to_le_bytes(v);
    out.append(&mut b);
}

/// Append a text: the low 32 bits of its length, then its bytes.
fn put_text(out: &mut Vec<u8>, s: &str)
    ensures
        final(out)@ == old(out)@ + text_bytes(s@),
{
    let b: &[u8] = s.as_bytes();
    let ghost had = out@;
    put_u32(out, #[verifier::truncate] (b.len() as u32));
    out.extend_from_slice(b);
    assert(out@ =~= had + text_bytes(s@));
}

/// The magic of the current format.
fn magic() -> (m: Vec<u8>)
    ensures
        m@ == bin_magic(),
{
    let m: Vec<u8> = vec![78, 75, 71, 82, 69, 80, 48, 50];
    assert(m@ =~= bin_magic());
    m
}

/// The binary form of an index.
pub fn encode_index_bin(idx: &Index) -> (out: Vec<u8>)
    ensures
        exists|keys: Seq<u32>| are_keys_of(idx@.postings, keys) && out@ == index_bytes(idx@, keys),
{
    let mut out: Vec<u8> = magic();
    put_u64(&mut out, idx.root_dev);
    put_u64(&mut out, idx.root_ino);
    put_text(&mut out, idx.root.as_str());
    assert(out@ == head_bytes(idx@));
    put_u32(&mut out, #[verifier::truncate] (idx.files.len() as u32));
    let ghost start = out@;
    let mut k: usize = 0;
    while k < idx.files.len()
        invariant
            k <= idx.files@.len(),
            out@ == start + texts_bytes(views(idx.files@).take(k as int)),
        decreases idx.files@.len() - k,
    {
        let ghost all = views(idx.files@);
        let ghost had = out@;
        put_text(&mut out, idx.files[k].as_str());
        proof {
            assert(all.take(k + 1).drop_last() =~= all.take(k as int));
            assert(all.take(k + 1).last() == idx.files@[k as int]@);
            assert(out@ =~= start + texts_bytes(all.take(k + 1)));
        }
        k = k + 1;
    }
    assert(views(idx.files@).take(k as int) =~= idx@.files);
    let keys: Vec<u32> = sorted_keys(&idx.postings);
    put_u32(&mut out, #[verifier::truncate] (keys.len() as u32));
    let ghost start = out@;
    let mut n: usize = 0;
    while n < keys.len()
        invariant
            n <= keys@.len(),
            forall|g: u32| #[trigger] keys@.contains(g) <==> idx.postings@.contains_key(g),
            out@ == start + lists_bytes(idx@.postings, keys@.take(n as int)),
        decreases keys@.len() - n,
    {
        let g: u32 = keys[n];
        assert(keys@.contains(g));
        let ghost had = out@;
        if let Some(ids) = idx.postings.get(&g) {
            assert(ids@ == idx@.postings[g]);
            put_u32(&mut out, g);
            put_u32(&mut out, #[verifier::truncate] (ids.len() as u32));
            let ghost from = out@;
            let mut i: usize = 0;
            while i < ids.len()
                invariant
                    i <= ids@.len(),
                    out@ == from + ids_bytes(ids@.take(i as int)),
                decreases ids@.len() - i,
            {
                put_u32(&mut out, ids[i]);
                proof {
                    assert(ids@.take(i + 1).drop_last() =~= ids@.take(i as int));
                    assert(out@ =~= from + ids_bytes(ids@.take(i + 1)));
                }
                i = i + 1;
            }
            assert(ids@.take(i as int) =~= ids@);
            assert(out@ =~= had + list_bytes(g, ids@));
        }
        proof {
            assert(keys@.take(n + 1).drop_last() =~= keys@.take(n as int));
            assert(out@ =~= start + lists_bytes(idx@.postings, keys@.take(n + 1)));
        }
        n = n + 1;
    }
    proof {
        assert(keys@.take(n as int) =~= keys@);
        assert(are_keys_of(idx@.postings, keys@));
        assert(out@ =~= index_bytes(idx@, keys@));
    }
    out
}

// ---- reading ----

/// A 32-bit number at `pos`.
fn take_u32(data: &[u8], pos: usize) -> (res: Result<u32, IndexFault>)
    ensures
        match res {
            Ok(x) => read_u32(data@, pos as int) == Ok::<u32, IndexFaultView>(x) && pos + 4 <= data@.len(),
            Err(f) => read_u32(data@, pos as int) == Err::<u32, IndexFaultView>(f@),
        },
{
    if pos > data.len() || data.len() - pos < 4 {
        return Err(IndexFault::UnexpectedEnd);
    }
    Ok(u32_from_le_bytes(&data[pos..pos + 4]))
}

/// A 64-bit number at `pos`.
fn take_u64(data: &[u8], pos: usize) -> (res: Result<u64, IndexFault>)
    ensures
        match res {
            Ok(x) => read_u64(data@, pos as int) == Ok::<u64, IndexFaultView>(x) && pos + 8 <= data@.len(),
            Err(f) => read_u64(data@, pos as int) == Err::<u64, IndexFaultView>(f@),
        },
{
    if pos > data.len() || data.len() - pos < 8 {
        return Err(IndexFault::UnexpectedEnd);
    }
    Ok(u64_from_le_bytes(&data[pos..pos + 8]))
}

/// A text at `pos`, and the position after it.
fn take_text(data: &[u8], pos: usize) -> (res: Result<(String, usize), IndexFault>)
    ensures
        match res {
            Ok((s, q)) => read_text(data@, pos as int) == Ok::<(Seq<char>, int), IndexFaultView>((s@, q as int)) && q
                <= data@.len(),
            Err(f) => read_text(data@, pos as int) == Err::<(Seq<char>, int), IndexFaultView>(f@),
        },
{
    broadcast use vstd::utf8::encode_utf8_decode_utf8;

    match take_u32(data, pos) {
        Err(f) => Err(f),
        Ok(n) => {
            let n: usize = n as usize;
            if n > data.len() {
                return Err(IndexFault::BadLengthPrefix);
            }
            if data.len() - (pos + 4) < n {
                return Err(IndexFault::UnexpectedEnd);
            }
            match utf8_text(&data[pos + 4..pos + 4 + n]) {
                Some(s) => Ok((s, pos + 4 + n)),
                None => Err(IndexFault::NonUtf8Path),
            }
        },
    }
}

proof fn lemma_texts_fault(d: Seq<u8>, pos: int, k: nat, n: nat)
    requires
        k <= n,
        read_texts(d, pos, k) is Err,
    ensures
        read_texts(d, pos, n) == read_texts(d, pos, k),
    decreases n,
{
    if k < n {
        lemma_texts_fault(d, pos, k, (n - 1) as nat);
    }
}

proof fn lemma_lists_fault(d: Seq<u8>, pos: int, k: nat, n: nat, nfiles: nat)
    requires
        k <= n,
        read_lists(d, pos, k, nfiles) is Err,
    ensures
        read_lists(d, pos, n, nfiles) == read_lists(d, pos, k, nfiles),
    decreases n,
{
    if k < n {
        lemma_lists_fault(d, pos, k, (n - 1) as nat, nfiles);
    }
}

/// The files at `pos`, and the position after them.
fn take_files(data: &[u8], pos: usize) -> (res: Result<(Vec<String>, usize), IndexFault>)
    ensures
        match res {
            Ok((files, q)) => read_files(data@, pos as int) == Ok::<(Seq<Seq<char>>, int), IndexFaultView>(
                (views(files@), q as int),
            ),
            Err(f) => read_files(data@, pos as int) == Err::<(Seq<Seq<char>>, int), IndexFaultView>(f@),
        },
{
    match take_u32(data, pos) {
        Err(f) => Err(f),
        Ok(count) => {
            let n: usize = count as usize;
            if n > data.len() {
                return Err(IndexFault::BadFileCount);
            }
            let mut files: Vec<String> = Vec::new();
            let mut at: usize = pos + 4;
            let mut k: usize = 0;
            assert(views(files@) =~= Seq::empty());
            while k < n
                invariant
                    k <= n <= data@.len(),
                    pos + 4 <= data@.len(),
                    n == count,
                    read_u32(data@, pos as int) == Ok::<u32, IndexFaultView>(count),
                    read_texts(data@, pos + 4, k as nat) == Ok::<(Seq<Seq<char>>, int), IndexFaultView>(
                        (views(files@), at as int),
                    ),
                decreases n - k,
            {
                match take_text(data, at) {
                    Err(f) => {
                        proof {
                            assert(read_texts(data@, pos + 4, (k + 1) as nat) is Err);
                            lemma_texts_fault(data@, pos + 4, (k + 1) as nat, n as nat);
                        }
                        return Err(f);
                    },
                    Ok((s, q)) => {
                        let ghost had = views(files@);
                        files.push(s);
                        assert(views(files@) =~= had.push(s@));
                        at = q;
                    },
                }
                k = k + 1;
            }
            Ok((files, at))
        },
    }
}

/// The ids that `raw` holds, when all of them name a file.
fn take_ids(raw: &[u8], nfiles: usize) -> (res: Option<Vec<u32>>)
    requires
        raw@.len() % 4 == 0,
    ensures
        match res {
            Some(ids) => ids@ == ids_of(raw@) && forall|k: int| 0 <= k < ids@.len() ==> #[trigger] ids@[k] < nfiles,
            None => exists|k: int| 0 <= k < ids_of(raw@).len() && #[trigger] ids_of(raw@)[k] >= nfiles,
        },
{
    let size: usize = raw.len();
    let n: usize = size / 4;
    let mut ids: Vec<u32> = Vec::new();
    let mut k: usize = 0;
    while k < n
        invariant
            k <= n,
            size == raw@.len() == 4 * n,
            ids@ == ids_of(raw@).take(k as int),
            forall|x: int| 0 <= x < k ==> #[trigger] ids@[x] < nfiles,
        decreases n - k,
    {
        let id: u32 = u32_from_le_bytes(&raw[4 * k..4 * k + 4]);
        assert(id == ids_of(raw@)[k as int]);
        if id as usize >= nfiles {
            return None;
        }
        ids.push(id);
        k = k + 1;
        assert(ids@ =~= ids_of(raw@).take(k as int));
    }
    assert(ids@ =~= ids_of(raw@));
    Some(ids)
}

/// A posting list at `pos`, and the position after it.
fn take_list(data: &[u8], pos: usize, nfiles: usize) -> (res: Result<(u32, Vec<u32>, usize), IndexFault>)
    ensures
        match res {
            Ok((g, ids, q)) => read_list(data@, pos as int, nfiles as nat) == Ok::<
                (u32, Seq<u32>, int),
                IndexFaultView,
            >((g, ids@, q as int)),
            Err(f) => read_list(data@, pos as int, nfiles as nat) == Err::<(u32, Seq<u32>, int), IndexFaultView>(
                f@,
            ),
        },
{
    let size: usize = data.len();
    let g: u32 = match take_u32(data, pos) {
        Err(f) => return Err(f),
        Ok(g) => g,
    };
    let n: u32 = match take_u32(data, pos + 4) {
        Err(f) => return Err(f),
        Ok(n) => n,
    };
    let n: usize = n as usize;
    if (size - (pos + 8)) / 4 < n {
        return Err(IndexFault::UnexpectedEnd);
    }
    let raw: &[u8] = &data[pos + 8..pos + 8 + 4 * n];
    match take_ids(raw, nfiles) {
        None => Err(IndexFault::PostingIdOutOfRange),
        Some(ids) => Ok((g, ids, pos + 8 + 4 * n)),
    }
}

/// The posting table at `pos`.
fn take_postings(data: &[u8], pos: usize, nfiles: usize) -> (res: Result<HashMap<u32, Vec<u32>>, IndexFault>)
    ensures
        match res {
            Ok(postings) => read_postings(data@, pos as int, nfiles as nat) matches Ok((lists, _)) && lists
                == id_lists(postings@),
            Err(f) => read_postings(data@, pos as int, nfiles as nat) == Err::<
                (Map<u32, Seq<u32>>, int),
                IndexFaultView,
            >(f@),
        },
{
    match take_u32(data, pos) {
        Err(f) => Err(f),
        Ok(count) => {
            let n: usize = count as usize;
            if n > data.len() {
                return Err(IndexFault::BadPostingCount);
            }
            let mut postings: HashMap<u32, Vec<u32>> = HashMap::new();
            let mut at: usize = pos + 4;
            let mut k: usize = 0;
            assert(id_lists(postings@) =~= Map::<u32, Seq<u32>>::empty());
            while k < n
                invariant
                    k <= n <= data@.len(),
                    pos + 4 <= data@.len(),
                    n == count,
                    read_u32(data@, pos as int) == Ok::<u32, IndexFaultView>(count),
                    read_lists(data@, pos + 4, k as nat, nfiles as nat) == Ok::<
                        (Map<u32, Seq<u32>>, int),
                        IndexFaultView,
                    >((id_lists(postings@), at as int)),
                decreases n - k,
            {
                match take_list(data, at, nfiles) {
                    Err(f) => {
                        proof {
                            assert(read_lists(data@, pos + 4, (k + 1) as nat, nfiles as nat) is Err);
                            lemma_lists_fault(data@, pos + 4, (k + 1) as nat, n as nat, nfiles as nat);
                        }
                        return Err(f);
                    },
                    Ok((g, ids, q)) => {
                        let ghost had = id_lists(postings@);
                        postings.insert(g, ids);
                        assert(id_lists(postings@) =~= had.insert(g, ids@));
                        at = q;
                    },
                }
                k = k + 1;
            }
            Ok(postings)
        },
    }
}

/// An index agrees with what was read.
pub open spec fn index_agrees(got: Result<Index, IndexFault>, want: Result<IndexView, IndexFaultView>) -> bool {
    match (got, want) {
        (Ok(idx), Ok(v)) => idx@ == v,
        (Err(f), Err(w)) => f@ == w,
        _ => false,
    }
}

/// Read an index from its binary form; the magic was checked by the caller.
pub fn parse_index_bin(data: &[u8]) -> (res: Result<Index, IndexFault>)
    ensures
        index_agrees(res, read_index(data@)),
{
    let root_dev: u64 = match take_u64(data, 8) {
        Err(f) => return Err(f),
        Ok(x) => x,
    };
    let root_ino: u64 = match take_u64(data, 16) {
        Err(f) => return Err(f),
        Ok(x) => x,
    };
    let (root, p) = match take_text(data, 24) {
        Err(f) => return Err(f),
        Ok(x) => x,
    };
    let (files, q) = match take_files(data, p) {
        Err(f) => return Err(f),
        Ok(x) => x,
    };
    assert(views(files@).len() == files@.len());
    let postings: HashMap<u32, Vec<u32>> = match take_postings(data, q, files.len()) {
        Err(f) => return Err(f),
        Ok(x) => x,
    };
    match validate_stored_files(&files) {
        Err(f) => return Err(f),
        Ok(_) => {},
    }
    Ok(Index { root, root_dev, root_ino, files, postings })
}

/// An index that was read has passed the checks on stored paths and posted ids.
pub proof fn law_read_index_is_sound(d: Seq<u8>)
    requires
        read_index(d) is Ok,
    ensures
        index_fault(read_index(d)->Ok_0) is None,
{
    let (root, p) = read_text(d, 24)->Ok_0;
    let (files, q) = read_files(d, p)->Ok_0;
    lemma_lists_in_range(d, q + 4, read_u32(d, q)->Ok_0 as nat, files.len());
}

proof fn lemma_lists_in_range(d: Seq<u8>, pos: int, n: nat, nfiles: nat)
    requires
        read_lists(d, pos, n, nfiles) is Ok,
    ensures
        ids_in_range(read_lists(d, pos, n, nfiles)->Ok_0.0, nfiles),
    decreases n,
{
    if n > 0 {
        lemma_lists_in_range(d, pos, (n - 1) as nat, nfiles);
        let (lists, p) = read_lists(d, pos, (n - 1) as nat, nfiles)->Ok_0;
        let (g, ids, _) = read_list(d, p, nfiles)->Ok_0;
        let now = lists.insert(g, ids);
        assert forall|h: u32, k: int| now.contains_key(h) && 0 <= k < now[h].len() implies (
        #[trigger] now[h][k]) < nfiles by {
            if h != g {
                assert(now[h] == lists[h]);
                assert(lists[h][k] < nfiles);
            } else {
                assert(now[h] == ids);
            }
        }
    }
}

/// What the data of an index file turn out to be.
pub enum IndexData {
    /// A binary index.
    Binary(Index),
    /// A binary index that is refused.
    Refused(IndexFault),
    /// A binary index of another format.
    Stale,
    /// The text of a JSON index.
    Json(String),
    /// Neither a binary index nor text.
    NotText,
}

/// Whether `data` begin with `prefix`.
fn starts_with(data: &[u8], prefix: &[u8]) -> (b: bool)
    ensures
        b == prefix@.is_prefix_of(data@),
{
    if prefix.len() > data.len() {
        return false;
    }
    let mut i: usize = 0;
    while i < prefix.len()
        invariant
            i <= prefix@.len() <= data@.len(),
            forall|k: int| 0 <= k < i ==> prefix@[k] == data@[k],
        decreases prefix@.len() - i,
    {
        if prefix[i] != data[i] {
            assert(prefix@[i as int] != data@.take(prefix@.len() as int)[i as int]);
            return false;
        }
        i = i + 1;
    }
    assert(prefix@ =~= data@.take(prefix@.len() as int));
    true
}

/// Tell the form of an index file by its first bytes and read a binary one.
pub fn parse_index_auto(data: &[u8]) -> (res: IndexData)
    ensures
        bin_magic().is_prefix_of(data@) ==> match res {
            IndexData::Binary(idx) => read_index(data@) == Ok::<IndexView, IndexFaultView>(idx@),
            IndexData::Refused(f) => read_index(data@) == Err::<IndexView, IndexFaultView>(f@),
            _ => false,
        },
        !bin_magic().is_prefix_of(data@) && magic_stem().is_prefix_of(data@) ==> res is Stale,
        !magic_stem().is_prefix_of(data@) ==> match res {
            IndexData::Json(s) => valid_utf8(data@) && encode_utf8(s@) == data@,
            IndexData::NotText => !valid_utf8(data@),
            _ => false,
        },
{
    let whole: Vec<u8> = magic();
    let stem: &[u8] = &whole[0..6];
    assert(stem@ =~= magic_stem());
    if starts_with(data, &whole) {
        proof {
            assert(stem@ =~= bin_magic().take(6));
            assert(data@.take(6) =~= data@.take(8).take(6));
        }
        return match parse_index_bin(data) {
            Ok(idx) => IndexData::Binary(idx),
            Err(f) => IndexData::Refused(f),
        };
    }
    if starts_with(data, stem) {
        return IndexData::Stale;
    }
    match utf8_text(data) {
        Some(s) => IndexData::Json(s),
        None => IndexData::NotText,
    }
}

/// The binary form opens with its name and version, then the device and inode of the root,
/// least byte first, then the length of the root's path and the path.
pub proof fn law_binary_form_is_laid_out(idx: IndexView, keys: Seq<u32>)
    ensures
        index_bytes(idx, keys).take(8) == seq![78u8, 75u8, 71u8, 82u8, 69u8, 80u8, 48u8, 50u8],
        index_bytes(idx, keys).subrange(8, 16) == spec_u64_to_le_bytes(idx.root_dev),
        index_bytes(idx, keys).subrange(16, 24) == spec_u64_to_le_bytes(idx.root_ino),
        index_bytes(idx, keys).subrange(24, 28) == spec_u32_to_le_bytes(encode_utf8(idx.root).len() as u32),
        index_bytes(idx, keys).subrange(28, 28 + encode_utf8(idx.root).len() as int) == encode_utf8(idx.root),
        index_bytes(idx, keys).subrange(
            28 + encode_utf8(idx.root).len() as int,
            32 + encode_utf8(idx.root).len() as int,
        ) == spec_u32_to_le_bytes(idx.files.len() as u32),
{
    lemma_auto_spec_u32_to_from_le_bytes();
    lemma_auto_spec_u64_to_from_le_bytes();
    let all = index_bytes(idx, keys);
    let root = encode_utf8(idx.root);
    let n = root.len() as int;
    assert(spec_u64_to_le_bytes(idx.root_dev).len() == 8);
    assert(spec_u64_to_le_bytes(idx.root_ino).len() == 8);
    assert(spec_u32_to_le_bytes(root.len() as u32).len() == 4);
    assert(spec_u32_to_le_bytes(idx.files.len() as u32).len() == 4);
    assert(all.take(8) =~= bin_magic());
    assert(all.subrange(8, 16) =~= spec_u64_to_le_bytes(idx.root_dev));
    assert(all.subrange(16, 24) =~= spec_u64_to_le_bytes(idx.root_ino));
    assert(all.subrange(24, 28) =~= spec_u32_to_le_bytes(root.len() as u32));
    assert(all.subrange(28, 28 + n) =~= root);
    assert(all.subrange(28 + n, 32 + n) =~= spec_u32_to_le_bytes(idx.files.len() as u32));
}

} // verus!
