//! Stable ordering of positions by an unsigned key.
//!
//! Every ranking in the crate is an ordering of positions `0..n` by a key, ties
//! kept in position order. The order is unique, so its specification pins it down.

use crate::prefilter::strictly_sorted;
use crate::text::{same_text, views};
use vstd::prelude::*;

verus! {

/// Position `a` comes before position `b`: its key is smaller, or the keys are
/// equal and `a` is the earlier position.
pub open spec fn comes_before(keys: Seq<u64>, a: int, b: int) -> bool {
    keys[a] < keys[b] || (keys[a] == keys[b] && a < b)
}

/// `ord` lists positions of `keys`, each one before all that follow it.
pub open spec fn ascending_positions(keys: Seq<u64>, ord: Seq<usize>) -> bool {
    &&& forall|i: int| 0 <= i < ord.len() ==> (#[trigger] ord[i]) < keys.len()
    &&& forall|i: int, j: int|
        0 <= i < j < ord.len() ==> comes_before(keys, #[trigger] ord[i] as int, #[trigger] ord[j] as int)
}

/// `ord` is the stable ascending order of all positions of `keys`.
pub open spec fn is_stable_order(keys: Seq<u64>, ord: Seq<usize>) -> bool {
    &&& ord.len() == keys.len()
    &&& ascending_positions(keys, ord)
}

/// A stable order lists every position exactly once.
pub proof fn law_stable_order_is_permutation(keys: Seq<u64>, ord: Seq<usize>)
    requires
        is_stable_order(keys, ord),
        keys.len() <= usize::MAX,
    ensures
        ord.no_duplicates(),
        forall|p: usize| p < keys.len() ==> #[trigger] ord.contains(p),
{
    assert forall|i: int, j: int| 0 <= i < ord.len() && 0 <= j < ord.len() && i != j implies ord[i]
        != ord[j] by {
        if i < j {
            assert(comes_before(keys, ord[i] as int, ord[j] as int));
        } else {
            assert(comes_before(keys, ord[j] as int, ord[i] as int));
        }
    }
    ord.unique_seq_to_set();
    let all = Set::<usize>::new(|p: usize| p < keys.len());
    lemma_positions_len(keys.len());
    assert(ord.to_set().subset_of(all));
    vstd::set_lib::lemma_subset_equality(ord.to_set(), all);
    assert forall|p: usize| p < keys.len() implies #[trigger] ord.contains(p) by {
        assert(all.contains(p));
        assert(ord.to_set().contains(p));
    }
}

/// The stable order is unique.
pub proof fn law_stable_order_is_unique(keys: Seq<u64>, a: Seq<usize>, b: Seq<usize>)
    requires
        is_stable_order(keys, a),
        is_stable_order(keys, b),
        keys.len() <= usize::MAX,
    ensures
        a == b,
{
    law_stable_order_is_permutation(keys, a);
    law_stable_order_is_permutation(keys, b);
    lemma_same_prefix(keys, a, b, keys.len());
    assert(a =~= b);
}

proof fn lemma_same_prefix(keys: Seq<u64>, a: Seq<usize>, b: Seq<usize>, n: nat)
    requires
        is_stable_order(keys, a),
        is_stable_order(keys, b),
        a.no_duplicates(),
        b.no_duplicates(),
        forall|p: usize| p < keys.len() ==> #[trigger] a.contains(p),
        forall|p: usize| p < keys.len() ==> #[trigger] b.contains(p),
        n <= keys.len(),
    ensures
        forall|i: int| 0 <= i < n ==> a[i] == b[i],
    decreases n,
{
    if n > 0 {
        lemma_same_prefix(keys, a, b, (n - 1) as nat);
        let k = n - 1;
        if a[k] != b[k] {
            assert(b.contains(a[k]));
            let j = choose|j: int| 0 <= j < b.len() && b[j] == a[k];
            if j < k {
                assert(a[j] == a[k]);
            }
            assert(comes_before(keys, b[k] as int, b[j] as int));
            assert(a.contains(b[k]));
            let i = choose|i: int| 0 <= i < a.len() && a[i] == b[k];
            if i < k {
                assert(b[i] == b[k]);
            }
            assert(comes_before(keys, a[k] as int, a[i] as int));
        }
    }
}

pub proof fn lemma_positions_len(n: nat)
    requires
        n <= usize::MAX,
    ensures
        Set::<usize>::new(|p: usize| p < n).finite(),
        Set::<usize>::new(|p: usize| p < n).len() == n,
    decreases n,
{
    let s = Set::<usize>::new(|p: usize| p < n);
    if n == 0 {
        assert(s =~= Set::<usize>::empty());
    } else {
        let m = (n - 1) as nat;
        lemma_positions_len(m);
        let t = Set::<usize>::new(|p: usize| p < m);
        assert(s =~= t.insert(m as usize));
    }
}

/// A position that at least `k` other positions come before is not among the
/// first `k` of the order.
pub proof fn law_outranked_is_past_k(keys: Seq<u64>, ord: Seq<usize>, p: usize, better: Set<usize>, k: nat)
    requires
        is_stable_order(keys, ord),
        keys.len() <= usize::MAX,
        better.finite(),
        better.len() >= k,
        forall|q: usize| #[trigger] better.contains(q) ==> q < keys.len() && comes_before(keys, q as int, p as int),
    ensures
        forall|i: int| 0 <= i < k && i < ord.len() ==> ord[i] != p,
{
    law_stable_order_is_permutation(keys, ord);
    assert forall|i: int| 0 <= i < k && i < ord.len() implies ord[i] != p by {
        if ord[i] == p {
            let head = ord.take(i);
            assert(head.no_duplicates());
            head.unique_seq_to_set();
            assert forall|q: usize| better.contains(q) implies head.to_set().contains(q) by {
                assert(ord.contains(q));
                let j = choose|j: int| 0 <= j < ord.len() && ord[j] == q;
                if j >= i {
                    if j > i {
                        assert(comes_before(keys, ord[i] as int, ord[j] as int));
                    }
                    assert(comes_before(keys, q as int, p as int));
                }
                assert(head[j] == q);
            }
            vstd::set_lib::lemma_len_subset(better, head.to_set());
        }
    }
}

/// The stable order of the positions `lo..hi` alone.
fn order_range(keys: &[u64], lo: usize, hi: usize) -> (ord: Vec<usize>)
    requires
        lo <= hi <= keys@.len(),
    ensures
        ord@.len() == hi - lo,
        forall|i: int| 0 <= i < ord@.len() ==> lo <= (#[trigger] ord@[i]) < hi,
        ascending_positions(keys@, ord@),
    decreases hi - lo,
{
    let mut out: Vec<usize> = Vec::new();
    if hi - lo == 0 {
        return out;
    }
    if hi - lo == 1 {
        out.push(lo);
        return out;
    }
    let mid: usize = lo + (hi - lo) / 2;
    let left: Vec<usize> = order_range(keys, lo, mid);
    let right: Vec<usize> = order_range(keys, mid, hi);
    let mut i: usize = 0;
    let mut j: usize = 0;
    while i < left.len() || j < right.len()
        invariant
            lo <= mid <= hi <= keys@.len(),
            left@.len() == mid - lo,
            right@.len() == hi - mid,
            i <= left@.len(),
            j <= right@.len(),
            out@.len() == i + j,
            forall|x: int| 0 <= x < left@.len() ==> lo <= (#[trigger] left@[x]) < mid,
            forall|x: int| 0 <= x < right@.len() ==> mid <= (#[trigger] right@[x]) < hi,
            forall|x: int| 0 <= x < out@.len() ==> lo <= (#[trigger] out@[x]) < hi,
            ascending_positions(keys@, left@),
            ascending_positions(keys@, right@),
            ascending_positions(keys@, out@),
            forall|x: int, y: int|
                0 <= x < out@.len() && i <= y < left@.len() ==> comes_before(
                    keys@,
                    #[trigger] out@[x] as int,
                    #[trigger] left@[y] as int,
                ),
            forall|x: int, y: int|
                0 <= x < out@.len() && j <= y < right@.len() ==> comes_before(
                    keys@,
                    #[trigger] out@[x] as int,
                    #[trigger] right@[y] as int,
                ),
        decreases left@.len() - i + right@.len() - j,
    {
        let from_left: bool = if j >= right.len() {
            true
        } else if i >= left.len() {
            false
        } else {
            keys[left[i]] <= keys[right[j]]
        };
        if from_left {
            out.push(left[i]);
            i = i + 1;
        } else {
            out.push(right[j]);
            j = j + 1;
        }
    }
    out
}

/// The numbers of `v` in ascending order, each once.
pub fn sorted_unique(v: &[u32]) -> (out: Vec<u32>)
    ensures
        strictly_sorted(out@),
        forall|x: u32| #[trigger] out@.contains(x) <==> v@.contains(x),
{
    let mut keys: Vec<u64> = Vec::new();
    let mut i: usize = 0;
    while i < v.len()
        invariant
            i <= v@.len(),
            keys@.len() == i,
            forall|k: int| 0 <= k < i ==> keys@[k] == v@[k],
        decreases v@.len() - i,
    {
        keys.push(v[i] as u64);
        i = i + 1;
    }
    let ord: Vec<usize> = stable_order(&keys);
    let mut out: Vec<u32> = Vec::new();
    let mut m: usize = 0;
    while m < ord.len()
        invariant
            m <= ord@.len(),
            keys@.len() == v@.len(),
            forall|k: int| 0 <= k < v@.len() ==> keys@[k] == v@[k],
            is_stable_order(keys@, ord@),
            strictly_sorted(out@),
            forall|k: int| 0 <= k < out@.len() ==> v@.contains(#[trigger] out@[k]),
            forall|k: int| 0 <= k < m ==> out@.contains(v@[(#[trigger] ord@[k]) as int]),
            m > 0 ==> out@.len() > 0 && out@.last() == v@[ord@[m - 1] as int],
            m == 0 ==> out@.len() == 0,
        decreases ord@.len() - m,
    {
        let x: u32 = v[ord[m]];
        let ghost before = out@;
        let fresh: bool = if out.len() == 0 {
            true
        } else {
            out[out.len() - 1] != x
        };
        if m > 0 {
            assert(comes_before(keys@, ord@[m - 1] as int, ord@[m as int] as int));
        }
        if fresh {
            out.push(x);
        }
        proof {
            assert(out@[out@.len() - 1] == x);
            assert forall|y: u32| before.contains(y) implies out@.contains(y) by {
                let k = choose|k: int| 0 <= k < before.len() && before[k] == y;
                assert(out@[k] == y);
            }
        }
        m = m + 1;
    }
    proof {
        law_stable_order_is_permutation(keys@, ord@);
        assert forall|x: u32| v@.contains(x) implies out@.contains(x) by {
            let p = choose|p: int| 0 <= p < v@.len() && v@[p] == x;
            assert(ord@.contains(p as usize));
            let k = choose|k: int| 0 <= k < ord@.len() && ord@[k] == p as usize;
            assert(out@.contains(v@[ord@[k] as int]));
        }
    }
    out
}

/// Positions of `keys` in ascending key order, ties in position order.
pub fn stable_order(keys: &[u64]) -> (ord: Vec<usize>)
    ensures
        is_stable_order(keys@, ord@),
{
    order_range(keys, 0, keys.len())
}

proof fn lemma_place(keys: Seq<u64>, ord: Seq<usize>, key: u64, n: int) -> (at: int)
    requires
        ascending_positions(keys, ord),
        0 <= n <= ord.len(),
        forall|i: int| n <= i < ord.len() ==> keys[(#[trigger] ord[i]) as int] > key,
    ensures
        0 <= at <= ord.len(),
        forall|i: int| 0 <= i < at ==> keys[(#[trigger] ord[i]) as int] <= key,
        forall|i: int| at <= i < ord.len() ==> keys[(#[trigger] ord[i]) as int] > key,
    decreases n,
{
    if n == 0 {
        0
    } else if keys[ord[n - 1] as int] <= key {
        assert forall|i: int| 0 <= i < n implies keys[(#[trigger] ord[i]) as int] <= key by {
            if i < n - 1 {
                assert(comes_before(keys, ord[i] as int, ord[n - 1] as int));
            }
        }
        n
    } else {
        lemma_place(keys, ord, key, n - 1)
    }
}

/// Positions can always be ordered.
pub proof fn lemma_stable_order_exists(keys: Seq<u64>) -> (ord: Seq<usize>)
    requires
        keys.len() <= usize::MAX,
    ensures
        is_stable_order(keys, ord),
    decreases keys.len(),
{
    if keys.len() == 0 {
        Seq::empty()
    } else {
        let front = keys.drop_last();
        let n = (keys.len() - 1) as usize;
        let had = lemma_stable_order_exists(front);
        assert forall|i: int, j: int| 0 <= i < j < had.len() implies comes_before(
            keys,
            #[trigger] had[i] as int,
            #[trigger] had[j] as int,
        ) by {
            assert(comes_before(front, had[i] as int, had[j] as int));
        }
        let at = lemma_place(keys, had, keys.last(), had.len() as int);
        let ord = had.insert(at, n);
        assert forall|i: int, j: int| 0 <= i < j < ord.len() implies comes_before(
            keys,
            #[trigger] ord[i] as int,
            #[trigger] ord[j] as int,
        ) by {
            if j < at {
                assert(ord[i] == had[i] && ord[j] == had[j]);
            } else if i > at {
                assert(ord[i] == had[i - 1] && ord[j] == had[j - 1]);
            } else if j == at {
                assert(ord[i] == had[i]);
            } else if i == at {
                assert(ord[j] == had[j - 1]);
            } else {
                assert(ord[i] == had[i] && ord[j] == had[j - 1]);
            }
        }
        assert forall|i: int| 0 <= i < ord.len() implies (#[trigger] ord[i]) < keys.len() by {
            if i < at {
                assert(ord[i] == had[i]);
            } else if i > at {
                assert(ord[i] == had[i - 1]);
            }
        }
        ord
    }
}

// ---- texts ----

/// `a` comes before `b` byte by byte.
pub open spec fn lex_less(a: Seq<u8>, b: Seq<u8>) -> bool
    decreases a.len(),
{
    if b.len() == 0 {
        false
    } else if a.len() == 0 {
        true
    } else {
        a[0] < b[0] || (a[0] == b[0] && lex_less(a.drop_first(), b.drop_first()))
    }
}

/// Byte order is transitive.
pub proof fn lemma_lex_transitive(a: Seq<u8>, b: Seq<u8>, c: Seq<u8>)
    requires
        lex_less(a, b),
        lex_less(b, c),
    ensures
        lex_less(a, c),
    decreases a.len(),
{
    if a.len() > 0 && a[0] == b[0] && b[0] == c[0] {
        lemma_lex_transitive(a.drop_first(), b.drop_first(), c.drop_first());
    }
}

/// Of two byte strings one comes first, unless they are equal.
pub proof fn lemma_lex_total(a: Seq<u8>, b: Seq<u8>)
    ensures
        lex_less(a, b) || lex_less(b, a) || a == b,
        !(lex_less(a, b) && lex_less(b, a)),
        lex_less(a, b) ==> a != b,
    decreases a.len(),
{
    if a.len() > 0 && b.len() > 0 {
        lemma_lex_total(a.drop_first(), b.drop_first());
        if a[0] == b[0] && a.drop_first() == b.drop_first() {
            assert(a =~= seq![a[0]] + a.drop_first());
            assert(b =~= seq![b[0]] + b.drop_first());
            assert(a =~= b);
        }
    } else if a.len() == 0 && b.len() == 0 {
        assert(a =~= b);
    }
}

/// The bytes of texts.
pub open spec fn text_keys(v: Seq<String>) -> Seq<Seq<u8>> {
    Seq::new(v.len(), |k: int| vstd::utf8::encode_utf8(v[k]@))
}

/// Position `a` comes before position `b`: its text is smaller, or the texts are
/// equal and `a` is the earlier position.
pub open spec fn text_before(keys: Seq<Seq<u8>>, a: int, b: int) -> bool {
    lex_less(keys[a], keys[b]) || (keys[a] == keys[b] && a < b)
}

/// `ord` lists positions of `keys`, each one before all that follow it.
pub open spec fn ascending_texts(keys: Seq<Seq<u8>>, ord: Seq<usize>) -> bool {
    &&& forall|i: int| 0 <= i < ord.len() ==> (#[trigger] ord[i]) < keys.len()
    &&& forall|i: int, j: int|
        0 <= i < j < ord.len() ==> text_before(keys, #[trigger] ord[i] as int, #[trigger] ord[j] as int)
}

proof fn lemma_text_before_transitive(keys: Seq<Seq<u8>>, a: int, b: int, c: int)
    requires
        text_before(keys, a, b),
        text_before(keys, b, c),
    ensures
        text_before(keys, a, c),
{
    if lex_less(keys[a], keys[b]) && lex_less(keys[b], keys[c]) {
        lemma_lex_transitive(keys[a], keys[b], keys[c]);
    }
}

/// Whether `b` does not come before `a` byte by byte.
fn lex_at_most(a: &[u8], b: &[u8]) -> (res: bool)
    ensures
        res == (lex_less(a@, b@) || a@ == b@),
{
    let mut i: usize = 0;
    assert(a@.skip(0) =~= a@);
    assert(b@.skip(0) =~= b@);
    while i < a.len() && i < b.len()
        invariant
            i <= a@.len(),
            i <= b@.len(),
            forall|k: int| 0 <= k < i ==> a@[k] == b@[k],
            lex_less(a@, b@) == lex_less(a@.skip(i as int), b@.skip(i as int)),
        decreases a@.len() - i,
    {
        proof {
            assert(a@.skip(i as int).drop_first() =~= a@.skip(i + 1));
            assert(b@.skip(i as int).drop_first() =~= b@.skip(i + 1));
        }
        if a[i] < b[i] {
            return true;
        }
        if a[i] > b[i] {
            return false;
        }
        i = i + 1;
    }
    proof {
        if i == a@.len() && i == b@.len() {
            assert(a@ =~= b@);
        } else if i == b@.len() {
            assert(a@.len() != b@.len());
        }
    }
    i == a.len()
}

fn order_text_range(texts: &[String], lo: usize, hi: usize) -> (ord: Vec<usize>)
    requires
        lo <= hi <= texts@.len(),
    ensures
        ord@.len() == hi - lo,
        forall|i: int| 0 <= i < ord@.len() ==> lo <= (#[trigger] ord@[i]) < hi,
        ascending_texts(text_keys(texts@), ord@),
    decreases hi - lo,
{
    let mut out: Vec<usize> = Vec::new();
    if hi - lo == 0 {
        return out;
    }
    if hi - lo == 1 {
        out.push(lo);
        return out;
    }
    let mid: usize = lo + (hi - lo) / 2;
    let left: Vec<usize> = order_text_range(texts, lo, mid);
    let right: Vec<usize> = order_text_range(texts, mid, hi);
    let ghost keys = text_keys(texts@);
    let mut i: usize = 0;
    let mut j: usize = 0;
    while i < left.len() || j < right.len()
        invariant
            lo <= mid <= hi <= texts@.len(),
            keys == text_keys(texts@),
            left@.len() == mid - lo,
            right@.len() == hi - mid,
            i <= left@.len(),
            j <= right@.len(),
            out@.len() == i + j,
            forall|x: int| 0 <= x < left@.len() ==> lo <= (#[trigger] left@[x]) < mid,
            forall|x: int| 0 <= x < right@.len() ==> mid <= (#[trigger] right@[x]) < hi,
            forall|x: int| 0 <= x < out@.len() ==> lo <= (#[trigger] out@[x]) < hi,
            ascending_texts(keys, left@),
            ascending_texts(keys, right@),
            ascending_texts(keys, out@),
            forall|x: int, y: int|
                0 <= x < out@.len() && i <= y < left@.len() ==> text_before(
                    keys,
                    #[trigger] out@[x] as int,
                    #[trigger] left@[y] as int,
                ),
            forall|x: int, y: int|
                0 <= x < out@.len() && j <= y < right@.len() ==> text_before(
                    keys,
                    #[trigger] out@[x] as int,
                    #[trigger] right@[y] as int,
                ),
        decreases left@.len() - i + right@.len() - j,
    {
        let from_left: bool = if j >= right.len() {
            true
        } else if i >= left.len() {
            false
        } else {
            let a: &[u8] = texts[left[i]].as_str().as_bytes();
            let b: &[u8] = texts[right[j]].as_str().as_bytes();
            lex_at_most(a, b)
        };
        let ghost before = out@;
        if from_left {
            let ghost x = left@[i as int] as int;
            proof {
                if j < right@.len() {
                    assert(text_before(keys, x, right@[j as int] as int));
                    assert forall|y: int| j <= y < right@.len() implies text_before(
                        keys,
                        x,
                        #[trigger] right@[y] as int,
                    ) by {
                        if y > j {
                            lemma_text_before_transitive(keys, x, right@[j as int] as int, right@[y] as int);
                        }
                    }
                }
            }
            out.push(left[i]);
            i = i + 1;
        } else {
            let ghost x = right@[j as int] as int;
            proof {
                if i < left@.len() {
                    lemma_lex_total(keys[left@[i as int] as int], keys[x]);
                    assert(text_before(keys, x, left@[i as int] as int));
                    assert forall|y: int| i <= y < left@.len() implies text_before(
                        keys,
                        x,
                        #[trigger] left@[y] as int,
                    ) by {
                        if y > i {
                            lemma_text_before_transitive(keys, x, left@[i as int] as int, left@[y] as int);
                        }
                    }
                }
            }
            out.push(right[j]);
            j = j + 1;
        }
    }
    out
}

/// Positions of `texts` in ascending byte order, ties in position order.
pub fn order_texts(texts: &[String]) -> (ord: Vec<usize>)
    ensures
        ord@.len() == texts@.len(),
        ascending_texts(text_keys(texts@), ord@),
{
    order_text_range(texts, 0, texts.len())
}

/// An order of all texts lists every position exactly once.
pub proof fn law_text_order_is_permutation(keys: Seq<Seq<u8>>, ord: Seq<usize>)
    requires
        ord.len() == keys.len(),
        ascending_texts(keys, ord),
        keys.len() <= usize::MAX,
    ensures
        ord.no_duplicates(),
        forall|p: usize| p < keys.len() ==> #[trigger] ord.contains(p),
{
    assert forall|i: int, j: int| 0 <= i < ord.len() && 0 <= j < ord.len() && i != j implies ord[i] != ord[j] by {
        if i < j {
            assert(text_before(keys, ord[i] as int, ord[j] as int));
            lemma_lex_total(keys[ord[i] as int], keys[ord[j] as int]);
        } else {
            assert(text_before(keys, ord[j] as int, ord[i] as int));
            lemma_lex_total(keys[ord[j] as int], keys[ord[i] as int]);
        }
    }
    ord.unique_seq_to_set();
    let all = Set::<usize>::new(|p: usize| p < keys.len());
    lemma_positions_len(keys.len());
    assert(ord.to_set().subset_of(all));
    vstd::set_lib::lemma_subset_equality(ord.to_set(), all);
    assert forall|p: usize| p < keys.len() implies #[trigger] ord.contains(p) by {
        assert(all.contains(p));
        assert(ord.to_set().contains(p));
    }
}

/// Whether a text is among `texts`, which `ord` orders.
pub fn find_ordered(texts: &[String], ord: &[usize], s: &str) -> (found: bool)
    requires
        ord@.len() == texts@.len(),
        ascending_texts(text_keys(texts@), ord@),
    ensures
        found == views(texts@).contains(s@),
{
    let ghost keys = text_keys(texts@);
    let ghost key = vstd::utf8::encode_utf8(s@);
    let bytes: &[u8] = s.as_bytes();
    let mut lo: usize = 0;
    let mut hi: usize = ord.len();
    while lo < hi
        invariant
            lo <= hi <= ord@.len(),
            ord@.len() == texts@.len(),
            keys == text_keys(texts@),
            key == vstd::utf8::encode_utf8(s@),
            bytes@ == key,
            ascending_texts(keys, ord@),
            forall|x: int| 0 <= x < lo ==> lex_less(keys[(#[trigger] ord@[x]) as int], key),
            forall|x: int|
                hi <= x < ord@.len() ==> lex_less(key, keys[(#[trigger] ord@[x]) as int]) || key == keys[ord@[x] as int],
        decreases hi - lo,
    {
        let mid: usize = lo + (hi - lo) / 2;
        let at: usize = ord[mid];
        proof {
            lemma_lex_total(key, keys[at as int]);
        }
        if lex_at_most(bytes, texts[at].as_str().as_bytes()) {
            proof {
                assert forall|x: int| mid <= x < ord@.len() implies lex_less(key, keys[(#[trigger] ord@[x]) as int])
                    || key == keys[ord@[x] as int] by {
                    if x > mid {
                        assert(text_before(keys, ord@[mid as int] as int, ord@[x] as int));
                        if lex_less(key, keys[at as int]) && lex_less(keys[at as int], keys[ord@[x] as int]) {
                            lemma_lex_transitive(key, keys[at as int], keys[ord@[x] as int]);
                        }
                    }
                }
            }
            hi = mid;
        } else {
            proof {
                assert forall|x: int| 0 <= x <= mid implies lex_less(keys[(#[trigger] ord@[x]) as int], key) by {
                    if x < mid {
                        assert(text_before(keys, ord@[x] as int, ord@[mid as int] as int));
                        if lex_less(keys[ord@[x] as int], keys[at as int]) {
                            lemma_lex_transitive(keys[ord@[x] as int], keys[at as int], key);
                        }
                    }
                }
            }
            lo = mid + 1;
        }
    }
    let found: bool = lo < ord.len() && same_text(texts[ord[lo]].as_str(), s);
    proof {
        if found {
            assert(views(texts@)[ord@[lo as int] as int] == s@);
        } else if views(texts@).contains(s@) {
            let p = choose|p: int| 0 <= p < views(texts@).len() && views(texts@)[p] == s@;
            assert(keys[p] == key);
            law_text_order_is_permutation(keys, ord@);
            assert(ord@.contains(p as usize));
            let x = choose|x: int| 0 <= x < ord@.len() && ord@[x] == p as usize;
            lemma_lex_total(key, key);
            assert(lo <= x);
            if lo < x {
                let t = keys[ord@[lo as int] as int];
                assert(text_before(keys, ord@[lo as int] as int, ord@[x] as int));
                lemma_lex_total(key, t);
                vstd::utf8::encode_utf8_decode_utf8(s@);
                vstd::utf8::encode_utf8_decode_utf8(texts@[ord@[lo as int] as int]@);
            }
        }
    }
    found
}

/// One text comes before another in byte order exactly if it is a shorter beginning of it or,
/// where they first differ, has the smaller byte.
pub proof fn law_byte_order_goes_by_first_difference(a: Seq<u8>, b: Seq<u8>)
    ensures
        lex_less(a, b) <==> exists|n: int|
            0 <= n <= a.len() && n < b.len() && #[trigger] a.take(n) == b.take(n) && (n == a.len() || a[n] < b[n]),
    decreases a.len(),
{
    if lex_less(a, b) {
        if a.len() == 0 {
            assert(a.take(0) =~= b.take(0));
        } else if a[0] < b[0] {
            assert(a.take(0) =~= b.take(0));
        } else {
            let s = a.drop_first();
            let t = b.drop_first();
            law_byte_order_goes_by_first_difference(s, t);
            let n = choose|n: int|
                0 <= n <= s.len() && n < t.len() && #[trigger] s.take(n) == t.take(n) && (n == s.len() || s[n] < t[n]);
            assert(a.take(n + 1) =~= seq![a[0]] + s.take(n));
            assert(b.take(n + 1) =~= seq![b[0]] + t.take(n));
        }
    }
    if exists|n: int|
        0 <= n <= a.len() && n < b.len() && #[trigger] a.take(n) == b.take(n) && (n == a.len() || a[n] < b[n]) {
        let n = choose|n: int|
            0 <= n <= a.len() && n < b.len() && #[trigger] a.take(n) == b.take(n) && (n == a.len() || a[n] < b[n]);
        if n > 0 {
            let s = a.drop_first();
            let t = b.drop_first();
            assert(a.take(n)[0] == b.take(n)[0]);
            assert(s.take(n - 1) =~= a.take(n).drop_first());
            assert(t.take(n - 1) =~= b.take(n).drop_first());
            law_byte_order_goes_by_first_difference(s, t);
        }
    }
}

} // verus!
