//! Stopping early when only the best `k` hits are asked for.
//!
//! Files are searched in batches by descending score, and no hit scores above its
//! file. Once `k` hits are banked, a file that does not score above the `k`-th best
//! of them cannot hold a hit that ranks among the first `k`, so it is passed over;
//! when the best file of a batch does not, the search ends.

use crate::hits::{apply_max_count, flat_keys, flat_scores, is_capped, FileHits};
use crate::order::{
    comes_before, law_outranked_is_past_k, law_stable_order_is_permutation, lemma_stable_order_exists,
};
use crate::rank::{is_best_first, raw_order, turned};
use vstd::prelude::*;

verus! {

/// Number of files in a batch.
pub const BATCH: usize = 64;

/// The search for the best `k` hits so far.
pub struct TopK {
    k: usize,
    keys: Vec<u64>,
    kth: Option<u64>,
}

/// What to do with a batch of files.
pub enum BatchPlan {
    /// End the search: neither this batch nor any later one can matter.
    Stop,
    /// Search the files at these positions of the batch.
    Search(Vec<usize>),
}

/// Positions of keys that are at least `x`.
pub open spec fn at_least(keys: Seq<u64>, x: u64) -> Set<usize> {
    Set::new(|p: usize| p < keys.len() && keys[p as int] >= x)
}

/// `x` is the `k`-th best key.
pub open spec fn is_kth_best(keys: Seq<u64>, k: nat, x: u64) -> bool {
    exists|ord: Seq<usize>| #[trigger] is_best_first(keys, ord) && 1 <= k <= ord.len() && x == keys[ord[k - 1] as int]
}

/// A file with this key can still hold one of the best `k` hits, given the banked ones.
pub open spec fn key_matters(banked: Seq<u64>, k: nat, file_key: u64) -> bool {
    banked.len() < k || forall|x: u64| is_kth_best(banked, k, x) ==> file_key > x
}

/// Whether no key is above `x`.
fn none_above(keys: &[u64], x: u64) -> (b: bool)
    ensures
        b <==> forall|i: int| 0 <= i < keys@.len() ==> #[trigger] keys@[i] <= x,
{
    let mut i: usize = 0;
    while i < keys.len()
        invariant
            i <= keys@.len(),
            forall|j: int| 0 <= j < i ==> #[trigger] keys@[j] <= x,
        decreases keys@.len() - i,
    {
        if keys[i] > x {
            return false;
        }
        i = i + 1;
    }
    true
}

impl TopK {
    /// Number of hits that are asked for.
    pub closed spec fn wanted(self) -> nat {
        self.k as nat
    }

    /// The keys of the banked hits, in order.
    pub closed spec fn banked(self) -> Seq<u64> {
        self.keys@
    }

    /// The threshold is the key of the `k`-th best banked hit, once there are `k`.
    pub closed spec fn wf(self) -> bool {
        &&& self.k > 0
        &&& match self.kth {
            Some(x) => self.keys@.len() >= self.k && is_kth_best(self.keys@, self.k as nat, x),
            None => self.keys@.len() < self.k,
        }
    }

    /// Start a search for the best `k` hits.
    pub fn new(k: usize) -> (t: Self)
        requires
            k > 0,
        ensures
            t.wf(),
            t.wanted() == k,
            t.banked() == Seq::<u64>::empty(),
    {
        TopK { k, keys: Vec::new(), kth: None }
    }

    /// A file with this key can still matter: fewer than `k` hits are banked, or the
    /// key is above the `k`-th best of them.
    pub open spec fn matters(self, file_key: u64) -> bool {
        key_matters(self.banked(), self.wanted(), file_key)
    }

    /// Decide about the next batch, given the keys of its files, best first.
    pub fn plan_batch(&self, file_keys: &[u64]) -> (plan: BatchPlan)
        requires
            self.wf(),
            file_keys@.len() > 0,
        ensures
            match plan {
                BatchPlan::Stop => !self.matters(file_keys@[0]),
                BatchPlan::Search(pos) => self.matters(file_keys@[0]) && forall|p: usize| #[trigger]
                    pos@.contains(p) <==> p < file_keys@.len() && self.matters(file_keys@[p as int]),
            },
            plan matches BatchPlan::Search(pos) ==> forall|i: int, j: int| 0 <= i < j < pos@.len() ==> pos@[i] < pos@[j],
    {
        let _total: usize = self.keys.len();
        proof {
            self.lemma_threshold();
        }
        if let Some(x) = self.kth {
            if file_keys[0] <= x {
                return BatchPlan::Stop;
            }
        }
        let mut pos: Vec<usize> = Vec::new();
        let mut i: usize = 0;
        while i < file_keys.len()
            invariant
                i <= file_keys@.len(),
                forall|key: u64|
                    self.matters(key) <==> match self.kth {
                        Some(x) => key > x,
                        None => true,
                    },
                forall|a: int| 0 <= a < pos@.len() ==> (#[trigger] pos@[a]) < i && self.matters(
                    file_keys@[pos@[a] as int],
                ),
                forall|a: int, b: int| 0 <= a < b < pos@.len() ==> pos@[a] < pos@[b],
                forall|p: usize| p < i && self.matters(file_keys@[p as int]) ==> #[trigger] pos@.contains(p),
            decreases file_keys@.len() - i,
        {
            let keep: bool = match self.kth {
                Some(x) => file_keys[i] > x,
                None => true,
            };
            let ghost before = pos@;
            if keep {
                pos.push(i);
            }
            proof {
                assert forall|p: usize| p < i + 1 && self.matters(file_keys@[p as int]) implies #[trigger]
                    pos@.contains(p) by {
                    if p < i {
                        assert(before.contains(p));
                        let a = choose|a: int| 0 <= a < before.len() && before[a] == p;
                        assert(pos@[a] == p);
                    } else {
                        assert(pos@[before.len() as int] == p);
                    }
                }
            }
            i = i + 1;
        }
        BatchPlan::Search(pos)
    }

    proof fn lemma_threshold(self)
        requires
            self.wf(),
            self.keys@.len() <= usize::MAX,
        ensures
            forall|key: u64|
                self.matters(key) <==> match self.kth {
                    Some(x) => key > x,
                    None => true,
                },
    {
        if let Some(x) = self.kth {
            assert forall|y: u64| is_kth_best(self.keys@, self.k as nat, y) implies y == x by {
                lemma_kth_unique(self.keys@, self.k as nat, x, y);
            }
        }
    }

    /// Bank the hits of a batch. The threshold is found anew only when one of them is
    /// above it.
    pub fn bank(&mut self, batch: &[u64])
        requires
            old(self).wf(),
        ensures
            final(self).wf(),
            final(self).wanted() == old(self).wanted(),
            final(self).banked() == old(self).banked() + batch@,
    {
        let ghost had = self.keys@;
        let stands: bool = match self.kth {
            Some(x) => none_above(batch, x),
            None => false,
        };
        self.keys.extend_from_slice(batch);
        assert(self.keys@ =~= had + batch@);
        let _total: usize = self.keys.len();
        if stands {
            proof {
                lemma_threshold_stands(had, batch@, self.k as nat, self.kth->Some_0);
            }
        } else if self.keys.len() >= self.k {
            let ord: Vec<usize> = raw_order(&self.keys);
            assert(ord@[self.k - 1] < turned(self.keys@).len());
            let x: u64 = self.keys[ord[self.k - 1]];
            self.kth = Some(x);
            assert(is_best_first(self.keys@, ord@));
        } else {
            self.kth = None;
        }
    }
}

/// How much of the ranked files is searched.
pub enum SearchMode {
    /// Nothing is asked for.
    Nothing,
    /// Every file, at once.
    Everything,
    /// Batch by batch, for the best hits.
    Best(TopK),
}

/// Settle how much is searched: a search for no hits finds none, and one without a
/// limit never stops early.
pub fn search_mode(top: Option<usize>) -> (m: SearchMode)
    ensures
        match top {
            None => m is Everything,
            Some(k) => if k == 0 {
                m is Nothing
            } else {
                m matches SearchMode::Best(t) && t.wf() && t.wanted() == k && t.banked() == Seq::<u64>::empty()
            },
        },
{
    match top {
        None => SearchMode::Everything,
        Some(k) => {
            if k == 0 {
                SearchMode::Nothing
            } else {
                SearchMode::Best(TopK::new(k))
            }
        },
    }
}

proof fn lemma_kth_unique(keys: Seq<u64>, k: nat, x: u64, y: u64)
    requires
        is_kth_best(keys, k, x),
        is_kth_best(keys, k, y),
        keys.len() <= usize::MAX,
    ensures
        x == y,
{
    let a = choose|ord: Seq<usize>| #[trigger]
        is_best_first(keys, ord) && 1 <= k <= ord.len() && x == keys[ord[k - 1] as int];
    let b = choose|ord: Seq<usize>| #[trigger]
        is_best_first(keys, ord) && 1 <= k <= ord.len() && y == keys[ord[k - 1] as int];
    crate::order::law_stable_order_is_unique(turned(keys), a, b);
}

/// At least `k` keys are as good as the `k`-th best.
proof fn lemma_kth_count(keys: Seq<u64>, k: nat, x: u64)
    requires
        is_kth_best(keys, k, x),
        keys.len() <= usize::MAX,
    ensures
        at_least(keys, x).finite(),
        at_least(keys, x).len() >= k,
{
    let ord = choose|ord: Seq<usize>| #[trigger]
        is_best_first(keys, ord) && 1 <= k <= ord.len() && x == keys[ord[k - 1] as int];
    law_stable_order_is_permutation(turned(keys), ord);
    let head = ord.take(k as int);
    assert(head.no_duplicates());
    head.unique_seq_to_set();
    assert forall|p: usize| head.to_set().contains(p) implies at_least(keys, x).contains(p) by {
        let i = choose|i: int| 0 <= i < head.len() && head[i] == p;
        assert(ord[i] == p);
        assert(ord[i] < turned(keys).len());
        if i < k - 1 {
            assert(comes_before(turned(keys), ord[i] as int, ord[k - 1] as int));
        }
    }
    let all = Set::<usize>::new(|p: usize| p < keys.len());
    crate::order::lemma_positions_len(keys.len());
    assert(at_least(keys, x).subset_of(all));
    vstd::set_lib::lemma_len_subset(at_least(keys, x), all);
    vstd::set_lib::lemma_len_subset(head.to_set(), at_least(keys, x));
}

/// A file that does not matter is outdone: `k` banked hits are at least as good as
/// any hit of it, since no hit scores above its file.
pub proof fn law_passed_over_file_is_outdone(t: TopK, file_key: u64, hit_key: u64)
    requires
        t.wf(),
        t.banked().len() <= usize::MAX,
        !t.matters(file_key),
        hit_key <= file_key,
    ensures
        at_least(t.banked(), hit_key).finite(),
        at_least(t.banked(), hit_key).len() >= t.wanted(),
{
    lemma_outdone(t.banked(), t.wanted(), file_key, hit_key);
}

proof fn lemma_outdone(banked: Seq<u64>, k: nat, file_key: u64, hit_key: u64)
    requires
        banked.len() <= usize::MAX,
        !key_matters(banked, k, file_key),
        hit_key <= file_key,
    ensures
        at_least(banked, hit_key).finite(),
        at_least(banked, hit_key).len() >= k,
{
    let x = choose|x: u64| is_kth_best(banked, k, x) && file_key <= x;
    lemma_kth_count(banked, k, x);
    lemma_more_are_as_good(banked, Seq::empty(), hit_key, x);
    assert(banked + Seq::<u64>::empty() =~= banked);
}

/// More keys are as good as a lower one, and more among more keys.
proof fn lemma_more_are_as_good(banked: Seq<u64>, more: Seq<u64>, low: u64, high: u64)
    requires
        banked.len() + more.len() <= usize::MAX,
        low <= high,
    ensures
        at_least(banked + more, low).finite(),
        at_least(banked + more, low).len() >= at_least(banked, high).len(),
{
    let now = banked + more;
    let all = Set::<usize>::new(|p: usize| p < now.len());
    crate::order::lemma_positions_len(now.len());
    assert(at_least(now, low).subset_of(all));
    vstd::set_lib::lemma_len_subset(at_least(now, low), all);
    assert forall|p: usize| at_least(banked, high).contains(p) implies at_least(now, low).contains(p) by {
        assert(now[p as int] == banked[p as int]);
    }
    vstd::set_lib::lemma_len_subset(at_least(banked, high), at_least(now, low));
}

/// A file that ranks no better than one that does not matter does not matter either,
/// so a search that stops at a batch misses nothing in later ones.
pub proof fn law_worse_files_do_not_matter(t: TopK, best: u64, worse: u64)
    requires
        !t.matters(best),
        worse <= best,
    ensures
        !t.matters(worse),
{
}

// ---- a cut search ranks as a full one ----

/// `kept` picks positions of `full`, ascending.
pub open spec fn is_pick(full: Seq<u64>, kept: Seq<usize>) -> bool {
    &&& forall|i: int| 0 <= i < kept.len() ==> (#[trigger] kept[i]) < full.len()
    &&& forall|i: int, j: int| 0 <= i < j < kept.len() ==> kept[i] < kept[j]
}

/// The keys that were kept.
pub open spec fn picked(full: Seq<u64>, kept: Seq<usize>) -> Seq<u64> {
    Seq::new(kept.len(), |i: int| full[kept[i] as int])
}

/// Hits before position `p` that are at least as good.
pub open spec fn ahead_of(full: Seq<u64>, p: usize) -> Set<usize> {
    Set::new(|q: usize| q < p && q < full.len() && full[q as int] >= full[p as int])
}

/// Every hit that was not kept comes after `k` others that are at least as good.
pub open spec fn only_outdone_dropped(full: Seq<u64>, kept: Seq<usize>, k: nat) -> bool {
    forall|p: usize| p < full.len() && !#[trigger] kept.contains(p) ==> ahead_of(full, p).finite() && ahead_of(
        full,
        p,
    ).len() >= k
}

/// Keeping one more hit drops nothing.
pub proof fn law_kept_hit(full: Seq<u64>, kept: Seq<usize>, k: nat, key: u64)
    requires
        is_pick(full, kept),
        only_outdone_dropped(full, kept, k),
        full.len() < usize::MAX,
    ensures
        is_pick(full.push(key), kept.push(full.len() as usize)),
        only_outdone_dropped(full.push(key), kept.push(full.len() as usize), k),
        picked(full.push(key), kept.push(full.len() as usize)) == picked(full, kept).push(key),
{
    let now = full.push(key);
    let kept_now = kept.push(full.len() as usize);
    assert forall|p: usize| p < now.len() && !#[trigger] kept_now.contains(p) implies ahead_of(now, p).finite()
        && ahead_of(now, p).len() >= k by {
        if p == full.len() {
            assert(kept_now[kept.len() as int] == p);
        } else {
            if kept.contains(p) {
                let i = choose|i: int| 0 <= i < kept.len() && kept[i] == p;
                assert(kept_now[i] == p);
            }
            assert(ahead_of(now, p) =~= ahead_of(full, p));
        }
    }
    assert(picked(now, kept_now) =~= picked(full, kept).push(key));
}

/// Dropping a hit that `k` kept ones are at least as good as drops only an outdone
/// one.
pub proof fn law_dropped_hit(full: Seq<u64>, kept: Seq<usize>, k: nat, key: u64)
    requires
        is_pick(full, kept),
        only_outdone_dropped(full, kept, k),
        full.len() < usize::MAX,
        at_least(picked(full, kept), key).finite(),
        at_least(picked(full, kept), key).len() >= k,
    ensures
        is_pick(full.push(key), kept),
        only_outdone_dropped(full.push(key), kept, k),
        picked(full.push(key), kept) == picked(full, kept),
{
    let now = full.push(key);
    let n = full.len() as usize;
    let keys = picked(full, kept);
    assert(picked(now, kept) =~= keys);
    let good = at_least(keys, key);
    let image = good.map(|i: usize| kept[i as int]);
    assert forall|i: usize, j: usize| good.contains(i) && good.contains(j) && kept[i as int] == kept[j as int] implies i
        == j by {
        if i < j {
            assert(kept[i as int] < kept[j as int]);
        }
        if j < i {
            assert(kept[j as int] < kept[i as int]);
        }
    }
    lemma_injective_image(good, kept);
    assert forall|q: usize| image.contains(q) implies ahead_of(now, n).contains(q) by {
        let i = choose|i: usize| good.contains(i) && kept[i as int] == q;
        assert(keys[i as int] == full[q as int]);
        assert(kept[i as int] < full.len());
    }
    let all = Set::<usize>::new(|p: usize| p < n);
    crate::order::lemma_positions_len(n as nat);
    assert(ahead_of(now, n).subset_of(all));
    vstd::set_lib::lemma_len_subset(ahead_of(now, n), all);
    vstd::set_lib::lemma_len_subset(image, ahead_of(now, n));
    assert forall|p: usize| p < now.len() && !#[trigger] kept.contains(p) implies ahead_of(now, p).finite()
        && ahead_of(now, p).len() >= k by {
        if p != n {
            assert(ahead_of(now, p) =~= ahead_of(full, p));
        }
    }
}

proof fn lemma_injective_image(good: Set<usize>, kept: Seq<usize>)
    requires
        good.finite(),
        forall|i: usize| good.contains(i) ==> i < kept.len(),
        forall|i: int, j: int| 0 <= i < j < kept.len() ==> kept[i] < kept[j],
    ensures
        good.map(|i: usize| kept[i as int]).finite(),
        good.map(|i: usize| kept[i as int]).len() == good.len(),
    decreases good.len(),
{
    let f = |i: usize| kept[i as int];
    if good.len() == 0 {
        assert(good.map(f) =~= Set::empty());
    } else {
        let a = good.choose();
        let rest = good.remove(a);
        lemma_injective_image(rest, kept);
        assert(good.map(f) =~= rest.map(f).insert(kept[a as int])) by {
            assert forall|q: usize| good.map(f).contains(q) <==> rest.map(f).insert(kept[a as int]).contains(q) by {
                if good.map(f).contains(q) {
                    let i = choose|i: usize| good.contains(i) && f(i) == q;
                    if i != a {
                        assert(rest.contains(i));
                        assert(rest.map(f).contains(f(i)));
                    }
                }
                if rest.map(f).contains(q) {
                    let i = choose|i: usize| rest.contains(i) && f(i) == q;
                    assert(good.contains(i));
                    assert(good.map(f).contains(f(i)));
                }
                if q == kept[a as int] {
                    assert(good.map(f).contains(f(a)));
                }
            }
        }
        assert(!rest.map(f).contains(kept[a as int])) by {
            if rest.map(f).contains(kept[a as int]) {
                let i = choose|i: usize| rest.contains(i) && f(i) == kept[a as int];
                assert(good.contains(i));
                assert(good.contains(a));
                if i < a {
                    assert(kept[i as int] < kept[a as int]);
                } else {
                    assert(kept[a as int] < kept[i as int]);
                }
            }
        }
    }
}

/// A cut search ranks as a full one: when only outdone hits were dropped, the first
/// `k` of the ranking of all hits are the first `k` of the ranking of the kept ones,
/// in the same order.
pub proof fn law_cut_search_ranks_the_same(
    full: Seq<u64>,
    kept: Seq<usize>,
    k: nat,
    ord_full: Seq<usize>,
    ord_kept: Seq<usize>,
    i: int,
)
    requires
        full.len() <= usize::MAX,
        is_pick(full, kept),
        only_outdone_dropped(full, kept, k),
        is_best_first(full, ord_full),
        is_best_first(picked(full, kept), ord_kept),
        0 <= i < k,
        i < ord_full.len(),
    ensures
        i < ord_kept.len(),
        kept[ord_kept[i] as int] == ord_full[i],
    decreases i,
{
    let part = picked(full, kept);
    lemma_pick_len(full, kept);
    law_stable_order_is_permutation(turned(full), ord_full);
    law_stable_order_is_permutation(turned(part), ord_kept);
    let x = ord_full[i];
    assert(ord_full[i] < turned(full).len());
    if !kept.contains(x) {
        let better = ahead_of(full, x);
        assert forall|q: usize| #[trigger] better.contains(q) implies q < turned(full).len() && comes_before(
            turned(full),
            q as int,
            x as int,
        ) by {}
        law_outranked_is_past_k(turned(full), ord_full, x, better, k);
    }
    let a = choose|a: int| 0 <= a < kept.len() && kept[a] == x;
    assert(ord_kept.contains(a as usize));
    let t = choose|t: int| 0 <= t < ord_kept.len() && ord_kept[t] == a as usize;
    if t < i {
        law_cut_search_ranks_the_same(full, kept, k, ord_full, ord_kept, t);
        assert(ord_full[t] == ord_full[i]);
    }
    if t > i {
        let b = ord_kept[i] as int;
        assert(ord_kept[i] < turned(part).len());
        let y = kept[b];
        assert(comes_before(turned(part), ord_kept[i] as int, ord_kept[t] as int));
        assert(part[b] == full[y as int] && part[a] == full[x as int]);
        assert(comes_before(turned(full), y as int, x as int));
        assert(kept[b] < full.len());
        assert(ord_full.contains(y));
        let j = choose|j: int| 0 <= j < ord_full.len() && ord_full[j] == y;
        if j > i {
            assert(comes_before(turned(full), ord_full[i] as int, ord_full[j] as int));
        }
        assert(j < i);
        law_cut_search_ranks_the_same(full, kept, k, ord_full, ord_kept, j);
        assert(kept[ord_kept[j] as int] == kept[b]);
        if ord_kept[j] < b {
            assert(kept[ord_kept[j] as int] < kept[b]);
        } else if ord_kept[j] > b {
            assert(kept[b] < kept[ord_kept[j] as int]);
        }
        assert(ord_kept[j] == ord_kept[i]);
    }
}

proof fn lemma_pick_len(full: Seq<u64>, kept: Seq<usize>)
    requires
        is_pick(full, kept),
        full.len() <= usize::MAX,
    ensures
        kept.len() <= full.len(),
    decreases kept.len(),
{
    if kept.len() > 0 {
        lemma_pick_bound(kept, kept.len() - 1);
        assert(kept[kept.len() - 1] < full.len());
    }
}

proof fn lemma_pick_bound(kept: Seq<usize>, i: int)
    requires
        forall|i: int, j: int| 0 <= i < j < kept.len() ==> kept[i] < kept[j],
        0 <= i < kept.len(),
    ensures
        kept[i] >= i,
    decreases i,
{
    if i > 0 {
        lemma_pick_bound(kept, i - 1);
        assert(kept[i - 1] < kept[i]);
    }
}

// ---- whole searches ----

/// The keys of the hits of ranked files, each given by its key and those of its hits.
pub open spec fn all_hits(files: Seq<(u64, Seq<u64>)>) -> Seq<u64>
    decreases files.len(),
{
    if files.len() == 0 {
        Seq::empty()
    } else {
        all_hits(files.drop_last()) + files.last().1
    }
}

/// The keys of the hits of those files of a batch that matter, given what was banked
/// before the batch.
pub open spec fn batch_hits(batch: Seq<(u64, Seq<u64>)>, banked: Seq<u64>, k: nat) -> Seq<u64>
    decreases batch.len(),
{
    if batch.len() == 0 {
        Seq::empty()
    } else {
        let front = batch_hits(batch.drop_last(), banked, k);
        if key_matters(banked, k, batch.last().0) {
            front + batch.last().1
        } else {
            front
        }
    }
}

/// Number of files in the next batch.
pub open spec fn batch_len(n: nat) -> nat {
    if n < BATCH {
        n
    } else {
        BATCH as nat
    }
}

/// The keys of the hits that a search for the best `k` ends with, going through the
/// files batch by batch until one does not matter.
pub open spec fn cut_search(files: Seq<(u64, Seq<u64>)>, banked: Seq<u64>, k: nat) -> Seq<u64>
    decreases files.len(),
{
    if files.len() == 0 || !key_matters(banked, k, files[0].0) {
        banked
    } else {
        let n = batch_len(files.len()) as int;
        cut_search(files.skip(n), banked + batch_hits(files.take(n), banked, k), k)
    }
}

/// Files come best first, and no hit scores above its file.
pub open spec fn are_ranked(files: Seq<(u64, Seq<u64>)>) -> bool {
    &&& forall|i: int, j: int| 0 <= i < j < files.len() ==> (#[trigger] files[i]).0 >= (#[trigger] files[j]).0
    &&& forall|i: int, h: int|
        0 <= i < files.len() && 0 <= h < files[i].1.len() ==> #[trigger] files[i].1[h] <= files[i].0
}

proof fn lemma_all_hits_split(files: Seq<(u64, Seq<u64>)>, n: int)
    requires
        0 <= n <= files.len(),
    ensures
        all_hits(files) == all_hits(files.take(n)) + all_hits(files.skip(n)),
    decreases files.len(),
{
    if n == files.len() {
        assert(files.take(n) =~= files);
        assert(all_hits(files.take(n)) + all_hits(files.skip(n)) =~= all_hits(files));
    } else {
        let front = files.drop_last();
        lemma_all_hits_split(front, n);
        assert(front.take(n) =~= files.take(n));
        assert(files.skip(n).drop_last() =~= front.skip(n));
        assert(all_hits(files) =~= all_hits(files.take(n)) + all_hits(files.skip(n)));
    }
}

proof fn lemma_keep_hits(full: Seq<u64>, kept: Seq<usize>, k: nat, hits: Seq<u64>) -> (now: Seq<usize>)
    requires
        is_pick(full, kept),
        only_outdone_dropped(full, kept, k),
        full.len() + hits.len() <= usize::MAX,
    ensures
        is_pick(full + hits, now),
        only_outdone_dropped(full + hits, now, k),
        picked(full + hits, now) == picked(full, kept) + hits,
    decreases hits.len(),
{
    if hits.len() == 0 {
        assert(full + hits =~= full);
        assert(picked(full, kept) + hits =~= picked(full, kept));
        kept
    } else {
        let front = lemma_keep_hits(full, kept, k, hits.drop_last());
        let so_far = full + hits.drop_last();
        law_kept_hit(so_far, front, k, hits.last());
        assert(so_far.push(hits.last()) =~= full + hits);
        assert((picked(full, kept) + hits.drop_last()).push(hits.last()) =~= picked(full, kept) + hits);
        front.push(so_far.len() as usize)
    }
}

proof fn lemma_drop_hits(full: Seq<u64>, kept: Seq<usize>, k: nat, hits: Seq<u64>)
    requires
        is_pick(full, kept),
        only_outdone_dropped(full, kept, k),
        full.len() + hits.len() <= usize::MAX,
        forall|h: int|
            0 <= h < hits.len() ==> at_least(picked(full, kept), #[trigger] hits[h]).finite() && at_least(
                picked(full, kept),
                hits[h],
            ).len() >= k,
    ensures
        is_pick(full + hits, kept),
        only_outdone_dropped(full + hits, kept, k),
        picked(full + hits, kept) == picked(full, kept),
    decreases hits.len(),
{
    if hits.len() == 0 {
        assert(full + hits =~= full);
    } else {
        let front = hits.drop_last();
        assert forall|h: int| 0 <= h < front.len() implies at_least(
            picked(full, kept),
            #[trigger] front[h],
        ).finite() && at_least(picked(full, kept), front[h]).len() >= k by {
            assert(front[h] == hits[h]);
        }
        lemma_drop_hits(full, kept, k, front);
        let so_far = full + front;
        assert(hits[hits.len() - 1] == hits.last());
        law_dropped_hit(so_far, kept, k, hits.last());
        assert(so_far.push(hits.last()) =~= full + hits);
    }
}

proof fn lemma_batch(
    full: Seq<u64>,
    kept: Seq<usize>,
    k: nat,
    banked: Seq<u64>,
    batch: Seq<(u64, Seq<u64>)>,
) -> (now: Seq<usize>)
    requires
        is_pick(full, kept),
        only_outdone_dropped(full, kept, k),
        picked(full, kept) == banked,
        full.len() + all_hits(batch).len() <= usize::MAX,
        forall|i: int, h: int|
            0 <= i < batch.len() && 0 <= h < batch[i].1.len() ==> #[trigger] batch[i].1[h] <= batch[i].0,
    ensures
        is_pick(full + all_hits(batch), now),
        only_outdone_dropped(full + all_hits(batch), now, k),
        picked(full + all_hits(batch), now) == banked + batch_hits(batch, banked, k),
    decreases batch.len(),
{
    if batch.len() == 0 {
        assert(full + all_hits(batch) =~= full);
        assert(banked + batch_hits(batch, banked, k) =~= banked);
        kept
    } else {
        let front = batch.drop_last();
        let last = batch.last();
        assert(batch[batch.len() - 1] == last);
        assert forall|i: int, h: int| 0 <= i < front.len() && 0 <= h < front[i].1.len() implies #[trigger] front[i].1[h]
            <= front[i].0 by {
            assert(front[i] == batch[i]);
            assert(batch[i].1[h] <= batch[i].0);
        }
        let some = lemma_batch(full, kept, k, banked, front);
        let so_far = full + all_hits(front);
        let more = batch_hits(front, banked, k);
        assert(so_far + last.1 =~= full + all_hits(batch));
        if key_matters(banked, k, last.0) {
            let now = lemma_keep_hits(so_far, some, k, last.1);
            assert(banked + more + last.1 =~= banked + batch_hits(batch, banked, k));
            now
        } else {
            lemma_pick_len(so_far, some);
            assert forall|h: int| 0 <= h < last.1.len() implies at_least(
                picked(so_far, some),
                #[trigger] last.1[h],
            ).finite() && at_least(picked(so_far, some), last.1[h]).len() >= k by {
                assert(batch[batch.len() - 1].1[h] <= batch[batch.len() - 1].0);
                lemma_outdone(banked, k, last.0, last.1[h]);
                lemma_more_are_as_good(banked, more, last.1[h], last.1[h]);
            }
            lemma_drop_hits(so_far, some, k, last.1);
            some
        }
    }
}

/// A batch in which no file matters gives nothing.
proof fn lemma_nothing_matters(batch: Seq<(u64, Seq<u64>)>, banked: Seq<u64>, k: nat)
    requires
        forall|i: int| 0 <= i < batch.len() ==> !key_matters(banked, k, (#[trigger] batch[i]).0),
    ensures
        batch_hits(batch, banked, k) == Seq::<u64>::empty(),
    decreases batch.len(),
{
    if batch.len() > 0 {
        assert(!key_matters(banked, k, batch[batch.len() - 1].0));
        assert forall|i: int| 0 <= i < batch.drop_last().len() implies !key_matters(
            banked,
            k,
            (#[trigger] batch.drop_last()[i]).0,
        ) by {
            assert(batch.drop_last()[i] == batch[i]);
        }
        lemma_nothing_matters(batch.drop_last(), banked, k);
    }
}

proof fn lemma_cut_search(
    full: Seq<u64>,
    kept: Seq<usize>,
    k: nat,
    banked: Seq<u64>,
    files: Seq<(u64, Seq<u64>)>,
) -> (now: Seq<usize>)
    requires
        is_pick(full, kept),
        only_outdone_dropped(full, kept, k),
        picked(full, kept) == banked,
        full.len() + all_hits(files).len() <= usize::MAX,
        are_ranked(files),
    ensures
        is_pick(full + all_hits(files), now),
        only_outdone_dropped(full + all_hits(files), now, k),
        picked(full + all_hits(files), now) == cut_search(files, banked, k),
    decreases files.len(),
{
    if files.len() == 0 {
        assert(full + all_hits(files) =~= full);
        kept
    } else if !key_matters(banked, k, files[0].0) {
        assert forall|i: int| 0 <= i < files.len() implies !key_matters(banked, k, (#[trigger] files[i]).0) by {
            if i > 0 {
                assert(files[0].0 >= files[i].0);
            }
        }
        lemma_nothing_matters(files, banked, k);
        let now = lemma_batch(full, kept, k, banked, files);
        assert(banked + Seq::<u64>::empty() =~= banked);
        now
    } else {
        let n = batch_len(files.len()) as int;
        let batch = files.take(n);
        let rest = files.skip(n);
        lemma_all_hits_split(files, n);
        assert forall|i: int, h: int| 0 <= i < batch.len() && 0 <= h < batch[i].1.len() implies #[trigger] batch[i].1[h]
            <= batch[i].0 by {
            assert(batch[i] == files[i]);
            assert(files[i].1[h] <= files[i].0);
        }
        let some = lemma_batch(full, kept, k, banked, batch);
        assert(are_ranked(rest)) by {
            assert forall|i: int, j: int| 0 <= i < j < rest.len() implies (#[trigger] rest[i]).0 >= (
            #[trigger] rest[j]).0 by {
                assert(files[n + i].0 >= files[n + j].0);
            }
            assert forall|i: int, h: int| 0 <= i < rest.len() && 0 <= h < rest[i].1.len() implies #[trigger] rest[i].1[h]
                <= rest[i].0 by {
                assert(rest[i] == files[n + i]);
                assert(files[n + i].1[h] <= files[n + i].0);
            }
        }
        let more = banked + batch_hits(batch, banked, k);
        let now = lemma_cut_search(full + all_hits(batch), some, k, more, rest);
        assert(full + all_hits(batch) + all_hits(rest) =~= full + all_hits(files));
        now
    }
}

/// A whole search for the best `k` hits keeps only hits of a search without a limit, in
/// the same order, and passes over none but those that come after `k` others at least as
/// good.
pub proof fn law_cut_search_drops_only_outdone(files: Seq<(u64, Seq<u64>)>, k: nat) -> (kept: Seq<usize>)
    requires
        are_ranked(files),
        all_hits(files).len() <= usize::MAX,
    ensures
        is_pick(all_hits(files), kept),
        only_outdone_dropped(all_hits(files), kept, k),
        picked(all_hits(files), kept) == cut_search(files, Seq::empty(), k),
{
    let none = Seq::<u64>::empty();
    let start = Seq::<usize>::empty();
    assert(picked(none, start) =~= none);
    let kept = lemma_cut_search(none, start, k, none, files);
    assert(none + all_hits(files) =~= all_hits(files));
    kept
}

/// Stopping early never loses one of the best `k` hits: the `i`-th best score of a whole
/// search for the best `k` is the `i`-th best score of a search without a limit, for
/// every `i` below `k`.
pub proof fn law_early_exit_keeps_the_best(
    files: Seq<(u64, Seq<u64>)>,
    k: nat,
    ord_full: Seq<usize>,
    ord_cut: Seq<usize>,
    i: int,
)
    requires
        are_ranked(files),
        all_hits(files).len() <= usize::MAX,
        is_best_first(all_hits(files), ord_full),
        is_best_first(cut_search(files, Seq::empty(), k), ord_cut),
        0 <= i < k,
        i < ord_full.len(),
    ensures
        i < ord_cut.len(),
        cut_search(files, Seq::empty(), k)[ord_cut[i] as int] == all_hits(files)[ord_full[i] as int],
{
    let full = all_hits(files);
    let kept = law_cut_search_drops_only_outdone(files, k);
    law_cut_search_ranks_the_same(full, kept, k, ord_full, ord_cut, i);
    assert(ord_cut[i] < turned(picked(full, kept)).len());
}

/// The keys of the hits that a search ends with: all of them without a limit, none for a
/// limit of zero, and those of a cut search otherwise.
pub open spec fn searched_keys(files: Seq<(u64, Seq<u64>)>, top: Option<usize>) -> Seq<u64> {
    match top {
        None => all_hits(files),
        Some(k) => if k == 0 {
            Seq::empty()
        } else {
            cut_search(files, Seq::empty(), k as nat)
        },
    }
}

/// The best `k` keys, best first, given their order.
pub open spec fn best_keys(keys: Seq<u64>, ord: Seq<usize>, k: nat) -> Seq<u64> {
    Seq::new(
        if k < ord.len() {
            k
        } else {
            ord.len()
        },
        |i: int| keys[ord[i] as int],
    )
}

/// Two whole searches that differ only in their limit have the same best `k` scores, all
/// of them where there are fewer, and the one with the limit finds no hit that the other
/// does not. There are no more hits than can be counted.
pub proof fn law_limit_keeps_the_best_scores(
    files: Seq<(u64, Seq<u64>)>,
    k: usize,
    ord_full: Seq<usize>,
    ord_top: Seq<usize>,
) -> (kept: Seq<usize>)
    requires
        are_ranked(files),
        all_hits(files).len() <= usize::MAX,
        is_best_first(searched_keys(files, None), ord_full),
        is_best_first(searched_keys(files, Some(k)), ord_top),
    ensures
        best_keys(searched_keys(files, Some(k)), ord_top, k as nat) == best_keys(
            searched_keys(files, None),
            ord_full,
            k as nat,
        ),
        is_pick(searched_keys(files, None), kept),
        picked(searched_keys(files, None), kept) == searched_keys(files, Some(k)),
        k == 0 ==> searched_keys(files, Some(k)).len() == 0,
{
    let full = all_hits(files);
    let top = searched_keys(files, Some(k));
    let a = best_keys(top, ord_top, k as nat);
    let b = best_keys(full, ord_full, k as nat);
    if k == 0 {
        assert(a =~= b);
        let none = Seq::<usize>::empty();
        assert(picked(full, none) =~= top);
        none
    } else {
        let kept = law_cut_search_drops_only_outdone(files, k as nat);
        lemma_pick_len(full, kept);
        let n = b.len() as int;
        if n > 0 {
            law_early_exit_keeps_the_best(files, k as nat, ord_full, ord_top, n - 1);
        }
        assert forall|i: int| 0 <= i < n implies a[i] == b[i] by {
            law_early_exit_keeps_the_best(files, k as nat, ord_full, ord_top, i);
        }
        assert(a =~= b);
        kept
    }
}

/// Keys that are not above the `k`-th best leave it where it is.
proof fn lemma_threshold_stands(keys: Seq<u64>, batch: Seq<u64>, k: nat, x: u64)
    requires
        is_kth_best(keys, k, x),
        keys.len() + batch.len() <= usize::MAX,
        forall|i: int| 0 <= i < batch.len() ==> #[trigger] batch[i] <= x,
    ensures
        is_kth_best(keys + batch, k, x),
{
    let kept = Seq::new(keys.len(), |i: int| i as usize);
    assert(picked(keys, kept) =~= keys);
    assert forall|p: usize| p < keys.len() implies #[trigger] kept.contains(p) by {
        assert(kept[p as int] == p);
    }
    lemma_kth_count(keys, k, x);
    assert forall|h: int| 0 <= h < batch.len() implies at_least(keys, #[trigger] batch[h]).finite() && at_least(
        keys,
        batch[h],
    ).len() >= k by {
        lemma_more_are_as_good(keys, Seq::empty(), batch[h], x);
        assert(keys + Seq::<u64>::empty() =~= keys);
    }
    lemma_drop_hits(keys, kept, k, batch);
    let all = keys + batch;
    let ord = choose|ord: Seq<usize>| #[trigger]
        is_best_first(keys, ord) && 1 <= k <= ord.len() && x == keys[ord[k - 1] as int];
    let full = lemma_stable_order_exists(turned(all));
    assert(is_best_first(all, full));
    law_cut_search_ranks_the_same(all, kept, k, full, ord, k - 1);
    assert(ord[k - 1] < turned(keys).len());
    assert(kept[ord[k - 1] as int] == ord[k - 1]);
    assert(all[full[k - 1] as int] == x);
}

// ---- banking files ----

/// Cap the hits of each file of a batch and bank those that stay, so that hits past the
/// cap never end a search.
pub fn bank_batch(best: &mut TopK, found: Vec<FileHits>, max_count: Option<usize>) -> (kept: Vec<FileHits>)
    requires
        old(best).wf(),
    ensures
        final(best).wf(),
        final(best).wanted() == old(best).wanted(),
        final(best).banked() == old(best).banked() + flat_keys(kept@),
        kept@.len() == found@.len(),
        forall|k: int| 0 <= k < found@.len() ==> is_capped(#[trigger] kept@[k], found@[k], max_count),
{
    let kept: Vec<FileHits> = apply_max_count(found, max_count);
    let (keys, _loc) = flat_scores(&kept);
    best.bank(&keys);
    kept
}

/// A file matters exactly as long as fewer than `k` of the hits that were found are as good as
/// it, so a search goes on while it can still change the best `k`, and no longer.
pub proof fn law_file_matters_while_fewer_are_as_good(banked: Seq<u64>, k: nat, file_key: u64)
    requires
        banked.len() <= usize::MAX,
        k > 0,
    ensures
        Set::new(|p: usize| p < banked.len() && banked[p as int] >= file_key).finite(),
        key_matters(banked, k, file_key) <==> Set::new(
            |p: usize| p < banked.len() && banked[p as int] >= file_key,
        ).len() < k,
{
    let good = at_least(banked, file_key);
    assert(good =~= Set::new(|p: usize| p < banked.len() && banked[p as int] >= file_key));
    let every = Set::<usize>::new(|p: usize| p < banked.len());
    crate::order::lemma_positions_len(banked.len());
    assert(good.subset_of(every));
    vstd::set_lib::lemma_len_subset(good, every);
    if !key_matters(banked, k, file_key) {
        lemma_outdone(banked, k, file_key, file_key);
    } else if banked.len() >= k {
        let ord = lemma_stable_order_exists(turned(banked));
        assert(is_best_first(banked, ord));
        let x = banked[ord[k - 1] as int];
        assert(is_kth_best(banked, k, x));
        law_stable_order_is_permutation(turned(banked), ord);
        let head = ord.take(k - 1);
        assert(head.no_duplicates());
        head.unique_seq_to_set();
        assert forall|p: usize| good.contains(p) implies head.to_set().contains(p) by {
            assert(ord.contains(p));
            let i = choose|i: int| 0 <= i < ord.len() && ord[i] == p;
            assert(ord[k - 1] < turned(banked).len());
            if i >= k - 1 {
                if i > k - 1 {
                    assert(comes_before(turned(banked), ord[k - 1] as int, ord[i] as int));
                }
            }
            assert(head[i] == p);
        }
        vstd::set_lib::lemma_len_subset(good, head.to_set());
    }
}

} // verus!
