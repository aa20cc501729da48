//! How the replies to related queries relate.

use crate::grams::lists_hold;
use crate::hits::FileHits;
use crate::index::IndexView;
use crate::order::law_stable_order_is_unique;
use crate::rank::{gram_lists, is_best_first, is_candidate, is_plan, is_top_order, turned, RankPlan};
use crate::render::json_rows;
use crate::serve::{in_subtree, narrowed_order, plan_agrees, relative, SubtreeView};
use vstd::prelude::*;

verus! {

// ---- fewer hits ----

proof fn lemma_rows_prefix(
    files: Seq<FileHits>,
    shown: Seq<Seq<char>>,
    loc: Seq<(usize, usize)>,
    ord: Seq<usize>,
    scores: Seq<Seq<Seq<u8>>>,
    n: int,
)
    requires
        0 <= n <= ord.len(),
        json_rows(files, shown, loc, ord, scores) is Ok,
    ensures
        json_rows(files, shown, loc, ord.take(n), scores) is Ok,
        json_rows(files, shown, loc, ord.take(n), scores)->Ok_0.is_prefix_of(
            json_rows(files, shown, loc, ord, scores)->Ok_0,
        ),
    decreases ord.len(),
{
    let all = json_rows(files, shown, loc, ord, scores)->Ok_0;
    if n == ord.len() {
        assert(ord.take(n) =~= ord);
        assert(all =~= all.subrange(0, all.len() as int));
    } else {
        let front = ord.drop_last();
        lemma_rows_prefix(files, shown, loc, front, scores, n);
        assert(front.take(n) =~= ord.take(n));
        let some = json_rows(files, shown, loc, front, scores)->Ok_0;
        let few = json_rows(files, shown, loc, ord.take(n), scores)->Ok_0;
        assert(all.subrange(0, some.len() as int) =~= some);
        assert(all.subrange(0, few.len() as int) =~= some.subrange(0, few.len() as int));
    }
}

/// The reply to a query for the best `n` hits is the front of the reply to the same
/// query for all of them: its order is the first `n` of that order, its lines are those
/// lines byte for byte, and scores never rise down a reply.
pub proof fn law_top_reply_is_a_prefix(
    files: Seq<FileHits>,
    shown: Seq<Seq<char>>,
    loc: Seq<(usize, usize)>,
    scores: Seq<Seq<Seq<u8>>>,
    keys: Seq<u64>,
    n: usize,
    cut: Seq<usize>,
    all: Seq<usize>,
)
    requires
        keys.len() <= usize::MAX,
        is_top_order(keys, Some(n), cut),
        is_top_order(keys, None, all),
        json_rows(files, shown, loc, all, scores) is Ok,
    ensures
        cut == all.take(if n < all.len() {
            n as int
        } else {
            all.len() as int
        }),
        json_rows(files, shown, loc, cut, scores) is Ok,
        json_rows(files, shown, loc, cut, scores)->Ok_0.is_prefix_of(
            json_rows(files, shown, loc, all, scores)->Ok_0,
        ),
        forall|i: int, j: int|
            0 <= i < j < all.len() ==> keys[#[trigger] all[i] as int] >= keys[#[trigger] all[j] as int],
{
    let full = choose|full: Seq<usize>| #[trigger]
        is_best_first(keys, full) && cut == (if n < full.len() {
            full.take(n as int)
        } else {
            full
        });
    assert(is_best_first(keys, all));
    law_stable_order_is_unique(turned(keys), full, all);
    let m = if n < all.len() {
        n as int
    } else {
        all.len() as int
    };
    assert(all.take(all.len() as int) =~= all);
    lemma_rows_prefix(files, shown, loc, all, scores, m);
    assert forall|i: int, j: int| 0 <= i < j < all.len() implies keys[#[trigger] all[i] as int]
        >= keys[#[trigger] all[j] as int] by {
        assert(crate::order::comes_before(turned(keys), all[i] as int, all[j] as int));
    }
}

// ---- part of the tree ----

/// The order lists the files that are searched: the candidates of the plan, or all files
/// where there is none.
pub open spec fn lists_searched(order: Seq<u32>, plan: Option<RankPlan>, nfiles: nat) -> bool {
    forall|id: u32| #[trigger] order.contains(id) <==> (match plan {
        Some(p) => p.candidates@.contains(id),
        None => id < nfiles,
    })
}

/// The hits of the listed files, as file, line and text; `found` are those of each file.
pub open spec fn hits_of(order: Seq<u32>, found: Seq<Seq<(u64, Seq<u8>)>>) -> Set<(u32, u64, Seq<u8>)> {
    Set::new(|h: (u32, u64, Seq<u8>)| order.contains(h.0) && found[h.0 as int].contains((h.1, h.2)))
}

proof fn lemma_narrowed(order: Seq<u32>, idx: IndexView, s: SubtreeView, id: u32)
    ensures
        narrowed_order(order, idx, s).contains(id) <==> order.contains(id) && in_subtree(
            idx.files[id as int],
            idx.root,
            s,
        ),
    decreases order.len(),
{
    if order.len() > 0 {
        let front = order.drop_last();
        lemma_narrowed(front, idx, s, id);
        let kept = narrowed_order(front, idx, s);
        let all = narrowed_order(order, idx, s);
        if order.contains(id) {
            let x = choose|x: int| 0 <= x < order.len() && order[x] == id;
            if x < front.len() {
                assert(front[x] == id);
            }
        }
        if front.contains(id) {
            let x = choose|x: int| 0 <= x < front.len() && front[x] == id;
            assert(order[x] == id);
        }
        if kept.contains(id) {
            let x = choose|x: int| 0 <= x < kept.len() && kept[x] == id;
            assert(all[x] == id);
        }
        if all.contains(id) {
            let x = choose|x: int| 0 <= x < all.len() && all[x] == id;
            if x < kept.len() {
                assert(kept[x] == id);
            }
        }
        if in_subtree(idx.files[order.last() as int], idx.root, s) {
            assert(all[kept.len() as int] == order.last());
        }
        assert(order[order.len() - 1] == order.last());
    }
}

proof fn lemma_same_lists(a: Seq<Vec<u32>>, b: Seq<Vec<u32>>, sets: Seq<Set<u32>>)
    requires
        lists_hold(a, sets),
        lists_hold(b, sets),
    ensures
        gram_lists(a) == gram_lists(b),
{
    assert forall|k: int| 0 <= k < a.len() implies gram_lists(a)[k] == gram_lists(b)[k] by {
        assert forall|g: u32| a[k]@.contains(g) <==> b[k]@.contains(g) by {
            assert(a[k]@.contains(g) <==> sets[k].contains(g));
            assert(b[k]@.contains(g) <==> sets[k].contains(g));
        }
        crate::prefilter::law_sorted_lists_agree(a[k]@, b[k]@);
    }
    assert(gram_lists(a) =~= gram_lists(b));
}

/// The reply for a part of the tree holds the hits of the reply for the whole tree whose
/// files lie in that part, and no others; for a path outside the tree it holds none.
pub proof fn law_subtree_reply_is_part_of_the_whole(
    idx: IndexView,
    sets: Option<Seq<Set<u32>>>,
    patterns: Seq<Seq<char>>,
    s: SubtreeView,
    part: Option<RankPlan>,
    part_root: Seq<char>,
    part_order: Seq<u32>,
    whole: Option<RankPlan>,
    whole_root: Seq<char>,
    whole_order: Seq<u32>,
    found: Seq<Seq<(u64, Seq<u8>)>>,
)
    requires
        plan_agrees(part, idx, sets, patterns, relative(s), part_root),
        plan_agrees(whole, idx, sets, patterns, None, whole_root),
        lists_searched(part_order, part, idx.files.len()),
        lists_searched(whole_order, whole, idx.files.len()),
    ensures
        hits_of(narrowed_order(part_order, idx, s), found) == hits_of(
            narrowed_order(whole_order, idx, SubtreeView::Whole),
            found,
        ).filter(|h: (u32, u64, Seq<u8>)| in_subtree(idx.files[h.0 as int], idx.root, s)),
        s is Outside ==> narrowed_order(part_order, idx, s).len() == 0,
{
    assert forall|id: u32| #[trigger] part_order.contains(id) <==> whole_order.contains(id) by {
        match (part, whole) {
            (Some(p), Some(w)) => {
                let a = choose|ors: Seq<Vec<u32>>| #[trigger]
                    lists_hold(ors, sets->Some_0) && is_plan(
                        p,
                        idx,
                        gram_lists(ors),
                        patterns,
                        relative(s),
                        part_root,
                    );
                let b = choose|ors: Seq<Vec<u32>>| #[trigger]
                    lists_hold(ors, sets->Some_0) && is_plan(w, idx, gram_lists(ors), patterns, None, whole_root);
                lemma_same_lists(a, b, sets->Some_0);
                assert(p.candidates@.contains(id) <==> is_candidate(idx.postings, gram_lists(a), id));
                assert(w.candidates@.contains(id) <==> is_candidate(idx.postings, gram_lists(b), id));
            },
            _ => {},
        }
    }
    let few = hits_of(narrowed_order(part_order, idx, s), found);
    let many = hits_of(narrowed_order(whole_order, idx, SubtreeView::Whole), found);
    let inside = |h: (u32, u64, Seq<u8>)| in_subtree(idx.files[h.0 as int], idx.root, s);
    assert forall|h: (u32, u64, Seq<u8>)| #[trigger] few.contains(h) <==> many.filter(inside).contains(h) by {
        lemma_narrowed(part_order, idx, s, h.0);
        lemma_narrowed(whole_order, idx, SubtreeView::Whole, h.0);
    }
    assert(few =~= many.filter(inside));
    if s is Outside {
        let kept = narrowed_order(part_order, idx, s);
        if kept.len() > 0 {
            lemma_narrowed(part_order, idx, s, kept[0]);
            assert(kept.contains(kept[0]));
        }
    }
}

} // verus!
