//! Ranking: candidate files of a query and their order.
//!
//! A file is a candidate when, for some alternative of the query, it holds every
//! trigram of that alternative, or when its trigrams are not known. Its score sums a weight per trigram occurrence and
//! adds a bonus for its path, minus its depth. The sums themselves are made outside;
//! this module decides what is summed and how files and hits are ordered by it.
//! Scores are ordered through keys: unsigned numbers that are larger where the score
//! is better.

use crate::index::{ids_in_range, list_of, lists_sorted, Index, IndexView, UNREAD_GRAM};
use crate::order::{comes_before, is_stable_order, law_stable_order_is_permutation, stable_order};
use crate::paths::{component_count, components, daemon_rank_path, rank_path};
use crate::prefilter::{in_all, intersect_all, strictly_sorted, union_sorted_into};
use crate::text::{contains_text, text_at, text_contains, views};
use vstd::prelude::*;

verus! {

broadcast use vstd::std_specs::hash::group_hash_axioms;

/// The lists that a vector of vectors holds.
pub open spec fn gram_lists(ors: Seq<Vec<u32>>) -> Seq<Seq<u32>> {
    Seq::new(ors.len(), |k: int| ors[k]@)
}

/// The file holds every trigram of the alternative, which has at least one.
pub open spec fn holds_all(postings: Map<u32, Seq<u32>>, ands: Seq<u32>, id: u32) -> bool {
    ands.len() > 0 && forall|k: int| 0 <= k < ands.len() ==> list_of(postings, #[trigger] ands[k]).contains(id)
}

/// The file holds every trigram of some alternative, or its trigrams are not known.
pub open spec fn is_candidate(postings: Map<u32, Seq<u32>>, ors: Seq<Seq<u32>>, id: u32) -> bool {
    ||| list_of(postings, UNREAD_GRAM).contains(id)
    ||| exists|b: int| 0 <= b < ors.len() && holds_all(postings, #[trigger] ors[b], id)
}

/// The trigrams of an alternative up to the first that no file holds.
pub open spec fn known_grams(postings: Map<u32, Seq<u32>>, ands: Seq<u32>) -> Seq<u32>
    decreases ands.len(),
{
    if ands.len() == 0 || !postings.contains_key(ands[0]) {
        Seq::empty()
    } else {
        seq![ands[0]] + known_grams(postings, ands.drop_first())
    }
}

/// The trigram occurrences that are weighed, in query order.
pub open spec fn weighed_grams(postings: Map<u32, Seq<u32>>, ors: Seq<Seq<u32>>) -> Seq<u32>
    decreases ors.len(),
{
    if ors.len() == 0 {
        Seq::empty()
    } else {
        weighed_grams(postings, ors.drop_last()) + known_grams(postings, ors.last())
    }
}

/// The positions of `occ` whose trigram the file holds, ascending.
pub open spec fn weighed_for(postings: Map<u32, Seq<u32>>, occ: Seq<u32>, id: u32) -> Seq<usize>
    decreases occ.len(),
{
    if occ.len() == 0 {
        Seq::empty()
    } else {
        let front = weighed_for(postings, occ.drop_last(), id);
        if list_of(postings, occ.last()).contains(id) {
            front.push((occ.len() - 1) as usize)
        } else {
            front
        }
    }
}

/// Some pattern occurs in the path.
pub open spec fn path_earns_bonus(path: Seq<char>, patterns: Seq<Seq<char>>) -> bool {
    exists|k: int| 0 <= k < patterns.len() && text_contains(path, #[trigger] patterns[k])
}

/// What the score of one candidate is made of.
pub struct ScoreParts {
    /// Positions in `RankPlan::weighed` whose weights are summed, in this order.
    pub weighed: Vec<usize>,
    /// Whether the path earns the bonus.
    pub bonus: bool,
    /// Number of path components, taken off the score.
    pub depth: usize,
}

/// The candidates of a query and what their scores are made of.
pub struct RankPlan {
    /// Weighed trigram occurrences: the trigram and the number of files that hold it.
    pub weighed: Vec<(u32, usize)>,
    /// Candidate ids, ascending.
    pub candidates: Vec<u32>,
    /// Per candidate, what its score is made of.
    pub parts: Vec<ScoreParts>,
}

/// The trigrams of the weighed occurrences.
pub open spec fn occurrence_grams(weighed: Seq<(u32, usize)>) -> Seq<u32> {
    Seq::new(weighed.len(), |k: int| weighed[k].0)
}

/// The parts are those of the file `id`.
pub open spec fn parts_of(
    parts: ScoreParts,
    idx: IndexView,
    occ: Seq<u32>,
    id: u32,
    patterns: Seq<Seq<char>>,
    qrel: Option<Seq<char>>,
    display_root: Seq<char>,
) -> bool {
    let path = rank_path(idx.files[id as int], idx.root, qrel, display_root);
    &&& parts.weighed@ == weighed_for(idx.postings, occ, id)
    &&& parts.bonus == path_earns_bonus(path, patterns)
    &&& parts.depth == components(path).len()
}

/// The plan of a query.
pub open spec fn is_plan(
    plan: RankPlan,
    idx: IndexView,
    ors: Seq<Seq<u32>>,
    patterns: Seq<Seq<char>>,
    qrel: Option<Seq<char>>,
    display_root: Seq<char>,
) -> bool {
    let occ = weighed_grams(idx.postings, ors);
    &&& occurrence_grams(plan.weighed@) == occ
    &&& forall|k: int|
        0 <= k < plan.weighed@.len() ==> (#[trigger] plan.weighed@[k]).1 == idx.postings[plan.weighed@[k].0].len()
    &&& strictly_sorted(plan.candidates@)
    &&& forall|id: u32| #[trigger] plan.candidates@.contains(id) <==> is_candidate(idx.postings, ors, id)
    &&& plan.parts@.len() == plan.candidates@.len()
    &&& forall|k: int|
        0 <= k < plan.parts@.len() ==> parts_of(
            #[trigger] plan.parts@[k],
            idx,
            occ,
            plan.candidates@[k],
            patterns,
            qrel,
            display_root,
        )
}

/// Every candidate names a file.
proof fn lemma_candidate_in_range(idx: IndexView, ors: Seq<Seq<u32>>, id: u32)
    requires
        ids_in_range(idx.postings, idx.files.len()),
        is_candidate(idx.postings, ors, id),
    ensures
        id < idx.files.len(),
{
    let g = if list_of(idx.postings, UNREAD_GRAM).contains(id) {
        UNREAD_GRAM
    } else {
        let b = choose|b: int| 0 <= b < ors.len() && holds_all(idx.postings, #[trigger] ors[b], id);
        ors[b][0]
    };
    assert(list_of(idx.postings, g).contains(id));
    let k = choose|k: int| 0 <= k < idx.postings[g].len() && idx.postings[g][k] == id;
    assert(idx.postings[g][k] < idx.files.len());
}

/// The posting lists of the known trigrams of an alternative.
fn known_lists<'a>(idx: &'a Index, ands: &[u32]) -> (lists: Vec<&'a [u32]>)
    ensures
        lists@.len() == known_grams(idx@.postings, ands@).len(),
        lists@.len() <= ands@.len(),
        forall|k: int| 0 <= k < lists@.len() ==> known_grams(idx@.postings, ands@)[k] == ands@[k],
        forall|k: int| 0 <= k < lists@.len() ==> idx@.postings.contains_key(#[trigger] ands@[k]),
        forall|k: int| 0 <= k < lists@.len() ==> (#[trigger] lists@[k])@ == idx@.postings[ands@[k]],
        lists@.len() < ands@.len() ==> !idx@.postings.contains_key(ands@[lists@.len() as int]),
{
    let mut lists: Vec<&'a [u32]> = Vec::new();
    let mut k: usize = 0;
    assert(ands@.skip(0) =~= ands@);
    while k < ands.len()
        invariant
            k <= ands@.len(),
            lists@.len() == k,
            known_grams(idx@.postings, ands@).len() == k + known_grams(idx@.postings, ands@.skip(k as int)).len(),
            forall|x: int| 0 <= x < k ==> known_grams(idx@.postings, ands@)[x] == ands@[x],
            forall|x: int|
                0 <= x < known_grams(idx@.postings, ands@.skip(k as int)).len() ==> known_grams(
                    idx@.postings,
                    ands@,
                )[k + x] == #[trigger] known_grams(idx@.postings, ands@.skip(k as int))[x],
            forall|x: int| 0 <= x < k ==> idx@.postings.contains_key(#[trigger] ands@[x]),
            forall|x: int| 0 <= x < k ==> (#[trigger] lists@[x])@ == idx@.postings[ands@[x]],
        decreases ands@.len() - k,
    {
        let ghost rest = ands@.skip(k as int);
        assert(rest[0] == ands@[k as int]);
        match idx.postings.get(&ands[k]) {
            None => {
                return lists;
            },
            Some(list) => {
                assert(idx@.postings.contains_key(ands@[k as int]));
                assert(list@ == idx@.postings[ands@[k as int]]);
                lists.push(list.as_slice());
                proof {
                    let next = ands@.skip(k + 1);
                    assert(rest.drop_first() =~= next);
                    let here = known_grams(idx@.postings, rest);
                    assert(here == seq![rest[0]] + known_grams(idx@.postings, next));
                    assert(here[0] == rest[0]);
                    assert forall|x: int| 0 <= x < known_grams(idx@.postings, next).len() implies known_grams(
                        idx@.postings,
                        ands@,
                    )[k + 1 + x] == #[trigger] known_grams(idx@.postings, next)[x] by {
                        assert(here[1 + x] == known_grams(idx@.postings, next)[x]);
                    }
                }
            },
        }
        k = k + 1;
    }
    lists
}

/// The files that hold every trigram of one alternative, ascending.
fn branch_candidates(idx: &Index, ands: &[u32]) -> (res: (Vec<u32>, usize))
    requires
        lists_sorted(idx@.postings),
    ensures
        strictly_sorted(res.0@),
        forall|id: u32| #[trigger] res.0@.contains(id) <==> holds_all(idx@.postings, ands@, id),
        res.1 == known_grams(idx@.postings, ands@).len() <= ands@.len(),
        forall|k: int| 0 <= k < res.1 ==> known_grams(idx@.postings, ands@)[k] == #[trigger] ands@[k],
        forall|k: int| 0 <= k < res.1 ==> idx@.postings.contains_key(#[trigger] ands@[k]),
{
    let mut lists: Vec<&[u32]> = known_lists(idx, ands);
    let ghost given = lists@;
    let known: usize = lists.len();
    if known < ands.len() || known == 0 {
        let none: Vec<u32> = Vec::new();
        proof {
            assert forall|id: u32| !holds_all(idx@.postings, ands@, id) by {
                if known < ands@.len() {
                    assert(!list_of(idx@.postings, ands@[known as int]).contains(id));
                }
            }
        }
        return (none, known);
    }
    proof {
        assert forall|k: int| 0 <= k < given.len() implies strictly_sorted((#[trigger] given[k])@) by {
            assert(idx@.postings.contains_key(ands@[k]));
            assert(strictly_sorted(idx@.postings[ands@[k]]));
        }
    }
    let all: Vec<u32> = intersect_all(&mut lists);
    proof {
        assert forall|id: u32| #[trigger] all@.contains(id) <==> holds_all(idx@.postings, ands@, id) by {
            if in_all(given, id) {
                assert forall|k: int| 0 <= k < ands@.len() implies list_of(
                    idx@.postings,
                    #[trigger] ands@[k],
                ).contains(id) by {
                    assert(given[k]@.contains(id));
                }
            }
            if holds_all(idx@.postings, ands@, id) {
                assert forall|k: int| 0 <= k < given.len() implies (#[trigger] given[k])@.contains(id) by {
                    assert(list_of(idx@.postings, ands@[k]).contains(id));
                }
            }
        }
    }
    (all, known)
}

/// The files whose trigrams are not known, ascending.
fn unread_files(idx: &Index) -> (ids: Vec<u32>)
    ensures
        ids@ == list_of(idx@.postings, UNREAD_GRAM),
{
    let mut ids: Vec<u32> = Vec::new();
    match idx.postings.get(&UNREAD_GRAM) {
        None => {
            assert(ids@ =~= Seq::empty());
        },
        Some(list) => {
            assert(idx@.postings.contains_key(UNREAD_GRAM));
            ids.extend_from_slice(list.as_slice());
            assert(ids@ =~= list@);
        },
    }
    ids
}

/// Whether a sorted list holds `id`.
fn list_contains(list: &[u32], id: u32) -> (b: bool)
    requires
        strictly_sorted(list@),
    ensures
        b == list@.contains(id),
{
    let mut lo: usize = 0;
    let mut hi: usize = list.len();
    while lo < hi
        invariant
            lo <= hi <= list@.len(),
            strictly_sorted(list@),
            forall|k: int| 0 <= k < lo ==> list@[k] < id,
            forall|k: int| hi <= k < list@.len() ==> list@[k] > id,
        decreases hi - lo,
    {
        let mid: usize = lo + (hi - lo) / 2;
        if list[mid] == id {
            return true;
        }
        if list[mid] < id {
            lo = mid + 1;
        } else {
            hi = mid;
        }
    }
    false
}

/// The positions of the weighed trigrams that the file holds.
fn weighed_positions(idx: &Index, weighed: &[(u32, usize)], id: u32) -> (out: Vec<usize>)
    requires
        lists_sorted(idx@.postings),
    ensures
        out@ == weighed_for(idx@.postings, occurrence_grams(weighed@), id),
{
    let mut out: Vec<usize> = Vec::new();
    let mut k: usize = 0;
    while k < weighed.len()
        invariant
            k <= weighed@.len(),
            lists_sorted(idx@.postings),
            out@ == weighed_for(idx@.postings, occurrence_grams(weighed@).take(k as int), id),
        decreases weighed@.len() - k,
    {
        let ghost occ = occurrence_grams(weighed@);
        proof {
            assert(occ.take(k + 1).drop_last() =~= occ.take(k as int));
            assert(occ.take(k + 1).last() == weighed@[k as int].0);
        }
        let g: u32 = weighed[k].0;
        match idx.postings.get(&g) {
            None => {},
            Some(list) => {
                assert(idx@.postings.contains_key(g));
                assert(list@ == idx@.postings[g]);
                if list_contains(list, id) {
                    out.push(k);
                }
            },
        }
        k = k + 1;
    }
    assert(occurrence_grams(weighed@).take(k as int) =~= occurrence_grams(weighed@));
    out
}

/// Whether some pattern occurs in the path.
pub fn path_bonus(path: &str, patterns: &[String]) -> (b: bool)
    ensures
        b == path_earns_bonus(path@, views(patterns@)),
{
    let mut k: usize = 0;
    while k < patterns.len()
        invariant
            k <= patterns@.len(),
            forall|x: int| 0 <= x < k ==> !text_contains(path@, #[trigger] views(patterns@)[x]),
        decreases patterns@.len() - k,
    {
        assert(views(patterns@)[k as int] == patterns@[k as int]@);
        if contains_text(path, patterns[k].as_str()) {
            return true;
        }
        k = k + 1;
    }
    false
}

/// A subtree as a sequence of characters.
pub open spec fn subtree_view(qrel: Option<&str>) -> Option<Seq<char>> {
    match qrel {
        Some(q) => Some(q@),
        None => None,
    }
}

/// The candidates of a query on the whole index, and what their scores are made of.
pub fn rank_ors(idx: &Index, ors: &[Vec<u32>], patterns: &[String]) -> (plan: RankPlan)
    requires
        lists_sorted(idx@.postings),
        ids_in_range(idx@.postings, idx@.files.len()),
    ensures
        is_plan(plan, idx@, gram_lists(ors@), views(patterns@), None, Seq::empty()),
{
    proof {
        reveal_strlit("");
    }
    let whole: &str = "";
    assert(whole@ =~= Seq::empty());
    rank_ors_rooted(idx, ors, patterns, None, whole)
}

/// The candidates of a query and what their scores are made of; paths are judged as
/// a scan of the queried subtree shows them.
pub fn rank_ors_rooted(
    idx: &Index,
    ors: &[Vec<u32>],
    patterns: &[String],
    qrel: Option<&str>,
    display_root: &str,
) -> (plan: RankPlan)
    requires
        lists_sorted(idx@.postings),
        ids_in_range(idx@.postings, idx@.files.len()),
    ensures
        is_plan(plan, idx@, gram_lists(ors@), views(patterns@), subtree_view(qrel), display_root@),
{
    let mut weighed: Vec<(u32, usize)> = Vec::new();
    let mut cand: Vec<u32> = unread_files(idx);
    let mut tmp: Vec<u32> = Vec::new();
    let ghost alts = gram_lists(ors@);
    let mut b: usize = 0;
    assert(occurrence_grams(weighed@) =~= Seq::empty());
    while b < ors.len()
        invariant
            b <= ors@.len(),
            alts == gram_lists(ors@),
            lists_sorted(idx@.postings),
            strictly_sorted(cand@),
            forall|id: u32| #[trigger] cand@.contains(id) <==> is_candidate(idx@.postings, alts.take(b as int), id),
            occurrence_grams(weighed@) == weighed_grams(idx@.postings, alts.take(b as int)),
            forall|k: int|
                0 <= k < weighed@.len() ==> (#[trigger] weighed@[k]).1 == idx@.postings[weighed@[k].0].len(),
        decreases ors@.len() - b,
    {
        let ghost done = alts.take(b as int);
        let ghost more = alts.take(b + 1);
        let ands: &Vec<u32> = &ors[b];
        proof {
            assert(alts[b as int] == ands@);
            assert(more.drop_last() =~= done);
            assert(more.last() == ands@);
        }
        let (branch, known) = branch_candidates(idx, ands);
        let ghost had = occurrence_grams(weighed@);
        let mut k: usize = 0;
        while k < known
            invariant
                k <= known <= ands@.len(),
                known == known_grams(idx@.postings, ands@).len(),
                forall|x: int| 0 <= x < known ==> known_grams(idx@.postings, ands@)[x] == #[trigger] ands@[x],
                forall|x: int| 0 <= x < known ==> idx@.postings.contains_key(#[trigger] ands@[x]),
                occurrence_grams(weighed@) == had + known_grams(idx@.postings, ands@).take(k as int),
                forall|x: int|
                    0 <= x < weighed@.len() ==> (#[trigger] weighed@[x]).1 == idx@.postings[weighed@[x].0].len(),
            decreases known - k,
        {
            let g: u32 = ands[k];
            assert(idx@.postings.contains_key(g));
            if let Some(list) = idx.postings.get(&g) {
                assert(list@ == idx@.postings[g]);
                let ghost before = occurrence_grams(weighed@);
                weighed.push((g, list.len()));
                assert(occurrence_grams(weighed@) =~= before.push(g));
            }
            k = k + 1;
            assert(occurrence_grams(weighed@) =~= had + known_grams(idx@.postings, ands@).take(k as int));
        }
        assert(known_grams(idx@.postings, ands@).take(k as int) =~= known_grams(idx@.postings, ands@));
        let ghost before = cand@;
        union_sorted_into(&cand, &branch, &mut tmp);
        std::mem::swap(&mut cand, &mut tmp);
        proof {
            assert forall|id: u32| #[trigger] cand@.contains(id) <==> is_candidate(idx@.postings, more, id) by {
                let unread = list_of(idx@.postings, UNREAD_GRAM).contains(id);
                if before.contains(id) && !unread {
                    let x = choose|x: int| 0 <= x < done.len() && holds_all(idx@.postings, #[trigger] done[x], id);
                    assert(more[x] == done[x]);
                }
                if branch@.contains(id) {
                    assert(holds_all(idx@.postings, more[b as int], id));
                }
                if is_candidate(idx@.postings, more, id) && !unread {
                    let x = choose|x: int| 0 <= x < more.len() && holds_all(idx@.postings, #[trigger] more[x], id);
                    if x < b {
                        assert(done[x] == more[x]);
                        assert(is_candidate(idx@.postings, done, id));
                    }
                }
            }
        }
        b = b + 1;
    }
    assert(alts.take(b as int) =~= alts);
    let mut parts: Vec<ScoreParts> = Vec::new();
    let ghost occ = weighed_grams(idx@.postings, alts);
    let mut c: usize = 0;
    while c < cand.len()
        invariant
            c <= cand@.len(),
            lists_sorted(idx@.postings),
            ids_in_range(idx@.postings, idx@.files.len()),
            forall|id: u32| #[trigger] cand@.contains(id) <==> is_candidate(idx@.postings, alts, id),
            occurrence_grams(weighed@) == occ,
            parts@.len() == c,
            forall|k: int|
                0 <= k < c ==> parts_of(
                    #[trigger] parts@[k],
                    idx@,
                    occ,
                    cand@[k],
                    views(patterns@),
                    subtree_view(qrel),
                    display_root@,
                ),
        decreases cand@.len() - c,
    {
        let id: u32 = cand[c];
        proof {
            assert(cand@.contains(id));
            lemma_candidate_in_range(idx@, alts, id);
            assert(idx@.files[id as int] == idx.files@[id as int]@);
        }
        let path: String = daemon_rank_path(idx.files[id as usize].as_str(), idx.root.as_str(), qrel, display_root);
        let one: ScoreParts = ScoreParts {
            weighed: weighed_positions(idx, &weighed, id),
            bonus: path_bonus(path.as_str(), patterns),
            depth: component_count(path.as_str()),
        };
        parts.push(one);
        c = c + 1;
    }
    RankPlan { weighed, candidates: cand, parts }
}

/// Keys turned round, so that the best comes first in ascending order.
pub open spec fn turned(keys: Seq<u64>) -> Seq<u64> {
    Seq::new(keys.len(), |k: int| (u64::MAX - keys[k]) as u64)
}

/// `ord` lists all positions by descending key, ties in position order.
pub open spec fn is_best_first(keys: Seq<u64>, ord: Seq<usize>) -> bool {
    is_stable_order(turned(keys), ord)
}

/// Positions by descending key, ties in position order.
pub fn raw_order(keys: &[u64]) -> (ord: Vec<usize>)
    ensures
        is_best_first(keys@, ord@),
{
    let mut flipped: Vec<u64> = Vec::new();
    let mut k: usize = 0;
    while k < keys.len()
        invariant
            k <= keys@.len(),
            flipped@ == turned(keys@).take(k as int),
        decreases keys@.len() - k,
    {
        flipped.push(u64::MAX - keys[k]);
        k = k + 1;
        assert(flipped@ =~= turned(keys@).take(k as int));
    }
    assert(flipped@ =~= turned(keys@));
    stable_order(&flipped)
}

/// Candidates by descending key of their score, ties by ascending id.
pub fn order_candidates(candidates: &[u32], keys: &[u64]) -> (order: Vec<u32>)
    requires
        candidates@.len() == keys@.len(),
    ensures
        exists|ord: Seq<usize>|
            is_best_first(keys@, ord) && order@ == Seq::new(ord.len(), |k: int| candidates@[ord[k] as int]),
        forall|id: u32| #[trigger] order@.contains(id) <==> candidates@.contains(id),
{
    let ord: Vec<usize> = raw_order(keys);
    let ghost want = Seq::new(ord@.len(), |k: int| candidates@[ord@[k] as int]);
    let mut order: Vec<u32> = Vec::new();
    let mut k: usize = 0;
    while k < ord.len()
        invariant
            k <= ord@.len(),
            candidates@.len() == keys@.len(),
            is_best_first(keys@, ord@),
            want == Seq::new(ord@.len(), |k: int| candidates@[ord@[k] as int]),
            order@ == want.take(k as int),
        decreases ord@.len() - k,
    {
        assert(ord@[k as int] < turned(keys@).len());
        order.push(candidates[ord[k]]);
        k = k + 1;
        assert(order@ =~= want.take(k as int));
    }
    assert(order@ =~= want);
    proof {
        law_stable_order_is_permutation(turned(keys@), ord@);
        assert forall|id: u32| #[trigger] order@.contains(id) <==> candidates@.contains(id) by {
            if order@.contains(id) {
                let x = choose|x: int| 0 <= x < order@.len() && order@[x] == id;
                assert(candidates@[ord@[x] as int] == id);
            }
            if candidates@.contains(id) {
                let x = choose|x: int| 0 <= x < candidates@.len() && candidates@[x] == id;
                assert(ord@.contains(x as usize));
                let y = choose|y: int| 0 <= y < ord@.len() && ord@[y] == x as usize;
                assert(order@[y] == id);
            }
        }
    }
    order
}

/// `ord` lists positions by descending key, ties in position order, cut off after the
/// best `top`.
pub open spec fn is_top_order(keys: Seq<u64>, top: Option<usize>, ord: Seq<usize>) -> bool {
    exists|all: Seq<usize>| #[trigger]
        is_best_first(keys, all) && ord == (match top {
            Some(n) => if n < all.len() {
                all.take(n as int)
            } else {
                all
            },
            None => all,
        })
}

/// Positions by descending key, ties in position order, cut off after the best `top`.
pub fn top_order(keys: &[u64], top: Option<usize>) -> (ord: Vec<usize>)
    ensures
        is_top_order(keys@, top, ord@),
{
    let all: Vec<usize> = raw_order(keys);
    match top {
        None => {
            assert(is_best_first(keys@, all@));
            all
        },
        Some(n) => {
            let mut ord: Vec<usize> = all;
            let ghost full = ord@;
            if n < ord.len() {
                ord.truncate(n);
                assert(ord@ =~= full.take(n as int));
            }
            assert(is_best_first(keys@, full));
            ord
        },
    }
}

/// What the score of a scanned file is made of: no trigram is weighed.
pub fn scan_parts(path: &str, patterns: &[String]) -> (parts: ScoreParts)
    ensures
        parts.weighed@ == Seq::<usize>::empty(),
        parts.bonus == path_earns_bonus(path@, views(patterns@)),
        parts.depth == components(path@).len(),
{
    let weighed: Vec<usize> = Vec::new();
    assert(weighed@ =~= Seq::empty());
    ScoreParts { weighed, bonus: path_bonus(path, patterns), depth: component_count(path) }
}

// ---- what a score is made of ----

/// The positions that count for a file are those whose trigram the file holds, each once
/// and ascending.
pub proof fn law_held_trigrams_are_weighed(postings: Map<u32, Seq<u32>>, occ: Seq<u32>, id: u32)
    requires
        occ.len() <= usize::MAX,
    ensures
        forall|k: usize| #[trigger]
            weighed_for(postings, occ, id).contains(k) <==> k < occ.len() && postings.contains_key(occ[k as int])
                && postings[occ[k as int]].contains(id),
        forall|i: int, j: int|
            0 <= i < j < weighed_for(postings, occ, id).len() ==> weighed_for(postings, occ, id)[i] < weighed_for(
                postings,
                occ,
                id,
            )[j],
    decreases occ.len(),
{
    let all = weighed_for(postings, occ, id);
    if occ.len() > 0 {
        let front = weighed_for(postings, occ.drop_last(), id);
        let last = (occ.len() - 1) as usize;
        law_held_trigrams_are_weighed(postings, occ.drop_last(), id);
        assert forall|k: usize| #[trigger] all.contains(k) <==> k < occ.len() && postings.contains_key(
            occ[k as int],
        ) && postings[occ[k as int]].contains(id) by {
            if all.contains(k) {
                let i = choose|i: int| 0 <= i < all.len() && all[i] == k;
                if i < front.len() {
                    assert(front[i] == k);
                    assert(front.contains(k));
                }
            }
            if front.contains(k) {
                let i = choose|i: int| 0 <= i < front.len() && front[i] == k;
                assert(all[i] == k);
                assert(occ.drop_last()[k as int] == occ[k as int]);
            }
            if k < occ.len() && postings.contains_key(occ[k as int]) && postings[occ[k as int]].contains(id) {
                if k < last {
                    assert(occ.drop_last()[k as int] == occ[k as int]);
                    assert(front.contains(k));
                } else {
                    assert(all[front.len() as int] == k);
                }
            }
        }
        assert forall|i: int, j: int| 0 <= i < j < all.len() implies all[i] < all[j] by {
            assert(all[i] == front[i]);
            assert(front.contains(front[i]));
            if j < front.len() {
                assert(all[j] == front[j]);
            }
        }
    }
}

/// The occurrences that one alternative adds are its own trigrams, in their order, up to
/// the first that no file holds; and alternatives add theirs one after the other. So an
/// alternative whose trigrams all occur somewhere adds every one of them.
pub proof fn law_alternatives_add_their_trigrams(
    postings: Map<u32, Seq<u32>>,
    front: Seq<Seq<u32>>,
    ands: Seq<u32>,
) -> (n: int)
    ensures
        0 <= n <= ands.len(),
        weighed_grams(postings, front.push(ands)) == weighed_grams(postings, front) + ands.take(n),
        forall|k: int| 0 <= k < n ==> postings.contains_key(#[trigger] ands[k]),
        n < ands.len() ==> !postings.contains_key(ands[n]),
        weighed_grams(postings, Seq::empty()).len() == 0,
{
    let n = lemma_known_prefix(postings, ands);
    assert(front.push(ands).drop_last() =~= front);
    n
}

/// The known trigrams are the front of an alternative.
proof fn lemma_known_prefix(postings: Map<u32, Seq<u32>>, ands: Seq<u32>) -> (n: int)
    ensures
        0 <= n <= ands.len(),
        known_grams(postings, ands) == ands.take(n),
        forall|k: int| 0 <= k < n ==> postings.contains_key(#[trigger] ands[k]),
        n < ands.len() ==> !postings.contains_key(ands[n]),
    decreases ands.len(),
{
    if ands.len() == 0 || !postings.contains_key(ands[0]) {
        assert(ands.take(0) =~= Seq::empty());
        0
    } else {
        let rest = ands.drop_first();
        let m = lemma_known_prefix(postings, rest);
        assert(known_grams(postings, ands) =~= ands.take(m + 1));
        assert forall|k: int| 0 <= k < m + 1 implies postings.contains_key(#[trigger] ands[k]) by {
            if k > 0 {
                assert(rest[k - 1] == ands[k]);
            }
        }
        if m + 1 < ands.len() {
            assert(rest[m] == ands[m + 1]);
        }
        m + 1
    }
}

/// Every candidate of a plan is a file that holds all trigrams of some alternative, or
/// whose trigrams are not known, and every such file is a candidate, once and in order of
/// its id. Its score sums the weights of exactly the weighed trigrams that it holds, each
/// occurrence once; the weight of one goes by the number of files that hold it. It earns
/// the bonus exactly if some pattern stands somewhere in its path.
pub proof fn law_plan_sums_every_held_trigram(
    plan: RankPlan,
    idx: IndexView,
    ors: Seq<Seq<u32>>,
    patterns: Seq<Seq<char>>,
    qrel: Option<Seq<char>>,
    display_root: Seq<char>,
    path: Seq<char>,
    c: int,
    k: usize,
)
    requires
        is_plan(plan, idx, ors, patterns, qrel, display_root),
        0 <= c < plan.candidates@.len(),
        path == rank_path(idx.files[plan.candidates@[c] as int], idx.root, qrel, display_root),
    ensures
        plan.parts@.len() == plan.candidates@.len(),
        forall|i: int, j: int| 0 <= i < j < plan.candidates@.len() ==> plan.candidates@[i] < plan.candidates@[j],
        forall|id: u32| #[trigger]
            plan.candidates@.contains(id) <==> (idx.postings.contains_key(16777216u32) && idx.postings[16777216u32].contains(
                id,
            )) || exists|b: int|
                0 <= b < ors.len() && (#[trigger] ors[b]).len() > 0 && forall|x: int|
                    0 <= x < ors[b].len() ==> idx.postings.contains_key(#[trigger] ors[b][x])
                        && idx.postings[ors[b][x]].contains(id),
        plan.parts@[c].weighed@.contains(k) <==> k < plan.weighed@.len() && idx.postings.contains_key(
            plan.weighed@[k as int].0,
        ) && idx.postings[plan.weighed@[k as int].0].contains(plan.candidates@[c]),
        forall|i: int, j: int|
            0 <= i < j < plan.parts@[c].weighed@.len() ==> plan.parts@[c].weighed@[i] < plan.parts@[c].weighed@[j],
        k < plan.weighed@.len() ==> plan.weighed@[k as int].1 == idx.postings[plan.weighed@[k as int].0].len(),
        plan.parts@[c].bonus <==> exists|p: int, i: int|
            #![trigger patterns[p], path.subrange(i, i + patterns[p].len())]
            0 <= p < patterns.len() && 0 <= i && i + patterns[p].len() <= path.len() && path.subrange(
                i,
                i + patterns[p].len(),
            ) == patterns[p],
        plan.parts@[c].depth == components(path).len(),
        qrel is None ==> path == idx.files[plan.candidates@[c] as int],
{
    let occ = weighed_grams(idx.postings, ors);
    let id = plan.candidates@[c];
    assert(parts_of(plan.parts@[c], idx, occ, id, patterns, qrel, display_root));
    assert(plan.weighed.len() == plan.weighed@.len() == occ.len());
    law_held_trigrams_are_weighed(idx.postings, occ, id);
    if k < plan.weighed@.len() {
        assert(occurrence_grams(plan.weighed@)[k as int] == plan.weighed@[k as int].0);
    }
    assert forall|id: u32| #[trigger] plan.candidates@.contains(id) <==> (idx.postings.contains_key(16777216u32)
        && idx.postings[16777216u32].contains(id)) || exists|b: int|
        0 <= b < ors.len() && (#[trigger] ors[b]).len() > 0 && forall|x: int|
            0 <= x < ors[b].len() ==> idx.postings.contains_key(#[trigger] ors[b][x]) && idx.postings[ors[b][x]].contains(
                id,
            ) by {
        lemma_holds_all_plainly(idx.postings, ors, id);
    }
    if plan.parts@[c].bonus {
        let p = choose|p: int| 0 <= p < patterns.len() && text_contains(path, #[trigger] patterns[p]);
        let i = choose|i: int| text_at(path, i, patterns[p]);
        assert(path.subrange(i, i + patterns[p].len()) == patterns[p]);
    }
    if exists|p: int, i: int|
        #![trigger patterns[p], path.subrange(i, i + patterns[p].len())]
        0 <= p < patterns.len() && 0 <= i && i + patterns[p].len() <= path.len() && path.subrange(
            i,
            i + patterns[p].len(),
        ) == patterns[p] {
        let (p, i) = choose|p: int, i: int|
            #![trigger patterns[p], path.subrange(i, i + patterns[p].len())]
            0 <= p < patterns.len() && 0 <= i && i + patterns[p].len() <= path.len() && path.subrange(
                i,
                i + patterns[p].len(),
            ) == patterns[p];
        assert(text_at(path, i, patterns[p]));
        assert(text_contains(path, patterns[p]));
    }
}

/// A candidate in plain words.
proof fn lemma_holds_all_plainly(postings: Map<u32, Seq<u32>>, ors: Seq<Seq<u32>>, id: u32)
    ensures
        is_candidate(postings, ors, id) <==> (postings.contains_key(16777216u32) && postings[16777216u32].contains(id))
            || exists|b: int|
            0 <= b < ors.len() && (#[trigger] ors[b]).len() > 0 && forall|x: int|
                0 <= x < ors[b].len() ==> postings.contains_key(#[trigger] ors[b][x]) && postings[ors[b][x]].contains(
                    id,
                ),
{
    assert forall|b: int| 0 <= b < ors.len() implies (holds_all(postings, #[trigger] ors[b], id) <==> ors[b].len() > 0
        && forall|x: int|
        0 <= x < ors[b].len() ==> postings.contains_key(#[trigger] ors[b][x]) && postings[ors[b][x]].contains(id)) by {
        if holds_all(postings, ors[b], id) {
            assert forall|x: int| 0 <= x < ors[b].len() implies postings.contains_key(#[trigger] ors[b][x])
                && postings[ors[b][x]].contains(id) by {
                assert(list_of(postings, ors[b][x]).contains(id));
            }
        }
    }
}

// ---- order ----

/// The order lists every position once, the better key first and, of equal keys, the
/// earlier position.
pub proof fn law_best_comes_first(keys: Seq<u64>, ord: Seq<usize>)
    requires
        keys.len() <= usize::MAX,
        is_best_first(keys, ord),
    ensures
        ord.len() == keys.len(),
        forall|p: usize| p < keys.len() <==> #[trigger] ord.contains(p),
        forall|i: int, j: int|
            0 <= i < j < ord.len() ==> keys[#[trigger] ord[i] as int] > keys[#[trigger] ord[j] as int] || (keys[ord[i] as int]
                == keys[ord[j] as int] && ord[i] < ord[j]),
{
    let t = turned(keys);
    law_stable_order_is_permutation(t, ord);
    assert forall|p: usize| p < keys.len() <==> #[trigger] ord.contains(p) by {
        if ord.contains(p) {
            let i = choose|i: int| 0 <= i < ord.len() && ord[i] == p;
            assert(ord[i] < t.len());
        }
    }
    assert forall|i: int, j: int| 0 <= i < j < ord.len() implies keys[#[trigger] ord[i] as int] > keys[
    #[trigger] ord[j] as int] || (keys[ord[i] as int] == keys[ord[j] as int] && ord[i] < ord[j]) by {
        assert(comes_before(t, ord[i] as int, ord[j] as int));
        assert(ord[i] < t.len() && ord[j] < t.len());
    }
}

/// A limit cuts the order off after so many positions: what is listed is in order, and
/// nothing that is left out is better than what is listed.
pub proof fn law_top_keeps_the_best(keys: Seq<u64>, top: Option<usize>, ord: Seq<usize>)
    requires
        keys.len() <= usize::MAX,
        is_top_order(keys, top, ord),
    ensures
        ord.len() == (if top is Some && top->Some_0 < keys.len() {
            top->Some_0 as nat
        } else {
            keys.len()
        }),
        forall|i: int| 0 <= i < ord.len() ==> (#[trigger] ord[i]) < keys.len(),
        forall|i: int, j: int|
            0 <= i < j < ord.len() ==> keys[#[trigger] ord[i] as int] > keys[#[trigger] ord[j] as int] || (keys[ord[i] as int]
                == keys[ord[j] as int] && ord[i] < ord[j]),
        forall|i: int, p: usize|
            0 <= i < ord.len() && p < keys.len() && !#[trigger] ord.contains(p) ==> keys[#[trigger] ord[i] as int]
                > keys[p as int] || (keys[ord[i] as int] == keys[p as int] && ord[i] < p),
{
    let all = choose|all: Seq<usize>| #[trigger]
        is_best_first(keys, all) && ord == (match top {
            Some(n) => if n < all.len() {
                all.take(n as int)
            } else {
                all
            },
            None => all,
        });
    law_best_comes_first(keys, all);
    assert forall|i: int| 0 <= i < ord.len() implies (#[trigger] ord[i]) < keys.len() by {
        assert(ord[i] == all[i]);
        assert(all.contains(all[i]));
    }
    assert forall|i: int, p: usize| 0 <= i < ord.len() && p < keys.len() && !#[trigger] ord.contains(p) implies keys[
    #[trigger] ord[i] as int] > keys[p as int] || (keys[ord[i] as int] == keys[p as int] && ord[i] < p) by {
        assert(all.contains(p));
        let j = choose|j: int| 0 <= j < all.len() && all[j] == p;
        if j < ord.len() {
            assert(ord[j] == p);
        }
        assert(ord[i] == all[i]);
    }
}

} // verus!
