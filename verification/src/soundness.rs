//! The index misses nothing: a file that a query can match is a candidate.

use crate::grams::{
    all_pattern_grams, branch_grams, branch_usable, branches, gram_at, has_gram, law_grams_of_part,
    law_runs_give_required_grams, lists_hold, pattern_grams, text_grams,
};
use crate::index::{grams_of_texts, list_of, posts_exactly, UNREAD_GRAM};
use crate::lines::has_utf16_mark;
use crate::rank::{gram_lists, holds_all, is_candidate};
use crate::shape::{can_match, can_match_some, holds_runs};
use vstd::prelude::*;
use vstd::utf8::encode_utf8;

verus! {

/// Where the alternatives of a pattern stand among those of all patterns.
proof fn lemma_alternative_position(patterns: Seq<Seq<char>>, fixed: bool, k: int, j: int) -> (i: int)
    requires
        all_pattern_grams(patterns, fixed) is Some,
        0 <= k < patterns.len(),
        pattern_grams(patterns[k], fixed) is Some ==> 0 <= j < pattern_grams(patterns[k], fixed)->Some_0.len(),
    ensures
        pattern_grams(patterns[k], fixed) is Some,
        0 <= i < all_pattern_grams(patterns, fixed)->Some_0.len(),
        all_pattern_grams(patterns, fixed)->Some_0[i] == pattern_grams(patterns[k], fixed)->Some_0[j],
    decreases patterns.len(),
{
    let front = patterns.drop_last();
    let a = all_pattern_grams(front, fixed)->Some_0;
    let b = pattern_grams(patterns.last(), fixed)->Some_0;
    assert(all_pattern_grams(patterns, fixed)->Some_0 == a + b);
    if k == patterns.len() - 1 {
        a.len() + j
    } else {
        assert(front[k] == patterns[k]);
        let i = lemma_alternative_position(front, fixed, k, j);
        assert((a + b)[i] == a[i]);
        i
    }
}

/// A file whose text holds what a match needs, or that is searched decoded, is a
/// candidate of the query on the index of the files.
pub proof fn law_index_misses_nothing(
    postings: Map<u32, Seq<u32>>,
    grams: Seq<Set<u32>>,
    texts: Seq<Seq<u8>>,
    patterns: Seq<Seq<char>>,
    fixed: bool,
    ors: Seq<Vec<u32>>,
    id: u32,
)
    requires
        posts_exactly(postings, grams),
        grams_of_texts(grams, texts),
        all_pattern_grams(patterns, fixed) is Some,
        lists_hold(ors, all_pattern_grams(patterns, fixed)->Some_0),
        id < texts.len(),
        can_match_some(patterns, fixed, texts[id as int]) || has_utf16_mark(texts[id as int]),
    ensures
        is_candidate(postings, gram_lists(ors), id),
{
    let text = texts[id as int];
    if has_utf16_mark(text) {
        assert(grams[id as int].contains(UNREAD_GRAM));
        assert(list_of(postings, UNREAD_GRAM).contains(id));
    } else {
        lemma_match_is_candidate(postings, grams, texts, patterns, fixed, ors, id);
    }
}

proof fn lemma_match_is_candidate(
    postings: Map<u32, Seq<u32>>,
    grams: Seq<Set<u32>>,
    texts: Seq<Seq<u8>>,
    patterns: Seq<Seq<char>>,
    fixed: bool,
    ors: Seq<Vec<u32>>,
    id: u32,
)
    requires
        posts_exactly(postings, grams),
        grams_of_texts(grams, texts),
        all_pattern_grams(patterns, fixed) is Some,
        lists_hold(ors, all_pattern_grams(patterns, fixed)->Some_0),
        id < texts.len(),
        can_match_some(patterns, fixed, texts[id as int]),
    ensures
        is_candidate(postings, gram_lists(ors), id),
{
    let text = texts[id as int];
    let sets = all_pattern_grams(patterns, fixed)->Some_0;
    let k = choose|k: int| 0 <= k < patterns.len() && can_match(#[trigger] patterns[k], fixed, text);
    let p = patterns[k];
    let j = if fixed {
        0
    } else {
        choose|b: int| 0 <= b < branches(p).len() && holds_runs(#[trigger] branches(p)[b], text)
    };
    let i = lemma_alternative_position(patterns, fixed, k, j);
    let need = pattern_grams(p, fixed)->Some_0[j];
    let ands = ors[i]@;
    assert forall|g: u32| need.contains(g) implies has_gram(text, g) by {
        if fixed {
            law_grams_of_part(encode_utf8(p), text, g);
        } else {
            law_runs_give_required_grams(branches(p)[j], text);
            assert(text_grams(text).contains(g));
        }
    }
    let some = if fixed {
        crate::grams::pack3(encode_utf8(p)[0], encode_utf8(p)[1], encode_utf8(p)[2])
    } else {
        choose|g: u32| branch_grams(branches(p)[j]).contains(g)
    };
    assert(need.contains(some)) by {
        if fixed {
            assert(gram_at(encode_utf8(p), 0, some));
        } else {
            assert(branch_usable(branches(p)[j]));
        }
    }
    assert(ors[i]@.contains(some) <==> sets[i].contains(some));
    assert(ands.contains(some));
    assert forall|x: int| 0 <= x < ands.len() implies list_of(postings, #[trigger] ands[x]).contains(id) by {
        let g = ands[x];
        assert(ors[i]@.contains(g));
        assert(sets[i].contains(g));
        assert(grams[id as int].contains(g));
        assert(list_of(postings, g).contains(id) <==> id < grams.len() && grams[id as int].contains(g));
    }
    assert(holds_all(postings, gram_lists(ors)[i], id));
}

/// A search of the candidates alone finds what a search of all files finds: a file has
/// lines to show only if it holds what a match needs or is searched decoded, as
/// `search_bytes` states of every query that is looked up by its trigrams.
pub proof fn law_indexed_search_equals_scan(
    postings: Map<u32, Seq<u32>>,
    grams: Seq<Set<u32>>,
    texts: Seq<Seq<u8>>,
    patterns: Seq<Seq<char>>,
    fixed: bool,
    ors: Seq<Vec<u32>>,
    found: Seq<Seq<(u64, Seq<u8>)>>,
)
    requires
        posts_exactly(postings, grams),
        grams_of_texts(grams, texts),
        all_pattern_grams(patterns, fixed) is Some,
        lists_hold(ors, all_pattern_grams(patterns, fixed)->Some_0),
        found.len() == texts.len(),
        forall|k: int|
            0 <= k < texts.len() && (#[trigger] found[k]).len() > 0 ==> can_match_some(patterns, fixed, texts[k])
                || has_utf16_mark(texts[k]),
    ensures
        Set::new(|id: u32| id < found.len() && found[id as int].len() > 0) == Set::new(
            |id: u32|
                is_candidate(postings, gram_lists(ors), id) && id < found.len() && found[id as int].len() > 0,
        ),
{
    assert forall|id: u32| id < found.len() && (#[trigger] found[id as int]).len() > 0 implies is_candidate(
        postings,
        gram_lists(ors),
        id,
    ) by {
        law_index_misses_nothing(postings, grams, texts, patterns, fixed, ors, id);
    }
    let all = Set::new(|id: u32| id < found.len() && found[id as int].len() > 0);
    let met = Set::new(
        |id: u32| is_candidate(postings, gram_lists(ors), id) && id < found.len() && found[id as int].len() > 0,
    );
    assert(all =~= met);
}

} // verus!
