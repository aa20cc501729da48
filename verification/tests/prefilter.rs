use nkgrep::order::{find_ordered, order_texts, sorted_unique, stable_order};
use nkgrep::prefilter::{intersect_all, intersect_sorted_into, union_sorted_into};
use std::collections::HashSet;

#[test]
fn merge_matches_hashset_model() {
    // Fixed adversarial cases: empty, disjoint, overlap, shared prefix.
    let cases: &[(&[u32], &[u32])] = &[
        (&[], &[]),
        (&[], &[1, 2]),
        (&[1, 2], &[]),
        (&[1, 3, 5], &[2, 4, 6]),
        (&[1, 2, 3], &[2, 3, 4]),
        (&[1, 2, 3, 4], &[1, 2, 3, 4]),
        (&[5], &[5]),
        (&[1, 100, 1000], &[2, 100, 999, 1000]),
    ];
    for (a, b) in cases {
        let mut inter = vec![];
        intersect_sorted_into(a, b, &mut inter);
        let set_a: HashSet<u32> = a.iter().cloned().collect();
        let set_b: HashSet<u32> = b.iter().cloned().collect();
        let mut model: Vec<u32> = set_a.intersection(&set_b).cloned().collect();
        model.sort_unstable();
        assert_eq!(inter, model, "intersect {a:?} {b:?}");
        let mut union = vec![];
        union_sorted_into(a, b, &mut union);
        let mut model: Vec<u32> = set_a.union(&set_b).cloned().collect();
        model.sort_unstable();
        assert_eq!(union, model, "union {a:?} {b:?}");
    }
}

#[test]
fn intersect_all_smallest_first_exact() {
    let l1 = vec![1u32, 2, 3, 4, 5];
    let l2 = vec![2u32, 4];
    let l3 = vec![2u32, 3, 4, 9];
    // Deliberately longest-first input; output must still be exact.
    let mut lists: Vec<&[u32]> = vec![&l1, &l3, &l2];
    assert_eq!(intersect_all(&mut lists), vec![2, 4]);
    let mut empty: Vec<&[u32]> = vec![];
    assert!(intersect_all(&mut empty).is_empty());
    let e = vec![];
    let mut with_empty: Vec<&[u32]> = vec![&l1, &e];
    assert!(intersect_all(&mut with_empty).is_empty());
}

#[test]
fn intersect_all_orders_lists_by_length() {
    let l1 = vec![1u32, 2, 3];
    let l2 = vec![2u32];
    let l3 = vec![1u32, 2];
    let l4 = vec![2u32, 3];
    let mut lists: Vec<&[u32]> = vec![&l1, &l3, &l2, &l4];
    assert_eq!(intersect_all(&mut lists), vec![2]);
    assert_eq!(lists, vec![&l2[..], &l3[..], &l4[..], &l1[..]]);
}

#[test]
fn merges_clear_what_was_there() {
    let mut out = vec![9u32, 8];
    intersect_sorted_into(&[1, 2], &[2], &mut out);
    assert_eq!(out, vec![2]);
    union_sorted_into(&[1], &[], &mut out);
    assert_eq!(out, vec![1]);
}

#[test]
fn stable_order_keeps_ties() {
    assert_eq!(stable_order(&[3, 1, 2, 1, 3, 0]), vec![5, 1, 3, 2, 0, 4]);
    assert!(stable_order(&[]).is_empty());
    assert_eq!(sorted_unique(&[5, 1, 5, 0, 1]), vec![0, 1, 5]);
}

#[test]
fn texts_order_by_bytes() {
    let v: Vec<String> = ["b", "a", "aa", "B", "\u{e9}", "a"].iter().map(|s| s.to_string()).collect();
    assert_eq!(order_texts(&v), vec![3, 1, 5, 2, 0, 4]);
}

#[test]
fn ordered_texts_are_found() {
    let v: Vec<String> = ["b", "a", "aa", "B", "a"].iter().map(|s| s.to_string()).collect();
    let ord = order_texts(&v);
    for s in ["b", "a", "aa", "B"] {
        assert!(find_ordered(&v, &ord, s), "{s}");
    }
    for s in ["", "A", "ab", "c"] {
        assert!(!find_ordered(&v, &ord, s), "{s}");
    }
}
