//! Set operations on sorted posting lists.
//!
//! A posting list holds ascending unique file ids, so union and intersection are
//! linear two-pointer merges over sparse id arrays: no hashing and no per-posting
//! allocation.

use crate::order::stable_order;
use vstd::prelude::*;

verus! {

/// The ids ascend and none occurs twice.
pub open spec fn strictly_sorted(s: Seq<u32>) -> bool {
    forall|i: int, j: int| 0 <= i < j < s.len() ==> s[i] < s[j]
}

/// `id` occurs in every list.
pub open spec fn in_all(lists: Seq<&[u32]>, id: u32) -> bool {
    forall|k: int| 0 <= k < lists.len() ==> (#[trigger] lists[k])@.contains(id)
}

/// The lengths of the lists, as ordering keys.
pub open spec fn lengths(lists: Seq<&[u32]>) -> Seq<u64> {
    Seq::new(lists.len(), |k: int| lists[k]@.len() as u64)
}

/// The lists of `lists` picked in the order `ord`.
pub open spec fn arranged(lists: Seq<&[u32]>, ord: Seq<usize>) -> Seq<&[u32]> {
    Seq::new(ord.len(), |k: int| lists[ord[k] as int])
}

/// A strictly sorted list is determined by the ids it holds.
pub proof fn law_sorted_lists_agree(a: Seq<u32>, b: Seq<u32>)
    requires
        strictly_sorted(a),
        strictly_sorted(b),
        forall|id: u32| a.contains(id) <==> b.contains(id),
    ensures
        a == b,
    decreases a.len(),
{
    if a.len() == 0 {
        if b.len() > 0 {
            assert(b.contains(b[0]));
            assert(a.contains(b[0]));
        }
        assert(a =~= b);
    } else {
        assert(a.contains(a.last()));
        assert(b.contains(a.last()));
        let p = choose|p: int| 0 <= p < b.len() && b[p] == a.last();
        assert(b.contains(b.last()));
        assert(a.contains(b.last()));
        let q = choose|q: int| 0 <= q < a.len() && a[q] == b.last();
        assert(p == b.len() - 1) by {
            if p < b.len() - 1 {
                assert(b[p] < b.last());
                if q < a.len() - 1 {
                    assert(a[q] < a.last());
                }
            }
        }
        let a0 = a.drop_last();
        let b0 = b.drop_last();
        assert forall|id: u32| a0.contains(id) <==> b0.contains(id) by {
            if a0.contains(id) {
                let i = choose|i: int| 0 <= i < a0.len() && a0[i] == id;
                assert(a[i] == id);
                assert(a.contains(id));
                assert(b.contains(id));
                let j = choose|j: int| 0 <= j < b.len() && b[j] == id;
                assert(a[i] < a.last());
                assert(b0[j] == id);
            }
            if b0.contains(id) {
                let j = choose|j: int| 0 <= j < b0.len() && b0[j] == id;
                assert(b[j] == id);
                assert(b.contains(id));
                assert(a.contains(id));
                let i = choose|i: int| 0 <= i < a.len() && a[i] == id;
                assert(b[j] < b.last());
                assert(a0[i] == id);
            }
        }
        law_sorted_lists_agree(a0, b0);
        assert(a =~= a0.push(a.last()));
        assert(b =~= b0.push(b.last()));
    }
}

/// Intersect two sorted id slices into `out` (cleared first).
pub fn intersect_sorted_into(a: &[u32], b: &[u32], out: &mut Vec<u32>)
    requires
        strictly_sorted(a@),
        strictly_sorted(b@),
    ensures
        strictly_sorted(final(out)@),
        forall|id: u32| #[trigger] final(out)@.contains(id) <==> a@.contains(id) && b@.contains(id),
{
    out.clear();
    let mut i: usize = 0;
    let mut j: usize = 0;
    while i < a.len() && j < b.len()
        invariant
            strictly_sorted(a@),
            strictly_sorted(b@),
            strictly_sorted(out@),
            i <= a@.len(),
            j <= b@.len(),
            forall|k: int| 0 <= k < out@.len() ==> a@.contains(#[trigger] out@[k]) && b@.contains(out@[k]),
            forall|k: int, p: int| 0 <= k < out@.len() && i <= p < a@.len() ==> #[trigger] out@[k] < #[trigger] a@[p],
            forall|p: int, q: int|
                0 <= p < a@.len() && 0 <= q < b@.len() && (p < i || q < j) && #[trigger] a@[p] == #[trigger] b@[q]
                    ==> out@.contains(a@[p]),
        decreases a@.len() - i + b@.len() - j,
    {
        let x: u32 = a[i];
        let y: u32 = b[j];
        let ghost before = out@;
        if x == y {
            out.push(x);
            proof {
                assert(out@[before.len() as int] == x);
                assert forall|id: u32| before.contains(id) implies out@.contains(id) by {
                    let k = choose|k: int| 0 <= k < before.len() && before[k] == id;
                    assert(out@[k] == id);
                }
            }
            i = i + 1;
            j = j + 1;
        } else if x < y {
            i = i + 1;
        } else {
            j = j + 1;
        }
    }
}

/// Union two sorted id slices into `out` (cleared first, each id once).
pub fn union_sorted_into(a: &[u32], b: &[u32], out: &mut Vec<u32>)
    requires
        strictly_sorted(a@),
        strictly_sorted(b@),
    ensures
        strictly_sorted(final(out)@),
        forall|id: u32| #[trigger] final(out)@.contains(id) <==> a@.contains(id) || b@.contains(id),
{
    out.clear();
    let mut i: usize = 0;
    let mut j: usize = 0;
    while i < a.len() || j < b.len()
        invariant
            strictly_sorted(a@),
            strictly_sorted(b@),
            strictly_sorted(out@),
            i <= a@.len(),
            j <= b@.len(),
            forall|k: int| 0 <= k < out@.len() ==> a@.contains(#[trigger] out@[k]) || b@.contains(out@[k]),
            forall|k: int, p: int| 0 <= k < out@.len() && i <= p < a@.len() ==> #[trigger] out@[k] < #[trigger] a@[p],
            forall|k: int, q: int| 0 <= k < out@.len() && j <= q < b@.len() ==> #[trigger] out@[k] < #[trigger] b@[q],
            forall|p: int| 0 <= p < i ==> out@.contains(#[trigger] a@[p]),
            forall|q: int| 0 <= q < j ==> out@.contains(#[trigger] b@[q]),
        decreases a@.len() - i + b@.len() - j,
    {
        let ghost before = out@;
        if j >= b.len() {
            out.push(a[i]);
            i = i + 1;
        } else if i >= a.len() {
            out.push(b[j]);
            j = j + 1;
        } else {
            let x: u32 = a[i];
            let y: u32 = b[j];
            if x == y {
                out.push(x);
                i = i + 1;
                j = j + 1;
            } else if x < y {
                out.push(x);
                i = i + 1;
            } else {
                out.push(y);
                j = j + 1;
            }
        }
        proof {
            assert(out@.contains(out@[before.len() as int]));
            assert forall|id: u32| before.contains(id) implies out@.contains(id) by {
                let k = choose|k: int| 0 <= k < before.len() && before[k] == id;
                assert(out@[k] == id);
            }
        }
    }
}

/// Intersect N sorted posting lists, smallest first; returns sorted unique ids.
/// Empty input or any empty list yields empty output. The lists are left in the
/// order in which they were taken: by length, equal lengths as they came.
pub fn intersect_all(lists: &mut Vec<&[u32]>) -> (acc: Vec<u32>)
    requires
        forall|k: int| 0 <= k < old(lists)@.len() ==> strictly_sorted((#[trigger] old(lists)@[k])@),
    ensures
        strictly_sorted(acc@),
        forall|id: u32| #[trigger] acc@.contains(id) <==> old(lists)@.len() > 0 && in_all(old(lists)@, id),
        exists|ord: Seq<usize>|
            crate::order::is_stable_order(lengths(old(lists)@), ord) && final(lists)@ == arranged(
                old(lists)@,
                ord,
            ),
{
    let ghost given = lists@;
    let mut lens: Vec<u64> = Vec::new();
    let mut n: usize = 0;
    while n < lists.len()
        invariant
            n <= lists@.len(),
            lists@ == given,
            lens@.len() == n,
            forall|k: int| 0 <= k < n ==> lens@[k] == lists@[k]@.len() as u64,
        decreases lists@.len() - n,
    {
        lens.push(lists[n].len() as u64);
        n = n + 1;
    }
    assert(lens@ =~= lengths(given));
    let ord: Vec<usize> = stable_order(&lens);
    proof {
        crate::order::law_stable_order_is_permutation(lens@, ord@);
    }
    let mut sorted: Vec<&[u32]> = Vec::new();
    let mut m: usize = 0;
    while m < ord.len()
        invariant
            m <= ord@.len(),
            lists@ == given,
            sorted@ == arranged(given, ord@.take(m as int)),
            forall|k: int| 0 <= k < ord@.len() ==> (#[trigger] ord@[k]) < given.len(),
        decreases ord@.len() - m,
    {
        sorted.push(lists[ord[m]]);
        m = m + 1;
        assert(sorted@ =~= arranged(given, ord@.take(m as int)));
    }
    assert(ord@.take(ord@.len() as int) =~= ord@);
    *lists = sorted;
    let mut acc: Vec<u32> = Vec::new();
    if lists.len() == 0 {
        return acc;
    }
    acc.extend_from_slice(lists[0]);
    assert(acc@ =~= lists@[0]@);
    let mut tmp: Vec<u32> = Vec::new();
    let mut k: usize = 1;
    proof {
        let first = lists@.take(1);
        assert forall|id: u32| #[trigger] acc@.contains(id) <==> in_all(first, id) by {
            assert(first[0] == lists@[0]);
            if in_all(first, id) {
                assert(first[0]@.contains(id));
            }
        }
    }
    while k < lists.len() && acc.len() > 0
        invariant
            1 <= k <= lists@.len(),
            strictly_sorted(acc@),
            forall|x: int| 0 <= x < lists@.len() ==> strictly_sorted((#[trigger] lists@[x])@),
            forall|id: u32| #[trigger] acc@.contains(id) <==> in_all(lists@.take(k as int), id),
        decreases lists@.len() - k,
    {
        intersect_sorted_into(&acc, lists[k], &mut tmp);
        proof {
            assert forall|id: u32| #[trigger] tmp@.contains(id) <==> in_all(lists@.take(k + 1), id) by {
                let now = lists@.take(k + 1);
                let was = lists@.take(k as int);
                if in_all(now, id) {
                    assert(now[k as int]@.contains(id));
                    assert forall|x: int| 0 <= x < was.len() implies (#[trigger] was[x])@.contains(id) by {
                        assert(now[x]@.contains(id));
                    }
                }
                if tmp@.contains(id) {
                    assert(acc@.contains(id));
                    assert forall|x: int| 0 <= x < now.len() implies (#[trigger] now[x])@.contains(id) by {
                        if x < k {
                            assert(was[x]@.contains(id));
                        }
                    }
                }
            }
        }
        std::mem::swap(&mut acc, &mut tmp);
        k = k + 1;
    }
    proof {
        assert forall|id: u32| #[trigger] acc@.contains(id) <==> in_all(given, id) by {
            let part = lists@.take(k as int);
            if acc@.contains(id) {
                assert(k == lists@.len());
                assert(in_all(part, id));
                assert forall|x: int| 0 <= x < given.len() implies (#[trigger] given[x])@.contains(id) by {
                    assert(ord@.contains(x as usize));
                    let y = choose|y: int| 0 <= y < ord@.len() && ord@[y] == x as usize;
                    assert(part[y]@.contains(id));
                }
            }
            if in_all(given, id) {
                assert forall|x: int| 0 <= x < part.len() implies (#[trigger] part[x])@.contains(id) by {
                    assert(given[ord@[x] as int]@.contains(id));
                }
                assert(in_all(part, id));
            }
        }
    }
    acc
}

} // verus!
