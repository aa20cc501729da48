//! Slash-separated paths as text.
//!
//! A path is read as its components: the root `/` or a leading `.`, then the
//! pieces between slashes, where empty pieces and later `.` pieces count for
//! nothing.

use crate::text::{chars_of, string_of};
use vstd::prelude::*;

verus! {

/// A component as the range of characters that it takes in the path.
pub type Span = (usize, usize);

/// The path starts at the root.
pub open spec fn is_absolute_path(p: Seq<char>) -> bool {
    p.len() > 0 && p[0] == '/'
}

/// The path starts with a `.` piece.
pub open spec fn starts_at_dot(p: Seq<char>) -> bool {
    p.len() > 0 && p[0] == '.' && (p.len() == 1 || p[1] == '/')
}

/// Position of the first `/` at or after `i`, or the end.
pub open spec fn piece_end(p: Seq<char>, i: int) -> int
    decreases p.len() - i,
{
    if i >= p.len() {
        p.len() as int
    } else if p[i] == '/' {
        i
    } else {
        piece_end(p, i + 1)
    }
}

/// The piece from `i` to `e` names nothing: it is empty or `.`.
pub open spec fn is_blank_piece(p: Seq<char>, i: int, e: int) -> bool {
    e == i || (e == i + 1 && p[i] == '.')
}

/// The ranges of the naming pieces from `i` on.
pub open spec fn body_spans(p: Seq<char>, i: int) -> Seq<(int, int)>
    decreases p.len() - i,
{
    if i < 0 || i >= p.len() {
        Seq::empty()
    } else {
        proof {
            lemma_piece_end(p, i);
        }
        let e = piece_end(p, i);
        let rest = if e < p.len() {
            body_spans(p, e + 1)
        } else {
            Seq::empty()
        };
        if is_blank_piece(p, i, e) {
            rest
        } else {
            seq![(i, e)] + rest
        }
    }
}

/// The ranges of all components of a path.
pub open spec fn component_spans(p: Seq<char>) -> Seq<(int, int)> {
    if is_absolute_path(p) || starts_at_dot(p) {
        seq![(0int, 1int)] + body_spans(p, 1)
    } else {
        body_spans(p, 0)
    }
}

/// The components of a path.
pub open spec fn components(p: Seq<char>) -> Seq<Seq<char>> {
    Seq::new(component_spans(p).len(), |k: int| p.subrange(component_spans(p)[k].0, component_spans(p)[k].1))
}

/// Some component is `..`.
pub open spec fn has_parent_component(p: Seq<char>) -> bool {
    exists|k: int| 0 <= k < components(p).len() && #[trigger] components(p)[k] == seq!['.', '.']
}

/// What is left of `p` after the components of `base`; `None` when those are not
/// the first components of `p`.
pub open spec fn stripped(p: Seq<char>, base: Seq<char>) -> Option<Seq<char>> {
    let c = components(p);
    let b = components(base);
    if b.len() <= c.len() && c.take(b.len() as int) == b {
        if b.len() == c.len() {
            Some(Seq::empty())
        } else {
            Some(p.subrange(component_spans(p)[b.len() as int].0, component_spans(p).last().1))
        }
    } else {
        None
    }
}

/// `suffix` below `base`; an absolute suffix replaces the base.
pub open spec fn joined(base: Seq<char>, suffix: Seq<char>) -> Seq<char> {
    if is_absolute_path(suffix) {
        suffix
    } else if base.len() == 0 || base.last() == '/' {
        base + suffix
    } else {
        base.push('/') + suffix
    }
}

/// The path without one leading `./`.
pub open spec fn without_dot_slash(p: Seq<char>) -> Seq<char> {
    if p.len() >= 2 && p[0] == '.' && p[1] == '/' {
        p.skip(2)
    } else {
        p
    }
}

/// The root without one trailing `/`.
pub open spec fn root_prefix(root: Seq<char>) -> Seq<char> {
    if root.len() > 0 && root.last() == '/' {
        root.drop_last()
    } else {
        root
    }
}

/// The form of `abs` relative to `root`: what follows the root's text and a slash,
/// else what follows the root's components, else `abs` itself.
pub open spec fn display_path(abs: Seq<char>, root: Seq<char>) -> Seq<char> {
    let n = root_prefix(root).len() as int;
    if root_prefix(root).is_prefix_of(abs) && n + 1 < abs.len() && abs[n] == '/' {
        abs.skip(n + 1)
    } else {
        match stripped(abs, root) {
            Some(rest) => if rest.len() > 0 {
                rest
            } else {
                abs
            },
            None => abs,
        }
    }
}

/// The path that ranking reads for a file of the tree at `root`, when the query is
/// narrowed to the subtree `qrel` and shown below `display_root`.
pub open spec fn rank_path(abs: Seq<char>, root: Seq<char>, qrel: Option<Seq<char>>, display_root: Seq<char>) -> Seq<
    char,
> {
    match qrel {
        Some(q) if q.len() > 0 => match stripped(display_path(abs, root), q) {
            Some(suffix) => if display_root.len() == 0 {
                suffix
            } else {
                without_dot_slash(joined(display_root, suffix))
            },
            None => abs,
        },
        _ => abs,
    }
}

pub proof fn lemma_piece_end(p: Seq<char>, i: int)
    requires
        0 <= i <= p.len(),
    ensures
        i <= piece_end(p, i) <= p.len(),
        piece_end(p, i) < p.len() ==> p[piece_end(p, i)] == '/',
    decreases p.len() - i,
{
    if i < p.len() && p[i] != '/' {
        lemma_piece_end(p, i + 1);
    }
}

/// Every component lies within the path, and components come left to right.
proof fn lemma_body_spans(p: Seq<char>, i: int)
    requires
        0 <= i,
    ensures
        forall|k: int|
            0 <= k < body_spans(p, i).len() ==> i <= (#[trigger] body_spans(p, i)[k]).0 < body_spans(p, i)[k].1
                <= p.len(),
        forall|j: int, k: int|
            0 <= j < k < body_spans(p, i).len() ==> (#[trigger] body_spans(p, i)[j]).1 < (#[trigger] body_spans(
                p,
                i,
            )[k]).0,
    decreases p.len() - i,
{
    if i < p.len() {
        lemma_piece_end(p, i);
        let e = piece_end(p, i);
        if e < p.len() {
            lemma_body_spans(p, e + 1);
        }
        let rest = if e < p.len() {
            body_spans(p, e + 1)
        } else {
            Seq::empty()
        };
        let all = body_spans(p, i);
        if !is_blank_piece(p, i, e) {
            assert(all == seq![(i, e)] + rest);
            assert forall|k: int| 0 <= k < all.len() implies i <= (#[trigger] all[k]).0 < all[k].1 <= p.len() by {
                if k > 0 {
                    assert(all[k] == rest[k - 1]);
                }
            }
            assert forall|j: int, k: int| 0 <= j < k < all.len() implies (#[trigger] all[j]).1 < (
            #[trigger] all[k]).0 by {
                assert(all[k] == rest[k - 1]);
                if j > 0 {
                    assert(all[j] == rest[j - 1]);
                }
            }
        }
    }
}

proof fn lemma_spans(p: Seq<char>)
    ensures
        forall|k: int|
            0 <= k < component_spans(p).len() ==> 0 <= (#[trigger] component_spans(p)[k]).0 < component_spans(p)[k].1
                <= p.len(),
        forall|j: int, k: int|
            0 <= j < k < component_spans(p).len() ==> (#[trigger] component_spans(p)[j]).1 <= (
            #[trigger] component_spans(p)[k]).0,
{
    lemma_body_spans(p, 0);
    lemma_body_spans(p, 1);
}

/// The ranges as integers.
pub open spec fn int_spans(v: Seq<Span>) -> Seq<(int, int)> {
    Seq::new(v.len(), |k: int| (v[k].0 as int, v[k].1 as int))
}

fn spans_of(p: &[char]) -> (spans: Vec<Span>)
    ensures
        int_spans(spans@) == component_spans(p@),
{
    let mut spans: Vec<Span> = Vec::new();
    let mut i: usize = 0;
    if p.len() > 0 && (p[0] == '/' || (p[0] == '.' && (p.len() == 1 || p[1] == '/'))) {
        spans.push((0, 1));
        i = 1;
    }
    assert(int_spans(spans@) + body_spans(p@, i as int) =~= component_spans(p@));
    while i < p.len()
        invariant
            i <= p@.len(),
            int_spans(spans@) + body_spans(p@, i as int) == component_spans(p@),
        decreases p@.len() - i,
    {
        let start: usize = i;
        let mut e: usize = i;
        while e < p.len() && p[e] != '/'
            invariant
                start <= e <= p@.len(),
                piece_end(p@, e as int) == piece_end(p@, start as int),
            decreases p@.len() - e,
        {
            e = e + 1;
        }
        proof {
            lemma_piece_end(p@, start as int);
        }
        let ghost had = int_spans(spans@);
        let blank: bool = e == start || (e - start == 1 && p[start] == '.');
        if !blank {
            spans.push((start, e));
        }
        let ghost here: Seq<(int, int)> = if blank {
            Seq::empty()
        } else {
            seq![(start as int, e as int)]
        };
        assert(int_spans(spans@) =~= had + here);
        i = if e < p.len() {
            e + 1
        } else {
            p.len()
        };
        proof {
            let rest = body_spans(p@, i as int);
            assert(body_spans(p@, start as int) =~= here + rest);
            assert(had + here + rest =~= had + (here + rest));
        }
    }
    spans
}

/// Number of components of a path.
pub fn component_count(path: &str) -> (n: usize)
    ensures
        n == components(path@).len(),
{
    let p: Vec<char> = chars_of(path);
    let spans: Vec<Span> = spans_of(&p);
    assert(int_spans(spans@).len() == spans@.len());
    spans.len()
}

/// Whether a path is absolute.
pub fn is_absolute(path: &str) -> (b: bool)
    ensures
        b == is_absolute_path(path@),
{
    let p: Vec<char> = chars_of(path);
    p.len() > 0 && p[0] == '/'
}

/// Whether some component of a path is `..`.
pub fn has_parent_dir(path: &str) -> (b: bool)
    ensures
        b == has_parent_component(path@),
{
    let p: Vec<char> = chars_of(path);
    let spans: Vec<Span> = spans_of(&p);
    proof {
        lemma_spans(p@);
    }
    let mut k: usize = 0;
    while k < spans.len()
        invariant
            k <= spans@.len(),
            p@ == path@,
            int_spans(spans@) == component_spans(p@),
            forall|j: int|
                0 <= j < component_spans(p@).len() ==> 0 <= (#[trigger] component_spans(p@)[j]).0 < component_spans(
                    p@,
                )[j].1 <= p@.len(),
            forall|j: int| 0 <= j < k ==> #[trigger] components(p@)[j] != seq!['.', '.'],
        decreases spans@.len() - k,
    {
        let span: Span = spans[k];
        assert(component_spans(p@)[k as int] == int_spans(spans@)[k as int]);
        let ghost comp = components(p@)[k as int];
        assert(comp == p@.subrange(span.0 as int, span.1 as int));
        if span.1 - span.0 == 2 && p[span.0] == '.' && p[span.0 + 1] == '.' {
            assert(comp =~= seq!['.', '.']);
            return true;
        }
        proof {
            if comp == seq!['.', '.'] {
                assert(comp.len() == 2);
                assert(comp[0] == '.' && comp[1] == '.');
            }
        }
        k = k + 1;
    }
    false
}

/// What is left of `path` after the components of `base`.
pub fn strip_path_prefix(path: &str, base: &str) -> (rest: Option<String>)
    ensures
        match rest {
            Some(s) => stripped(path@, base@) == Some(s@),
            None => stripped(path@, base@) is None,
        },
{
    let p: Vec<char> = chars_of(path);
    let b: Vec<char> = chars_of(base);
    let ps: Vec<Span> = spans_of(&p);
    let bs: Vec<Span> = spans_of(&b);
    proof {
        lemma_spans(p@);
        lemma_spans(b@);
        assert(int_spans(ps@).len() == ps@.len());
        assert(int_spans(bs@).len() == bs@.len());
    }
    if bs.len() > ps.len() {
        return None;
    }
    let mut k: usize = 0;
    while k < bs.len()
        invariant
            k <= bs@.len() <= ps@.len(),
            p@ == path@,
            b@ == base@,
            int_spans(ps@) == component_spans(p@),
            int_spans(bs@) == component_spans(b@),
            forall|j: int|
                0 <= j < component_spans(p@).len() ==> 0 <= (#[trigger] component_spans(p@)[j]).0 < component_spans(
                    p@,
                )[j].1 <= p@.len(),
            forall|j: int|
                0 <= j < component_spans(b@).len() ==> 0 <= (#[trigger] component_spans(b@)[j]).0 < component_spans(
                    b@,
                )[j].1 <= b@.len(),
            components(p@).len() == ps@.len(),
            components(b@).len() == bs@.len(),
            forall|j: int| 0 <= j < k ==> #[trigger] components(p@)[j] == components(b@)[j],
        decreases bs@.len() - k,
    {
        assert(component_spans(p@)[k as int] == int_spans(ps@)[k as int]);
        assert(component_spans(b@)[k as int] == int_spans(bs@)[k as int]);
        let ghost pc = components(p@)[k as int];
        let ghost bc = components(b@)[k as int];
        let same: bool = same_chars(&p, ps[k].0, ps[k].1, &b, bs[k].0, bs[k].1);
        if !same {
            proof {
                assert(components(p@).take(bs@.len() as int)[k as int] == pc);
            }
            return None;
        }
        k = k + 1;
    }
    assert(components(p@).take(bs@.len() as int) =~= components(b@));
    if bs.len() == ps.len() {
        let none: Vec<char> = Vec::new();
        let s: String = string_of(&none);
        assert(s@ =~= Seq::<char>::empty());
        return Some(s);
    }
    let from: usize = ps[bs.len()].0;
    let to: usize = ps[ps.len() - 1].1;
    proof {
        assert(component_spans(p@)[bs@.len() as int] == int_spans(ps@)[bs@.len() as int]);
        assert(component_spans(p@).last() == int_spans(ps@)[ps@.len() - 1]);
        assert(from <= to) by {
            if bs@.len() < ps@.len() - 1 {
                assert(component_spans(p@)[bs@.len() as int].1 <= component_spans(p@)[ps@.len() - 1].0);
            }
        }
    }
    Some(string_of(&p[from..to]))
}

/// The component at position `k`.
pub fn path_component(path: &str, k: usize) -> (c: Vec<char>)
    requires
        k < components(path@).len(),
    ensures
        c@ == components(path@)[k as int],
{
    let p: Vec<char> = chars_of(path);
    let spans: Vec<Span> = spans_of(&p);
    proof {
        lemma_spans(p@);
        assert(int_spans(spans@).len() == spans@.len());
        assert(component_spans(p@)[k as int] == int_spans(spans@)[k as int]);
    }
    let mut c: Vec<char> = Vec::new();
    c.extend_from_slice(&p[spans[k].0..spans[k].1]);
    assert(c@ =~= components(path@)[k as int]);
    c
}

/// Whether two paths have the same components.
pub fn same_components(a: &str, b: &str) -> (same: bool)
    ensures
        same == (components(a@) == components(b@)),
{
    let n: usize = component_count(a);
    if n != component_count(b) {
        return false;
    }
    match strip_path_prefix(a, b) {
        Some(_) => {
            assert(components(a@).take(n as int) =~= components(a@));
            true
        },
        None => {
            assert(components(a@).take(n as int) =~= components(a@));
            false
        },
    }
}

/// Whether two ranges hold the same characters.
fn same_chars(a: &[char], a0: usize, a1: usize, b: &[char], b0: usize, b1: usize) -> (same: bool)
    requires
        a0 <= a1 <= a@.len(),
        b0 <= b1 <= b@.len(),
    ensures
        same == (a@.subrange(a0 as int, a1 as int) == b@.subrange(b0 as int, b1 as int)),
{
    let ghost x = a@.subrange(a0 as int, a1 as int);
    let ghost y = b@.subrange(b0 as int, b1 as int);
    if a1 - a0 != b1 - b0 {
        assert(x.len() != y.len());
        return false;
    }
    let mut i: usize = 0;
    while i < a1 - a0
        invariant
            a0 <= a1 <= a@.len(),
            b0 <= b1 <= b@.len(),
            a1 - a0 == b1 - b0,
            i <= a1 - a0,
            x == a@.subrange(a0 as int, a1 as int),
            y == b@.subrange(b0 as int, b1 as int),
            forall|j: int| 0 <= j < i ==> x[j] == y[j],
        decreases a1 - a0 - i,
    {
        if a[a0 + i] != b[b0 + i] {
            assert(x[i as int] != y[i as int]);
            return false;
        }
        i = i + 1;
    }
    assert(x =~= y);
    true
}

/// `suffix` below `base`; an absolute suffix replaces the base.
pub fn join_path(base: &str, suffix: &str) -> (path: String)
    ensures
        path@ == joined(base@, suffix@),
{
    let b: Vec<char> = chars_of(base);
    if is_absolute(suffix) {
        return suffix.to_owned();
    }
    let mut out: String = base.to_owned();
    if b.len() > 0 && b[b.len() - 1] != '/' {
        out.push('/');
    }
    out.append(suffix);
    out
}

/// The path without one leading `./`; every other path is kept.
pub fn strip_dot_slash(path: &str) -> (rest: String)
    ensures
        rest@ == without_dot_slash(path@),
{
    let p: Vec<char> = chars_of(path);
    if p.len() >= 2 && p[0] == '.' && p[1] == '/' {
        return string_of(&p[2..p.len()]);
    }
    path.to_owned()
}

/// Root-relative form of an absolute path of the tree at `root`; a path outside it
/// is shown as it is.
pub fn serve_display_path(abs: &str, root: &str) -> (shown: String)
    ensures
        shown@ == display_path(abs@, root@),
{
    let a: Vec<char> = chars_of(abs);
    let r: Vec<char> = chars_of(root);
    let n: usize = if r.len() > 0 && r[r.len() - 1] == '/' {
        r.len() - 1
    } else {
        r.len()
    };
    let ghost prefix = root_prefix(root@);
    assert(prefix =~= r@.take(n as int));
    if n < a.len() && a.len() - n > 1 && a[n] == '/' {
        if same_chars(&a, 0, n, &r, 0, n) {
            assert(a@.subrange(0, n as int) == prefix);
            assert(prefix.is_prefix_of(a@));
            return string_of(&a[n + 1..a.len()]);
        }
        proof {
            if prefix.is_prefix_of(a@) {
                assert(a@.subrange(0, n as int) =~= r@.subrange(0, n as int));
            }
        }
    }
    match strip_path_prefix(abs, root) {
        Some(rest) => {
            if rest.as_str().is_empty() {
                abs.to_owned()
            } else {
                rest
            }
        },
        None => abs.to_owned(),
    }
}

/// The path that ranking reads for a file: the file as stored, or, for a query
/// narrowed to a subtree, the path that a scan of that subtree would show.
pub fn daemon_rank_path(abs: &str, idx_root: &str, qrel: Option<&str>, display_root: &str) -> (path: String)
    ensures
        path@ == rank_path(
            abs@,
            idx_root@,
            match qrel {
                Some(q) => Some(q@),
                None => None,
            },
            display_root@,
        ),
{
    match qrel {
        None => abs.to_owned(),
        Some(q) => {
            if q.is_empty() {
                return abs.to_owned();
            }
            let rel: String = serve_display_path(abs, idx_root);
            match strip_path_prefix(rel.as_str(), q) {
                None => abs.to_owned(),
                Some(suffix) => {
                    if display_root.is_empty() {
                        return suffix;
                    }
                    let whole: String = join_path(display_root, suffix.as_str());
                    strip_dot_slash(whole.as_str())
                },
            }
        },
    }
}

// ---- what paths mean ----

/// The components of a path, piece by piece: a name adds a component; empty pieces and `.`
/// add none, but for a `.` at the head; and a leading `/` is a component of its own.
pub proof fn law_components_are_the_names(p: Seq<char>, q: Seq<char>)
    requires
        forall|k: int| 0 <= k < q.len() ==> #[trigger] q[k] != '/',
    ensures
        components(q) == (if q.len() == 0 {
            Seq::empty()
        } else {
            seq![q]
        }),
        components(seq!['/'] + q) == (if q.len() == 0 || q == seq!['.'] {
            seq![seq!['/']]
        } else {
            seq![seq!['/'], q]
        }),
        p.len() > 0 ==> components(p.push('/') + q) == (if q.len() == 0 || q == seq!['.'] {
            components(p)
        } else {
            components(p).push(q)
        }),
{
    lemma_single_piece(q);
    let root = seq!['/'] + q;
    assert(root =~= Seq::<char>::empty().push('/') + q);
    lemma_body_append(Seq::empty(), q, 0);
    let none = Seq::<char>::empty();
    assert(body_spans(none, 0) =~= Seq::empty());
    assert(root[0] == '/');
    assert(piece_end(root, 0) == 0);
    assert(body_spans(root, 0) == body_spans(root, 1) || root.len() == 1);
    if root.len() == 1 {
        assert(q =~= Seq::empty());
        assert(body_spans(root, 1) =~= Seq::empty());
    }
    let own: Seq<(int, int)> = if q.len() == 0 || q == seq!['.'] {
        Seq::empty()
    } else {
        seq![(1int, root.len() as int)]
    };
    assert(body_spans(root, 1) =~= own);
    assert(component_spans(root) =~= seq![(0int, 1int)] + own);
    assert(root.subrange(0, 1) =~= seq!['/']);
    assert(root.subrange(1, root.len() as int) =~= q);
    if q.len() == 0 || q == seq!['.'] {
        assert(components(root) =~= seq![seq!['/']]);
    } else {
        assert(components(root) =~= seq![seq!['/'], q]);
    }
    if p.len() > 0 {
        let all = p.push('/') + q;
        let from: int = if is_absolute_path(p) || starts_at_dot(p) {
            1
        } else {
            0
        };
        assert(all[0] == p[0]);
        if p.len() > 1 {
            assert(all[1] == p[1]);
        }
        assert(is_absolute_path(all) == is_absolute_path(p));
        assert(starts_at_dot(all) == starts_at_dot(p));
        lemma_body_append(p, q, from);
        lemma_spans(p);
        let last: Seq<(int, int)> = if q.len() == 0 || q == seq!['.'] {
            Seq::empty()
        } else {
            seq![(p.len() as int + 1, all.len() as int)]
        };
        assert(component_spans(all) =~= component_spans(p) + last);
        assert(all.subrange(p.len() as int + 1, all.len() as int) =~= q);
        assert forall|k: int| 0 <= k < component_spans(p).len() implies #[trigger] components(all)[k] == components(p)[k] by {
            let s = component_spans(p)[k];
            assert(all.subrange(s.0, s.1) =~= p.subrange(s.0, s.1));
        }
        if q.len() == 0 || q == seq!['.'] {
            assert(components(all) =~= components(p));
        } else {
            assert(components(all) =~= components(p).push(q));
        }
    }
}

proof fn lemma_no_slash_end(q: Seq<char>, i: int)
    requires
        0 <= i <= q.len(),
        forall|k: int| i <= k < q.len() ==> #[trigger] q[k] != '/',
    ensures
        piece_end(q, i) == q.len(),
    decreases q.len() - i,
{
    if i < q.len() {
        lemma_no_slash_end(q, i + 1);
    }
}

proof fn lemma_single_piece(q: Seq<char>)
    requires
        forall|k: int| 0 <= k < q.len() ==> #[trigger] q[k] != '/',
    ensures
        components(q) == (if q.len() == 0 {
            Seq::empty()
        } else {
            seq![q]
        }),
{
    lemma_no_slash_end(q, 0);
    if q.len() == 0 {
        assert(components(q) =~= Seq::empty());
    } else {
        if q.len() > 1 {
            assert(q[1] != '/');
        }
        if starts_at_dot(q) {
            assert(q.len() == 1);
            assert(body_spans(q, 1) =~= Seq::empty());
        } else {
            if q.len() == 1 {
                assert(q[0] != '.');
            }
            assert(body_spans(q, 0) =~= seq![(0int, q.len() as int)]);
        }
        assert(component_spans(q) =~= seq![(0int, q.len() as int)]);
        assert(q.subrange(0, q.len() as int) =~= q);
        assert(components(q) =~= seq![q]);
    }
}

/// A piece behind a path adds its own span, or none when it is blank.
proof fn lemma_body_append(p: Seq<char>, q: Seq<char>, i: int)
    requires
        0 <= i <= p.len(),
        forall|k: int| 0 <= k < q.len() ==> #[trigger] q[k] != '/',
    ensures
        body_spans(p.push('/') + q, i) == body_spans(p, i) + (if q.len() == 0 || q == seq!['.'] {
            Seq::empty()
        } else {
            seq![(p.len() as int + 1, (p.push('/') + q).len() as int)]
        }),
    decreases p.len() - i,
{
    let all = p.push('/') + q;
    let n = p.len() as int;
    let last: Seq<(int, int)> = if q.len() == 0 || q == seq!['.'] {
        Seq::empty()
    } else {
        seq![(n + 1, all.len() as int)]
    };
    assert forall|k: int| n + 1 <= k < all.len() implies #[trigger] all[k] != '/' by {
        assert(all[k] == q[k - n - 1]);
    }
    lemma_no_slash_end(all, n + 1);
    assert(body_spans(all, n + 1) =~= last) by {
        if q.len() == 1 {
            assert(all[n + 1] == q[0]);
            if q[0] == '.' {
                assert(q =~= seq!['.']);
            }
        }
    }
    if i == n {
        assert(all[n] == '/');
        assert(piece_end(all, n) == n);
        assert(body_spans(p, n) =~= Seq::empty());
        assert(body_spans(all, n) =~= last);
    } else {
        lemma_same_end(p, q, i);
        lemma_piece_end(p, i);
        let e = piece_end(p, i);
        if e < n {
            lemma_body_append(p, q, e + 1);
        }
        let rest = if e < n {
            body_spans(p, e + 1)
        } else {
            Seq::empty()
        };
        assert(is_blank_piece(all, i, e) == is_blank_piece(p, i, e));
        assert(body_spans(all, e + 1) =~= rest + last);
        assert(body_spans(all, i) =~= body_spans(p, i) + last);
    }
}

proof fn lemma_same_end(p: Seq<char>, q: Seq<char>, i: int)
    requires
        0 <= i <= p.len(),
    ensures
        piece_end(p.push('/') + q, i) == piece_end(p, i),
    decreases p.len() - i,
{
    let all = p.push('/') + q;
    if i < p.len() {
        assert(all[i] == p[i]);
        if p[i] != '/' {
            lemma_same_end(p, q, i + 1);
        }
    } else {
        assert(all[i] == '/');
    }
}

/// A path lies below another exactly if its first components are those of the other, and
/// what is left is the rest of them, as it stands in the path.
pub proof fn law_stripping_leaves_the_rest(p: Seq<char>, base: Seq<char>)
    ensures
        stripped(p, base) is Some <==> components(base).len() <= components(p).len() && forall|k: int|
            0 <= k < components(base).len() ==> #[trigger] components(p)[k] == components(base)[k],
        stripped(p, base) is Some ==> components(stripped(p, base)->Some_0) == components(p).skip(
            components(base).len() as int,
        ),
        stripped(p, base) is Some && stripped(p, base)->Some_0.len() > 0 ==> exists|a: int|
            0 <= a && a + stripped(p, base)->Some_0.len() <= p.len() && #[trigger] p.subrange(
                a,
                a + stripped(p, base)->Some_0.len(),
            ) == stripped(p, base)->Some_0,
        stripped(p, p) == Some(Seq::<char>::empty()),
{
    let c = components(p);
    let b = components(base);
    let n = b.len() as int;
    assert(c.take(c.len() as int) =~= c);
    if n <= c.len() {
        if forall|k: int| 0 <= k < n ==> #[trigger] c[k] == b[k] {
            assert(c.take(n) =~= b);
        }
        if c.take(n) == b {
            assert forall|k: int| 0 <= k < n implies #[trigger] c[k] == b[k] by {
                assert(c.take(n)[k] == c[k]);
            }
        }
    }
    if stripped(p, base) is Some {
        let rest = stripped(p, base)->Some_0;
        if n == c.len() {
            assert(c.skip(n) =~= Seq::empty());
            lemma_single_piece(rest);
        } else {
            lemma_spans(p);
            let spans = component_spans(p);
            let s = spans[n].0;
            let e = spans.last().1;
            assert(spans.last() == spans[spans.len() - 1]);
            assert(s < e) by {
                if n < spans.len() - 1 {
                    assert(spans[n].1 <= spans[spans.len() - 1].0);
                }
            }
            assert(rest == p.subrange(s, s + rest.len()));
            lemma_rest_components(p, n);
        }
    }
}

/// The components of a path from its component `n` on are those of its rest.
proof fn lemma_rest_components(p: Seq<char>, n: int)
    requires
        0 <= n < components(p).len(),
    ensures
        components(p.subrange(component_spans(p)[n].0, component_spans(p).last().1)) == components(p).skip(n),
{
    lemma_spans(p);
    let spans = component_spans(p);
    let headed = is_absolute_path(p) || starts_at_dot(p);
    let from: int = if headed {
        1
    } else {
        0
    };
    let s = spans[n].0;
    let e = spans.last().1;
    let rest = p.subrange(s, e);
    lemma_body_spans(p, from);
    let body = body_spans(p, from);
    let cut = p.take(e);
    assert(spans.last() == spans[spans.len() - 1]);
    assert(s < e) by {
        if n < spans.len() - 1 {
            assert(spans[n].1 <= spans[spans.len() - 1].0);
        }
    }
    if headed && n == 0 {
        assert(spans[0] == (0int, 1int));
        assert(rest =~= cut);
        assert(cut[0] == p[0]);
        if body.len() > 0 {
            assert(spans.last() == body.last());
            lemma_cut_spans(p, from);
            assert(cut.len() >= 2) by {
                assert(body.last() == body[body.len() - 1]);
            }
            assert(cut[1] == p[1]);
        } else {
            assert(e == 1);
            assert(body_spans(cut, 1) =~= Seq::empty());
        }
        assert(is_absolute_path(cut) == is_absolute_path(p));
        assert(starts_at_dot(cut) == starts_at_dot(p));
        assert(component_spans(cut) =~= spans);
        assert forall|k: int| 0 <= k < spans.len() implies #[trigger] components(cut)[k] == components(p)[k] by {
            lemma_span_before(spans, k);
            assert(cut.subrange(spans[k].0, spans[k].1) =~= p.subrange(spans[k].0, spans[k].1));
        }
        assert(components(p).skip(0) =~= components(p));
        assert(components(cut) =~= components(p));
    } else {
        let m = if headed {
            n - 1
        } else {
            n
        };
        assert(body.len() > 0);
        assert(spans[n] == body[m]);
        assert(spans.last() == body.last());
        lemma_span_is_name(p, from, m);
        lemma_tail_spans(p, from, m);
        assert(body_spans(p, s) == body.skip(m));
        assert(body_spans(p, s).last() == body.last());
        lemma_cut_spans(p, s);
        lemma_shift_spans(cut, s, s);
        assert(cut.skip(s) =~= rest);
        let tail = body.skip(m);
        let moved = body_spans(rest, 0);
        assert(rest[0] == p[s]);
        if rest.len() > 1 {
            assert(rest[1] == p[s + 1]);
        }
        assert(!is_absolute_path(rest));
        assert(!starts_at_dot(rest)) by {
            if rest.len() == 1 {
                lemma_span_before(spans, n);
            }
        }
        assert(component_spans(rest) == moved);
        assert(moved.len() == tail.len());
        assert(components(p).skip(n).len() == tail.len());
        assert forall|k: int| 0 <= k < tail.len() implies #[trigger] components(rest)[k] == components(p).skip(n)[k] by {
            assert(tail[k] == spans[n + k]);
            assert(moved[k] == (tail[k].0 - s, tail[k].1 - s));
            lemma_span_before(spans, n + k);
            if k > 0 {
                assert(spans[n].1 <= spans[n + k].0);
            }
            assert(rest.subrange(moved[k].0, moved[k].1) =~= p.subrange(tail[k].0, tail[k].1));
            assert(components(p).skip(n)[k] == components(p)[n + k]);
        }
        assert(components(rest) =~= components(p).skip(n));
    }
}

proof fn lemma_span_before(spans: Seq<(int, int)>, k: int)
    requires
        0 <= k < spans.len(),
        forall|k: int| 0 <= k < spans.len() ==> 0 <= (#[trigger] spans[k]).0 < spans[k].1,
        forall|j: int, k: int| 0 <= j < k < spans.len() ==> (#[trigger] spans[j]).1 <= (#[trigger] spans[k]).0,
    ensures
        spans[k].1 <= spans.last().1,
        k < spans.len() - 1 ==> spans[k].1 <= spans.last().0,
{
    assert(spans.last() == spans[spans.len() - 1]);
}

/// A span of the body starts with a name: not with a slash, and not with a `.` alone.
proof fn lemma_span_is_name(p: Seq<char>, i: int, m: int)
    requires
        0 <= i,
        0 <= m < body_spans(p, i).len(),
    ensures
        ({
            let (s, e) = body_spans(p, i)[m];
            0 <= s < e <= p.len() && p[s] != '/' && !(p[s] == '.' && (e == s + 1 || p[s + 1] == '/')) && e == piece_end(p, s)
        }),
    decreases p.len() - i,
{
    if i < p.len() {
        lemma_piece_end(p, i);
        let e = piece_end(p, i);
        let rest = if e < p.len() {
            body_spans(p, e + 1)
        } else {
            Seq::empty()
        };
        if is_blank_piece(p, i, e) {
            lemma_span_is_name(p, e + 1, m);
        } else if m == 0 {
            assert(body_spans(p, i)[0] == (i, e));
            if p[i] == '.' && e > i + 1 {
                if p[i + 1] == '/' {
                    assert(piece_end(p, i + 1) == i + 1);
                    assert(piece_end(p, i) == piece_end(p, i + 1));
                }
            }
        } else {
            assert(body_spans(p, i)[m] == rest[m - 1]);
            lemma_span_is_name(p, e + 1, m - 1);
        }
    }
}

proof fn lemma_tail_spans(p: Seq<char>, i: int, m: int)
    requires
        0 <= i,
        0 <= m < body_spans(p, i).len(),
    ensures
        body_spans(p, body_spans(p, i)[m].0) == body_spans(p, i).skip(m),
    decreases p.len() - i,
{
    if i < p.len() {
        lemma_piece_end(p, i);
        let e = piece_end(p, i);
        let all = body_spans(p, i);
        if is_blank_piece(p, i, e) {
            lemma_tail_spans(p, e + 1, m);
        } else if m == 0 {
            assert(all.skip(0) =~= all);
        } else {
            let rest = body_spans(p, e + 1);
            assert(all[m] == rest[m - 1]);
            lemma_tail_spans(p, e + 1, m - 1);
            assert(all.skip(m) =~= rest.skip(m - 1));
        }
    }
}

/// What stands behind the last span can be cut off.
proof fn lemma_cut_spans(p: Seq<char>, i: int)
    requires
        0 <= i,
        body_spans(p, i).len() > 0,
    ensures
        body_spans(p.take(body_spans(p, i).last().1), i) == body_spans(p, i),
    decreases p.len() - i,
{
    lemma_body_spans(p, i);
    let all = body_spans(p, i);
    let end = all.last().1;
    let cut = p.take(end);
    lemma_piece_end(p, i);
    let e = piece_end(p, i);
    assert(all.last() == all[all.len() - 1]);
    let rest = if e < p.len() {
        body_spans(p, e + 1)
    } else {
        Seq::empty()
    };
    if is_blank_piece(p, i, e) {
        lemma_cut_spans(p, e + 1);
        lemma_body_spans(p, e + 1);
        lemma_end_of_cut(p, end, i);
        assert(body_spans(cut, i) =~= all);
    } else {
        assert(all[0] == (i, e));
        assert(e <= end) by {
            if all.len() > 1 {
                assert(all[0].1 < all[all.len() - 1].0);
            }
        }
        lemma_end_of_cut(p, end, i);
        if rest.len() > 0 {
            assert(all.last() == rest.last());
            lemma_cut_spans(p, e + 1);
            lemma_body_spans(p, e + 1);
            assert(rest.last() == rest[rest.len() - 1]);
            assert(e < cut.len());
            assert(body_spans(cut, i) =~= seq![(i, e)] + body_spans(cut, e + 1));
        } else {
            assert(all =~= seq![(i, e)]);
            assert(end == e);
            assert(body_spans(cut, i) =~= seq![(i, e)]);
        }
    }
}

proof fn lemma_end_of_cut(p: Seq<char>, end: int, i: int)
    requires
        0 <= i <= end <= p.len(),
        piece_end(p, i) <= end,
    ensures
        piece_end(p.take(end), i) == piece_end(p, i),
    decreases end - i,
{
    lemma_piece_end(p, i);
    if i < end {
        assert(p.take(end)[i] == p[i]);
        if p[i] != '/' {
            lemma_end_of_cut(p, end, i + 1);
        }
    }
}

proof fn lemma_shift_spans(p: Seq<char>, n: int, i: int)
    requires
        0 <= n <= i,
        n <= p.len(),
    ensures
        body_spans(p.skip(n), i - n) == Seq::new(
            body_spans(p, i).len(),
            |k: int| (body_spans(p, i)[k].0 - n, body_spans(p, i)[k].1 - n),
        ),
    decreases p.len() - i,
{
    let t = p.skip(n);
    let want = Seq::new(body_spans(p, i).len(), |k: int| (body_spans(p, i)[k].0 - n, body_spans(p, i)[k].1 - n));
    if i < p.len() {
        lemma_piece_end(p, i);
        lemma_shift_end(p, n, i);
        let e = piece_end(p, i);
        if e < p.len() {
            lemma_shift_spans(p, n, e + 1);
        }
        assert(t[i - n] == p[i]);
        assert(is_blank_piece(t, i - n, e - n) == is_blank_piece(p, i, e));
        assert(body_spans(t, i - n) =~= want);
    } else {
        assert(body_spans(t, i - n) =~= want);
    }
}

proof fn lemma_shift_end(p: Seq<char>, n: int, i: int)
    requires
        0 <= n <= i <= p.len(),
    ensures
        piece_end(p.skip(n), i - n) == piece_end(p, i) - n,
    decreases p.len() - i,
{
    if i < p.len() {
        assert(p.skip(n)[i - n] == p[i]);
        if p[i] != '/' {
            lemma_shift_end(p, n, i + 1);
        }
    }
}

/// A name joined to a path is one component more, and stripping takes it off again.
pub proof fn law_joining_adds_a_component(base: Seq<char>, q: Seq<char>)
    requires
        base.len() > 0,
        q.len() > 0,
        q != seq!['.'],
        forall|k: int| 0 <= k < q.len() ==> #[trigger] q[k] != '/',
    ensures
        components(joined(base, q)) == components(base).push(q),
        joined(base, q).take(base.len() as int) == base,
        joined(base, q).skip(joined(base, q).len() - q.len()) == q,
        joined(base, q).len() <= base.len() + 1 + q.len(),
{
    let all = joined(base, q);
    assert(q[0] != '/');
    assert(all.take(base.len() as int) =~= base);
    assert(all.skip(all.len() - q.len()) =~= q);
    if base.last() == '/' {
        let b = base.drop_last();
        assert(base =~= b.push('/') + Seq::<char>::empty());
        assert(all =~= b.push('/') + q);
        if b.len() > 0 {
            law_components_are_the_names(b, Seq::empty());
            law_components_are_the_names(b, q);
        } else {
            law_components_are_the_names(b, Seq::empty());
            law_components_are_the_names(b, q);
            assert(all =~= seq!['/'] + q);
            assert(base =~= seq!['/'] + Seq::<char>::empty());
            assert(components(all) =~= components(base).push(q));
        }
    } else {
        assert(all =~= base.push('/') + q);
        law_components_are_the_names(base, q);
    }
}

/// A path is shown without one leading `./`, and otherwise as it stands.
pub proof fn law_only_a_leading_dot_slash_is_hidden(p: Seq<char>)
    ensures
        without_dot_slash(seq!['.', '/'] + p) == p,
        without_dot_slash(p) != p ==> p == seq!['.', '/'] + without_dot_slash(p),
        p.len() >= 2 && p[0] == '.' && p[1] == '/' ==> without_dot_slash(p).len() == p.len() - 2,
{
    let all = seq!['.', '/'] + p;
    assert(all.skip(2) =~= p);
    if p.len() >= 2 && p[0] == '.' && p[1] == '/' {
        assert(p =~= seq!['.', '/'] + p.skip(2));
    }
}

} // verus!
