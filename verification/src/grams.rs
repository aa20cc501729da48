//! Trigrams of texts and the trigrams that a pattern requires.
//!
//! A pattern is read in lexical units: an escape such as `\d` or `\p{name}`, a whole
//! `[...]` class, or a single character. Alternation splits on `|` units, literal runs are
//! made of word character units, and the operators that can drop a literal are units too.

use crate::order::sorted_unique;
use crate::prefilter::strictly_sorted;
use crate::text::{byte_views, chars_of, same_text, string_of, views};
use std::collections::HashSet;
use vstd::prelude::*;

verus! {

broadcast use vstd::std_specs::hash::group_hash_axioms;

// ---- trigrams ----

/// Three bytes as one number: base 256, first byte most significant.
pub open spec fn pack3(a: u8, b: u8, c: u8) -> u32 {
    (a * 65536 + b * 256 + c) as u32
}

/// `g` is the trigram at position `i` of `text`.
pub open spec fn gram_at(text: Seq<u8>, i: int, g: u32) -> bool {
    0 <= i && i + 3 <= text.len() && g == pack3(text[i], text[i + 1], text[i + 2])
}

/// `g` is a trigram of `text`.
pub open spec fn has_gram(text: Seq<u8>, g: u32) -> bool {
    exists|i: int| gram_at(text, i, g)
}

/// `needle` occurs in `text`.
pub open spec fn occurs_in(needle: Seq<u8>, text: Seq<u8>) -> bool {
    exists|i: int| occurs_at(needle, text, i)
}

/// `needle` occurs in `text` at position `i`.
pub open spec fn occurs_at(needle: Seq<u8>, text: Seq<u8>, i: int) -> bool {
    0 <= i && i + needle.len() <= text.len() && text.subrange(i, i + needle.len()) == needle
}

/// Packing is injective and keeps the lexicographic byte order.
pub proof fn law_pack_is_injective_and_ordered(a: u8, b: u8, c: u8, d: u8, e: u8, f: u8)
    ensures
        pack3(a, b, c) == pack3(d, e, f) <==> a == d && b == e && c == f,
        pack3(a, b, c) < pack3(d, e, f) <==> a < d || (a == d && b < e) || (a == d && b == e && c < f),
        pack3(a, b, c) < 0x1000000,
{
}

/// The trigrams of a text that occurs in another are trigrams of the other.
pub proof fn law_grams_of_part(part: Seq<u8>, text: Seq<u8>, g: u32)
    requires
        occurs_in(part, text),
        has_gram(part, g),
    ensures
        has_gram(text, g),
{
    let at = choose|at: int| occurs_at(part, text, at);
    let i = choose|i: int| gram_at(part, i, g);
    let window = text.subrange(at, at + part.len());
    assert(window[i] == text[at + i]);
    assert(window[i + 1] == text[at + i + 1]);
    assert(window[i + 2] == text[at + i + 2]);
    assert(gram_at(text, at + i, g));
}

/// The bytes packed into one number; numeric order is lexicographic byte order.
pub fn gram_pack(g: &[u8; 3]) -> (k: u32)
    ensures
        k == pack3(g@[0], g@[1], g@[2]),
{
    let a: u8 = g[0];
    let b: u8 = g[1];
    let c: u8 = g[2];
    assert((((a as u32) << 16u32) | ((b as u32) << 8u32) | (c as u32)) == a * 65536 + b * 256 + c) by (bit_vector);
    ((a as u32) << 16u32) | ((b as u32) << 8u32) | (c as u32)
}

/// The trigrams of `bytes`, packed.
pub fn trigrams_of(bytes: &[u8]) -> (set: HashSet<u32>)
    ensures
        forall|g: u32| #[trigger] set@.contains(g) <==> has_gram(bytes@, g),
{
    let mut set: HashSet<u32> = HashSet::new();
    let mut i: usize = 0;
    while bytes.len() >= 3 && i <= bytes.len() - 3
        invariant
            i <= bytes@.len(),
            forall|g: u32| #[trigger] set@.contains(g) <==> exists|k: int| k < i && gram_at(bytes@, k, g),
        decreases bytes@.len() - i,
    {
        let g: u32 = gram_pack(&[bytes[i], bytes[i + 1], bytes[i + 2]]);
        let ghost before = set@;
        set.insert(g);
        proof {
            assert(gram_at(bytes@, i as int, g));
            assert forall|h: u32| #[trigger] set@.contains(h) <==> exists|k: int| k < i + 1 && gram_at(bytes@, k, h) by {
                if set@.contains(h) {
                    if before.contains(h) {
                        let k = choose|k: int| k < i && gram_at(bytes@, k, h);
                        assert(k < i + 1 && gram_at(bytes@, k, h));
                    } else {
                        assert(h == g);
                        assert(i < i + 1 && gram_at(bytes@, i as int, h));
                    }
                }
                if exists|k: int| k < i + 1 && gram_at(bytes@, k, h) {
                    let k = choose|k: int| k < i + 1 && gram_at(bytes@, k, h);
                    if k < i {
                        assert(before.contains(h));
                    }
                }
            }
        }
        i = i + 1;
    }
    set
}

// ---- lexical units of a pattern ----

/// Position `i` moved past the character `c`, if it stands there.
pub open spec fn skip_char(p: Seq<char>, i: int, c: char) -> int {
    if i < p.len() && p[i] == c {
        i + 1
    } else {
        i
    }
}

/// The name of a class of ASCII characters.
pub open spec fn is_posix_name(s: Seq<char>) -> bool {
    s == "alnum"@ || s == "alpha"@ || s == "ascii"@ || s == "blank"@ || s == "cntrl"@ || s == "digit"@ || s == "graph"@
        || s == "lower"@ || s == "print"@ || s == "punct"@ || s == "space"@ || s == "upper"@ || s == "word"@ || s
        == "xdigit"@
}

/// First position from `j` on that holds no lower-case letter.
pub open spec fn name_end(p: Seq<char>, j: int) -> int
    decreases p.len() - j,
{
    if 0 <= j < p.len() && 'a' <= p[j] && p[j] <= 'z' {
        name_end(p, j + 1)
    } else {
        j
    }
}

/// Position just past the named class, `[:name:]` or `[:^name:]`, that starts at `i`, if
/// one does.
pub open spec fn posix_end(p: Seq<char>, i: int) -> Option<int> {
    let j = skip_char(p, i + 2, '^');
    let e = name_end(p, j);
    if i + 1 < p.len() && p[i] == '[' && p[i + 1] == ':' && e + 1 < p.len() && p[e] == ':' && p[e + 1] == ']'
        && is_posix_name(p.subrange(j, e)) {
        Some(e + 2)
    } else {
        None
    }
}

/// Position just past the first `}` from `j` on, if there is one.
pub open spec fn brace_close(p: Seq<char>, j: int) -> Option<int>
    decreases p.len() - j,
{
    if j < 0 || j >= p.len() {
        None
    } else if p[j] == '}' {
        Some(j + 1)
    } else {
        brace_close(p, j + 1)
    }
}

/// Position just past the character property, `\p{name}` or `\P{name}`, that starts at
/// `i`, if one does.
pub open spec fn property_end(p: Seq<char>, i: int) -> Option<int> {
    if i + 2 < p.len() && p[i] == '\\' && (p[i + 1] == 'p' || p[i + 1] == 'P') && p[i + 2] == '{' {
        brace_close(p, i + 3)
    } else {
        None
    }
}

proof fn lemma_name_bounds(p: Seq<char>, j: int)
    requires
        0 <= j,
    ensures
        j <= name_end(p, j),
        j <= p.len() ==> name_end(p, j) <= p.len(),
    decreases p.len() - j,
{
    if j < p.len() && 'a' <= p[j] && p[j] <= 'z' {
        lemma_name_bounds(p, j + 1);
    }
}

/// A named class ends within the pattern.
pub proof fn lemma_posix_bounds(p: Seq<char>, i: int)
    requires
        0 <= i,
    ensures
        posix_end(p, i) matches Some(e) ==> i + 4 <= e <= p.len(),
{
    lemma_name_bounds(p, skip_char(p, i + 2, '^'));
}

/// A brace closes within the pattern.
pub proof fn lemma_brace_bounds(p: Seq<char>, j: int)
    requires
        0 <= j,
    ensures
        brace_close(p, j) matches Some(e) ==> j < e <= p.len() && p[e - 1] == '}' && forall|k: int|
            j <= k < e - 1 ==> #[trigger] p[k] != '}',
    decreases p.len() - j,
{
    if j < p.len() && p[j] != '}' {
        lemma_brace_bounds(p, j + 1);
    }
}

/// Position just past the `]` that ends a class body, read from `i`; an escape
/// takes the character after it along, a named class is taken as a whole, and an
/// unclosed class runs to the end.
pub open spec fn class_close(p: Seq<char>, i: int) -> int
    decreases p.len() - i,
{
    if i < 0 || i >= p.len() {
        p.len() as int
    } else if p[i] == '\\' {
        if i + 2 <= p.len() {
            class_close(p, i + 2)
        } else {
            p.len() as int
        }
    } else if p[i] == ']' {
        i + 1
    } else {
        proof {
            lemma_posix_bounds(p, i);
        }
        match posix_end(p, i) {
            Some(e) => class_close(p, e),
            None => class_close(p, i + 1),
        }
    }
}

/// Position where the body of a class opened just before `i` is read from: past a
/// leading `^`, and past a leading `]`, which is literal there.
pub open spec fn class_body(p: Seq<char>, i: int) -> int {
    skip_char(p, skip_char(p, i, '^'), ']')
}

/// Position just past the lexical unit that starts at `i`.
pub open spec fn unit_end(p: Seq<char>, i: int) -> int {
    if p[i] == '\\' {
        match property_end(p, i) {
            Some(e) => e,
            None => if i + 2 <= p.len() {
                i + 2
            } else {
                p.len() as int
            },
        }
    } else if p[i] == '[' {
        class_close(p, class_body(p, i + 1))
    } else {
        i + 1
    }
}

/// A character that a literal run is made of.
pub open spec fn is_word_char(c: char) -> bool {
    ('a' <= c && c <= 'z') || ('A' <= c && c <= 'Z') || ('0' <= c && c <= '9') || c == '_'
}

proof fn lemma_class_close_bounds(p: Seq<char>, i: int)
    requires
        0 <= i,
    ensures
        class_close(p, i) <= p.len(),
        i <= p.len() ==> i <= class_close(p, i),
    decreases p.len() - i,
{
    if i < p.len() {
        if p[i] == '\\' {
            if i + 2 <= p.len() {
                lemma_class_close_bounds(p, i + 2);
            }
        } else if p[i] != ']' {
            lemma_posix_bounds(p, i);
            match posix_end(p, i) {
                Some(e) => lemma_class_close_bounds(p, e),
                None => lemma_class_close_bounds(p, i + 1),
            }
        }
    }
}

/// A unit is not empty and ends within the pattern.
pub proof fn lemma_unit_bounds(p: Seq<char>, i: int)
    requires
        0 <= i < p.len(),
    ensures
        i < unit_end(p, i) <= p.len(),
{
    if p[i] == '[' {
        lemma_class_close_bounds(p, class_body(p, i + 1));
    }
    if property_end(p, i) is Some {
        lemma_brace_bounds(p, i + 3);
    }
}

/// Whether a text names a class of ASCII characters.
fn posix_name(s: &str) -> (b: bool)
    ensures
        b == is_posix_name(s@),
{
    same_text(s, "alnum") || same_text(s, "alpha") || same_text(s, "ascii") || same_text(s, "blank") || same_text(
        s,
        "cntrl",
    ) || same_text(s, "digit") || same_text(s, "graph") || same_text(s, "lower") || same_text(s, "print") || same_text(
        s,
        "punct",
    ) || same_text(s, "space") || same_text(s, "upper") || same_text(s, "word") || same_text(s, "xdigit")
}

/// End of the named class that starts at `i`, if one does.
fn find_posix_end(p: &[char], i: usize) -> (end: Option<usize>)
    requires
        i < p@.len(),
    ensures
        match end {
            Some(e) => posix_end(p@, i as int) == Some(e as int) && i + 4 <= e <= p@.len(),
            None => posix_end(p@, i as int) is None,
        },
{
    let size: usize = p.len();
    proof {
        lemma_posix_bounds(p@, i as int);
    }
    if size - i < 4 || p[i] != '[' || p[i + 1] != ':' {
        proof {
            lemma_name_bounds(p@, skip_char(p@, i + 2, '^'));
        }
        return None;
    }
    let mut j: usize = i + 2;
    if p[j] == '^' {
        j = j + 1;
    }
    let from: usize = j;
    while j < size && 'a' <= p[j] && p[j] <= 'z'
        invariant
            from <= j <= size == p@.len(),
            name_end(p@, from as int) == name_end(p@, j as int),
        decreases size - j,
    {
        j = j + 1;
    }
    if size - j < 2 || p[j] != ':' || p[j + 1] != ']' {
        return None;
    }
    let name: String = string_of(&p[from..j]);
    if posix_name(name.as_str()) {
        Some(j + 2)
    } else {
        None
    }
}

/// End of the character property that starts at `i`, if one does.
fn find_property_end(p: &[char], i: usize) -> (end: Option<usize>)
    requires
        i < p@.len(),
    ensures
        match end {
            Some(e) => property_end(p@, i as int) == Some(e as int) && i < e <= p@.len(),
            None => property_end(p@, i as int) is None,
        },
{
    let size: usize = p.len();
    if size - i < 3 || p[i] != '\\' || (p[i + 1] != 'p' && p[i + 1] != 'P') || p[i + 2] != '{' {
        return None;
    }
    let mut j: usize = i + 3;
    while j < size
        invariant
            i + 3 <= j <= size == p@.len(),
            property_end(p@, i as int) == brace_close(p@, j as int),
        decreases size - j,
    {
        if p[j] == '}' {
            return Some(j + 1);
        }
        j = j + 1;
    }
    None
}

/// End of the unit that starts at `i`.
fn find_unit_end(p: &[char], i: usize) -> (end: usize)
    requires
        i < p@.len(),
    ensures
        end == unit_end(p@, i as int),
        i < end <= p@.len(),
{
    proof {
        lemma_unit_bounds(p@, i as int);
    }
    if p[i] == '\\' {
        if let Some(e) = find_property_end(p, i) {
            return e;
        }
        if p.len() - i >= 2 {
            return i + 2;
        }
        return p.len();
    }
    if p[i] != '[' {
        return i + 1;
    }
    let mut k: usize = i + 1;
    if k < p.len() && p[k] == '^' {
        k = k + 1;
    }
    if k < p.len() && p[k] == ']' {
        k = k + 1;
    }
    while k < p.len()
        invariant
            i < k <= p@.len(),
            unit_end(p@, i as int) == class_close(p@, k as int),
            class_close(p@, k as int) <= p@.len(),
        decreases p@.len() - k,
    {
        if p[k] == '\\' {
            if p.len() - k < 2 {
                return p.len();
            }
            k = k + 2;
        } else if p[k] == ']' {
            return k + 1;
        } else {
            match find_posix_end(p, k) {
                Some(e) => {
                    k = e;
                },
                None => {
                    k = k + 1;
                },
            }
        }
    }
    k
}

// ---- alternation branches ----

/// The branches from position `i` on, `cur` being what the current one holds so far.
pub open spec fn split_from(p: Seq<char>, i: int, cur: Seq<char>) -> Seq<Seq<char>>
    decreases p.len() - i,
{
    if i < 0 || i >= p.len() {
        seq![cur]
    } else if p[i] == '|' {
        seq![cur] + split_from(p, i + 1, Seq::empty())
    } else {
        proof {
            lemma_unit_bounds(p, i);
        }
        split_from(p, unit_end(p, i), cur + p.subrange(i, unit_end(p, i)))
    }
}

/// The alternation branches of a pattern: what lies between its `|` units.
pub open spec fn branches(p: Seq<char>) -> Seq<Seq<char>> {
    split_from(p, 0, Seq::empty())
}

/// The parts joined by `|`.
pub open spec fn join_bars(parts: Seq<Seq<char>>) -> Seq<char>
    decreases parts.len(),
{
    if parts.len() == 0 {
        Seq::empty()
    } else if parts.len() == 1 {
        parts[0]
    } else {
        parts[0] + seq!['|'] + join_bars(parts.drop_first())
    }
}

/// Splitting loses nothing: the branches joined by `|` give the pattern back.
pub proof fn law_branches_join_to_pattern(p: Seq<char>)
    ensures
        branches(p).len() >= 1,
        join_bars(branches(p)) == p,
{
    lemma_split_joins(p, 0, Seq::empty());
    assert(p.skip(0) =~= p);
    assert(Seq::<char>::empty() + p =~= p);
}

proof fn lemma_split_joins(p: Seq<char>, i: int, cur: Seq<char>)
    requires
        0 <= i <= p.len(),
    ensures
        split_from(p, i, cur).len() >= 1,
        join_bars(split_from(p, i, cur)) == cur + p.skip(i),
    decreases p.len() - i,
{
    if i >= p.len() {
        assert(cur + p.skip(i) =~= cur);
    } else if p[i] == '|' {
        let rest = split_from(p, i + 1, Seq::empty());
        lemma_split_joins(p, i + 1, Seq::empty());
        let all = seq![cur] + rest;
        assert(all.drop_first() =~= rest);
        assert(cur + seq!['|'] + (Seq::<char>::empty() + p.skip(i + 1)) =~= cur + p.skip(i));
    } else {
        lemma_unit_bounds(p, i);
        let e = unit_end(p, i);
        lemma_split_joins(p, e, cur + p.subrange(i, e));
        assert(cur + p.subrange(i, e) + p.skip(e) =~= cur + p.skip(i));
    }
}

/// Some unit from position `i` on is a bar.
pub open spec fn bar_from(p: Seq<char>, i: int) -> bool
    decreases p.len() - i,
{
    if i < 0 || i >= p.len() {
        false
    } else if p[i] == '|' {
        true
    } else {
        proof {
            lemma_unit_bounds(p, i);
        }
        bar_from(p, unit_end(p, i))
    }
}

/// Reading units from `s` on leads to `e` without meeting a bar.
spec fn leads_to(p: Seq<char>, s: int, e: int) -> bool
    decreases p.len() - s,
{
    if s >= e || s < 0 || s >= p.len() {
        s == e
    } else {
        proof {
            lemma_unit_bounds(p, s);
        }
        p[s] != '|' && leads_to(p, unit_end(p, s), e)
    }
}

proof fn lemma_leads_on(p: Seq<char>, s: int, i: int)
    requires
        0 <= s <= i < p.len(),
        leads_to(p, s, i),
        p[i] != '|',
    ensures
        leads_to(p, s, unit_end(p, i)),
    decreases i - s,
{
    lemma_unit_bounds(p, i);
    if s < i {
        lemma_unit_bounds(p, s);
        lemma_leads_within(p, unit_end(p, s), i);
        lemma_leads_on(p, unit_end(p, s), i);
    } else {
        assert(leads_to(p, unit_end(p, i), unit_end(p, i)));
    }
}

proof fn lemma_leads_within(p: Seq<char>, s: int, e: int)
    requires
        leads_to(p, s, e),
    ensures
        s <= e,
{
}

proof fn lemma_name_in_part(p: Seq<char>, s: int, e: int, j: int)
    requires
        0 <= s <= j <= e <= p.len(),
    ensures
        name_end(p, j) <= e ==> name_end(p.subrange(s, e), j - s) == name_end(p, j) - s,
        name_end(p, j) > e ==> name_end(p.subrange(s, e), j - s) == e - s,
    decreases e - j,
{
    lemma_name_bounds(p, j);
    if j < e {
        assert(p.subrange(s, e)[j - s] == p[j]);
        if 'a' <= p[j] && p[j] <= 'z' {
            lemma_name_in_part(p, s, e, j + 1);
        }
    }
}

/// A named class stands in a part of a pattern where it stands in the pattern.
pub proof fn lemma_posix_in_part(p: Seq<char>, s: int, e: int, j: int)
    requires
        0 <= s <= j < e <= p.len(),
    ensures
        posix_end(p.subrange(s, e), j - s) matches Some(x) ==> posix_end(p, j) == Some(x + s),
        posix_end(p, j) matches Some(x) ==> x <= e ==> posix_end(p.subrange(s, e), j - s) == Some(x - s),
{
    let a = p.subrange(s, e);
    assert forall|k: int| s <= k < e implies a[k - s] == #[trigger] p[k] by {}
    lemma_posix_bounds(a, j - s);
    lemma_posix_bounds(p, j);
    if j + 2 <= e {
        let n = skip_char(p, j + 2, '^');
        if j + 2 < e {
            assert(a[j + 2 - s] == p[j + 2]);
        }
        lemma_name_bounds(p, n);
        if n <= e {
            lemma_name_in_part(p, s, e, n);
            let x = name_end(p, n);
            if x <= e {
                assert(a.subrange(n - s, x - s) =~= p.subrange(n, x));
            }
            if j + 2 < e {
                assert(skip_char(a, j + 2 - s, '^') == n - s);
            }
        }
        assert(a[j - s] == p[j] && a[j + 1 - s] == p[j + 1]);
        if name_end(p, n) + 1 < e {
            assert(a[name_end(p, n) - s] == p[name_end(p, n)]);
            assert(a[name_end(p, n) + 1 - s] == p[name_end(p, n) + 1]);
        }
    }
}

proof fn lemma_brace_in_part(p: Seq<char>, s: int, e: int, j: int)
    requires
        0 <= s <= j <= e <= p.len(),
    ensures
        brace_close(p.subrange(s, e), j - s) matches Some(x) ==> brace_close(p, j) == Some(x + s),
        brace_close(p, j) matches Some(x) ==> x <= e ==> brace_close(p.subrange(s, e), j - s) == Some(x - s),
    decreases e - j,
{
    lemma_brace_bounds(p, j);
    if j < e {
        assert(p.subrange(s, e)[j - s] == p[j]);
        if p[j] != '}' {
            lemma_brace_in_part(p, s, e, j + 1);
        }
    }
}

proof fn lemma_close_in_part(p: Seq<char>, s: int, e: int, j: int)
    requires
        0 <= s <= j <= e <= p.len(),
        class_close(p, j) <= e,
    ensures
        class_close(p.subrange(s, e), j - s) == class_close(p, j) - s,
    decreases p.len() - j,
{
    let a = p.subrange(s, e);
    lemma_class_close_bounds(p, j);
    if j < e {
        assert(a[j - s] == p[j]);
        if p[j] == '\\' {
            if j + 2 <= p.len() {
                lemma_class_close_bounds(p, j + 2);
                lemma_close_in_part(p, s, e, j + 2);
            }
        } else if p[j] != ']' {
            lemma_posix_in_part(p, s, e, j);
            lemma_posix_bounds(p, j);
            match posix_end(p, j) {
                Some(x) => {
                    lemma_class_close_bounds(p, x);
                    lemma_close_in_part(p, s, e, x);
                },
                None => lemma_close_in_part(p, s, e, j + 1),
            }
        }
    } else if j < p.len() {
        lemma_close_moves(p, j);
    }
}

proof fn lemma_close_moves(p: Seq<char>, j: int)
    requires
        0 <= j < p.len(),
    ensures
        class_close(p, j) > j,
{
    if p[j] == '\\' {
        if j + 2 <= p.len() {
            lemma_class_close_bounds(p, j + 2);
        }
    } else if p[j] != ']' {
        lemma_posix_bounds(p, j);
        match posix_end(p, j) {
            Some(x) => lemma_class_close_bounds(p, x),
            None => lemma_class_close_bounds(p, j + 1),
        }
    }
}

proof fn lemma_unit_in_part(p: Seq<char>, s: int, e: int, i: int)
    requires
        0 <= s <= i < e <= p.len(),
        unit_end(p, i) <= e,
    ensures
        unit_end(p.subrange(s, e), i - s) == unit_end(p, i) - s,
{
    let a = p.subrange(s, e);
    assert(a[i - s] == p[i]);
    if p[i] == '\\' && i + 3 <= e {
        assert(a[i + 1 - s] == p[i + 1] && a[i + 2 - s] == p[i + 2]);
        lemma_brace_in_part(p, s, e, i + 3);
    }
    if p[i] == '\\' && property_end(p, i) is Some {
        lemma_brace_bounds(p, i + 3);
    }
    if p[i] == '[' {
        lemma_body_in_part(p, s, e, i + 1);
        lemma_close_in_part(p, s, e, class_body(p, i + 1));
    }
}

proof fn lemma_body_in_part(p: Seq<char>, s: int, e: int, i: int)
    requires
        0 <= s <= i <= e <= p.len(),
        class_close(p, class_body(p, i)) <= e,
    ensures
        class_body(p, i) <= e,
        class_body(p.subrange(s, e), i - s) == class_body(p, i) - s,
{
    let a = p.subrange(s, e);
    let b = class_body(p, i);
    assert(b <= p.len());
    lemma_class_close_bounds(p, b);
    assert(b <= e);
    let c = skip_char(p, i, '^');
    if i < e {
        assert(a[i - s] == p[i]);
    } else if i < p.len() {
        if b == i {
            lemma_close_moves(p, b);
        }
    }
    assert(skip_char(a, i - s, '^') == c - s);
    if c < e {
        assert(a[c - s] == p[c]);
    } else if c < p.len() && b == c {
        lemma_close_moves(p, b);
    }
}

proof fn lemma_part_holds_no_bar(p: Seq<char>, s: int, e: int, x: int)
    requires
        0 <= s <= x <= e <= p.len(),
        leads_to(p, x, e),
    ensures
        !bar_from(p.subrange(s, e), x - s),
    decreases e - x,
{
    if x < e {
        lemma_unit_bounds(p, x);
        lemma_leads_within(p, unit_end(p, x), e);
        lemma_unit_in_part(p, s, e, x);
        assert(p.subrange(s, e)[x - s] == p[x]);
        lemma_part_holds_no_bar(p, s, e, unit_end(p, x));
    }
}

proof fn lemma_split_holds_no_bar(p: Seq<char>, s: int, i: int, k: int)
    requires
        0 <= s <= i <= p.len(),
        leads_to(p, s, i),
        0 <= k < split_from(p, i, p.subrange(s, i)).len(),
    ensures
        !bar_from(split_from(p, i, p.subrange(s, i))[k], 0),
    decreases p.len() - i,
{
    let cur = p.subrange(s, i);
    lemma_part_holds_no_bar(p, s, i, s);
    if i < p.len() {
        if p[i] == '|' {
            if k > 0 {
                assert(p.subrange(i + 1, i + 1) =~= Seq::empty());
                lemma_split_holds_no_bar(p, i + 1, i + 1, k - 1);
            }
        } else {
            lemma_unit_bounds(p, i);
            let e = unit_end(p, i);
            lemma_leads_on(p, s, i);
            assert(cur + p.subrange(i, e) =~= p.subrange(s, e));
            lemma_split_holds_no_bar(p, s, e, k);
        }
    }
}

/// Splitting leaves no alternation behind: no branch holds a bar that is neither escaped
/// nor in a class.
pub proof fn law_branch_holds_no_bar(p: Seq<char>, k: int)
    requires
        0 <= k < branches(p).len(),
    ensures
        !bar_from(branches(p)[k], 0),
{
    assert(p.subrange(0, 0) =~= Seq::empty());
    lemma_split_holds_no_bar(p, 0, 0, k);
}

/// Split on unescaped `|` outside `[...]` classes; everything else is copied.
pub fn split_branches(pattern: &str) -> (out: Vec<String>)
    ensures
        views(out@) == branches(pattern@),
{
    let p: Vec<char> = chars_of(pattern);
    let mut out: Vec<String> = Vec::new();
    let mut cur: Vec<char> = Vec::new();
    let mut i: usize = 0;
    while i < p.len()
        invariant
            p@ == pattern@,
            i <= p@.len(),
            views(out@) + split_from(p@, i as int, cur@) == branches(p@),
        decreases p@.len() - i,
    {
        proof {
            lemma_unit_bounds(p@, i as int);
        }
        let ghost had = views(out@);
        let ghost was = cur@;
        if p[i] == '|' {
            out.push(string_of(&cur));
            cur = Vec::new();
            proof {
                assert(views(out@) =~= had.push(was));
                let rest = split_from(p@, i + 1, Seq::empty());
                assert(had.push(was) + rest =~= had + (seq![was] + rest));
            }
            i = i + 1;
        } else {
            let end: usize = find_unit_end(&p, i);
            let ghost start = i as int;
            while i < end
                invariant
                    0 <= start <= i <= end <= p@.len(),
                    cur@ == was + p@.subrange(start, i as int),
                decreases end - i,
            {
                cur.push(p[i]);
                i = i + 1;
                assert(cur@ =~= was + p@.subrange(start, i as int));
            }
        }
    }
    let ghost had = views(out@);
    out.push(string_of(&cur));
    assert(views(out@) =~= had + seq![cur@]);
    out
}

// ---- literal runs ----

/// A finished run, when it holds anything.
pub open spec fn flushed(cur: Seq<u8>) -> Seq<Seq<u8>> {
    if cur.len() == 0 {
        Seq::empty()
    } else {
        seq![cur]
    }
}

/// The literal runs from position `i` on, `cur` being the run read so far.
pub open spec fn runs_from(p: Seq<char>, i: int, cur: Seq<u8>) -> Seq<Seq<u8>>
    decreases p.len() - i,
{
    if i < 0 || i >= p.len() {
        flushed(cur)
    } else if is_word_char(p[i]) {
        runs_from(p, i + 1, cur.push(p[i] as u8))
    } else {
        proof {
            lemma_unit_bounds(p, i);
        }
        flushed(cur) + runs_from(p, unit_end(p, i), Seq::empty())
    }
}

/// The maximal runs of word character units of a branch, as bytes.
pub open spec fn runs(branch: Seq<char>) -> Seq<Seq<u8>> {
    runs_from(branch, 0, Seq::empty())
}

fn is_word(c: char) -> (b: bool)
    ensures
        b == is_word_char(c),
{
    ('a' <= c && c <= 'z') || ('A' <= c && c <= 'Z') || ('0' <= c && c <= '9') || c == '_'
}

/// Definitely-literal alphanumeric-underscore runs: escapes and class contents
/// contribute nothing, and an unclosed `[` swallows the rest.
pub fn literal_runs(branch: &str) -> (out: Vec<Vec<u8>>)
    ensures
        byte_views(out@) == runs(branch@),
{
    let p: Vec<char> = chars_of(branch);
    let mut out: Vec<Vec<u8>> = Vec::new();
    let mut cur: Vec<u8> = Vec::new();
    let mut i: usize = 0;
    while i < p.len()
        invariant
            p@ == branch@,
            i <= p@.len(),
            byte_views(out@) + runs_from(p@, i as int, cur@) == runs(p@),
        decreases p@.len() - i,
    {
        proof {
            lemma_unit_bounds(p@, i as int);
        }
        if is_word(p[i]) {
            cur.push(p[i] as u8);
            i = i + 1;
        } else {
            let ghost had = byte_views(out@);
            let ghost was = cur@;
            if cur.len() > 0 {
                out.push(cur);
                cur = Vec::new();
            }
            i = find_unit_end(&p, i);
            proof {
                assert(byte_views(out@) =~= had + flushed(was));
                let rest = runs_from(p@, i as int, Seq::empty());
                assert(had + flushed(was) + rest =~= had + (flushed(was) + rest));
                assert(cur@ =~= Seq::<u8>::empty());
            }
        }
    }
    let ghost had = byte_views(out@);
    let ghost was = cur@;
    if cur.len() > 0 {
        out.push(cur);
    }
    assert(byte_views(out@) =~= had + flushed(was));
    out
}

// ---- soundness fallback ----

/// The unit at `i` can make a match lack a literal run: a `(?` group, a `*` or `?`
/// quantifier, or a counted repetition.
pub open spec fn drops_literal(p: Seq<char>, i: int) -> bool {
    ||| p[i] == '(' && i + 1 < p.len() && p[i + 1] == '?'
    ||| p[i] == '*'
    ||| p[i] == '?'
    ||| p[i] == '{' && i + 1 < p.len() && '0' <= p[i + 1] && p[i + 1] <= '9'
}

/// Some unit from position `i` on can drop a literal.
pub open spec fn fallback_from(p: Seq<char>, i: int) -> bool
    decreases p.len() - i,
{
    if i < 0 || i >= p.len() {
        false
    } else if drops_literal(p, i) {
        true
    } else {
        proof {
            lemma_unit_bounds(p, i);
        }
        fallback_from(p, unit_end(p, i))
    }
}

/// Whether a branch holds an unescaped `(?`, `*`, `?` or `{` before a digit outside
/// a class. Each can drop a required trigram, so it forces a full scan.
pub fn branch_needs_fallback(branch: &str) -> (b: bool)
    ensures
        b == fallback_from(branch@, 0),
{
    let p: Vec<char> = chars_of(branch);
    let mut i: usize = 0;
    while i < p.len()
        invariant
            p@ == branch@,
            i <= p@.len(),
            fallback_from(p@, i as int) == fallback_from(p@, 0),
        decreases p@.len() - i,
    {
        let c: char = p[i];
        let next: Option<char> = if i + 1 < p.len() {
            Some(p[i + 1])
        } else {
            None
        };
        let drops: bool = match next {
            Some(n) => c == '*' || c == '?' || (c == '(' && n == '?') || (c == '{' && '0' <= n && n <= '9'),
            None => c == '*' || c == '?',
        };
        if drops {
            return true;
        }
        i = find_unit_end(&p, i);
    }
    false
}

// ---- plain patterns ----

/// What behind a backslash is an escape of two characters: a letter that is a class, an
/// assertion or a control character, or an ASCII sign. Every other escape may take up
/// more.
pub open spec fn is_shorthand(c: char) -> bool {
    if is_word_char(c) && c != '_' {
        c == 'd' || c == 'D' || c == 's' || c == 'S' || c == 'w' || c == 'W' || c == 'b' || c == 'B' || c == 'A' || c
            == 'z' || c == 'n' || c == 't' || c == 'r' || c == 'f' || c == 'v' || c == 'a'
    } else {
        c <= '\u{7f}'
    }
}

/// The class body from position `i` on is closed, and no bracket opens in it but that of
/// a named class. Behind a plain `-` (`dash`) such a bracket could end a range.
pub open spec fn class_is_plain(p: Seq<char>, i: int, dash: bool) -> bool
    decreases p.len() - i,
{
    if i < 0 || i >= p.len() {
        false
    } else if p[i] == '\\' {
        i + 1 < p.len() && class_is_plain(p, i + 2, false)
    } else if p[i] == ']' {
        true
    } else if p[i] == '[' {
        proof {
            lemma_posix_bounds(p, i);
        }
        !dash && (posix_end(p, i) matches Some(e) && class_is_plain(p, e, false))
    } else {
        class_is_plain(p, i + 1, p[i] == '-')
    }
}

/// The pattern from position `i` on, inside `depth` groups, is made of characters that
/// stand for themselves or for one character, escapes of two characters, character
/// properties, classes without other classes than named ones inside, groups, bars, and
/// `+` behind something that it repeats (`rep`).
pub open spec fn plain_from(p: Seq<char>, i: int, depth: nat, rep: bool) -> bool
    decreases p.len() - i,
{
    if i < 0 || i >= p.len() {
        depth == 0
    } else if p[i] == '\\' {
        proof {
            lemma_unit_bounds(p, i);
        }
        match property_end(p, i) {
            Some(e) => plain_from(p, e, depth, true),
            None => i + 1 < p.len() && is_shorthand(p[i + 1]) && plain_from(p, i + 2, depth, true),
        }
    } else if p[i] == '[' {
        proof {
            lemma_unit_bounds(p, i);
        }
        class_is_plain(p, class_body(p, i + 1), false) && plain_from(p, unit_end(p, i), depth, true)
    } else if p[i] == '(' {
        plain_from(p, i + 1, depth + 1, false)
    } else if p[i] == ')' {
        depth > 0 && plain_from(p, i + 1, (depth - 1) as nat, true)
    } else if p[i] == '|' {
        plain_from(p, i + 1, depth, false)
    } else if p[i] == '+' {
        rep && plain_from(p, i + 1, depth, true)
    } else {
        p[i] != '*' && p[i] != '?' && p[i] != '{' && plain_from(p, i + 1, depth, true)
    }
}

/// The literal runs of the pattern can be told from its lexical units. A pattern that is
/// not read so, such as one with a longer escape, a nested class or a counted repetition,
/// is searched for without its trigrams.
pub open spec fn reads_plainly(p: Seq<char>) -> bool {
    plain_from(p, 0, 0, false)
}

/// Whether a character is an escape of two characters behind a backslash.
fn shorthand(c: char) -> (b: bool)
    ensures
        b == is_shorthand(c),
{
    let word: bool = ('a' <= c && c <= 'z') || ('A' <= c && c <= 'Z') || ('0' <= c && c <= '9');
    if word {
        c == 'd' || c == 'D' || c == 's' || c == 'S' || c == 'w' || c == 'W' || c == 'b' || c == 'B' || c == 'A' || c
            == 'z' || c == 'n' || c == 't' || c == 'r' || c == 'f' || c == 'v' || c == 'a'
    } else {
        c <= '\u{7f}'
    }
}

/// Whether the class that opens at `i` is closed and holds no other class than named
/// ones.
fn plain_class(p: &[char], i: usize) -> (b: bool)
    requires
        i < p@.len(),
    ensures
        b == class_is_plain(p@, class_body(p@, i + 1), false),
{
    let size: usize = p.len();
    let mut k: usize = i + 1;
    if k < size && p[k] == '^' {
        k = k + 1;
    }
    if k < p.len() && p[k] == ']' {
        k = k + 1;
    }
    let mut dash: bool = false;
    while k < p.len()
        invariant
            k <= p@.len(),
            class_is_plain(p@, class_body(p@, i + 1), false) == class_is_plain(p@, k as int, dash),
        decreases p@.len() - k,
    {
        if p[k] == '\\' {
            if p.len() - k < 2 {
                return false;
            }
            k = k + 2;
            dash = false;
        } else if p[k] == ']' {
            return true;
        } else if p[k] == '[' {
            if dash {
                return false;
            }
            match find_posix_end(p, k) {
                Some(e) => {
                    k = e;
                },
                None => return false,
            }
        } else {
            dash = p[k] == '-';
            k = k + 1;
        }
    }
    false
}

/// Whether the literal runs of a pattern can be told from its lexical units.
pub fn is_plain_pattern(pattern: &str) -> (b: bool)
    ensures
        b == reads_plainly(pattern@),
{
    let p: Vec<char> = chars_of(pattern);
    let mut i: usize = 0;
    let mut depth: usize = 0;
    let mut rep: bool = false;
    while i < p.len()
        invariant
            p@ == pattern@,
            i <= p@.len(),
            depth <= i,
            plain_from(p@, i as int, depth as nat, rep) == reads_plainly(p@),
        decreases p@.len() - i,
    {
        let c: char = p[i];
        let end: usize = find_unit_end(&p, i);
        if c == '\\' {
            if find_property_end(&p, i).is_none() && (p.len() - i < 2 || !shorthand(p[i + 1])) {
                return false;
            }
            rep = true;
        } else if c == '[' {
            if !plain_class(&p, i) {
                return false;
            }
            rep = true;
        } else if c == '(' {
            depth = depth + 1;
            rep = false;
        } else if c == ')' {
            if depth == 0 {
                return false;
            }
            depth = depth - 1;
            rep = true;
        } else if c == '|' {
            rep = false;
        } else if c == '+' {
            if !rep {
                return false;
            }
        } else if c == '*' || c == '?' || c == '{' {
            return false;
        } else {
            rep = true;
        }
        i = end;
    }
    depth == 0
}

// ---- required trigrams ----

/// The trigrams of the literal runs of a branch.
pub open spec fn branch_grams(branch: Seq<char>) -> Set<u32> {
    Set::new(|g: u32| exists|k: int| 0 <= k < runs(branch).len() && has_gram(#[trigger] runs(branch)[k], g))
}

/// The branch has trigrams that every match of it holds.
pub open spec fn branch_usable(branch: Seq<char>) -> bool {
    !fallback_from(branch, 0) && exists|g: u32| branch_grams(branch).contains(g)
}

/// For each branch of the pattern the trigrams it requires; `None` when some branch
/// requires none, or when the pattern does not tell.
pub open spec fn required_grams(pattern: Seq<char>) -> Option<Seq<Set<u32>>> {
    let parts = branches(pattern);
    if reads_plainly(pattern) && forall|k: int| 0 <= k < parts.len() ==> branch_usable(#[trigger] parts[k]) {
        Some(Seq::new(parts.len(), |k: int| branch_grams(parts[k])))
    } else {
        None
    }
}

/// The trigrams of a text.
pub open spec fn text_grams(text: Seq<u8>) -> Set<u32> {
    Set::new(|g: u32| has_gram(text, g))
}

/// What one pattern of a query requires: a fixed pattern has a single branch, its
/// whole text, and needs at least three bytes.
pub open spec fn pattern_grams(pattern: Seq<char>, fixed: bool) -> Option<Seq<Set<u32>>> {
    if !fixed {
        required_grams(pattern)
    } else if vstd::utf8::encode_utf8(pattern).len() < 3 {
        None
    } else {
        Some(seq![text_grams(vstd::utf8::encode_utf8(pattern))])
    }
}

/// The alternatives of all patterns, in order; `None` when some pattern has none.
pub open spec fn all_pattern_grams(patterns: Seq<Seq<char>>, fixed: bool) -> Option<Seq<Set<u32>>>
    decreases patterns.len(),
{
    if patterns.len() == 0 {
        Some(Seq::empty())
    } else {
        match (all_pattern_grams(patterns.drop_last(), fixed), pattern_grams(patterns.last(), fixed)) {
            (Some(a), Some(b)) => Some(a + b),
            _ => None,
        }
    }
}

/// The lists are sorted and hold the given sets, one for one.
pub open spec fn lists_hold(lists: Seq<Vec<u32>>, sets: Seq<Set<u32>>) -> bool {
    &&& lists.len() == sets.len()
    &&& forall|k: int| 0 <= k < lists.len() ==> strictly_sorted((#[trigger] lists[k])@)
    &&& forall|k: int, g: u32|
        0 <= k < lists.len() ==> (#[trigger] lists[k]@.contains(g) <==> sets[k].contains(g))
}

/// A result of gram extraction says what is required.
pub open spec fn grams_agree(got: Option<Vec<Vec<u32>>>, want: Option<Seq<Set<u32>>>) -> bool {
    match (got, want) {
        (Some(lists), Some(sets)) => lists_hold(lists@, sets),
        (None, None) => true,
        _ => false,
    }
}

/// A text in which every literal run of a branch occurs holds every trigram that
/// the branch requires.
pub proof fn law_runs_give_required_grams(branch: Seq<char>, text: Seq<u8>)
    requires
        forall|k: int| 0 <= k < runs(branch).len() ==> occurs_in(#[trigger] runs(branch)[k], text),
    ensures
        branch_grams(branch).subset_of(text_grams(text)),
{
    assert forall|g: u32| branch_grams(branch).contains(g) implies text_grams(text).contains(g) by {
        let k = choose|k: int| 0 <= k < runs(branch).len() && has_gram(#[trigger] runs(branch)[k], g);
        law_grams_of_part(runs(branch)[k], text, g);
    }
}

/// Append the trigrams of `run` to `all`.
fn add_grams(run: &[u8], all: &mut Vec<u32>)
    ensures
        forall|g: u32| #[trigger] final(all)@.contains(g) <==> old(all)@.contains(g) || has_gram(run@, g),
{
    let ghost had = all@;
    let mut i: usize = 0;
    while run.len() >= 3 && i <= run.len() - 3
        invariant
            i <= run@.len(),
            forall|g: u32| #[trigger]
                all@.contains(g) <==> had.contains(g) || exists|k: int| k < i && gram_at(run@, k, g),
        decreases run@.len() - i,
    {
        let g: u32 = gram_pack(&[run[i], run[i + 1], run[i + 2]]);
        let ghost before = all@;
        all.push(g);
        proof {
            assert(gram_at(run@, i as int, g));
            assert(all@[before.len() as int] == g);
            assert forall|h: u32| #[trigger]
                all@.contains(h) <==> had.contains(h) || exists|k: int| k < i + 1 && gram_at(run@, k, h) by {
                if all@.contains(h) {
                    let x = choose|x: int| 0 <= x < all@.len() && all@[x] == h;
                    if x < before.len() {
                        assert(before[x] == h);
                        assert(before.contains(h));
                        if !had.contains(h) {
                            let k = choose|k: int| k < i && gram_at(run@, k, h);
                            assert(k < i + 1 && gram_at(run@, k, h));
                        }
                    } else {
                        assert(i < i + 1 && gram_at(run@, i as int, h));
                    }
                }
                if before.contains(h) {
                    let x = choose|x: int| 0 <= x < before.len() && before[x] == h;
                    assert(all@[x] == h);
                }
                if exists|k: int| k < i + 1 && gram_at(run@, k, h) {
                    let k = choose|k: int| k < i + 1 && gram_at(run@, k, h);
                    if k < i {
                        assert(before.contains(h));
                    }
                }
            }
        }
        i = i + 1;
    }
}

/// Regex-aware literal extraction: for each alternation branch the trigrams of its
/// literal runs, ascending. Group depth is ignored on purpose: `(a|b)` still
/// alternates, so its `|` separates branches. `None` means that some branch has no
/// usable literal, or that the pattern holds what could change which literals a match
/// holds, and the caller must scan everything.
pub fn query_grams(pattern: &str) -> (ors: Option<Vec<Vec<u32>>>)
    ensures
        grams_agree(ors, required_grams(pattern@)),
{
    if !is_plain_pattern(pattern) {
        return None;
    }
    let parts: Vec<String> = split_branches(pattern);
    let mut ors: Vec<Vec<u32>> = Vec::new();
    let mut k: usize = 0;
    while k < parts.len()
        invariant
            k <= parts@.len(),
            reads_plainly(pattern@),
            views(parts@) == branches(pattern@),
            lists_hold(ors@, Seq::new(k as nat, |x: int| branch_grams(branches(pattern@)[x]))),
            forall|x: int| 0 <= x < k ==> branch_usable(#[trigger] branches(pattern@)[x]),
        decreases parts@.len() - k,
    {
        let ghost branch = branches(pattern@)[k as int];
        assert(branch == parts@[k as int]@);
        if branch_needs_fallback(parts[k].as_str()) {
            return None;
        }
        let found: Vec<Vec<u8>> = literal_runs(parts[k].as_str());
        assert(byte_views(found@) == runs(branch));
        let mut all: Vec<u32> = Vec::new();
        let mut r: usize = 0;
        while r < found.len()
            invariant
                r <= found@.len(),
                byte_views(found@) == runs(branch),
                forall|g: u32| #[trigger]
                    all@.contains(g) <==> exists|x: int| 0 <= x < r && has_gram(#[trigger] runs(branch)[x], g),
            decreases found@.len() - r,
        {
            let ghost before = all@;
            add_grams(&found[r], &mut all);
            proof {
                assert(runs(branch)[r as int] == found@[r as int]@);
                assert forall|g: u32| #[trigger]
                    all@.contains(g) <==> exists|x: int| 0 <= x < r + 1 && has_gram(#[trigger] runs(branch)[x], g) by {
                    if all@.contains(g) {
                        if before.contains(g) {
                            let x = choose|x: int| 0 <= x < r && has_gram(#[trigger] runs(branch)[x], g);
                            assert(0 <= x < r + 1 && has_gram(runs(branch)[x], g));
                        } else {
                            assert(0 <= r < r + 1 && has_gram(runs(branch)[r as int], g));
                        }
                    }
                    if exists|x: int| 0 <= x < r + 1 && has_gram(#[trigger] runs(branch)[x], g) {
                        let x = choose|x: int| 0 <= x < r + 1 && has_gram(#[trigger] runs(branch)[x], g);
                        if x < r {
                            assert(before.contains(g));
                        }
                    }
                }
            }
            r = r + 1;
        }
        assert(forall|g: u32| #[trigger] all@.contains(g) <==> branch_grams(branch).contains(g));
        if all.len() == 0 {
            proof {
                assert forall|g: u32| !branch_grams(branch).contains(g) by {
                    assert(!all@.contains(g));
                }
            }
            return None;
        }
        assert(all@.contains(all@[0]));
        let ghost before = ors@;
        ors.push(sorted_unique(&all));
        k = k + 1;
        assert(ors@.last()@ == ors@[k - 1]@);
    }
    Some(ors)
}

/// The alternatives of several patterns together. A fixed pattern requires every
/// trigram of its text, so one shorter than three bytes forces a full scan; a
/// pattern without usable trigrams does too, since it can match files that lack
/// the trigrams of the other patterns.
pub fn query_grams_multi(patterns: &[String], fixed: bool) -> (ors: Option<Vec<Vec<u32>>>)
    ensures
        grams_agree(ors, all_pattern_grams(views(patterns@), fixed)),
{
    let mut ors: Vec<Vec<u32>> = Vec::new();
    let mut k: usize = 0;
    while k < patterns.len()
        invariant
            k <= patterns@.len(),
            grams_agree(Some(ors), all_pattern_grams(views(patterns@).take(k as int), fixed)),
        decreases patterns@.len() - k,
    {
        let ghost done = views(patterns@).take(k as int);
        let ghost more = views(patterns@).take(k + 1);
        proof {
            assert(more.drop_last() =~= done);
            assert(more.last() == patterns@[k as int]@);
        }
        let found: Option<Vec<Vec<u32>>> = if fixed {
            let bytes: &[u8] = patterns[k].as_str().as_bytes();
            assert(bytes@ == vstd::utf8::encode_utf8(patterns@[k as int]@));
            if bytes.len() < 3 {
                None
            } else {
                let mut all: Vec<u32> = Vec::new();
                add_grams(bytes, &mut all);
                let mut one: Vec<Vec<u32>> = Vec::new();
                one.push(sorted_unique(&all));
                Some(one)
            }
        } else {
            query_grams(patterns[k].as_str())
        };
        assert(grams_agree(found, pattern_grams(patterns@[k as int]@, fixed)));
        match found {
            None => {
                proof {
                    lemma_prefix_without_grams(views(patterns@), k + 1, fixed);
                }
                return None;
            },
            Some(mut lists) => {
                let ghost a = ors@;
                let ghost b = lists@;
                ors.append(&mut lists);
                proof {
                    let want = all_pattern_grams(more, fixed)->Some_0;
                    assert(ors@ == a + b);
                    assert forall|x: int, g: u32| 0 <= x < ors@.len() implies (#[trigger] ors@[x]@.contains(g)
                        <==> want[x].contains(g)) by {
                        if x < a.len() {
                            assert(a[x]@.contains(g) <==> want[x].contains(g));
                        } else {
                            assert(b[x - a.len()]@.contains(g) <==> want[x].contains(g));
                        }
                    }
                }
            },
        }
        k = k + 1;
    }
    assert(views(patterns@).take(k as int) =~= views(patterns@));
    Some(ors)
}

proof fn lemma_prefix_without_grams(patterns: Seq<Seq<char>>, k: int, fixed: bool)
    requires
        0 <= k <= patterns.len(),
        all_pattern_grams(patterns.take(k), fixed) is None,
    ensures
        all_pattern_grams(patterns, fixed) is None,
    decreases patterns.len() - k,
{
    if k == patterns.len() {
        assert(patterns.take(k) =~= patterns);
    } else {
        assert(patterns.take(k + 1).drop_last() =~= patterns.take(k));
        lemma_prefix_without_grams(patterns, k + 1, fixed);
    }
}

// ---- what trigrams are required ----

/// A text holds a trigram exactly if its three bytes stand somewhere in it, the first one
/// weighing most.
pub proof fn law_trigrams_are_windows_of_three_bytes(text: Seq<u8>, g: u32)
    ensures
        has_gram(text, g) <==> exists|i: int|
            0 <= i && i + 3 <= text.len() && g == #[trigger] text[i] * 65536 + text[i + 1] * 256 + text[i + 2],
{
    if has_gram(text, g) {
        let i = choose|i: int| gram_at(text, i, g);
        assert(g == text[i] * 65536 + text[i + 1] * 256 + text[i + 2]);
    }
    assert forall|i: int|
        0 <= i && i + 3 <= text.len() && g == #[trigger] text[i] * 65536 + text[i + 1] * 256 + text[i + 2] implies has_gram(
        text,
        g,
    ) by {
        assert(gram_at(text, i, g));
    }
}

/// A literal pattern is looked up by all trigrams of its text, and not at all if it has none.
pub proof fn law_literals_are_looked_up_by_their_text(pattern: Seq<char>)
    ensures
        pattern_grams(pattern, true) is Some <==> vstd::utf8::encode_utf8(pattern).len() >= 3,
        pattern_grams(pattern, true) matches Some(sets) ==> sets.len() == 1 && forall|g: u32| #[trigger]
            sets[0].contains(g) <==> has_gram(vstd::utf8::encode_utf8(pattern), g),
{
}

/// Several patterns are looked up together exactly if each of them is, and then by the
/// alternatives of each, in order.
pub proof fn law_patterns_are_looked_up_together(patterns: Seq<Seq<char>>, fixed: bool)
    ensures
        all_pattern_grams(patterns, fixed) is Some <==> forall|k: int|
            0 <= k < patterns.len() ==> pattern_grams(#[trigger] patterns[k], fixed) is Some,
        all_pattern_grams(patterns, fixed) matches Some(sets) ==> sets == patterns.map_values(
            |p: Seq<char>| pattern_grams(p, fixed)->Some_0,
        ).flatten(),
    decreases patterns.len(),
{
    let give = |p: Seq<char>| pattern_grams(p, fixed)->Some_0;
    let all = patterns.map_values(give);
    all.lemma_flatten_and_flatten_alt_are_equivalent();
    if patterns.len() > 0 {
        let front = patterns.drop_last();
        law_patterns_are_looked_up_together(front, fixed);
        front.map_values(give).lemma_flatten_and_flatten_alt_are_equivalent();
        assert(all.drop_last() =~= front.map_values(give));
        assert(patterns[patterns.len() - 1] == patterns.last());
        assert(forall|k: int| 0 <= k < front.len() ==> front[k] == patterns[k]);
    }
}

/// A word of three letters or more is looked up, by all trigrams of it; and so are several
/// words between bars, each as an alternative of its own.
pub proof fn law_words_are_looked_up_by_their_trigrams(words: Seq<Seq<char>>)
    requires
        words.len() > 0,
        forall|k: int| 0 <= k < words.len() ==> (#[trigger] words[k]).len() >= 3,
        forall|k: int, i: int|
            0 <= k < words.len() && 0 <= i < words[k].len() ==> is_word_char(#[trigger] words[k][i]),
    ensures
        required_grams(join_bars(words)) matches Some(sets) && sets.len() == words.len() && forall|k: int, g: u32|
            0 <= k < words.len() ==> (#[trigger] sets[k].contains(g) <==> has_gram(
                vstd::utf8::encode_utf8(words[k]),
                g,
            )),
{
    let p = join_bars(words);
    lemma_bars_of_words(words, Seq::empty(), false);
    assert(Seq::<char>::empty() + p =~= p);
    let parts = branches(p);
    assert(parts == words);
    assert forall|k: int| 0 <= k < parts.len() implies branch_usable(#[trigger] parts[k]) && forall|g: u32| #[trigger]
        branch_grams(parts[k]).contains(g) <==> has_gram(vstd::utf8::encode_utf8(words[k]), g) by {
        let w = words[k];
        assert(forall|i: int| 0 <= i < w.len() ==> is_word_char(words[k][i]));
        lemma_word_is_usable(w);
    }
}

proof fn lemma_word_is_usable(w: Seq<char>)
    requires
        w.len() >= 3,
        forall|i: int| 0 <= i < w.len() ==> is_word_char(#[trigger] w[i]),
    ensures
        branch_usable(w),
        forall|g: u32| #[trigger] branch_grams(w).contains(g) <==> has_gram(vstd::utf8::encode_utf8(w), g),
{
    let bytes = vstd::utf8::encode_utf8(w);
    assert forall|i: int| 0 <= i < w.len() implies '\0' <= #[trigger] w[i] <= '\u{7f}' by {
        assert(is_word_char(w[i]));
    }
    vstd::utf8::is_ascii_chars_encode_utf8(w);
    let want = Seq::new(w.len(), |k: int| w[k] as u8);
    assert(want =~= bytes);
    lemma_word_run(w, 0);
    assert(Seq::new(0, |k: int| w[k] as u8) =~= Seq::<u8>::empty());
    assert(runs(w) == seq![bytes]);
    assert forall|g: u32| #[trigger] branch_grams(w).contains(g) <==> has_gram(bytes, g) by {
        assert(runs(w)[0] == bytes);
        if has_gram(bytes, g) {
            assert(has_gram(runs(w)[0], g));
        }
    }
    let g = pack3(bytes[0], bytes[1], bytes[2]);
    assert(gram_at(bytes, 0, g));
    assert(branch_grams(w).contains(g));
}

proof fn lemma_word_run(w: Seq<char>, i: int)
    requires
        w.len() > 0,
        0 <= i <= w.len(),
        forall|i: int| 0 <= i < w.len() ==> is_word_char(#[trigger] w[i]),
    ensures
        runs_from(w, i, Seq::new(i as nat, |k: int| w[k] as u8)) == seq![Seq::new(w.len(), |k: int| w[k] as u8)],
        !fallback_from(w, i),
    decreases w.len() - i,
{
    let cur = Seq::new(i as nat, |k: int| w[k] as u8);
    if i < w.len() {
        assert(is_word_char(w[i]));
        lemma_word_run(w, i + 1);
        assert(cur.push(w[i] as u8) =~= Seq::new((i + 1) as nat, |k: int| w[k] as u8));
    }
}

/// Words between bars split at the bars, and read plainly.
proof fn lemma_bars_of_words(words: Seq<Seq<char>>, pre: Seq<char>, rep: bool)
    requires
        words.len() > 0,
        forall|k: int, i: int|
            0 <= k < words.len() && 0 <= i < words[k].len() ==> is_word_char(#[trigger] words[k][i]),
    ensures
        split_from(pre + join_bars(words), pre.len() as int, Seq::empty()) == words,
        plain_from(pre + join_bars(words), pre.len() as int, 0, rep),
    decreases words.len(),
{
    let w = words[0];
    let p = pre + join_bars(words);
    let e = pre.len() + w.len();
    if words.len() == 1 {
        assert(p =~= pre + w);
        assert forall|i: int| pre.len() <= i < e implies is_word_char(#[trigger] p[i]) by {
            assert(p[i] == words[0][i - pre.len()]);
        }
        lemma_word_between(p, pre.len() as int, pre.len() as int, e as int, rep);
        assert(p.subrange(pre.len() as int, pre.len() as int) =~= Seq::empty());
        assert(p.subrange(pre.len() as int, e as int) =~= w);
        assert(seq![w] =~= words);
    } else {
        let rest = words.drop_first();
        let more = pre + w + seq!['|'];
        assert(p =~= more + join_bars(rest));
        assert forall|i: int| pre.len() <= i < e implies is_word_char(#[trigger] p[i]) by {
            assert(p[i] == words[0][i - pre.len()]);
        }
        assert(p[e as int] == '|');
        assert forall|k: int, i: int| 0 <= k < rest.len() && 0 <= i < rest[k].len() implies is_word_char(
            #[trigger] rest[k][i],
        ) by {
            assert(rest[k][i] == words[k + 1][i]);
        }
        lemma_bars_of_words(rest, more, false);
        assert(more.len() == e + 1);
        lemma_word_between(p, pre.len() as int, pre.len() as int, e as int, rep);
        assert(p.subrange(pre.len() as int, pre.len() as int) =~= Seq::empty());
        assert(p.subrange(pre.len() as int, e as int) =~= w);
        assert(seq![w] + rest =~= words);
    }
}

proof fn lemma_word_between(p: Seq<char>, s: int, i: int, e: int, rep: bool)
    requires
        0 <= s <= i <= e <= p.len(),
        forall|k: int| s <= k < e ==> is_word_char(#[trigger] p[k]),
        e < p.len() ==> p[e] == '|' && plain_from(p, e + 1, 0, false),
    ensures
        split_from(p, i, p.subrange(s, i)) == (if e < p.len() {
            seq![p.subrange(s, e)] + split_from(p, e + 1, Seq::empty())
        } else {
            seq![p.subrange(s, e)]
        }),
        plain_from(p, i, 0, rep),
    decreases e - i,
{
    if i < e {
        assert(is_word_char(p[i]));
        lemma_word_between(p, s, i + 1, e, true);
        assert(p.subrange(s, i) + p.subrange(i, i + 1) =~= p.subrange(s, i + 1));
    }
}

/// The literal runs of a branch are its words: a word ends at the first character that is no
/// letter, digit or underscore, and runs go on behind that unit, be it an escape, a class or
/// a single character.
pub proof fn law_runs_are_the_words_of_a_branch(w: Seq<char>, rest: Seq<char>)
    requires
        forall|i: int| 0 <= i < w.len() ==> is_word_char(#[trigger] w[i]),
        rest.len() > 0,
        !is_word_char(rest[0]),
    ensures
        runs(w + rest) == (if w.len() == 0 {
            Seq::empty()
        } else {
            seq![vstd::utf8::encode_utf8(w)]
        }) + runs(rest.skip(unit_end(rest, 0))),
        rest[0] != '\\' && rest[0] != '[' ==> unit_end(rest, 0) == 1,
        rest[0] == '\\' && rest.len() >= 2 && rest[1] != 'p' && rest[1] != 'P' ==> unit_end(rest, 0) == 2,
{
    let p = w + rest;
    let n = w.len() as int;
    assert forall|i: int| 0 <= i < w.len() implies '\0' <= #[trigger] w[i] <= '\u{7f}' by {
        assert(is_word_char(w[i]));
    }
    vstd::utf8::is_ascii_chars_encode_utf8(w);
    let bytes = Seq::new(w.len(), |k: int| w[k] as u8);
    assert(bytes =~= vstd::utf8::encode_utf8(w));
    lemma_run_up_to(p, w, 0);
    assert(Seq::new(0, |k: int| w[k] as u8) =~= Seq::<u8>::empty());
    assert(p[n] == rest[0]);
    lemma_unit_bounds(p, n);
    lemma_unit_bounds(rest, 0);
    lemma_unit_in_part(p, n, p.len() as int, n);
    assert(p.subrange(n, p.len() as int) =~= rest);
    let e = unit_end(p, n);
    lemma_runs_shift(p, e, e, Seq::empty());
    assert(p.skip(e) =~= rest.skip(e - n));
    assert(runs(p) == flushed(bytes) + runs_from(p, e, Seq::empty()));
}

proof fn lemma_run_up_to(p: Seq<char>, w: Seq<char>, i: int)
    requires
        0 <= i <= w.len() <= p.len(),
        forall|k: int| 0 <= k < w.len() ==> p[k] == #[trigger] w[k] && is_word_char(w[k]),
    ensures
        runs_from(p, i, Seq::new(i as nat, |k: int| w[k] as u8)) == runs_from(
            p,
            w.len() as int,
            Seq::new(w.len(), |k: int| w[k] as u8),
        ),
    decreases w.len() - i,
{
    if i < w.len() {
        assert(is_word_char(w[i]));
        lemma_run_up_to(p, w, i + 1);
        assert(Seq::new(i as nat, |k: int| w[k] as u8).push(p[i] as u8) =~= Seq::new((i + 1) as nat, |k: int| w[k] as u8));
    }
}

proof fn lemma_runs_shift(p: Seq<char>, n: int, i: int, cur: Seq<u8>)
    requires
        0 <= n <= i <= p.len(),
    ensures
        runs_from(p, i, cur) == runs_from(p.skip(n), i - n, cur),
    decreases p.len() - i,
{
    let t = p.skip(n);
    if i < p.len() {
        assert(t[i - n] == p[i]);
        if is_word_char(p[i]) {
            lemma_runs_shift(p, n, i + 1, cur.push(p[i] as u8));
        } else {
            lemma_unit_bounds(p, i);
            lemma_unit_in_part(p, n, p.len() as int, i);
            assert(p.subrange(n, p.len() as int) =~= t);
            lemma_runs_shift(p, n, unit_end(p, i), Seq::empty());
        }
    }
}

/// A pattern that is looked up is looked up by each of its branches, and a branch by every
/// trigram of every run in it; the lists that are made of it hold each trigram once.
pub proof fn law_branches_require_every_trigram(pattern: Seq<char>, lists: Seq<Vec<u32>>, k: int, g: u32)
    requires
        required_grams(pattern) is Some,
        lists_hold(lists, required_grams(pattern)->Some_0),
        0 <= k < branches(pattern).len(),
    ensures
        lists.len() == branches(pattern).len(),
        lists[k]@.contains(g) <==> exists|r: int|
            0 <= r < runs(branches(pattern)[k]).len() && has_gram(#[trigger] runs(branches(pattern)[k])[r], g),
        lists[k]@.no_duplicates(),
        lists[k]@.len() > 0,
{
    let b = branches(pattern)[k];
    let sets = required_grams(pattern)->Some_0;
    assert(sets[k] == branch_grams(b));
    assert(lists[k]@.contains(g) <==> sets[k].contains(g));
    assert(branch_usable(b));
    let h = choose|h: u32| branch_grams(b).contains(h);
    assert(lists[k]@.contains(h) <==> sets[k].contains(h));
    assert(strictly_sorted(lists[k]@));
}

/// A pattern is looked up if it reads plainly and each of its branches holds a run of three
/// letters or more.
pub proof fn law_plain_patterns_are_looked_up(pattern: Seq<char>)
    requires
        reads_plainly(pattern),
        forall|k: int|
            0 <= k < branches(pattern).len() ==> !fallback_from(#[trigger] branches(pattern)[k], 0) && exists|r: int|
                0 <= r < runs(branches(pattern)[k]).len() && (#[trigger] runs(branches(pattern)[k])[r]).len() >= 3,
    ensures
        required_grams(pattern) is Some,
{
    assert forall|k: int| 0 <= k < branches(pattern).len() implies branch_usable(#[trigger] branches(pattern)[k]) by {
        let b = branches(pattern)[k];
        let r = choose|r: int| 0 <= r < runs(b).len() && (#[trigger] runs(b)[r]).len() >= 3;
        let run = runs(b)[r];
        let g = pack3(run[0], run[1], run[2]);
        assert(gram_at(run, 0, g));
        assert(has_gram(runs(b)[r], g));
        assert(branch_grams(b).contains(g));
    }
}

/// What reads plainly: single characters but for the operators that make what stands before
/// them optional or count it, escapes that stand for one thing, and `+` behind something.
pub proof fn law_plain_reading_goes_on(p: Seq<char>, i: int, depth: nat, rep: bool)
    requires
        0 <= i < p.len(),
    ensures
        p[i] == '*' || p[i] == '?' || p[i] == '{' ==> !plain_from(p, i, depth, rep),
        is_word_char(p[i]) || p[i] == '.' || p[i] == '^' || p[i] == '$' || p[i] == ' ' || p[i] == '-' || p[i] == '/' || p[i]
            == ':' || p[i] == '"' || p[i] == '=' || p[i] == '<' || p[i] == '>' || p[i] == ',' || p[i] == ';'
            ==> plain_from(p, i, depth, rep) == plain_from(p, i + 1, depth, true),
        p[i] == '(' ==> plain_from(p, i, depth, rep) == plain_from(p, i + 1, depth + 1, false),
        p[i] == ')' && depth > 0 ==> plain_from(p, i, depth, rep) == plain_from(p, i + 1, (depth - 1) as nat, true),
        p[i] == ')' && depth == 0 ==> !plain_from(p, i, depth, rep),
        p[i] == '|' ==> plain_from(p, i, depth, rep) == plain_from(p, i + 1, depth, false),
        p[i] == '+' && rep ==> plain_from(p, i, depth, rep) == plain_from(p, i + 1, depth, true),
        p[i] == '+' && !rep ==> !plain_from(p, i, depth, rep),
        p[i] == '\\' && i + 1 < p.len() && (p[i + 1] == 'b' || p[i + 1] == 'B' || p[i + 1] == 'd' || p[i + 1] == 'w' || p[i
            + 1] == 's' || p[i + 1] == '.' || p[i + 1] == '*' || p[i + 1] == '?' || p[i + 1] == '(' || p[i + 1] == '[' || p[i
            + 1] == '\\' || p[i + 1] == '|') ==> plain_from(p, i, depth, rep) == plain_from(p, i + 2, depth, true),
        plain_from(p, p.len() as int, depth, rep) <==> depth == 0,
{
}

/// Words are made of ASCII letters, digits and underscores.
pub proof fn law_word_characters(c: char)
    ensures
        is_word_char(c) <==> ('a' <= c && c <= 'z') || ('A' <= c && c <= 'Z') || ('0' <= c && c <= '9') || c == '_',
{
}

} // verus!
