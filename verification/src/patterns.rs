//! The patterns of a query: several given patterns become one.

use crate::grams::{branches, fallback_from, is_word_char, lemma_unit_bounds, runs, split_from, unit_end};
use crate::text::{
    chars_of, law_pieces_end_at_separators, lossy_text, piece_ranges, pieces, pieces_from, ranges_of, string_of,
    utf8_lossy, views,
};
use vstd::prelude::*;

verus! {

/// A character that means something in a regular expression.
pub open spec fn is_meta(c: char) -> bool {
    c == '\\' || c == '.' || c == '+' || c == '*' || c == '?' || c == '(' || c == ')' || c == '|' || c == '[' || c
        == ']' || c == '{' || c == '}' || c == '^' || c == '$' || c == '#'
}

/// The text with a backslash before each such character.
pub open spec fn escaped(s: Seq<char>) -> Seq<char>
    decreases s.len(),
{
    if s.len() == 0 {
        Seq::empty()
    } else if is_meta(s.last()) {
        escaped(s.drop_last()).push('\\').push(s.last())
    } else {
        escaped(s.drop_last()).push(s.last())
    }
}

/// One branch of the combined pattern, in a group of its own.
pub open spec fn grouped(p: Seq<char>, fixed: bool) -> Seq<char> {
    seq!['(', '?', ':'] + (if fixed {
        escaped(p)
    } else {
        p
    }) + seq![')']
}

/// The grouped patterns separated by `|`.
pub open spec fn alternation(patterns: Seq<Seq<char>>, fixed: bool) -> Seq<char>
    decreases patterns.len(),
{
    if patterns.len() == 0 {
        Seq::empty()
    } else if patterns.len() == 1 {
        grouped(patterns[0], fixed)
    } else {
        alternation(patterns.drop_last(), fixed).push('|') + grouped(patterns.last(), fixed)
    }
}

/// The pattern that stands for all: a lone pattern as it is, else an alternation.
pub open spec fn combined(patterns: Seq<Seq<char>>, fixed: bool) -> Seq<char> {
    if patterns.len() == 1 {
        patterns[0]
    } else {
        alternation(patterns, fixed)
    }
}

/// An escaped text is one branch: none of its characters separates alternatives.
pub proof fn law_escaped_text_is_one_branch(s: Seq<char>)
    ensures
        branches(escaped(s)) == seq![escaped(s)],
{
    lemma_escaped_branch(s, s.len() as int);
    assert(s.take(s.len() as int) =~= s);
    assert(escaped(s).take(escaped(s).len() as int) =~= escaped(s));
}

proof fn lemma_escaped_prefix(s: Seq<char>, k: int)
    requires
        0 <= k <= s.len(),
    ensures
        escaped(s.take(k)).len() <= escaped(s).len(),
        escaped(s).take(escaped(s.take(k)).len() as int) == escaped(s.take(k)),
    decreases s.len() - k,
{
    if k == s.len() {
        assert(s.take(k) =~= s);
        assert(escaped(s).take(escaped(s).len() as int) =~= escaped(s));
    } else {
        lemma_escaped_prefix(s, k + 1);
        assert(s.take(k + 1).drop_last() =~= s.take(k));
        let a = escaped(s.take(k));
        let b = escaped(s.take(k + 1));
        assert(b.take(a.len() as int) =~= a);
        assert(escaped(s).take(b.len() as int).take(a.len() as int) =~= escaped(s).take(a.len() as int));
    }
}

proof fn lemma_escaped_branch(s: Seq<char>, k: int)
    requires
        0 <= k <= s.len(),
    ensures
        ({
            let n = escaped(s.take(k)).len() as int;
            n <= escaped(s).len() && branches(escaped(s)) == split_from(escaped(s), n, escaped(s).take(n))
        }),
    decreases k,
{
    let e = escaped(s);
    if k == 0 {
        assert(s.take(0) =~= Seq::empty());
        assert(e.take(0) =~= Seq::empty());
    } else {
        lemma_escaped_branch(s, k - 1);
        lemma_escaped_prefix(s, k);
        lemma_escaped_prefix(s, k - 1);
        assert(s.take(k).drop_last() =~= s.take(k - 1));
        assert(s.take(k).last() == s[k - 1]);
        let n = escaped(s.take(k - 1)).len() as int;
        let m = escaped(s.take(k)).len() as int;
        let part = escaped(s.take(k));
        assert(e[n] == e.take(m)[n]);
        if is_meta(s[k - 1]) {
            assert(part[n] == '\\');
            assert(m == n + 2);
            assert(part[n + 1] == s[k - 1]);
            assert(e[n + 1] == e.take(m)[n + 1]);
        } else {
            assert(part[n] == s[k - 1]);
            assert(m == n + 1);
        }
        assert(unit_end(e, n) == m);
        assert(e.take(n) + e.subrange(n, m) =~= e.take(m));
    }
}

/// Escaping loses nothing: different texts have different escaped forms.
pub proof fn law_escaping_is_injective(a: Seq<char>, b: Seq<char>)
    requires
        escaped(a) == escaped(b),
    ensures
        a == b,
    decreases a.len(),
{
    lemma_escaped_len(a);
    lemma_escaped_len(b);
    if a.len() == 0 || b.len() == 0 {
        assert(a =~= b);
    } else {
        let ea = escaped(a);
        let eb = escaped(b);
        assert(ea.last() == a.last());
        assert(eb.last() == b.last());
        let c = a.last();
        if is_meta(c) {
            assert(escaped(a.drop_last()) =~= ea.drop_last().drop_last());
            assert(escaped(b.drop_last()) =~= eb.drop_last().drop_last());
        } else {
            assert(escaped(a.drop_last()) =~= ea.drop_last());
            assert(escaped(b.drop_last()) =~= eb.drop_last());
        }
        law_escaping_is_injective(a.drop_last(), b.drop_last());
        assert(a =~= a.drop_last().push(c));
        assert(b =~= b.drop_last().push(c));
    }
}

proof fn lemma_escaped_len(s: Seq<char>)
    ensures
        s.len() <= escaped(s).len(),
    decreases s.len(),
{
    if s.len() > 0 {
        lemma_escaped_len(s.drop_last());
    }
}

/// Append the escaped form of `s`.
pub fn regex_escape_into(out: &mut String, s: &str)
    ensures
        final(out)@ == old(out)@ + escaped(s@),
{
    let chars: Vec<char> = chars_of(s);
    let ghost had = out@;
    let mut i: usize = 0;
    assert(had + escaped(chars@.take(0)) =~= had);
    while i < chars.len()
        invariant
            i <= chars@.len(),
            out@ == had + escaped(chars@.take(i as int)),
        decreases chars@.len() - i,
    {
        let c: char = chars[i];
        proof {
            assert(chars@.take(i + 1).drop_last() =~= chars@.take(i as int));
            assert(chars@.take(i + 1).last() == c);
        }
        if c == '\\' || c == '.' || c == '+' || c == '*' || c == '?' || c == '(' || c == ')' || c == '|' || c == '['
            || c == ']' || c == '{' || c == '}' || c == '^' || c == '$' || c == '#' {
            out.push('\\');
        }
        out.push(c);
        i = i + 1;
        assert(out@ =~= had + escaped(chars@.take(i as int)));
    }
    assert(chars@.take(i as int) =~= chars@);
}

/// Combine patterns into one alternation. Every branch is wrapped in `(?:...)`, so
/// inline flags stay with their own pattern and an inner `|` cannot merge branches.
/// A lone pattern is kept as it is.
pub fn combine_patterns(patterns: &[String], fixed: bool) -> (out: String)
    ensures
        out@ == combined(views(patterns@), fixed),
{
    if patterns.len() == 1 {
        return patterns[0].clone();
    }
    let mut out: String = String::new();
    let mut k: usize = 0;
    let ghost all = views(patterns@);
    assert(out@ =~= alternation(all.take(0), fixed));
    while k < patterns.len()
        invariant
            k <= patterns@.len(),
            all == views(patterns@),
            out@ == alternation(all.take(k as int), fixed),
        decreases patterns@.len() - k,
    {
        let ghost had = out@;
        let ghost sep: Seq<char> = if k > 0 {
            seq!['|']
        } else {
            Seq::empty()
        };
        proof {
            let next = all.take(k + 1);
            assert(next.drop_last() =~= all.take(k as int));
            assert(next.last() == patterns@[k as int]@);
            assert(next[0] == all[0]);
        }
        if k > 0 {
            out.push('|');
        }
        out.push('(');
        out.push('?');
        out.push(':');
        assert(out@ =~= had + sep + seq!['(', '?', ':']);
        if fixed {
            regex_escape_into(&mut out, patterns[k].as_str());
        } else {
            out.append(patterns[k].as_str());
        }
        out.push(')');
        assert(out@ =~= had + sep + grouped(patterns@[k as int]@, fixed));
        proof {
            if k > 0 {
                assert(had.push('|') =~= had + sep);
            }
        }
        assert(out@ =~= alternation(all.take(k + 1), fixed));
        k = k + 1;
    }
    assert(all.take(k as int) =~= all);
    out
}

/// A pattern that is its own only match: word characters alone.
pub open spec fn is_plain_word(p: Seq<char>) -> bool {
    p.len() > 0 && forall|k: int| 0 <= k < p.len() ==> is_word_char(#[trigger] p[k])
}

/// Whether a pattern consists of word characters alone, so that it can be searched
/// as a literal.
pub fn is_pure_literal(pattern: &str) -> (b: bool)
    ensures
        b == is_plain_word(pattern@),
{
    let p: Vec<char> = chars_of(pattern);
    let mut k: usize = 0;
    while k < p.len()
        invariant
            k <= p@.len(),
            p@ == pattern@,
            forall|x: int| 0 <= x < k ==> is_word_char(#[trigger] p@[x]),
        decreases p@.len() - k,
    {
        let c: char = p[k];
        if !(('a' <= c && c <= 'z') || ('A' <= c && c <= 'Z') || ('0' <= c && c <= '9') || c == '_') {
            assert(!is_word_char(p@[k as int]));
            return false;
        }
        k = k + 1;
    }
    p.len() > 0
}

/// A pattern of word characters is one branch and one literal run, and holds nothing
/// that could drop it; and only such a pattern survives whole as a single run.
pub proof fn law_plain_word_is_one_run(p: Seq<char>)
    ensures
        is_plain_word(p) ==> branches(p) == seq![p] && runs(p) == seq![vstd::utf8::encode_utf8(p)] && !fallback_from(
            p,
            0,
        ),
        p.len() > 0 && runs(p).len() == 1 && runs(p)[0].len() == p.len() ==> is_plain_word(p),
{
    if is_plain_word(p) {
        lemma_word_tail(p, 0);
        assert(p.take(0) =~= Seq::empty());
        assert(Seq::new(0, |k: int| p[k] as u8) =~= Seq::<u8>::empty());
        assert forall|i: int| 0 <= i < p.len() implies '\0' <= #[trigger] p[i] <= '\u{7f}' by {
            assert(is_word_char(p[i]));
        }
        vstd::utf8::is_ascii_chars_encode_utf8(p);
        assert(Seq::new(p.len(), |k: int| p[k] as u8) =~= vstd::utf8::encode_utf8(p));
    }
    if p.len() > 0 && runs(p).len() == 1 && runs(p)[0].len() == p.len() {
        lemma_runs_length(p, 0, Seq::empty());
        assert(total_len(runs(p)) == p.len()) by {
            assert(runs(p).drop_last() =~= Seq::empty());
            assert(total_len(runs(p).drop_last()) == 0);
        }
    }
}

proof fn lemma_word_tail(p: Seq<char>, i: int)
    requires
        is_plain_word(p),
        0 <= i <= p.len(),
    ensures
        split_from(p, i, p.take(i)) == seq![p],
        crate::grams::runs_from(p, i, Seq::new(i as nat, |k: int| p[k] as u8)) == seq![
            Seq::new(p.len(), |k: int| p[k] as u8),
        ],
        !fallback_from(p, i),
    decreases p.len() - i,
{
    let cur = Seq::new(i as nat, |k: int| p[k] as u8);
    if i == p.len() {
        assert(p.take(i) =~= p);
    } else {
        assert(is_word_char(p[i]));
        lemma_word_tail(p, i + 1);
        assert(p.take(i) + p.subrange(i, i + 1) =~= p.take(i + 1));
        assert(cur.push(p[i] as u8) =~= Seq::new((i + 1) as nat, |k: int| p[k] as u8));
    }
}

/// Number of bytes in all runs.
pub open spec fn total_len(rs: Seq<Seq<u8>>) -> nat
    decreases rs.len(),
{
    if rs.len() == 0 {
        0
    } else {
        total_len(rs.drop_last()) + rs.last().len()
    }
}

proof fn lemma_total_concat(a: Seq<Seq<u8>>, b: Seq<Seq<u8>>)
    ensures
        total_len(a + b) == total_len(a) + total_len(b),
    decreases b.len(),
{
    if b.len() == 0 {
        assert(a + b =~= a);
    } else {
        assert((a + b).drop_last() =~= a + b.drop_last());
        lemma_total_concat(a, b.drop_last());
    }
}

proof fn lemma_runs_length(p: Seq<char>, i: int, cur: Seq<u8>)
    requires
        0 <= i <= p.len(),
    ensures
        total_len(crate::grams::runs_from(p, i, cur)) <= cur.len() + p.len() - i,
        total_len(crate::grams::runs_from(p, i, cur)) == cur.len() + p.len() - i ==> forall|k: int|
            i <= k < p.len() ==> is_word_char(#[trigger] p[k]),
    decreases p.len() - i,
{
    let f = crate::grams::flushed(cur);
    assert(total_len(f) == cur.len()) by {
        if cur.len() > 0 {
            assert(f.drop_last() =~= Seq::empty());
            assert(total_len(f.drop_last()) == 0);
        }
    }
    if i < p.len() {
        if is_word_char(p[i]) {
            lemma_runs_length(p, i + 1, cur.push(p[i] as u8));
        } else {
            lemma_unit_bounds(p, i);
            let e = unit_end(p, i);
            lemma_runs_length(p, e, Seq::empty());
            lemma_total_concat(f, crate::grams::runs_from(p, e, Seq::empty()));
        }
    }
}

// ---- pattern files ----

/// The line without one trailing `\r`.
pub open spec fn without_cr(line: Seq<char>) -> Seq<char> {
    if line.len() > 0 && line.last() == '\r' {
        line.drop_last()
    } else {
        line
    }
}

/// The patterns of a pattern file: its lines, the empty rest after a final newline
/// left out.
pub open spec fn file_patterns(text: Seq<char>) -> Seq<Seq<char>> {
    let lines = pieces(text, '\n');
    let kept = if text.len() > 0 && text.last() == '\n' {
        lines.drop_last()
    } else {
        lines
    };
    Seq::new(kept.len(), |k: int| without_cr(kept[k]))
}

/// Split the text of a pattern file into patterns, one per line.
pub fn split_pattern_text(text: &str) -> (out: Vec<String>)
    ensures
        views(out@) == file_patterns(text@),
{
    let chars: Vec<char> = chars_of(text);
    let mut ranges: Vec<(usize, usize)> = piece_ranges(&chars, '\n');
    let ghost lines = pieces(text@, '\n');
    assert(lines.len() == ranges@.len());
    if chars.len() > 0 && chars[chars.len() - 1] == '\n' {
        let _ = ranges.pop();
    }
    let ghost kept = ranges_of(chars@, ranges@);
    proof {
        if chars@.len() > 0 && chars@.last() == '\n' {
            assert(kept =~= lines.drop_last());
        }
    }
    let mut out: Vec<String> = Vec::new();
    let ghost want = Seq::new(kept.len(), |k: int| without_cr(kept[k]));
    let mut k: usize = 0;
    while k < ranges.len()
        invariant
            k <= ranges@.len(),
            kept == ranges_of(chars@, ranges@),
            want == Seq::new(kept.len(), |k: int| without_cr(kept[k])),
            forall|x: int| 0 <= x < ranges@.len() ==> (#[trigger] ranges@[x]).0 <= ranges@[x].1 <= chars@.len(),
            views(out@) == want.take(k as int),
        decreases ranges@.len() - k,
    {
        let from: usize = ranges[k].0;
        let to: usize = ranges[k].1;
        let ghost line = chars@.subrange(from as int, to as int);
        assert(kept[k as int] == line);
        let end: usize = if from < to && chars[to - 1] == '\r' {
            to - 1
        } else {
            to
        };
        let s: String = string_of(&chars[from..end]);
        assert(s@ =~= without_cr(line));
        let ghost had = views(out@);
        out.push(s);
        assert(views(out@) =~= had.push(s@));
        k = k + 1;
        assert(views(out@) =~= want.take(k as int));
    }
    assert(views(out@) =~= want);
    out
}

/// Split the bytes of a pattern file into patterns; an empty file has none, and a
/// byte sequence that is no text is replaced as it is decoded.
pub fn split_pattern_lines(data: &[u8]) -> (out: Vec<String>)
    ensures
        views(out@) == if data@.len() == 0 {
            Seq::empty()
        } else {
            file_patterns(utf8_lossy(data@))
        },
        data@.len() > 0 && vstd::utf8::valid_utf8(data@) ==> views(out@) == file_patterns(
            vstd::utf8::decode_utf8(data@),
        ),
{
    if data.len() == 0 {
        let none: Vec<String> = Vec::new();
        assert(views(none@) =~= Seq::empty());
        return none;
    }
    let text: String = lossy_text(data);
    split_pattern_text(text.as_str())
}

// ---- what the patterns mean ----

/// A pattern as it stands among several: in a group of its own, escaped if it is literal.
/// Of two or more patterns every one is such a branch, in their order.
pub proof fn law_every_pattern_is_a_branch(patterns: Seq<Seq<char>>, fixed: bool, k: int) -> (around: (
    Seq<char>,
    Seq<char>,
))
    requires
        patterns.len() >= 2,
        0 <= k < patterns.len(),
    ensures
        combined(patterns, fixed) == around.0 + seq!['(', '?', ':'] + (if fixed {
            escaped(patterns[k])
        } else {
            patterns[k]
        }) + seq![')'] + around.1,
        k == 0 ==> around.0.len() == 0,
        k > 0 ==> around.0 == (if k == 1 {
            seq!['(', '?', ':'] + (if fixed {
                escaped(patterns[0])
            } else {
                patterns[0]
            }) + seq![')']
        } else {
            combined(patterns.take(k), fixed)
        }).push('|'),
        k == patterns.len() - 1 ==> around.1.len() == 0,
        k < patterns.len() - 1 ==> around.1.len() > 0 && around.1[0] == '|',
    decreases patterns.len(),
{
    let front = patterns.drop_last();
    let last = patterns.last();
    let own = if fixed {
        escaped(patterns[k])
    } else {
        patterns[k]
    };
    assert(combined(patterns, fixed) == alternation(front, fixed).push('|') + grouped(last, fixed));
    if k == patterns.len() - 1 {
        assert(patterns.take(k) =~= front);
        if k == 1 {
            assert(front[0] == patterns[0]);
        }
        let pre = alternation(front, fixed).push('|');
        assert(pre + seq!['(', '?', ':'] + own + seq![')'] + Seq::<char>::empty() =~= pre + grouped(last, fixed));
        (pre, Seq::empty())
    } else if front.len() == 1 {
        let post = seq!['|'] + grouped(last, fixed);
        let none = Seq::<char>::empty();
        assert(none + seq!['(', '?', ':'] + own + seq![')'] + post =~= grouped(front[0], fixed).push('|') + grouped(
            last,
            fixed,
        ));
        (none, post)
    } else {
        let (pre, post) = law_every_pattern_is_a_branch(front, fixed, k);
        assert(front[k] == patterns[k] && front[0] == patterns[0]);
        assert(front.take(k) =~= patterns.take(k));
        let more = post.push('|') + grouped(last, fixed);
        assert(pre + seq!['(', '?', ':'] + own + seq![')'] + more =~= (pre + seq!['(', '?', ':'] + own + seq![')']
            + post).push('|') + grouped(last, fixed));
        (pre, more)
    }
}

/// One more pattern adds one more branch at the end, and a lone pattern is kept as it is.
pub proof fn law_one_more_pattern_adds_a_branch(patterns: Seq<Seq<char>>, p: Seq<char>, fixed: bool)
    ensures
        patterns.len() == 0 ==> combined(patterns.push(p), fixed) == p,
        patterns.len() >= 2 ==> combined(patterns.push(p), fixed) == combined(patterns, fixed) + seq!['|', '(', '?', ':']
            + (if fixed {
            escaped(p)
        } else {
            p
        }) + seq![')'],
{
    let more = patterns.push(p);
    assert(more.drop_last() =~= patterns);
    let own = if fixed {
        escaped(p)
    } else {
        p
    };
    if patterns.len() >= 2 {
        let had = alternation(patterns, fixed);
        assert(had.push('|') + grouped(p, fixed) =~= had + seq!['|', '(', '?', ':'] + own + seq![')']);
    }
}

/// An escaped text is the text with a backslash before every character that a pattern
/// would read otherwise, and with nothing else: `at` tells where each character went.
pub proof fn law_escaping_adds_backslashes_alone(s: Seq<char>) -> (at: Seq<int>)
    ensures
        at.len() == s.len(),
        escaped(s).len() == (if s.len() == 0 {
            0
        } else {
            at.last() + 1
        }),
        forall|k: int|
            0 <= k < s.len() ==> 0 <= #[trigger] at[k] < escaped(s).len() && escaped(s)[at[k]] == s[k] && at[k] == (
            if k == 0 {
                -1
            } else {
                at[k - 1]
            }) + (if s[k] == '\\' || s[k] == '.' || s[k] == '+' || s[k] == '*' || s[k] == '?' || s[k] == '(' || s[k]
                == ')' || s[k] == '|' || s[k] == '[' || s[k] == ']' || s[k] == '{' || s[k] == '}' || s[k] == '^' || s[k]
                == '$' || s[k] == '#' {
                2int
            } else {
                1
            }) && (at[k] == (if k == 0 {
                -1
            } else {
                at[k - 1]
            }) + 2 ==> escaped(s)[at[k] - 1] == '\\'),
    decreases s.len(),
{
    if s.len() == 0 {
        Seq::empty()
    } else {
        let t = s.drop_last();
        let had = law_escaping_adds_backslashes_alone(t);
        let e = escaped(s);
        let at = had.push(e.len() - 1);
        assert forall|k: int| 0 <= k < t.len() implies t[k] == #[trigger] s[k] && at[k] == had[k] && escaped(t)[had[k]]
            == e[had[k]] by {
            assert(0 <= had[k] < escaped(t).len());
        }
        assert(s[s.len() - 1] == s.last());
        if t.len() > 0 {
            assert(had.last() == had[t.len() - 1]);
        }
        assert forall|k: int| 0 <= k < t.len() implies 0 <= #[trigger] at[k] < e.len() && e[at[k]] == s[k] && (at[k] == (
        if k == 0 {
            -1
        } else {
            at[k - 1]
        }) + 2 ==> e[at[k] - 1] == '\\') by {
            assert(0 <= had[k] < escaped(t).len());
            assert(t[k] == s[k]);
            if k > 0 {
                assert(had[k - 1] >= 0);
            }
        }
        at
    }
}

/// Each line of a pattern file is one pattern, an empty one too; the end of a line is a
/// newline, with a carriage return before it or without, and the last line may lack it.
pub proof fn law_each_line_is_a_pattern(line: Seq<char>, rest: Seq<char>)
    requires
        forall|k: int| 0 <= k < line.len() ==> #[trigger] line[k] != '\n',
    ensures
        line.len() > 0 && line.last() != '\r' ==> file_patterns(line) == seq![line],
        line.len() == 0 || line.last() != '\r' ==> file_patterns(line.push('\n')) == seq![line],
        file_patterns(line.push('\r').push('\n')) == seq![line],
        rest.len() > 0 && (line.len() == 0 || line.last() != '\r') ==> file_patterns(line.push('\n') + rest) == seq![
            line,
        ] + file_patterns(rest),
        rest.len() > 0 ==> file_patterns(line.push('\r').push('\n') + rest) == seq![line] + file_patterns(rest),
{
    let none = Seq::<char>::empty();
    let ret = line.push('\r');
    assert(forall|k: int| 0 <= k < ret.len() ==> ret[k] != '\n');
    law_pieces_end_at_separators(line, '\n', none);
    law_pieces_end_at_separators(ret, '\n', none);
    law_pieces_end_at_separators(none, '\n', none);
    law_pieces_end_at_separators(line, '\n', rest);
    law_pieces_end_at_separators(ret, '\n', rest);
    assert(line.push('\n') + none =~= line.push('\n'));
    assert(ret.push('\n') + none =~= ret.push('\n'));
    assert(ret.drop_last() =~= line);
    assert(file_patterns(ret.push('\n')) =~= seq![line]);
    if line.len() == 0 || line.last() != '\r' {
        assert(file_patterns(line.push('\n')) =~= seq![line]);
        if line.len() > 0 {
            assert(line[line.len() - 1] != '\n');
            assert(file_patterns(line) =~= seq![line]);
        }
    }
    if rest.len() > 0 {
        lemma_first_line_joins(line, rest);
        lemma_first_line_joins(ret, rest);
    }
}

proof fn lemma_first_line_joins(line: Seq<char>, rest: Seq<char>)
    requires
        rest.len() > 0,
        pieces(line.push('\n') + rest, '\n') == seq![line] + pieces(rest, '\n'),
    ensures
        file_patterns(line.push('\n') + rest) == seq![without_cr(line)] + file_patterns(rest),
{
    let all = line.push('\n') + rest;
    let tail = pieces(rest, '\n');
    lemma_some_piece(rest, '\n', 0, 0);
    assert(all.last() == rest.last());
    assert((seq![line] + tail).drop_last() =~= seq![line] + tail.drop_last());
    assert(file_patterns(all) =~= seq![without_cr(line)] + file_patterns(rest));
}

proof fn lemma_some_piece(s: Seq<char>, sep: char, start: int, i: int)
    requires
        0 <= start <= i <= s.len(),
    ensures
        pieces_from(s, sep, start, i).len() > 0,
    decreases s.len() - i,
{
    if i < s.len() && s[i] != sep {
        lemma_some_piece(s, sep, start, i + 1);
    }
}

} // verus!
