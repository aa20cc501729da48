//! The shape of a regular expression, as far as it tells which literal texts a match
//! holds.
//!
//! A shape says which text is written for it, and what a match of it holds at least:
//! plain characters stand for themselves, alternatives and groups for what they hold,
//! and all else is left open.

use crate::grams::{
    brace_close, branches, class_body, class_close, class_is_plain, flushed, is_shorthand, is_word_char,
    law_runs_give_required_grams, lemma_brace_bounds, lemma_posix_bounds, lemma_posix_in_part, occurs_at, occurs_in,
    plain_from, posix_end, property_end, reads_plainly, required_grams, runs, runs_from, split_from, text_grams,
    unit_end,
};
use crate::patterns::{alternation, escaped, grouped, is_meta};
use crate::text::lemma_encode_concat;
use vstd::prelude::*;
use vstd::utf8::encode_utf8;

verus! {

/// A regular expression.
pub enum Shape {
    /// The empty one.
    Nothing,
    /// A character that stands for itself, behind a backslash where it would mean
    /// something.
    Char(char),
    /// A sign of one character: `.`, `^`, `$`, or an unescaped `#`, `]` or `}`.
    Sign(char),
    /// A letter or a sign behind a backslash, such as `\d`, `\b` or `\/`.
    Letter(char),
    /// A character property, `\p{name}` or, negated, `\P{name}`.
    Property { negated: bool, name: Seq<char> },
    /// A class in brackets; `negated` with a leading `^`, `closing` with a leading `]`.
    Class { negated: bool, closing: bool, body: Seq<char> },
    /// One after the other.
    Then(Box<Shape>, Box<Shape>),
    /// One or the other.
    Either(Box<Shape>, Box<Shape>),
    /// A group, captured or not.
    Group { captured: bool, inner: Box<Shape> },
    /// One or more times.
    Repeat(Box<Shape>),
}

/// What may stand in a class: escapes, named classes but behind a plain `-` (`dash`), and
/// characters other than brackets.
pub open spec fn is_class_body(b: Seq<char>, dash: bool) -> bool
    decreases b.len(),
{
    if b.len() == 0 {
        true
    } else if b[0] == '\\' {
        b.len() >= 2 && is_class_body(b.skip(2), false)
    } else if b[0] == '[' {
        proof {
            lemma_posix_bounds(b, 0);
        }
        !dash && (posix_end(b, 0) matches Some(e) && is_class_body(b.skip(e), false))
    } else {
        b[0] != ']' && is_class_body(b.skip(1), b[0] == '-')
    }
}

/// The text that is written for a character property.
pub open spec fn property_text(negated: bool, name: Seq<char>) -> Seq<char> {
    seq!['\\', if negated {
        'P'
    } else {
        'p'
    }, '{'] + name + seq!['}']
}

/// The text that is written for a class.
pub open spec fn class_text(negated: bool, closing: bool, body: Seq<char>) -> Seq<char> {
    seq!['['] + (if negated {
        seq!['^']
    } else {
        Seq::empty()
    }) + (if closing {
        seq![']']
    } else {
        Seq::empty()
    }) + body + seq![']']
}

/// The text that is written for a character that stands for itself.
pub open spec fn char_text(c: char) -> Seq<char> {
    if is_meta(c) {
        seq!['\\', c]
    } else {
        seq![c]
    }
}

/// The text that is written for a shape.
pub open spec fn shape_text(s: Shape) -> Seq<char>
    decreases s,
{
    match s {
        Shape::Nothing => Seq::empty(),
        Shape::Char(c) => char_text(c),
        Shape::Sign(c) => seq![c],
        Shape::Letter(c) => seq!['\\', c],
        Shape::Property { negated, name } => property_text(negated, name),
        Shape::Class { negated, closing, body } => class_text(negated, closing, body),
        Shape::Then(a, b) => shape_text(*a) + shape_text(*b),
        Shape::Either(a, b) => shape_text(*a).push('|') + shape_text(*b),
        Shape::Group { captured, inner } => (if captured {
            seq!['(']
        } else {
            seq!['(', '?', ':']
        }) + shape_text(*inner) + seq![')'],
        Shape::Repeat(a) => shape_text(*a).push('+'),
    }
}

/// The text of the shape is read as the shape: `|` binds less than what stands side
/// by side, and `+` repeats one unit.
pub open spec fn is_plain_shape(s: Shape) -> bool
    decreases s,
{
    match s {
        Shape::Nothing => true,
        Shape::Char(_) => true,
        Shape::Sign(c) => c == '.' || c == '^' || c == '$' || c == '#' || c == ']' || c == '}',
        Shape::Letter(c) => is_shorthand(c),
        Shape::Property { negated, name } => !name.contains('}'),
        Shape::Class { negated, closing, body } => is_class_body(body, false) && (closing || body.len() > 0) && (negated || closing
            || body[0] != '^'),
        Shape::Then(a, b) => is_plain_shape(*a) && is_plain_shape(*b) && !(*a is Either) && !(*b is Either),
        Shape::Either(a, b) => is_plain_shape(*a) && is_plain_shape(*b),
        Shape::Group { captured, inner } => is_plain_shape(*inner),
        Shape::Repeat(a) => is_plain_shape(*a) && !(*a is Nothing) && !(*a is Then) && !(*a is Either),
    }
}

/// What a match of the shape holds at least. A sign, an escaped letter, a property and a
/// class are left open, and of a repetition only the first round is looked at.
pub open spec fn could_match(s: Shape, w: Seq<u8>) -> bool
    decreases s,
{
    match s {
        Shape::Nothing => w.len() == 0,
        Shape::Char(c) => w == encode_utf8(seq![c]),
        Shape::Then(a, b) => exists|k: int| 0 <= k <= w.len() && could_match(*a, #[trigger] w.take(k)) && could_match(
            *b,
            w.skip(k),
        ),
        Shape::Either(a, b) => could_match(*a, w) || could_match(*b, w),
        Shape::Group { captured, inner } => could_match(*inner, w),
        Shape::Repeat(a) => exists|k: int| 0 <= k <= w.len() && could_match(*a, #[trigger] w.take(k)),
        _ => true,
    }
}

/// Some part of the buffer could be a match.
pub open spec fn could_match_in(s: Shape, buf: Seq<u8>) -> bool {
    exists|a: int, b: int| 0 <= a <= b <= buf.len() && could_match(s, #[trigger] buf.subrange(a, b))
}

/// Of a pattern that is the text of a shape, some part of the buffer could be a match.
pub open spec fn finds_shape(pattern: Seq<char>, buf: Seq<u8>) -> bool {
    forall|s: Shape| is_plain_shape(s) && pattern == #[trigger] shape_text(s) ==> could_match_in(s, buf)
}

// ---- lexical units ----

/// A text that is one lexical unit wherever it stands, and separates nothing.
pub open spec fn is_unit(u: Seq<char>) -> bool {
    &&& u.len() > 0
    &&& u[0] != '|'
    &&& forall|a: Seq<char>, b: Seq<char>| #[trigger] unit_end(a + u + b, a.len() as int) == a.len() + u.len()
}

/// A unit, or a bar between alternatives.
pub enum Part {
    Unit(Seq<char>),
    Bar,
}

/// The parts of a shape, in the order in which they are written.
pub open spec fn parts_of(s: Shape) -> Seq<Part>
    decreases s,
{
    match s {
        Shape::Nothing => Seq::empty(),
        Shape::Char(c) => seq![Part::Unit(char_text(c))],
        Shape::Sign(c) => seq![Part::Unit(seq![c])],
        Shape::Letter(c) => seq![Part::Unit(seq!['\\', c])],
        Shape::Property { negated, name } => seq![Part::Unit(property_text(negated, name))],
        Shape::Class { negated, closing, body } => seq![Part::Unit(class_text(negated, closing, body))],
        Shape::Then(a, b) => parts_of(*a) + parts_of(*b),
        Shape::Either(a, b) => parts_of(*a).push(Part::Bar) + parts_of(*b),
        Shape::Group { captured, inner } => (if captured {
            seq![Part::Unit(seq!['('])]
        } else {
            seq![Part::Unit(seq!['(']), Part::Unit(seq!['?']), Part::Unit(seq![':'])]
        }) + parts_of(*inner) + seq![Part::Unit(seq![')'])],
        Shape::Repeat(a) => parts_of(*a).push(Part::Unit(seq!['+'])),
    }
}

/// Every part is a bar or a unit.
pub open spec fn parts_ok(ps: Seq<Part>) -> bool {
    forall|k: int| 0 <= k < ps.len() ==> (#[trigger] ps[k] matches Part::Unit(u) ==> is_unit(u))
}

/// The text of a part.
pub open spec fn part_text(p: Part) -> Seq<char> {
    match p {
        Part::Unit(u) => u,
        Part::Bar => seq!['|'],
    }
}

/// The text of parts.
pub open spec fn flat(ps: Seq<Part>) -> Seq<char>
    decreases ps.len(),
{
    if ps.len() == 0 {
        Seq::empty()
    } else {
        part_text(ps[0]) + flat(ps.drop_first())
    }
}

proof fn lemma_flat_concat(a: Seq<Part>, b: Seq<Part>)
    ensures
        flat(a + b) == flat(a) + flat(b),
    decreases a.len(),
{
    if a.len() == 0 {
        assert(a + b =~= b);
        assert(flat(a) + flat(b) =~= flat(b));
    } else {
        assert((a + b).drop_first() =~= a.drop_first() + b);
        lemma_flat_concat(a.drop_first(), b);
        assert(flat(a + b) =~= flat(a) + flat(b));
    }
}

proof fn lemma_flat_one(p: Part)
    ensures
        flat(seq![p]) == part_text(p),
{
    assert(seq![p].drop_first() =~= Seq::empty());
    assert(flat(Seq::<Part>::empty()) =~= Seq::empty());
    assert(flat(seq![p]) =~= part_text(p));
}

proof fn lemma_single_unit(c: char)
    requires
        c != '\\',
        c != '[',
        c != '|',
    ensures
        is_unit(seq![c]),
{
    let u = seq![c];
    assert forall|a: Seq<char>, b: Seq<char>| #[trigger] unit_end(a + u + b, a.len() as int) == a.len() + u.len() by {
        assert((a + u + b)[a.len() as int] == c);
    }
}

proof fn lemma_escape_unit(c: char)
    requires
        c != 'p',
        c != 'P',
    ensures
        is_unit(seq!['\\', c]),
{
    let u = seq!['\\', c];
    assert forall|a: Seq<char>, b: Seq<char>| #[trigger] unit_end(a + u + b, a.len() as int) == a.len() + u.len() by {
        let p = a + u + b;
        assert(p[a.len() as int] == '\\');
        assert(p[a.len() as int + 1] == c);
    }
}

proof fn lemma_brace_at(p: Seq<char>, j: int, e: int)
    requires
        0 <= j < e <= p.len(),
        p[e - 1] == '}',
        forall|k: int| j <= k < e - 1 ==> #[trigger] p[k] != '}',
    ensures
        brace_close(p, j) == Some(e),
    decreases e - j,
{
    if j < e - 1 {
        assert(p[j] != '}');
        lemma_brace_at(p, j + 1, e);
    }
}

proof fn lemma_property_unit(negated: bool, name: Seq<char>)
    requires
        !name.contains('}'),
    ensures
        is_unit(property_text(negated, name)),
{
    let u = property_text(negated, name);
    assert forall|a: Seq<char>, b: Seq<char>| #[trigger] unit_end(a + u + b, a.len() as int) == a.len() + u.len() by {
        let p = a + u + b;
        let i = a.len() as int;
        assert forall|k: int| 0 <= k < u.len() implies #[trigger] p[i + k] == u[k] by {}
        assert(p[i + 0] == u[0] && p[i + 1] == u[1] && p[i + 2] == u[2]);
        assert(p[i + (u.len() - 1)] == u[u.len() - 1]);
        assert forall|k: int| i + 3 <= k < i + u.len() - 1 implies #[trigger] p[k] != '}' by {
            assert(p[i + (k - i)] == u[k - i]);
            assert(u[k - i] == name[k - i - 3]);
        }
        lemma_brace_at(p, i + 3, i + u.len());
    }
}

proof fn lemma_class_close(p: Seq<char>, i: int, body: Seq<char>, dash: bool)
    requires
        0 <= i,
        i + body.len() < p.len(),
        p.subrange(i, i + body.len()) == body,
        p[i + body.len()] == ']',
        is_class_body(body, dash),
    ensures
        class_close(p, i) == i + body.len() + 1,
    decreases body.len(),
{
    if body.len() > 0 {
        let end = i + body.len();
        assert(p[i] == body[0]) by {
            assert(p.subrange(i, end)[0] == p[i]);
        }
        let n: int = if body[0] == '\\' {
            2
        } else if body[0] == '[' {
            lemma_posix_bounds(body, 0);
            lemma_posix_in_part(p, i, end, i);
            posix_end(body, 0)->Some_0
        } else {
            1
        };
        let rest = body.skip(n);
        assert(p.subrange(i + n, end) =~= rest) by {
            assert forall|k: int| 0 <= k < rest.len() implies p[i + n + k] == rest[k] by {
                assert(p.subrange(i, end)[k + n] == body[k + n]);
            }
        }
        lemma_class_close(p, i + n, rest, body[0] == '-');
    }
}

proof fn lemma_class_unit(negated: bool, closing: bool, body: Seq<char>)
    requires
        is_class_body(body, false),
        closing || body.len() > 0,
        negated || closing || body[0] != '^',
    ensures
        is_unit(class_text(negated, closing, body)),
{
    let u = class_text(negated, closing, body);
    let n = if negated {
        1int
    } else {
        0
    };
    let c = if closing {
        1int
    } else {
        0
    };
    assert(u.len() == 2 + n + c + body.len());
    assert(u[0] == '[');
    assert forall|a: Seq<char>, b: Seq<char>| #[trigger] unit_end(a + u + b, a.len() as int) == a.len() + u.len() by {
        let p = a + u + b;
        let i = a.len() as int;
        assert forall|k: int| 0 <= k < u.len() implies #[trigger] p[i + k] == u[k] by {}
        assert(p[i + 0] == '[');
        if negated {
            assert(u[1] == '^');
            assert(p[i + 1] == '^');
        } else if closing {
            assert(u[1] == ']');
            assert(p[i + 1] == ']');
        } else {
            assert(u[1] == body[0]);
            assert(p[i + 1] == body[0]);
        }
        if closing {
            assert(u[1 + n] == ']');
            assert(p[i + (1 + n)] == ']');
        } else {
            assert(u[1 + n] == body[0]);
            assert(p[i + (1 + n)] == body[0]);
        }
        let from = i + 1 + n + c;
        assert(class_body(p, i + 1) == from);
        assert(p.subrange(from, from + body.len()) =~= body) by {
            assert forall|k: int| 0 <= k < body.len() implies p[from + k] == body[k] by {
                assert(u[1 + n + c + k] == body[k]);
                assert(p[i + (1 + n + c + k)] == body[k]);
            }
        }
        assert(u[1 + n + c + body.len()] == ']');
        assert(p[i + (1 + n + c + body.len())] == ']');
        lemma_class_close(p, from, body, false);
    }
}

proof fn lemma_parts(s: Shape)
    requires
        is_plain_shape(s),
    ensures
        parts_ok(parts_of(s)),
        flat(parts_of(s)) == shape_text(s),
    decreases s,
{
    match s {
        Shape::Nothing => {},
        Shape::Char(c) => {
            if is_meta(c) {
                lemma_escape_unit(c);
            } else {
                lemma_single_unit(c);
            }
            lemma_flat_one(Part::Unit(char_text(c)));
        },
        Shape::Sign(c) => {
            lemma_single_unit(c);
            lemma_flat_one(Part::Unit(seq![c]));
        },
        Shape::Letter(c) => {
            lemma_escape_unit(c);
            lemma_flat_one(Part::Unit(seq!['\\', c]));
        },
        Shape::Property { negated, name } => {
            lemma_property_unit(negated, name);
            lemma_flat_one(Part::Unit(property_text(negated, name)));
        },
        Shape::Class { negated, closing, body } => {
            lemma_class_unit(negated, closing, body);
            lemma_flat_one(Part::Unit(class_text(negated, closing, body)));
        },
        Shape::Then(a, b) => {
            lemma_parts(*a);
            lemma_parts(*b);
            lemma_flat_concat(parts_of(*a), parts_of(*b));
        },
        Shape::Either(a, b) => {
            lemma_parts(*a);
            lemma_parts(*b);
            lemma_flat_concat(parts_of(*a), seq![Part::Bar]);
            assert(parts_of(*a) + seq![Part::Bar] =~= parts_of(*a).push(Part::Bar));
            lemma_flat_one(Part::Bar);
            lemma_flat_concat(parts_of(*a).push(Part::Bar), parts_of(*b));
            assert(shape_text(*a) + seq!['|'] =~= shape_text(*a).push('|'));
        },
        Shape::Group { captured, inner } => {
            let open = if captured {
                seq![Part::Unit(seq!['('])]
            } else {
                seq![Part::Unit(seq!['(']), Part::Unit(seq!['?']), Part::Unit(seq![':'])]
            };
            let shut = seq![Part::Unit(seq![')'])];
            lemma_single_unit('(');
            lemma_single_unit('?');
            lemma_single_unit(':');
            lemma_single_unit(')');
            lemma_parts(*inner);
            lemma_flat_one(Part::Unit(seq!['(']));
            lemma_flat_one(Part::Unit(seq![')']));
            if !captured {
                lemma_flat_one(Part::Unit(seq![':']));
                assert(open.drop_first() =~= seq![Part::Unit(seq!['?']), Part::Unit(seq![':'])]);
                assert(open.drop_first().drop_first() =~= seq![Part::Unit(seq![':'])]);
                assert(flat(open.drop_first()) =~= seq!['?', ':']);
                assert(flat(open) =~= seq!['(', '?', ':']);
            }
            lemma_flat_concat(open, parts_of(*inner));
            lemma_flat_concat(open + parts_of(*inner), shut);
        },
        Shape::Repeat(a) => {
            lemma_single_unit('+');
            lemma_parts(*a);
            lemma_flat_one(Part::Unit(seq!['+']));
            lemma_flat_concat(parts_of(*a), seq![Part::Unit(seq!['+'])]);
            assert(parts_of(*a) + seq![Part::Unit(seq!['+'])] =~= parts_of(*a).push(Part::Unit(seq!['+'])));
            assert(shape_text(*a) + seq!['+'] =~= shape_text(*a).push('+'));
        },
    }
}

// ---- branches ----

/// The units between the bars, `cur` being what the current branch holds so far.
pub open spec fn segments_from(ps: Seq<Part>, cur: Seq<Seq<char>>) -> Seq<Seq<Seq<char>>>
    decreases ps.len(),
{
    if ps.len() == 0 {
        seq![cur]
    } else {
        match ps[0] {
            Part::Unit(u) => segments_from(ps.drop_first(), cur.push(u)),
            Part::Bar => seq![cur] + segments_from(ps.drop_first(), Seq::empty()),
        }
    }
}

/// The units between the bars.
pub open spec fn segments(ps: Seq<Part>) -> Seq<Seq<Seq<char>>> {
    segments_from(ps, Seq::empty())
}

/// The text of units.
pub open spec fn units_text(us: Seq<Seq<char>>) -> Seq<char>
    decreases us.len(),
{
    if us.len() == 0 {
        Seq::empty()
    } else {
        units_text(us.drop_last()) + us.last()
    }
}

/// The texts of the segments.
pub open spec fn segment_texts(ss: Seq<Seq<Seq<char>>>) -> Seq<Seq<char>> {
    Seq::new(ss.len(), |k: int| units_text(ss[k]))
}

/// The branches of a text are the texts of its segments.
proof fn lemma_branches(done: Seq<char>, ps: Seq<Part>, cur: Seq<Seq<char>>)
    requires
        parts_ok(ps),
    ensures
        split_from(done + flat(ps), done.len() as int, units_text(cur)) == segment_texts(segments_from(ps, cur)),
    decreases ps.len(),
{
    let p = done + flat(ps);
    let i = done.len() as int;
    if ps.len() == 0 {
        assert(p =~= done);
        assert(segment_texts(seq![cur]) =~= seq![units_text(cur)]);
    } else {
        let rest = ps.drop_first();
        let t = part_text(ps[0]);
        assert(p =~= done + t + flat(rest));
        assert(p =~= (done + t) + flat(rest));
        assert forall|k: int| 0 <= k < rest.len() implies (#[trigger] rest[k] matches Part::Unit(u) ==> is_unit(u)) by {
            assert(rest[k] == ps[k + 1]);
        }
        match ps[0] {
            Part::Unit(u) => {
                assert(is_unit(u));
                assert(unit_end(done + u + flat(rest), done.len() as int) == done.len() + u.len());
                assert(p[i] == u[0]);
                assert(p.subrange(i, i + u.len()) =~= u);
                assert(cur.push(u).drop_last() =~= cur);
                lemma_branches(done + t, rest, cur.push(u));
            },
            Part::Bar => {
                assert(p[i] == '|');
                let none = Seq::<Seq<char>>::empty();
                assert(units_text(none) =~= Seq::empty());
                lemma_branches(done + t, rest, none);
                assert(segment_texts(seq![cur] + segments_from(rest, none)) =~= seq![units_text(cur)] + segment_texts(
                    segments_from(rest, none),
                ));
            },
        }
    }
}

proof fn lemma_segments_nonempty(ps: Seq<Part>, cur: Seq<Seq<char>>)
    ensures
        segments_from(ps, cur).len() >= 1,
        segments_from(ps, cur)[0] == cur + segments_from(ps, Seq::empty())[0],
        segments_from(ps, cur).len() == segments_from(ps, Seq::empty()).len(),
        forall|k: int|
            1 <= k < segments_from(ps, cur).len() ==> #[trigger] segments_from(ps, cur)[k] == segments_from(
                ps,
                Seq::empty(),
            )[k],
    decreases ps.len(),
{
    let none = Seq::<Seq<char>>::empty();
    if ps.len() == 0 {
        assert(cur + none =~= cur);
    } else {
        let rest = ps.drop_first();
        match ps[0] {
            Part::Unit(u) => {
                lemma_segments_nonempty(rest, cur.push(u));
                lemma_segments_nonempty(rest, none.push(u));
                assert(cur.push(u) + segments_from(rest, none)[0] =~= cur + (none.push(u) + segments_from(rest, none)[0]));
            },
            Part::Bar => {
                assert(cur + none =~= cur);
            },
        }
    }
}

/// Side by side, the last segment of the one and the first of the other are one.
proof fn lemma_segments_concat(a: Seq<Part>, b: Seq<Part>, cur: Seq<Seq<char>>)
    ensures
        segments_from(a + b, cur) == segments_from(a, cur).drop_last() + segments_from(
            b,
            segments_from(a, cur).last(),
        ),
    decreases a.len(),
{
    if a.len() == 0 {
        assert(a + b =~= b);
        assert(seq![cur].drop_last() =~= Seq::empty());
        assert(seq![cur].drop_last() + segments_from(b, cur) =~= segments_from(b, cur));
    } else {
        let rest = a.drop_first();
        assert((a + b).drop_first() =~= rest + b);
        assert((a + b)[0] == a[0]);
        match a[0] {
            Part::Unit(u) => {
                lemma_segments_concat(rest, b, cur.push(u));
            },
            Part::Bar => {
                let none = Seq::<Seq<char>>::empty();
                lemma_segments_concat(rest, b, none);
                lemma_segments_nonempty(rest, none);
                let r = segments_from(rest, none);
                assert((seq![cur] + r).drop_last() =~= seq![cur] + r.drop_last());
                assert((seq![cur] + r).last() == r.last());
                let t = segments_from(b, r.last());
                assert(seq![cur] + (r.drop_last() + t) =~= seq![cur] + r.drop_last() + t);
            },
        }
    }
}

// ---- what a branch holds ----

/// What a unit matches: a word character itself, anything else is left open.
pub open spec fn unit_fits(u: Seq<char>, x: Seq<u8>) -> bool {
    u.len() == 1 && is_word_char(u[0]) ==> x == seq![u[0] as u8]
}

/// The units match one after the other.
pub open spec fn spread(us: Seq<Seq<char>>, w: Seq<u8>) -> bool
    decreases us.len(),
{
    if us.len() == 0 {
        w.len() == 0
    } else {
        exists|k: int| 0 <= k <= w.len() && spread(us.drop_last(), #[trigger] w.take(k)) && unit_fits(us.last(), w.skip(k))
    }
}

proof fn lemma_spread_one(u: Seq<char>, x: Seq<u8>)
    requires
        unit_fits(u, x),
    ensures
        spread(seq![u], x),
{
    assert(seq![u].drop_last() =~= Seq::empty());
    assert(spread(Seq::empty(), x.take(0)));
    assert(x.skip(0) =~= x);
}

proof fn lemma_spread_concat(a: Seq<Seq<char>>, v: Seq<u8>, b: Seq<Seq<char>>, w: Seq<u8>)
    requires
        spread(a, v),
        spread(b, w),
    ensures
        spread(a + b, v + w),
    decreases b.len(),
{
    if b.len() == 0 {
        assert(a + b =~= a);
        assert(v + w =~= v);
    } else {
        let k = choose|k: int| 0 <= k <= w.len() && spread(b.drop_last(), #[trigger] w.take(k)) && unit_fits(b.last(), w.skip(k));
        lemma_spread_concat(a, v, b.drop_last(), w.take(k));
        let all = a + b;
        assert(all.drop_last() =~= a + b.drop_last());
        assert((v + w).take(v.len() + k) =~= v + w.take(k));
        assert((v + w).skip(v.len() + k) =~= w.skip(k));
        assert(all.last() == b.last());
    }
}

/// The literal runs of a branch occur in what its units match.
proof fn lemma_runs_occur(
    us: Seq<Seq<char>>,
    n: int,
    cur: Seq<u8>,
    w: Seq<u8>,
    at: int,
    r: int,
)
    requires
        0 <= n <= us.len(),
        forall|k: int| 0 <= k < us.len() ==> is_unit(#[trigger] us[k]),
        0 <= at <= w.len(),
        spread_tail(us, n, w.skip(at)),
        cur.len() <= at,
        cur == w.subrange(at - cur.len(), at),
        0 <= r < runs_from(units_text(us), units_text(us.take(n)).len() as int, cur).len(),
    ensures
        occurs_in(runs_from(units_text(us), units_text(us.take(n)).len() as int, cur)[r], w),
    decreases us.len() - n,
{
    let p = units_text(us);
    let i = units_text(us.take(n)).len() as int;
    if n == us.len() {
        assert(us.take(n) =~= us);
        assert(occurs_at(cur, w, at - cur.len()));
    } else {
        let u = us[n];
        lemma_unit_stands(us, n);
        assert(us.take(n + 1).drop_last() =~= us.take(n));
        assert(units_text(us.take(n + 1)) == units_text(us.take(n)) + u);
        let rest = w.skip(at);
        let k = choose|k: int| 0 <= k <= rest.len() && unit_fits(u, #[trigger] rest.take(k)) && spread_tail(us, n + 1, rest.skip(k));
        assert(rest.skip(k) =~= w.skip(at + k));
        if is_word_char(p[i]) {
            assert(unit_end(p, i) == i + 1);
            assert(u.len() == 1);
            assert(rest.take(k) == seq![u[0] as u8]);
            assert(k == 1) by {
                assert(rest.take(k).len() == k);
            }
            assert(w[at] == u[0] as u8) by {
                assert(rest.take(k)[0] == w[at]);
            }
            assert(cur.push(u[0] as u8) =~= w.subrange(at - cur.len(), at + 1)) by {
                assert forall|x: int| 0 <= x < cur.len() implies cur[x] == w[at - cur.len() + x] by {
                    assert(w.subrange(at - cur.len(), at)[x] == cur[x]);
                }
            }
            lemma_runs_occur(us, n + 1, cur.push(u[0] as u8), w, at + 1, r);
        } else {
            let none = Seq::<u8>::empty();
            let more = runs_from(p, unit_end(p, i), none);
            let head = flushed(cur);
            assert(runs_from(p, i, cur) == head + more);
            if r < head.len() {
                assert(occurs_at(cur, w, at - cur.len()));
            } else {
                assert((head + more)[r] == more[r - head.len()]);
                assert(w.subrange(at + k, at + k) =~= none);
                lemma_runs_occur(us, n + 1, none, w, at + k, r - head.len());
            }
        }
    }
}

/// The units from `n` on match one after the other.
spec fn spread_tail(us: Seq<Seq<char>>, n: int, w: Seq<u8>) -> bool
    decreases us.len() - n,
{
    if n >= us.len() {
        w.len() == 0
    } else {
        exists|k: int| 0 <= k <= w.len() && unit_fits(us[n], #[trigger] w.take(k)) && spread_tail(us, n + 1, w.skip(k))
    }
}

proof fn lemma_spread_tail(us: Seq<Seq<char>>, n: int, v: Seq<u8>, w: Seq<u8>)
    requires
        0 <= n <= us.len(),
        spread(us.take(n), v),
        spread_tail(us, n, w),
    ensures
        spread_tail(us, 0, v + w),
    decreases n,
{
    if n == 0 {
        assert(us.take(0) =~= Seq::empty());
        assert(v + w =~= w);
    } else {
        let front = us.take(n);
        assert(front.drop_last() =~= us.take(n - 1));
        assert(front.last() == us[n - 1]);
        let k = choose|k: int| 0 <= k <= v.len() && spread(front.drop_last(), #[trigger] v.take(k)) && unit_fits(front.last(), v.skip(k));
        let tail = v.skip(k) + w;
        let j = (v.len() - k) as int;
        assert(tail.take(j) =~= v.skip(k));
        assert(tail.skip(j) =~= w);
        assert(spread_tail(us, n - 1, tail));
        assert(v.take(k) + tail =~= v + w);
        lemma_spread_tail(us, n - 1, v.take(k), tail);
    }
}

proof fn lemma_unit_stands(us: Seq<Seq<char>>, n: int)
    requires
        0 <= n < us.len(),
        forall|k: int| 0 <= k < us.len() ==> is_unit(#[trigger] us[k]),
    ensures
        ({
            let p = units_text(us);
            let i = units_text(us.take(n)).len() as int;
            &&& 0 <= i < p.len()
            &&& p[i] == us[n][0]
            &&& unit_end(p, i) == i + us[n].len()
        }),
{
    let a = units_text(us.take(n));
    let b = lemma_units_text_split(us, n + 1);
    assert(us.take(n + 1).drop_last() =~= us.take(n));
    assert(units_text(us.take(n + 1)) == a + us[n]);
    assert(units_text(us) =~= a + us[n] + b);
    assert(is_unit(us[n]));
    assert(unit_end(a + us[n] + b, a.len() as int) == a.len() + us[n].len());
}

proof fn lemma_units_text_split(us: Seq<Seq<char>>, n: int) -> (rest: Seq<char>)
    requires
        0 <= n <= us.len(),
    ensures
        units_text(us) == units_text(us.take(n)) + rest,
    decreases us.len(),
{
    if n == us.len() {
        assert(us.take(n) =~= us);
        assert(units_text(us) =~= units_text(us) + Seq::<char>::empty());
        Seq::empty()
    } else {
        let rest = lemma_units_text_split(us.drop_last(), n);
        assert(us.drop_last().take(n) =~= us.take(n));
        assert(units_text(us) =~= units_text(us.take(n)) + (rest + us.last()));
        rest + us.last()
    }
}

/// Some segment is matched whole; the first one from the start, and the last one to
/// the end.
pub open spec fn covers(ps: Seq<Part>, w: Seq<u8>) -> bool {
    exists|j: int, a: int, b: int| #[trigger] covered_by(ps, w, j, a, b)
}

/// The segment `j` matches the part from `a` to `b`.
pub open spec fn covered_by(ps: Seq<Part>, w: Seq<u8>, j: int, a: int, b: int) -> bool {
    let ss = segments(ps);
    &&& 0 <= j < ss.len()
    &&& 0 <= a <= b <= w.len()
    &&& j == 0 ==> a == 0
    &&& j == ss.len() - 1 ==> b == w.len()
    &&& spread(ss[j], w.subrange(a, b))
}

proof fn lemma_covers_unit(u: Seq<char>, w: Seq<u8>)
    requires
        unit_fits(u, w),
    ensures
        covers(seq![Part::Unit(u)], w),
{
    let ps = seq![Part::Unit(u)];
    let none = Seq::<Seq<char>>::empty();
    assert(ps.drop_first() =~= Seq::empty());
    assert(segments_from(ps, none) == segments_from(ps.drop_first(), none.push(u)));
    assert(segments(ps) =~= seq![seq![u]]) by {
        assert(none.push(u) =~= seq![u]);
    }
    lemma_spread_one(u, w);
    assert(w.subrange(0, w.len() as int) =~= w);
    assert(covered_by(ps, w, 0, 0, w.len() as int));
}

proof fn lemma_covers_then(p: Seq<Part>, v: Seq<u8>, q: Seq<Part>, w: Seq<u8>)
    requires
        covers(p, v),
        covers(q, w),
    ensures
        covers(p + q, v + w),
{
    let (j, a, b) = choose|j: int, a: int, b: int| #[trigger] covered_by(p, v, j, a, b);
    let (k, c, d) = choose|j: int, a: int, b: int| #[trigger] covered_by(q, w, j, a, b);
    let none = Seq::<Seq<char>>::empty();
    let sp = segments(p);
    let sq = segments(q);
    lemma_segments_concat(p, q, none);
    lemma_segments_nonempty(p, none);
    lemma_segments_nonempty(q, sp.last());
    let all = segments(p + q);
    let joint = segments_from(q, sp.last());
    let n = sp.len() - 1;
    assert(all == sp.drop_last() + joint);
    assert(all.len() == n + sq.len());
    if j < n {
        assert(all[j] == sp[j]);
        assert((v + w).subrange(a, b) =~= v.subrange(a, b));
        assert(covered_by(p + q, v + w, j, a, b));
    } else if k > 0 {
        assert(all[n + k] == joint[k]);
        assert(joint[k] == sq[k]);
        assert((v + w).subrange(v.len() + c, v.len() + d) =~= w.subrange(c, d));
        assert(covered_by(p + q, v + w, n + k, v.len() + c, v.len() + d));
    } else {
        assert(all[n] == joint[0]);
        assert(joint[0] == sp.last() + sq[0]);
        lemma_spread_concat(sp[n], v.subrange(a, b), sq[0], w.subrange(c, d));
        assert((v + w).subrange(a, v.len() + d) =~= v.subrange(a, b) + w.subrange(c, d));
        assert(covered_by(p + q, v + w, n, a, v.len() + d));
    }
}

proof fn lemma_covers_either(p: Seq<Part>, q: Seq<Part>, w: Seq<u8>)
    requires
        covers(p, w) || covers(q, w),
    ensures
        covers(p.push(Part::Bar) + q, w),
{
    let none = Seq::<Seq<char>>::empty();
    let sp = segments(p);
    let sq = segments(q);
    let bar = seq![Part::Bar];
    assert(p.push(Part::Bar) + q =~= p + (bar + q));
    lemma_segments_concat(p, bar + q, none);
    lemma_segments_nonempty(p, none);
    lemma_segments_nonempty(q, none);
    assert((bar + q).drop_first() =~= q);
    let tail = segments_from(bar + q, sp.last());
    assert(tail == seq![sp.last()] + sq);
    let all = segments(p.push(Part::Bar) + q);
    assert(all =~= sp + sq);
    if covers(p, w) {
        let (j, a, b) = choose|j: int, a: int, b: int| #[trigger] covered_by(p, w, j, a, b);
        assert(covered_by(p.push(Part::Bar) + q, w, j, a, b));
    } else {
        let (j, a, b) = choose|j: int, a: int, b: int| #[trigger] covered_by(q, w, j, a, b);
        assert(all[sp.len() + j] == sq[j]);
        assert(covered_by(p.push(Part::Bar) + q, w, sp.len() + j, a, b));
    }
}

proof fn lemma_match_covers(s: Shape, w: Seq<u8>)
    requires
        is_plain_shape(s),
        could_match(s, w),
    ensures
        covers(parts_of(s), w),
    decreases s,
{
    match s {
        Shape::Nothing => {
            let ps = Seq::<Part>::empty();
            let none = Seq::<Seq<char>>::empty();
            assert(segments(ps) =~= seq![none]);
            assert(w.subrange(0, 0) =~= Seq::empty());
            assert(spread(none, w.subrange(0, 0)));
            assert(covered_by(ps, w, 0, 0, 0));
        },
        Shape::Char(c) => {
            if char_text(c).len() == 1 && is_word_char(c) {
                assert forall|i: int| 0 <= i < 1 implies '\0' <= #[trigger] seq![c][i] <= '\u{7f}' by {}
                vstd::utf8::is_ascii_chars_encode_utf8(seq![c]);
                assert(w =~= seq![c as u8]);
            }
            lemma_covers_unit(char_text(c), w);
        },
        Shape::Sign(c) => {
            lemma_covers_unit(seq![c], w);
        },
        Shape::Letter(c) => {
            lemma_covers_unit(seq!['\\', c], w);
        },
        Shape::Property { negated, name } => {
            lemma_covers_unit(property_text(negated, name), w);
        },
        Shape::Class { negated, closing, body } => {
            lemma_covers_unit(class_text(negated, closing, body), w);
        },
        Shape::Then(a, b) => {
            let k = choose|k: int| 0 <= k <= w.len() && could_match(*a, #[trigger] w.take(k)) && could_match(*b, w.skip(k));
            lemma_match_covers(*a, w.take(k));
            lemma_match_covers(*b, w.skip(k));
            lemma_covers_then(parts_of(*a), w.take(k), parts_of(*b), w.skip(k));
            assert(w.take(k) + w.skip(k) =~= w);
        },
        Shape::Either(a, b) => {
            if could_match(*a, w) {
                lemma_match_covers(*a, w);
            } else {
                lemma_match_covers(*b, w);
            }
            lemma_covers_either(parts_of(*a), parts_of(*b), w);
        },
        Shape::Group { captured, inner } => {
            let none = Seq::<u8>::empty();
            lemma_match_covers(*inner, w);
            lemma_covers_unit(seq!['('], none);
            lemma_covers_unit(seq![')'], none);
            let mut open = seq![Part::Unit(seq!['('])];
            if !captured {
                lemma_covers_unit(seq!['?'], none);
                lemma_covers_unit(seq![':'], none);
                lemma_covers_then(open, none, seq![Part::Unit(seq!['?'])], none);
                lemma_covers_then(open + seq![Part::Unit(seq!['?'])], none + none, seq![Part::Unit(seq![':'])], none);
                open = open + seq![Part::Unit(seq!['?'])] + seq![Part::Unit(seq![':'])];
                assert(open =~= seq![Part::Unit(seq!['(']), Part::Unit(seq!['?']), Part::Unit(seq![':'])]);
                assert(none + none + none =~= none);
            }
            lemma_covers_then(open, none, parts_of(*inner), w);
            assert(none + w =~= w);
            lemma_covers_then(open + parts_of(*inner), w, seq![Part::Unit(seq![')'])], none);
            assert(w + none =~= w);
        },
        Shape::Repeat(a) => {
            let k = choose|k: int| 0 <= k <= w.len() && could_match(*a, #[trigger] w.take(k));
            lemma_match_covers(*a, w.take(k));
            lemma_covers_unit(seq!['+'], w.skip(k));
            lemma_covers_then(parts_of(*a), w.take(k), seq![Part::Unit(seq!['+'])], w.skip(k));
            assert(w.take(k) + w.skip(k) =~= w);
            assert(parts_of(*a) + seq![Part::Unit(seq!['+'])] =~= parts_of(*a).push(Part::Unit(seq!['+'])));
        },
    }
}

proof fn lemma_segments_ok(ps: Seq<Part>, cur: Seq<Seq<char>>, j: int, k: int)
    requires
        parts_ok(ps),
        forall|x: int| 0 <= x < cur.len() ==> is_unit(#[trigger] cur[x]),
        0 <= j < segments_from(ps, cur).len(),
        0 <= k < segments_from(ps, cur)[j].len(),
    ensures
        is_unit(segments_from(ps, cur)[j][k]),
    decreases ps.len(),
{
    if ps.len() > 0 {
        let rest = ps.drop_first();
        assert forall|x: int| 0 <= x < rest.len() implies (#[trigger] rest[x] matches Part::Unit(u) ==> is_unit(u)) by {
            assert(rest[x] == ps[x + 1]);
        }
        match ps[0] {
            Part::Unit(u) => {
                lemma_segments_ok(rest, cur.push(u), j, k);
            },
            Part::Bar => {
                if j > 0 {
                    lemma_segments_ok(rest, Seq::empty(), j - 1, k);
                }
            },
        }
    }
}

/// Where a shape could match, every literal run of some branch of its text occurs.
pub proof fn lemma_shape_runs_occur(s: Shape, buf: Seq<u8>) -> (j: int)
    requires
        is_plain_shape(s),
        could_match_in(s, buf),
    ensures
        0 <= j < branches(shape_text(s)).len(),
        forall|r: int|
            0 <= r < runs(branches(shape_text(s))[j]).len() ==> occurs_in(
                #[trigger] runs(branches(shape_text(s))[j])[r],
                buf,
            ),
{
    let (from, to) = choose|a: int, b: int| 0 <= a <= b <= buf.len() && could_match(s, #[trigger] buf.subrange(a, b));
    let w = buf.subrange(from, to);
    let ps = parts_of(s);
    let none = Seq::<Seq<char>>::empty();
    lemma_parts(s);
    lemma_match_covers(s, w);
    let (j, a, b) = choose|j: int, a: int, b: int| #[trigger] covered_by(ps, w, j, a, b);
    lemma_branches(Seq::empty(), ps, none);
    assert(Seq::<char>::empty() + flat(ps) =~= flat(ps));
    assert(units_text(none) =~= Seq::empty());
    let us = segments(ps)[j];
    assert(branches(shape_text(s))[j] == units_text(us));
    let v = w.subrange(a, b);
    assert forall|k: int| 0 <= k < us.len() implies is_unit(#[trigger] us[k]) by {
        lemma_segments_ok(ps, none, j, k);
    }
    assert(us.take(us.len() as int) =~= us);
    lemma_spread_tail(us, us.len() as int, v, Seq::empty());
    assert(v + Seq::<u8>::empty() =~= v);
    assert(us.take(0) =~= none);
    assert forall|r: int| 0 <= r < runs(units_text(us)).len() implies occurs_in(#[trigger] runs(units_text(us))[r], buf) by {
        let run = runs(units_text(us))[r];
        assert(v.skip(0) =~= v);
        assert(v.subrange(0, 0) =~= Seq::<u8>::empty());
        lemma_runs_occur(us, 0, Seq::empty(), v, 0, r);
        let x = choose|x: int| occurs_at(run, v, x);
        assert(buf.subrange(from + a + x, from + a + x + run.len()) =~= v.subrange(x, x + run.len()));
        assert(occurs_at(run, buf, from + a + x));
    }
    j
}

// ---- queries ----

/// Every literal run of a branch occurs in the text.
pub open spec fn holds_runs(branch: Seq<char>, text: Seq<u8>) -> bool {
    forall|k: int| 0 <= k < runs(branch).len() ==> occurs_in(#[trigger] runs(branch)[k], text)
}

/// The text holds what a match of one pattern needs: the whole of a literal text, or
/// every literal run of some branch.
pub open spec fn can_match(pattern: Seq<char>, fixed: bool, text: Seq<u8>) -> bool {
    if fixed {
        occurs_in(encode_utf8(pattern), text)
    } else {
        exists|b: int| 0 <= b < branches(pattern).len() && holds_runs(#[trigger] branches(pattern)[b], text)
    }
}

/// The text holds what a match of some pattern needs.
pub open spec fn can_match_some(patterns: Seq<Seq<char>>, fixed: bool, text: Seq<u8>) -> bool {
    exists|k: int| 0 <= k < patterns.len() && can_match(#[trigger] patterns[k], fixed, text)
}

/// The pattern is the text of some shape.
pub open spec fn is_shaped(pattern: Seq<char>) -> bool {
    exists|s: Shape| is_plain_shape(s) && #[trigger] shape_text(s) == pattern
}

/// Where a pattern of some shape could match, the text holds what a match needs.
pub proof fn law_match_holds_runs(s: Shape, buf: Seq<u8>)
    requires
        is_plain_shape(s),
        could_match_in(s, buf),
    ensures
        can_match(shape_text(s), false, buf),
{
    let j = lemma_shape_runs_occur(s, buf);
    assert(holds_runs(branches(shape_text(s))[j], buf));
}

/// The shape of a literal text.
pub open spec fn literal_shape(text: Seq<char>) -> Shape
    decreases text.len(),
{
    if text.len() == 0 {
        Shape::Nothing
    } else {
        Shape::Then(Box::new(literal_shape(text.drop_last())), Box::new(Shape::Char(text.last())))
    }
}

proof fn lemma_char_shape(c: char)
    ensures
        is_plain_shape(Shape::Char(c)),
        shape_text(Shape::Char(c)) == char_text(c),
{
}

pub proof fn lemma_literal_shape(text: Seq<char>)
    ensures
        is_plain_shape(literal_shape(text)),
        shape_text(literal_shape(text)) == escaped(text),
        !(literal_shape(text) is Either),
    decreases text.len(),
{
    if text.len() > 0 {
        lemma_literal_shape(text.drop_last());
        let front = escaped(text.drop_last());
        lemma_char_shape(text.last());
        if is_meta(text.last()) {
            assert(front.push('\\').push(text.last()) =~= front + seq!['\\', text.last()]);
        } else {
            assert(front.push(text.last()) =~= front + seq![text.last()]);
        }
    }
}

pub proof fn lemma_literal_match(text: Seq<char>, w: Seq<u8>)
    requires
        could_match(literal_shape(text), w),
    ensures
        w == encode_utf8(text),
    decreases text.len(),
{
    if text.len() == 0 {
        assert(w =~= encode_utf8(text));
    } else {
        let a = literal_shape(text.drop_last());
        let b = Shape::Char(text.last());
        let k = choose|k: int| 0 <= k <= w.len() && could_match(a, #[trigger] w.take(k)) && could_match(b, w.skip(k));
        lemma_literal_match(text.drop_last(), w.take(k));
        lemma_encode_concat(text.drop_last(), seq![text.last()]);
        assert(text =~= text.drop_last() + seq![text.last()]);
        assert(w =~= w.take(k) + w.skip(k));
    }
}

/// The shape of each pattern, escaped where it is literal.
pub open spec fn pattern_shape(pattern: Seq<char>, fixed: bool) -> Shape {
    if fixed {
        literal_shape(pattern)
    } else {
        choose|s: Shape| is_plain_shape(s) && #[trigger] shape_text(s) == pattern
    }
}

/// The shape of several patterns as one.
pub open spec fn alternation_shape(patterns: Seq<Seq<char>>, fixed: bool) -> Shape
    decreases patterns.len(),
{
    if patterns.len() == 0 {
        Shape::Nothing
    } else {
        let last = Shape::Group { captured: false, inner: Box::new(pattern_shape(patterns.last(), fixed)) };
        if patterns.len() == 1 {
            last
        } else {
            Shape::Either(Box::new(alternation_shape(patterns.drop_last(), fixed)), Box::new(last))
        }
    }
}

proof fn lemma_pattern_shape(pattern: Seq<char>, fixed: bool)
    requires
        fixed || is_shaped(pattern),
    ensures
        is_plain_shape(pattern_shape(pattern, fixed)),
        shape_text(pattern_shape(pattern, fixed)) == (if fixed {
            escaped(pattern)
        } else {
            pattern
        }),
{
    if fixed {
        lemma_literal_shape(pattern);
    }
}

pub proof fn lemma_alternation_shape(patterns: Seq<Seq<char>>, fixed: bool)
    requires
        patterns.len() > 0,
        forall|k: int| 0 <= k < patterns.len() ==> fixed || is_shaped(#[trigger] patterns[k]),
    ensures
        is_plain_shape(alternation_shape(patterns, fixed)),
        shape_text(alternation_shape(patterns, fixed)) == alternation(patterns, fixed),
    decreases patterns.len(),
{
    assert(fixed || is_shaped(patterns[patterns.len() - 1]));
    lemma_pattern_shape(patterns.last(), fixed);
    let last = Shape::Group { captured: false, inner: Box::new(pattern_shape(patterns.last(), fixed)) };
    assert(is_plain_shape(last));
    assert(shape_text(last) == grouped(patterns.last(), fixed));
    if patterns.len() > 1 {
        let front = patterns.drop_last();
        assert forall|k: int| 0 <= k < front.len() implies fixed || is_shaped(#[trigger] front[k]) by {
            assert(front[k] == patterns[k]);
        }
        lemma_alternation_shape(front, fixed);
    } else {
        assert(patterns[0] == patterns.last());
    }
}

pub proof fn lemma_alternation_match(patterns: Seq<Seq<char>>, fixed: bool, w: Seq<u8>) -> (k: int)
    requires
        patterns.len() > 0,
        could_match(alternation_shape(patterns, fixed), w),
    ensures
        0 <= k < patterns.len(),
        could_match(pattern_shape(patterns[k], fixed), w),
    decreases patterns.len(),
{
    let last = Shape::Group { captured: false, inner: Box::new(pattern_shape(patterns.last(), fixed)) };
    if patterns.len() == 1 || could_match(last, w) {
        assert(could_match(last, w));
        patterns.len() - 1
    } else {
        let front = patterns.drop_last();
        let k = lemma_alternation_match(front, fixed, w);
        assert(front[k] == patterns[k]);
        k
    }
}

/// The combined pattern could match exactly what some one of its patterns could match: none
/// of them is lost and nothing is added. A literal pattern matches its own text alone.
pub proof fn law_alternation_matches_what_each_matches(patterns: Seq<Seq<char>>, fixed: bool, w: Seq<u8>)
    requires
        patterns.len() > 0,
    ensures
        could_match(alternation_shape(patterns, fixed), w) <==> exists|k: int|
            0 <= k < patterns.len() && could_match(pattern_shape(#[trigger] patterns[k], fixed), w),
        fixed ==> (could_match(alternation_shape(patterns, fixed), w) <==> exists|k: int|
            0 <= k < patterns.len() && w == encode_utf8(#[trigger] patterns[k])),
{
    if could_match(alternation_shape(patterns, fixed), w) {
        let k = lemma_alternation_match(patterns, fixed, w);
        assert(could_match(pattern_shape(patterns[k], fixed), w));
        if fixed {
            lemma_literal_match(patterns[k], w);
        }
    }
    assert forall|k: int| 0 <= k < patterns.len() && could_match(
        pattern_shape(#[trigger] patterns[k], fixed),
        w,
    ) implies could_match(alternation_shape(patterns, fixed), w) by {
        lemma_branch_matches(patterns, fixed, k, w);
    }
    assert forall|k: int| fixed && 0 <= k < patterns.len() && w == encode_utf8(#[trigger] patterns[k]) implies could_match(
        alternation_shape(patterns, fixed),
        w,
    ) by {
        lemma_literal_matches_itself(patterns[k]);
        lemma_branch_matches(patterns, fixed, k, w);
    }
}

proof fn lemma_branch_matches(patterns: Seq<Seq<char>>, fixed: bool, k: int, w: Seq<u8>)
    requires
        0 <= k < patterns.len(),
        could_match(pattern_shape(patterns[k], fixed), w),
    ensures
        could_match(alternation_shape(patterns, fixed), w),
    decreases patterns.len(),
{
    let last = Shape::Group { captured: false, inner: Box::new(pattern_shape(patterns.last(), fixed)) };
    if k == patterns.len() - 1 {
        assert(could_match(last, w));
    } else {
        let front = patterns.drop_last();
        assert(front[k] == patterns[k]);
        lemma_branch_matches(front, fixed, k, w);
    }
}

proof fn lemma_char_matches_itself(c: char)
    ensures
        could_match(Shape::Char(c), encode_utf8(seq![c])),
{
}

proof fn lemma_literal_matches_itself(text: Seq<char>)
    ensures
        could_match(literal_shape(text), encode_utf8(text)),
    decreases text.len(),
{
    if text.len() > 0 {
        let front = text.drop_last();
        lemma_literal_matches_itself(front);
        lemma_encode_concat(front, seq![text.last()]);
        assert(text =~= front + seq![text.last()]);
        let w = encode_utf8(text);
        let n = encode_utf8(front).len() as int;
        assert(w.take(n) =~= encode_utf8(front));
        assert(w.skip(n) =~= encode_utf8(seq![text.last()]));
        assert(could_match(literal_shape(front), w.take(n)));
        lemma_char_matches_itself(text.last());
    } else {
        assert(encode_utf8(text) =~= Seq::empty());
    }
}

/// Where the alternation of several patterns could match, the text holds what a match
/// of one of them needs.
pub proof fn law_alternation_holds_runs(patterns: Seq<Seq<char>>, fixed: bool, buf: Seq<u8>)
    requires
        patterns.len() > 0,
        forall|k: int| 0 <= k < patterns.len() ==> fixed || is_shaped(#[trigger] patterns[k]),
        could_match_in(alternation_shape(patterns, fixed), buf),
    ensures
        can_match_some(patterns, fixed, buf),
{
    let all = alternation_shape(patterns, fixed);
    let (a, b) = choose|a: int, b: int| 0 <= a <= b <= buf.len() && could_match(all, #[trigger] buf.subrange(a, b));
    let w = buf.subrange(a, b);
    let k = lemma_alternation_match(patterns, fixed, w);
    let p = patterns[k];
    lemma_pattern_shape(p, fixed);
    if fixed {
        lemma_literal_match(p, w);
        assert(occurs_at(encode_utf8(p), buf, a));
    } else {
        assert(could_match_in(pattern_shape(p, fixed), buf));
        law_match_holds_runs(pattern_shape(p, fixed), buf);
    }
    assert(can_match(p, fixed, buf));
}

// ---- plain patterns have a shape ----

/// A group as far as it was read: the alternatives before the last bar, what stands
/// behind that, and the last unit of it.
struct Frame {
    alts: Option<Shape>,
    before: Shape,
    last: Shape,
}

/// A unit that `+` can repeat.
spec fn is_repeatable(s: Shape) -> bool {
    !(s is Nothing) && !(s is Then) && !(s is Either)
}

spec fn frame_ok(f: Frame) -> bool {
    &&& f.alts matches Some(a) ==> is_plain_shape(a)
    &&& is_plain_shape(f.before) && !(f.before is Either)
    &&& is_plain_shape(f.last) && !(f.last is Either)
}

spec fn fresh_frame() -> Frame {
    Frame { alts: None, before: Shape::Nothing, last: Shape::Nothing }
}

spec fn alts_text(alts: Option<Shape>) -> Seq<char> {
    match alts {
        Some(a) => shape_text(a).push('|'),
        None => Seq::empty(),
    }
}

spec fn frame_text(f: Frame) -> Seq<char> {
    alts_text(f.alts) + shape_text(f.before) + shape_text(f.last)
}

/// The shape of all that a frame holds.
spec fn closed(f: Frame) -> Shape {
    let seq = Shape::Then(Box::new(f.before), Box::new(f.last));
    match f.alts {
        Some(a) => Shape::Either(Box::new(a), Box::new(seq)),
        None => seq,
    }
}

/// The frame with one more unit.
spec fn with_unit(f: Frame, u: Shape) -> Frame {
    Frame { before: Shape::Then(Box::new(f.before), Box::new(f.last)), last: u, ..f }
}

/// The frame behind a bar.
spec fn with_bar(f: Frame) -> Frame {
    Frame { alts: Some(closed(f)), before: Shape::Nothing, last: Shape::Nothing }
}

/// The frame with its last unit repeated.
spec fn with_repeat(f: Frame) -> Frame {
    Frame { last: Shape::Repeat(Box::new(f.last)), ..f }
}

/// The text of open groups, outermost first.
spec fn stack_text(fs: Seq<Frame>) -> Seq<char>
    decreases fs.len(),
{
    if fs.len() == 0 {
        Seq::empty()
    } else if fs.len() == 1 {
        frame_text(fs[0])
    } else {
        stack_text(fs.drop_last()).push('(') + frame_text(fs.last())
    }
}

spec fn stack_ok(fs: Seq<Frame>) -> bool {
    fs.len() > 0 && forall|k: int| 0 <= k < fs.len() ==> frame_ok(#[trigger] fs[k])
}

/// The stack with its last frame replaced.
spec fn with_top(fs: Seq<Frame>, f: Frame) -> Seq<Frame> {
    fs.drop_last().push(f)
}

proof fn lemma_closed(f: Frame)
    requires
        frame_ok(f),
    ensures
        is_plain_shape(closed(f)),
        shape_text(closed(f)) == frame_text(f),
{
    let seq = Shape::Then(Box::new(f.before), Box::new(f.last));
    assert(is_plain_shape(seq));
    assert(shape_text(seq) == shape_text(f.before) + shape_text(f.last));
    assert(shape_text(closed(f)) =~= frame_text(f));
}

proof fn lemma_with_unit(f: Frame, u: Shape)
    requires
        frame_ok(f),
        is_plain_shape(u),
        !(u is Either),
    ensures
        frame_ok(with_unit(f, u)),
        frame_text(with_unit(f, u)) == frame_text(f) + shape_text(u),
{
    let seq = Shape::Then(Box::new(f.before), Box::new(f.last));
    assert(is_plain_shape(seq));
    assert(shape_text(seq) == shape_text(f.before) + shape_text(f.last));
    assert(frame_text(with_unit(f, u)) =~= frame_text(f) + shape_text(u));
}

proof fn lemma_with_bar(f: Frame)
    requires
        frame_ok(f),
    ensures
        frame_ok(with_bar(f)),
        frame_text(with_bar(f)) == frame_text(f).push('|'),
{
    lemma_closed(f);
    assert(frame_text(with_bar(f)) =~= frame_text(f).push('|'));
}

proof fn lemma_with_repeat(f: Frame)
    requires
        frame_ok(f),
        is_repeatable(f.last),
    ensures
        frame_ok(with_repeat(f)),
        frame_text(with_repeat(f)) == frame_text(f).push('+'),
{
    let r = Shape::Repeat(Box::new(f.last));
    assert(is_plain_shape(r));
    assert(shape_text(r) == shape_text(f.last).push('+'));
    assert(frame_text(with_repeat(f)) =~= frame_text(f).push('+'));
}

/// Replacing the last frame by one whose text goes on with `t` goes on with `t`.
proof fn lemma_with_top(fs: Seq<Frame>, f: Frame, t: Seq<char>)
    requires
        stack_ok(fs),
        frame_ok(f),
        frame_text(f) == frame_text(fs.last()) + t,
    ensures
        stack_ok(with_top(fs, f)),
        with_top(fs, f).len() == fs.len(),
        with_top(fs, f).last() == f,
        stack_text(with_top(fs, f)) == stack_text(fs) + t,
{
    let new = with_top(fs, f);
    assert forall|k: int| 0 <= k < new.len() implies frame_ok(#[trigger] new[k]) by {
        if k < fs.len() - 1 {
            assert(new[k] == fs[k]);
        }
    }
    assert(new.drop_last() =~= fs.drop_last());
    if fs.len() == 1 {
        assert(new[0] == f);
        assert(fs[0] == fs.last());
    }
    assert(stack_text(new) =~= stack_text(fs) + t);
}

proof fn lemma_open_group(fs: Seq<Frame>)
    requires
        stack_ok(fs),
    ensures
        stack_ok(fs.push(fresh_frame())),
        stack_text(fs.push(fresh_frame())) == stack_text(fs).push('('),
{
    let new = fs.push(fresh_frame());
    assert(new.drop_last() =~= fs);
    assert(frame_text(fresh_frame()) =~= Seq::empty());
    assert(stack_text(new) =~= stack_text(fs).push('('));
}

/// The stack with its last group closed.
spec fn with_group(fs: Seq<Frame>) -> Seq<Frame> {
    let outer = fs.drop_last();
    with_top(outer, with_unit(outer.last(), Shape::Group { captured: true, inner: Box::new(closed(fs.last())) }))
}

proof fn lemma_close_group(fs: Seq<Frame>)
    requires
        stack_ok(fs),
        fs.len() > 1,
    ensures
        stack_ok(with_group(fs)),
        with_group(fs).len() == fs.len() - 1,
        is_repeatable(with_group(fs).last().last),
        stack_text(with_group(fs)) == stack_text(fs).push(')'),
{
    let outer = fs.drop_last();
    let f = fs.last();
    let g = Shape::Group { captured: true, inner: Box::new(closed(f)) };
    assert(fs[fs.len() - 1] == f);
    assert forall|k: int| 0 <= k < outer.len() implies frame_ok(#[trigger] outer[k]) by {
        assert(outer[k] == fs[k]);
    }
    lemma_closed(f);
    assert(is_plain_shape(g));
    assert(shape_text(g) == seq!['('] + shape_text(closed(f)) + seq![')']);
    assert(outer[outer.len() - 1] == outer.last());
    lemma_with_unit(outer.last(), g);
    lemma_with_top(outer, with_unit(outer.last(), g), shape_text(g));
    assert(stack_text(with_group(fs)) =~= stack_text(fs).push(')'));
}

/// A character that no operator is made of, as a shape.
spec fn single_shape(c: char) -> Shape {
    if is_meta(c) {
        Shape::Sign(c)
    } else {
        Shape::Char(c)
    }
}

proof fn lemma_single_shape(c: char)
    requires
        c != '\\' && c != '[' && c != '(' && c != ')' && c != '|' && c != '+' && c != '*' && c != '?' && c != '{',
    ensures
        is_plain_shape(single_shape(c)),
        is_repeatable(single_shape(c)),
        shape_text(single_shape(c)) == seq![c],
{
}

proof fn lemma_letter_shape(c: char)
    requires
        is_shorthand(c),
    ensures
        is_plain_shape(Shape::Letter(c)),
        shape_text(Shape::Letter(c)) == seq!['\\', c],
{
}

/// The body of a plain class, up to the bracket that closes it.
proof fn lemma_class_body_text(p: Seq<char>, i: int, dash: bool)
    requires
        0 <= i <= p.len(),
        class_is_plain(p, i, dash),
    ensures
        i < class_close(p, i) <= p.len(),
        p[class_close(p, i) - 1] == ']',
        is_class_body(p.subrange(i, class_close(p, i) - 1), dash),
    decreases p.len() - i,
{
    if p[i] != ']' {
        let n: int = if p[i] == '\\' {
            2
        } else if p[i] == '[' {
            lemma_posix_bounds(p, i);
            posix_end(p, i)->Some_0 - i
        } else {
            1
        };
        if p[i] != '[' {
            assert(posix_end(p, i) is None);
        }
        lemma_class_body_text(p, i + n, p[i] == '-');
        let end = class_close(p, i) - 1;
        let body = p.subrange(i, end);
        assert(body[0] == p[i]);
        assert(body.skip(n) =~= p.subrange(i + n, end));
        if p[i] == '[' {
            lemma_posix_in_part(p, i, end, i);
        }
    }
}

/// The shape of the character property that starts at `i`.
spec fn property_shape(p: Seq<char>, i: int) -> Shape {
    Shape::Property { negated: p[i + 1] == 'P', name: p.subrange(i + 3, unit_end(p, i) - 1) }
}

proof fn lemma_property_shape(p: Seq<char>, i: int)
    requires
        0 <= i < p.len(),
        property_end(p, i) is Some,
    ensures
        i < unit_end(p, i) <= p.len(),
        is_plain_shape(property_shape(p, i)),
        is_repeatable(property_shape(p, i)),
        shape_text(property_shape(p, i)) == p.subrange(i, unit_end(p, i)),
{
    lemma_brace_bounds(p, i + 3);
    let end = unit_end(p, i);
    let name = p.subrange(i + 3, end - 1);
    if name.contains('}') {
        let k = choose|k: int| 0 <= k < name.len() && name[k] == '}';
        assert(p[i + 3 + k] == '}');
    }
    assert(property_text(p[i + 1] == 'P', name) =~= p.subrange(i, end));
}

/// The shape of the plain class that opens at `i`.
spec fn class_shape(p: Seq<char>, i: int) -> Shape {
    let from = class_body(p, i + 1);
    let negated = i + 1 < p.len() && p[i + 1] == '^';
    let closing = from > i + 1 + (if negated {
        1int
    } else {
        0
    });
    Shape::Class { negated, closing, body: p.subrange(from, unit_end(p, i) - 1) }
}

proof fn lemma_class_shape(p: Seq<char>, i: int)
    requires
        0 <= i < p.len(),
        p[i] == '[',
        class_is_plain(p, class_body(p, i + 1), false),
    ensures
        i < unit_end(p, i) <= p.len(),
        is_plain_shape(class_shape(p, i)),
        is_repeatable(class_shape(p, i)),
        shape_text(class_shape(p, i)) == p.subrange(i, unit_end(p, i)),
{
    let from = class_body(p, i + 1);
    lemma_class_body_text(p, from, false);
    let end = unit_end(p, i);
    let body = p.subrange(from, end - 1);
    match class_shape(p, i) {
        Shape::Class { negated, closing, body: b } => {
            assert(b == body);
            if !closing {
                assert(p[from] != ']');
                assert(body[0] == p[from]);
            }
            assert(class_text(negated, closing, body) =~= p.subrange(i, end));
        },
        _ => {},
    }
}

/// What was read so far, and the rest of a plain pattern, have a shape together.
proof fn lemma_plain_has_shape(p: Seq<char>, i: int, fs: Seq<Frame>, rep: bool)
    requires
        0 <= i <= p.len(),
        stack_ok(fs),
        stack_text(fs) == p.take(i),
        rep ==> is_repeatable(fs.last().last),
        plain_from(p, i, (fs.len() - 1) as nat, rep),
    ensures
        is_shaped(p),
    decreases p.len() - i,
{
    let top = fs.last();
    assert(fs[fs.len() - 1] == top);
    if i == p.len() {
        assert(p.take(i) =~= p);
        lemma_closed(top);
        assert(fs[0] == top);
        assert(shape_text(closed(top)) == p);
    } else if property_end(p, i) is Some {
        let u = property_shape(p, i);
        let end = unit_end(p, i);
        lemma_property_shape(p, i);
        lemma_with_unit(top, u);
        lemma_with_top(fs, with_unit(top, u), shape_text(u));
        assert(p.take(end) =~= p.take(i) + p.subrange(i, end));
        lemma_plain_has_shape(p, end, with_top(fs, with_unit(top, u)), true);
    } else if p[i] == '\\' {
        let u = Shape::Letter(p[i + 1]);
        lemma_letter_shape(p[i + 1]);
        lemma_with_unit(top, u);
        lemma_with_top(fs, with_unit(top, u), shape_text(u));
        assert(p.take(i + 2) =~= p.take(i) + seq!['\\', p[i + 1]]);
        lemma_plain_has_shape(p, i + 2, with_top(fs, with_unit(top, u)), true);
    } else if p[i] == '[' {
        let u = class_shape(p, i);
        let end = unit_end(p, i);
        lemma_class_shape(p, i);
        lemma_with_unit(top, u);
        lemma_with_top(fs, with_unit(top, u), shape_text(u));
        assert(p.take(end) =~= p.take(i) + p.subrange(i, end));
        lemma_plain_has_shape(p, end, with_top(fs, with_unit(top, u)), true);
    } else if p[i] == '(' {
        lemma_open_group(fs);
        assert(p.take(i + 1) =~= p.take(i).push('('));
        lemma_plain_has_shape(p, i + 1, fs.push(fresh_frame()), false);
    } else if p[i] == ')' {
        lemma_close_group(fs);
        assert(p.take(i + 1) =~= p.take(i).push(')'));
        lemma_plain_has_shape(p, i + 1, with_group(fs), true);
    } else if p[i] == '|' {
        lemma_with_bar(top);
        assert(frame_text(with_bar(top)) =~= frame_text(top) + seq!['|']);
        lemma_with_top(fs, with_bar(top), seq!['|']);
        assert(p.take(i + 1) =~= p.take(i) + seq!['|']);
        lemma_plain_has_shape(p, i + 1, with_top(fs, with_bar(top)), false);
    } else if p[i] == '+' {
        lemma_with_repeat(top);
        assert(frame_text(with_repeat(top)) =~= frame_text(top) + seq!['+']);
        lemma_with_top(fs, with_repeat(top), seq!['+']);
        assert(p.take(i + 1) =~= p.take(i) + seq!['+']);
        lemma_plain_has_shape(p, i + 1, with_top(fs, with_repeat(top)), true);
    } else {
        let u = single_shape(p[i]);
        lemma_single_shape(p[i]);
        lemma_with_unit(top, u);
        lemma_with_top(fs, with_unit(top, u), shape_text(u));
        assert(p.take(i + 1) =~= p.take(i) + seq![p[i]]);
        lemma_plain_has_shape(p, i + 1, with_top(fs, with_unit(top, u)), true);
    }
}

/// A pattern whose trigrams are looked up is the text of some shape.
pub proof fn law_plain_pattern_has_shape(p: Seq<char>)
    requires
        reads_plainly(p),
    ensures
        is_shaped(p),
{
    let fs = seq![fresh_frame()];
    assert(frame_text(fresh_frame()) =~= Seq::empty());
    assert(stack_text(fs) =~= p.take(0));
    lemma_plain_has_shape(p, 0, fs, false);
}

/// Required trigrams lie in every match: a text in which a pattern of some shape could
/// match holds all trigrams of some branch.
pub proof fn law_required_grams_lie_in_every_match(p: Seq<char>, buf: Seq<u8>)
    requires
        required_grams(p) is Some,
        finds_shape(p, buf),
    ensures
        exists|b: int|
            0 <= b < required_grams(p)->Some_0.len() && (#[trigger] required_grams(p)->Some_0[b]).subset_of(
                text_grams(buf),
            ),
{
    law_plain_pattern_has_shape(p);
    let s = choose|s: Shape| is_plain_shape(s) && #[trigger] shape_text(s) == p;
    law_match_holds_runs(s, buf);
    let b = choose|b: int| 0 <= b < branches(p).len() && holds_runs(#[trigger] branches(p)[b], buf);
    law_runs_give_required_grams(branches(p)[b], buf);
    assert(required_grams(p)->Some_0[b].subset_of(text_grams(buf)));
}

} // verus!
