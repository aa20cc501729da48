//! Rendering hits: JSON lines, text rows, context rows and counts.

use crate::matcher::{find_spans, found_spans, spans_fit, LineMatcher};
use crate::text::utf8_text;
use vstd::bytes::{lemma_auto_spec_u64_to_from_le_bytes, spec_u64_to_le_bytes_open, u64_from_le_bytes};
use vstd::prelude::*;
use vstd::utf8::{encode_utf8, valid_utf8};

verus! {

/// The bytes of a text.
pub open spec fn bytes_of(s: &str) -> Seq<u8> {
    encode_utf8(s@)
}

/// Append a text.
pub(crate) fn push_text(out: &mut Vec<u8>, s: &str)
    ensures
        final(out)@ == old(out)@ + bytes_of(s),
{
    let ghost had = out@;
    out.extend_from_slice(s.as_bytes());
    assert(out@ =~= had + bytes_of(s));
}

// ---- JSON strings ----

/// A lower-case hexadecimal digit.
pub open spec fn hex_digit(d: u8) -> u8 {
    if d < 10 {
        (48 + d) as u8
    } else {
        (87 + d) as u8
    }
}

/// One byte inside a JSON string: quotes, backslashes and controls are escaped, the
/// common controls by a letter, and everything else stands for itself.
pub open spec fn json_byte(b: u8) -> Seq<u8> {
    if b == 34 || b == 92 {
        seq![92u8, b]
    } else if b >= 32 {
        seq![b]
    } else if b == 10 {
        seq![92u8, 110u8]
    } else if b == 13 {
        seq![92u8, 114u8]
    } else if b == 9 {
        seq![92u8, 116u8]
    } else if b == 8 {
        seq![92u8, 98u8]
    } else if b == 12 {
        seq![92u8, 102u8]
    } else {
        seq![92u8, 117u8, 48u8, 48u8, hex_digit(b / 16), hex_digit(b % 16)]
    }
}

/// The bytes inside a JSON string.
pub open spec fn json_bytes(s: Seq<u8>) -> Seq<u8>
    decreases s.len(),
{
    if s.len() == 0 {
        Seq::empty()
    } else {
        json_bytes(s.drop_last()) + json_byte(s.last())
    }
}

/// A byte that is escaped.
pub open spec fn needs_escape(b: u8) -> bool {
    b == 34 || b == 92 || b < 32
}

/// An escaped text holds no control byte, so it never breaks a line.
pub proof fn law_escaped_holds_no_control(s: Seq<u8>)
    ensures
        forall|i: int| 0 <= i < json_bytes(s).len() ==> #[trigger] json_bytes(s)[i] >= 32,
    decreases s.len(),
{
    if s.len() > 0 {
        let front = json_bytes(s.drop_last());
        let tail = json_byte(s.last());
        law_escaped_holds_no_control(s.drop_last());
        assert(forall|i: int| 0 <= i < tail.len() ==> #[trigger] tail[i] >= 32);
        assert forall|i: int| 0 <= i < json_bytes(s).len() implies #[trigger] json_bytes(s)[i] >= 32 by {
            if i < front.len() {
                assert(json_bytes(s)[i] == front[i]);
            } else {
                assert(json_bytes(s)[i] == tail[i - front.len()]);
            }
        }
    }
}

/// Escaping is injective: different texts have different escaped forms.
pub proof fn law_escaping_json_is_injective(a: Seq<u8>, b: Seq<u8>)
    requires
        json_bytes(a) == json_bytes(b),
    ensures
        a == b,
    decreases a.len() + b.len(),
{
    lemma_json_front(a);
    lemma_json_front(b);
    if a.len() == 0 || b.len() == 0 {
        assert(a =~= b);
    } else {
        let ja = json_bytes(a);
        let ra = json_bytes(a.drop_first());
        let rb = json_bytes(b.drop_first());
        let ea = json_byte(a[0]);
        let eb = json_byte(b[0]);
        assert(ja == ea + ra);
        assert(ja == eb + rb);
        assert(ja[0] == ea[0] && ja[0] == eb[0]);
        if ea.len() > 1 && eb.len() > 1 {
            assert(ja[1] == ea[1] && ja[1] == eb[1]);
            if ea.len() == 6 && eb.len() == 6 {
                assert(ja[4] == ea[4] && ja[4] == eb[4]);
                assert(ja[5] == ea[5] && ja[5] == eb[5]);
                assert(a[0] == (a[0] / 16) * 16 + a[0] % 16);
                assert(b[0] == (b[0] / 16) * 16 + b[0] % 16);
            }
        }
        assert(a[0] == b[0]);
        assert(ra =~= ja.skip(ea.len() as int));
        assert(rb =~= ja.skip(eb.len() as int));
        law_escaping_json_is_injective(a.drop_first(), b.drop_first());
        assert(a =~= seq![a[0]] + a.drop_first());
        assert(b =~= seq![b[0]] + b.drop_first());
    }
}

proof fn lemma_json_front(s: Seq<u8>)
    ensures
        s.len() > 0 ==> json_bytes(s) == json_byte(s[0]) + json_bytes(s.drop_first()) && json_bytes(s).len() > 0,
    decreases s.len(),
{
    if s.len() == 1 {
        assert(s.drop_last() =~= Seq::empty());
        assert(s.drop_first() =~= Seq::empty());
        assert(json_bytes(s) =~= json_byte(s[0]) + json_bytes(s.drop_first()));
    } else if s.len() > 1 {
        let front = s.drop_last();
        lemma_json_front(front);
        assert(front.drop_first() =~= s.drop_first().drop_last());
        assert(s.drop_first().last() == s.last());
        assert(json_bytes(s) =~= json_byte(s[0]) + json_bytes(s.drop_first()));
    }
}

/// Escaping texts side by side is escaping them together.
pub proof fn law_escaping_json_side_by_side(a: Seq<u8>, b: Seq<u8>)
    ensures
        json_bytes(a + b) == json_bytes(a) + json_bytes(b),
    decreases b.len(),
{
    if b.len() == 0 {
        assert(a + b =~= a);
        assert(json_bytes(a) + json_bytes(b) =~= json_bytes(a));
    } else {
        assert((a + b).drop_last() =~= a + b.drop_last());
        law_escaping_json_side_by_side(a, b.drop_last());
        assert(json_bytes(a + b) =~= json_bytes(a) + json_bytes(b));
    }
}

/// The value of a lower-case hexadecimal digit.
pub open spec fn hex_value(b: u8) -> Option<u8> {
    if 48 <= b <= 57 {
        Some((b - 48) as u8)
    } else if 97 <= b <= 102 {
        Some((b - 87) as u8)
    } else {
        None
    }
}

/// The byte that the front of an escaped text stands for, and how many bytes it takes
/// up. A backslash that starts no escape stands for itself.
pub open spec fn json_front(s: Seq<u8>) -> (u8, int) {
    if s.len() < 2 || s[0] != 92 {
        (s[0], 1)
    } else if s[1] == 34 || s[1] == 92 {
        (s[1], 2)
    } else if s[1] == 110 {
        (10u8, 2)
    } else if s[1] == 114 {
        (13u8, 2)
    } else if s[1] == 116 {
        (9u8, 2)
    } else if s[1] == 98 {
        (8u8, 2)
    } else if s[1] == 102 {
        (12u8, 2)
    } else if s[1] == 117 && s.len() >= 6 && s[2] == 48 && s[3] == 48 && (s[4] == 48 || s[4] == 49) && hex_value(
        s[5],
    ) is Some {
        (((s[4] - 48) * 16 + hex_value(s[5])->Some_0) as u8, 6)
    } else {
        (s[0], 1)
    }
}

/// The bytes that an escaped text stands for.
pub open spec fn json_unescaped(s: Seq<u8>) -> Seq<u8>
    decreases s.len(),
{
    if s.len() == 0 {
        Seq::empty()
    } else {
        seq![json_front(s).0] + json_unescaped(s.skip(json_front(s).1))
    }
}

/// What was escaped reads back.
pub proof fn law_escaped_json_reads_back(s: Seq<u8>)
    ensures
        json_unescaped(json_bytes(s)) == s,
    decreases s.len(),
{
    if s.len() > 0 {
        let rest = s.drop_first();
        let all = json_bytes(s);
        let head = json_byte(s[0]);
        lemma_json_front(s);
        law_escaped_json_reads_back(rest);
        assert(all == head + json_bytes(rest));
        assert(forall|k: int| 0 <= k < head.len() ==> all[k] == head[k]);
        if head.len() == 6 {
            assert(s[0] == (s[0] / 16) * 16 + s[0] % 16);
        }
        assert(json_front(all) == (s[0], head.len() as int));
        assert(all.skip(head.len() as int) =~= json_bytes(rest));
        assert(seq![s[0]] + rest =~= s);
    }
}

/// Read an escaped text.
pub fn unescape_json(s: &[u8]) -> (out: Vec<u8>)
    ensures
        out@ == json_unescaped(s@),
{
    let mut out: Vec<u8> = Vec::new();
    let mut i: usize = 0;
    assert(s@.skip(0) =~= s@);
    assert(out@ + json_unescaped(s@) =~= json_unescaped(s@));
    while i < s.len()
        invariant
            i <= s@.len(),
            out@ + json_unescaped(s@.skip(i as int)) == json_unescaped(s@),
        decreases s@.len() - i,
    {
        let ghost rest = s@.skip(i as int);
        let ghost had = out@;
        let left: usize = s.len() - i;
        let mut b: u8 = s[i];
        let mut n: usize = 1;
        if left >= 2 && b == 92 {
            let c: u8 = s[i + 1];
            if c == 34 || c == 92 {
                b = c;
                n = 2;
            } else if c == 110 {
                b = 10;
                n = 2;
            } else if c == 114 {
                b = 13;
                n = 2;
            } else if c == 116 {
                b = 9;
                n = 2;
            } else if c == 98 {
                b = 8;
                n = 2;
            } else if c == 102 {
                b = 12;
                n = 2;
            } else if c == 117 && left >= 6 && s[i + 2] == 48 && s[i + 3] == 48 && (s[i + 4] == 48 || s[i + 4] == 49) {
                let h: u8 = s[i + 4] - 48;
                let d: u8 = s[i + 5];
                if 48 <= d && d <= 57 {
                    b = h * 16 + (d - 48);
                    n = 6;
                } else if 97 <= d && d <= 102 {
                    b = h * 16 + (d - 87);
                    n = 6;
                }
            }
        }
        out.push(b);
        proof {
            assert(forall|k: int| 0 <= k < rest.len() ==> rest[k] == s@[i + k]);
            assert(json_front(rest) == (b, n as int));
            assert(rest.skip(n as int) =~= s@.skip(i + n));
            assert(out@ + json_unescaped(s@.skip(i + n)) =~= had + json_unescaped(rest));
        }
        i = i + n;
    }
    assert(s@.skip(i as int) =~= Seq::empty());
    assert(out@ =~= json_unescaped(s@));
    out
}

/// `memchr::memchr2` gives the first position that holds one of two bytes, or
/// nothing when no position does.
pub assume_specification[ memchr::memchr2 ](needle1: u8, needle2: u8, haystack: &[u8]) -> (res: Option<usize>)
    ensures
        match res {
            Some(i) => i < haystack@.len() && (haystack@[i as int] == needle1 || haystack@[i as int] == needle2)
                && forall|k: int| 0 <= k < i ==> (#[trigger] haystack@[k]) != needle1 && haystack@[k] != needle2,
            None => forall|k: int|
                0 <= k < haystack@.len() ==> (#[trigger] haystack@[k]) != needle1 && haystack@[k] != needle2,
        },
;

/// First position in `pos..end` that holds a control byte, or `end`. Eight bytes at
/// a time are passed over when no byte among them has its top three bits clear.
fn first_control(b: &[u8], pos: usize, end: usize) -> (k: usize)
    requires
        pos <= end <= b@.len(),
    ensures
        pos <= k <= end,
        forall|i: int| pos <= i < k ==> #[trigger] b@[i] >= 32,
        k < end ==> b@[k as int] < 32,
{
    let mut k: usize = pos;
    let mut clear: bool = true;
    while clear && end - k >= 8
        invariant
            pos <= k <= end <= b@.len(),
            forall|i: int| pos <= i < k ==> #[trigger] b@[i] >= 32,
        decreases end - k, (if clear { 1int } else { 0int }),
    {
        let v: u64 = u64_from_le_bytes(&b[k..k + 8]);
        let m: u64 = v & 0xe0e0_e0e0_e0e0_e0e0u64;
        let w: u64 = m.wrapping_sub(0x0101_0101_0101_0101u64);
        if (w & !m & 0x8080_8080_8080_8080u64) != 0 {
            clear = false;
        } else {
            proof {
                let s = b@.subrange(k as int, k + 8);
                lemma_auto_spec_u64_to_from_le_bytes();
                vstd::bytes::spec_u64_to_le_bytes_to_open(v);
                assert(spec_u64_to_le_bytes_open(v) =~= s);
                lemma_no_control_in_word(v, m, w);
                assert forall|i: int| pos <= i < k + 8 implies #[trigger] b@[i] >= 32 by {
                    if i >= k {
                        assert(b@[i] == s[i - k]);
                    }
                }
            }
            k = k + 8;
        }
    }
    while k < end
        invariant
            pos <= k <= end <= b@.len(),
            forall|i: int| pos <= i < k ==> #[trigger] b@[i] >= 32,
        decreases end - k,
    {
        if b[k] < 32 {
            return k;
        }
        k = k + 1;
    }
    end
}

proof fn lemma_no_control_in_word(v: u64, m: u64, w: u64)
    by (bit_vector)
    requires
        m == v & 0xe0e0_e0e0_e0e0_e0e0u64,
        w == (if m >= 0x0101_0101_0101_0101u64 {
            (m - 0x0101_0101_0101_0101u64) as u64
        } else {
            (m - 0x0101_0101_0101_0101u64 + 0x1_0000_0000_0000_0000) as u64
        }),
        (w & !m & 0x8080_8080_8080_8080u64) == 0,
    ensures
        ((v & 0xff) as u8) >= 32,
        (((v >> 8) & 0xff) as u8) >= 32,
        (((v >> 16) & 0xff) as u8) >= 32,
        (((v >> 24) & 0xff) as u8) >= 32,
        (((v >> 32) & 0xff) as u8) >= 32,
        (((v >> 40) & 0xff) as u8) >= 32,
        (((v >> 48) & 0xff) as u8) >= 32,
        (((v >> 56) & 0xff) as u8) >= 32,
{
}

/// A run without bytes to escape stands for itself.
proof fn lemma_plain_run(s: Seq<u8>, a: int, b: int)
    requires
        0 <= a <= b <= s.len(),
        forall|i: int| a <= i < b ==> !needs_escape(#[trigger] s[i]),
    ensures
        json_bytes(s.take(b)) == json_bytes(s.take(a)) + s.subrange(a, b),
    decreases b - a,
{
    if a == b {
        assert(json_bytes(s.take(a)) + s.subrange(a, b) =~= json_bytes(s.take(a)));
    } else {
        lemma_plain_run(s, a, b - 1);
        assert(s.take(b).drop_last() =~= s.take(b - 1));
        assert(s.take(b).last() == s[b - 1]);
        assert(!needs_escape(s[b - 1]));
        assert(s.subrange(a, b - 1) + seq![s[b - 1]] =~= s.subrange(a, b));
        assert(json_bytes(s.take(b)) =~= json_bytes(s.take(a)) + s.subrange(a, b));
    }
}

/// Append one byte that is escaped.
fn push_escaped_byte(out: &mut Vec<u8>, c: u8)
    requires
        needs_escape(c),
    ensures
        final(out)@ == old(out)@ + json_byte(c),
{
    let ghost had = out@;
    out.push(92);
    if c == 34 || c == 92 {
        out.push(c);
    } else if c == 10 {
        out.push(110);
    } else if c == 13 {
        out.push(114);
    } else if c == 9 {
        out.push(116);
    } else if c == 8 {
        out.push(98);
    } else if c == 12 {
        out.push(102);
    } else {
        out.push(117);
        out.push(48);
        out.push(48);
        let hi: u8 = c / 16;
        let lo: u8 = c % 16;
        out.push(if hi < 10 { 48 + hi } else { 87 + hi });
        out.push(if lo < 10 { 48 + lo } else { 87 + lo });
    }
    assert(out@ =~= had + json_byte(c));
}

/// Append a text as it stands inside a JSON string.
pub fn push_escaped_json(out: &mut Vec<u8>, s: &str)
    ensures
        final(out)@ == old(out)@ + json_bytes(bytes_of(s)),
{
    let b: &[u8] = s.as_bytes();
    let ghost had = out@;
    let mut start: usize = 0;
    let mut i: usize = 0;
    let mut more: bool = true;
    assert(had + json_bytes(b@.take(0)) =~= had);
    while more
        invariant
            start <= i <= b@.len(),
            start == i,
            more ==> out@ == had + json_bytes(b@.take(start as int)),
            !more ==> out@ == had + json_bytes(b@),
        decreases (if more { b@.len() - i + 1 } else { 0int }),
    {
        let rel: Option<usize> = memchr::memchr2(34, 92, &b[i..b.len()]);
        let end: usize = match rel {
            Some(r) => i + r,
            None => b.len(),
        };
        proof {
            let rest = b@.subrange(i as int, b@.len() as int);
            assert forall|k: int| i <= k < end implies #[trigger] b@[k] != 34u8 && b@[k] != 92u8 by {
                assert(rest[k - i] == b@[k]);
            }
            if rel is Some {
                assert(rest[end - i] == b@[end as int]);
            }
        }
        let mut j: usize = first_control(b, i, end);
        while j < end
            invariant
                i <= start <= j <= end <= b@.len(),
                forall|k: int| i <= k < end ==> #[trigger] b@[k] != 34u8 && b@[k] != 92u8,
                forall|k: int| start <= k < j ==> !needs_escape(#[trigger] b@[k]),
                out@ == had + json_bytes(b@.take(start as int)),
            decreases end - j,
        {
            let c: u8 = b[j];
            if c < 32 {
                out.extend_from_slice(&b[start..j]);
                let ghost mid = out@;
                push_escaped_byte(out, c);
                proof {
                    lemma_plain_run(b@, start as int, j as int);
                    assert(mid =~= had + json_bytes(b@.take(j as int)));
                    assert(b@.take(j + 1).drop_last() =~= b@.take(j as int));
                    assert(b@.take(j + 1).last() == c);
                    assert(out@ =~= had + json_bytes(b@.take(j + 1)));
                }
                start = j + 1;
            }
            j = j + 1;
        }
        out.extend_from_slice(&b[start..end]);
        proof {
            lemma_plain_run(b@, start as int, end as int);
            assert(out@ =~= had + json_bytes(b@.take(end as int)));
        }
        match rel {
            Some(_) => {
                push_escaped_byte(out, b[end]);
                proof {
                    assert(b@.take(end + 1).drop_last() =~= b@.take(end as int));
                    assert(b@.take(end + 1).last() == b@[end as int]);
                    assert(out@ =~= had + json_bytes(b@.take(end + 1)));
                }
                start = end + 1;
                i = end + 1;
            },
            None => {
                assert(b@.take(end as int) =~= b@);
                start = end;
                i = end;
                more = false;
            },
        }
    }
}

// ---- numbers ----

/// The decimal digits of a number.
pub open spec fn digits(n: nat) -> Seq<u8>
    decreases n,
{
    if n < 10 {
        seq![(48 + n) as u8]
    } else {
        digits(n / 10).push((48 + n % 10) as u8)
    }
}

/// Append the decimal digits of a number.
pub fn push_line_no(buf: &mut Vec<u8>, line: u64)
    ensures
        final(buf)@ == old(buf)@ + digits(line as nat),
{
    let ghost had = buf@;
    let mut back: Vec<u8> = Vec::new();
    let mut v: u64 = line;
    while v >= 10
        invariant
            digits(line as nat) == digits(v as nat) + back@.reverse(),
        decreases v,
    {
        let d: u8 = 48 + (v % 10) as u8;
        let ghost was = back@;
        back.push(d);
        proof {
            assert(digits(v as nat) == digits((v / 10) as nat).push(d));
            assert(back@.reverse() =~= seq![d] + was.reverse());
            assert(digits((v / 10) as nat).push(d) + was.reverse() =~= digits((v / 10) as nat) + (seq![d]
                + was.reverse()));
        }
        v = v / 10;
    }
    let top: u8 = 48 + v as u8;
    buf.push(top);
    let mut k: usize = back.len();
    let ghost tail = back@.reverse();
    assert(buf@ =~= had + digits(v as nat) + tail.take(0));
    while k > 0
        invariant
            k <= back@.len(),
            tail == back@.reverse(),
            buf@ == had + digits(v as nat) + tail.take(back@.len() - k),
        decreases k,
    {
        buf.push(back[k - 1]);
        k = k - 1;
        assert(buf@ =~= had + digits(v as nat) + tail.take(back@.len() - k));
    }
    assert(tail.take(back@.len() as int) =~= tail);
    assert(buf@ =~= had + digits(line as nat));
}

// ---- lines of output ----

/// The fields that hits and context lines share, up to the score.
pub open spec fn json_head(path_esc: Seq<u8>, line: u64, text: Seq<char>, score: Seq<u8>) -> Seq<u8> {
    bytes_of("{\"path\":\"") + path_esc + bytes_of("\",\"line\":") + digits(line as nat) + bytes_of(",\"text\":\"")
        + json_bytes(encode_utf8(text)) + bytes_of("\",\"score\":") + score
}

/// A hit as one JSON line.
pub open spec fn hit_json(path_esc: Seq<u8>, line: u64, text: Seq<char>, score: Seq<u8>) -> Seq<u8> {
    json_head(path_esc, line, text, score) + bytes_of("}\n")
}

/// A context line as one JSON line, marked as such.
pub open spec fn ctx_json(path_esc: Seq<u8>, line: u64, text: Seq<char>, score: Seq<u8>) -> Seq<u8> {
    json_head(path_esc, line, text, score) + bytes_of(",\"ctx\":true}\n")
}

fn push_json_head(buf: &mut Vec<u8>, path_esc: &[u8], line: u64, text: &str, score: &[u8])
    ensures
        final(buf)@ == old(buf)@ + json_head(path_esc@, line, text@, score@),
{
    let ghost had = buf@;
    push_text(buf, "{\"path\":\"");
    buf.extend_from_slice(path_esc);
    push_text(buf, "\",\"line\":");
    push_line_no(buf, line);
    push_text(buf, ",\"text\":\"");
    push_escaped_json(buf, text);
    push_text(buf, "\",\"score\":");
    buf.extend_from_slice(score);
    assert(buf@ =~= had + json_head(path_esc@, line, text@, score@));
}

/// Append a hit as one JSON line. The path is given escaped, the score as text.
pub fn emit_raw_with_path(buf: &mut Vec<u8>, path_esc: &[u8], line: u64, text: &str, score: &[u8])
    ensures
        final(buf)@ == old(buf)@ + hit_json(path_esc@, line, text@, score@),
{
    let ghost had = buf@;
    push_json_head(buf, path_esc, line, text, score);
    push_text(buf, "}\n");
    assert(buf@ =~= had + hit_json(path_esc@, line, text@, score@));
}

/// Append a context line as one JSON line.
pub fn emit_ctx_json(buf: &mut Vec<u8>, path_esc: &[u8], line: u64, text: &str, file_score: &[u8])
    ensures
        final(buf)@ == old(buf)@ + ctx_json(path_esc@, line, text@, file_score@),
{
    let ghost had = buf@;
    push_json_head(buf, path_esc, line, text, file_score);
    push_text(buf, ",\"ctx\":true}\n");
    assert(buf@ =~= had + ctx_json(path_esc@, line, text@, file_score@));
}

/// No byte is a newline.
pub open spec fn no_newline(s: Seq<u8>) -> bool {
    forall|i: int| 0 <= i < s.len() ==> #[trigger] s[i] != 10u8
}

/// The bytes end in a newline and hold no other.
pub open spec fn is_one_line(s: Seq<u8>) -> bool {
    s.len() > 0 && s.last() == 10u8 && no_newline(s.drop_last())
}

pub proof fn lemma_no_newline_concat(a: Seq<u8>, b: Seq<u8>)
    requires
        no_newline(a),
        no_newline(b),
    ensures
        no_newline(a + b),
{
    assert forall|i: int| 0 <= i < (a + b).len() implies #[trigger] (a + b)[i] != 10u8 by {
        if i < a.len() {
            assert((a + b)[i] == a[i]);
        } else {
            assert((a + b)[i] == b[i - a.len()]);
        }
    }
}

pub proof fn lemma_digits(n: nat)
    ensures
        no_newline(digits(n)),
        digits(n).len() > 0,
    decreases n,
{
    if n >= 10 {
        lemma_digits(n / 10);
    }
}

proof fn lemma_ascii_bytes(s: &str)
    requires
        vstd::utf8::is_ascii_chars(s@),
    ensures
        bytes_of(s).len() == s@.len(),
        forall|i: int| 0 <= i < s@.len() ==> #[trigger] bytes_of(s)[i] == s@[i] as u8,
{
    vstd::utf8::is_ascii_chars_encode_utf8(s@);
}

/// A hit and a context line each take one line of output, whatever their text: the
/// only newline is the last byte. The path is escaped and the score a number.
pub proof fn law_json_hit_is_one_line(path: Seq<u8>, line: u64, text: Seq<char>, score: Seq<u8>)
    requires
        no_newline(score),
    ensures
        is_one_line(hit_json(json_bytes(path), line, text, score)),
        is_one_line(ctx_json(json_bytes(path), line, text, score)),
{
    let head = json_head(json_bytes(path), line, text, score);
    reveal_strlit("{\"path\":\"");
    reveal_strlit("\",\"line\":");
    reveal_strlit(",\"text\":\"");
    reveal_strlit("\",\"score\":");
    reveal_strlit("}\n");
    reveal_strlit(",\"ctx\":true}\n");
    lemma_ascii_bytes("{\"path\":\"");
    lemma_ascii_bytes("\",\"line\":");
    lemma_ascii_bytes(",\"text\":\"");
    lemma_ascii_bytes("\",\"score\":");
    lemma_ascii_bytes("}\n");
    lemma_ascii_bytes(",\"ctx\":true}\n");
    law_escaped_holds_no_control(path);
    law_escaped_holds_no_control(encode_utf8(text));
    lemma_digits(line as nat);
    let a = bytes_of("{\"path\":\"");
    let b = a + json_bytes(path);
    let c = b + bytes_of("\",\"line\":");
    let d = c + digits(line as nat);
    let e = d + bytes_of(",\"text\":\"");
    let f = e + json_bytes(encode_utf8(text));
    let g = f + bytes_of("\",\"score\":");
    lemma_no_newline_concat(a, json_bytes(path));
    lemma_no_newline_concat(b, bytes_of("\",\"line\":"));
    lemma_no_newline_concat(c, digits(line as nat));
    lemma_no_newline_concat(d, bytes_of(",\"text\":\""));
    lemma_no_newline_concat(e, json_bytes(encode_utf8(text)));
    lemma_no_newline_concat(f, bytes_of("\",\"score\":"));
    lemma_no_newline_concat(g, score);
    assert(head == g + score);
    let h = bytes_of("}\n");
    let k = bytes_of(",\"ctx\":true}\n");
    assert((head + h).drop_last() =~= head + h.drop_last());
    lemma_no_newline_concat(head, h.drop_last());
    assert((head + k).drop_last() =~= head + k.drop_last());
    lemma_no_newline_concat(head, k.drop_last());
}

/// A row of a hit, `path:line:text`, or of a context line, `path:line-text`.
pub open spec fn text_row(path: Seq<char>, line: u64, mark: u8, text: Seq<u8>) -> Seq<u8> {
    encode_utf8(path).push(58u8) + digits(line as nat).push(mark) + text.push(10u8)
}

fn push_row(buf: &mut Vec<u8>, path: &str, line: u64, mark: u8, text: &[u8])
    ensures
        final(buf)@ == old(buf)@ + text_row(path@, line, mark, text@),
{
    let ghost had = buf@;
    push_text(buf, path);
    buf.push(58);
    push_line_no(buf, line);
    buf.push(mark);
    buf.extend_from_slice(text);
    buf.push(10);
    assert(buf@ =~= had + text_row(path@, line, mark, text@));
}

/// Append the row of a hit.
pub fn emit_text_row(buf: &mut Vec<u8>, path: &str, line: u64, text: &str)
    ensures
        final(buf)@ == old(buf)@ + text_row(path@, line, 58, bytes_of(text)),
{
    push_row(buf, path, line, 58, text.as_bytes());
}

/// Append the row of a context line.
pub fn emit_ctx_row(buf: &mut Vec<u8>, path: &str, line: u64, text: &str)
    ensures
        final(buf)@ == old(buf)@ + text_row(path@, line, 45, bytes_of(text)),
{
    push_row(buf, path, line, 45, text.as_bytes());
}

// ---- color ----

/// What starts a highlighted span: reset, bold, red.
pub open spec fn span_on() -> Seq<u8> {
    seq![27u8, 91u8, 48u8, 109u8, 27u8, 91u8, 49u8, 109u8, 27u8, 91u8, 51u8, 49u8, 109u8]
}

/// What ends a highlighted span: reset.
pub open spec fn span_off() -> Seq<u8> {
    seq![27u8, 91u8, 48u8, 109u8]
}

/// The spans that hold anything.
pub open spec fn nonempty_spans(spans: Seq<(usize, usize)>) -> Seq<(usize, usize)>
    decreases spans.len(),
{
    if spans.len() == 0 {
        Seq::empty()
    } else if spans.last().0 < spans.last().1 {
        nonempty_spans(spans.drop_last()).push(spans.last())
    } else {
        nonempty_spans(spans.drop_last())
    }
}

/// The text up to the end of the last span, each span highlighted.
pub open spec fn highlighted_to(text: Seq<u8>, spans: Seq<(usize, usize)>) -> Seq<u8>
    decreases spans.len(),
{
    if spans.len() == 0 {
        Seq::empty()
    } else {
        let pos = spans_end(spans.drop_last());
        highlighted_to(text, spans.drop_last()) + text.subrange(pos, spans.last().0 as int) + span_on()
            + text.subrange(spans.last().0 as int, spans.last().1 as int) + span_off()
    }
}

/// Where the last span ends.
pub open spec fn spans_end(spans: Seq<(usize, usize)>) -> int {
    if spans.len() == 0 {
        0
    } else {
        spans.last().1 as int
    }
}

/// The text with each span highlighted.
pub open spec fn highlighted(text: Seq<u8>, spans: Seq<(usize, usize)>) -> Seq<u8> {
    highlighted_to(text, spans) + text.subrange(spans_end(spans), text.len() as int)
}

/// A text with its matches highlighted.
pub enum Colored {
    /// Nothing to highlight: the text stands as it is.
    Verbatim,
    /// The highlighted text.
    Styled(String),
    /// A match splits a character, so that the result is no text.
    Broken,
}

/// `c` is the text with the given spans highlighted.
pub open spec fn is_colored(c: Colored, text: Seq<u8>, spans: Seq<(usize, usize)>) -> bool {
    let kept = nonempty_spans(spans);
    match c {
        Colored::Verbatim => kept.len() == 0,
        Colored::Styled(s) => kept.len() > 0 && encode_utf8(s@) == highlighted(text, kept),
        Colored::Broken => kept.len() > 0 && !valid_utf8(highlighted(text, kept)),
    }
}

/// Highlight the given spans of a text; empty ones are passed over.
pub fn colorize(text: &str, spans: &[(usize, usize)]) -> (c: Colored)
    requires
        spans_fit(spans@, bytes_of(text).len()),
    ensures
        is_colored(c, bytes_of(text), spans@),
{
    let b: &[u8] = text.as_bytes();
    let size: usize = b.len();
    let mut out: Vec<u8> = Vec::new();
    let mut pos: usize = 0;
    let mut count: usize = 0;
    let mut k: usize = 0;
    while k < spans.len()
        invariant
            k <= spans@.len(),
            count <= k,
            b@ == bytes_of(text),
            size == b@.len(),
            spans_fit(spans@, b@.len()),
            pos == spans_end(nonempty_spans(spans@.take(k as int))),
            pos <= b@.len(),
            count == nonempty_spans(spans@.take(k as int)).len(),
            out@ == highlighted_to(b@, nonempty_spans(spans@.take(k as int))),
            k < spans@.len() ==> pos <= spans@[k as int].0,
        decreases spans@.len() - k,
    {
        let ghost kept = nonempty_spans(spans@.take(k as int));
        proof {
            assert(spans@.take(k + 1).drop_last() =~= spans@.take(k as int));
            assert(spans@.take(k + 1).last() == spans@[k as int]);
        }
        let s: usize = spans[k].0;
        let e: usize = spans[k].1;
        if s < e {
            let ghost had = out@;
            out.extend_from_slice(&b[pos..s]);
            let on: Vec<u8> = vec![27, 91, 48, 109, 27, 91, 49, 109, 27, 91, 51, 49, 109];
            out.extend_from_slice(&on);
            out.extend_from_slice(&b[s..e]);
            let off: Vec<u8> = vec![27, 91, 48, 109];
            out.extend_from_slice(&off);
            proof {
                assert(on@ =~= span_on());
                assert(off@ =~= span_off());
                let now = kept.push((s, e));
                assert(now.drop_last() =~= kept);
                assert(out@ =~= highlighted_to(b@, now));
            }
            pos = e;
            count = count + 1;
        }
        proof {
            if k + 1 < spans@.len() {
                assert(spans@[k as int].1 <= spans@[k + 1].0);
            }
        }
        k = k + 1;
    }
    assert(spans@.take(k as int) =~= spans@);
    if count == 0 {
        return Colored::Verbatim;
    }
    out.extend_from_slice(&b[pos..size]);
    assert(out@ =~= highlighted(b@, nonempty_spans(spans@)));
    match utf8_text(&out) {
        Some(s) => Colored::Styled(s),
        None => Colored::Broken,
    }
}

/// Highlight what matches in a text. Empty matches are passed over.
pub fn colorize_spans(text: &str, matcher: &LineMatcher) -> (c: Colored)
    ensures
        is_colored(c, bytes_of(text), found_spans(matcher@.0, matcher@.1, bytes_of(text))),
{
    let spans: Vec<(usize, usize)> = find_spans(matcher, text.as_bytes());
    colorize(text, &spans)
}

/// What highlighting the given spans makes of a text.
pub open spec fn row_text(text: Seq<u8>, spans: Seq<(usize, usize)>) -> Option<Seq<u8>> {
    let kept = nonempty_spans(spans);
    if kept.len() == 0 {
        Some(text)
    } else if valid_utf8(highlighted(text, kept)) {
        Some(highlighted(text, kept))
    } else {
        None
    }
}

/// Append the row of a hit with its matches highlighted. When highlighting breaks
/// the text, nothing is appended and the result is false.
pub fn emit_text_row_colored(buf: &mut Vec<u8>, path: &str, line: u64, text: &str, matcher: &LineMatcher) -> (ok:
    bool)
    ensures
        match row_text(bytes_of(text), found_spans(matcher@.0, matcher@.1, bytes_of(text))) {
            Some(t) => ok && final(buf)@ == old(buf)@ + text_row(path@, line, 58, t),
            None => !ok && final(buf)@ == old(buf)@,
        },
{
    broadcast use vstd::utf8::encode_utf8_valid_utf8;

    match colorize_spans(text, matcher) {
        Colored::Verbatim => {
            emit_text_row(buf, path, line, text);
            true
        },
        Colored::Styled(s) => {
            emit_text_row(buf, path, line, s.as_str());
            true
        },
        Colored::Broken => false,
    }
}

// ---- counts ----

/// One row of `-c` or `-l`: the path, and its count unless only paths are asked for.
pub open spec fn count_row(path: Seq<char>, n: usize, files_only: bool) -> Seq<u8> {
    if files_only {
        encode_utf8(path).push(10u8)
    } else {
        encode_utf8(path).push(58u8) + digits(n as nat).push(10u8)
    }
}

/// The rows of `-c` or `-l`.
pub open spec fn count_rows(rows: Seq<(Seq<char>, usize)>, files_only: bool) -> Seq<u8>
    decreases rows.len(),
{
    if rows.len() == 0 {
        Seq::empty()
    } else {
        count_rows(rows.drop_last(), files_only) + count_row(rows.last().0, rows.last().1, files_only)
    }
}

/// Counted paths.
pub open spec fn counts_view(rows: Seq<(String, usize)>) -> Seq<(Seq<char>, usize)> {
    Seq::new(rows.len(), |k: int| (rows[k].0@, rows[k].1))
}

/// Render counted paths: `path:count` per file, or paths alone. Paths alone win when
/// both are asked for.
pub fn write_aggregates(rows: &[(String, usize)], files_only: bool) -> (buf: Vec<u8>)
    ensures
        buf@ == count_rows(counts_view(rows@), files_only),
{
    let mut buf: Vec<u8> = Vec::new();
    let ghost all = counts_view(rows@);
    let mut k: usize = 0;
    while k < rows.len()
        invariant
            k <= rows@.len(),
            all == counts_view(rows@),
            buf@ == count_rows(all.take(k as int), files_only),
        decreases rows@.len() - k,
    {
        let ghost had = buf@;
        proof {
            assert(all.take(k + 1).drop_last() =~= all.take(k as int));
            assert(all.take(k + 1).last() == (rows@[k as int].0@, rows@[k as int].1));
        }
        push_text(&mut buf, rows[k].0.as_str());
        if !files_only {
            buf.push(58);
            push_line_no(&mut buf, rows[k].1 as u64);
        }
        buf.push(10);
        assert(buf@ =~= had + count_row(rows@[k as int].0@, rows@[k as int].1, files_only));
        k = k + 1;
    }
    assert(all.take(k as int) =~= all);
    buf
}

// ---- what is written ----

/// A number is written by its decimal digits, without leading zeros.
pub proof fn law_numbers_are_written_in_decimal(n: nat, d: nat)
    requires
        d < 10,
    ensures
        digits(d) == seq![(48 + d) as u8],
        n > 0 ==> digits(10 * n + d) == digits(n).push((48 + d) as u8),
{
    let m = 10 * n + d;
    assert(m / 10 == n && m % 10 == d);
}

/// A row is the path, a colon, the line, a mark and the text, and ends its line; a count is
/// the path, a colon and the number, and a file the path alone.
pub proof fn law_rows_are_laid_out(path: Seq<char>, line: u64, mark: u8, text: Seq<u8>, n: usize)
    ensures
        text_row(path, line, mark, text) == encode_utf8(path) + seq![58u8] + digits(line as nat) + seq![mark] + text + seq![
            10u8,
        ],
        count_row(path, n, false) == encode_utf8(path) + seq![58u8] + digits(n as nat) + seq![10u8],
        count_row(path, n, true) == encode_utf8(path) + seq![10u8],
{
    assert(text_row(path, line, mark, text) =~= encode_utf8(path) + seq![58u8] + digits(line as nat) + seq![mark] + text
        + seq![10u8]);
    assert(count_row(path, n, false) =~= encode_utf8(path) + seq![58u8] + digits(n as nat) + seq![10u8]);
    assert(count_row(path, n, true) =~= encode_utf8(path) + seq![10u8]);
}

/// Every row is written, in order and nothing in between.
pub proof fn law_every_count_is_written(rows: Seq<(Seq<char>, usize)>, files_only: bool)
    ensures
        count_rows(rows, files_only) == Seq::new(
            rows.len(),
            |k: int|
                encode_utf8(rows[k].0) + (if files_only {
                    Seq::empty()
                } else {
                    seq![58u8] + digits(rows[k].1 as nat)
                }) + seq![10u8],
        ).flatten(),
    decreases rows.len(),
{
    let write = |k: int|
        encode_utf8(rows[k].0) + (if files_only {
            Seq::empty()
        } else {
            seq![58u8] + digits(rows[k].1 as nat)
        }) + seq![10u8];
    let all = Seq::new(rows.len(), write);
    all.lemma_flatten_and_flatten_alt_are_equivalent();
    if rows.len() > 0 {
        let front = rows.drop_last();
        law_every_count_is_written(front, files_only);
        let had = Seq::new(
            front.len(),
            |k: int|
                encode_utf8(front[k].0) + (if files_only {
                    Seq::empty()
                } else {
                    seq![58u8] + digits(front[k].1 as nat)
                }) + seq![10u8],
        );
        had.lemma_flatten_and_flatten_alt_are_equivalent();
        assert(all.drop_last() =~= had);
        assert(all.last() =~= count_row(rows.last().0, rows.last().1, files_only));
    }
}

/// A hit is a JSON object with its path, line, text and score, in this order, on a line of its
/// own; a line around hits says so at the end.
pub proof fn law_json_is_laid_out(path: Seq<char>, line: u64, text: Seq<char>, score: Seq<u8>)
    ensures
        hit_json(json_bytes(encode_utf8(path)), line, text, score) == encode_utf8("{\"path\":\""@) + json_bytes(
            encode_utf8(path),
        ) + encode_utf8("\",\"line\":"@) + digits(line as nat) + encode_utf8(",\"text\":\""@) + json_bytes(
            encode_utf8(text),
        ) + encode_utf8("\",\"score\":"@) + score + encode_utf8("}\n"@),
        ctx_json(json_bytes(encode_utf8(path)), line, text, score) == encode_utf8("{\"path\":\""@) + json_bytes(
            encode_utf8(path),
        ) + encode_utf8("\",\"line\":"@) + digits(line as nat) + encode_utf8(",\"text\":\""@) + json_bytes(
            encode_utf8(text),
        ) + encode_utf8("\",\"score\":"@) + score + encode_utf8(",\"ctx\":true}\n"@),
{
}

/// Highlighting changes nothing but what stands around the spans: before each span red is
/// turned on and behind it off, and without spans the text stays as it is. Empty spans do
/// not count.
pub proof fn law_highlighting_wraps_each_span(text: Seq<u8>, spans: Seq<(usize, usize)>)
    requires
        forall|k: int| 0 <= k < spans.len() ==> (#[trigger] spans[k]).0 <= spans[k].1 <= text.len(),
        forall|j: int, k: int| 0 <= j < k < spans.len() ==> (#[trigger] spans[j]).1 <= (#[trigger] spans[k]).0,
    ensures
        spans.len() == 0 ==> highlighted(text, spans) == text,
        spans.len() > 0 ==> highlighted(text, spans) == highlighted(
            text.take(spans.last().0 as int),
            spans.drop_last(),
        ) + seq![27u8, 91, 48, 109, 27, 91, 49, 109, 27, 91, 51, 49, 109] + text.subrange(
            spans.last().0 as int,
            spans.last().1 as int,
        ) + seq![27u8, 91, 48, 109] + text.skip(spans.last().1 as int),
        nonempty_spans(spans) == spans.filter(|s: (usize, usize)| s.0 < s.1),
{
    lemma_nonempty_spans(spans);
    if spans.len() == 0 {
        assert(highlighted(text, spans) =~= text);
    } else {
        let last = spans.last();
        let front = spans.drop_last();
        assert(last == spans[spans.len() - 1]);
        let cut = text.take(last.0 as int);
        assert forall|k: int| 0 <= k < front.len() implies (#[trigger] front[k]).0 <= front[k].1 <= last.0 by {
            assert(front[k] == spans[k]);
        }
        lemma_highlighted_of_cut(text, last.0 as int, front);
        let pos = spans_end(front);
        assert(0 <= pos <= last.0) by {
            if front.len() > 0 {
                assert(front.last() == front[front.len() - 1]);
            }
        }
        assert(cut.subrange(pos, cut.len() as int) =~= text.subrange(pos, last.0 as int));
        assert(text.subrange(last.1 as int, text.len() as int) =~= text.skip(last.1 as int));
        assert(highlighted(text, spans) =~= highlighted(cut, front) + span_on() + text.subrange(
            last.0 as int,
            last.1 as int,
        ) + span_off() + text.skip(last.1 as int));
    }
}

pub proof fn lemma_nonempty_spans(spans: Seq<(usize, usize)>)
    ensures
        nonempty_spans(spans) == spans.filter(|s: (usize, usize)| s.0 < s.1),
    decreases spans.len(),
{
    reveal(Seq::filter);
    if spans.len() > 0 {
        lemma_nonempty_spans(spans.drop_last());
    }
}

proof fn lemma_highlighted_of_cut(text: Seq<u8>, n: int, spans: Seq<(usize, usize)>)
    requires
        0 <= n <= text.len(),
        forall|k: int| 0 <= k < spans.len() ==> (#[trigger] spans[k]).0 <= spans[k].1 <= n,
        forall|j: int, k: int| 0 <= j < k < spans.len() ==> (#[trigger] spans[j]).1 <= (#[trigger] spans[k]).0,
    ensures
        highlighted_to(text.take(n), spans) == highlighted_to(text, spans),
    decreases spans.len(),
{
    if spans.len() > 0 {
        let front = spans.drop_last();
        let last = spans.last();
        assert(last == spans[spans.len() - 1]);
        assert forall|k: int| 0 <= k < front.len() implies (#[trigger] front[k]).0 <= front[k].1 <= n by {
            assert(front[k] == spans[k]);
        }
        lemma_highlighted_of_cut(text, n, front);
        let pos = spans_end(front);
        assert(0 <= pos <= last.0) by {
            if front.len() > 0 {
                assert(front.last() == front[front.len() - 1]);
                assert(front[front.len() - 1] == spans[spans.len() - 2]);
            }
        }
        assert(text.take(n).subrange(pos, last.0 as int) =~= text.subrange(pos, last.0 as int));
        assert(text.take(n).subrange(last.0 as int, last.1 as int) =~= text.subrange(last.0 as int, last.1 as int));
    }
}

/// A byte of a JSON string stands for itself unless it is a quote, a backslash or a control
/// character: those are written behind a backslash, the usual ones by their letter and the
/// others by their number.
pub proof fn law_json_strings_escape_what_they_must(b: u8)
    ensures
        b >= 32 && b != 34 && b != 92 ==> json_byte(b) == seq![b],
        b == 34 ==> json_byte(b) == seq![92u8, 34u8],
        b == 92 ==> json_byte(b) == seq![92u8, 92u8],
        b == 10 ==> json_byte(b) == seq![92u8, 110u8],
        b == 13 ==> json_byte(b) == seq![92u8, 114u8],
        b == 9 ==> json_byte(b) == seq![92u8, 116u8],
        b == 8 ==> json_byte(b) == seq![92u8, 98u8],
        b == 12 ==> json_byte(b) == seq![92u8, 102u8],
        b < 32 && b != 10 && b != 13 && b != 9 && b != 8 && b != 12 ==> json_byte(b).len() == 6 && json_byte(b).take(5)
            == seq![92u8, 117u8, 48u8, 48u8, (if b < 16 {
            48u8
        } else {
            49u8
        })] && json_byte(b)[5] == (if b % 16 < 10 {
            48 + b % 16
        } else {
            87 + b % 16
        }),
{
    if b < 32 && b != 10 && b != 13 && b != 9 && b != 8 && b != 12 {
        assert(json_byte(b).take(5) =~= seq![92u8, 117u8, 48u8, 48u8, (if b < 16 {
            48u8
        } else {
            49u8
        })]);
    }
}

} // verus!
