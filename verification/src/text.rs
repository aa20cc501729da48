//! Text helpers: strings as sequences of characters.

use vstd::prelude::*;
use vstd::utf8::encode_utf8;

verus! {

/// `String::push` appends one character at the end.
pub assume_specification[ String::push ](s: &mut String, c: char)
    ensures
        final(s)@ == old(s)@.push(c),
;

/// The text that `bytes` encode. `std::str::from_utf8` accepts exactly the valid
/// UTF-8 byte sequences, and the text it gives has the given bytes.
#[verifier::external_body]
pub(crate) fn utf8_text(bytes: &[u8]) -> (text: Option<String>)
    ensures
        text is Some <==> vstd::utf8::valid_utf8(bytes@),
        text matches Some(s) ==> encode_utf8(s@) == bytes@,
{
    std::str::from_utf8(bytes).ok().map(String::from)
}

/// What `String::from_utf8_lossy` makes of a byte sequence.
pub uninterp spec fn utf8_lossy(bytes: Seq<u8>) -> Seq<char>;

/// The text that `bytes` encode, faulty parts replaced. `String::from_utf8_lossy`
/// depends on the bytes alone and decodes valid UTF-8 as it stands.
#[verifier::external_body]
pub(crate) fn lossy_text(bytes: &[u8]) -> (text: String)
    ensures
        text@ == utf8_lossy(bytes@),
        vstd::utf8::valid_utf8(bytes@) ==> text@ == vstd::utf8::decode_utf8(bytes@),
{
    String::from_utf8_lossy(bytes).into_owned()
}

/// The characters of `s`.
pub fn chars_of(s: &str) -> (v: Vec<char>)
    ensures
        v@ == s@,
{
    let mut v: Vec<char> = Vec::new();
    for c in it: s.chars()
        invariant
            it.seq() == s@,
            v@ == s@.take(it.index() as int),
    {
        v.push(c);
    }
    assert(s@.take(s@.len() as int) =~= s@);
    v
}

/// The string with the characters `chars`.
pub fn string_of(chars: &[char]) -> (s: String)
    ensures
        s@ == chars@,
{
    let mut s: String = String::new();
    let mut i: usize = 0;
    while i < chars.len()
        invariant
            i <= chars@.len(),
            s@ == chars@.take(i as int),
        decreases chars@.len() - i,
    {
        s.push(chars[i]);
        i = i + 1;
        assert(s@ =~= chars@.take(i as int));
    }
    assert(chars@.take(chars@.len() as int) =~= chars@);
    s
}

/// The pieces of `s` between the occurrences of `sep`, from position `i` on, the
/// current one having begun at `start`.
pub open spec fn pieces_from<T>(s: Seq<T>, sep: T, start: int, i: int) -> Seq<Seq<T>>
    decreases s.len() - i,
{
    if i >= s.len() {
        seq![s.subrange(start, s.len() as int)]
    } else if s[i] == sep {
        seq![s.subrange(start, i)] + pieces_from(s, sep, i + 1, i + 1)
    } else {
        pieces_from(s, sep, start, i + 1)
    }
}

/// The pieces of `s` between the occurrences of `sep`.
pub open spec fn pieces<T>(s: Seq<T>, sep: T) -> Seq<Seq<T>> {
    pieces_from(s, sep, 0, 0)
}

/// The ranges of `s`.
pub open spec fn ranges_of<T>(s: Seq<T>, ranges: Seq<(usize, usize)>) -> Seq<Seq<T>> {
    Seq::new(ranges.len(), |k: int| s.subrange(ranges[k].0 as int, ranges[k].1 as int))
}

/// The ranges of the pieces between the occurrences of `sep`.
pub fn piece_ranges(s: &[char], sep: char) -> (out: Vec<(usize, usize)>)
    ensures
        ranges_of(s@, out@) == pieces(s@, sep),
        forall|k: int| 0 <= k < out@.len() ==> (#[trigger] out@[k]).0 <= out@[k].1 <= s@.len(),
        out@.len() >= 1,
{
    let mut out: Vec<(usize, usize)> = Vec::new();
    let mut start: usize = 0;
    let mut i: usize = 0;
    assert(ranges_of(s@, out@) + pieces_from(s@, sep, 0, 0) =~= pieces(s@, sep));
    while i < s.len()
        invariant
            start <= i <= s@.len(),
            ranges_of(s@, out@) + pieces_from(s@, sep, start as int, i as int) == pieces(s@, sep),
            forall|k: int| 0 <= k < out@.len() ==> (#[trigger] out@[k]).0 <= out@[k].1 <= s@.len(),
        decreases s@.len() - i,
    {
        if s[i] == sep {
            let ghost had = ranges_of(s@, out@);
            let ghost piece = s@.subrange(start as int, i as int);
            out.push((start, i));
            proof {
                assert(ranges_of(s@, out@) =~= had.push(piece));
                let rest = pieces_from(s@, sep, i + 1, i + 1);
                assert(had.push(piece) + rest =~= had + (seq![piece] + rest));
            }
            start = i + 1;
        }
        i = i + 1;
    }
    let ghost had = ranges_of(s@, out@);
    out.push((start, s.len()));
    assert(ranges_of(s@, out@) =~= had + seq![s@.subrange(start as int, s@.len() as int)]);
    out
}

/// The ranges of the pieces between the occurrences of the byte `sep`.
pub fn byte_piece_ranges(s: &[u8], sep: u8) -> (out: Vec<(usize, usize)>)
    ensures
        ranges_of(s@, out@) == pieces(s@, sep),
        forall|k: int| 0 <= k < out@.len() ==> (#[trigger] out@[k]).0 <= out@[k].1 <= s@.len(),
        out@.len() >= 1,
{
    let mut out: Vec<(usize, usize)> = Vec::new();
    let mut start: usize = 0;
    let mut i: usize = 0;
    assert(ranges_of(s@, out@) + pieces_from(s@, sep, 0, 0) =~= pieces(s@, sep));
    while i < s.len()
        invariant
            start <= i <= s@.len(),
            ranges_of(s@, out@) + pieces_from(s@, sep, start as int, i as int) == pieces(s@, sep),
            forall|k: int| 0 <= k < out@.len() ==> (#[trigger] out@[k]).0 <= out@[k].1 <= s@.len(),
        decreases s@.len() - i,
    {
        if s[i] == sep {
            let ghost had = ranges_of(s@, out@);
            let ghost piece = s@.subrange(start as int, i as int);
            out.push((start, i));
            proof {
                assert(ranges_of(s@, out@) =~= had.push(piece));
                let rest = pieces_from(s@, sep, i + 1, i + 1);
                assert(had.push(piece) + rest =~= had + (seq![piece] + rest));
            }
            start = i + 1;
        }
        i = i + 1;
    }
    let ghost had = ranges_of(s@, out@);
    out.push((start, s.len()));
    assert(ranges_of(s@, out@) =~= had + seq![s@.subrange(start as int, s@.len() as int)]);
    out
}

/// `needle` stands in `hay` at position `i`.
pub open spec fn text_at(hay: Seq<char>, i: int, needle: Seq<char>) -> bool {
    0 <= i && i + needle.len() <= hay.len() && hay.subrange(i, i + needle.len()) == needle
}

/// `needle` occurs in `hay`.
pub open spec fn text_contains(hay: Seq<char>, needle: Seq<char>) -> bool {
    exists|i: int| text_at(hay, i, needle)
}

/// Whether `needle` stands in `hay` at position `i`.
pub fn stands_at(hay: &[char], i: usize, needle: &[char]) -> (b: bool)
    requires
        i <= hay@.len(),
    ensures
        b == text_at(hay@, i as int, needle@),
{
    if hay.len() - i < needle.len() {
        return false;
    }
    let ghost window = hay@.subrange(i as int, i + needle@.len());
    let mut k: usize = 0;
    while k < needle.len()
        invariant
            k <= needle@.len(),
            i + needle@.len() <= hay@.len(),
            hay@.len() <= usize::MAX,
            window == hay@.subrange(i as int, i + needle@.len()),
            forall|x: int| 0 <= x < k ==> window[x] == needle@[x],
        decreases needle@.len() - k,
    {
        if hay[i + k] != needle[k] {
            assert(window[k as int] != needle@[k as int]);
            return false;
        }
        k = k + 1;
    }
    assert(window =~= needle@);
    true
}

/// Whether `needle` occurs in `hay`.
pub fn contains_text(hay: &str, needle: &str) -> (b: bool)
    ensures
        b == text_contains(hay@, needle@),
{
    let h: Vec<char> = chars_of(hay);
    let n: Vec<char> = chars_of(needle);
    let mut i: usize = 0;
    while i < h.len()
        invariant
            i <= h@.len(),
            h@ == hay@,
            n@ == needle@,
            forall|x: int| x < i ==> !#[trigger] text_at(hay@, x, needle@),
        decreases h@.len() - i,
    {
        if stands_at(&h, i, &n) {
            return true;
        }
        i = i + 1;
    }
    stands_at(&h, i, &n)
}

/// Position `i` is the first at which `needle` stands.
pub open spec fn first_at(hay: Seq<char>, needle: Seq<char>, i: int) -> bool {
    text_at(hay, i, needle) && forall|j: int| j < i ==> !#[trigger] text_at(hay, j, needle)
}

/// First position at which `needle` stands in `hay`.
pub fn find_text(hay: &[char], needle: &[char]) -> (res: Option<usize>)
    ensures
        match res {
            Some(i) => first_at(hay@, needle@, i as int),
            None => !text_contains(hay@, needle@),
        },
{
    let mut i: usize = 0;
    while i < hay.len()
        invariant
            i <= hay@.len(),
            forall|x: int| x < i ==> !#[trigger] text_at(hay@, x, needle@),
        decreases hay@.len() - i,
    {
        if stands_at(hay, i, needle) {
            return Some(i);
        }
        i = i + 1;
    }
    if stands_at(hay, i, needle) {
        Some(i)
    } else {
        None
    }
}

// ---- white space ----

/// A character with the Unicode property White_Space.
pub open spec fn is_white(c: char) -> bool {
    ('\u{9}' <= c && c <= '\u{d}') || c == ' ' || c == '\u{85}' || c == '\u{a0}' || c == '\u{1680}' || (
    '\u{2000}' <= c && c <= '\u{200a}') || c == '\u{2028}' || c == '\u{2029}' || c == '\u{202f}' || c
        == '\u{205f}' || c == '\u{3000}'
}

/// The text without white space at its start.
pub open spec fn trimmed_start(s: Seq<char>) -> Seq<char>
    decreases s.len(),
{
    if s.len() > 0 && is_white(s[0]) {
        trimmed_start(s.drop_first())
    } else {
        s
    }
}

/// The text without white space at its end.
pub open spec fn trimmed_end(s: Seq<char>) -> Seq<char>
    decreases s.len(),
{
    if s.len() > 0 && is_white(s.last()) {
        trimmed_end(s.drop_last())
    } else {
        s
    }
}

/// The text without white space at either end.
pub open spec fn trimmed(s: Seq<char>) -> Seq<char> {
    trimmed_end(trimmed_start(s))
}

fn white(c: char) -> (b: bool)
    ensures
        b == is_white(c),
{
    ('\u{9}' <= c && c <= '\u{d}') || c == ' ' || c == '\u{85}' || c == '\u{a0}' || c == '\u{1680}' || (
    '\u{2000}' <= c && c <= '\u{200a}') || c == '\u{2028}' || c == '\u{2029}' || c == '\u{202f}' || c
        == '\u{205f}' || c == '\u{3000}'
}

/// The characters without white space at either end.
pub fn trim_chars(s: &[char]) -> (out: Vec<char>)
    ensures
        out@ == trimmed(s@),
{
    let mut a: usize = 0;
    assert(s@.skip(0) =~= s@);
    while a < s.len() && white(s[a])
        invariant
            a <= s@.len(),
            trimmed_start(s@.skip(a as int)) == trimmed_start(s@),
        decreases s@.len() - a,
    {
        assert(s@.skip(a as int).drop_first() =~= s@.skip(a + 1));
        a = a + 1;
    }
    let ghost rest = s@.skip(a as int);
    assert(rest == trimmed_start(s@));
    let mut b: usize = s.len();
    assert(s@.subrange(a as int, b as int) =~= rest);
    while b > a && white(s[b - 1])
        invariant
            a <= b <= s@.len(),
            trimmed_end(s@.subrange(a as int, b as int)) == trimmed_end(rest),
        decreases b,
    {
        assert(s@.subrange(a as int, b as int).drop_last() =~= s@.subrange(a as int, b - 1));
        b = b - 1;
    }
    let mut out: Vec<char> = Vec::new();
    out.extend_from_slice(&s[a..b]);
    assert(out@ =~= s@.subrange(a as int, b as int));
    out
}

/// The words of a text from position `i` on, `cur` being the word read so far.
pub open spec fn words_from(s: Seq<char>, i: int, cur: Seq<char>) -> Seq<Seq<char>>
    decreases s.len() - i,
{
    if i >= s.len() {
        if cur.len() > 0 {
            seq![cur]
        } else {
            Seq::empty()
        }
    } else if is_white(s[i]) {
        (if cur.len() > 0 {
            seq![cur]
        } else {
            Seq::empty()
        }) + words_from(s, i + 1, Seq::empty())
    } else {
        words_from(s, i + 1, cur.push(s[i]))
    }
}

/// The words of a text: what white space separates.
pub open spec fn words(s: Seq<char>) -> Seq<Seq<char>> {
    words_from(s, 0, Seq::empty())
}

/// The character sequences of a list.
pub open spec fn char_views(v: Seq<Vec<char>>) -> Seq<Seq<char>> {
    Seq::new(v.len(), |k: int| v[k]@)
}

/// The words of a text.
pub fn split_words(s: &[char]) -> (out: Vec<Vec<char>>)
    ensures
        char_views(out@) == words(s@),
{
    let mut out: Vec<Vec<char>> = Vec::new();
    let mut cur: Vec<char> = Vec::new();
    let mut i: usize = 0;
    assert(char_views(out@) + words_from(s@, 0, cur@) =~= words(s@));
    while i < s.len()
        invariant
            i <= s@.len(),
            char_views(out@) + words_from(s@, i as int, cur@) == words(s@),
        decreases s@.len() - i,
    {
        if white(s[i]) {
            let ghost had = char_views(out@);
            let ghost was = cur@;
            let ghost here: Seq<Seq<char>> = if was.len() > 0 {
                seq![was]
            } else {
                Seq::empty()
            };
            if cur.len() > 0 {
                out.push(cur);
                cur = Vec::new();
            }
            proof {
                assert(char_views(out@) =~= had + here);
                assert(cur@ =~= Seq::<char>::empty());
                let rest = words_from(s@, i + 1, Seq::empty());
                assert(had + here + rest =~= had + (here + rest));
            }
        } else {
            cur.push(s[i]);
        }
        i = i + 1;
    }
    let ghost had = char_views(out@);
    let ghost was = cur@;
    if cur.len() > 0 {
        out.push(cur);
        assert(char_views(out@) =~= had + seq![was]);
    } else {
        assert(char_views(out@) =~= had + Seq::empty());
    }
    out
}

// ---- numbers ----

/// A decimal digit.
pub open spec fn is_digit(c: char) -> bool {
    '0' <= c && c <= '9'
}

/// The number that decimal digits write.
pub open spec fn number_of(s: Seq<char>) -> nat
    decreases s.len(),
{
    if s.len() == 0 {
        0
    } else {
        number_of(s.drop_last()) * 10 + (s.last() as nat - 48) as nat
    }
}

/// The digits of a number as written: after an optional `+`.
pub open spec fn number_digits(s: Seq<char>) -> Seq<char> {
    if s.len() > 0 && s[0] == '+' {
        s.drop_first()
    } else {
        s
    }
}

/// The number up to `max` that a text writes: an optional `+`, then at least one
/// digit and nothing else.
pub open spec fn written_number(s: Seq<char>, max: nat) -> Option<nat> {
    let d = number_digits(s);
    if d.len() > 0 && (forall|k: int| 0 <= k < d.len() ==> is_digit(#[trigger] d[k])) && number_of(d) <= max {
        Some(number_of(d))
    } else {
        None
    }
}

/// Read a number up to `max`.
pub fn parse_number(s: &[char], max: u64) -> (res: Option<u64>)
    ensures
        match res {
            Some(n) => written_number(s@, max as nat) == Some(n as nat),
            None => written_number(s@, max as nat) is None,
        },
{
    let start: usize = if s.len() > 0 && s[0] == '+' {
        1
    } else {
        0
    };
    let ghost d = number_digits(s@);
    assert(d =~= s@.skip(start as int));
    if s.len() == start {
        return None;
    }
    let mut n: u64 = 0;
    let mut i: usize = start;
    let mut over: bool = false;
    assert(d.take(0) =~= Seq::empty());
    while i < s.len()
        invariant
            start <= i <= s@.len(),
            d == number_digits(s@),
            d == s@.skip(start as int),
            forall|k: int| 0 <= k < i - start ==> is_digit(#[trigger] d[k]),
            over ==> number_of(d.take(i - start)) > max,
            !over ==> n == number_of(d.take(i - start)) && n <= max,
        decreases s@.len() - i,
    {
        let c: char = s[i];
        assert(d[i - start] == c);
        if !('0' <= c && c <= '9') {
            assert(!is_digit(d[i - start]));
            return None;
        }
        proof {
            assert(d.take(i + 1 - start).drop_last() =~= d.take(i - start));
            assert(d.take(i + 1 - start).last() == c);
        }
        let digit: u64 = (c as u32 - 48) as u64;
        if !over {
            if digit > max || n > max / 10 || n * 10 > max - digit {
                over = true;
            } else {
                n = n * 10 + digit;
            }
        }
        i = i + 1;
    }
    assert(d.take(i - start) =~= d);
    if over {
        None
    } else {
        Some(n)
    }
}

/// The decimal digits of a number.
pub open spec fn decimal(n: nat) -> Seq<char>
    decreases n,
{
    if n < 10 {
        seq![(48 + n) as char]
    } else {
        decimal(n / 10).push((48 + n % 10) as char)
    }
}

fn digit_char(d: u64) -> (c: char)
    requires
        d < 10,
    ensures
        c == (48 + d) as char,
{
    let b: u8 = 48 + d as u8;
    b as char
}

/// Append the decimal digits of a number.
pub fn push_number(out: &mut String, n: u64)
    ensures
        final(out)@ == old(out)@ + decimal(n as nat),
    decreases n,
{
    let ghost had = out@;
    if n >= 10 {
        push_number(out, n / 10);
        out.push(digit_char(n % 10));
    } else {
        out.push(digit_char(n));
    }
    assert(out@ =~= had + decimal(n as nat));
}

/// Writing a number and reading it back gives the number.
pub proof fn law_written_number_reads_back(n: nat)
    ensures
        written_number(decimal(n), n) == Some(n),
        decimal(n).len() > 0,
    decreases n,
{
    lemma_decimal(n);
}

pub proof fn lemma_decimal(n: nat)
    ensures
        decimal(n).len() > 0,
        forall|k: int| 0 <= k < decimal(n).len() ==> is_digit(#[trigger] decimal(n)[k]),
        number_of(decimal(n)) == n,
    decreases n,
{
    if n >= 10 {
        lemma_decimal(n / 10);
        assert(decimal(n).drop_last() =~= decimal(n / 10));
    } else {
        assert(decimal(n).drop_last() =~= Seq::empty());
        assert(number_of(decimal(n).drop_last()) == 0);
    }
}

/// Texts with the same bytes are the same.
pub proof fn lemma_same_bytes(a: Seq<char>, b: Seq<char>)
    requires
        encode_utf8(a) == encode_utf8(b),
    ensures
        a == b,
{
    vstd::utf8::encode_utf8_decode_utf8(a);
    vstd::utf8::encode_utf8_decode_utf8(b);
}

/// The bytes of two texts side by side.
pub proof fn lemma_encode_concat(a: Seq<char>, b: Seq<char>)
    ensures
        encode_utf8(a + b) == encode_utf8(a) + encode_utf8(b),
    decreases a.len(),
{
    if a.len() == 0 {
        assert(a + b =~= b);
        assert(encode_utf8(a) =~= Seq::empty());
        assert(encode_utf8(a) + encode_utf8(b) =~= encode_utf8(b));
    } else {
        assert((a + b).drop_first() =~= a.drop_first() + b);
        assert((a + b)[0] == a[0]);
        lemma_encode_concat(a.drop_first(), b);
        assert(encode_utf8(a + b) =~= encode_utf8(a) + encode_utf8(b));
    }
}

/// Whether two texts are the same.
pub fn same_text(a: &str, b: &str) -> (same: bool)
    ensures
        same == (a@ == b@),
{
    let x: String = a.to_owned();
    let y: String = b.to_owned();
    x == y
}

/// The sequences that a vector of strings holds.
pub open spec fn views(v: Seq<String>) -> Seq<Seq<char>> {
    Seq::new(v.len(), |k: int| v[k]@)
}

/// The sequences that a vector of byte vectors holds.
pub open spec fn byte_views(v: Seq<Vec<u8>>) -> Seq<Seq<u8>> {
    Seq::new(v.len(), |k: int| v[k]@)
}

// ---- what the readings mean ----

/// Splitting takes a text apart at every separator and nowhere else: a text without one is
/// its own only piece, and what stands before the first one is a piece of its own.
pub proof fn law_pieces_end_at_separators<T>(line: Seq<T>, sep: T, rest: Seq<T>)
    requires
        forall|k: int| 0 <= k < line.len() ==> #[trigger] line[k] != sep,
    ensures
        pieces(line, sep) == seq![line],
        pieces(line.push(sep) + rest, sep) == seq![line] + pieces(rest, sep),
{
    let all = line.push(sep) + rest;
    lemma_no_separator(line, sep, 0);
    assert(line.subrange(0, line.len() as int) =~= line);
    lemma_first_separator(all, sep, line.len() as int, 0);
    assert(all.subrange(0, line.len() as int) =~= line);
    assert(all.skip(line.len() as int + 1) =~= rest);
    lemma_pieces_shift(all, sep, line.len() as int + 1, line.len() as int + 1, line.len() as int + 1);
}

proof fn lemma_no_separator<T>(s: Seq<T>, sep: T, i: int)
    requires
        0 <= i <= s.len(),
        forall|k: int| 0 <= k < s.len() ==> #[trigger] s[k] != sep,
    ensures
        pieces_from(s, sep, 0, i) == seq![s.subrange(0, s.len() as int)],
    decreases s.len() - i,
{
    if i < s.len() {
        lemma_no_separator(s, sep, i + 1);
    }
}

proof fn lemma_first_separator<T>(s: Seq<T>, sep: T, e: int, i: int)
    requires
        0 <= i <= e < s.len(),
        s[e] == sep,
        forall|k: int| 0 <= k < e ==> #[trigger] s[k] != sep,
    ensures
        pieces_from(s, sep, 0, i) == seq![s.subrange(0, e)] + pieces_from(s, sep, e + 1, e + 1),
    decreases e - i,
{
    if i < e {
        lemma_first_separator(s, sep, e, i + 1);
    }
}

proof fn lemma_pieces_shift<T>(s: Seq<T>, sep: T, n: int, start: int, i: int)
    requires
        0 <= n <= start <= i <= s.len(),
    ensures
        pieces_from(s, sep, start, i) == pieces_from(s.skip(n), sep, start - n, i - n),
    decreases s.len() - i,
{
    let t = s.skip(n);
    if i == s.len() {
        assert(s.subrange(start, i) =~= t.subrange(start - n, i - n));
    } else {
        assert(t[i - n] == s[i]);
        if s[i] == sep {
            lemma_pieces_shift(s, sep, n, i + 1, i + 1);
            assert(s.subrange(start, i) =~= t.subrange(start - n, i - n));
        } else {
            lemma_pieces_shift(s, sep, n, start, i + 1);
        }
    }
}

/// Trimming takes white space off both ends and nothing else: what is left stands in the
/// text between white space alone, and neither starts nor ends with any.
pub proof fn law_trimming_takes_white_space(s: Seq<char>) -> (at: int)
    ensures
        0 <= at && at + trimmed(s).len() <= s.len(),
        trimmed(s) == s.subrange(at, at + trimmed(s).len()),
        forall|k: int| 0 <= k < s.len() && !(at <= k < at + trimmed(s).len()) ==> is_white(#[trigger] s[k]),
        trimmed(s).len() > 0 ==> !is_white(trimmed(s)[0]) && !is_white(trimmed(s).last()),
{
    let a = lemma_trimmed_start(s);
    let t = trimmed_start(s);
    let n = lemma_trimmed_end(t);
    assert(trimmed(s) =~= s.subrange(a, a + n));
    assert forall|k: int| 0 <= k < s.len() && !(a <= k < a + n) implies is_white(#[trigger] s[k]) by {
        if k >= a + n {
            assert(t[k - a] == s[k]);
        }
    }
    if n > 0 {
        assert(trimmed(s)[0] == t[0]);
    }
    a
}

proof fn lemma_trimmed_start(s: Seq<char>) -> (a: int)
    ensures
        0 <= a <= s.len(),
        trimmed_start(s) == s.skip(a),
        forall|k: int| 0 <= k < a ==> is_white(#[trigger] s[k]),
        a < s.len() ==> !is_white(s[a]),
    decreases s.len(),
{
    if s.len() > 0 && is_white(s[0]) {
        let b = lemma_trimmed_start(s.drop_first());
        assert(s.drop_first().skip(b) =~= s.skip(b + 1));
        assert forall|k: int| 0 <= k < b + 1 implies is_white(#[trigger] s[k]) by {
            if k > 0 {
                assert(s.drop_first()[k - 1] == s[k]);
            }
        }
        b + 1
    } else {
        assert(s.skip(0) =~= s);
        0
    }
}

proof fn lemma_trimmed_end(s: Seq<char>) -> (n: int)
    ensures
        0 <= n <= s.len(),
        trimmed_end(s) == s.take(n),
        forall|k: int| n <= k < s.len() ==> is_white(#[trigger] s[k]),
        n > 0 ==> !is_white(s[n - 1]),
    decreases s.len(),
{
    if s.len() > 0 && is_white(s.last()) {
        let n = lemma_trimmed_end(s.drop_last());
        assert(s.drop_last().take(n) =~= s.take(n));
        assert forall|k: int| n <= k < s.len() implies is_white(#[trigger] s[k]) by {
            if k < s.len() - 1 {
                assert(s.drop_last()[k] == s[k]);
            }
        }
        n
    } else {
        assert(s.take(s.len() as int) =~= s);
        s.len() as int
    }
}

/// A word ends at white space: a run of other characters in front of white space is the
/// first word, a run alone is the only one, and white space in front adds none.
pub proof fn law_words_end_at_white_space(word: Seq<char>, c: char, rest: Seq<char>)
    requires
        forall|k: int| 0 <= k < word.len() ==> !is_white(#[trigger] word[k]),
        is_white(c),
    ensures
        word.len() > 0 ==> words(word) == seq![word] && words(word.push(c) + rest) == seq![word] + words(rest),
        words(seq![c] + rest) == words(rest),
        words(Seq::empty()).len() == 0,
{
    let all = word.push(c) + rest;
    assert(word.take(0) =~= Seq::empty());
    assert(word.take(word.len() as int) =~= word);
    lemma_word_runs(word, word, 0);
    assert(all.take(word.len() as int) =~= word);
    lemma_word_runs(all, word, 0);
    lemma_words_shift(all, word.len() as int + 1, word.len() as int + 1, Seq::empty());
    assert(all.skip(word.len() as int + 1) =~= rest);
    let n = word.len() as int;
    assert(all[n] == c);
    if n > 0 {
        assert(words(word) == words_from(word, n, word));
        assert(words_from(word, n, word) == seq![word]);
        assert(words(all) == words_from(all, n, word));
        assert(words_from(all, n, word) == seq![word] + words_from(all, n + 1, Seq::empty()));
    }
    let none = Seq::<char>::empty();
    let other = seq![c] + rest;
    lemma_words_shift(other, 1, 1, none);
    assert(other.skip(1) =~= rest);
    assert(other[0] == c);
    assert(words_from(other, 0, none) == Seq::<Seq<char>>::empty() + words_from(other, 1, none));
    assert(words(other) =~= words(rest));
    assert(words(none) =~= Seq::empty());
}

proof fn lemma_word_runs(s: Seq<char>, word: Seq<char>, i: int)
    requires
        0 <= i <= word.len() <= s.len(),
        s.take(word.len() as int) == word,
        forall|k: int| 0 <= k < word.len() ==> !is_white(#[trigger] word[k]),
    ensures
        words_from(s, i, word.take(i)) == words_from(s, word.len() as int, word),
    decreases word.len() - i,
{
    if i < word.len() {
        assert(s[i] == s.take(word.len() as int)[i] == word[i]);
        lemma_word_runs(s, word, i + 1);
        assert(word.take(i).push(s[i]) =~= word.take(i + 1));
    } else {
        assert(word.take(i) =~= word);
    }
}

proof fn lemma_words_shift(s: Seq<char>, n: int, i: int, cur: Seq<char>)
    requires
        0 <= n <= i <= s.len(),
    ensures
        words_from(s, i, cur) == words_from(s.skip(n), i - n, cur),
    decreases s.len() - i,
{
    if i < s.len() {
        assert(s.skip(n)[i - n] == s[i]);
        if is_white(s[i]) {
            lemma_words_shift(s, n, i + 1, Seq::empty());
        } else {
            lemma_words_shift(s, n, i + 1, cur.push(s[i]));
        }
    }
}

/// A text is a number exactly if it is the decimal digits of one, leading zeros and one
/// plus sign allowed, and the number is within the bound.
pub proof fn law_number_is_read_by_place(front: Seq<char>, d: char, max: nat)
    requires
        '0' <= d && d <= '9',
    ensures
        written_number(seq![d], max) == (if d as nat - '0' as nat <= max {
            Some((d as nat - '0' as nat) as nat)
        } else {
            None
        }),
        front.len() > 0 && front != seq!['+'] ==> written_number(front.push(d), max) == (match written_number(
            front,
            max,
        ) {
            Some(n) => if n * 10 + (d as nat - '0' as nat) <= max {
                Some((n * 10 + (d as nat - '0' as nat)) as nat)
            } else {
                None
            },
            None => None,
        }),
        front.len() > 0 && front[0] != '+' ==> written_number(seq!['+'] + front, max) == written_number(front, max),
        written_number(Seq::empty(), max) is None,
        written_number(seq!['+'], max) is None,
{
    let one = seq![d];
    assert(one.drop_last() =~= Seq::empty());
    assert(number_of(one.drop_last()) == 0);
    assert(number_digits(one) == one);
    assert forall|k: int| 0 <= k < one.len() implies is_digit(#[trigger] one[k]) by {}
    assert(seq!['+'].drop_first() =~= Seq::<char>::empty());
    if front.len() > 0 && front != seq!['+'] {
        let more = front.push(d);
        let a = number_digits(front);
        let b = number_digits(more);
        assert(b =~= a.push(d));
        assert(b.drop_last() =~= a);
        if front[0] == '+' && front.len() == 1 {
            assert(front =~= seq!['+']);
        }
        assert(a.len() > 0);
        assert(forall|k: int| 0 <= k < a.len() ==> b[k] == a[k]);
        assert(b[a.len() as int] == d);
        if forall|k: int| 0 <= k < a.len() ==> is_digit(#[trigger] a[k]) {
            assert forall|k: int| 0 <= k < b.len() implies is_digit(#[trigger] b[k]) by {
                if k < a.len() {
                    assert(is_digit(a[k]));
                }
            }
        } else {
            let k = choose|k: int| 0 <= k < a.len() && !is_digit(#[trigger] a[k]);
            assert(!is_digit(b[k]));
        }
    }
    if front.len() > 0 && front[0] != '+' {
        assert((seq!['+'] + front).drop_first() =~= front);
    }
}

/// A text that holds anything but digits behind its sign is no number.
pub proof fn law_only_digits_make_a_number(s: Seq<char>, max: nat, k: int)
    requires
        0 <= k < s.len(),
        !('0' <= s[k] && s[k] <= '9'),
        k > 0 || s[k] != '+',
    ensures
        written_number(s, max) is None,
{
    let d = number_digits(s);
    if s[0] == '+' {
        assert(d[k - 1] == s[k]);
        assert(!is_digit(d[k - 1]));
    } else {
        assert(!is_digit(d[k]));
    }
}



/// Of the ASCII characters, the space and those from tab to carriage return are white.
pub proof fn law_ascii_white_space(c: char)
    requires
        c <= '\u{7f}',
    ensures
        is_white(c) <==> c == ' ' || c == '\t' || c == '\n' || c == '\u{b}' || c == '\u{c}' || c == '\r',
{
}

} // verus!
