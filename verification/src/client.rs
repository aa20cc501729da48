//! A client's reading of a daemon's reply, line by line.

use crate::emit::{digits, json_bytes, json_unescaped, law_escaped_json_reads_back, unescape_json};
use crate::serve::{done_line_of, refusal_line_of};
use crate::served::{
    is_ctx_line, is_json_number, json_bool, json_bool_member, json_str, json_str_member, lemma_wire_line,
    line_is_context, mark_reads_back, wire_bytes, wire_line, WireView,
};
use crate::text::{
    chars_of, decimal, find_text, is_white, lemma_decimal, lemma_encode_concat, lemma_same_bytes, stands_at,
    string_of, text_at, text_contains, trim_chars, trimmed, trimmed_end, trimmed_start, utf8_text,
};
use vstd::prelude::*;
use vstd::utf8::{decode_utf8, encode_scalar, encode_utf8, is_ascii_chars, is_ascii_chars_encode_utf8, valid_utf8};

verus! {

/// What a line of a reply is.
pub enum ReplyLine {
    /// The end of the reply: whether context was served, and whether a file could
    /// not be read.
    Done { ctx: bool, verify_error: bool },
    /// The query was refused, and why.
    Refused(String),
    /// Nothing.
    Blank,
    /// A line around a hit.
    Context,
    /// A hit.
    Hit,
}

/// What a line of a reply is.
pub enum ReplyView {
    Done { ctx: bool, verify_error: bool },
    Refused(Seq<char>),
    Blank,
    Context,
    Hit,
}

impl View for ReplyLine {
    type V = ReplyView;

    open spec fn view(&self) -> ReplyView {
        match self {
            ReplyLine::Done { ctx, verify_error } => ReplyView::Done { ctx: *ctx, verify_error: *verify_error },
            ReplyLine::Refused(s) => ReplyView::Refused(s@),
            ReplyLine::Blank => ReplyView::Blank,
            ReplyLine::Context => ReplyView::Context,
            ReplyLine::Hit => ReplyView::Hit,
        }
    }
}

/// The text without `tail` at its end, where it ends so.
pub open spec fn without_tail(s: Seq<char>, tail: Seq<char>) -> Seq<char> {
    if tail.is_suffix_of(s) {
        s.take(s.len() - tail.len())
    } else {
        s
    }
}

/// The reason that a refusal gives: what follows its head up to the closing `"}` at
/// its end, with escapes read; nothing where that is no text.
pub open spec fn refusal_reason(t: Seq<char>) -> Seq<char> {
    let bytes = json_unescaped(encode_utf8(without_tail(t.skip("{\"error\":\""@.len() as int), "\"}"@)));
    if valid_utf8(bytes) {
        decode_utf8(bytes)
    } else {
        Seq::empty()
    }
}

/// The line ends a reply: it starts as the last line does or, other than a hit and a
/// refusal as they are written, says so among its members.
pub open spec fn is_done_line(t: Seq<char>) -> bool {
    text_at(t, 0, "{\"done\":"@) || (!text_at(t, 0, "{\"path\":"@) && !text_at(t, 0, "{\"error\":\""@)
        && json_bool_member(encode_utf8(t), "done"@) == Some(true))
}

/// The reason of a line that refuses a query: the line starts as a refusal does or, other
/// than a hit, gives one among its members.
pub open spec fn refusal_of(t: Seq<char>) -> Option<Seq<char>> {
    if text_at(t, 0, "{\"error\":\""@) {
        Some(refusal_reason(t))
    } else if !text_at(t, 0, "{\"path\":"@) {
        json_str_member(encode_utf8(t), "error"@)
    } else {
        None
    }
}

/// What a line of a reply is. A line that starts with a path is a hit or a line around
/// one, so path and text may say anything. Context lines are looked for only when context
/// was asked for, and are told by reading the line.
pub open spec fn reply_line(line: Seq<char>, ctx_on: bool) -> ReplyView {
    let t = trimmed(line);
    if t.len() == 0 {
        ReplyView::Blank
    } else if is_done_line(t) {
        ReplyView::Done {
            ctx: text_contains(t, "\"ctx\":true"@),
            verify_error: text_contains(t, "\"verify_error\""@),
        }
    } else if refusal_of(t) is Some {
        ReplyView::Refused(refusal_of(t)->Some_0)
    } else if ctx_on && is_ctx_line(encode_utf8(t)) {
        ReplyView::Context
    } else {
        ReplyView::Hit
    }
}

/// Whether `needle` occurs in `hay`.
fn holds_text(hay: &[char], needle: &str) -> (b: bool)
    ensures
        b == text_contains(hay@, needle@),
{
    let n: Vec<char> = chars_of(needle);
    match find_text(hay, &n) {
        Some(i) => {
            assert(text_at(hay@, i as int, needle@));
            true
        },
        None => false,
    }
}

/// Whether `hay` starts with `needle`.
fn opens_with(hay: &[char], needle: &str) -> (b: bool)
    ensures
        b == text_at(hay@, 0, needle@),
{
    let n: Vec<char> = chars_of(needle);
    stands_at(hay, 0, &n)
}

/// The reason that a refusal gives.
fn find_reason(t: &[char]) -> (s: String)
    requires
        text_at(t@, 0, "{\"error\":\""@),
    ensures
        s@ == refusal_reason(t@),
{
    let head: Vec<char> = chars_of("{\"error\":\"");
    let tail: Vec<char> = chars_of("\"}");
    let size: usize = t.len();
    let from: usize = head.len();
    let ghost rest = t@.skip(from as int);
    let ends: bool = size - from >= tail.len() && stands_at(t, size - tail.len(), &tail);
    let to: usize = if ends {
        size - tail.len()
    } else {
        size
    };
    proof {
        if size - from >= tail@.len() {
            assert(rest.subrange(rest.len() - tail@.len(), rest.len() as int) =~= t@.subrange(
                size - tail@.len(),
                size as int,
            ));
        }
    }
    let inner: String = string_of(&t[from..to]);
    assert(inner@ =~= without_tail(rest, tail@));
    let bytes: Vec<u8> = unescape_json(inner.as_str().as_bytes());
    match utf8_text(&bytes) {
        Some(s) => {
            proof {
                vstd::utf8::encode_utf8_decode_utf8(s@);
            }
            s
        },
        None => {
            let none: Vec<char> = Vec::new();
            assert(none@ =~= Seq::empty());
            string_of(&none)
        },
    }
}

/// Tell what a line of a reply is.
pub fn classify_line(line: &str, ctx_on: bool) -> (res: ReplyLine)
    ensures
        res@ == reply_line(line@, ctx_on),
        ctx_on && (res is Context || res is Hit) ==> mark_reads_back(encode_utf8(trimmed(line@))),
{
    let chars: Vec<char> = chars_of(line);
    let t: Vec<char> = trim_chars(&chars);
    if t.len() == 0 {
        return ReplyLine::Blank;
    }
    let text: String = string_of(&t);
    let bytes: &[u8] = text.as_str().as_bytes();
    let is_hit: bool = opens_with(&t, "{\"path\":");
    let is_refusal: bool = opens_with(&t, "{\"error\":\"");
    let done: bool = opens_with(&t, "{\"done\":") || (!is_hit && !is_refusal && matches!(
        json_bool(bytes, "done"),
        Some(true)
    ));
    if done {
        return ReplyLine::Done {
            ctx: holds_text(&t, "\"ctx\":true"),
            verify_error: holds_text(&t, "\"verify_error\""),
        };
    }
    if is_refusal {
        return ReplyLine::Refused(find_reason(&t));
    }
    if !is_hit {
        if let Some(why) = json_str(bytes, "error") {
            return ReplyLine::Refused(why);
        }
    }
    if ctx_on && line_is_context(bytes) {
        return ReplyLine::Context;
    }
    ReplyLine::Hit
}

/// A reply as read so far.
pub struct Reply {
    /// The lines of hits and context, as received.
    pub raw: Vec<u8>,
    /// Number of hits.
    pub matches: usize,
    /// Why the query was refused.
    pub refused: Option<String>,
    /// Whether context was served.
    pub ctx_echo: bool,
    /// Whether a file could not be read.
    pub verify_error: bool,
}

/// A reply as read so far.
pub struct ReplyState {
    pub raw: Seq<u8>,
    pub matches: nat,
    pub refused: Option<Seq<char>>,
    pub ctx_echo: bool,
    pub verify_error: bool,
}

impl View for Reply {
    type V = ReplyState;

    open spec fn view(&self) -> ReplyState {
        ReplyState {
            raw: self.raw@,
            matches: self.matches as nat,
            refused: match self.refused {
                Some(s) => Some(s@),
                None => None,
            },
            ctx_echo: self.ctx_echo,
            verify_error: self.verify_error,
        }
    }
}

/// The reply after one more line.
pub open spec fn reply_after(s: ReplyState, line: Seq<char>, ctx_on: bool) -> ReplyState {
    match reply_line(line, ctx_on) {
        ReplyView::Done { ctx, verify_error } => ReplyState {
            ctx_echo: s.ctx_echo || ctx,
            verify_error: s.verify_error || verify_error,
            ..s
        },
        ReplyView::Refused(why) => ReplyState { refused: Some(why), ..s },
        ReplyView::Blank => s,
        ReplyView::Context => ReplyState { raw: s.raw + encode_utf8(line), ..s },
        ReplyView::Hit => ReplyState { raw: s.raw + encode_utf8(line), matches: s.matches + 1, ..s },
    }
}

/// No more hits are counted than bytes were kept.
pub open spec fn reply_wf(s: ReplyState) -> bool {
    s.matches <= s.raw.len()
}

proof fn lemma_nonempty_bytes(line: Seq<char>)
    requires
        line.len() > 0,
    ensures
        encode_utf8(line).len() > 0,
{
    vstd::utf8::encode_utf8_decode_utf8(line);
    if encode_utf8(line).len() == 0 {
        assert(encode_utf8(line) =~= Seq::empty());
        assert(vstd::utf8::decode_utf8(Seq::empty()) =~= Seq::<char>::empty());
    }
}

impl Reply {
    /// Nothing read yet.
    pub fn new() -> (r: Self)
        ensures
            r@ == (ReplyState {
                raw: Seq::empty(),
                matches: 0,
                refused: None,
                ctx_echo: false,
                verify_error: false,
            }),
            reply_wf(r@),
    {
        let r: Reply = Reply { raw: Vec::new(), matches: 0, refused: None, ctx_echo: false, verify_error: false };
        assert(r.raw@ =~= Seq::empty());
        r
    }

    /// Take in one more line; false when it ends the reply.
    pub fn step(&mut self, line: &str, ctx_on: bool) -> (more: bool)
        requires
            reply_wf(old(self)@),
        ensures
            final(self)@ == reply_after(old(self)@, line@, ctx_on),
            reply_wf(final(self)@),
            more == !(reply_line(line@, ctx_on) is Done),
            ctx_on && (reply_line(line@, ctx_on) is Context || reply_line(line@, ctx_on) is Hit) ==> mark_reads_back(
                encode_utf8(trimmed(line@)),
            ),
    {
        let ghost was = self@;
        match classify_line(line, ctx_on) {
            ReplyLine::Done { ctx, verify_error } => {
                if ctx {
                    self.ctx_echo = true;
                }
                if verify_error {
                    self.verify_error = true;
                }
                false
            },
            ReplyLine::Refused(why) => {
                self.refused = Some(why);
                true
            },
            ReplyLine::Blank => true,
            ReplyLine::Context => {
                self.raw.extend_from_slice(line.as_bytes());
                assert(self.raw@ =~= was.raw + encode_utf8(line@));
                true
            },
            ReplyLine::Hit => {
                proof {
                    if line@.len() == 0 {
                        assert(trimmed(line@).len() == 0);
                    }
                    lemma_nonempty_bytes(line@);
                }
                self.raw.extend_from_slice(line.as_bytes());
                assert(self.raw@ =~= was.raw + encode_utf8(line@));
                let _kept: usize = self.raw.len();
                self.matches = self.matches + 1;
                true
            },
        }
    }
}

/// What a probe of a registered daemon does with a line.
#[derive(Clone, Copy, Debug, PartialEq, Eq, Structural)]
pub enum ProbeStep {
    /// Read on.
    More,
    /// The reply is complete.
    Done,
    /// Give up and search locally.
    Miss,
}

/// What a probe does with a line: a refusal, and a reply without the context that
/// was asked for, are answered locally.
pub open spec fn probe_step_of(s: ReplyState, line: Seq<char>, ctx_on: bool) -> ProbeStep {
    match reply_line(line, ctx_on) {
        ReplyView::Refused(_) => ProbeStep::Miss,
        ReplyView::Done { ctx, .. } => if ctx_on && !(s.ctx_echo || ctx) {
            ProbeStep::Miss
        } else {
            ProbeStep::Done
        },
        _ => ProbeStep::More,
    }
}

/// Take in one more line of a probe's reply. The end of the connection before the
/// end of the reply is a miss as well.
pub fn probe_step(reply: &mut Reply, line: &str, ctx_on: bool) -> (next: ProbeStep)
    requires
        reply_wf(old(reply)@),
    ensures
        next == probe_step_of(old(reply)@, line@, ctx_on),
        final(reply)@ == reply_after(old(reply)@, line@, ctx_on),
        reply_wf(final(reply)@),
{
    let more: bool = reply.step(line, ctx_on);
    match classify_line(line, ctx_on) {
        ReplyLine::Refused(_) => ProbeStep::Miss,
        _ => {
            if more {
                ProbeStep::More
            } else if ctx_on && !reply.ctx_echo {
                ProbeStep::Miss
            } else {
                ProbeStep::Done
            }
        },
    }
}

/// A refusal or a blank line adds no hit; only a line read as a hit does.
pub proof fn law_only_hits_count(s: ReplyState, line: Seq<char>, ctx_on: bool)
    ensures
        reply_after(s, line, ctx_on).matches == s.matches + (if reply_line(line, ctx_on) is Hit {
            1nat
        } else {
            0
        }),
        reply_after(s, line, ctx_on).raw != s.raw ==> reply_line(line, ctx_on) is Hit || reply_line(
            line,
            ctx_on,
        ) is Context,
{
}

// ---- what a daemon writes ----

proof fn lemma_trim_newline(s: Seq<char>)
    requires
        s.len() > 0,
        !is_white(s[0]),
        !is_white(s.last()),
    ensures
        trimmed(s.push('\n')) == s,
{
    let line = s.push('\n');
    assert(line[0] == s[0]);
    assert(trimmed_start(line) == line);
    assert(line.drop_last() =~= s);
    assert(trimmed_end(line) == trimmed_end(s));
}

proof fn lemma_char_bytes(c: char)
    ensures
        (c as u32) < 128 ==> encode_scalar(c as u32) == seq![c as u8],
        (c as u32) >= 128 ==> encode_scalar(c as u32).len() > 0,
        (c as u32) >= 128 ==> encode_scalar(c as u32)[0] >= 128 && encode_scalar(c as u32).last() >= 128,
{
    let v = c as u32;
    assert(v < 128 ==> (v & 0x7F) as u8 == v as u8) by (bit_vector);
    assert((0xC0u8 | ((v >> 6) & 0x1F) as u8) >= 128u8) by (bit_vector);
    assert((0xE0u8 | ((v >> 12) & 0x0F) as u8) >= 128u8) by (bit_vector);
    assert((0xF0u8 | ((v >> 18) & 0x07) as u8) >= 128u8) by (bit_vector);
    assert((0x80u8 | (v & 0x3F) as u8) >= 128u8) by (bit_vector);
}

proof fn lemma_one_char(c: char)
    ensures
        encode_utf8(seq![c]) == encode_scalar(c as u32),
{
    reveal_with_fuel(encode_utf8, 2);
    assert(seq![c].drop_first() =~= Seq::empty());
    assert(encode_utf8(seq![c]) =~= encode_scalar(c as u32));
}

proof fn lemma_same_char(x: char, y: char)
    requires
        (y as u32) < 128,
        encode_scalar(x as u32)[0] == y as u8 || encode_scalar(x as u32).last() == y as u8,
    ensures
        x == y,
        encode_scalar(x as u32) == seq![y as u8],
{
    lemma_char_bytes(x);
}

proof fn lemma_ascii_is_small(y: char)
    requires
        '\0' <= y <= '\u{7f}',
    ensures
        (y as u32) < 128,
{
}

/// A text whose bytes start with those of an ASCII text starts with that text.
proof fn lemma_ascii_head(line: Seq<char>, a: Seq<char>, rest: Seq<u8>)
    requires
        is_ascii_chars(a),
        encode_utf8(line) == encode_utf8(a) + rest,
    ensures
        a.len() <= line.len(),
        line.take(a.len() as int) == a,
        encode_utf8(line.skip(a.len() as int)) == rest,
    decreases a.len(),
{
    is_ascii_chars_encode_utf8(a);
    if a.len() == 0 {
        assert(encode_utf8(a) + rest =~= rest);
        assert(line.skip(0) =~= line);
        assert(line.take(0) =~= a);
    } else {
        let bytes = encode_utf8(line);
        assert(bytes[0] == encode_utf8(a)[0]);
        assert(encode_utf8(a)[0] == a[0] as u8);
        assert(line.len() > 0);
        lemma_char_bytes(line[0]);
        lemma_ascii_is_small(a[0]);
        lemma_same_char(line[0], a[0]);
        let b = a.drop_first();
        lemma_char_bytes(a[0]);
        assert(is_ascii_chars(b)) by {
            assert forall|k: int| 0 <= k < b.len() implies '\0' <= #[trigger] b[k] <= '\u{7f}' by {
                assert(b[k] == a[k + 1]);
            }
        }
        assert(encode_utf8(line.drop_first()) =~= bytes.drop_first());
        assert(encode_utf8(b) + rest =~= bytes.drop_first()) by {
            assert(encode_utf8(a) =~= seq![a[0] as u8] + encode_utf8(b));
        }
        lemma_ascii_head(line.drop_first(), b, rest);
        assert(line.drop_first().skip(b.len() as int) =~= line.skip(a.len() as int));
        assert(line.take(a.len() as int) =~= a) by {
            assert(line.drop_first().take(b.len() as int) =~= line.subrange(1, a.len() as int));
            assert forall|k: int| 0 <= k < a.len() implies line[k] == a[k] by {
                if k > 0 {
                    assert(line.drop_first().take(b.len() as int)[k - 1] == b[k - 1]);
                }
            }
        }
    }
}

/// A text whose bytes end with those of an ASCII text ends with that text.
proof fn lemma_ascii_tail(line: Seq<char>, rest: Seq<u8>, z: Seq<char>)
    requires
        is_ascii_chars(z),
        encode_utf8(line) == rest + encode_utf8(z),
    ensures
        z.len() <= line.len(),
        line.skip(line.len() - z.len()) == z,
        encode_utf8(line.take(line.len() - z.len())) == rest,
    decreases z.len(),
{
    is_ascii_chars_encode_utf8(z);
    if z.len() == 0 {
        assert(rest + encode_utf8(z) =~= rest);
        assert(line.take(line.len() as int) =~= line);
        assert(line.skip(line.len() as int) =~= z);
    } else {
        let bytes = encode_utf8(line);
        assert(bytes.last() == encode_utf8(z).last());
        assert(line.len() > 0);
        let front = line.drop_last();
        let c = line.last();
        assert(front + seq![c] =~= line);
        lemma_encode_concat(front, seq![c]);
        lemma_one_char(c);
        lemma_char_bytes(c);
        assert(encode_utf8(z).last() == z.last() as u8);
        assert(z.last() == z[z.len() - 1]);
        lemma_ascii_is_small(z.last());
        lemma_same_char(c, z.last());
        let y = z.drop_last();
        assert(is_ascii_chars(y)) by {
            assert forall|k: int| 0 <= k < y.len() implies '\0' <= #[trigger] y[k] <= '\u{7f}' by {
                assert(y[k] == z[k]);
            }
        }
        assert(y + seq![c] =~= z);
        lemma_encode_concat(y, seq![c]);
        assert(encode_utf8(front) =~= rest + encode_utf8(y)) by {
            assert(bytes =~= (rest + encode_utf8(y)) + encode_scalar(c as u32));
            assert(bytes.drop_last() =~= encode_utf8(front));
            assert(bytes.drop_last() =~= rest + encode_utf8(y));
        }
        lemma_ascii_tail(front, rest, y);
        assert(front.take(front.len() - y.len()) =~= line.take(line.len() - z.len()));
        assert(line.skip(line.len() - z.len()) =~= front.skip(front.len() - y.len()).push(c));
        assert(y.push(c) =~= z);
    }
}

/// A line of the wire starts and ends as an object does, with its path first.
proof fn lemma_wire_ends(path: Seq<char>, n: u64, text: Seq<char>, score: Seq<u8>, ctx: bool)
    requires
        is_json_number(score),
    ensures
        ({
            let w = wire_line(path, n, text, score, ctx);
            w.len() > 10 && w.last() == 125u8 && w.take(9) == encode_utf8("{\"path\":\""@)
        }),
{
    let w = wire_line(path, n, text, score, ctx);
    lemma_wire_line(path, n, text, score, ctx);
    reveal_strlit("{\"path\":\"");
    reveal_strlit("\",\"line\":");
    reveal_strlit("}\n");
    reveal_strlit(",\"ctx\":true}\n");
    is_ascii_chars_encode_utf8("{\"path\":\""@);
    is_ascii_chars_encode_utf8("\",\"line\":"@);
    is_ascii_chars_encode_utf8("}\n"@);
    is_ascii_chars_encode_utf8(",\"ctx\":true}\n"@);
    assert(w.take(9) =~= encode_utf8("{\"path\":\""@));
}

proof fn lemma_decimal_bytes(n: nat)
    ensures
        encode_utf8(decimal(n)) == digits(n),
    decreases n,
{
    lemma_decimal(n);
    is_ascii_chars_encode_utf8(decimal(n));
    if n >= 10 {
        lemma_decimal_bytes(n / 10);
        lemma_decimal(n / 10);
        is_ascii_chars_encode_utf8(decimal(n / 10));
    }
    assert(encode_utf8(decimal(n)) =~= digits(n));
}

/// The last line of a reply, without its newline.
spec fn done_text(ms: u64, ctx: bool, verify_error: bool) -> Seq<char> {
    "{\"done\":true,\"ms\":"@ + decimal(ms as nat) + (if ctx {
        ",\"ctx\":true"@
    } else {
        Seq::empty()
    }) + (if verify_error {
        ",\"verify_error\":true"@
    } else {
        Seq::empty()
    }) + "}"@
}

proof fn lemma_done_bytes(ms: u64, ctx: bool, verify_error: bool)
    ensures
        encode_utf8(done_text(ms, ctx, verify_error).push('\n')) == done_line_of(ms, ctx, verify_error),
{
    let a = "{\"done\":true,\"ms\":"@;
    let b = decimal(ms as nat);
    let c = if ctx {
        ",\"ctx\":true"@
    } else {
        Seq::empty()
    };
    let d = if verify_error {
        ",\"verify_error\":true"@
    } else {
        Seq::empty()
    };
    reveal_strlit("}");
    reveal_strlit("}\n");
    let e = "}\n"@;
    assert(done_text(ms, ctx, verify_error).push('\n') =~= a + b + c + d + e);
    lemma_encode_concat(a + b + c + d, e);
    lemma_encode_concat(a + b + c, d);
    lemma_encode_concat(a + b, c);
    lemma_encode_concat(a, b);
    lemma_decimal_bytes(ms as nat);
    assert(encode_utf8(Seq::<char>::empty()) =~= Seq::<u8>::empty());
}

/// The last line that a daemon writes is read as the end of the reply, with the same
/// word on context and on files that could not be read.
pub proof fn law_done_line_reads_back(line: Seq<char>, ms: u64, ctx: bool, verify_error: bool, ctx_on: bool)
    requires
        encode_utf8(line) == done_line_of(ms, ctx, verify_error),
    ensures
        reply_line(line, ctx_on) == (ReplyView::Done { ctx, verify_error }),
{
    let t = done_text(ms, ctx, verify_error);
    lemma_done_bytes(ms, ctx, verify_error);
    lemma_same_bytes(line, t.push('\n'));
    reveal_strlit("{\"done\":true,\"ms\":");
    reveal_strlit(",\"ctx\":true");
    reveal_strlit(",\"verify_error\":true");
    reveal_strlit("}");
    reveal_strlit("{\"done\":");
    reveal_strlit("\"ctx\":true");
    reveal_strlit("\"verify_error\"");
    lemma_decimal(ms as nat);
    lemma_trim_newline(t);
    let a = 18 + decimal(ms as nat).len() as int;
    assert(t.subrange(0, 8) =~= "{\"done\":"@);
    assert(text_at(t, 0, "{\"done\":"@));
    if ctx {
        assert(t.subrange(a + 1, a + 11) =~= "\"ctx\":true"@);
        assert(text_at(t, a + 1, "\"ctx\":true"@));
    } else {
        assert forall|i: int| 0 <= i < t.len() implies #[trigger] t[i] != 'c' by {
            if 18 <= i < a {
                assert(t[i] == decimal(ms as nat)[i - 18]);
            }
        }
        assert forall|i: int| !#[trigger] text_at(t, i, "\"ctx\":true"@) by {
            if text_at(t, i, "\"ctx\":true"@) {
                assert(t.subrange(i, i + 10)[1] == t[i + 1]);
            }
        }
    }
    if verify_error {
        let b = if ctx {
            a + 11
        } else {
            a
        };
        assert(t.subrange(b + 1, b + 15) =~= "\"verify_error\""@);
        assert(text_at(t, b + 1, "\"verify_error\""@));
    } else {
        assert forall|i: int| 0 <= i < t.len() implies #[trigger] t[i] != 'v' by {
            if 18 <= i < a {
                assert(t[i] == decimal(ms as nat)[i - 18]);
            }
        }
        assert forall|i: int| !#[trigger] text_at(t, i, "\"verify_error\""@) by {
            if text_at(t, i, "\"verify_error\""@) {
                assert(t.subrange(i, i + 14)[1] == t[i + 1]);
            }
        }
    }
}

/// A refusal that a daemon writes is read with the reason that was written, whatever it
/// says.
pub proof fn law_refusal_reads_back(line: Seq<char>, why: Seq<char>, ctx_on: bool)
    requires
        encode_utf8(line) == refusal_line_of(why),
    ensures
        reply_line(line, ctx_on) == ReplyView::Refused(why),
{
    let a = "{\"error\":\""@;
    let z = "\"}\n"@;
    let tail = "\"}"@;
    let inner = json_bytes(encode_utf8(why));
    reveal_strlit("{\"error\":\"");
    reveal_strlit("\"}\n");
    reveal_strlit("\"}");
    reveal_strlit("{\"done\":");
    is_ascii_chars_encode_utf8(a);
    is_ascii_chars_encode_utf8(z);
    assert(encode_utf8(a) + (inner + encode_utf8(z)) =~= encode_utf8(line));
    lemma_ascii_head(line, a, inner + encode_utf8(z));
    let mid = line.skip(a.len() as int);
    lemma_ascii_tail(mid, inner, z);
    let text = mid.take(mid.len() - z.len());
    let t = a + text + tail;
    assert(line =~= a + mid);
    assert(mid =~= text + z);
    assert(line =~= t.push('\n'));
    lemma_trim_newline(t);
    assert(t.subrange(0, 10) =~= a);
    assert(text_at(t, 0, a));
    assert(!text_at(t, 0, "{\"done\":"@)) by {
        if text_at(t, 0, "{\"done\":"@) {
            assert(t.subrange(0, 8)[2] == t[2]);
        }
    }
    let rest = t.skip(a.len() as int);
    assert(rest =~= text + tail);
    assert(tail =~= rest.subrange(rest.len() - tail.len(), rest.len() as int));
    assert(rest.take(rest.len() - tail.len()) =~= text);
    law_escaped_json_reads_back(encode_utf8(why));
    vstd::utf8::encode_utf8_valid_utf8(why);
    vstd::utf8::encode_utf8_decode_utf8(why);
}

/// A line that a daemon writes for a hit is read as a hit, and one for context as
/// context where that was asked for, whatever path and text say; it never ends a reply.
/// The mark of a context line is read by an outside call, which gives back what was
/// written.
pub proof fn law_hit_line_reads_back(
    line: Seq<char>,
    path: Seq<char>,
    n: u64,
    text: Seq<char>,
    score: Seq<u8>,
    ctx: bool,
    ctx_on: bool,
    s: ReplyState,
)
    requires
        encode_utf8(line) == wire_line(path, n, text, score, ctx).push(10u8),
        is_json_number(score),
        ctx_on ==> mark_reads_back(encode_utf8(trimmed(line))),
    ensures
        reply_line(line, ctx_on) == (if ctx_on && ctx {
            ReplyView::Context
        } else {
            ReplyView::Hit
        }),
        probe_step_of(s, line, ctx_on) == ProbeStep::More,
{
    let bytes = wire_line(path, n, text, score, ctx);
    let a = "{\"path\":\""@;
    reveal_strlit("{\"path\":\"");
    reveal_strlit("{\"done\":");
    reveal_strlit("{\"error\":\"");
    is_ascii_chars_encode_utf8(a);
    lemma_wire_ends(path, n, text, score, ctx);
    let z = "}\n"@;
    reveal_strlit("}\n");
    is_ascii_chars_encode_utf8(z);
    let front = bytes.drop_last();
    assert(encode_utf8(z) =~= seq![125u8, 10u8]);
    assert(encode_utf8(line) =~= front + encode_utf8(z));
    lemma_ascii_tail(line, front, z);
    let rest = encode_utf8(line).skip(9);
    assert(encode_utf8(line) =~= encode_utf8(a) + rest);
    lemma_ascii_head(line, a, rest);
    let t = line.drop_last();
    assert(line[line.len() - 2] == z[0] && line[line.len() - 1] == z[1]);
    assert(line =~= t.push('\n'));
    assert(t[0] == a[0] && t[1] == a[1] && t[2] == a[2]);
    reveal_strlit("{\"path\":");
    assert(text_at(t, 0, "{\"path\":"@)) by {
        assert forall|k: int| 0 <= k < 8 implies t[k] == a[k] by {
            assert(line.take(9)[k] == line[k]);
        }
        assert(t.subrange(0, 8) =~= "{\"path\":"@);
    }
    lemma_trim_newline(t);
    assert(!text_at(t, 0, "{\"done\":"@)) by {
        if text_at(t, 0, "{\"done\":"@) {
            assert(t.subrange(0, 8)[2] == t[2]);
        }
    }
    assert(!text_at(t, 0, "{\"error\":\""@)) by {
        if text_at(t, 0, "{\"error\":\""@) {
            assert(t.subrange(0, 10)[2] == t[2]);
        }
    }
    lemma_encode_concat(t, seq!['\n']);
    assert(t + seq!['\n'] =~= line);
    lemma_one_char('\n');
    lemma_char_bytes('\n');
    assert(encode_utf8(line).drop_last() =~= bytes);
    assert(encode_utf8(line).drop_last() =~= encode_utf8(t));
}

/// What a reply holds after lines.
pub open spec fn reply_after_all(s: ReplyState, lines: Seq<Seq<char>>, ctx_on: bool) -> ReplyState
    decreases lines.len(),
{
    if lines.len() == 0 {
        s
    } else {
        reply_after(reply_after_all(s, lines.drop_last(), ctx_on), lines.last(), ctx_on)
    }
}

/// The reply of which nothing was read yet.
pub open spec fn fresh_reply() -> ReplyState {
    ReplyState { raw: Seq::empty(), matches: 0, refused: None, ctx_echo: false, verify_error: false }
}

/// Number of lines that count as hits.
pub open spec fn hits_among(hits: Seq<WireView>, ctx_on: bool) -> nat
    decreases hits.len(),
{
    if hits.len() == 0 {
        0
    } else {
        hits_among(hits.drop_last(), ctx_on) + (if ctx_on && hits.last().ctx {
            0nat
        } else {
            1
        })
    }
}

/// The lines are those that a daemon writes for the hits.
pub open spec fn are_wire_texts(lines: Seq<Seq<char>>, hits: Seq<WireView>, scores: Seq<Seq<u8>>) -> bool {
    &&& lines.len() == hits.len() == scores.len()
    &&& forall|k: int|
        0 <= k < lines.len() ==> encode_utf8(#[trigger] lines[k]) == wire_line(
            hits[k].path,
            hits[k].line,
            hits[k].text,
            scores[k],
            hits[k].ctx,
        ).push(10u8) && is_json_number(scores[k])
}

proof fn lemma_hits_kept(lines: Seq<Seq<char>>, hits: Seq<WireView>, scores: Seq<Seq<u8>>, ctx_on: bool)
    requires
        are_wire_texts(lines, hits, scores),
        ctx_on ==> forall|k: int| 0 <= k < lines.len() ==> mark_reads_back(encode_utf8(trimmed(#[trigger] lines[k]))),
    ensures
        reply_after_all(fresh_reply(), lines, ctx_on) == (ReplyState {
            raw: wire_bytes(hits, scores),
            matches: hits_among(hits, ctx_on),
            ..fresh_reply()
        }),
    decreases lines.len(),
{
    if lines.len() > 0 {
        let last = lines.len() - 1;
        let h = hits[last];
        let front = lines.drop_last();
        assert forall|k: int| 0 <= k < front.len() implies #[trigger] front[k] == lines[k] by {}
        assert(are_wire_texts(front, hits.drop_last(), scores.drop_last())) by {
            assert forall|k: int| 0 <= k < front.len() implies encode_utf8(#[trigger] front[k]) == wire_line(
                hits.drop_last()[k].path,
                hits.drop_last()[k].line,
                hits.drop_last()[k].text,
                scores.drop_last()[k],
                hits.drop_last()[k].ctx,
            ).push(10u8) && is_json_number(scores.drop_last()[k]) by {
                assert(front[k] == lines[k]);
            }
        }
        lemma_hits_kept(front, hits.drop_last(), scores.drop_last(), ctx_on);
        assert(lines[last] == lines.last());
        law_hit_line_reads_back(lines[last], h.path, h.line, h.text, scores[last], h.ctx, ctx_on, fresh_reply());
    }
}

/// A client that reads what a daemon writes, line by line to its end, holds the lines of
/// the hits as they were written, counts every hit, and learns what the last line says.
pub proof fn law_written_reply_is_kept(
    lines: Seq<Seq<char>>,
    hits: Seq<WireView>,
    scores: Seq<Seq<u8>>,
    done: Seq<char>,
    ms: u64,
    ctx: bool,
    verify_error: bool,
    ctx_on: bool,
)
    requires
        are_wire_texts(lines, hits, scores),
        encode_utf8(done) == done_line_of(ms, ctx, verify_error),
        ctx_on ==> forall|k: int| 0 <= k < lines.len() ==> mark_reads_back(encode_utf8(trimmed(#[trigger] lines[k]))),
    ensures
        reply_after_all(fresh_reply(), lines.push(done), ctx_on) == (ReplyState {
            raw: wire_bytes(hits, scores),
            matches: hits_among(hits, ctx_on),
            refused: None,
            ctx_echo: ctx,
            verify_error,
        }),
        probe_step_of(reply_after_all(fresh_reply(), lines, ctx_on), done, ctx_on) == (if ctx_on && !ctx {
            ProbeStep::Miss
        } else {
            ProbeStep::Done
        }),
{
    lemma_hits_kept(lines, hits, scores, ctx_on);
    law_done_line_reads_back(done, ms, ctx, verify_error, ctx_on);
    assert(lines.push(done).drop_last() =~= lines);
}

/// A probe takes a reply for complete only at a line that ends it, and a line that starts
/// with a path never does.
pub proof fn law_cut_reply_is_not_complete(s: ReplyState, line: Seq<char>, ctx_on: bool)
    ensures
        probe_step_of(s, line, ctx_on) == ProbeStep::Done ==> is_done_line(trimmed(line)) && !text_at(
            trimmed(line),
            0,
            "{\"path\":"@,
        ),
{
    let t = trimmed(line);
    reveal_strlit("{\"done\":");
    reveal_strlit("{\"path\":");
    if text_at(t, 0, "{\"path\":"@) && text_at(t, 0, "{\"done\":"@) {
        assert(t.subrange(0, 8)[2] == t[2]);
    }
}

/// What a line of a reply is: nothing if it is blank; the end of the reply if it opens as one
/// or says so; the refusal of the query if it opens as one or gives a reason; and otherwise a
/// line of a hit, or of context where that was asked for and the line says so. A line that
/// opens with a path neither ends a reply nor refuses anything.
pub proof fn law_reply_lines_are_told_apart(line: Seq<char>, ctx_on: bool)
    requires
        trimmed(line).len() > 0,
    ensures
        reply_line(line, ctx_on) is Done <==> text_at(trimmed(line), 0, "{\"done\":"@) || (!text_at(
            trimmed(line),
            0,
            "{\"path\":"@,
        ) && !text_at(trimmed(line), 0, "{\"error\":\""@) && json_bool_member(encode_utf8(trimmed(line)), "done"@)
            == Some(true)),
        reply_line(line, ctx_on) is Refused <==> !(reply_line(line, ctx_on) is Done) && (text_at(
            trimmed(line),
            0,
            "{\"error\":\""@,
        ) || (!text_at(trimmed(line), 0, "{\"path\":"@) && json_str_member(encode_utf8(trimmed(line)), "error"@) is Some)),
        text_at(trimmed(line), 0, "{\"path\":"@) ==> reply_line(line, ctx_on) is Hit || reply_line(
            line,
            ctx_on,
        ) is Context,
        reply_line(line, ctx_on) is Context ==> ctx_on && json_bool_member(encode_utf8(trimmed(line)), "ctx"@) == Some(true),
        !ctx_on ==> !(reply_line(line, ctx_on) is Context),
        !(reply_line(line, ctx_on) is Blank),
{
    let t = trimmed(line);
    reveal_strlit("{\"done\":");
    reveal_strlit("{\"path\":");
    reveal_strlit("{\"error\":\"");
    if text_at(t, 0, "{\"path\":"@) {
        assert(t.subrange(0, 8)[2] == t[2]);
        if text_at(t, 0, "{\"error\":\""@) {
            assert(t.subrange(0, 10)[2] == t[2]);
        }
    }
}

/// A hit adds its line and counts, context adds its line alone, a refusal keeps its reason,
/// and the end of a reply keeps its marks; nothing else changes.
pub proof fn law_reply_keeps_what_it_reads(s: ReplyState, line: Seq<char>, ctx_on: bool)
    ensures
        ({
            let n = reply_after(s, line, ctx_on);
            &&& n.raw == (if reply_line(line, ctx_on) is Hit || reply_line(line, ctx_on) is Context {
                s.raw + encode_utf8(line)
            } else {
                s.raw
            })
            &&& n.matches == (if reply_line(line, ctx_on) is Hit {
                s.matches + 1
            } else {
                s.matches
            })
            &&& reply_line(line, ctx_on) matches ReplyView::Refused(why) ==> n.refused == Some(why)
            &&& !(reply_line(line, ctx_on) is Refused) ==> n.refused == s.refused
            &&& n.verify_error <==> s.verify_error || (reply_line(line, ctx_on) matches ReplyView::Done {
                ctx,
                verify_error,
            } && verify_error)
            &&& n.ctx_echo <==> s.ctx_echo || (reply_line(line, ctx_on) matches ReplyView::Done { ctx, verify_error } && ctx)
        }),
{
}

/// A probe is a miss if the query is refused or context was asked for and not given, and done
/// at the end of any other reply.
pub proof fn law_probe_misses_what_it_cannot_use(s: ReplyState, line: Seq<char>, ctx_on: bool)
    ensures
        probe_step_of(s, line, ctx_on) == ProbeStep::More <==> !(reply_line(line, ctx_on) is Refused) && !(reply_line(
            line,
            ctx_on,
        ) is Done),
        probe_step_of(s, line, ctx_on) == ProbeStep::Miss <==> reply_line(line, ctx_on) is Refused || (reply_line(
            line,
            ctx_on,
        ) is Done && ctx_on && !reply_after(s, line, ctx_on).ctx_echo),
{
}

} // verus!
