//! Compiling patterns and finding the lines and spans that match.

use crate::grams::{all_pattern_grams, branches, is_word_char, occurs_in, pattern_grams};
use crate::lines::{has_early_nul, has_utf16_mark, is_binary, line_count, line_of};
use crate::patterns::{alternation, combined, is_plain_word, is_pure_literal, law_plain_word_is_one_run};
use crate::shape::{
    alternation_shape, can_match, can_match_some, finds_shape, holds_runs, is_plain_shape, is_shaped,
    law_alternation_holds_runs, law_match_holds_runs, law_plain_pattern_has_shape, lemma_alternation_shape,
    shape_text, Shape,
};
use grep_matcher::Matcher;
use grep_regex::{RegexMatcher, RegexMatcherBuilder};
use grep_searcher::{sinks, SearcherBuilder};
use vstd::prelude::*;
use vstd::utf8::{encode_utf8, is_ascii_chars};

verus! {

/// The compiled form of a pattern, opaque here.
#[verifier::external_type_specification]
#[verifier::external_body]
pub struct ExRegexMatcher(RegexMatcher);

/// How a pattern is compiled.
#[derive(Clone, Copy, Debug, PartialEq, Eq, Structural)]
pub struct MatcherConfig {
    /// Fold case.
    pub case_insensitive: bool,
    /// Match by Unicode characters.
    pub unicode: bool,
    /// The byte that no match may hold.
    pub line_terminator: Option<u8>,
    /// Take the pattern literally.
    pub fixed: bool,
    /// Match whole words only.
    pub word: bool,
}

/// A pattern that was compiled, with the settings it was compiled under. Only
/// `compile` makes one, so the compiled form is always that of the pattern.
pub struct LineMatcher {
    pattern: String,
    config: MatcherConfig,
    re: RegexMatcher,
}

impl View for LineMatcher {
    type V = (Seq<char>, MatcherConfig);

    closed spec fn view(&self) -> (Seq<char>, MatcherConfig) {
        (self.pattern@, self.config)
    }
}

/// A pattern that does not compile, and why.
pub struct PatternError {
    pub text: String,
}

// ---- compiling ----

/// Whether `RegexMatcherBuilder::build` compiles the pattern under these settings,
/// or the text of its error.
pub uninterp spec fn compile_outcome(pattern: Seq<char>, config: MatcherConfig) -> Result<(), Seq<char>>;

/// Compile a pattern. `grep_regex::RegexMatcherBuilder::build`, with the five
/// settings made on a fresh builder, depends on the pattern and the settings alone;
/// which patterns compile, and the text of an error, are not stated.
#[verifier::external_body]
fn compile(pattern: &str, config: MatcherConfig) -> (res: Result<LineMatcher, PatternError>)
    ensures
        match res {
            Ok(m) => m@ == (pattern@, config) && compile_outcome(pattern@, config) is Ok,
            Err(e) => compile_outcome(pattern@, config) == Err::<(), Seq<char>>(e.text@),
        },
{
    let mut b = RegexMatcherBuilder::new();
    b.case_insensitive(config.case_insensitive).unicode(config.unicode);
    b.line_terminator(config.line_terminator).fixed_strings(config.fixed).word(config.word);
    match b.build(pattern) {
        Ok(re) => Ok(LineMatcher { pattern: pattern.to_owned(), config, re }),
        Err(e) => Err(PatternError { text: e.to_string() }),
    }
}

/// The settings of a fresh builder.
pub open spec fn plain_config() -> MatcherConfig {
    MatcherConfig { case_insensitive: false, unicode: true, line_terminator: None, fixed: false, word: false }
}

/// Lines end at a newline under these settings.
pub open spec fn searches_lines(c: MatcherConfig) -> bool {
    c.line_terminator is None || c.line_terminator == Some(10u8)
}

/// The settings to try, best first. ASCII patterns go without Unicode tables and
/// with the line terminator set; folding case keeps the tables, so that it folds
/// every script. Later attempts drop what only makes a search faster, never the
/// word, literal or case setting that was asked for.
pub open spec fn config_attempts(pattern: Seq<char>, case_insensitive: bool, word: bool, fixed: bool) -> Seq<
    MatcherConfig,
> {
    let asked = word || fixed;
    let ascii_only = is_ascii_chars(pattern) && !case_insensitive && !word;
    let literal = if asked {
        fixed
    } else {
        is_plain_word(pattern)
    };
    let first = MatcherConfig {
        case_insensitive,
        unicode: !ascii_only,
        line_terminator: if ascii_only {
            Some(10u8)
        } else {
            None
        },
        fixed: literal,
        word,
    };
    let second = MatcherConfig { unicode: false, fixed: literal, word, ..plain_config() };
    let last = MatcherConfig { case_insensitive, fixed, word, ..plain_config() };
    (if asked || case_insensitive || ascii_only || literal {
        seq![first]
    } else {
        Seq::empty()
    }) + (if ascii_only {
        seq![second]
    } else {
        Seq::empty()
    }) + seq![last]
}

/// The first attempt that compiles is used; when none does, the error is that of
/// the last.
pub open spec fn built_from(
    res: Result<LineMatcher, PatternError>,
    pattern: Seq<char>,
    attempts: Seq<MatcherConfig>,
) -> bool {
    match res {
        Ok(m) => exists|k: int|
            0 <= k < attempts.len() && m@ == (pattern, #[trigger] attempts[k]) && compile_outcome(
                pattern,
                attempts[k],
            ) is Ok && forall|j: int| 0 <= j < k ==> compile_outcome(pattern, #[trigger] attempts[j]) is Err,
        Err(e) => (forall|j: int|
            0 <= j < attempts.len() ==> compile_outcome(pattern, #[trigger] attempts[j]) is Err) && compile_outcome(
            pattern,
            attempts.last(),
        ) == Err::<(), Seq<char>>(e.text@),
    }
}

/// Compile under the first settings that work.
fn compile_first(pattern: &str, attempts: &[MatcherConfig]) -> (res: Result<LineMatcher, PatternError>)
    requires
        attempts@.len() > 0,
    ensures
        built_from(res, pattern@, attempts@),
{
    let mut k: usize = 0;
    while k < attempts.len() - 1
        invariant
            k < attempts@.len(),
            forall|j: int| 0 <= j < k ==> compile_outcome(pattern@, #[trigger] attempts@[j]) is Err,
        decreases attempts@.len() - k,
    {
        if let Ok(m) = compile(pattern, attempts[k]) {
            assert(m@ == (pattern@, attempts@[k as int]));
            return Ok(m);
        }
        k = k + 1;
    }
    let last: Result<LineMatcher, PatternError> = compile(pattern, attempts[k]);
    assert(attempts@[k as int] == attempts@.last());
    last
}

/// Compile a pattern for a query without word or literal setting.
pub fn build_matcher(pattern: &str, case_insensitive: bool) -> (res: Result<LineMatcher, PatternError>)
    ensures
        built_from(res, pattern@, config_attempts(pattern@, case_insensitive, false, false)),
        res matches Ok(m) ==> searches_lines(m@.1),
{
    build_matcher_opts(pattern, case_insensitive, false, false)
}

/// Compile a pattern under the settings of a query.
pub fn build_matcher_opts(pattern: &str, case_insensitive: bool, word: bool, fixed: bool) -> (res: Result<
    LineMatcher,
    PatternError,
>)
    ensures
        built_from(res, pattern@, config_attempts(pattern@, case_insensitive, word, fixed)),
        res matches Ok(m) ==> searches_lines(m@.1),
{
    let asked: bool = word || fixed;
    let ascii_only: bool = pattern.is_ascii() && !case_insensitive && !word;
    let literal: bool = if asked {
        fixed
    } else {
        is_pure_literal(pattern)
    };
    let mut attempts: Vec<MatcherConfig> = Vec::new();
    let line_terminator: Option<u8> = if ascii_only {
        Some(10u8)
    } else {
        None
    };
    if asked || case_insensitive || ascii_only || literal {
        attempts.push(MatcherConfig { case_insensitive, unicode: !ascii_only, line_terminator, fixed: literal, word });
    }
    if ascii_only {
        attempts.push(
            MatcherConfig { case_insensitive: false, unicode: false, line_terminator: None, fixed: literal, word },
        );
    }
    attempts.push(MatcherConfig { case_insensitive, unicode: true, line_terminator: None, fixed, word });
    assert(attempts@ =~= config_attempts(pattern@, case_insensitive, word, fixed));
    compile_first(pattern, &attempts)
}

/// Every attempt keeps the word and case settings that were asked for, takes a pattern
/// literally only where that was asked for or makes no difference, and searches lines
/// that end at a newline.
pub proof fn law_attempts_keep_settings(
    pattern: Seq<char>,
    case_insensitive: bool,
    word: bool,
    fixed: bool,
    k: int,
)
    requires
        0 <= k < config_attempts(pattern, case_insensitive, word, fixed).len(),
    ensures
        ({
            let c = config_attempts(pattern, case_insensitive, word, fixed)[k];
            c.word == word && (fixed ==> c.fixed) && (c.fixed ==> fixed || is_plain_word(pattern)) && c.case_insensitive
                == case_insensitive && searches_lines(c)
        }),
{
}

// ---- searching ----

/// The buffer begins with a byte order mark.
pub open spec fn has_byte_order_mark(buf: Seq<u8>) -> bool {
    has_utf16_mark(buf) || (buf.len() >= 3 && buf[0] == 0xefu8 && buf[1] == 0xbbu8 && buf[2] == 0xbfu8)
}

/// Found lines as numbers and bytes.
pub open spec fn lines_view(lines: Seq<(u64, Vec<u8>)>) -> Seq<(u64, Seq<u8>)> {
    Seq::new(lines.len(), |k: int| (lines[k].0, lines[k].1@))
}

/// The outcome of a search as numbers and bytes.
pub open spec fn found_view(res: Option<Vec<(u64, Vec<u8>)>>) -> Option<Seq<(u64, Seq<u8>)>> {
    match res {
        Some(lines) => Some(lines_view(lines@)),
        None => None,
    }
}

/// The found lines are lines of the buffer, ascending, each at most once.
pub open spec fn are_lines_of(lines: Seq<(u64, Seq<u8>)>, buf: Seq<u8>) -> bool {
    &&& forall|k: int|
        0 <= k < lines.len() ==> 1 <= (#[trigger] lines[k]).0 <= line_count(buf) && lines[k].1 == line_of(
            buf,
            lines[k].0 as int,
        )
    &&& forall|j: int, k: int| 0 <= j < k < lines.len() ==> (#[trigger] lines[j]).0 < (#[trigger] lines[k]).0
}

/// Line `n` is among the found lines.
pub open spec fn has_line(lines: Seq<(u64, Seq<u8>)>, n: int) -> bool {
    exists|k: int| 0 <= k < lines.len() && (#[trigger] lines[k]).0 == n
}

/// Every line of the buffer is among the one or the other, and none among both.
pub open spec fn split_lines(a: Seq<(u64, Seq<u8>)>, b: Seq<(u64, Seq<u8>)>, buf: Seq<u8>) -> bool {
    forall|n: int| 1 <= n <= line_count(buf) ==> (#[trigger] has_line(a, n) <==> !has_line(b, n))
}

/// What `Searcher::search_slice` reports for a buffer: line numbers and lines, or
/// nothing when the search fails.
pub uninterp spec fn matched_lines(
    pattern: Seq<char>,
    config: MatcherConfig,
    invert: bool,
    buf: Seq<u8>,
) -> Option<Seq<(u64, Seq<u8>)>>;

/// Keep a reported line, and go on.
fn bank_line(lines: &mut Vec<(u64, Vec<u8>)>, number: u64, bytes: &[u8]) -> (more: bool)
    ensures
        lines_view(final(lines)@) == lines_view(old(lines)@).push((number, bytes@)),
        more,
{
    let ghost had = lines_view(lines@);
    let mut copy: Vec<u8> = Vec::new();
    copy.extend_from_slice(bytes);
    assert(copy@ =~= bytes@);
    lines.push((number, copy));
    assert(lines_view(lines@) =~= had.push((number, bytes@)));
    true
}

/// The lines of `buf`, which is not empty, that match, or, inverted, that do not.
/// `grep_searcher::Searcher::search_slice`, with the settings of a fresh builder
/// but for inversion and with `sinks::Bytes`, depends on the pattern, its settings
/// and the buffer alone. It fails only where the matcher was built for other lines than
/// those that a newline ends. Without a byte order mark at its head the buffer is
/// searched as it stands, line by line: what is reported are its lines with their
/// terminator and their numbers, ascending, and an inverted search reports exactly the
/// lines that a plain one does not. A line matches a literal pattern only
/// if the pattern occurs in it. Of a regular expression as documented under the
/// syntax of `regex`, it matches only if some part of it could be a match: plain
/// characters match themselves, and what stands side by side, between `|`, in a
/// group or before `+` matches accordingly. A buffer in UTF-16 is left out there,
/// since it is searched decoded, and so is folded case. Which lines match is not
/// stated beyond that.
#[verifier::external_body]
fn search_slice(m: &LineMatcher, invert: bool, buf: &[u8]) -> (res: Option<Vec<(u64, Vec<u8>)>>)
    requires
        buf@.len() > 0,
    ensures
        searches_lines(m@.1) ==> res is Some,
        found_view(res) == matched_lines(m@.0, m@.1, invert, buf@),
        res matches Some(lines) ==> (!has_byte_order_mark(buf@) ==> are_lines_of(lines_view(lines@), buf@)),
        res matches Some(lines) ==> (!has_byte_order_mark(buf@) ==> (matched_lines(m@.0, m@.1, !invert, buf@) matches Some(
            others,
        ) && split_lines(lines_view(lines@), others, buf@))),
        res matches Some(lines) ==> (lines@.len() > 0 && !invert && !m@.1.case_insensitive && !has_utf16_mark(buf@)
            && m@.1.fixed ==> occurs_in(encode_utf8(m@.0), buf@)),
        res matches Some(lines) ==> (lines@.len() > 0 && !invert && !m@.1.case_insensitive && !has_utf16_mark(buf@)
            && !m@.1.fixed && (m@.1.unicode || is_ascii_chars(m@.0)) ==> finds_shape(m@.0, buf@)),
{
    let mut lines: Vec<(u64, Vec<u8>)> = Vec::new();
    let mut searcher = SearcherBuilder::new().invert_match(invert).build();
    let sink = sinks::Bytes(|number, bytes| Ok(bank_line(&mut lines, number, bytes)));
    match searcher.search_slice(&m.re, buf, sink) {
        Ok(()) => Some(lines),
        Err(_) => None,
    }
}

/// The lines that a search of a file gives: none for an empty or binary buffer, and
/// none when the search fails.
pub open spec fn searched(pattern: Seq<char>, config: MatcherConfig, invert: bool, buf: Seq<u8>) -> Seq<
    (u64, Seq<u8>),
> {
    if buf.len() == 0 || has_early_nul(buf) {
        Seq::empty()
    } else {
        match matched_lines(pattern, config, invert, buf) {
            Some(lines) => lines,
            None => Seq::empty(),
        }
    }
}

/// Every pattern of the query is literal or the text of a shape.
pub open spec fn shaped_query(patterns: Seq<Seq<char>>, fixed: bool) -> bool {
    patterns.len() >= 1 && forall|k: int| 0 <= k < patterns.len() ==> fixed || is_shaped(#[trigger] patterns[k])
}

/// The query is looked up by its trigrams.
pub open spec fn is_prunable(patterns: Seq<Seq<char>>, fixed: bool) -> bool {
    patterns.len() >= 1 && all_pattern_grams(patterns, fixed) is Some
}

proof fn lemma_prunable_is_shaped(patterns: Seq<Seq<char>>, fixed: bool)
    requires
        is_prunable(patterns, fixed),
    ensures
        shaped_query(patterns, fixed),
    decreases patterns.len(),
{
    if !fixed {
        let front = patterns.drop_last();
        assert(all_pattern_grams(front, fixed) is Some && pattern_grams(patterns.last(), fixed) is Some);
        law_plain_pattern_has_shape(patterns.last());
        if front.len() > 0 {
            lemma_prunable_is_shaped(front, fixed);
        }
        assert forall|k: int| 0 <= k < patterns.len() implies is_shaped(#[trigger] patterns[k]) by {
            if k < front.len() {
                assert(front[k] == patterns[k]);
            } else {
                assert(patterns[k] == patterns.last());
            }
        }
    }
}

/// The matcher is one that a case-keeping query for `patterns` compiles to.
pub open spec fn compiled_for(m: (Seq<char>, MatcherConfig), patterns: Seq<Seq<char>>, fixed: bool) -> bool {
    &&& m.0 == combined(patterns, fixed)
    &&& !m.1.case_insensitive
    &&& m.1.unicode || is_ascii_chars(m.0)
    &&& m.1.fixed ==> patterns.len() == 1 && (fixed || is_plain_word(m.0))
    &&& patterns.len() == 1 && fixed ==> m.1.fixed
}

/// A query that keeps case compiles to a matcher for it, whichever attempt succeeds.
pub proof fn law_query_compiles_for_itself(patterns: Seq<Seq<char>>, fixed: bool, word: bool, k: int)
    requires
        0 <= k < config_attempts(combined(patterns, fixed), false, word, fixed && patterns.len() == 1).len(),
    ensures
        compiled_for(
            (
                combined(patterns, fixed),
                config_attempts(combined(patterns, fixed), false, word, fixed && patterns.len() == 1)[k],
            ),
            patterns,
            fixed,
        ),
{
    let p = combined(patterns, fixed);
    if patterns.len() == 0 {
        assert(p.len() == 0);
    } else if patterns.len() > 1 {
        lemma_alternation_opens(patterns, fixed);
        assert(!is_plain_word(p));
    }
}

proof fn lemma_alternation_opens(patterns: Seq<Seq<char>>, fixed: bool)
    requires
        patterns.len() > 0,
    ensures
        alternation(patterns, fixed).len() > 0,
        !is_word_char(alternation(patterns, fixed)[0]),
    decreases patterns.len(),
{
    if patterns.len() > 1 {
        lemma_alternation_opens(patterns.drop_last(), fixed);
    }
}

proof fn lemma_found_can_match(m: (Seq<char>, MatcherConfig), buf: Seq<u8>, patterns: Seq<Seq<char>>, fixed: bool)
    requires
        shaped_query(patterns, fixed),
        compiled_for(m, patterns, fixed),
        m.1.fixed ==> occurs_in(encode_utf8(m.0), buf),
        !m.1.fixed ==> finds_shape(m.0, buf),
    ensures
        can_match_some(patterns, fixed, buf),
{
    if patterns.len() == 1 {
        let p = patterns[0];
        assert(fixed || is_shaped(patterns[0]));
        if m.1.fixed {
            if !fixed {
                law_plain_word_is_one_run(p);
                assert(branches(p)[0] == p);
                assert(holds_runs(branches(p)[0], buf));
            }
        } else {
            let s = choose|s: Shape| is_plain_shape(s) && #[trigger] shape_text(s) == p;
            law_match_holds_runs(s, buf);
        }
        assert(can_match(patterns[0], fixed, buf));
    } else {
        lemma_alternation_shape(patterns, fixed);
        let s = alternation_shape(patterns, fixed);
        assert(m.0 == shape_text(s));
        law_alternation_holds_runs(patterns, fixed, buf);
    }
}

/// Search the bytes of a file. A query that keeps case, is not inverted and is looked up
/// by its trigrams finds lines only in a buffer that holds what a match of one of its
/// patterns needs, or that is searched decoded. A plain and an inverted search share the
/// lines of a buffer out between them.
pub fn search_bytes(m: &LineMatcher, buf: &[u8], invert: bool) -> (lines: Vec<(u64, Vec<u8>)>)
    ensures
        lines_view(lines@) == searched(m@.0, m@.1, invert, buf@),
        !has_byte_order_mark(buf@) ==> are_lines_of(lines_view(lines@), buf@),
        searches_lines(m@.1) && !has_early_nul(buf@) && !has_byte_order_mark(buf@) ==> split_lines(
            lines_view(lines@),
            searched(m@.0, m@.1, !invert, buf@),
            buf@,
        ),
        lines@.len() > 0 && !invert && !has_utf16_mark(buf@) ==> forall|patterns: Seq<Seq<char>>, fixed: bool|
            is_prunable(patterns, fixed) && #[trigger] compiled_for(m@, patterns, fixed) ==> can_match_some(
                patterns,
                fixed,
                buf@,
            ),
{
    let none: Vec<(u64, Vec<u8>)> = Vec::new();
    assert(lines_view(none@) =~= Seq::empty());
    if buf.len() == 0 {
        return none;
    }
    if is_binary(buf) {
        return none;
    }
    match search_slice(m, invert, buf) {
        None => none,
        Some(lines) => {
            proof {
                if lines@.len() > 0 && !invert && !has_utf16_mark(buf@) {
                    assert forall|patterns: Seq<Seq<char>>, fixed: bool| is_prunable(patterns, fixed)
                        && #[trigger] compiled_for(m@, patterns, fixed) implies can_match_some(
                        patterns,
                        fixed,
                        buf@,
                    ) by {
                        lemma_prunable_is_shaped(patterns, fixed);
                        lemma_found_can_match(m@, buf@, patterns, fixed);
                    }
                }
            }
            lines
        },
    }
}

// ---- spans ----

/// What `Matcher::find_iter` reports for a text: the successive matches.
pub uninterp spec fn found_spans(pattern: Seq<char>, config: MatcherConfig, text: Seq<u8>) -> Seq<(usize, usize)>;

/// Spans lie within a text of length `n`, one after the other.
pub open spec fn spans_fit(spans: Seq<(usize, usize)>, n: nat) -> bool {
    &&& forall|k: int| 0 <= k < spans.len() ==> (#[trigger] spans[k]).0 <= spans[k].1 <= n
    &&& forall|j: int, k: int| 0 <= j < k < spans.len() ==> (#[trigger] spans[j]).1 <= (#[trigger] spans[k]).0
}

/// Keep a reported span, and go on.
fn bank_span(spans: &mut Vec<(usize, usize)>, start: usize, end: usize) -> (more: bool)
    ensures
        final(spans)@ == old(spans)@.push((start, end)),
        more,
{
    spans.push((start, end));
    true
}

/// The successive matches in a text. `grep_matcher::Matcher::find_iter` for a
/// `RegexMatcher` depends on the pattern, its settings and the text alone; its
/// matches lie within the text, in order and without overlap. Which they are is
/// not stated.
#[verifier::external_body]
pub(crate) fn find_spans(m: &LineMatcher, text: &[u8]) -> (spans: Vec<(usize, usize)>)
    ensures
        spans@ == found_spans(m@.0, m@.1, text@),
        spans_fit(spans@, text@.len()),
{
    let mut spans: Vec<(usize, usize)> = Vec::new();
    let _ = m.re.find_iter(text, |f| bank_span(&mut spans, f.start(), f.end()));
    spans
}

// ---- what is searched, and how ----

/// A buffer that is empty or holds a zero byte among its first 8192 has no lines; of any
/// other, the lines that the search reports are those that are found.
pub proof fn law_binary_files_have_no_hits(pattern: Seq<char>, config: MatcherConfig, invert: bool, buf: Seq<u8>)
    ensures
        buf.len() == 0 || (exists|i: int| 0 <= i < 8192 && i < buf.len() && #[trigger] buf[i] == 0) ==> searched(
            pattern,
            config,
            invert,
            buf,
        ).len() == 0,
        buf.len() > 0 && (forall|i: int| 0 <= i < 8192 && i < buf.len() ==> #[trigger] buf[i] != 0) && matched_lines(
            pattern,
            config,
            invert,
            buf,
        ) is Some ==> searched(pattern, config, invert, buf) == matched_lines(pattern, config, invert, buf)->Some_0,
{
}

/// There is always an attempt, and the last one is the pattern as it was given, with Unicode.
/// Unicode is left out only of patterns that it makes no difference to: ASCII, with case kept
/// and no word boundaries asked for.
pub proof fn law_last_attempt_is_the_plain_one(pattern: Seq<char>, case_insensitive: bool, word: bool, fixed: bool, k: int)
    requires
        0 <= k < config_attempts(pattern, case_insensitive, word, fixed).len(),
    ensures
        config_attempts(pattern, case_insensitive, word, fixed).len() > 0,
        config_attempts(pattern, case_insensitive, word, fixed).last() == (MatcherConfig {
            case_insensitive,
            unicode: true,
            line_terminator: None,
            fixed,
            word,
        }),
        !config_attempts(pattern, case_insensitive, word, fixed)[k].unicode ==> is_ascii_chars(pattern)
            && !case_insensitive && !word,
{
}

} // verus!
