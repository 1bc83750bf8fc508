//! The lexer: splits the two texts into typed segments.
//!
//! The document is split around its footnote-reference runs, the footnotes
//! around the numbers of their cross-references. Every byte of the input
//! lands in exactly one segment.

use crate::engine::{
    accepts, captures, captures_groups, find_iter, find_iter_spans, groups_of, pattern_accepted,
    spans_in_order,
};
use crate::failure::Failure;
use crate::text::{
    byte_len, bytes_of, is_span, lemma_span_empty, lemma_span_join, lemma_span_whole,
    on_boundary, slice, span_text,
};
use vstd::prelude::*;

verus! {

/// A run that introduces a footnote in the document. Its id may have any
/// number of digits.
pub const DOC_PATTERN: &'static str =
    r#"(<w:r><w:rPr><w:rStyle w:val="FootnoteReference" /></w:rPr><w:footnoteReference w:id=")([0-9]+)(" /></w:r>)"#;

/// A reference to one footnote, `note N`, or to a range of them,
/// `notes N-M`, where the dash is a hyphen or an en dash. A number is read
/// to its last digit, so that one too large for 32 bits is seen as such.
pub const FN_PATTERN: &'static str =
    "((>note )([0-9]+))|((>notes )([0-9]+)(-|\u{2013})([0-9]+))";

/// The two numbers of a range and the dash between them.
pub const RANGE_PATTERN: &'static str = "([0-9]+)(-|\u{2013})([0-9]+)";

/// The lexer that works through an input string: it keeps the byte offset
/// at which the next segment starts.
pub struct Lexer {
    pub start: usize,
}

impl Lexer {
    /// Creates a lexer that starts at offset 0.
    pub fn new() -> (lexer: Lexer)
        ensures
            lexer.start == 0,
    {
        Lexer { start: 0 }
    }
}

/// The types of tokens in the documents.
///
/// A `FootnoteRef` is the markup of a footnote reference in the document.
/// A `CrossRef` is the number by which the footnotes refer to another
/// footnote. Everything else is `Other`.
#[derive(Clone, Copy, Debug, PartialEq, Eq, Structural)]
pub enum TokenType {
    CrossRef,
    FootnoteRef,
    Other,
}

/// A token: its type and the slice of the input that it covers.
#[derive(Debug, PartialEq, Eq)]
pub struct Token<'a> {
    pub token_type: TokenType,
    pub contents: &'a str,
}

/// What a token stands for: its type and its characters.
pub struct Segment {
    pub kind: TokenType,
    pub text: Seq<char>,
}

impl<'a> View for Token<'a> {
    type V = Segment;

    open spec fn view(&self) -> Segment {
        Segment { kind: self.token_type, text: self.contents@ }
    }
}

impl<'a> Token<'a> {
    /// Creates a new [`Token`].
    pub fn new(token_type: TokenType, contents: &'a str) -> (token: Token<'a>)
        ensures
            token.token_type == token_type,
            token.contents == contents,
            token@ == (Segment { kind: token_type, text: contents@ }),
    {
        Token { token_type, contents }
    }
}

/// The segments that a list of tokens stands for.
pub open spec fn segments_of(tokens: Seq<Token>) -> Seq<Segment> {
    Seq::new(tokens.len(), |i: int| tokens[i]@)
}

/// The characters of all segments, in order.
pub open spec fn segments_text(segments: Seq<Segment>) -> Seq<char>
    decreases segments.len(),
{
    if segments.len() == 0 {
        Seq::empty()
    } else {
        segments_text(segments.drop_last()) + segments.last().text
    }
}

/// The segment of a given type that covers the bytes `[start, end)`.
pub open spec fn segment_at(kind: TokenType, text: Seq<char>, start: int, end: int) -> Segment {
    Segment { kind, text: span_text(text, start, end) }
}

/// Where the text before the `k`-th match starts: at the end of the match
/// before it.
pub open spec fn gap_start(spans: Seq<(usize, usize)>, k: int) -> int {
    if k <= 0 {
        0
    } else {
        spans[k - 1].1 as int
    }
}

/// Where the text before the `k`-th match ends; after the last match it
/// runs to the end of the text.
pub open spec fn gap_end(text: Seq<char>, spans: Seq<(usize, usize)>, k: int) -> int {
    if k >= spans.len() {
        bytes_of(text).len() as int
    } else {
        spans[k].0 as int
    }
}

/// The segments of a document whose footnote-reference runs are `spans`:
/// at odd places the runs, at even places the text around them.
pub open spec fn doc_segments(text: Seq<char>, spans: Seq<(usize, usize)>) -> Seq<Segment> {
    Seq::new(
        2 * spans.len() + 1,
        |i: int|
            if i % 2 == 1 {
                segment_at(TokenType::FootnoteRef, text, spans[i / 2].0 as int, spans[i / 2].1 as int)
            } else {
                segment_at(
                    TokenType::Other,
                    text,
                    gap_start(spans, i / 2),
                    gap_end(text, spans, i / 2),
                )
            },
    )
}

/// The text of a list of segments grows by the text of a segment added at
/// its end.
pub proof fn lemma_segments_text_push(segments: Seq<Segment>, last: Segment)
    ensures
        segments_text(segments.push(last)) == segments_text(segments) + last.text,
{
    assert(segments.push(last).drop_last() =~= segments);
}

/// The first `2k` segments of a document spell its text up to the end of
/// the `k`-th match.
pub proof fn lemma_doc_prefix_text(text: Seq<char>, spans: Seq<(usize, usize)>, k: int)
    requires
        spans_in_order(text, spans),
        0 <= k <= spans.len(),
    ensures
        is_span(text, 0, gap_start(spans, k)),
        segments_text(doc_segments(text, spans).subrange(0, 2 * k)) == span_text(
            text,
            0,
            gap_start(spans, k),
        ),
    decreases k,
{
    let all = doc_segments(text, spans);
    lemma_span_whole(text);
    if k == 0 {
        assert(all.subrange(0, 0) =~= Seq::<Segment>::empty());
        lemma_span_empty(text, 0);
    } else {
        lemma_doc_prefix_text(text, spans, k - 1);
        let before = all.subrange(0, 2 * (k - 1));
        let gap = all[2 * (k - 1)];
        let run = all[2 * (k - 1) + 1];
        assert(all.subrange(0, 2 * k) =~= before.push(gap).push(run));
        lemma_segments_text_push(before, gap);
        lemma_segments_text_push(before.push(gap), run);
        let from = gap_start(spans, k - 1);
        let (start, end) = spans[k - 1];
        if k > 1 {
            assert(spans[k - 2].1 <= spans[k - 1].0);
        }
        assert(is_span(text, start as int, end as int));
        assert(is_span(text, from, start as int));
        lemma_span_join(text, 0, from, start as int);
        lemma_span_join(text, 0, start as int, end as int);
    }
}

/// The segments of a document, read in order, spell the text from which
/// they were cut: no byte is lost, doubled or moved.
pub proof fn lemma_doc_segments_cover(text: Seq<char>, spans: Seq<(usize, usize)>)
    requires
        spans_in_order(text, spans),
    ensures
        segments_text(doc_segments(text, spans)) == text,
{
    let all = doc_segments(text, spans);
    let n = spans.len() as int;
    lemma_doc_prefix_text(text, spans, n);
    lemma_span_whole(text);
    let before = all.subrange(0, 2 * n);
    assert(all =~= before.push(all[2 * n]));
    lemma_segments_text_push(before, all[2 * n]);
    let from = gap_start(spans, n);
    if n > 0 {
        assert(is_span(text, spans[n - 1].0 as int, spans[n - 1].1 as int));
    }
    lemma_span_join(text, 0, from, bytes_of(text).len() as int);
}

/// Splits the document around the given footnote-reference runs.
///
/// The result starts and ends with an `Other` token, and `Other` and
/// `FootnoteRef` tokens alternate; without a run the single token is the
/// whole input.
pub fn lex_doc_from<'a>(input: &'a str, matches: &Vec<(usize, usize)>) -> (tokens: Vec<Token<'a>>)
    requires
        spans_in_order(input@, matches@),
    ensures
        segments_of(tokens@) == doc_segments(input@, matches@),
        segments_text(segments_of(tokens@)) == input@,
{
    let mut lexer = Lexer::new();
    let mut lex: Vec<Token<'a>> = Vec::new();
    let mut i: usize = 0;
    proof {
        lemma_span_whole(input@);
    }
    while i < matches.len()
        invariant
            i <= matches.len(),
            spans_in_order(input@, matches@),
            lexer.start == gap_start(matches@, i as int),
            is_span(input@, 0, lexer.start as int),
            lex.len() == 2 * i,
            forall|j: int|
                0 <= j < lex.len() ==> (#[trigger] lex[j])@ == doc_segments(input@, matches@)[j],
        decreases matches.len() - i,
    {
        let (start, end) = matches[i];
        proof {
            assert(is_span(input@, matches@[i as int].0 as int, matches@[i as int].1 as int));
            if i > 0 {
                assert(matches@[i - 1].1 <= matches@[i as int].0);
            }
        }
        // Close off the text that leads up to the run.
        lex.push(Token::new(TokenType::Other, slice(input, lexer.start, start)));
        // Then the run itself.
        lex.push(Token::new(TokenType::FootnoteRef, slice(input, start, end)));
        lexer.start = end;
        i = i + 1;
    }
    // What follows the last run closes the list.
    lex.push(Token::new(TokenType::Other, slice(input, lexer.start, byte_len(input))));
    proof {
        assert(segments_of(lex@) =~= doc_segments(input@, matches@));
        lemma_doc_segments_cover(input@, matches@);
    }
    lex
}

/// Lexes the contents of the document: finds the footnote-reference runs
/// and splits the text around them.
///
/// Succeeds on every text, unless the pattern engine turns the pattern
/// down.
pub fn lex_doc<'a>(doc_input: &'a str) -> (lexed: Result<Vec<Token<'a>>, Failure>)
    ensures
        lexed is Ok <==> pattern_accepted(DOC_PATTERN@),
        match lexed {
            Ok(tokens) => {
                &&& spans_in_order(doc_input@, find_iter_spans(DOC_PATTERN@, doc_input@))
                &&& segments_of(tokens@) == doc_segments(
                    doc_input@,
                    find_iter_spans(DOC_PATTERN@, doc_input@),
                )
                &&& segments_text(segments_of(tokens@)) == doc_input@
            },
            Err(failure) => failure == Failure::Pattern,
        },
{
    match find_iter(DOC_PATTERN, doc_input) {
        Ok(matches) => Ok(lex_doc_from(doc_input, &matches)),
        Err(_) => Err(Failure::Pattern),
    }
}

/// The lengths, in bytes, of the three parts of a range: the first number,
/// the dash, the second number.
#[derive(Clone, Copy, Debug, PartialEq, Eq)]
pub struct RangeParts {
    pub first: usize,
    pub dash: usize,
    pub second: usize,
}

/// A cross-reference found in the footnotes: the bytes `[start, end)` that
/// it covers, marker included, and the parts of its range if it is one.
#[derive(Clone, Copy, Debug, PartialEq, Eq)]
pub struct CrossMatch {
    pub start: usize,
    pub end: usize,
    pub range: Option<RangeParts>,
}

/// A hyphen or an en dash.
pub open spec fn is_dash(c: char) -> bool {
    c == '-' || c == '\u{2013}'
}

/// True when the text holds a hyphen or an en dash.
pub open spec fn contains_dash(text: Seq<char>) -> bool {
    exists|i: int| 0 <= i < text.len() && is_dash(#[trigger] text[i])
}

/// Where the first number of a cross-reference starts: after `>note `, or
/// after `>notes ` in a range.
pub open spec fn number_start(found: CrossMatch) -> int {
    if found.range is Some {
        found.start + 7
    } else {
        found.start + 6
    }
}

/// The segments that one cross-reference adds, `from` being the end of the
/// cross-reference before it: the text up to and including the marker, then
/// the number; for a range the first number, the dash as it stands, and the
/// second number.
pub open spec fn match_segments(text: Seq<char>, from: int, found: CrossMatch) -> Seq<Segment> {
    let first = number_start(found);
    match found.range {
        None => seq![
            segment_at(TokenType::Other, text, from, first),
            segment_at(TokenType::CrossRef, text, first, found.end as int),
        ],
        Some(parts) => {
            let dash = first + parts.first;
            let second = dash + parts.dash;
            seq![
                segment_at(TokenType::Other, text, from, first),
                segment_at(TokenType::CrossRef, text, first, dash),
                segment_at(TokenType::Other, text, dash, second),
                segment_at(TokenType::CrossRef, text, second, second + parts.second),
            ]
        },
    }
}

/// True when a cross-reference lies behind `from` and each of its segments
/// is a span of whole characters, the last of which ends where the
/// cross-reference ends.
pub open spec fn match_fits(text: Seq<char>, from: int, found: CrossMatch) -> bool {
    let first = number_start(found);
    &&& from <= found.start
    &&& is_span(text, from, first)
    &&& match found.range {
        None => is_span(text, first, found.end as int),
        Some(parts) => {
            let dash = first + parts.first;
            let second = dash + parts.dash;
            &&& is_span(text, first, dash)
            &&& is_span(text, dash, second)
            &&& is_span(text, second, found.end as int)
            &&& second + parts.second == found.end
        },
    }
}

/// Where the text before the `k`-th cross-reference starts.
pub open spec fn cross_start(found: Seq<CrossMatch>, k: int) -> int {
    if k <= 0 {
        0
    } else {
        found[k - 1].end as int
    }
}

/// True when the `k`-th cross-reference fits behind the one before it.
pub open spec fn fits_at(text: Seq<char>, found: Seq<CrossMatch>, k: int) -> bool {
    match_fits(text, cross_start(found, k), found[k])
}

/// True when every cross-reference fits behind the one before it.
pub open spec fn matches_fit(text: Seq<char>, found: Seq<CrossMatch>) -> bool {
    forall|k: int| 0 <= k < found.len() ==> #[trigger] fits_at(text, found, k)
}

/// The segments of the first `n` cross-references.
pub open spec fn fn_segments_upto(text: Seq<char>, found: Seq<CrossMatch>, n: int) -> Seq<Segment>
    decreases n,
{
    if n <= 0 {
        Seq::empty()
    } else {
        fn_segments_upto(text, found, n - 1) + match_segments(
            text,
            cross_start(found, n - 1),
            found[n - 1],
        )
    }
}

/// The segments of the footnotes whose cross-references are `found`: those
/// of each cross-reference in turn, then the text behind the last one.
pub open spec fn fn_segments(text: Seq<char>, found: Seq<CrossMatch>) -> Seq<Segment> {
    fn_segments_upto(text, found, found.len() as int).push(
        segment_at(
            TokenType::Other,
            text,
            cross_start(found, found.len() as int),
            bytes_of(text).len() as int,
        ),
    )
}

/// The text of two lists of segments, one after the other.
pub proof fn lemma_segments_text_add(left: Seq<Segment>, right: Seq<Segment>)
    ensures
        segments_text(left + right) == segments_text(left) + segments_text(right),
    decreases right.len(),
{
    if right.len() == 0 {
        assert(left + right =~= left);
    } else {
        lemma_segments_text_add(left, right.drop_last());
        assert((left + right).drop_last() =~= left + right.drop_last());
    }
}

/// The segments of a cross-reference that fits spell the text from the end
/// of the one before it to its own end.
pub proof fn lemma_match_segments_text(text: Seq<char>, from: int, found: CrossMatch)
    requires
        match_fits(text, from, found),
    ensures
        is_span(text, from, found.end as int),
        segments_text(match_segments(text, from, found)) == span_text(text, from, found.end as int),
{
    let first = number_start(found);
    let segments = match_segments(text, from, found);
    let none = Seq::<Segment>::empty();
    match found.range {
        None => {
            assert(segments =~= none.push(segments[0]).push(segments[1]));
            lemma_segments_text_push(none, segments[0]);
            lemma_segments_text_push(none.push(segments[0]), segments[1]);
            lemma_span_join(text, from, first, found.end as int);
        },
        Some(parts) => {
            let dash = first + parts.first;
            let second = dash + parts.dash;
            assert(segments =~= none.push(segments[0]).push(segments[1]).push(segments[2]).push(
                segments[3],
            ));
            lemma_segments_text_push(none, segments[0]);
            lemma_segments_text_push(none.push(segments[0]), segments[1]);
            lemma_segments_text_push(none.push(segments[0]).push(segments[1]), segments[2]);
            lemma_segments_text_push(
                none.push(segments[0]).push(segments[1]).push(segments[2]),
                segments[3],
            );
            lemma_span_join(text, from, first, dash);
            lemma_span_join(text, from, dash, second);
            lemma_span_join(text, from, second, found.end as int);
        },
    }
}

/// The segments of the first `n` cross-references spell the text up to the
/// end of the `n`-th.
pub proof fn lemma_fn_prefix_text(text: Seq<char>, found: Seq<CrossMatch>, n: int)
    requires
        matches_fit(text, found),
        0 <= n <= found.len(),
    ensures
        is_span(text, 0, cross_start(found, n)),
        segments_text(fn_segments_upto(text, found, n)) == span_text(
            text,
            0,
            cross_start(found, n),
        ),
    decreases n,
{
    lemma_span_whole(text);
    if n == 0 {
        lemma_span_empty(text, 0);
    } else {
        lemma_fn_prefix_text(text, found, n - 1);
        let from = cross_start(found, n - 1);
        assert(fits_at(text, found, n - 1));
        lemma_match_segments_text(text, from, found[n - 1]);
        lemma_segments_text_add(
            fn_segments_upto(text, found, n - 1),
            match_segments(text, from, found[n - 1]),
        );
        lemma_span_join(text, 0, from, found[n - 1].end as int);
    }
}

/// The segments of the footnotes, read in order, spell the text from which
/// they were cut: no byte is lost, doubled or moved.
pub proof fn lemma_fn_segments_cover(text: Seq<char>, found: Seq<CrossMatch>)
    requires
        matches_fit(text, found),
    ensures
        segments_text(fn_segments(text, found)) == text,
{
    let n = found.len() as int;
    lemma_fn_prefix_text(text, found, n);
    lemma_span_whole(text);
    lemma_segments_text_push(fn_segments_upto(text, found, n), fn_segments(text, found).last());
    lemma_span_join(text, 0, cross_start(found, n), bytes_of(text).len() as int);
}

/// The segments of the footnotes are text and cross-references: none is a
/// footnote reference.
pub proof fn lemma_fn_segments_kinds(text: Seq<char>, found: Seq<CrossMatch>, n: int)
    requires
        0 <= n <= found.len(),
    ensures
        forall|i: int|
            0 <= i < fn_segments_upto(text, found, n).len() ==> (#[trigger] fn_segments_upto(
                text,
                found,
                n,
            )[i]).kind != TokenType::FootnoteRef,
        forall|i: int|
            0 <= i < fn_segments(text, found).len() && n == found.len() ==> (#[trigger] fn_segments(
                text,
                found,
            )[i]).kind != TokenType::FootnoteRef,
    decreases n,
{
    if n > 0 {
        lemma_fn_segments_kinds(text, found, n - 1);
        let before = fn_segments_upto(text, found, n - 1);
        let added = match_segments(text, cross_start(found, n - 1), found[n - 1]);
        assert forall|i: int| 0 <= i < before.len() + added.len() implies (#[trigger] (before
            + added)[i]).kind != TokenType::FootnoteRef by {
            if i < before.len() {
                assert((before + added)[i] == before[i]);
            } else {
                assert((before + added)[i] == added[i - before.len()]);
            }
        }
    }
}

/// Tells whether a cross-reference fits behind the offset `from`.
pub fn fits(input: &str, from: usize, found: &CrossMatch) -> (yes: bool)
    ensures
        yes == match_fits(input@, from as int, *found),
{
    let len = byte_len(input);
    let marker: usize = if found.range.is_some() {
        7
    } else {
        6
    };
    if from > found.start || found.start > len || len - found.start < marker {
        return false;
    }
    let first = found.start + marker;
    if !on_boundary(input, from) || !on_boundary(input, first) {
        return false;
    }
    if first > found.end || !on_boundary(input, found.end) {
        return false;
    }
    match found.range {
        None => true,
        Some(parts) => {
            let rest = found.end - first;
            if parts.first > rest || parts.dash > rest - parts.first {
                return false;
            }
            let dash = first + parts.first;
            let second = dash + parts.dash;
            parts.second == found.end - second && on_boundary(input, dash) && on_boundary(
                input,
                second,
            )
        },
    }
}

/// Adds the tokens of one cross-reference that fits behind `from`.
fn push_match<'a>(lex: &mut Vec<Token<'a>>, input: &'a str, from: usize, found: &CrossMatch)
    requires
        match_fits(input@, from as int, *found),
    ensures
        segments_of(final(lex)@) == segments_of(old(lex)@) + match_segments(
            input@,
            from as int,
            *found,
        ),
{
    let first = if found.range.is_some() {
        found.start + 7
    } else {
        found.start + 6
    };
    // Close off the text that leads up to the number, marker included.
    lex.push(Token::new(TokenType::Other, slice(input, from, first)));
    match found.range {
        None => {
            lex.push(Token::new(TokenType::CrossRef, slice(input, first, found.end)));
        },
        Some(parts) => {
            let dash = first + parts.first;
            let second = dash + parts.dash;
            // The first number, the dash as it stands, the second number.
            lex.push(Token::new(TokenType::CrossRef, slice(input, first, dash)));
            lex.push(Token::new(TokenType::Other, slice(input, dash, second)));
            lex.push(Token::new(TokenType::CrossRef, slice(input, second, found.end)));
        },
    }
    assert(segments_of(lex@) =~= segments_of(old(lex)@) + match_segments(
        input@,
        from as int,
        *found,
    ));
}

/// Adds the token of the text from `from` to the end of the input.
fn push_rest<'a>(lex: &mut Vec<Token<'a>>, input: &'a str, from: usize)
    requires
        is_span(input@, 0, from as int),
    ensures
        segments_of(final(lex)@) == segments_of(old(lex)@).push(
            segment_at(TokenType::Other, input@, from as int, bytes_of(input@).len() as int),
        ),
{
    proof {
        lemma_span_whole(input@);
    }
    lex.push(Token::new(TokenType::Other, slice(input, from, byte_len(input))));
    assert(segments_of(lex@) =~= segments_of(old(lex)@).push(
        segment_at(TokenType::Other, input@, from as int, bytes_of(input@).len() as int),
    ));
}

/// Splits the footnotes around the given cross-references.
///
/// A single reference adds two tokens: the text through its marker and the
/// number. A range adds four: the text through its marker, the first
/// number, the dash, the second number. The text behind the last reference
/// closes the list; without a reference it is the whole input.
///
/// Fails where a cross-reference does not fit the text.
pub fn lex_fn_from<'a>(input: &'a str, matches: &Vec<CrossMatch>) -> (lexed: Result<
    Vec<Token<'a>>,
    Failure,
>)
    ensures
        match lexed {
            Ok(tokens) => {
                &&& matches_fit(input@, matches@)
                &&& segments_of(tokens@) == fn_segments(input@, matches@)
                &&& segments_text(segments_of(tokens@)) == input@
            },
            Err(failure) => failure == Failure::Match && !matches_fit(input@, matches@),
        },
{
    let mut lexer = Lexer::new();
    let mut lex: Vec<Token<'a>> = Vec::new();
    let mut i: usize = 0;
    proof {
        lemma_span_whole(input@);
    }
    while i < matches.len()
        invariant
            i <= matches.len(),
            lexer.start == cross_start(matches@, i as int),
            is_span(input@, 0, lexer.start as int),
            forall|k: int| 0 <= k < i ==> #[trigger] fits_at(input@, matches@, k),
            segments_of(lex@) == fn_segments_upto(input@, matches@, i as int),
        decreases matches.len() - i,
    {
        let found = matches[i];
        if !fits(input, lexer.start, &found) {
            assert(!fits_at(input@, matches@, i as int));
            return Err(Failure::Match);
        }
        assert(fits_at(input@, matches@, i as int));
        let ghost before = segments_of(lex@);
        push_match(&mut lex, input, lexer.start, &found);
        proof {
            lemma_match_segments_text(input@, lexer.start as int, found);
            lemma_span_join(input@, 0, lexer.start as int, found.end as int);
        }
        lexer.start = found.end;
        i = i + 1;
    }
    push_rest(&mut lex, input, lexer.start);
    proof {
        lemma_fn_segments_cover(input@, matches@);
    }
    Ok(lex)
}

/// Tells whether the text holds a hyphen or an en dash.
pub fn has_dash(s: &str) -> (yes: bool)
    ensures
        yes == contains_dash(s@),
{
    for c in it: s.chars()
        invariant
            it.seq() == s@,
            forall|i: int| 0 <= i < it.index() ==> !is_dash(#[trigger] s@[i]),
    {
        if c == '-' || c == '\u{2013}' {
            assert(is_dash(s@[it.index() as int]));
            return true;
        }
    }
    false
}

/// The lengths of the three parts of a range, read from the capture groups
/// of the range pattern: groups 1, 2 and 3 are the first number, the dash
/// and the second number. `None` where the pattern matched nothing or one
/// of the three groups is missing.
pub open spec fn range_parts_of(groups: Option<Seq<Option<(usize, usize)>>>) -> Option<RangeParts> {
    match groups {
        Some(spans) => if spans.len() >= 4 {
            match (group_len_of(spans[1]), group_len_of(spans[2]), group_len_of(spans[3])) {
                (Some(first), Some(dash), Some(second)) => Some(RangeParts { first, dash, second }),
                _ => None,
            }
        } else {
            None
        },
        None => None,
    }
}

/// The length of a group, where it took part in the match and does not end
/// before it starts.
pub open spec fn group_len_of(group: Option<(usize, usize)>) -> Option<usize> {
    match group {
        Some((start, end)) => if start <= end {
            Some((end - start) as usize)
        } else {
            None
        },
        None => None,
    }
}

/// The length of the group at a given place, `None` also where there is no
/// such place.
fn group_len(groups: &Vec<Option<(usize, usize)>>, at: usize) -> (len: Option<usize>)
    ensures
        len == if at < groups.len() {
            group_len_of(groups[at as int])
        } else {
            None
        },
{
    if at >= groups.len() {
        return None;
    }
    match groups[at] {
        Some((start, end)) => if start <= end {
            Some(end - start)
        } else {
            None
        },
        None => None,
    }
}

/// Reads the lengths of the three parts of a range from the capture groups
/// of the range pattern.
pub fn range_parts(groups: &Option<Vec<Option<(usize, usize)>>>) -> (parts: Option<RangeParts>)
    ensures
        parts == range_parts_of(groups_of(*groups)),
{
    match groups {
        Some(spans) => {
            match (group_len(spans, 1), group_len(spans, 2), group_len(spans, 3)) {
                (Some(first), Some(dash), Some(second)) => Some(RangeParts { first, dash, second }),
                _ => None,
            }
        },
        None => None,
    }
}

/// The cross-reference that a match of the footnotes pattern stands for. A
/// match that holds a dash is a range, whose parts the range pattern finds
/// in the matched text; `None` where it does not find them.
pub open spec fn cross_match_of(text: Seq<char>, span: (usize, usize)) -> Option<CrossMatch> {
    let found = span_text(text, span.0 as int, span.1 as int);
    if contains_dash(found) {
        match range_parts_of(captures_groups(RANGE_PATTERN@, found)) {
            Some(parts) => Some(CrossMatch { start: span.0, end: span.1, range: Some(parts) }),
            None => None,
        }
    } else {
        Some(CrossMatch { start: span.0, end: span.1, range: None })
    }
}

/// True when every match of the footnotes pattern stands for a
/// cross-reference.
pub open spec fn fn_matches_known(text: Seq<char>) -> bool {
    let spans = find_iter_spans(FN_PATTERN@, text);
    forall|i: int| 0 <= i < spans.len() ==> cross_match_of(text, #[trigger] spans[i]) is Some
}

/// The cross-references of the footnotes, in the order of their matches.
pub open spec fn fn_matches(text: Seq<char>) -> Seq<CrossMatch> {
    let spans = find_iter_spans(FN_PATTERN@, text);
    Seq::new(spans.len(), |i: int| cross_match_of(text, spans[i])->0)
}

/// Why the footnotes cannot be lexed, if they cannot: the pattern engine
/// turns one of the two patterns down, or else it reports a match that is
/// not laid out as the patterns describe.
pub open spec fn fn_lexing_failure(text: Seq<char>) -> Option<Failure> {
    if !pattern_accepted(FN_PATTERN@) || !pattern_accepted(RANGE_PATTERN@) {
        Some(Failure::Pattern)
    } else if !fn_matches_known(text) || !matches_fit(text, fn_matches(text)) {
        Some(Failure::Match)
    } else {
        None
    }
}

/// Why the two texts cannot be lexed, if they cannot.
pub open spec fn lexing_failure(doc: Seq<char>, fns: Seq<char>) -> Option<Failure> {
    if !pattern_accepted(DOC_PATTERN@) {
        Some(Failure::Pattern)
    } else {
        fn_lexing_failure(fns)
    }
}

/// Lexes the contents of the footnotes: finds the cross-references, tells
/// ranges from single references by the dash, and splits the text around
/// their numbers.
///
/// Fails where the pattern engine turns a pattern down, or reports a match
/// that is not laid out as the patterns describe, and in no other case.
pub fn lex_fn<'a>(input: &'a str) -> (lexed: Result<Vec<Token<'a>>, Failure>)
    ensures
        lexed is Ok <==> pattern_accepted(FN_PATTERN@) && pattern_accepted(RANGE_PATTERN@)
            && fn_matches_known(input@) && matches_fit(input@, fn_matches(input@)),
        lexed == Err::<Vec<Token<'a>>, Failure>(Failure::Pattern) <==> !(pattern_accepted(
            FN_PATTERN@,
        ) && pattern_accepted(RANGE_PATTERN@)),
        match lexed {
            Ok(tokens) => {
                &&& fn_lexing_failure(input@) is None
                &&& segments_of(tokens@) == fn_segments(input@, fn_matches(input@))
                &&& segments_text(segments_of(tokens@)) == input@
            },
            Err(failure) => fn_lexing_failure(input@) == Some(failure),
        },
{
    // Both patterns are needed whatever the text holds.
    if !accepts(RANGE_PATTERN) {
        return Err(Failure::Pattern);
    }
    let spans = match find_iter(FN_PATTERN, input) {
        Ok(spans) => spans,
        Err(_) => {
            return Err(Failure::Pattern);
        },
    };
    let mut matches: Vec<CrossMatch> = Vec::new();
    let mut i: usize = 0;
    while i < spans.len()
        invariant
            i <= spans.len(),
            pattern_accepted(FN_PATTERN@),
            pattern_accepted(RANGE_PATTERN@),
            spans@ == find_iter_spans(FN_PATTERN@, input@),
            spans_in_order(input@, spans@),
            matches.len() == i,
            forall|k: int|
                0 <= k < i ==> cross_match_of(input@, #[trigger] spans@[k]) == Some(matches@[k]),
        decreases spans.len() - i,
    {
        let (start, end) = spans[i];
        assert(is_span(input@, spans@[i as int].0 as int, spans@[i as int].1 as int));
        let found = slice(input, start, end);
        let range = if has_dash(found) {
            let groups = match captures(RANGE_PATTERN, found) {
                Ok(groups) => groups,
                Err(_) => {
                    return Err(Failure::Pattern);
                },
            };
            match range_parts(&groups) {
                Some(parts) => Some(parts),
                None => {
                    assert(cross_match_of(input@, spans@[i as int]) is None);
                    return Err(Failure::Match);
                },
            }
        } else {
            None
        };
        matches.push(CrossMatch { start, end, range });
        i = i + 1;
    }
    assert(matches@ =~= fn_matches(input@));
    lex_fn_from(input, &matches)
}

/// The main lexer function: lexes the document, then the footnotes.
pub fn lex<'a>(doc_input: &'a str, fn_input: &'a str) -> (lexed: Result<
    (Vec<Token<'a>>, Vec<Token<'a>>),
    Failure,
>)
    ensures
        lexed is Ok <==> pattern_accepted(DOC_PATTERN@) && pattern_accepted(FN_PATTERN@)
            && pattern_accepted(RANGE_PATTERN@) && fn_matches_known(fn_input@) && matches_fit(
            fn_input@,
            fn_matches(fn_input@),
        ),
        lexed == Err::<(Vec<Token<'a>>, Vec<Token<'a>>), Failure>(Failure::Pattern) <==> !(
            pattern_accepted(DOC_PATTERN@) && pattern_accepted(FN_PATTERN@) && pattern_accepted(
                RANGE_PATTERN@,
            )),
        match lexed {
            Ok((doc_lex, fn_lex)) => {
                &&& lexing_failure(doc_input@, fn_input@) is None
                &&& spans_in_order(doc_input@, find_iter_spans(DOC_PATTERN@, doc_input@))
                &&& segments_of(doc_lex@) == doc_segments(
                    doc_input@,
                    find_iter_spans(DOC_PATTERN@, doc_input@),
                )
                &&& segments_text(segments_of(doc_lex@)) == doc_input@
                &&& segments_of(fn_lex@) == fn_segments(fn_input@, fn_matches(fn_input@))
                &&& segments_text(segments_of(fn_lex@)) == fn_input@
            },
            Err(failure) => lexing_failure(doc_input@, fn_input@) == Some(failure),
        },
{
    // First get the tokens of the document.
    let doc_lex = match lex_doc(doc_input) {
        Ok(tokens) => tokens,
        Err(failure) => {
            return Err(failure);
        },
    };
    // Then get the tokens of the footnotes.
    let fn_lex = match lex_fn(fn_input) {
        Ok(tokens) => tokens,
        Err(failure) => {
            return Err(failure);
        },
    };
    Ok((doc_lex, fn_lex))
}

} // verus!
