//! The pattern engine: searches run by the `regex` crate.
//!
//! Nothing in this file is proved. Each function states what the engine's
//! documentation says of the search it runs.

use crate::text::is_span;
use regex::Regex;
use vstd::prelude::*;

verus! {

/// The error with which `Regex::new` turns a pattern down. Nothing is
/// known of what it holds: the library only tells it from success.
#[verifier::external_type_specification]
#[verifier::external_body]
pub struct ExPatternError(regex::Error);

/// True when `Regex::new` compiles the pattern: the pattern is well formed
/// and the compiled program stays within the engine's default size limit.
pub uninterp spec fn pattern_accepted(pattern: Seq<char>) -> bool;

/// The matches that `Regex::find_iter` yields for a pattern in a haystack,
/// each as the byte offsets of its start and end.
pub uninterp spec fn find_iter_spans(pattern: Seq<char>, haystack: Seq<char>) -> Seq<(usize, usize)>;

/// The capture groups that `Regex::captures` reports for the first match of
/// a pattern in a haystack: group 0 is the whole match, a group that took no
/// part is `None`.
pub uninterp spec fn captures_groups(pattern: Seq<char>, haystack: Seq<char>) -> Option<
    Seq<Option<(usize, usize)>>,
>;

/// The capture groups that `Regex::captures_iter` yields, one row for each
/// match.
pub uninterp spec fn captures_iter_groups(pattern: Seq<char>, haystack: Seq<char>) -> Seq<
    Seq<Option<(usize, usize)>>,
>;

/// Spans of whole characters that follow one another without overlap.
pub open spec fn spans_in_order(text: Seq<char>, spans: Seq<(usize, usize)>) -> bool {
    &&& forall|i: int|
        0 <= i < spans.len() ==> is_span(text, (#[trigger] spans[i]).0 as int, spans[i].1 as int)
    &&& forall|i: int, j: int|
        0 <= i < j < spans.len() ==> (#[trigger] spans[i]).1 <= (#[trigger] spans[j]).0
}

/// Every group that took part in the match is a span of whole characters.
pub open spec fn groups_are_spans(text: Seq<char>, groups: Seq<Option<(usize, usize)>>) -> bool {
    forall|i: int|
        0 <= i < groups.len() ==> (#[trigger] groups[i] matches Some(span) ==> is_span(
            text,
            span.0 as int,
            span.1 as int,
        ))
}

/// The groups of a single match, as a sequence.
pub open spec fn groups_of(found: Option<Vec<Option<(usize, usize)>>>) -> Option<
    Seq<Option<(usize, usize)>>,
> {
    match found {
        Some(groups) => Some(groups@),
        None => None,
    }
}

/// The groups of every match, as a sequence of sequences.
pub open spec fn rows_of(found: Seq<Vec<Option<(usize, usize)>>>) -> Seq<
    Seq<Option<(usize, usize)>>,
> {
    Seq::new(found.len(), |i: int| found[i]@)
}

/// Calls `Regex::new`.
///
/// Trusted: whether a pattern compiles depends on the pattern alone.
#[verifier::external_body]
pub(crate) fn accepts(pattern: &str) -> (yes: bool)
    ensures
        yes == pattern_accepted(pattern@),
{
    Regex::new(pattern).is_ok()
}

/// Calls `Regex::new` and `Regex::find_iter`.
///
/// Trusted: the call fails exactly when the pattern does not compile.
/// Otherwise the result is the list of matches the engine yields, in the
/// order it yields them. The engine documents that matches are successive
/// and do not overlap, that a match starts no later than it ends, and that
/// both offsets fall on character boundaries of the haystack.
#[verifier::external_body]
pub(crate) fn find_iter(pattern: &str, haystack: &str) -> (found: Result<
    Vec<(usize, usize)>,
    regex::Error,
>)
    ensures
        found is Ok <==> pattern_accepted(pattern@),
        found matches Ok(spans) ==> spans@ == find_iter_spans(pattern@, haystack@),
        found matches Ok(spans) ==> spans_in_order(haystack@, spans@),
{
    let re = Regex::new(pattern)?;
    Ok(re.find_iter(haystack).map(|m| (m.start(), m.end())).collect())
}

/// Calls `Regex::new` and `Regex::captures`.
///
/// Trusted: the call fails exactly when the pattern does not compile.
/// Otherwise the result is the list of groups of the first match, each as
/// the byte offsets of its start and end, or `None` where the haystack
/// holds no match.
#[verifier::external_body]
pub(crate) fn captures(pattern: &str, haystack: &str) -> (found: Result<
    Option<Vec<Option<(usize, usize)>>>,
    regex::Error,
>)
    ensures
        found is Ok <==> pattern_accepted(pattern@),
        found matches Ok(first) ==> groups_of(first) == captures_groups(pattern@, haystack@),
{
    let re = Regex::new(pattern)?;
    Ok(re.captures(haystack).map(|c| c.iter().map(|g| g.map(|m| (m.start(), m.end()))).collect()))
}

/// Calls `Regex::new` and `Regex::captures_iter`.
///
/// Trusted: the call fails exactly when the pattern does not compile.
/// Otherwise the result holds the groups of every match, in the order the
/// engine yields the matches. The engine documents
/// that the offsets of a group fall on character boundaries of the
/// haystack, the start no later than the end.
#[verifier::external_body]
pub(crate) fn captures_iter(pattern: &str, haystack: &str) -> (found: Result<
    Vec<Vec<Option<(usize, usize)>>>,
    regex::Error,
>)
    ensures
        found is Ok <==> pattern_accepted(pattern@),
        found matches Ok(rows) ==> rows_of(rows@) == captures_iter_groups(pattern@, haystack@),
        found matches Ok(rows) ==> forall|i: int|
            0 <= i < rows.len() ==> groups_are_spans(haystack@, (#[trigger] rows[i])@),
{
    let re = Regex::new(pattern)?;
    Ok(
        re.captures_iter(haystack).map(
            |c| c.iter().map(|g| g.map(|m| (m.start(), m.end()))).collect(),
        ).collect(),
    )
}

} // verus!
