//! Turns the plain footnote cross-references of a word-processor document
//! into live, bookmark-linked fields.
//!
//! The work is done on two texts, the document and its footnotes, in four
//! steps: find the first free bookmark id, lex both texts, parse the
//! tokens, and render both texts anew.

pub mod bookmarks;
pub mod engine;
pub mod failure;
pub mod lexer;
pub mod number;
pub mod parser;
pub mod render;
pub mod text;

use crate::bookmarks::{
    BOOKMARK_PATTERN, bookmark_ids, first_bookmark, lemma_first_fault, lemma_next_free, next_free,
    rows_read, starting_bookmark,
};
use crate::engine::{captures_iter_groups, find_iter_spans, pattern_accepted, spans_in_order};
use crate::failure::Failure;
use crate::lexer::{
    DOC_PATTERN, FN_PATTERN, RANGE_PATTERN, Segment, TokenType, doc_segments, fn_matches,
    fn_matches_known, fn_segments, lemma_doc_segments_cover, lemma_fn_segments_cover,
    lemma_fn_segments_kinds, lex, lexing_failure, matches_fit, segments_text,
};
use crate::parser::{
    count_refs, cross_numbers, distinct, doc_nodes, fn_nodes, lemma_distinct,
    lemma_first_bad_number, numbers_parse, parser, parser_failure, referenced,
};
use crate::render::{
    bookmarks_in_range, lemma_bookmark_ids, lemma_first_missing, lemma_render_unreferenced,
    nodes_text, references_known, render, render_failure, rendered_doc, rendered_fn,
};
use vstd::prelude::*;

verus! {

/// The segments of the document.
pub open spec fn document_segments(doc: Seq<char>) -> Seq<Segment> {
    doc_segments(doc, find_iter_spans(DOC_PATTERN@, doc))
}

/// The segments of the footnotes.
pub open spec fn footnotes_segments(fns: Seq<char>) -> Seq<Segment> {
    fn_segments(fns, fn_matches(fns))
}

/// The ids of the bookmarks that the document holds already.
pub open spec fn ids_in_use(doc: Seq<char>) -> Seq<u32> {
    bookmark_ids(doc, captures_iter_groups(BOOKMARK_PATTERN@, doc))
}

/// The reference ids that the run gives to the footnotes that are
/// referred to.
pub open spec fn processed_names(doc: Seq<char>, fns: Seq<char>) -> Map<u32, Seq<char>> {
    rendered_doc(
        doc_nodes(document_segments(doc)),
        referenced(footnotes_segments(fns)),
        next_free(ids_in_use(doc)),
    ).names
}

/// The two texts as the run writes them: the document with its bookmarks,
/// the footnotes with their fields.
pub open spec fn processed(doc: Seq<char>, fns: Seq<char>) -> (Seq<char>, Seq<char>) {
    let render = rendered_doc(
        doc_nodes(document_segments(doc)),
        referenced(footnotes_segments(fns)),
        next_free(ids_in_use(doc)),
    );
    (render.text, rendered_fn(fn_nodes(footnotes_segments(fns)), processed_names(doc, fns)))
}

/// True when the first free bookmark id can be told.
pub open spec fn allocates(doc: Seq<char>) -> bool {
    let rows = captures_iter_groups(BOOKMARK_PATTERN@, doc);
    rows_read(doc, rows, rows.len() as int) && next_free(ids_in_use(doc)) <= u32::MAX
}

/// True when the footnotes can be lexed.
pub open spec fn lexes(fns: Seq<char>) -> bool {
    fn_matches_known(fns) && matches_fit(fns, fn_matches(fns))
}

/// True when the tokens of both texts can be parsed.
pub open spec fn parses(doc: Seq<char>, fns: Seq<char>) -> bool {
    &&& count_refs(document_segments(doc)) <= u32::MAX
    &&& numbers_parse(footnotes_segments(fns), footnotes_segments(fns).len() as int)
}

/// True when both trees can be rendered.
pub open spec fn renders(doc: Seq<char>, fns: Seq<char>) -> bool {
    let nodes = doc_nodes(document_segments(doc));
    let refd = referenced(footnotes_segments(fns));
    let start = next_free(ids_in_use(doc));
    let notes = fn_nodes(footnotes_segments(fns));
    &&& bookmarks_in_range(nodes, refd, start)
    &&& references_known(notes, rendered_doc(nodes, refd, start).names, notes.len() as int)
}

/// True when the pattern engine takes each of the four patterns.
pub open spec fn patterns_accepted() -> bool {
    &&& pattern_accepted(BOOKMARK_PATTERN@)
    &&& pattern_accepted(DOC_PATTERN@)
    &&& pattern_accepted(FN_PATTERN@)
    &&& pattern_accepted(RANGE_PATTERN@)
}

/// Why the run ends without output, if it does: the failure of the first
/// step that fails, the steps being taken in their order.
pub open spec fn process_failure(doc: Seq<char>, fns: Seq<char>) -> Option<Failure> {
    match first_bookmark(doc) {
        Err(failure) => Some(failure),
        Ok(_) => match lexing_failure(doc, fns) {
            Some(failure) => Some(failure),
            None => match parser_failure(document_segments(doc), footnotes_segments(fns)) {
                Some(failure) => Some(failure),
                None => render_failure(
                    doc_nodes(document_segments(doc)),
                    referenced(footnotes_segments(fns)),
                    next_free(ids_in_use(doc)),
                    fn_nodes(footnotes_segments(fns)),
                ),
            },
        },
    }
}

/// The run succeeds exactly when the engine takes the patterns and each of
/// the four steps can be taken. It fails with `Pattern` only where the
/// engine turns a pattern down.
pub proof fn lemma_process_failure(doc: Seq<char>, fns: Seq<char>)
    ensures
        process_failure(doc, fns) is None <==> patterns_accepted() && allocates(doc) && lexes(fns)
            && parses(doc, fns) && renders(doc, fns),
        process_failure(doc, fns) == Some(Failure::Pattern) ==> !patterns_accepted(),
{
    let rows = captures_iter_groups(BOOKMARK_PATTERN@, doc);
    lemma_first_fault(doc, rows, rows.len() as int);
    lemma_first_bad_number(footnotes_segments(fns));
    lemma_first_missing(
        fn_nodes(footnotes_segments(fns)),
        rendered_doc(
            doc_nodes(document_segments(doc)),
            referenced(footnotes_segments(fns)),
            next_free(ids_in_use(doc)),
        ).names,
    );
}

/// The characters of the tree of a document are those of its segments.
pub proof fn lemma_doc_nodes_text(segments: Seq<Segment>)
    requires
        forall|i: int| 0 <= i < segments.len() ==> (#[trigger] segments[i]).kind != TokenType::CrossRef,
    ensures
        nodes_text(doc_nodes(segments)) == segments_text(segments),
    decreases segments.len(),
{
    if segments.len() > 0 {
        let before = segments.drop_last();
        assert forall|i: int| 0 <= i < before.len() implies (#[trigger] before[i]).kind
            != TokenType::CrossRef by {
            assert(before[i] == segments[i]);
        }
        lemma_doc_nodes_text(before);
        assert(segments.last() == segments[segments.len() - 1]);
        assert(doc_nodes(segments).drop_last() =~= doc_nodes(before));
    }
}

/// Where the footnotes refer to no footnote, the document is written as it
/// was read.
pub proof fn lemma_unreferenced_document(doc: Seq<char>, fns: Seq<char>)
    requires
        spans_in_order(doc, find_iter_spans(DOC_PATTERN@, doc)),
        referenced(footnotes_segments(fns)).len() == 0,
    ensures
        processed(doc, fns).0 == doc,
{
    let segments = document_segments(doc);
    let refd = referenced(footnotes_segments(fns));
    lemma_doc_segments_cover(doc, find_iter_spans(DOC_PATTERN@, doc));
    lemma_doc_nodes_text(segments);
    lemma_render_unreferenced(doc_nodes(segments), refd, next_free(ids_in_use(doc)));
}

/// The bookmarks that the run writes get the first free id and the ids
/// that follow it, one after the other, and none of them is the id of a
/// bookmark that the document holds already.
pub proof fn lemma_new_bookmarks(doc: Seq<char>, fns: Seq<char>)
    ensures
        ({
            let start = next_free(ids_in_use(doc));
            let ids = rendered_doc(
                doc_nodes(document_segments(doc)),
                referenced(footnotes_segments(fns)),
                start,
            ).ids;
            &&& start >= 1
            &&& forall|k: int| 0 <= k < ids.len() ==> #[trigger] ids[k] == start + k
            &&& forall|k: int, j: int|
                0 <= k < ids.len() && 0 <= j < ids_in_use(doc).len() ==> #[trigger] ids[k]
                    != #[trigger] ids_in_use(doc)[j]
        }),
{
    let start = next_free(ids_in_use(doc));
    lemma_next_free(ids_in_use(doc));
    lemma_bookmark_ids(
        doc_nodes(document_segments(doc)),
        referenced(footnotes_segments(fns)),
        start,
    );
}

/// A tree of the footnotes without a cross-reference is rendered as the
/// text of its segments.
pub proof fn lemma_fn_nodes_text(segments: Seq<Segment>, names: Map<u32, Seq<char>>)
    requires
        forall|i: int|
            0 <= i < segments.len() ==> (#[trigger] segments[i]).kind != TokenType::FootnoteRef,
        cross_numbers(fn_nodes(segments)).len() == 0,
    ensures
        rendered_fn(fn_nodes(segments), names) == segments_text(segments),
    decreases segments.len(),
{
    if segments.len() > 0 {
        let before = segments.drop_last();
        assert forall|i: int| 0 <= i < before.len() implies (#[trigger] before[i]).kind
            != TokenType::FootnoteRef by {
            assert(before[i] == segments[i]);
        }
        assert(segments.last() == segments[segments.len() - 1]);
        assert(fn_nodes(segments).drop_last() =~= fn_nodes(before));
        lemma_fn_nodes_text(before, names);
    }
}

/// Where the footnotes refer to no footnote, they are written as they were
/// read.
pub proof fn lemma_unreferenced_footnotes(doc: Seq<char>, fns: Seq<char>)
    requires
        matches_fit(fns, fn_matches(fns)),
        referenced(footnotes_segments(fns)).len() == 0,
    ensures
        processed(doc, fns).1 == fns,
{
    let segments = footnotes_segments(fns);
    let numbers = cross_numbers(fn_nodes(segments));
    lemma_distinct(numbers);
    if numbers.len() > 0 {
        assert(numbers.contains(numbers[0]));
        assert(distinct(numbers).contains(numbers[0]));
    }
    lemma_fn_segments_kinds(fns, fn_matches(fns), fn_matches(fns).len() as int);
    lemma_fn_segments_cover(fns, fn_matches(fns));
    lemma_fn_nodes_text(segments, processed_names(doc, fns));
}

/// The tree of a document spells the document: once the bookmarks are
/// taken out of the rendering, what is left is the text that was read.
pub proof fn lemma_document_preserved(doc: Seq<char>)
    requires
        spans_in_order(doc, find_iter_spans(DOC_PATTERN@, doc)),
    ensures
        segments_text(document_segments(doc)) == doc,
        nodes_text(doc_nodes(document_segments(doc))) == doc,
{
    lemma_doc_segments_cover(doc, find_iter_spans(DOC_PATTERN@, doc));
    lemma_doc_nodes_text(document_segments(doc));
}

/// The whole run on the two texts of a document: determines the bookmark
/// id to start with, then lexes, parses and renders.
///
/// Returns the new text of the document and the new text of the footnotes.
/// The run fails exactly where one of its steps fails, with the failure of
/// the first step that does: then neither text is returned.
pub fn process(doc: &str, fns: &str) -> (outcome: Result<(String, String), Failure>)
    ensures
        outcome is Ok <==> patterns_accepted() && allocates(doc@) && lexes(fns@) && parses(
            doc@,
            fns@,
        ) && renders(doc@, fns@),
        outcome == Err::<(String, String), Failure>(Failure::Pattern) ==> !patterns_accepted(),
        match outcome {
            Ok((new_doc, new_fns)) => {
                &&& process_failure(doc@, fns@) is None
                &&& new_doc@ == processed(doc@, fns@).0
                &&& new_fns@ == processed(doc@, fns@).1
                &&& spans_in_order(doc@, find_iter_spans(DOC_PATTERN@, doc@))
                &&& nodes_text(doc_nodes(document_segments(doc@))) == doc@
                &&& segments_text(footnotes_segments(fns@)) == fns@
                &&& referenced(footnotes_segments(fns@)).len() == 0 ==> new_doc@ == doc@ && new_fns@
                    == fns@
            },
            Err(failure) => process_failure(doc@, fns@) == Some(failure),
        },
{
    proof {
        lemma_process_failure(doc@, fns@);
    }
    // Determine the bookmark id to start with.
    let first_bookmark = match starting_bookmark(doc) {
        Ok(id) => id,
        Err(failure) => {
            return Err(failure);
        },
    };
    // Lex the inputs.
    let (doc_tokens, fn_tokens) = match lex(doc, fns) {
        Ok(tokens) => tokens,
        Err(failure) => {
            return Err(failure);
        },
    };
    // Parse the tokens.
    let (doc_branches, fn_branches, refd_fns) = match parser(
        doc_tokens.as_slice(),
        fn_tokens.as_slice(),
    ) {
        Ok(parsed) => parsed,
        Err(failure) => {
            return Err(failure);
        },
    };
    // Render the output.
    let rendered = render(
        doc_branches.as_slice(),
        refd_fns,
        first_bookmark,
        fn_branches.as_slice(),
    );
    proof {
        lemma_document_preserved(doc@);
        if referenced(footnotes_segments(fns@)).len() == 0 && rendered is Ok {
            lemma_unreferenced_document(doc@, fns@);
            lemma_unreferenced_footnotes(doc@, fns@);
        }
    }
    rendered
}

} // verus!
