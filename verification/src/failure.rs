//! Why a run can end without output.

use crate::number::{decimal_text, push_decimal};
use vstd::prelude::*;
use vstd::string::*;

verus! {

/// The numeric field that could not be read.
#[derive(Clone, Copy, Debug, PartialEq, Eq, Structural)]
pub enum Field {
    /// The id attribute of a bookmark already in the document.
    BookmarkId,
    /// The footnote number of a cross-reference.
    CrossReference,
}

/// The counter that ran out of numbers.
#[derive(Clone, Copy, Debug, PartialEq, Eq, Structural)]
pub enum Counter {
    /// The running number of the footnotes in the document.
    FootnoteNumber,
    /// The id of the next bookmark.
    BookmarkId,
}

/// Every failure ends the run: no output is produced.
#[derive(Clone, Copy, Debug, PartialEq, Eq, Structural)]
pub enum Failure {
    /// The pattern engine did not accept one of the patterns.
    Pattern,
    /// The pattern engine reported a match that is not laid out as the
    /// pattern describes.
    Match,
    /// A numeric field is not a decimal number of 32 bits. `index` is the
    /// place of the offending item, counted from 0: for a bookmark id among
    /// the bookmarks found in the document, for a cross-reference among the
    /// tokens of the footnotes.
    Parse { field: Field, index: usize },
    /// A counter would pass the largest 32-bit number.
    Overflow { counter: Counter },
    /// A cross-reference points at a footnote that got no bookmark.
    MissingReference { number: u32 },
}

/// What is said of a failure, word for word.
pub open spec fn message_text(failure: Failure) -> Seq<char> {
    match failure {
        Failure::Pattern => "The pattern engine did not accept a pattern"@,
        Failure::Match => "The pattern engine reported a match that does not fit its pattern"@,
        Failure::Parse { field: Field::BookmarkId, .. } =>
            "Error parsing existing bookmarks in document.xml"@,
        Failure::Parse { field: Field::CrossReference, .. } => "Error parsing cross references"@,
        Failure::Overflow { counter: Counter::FootnoteNumber } =>
            "The document holds too many footnotes to number"@,
        Failure::Overflow { counter: Counter::BookmarkId } => "No bookmark id is left"@,
        Failure::MissingReference { number } => "No footnote in the document has the number "@
            + decimal_text(number as nat),
    }
}

impl Failure {
    /// Says what went wrong, for the user to read.
    pub fn message(&self) -> (message: String)
        ensures
            message@ == message_text(*self),
    {
        let mut message = String::new();
        match self {
            Failure::Pattern => {
                message.append("The pattern engine did not accept a pattern");
            },
            Failure::Match => {
                message.append("The pattern engine reported a match that does not fit its pattern");
            },
            Failure::Parse { field: Field::BookmarkId, .. } => {
                message.append("Error parsing existing bookmarks in document.xml");
            },
            Failure::Parse { field: Field::CrossReference, .. } => {
                message.append("Error parsing cross references");
            },
            Failure::Overflow { counter: Counter::FootnoteNumber } => {
                message.append("The document holds too many footnotes to number");
            },
            Failure::Overflow { counter: Counter::BookmarkId } => {
                message.append("No bookmark id is left");
            },
            Failure::MissingReference { number } => {
                message.append("No footnote in the document has the number ");
                push_decimal(&mut message, *number);
            },
        }
        assert(message@ =~= message_text(*self));
        message
    }
}

} // verus!
