//! The bookmark id allocator: finds the first bookmark id that the
//! document does not use yet.
//!
//! A document may hold bookmarks already, for headings and other items,
//! with ids in no particular order. A new bookmark must not take the id of
//! one of them.

use crate::engine::{
    captures_iter, captures_iter_groups, groups_are_spans, pattern_accepted, rows_of,
};
use crate::failure::{Counter, Failure, Field};
use crate::number::{is_u32_text, parse_u32, u32_of_text};
use crate::text::{slice, span_text};
use vstd::prelude::*;

verus! {

/// The opening of a bookmark's first tag, then its id: every digit of it,
/// so that an id too large for 32 bits is seen as such.
pub const BOOKMARK_PATTERN: &'static str = "(<w:bookmarkStart w:id=\")([0-9]+)";

/// The text of a bookmark's id: the second group of the match, where that
/// group took part in it.
pub open spec fn id_text(doc: Seq<char>, row: Seq<Option<(usize, usize)>>) -> Option<Seq<char>> {
    if row.len() > 2 {
        match row[2] {
            Some(span) => Some(span_text(doc, span.0 as int, span.1 as int)),
            None => None,
        }
    } else {
        None
    }
}

/// What is wrong with the `i`-th bookmark, if anything: its id is missing
/// from the match, or is not a decimal number of 32 bits.
pub open spec fn row_fault(doc: Seq<char>, rows: Seq<Seq<Option<(usize, usize)>>>, i: int) -> Option<
    Failure,
> {
    match id_text(doc, rows[i]) {
        None => Some(Failure::Match),
        Some(text) => if is_u32_text(text) {
            None
        } else {
            Some(Failure::Parse { field: Field::BookmarkId, index: i as usize })
        },
    }
}

/// True when nothing is wrong with the first `n` bookmarks.
pub open spec fn rows_read(doc: Seq<char>, rows: Seq<Seq<Option<(usize, usize)>>>, n: int) -> bool {
    forall|i: int| 0 <= i < n && i < rows.len() ==> #[trigger] row_fault(doc, rows, i) is None
}

/// The ids of the bookmarks of the document, in order.
pub open spec fn bookmark_ids(doc: Seq<char>, rows: Seq<Seq<Option<(usize, usize)>>>) -> Seq<u32> {
    Seq::new(rows.len(), |i: int| u32_of_text(id_text(doc, rows[i])->0))
}

/// The largest of a list of ids; zero where there is none.
pub open spec fn largest(ids: Seq<u32>) -> nat
    decreases ids.len(),
{
    if ids.len() == 0 {
        0
    } else if ids.last() > largest(ids.drop_last()) {
        ids.last() as nat
    } else {
        largest(ids.drop_last())
    }
}

/// The first id that is free: one more than the largest id in use, and 1
/// where no id is in use.
pub open spec fn next_free(ids: Seq<u32>) -> nat {
    largest(ids) + 1
}

/// The first free id is positive and larger than every id in use, and it
/// is the smallest such number unless no id is in use.
pub proof fn lemma_next_free(ids: Seq<u32>)
    ensures
        next_free(ids) >= 1,
        forall|i: int| 0 <= i < ids.len() ==> #[trigger] ids[i] < next_free(ids),
        ids.len() > 0 ==> exists|i: int| 0 <= i < ids.len() && #[trigger] ids[i] + 1 == next_free(ids),
        ids.len() == 0 ==> next_free(ids) == 1,
    decreases ids.len(),
{
    if ids.len() > 0 {
        let before = ids.drop_last();
        lemma_next_free(before);
        assert forall|i: int| 0 <= i < ids.len() implies #[trigger] ids[i] < next_free(ids) by {
            if i < before.len() {
                assert(before[i] == ids[i]);
            }
        }
        if ids.last() > largest(before) || before.len() == 0 {
            assert(ids[ids.len() - 1] + 1 == next_free(ids));
        } else {
            let i = choose|i: int| 0 <= i < before.len() && #[trigger] before[i] + 1 == next_free(before);
            assert(ids[i] == before[i]);
        }
    }
}

/// What is wrong with the first of the first `n` bookmarks that cannot be
/// read; `None` where all of them can.
pub open spec fn first_fault(doc: Seq<char>, rows: Seq<Seq<Option<(usize, usize)>>>, n: int) -> Option<
    Failure,
>
    decreases n,
{
    if n <= 0 {
        None
    } else {
        match first_fault(doc, rows, n - 1) {
            Some(failure) => Some(failure),
            None => row_fault(doc, rows, n - 1),
        }
    }
}

/// The first free bookmark id of a document whose bookmarks are `rows`, or
/// why it cannot be told: what is wrong with the first bookmark that
/// cannot be read, or else that the largest id in use leaves none free.
pub open spec fn allocated(doc: Seq<char>, rows: Seq<Seq<Option<(usize, usize)>>>) -> Result<
    u32,
    Failure,
> {
    match first_fault(doc, rows, rows.len() as int) {
        Some(failure) => Err(failure),
        None => if next_free(bookmark_ids(doc, rows)) > u32::MAX {
            Err(Failure::Overflow { counter: Counter::BookmarkId })
        } else {
            Ok(next_free(bookmark_ids(doc, rows)) as u32)
        },
    }
}

/// The first fault is that of the first bookmark that has one: nothing is
/// wrong with the bookmarks before it. Without a fault every bookmark can
/// be read.
pub proof fn lemma_first_fault(doc: Seq<char>, rows: Seq<Seq<Option<(usize, usize)>>>, n: int)
    requires
        0 <= n <= rows.len(),
    ensures
        first_fault(doc, rows, n) is None <==> rows_read(doc, rows, n),
        first_fault(doc, rows, n) matches Some(failure) ==> exists|at: int|
            {
                &&& 0 <= at < n
                &&& rows_read(doc, rows, at)
                &&& #[trigger] row_fault(doc, rows, at) == Some(failure)
            },
    decreases n,
{
    if n > 0 {
        lemma_first_fault(doc, rows, n - 1);
        if first_fault(doc, rows, n - 1) is None {
            if row_fault(doc, rows, n - 1) is Some {
                assert(rows_read(doc, rows, n - 1));
                assert(row_fault(doc, rows, n - 1) == Some(row_fault(doc, rows, n - 1)->0));
            }
        } else {
            let at = choose|at: int|
                {
                    &&& 0 <= at < n - 1
                    &&& rows_read(doc, rows, at)
                    &&& #[trigger] row_fault(doc, rows, at) == Some(
                        first_fault(doc, rows, n - 1)->0,
                    )
                };
            assert(row_fault(doc, rows, at) is Some);
        }
    }
}

/// A fault among the first bookmarks stays the first fault when more
/// bookmarks are looked at.
pub proof fn lemma_first_fault_stays(
    doc: Seq<char>,
    rows: Seq<Seq<Option<(usize, usize)>>>,
    n: int,
    m: int,
)
    requires
        0 <= n <= m,
        first_fault(doc, rows, n) is Some,
    ensures
        first_fault(doc, rows, m) == first_fault(doc, rows, n),
    decreases m - n,
{
    if n < m {
        lemma_first_fault_stays(doc, rows, n, m - 1);
    }
}

/// Determines the first free bookmark id from the bookmarks that were
/// found in the document.
///
/// Fails at the first bookmark whose id is missing from its match or is no
/// number of 32 bits, and where the largest id in use is the largest
/// 32-bit number.
pub fn starting_bookmark_from(doc_input: &str, rows: &Vec<Vec<Option<(usize, usize)>>>) -> (id:
    Result<u32, Failure>)
    requires
        forall|i: int| 0 <= i < rows.len() ==> groups_are_spans(doc_input@, (#[trigger] rows[i])@),
    ensures
        id == allocated(doc_input@, rows_of(rows@)),
        id != Err::<u32, Failure>(Failure::Pattern),
        id matches Ok(free) ==> rows_read(doc_input@, rows_of(rows@), rows.len() as int) && free
            == next_free(bookmark_ids(doc_input@, rows_of(rows@))),
        id matches Err(failure) ==> {
            ||| exists|at: int|
                {
                    &&& 0 <= at < rows.len()
                    &&& rows_read(doc_input@, rows_of(rows@), at)
                    &&& #[trigger] row_fault(doc_input@, rows_of(rows@), at) == Some(failure)
                }
            ||| {
                &&& rows_read(doc_input@, rows_of(rows@), rows.len() as int)
                &&& next_free(bookmark_ids(doc_input@, rows_of(rows@))) > u32::MAX
                &&& failure == (Failure::Overflow { counter: Counter::BookmarkId })
            }
        },
{
    let ghost doc = doc_input@;
    let ghost all = rows_of(rows@);
    let ghost ids = bookmark_ids(doc, all);
    let mut highest: u32 = 0;
    let mut i: usize = 0;
    proof {
        assert(ids.subrange(0, 0) =~= Seq::<u32>::empty());
    }
    while i < rows.len()
        invariant
            i <= rows.len(),
            doc == doc_input@,
            all == rows_of(rows@),
            ids == bookmark_ids(doc, all),
            forall|k: int|
                0 <= k < rows.len() ==> groups_are_spans(doc_input@, (#[trigger] rows[k])@),
            first_fault(doc, all, i as int) is None,
            highest == largest(ids.subrange(0, i as int)),
        decreases rows.len() - i,
    {
        let row = &rows[i];
        proof {
            assert(all[i as int] == row@);
            assert(groups_are_spans(doc, rows[i as int]@));
            assert(ids.subrange(0, i + 1).drop_last() =~= ids.subrange(0, i as int));
        }
        if row.len() <= 2 {
            proof {
                assert(first_fault(doc, all, i + 1) == Some(Failure::Match));
                lemma_first_fault_stays(doc, all, i + 1, all.len() as int);
                lemma_first_fault(doc, all, all.len() as int);
            }
            return Err(Failure::Match);
        }
        let (start, end) = match row[2] {
            Some(span) => span,
            None => {
                proof {
                    assert(first_fault(doc, all, i + 1) == Some(Failure::Match));
                    lemma_first_fault_stays(doc, all, i + 1, all.len() as int);
                    lemma_first_fault(doc, all, all.len() as int);
                }
                return Err(Failure::Match);
            },
        };
        let number = match parse_u32(slice(doc_input, start, end)) {
            Some(number) => number,
            None => {
                proof {
                    assert(first_fault(doc, all, i + 1) == Some(
                        Failure::Parse { field: Field::BookmarkId, index: i },
                    ));
                    lemma_first_fault_stays(doc, all, i + 1, all.len() as int);
                    lemma_first_fault(doc, all, all.len() as int);
                }
                return Err(Failure::Parse { field: Field::BookmarkId, index: i });
            },
        };
        assert(row_fault(doc, all, i as int) is None);
        assert(ids[i as int] == number);
        if number > highest {
            highest = number;
        }
        i = i + 1;
    }
    proof {
        assert(ids.subrange(0, i as int) =~= ids);
        lemma_first_fault(doc, all, all.len() as int);
    }
    if highest == u32::MAX {
        Err(Failure::Overflow { counter: Counter::BookmarkId })
    } else {
        Ok(highest + 1)
    }
}

/// The first free bookmark id of a document, or why it cannot be told: the
/// pattern engine turns the pattern down, or the bookmarks that it finds
/// are as [`allocated`] says.
pub open spec fn first_bookmark(doc: Seq<char>) -> Result<u32, Failure> {
    if pattern_accepted(BOOKMARK_PATTERN@) {
        allocated(doc, captures_iter_groups(BOOKMARK_PATTERN@, doc))
    } else {
        Err(Failure::Pattern)
    }
}

/// Determines the bookmark id to start with: one more than the largest id
/// of the bookmarks that the document holds, and 1 where it holds none.
///
/// Fails with `Pattern` exactly where the pattern engine turns the pattern
/// down, and else as [`starting_bookmark_from`] does.
pub fn starting_bookmark(doc_input: &str) -> (id: Result<u32, Failure>)
    ensures
        id == first_bookmark(doc_input@),
        id == Err::<u32, Failure>(Failure::Pattern) <==> !pattern_accepted(BOOKMARK_PATTERN@),
        id matches Ok(free) ==> {
            let rows = captures_iter_groups(BOOKMARK_PATTERN@, doc_input@);
            rows_read(doc_input@, rows, rows.len() as int) && free == next_free(
                bookmark_ids(doc_input@, rows),
            )
        },
        id matches Err(failure) ==> {
            let rows = captures_iter_groups(BOOKMARK_PATTERN@, doc_input@);
            ||| failure == Failure::Pattern
            ||| exists|at: int|
                {
                    &&& 0 <= at < rows.len()
                    &&& rows_read(doc_input@, rows, at)
                    &&& #[trigger] row_fault(doc_input@, rows, at) == Some(failure)
                }
            ||| {
                &&& rows_read(doc_input@, rows, rows.len() as int)
                &&& next_free(bookmark_ids(doc_input@, rows)) > u32::MAX
                &&& failure == (Failure::Overflow { counter: Counter::BookmarkId })
            }
        },
{
    match captures_iter(BOOKMARK_PATTERN, doc_input) {
        Ok(rows) => starting_bookmark_from(doc_input, &rows),
        Err(_) => Err(Failure::Pattern),
    }
}

} // verus!
