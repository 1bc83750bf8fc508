//! The parser: turns the tokens of each text into the branches of its
//! syntax tree.
//!
//! The footnote references of the document are numbered in the order in
//! which they come; the cross-references of the footnotes are read as
//! numbers, and each number is listed once, where it is first met.

use crate::failure::{Counter, Failure, Field};
use crate::lexer::{Segment, Token, TokenType, segments_of};
use crate::number::{is_u32_text, parse_u32, u32_of_text};
use vstd::prelude::*;

verus! {

/// The types of branches in the syntax tree.
#[derive(Debug, PartialEq, Eq)]
pub enum Branch<'a> {
    Text(Text<'a>),
    FootnoteRef(FootnoteRef<'a>),
    CrossRef(CrossRef),
}

/// Contents of a text branch.
#[derive(Debug, PartialEq, Eq)]
pub struct Text<'a> {
    pub contents: &'a str,
}

impl<'a> Text<'a> {
    /// Creates a new [`Text`] branch.
    pub fn new(contents: &'a str) -> (text: Text<'a>)
        ensures
            text.contents == contents,
    {
        Text { contents }
    }
}

/// Contents of a footnote-reference branch: the footnote's number and the
/// markup of the reference.
#[derive(Debug, PartialEq, Eq)]
pub struct FootnoteRef<'a> {
    pub number: u32,
    pub contents: &'a str,
}

impl<'a> FootnoteRef<'a> {
    /// Creates a new [`FootnoteRef`] branch.
    pub fn new(number: u32, contents: &'a str) -> (footnote_ref: FootnoteRef<'a>)
        ensures
            footnote_ref.number == number,
            footnote_ref.contents == contents,
    {
        FootnoteRef { number, contents }
    }
}

/// Contents of a cross-reference branch: the number of the footnote that it
/// refers to. The number is all there is to it.
#[derive(Debug, PartialEq, Eq)]
pub struct CrossRef {
    pub number: u32,
}

impl CrossRef {
    /// Creates a new [`CrossRef`] branch.
    pub fn new(number: u32) -> (cross_ref: CrossRef)
        ensures
            cross_ref.number == number,
    {
        CrossRef { number }
    }
}

/// What a branch stands for.
pub enum Node {
    Text { contents: Seq<char> },
    FootnoteRef { number: u32, contents: Seq<char> },
    CrossRef { number: u32 },
}

impl<'a> View for Branch<'a> {
    type V = Node;

    open spec fn view(&self) -> Node {
        match *self {
            Branch::Text(text) => Node::Text { contents: text.contents@ },
            Branch::FootnoteRef(footnote_ref) => Node::FootnoteRef {
                number: footnote_ref.number,
                contents: footnote_ref.contents@,
            },
            Branch::CrossRef(cross_ref) => Node::CrossRef { number: cross_ref.number },
        }
    }
}

/// The nodes that a list of branches stands for.
pub open spec fn nodes_of(branches: Seq<Branch>) -> Seq<Node> {
    Seq::new(branches.len(), |i: int| branches[i]@)
}

/// How many footnote references a list of segments holds.
pub open spec fn count_refs(segments: Seq<Segment>) -> nat
    decreases segments.len(),
{
    if segments.len() == 0 {
        0
    } else if segments.last().kind == TokenType::FootnoteRef {
        count_refs(segments.drop_last()) + 1
    } else {
        count_refs(segments.drop_last())
    }
}

/// The tree of the document: text stays text, the `k`-th footnote reference
/// gets the number `k`, counting from 1; segments of any other type are
/// left out.
pub open spec fn doc_nodes(segments: Seq<Segment>) -> Seq<Node>
    decreases segments.len(),
{
    if segments.len() == 0 {
        Seq::empty()
    } else {
        let before = doc_nodes(segments.drop_last());
        let last = segments.last();
        match last.kind {
            TokenType::Other => before.push(Node::Text { contents: last.text }),
            TokenType::FootnoteRef => before.push(
                Node::FootnoteRef { number: count_refs(segments) as u32, contents: last.text },
            ),
            TokenType::CrossRef => before,
        }
    }
}

/// The numbers of the footnote references of a tree, in order.
pub open spec fn footnote_numbers(nodes: Seq<Node>) -> Seq<u32>
    decreases nodes.len(),
{
    if nodes.len() == 0 {
        Seq::empty()
    } else {
        match nodes.last() {
            Node::FootnoteRef { number, .. } => footnote_numbers(nodes.drop_last()).push(number),
            _ => footnote_numbers(nodes.drop_last()),
        }
    }
}

/// In the tree of a document with at most 2^32 - 1 footnote references,
/// the `k`-th reference carries the number `k`.
pub proof fn lemma_sequential_numbering(segments: Seq<Segment>)
    requires
        count_refs(segments) <= u32::MAX,
    ensures
        footnote_numbers(doc_nodes(segments)).len() == count_refs(segments),
        forall|k: int|
            0 <= k < count_refs(segments) ==> #[trigger] footnote_numbers(doc_nodes(segments))[k]
                == k + 1,
    decreases segments.len(),
{
    if segments.len() > 0 {
        let before = doc_nodes(segments.drop_last());
        lemma_sequential_numbering(segments.drop_last());
        let last = segments.last();
        match last.kind {
            TokenType::Other => {
                assert(doc_nodes(segments).drop_last() =~= before);
            },
            TokenType::FootnoteRef => {
                assert(doc_nodes(segments).drop_last() =~= before);
            },
            TokenType::CrossRef => {},
        }
    }
}

/// Parses the footnote references: the tokens of the document become the
/// branches of its tree.
///
/// Fails where the document holds more footnote references than there are
/// 32-bit numbers above zero.
pub fn parse_fr<'a>(tokens: &'a [Token<'a>]) -> (parsed: Result<Vec<Branch<'a>>, Failure>)
    ensures
        match parsed {
            Ok(parse) => {
                &&& parse_fr_failure(segments_of(tokens@)) is None
                &&& nodes_of(parse@) == doc_nodes(segments_of(tokens@))
                &&& footnote_numbers(nodes_of(parse@)).len() == count_refs(segments_of(tokens@))
                &&& forall|k: int|
                    0 <= k < footnote_numbers(nodes_of(parse@)).len() ==> #[trigger] footnote_numbers(
                        nodes_of(parse@),
                    )[k] == k + 1
            },
            Err(failure) => parse_fr_failure(segments_of(tokens@)) == Some(failure),
        },
{
    let mut parse: Vec<Branch<'a>> = Vec::new();
    let mut footnote_number: u32 = 0;
    let ghost all = segments_of(tokens@);
    let mut i: usize = 0;
    proof {
        assert(all.subrange(0, 0) =~= Seq::<Segment>::empty());
    }
    while i < tokens.len()
        invariant
            i <= tokens.len(),
            all == segments_of(tokens@),
            footnote_number == count_refs(all.subrange(0, i as int)),
            nodes_of(parse@) == doc_nodes(all.subrange(0, i as int)),
        decreases tokens.len() - i,
    {
        let token = &tokens[i];
        proof {
            assert(all.subrange(0, i + 1).drop_last() =~= all.subrange(0, i as int));
            assert(all.subrange(0, i + 1).last() == token@);
        }
        match token.token_type {
            TokenType::Other => {
                // Push the branch as is.
                parse.push(Branch::Text(Text::new(token.contents)));
                assert(nodes_of(parse@) =~= doc_nodes(all.subrange(0, i + 1)));
            },
            TokenType::FootnoteRef => {
                if footnote_number == u32::MAX {
                    proof {
                        lemma_count_refs_prefix(all, i + 1);
                    }
                    return Err(Failure::Overflow { counter: Counter::FootnoteNumber });
                }
                // Push the branch with the number of the next footnote.
                footnote_number = footnote_number + 1;
                parse.push(Branch::FootnoteRef(FootnoteRef::new(footnote_number, token.contents)));
                assert(nodes_of(parse@) =~= doc_nodes(all.subrange(0, i + 1)));
            },
            _ => {},
        }
        i = i + 1;
    }
    proof {
        assert(all.subrange(0, i as int) =~= all);
        lemma_sequential_numbering(all);
    }
    Ok(parse)
}

/// A list of segments holds at least as many footnote references as any of
/// its prefixes.
pub proof fn lemma_count_refs_prefix(segments: Seq<Segment>, n: int)
    requires
        0 <= n <= segments.len(),
    ensures
        count_refs(segments.subrange(0, n)) <= count_refs(segments),
    decreases segments.len() - n,
{
    if n == segments.len() {
        assert(segments.subrange(0, n) =~= segments);
    } else {
        lemma_count_refs_prefix(segments.drop_last(), n);
        assert(segments.drop_last().subrange(0, n) =~= segments.subrange(0, n));
    }
}

/// True when the first `n` segments hold no cross-reference but such as
/// are numbers.
pub open spec fn numbers_parse(segments: Seq<Segment>, n: int) -> bool {
    forall|i: int|
        0 <= i < n && i < segments.len() && (#[trigger] segments[i]).kind == TokenType::CrossRef
            ==> is_u32_text(segments[i].text)
}

/// True when the segment at `at` is a cross-reference that is no number.
pub open spec fn bad_number_at(segments: Seq<Segment>, at: int) -> bool {
    &&& 0 <= at < segments.len()
    &&& segments[at].kind == TokenType::CrossRef
    &&& !is_u32_text(segments[at].text)
}

/// The tree of the footnotes: text stays text, a cross-reference becomes
/// the number that it spells; segments of any other type are left out.
pub open spec fn fn_nodes(segments: Seq<Segment>) -> Seq<Node>
    decreases segments.len(),
{
    if segments.len() == 0 {
        Seq::empty()
    } else {
        let before = fn_nodes(segments.drop_last());
        let last = segments.last();
        match last.kind {
            TokenType::Other => before.push(Node::Text { contents: last.text }),
            TokenType::CrossRef => before.push(Node::CrossRef { number: u32_of_text(last.text) }),
            TokenType::FootnoteRef => before,
        }
    }
}

/// The numbers of the cross-references of a tree, in order.
pub open spec fn cross_numbers(nodes: Seq<Node>) -> Seq<u32>
    decreases nodes.len(),
{
    if nodes.len() == 0 {
        Seq::empty()
    } else {
        match nodes.last() {
            Node::CrossRef { number } => cross_numbers(nodes.drop_last()).push(number),
            _ => cross_numbers(nodes.drop_last()),
        }
    }
}

/// The numbers of a list, each once, in the order in which they are first
/// met.
pub open spec fn distinct(numbers: Seq<u32>) -> Seq<u32>
    decreases numbers.len(),
{
    if numbers.len() == 0 {
        Seq::empty()
    } else {
        let before = distinct(numbers.drop_last());
        if before.contains(numbers.last()) {
            before
        } else {
            before.push(numbers.last())
        }
    }
}

/// The footnotes that the footnotes text refers to.
pub open spec fn referenced(segments: Seq<Segment>) -> Seq<u32> {
    distinct(cross_numbers(fn_nodes(segments)))
}

/// Tells whether a list holds a number.
pub fn contains(numbers: &Vec<u32>, number: u32) -> (yes: bool)
    ensures
        yes == numbers@.contains(number),
{
    let mut i: usize = 0;
    while i < numbers.len()
        invariant
            i <= numbers.len(),
            forall|k: int| 0 <= k < i ==> numbers@[k] != number,
        decreases numbers.len() - i,
    {
        if numbers[i] == number {
            return true;
        }
        i = i + 1;
    }
    false
}

/// The place of the first cross-reference that is no number; `None` where
/// every cross-reference is one.
pub open spec fn first_bad_number(segments: Seq<Segment>) -> Option<int>
    decreases segments.len(),
{
    if segments.len() == 0 {
        None
    } else {
        match first_bad_number(segments.drop_last()) {
            Some(at) => Some(at),
            None => if bad_number_at(segments, segments.len() - 1) {
                Some(segments.len() - 1)
            } else {
                None
            },
        }
    }
}

/// Why the tokens of the document cannot be parsed, if they cannot: they
/// hold more footnote references than there are numbers for them.
pub open spec fn parse_fr_failure(segments: Seq<Segment>) -> Option<Failure> {
    if count_refs(segments) > u32::MAX {
        Some(Failure::Overflow { counter: Counter::FootnoteNumber })
    } else {
        None
    }
}

/// Why the tokens of the footnotes cannot be parsed, if they cannot: the
/// first cross-reference that is no number, by its place.
pub open spec fn parse_cr_failure(segments: Seq<Segment>) -> Option<Failure> {
    match first_bad_number(segments) {
        Some(at) => Some(Failure::Parse { field: Field::CrossReference, index: at as usize }),
        None => None,
    }
}

/// Why the tokens of the two texts cannot be parsed, if they cannot: what
/// is wrong with the document's, or else what is wrong with the
/// footnotes'.
pub open spec fn parser_failure(doc: Seq<Segment>, fns: Seq<Segment>) -> Option<Failure> {
    match parse_fr_failure(doc) {
        Some(failure) => Some(failure),
        None => parse_cr_failure(fns),
    }
}

/// The first bad number is a cross-reference that is no number, and every
/// cross-reference before it is one. Without a bad number every
/// cross-reference is a number.
pub proof fn lemma_first_bad_number(segments: Seq<Segment>)
    ensures
        first_bad_number(segments) is None <==> numbers_parse(segments, segments.len() as int),
        first_bad_number(segments) matches Some(at) ==> bad_number_at(segments, at)
            && numbers_parse(segments, at),
    decreases segments.len(),
{
    if segments.len() > 0 {
        let before = segments.drop_last();
        lemma_first_bad_number(before);
        assert forall|i: int| 0 <= i < before.len() implies #[trigger] before[i] == segments[i] by {}
        match first_bad_number(before) {
            Some(at) => {
                assert(before[at] == segments[at]);
                assert forall|i: int|
                    0 <= i < at && i < segments.len() && (#[trigger] segments[i]).kind
                        == TokenType::CrossRef implies is_u32_text(segments[i].text) by {
                    assert(before[i] == segments[i]);
                }
                assert(!numbers_parse(segments, segments.len() as int));
            },
            None => {
                assert forall|i: int|
                    0 <= i < segments.len() - 1 && (#[trigger] segments[i]).kind
                        == TokenType::CrossRef implies is_u32_text(segments[i].text) by {
                    assert(before[i] == segments[i]);
                }
                if bad_number_at(segments, segments.len() - 1) {
                    assert(segments[segments.len() - 1].kind == TokenType::CrossRef);
                }
            },
        }
    }
}

/// A bad number among the first segments stays the first bad number when
/// more segments follow.
pub proof fn lemma_first_bad_number_stays(segments: Seq<Segment>, n: int)
    requires
        0 <= n <= segments.len(),
        first_bad_number(segments.subrange(0, n)) is Some,
    ensures
        first_bad_number(segments) == first_bad_number(segments.subrange(0, n)),
    decreases segments.len() - n,
{
    if n == segments.len() {
        assert(segments.subrange(0, n) =~= segments);
    } else {
        assert(segments.drop_last().subrange(0, n) =~= segments.subrange(0, n));
        lemma_first_bad_number_stays(segments.drop_last(), n);
    }
}

/// Parses the cross-references: the tokens of the footnotes become the
/// branches of their tree, and the numbers referred to are listed, each
/// once, in the order in which they are first met.
///
/// Fails at the first cross-reference that is not a decimal number of 32
/// bits, and names the place of its token.
pub fn parse_cr<'a>(tokens: &'a [Token<'a>]) -> (parsed: Result<
    (Vec<Branch<'a>>, Vec<u32>),
    Failure,
>)
    ensures
        match parsed {
            Ok((parse, referred_fns)) => {
                &&& parse_cr_failure(segments_of(tokens@)) is None
                &&& nodes_of(parse@) == fn_nodes(segments_of(tokens@))
                &&& referred_fns@ == referenced(segments_of(tokens@))
            },
            Err(failure) => parse_cr_failure(segments_of(tokens@)) == Some(failure),
        },
        parsed is Ok <==> numbers_parse(segments_of(tokens@), tokens.len() as int),
        parsed matches Err(failure) ==> exists|at: int|
            {
                &&& #[trigger] bad_number_at(segments_of(tokens@), at)
                &&& numbers_parse(segments_of(tokens@), at)
                &&& failure == (Failure::Parse { field: Field::CrossReference, index: at as usize })
            },
{
    let mut parse: Vec<Branch<'a>> = Vec::new();
    let mut referred_fns: Vec<u32> = Vec::new();
    let ghost all = segments_of(tokens@);
    let mut i: usize = 0;
    proof {
        assert(all.subrange(0, 0) =~= Seq::<Segment>::empty());
    }
    while i < tokens.len()
        invariant
            i <= tokens.len(),
            all == segments_of(tokens@),
            first_bad_number(all.subrange(0, i as int)) is None,
            nodes_of(parse@) == fn_nodes(all.subrange(0, i as int)),
            referred_fns@ == referenced(all.subrange(0, i as int)),
        decreases tokens.len() - i,
    {
        let token = &tokens[i];
        proof {
            assert(all.subrange(0, i + 1).drop_last() =~= all.subrange(0, i as int));
            assert(all.subrange(0, i + 1).last() == token@);
            assert(all[i as int] == token@);
        }
        match token.token_type {
            TokenType::Other => {
                // Push the branch as is.
                parse.push(Branch::Text(Text::new(token.contents)));
                assert(nodes_of(parse@) =~= fn_nodes(all.subrange(0, i + 1)));
                assert(fn_nodes(all.subrange(0, i + 1)).drop_last() =~= fn_nodes(
                    all.subrange(0, i as int),
                ));
            },
            TokenType::CrossRef => {
                // Determine the number referred to.
                let footnote_number = match parse_u32(token.contents) {
                    Some(number) => number,
                    None => {
                        proof {
                            assert(bad_number_at(all.subrange(0, i + 1), i as int));
                            lemma_first_bad_number_stays(all, i + 1);
                            lemma_first_bad_number(all);
                        }
                        return Err(
                            Failure::Parse { field: Field::CrossReference, index: i },
                        );
                    },
                };
                // List the footnote unless it has been referred to before.
                if !contains(&referred_fns, footnote_number) {
                    referred_fns.push(footnote_number);
                }
                // Push the new branch.
                parse.push(Branch::CrossRef(CrossRef::new(footnote_number)));
                assert(nodes_of(parse@) =~= fn_nodes(all.subrange(0, i + 1)));
                assert(fn_nodes(all.subrange(0, i + 1)).drop_last() =~= fn_nodes(
                    all.subrange(0, i as int),
                ));
                proof {
                    let numbers = cross_numbers(fn_nodes(all.subrange(0, i as int)));
                    let more = cross_numbers(fn_nodes(all.subrange(0, i + 1)));
                    assert(more == numbers.push(footnote_number));
                    assert(more.drop_last() =~= numbers);
                }
            },
            _ => {},
        }
        i = i + 1;
    }
    proof {
        assert(all.subrange(0, i as int) =~= all);
        lemma_first_bad_number(all);
    }
    Ok((parse, referred_fns))
}

/// The main parser function: parses the tokens of the document, then those
/// of the footnotes.
pub fn parser<'a>(doc_tokens: &'a [Token<'a>], fn_tokens: &'a [Token<'a>]) -> (parsed: Result<
    (Vec<Branch<'a>>, Vec<Branch<'a>>, Vec<u32>),
    Failure,
>)
    ensures
        match parsed {
            Ok((doc_branches, fn_branches, refd_fns)) => {
                &&& parser_failure(segments_of(doc_tokens@), segments_of(fn_tokens@)) is None
                &&& nodes_of(doc_branches@) == doc_nodes(segments_of(doc_tokens@))
                &&& nodes_of(fn_branches@) == fn_nodes(segments_of(fn_tokens@))
                &&& refd_fns@ == referenced(segments_of(fn_tokens@))
            },
            Err(failure) => parser_failure(segments_of(doc_tokens@), segments_of(fn_tokens@))
                == Some(failure),
        },
        parsed is Ok <==> count_refs(segments_of(doc_tokens@)) <= u32::MAX && numbers_parse(
            segments_of(fn_tokens@),
            fn_tokens.len() as int,
        ),
        parsed matches Err(failure) ==> if count_refs(segments_of(doc_tokens@)) > u32::MAX {
            failure == (Failure::Overflow { counter: Counter::FootnoteNumber })
        } else {
            exists|at: int|
                {
                    &&& #[trigger] bad_number_at(segments_of(fn_tokens@), at)
                    &&& numbers_parse(segments_of(fn_tokens@), at)
                    &&& failure == (Failure::Parse {
                        field: Field::CrossReference,
                        index: at as usize,
                    })
                }
        },
{
    let doc_branches = match parse_fr(doc_tokens) {
        Ok(branches) => branches,
        Err(failure) => {
            return Err(failure);
        },
    };
    let (fn_branches, refd_fns) = match parse_cr(fn_tokens) {
        Ok(parsed) => parsed,
        Err(failure) => {
            return Err(failure);
        },
    };
    Ok((doc_branches, fn_branches, refd_fns))
}

/// A number is among the cross-reference numbers of a tree exactly when a
/// cross-reference branch carries it.
pub proof fn lemma_cross_numbers_contains(nodes: Seq<Node>, number: u32)
    ensures
        cross_numbers(nodes).contains(number) <==> exists|i: int|
            0 <= i < nodes.len() && #[trigger] nodes[i] == (Node::CrossRef { number }),
    decreases nodes.len(),
{
    if nodes.len() > 0 {
        let before = nodes.drop_last();
        lemma_cross_numbers_contains(before, number);
        let numbers = cross_numbers(nodes);
        if cross_numbers(before).contains(number) {
            let i = choose|i: int|
                0 <= i < before.len() && #[trigger] before[i] == (Node::CrossRef { number });
            assert(nodes[i] == before[i]);
            let k = choose|k: int|
                0 <= k < cross_numbers(before).len() && cross_numbers(before)[k] == number;
            assert(numbers[k] == number);
        } else if nodes.last() == (Node::CrossRef { number }) {
            assert(nodes[nodes.len() - 1] == (Node::CrossRef { number }));
            assert(numbers.last() == number);
        } else {
            if numbers.contains(number) {
                let k = choose|k: int| 0 <= k < numbers.len() && numbers[k] == number;
                if k < cross_numbers(before).len() {
                    assert(cross_numbers(before)[k] == number);
                }
            }
            if exists|i: int|
                0 <= i < nodes.len() && #[trigger] nodes[i] == (Node::CrossRef { number }) {
                let i = choose|i: int|
                    0 <= i < nodes.len() && #[trigger] nodes[i] == (Node::CrossRef { number });
                assert(before[i] == nodes[i]);
            }
        }
    }
}

/// Listing each number once loses no number, adds none and repeats none.
pub proof fn lemma_distinct(numbers: Seq<u32>)
    ensures
        distinct(numbers).no_duplicates(),
        forall|number: u32| #[trigger]
            distinct(numbers).contains(number) <==> numbers.contains(number),
    decreases numbers.len(),
{
    if numbers.len() > 0 {
        let before = numbers.drop_last();
        let last = numbers.last();
        lemma_distinct(before);
        let listed = distinct(numbers);
        assert forall|number: u32| #[trigger]
            listed.contains(number) <==> numbers.contains(number) by {
            if numbers.contains(number) {
                let k = choose|k: int| 0 <= k < numbers.len() && numbers[k] == number;
                if k < before.len() {
                    assert(before[k] == number);
                    assert(distinct(before).contains(number));
                    let j = choose|j: int|
                        0 <= j < distinct(before).len() && distinct(before)[j] == number;
                    assert(listed[j] == number);
                } else {
                    assert(number == last);
                    if !distinct(before).contains(last) {
                        assert(listed.last() == last);
                    }
                }
            }
            if listed.contains(number) {
                let j = choose|j: int| 0 <= j < listed.len() && listed[j] == number;
                if j < distinct(before).len() {
                    assert(distinct(before)[j] == number);
                    assert(distinct(before).contains(number));
                    assert(before.contains(number));
                    let k = choose|k: int| 0 <= k < before.len() && before[k] == number;
                    assert(numbers[k] == number);
                } else {
                    assert(numbers[numbers.len() - 1] == number);
                }
            }
        }
    }
}

/// Listing each number once keeps the order in which the numbers are first
/// met: what is listed for a prefix opens what is listed for the whole.
pub proof fn lemma_distinct_keeps_order(numbers: Seq<u32>, n: int)
    requires
        0 <= n <= numbers.len(),
    ensures
        distinct(numbers.subrange(0, n)).is_prefix_of(distinct(numbers)),
    decreases numbers.len() - n,
{
    if n == numbers.len() {
        assert(numbers.subrange(0, n) =~= numbers);
    } else {
        lemma_distinct_keeps_order(numbers.drop_last(), n);
        assert(numbers.drop_last().subrange(0, n) =~= numbers.subrange(0, n));
    }
}

/// A footnote is listed as referenced exactly when a cross-reference
/// branch of the tree carries its number, and no footnote is listed twice.
pub proof fn lemma_referenced_set(nodes: Seq<Node>)
    ensures
        distinct(cross_numbers(nodes)).no_duplicates(),
        forall|number: u32| #[trigger]
            distinct(cross_numbers(nodes)).contains(number) <==> exists|i: int|
                0 <= i < nodes.len() && #[trigger] nodes[i] == (Node::CrossRef { number }),
{
    lemma_distinct(cross_numbers(nodes));
    assert forall|number: u32| #[trigger]
        distinct(cross_numbers(nodes)).contains(number) <==> exists|i: int|
            0 <= i < nodes.len() && #[trigger] nodes[i] == (Node::CrossRef { number }) by {
        lemma_cross_numbers_contains(nodes, number);
    }
}

} // verus!
