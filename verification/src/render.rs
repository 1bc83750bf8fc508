//! The renderer: writes the two texts anew from their trees.
//!
//! In the document every footnote reference that the footnotes refer to is
//! wrapped in a bookmark. In the footnotes every cross-reference becomes a
//! field that points at the bookmark of its footnote. All other text is
//! written as it stands.

use crate::failure::{Counter, Failure};
use crate::number::{
    decimal_len, decimal_text, decimal_value, lemma_decimal_text, push_decimal,
};
use crate::parser::{Branch, Node, contains, nodes_of};
use std::collections::HashMap;
use vstd::prelude::*;
use vstd::string::*;

verus! {

broadcast use vstd::std_specs::hash::group_hash_axioms;

/// What every reference id starts with.
pub const REF_PREFIX: &'static str = "_Ref";

/// The opening tag of a bookmark, up to its id.
pub const BOOKMARK_START_OPEN: &'static str = "<w:bookmarkStart w:id=\"";

/// Between the id and the name of a bookmark.
pub const BOOKMARK_START_MID: &'static str = "\" w:name=\"";

/// The end of the opening tag of a bookmark.
pub const BOOKMARK_START_CLOSE: &'static str = "\"/>";

/// The closing tag of a bookmark, up to its id.
pub const BOOKMARK_END_OPEN: &'static str = "<w:bookmarkEnd w:id=\"";

/// The end of the closing tag of a bookmark.
pub const BOOKMARK_END_CLOSE: &'static str = "\"/>";

/// The field of a cross-reference, up to the reference id: closes the run
/// of text and opens the field.
pub const FIELD_OPEN: &'static str = "</w:t></w:r><w:fldSimple w:instr=\" NOTEREF ";

/// Between the reference id and the number that the field shows.
pub const FIELD_MID: &'static str = " \"><w:r><w:t>";

/// The end of the field: closes it and opens a run of text again.
pub const FIELD_CLOSE: &'static str =
    "</w:t></w:r></w:fldSimple><w:r><w:t xml:space=\"preserve\">";

/// The room that an output string is given at the start.
pub const OUTPUT_CAPACITY: usize = 512000;

/// Calls `String::with_capacity`.
///
/// Trusted: the new string is empty, whatever room was set aside for it.
#[verifier::external_body]
fn string_with_capacity(capacity: usize) -> (s: String)
    requires
        capacity <= 0x7fff_ffff,
    ensures
        s@ == Seq::<char>::empty(),
{
    String::with_capacity(capacity)
}

/// A run of `count` zeros; none where `count` is negative.
pub open spec fn zeros(count: int) -> Seq<char> {
    Seq::new(
        if count > 0 {
            count as nat
        } else {
            0
        },
        |i: int| '0',
    )
}

/// The reference id of a footnote: the prefix, then the number of the
/// footnote in decimal, filled up with zeros on the left to nine digits. A
/// number of ten digits is written in full, so the id is then one
/// character longer.
pub open spec fn ref_id_text(number: nat) -> Seq<char> {
    REF_PREFIX@ + zeros(9 - decimal_text(number).len()) + decimal_text(number)
}

/// The opening tag of the bookmark with a given id and name.
pub open spec fn bookmark_start_text(id: nat, name: Seq<char>) -> Seq<char> {
    BOOKMARK_START_OPEN@ + decimal_text(id) + BOOKMARK_START_MID@ + name + BOOKMARK_START_CLOSE@
}

/// The closing tag of the bookmark with a given id.
pub open spec fn bookmark_end_text(id: nat) -> Seq<char> {
    BOOKMARK_END_OPEN@ + decimal_text(id) + BOOKMARK_END_CLOSE@
}

/// The field that shows a footnote's number and points at the bookmark of
/// a given name.
pub open spec fn field_text(name: Seq<char>, number: nat) -> Seq<char> {
    FIELD_OPEN@ + name + FIELD_MID@ + decimal_text(number) + FIELD_CLOSE@
}

/// Creates the reference id of a footnote from its number.
pub fn create_ref_id(number: u32) -> (ref_id: String)
    ensures
        ref_id@ == ref_id_text(number as nat),
{
    let mut ref_id = string_with_capacity(13);
    ref_id.append(REF_PREFIX);
    // Fill up with the zeros that the number leaves room for.
    let digits = decimal_len(number);
    let mut width = digits;
    while width < 9
        invariant
            digits <= width,
            digits == decimal_text(number as nat).len(),
            width < 9 || width == digits || width == 9,
            ref_id@ == REF_PREFIX@ + zeros(width - digits),
        decreases 9 - width,
    {
        proof {
            reveal_strlit("0");
        }
        ref_id.append("0");
        width = width + 1;
        assert(ref_id@ =~= REF_PREFIX@ + zeros(width - digits));
    }
    assert(zeros(width - digits) =~= zeros(9 - digits));
    // Then the number itself.
    push_decimal(&mut ref_id, number);
    ref_id
}

/// What rendering the document gives: the new text, the reference id of
/// every footnote that got a bookmark, and the ids of the bookmarks in the
/// order in which they were written.
pub struct DocRender {
    pub text: Seq<char>,
    pub names: Map<u32, Seq<char>>,
    pub ids: Seq<nat>,
}

/// The rendering of the document. Text is written as it stands. A footnote
/// reference whose number is among `refd` is written between the two tags
/// of a bookmark; the bookmarks get the ids `start`, `start + 1` and so
/// on, in the order in which they are written, and the reference id of the
/// footnote for a name. Any other footnote reference is written as it
/// stands. Cross-references have no place in the document and are left
/// out. The bookmark counter moves on with each bookmark and with nothing
/// else.
pub open spec fn rendered_doc(nodes: Seq<Node>, refd: Seq<u32>, start: nat) -> DocRender
    decreases nodes.len(),
{
    if nodes.len() == 0 {
        DocRender { text: Seq::empty(), names: Map::empty(), ids: Seq::empty() }
    } else {
        let before = rendered_doc(nodes.drop_last(), refd, start);
        match nodes.last() {
            Node::Text { contents } => DocRender { text: before.text + contents, ..before },
            Node::FootnoteRef { number, contents } => if refd.contains(number) {
                let id = start + before.ids.len();
                let name = ref_id_text(number as nat);
                DocRender {
                    text: before.text + bookmark_start_text(id, name) + contents
                        + bookmark_end_text(id),
                    names: before.names.insert(number, name),
                    ids: before.ids.push(id),
                }
            } else {
                DocRender { text: before.text + contents, ..before }
            },
            Node::CrossRef { .. } => before,
        }
    }
}

/// True when every bookmark of the rendering has an id of 32 bits.
pub open spec fn bookmarks_in_range(nodes: Seq<Node>, refd: Seq<u32>, start: nat) -> bool {
    start + rendered_doc(nodes, refd, start).ids.len() <= u32::MAX + 1
}

/// The reference ids that a table holds, as texts.
pub open spec fn names_of(ref_ids: Map<u32, String>) -> Map<u32, Seq<char>> {
    Map::new(|number: u32| ref_ids.contains_key(number), |number: u32| ref_ids[number]@)
}

/// The rendering of a tree holds at least as many bookmarks as that of any
/// of its prefixes.
pub proof fn lemma_marked_prefix(nodes: Seq<Node>, refd: Seq<u32>, start: nat, n: int)
    requires
        0 <= n <= nodes.len(),
    ensures
        rendered_doc(nodes.subrange(0, n), refd, start).ids.len() <= rendered_doc(
            nodes,
            refd,
            start,
        ).ids.len(),
    decreases nodes.len() - n,
{
    if n == nodes.len() {
        assert(nodes.subrange(0, n) =~= nodes);
    } else {
        lemma_marked_prefix(nodes.drop_last(), refd, start, n);
        assert(nodes.drop_last().subrange(0, n) =~= nodes.subrange(0, n));
    }
}

/// Why the document cannot be rendered, if it cannot: a bookmark would
/// need an id above the largest 32-bit number.
pub open spec fn render_doc_failure(nodes: Seq<Node>, refd: Seq<u32>, start: nat) -> Option<
    Failure,
> {
    if bookmarks_in_range(nodes, refd, start) {
        None
    } else {
        Some(Failure::Overflow { counter: Counter::BookmarkId })
    }
}

/// Renders the document.
///
/// Returns the new text and the table of the reference ids, by the number
/// of the footnote. Fails where a bookmark would need an id above the
/// largest 32-bit number.
pub fn render_doc(tree: &[Branch], refd_notes: Vec<u32>, starting_bookmark: u32) -> (rendered:
    Result<(String, HashMap<u32, String>), Failure>)
    ensures
        match rendered {
            Ok((doc_output, ref_ids)) => {
                let render = rendered_doc(nodes_of(tree@), refd_notes@, starting_bookmark as nat);
                &&& render_doc_failure(nodes_of(tree@), refd_notes@, starting_bookmark as nat)
                    is None
                &&& doc_output@ == render.text
                &&& names_of(ref_ids@) == render.names
            },
            Err(failure) => render_doc_failure(
                nodes_of(tree@),
                refd_notes@,
                starting_bookmark as nat,
            ) == Some(failure),
        },
{
    let mut doc_output = string_with_capacity(OUTPUT_CAPACITY);
    // The reference id of each footnote that is referred to.
    let mut ref_ids: HashMap<u32, String> = HashMap::new();
    let mut next_bookmark: u32 = starting_bookmark;
    let mut spent: bool = false;
    let ghost nodes = nodes_of(tree@);
    let ghost start = starting_bookmark as nat;
    let mut i: usize = 0;
    proof {
        assert(nodes.subrange(0, 0) =~= Seq::<Node>::empty());
        assert(names_of(ref_ids@) =~= Map::<u32, Seq<char>>::empty());
    }
    while i < tree.len()
        invariant
            i <= tree.len(),
            nodes == nodes_of(tree@),
            start == starting_bookmark,
            doc_output@ == rendered_doc(nodes.subrange(0, i as int), refd_notes@, start).text,
            names_of(ref_ids@) == rendered_doc(nodes.subrange(0, i as int), refd_notes@, start).names,
            !spent ==> next_bookmark == start + rendered_doc(
                nodes.subrange(0, i as int),
                refd_notes@,
                start,
            ).ids.len(),
            spent ==> start + rendered_doc(nodes.subrange(0, i as int), refd_notes@, start).ids.len()
                == u32::MAX + 1,
        decreases tree.len() - i,
    {
        let ghost before = rendered_doc(nodes.subrange(0, i as int), refd_notes@, start);
        proof {
            assert(nodes.subrange(0, i + 1).drop_last() =~= nodes.subrange(0, i as int));
            assert(nodes.subrange(0, i + 1).last() == tree@[i as int]@);
        }
        match &tree[i] {
            Branch::Text(text) => {
                doc_output.append(text.contents);
            },
            Branch::FootnoteRef(footnote_ref) => {
                // A footnote reference that is referred to needs a bookmark.
                if contains(&refd_notes, footnote_ref.number) {
                    if spent {
                        proof {
                            lemma_marked_prefix(nodes, refd_notes@, start, i + 1);
                        }
                        return Err(Failure::Overflow { counter: Counter::BookmarkId });
                    }
                    // First create the reference id and keep it.
                    let ref_id = create_ref_id(footnote_ref.number);
                    // Then add the markup around the reference.
                    doc_output.append(BOOKMARK_START_OPEN);
                    push_decimal(&mut doc_output, next_bookmark);
                    doc_output.append(BOOKMARK_START_MID);
                    doc_output.append(ref_id.as_str());
                    doc_output.append(BOOKMARK_START_CLOSE);
                    doc_output.append(footnote_ref.contents);
                    doc_output.append(BOOKMARK_END_OPEN);
                    push_decimal(&mut doc_output, next_bookmark);
                    doc_output.append(BOOKMARK_END_CLOSE);
                    let ghost name = ref_id@;
                    ref_ids.insert(footnote_ref.number, ref_id);
                    proof {
                        assert(names_of(ref_ids@) =~= before.names.insert(
                            footnote_ref.number,
                            name,
                        ));
                        assert(doc_output@ =~= before.text + bookmark_start_text(
                            next_bookmark as nat,
                            name,
                        ) + footnote_ref.contents@ + bookmark_end_text(next_bookmark as nat));
                    }
                    // Move on to the next bookmark id.
                    if next_bookmark == u32::MAX {
                        spent = true;
                    } else {
                        next_bookmark = next_bookmark + 1;
                    }
                } else {
                    // Any other reference stays as it was.
                    doc_output.append(footnote_ref.contents);
                }
            },
            _ => {},
        }
        i = i + 1;
    }
    proof {
        assert(nodes.subrange(0, i as int) =~= nodes);
    }
    Ok((doc_output, ref_ids))
}

/// True when every cross-reference among the first `n` nodes has a
/// reference id in the table.
pub open spec fn references_known(nodes: Seq<Node>, names: Map<u32, Seq<char>>, n: int) -> bool {
    forall|i: int|
        0 <= i < n && i < nodes.len() ==> (#[trigger] nodes[i] matches Node::CrossRef { number }
            ==> names.contains_key(number))
}

/// True when the node at `at` is a cross-reference to a footnote without a
/// reference id.
pub open spec fn missing_at(nodes: Seq<Node>, names: Map<u32, Seq<char>>, at: int) -> bool {
    &&& 0 <= at < nodes.len()
    &&& nodes[at] matches Node::CrossRef { number }
    &&& !names.contains_key(number)
}

/// The number that a cross-reference carries; zero for any other node.
pub open spec fn cross_number(node: Node) -> u32 {
    match node {
        Node::CrossRef { number } => number,
        _ => 0,
    }
}

/// The rendering of the footnotes. Text is written as it stands; a
/// cross-reference becomes the field that shows its number and points at
/// the reference id of its footnote. Footnote references have no place in
/// the footnotes and are left out.
pub open spec fn rendered_fn(nodes: Seq<Node>, names: Map<u32, Seq<char>>) -> Seq<char>
    decreases nodes.len(),
{
    if nodes.len() == 0 {
        Seq::empty()
    } else {
        let before = rendered_fn(nodes.drop_last(), names);
        match nodes.last() {
            Node::Text { contents } => before + contents,
            Node::CrossRef { number } => before + field_text(names[number], number as nat),
            Node::FootnoteRef { .. } => before,
        }
    }
}

/// The place of the first cross-reference to a footnote without a
/// reference id; `None` where every cross-reference has one.
pub open spec fn first_missing(nodes: Seq<Node>, names: Map<u32, Seq<char>>) -> Option<int>
    decreases nodes.len(),
{
    if nodes.len() == 0 {
        None
    } else {
        match first_missing(nodes.drop_last(), names) {
            Some(at) => Some(at),
            None => if missing_at(nodes, names, nodes.len() - 1) {
                Some(nodes.len() - 1)
            } else {
                None
            },
        }
    }
}

/// Why the footnotes cannot be rendered, if they cannot: the first
/// cross-reference without a reference id, by the number of its footnote.
pub open spec fn render_fn_failure(nodes: Seq<Node>, names: Map<u32, Seq<char>>) -> Option<
    Failure,
> {
    match first_missing(nodes, names) {
        Some(at) => Some(Failure::MissingReference { number: cross_number(nodes[at]) }),
        None => None,
    }
}

/// Why the two trees cannot be rendered, if they cannot: what is wrong
/// with the document's, or else what is wrong with the footnotes' given
/// the reference ids that the document was given.
pub open spec fn render_failure(
    doc_nodes: Seq<Node>,
    refd: Seq<u32>,
    start: nat,
    fn_nodes: Seq<Node>,
) -> Option<Failure> {
    match render_doc_failure(doc_nodes, refd, start) {
        Some(failure) => Some(failure),
        None => render_fn_failure(fn_nodes, rendered_doc(doc_nodes, refd, start).names),
    }
}

/// The first missing reference is a cross-reference without a reference
/// id, and every cross-reference before it has one. Where none is missing
/// every cross-reference has one.
pub proof fn lemma_first_missing(nodes: Seq<Node>, names: Map<u32, Seq<char>>)
    ensures
        first_missing(nodes, names) is None <==> references_known(
            nodes,
            names,
            nodes.len() as int,
        ),
        first_missing(nodes, names) matches Some(at) ==> missing_at(nodes, names, at)
            && references_known(nodes, names, at),
    decreases nodes.len(),
{
    if nodes.len() > 0 {
        let before = nodes.drop_last();
        lemma_first_missing(before, names);
        assert forall|i: int| 0 <= i < before.len() implies #[trigger] before[i] == nodes[i] by {}
        match first_missing(before, names) {
            Some(at) => {
                assert(before[at] == nodes[at]);
                assert forall|i: int| 0 <= i < at && i < nodes.len() implies (#[trigger] nodes[i] matches Node::CrossRef {
                    number,
                } ==> names.contains_key(number)) by {
                    assert(before[i] == nodes[i]);
                }
                assert(!references_known(nodes, names, nodes.len() as int));
            },
            None => {
                assert forall|i: int| 0 <= i < nodes.len() - 1 implies (#[trigger] nodes[i] matches Node::CrossRef {
                    number,
                } ==> names.contains_key(number)) by {
                    assert(before[i] == nodes[i]);
                }
                if missing_at(nodes, names, nodes.len() - 1) {
                    assert(nodes[nodes.len() - 1] is CrossRef);
                }
            },
        }
    }
}

/// A missing reference among the first nodes stays the first missing one
/// when more nodes follow.
pub proof fn lemma_first_missing_stays(nodes: Seq<Node>, names: Map<u32, Seq<char>>, n: int)
    requires
        0 <= n <= nodes.len(),
        first_missing(nodes.subrange(0, n), names) is Some,
    ensures
        first_missing(nodes, names) == first_missing(nodes.subrange(0, n), names),
    decreases nodes.len() - n,
{
    if n == nodes.len() {
        assert(nodes.subrange(0, n) =~= nodes);
    } else {
        assert(nodes.drop_last().subrange(0, n) =~= nodes.subrange(0, n));
        lemma_first_missing_stays(nodes.drop_last(), names, n);
    }
}

/// Renders the footnotes.
///
/// Fails at the first cross-reference to a footnote that has no reference
/// id in the table, and names that footnote.
pub fn render_fn(tree: &[Branch], ref_ids: HashMap<u32, String>) -> (rendered: Result<
    String,
    Failure,
>)
    ensures
        match rendered {
            Ok(fn_output) => {
                &&& render_fn_failure(nodes_of(tree@), names_of(ref_ids@)) is None
                &&& fn_output@ == rendered_fn(nodes_of(tree@), names_of(ref_ids@))
            },
            Err(failure) => render_fn_failure(nodes_of(tree@), names_of(ref_ids@)) == Some(
                failure,
            ),
        },
        rendered is Ok <==> references_known(nodes_of(tree@), names_of(ref_ids@), tree.len() as int),
        rendered matches Err(failure) ==> exists|at: int|
            {
                &&& #[trigger] missing_at(nodes_of(tree@), names_of(ref_ids@), at)
                &&& references_known(nodes_of(tree@), names_of(ref_ids@), at)
                &&& failure == (Failure::MissingReference {
                    number: cross_number(nodes_of(tree@)[at]),
                })
            },
{
    let mut fn_output = string_with_capacity(OUTPUT_CAPACITY);
    let ghost nodes = nodes_of(tree@);
    let ghost names = names_of(ref_ids@);
    let mut i: usize = 0;
    proof {
        assert(nodes.subrange(0, 0) =~= Seq::<Node>::empty());
    }
    while i < tree.len()
        invariant
            i <= tree.len(),
            nodes == nodes_of(tree@),
            names == names_of(ref_ids@),
            first_missing(nodes.subrange(0, i as int), names) is None,
            fn_output@ == rendered_fn(nodes.subrange(0, i as int), names),
        decreases tree.len() - i,
    {
        proof {
            assert(nodes.subrange(0, i + 1).drop_last() =~= nodes.subrange(0, i as int));
            assert(nodes.subrange(0, i + 1).last() == tree@[i as int]@);
            assert(nodes[i as int] == tree@[i as int]@);
        }
        match &tree[i] {
            Branch::Text(text) => {
                fn_output.append(text.contents);
            },
            Branch::CrossRef(cross_ref) => {
                let ref_id = match ref_ids.get(&cross_ref.number) {
                    Some(ref_id) => ref_id,
                    None => {
                        proof {
                            assert(missing_at(nodes.subrange(0, i + 1), names, i as int));
                            lemma_first_missing_stays(nodes, names, i + 1);
                            lemma_first_missing(nodes, names);
                        }
                        return Err(Failure::MissingReference { number: cross_ref.number });
                    },
                };
                // Add the markup of the field.
                let ghost before = fn_output@;
                fn_output.append(FIELD_OPEN);
                fn_output.append(ref_id.as_str());
                fn_output.append(FIELD_MID);
                push_decimal(&mut fn_output, cross_ref.number);
                fn_output.append(FIELD_CLOSE);
                assert(fn_output@ =~= before + field_text(
                    names[cross_ref.number],
                    cross_ref.number as nat,
                ));
            },
            _ => {},
        }
        i = i + 1;
    }
    proof {
        assert(nodes.subrange(0, i as int) =~= nodes);
        lemma_first_missing(nodes, names);
    }
    Ok(fn_output)
}

/// The main render function: renders the document, then the footnotes with
/// the reference ids that the document was given.
pub fn render(
    doc_tree: &[Branch],
    refd_notes: Vec<u32>,
    starting_bookmark: u32,
    fn_tree: &[Branch],
) -> (rendered: Result<(String, String), Failure>)
    ensures
        match rendered {
            Ok((doc_output, fn_output)) => {
                let render = rendered_doc(
                    nodes_of(doc_tree@),
                    refd_notes@,
                    starting_bookmark as nat,
                );
                &&& render_failure(
                    nodes_of(doc_tree@),
                    refd_notes@,
                    starting_bookmark as nat,
                    nodes_of(fn_tree@),
                ) is None
                &&& doc_output@ == render.text
                &&& fn_output@ == rendered_fn(nodes_of(fn_tree@), render.names)
            },
            Err(failure) => render_failure(
                nodes_of(doc_tree@),
                refd_notes@,
                starting_bookmark as nat,
                nodes_of(fn_tree@),
            ) == Some(failure),
        },
        rendered is Ok <==> {
            &&& bookmarks_in_range(nodes_of(doc_tree@), refd_notes@, starting_bookmark as nat)
            &&& references_known(
                nodes_of(fn_tree@),
                rendered_doc(nodes_of(doc_tree@), refd_notes@, starting_bookmark as nat).names,
                fn_tree.len() as int,
            )
        },
        rendered matches Err(failure) ==> if !bookmarks_in_range(
            nodes_of(doc_tree@),
            refd_notes@,
            starting_bookmark as nat,
        ) {
            failure == (Failure::Overflow { counter: Counter::BookmarkId })
        } else {
            let names = rendered_doc(
                nodes_of(doc_tree@),
                refd_notes@,
                starting_bookmark as nat,
            ).names;
            exists|at: int|
                {
                    &&& #[trigger] missing_at(nodes_of(fn_tree@), names, at)
                    &&& references_known(nodes_of(fn_tree@), names, at)
                    &&& failure == (Failure::MissingReference {
                        number: cross_number(nodes_of(fn_tree@)[at]),
                    })
                }
        },
{
    // Render the document.
    let (doc_output, ref_ids) = match render_doc(doc_tree, refd_notes, starting_bookmark) {
        Ok(rendered) => rendered,
        Err(failure) => {
            return Err(failure);
        },
    };
    // Render the footnotes.
    let fn_output = match render_fn(fn_tree, ref_ids) {
        Ok(rendered) => rendered,
        Err(failure) => {
            return Err(failure);
        },
    };
    Ok((doc_output, fn_output))
}

/// The characters of a tree: those of its text and of its footnote
/// references, in order.
pub open spec fn nodes_text(nodes: Seq<Node>) -> Seq<char>
    decreases nodes.len(),
{
    if nodes.len() == 0 {
        Seq::empty()
    } else {
        let before = nodes_text(nodes.drop_last());
        match nodes.last() {
            Node::Text { contents } => before + contents,
            Node::FootnoteRef { contents, .. } => before + contents,
            Node::CrossRef { .. } => before,
        }
    }
}

/// The ids of the bookmarks are `start`, `start + 1` and so on, in the order in which the bookmarks are written:
/// they rise by one from each to the next, so none is skipped and none is
/// used twice.
pub proof fn lemma_bookmark_ids(nodes: Seq<Node>, refd: Seq<u32>, start: nat)
    ensures
        forall|k: int|
            0 <= k < rendered_doc(nodes, refd, start).ids.len() ==> #[trigger] rendered_doc(
                nodes,
                refd,
                start,
            ).ids[k] == start + k,
    decreases nodes.len(),
{
    if nodes.len() > 0 {
        lemma_bookmark_ids(nodes.drop_last(), refd, start);
        let before = rendered_doc(nodes.drop_last(), refd, start).ids;
        let ids = rendered_doc(nodes, refd, start).ids;
        assert forall|k: int| 0 <= k < ids.len() implies #[trigger] ids[k] == start + k by {
            if k < before.len() {
                assert(ids[k] == before[k]);
            }
        }
    }
}

/// No new bookmark takes an id that is in use: where the ids start at a
/// number above every id in use, each id of the rendering differs from
/// each of them.
pub proof fn lemma_bookmark_ids_fresh(
    nodes: Seq<Node>,
    refd: Seq<u32>,
    start: nat,
    in_use: Seq<u32>,
)
    requires
        forall|j: int| 0 <= j < in_use.len() ==> #[trigger] in_use[j] < start,
    ensures
        forall|k: int, j: int|
            0 <= k < rendered_doc(nodes, refd, start).ids.len() && 0 <= j < in_use.len()
                ==> #[trigger] rendered_doc(nodes, refd, start).ids[k] != #[trigger] in_use[j],
{
    lemma_bookmark_ids(nodes, refd, start);
}

/// Without a footnote that is referred to, rendering the document writes
/// the characters of its tree and nothing else: no bookmark, no reference
/// id.
pub proof fn lemma_render_unreferenced(nodes: Seq<Node>, refd: Seq<u32>, start: nat)
    requires
        forall|i: int|
            0 <= i < nodes.len() ==> (#[trigger] nodes[i] matches Node::FootnoteRef { number, .. }
                ==> !refd.contains(number)),
    ensures
        rendered_doc(nodes, refd, start).text == nodes_text(nodes),
        rendered_doc(nodes, refd, start).ids.len() == 0,
        rendered_doc(nodes, refd, start).names == Map::<u32, Seq<char>>::empty(),
    decreases nodes.len(),
{
    if nodes.len() > 0 {
        let before = nodes.drop_last();
        assert forall|i: int| 0 <= i < before.len() implies (#[trigger] before[i] matches Node::FootnoteRef {
            number,
            ..
        } ==> !refd.contains(number)) by {
            assert(before[i] == nodes[i]);
        }
        lemma_render_unreferenced(before, refd, start);
        assert(nodes.last() == nodes[nodes.len() - 1]);
    }
}

/// Zeros in front of a run of characters do not change the number that it
/// denotes.
pub proof fn lemma_leading_zeros(count: int, digits: Seq<char>)
    ensures
        decimal_value(zeros(count) + digits) == decimal_value(digits),
    decreases digits.len(), count,
{
    if digits.len() > 0 {
        lemma_leading_zeros(count, digits.drop_last());
        assert((zeros(count) + digits).drop_last() =~= zeros(count) + digits.drop_last());
    } else if count > 0 {
        lemma_leading_zeros(count - 1, digits);
        assert(zeros(count) + digits =~= zeros(count));
        assert(zeros(count - 1) + digits =~= zeros(count - 1));
        assert(zeros(count).drop_last() =~= zeros(count - 1));
    } else {
        assert(zeros(count) + digits =~= Seq::<char>::empty());
    }
}

/// Two footnotes never share a reference id, whatever their numbers.
pub proof fn lemma_ref_ids_differ(one: nat, other: nat)
    requires
        one != other,
    ensures
        ref_id_text(one) != ref_id_text(other),
{
    let padded_one = zeros(9 - decimal_text(one).len()) + decimal_text(one);
    let padded_other = zeros(9 - decimal_text(other).len()) + decimal_text(other);
    lemma_leading_zeros(9 - decimal_text(one).len(), decimal_text(one));
    lemma_leading_zeros(9 - decimal_text(other).len(), decimal_text(other));
    lemma_decimal_text(one);
    lemma_decimal_text(other);
    let prefix = REF_PREFIX@.len() as int;
    assert(ref_id_text(one) =~= REF_PREFIX@ + padded_one);
    assert(ref_id_text(other) =~= REF_PREFIX@ + padded_other);
    assert((REF_PREFIX@ + padded_one).subrange(prefix, prefix + padded_one.len()) =~= padded_one);
    assert((REF_PREFIX@ + padded_other).subrange(prefix, prefix + padded_other.len())
        =~= padded_other);
}

} // verus!
