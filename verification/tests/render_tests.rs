use autocref::failure::{Counter, Failure};
use autocref::number::{decimal_len, parse_u32, push_decimal};
use autocref::parser::{Branch, CrossRef, FootnoteRef, Text};
use autocref::render::{create_ref_id, render, render_doc, render_fn};
use std::collections::HashMap;

#[test]
fn reference_ids_are_padded_to_nine_digits() {
    assert_eq!(create_ref_id(1), "_Ref000000001");
    assert_eq!(create_ref_id(0), "_Ref000000000");
    assert_eq!(create_ref_id(42), "_Ref000000042");
    assert_eq!(create_ref_id(123456789), "_Ref123456789");
    assert_eq!(create_ref_id(999999999), "_Ref999999999");
    assert_eq!(create_ref_id(1).len(), 13);
}

#[test]
fn reference_ids_of_ten_digits_are_written_in_full() {
    assert_eq!(create_ref_id(1000000000), "_Ref1000000000");
    assert_eq!(create_ref_id(4294967295), "_Ref4294967295");
}

#[test]
fn decimal_text_of_numbers() {
    for number in [0u32, 7, 10, 99, 100, 1234, 999999999, 1000000000, 4294967295] {
        let mut out = String::from("<");
        push_decimal(&mut out, number);
        assert_eq!(out, format!("<{}", number));
        assert_eq!(decimal_len(number), number.to_string().len());
        assert_eq!(parse_u32(&number.to_string()), Some(number));
    }
}

#[test]
fn parse_u32_reads_what_the_standard_parser_reads() {
    for text in [
        "0", "1", "007", "+5", "4294967295", "4294967296", "", "+", "-", "-0", "++1", "1+", "12a",
        " 1", "1_0", "99999999999", "000000000004294967295", "٣",
    ] {
        assert_eq!(parse_u32(text), text.parse::<u32>().ok(), "{:?}", text);
    }
}

#[test]
fn referenced_footnotes_get_bookmarks_with_rising_ids() {
    let tree = vec![
        Branch::Text(Text::new("a")),
        Branch::FootnoteRef(FootnoteRef::new(1, "<r1/>")),
        Branch::Text(Text::new("b")),
        Branch::FootnoteRef(FootnoteRef::new(2, "<r2/>")),
        Branch::FootnoteRef(FootnoteRef::new(3, "<r3/>")),
        Branch::CrossRef(CrossRef::new(1)),
        Branch::Text(Text::new("c")),
    ];
    let (doc, ids) = render_doc(&tree, vec![3, 1], 10).unwrap();
    assert_eq!(
        doc,
        "a<w:bookmarkStart w:id=\"10\" w:name=\"_Ref000000001\"/><r1/><w:bookmarkEnd w:id=\"10\"/>\
         b<r2/>\
         <w:bookmarkStart w:id=\"11\" w:name=\"_Ref000000003\"/><r3/><w:bookmarkEnd w:id=\"11\"/>c"
    );
    let mut expected = HashMap::new();
    expected.insert(1u32, String::from("_Ref000000001"));
    expected.insert(3u32, String::from("_Ref000000003"));
    assert_eq!(ids, expected);
}

#[test]
fn without_references_the_document_is_unchanged() {
    let tree = vec![
        Branch::Text(Text::new("a")),
        Branch::FootnoteRef(FootnoteRef::new(1, "<r1/>")),
        Branch::Text(Text::new("b")),
    ];
    let (doc, ids) = render_doc(&tree, vec![], 4).unwrap();
    assert_eq!(doc, "a<r1/>b");
    assert!(ids.is_empty());
}

#[test]
fn an_unreferenced_footnote_leaves_the_counter_alone() {
    let tree = vec![
        Branch::FootnoteRef(FootnoteRef::new(1, "<r1/>")),
        Branch::FootnoteRef(FootnoteRef::new(2, "<r2/>")),
    ];
    let (doc, ids) = render_doc(&tree, vec![2, 9], 7).unwrap();
    assert_eq!(
        doc,
        "<r1/><w:bookmarkStart w:id=\"7\" w:name=\"_Ref000000002\"/><r2/><w:bookmarkEnd w:id=\"7\"/>"
    );
    assert_eq!(ids.len(), 1);
}

#[test]
fn the_last_bookmark_id_can_be_used_but_not_passed() {
    let tree = vec![
        Branch::FootnoteRef(FootnoteRef::new(1, "<r1/>")),
        Branch::FootnoteRef(FootnoteRef::new(2, "<r2/>")),
    ];
    let (doc, _) = render_doc(&tree, vec![1], 4294967295).unwrap();
    assert_eq!(
        doc,
        "<w:bookmarkStart w:id=\"4294967295\" w:name=\"_Ref000000001\"/><r1/>\
         <w:bookmarkEnd w:id=\"4294967295\"/><r2/>"
    );
    assert_eq!(
        render_doc(&tree, vec![1, 2], 4294967295),
        Err(Failure::Overflow { counter: Counter::BookmarkId })
    );
}

#[test]
fn cross_references_become_fields() {
    let tree = vec![
        Branch::Text(Text::new("See note ")),
        Branch::CrossRef(CrossRef::new(12)),
        Branch::FootnoteRef(FootnoteRef::new(1, "dropped")),
        Branch::Text(Text::new(".")),
    ];
    let mut ids = HashMap::new();
    ids.insert(12u32, String::from("_Ref000000012"));
    assert_eq!(
        render_fn(&tree, ids).unwrap(),
        "See note </w:t></w:r><w:fldSimple w:instr=\" NOTEREF _Ref000000012 \"><w:r><w:t>12</w:t>\
         </w:r></w:fldSimple><w:r><w:t xml:space=\"preserve\">."
    );
}

#[test]
fn a_cross_reference_without_bookmark_fails() {
    let tree = vec![
        Branch::Text(Text::new("See notes ")),
        Branch::CrossRef(CrossRef::new(1)),
        Branch::CrossRef(CrossRef::new(5)),
        Branch::CrossRef(CrossRef::new(6)),
    ];
    let mut ids = HashMap::new();
    ids.insert(1u32, String::from("_Ref000000001"));
    assert_eq!(render_fn(&tree, ids), Err(Failure::MissingReference { number: 5 }));
}

#[test]
fn render_joins_both_passes() {
    let doc_tree = vec![
        Branch::Text(Text::new("a")),
        Branch::FootnoteRef(FootnoteRef::new(1, "<r1/>")),
    ];
    let fn_tree = vec![
        Branch::Text(Text::new("note ")),
        Branch::CrossRef(CrossRef::new(1)),
    ];
    let (doc, fns) = render(&doc_tree, vec![1], 3, &fn_tree).unwrap();
    assert_eq!(
        doc,
        "a<w:bookmarkStart w:id=\"3\" w:name=\"_Ref000000001\"/><r1/><w:bookmarkEnd w:id=\"3\"/>"
    );
    assert_eq!(
        fns,
        "note </w:t></w:r><w:fldSimple w:instr=\" NOTEREF _Ref000000001 \"><w:r><w:t>1</w:t>\
         </w:r></w:fldSimple><w:r><w:t xml:space=\"preserve\">"
    );
    let missing = vec![Branch::CrossRef(CrossRef::new(2))];
    assert_eq!(
        render(&doc_tree, vec![1, 2], 3, &missing),
        Err(Failure::MissingReference { number: 2 })
    );
}
