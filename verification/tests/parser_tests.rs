use autocref::failure::{Failure, Field};
use autocref::lexer::{Token, TokenType};
use autocref::parser::{contains, parse_cr, parse_fr, parser, Branch, CrossRef, FootnoteRef, Text};

#[test]
fn branch_constructors_keep_their_parts() {
    assert_eq!(Text::new("abc"), Text { contents: "abc" });
    assert_eq!(FootnoteRef::new(3, "run"), FootnoteRef { number: 3, contents: "run" });
    assert_eq!(CrossRef::new(9), CrossRef { number: 9 });
}

#[test]
fn footnote_references_are_numbered_in_order() {
    let tokens = vec![
        Token::new(TokenType::Other, "a"),
        Token::new(TokenType::FootnoteRef, "r1"),
        Token::new(TokenType::Other, ""),
        Token::new(TokenType::FootnoteRef, "r2"),
        Token::new(TokenType::CrossRef, "77"),
        Token::new(TokenType::FootnoteRef, "r3"),
        Token::new(TokenType::Other, "z"),
    ];
    let branches = parse_fr(&tokens).unwrap();
    assert_eq!(
        branches,
        vec![
            Branch::Text(Text::new("a")),
            Branch::FootnoteRef(FootnoteRef::new(1, "r1")),
            Branch::Text(Text::new("")),
            Branch::FootnoteRef(FootnoteRef::new(2, "r2")),
            Branch::FootnoteRef(FootnoteRef::new(3, "r3")),
            Branch::Text(Text::new("z")),
        ]
    );
    let numbers: Vec<u32> = branches
        .iter()
        .filter_map(|b| match b {
            Branch::FootnoteRef(r) => Some(r.number),
            _ => None,
        })
        .collect();
    assert_eq!(numbers, vec![1, 2, 3]);
}

#[test]
fn cross_references_are_read_and_listed_once() {
    let tokens = vec![
        Token::new(TokenType::Other, "see "),
        Token::new(TokenType::CrossRef, "5"),
        Token::new(TokenType::Other, "–"),
        Token::new(TokenType::CrossRef, "2"),
        Token::new(TokenType::FootnoteRef, "dropped"),
        Token::new(TokenType::CrossRef, "005"),
        Token::new(TokenType::CrossRef, "+7"),
        Token::new(TokenType::CrossRef, "2"),
        Token::new(TokenType::Other, "."),
    ];
    let (branches, referred) = parse_cr(&tokens).unwrap();
    assert_eq!(
        branches,
        vec![
            Branch::Text(Text::new("see ")),
            Branch::CrossRef(CrossRef::new(5)),
            Branch::Text(Text::new("–")),
            Branch::CrossRef(CrossRef::new(2)),
            Branch::CrossRef(CrossRef::new(5)),
            Branch::CrossRef(CrossRef::new(7)),
            Branch::CrossRef(CrossRef::new(2)),
            Branch::Text(Text::new(".")),
        ]
    );
    assert_eq!(referred, vec![5, 2, 7]);
}

#[test]
fn the_largest_number_is_read() {
    let tokens = vec![Token::new(TokenType::CrossRef, "4294967295")];
    let (branches, referred) = parse_cr(&tokens).unwrap();
    assert_eq!(branches, vec![Branch::CrossRef(CrossRef::new(4294967295))]);
    assert_eq!(referred, vec![4294967295]);
}

#[test]
fn a_cross_reference_that_is_no_number_fails() {
    let wrong = Failure::Parse { field: Field::CrossReference, index: 2 };
    for text in ["", "12a", "-1", "+", "4294967296", "99999999999999999999", "1 ", "١"] {
        let tokens = vec![
            Token::new(TokenType::Other, "see "),
            Token::new(TokenType::CrossRef, "1"),
            Token::new(TokenType::CrossRef, text),
            Token::new(TokenType::CrossRef, "also wrong"),
        ];
        assert_eq!(parse_cr(&tokens), Err(wrong));
    }
}

#[test]
fn parser_parses_both_lists() {
    let doc = vec![
        Token::new(TokenType::Other, "a"),
        Token::new(TokenType::FootnoteRef, "r"),
        Token::new(TokenType::Other, "b"),
    ];
    let fns = vec![
        Token::new(TokenType::Other, "see note "),
        Token::new(TokenType::CrossRef, "1"),
        Token::new(TokenType::Other, "."),
    ];
    let (doc_branches, fn_branches, referred) = parser(&doc, &fns).unwrap();
    assert_eq!(
        doc_branches,
        vec![
            Branch::Text(Text::new("a")),
            Branch::FootnoteRef(FootnoteRef::new(1, "r")),
            Branch::Text(Text::new("b")),
        ]
    );
    assert_eq!(
        fn_branches,
        vec![
            Branch::Text(Text::new("see note ")),
            Branch::CrossRef(CrossRef::new(1)),
            Branch::Text(Text::new(".")),
        ]
    );
    assert_eq!(referred, vec![1]);

    let bad = vec![Token::new(TokenType::CrossRef, "x")];
    assert_eq!(
        parser(&doc, &bad),
        Err(Failure::Parse { field: Field::CrossReference, index: 0 })
    );
}

#[test]
fn contains_finds_what_is_there() {
    assert!(contains(&vec![3, 1, 2], 1));
    assert!(!contains(&vec![3, 1, 2], 4));
    assert!(!contains(&vec![], 0));
}
