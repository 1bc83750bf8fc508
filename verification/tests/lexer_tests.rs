use autocref::failure::Failure;
use autocref::lexer::{
    fits, has_dash, lex, lex_doc, lex_doc_from, lex_fn, lex_fn_from, range_parts, CrossMatch, Lexer,
    RangeParts, Token, TokenType,
};

const RUN_1: &str = r#"<w:r><w:rPr><w:rStyle w:val="FootnoteReference" /></w:rPr><w:footnoteReference w:id="20" /></w:r>"#;
const RUN_2: &str = r#"<w:r><w:rPr><w:rStyle w:val="FootnoteReference" /></w:rPr><w:footnoteReference w:id="21" /></w:r>"#;

fn joined(tokens: &[Token]) -> String {
    let mut all = String::new();
    for token in tokens {
        all.push_str(token.contents);
    }
    all
}

#[test]
fn single_ref() {
    let input = r#"<w:footnote w:id="21"><w:p><w:pPr><w:pStyle w:val="FootnoteText" /></w:pPr><w:r>
  <w:rPr>
    <w:rStyle w:val="FootnoteReference" />
  </w:rPr>
  <w:footnoteRef />
</w:r><w:r><w:t xml:space="preserve"> </w:t></w:r><w:r><w:t xml:space="preserve">Footnote 2. Cross references footnote 1.</w:t></w:r><w:r><w:t xml:space="preserve"> </w:t></w:r><w:r><w:rPr><w:iCs /><w:i /></w:rPr><w:t xml:space="preserve">See</w:t></w:r><w:r><w:t xml:space="preserve"> </w:t></w:r><w:r><w:rPr><w:iCs /><w:i /></w:rPr><w:t xml:space="preserve">supra</w:t></w:r><w:r><w:t xml:space="preserve"> </w:t></w:r><w:r><w:t xml:space="preserve">note 1.</w:t></w:r></w:p></w:footnote>"#;

    let tokens = lex_fn(input).unwrap();
    assert_eq!(tokens.len(), 3);
    assert_eq!(tokens[0].token_type, TokenType::Other);
    assert_eq!(tokens[1].token_type, TokenType::CrossRef);
    assert_eq!(tokens[2].token_type, TokenType::Other);

    assert_eq!(
        tokens[0].contents,
        r#"<w:footnote w:id="21"><w:p><w:pPr><w:pStyle w:val="FootnoteText" /></w:pPr><w:r>
  <w:rPr>
    <w:rStyle w:val="FootnoteReference" />
  </w:rPr>
  <w:footnoteRef />
</w:r><w:r><w:t xml:space="preserve"> </w:t></w:r><w:r><w:t xml:space="preserve">Footnote 2. Cross references footnote 1.</w:t></w:r><w:r><w:t xml:space="preserve"> </w:t></w:r><w:r><w:rPr><w:iCs /><w:i /></w:rPr><w:t xml:space="preserve">See</w:t></w:r><w:r><w:t xml:space="preserve"> </w:t></w:r><w:r><w:rPr><w:iCs /><w:i /></w:rPr><w:t xml:space="preserve">supra</w:t></w:r><w:r><w:t xml:space="preserve"> </w:t></w:r><w:r><w:t xml:space="preserve">note "#
    );
    assert_eq!(tokens[1].contents, "1");
    assert_eq!(tokens[2].contents, r#".</w:t></w:r></w:p></w:footnote>"#);
}

#[test]
fn ref_range() {
    let input = r#"<w:footnote w:id="22"><w:p><w:pPr><w:pStyle w:val="FootnoteText" /></w:pPr><w:r>
  <w:rPr>
    <w:rStyle w:val="FootnoteReference" />
  </w:rPr>
  <w:footnoteRef />
</w:r><w:r><w:t xml:space="preserve"> </w:t></w:r><w:r><w:t xml:space="preserve">Footnote 3. Cross references a range of footnotes, 1 and 2.</w:t></w:r><w:r><w:t xml:space="preserve"> </w:t></w:r><w:r><w:rPr><w:iCs /><w:i /></w:rPr><w:t xml:space="preserve">See</w:t></w:r><w:r><w:t xml:space="preserve"> </w:t></w:r><w:r><w:rPr><w:iCs /><w:i /></w:rPr><w:t xml:space="preserve">supra</w:t></w:r><w:r><w:t xml:space="preserve"> </w:t></w:r><w:r><w:t xml:space="preserve">notes 1–2.</w:t></w:r></w:p></w:footnote>"#;

    let tokens = lex_fn(input).unwrap();
    assert_eq!(tokens.len(), 5);
    assert_eq!(tokens[0].token_type, TokenType::Other);
    assert_eq!(tokens[1].token_type, TokenType::CrossRef);
    assert_eq!(tokens[2].token_type, TokenType::Other);
    assert_eq!(tokens[3].token_type, TokenType::CrossRef);
    assert_eq!(tokens[4].token_type, TokenType::Other);

    assert_eq!(
        tokens[0].contents,
        r#"<w:footnote w:id="22"><w:p><w:pPr><w:pStyle w:val="FootnoteText" /></w:pPr><w:r>
  <w:rPr>
    <w:rStyle w:val="FootnoteReference" />
  </w:rPr>
  <w:footnoteRef />
</w:r><w:r><w:t xml:space="preserve"> </w:t></w:r><w:r><w:t xml:space="preserve">Footnote 3. Cross references a range of footnotes, 1 and 2.</w:t></w:r><w:r><w:t xml:space="preserve"> </w:t></w:r><w:r><w:rPr><w:iCs /><w:i /></w:rPr><w:t xml:space="preserve">See</w:t></w:r><w:r><w:t xml:space="preserve"> </w:t></w:r><w:r><w:rPr><w:iCs /><w:i /></w:rPr><w:t xml:space="preserve">supra</w:t></w:r><w:r><w:t xml:space="preserve"> </w:t></w:r><w:r><w:t xml:space="preserve">notes "#
    );
    assert_eq!(tokens[1].contents, r#"1"#);
    assert_eq!(tokens[2].contents, r#"–"#);
    assert_eq!(tokens[3].contents, r#"2"#);
    assert_eq!(tokens[4].contents, r#".</w:t></w:r></w:p></w:footnote>"#);
}

#[test]
fn lexer_starts_at_zero() {
    assert_eq!(Lexer::new().start, 0);
}

#[test]
fn token_new_keeps_its_parts() {
    let token = Token::new(TokenType::CrossRef, "12");
    assert_eq!(token.token_type, TokenType::CrossRef);
    assert_eq!(token.contents, "12");
    assert_eq!(token, Token { token_type: TokenType::CrossRef, contents: "12" });
}

#[test]
fn doc_without_run_is_one_other_token() {
    let input = "<w:p><w:r><w:t>No footnote here.</w:t></w:r></w:p>";
    let tokens = lex_doc(input).unwrap();
    assert_eq!(tokens.len(), 1);
    assert_eq!(tokens[0].token_type, TokenType::Other);
    assert_eq!(tokens[0].contents, input);
}

#[test]
fn footnotes_without_reference_are_one_other_token() {
    let input = "<w:t>A footnote with nothing to note.</w:t>";
    let tokens = lex_fn(input).unwrap();
    assert_eq!(tokens.len(), 1);
    assert_eq!(tokens[0].token_type, TokenType::Other);
    assert_eq!(tokens[0].contents, input);
}

#[test]
fn empty_inputs_lex_to_one_empty_token_each() {
    let (doc, fns) = lex("", "").unwrap();
    assert_eq!(doc.len(), 1);
    assert_eq!(doc[0].token_type, TokenType::Other);
    assert_eq!(doc[0].contents, "");
    assert_eq!(fns.len(), 1);
    assert_eq!(fns[0].token_type, TokenType::Other);
    assert_eq!(fns[0].contents, "");
}

#[test]
fn doc_runs_alternate_with_other_tokens() {
    let input = format!("<w:p>é{}{}after</w:p>", RUN_1, RUN_2);
    let tokens = lex_doc(&input).unwrap();
    assert_eq!(tokens.len(), 5);
    assert_eq!(tokens[0].token_type, TokenType::Other);
    assert_eq!(tokens[0].contents, "<w:p>é");
    assert_eq!(tokens[1].token_type, TokenType::FootnoteRef);
    assert_eq!(tokens[1].contents, RUN_1);
    assert_eq!(tokens[2].token_type, TokenType::Other);
    assert_eq!(tokens[2].contents, "");
    assert_eq!(tokens[3].token_type, TokenType::FootnoteRef);
    assert_eq!(tokens[3].contents, RUN_2);
    assert_eq!(tokens[4].token_type, TokenType::Other);
    assert_eq!(tokens[4].contents, "after</w:p>");
}

#[test]
fn doc_segments_cover_the_input() {
    let input = format!("a–b{}c“d”{}{}", RUN_1, RUN_2, RUN_1);
    let tokens = lex_doc(&input).unwrap();
    assert_eq!(tokens.len(), 7);
    assert_eq!(joined(&tokens), input);
}

#[test]
fn fn_segments_cover_the_input() {
    let input = "<w:t>See é >note 12, >notes 3-4 and >notes 5–67; >note x, >notes 8- or note 9.</w:t>";
    let tokens = lex_fn(input).unwrap();
    assert_eq!(joined(&tokens), input);
    let numbers: Vec<&str> = tokens
        .iter()
        .filter(|t| t.token_type == TokenType::CrossRef)
        .map(|t| t.contents)
        .collect();
    assert_eq!(numbers, vec!["12", "3", "4", "5", "67"]);
}

#[test]
fn range_with_hyphen_keeps_the_hyphen() {
    let tokens = lex_fn("<w:t>notes 10-12.").unwrap();
    assert_eq!(tokens.len(), 5);
    assert_eq!(tokens[0].contents, "<w:t>notes ");
    assert_eq!(tokens[1].contents, "10");
    assert_eq!(tokens[2].token_type, TokenType::Other);
    assert_eq!(tokens[2].contents, "-");
    assert_eq!(tokens[3].contents, "12");
    assert_eq!(tokens[4].contents, ".");
}

#[test]
fn a_number_is_read_to_its_last_digit() {
    let tokens = lex_fn(">note 1234567890").unwrap();
    assert_eq!(tokens.len(), 3);
    assert_eq!(tokens[0].contents, ">note ");
    assert_eq!(tokens[1].token_type, TokenType::CrossRef);
    assert_eq!(tokens[1].contents, "1234567890");
    assert_eq!(tokens[2].contents, "");

    let tokens = lex_fn(">notes 99999999999\u{2013}100000000000.").unwrap();
    assert_eq!(tokens.len(), 5);
    assert_eq!(tokens[1].contents, "99999999999");
    assert_eq!(tokens[2].contents, "\u{2013}");
    assert_eq!(tokens[3].contents, "100000000000");
    assert_eq!(tokens[4].contents, ".");
}

#[test]
fn a_run_with_a_long_id_is_a_footnote_reference() {
    let run = r#"<w:r><w:rPr><w:rStyle w:val="FootnoteReference" /></w:rPr><w:footnoteReference w:id="12345678901" /></w:r>"#;
    let input = format!("a{}b", run);
    let tokens = lex_doc(&input).unwrap();
    assert_eq!(tokens.len(), 3);
    assert_eq!(tokens[0].contents, "a");
    assert_eq!(tokens[1].token_type, TokenType::FootnoteRef);
    assert_eq!(tokens[1].contents, run);
    assert_eq!(tokens[2].contents, "b");
}

#[test]
fn lex_doc_from_cuts_at_the_given_spans() {
    let input = "ab[1]cd[22]";
    let tokens = lex_doc_from(input, &vec![(2, 5), (7, 11)]);
    assert_eq!(tokens.len(), 5);
    assert_eq!(tokens[0], Token::new(TokenType::Other, "ab"));
    assert_eq!(tokens[1], Token::new(TokenType::FootnoteRef, "[1]"));
    assert_eq!(tokens[2], Token::new(TokenType::Other, "cd"));
    assert_eq!(tokens[3], Token::new(TokenType::FootnoteRef, "[22]"));
    assert_eq!(tokens[4], Token::new(TokenType::Other, ""));
}

#[test]
fn lex_fn_from_cuts_single_and_range() {
    let input = "x>note 7y>notes 1–23z";
    let single = CrossMatch { start: 1, end: 8, range: None };
    let range = CrossMatch {
        start: 9,
        end: 22,
        range: Some(RangeParts { first: 1, dash: 3, second: 2 }),
    };
    let tokens = lex_fn_from(input, &vec![single, range]).unwrap();
    assert_eq!(tokens.len(), 7);
    assert_eq!(tokens[0], Token::new(TokenType::Other, "x>note "));
    assert_eq!(tokens[1], Token::new(TokenType::CrossRef, "7"));
    assert_eq!(tokens[2], Token::new(TokenType::Other, "y>notes "));
    assert_eq!(tokens[3], Token::new(TokenType::CrossRef, "1"));
    assert_eq!(tokens[4], Token::new(TokenType::Other, "–"));
    assert_eq!(tokens[5], Token::new(TokenType::CrossRef, "23"));
    assert_eq!(tokens[6], Token::new(TokenType::Other, "z"));
}

#[test]
fn lex_fn_from_rejects_what_does_not_fit() {
    let input = "x>notes 1–2z";
    // The parts do not add up to the end of the match.
    let short = CrossMatch {
        start: 1,
        end: 13,
        range: Some(RangeParts { first: 1, dash: 3, second: 2 }),
    };
    assert_eq!(lex_fn_from(input, &vec![short]), Err(Failure::Match));
    // The dash is cut in the middle of its encoding.
    let split = CrossMatch {
        start: 1,
        end: 13,
        range: Some(RangeParts { first: 1, dash: 2, second: 2 }),
    };
    assert_eq!(lex_fn_from(input, &vec![split]), Err(Failure::Match));
    // A match that ends behind the text.
    let long = CrossMatch { start: 1, end: 40, range: None };
    assert_eq!(lex_fn_from(input, &vec![long]), Err(Failure::Match));
    // A match too short to hold its marker.
    let tiny = CrossMatch { start: 1, end: 4, range: None };
    assert_eq!(lex_fn_from(input, &vec![tiny]), Err(Failure::Match));
    // Two matches that overlap.
    let one = CrossMatch { start: 1, end: 9, range: None };
    let two = CrossMatch { start: 2, end: 9, range: None };
    assert_eq!(lex_fn_from(input, &vec![one, two]), Err(Failure::Match));
}

#[test]
fn has_dash_sees_hyphen_and_en_dash_only() {
    assert!(has_dash(">notes 1-2"));
    assert!(has_dash(">notes 1–2"));
    assert!(!has_dash(">note 12"));
    assert!(!has_dash(">notes 1—2"));
    assert!(!has_dash(""));
}

#[test]
fn range_parts_reads_groups_one_to_three() {
    let groups = Some(vec![Some((0, 6)), Some((0, 2)), Some((2, 5)), Some((5, 6))]);
    assert_eq!(range_parts(&groups), Some(RangeParts { first: 2, dash: 3, second: 1 }));
    assert_eq!(range_parts(&None), None);
    assert_eq!(range_parts(&Some(vec![Some((0, 6)), Some((0, 2)), Some((2, 5))])), None);
    assert_eq!(range_parts(&Some(vec![Some((0, 6)), Some((0, 2)), None, Some((5, 6))])), None);
    assert_eq!(
        range_parts(&Some(vec![Some((0, 6)), Some((2, 0)), Some((2, 5)), Some((5, 6))])),
        None
    );
}

#[test]
fn fits_checks_order_bounds_and_boundaries() {
    let input = "x>note 7–";
    assert!(fits(input, 0, &CrossMatch { start: 1, end: 8, range: None }));
    assert!(fits(input, 1, &CrossMatch { start: 1, end: 7, range: None }));
    assert!(!fits(input, 2, &CrossMatch { start: 1, end: 8, range: None }));
    assert!(!fits(input, 0, &CrossMatch { start: 1, end: 6, range: None }));
    assert!(!fits(input, 0, &CrossMatch { start: 1, end: 9, range: None }));
    assert!(!fits(input, 0, &CrossMatch { start: 1, end: 12, range: None }));
    assert!(!fits(input, 0, &CrossMatch { start: usize::MAX, end: usize::MAX, range: None }));
    let parts = RangeParts { first: 1, dash: 0, second: 3 };
    assert!(fits(input, 0, &CrossMatch { start: 0, end: 11, range: Some(parts) }));
    let wide = RangeParts { first: usize::MAX, dash: usize::MAX, second: 2 };
    assert!(!fits(input, 0, &CrossMatch { start: 0, end: 11, range: Some(wide) }));
}
