use lightml::Lexer;

#[test]
fn lexer_skip_and_identifier() {
    let mut lexer = Lexer::new("  abc-d e");
    lexer.skip();
    assert_eq!(lexer.consumed(), 2);
    assert_eq!(lexer.parse_identifier("Element name"), Ok("abc-d"));
    assert_eq!(lexer.consumed(), 7);
    assert_eq!(lexer.current(), " e");
    assert!(!lexer.is_finished());
}

#[test]
fn lexer_identifier_needs_a_character() {
    let mut lexer = Lexer::new(">x");
    assert_eq!(lexer.parse_identifier("Element name"), Err(0));
    assert_eq!(lexer.consumed(), 0);
    let mut lexer = Lexer::new("abc");
    assert_eq!(lexer.parse_identifier("Element name"), Err(0));
}

#[test]
fn lexer_attribute_key_and_value_classes() {
    let mut lexer = Lexer::new("data-x:y=1");
    assert_eq!(lexer.parse_identifier("Attribute key"), Ok("data-x:y"));
    assert!(lexer.is_operator_advance("="));
    let mut lexer = Lexer::new("a/b>");
    assert_eq!(lexer.parse_identifier("Attribute value"), Ok("a/b"));
}

#[test]
fn lexer_unicode_identifier() {
    let mut lexer = Lexer::new("über x");
    assert_eq!(lexer.parse_identifier("Element name"), Ok("über"));
    assert_eq!(lexer.consumed(), 5);
}

#[test]
fn lexer_string_literal_with_escape() {
    let mut lexer = Lexer::new("\"a\\\"b\" rest");
    assert_eq!(lexer.parse_string_literal(), Ok("a\\\"b"));
    assert_eq!(lexer.consumed(), 6);
    let mut lexer = Lexer::new("'open");
    assert_eq!(lexer.parse_string_literal(), Err(0));
    let mut lexer = Lexer::new("x'");
    assert_eq!(lexer.parse_string_literal(), Err(0));
}

#[test]
fn lexer_parse_until() {
    let mut lexer = Lexer::new("abc-->rest");
    assert_eq!(lexer.parse_until("-->", true), Ok("abc"));
    assert_eq!(lexer.current(), "rest");
    let mut lexer = Lexer::new("abc<d");
    assert_eq!(lexer.parse_until("<", false), Ok("abc"));
    assert_eq!(lexer.current(), "<d");
    let mut lexer = Lexer::new("abc");
    assert_eq!(lexer.parse_until("<", false), Err(0));
}

#[test]
fn lexer_parse_until_postfix() {
    let mut lexer = Lexer::new("a</b></style>x");
    assert_eq!(lexer.parse_until_postfix("</", "style"), Ok("a</b>"));
    assert_eq!(lexer.current(), "style>x");
}

#[test]
fn lexer_tags_ahead() {
    let lexer = Lexer::new("  <div class=x>");
    assert_eq!(lexer.parse_opening_tag_no_advance(), Some("div"));
    assert_eq!(lexer.parse_closing_tag_no_advance(), None);
    let lexer = Lexer::new("\n</p>");
    assert_eq!(lexer.parse_closing_tag_no_advance(), Some("p"));
    let lexer = Lexer::new("<div");
    assert_eq!(lexer.parse_opening_tag_no_advance(), None);
}

#[test]
fn lexer_whitespace_and_expect() {
    let mut lexer = Lexer::new(" \t x");
    assert_eq!(lexer.parse_whitespace(), Some(" \t "));
    assert_eq!(lexer.parse_whitespace(), None);
    assert_eq!(lexer.expect('x'), Ok(()));
    assert!(lexer.is_finished());
    let mut lexer = Lexer::new("  y");
    assert_eq!(lexer.expect('x'), Err(2));
}

#[test]
fn lexer_case_insensitive_prefix() {
    let mut lexer = Lexer::new("<!doctype html>");
    assert!(lexer.starts_with_ascii_case_ignore("<!DOCTYPE"));
    assert!(lexer.parse_one_or_more_whitespace());
    assert!(!lexer.parse_one_or_more_whitespace());
    assert!(lexer.starts_with_ascii_case_ignore("HTML"));
    assert!(lexer.is_operator_advance(">"));
    assert!(lexer.is_finished());
}

#[test]
fn lexer_delimiters_and_offsets() {
    let mut lexer = Lexer::new("  'x'");
    assert!(lexer.starts_with_string_delimeter());
    assert_eq!(lexer.consumed(), 2);
    assert!(lexer.starts_with_no_advance("'x"));
    assert_eq!(lexer.current_with_offset(1), "x'");
    lexer.advance(3);
    assert!(lexer.is_finished());
}

#[test]
fn lexer_position_never_moves_back() {
    let text = "<a href=\"x\"> text </a>";
    let mut lexer = Lexer::new(text);
    let mut last = lexer.consumed();
    let mut check = |lexer: &Lexer| {
        assert!(lexer.consumed() >= last);
        last = lexer.consumed();
    };
    let _ = lexer.expect('<');
    check(&lexer);
    let _ = lexer.parse_identifier("Element name");
    check(&lexer);
    lexer.skip();
    check(&lexer);
    let _ = lexer.parse_identifier("Attribute key");
    check(&lexer);
    let _ = lexer.is_operator_advance("=");
    check(&lexer);
    let _ = lexer.parse_string_literal();
    check(&lexer);
    let _ = lexer.is_operator_advance(">");
    check(&lexer);
    let _ = lexer.parse_until("<", false);
    check(&lexer);
    let _ = lexer.parse_whitespace();
    check(&lexer);
}
