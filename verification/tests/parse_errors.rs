use lightml::{Attribute, Document, Element, HTMLParseErrorReason, Lexer, Node};

#[test]
fn error_expected_open_bracket() {
    let error = Element::from_string("abc").unwrap_err();
    assert!(matches!(error.reason, HTMLParseErrorReason::Expected { slice: "<" }));
    assert_eq!(error.at, 0);
}

#[test]
fn error_invalid_identifier() {
    let error = Element::from_string("<>").unwrap_err();
    assert!(matches!(error.reason, HTMLParseErrorReason::InvalidIdentifier));
    assert_eq!(error.at, 1);
}

#[test]
fn error_unterminated_string() {
    let error = Element::from_string("<a href=\"x>").unwrap_err();
    assert!(matches!(error.reason, HTMLParseErrorReason::NoEndToStringDelimeter));
    assert_eq!(error.at, 8);
}

#[test]
fn error_context_names_open_elements() {
    let error = Element::from_string("<div><p><!-- open</p></div>").unwrap_err();
    assert!(matches!(error.reason, HTMLParseErrorReason::Expected { slice: "-->" }));
    let names: Vec<&str> = error.context.iter().map(|c| c.tag_name.as_str()).collect();
    assert_eq!(names, vec!["div", "p"]);
    assert_eq!(error.context[1].at, 5);
}

#[test]
fn attribute_from_reader_forms() {
    let mut lexer = Lexer::new("key=\"v\"");
    let attribute = Attribute::from_reader(&mut lexer).unwrap();
    assert_eq!(attribute, Attribute { key: "key", value: "v" });
    let mut lexer = Lexer::new("flag>");
    let attribute = Attribute::from_reader(&mut lexer).unwrap();
    assert_eq!(attribute, Attribute { key: "flag", value: "" });
    let mut lexer = Lexer::new("key=value");
    let error = Attribute::from_reader(&mut lexer).unwrap_err();
    assert!(matches!(error.reason, HTMLParseErrorReason::Expected { slice: "string delimeter" }));
    assert_eq!(error.at, 4);
}

#[test]
fn text_node_keeps_one_space_at_each_end() {
    let (element, _) = Element::from_string("<p>   a   b   </p>").unwrap();
    let children = match element.children {
        lightml::ElementChildren::Children(children) => children,
        _ => panic!("expected children"),
    };
    assert_eq!(children, vec![Node::TextNode(" a   b ")]);
}

#[test]
fn text_node_keeps_indentation_after_line_break() {
    let (element, _) = Element::from_string("<p>a\n   <b>c</b></p>").unwrap();
    let children = match element.children {
        lightml::ElementChildren::Children(children) => children,
        _ => panic!("expected children"),
    };
    assert_eq!(children[0], Node::TextNode("a\n   "));
}

#[test]
fn mismatched_closing_tag_is_kept() {
    let (element, _) = Element::from_string("<div></span>x</div>").unwrap();
    let children = match element.children {
        lightml::ElementChildren::Children(children) => children,
        _ => panic!("expected children"),
    };
    assert_eq!(children, vec![Node::MismatchClosingTag("span"), Node::TextNode("x")]);
}

#[test]
fn self_closing_and_literal_names() {
    assert!(lightml::html_tag_is_self_closing("img"));
    assert!(lightml::html_tag_is_self_closing("br"));
    assert!(!lightml::html_tag_is_self_closing("div"));
    assert!(lightml::html_tag_contains_literal_content("script"));
    assert!(lightml::html_tag_contains_literal_content("style"));
    assert!(!lightml::html_tag_contains_literal_content("p"));
}

#[test]
fn document_after_doctype() {
    let mut lexer = Lexer::new("<!DOCTYPE html>\n<html lang=\"en\"></html>");
    let document = Document::from_reader(&mut lexer).unwrap();
    assert_eq!(document.html_element.tag_name, "html");
    assert_eq!(document.html_element.attributes, vec![Attribute { key: "lang", value: "en" }]);
    assert!(lexer.is_finished());
}

#[test]
fn from_string_reports_bytes_consumed() {
    let text = "<é>ü</é> rest";
    let (element, consumed) = Element::from_string(text).unwrap();
    assert_eq!(element.tag_name, "é");
    assert_eq!(&text[consumed as usize..], " rest");
}
