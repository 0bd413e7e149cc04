use lightml::retrieval::{try_retrieve, RetrieveError};

#[test]
fn main() {
    let result = lightml::retrieve(
        "<!DOCTYPE html><html><body><h1>Hi</h1></body></html>".into(),
        "single h1\0text".into(),
    );
    assert_eq!(result, "Hi");
}

#[test]
fn retrieve_attribute_values_in_order() {
    let page = "<html><a href=\"x\">1</a><a>2</a><a href=\"y\">3</a></html>";
    assert_eq!(lightml::retrieve(page, "all a\0attribute href"), "x\0ay");
}

#[test]
fn retrieve_attribute_skips_separator_after_empty_value() {
    let page = "<html><a href=\"\">1</a><a href=\"y\">3</a></html>";
    assert_eq!(lightml::retrieve(page, "all a\0attribute href"), "y");
}

#[test]
fn retrieve_texts_separated() {
    let page = "<html><p>one</p><p>two</p></html>";
    assert_eq!(lightml::retrieve(page, "all p\0text"), "one\0ttwo");
}

#[test]
fn retrieve_single_keeps_first_match() {
    let page = "<html><p>one</p><p>two</p></html>";
    assert_eq!(lightml::retrieve(page, "single p\0text"), "one");
}

#[test]
fn retrieve_table_rows_and_cells() {
    let page = "<html><table><tbody><tr><td>1</td><td>2</td></tr><tr><td>3</td></tr></tbody></table></html>";
    assert_eq!(lightml::retrieve(page, "single table\0table"), "\0r\0d1\0d2\0r\0d3");
}

#[test]
fn retrieve_table_without_body() {
    let page = "<html><table><tr><td>a</td></tr></table><table><tr><th>b</th></tr></table></html>";
    assert_eq!(lightml::retrieve(page, "all table\0table"), "\0r\0da\0\0r\0db");
}

#[test]
fn retrieve_skips_unknown_steps() {
    let page = "<html><h1>Hi</h1></html>";
    assert_eq!(lightml::retrieve(page, "nothing\0single h1\0text"), "Hi");
}

#[test]
fn retrieve_trims_selector() {
    let page = "<html><h1>Hi</h1></html>";
    assert_eq!(lightml::retrieve(page, "single   h1 \0text"), "Hi");
}

#[test]
fn retrieve_no_end_query() {
    let page = "<html><h1>Hi</h1></html>";
    assert!(matches!(try_retrieve(page, "single h1"), Err(RetrieveError::NoEndQuery)));
    assert!(matches!(try_retrieve(page, ""), Err(RetrieveError::NoEndQuery)));
}

#[test]
fn retrieve_document_error() {
    assert!(matches!(try_retrieve("", "text"), Err(RetrieveError::Document(_))));
}

#[test]
fn retrieve_selector_error() {
    let page = "<html><h1>Hi</h1></html>";
    assert!(matches!(try_retrieve(page, "single *\0text"), Err(RetrieveError::Selector)));
}

#[test]
fn retrieve_reference_error() {
    assert!(matches!(try_retrieve("<html>&#;</html>", "text"), Err(RetrieveError::Reference)));
}

#[test]
fn retrieve_agrees_with_try_retrieve() {
    let page = "<html><p class=\"a\">x &amp; y</p></html>";
    let query = "all .a\0text";
    assert_eq!(try_retrieve(page, query).unwrap(), lightml::retrieve(page, query));
    assert_eq!(lightml::retrieve(page, query), "x &; y");
}

#[test]
fn retrieve_text_of_one_element_is_inner_text() {
    let page = "<html><div><p>a<b>c</b></p></div></html>";
    let (root, _) = lightml::Element::from_string(page).unwrap();
    let sel = lightml::matching::Selector::from_string("p");
    let p = lightml::matching::query_selector(&root, &sel).unwrap();
    assert_eq!(lightml::retrieve(page, "single p\0text"), lightml::operations::inner_text(p));
}
