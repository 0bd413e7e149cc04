use lightml::operations::{inner_text, unescape_string_content};
use lightml::Element;

#[test]
fn unescape_named_keeps_semicolon() {
    assert_eq!(unescape_string_content("a &lt; b"), "a <; b");
    assert_eq!(unescape_string_content("&quot;&amp;&gt;"), "\";&;>;");
}

#[test]
fn unescape_numeric() {
    assert_eq!(unescape_string_content("x&#65;y"), "xAy");
    assert_eq!(unescape_string_content("&#x41;&#X4a;&#+66;"), "AJB");
    assert_eq!(unescape_string_content("&#x1F600;"), "\u{1F600}");
}

#[test]
fn unescape_plain_text_unchanged() {
    assert_eq!(unescape_string_content("plain text"), "plain text");
    assert_eq!(unescape_string_content(""), "");
}

#[test]
fn unescape_plain_ampersand_repeats_text() {
    assert_eq!(unescape_string_content("Tom & Jerry"), "Tom Tom & Jerry");
}

#[test]
fn inner_text_skips_title() {
    let (e, _) = Element::from_string("<div>a<b>c</b><title>no</title>d&#33;</div>").unwrap();
    assert_eq!(inner_text(&e), "acd!");
}

#[test]
fn inner_text_of_literal_is_empty() {
    let (e, _) = Element::from_string("<script>let x = 1;</script>").unwrap();
    assert_eq!(inner_text(&e), "");
}

#[test]
fn unescape_without_ampersand_is_identity() {
    for text in ["", "a", "x <y> z", "été"] {
        assert_eq!(unescape_string_content(text), text);
    }
}

#[test]
fn unescape_borrows_text_without_ampersand() {
    assert!(matches!(unescape_string_content("no references"), std::borrow::Cow::Borrowed(_)));
    assert!(matches!(unescape_string_content("&#65;"), std::borrow::Cow::Owned(_)));
}
