use lightml::matching::{query_selector, query_selector_all, AttributeQuery, Selector};
use lightml::Element;

fn query(s: &Selector, i: usize) -> (String, String, String) {
    let (k, q, v) = s.attributes[i];
    (k.to_string(), format!("{q:?}"), v.to_string())
}

#[test]
fn selector_id() {
    let s = Selector::from_string("#nations-news-uk");
    assert_eq!(s.tag, None);
    assert_eq!(s.attributes.len(), 1);
    assert_eq!(query(&s, 0), ("id".to_string(), "Exactly".to_string(), "nations-news-uk".to_string()));
}

#[test]
fn selector_prefixed_with_quotes() {
    let s = Selector::from_string("a[href^='/news/articles']");
    assert_eq!(s.tag, Some("a"));
    assert_eq!(query(&s, 0), ("href".to_string(), "Prefixed".to_string(), "/news/articles".to_string()));
}

#[test]
fn selector_operators() {
    let s = Selector::from_string("x[a=1][b~=\"2\"][c|=3][d$=4][e^=5]");
    assert_eq!(s.tag, Some("x"));
    assert_eq!(s.attributes.len(), 5);
    assert!(matches!(s.attributes[0].1, AttributeQuery::Exactly));
    assert!(matches!(s.attributes[1].1, AttributeQuery::ContainsWhitespaceSplit));
    assert_eq!(s.attributes[1].2, "2");
    assert!(matches!(s.attributes[2].1, AttributeQuery::ExactlyBeforeHyphen));
    assert!(matches!(s.attributes[3].1, AttributeQuery::Suffixed));
    assert!(matches!(s.attributes[4].1, AttributeQuery::Prefixed));
}

#[test]
fn selector_classes() {
    let s = Selector::from_string("div.a.b-c");
    assert_eq!(s.tag, Some("div"));
    assert_eq!(query(&s, 0).2, "a");
    assert_eq!(query(&s, 1), ("class".to_string(), "Exactly".to_string(), "b-c".to_string()));
}

#[test]
fn selector_open_bracket_at_end() {
    let s = Selector::from_string("div[");
    assert_eq!(s.tag, Some("div"));
    assert!(s.attributes.is_empty());
}

#[test]
fn selector_unreadable() {
    assert!(Selector::try_from_string("").is_none());
    assert!(Selector::try_from_string("*").is_none());
    assert!(Selector::try_from_string("1a").is_none());
    assert!(Selector::try_from_string("[data-x]").is_none());
    assert!(Selector::try_from_string("a[x!=1]").is_none());
    assert!(Selector::try_from_string("a[x=1").is_none());
    assert!(Selector::try_from_string("div[abc").is_none());
    assert!(Selector::try_from_string("a b").is_none());
}

const PAGE: &str = "<div class=\"a b\" id=\"x-y\" lang=\"en-GB\"><p class=\"a\">1</p><span><p>2</p></span><p class=\"a\">3</p></div>";

#[test]
fn matches_attribute_tests() {
    let (root, _) = Element::from_string(PAGE).unwrap();
    assert!(lightml::matching::matches(&root, &Selector::from_string("div")));
    assert!(!lightml::matching::matches(&root, &Selector::from_string("span")));
    assert!(!lightml::matching::matches(&root, &Selector::from_string(".a")));
    assert!(lightml::matching::matches(&root, &Selector::from_string("[class~=a]")));
    assert!(lightml::matching::matches(&root, &Selector::from_string("[class~=b]")));
    assert!(!lightml::matching::matches(&root, &Selector::from_string("[class~=c]")));
    assert!(lightml::matching::matches(&root, &Selector::from_string("#x-y")));
    assert!(lightml::matching::matches(&root, &Selector::from_string("[lang|=en]")));
    assert!(!lightml::matching::matches(&root, &Selector::from_string("[lang|=GB]")));
    assert!(lightml::matching::matches(&root, &Selector::from_string("[id^=x]")));
    assert!(lightml::matching::matches(&root, &Selector::from_string("[id$=-y]")));
    assert!(!lightml::matching::matches(&root, &Selector::from_string("[id$=x]")));
    assert!(!lightml::matching::matches(&root, &Selector::from_string("[title=x]")));
}

#[test]
fn query_all_in_document_order() {
    let (root, _) = Element::from_string(PAGE).unwrap();
    let found = query_selector_all(&root, &Selector::from_string("p"));
    assert_eq!(found.len(), 3);
    let texts: Vec<String> = found.iter().map(|e| lightml::operations::inner_text(e)).collect();
    assert_eq!(texts, vec!["1", "2", "3"]);
}

#[test]
fn query_all_includes_root() {
    let (root, _) = Element::from_string(PAGE).unwrap();
    let found = query_selector_all(&root, &Selector::from_string("[class~=a]"));
    assert_eq!(found.len(), 3);
    assert_eq!(found[0].tag_name, "div");
}

#[test]
fn query_first_is_first_of_all() {
    let (root, _) = Element::from_string(PAGE).unwrap();
    for text in ["p", ".a", "span", "div", "em"] {
        let sel = Selector::from_string(text);
        let all = query_selector_all(&root, &sel);
        let first = query_selector(&root, &sel);
        match first {
            Some(x) => assert!(std::ptr::eq(x, all[0])),
            None => assert!(all.is_empty()),
        }
    }
    assert!(query_selector(&root, &Selector::from_string("em")).is_none());
}

#[test]
fn selector_unicode_tag() {
    let s = Selector::from_string("été.x");
    assert_eq!(s.tag, Some("été"));
    assert_eq!(query(&s, 0).2, "x");
}

#[test]
fn query_all_returns_only_matches() {
    let (root, _) = Element::from_string(PAGE).unwrap();
    let sel = Selector::from_string("[class~=a]");
    for element in query_selector_all(&root, &sel) {
        assert!(lightml::matching::matches(element, &sel));
    }
}
