//! The HTML tree, its mathematical model, and the parser that builds the tree
//! from a `Lexer`.
//!
//! The parser is specified by spec functions over the lexer's text and
//! position (`parse_node`, `parse_element`, `parse_attributes`, `parse_body`,
//! `parse_children`): each gives the result, the position where the lexer is
//! left, and the chain of open elements (the scope) as it is left.
use vstd::prelude::*;
use crate::lexer::{
    lemma_identifier_classes, at, expect_step, identifier_step, lemma_expect_step, lemma_identifier_step,
    lemma_operator_step, lemma_postfix_step, lemma_skip_pos, lemma_string_literal_step,
    lemma_until_step, lemma_whitespace_step, operator_step, position_of_byte, postfix_step,
    skip_pos, string_literal_step, tag_ahead, until_step, whitespace_step, is_delimiter,
    case_insensitive_at,
};
use crate::text::{
    find_from, lemma_find_from, byte_offset, run_end, occurs_at, utf8_len, ascii_whitespace, char_width, unicode_whitespace,
    lemma_byte_offset_narrow_run, lemma_byte_offset_range, lemma_byte_offset_injective,
    lemma_run_end, lemma_run_end_inside, lemma_byte_offset_mono, scan_run, str_eq, str_slice, CharClass,
};
use crate::lexer::{str_chars, Lexer};

verus! {

/// An element that was open when an error was found, with the byte offset
/// where it starts.
#[derive(Debug, Clone)]
pub struct ContextItem {
    pub tag_name: String,
    pub at: u32,
}

#[derive(Debug, Clone)]
pub struct HTMLParseError {
    pub reason: HTMLParseErrorReason,
    pub at: u32,
    pub context: Vec<ContextItem>,
}

#[derive(Debug, Clone, Copy)]
pub enum HTMLParseErrorReason {
    Expected { slice: &'static str },
    NoEndToStringDelimeter,
    InvalidIdentifier,
}

pub type ContextChain = Vec<ContextItem>;

#[derive(Debug, PartialEq)]
pub enum Node<'a> {
    Element(Box<Element<'a>>),
    TextNode(&'a str),
    Comment(&'a str),
    MismatchClosingTag(&'a str),
}

#[derive(Debug, PartialEq)]
pub struct Element<'a> {
    /// Name of the element
    pub tag_name: &'a str,
    pub attributes: Vec<Attribute<'a>>,
    pub children: ElementChildren<'a>,
}

pub type Children<'a> = Vec<Node<'a>>;

#[derive(Debug, PartialEq)]
pub enum ElementChildren<'a> {
    Children(Children<'a>),
    /// For script + style elements
    Literal(&'a str),
    /// For `img` elements etc
    SelfClosing,
}

#[derive(Debug, PartialEq)]
pub struct Document<'a> {
    pub html_element: Element<'a>,
}

#[derive(Debug, Clone, PartialEq)]
pub struct Attribute<'a> {
    pub key: &'a str,
    pub value: &'a str,
}

/// A node of the tree, by the characters of its strings.
pub enum HtmlNode {
    Element(HtmlElement),
    Text(Seq<char>),
    Comment(Seq<char>),
    MismatchClosingTag(Seq<char>),
}

pub struct HtmlElement {
    pub tag_name: Seq<char>,
    /// Key and value of each attribute, in order.
    pub attributes: Seq<(Seq<char>, Seq<char>)>,
    pub children: HtmlChildren,
}

pub enum HtmlChildren {
    Children(Seq<HtmlNode>),
    Literal(Seq<char>),
    SelfClosing,
}

pub enum ErrorReason {
    Expected(Seq<char>),
    NoEndToStringDelimeter,
    InvalidIdentifier,
}

pub struct ParseFailure {
    pub reason: ErrorReason,
    pub at: u32,
    pub context: Seq<(Seq<char>, u32)>,
}

pub open spec fn node_model(n: Node) -> HtmlNode
    decreases n,
{
    match n {
        Node::Element(e) => HtmlNode::Element(element_model(*e)),
        Node::TextNode(t) => HtmlNode::Text(t@),
        Node::Comment(t) => HtmlNode::Comment(t@),
        Node::MismatchClosingTag(t) => HtmlNode::MismatchClosingTag(t@),
    }
}

pub open spec fn element_model(e: Element) -> HtmlElement
    decreases e,
{
    HtmlElement {
        tag_name: e.tag_name@,
        attributes: attributes_model(e.attributes@),
        children: children_model(e.children),
    }
}

pub open spec fn children_model(c: ElementChildren) -> HtmlChildren
    decreases c,
{
    match c {
        ElementChildren::Children(v) => HtmlChildren::Children(nodes_model(v@)),
        ElementChildren::Literal(t) => HtmlChildren::Literal(t@),
        ElementChildren::SelfClosing => HtmlChildren::SelfClosing,
    }
}

pub open spec fn nodes_model(s: Seq<Node>) -> Seq<HtmlNode>
    decreases s,
{
    if s.len() == 0 {
        Seq::empty()
    } else {
        nodes_model(s.drop_last()).push(node_model(s.last()))
    }
}

pub open spec fn attributes_model(a: Seq<Attribute>) -> Seq<(Seq<char>, Seq<char>)> {
    a.map_values(|x: Attribute| (x.key@, x.value@))
}

pub open spec fn context_model(v: Seq<ContextItem>) -> Seq<(Seq<char>, u32)> {
    v.map_values(|c: ContextItem| (c.tag_name@, c.at))
}

pub open spec fn reason_model(r: HTMLParseErrorReason) -> ErrorReason {
    match r {
        HTMLParseErrorReason::Expected { slice } => ErrorReason::Expected(slice@),
        HTMLParseErrorReason::NoEndToStringDelimeter => ErrorReason::NoEndToStringDelimeter,
        HTMLParseErrorReason::InvalidIdentifier => ErrorReason::InvalidIdentifier,
    }
}

pub open spec fn error_model(e: HTMLParseError) -> ParseFailure {
    ParseFailure { reason: reason_model(e.reason), at: e.at, context: context_model(e.context@) }
}

pub open spec fn element_result(r: Result<Element, HTMLParseError>) -> Result<
    HtmlElement,
    ParseFailure,
> {
    match r {
        Ok(e) => Ok(element_model(e)),
        Err(e) => Err(error_model(e)),
    }
}

pub open spec fn node_result(r: Result<Node, HTMLParseError>) -> Result<HtmlNode, ParseFailure> {
    match r {
        Ok(n) => Ok(node_model(n)),
        Err(e) => Err(error_model(e)),
    }
}

pub proof fn lemma_nodes_model(s: Seq<Node>)
    ensures
        nodes_model(s).len() == s.len(),
        forall|i: int| 0 <= i < s.len() ==> #[trigger] nodes_model(s)[i] == node_model(s[i]),
    decreases s.len(),
{
    if s.len() > 0 {
        lemma_nodes_model(s.drop_last());
    }
}

/// Names of the elements that never have children.
pub open spec fn self_closing_name(t: Seq<char>) -> bool {
    ||| t == "area"@
    ||| t == "base"@
    ||| t == "br"@
    ||| t == "col"@
    ||| t == "embed"@
    ||| t == "hr"@
    ||| t == "img"@
    ||| t == "input"@
    ||| t == "link"@
    ||| t == "meta"@
    ||| t == "param"@
    ||| t == "source"@
    ||| t == "track"@
    ||| t == "wbr"@
}

/// The void elements are exactly `area`, `base`, `br`, `col`, `embed`,
/// `hr`, `img`, `input`, `link`, `meta`, `param`, `source`, `track` and
/// `wbr`.
pub proof fn void_element_names(tag: Seq<char>)
    ensures
        self_closing_name("area"@),
        self_closing_name("base"@),
        self_closing_name("br"@),
        self_closing_name("col"@),
        self_closing_name("embed"@),
        self_closing_name("hr"@),
        self_closing_name("img"@),
        self_closing_name("input"@),
        self_closing_name("link"@),
        self_closing_name("meta"@),
        self_closing_name("param"@),
        self_closing_name("source"@),
        self_closing_name("track"@),
        self_closing_name("wbr"@),
        self_closing_name(tag) ==> (tag == "area"@ || tag == "base"@ || tag == "br"@ || tag == "col"@ || tag == "embed"@ || tag == "hr"@ || tag == "img"@ || tag == "input"@ || tag == "link"@ || tag == "meta"@ || tag == "param"@ || tag == "source"@ || tag == "track"@ || tag == "wbr"@),
{
}

/// The body of a void element is `SelfClosing` and takes nothing from the
/// text: the parser stays right after the start tag, so the nodes that
/// follow become the element's siblings.
pub proof fn void_elements_end_at_start_tag(
    s: Seq<char>,
    p: int,
    scope: Seq<(Seq<char>, u32)>,
    tag: Seq<char>,
    start: u32,
    attrs: Seq<(Seq<char>, Seq<char>)>,
)
    requires
        0 <= p <= s.len(),
        self_closing_name(tag),
    ensures
        parse_body(s, p, scope, tag, start, attrs) == (
            Ok::<HtmlElement, ParseFailure>(
                HtmlElement { tag_name: tag, attributes: attrs, children: HtmlChildren::SelfClosing },
            ),
            p,
            scope,
        ),
{
}

/// The elements whose content is kept as text are exactly `script` and
/// `style`.
pub proof fn literal_element_names(t: Seq<char>)
    ensures
        literal_name("script"@),
        literal_name("style"@),
        literal_name(t) ==> (t == "script"@ || t == "style"@),
{
}

/// The elements whose start tag ends an open `p` element.
pub proof fn elements_closing_p(t: Seq<char>)
    ensures
        not_allowed_in_p("address"@),
        not_allowed_in_p("article"@),
        not_allowed_in_p("aside"@),
        not_allowed_in_p("blockquote"@),
        not_allowed_in_p("details"@),
        not_allowed_in_p("dialog"@),
        not_allowed_in_p("div"@),
        not_allowed_in_p("dl"@),
        not_allowed_in_p("fieldset"@),
        not_allowed_in_p("figcaption"@),
        not_allowed_in_p("figure"@),
        not_allowed_in_p("footer"@),
        not_allowed_in_p("form"@),
        not_allowed_in_p("h1"@),
        not_allowed_in_p("h2"@),
        not_allowed_in_p("h3"@),
        not_allowed_in_p("h4"@),
        not_allowed_in_p("h5"@),
        not_allowed_in_p("h6"@),
        not_allowed_in_p("header"@),
        not_allowed_in_p("hgroup"@),
        not_allowed_in_p("hr"@),
        not_allowed_in_p("main"@),
        not_allowed_in_p("menu"@),
        not_allowed_in_p("nav"@),
        not_allowed_in_p("ol"@),
        not_allowed_in_p("p"@),
        not_allowed_in_p("pre"@),
        not_allowed_in_p("search"@),
        not_allowed_in_p("section"@),
        not_allowed_in_p("table"@),
        not_allowed_in_p("ul"@),
        not_allowed_in_p(t) ==> (t == "address"@ || t == "article"@ || t == "aside"@ || t == "blockquote"@ || t == "details"@ || t == "dialog"@ || t == "div"@ || t == "dl"@ || t == "fieldset"@ || t == "figcaption"@ || t == "figure"@ || t == "footer"@ || t == "form"@ || t == "h1"@ || t == "h2"@ || t == "h3"@ || t == "h4"@ || t == "h5"@ || t == "h6"@ || t == "header"@ || t == "hgroup"@ || t == "hr"@ || t == "main"@ || t == "menu"@ || t == "nav"@ || t == "ol"@ || t == "p"@ || t == "pre"@ || t == "search"@ || t == "section"@ || t == "table"@ || t == "ul"@),
{
}

/// The elements whose children keep the white space before a start tag.
pub proof fn elements_keeping_whitespace(t: Seq<char>)
    ensures
        keeps_whitespace("h1"@),
        keeps_whitespace("h2"@),
        keeps_whitespace("h3"@),
        keeps_whitespace("h4"@),
        keeps_whitespace("h5"@),
        keeps_whitespace("h6"@),
        keeps_whitespace("p"@),
        keeps_whitespace("li"@),
        keeps_whitespace("span"@),
        keeps_whitespace("em"@),
        keeps_whitespace("strong"@),
        keeps_whitespace(t) ==> (t == "h1"@ || t == "h2"@ || t == "h3"@ || t == "h4"@ || t == "h5"@ || t == "h6"@ || t == "p"@ || t == "li"@ || t == "span"@ || t == "em"@ || t == "strong"@),
{
}

/// Implied end tags: inside an open `p`, a start tag of an element that
/// may not be inside a `p` ends the `p`; inside an open `li`, an `li` start
/// tag ends it. The children read so far are kept (with at most one white
/// space text added) and the start tag is left to be read by the parent.
pub proof fn implied_end_tags(s: Seq<char>, p: int, scope: Seq<(Seq<char>, u32)>, acc: Seq<HtmlNode>, n: Seq<char>)
    requires
        0 <= p <= s.len(),
        scope.len() > 0,
        tag_ahead(s, p, seq!['<', '/']) is None,
        tag_ahead(s, p, seq!['<']) == Some(n),
        (scope.last().0 == "p"@ && not_allowed_in_p(n)) || (scope.last().0 == "li"@ && n == "li"@),
    ensures
        parse_children(s, p, scope, acc).0 is Ok,
        parse_children(s, p, scope, acc).0->Ok_0.len() <= acc.len() + 1,
        parse_children(s, p, scope, acc).0->Ok_0.take(acc.len() as int) == acc,
        parse_children(s, p, scope, acc).1 <= run_end(s, p, CharClass::Whitespace),
        parse_children(s, p, scope, acc).2 == scope,
{
    lemma_whitespace_step(s, p);
    lemma_run_end(s, p, CharClass::Whitespace);
    assert(acc.take(acc.len() as int) =~= acc);
    let (w, q) = whitespace_step(s, p);
    if let Some(x) = w {
        assert(acc.push(HtmlNode::Text(x)).take(acc.len() as int) =~= acc);
    }
}

/// A comment is read from `<!--` to the first `-->` after it: its text is
/// what lies between them, and reading goes on after the `-->`. A comment
/// with no `-->` after it is an error that expects `-->`.
pub proof fn comments(s: Seq<char>, p: int, scope: Seq<(Seq<char>, u32)>)
    requires
        0 <= p,
        p + 4 <= s.len(),
        s.subrange(p, p + 4) == seq!['<', '!', '-', '-'],
    ensures
        ({
            let k = find_from(s, p + 4, seq!['-', '-', '>']);
            let r = parse_node(s, p, scope);
            &&& k < s.len() ==> r == (
                Ok::<HtmlNode, ParseFailure>(HtmlNode::Comment(s.subrange(p + 4, k))),
                k + 3,
                scope,
            )
            &&& k >= s.len() ==> (r.0 is Err && r.0->Err_0.reason == ErrorReason::Expected("-->"@))
        }),
{
    reveal_strlit("<!--");
    reveal_strlit("-->");
    assert(s[p] == '<') by {
        assert(s.subrange(p, p + 4)[0] == s[p]);
    }
    assert("<!--"@ =~= seq!['<', '!', '-', '-']);
    assert(occurs_at(s, p, "<!--"@));
    lemma_run_end(s, p, CharClass::Whitespace);
    assert(skip_pos(s, p) == p);
    assert forall|i: int| p <= i < p + 4 implies char_width(#[trigger] s[i]) == 1 by {
        assert(s[i] == s.subrange(p, p + 4)[i - p]);
    }
    lemma_byte_offset_narrow_run(s, p, p + 4);
    lemma_byte_offset_injective(s, position_of_byte(s, byte_offset(s, p) + 4), p + 4);
    assert("-->"@ =~= seq!['-', '-', '>']);
    lemma_find_from(s, p + 4, seq!['-', '-', '>']);
}

/// Names of the elements whose content is kept as text.
pub open spec fn literal_name(t: Seq<char>) -> bool {
    t == "script"@ || t == "style"@
}

/// Elements that end an open `p` element when they start.
pub open spec fn not_allowed_in_p(t: Seq<char>) -> bool {
    ||| t == "address"@
    ||| t == "article"@
    ||| t == "aside"@
    ||| t == "blockquote"@
    ||| t == "details"@
    ||| t == "dialog"@
    ||| t == "div"@
    ||| t == "dl"@
    ||| t == "fieldset"@
    ||| t == "figcaption"@
    ||| t == "figure"@
    ||| t == "footer"@
    ||| t == "form"@
    ||| t == "h1"@
    ||| t == "h2"@
    ||| t == "h3"@
    ||| t == "h4"@
    ||| t == "h5"@
    ||| t == "h6"@
    ||| t == "header"@
    ||| t == "hgroup"@
    ||| t == "hr"@
    ||| t == "main"@
    ||| t == "menu"@
    ||| t == "nav"@
    ||| t == "ol"@
    ||| t == "p"@
    ||| t == "pre"@
    ||| t == "search"@
    ||| t == "section"@
    ||| t == "table"@
    ||| t == "ul"@
}

/// Open elements in which the white space before a following element is
/// kept as a text node.
pub open spec fn keeps_whitespace(t: Seq<char>) -> bool {
    ||| t == "h1"@
    ||| t == "h2"@
    ||| t == "h3"@
    ||| t == "h4"@
    ||| t == "h5"@
    ||| t == "h6"@
    ||| t == "p"@
    ||| t == "li"@
    ||| t == "span"@
    ||| t == "em"@
    ||| t == "strong"@
}

/// Number of spaces that end `t[lo..hi]`.
pub open spec fn trailing_spaces(t: Seq<char>, lo: int, hi: int) -> int
    decreases hi - lo,
{
    if lo < hi && t[hi - 1] == ' ' {
        1 + trailing_spaces(t, lo, hi - 1)
    } else {
        0
    }
}

/// A text node keeps at most one of the spaces it starts with, and at most
/// one of those it ends with. The spaces at the end are counted after the
/// first character that is not a space; when they follow a line break they
/// indent the next line and are all kept.
pub open spec fn resolve_ws(t: Seq<char>) -> Seq<char> {
    let lead = run_end(t, 0, CharClass::Space);
    let trail = if lead < t.len() {
        trailing_spaces(t, lead + 1, t.len() as int)
    } else {
        0
    };
    let indent = trail > 0 && t[t.len() - trail - 1] == '\n';
    if t == seq![' '] {
        t
    } else {
        t.subrange(
            if lead > 0 {
                lead - 1
            } else {
                0
            },
            t.len() - if trail > 0 && !indent {
                trail - 1
            } else {
                0
            },
        )
    }
}

proof fn lemma_trailing_spaces(t: Seq<char>, lo: int, hi: int)
    requires
        0 <= lo <= hi <= t.len(),
    ensures
        0 <= trailing_spaces(t, lo, hi) <= hi - lo,
        forall|j: int| hi - trailing_spaces(t, lo, hi) <= j < hi ==> t[j] == ' ',
        hi - trailing_spaces(t, lo, hi) > lo ==> t[hi - trailing_spaces(t, lo, hi) - 1] != ' ',
    decreases hi - lo,
{
    if lo < hi && t[hi - 1] == ' ' {
        lemma_trailing_spaces(t, lo, hi - 1);
    }
}

/// A text node keeps at most one of the spaces it starts with; where it
/// ends with more than one space, those spaces follow a line break.
pub proof fn text_node_spaces(t: Seq<char>)
    ensures
        ({
            let r = resolve_ws(t);
            &&& !(r.len() >= 2 && r[0] == ' ' && r[1] == ' ')
            &&& (r.len() >= 2 && r[r.len() - 1] == ' ' && r[r.len() - 2] == ' ') ==> exists|k: int|
                0 <= k < r.len() && r[k] == '\n' && forall|j: int| k < j < r.len() ==> #[trigger] r[j]
                    == ' '
        }),
{
    let n = t.len() as int;
    let lead = run_end(t, 0, CharClass::Space);
    lemma_run_end(t, 0, CharClass::Space);
    let r = resolve_ws(t);
    if t == seq![' '] {
        return;
    }
    let from = if lead > 0 {
        lead - 1
    } else {
        0
    };
    if lead < n {
        lemma_trailing_spaces(t, lead + 1, n);
        let trail = trailing_spaces(t, lead + 1, n);
        let indent = trail > 0 && t[n - trail - 1] == '\n';
        let to = n - if trail > 0 && !indent {
            trail - 1
        } else {
            0
        };
        assert(r == t.subrange(from, to));
        if r.len() >= 2 {
            assert(r[0] == t[from]);
            assert(r[1] == t[from + 1]);
            assert(r[r.len() - 1] == t[to - 1]);
            assert(r[r.len() - 2] == t[to - 2]);
        }
        if indent {
            let k = n - trail - 1 - from;
            assert(r[k] == '\n');
            assert forall|j: int| k < j < r.len() implies #[trigger] r[j] == ' ' by {
                assert(r[j] == t[from + j]);
            }
        }
    } else {
        assert(r.len() <= 1);
    }
}

/// The text is white space only.
pub open spec fn all_whitespace(t: Seq<char>) -> bool {
    run_end(t, 0, CharClass::Whitespace) == t.len()
}

/// Some open element has the name `name`.
pub open spec fn scope_has(scope: Seq<(Seq<char>, u32)>, name: Seq<char>) -> bool {
    exists|i: int| 0 <= i < scope.len() && #[trigger] scope[i].0 == name
}

/// The position after a closing tag `name` that starts at `p`, moving by its
/// length in bytes as the lexer's `advance` does.
pub open spec fn after_closing_tag(s: Seq<char>, p: int, name: Seq<char>) -> int {
    position_of_byte(s, byte_offset(s, p) + 2 + utf8_len(name))
}

pub open spec fn failure<T>(reason: ErrorReason, at: u32, context: Seq<(Seq<char>, u32)>, p: int, scope: Seq<(Seq<char>, u32)>) -> (
    Result<T, ParseFailure>,
    int,
    Seq<(Seq<char>, u32)>,
) {
    (Err(ParseFailure { reason, at, context }), p, scope)
}

/// A node at `p`: a comment, an element, or the text up to the next `<`.
pub open spec fn parse_node(s: Seq<char>, p: int, scope: Seq<(Seq<char>, u32)>) -> (
    Result<HtmlNode, ParseFailure>,
    int,
    Seq<(Seq<char>, u32)>,
)
    decreases s.len() - p, 2int,
{
    if !(0 <= p <= s.len()) {
        failure(ErrorReason::InvalidIdentifier, 0, scope, p, scope)
    } else if occurs_at(s, p, "<!--"@) {
        let q = position_of_byte(s, byte_offset(s, skip_pos(s, p)) + 4);
        let (r, q2) = until_step(s, q, "-->"@, true);
        match r {
            Ok(c) => (Ok(HtmlNode::Comment(c)), q2, scope),
            Err(a) => failure(ErrorReason::Expected("-->"@), a, scope, q2, scope),
        }
    } else if occurs_at(s, p, "<"@) {
        let (r, q, sc) = parse_element(s, p, scope);
        (
            match r {
                Ok(e) => Ok(HtmlNode::Element(e)),
                Err(f) => Err(f),
            },
            q,
            sc,
        )
    } else {
        let (r, q) = until_step(s, p, "<"@, false);
        match r {
            Ok(c) => (Ok(HtmlNode::Text(resolve_ws(c))), q, scope),
            Err(a) => failure(ErrorReason::Expected("<"@), a, scope, q, scope),
        }
    }
}

/// An element at `p`: `<`, its name, then its attributes.
pub open spec fn parse_element(s: Seq<char>, p: int, scope: Seq<(Seq<char>, u32)>) -> (
    Result<HtmlElement, ParseFailure>,
    int,
    Seq<(Seq<char>, u32)>,
)
    decreases s.len() - p, 1int,
{
    if !(0 <= p <= s.len()) {
        failure(ErrorReason::InvalidIdentifier, 0, scope, p, scope)
    } else {
        let p1 = skip_pos(s, p);
        let start = at(s, p1);
        let (r, p2) = expect_step(s, p1, '<');
        match r {
            Err(a) => failure(ErrorReason::Expected("<"@), a, scope, p2, scope),
            Ok(_) => {
                let (rn, p3) = identifier_step(s, p2, CharClass::Name);
                match rn {
                    Err(a) => failure(ErrorReason::InvalidIdentifier, a, Seq::empty(), p3, scope),
                    Ok(tag) => if p < p3 <= s.len() {
                        parse_attributes(s, p3, scope, tag, start, Seq::empty())
                    } else {
                        failure(ErrorReason::InvalidIdentifier, 0, scope, p3, scope)
                    },
                }
            },
        }
    }
}

/// What follows in a start tag at `p`: its end `>`, its self-closing end
/// `/>`, or an attribute.
pub enum AttrTokenModel {
    StartTagEnd,
    SelfClosing,
    Attribute(Seq<char>, Seq<char>),
}

/// The next part of the start tag of an element named `tag` that starts at
/// byte `start`, at `p`, and where the lexer is left after it.
pub open spec fn attribute_token(
    s: Seq<char>,
    p: int,
    scope: Seq<(Seq<char>, u32)>,
    tag: Seq<char>,
    start: u32,
) -> (Result<AttrTokenModel, ParseFailure>, int) {
    let p0 = skip_pos(s, p);
    let (gt, p1) = operator_step(s, p0, ">"@);
    let (sc, p2) = operator_step(s, p1, "/>"@);
    let (rk, p3) = identifier_step(s, p2, CharClass::AttributeKey);
    let here = seq![(tag, start)];
    if gt {
        (Ok(AttrTokenModel::StartTagEnd), p1)
    } else if sc {
        (Ok(AttrTokenModel::SelfClosing), p2)
    } else {
        match rk {
            Err(a) => (
                Err(ParseFailure { reason: ErrorReason::InvalidIdentifier, at: a, context: here }),
                p3,
            ),
            Ok(key) => {
                let (eq, p4) = operator_step(s, p3, "="@);
                let p5 = skip_pos(s, p4);
                if eq {
                    if p5 < s.len() && is_delimiter(s[p5]) {
                        let (rv, p6) = string_literal_step(s, p5);
                        match rv {
                            Err(a) => (
                                Err(
                                    ParseFailure {
                                        reason: ErrorReason::NoEndToStringDelimeter,
                                        at: a,
                                        context: scope,
                                    },
                                ),
                                p6,
                            ),
                            Ok(v) => (Ok(AttrTokenModel::Attribute(key, v)), p6),
                        }
                    } else {
                        let (rv, p6) = identifier_step(s, p5, CharClass::AttributeValue);
                        match rv {
                            Err(a) => (
                                Err(
                                    ParseFailure {
                                        reason: ErrorReason::InvalidIdentifier,
                                        at: a,
                                        context: here,
                                    },
                                ),
                                p6,
                            ),
                            Ok(v) => (Ok(AttrTokenModel::Attribute(key, v)), p6),
                        }
                    }
                } else {
                    (Ok(AttrTokenModel::Attribute(key, Seq::empty())), p4)
                }
            },
        }
    }
}

/// The attributes of an element named `tag` that starts at byte `start`,
/// from `p`, after those in `attrs`; then its body.
///
/// Each token moves the position forward; the recursion is written so that
/// this is evident.
pub open spec fn parse_attributes(
    s: Seq<char>,
    p: int,
    scope: Seq<(Seq<char>, u32)>,
    tag: Seq<char>,
    start: u32,
    attrs: Seq<(Seq<char>, Seq<char>)>,
) -> (Result<HtmlElement, ParseFailure>, int, Seq<(Seq<char>, u32)>)
    decreases s.len() - p, 5int,
{
    let (rt, q) = attribute_token(s, p, scope, tag, start);
    if !(0 <= p <= s.len()) {
        failure(ErrorReason::InvalidIdentifier, 0, scope, p, scope)
    } else {
        match rt {
            Err(f) => (Err(f), q, scope),
            Ok(AttrTokenModel::SelfClosing) => (
                Ok(HtmlElement { tag_name: tag, attributes: attrs, children: HtmlChildren::SelfClosing }),
                q,
                scope,
            ),
            Ok(AttrTokenModel::StartTagEnd) => if p < q <= s.len() {
                parse_body(s, q, scope, tag, start, attrs)
            } else {
                failure(ErrorReason::InvalidIdentifier, 0, scope, q, scope)
            },
            Ok(AttrTokenModel::Attribute(k, v)) => if p < q <= s.len() {
                parse_attributes(s, q, scope, tag, start, attrs.push((k, v)))
            } else {
                failure(ErrorReason::InvalidIdentifier, 0, scope, q, scope)
            },
        }
    }
}

/// After a `script` or `style` element's content: the names that follow, up
/// to the element's own name, or an error offset.
pub open spec fn literal_close(s: Seq<char>, p: int, tag: Seq<char>) -> (Result<(), u32>, int)
    decreases s.len() - p,
{
    if !(0 <= p < s.len()) {
        (Ok(()), p)
    } else {
        let (r, q) = identifier_step(s, p, CharClass::Name);
        proof {
            lemma_identifier_step(s, p, CharClass::Name);
        }
        match r {
            Err(a) => (Err(a), q),
            Ok(n) => if n == tag {
                (Ok(()), q)
            } else {
                literal_close(s, q, tag)
            },
        }
    }
}

pub proof fn lemma_literal_close(s: Seq<char>, p: int, tag: Seq<char>)
    requires
        0 <= p <= s.len(),
    ensures
        p <= literal_close(s, p, tag).1 <= s.len(),
    decreases s.len() - p,
{
    if p < s.len() {
        lemma_identifier_step(s, p, CharClass::Name);
        let (r, q) = identifier_step(s, p, CharClass::Name);
        if r is Ok {
            lemma_literal_close(s, q, tag);
        }
    }
}

/// The body of an element after its start tag ended at `p`.
pub open spec fn parse_body(
    s: Seq<char>,
    p: int,
    scope: Seq<(Seq<char>, u32)>,
    tag: Seq<char>,
    start: u32,
    attrs: Seq<(Seq<char>, Seq<char>)>,
) -> (Result<HtmlElement, ParseFailure>, int, Seq<(Seq<char>, u32)>)
    decreases s.len() - p, 4int,
{
    if !(0 <= p <= s.len()) {
        failure(ErrorReason::InvalidIdentifier, 0, scope, p, scope)
    } else if self_closing_name(tag) {
        (
            Ok(HtmlElement { tag_name: tag, attributes: attrs, children: HtmlChildren::SelfClosing }),
            p,
            scope,
        )
    } else if literal_name(tag) {
        let (rc, p1) = postfix_step(s, p, "</"@, tag);
        match rc {
            Err(a) => failure(ErrorReason::Expected("</"@), a, scope, p1, scope),
            Ok(content) => {
                let (rl, p2) = literal_close(s, p1, tag);
                match rl {
                    Err(a) => failure(ErrorReason::InvalidIdentifier, a, scope, p2, scope),
                    Ok(_) => {
                        let (re, p3) = expect_step(s, p2, '>');
                        match re {
                            Err(a) => failure(ErrorReason::Expected("</"@), a, scope, p3, scope),
                            Ok(_) => (
                                Ok(
                                    HtmlElement {
                                        tag_name: tag,
                                        attributes: attrs,
                                        children: HtmlChildren::Literal(content),
                                    },
                                ),
                                p3,
                                scope,
                            ),
                        }
                    },
                }
            },
        }
    } else {
        let (rc, p1, sc1) = parse_children(s, p, scope.push((tag, start)), Seq::empty());
        match rc {
            Err(f) => (Err(f), p1, sc1),
            Ok(children) => {
                let sc2 = sc1.drop_last();
                let el = HtmlElement {
                    tag_name: tag,
                    attributes: attrs,
                    children: HtmlChildren::Children(children),
                };
                match tag_ahead(s, p1, seq!['<', '/']) {
                    Some(closing) => if closing == tag {
                        let (re, p3) = expect_step(s, after_closing_tag(s, p1, closing), '>');
                        match re {
                            Err(a) => failure(ErrorReason::Expected(">"@), a, Seq::empty(), p3, sc2),
                            Ok(_) => (Ok(el), p3, sc2),
                        }
                    } else {
                        (Ok(el), p1, sc2)
                    },
                    None => (Ok(el), p1, sc2),
                }
            },
        }
    }
}

/// The children of the innermost open element from `p`, after those in
/// `acc`, up to a closing tag of an open element or a start tag that
/// implicitly closes it.
///
/// Each step moves the position forward; the recursion is written so that
/// this is evident.
pub open spec fn parse_children(
    s: Seq<char>,
    p: int,
    scope: Seq<(Seq<char>, u32)>,
    acc: Seq<HtmlNode>,
) -> (Result<Seq<HtmlNode>, ParseFailure>, int, Seq<(Seq<char>, u32)>)
    decreases s.len() - p, 3int,
{
    if !(0 <= p <= s.len()) {
        failure(ErrorReason::InvalidIdentifier, 0, scope, p, scope)
    } else {
        match tag_ahead(s, p, seq!['<', '/']) {
            Some(closing) => {
                let p1 = whitespace_step(s, p).1;
                if scope_has(scope, closing) {
                    (Ok(acc), p1, scope)
                } else {
                    let acc1 = acc.push(HtmlNode::MismatchClosingTag(closing));
                    let (re, p3) = expect_step(s, after_closing_tag(s, p1, closing), '>');
                    match re {
                        Err(a) => failure(ErrorReason::Expected(">"@), a, Seq::empty(), p3, scope),
                        Ok(_) => if p < p3 <= s.len() {
                            parse_children(s, p3, scope, acc1)
                        } else {
                            (Ok(acc1), p3, scope)
                        },
                    }
                }
            },
            None => {
                let next = tag_ahead(s, p, seq!['<']);
                let expected = scope.last().0;
                let should_return = match next {
                    Some(n) => (expected == "p"@ && not_allowed_in_p(n)) || (expected == "li"@ && n
                        == "li"@),
                    None => false,
                };
                let (w, q) = whitespace_step(s, p);
                let keep = next is Some && acc.len() > 0 && keeps_whitespace(expected);
                let acc1 = if keep && w is Some {
                    acc.push(HtmlNode::Text(w->0))
                } else {
                    acc
                };
                let p1 = if keep {
                    q
                } else {
                    p
                };
                proof {
                    lemma_whitespace_step(s, p);
                }
                if should_return {
                    (Ok(acc1), p1, scope)
                } else {
                    let (rn, p2, sc2) = parse_node(s, p1, scope);
                    match rn {
                        Err(f) => (Err(f), p2, sc2),
                        Ok(node) => {
                            let acc2 = if node matches HtmlNode::Text(t) && all_whitespace(t) {
                                acc1
                            } else {
                                acc1.push(node)
                            };
                            if p < p2 <= s.len() {
                                parse_children(s, p2, sc2, acc2)
                            } else {
                                (Ok(acc2), p2, sc2)
                            }
                        },
                    }
                }
            },
        }
    }
}

/// An attribute at `p`: a key, then `=` and a quoted value, or no value.
pub open spec fn attribute_step(s: Seq<char>, p: int) -> (
    Result<(Seq<char>, Seq<char>), ParseFailure>,
    int,
) {
    let (rk, p1) = identifier_step(s, p, CharClass::AttributeKey);
    match rk {
        Err(a) => (
            Err(ParseFailure { reason: ErrorReason::InvalidIdentifier, at: a, context: Seq::empty() }),
            p1,
        ),
        Ok(key) => {
            let (eq, p2) = operator_step(s, p1, "="@);
            let p3 = skip_pos(s, p2);
            if eq {
                if p3 < s.len() && is_delimiter(s[p3]) {
                    let (rv, p4) = string_literal_step(s, p3);
                    match rv {
                        Err(a) => (
                            Err(
                                ParseFailure {
                                    reason: ErrorReason::NoEndToStringDelimeter,
                                    at: a,
                                    context: Seq::empty(),
                                },
                            ),
                            p4,
                        ),
                        Ok(v) => (Ok((key, v)), p4),
                    }
                } else {
                    (
                        Err(
                            ParseFailure {
                                reason: ErrorReason::Expected("string delimeter"@),
                                at: at(s, p3),
                                context: Seq::empty(),
                            },
                        ),
                        p3,
                    )
                }
            } else {
                (Ok((key, Seq::empty())), p2)
            }
        },
    }
}

/// Where a leading `<!DOCTYPE html>` declaration at `p` ends.
pub open spec fn doctype_pos(s: Seq<char>, p: int) -> int {
    let p1 = skip_pos(s, p);
    if case_insensitive_at(s, p1, "<!DOCTYPE"@) {
        let p2 = p1 + 9;
        let p3 = if p2 < s.len() && ascii_whitespace(s[p2]) {
            skip_pos(s, p2)
        } else {
            p2
        };
        let p4 = if case_insensitive_at(s, p3, "html"@) {
            p3 + 4
        } else {
            p3
        };
        operator_step(s, p4, ">"@).1
    } else {
        p1
    }
}

pub fn html_tag_contains_literal_content(tag_name: &str) -> (r: bool)
    ensures
        r == literal_name(tag_name@),
{
    str_eq(tag_name, "script") || str_eq(tag_name, "style")
}

pub fn html_tag_is_self_closing(tag_name: &str) -> (r: bool)
    ensures
        r == self_closing_name(tag_name@),
{
    str_eq(tag_name, "area") || str_eq(tag_name, "base") || str_eq(tag_name, "br") || str_eq(
        tag_name,
        "col",
    ) || str_eq(tag_name, "embed") || str_eq(tag_name, "hr") || str_eq(tag_name, "img")
        || str_eq(tag_name, "input") || str_eq(tag_name, "link") || str_eq(tag_name, "meta")
        || str_eq(tag_name, "param") || str_eq(tag_name, "source") || str_eq(tag_name, "track")
        || str_eq(tag_name, "wbr")
}

fn is_not_allowed_in_p(on: &str) -> (r: bool)
    ensures
        r == not_allowed_in_p(on@),
{
    str_eq(on, "address") || str_eq(on, "article") || str_eq(on, "aside") || str_eq(
        on,
        "blockquote",
    ) || str_eq(on, "details") || str_eq(on, "dialog") || str_eq(on, "div") || str_eq(on, "dl")
        || str_eq(on, "fieldset") || str_eq(on, "figcaption") || str_eq(on, "figure") || str_eq(
        on,
        "footer",
    ) || str_eq(on, "form") || str_eq(on, "h1") || str_eq(on, "h2") || str_eq(on, "h3")
        || str_eq(on, "h4") || str_eq(on, "h5") || str_eq(on, "h6") || str_eq(on, "header")
        || str_eq(on, "hgroup") || str_eq(on, "hr") || str_eq(on, "main") || str_eq(on, "menu")
        || str_eq(on, "nav") || str_eq(on, "ol") || str_eq(on, "p") || str_eq(on, "pre")
        || str_eq(on, "search") || str_eq(on, "section") || str_eq(on, "table") || str_eq(
        on,
        "ul",
    )
}

fn is_keeping_whitespace(on: &str) -> (r: bool)
    ensures
        r == keeps_whitespace(on@),
{
    str_eq(on, "h1") || str_eq(on, "h2") || str_eq(on, "h3") || str_eq(on, "h4") || str_eq(
        on,
        "h5",
    ) || str_eq(on, "h6") || str_eq(on, "p") || str_eq(on, "li") || str_eq(on, "span") || str_eq(
        on,
        "em",
    ) || str_eq(on, "strong")
}

fn is_all_whitespace(t: &str) -> (r: bool)
    ensures
        r == all_whitespace(t@),
{
    let chars = str_chars(t);
    scan_run(&chars, 0, CharClass::Whitespace) == chars.len()
}

/// HTML text nodes allow at most one space at each end, but keep the
/// indentation that follows a line break.
fn resolve_whitespace(on: &str) -> (r: &str)
    ensures
        r@ == resolve_ws(on@),
{
    proof {
        reveal_strlit(" ");
        assert(" "@ =~= seq![' ']);
    }
    if str_eq(on, " ") {
        return on;
    }
    let chars = str_chars(on);
    let ghost s = on@;
    let n = chars.len();
    let lead = scan_run(&chars, 0, CharClass::Space);
    proof {
        lemma_run_end(s, 0, CharClass::Space);
    }
    let mut trail: usize = 0;
    if lead < n {
        let mut j = n;
        while j > lead + 1 && chars[j - 1] == ' '
            invariant
                chars@ == s,
                n == s.len(),
                lead < n,
                lead + 1 <= j <= n,
                trailing_spaces(s, lead + 1, n as int) == (n - j) + trailing_spaces(
                    s,
                    lead + 1,
                    j as int,
                ),
                forall|i: int| j <= i < n ==> s[i] == ' ',
            decreases j,
        {
            j = j - 1;
        }
        proof {
            assert(trailing_spaces(s, lead + 1, j as int) == 0);
        }
        trail = n - j;
    }
    assert(forall|i: int| n - trail <= i < n ==> s[i] == ' ');
    let from = if lead > 0 {
        lead - 1
    } else {
        0
    };
    let cut = if trail > 0 && chars[n - trail - 1] != '\n' {
        trail - 1
    } else {
        0
    };
    let to = n - cut;
    proof {
        assert forall|i: int| 0 <= i < from implies char_width(#[trigger] s[i]) == 1 by {
            assert(s[i] == ' ');
        }
        lemma_byte_offset_narrow_run(s, 0, from as int);
        assert(s.take(0) =~= Seq::<char>::empty());
        assert forall|i: int| to <= i < n implies char_width(#[trigger] s[i]) == 1 by {
            assert(s[i] == ' ');
        }
        lemma_byte_offset_narrow_run(s, to as int, n as int);
        assert(s.take(n as int) =~= s);
    }
    let total = on.as_bytes().len();
    proof {
        assert(total == utf8_len(s));
        assert(byte_offset(s, n as int) == utf8_len(s));
        assert(byte_offset(s, 0) == 0);
    }
    str_slice(on, from, total - cut, Ghost(from as int), Ghost(to as int))
}

/// A copy of the chain of open elements.
fn clone_context(scope: &Vec<ContextItem>) -> (r: Vec<ContextItem>)
    ensures
        context_model(r@) == context_model(scope@),
{
    let mut out: Vec<ContextItem> = Vec::new();
    let mut i: usize = 0;
    while i < scope.len()
        invariant
            i <= scope@.len(),
            context_model(out@) == context_model(scope@.take(i as int)),
        decreases scope@.len() - i,
    {
        let item = ContextItem { tag_name: scope[i].tag_name.clone(), at: scope[i].at };
        proof {
            assert(scope@.take(i + 1) =~= scope@.take(i as int).push(scope@[i as int]));
            assert(context_model(out@.push(item)) =~= context_model(out@).push((item.tag_name@, item.at)));
            assert(context_model(scope@.take(i + 1)) =~= context_model(scope@.take(i as int)).push(
                (scope@[i as int].tag_name@, scope@[i as int].at),
            ));
        }
        out.push(item);
        i = i + 1;
    }
    proof {
        assert(scope@.take(scope@.len() as int) =~= scope@);
    }
    out
}

/// Whether an open element has the name `name`.
fn scope_contains(scope: &Vec<ContextItem>, name: &str) -> (r: bool)
    ensures
        r == scope_has(context_model(scope@), name@),
{
    let mut i = scope.len();
    while i > 0
        invariant
            i <= scope@.len(),
            forall|k: int| i <= k < scope@.len() ==> scope@[k].tag_name@ != name@,
        decreases i,
    {
        i = i - 1;
        if str_eq(scope[i].tag_name.as_str(), name) {
            proof {
                assert(context_model(scope@)[i as int].0 == name@);
            }
            return true;
        }
    }
    proof {
        assert forall|k: int| 0 <= k < context_model(scope@).len() implies #[trigger] context_model(scope@)[k].0 != name@ by {
            assert(context_model(scope@)[k].0 == scope@[k].tag_name@);
        }
    }
    false
}

fn expected_error(slice: &'static str, at: u32, context: Vec<ContextItem>) -> (r: HTMLParseError)
    ensures
        error_model(r) == (ParseFailure {
            reason: ErrorReason::Expected(slice@),
            at,
            context: context_model(context@),
        }),
{
    HTMLParseError { reason: HTMLParseErrorReason::Expected { slice }, at, context }
}

fn reason_error(reason: HTMLParseErrorReason, at: u32, context: Vec<ContextItem>) -> (r: HTMLParseError)
    ensures
        error_model(r) == (ParseFailure { reason: reason_model(reason), at, context: context_model(context@) }),
{
    HTMLParseError { reason, at, context }
}

proof fn lemma_context_empty()
    ensures
        context_model(Seq::<ContextItem>::empty()) == Seq::<(Seq<char>, u32)>::empty(),
{
    assert(context_model(Seq::<ContextItem>::empty()) =~= Seq::<(Seq<char>, u32)>::empty());
}

proof fn lemma_nodes_model_push(v: Seq<Node>, n: Node)
    ensures
        nodes_model(v.push(n)) == nodes_model(v).push(node_model(n)),
{
    assert(v.push(n).drop_last() =~= v);
}

proof fn lemma_attributes_model_push(v: Seq<Attribute>, a: Attribute)
    ensures
        attributes_model(v.push(a)) == attributes_model(v).push((a.key@, a.value@)),
{
    assert(attributes_model(v.push(a)) =~= attributes_model(v).push((a.key@, a.value@)));
}

/// The byte length of a closing tag's name read at `p` lands on the end of
/// the tag's name.
proof fn lemma_closing_tag_end(s: Seq<char>, p: int, name: Seq<char>)
    requires
        0 <= p <= s.len(),
        run_end(s, p, CharClass::Whitespace) == p,
        tag_ahead(s, p, seq!['<', '/']) == Some(name),
    ensures
        p + 2 + name.len() < s.len(),
        after_closing_tag(s, p, name) == p + 2 + name.len(),
        byte_offset(s, p) + 2 + utf8_len(name) <= u32::MAX || byte_offset(s, p) + 2 + utf8_len(name) <= utf8_len(s),
        byte_offset(s, p) + 2 + utf8_len(name) == byte_offset(s, p + 2 + name.len()),
{
    let e = run_end(s, p + 2, CharClass::TagName);
    lemma_run_end(s, p + 2, CharClass::TagName);
    assert(s.subrange(p, p + 2) == seq!['<', '/']);
    assert(s[p] == s.subrange(p, p + 2)[0]);
    assert(s[p + 1] == s.subrange(p, p + 2)[1]);
    assert(name == s.subrange(p + 2, e));
    assert forall|i: int| p <= i < p + 2 implies char_width(#[trigger] s[i]) == 1 by {
        if i == p {
        } else {
            assert(s[i] == '/');
        }
    }
    lemma_byte_offset_narrow_run(s, p, p + 2);
    lemma_byte_offset_range(s, p + 2, e);
    lemma_byte_offset_mono(s, e, s.len() as int);
    let q = choose|q: int| 0 <= q <= s.len() && #[trigger] byte_offset(s, q) == byte_offset(s, p) + 2 + utf8_len(name);
    assert(0 <= e <= s.len() && byte_offset(s, e) == byte_offset(s, p) + 2 + utf8_len(name));
    lemma_byte_offset_injective(s, q, e);
}

impl<'a> Node<'a> {
    fn from_reader(reader: &mut Lexer<'a>, scope: &mut ContextChain) -> (r: Result<Node<'a>, HTMLParseError>)
        requires
            old(reader).wf(),
        ensures
            final(reader).wf(),
            final(reader).text() == old(reader).text(),
            (node_result(r), final(reader).pos(), context_model(final(scope)@)) == parse_node(
                old(reader).text(),
                old(reader).pos(),
                context_model(old(scope)@),
            ),
            r is Ok ==> old(reader).pos() < final(reader).pos() && context_model(final(scope)@)
                == context_model(old(scope)@),
        decreases old(reader).text().len() - old(reader).pos(), 2int,
    {
        let ghost s = reader.text();
        let ghost p = reader.pos();
        proof {
            reader.lemma_wf();
            reveal_strlit("<!--");
            reveal_strlit("<");
            reveal_strlit("-->");
        }
        if reader.starts_with_no_advance("<!--") {
            reader.skip();
            proof {
                assert(s[p] == s.subrange(p, p + 4)[0]);
                assert(!unicode_whitespace(s[p]));
                lemma_run_end(s, p, CharClass::Whitespace);
                assert(reader.pos() == p);
                assert forall|i: int| p <= i < p + 4 implies char_width(#[trigger] s[i]) == 1 by {
                    assert(s[i] == s.subrange(p, p + 4)[i - p]);
                }
                lemma_byte_offset_narrow_run(s, p, p + 4);
                let q = choose|q: int| 0 <= q <= s.len() && #[trigger] byte_offset(s, q) == byte_offset(s, p) + 4;
                assert(0 <= p + 4 <= s.len() && byte_offset(s, p + 4) == byte_offset(s, p) + 4);
                lemma_byte_offset_injective(s, q, p + 4);
            }
            reader.advance(4);
            let content = reader.parse_until("-->", true);
            proof {
                lemma_until_step(s, p + 4, "-->"@, true);
            }
            match content {
                Ok(content) => Ok(Node::Comment(content)),
                Err(at) => Err(expected_error("-->", at, clone_context(scope))),
            }
        } else if reader.starts_with_no_advance("<") {
            let element = Element::from_reader(reader, scope);
            match element {
                Ok(element) => Ok(Node::Element(Box::new(element))),
                Err(e) => Err(e),
            }
        } else {
            let content = reader.parse_until("<", false);
            proof {
                lemma_until_step(s, p, "<"@, false);
                lemma_find_from(s, p, "<"@);
                if content is Ok {
                    let k = find_from(s, p, "<"@);
                    if k == p {
                        assert(occurs_at(s, p, "<"@));
                    }
                }
            }
            match content {
                Ok(content) => Ok(Node::TextNode(resolve_whitespace(content))),
                Err(at) => Err(expected_error("<", at, clone_context(scope))),
            }
        }
    }
}

enum AttrToken<'a> {
    StartTagEnd,
    SelfClosing,
    Attribute(Attribute<'a>),
}

spec fn token_result(r: Result<AttrToken, HTMLParseError>) -> Result<AttrTokenModel, ParseFailure> {
    match r {
        Ok(AttrToken::StartTagEnd) => Ok(AttrTokenModel::StartTagEnd),
        Ok(AttrToken::SelfClosing) => Ok(AttrTokenModel::SelfClosing),
        Ok(AttrToken::Attribute(a)) => Ok(AttrTokenModel::Attribute(a.key@, a.value@)),
        Err(e) => Err(error_model(e)),
    }
}

/// The context of an error inside the start tag of `tag_name`.
fn start_tag_context(tag_name: &str, start: u32) -> (r: Vec<ContextItem>)
    ensures
        context_model(r@) == seq![(tag_name@, start)],
{
    let item = ContextItem { tag_name: tag_name.to_owned(), at: start };
    let context = vec![item];
    proof {
        assert(context_model(context@) =~= seq![(tag_name@, start)]);
    }
    context
}

/// Reads the next part of the start tag of `tag_name`.
fn next_attribute<'a>(reader: &mut Lexer<'a>, scope: &ContextChain, tag_name: &'a str, start: u32) -> (r: Result<AttrToken<'a>, HTMLParseError>)
    requires
        old(reader).wf(),
    ensures
        final(reader).wf(),
        final(reader).text() == old(reader).text(),
        (token_result(r), final(reader).pos()) == attribute_token(
            old(reader).text(),
            old(reader).pos(),
            context_model(scope@),
            tag_name@,
            start,
        ),
        r is Ok ==> old(reader).pos() < final(reader).pos(),
{
    let ghost s = reader.text();
    let ghost p = reader.pos();
    proof {
        reader.lemma_wf();
        lemma_identifier_classes();
        reveal_strlit(">");
        reveal_strlit("/>");
        reveal_strlit("=");
        reveal_strlit("");
        assert(""@ =~= Seq::<char>::empty());
        lemma_skip_pos(s, p);
        lemma_operator_step(s, skip_pos(s, p), ">"@);
    }
    reader.skip();
    if reader.is_operator_advance(">") {
        return Ok(AttrToken::StartTagEnd);
    }
    let ghost p1 = reader.pos();
    proof {
        lemma_operator_step(s, p1, "/>"@);
    }
    if reader.is_operator_advance("/>") {
        return Ok(AttrToken::SelfClosing);
    }
    let ghost p2 = reader.pos();
    let key = match reader.parse_identifier("Attribute key") {
        Ok(key) => key,
        Err(at) => {
            return Err(
                reason_error(
                    HTMLParseErrorReason::InvalidIdentifier,
                    at,
                    start_tag_context(tag_name, start),
                ),
            );
        },
    };
    let ghost p3 = reader.pos();
    proof {
        lemma_identifier_step(s, p2, CharClass::AttributeKey);
        lemma_operator_step(s, p3, "="@);
    }
    if reader.is_operator_advance("=") {
        let ghost p4 = reader.pos();
        proof {
            lemma_skip_pos(s, p4);
            lemma_string_literal_step(s, skip_pos(s, p4));
            lemma_identifier_step(s, skip_pos(s, p4), CharClass::AttributeValue);
        }
        if reader.starts_with_string_delimeter() {
            match reader.parse_string_literal() {
                Ok(value) => Ok(AttrToken::Attribute(Attribute { key, value })),
                Err(at) => Err(
                    reason_error(
                        HTMLParseErrorReason::NoEndToStringDelimeter,
                        at,
                        clone_context(scope),
                    ),
                ),
            }
        } else {
            match reader.parse_identifier("Attribute value") {
                Ok(value) => Ok(AttrToken::Attribute(Attribute { key, value })),
                Err(at) => Err(
                    reason_error(
                        HTMLParseErrorReason::InvalidIdentifier,
                        at,
                        start_tag_context(tag_name, start),
                    ),
                ),
            }
        }
    } else {
        Ok(AttrToken::Attribute(Attribute { key, value: "" }))
    }
}

/// Reads the names after the content of a `script` or `style` element, up
/// to its own.
fn literal_close_from_reader<'a>(reader: &mut Lexer<'a>, tag_name: &'a str) -> (r: Result<(), u32>)
    requires
        old(reader).wf(),
    ensures
        final(reader).wf(),
        final(reader).text() == old(reader).text(),
        (r, final(reader).pos()) == literal_close(old(reader).text(), old(reader).pos(), tag_name@),
{
    let ghost s = reader.text();
    let ghost p0 = reader.pos();
    proof {
        reader.lemma_wf();
        lemma_identifier_classes();
    }
    loop
        invariant_except_break
            reader.wf(),
            reader.text() == s,
            old(reader).text() == s,
            old(reader).pos() == p0,
            0 <= p0 <= reader.pos() <= s.len(),
            literal_close(s, p0, tag_name@) == literal_close(s, reader.pos(), tag_name@),
        ensures
            reader.wf(),
            reader.text() == s,
            old(reader).text() == s,
            literal_close(s, p0, tag_name@) == (Ok::<(), u32>(()), reader.pos()),
        decreases s.len() - reader.pos(),
    {
        if reader.is_finished() {
            break;
        }
        let ghost q = reader.pos();
        proof {
            reader.lemma_wf();
            lemma_identifier_classes();
            lemma_identifier_step(s, q, CharClass::Name);
        }
        let closing_tag_name = match reader.parse_identifier("Closing tag") {
            Ok(closing_tag_name) => closing_tag_name,
            Err(at) => {
                return Err(at);
            },
        };
        if str_eq(tag_name, closing_tag_name) {
            break;
        }
    }
    Ok(())
}

/// Reads the attributes of `tag_name` and then its body.
fn attributes_and_body<'a>(reader: &mut Lexer<'a>, scope: &mut ContextChain, tag_name: &'a str, start: u32) -> (r: Result<Element<'a>, HTMLParseError>)
    requires
        old(reader).wf(),
    ensures
        final(reader).wf(),
        final(reader).text() == old(reader).text(),
        (element_result(r), final(reader).pos(), context_model(final(scope)@)) == parse_attributes(
            old(reader).text(),
            old(reader).pos(),
            context_model(old(scope)@),
            tag_name@,
            start,
            Seq::empty(),
        ),
        r is Ok ==> old(reader).pos() < final(reader).pos() && context_model(final(scope)@)
            == context_model(old(scope)@),
    decreases old(reader).text().len() - old(reader).pos(), 5int,
{
    let ghost s = reader.text();
    let ghost p0 = reader.pos();
    let ghost sc0 = context_model(scope@);
    let mut attributes: Vec<Attribute<'a>> = Vec::new();
    proof {
        reader.lemma_wf();
        assert(attributes_model(attributes@) =~= Seq::<(Seq<char>, Seq<char>)>::empty());
    }
    loop
        invariant_except_break
            reader.wf(),
            reader.text() == s,
            old(reader).text() == s,
            old(reader).pos() == p0,
            *scope == *old(scope),
            sc0 == context_model(scope@),
            0 <= p0 <= reader.pos() <= s.len(),
            parse_attributes(s, p0, sc0, tag_name@, start, Seq::empty()) == parse_attributes(
                s,
                reader.pos(),
                sc0,
                tag_name@,
                start,
                attributes_model(attributes@),
            ),
        ensures
            reader.wf(),
            reader.text() == s,
            old(reader).text() == s,
            old(reader).pos() == p0,
            *scope == *old(scope),
            sc0 == context_model(scope@),
            0 <= p0 < reader.pos() <= s.len(),
            parse_attributes(s, p0, sc0, tag_name@, start, Seq::empty()) == parse_body(
                s,
                reader.pos(),
                sc0,
                tag_name@,
                start,
                attributes_model(attributes@),
            ),
        decreases s.len() - reader.pos(),
    {
        let ghost p = reader.pos();
        let token = next_attribute(reader, scope, tag_name, start);
        proof {
            reader.lemma_wf();
        }
        match token {
            Ok(AttrToken::StartTagEnd) => {
                break;
            },
            Ok(AttrToken::SelfClosing) => {
                return Ok(Element { tag_name, attributes, children: ElementChildren::SelfClosing });
            },
            Ok(AttrToken::Attribute(attribute)) => {
                proof {
                    lemma_attributes_model_push(attributes@, attribute);
                }
                attributes.push(attribute);
            },
            Err(e) => {
                return Err(e);
            },
        }
    }
    element_body(reader, scope, tag_name, start, attributes)
}

/// Reads the body of `tag_name`, after its start tag.
fn element_body<'a>(
    reader: &mut Lexer<'a>,
    scope: &mut ContextChain,
    tag_name: &'a str,
    start: u32,
    attributes: Vec<Attribute<'a>>,
) -> (r: Result<Element<'a>, HTMLParseError>)
    requires
        old(reader).wf(),
    ensures
        final(reader).wf(),
        final(reader).text() == old(reader).text(),
        (element_result(r), final(reader).pos(), context_model(final(scope)@)) == parse_body(
            old(reader).text(),
            old(reader).pos(),
            context_model(old(scope)@),
            tag_name@,
            start,
            attributes_model(attributes@),
        ),
        r is Ok ==> old(reader).pos() <= final(reader).pos() && context_model(final(scope)@)
            == context_model(old(scope)@),
    decreases old(reader).text().len() - old(reader).pos(), 5int,
{
    proof {
        reader.lemma_wf();
    }
    if html_tag_is_self_closing(tag_name) {
        Ok(Element { tag_name, attributes, children: ElementChildren::SelfClosing })
    } else if html_tag_contains_literal_content(tag_name) {
        let r = literal_body(reader, scope, tag_name, attributes);
        r
    } else {
        nested_body(reader, scope, tag_name, start, attributes)
    }
}

/// The body of a `script` or `style` element: its content as text, up to
/// its closing tag.
fn literal_body<'a>(
    reader: &mut Lexer<'a>,
    scope: &ContextChain,
    tag_name: &'a str,
    attributes: Vec<Attribute<'a>>,
) -> (r: Result<Element<'a>, HTMLParseError>)
    requires
        old(reader).wf(),
    ensures
        final(reader).wf(),
        final(reader).text() == old(reader).text(),
        ({
            let s = old(reader).text();
            let p = old(reader).pos();
            let sc = context_model(scope@);
            let (rc, p1) = postfix_step(s, p, "</"@, tag_name@);
            let (rl, p2) = literal_close(s, p1, tag_name@);
            let (re, p3) = expect_step(s, p2, '>');
            (element_result(r), final(reader).pos()) == match rc {
                Err(a) => (Err(ParseFailure { reason: ErrorReason::Expected("</"@), at: a, context: sc }), p1),
                Ok(content) => match rl {
                    Err(a) => (Err(ParseFailure { reason: ErrorReason::InvalidIdentifier, at: a, context: sc }), p2),
                    Ok(_) => match re {
                        Err(a) => (Err(ParseFailure { reason: ErrorReason::Expected("</"@), at: a, context: sc }), p3),
                        Ok(_) => (
                            Ok(HtmlElement {
                                tag_name: tag_name@,
                                attributes: attributes_model(attributes@),
                                children: HtmlChildren::Literal(content),
                            }),
                            p3,
                        ),
                    },
                },
            }
        }),
        r is Ok ==> old(reader).pos() <= final(reader).pos(),
{
    let ghost s = reader.text();
    let ghost pb = reader.pos();
    proof {
        reader.lemma_wf();
        lemma_postfix_step(s, pb, "</"@, tag_name@);
    }
    let content = match reader.parse_until_postfix("</", tag_name) {
        Ok(content) => content,
        Err(at) => {
            return Err(expected_error("</", at, clone_context(scope)));
        },
    };
    let ghost pl = reader.pos();
    match literal_close_from_reader(reader, tag_name) {
        Ok(()) => {},
        Err(at) => {
            return Err(
                reason_error(HTMLParseErrorReason::InvalidIdentifier, at, clone_context(scope)),
            );
        },
    }
    let ghost pe = reader.pos();
    proof {
        reader.lemma_wf();
        lemma_literal_close(s, pl, tag_name@);
        lemma_expect_step(s, pe, '>');
    }
    match reader.expect('>') {
        Ok(()) => {},
        Err(at) => {
            return Err(expected_error("</", at, clone_context(scope)));
        },
    }
    Ok(Element { tag_name, attributes, children: ElementChildren::Literal(content) })
}

/// The body of an element with children: its children, then its closing
/// tag when that tag follows.
fn nested_body<'a>(
    reader: &mut Lexer<'a>,
    scope: &mut ContextChain,
    tag_name: &'a str,
    start: u32,
    attributes: Vec<Attribute<'a>>,
) -> (r: Result<Element<'a>, HTMLParseError>)
    requires
        old(reader).wf(),
        !self_closing_name(tag_name@),
        !literal_name(tag_name@),
    ensures
        final(reader).wf(),
        final(reader).text() == old(reader).text(),
        (element_result(r), final(reader).pos(), context_model(final(scope)@)) == parse_body(
            old(reader).text(),
            old(reader).pos(),
            context_model(old(scope)@),
            tag_name@,
            start,
            attributes_model(attributes@),
        ),
        r is Ok ==> old(reader).pos() <= final(reader).pos() && context_model(final(scope)@)
            == context_model(old(scope)@),
    decreases old(reader).text().len() - old(reader).pos(), 4int,
{
    let ghost s = reader.text();
    let ghost pb = reader.pos();
    let ghost sc0 = context_model(scope@);
    proof {
        reader.lemma_wf();
        lemma_context_empty();
        reveal_strlit(">");
    }
    let item = ContextItem { tag_name: tag_name.to_owned(), at: start };
    proof {
        assert(context_model(scope@.push(item)) =~= sc0.push((tag_name@, start)));
    }
    scope.push(item);
    let children = match children_from_reader(reader, scope) {
        Ok(children) => children,
        Err(e) => {
            return Err(e);
        },
    };
    let ghost pc = reader.pos();
    let ghost sc1 = scope@;
    let _popped = scope.pop();
    proof {
        reader.lemma_wf();
        assert(context_model(scope@) =~= context_model(sc1).drop_last());
        assert(context_model(sc1).drop_last() =~= sc0);
    }
    if let Some(closing_tag_name) = reader.parse_closing_tag_no_advance() {
        if str_eq(tag_name, closing_tag_name) {
            let len = closing_tag_name.as_bytes().len();
            proof {
                lemma_closing_tag_end(s, pc, closing_tag_name@);
                lemma_byte_offset_mono(s, pc + 2 + closing_tag_name@.len(), s.len() as int);
                assert(0 <= pc + 2 + closing_tag_name@.len() <= s.len() && byte_offset(
                    s,
                    pc + 2 + closing_tag_name@.len(),
                ) == byte_offset(s, pc) + 2 + utf8_len(closing_tag_name@));
                lemma_expect_step(s, pc + 2 + closing_tag_name@.len(), '>');
            }
            reader.advance(2 + len as u32);
            match reader.expect('>') {
                Ok(()) => {},
                Err(at) => {
                    return Err(expected_error(">", at, Vec::new()));
                },
            }
        }
    }
    Ok(Element { tag_name, attributes, children: ElementChildren::Children(children) })
}

impl<'a> Element<'a> {
    /// # Errors
    ///
    /// Will return `Err` for invalid HTML elements
    pub fn from_reader(reader: &mut Lexer<'a>, scope: &mut ContextChain) -> (r: Result<Element<'a>, HTMLParseError>)
        requires
            old(reader).wf(),
        ensures
            final(reader).wf(),
            final(reader).text() == old(reader).text(),
            (element_result(r), final(reader).pos(), context_model(final(scope)@)) == parse_element(
                old(reader).text(),
                old(reader).pos(),
                context_model(old(scope)@),
            ),
            r is Ok ==> old(reader).pos() < final(reader).pos() && context_model(final(scope)@)
                == context_model(old(scope)@),
        decreases old(reader).text().len() - old(reader).pos(), 1int,
    {
        let ghost s = reader.text();
        let ghost p0 = reader.pos();
        proof {
            reader.lemma_wf();
            lemma_identifier_classes();
            lemma_context_empty();
            reveal_strlit("<");
            lemma_skip_pos(s, p0);
            lemma_expect_step(s, skip_pos(s, p0), '<');
        }
        reader.skip();
        let start = reader.consumed();
        match reader.expect('<') {
            Ok(()) => {},
            Err(at) => {
                return Err(expected_error("<", at, clone_context(scope)));
            },
        }
        let ghost p2 = reader.pos();
        proof {
            lemma_identifier_step(s, p2, CharClass::Name);
        }
        let tag_name = match reader.parse_identifier("Element name") {
            Ok(tag_name) => tag_name,
            Err(at) => {
                return Err(reason_error(HTMLParseErrorReason::InvalidIdentifier, at, Vec::new()));
            },
        };
        attributes_and_body(reader, scope, tag_name, start)
    }
}

/// Also parsing end tag (to account for mismatched end tags)
fn children_from_reader<'a>(reader: &mut Lexer<'a>, scope: &mut ContextChain) -> (r: Result<
    Vec<Node<'a>>,
    HTMLParseError,
>)
    requires
        old(reader).wf(),
        old(scope)@.len() > 0,
    ensures
        final(reader).wf(),
        final(reader).text() == old(reader).text(),
        (
            match r {
                Ok(v) => Ok(nodes_model(v@)),
                Err(e) => Err(error_model(e)),
            },
            final(reader).pos(),
            context_model(final(scope)@),
        ) == parse_children(
            old(reader).text(),
            old(reader).pos(),
            context_model(old(scope)@),
            Seq::empty(),
        ),
        r is Ok ==> context_model(final(scope)@) == context_model(old(scope)@) && old(reader).pos()
            <= final(reader).pos() && (tag_ahead(final(reader).text(), final(reader).pos(), seq!['<', '/']) is None
            || run_end(final(reader).text(), final(reader).pos(), CharClass::Whitespace)
            == final(reader).pos()),
    decreases old(reader).text().len() - old(reader).pos(), 3int,
{
    let ghost s = reader.text();
    let ghost p0 = reader.pos();
    let ghost sc0 = context_model(scope@);
    let mut children: Vec<Node<'a>> = Vec::new();
    proof {
        reader.lemma_wf();
        assert(nodes_model(children@) =~= Seq::<HtmlNode>::empty());
    }
    loop
        invariant
            reader.wf(),
            reader.text() == s,
            old(reader).text() == s,
            old(reader).pos() == p0,
            0 <= p0 <= reader.pos() <= s.len(),
            context_model(scope@) == sc0,
            context_model(old(scope)@) == sc0,
            scope@.len() > 0,
            parse_children(s, p0, sc0, Seq::empty()) == parse_children(
                s,
                reader.pos(),
                sc0,
                nodes_model(children@),
            ),
        decreases s.len() - reader.pos(),
    {
        let ghost p = reader.pos();
        proof {
            reader.lemma_wf();
            lemma_context_empty();
            reveal_strlit(">");
            lemma_nodes_model(children@);
            lemma_run_end(s, p, CharClass::Whitespace);
            lemma_whitespace_step(s, p);
        }
        if let Some(closing_tag_name) = reader.parse_closing_tag_no_advance() {
            let _whitespace = reader.parse_whitespace();
            let ghost p1 = reader.pos();
            proof {
                let t = run_end(s, p, CharClass::Whitespace);
                assert(occurs_at(s, t, seq!['<', '/']));
                assert(s[t] == s.subrange(t, t + 2)[0]);
                assert(p1 == t);
                lemma_run_end(s, t, CharClass::Whitespace);
                assert(run_end(s, p1, CharClass::Whitespace) == p1);
            }
            if scope_contains(scope, closing_tag_name) {
                return Ok(children);
            }
            let len = closing_tag_name.as_bytes().len();
            proof {
                lemma_nodes_model_push(children@, Node::MismatchClosingTag(closing_tag_name));
                lemma_closing_tag_end(s, p1, closing_tag_name@);
                lemma_byte_offset_mono(s, p1 + 2 + closing_tag_name@.len(), s.len() as int);
                assert(0 <= p1 + 2 + closing_tag_name@.len() <= s.len() && byte_offset(
                    s,
                    p1 + 2 + closing_tag_name@.len(),
                ) == byte_offset(s, p1) + 2 + utf8_len(closing_tag_name@));
                lemma_expect_step(s, p1 + 2 + closing_tag_name@.len(), '>');
                reveal_strlit(">");
            }
            children.push(Node::MismatchClosingTag(closing_tag_name));
            reader.advance(2 + len as u32);
            match reader.expect('>') {
                Ok(()) => {},
                Err(at) => {
                    return Err(expected_error(">", at, Vec::new()));
                },
            }
            continue ;
        }
        let next_element_tag = reader.parse_opening_tag_no_advance();
        if let Some(next_element_tag) = next_element_tag {
            let expected_closing_tag_name = scope[scope.len() - 1].tag_name.as_str();
            proof {
                assert(sc0.last().0 == expected_closing_tag_name@);
            }
            let should_return = (str_eq(expected_closing_tag_name, "p") && is_not_allowed_in_p(
                next_element_tag,
            )) || (str_eq(expected_closing_tag_name, "li") && str_eq(next_element_tag, "li"));
            if children.len() > 0 {
                if is_keeping_whitespace(expected_closing_tag_name) {
                    let whitespace = reader.parse_whitespace();
                    if let Some(whitespace) = whitespace {
                        proof {
                            lemma_nodes_model_push(children@, Node::TextNode(whitespace));
                        }
                        children.push(Node::TextNode(whitespace));
                    }
                }
            }
            if should_return {
                proof {
                    lemma_run_end_inside(s, p, reader.pos(), CharClass::Whitespace);
                }
                return Ok(children);
            }
        }
        let node = match Node::from_reader(reader, scope) {
            Ok(node) => node,
            Err(e) => {
                return Err(e);
            },
        };
        proof {
            reader.lemma_wf();
            assert(context_model(scope@).len() == scope@.len());
        }
        if let Node::TextNode(content) = node {
            if is_all_whitespace(content) {
                continue ;
            }
        }
        proof {
            lemma_nodes_model_push(children@, node);
        }
        children.push(node);
    }
}

pub open spec fn document_result(r: Result<Document, HTMLParseError>) -> Result<HtmlElement, ParseFailure> {
    match r {
        Ok(d) => Ok(element_model(d.html_element)),
        Err(e) => Err(error_model(e)),
    }
}

/// [see specification](https://html.spec.whatwg.org/multipage/syntax.html#the-doctype)
fn parse_doctype(reader: &mut Lexer<'_>)
    requires
        old(reader).wf(),
    ensures
        final(reader).wf(),
        final(reader).text() == old(reader).text(),
        final(reader).pos() == doctype_pos(old(reader).text(), old(reader).pos()),
{
    proof {
        reveal_strlit("<!DOCTYPE");
        reveal_strlit("html");
    }
    reader.skip();
    let starts = reader.starts_with_ascii_case_ignore("<!DOCTYPE");
    if starts {
        let _ = reader.parse_one_or_more_whitespace();
        let _ = reader.starts_with_ascii_case_ignore("html");
        let _ = reader.is_operator_advance(">");
    }
}

impl<'a> Document<'a> {
    /// # Errors
    ///
    /// Will return `Err` for invalid HTML documents
    pub fn from_reader(reader: &mut Lexer<'a>) -> (r: Result<Self, HTMLParseError>)
        requires
            old(reader).wf(),
        ensures
            final(reader).wf(),
            final(reader).text() == old(reader).text(),
            ({
                let s = old(reader).text();
                let parsed = parse_element(s, doctype_pos(s, old(reader).pos()), Seq::empty());
                document_result(r) == parsed.0 && final(reader).pos() == parsed.1
            }),
    {
        parse_doctype(reader);
        let mut scope: Vec<ContextItem> = Vec::new();
        proof {
            lemma_context_empty();
        }
        match Element::from_reader(reader, &mut scope) {
            Ok(html_element) => Ok(Document { html_element }),
            Err(e) => Err(e),
        }
    }
}

impl<'a> Element<'a> {
    /// Also returns how many bytes parsed
    /// # Errors
    ///
    /// Will return `Err` for invalid HTML elements
    pub fn from_string(content: &'a str) -> (r: Result<(Self, u32), HTMLParseError>)
        requires
            utf8_len(content@) <= u32::MAX,
        ensures
            ({
                let parsed = parse_element(content@, 0, Seq::empty());
                match r {
                    Ok((e, consumed)) => parsed.0 == Ok::<HtmlElement, ParseFailure>(element_model(e))
                        && consumed == byte_offset(content@, parsed.1),
                    Err(e) => parsed.0 == Err::<HtmlElement, ParseFailure>(error_model(e)),
                }
            }),
    {
        let mut lexer = Lexer::new(content);
        let mut scope: Vec<ContextItem> = Vec::new();
        proof {
            lemma_context_empty();
        }
        let element = match Element::from_reader(&mut lexer, &mut scope) {
            Ok(element) => element,
            Err(e) => {
                return Err(e);
            },
        };
        Ok((element, lexer.consumed()))
    }
}

pub open spec fn attribute_result(r: Result<Attribute, HTMLParseError>) -> Result<(Seq<char>, Seq<char>), ParseFailure> {
    match r {
        Ok(a) => Ok((a.key@, a.value@)),
        Err(e) => Err(error_model(e)),
    }
}

impl<'a> Attribute<'a> {
    /// Not used in main loop for now
    /// # Errors
    ///
    /// Will return `Err` for invalid attributes
    pub fn from_reader(reader: &mut Lexer<'a>) -> (r: Result<Self, HTMLParseError>)
        requires
            old(reader).wf(),
        ensures
            final(reader).wf(),
            final(reader).text() == old(reader).text(),
            (attribute_result(r), final(reader).pos()) == attribute_step(old(reader).text(), old(reader).pos()),
    {
        proof {
            lemma_identifier_classes();
            lemma_context_empty();
            reveal_strlit("=");
            reveal_strlit("");
            assert(""@ =~= Seq::<char>::empty());
        }
        let key = match reader.parse_identifier("Attribute key") {
            Ok(key) => key,
            Err(at) => {
                return Err(reason_error(HTMLParseErrorReason::InvalidIdentifier, at, Vec::new()));
            },
        };
        if reader.is_operator_advance("=") {
            if reader.starts_with_string_delimeter() {
                match reader.parse_string_literal() {
                    Ok(value) => Ok(Attribute { key, value }),
                    Err(at) => Err(
                        reason_error(HTMLParseErrorReason::NoEndToStringDelimeter, at, Vec::new()),
                    ),
                }
            } else {
                let at = reader.consumed();
                Err(expected_error("string delimeter", at, Vec::new()))
            }
        } else {
            Ok(Attribute { key, value: "" })
        }
    }
}

} // verus!
