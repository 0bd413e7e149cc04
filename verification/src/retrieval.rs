//! Queries over a whole document: a chain of selector steps, ending in the
//! values of an attribute, the text, or the cells of tables.
use vstd::prelude::*;
use crate::html::{
    Document, Element, ElementChildren, HTMLParseError, HtmlChildren, HtmlElement, HtmlNode, Node,
    ParseFailure, doctype_pos, element_model, error_model, node_model, nodes_model, parse_element,
    lemma_nodes_model,
};
use crate::lexer::{Lexer, str_chars};
use crate::matching::{
    Selector, SelectorModel, elements_model, first_in_element, first_value, matching_in_element,
    parse_selector, attribute_value, query_selector, query_selector_all,
};
use crate::operations::{inner_text_checked, text_of_element, unescape, unescape_checked, prepend_text};
use crate::text::{
    byte_offset, chars_and_offsets, find_from, find_pattern, lemma_find_from, lemma_run_end,
    matches_at, occurs_at, run_end, scan_run, str_eq, str_slice, unicode_whitespace,
    is_unicode_whitespace, utf8_len, CharClass,
};

verus! {

broadcast use vstd::string::group_string_axioms;

/// The tree that the text `s` parses to, after an optional doctype.
pub open spec fn parse_document(s: Seq<char>) -> Result<HtmlElement, ParseFailure> {
    parse_element(s, doctype_pos(s, 0), Seq::empty()).0
}

/// Why a query gives no answer.
pub enum RetrieveFailure {
    /// The document does not parse.
    Document(ParseFailure),
    /// A selector step does not read as a selector.
    Selector,
    /// A text node holds a character reference that cannot be read.
    Reference,
    /// The query has no step that gives an answer.
    NoEndQuery,
}

/// Why `try_retrieve` gave no answer.
#[derive(Debug)]
pub enum RetrieveError {
    Document(HTMLParseError),
    Selector,
    Reference,
    NoEndQuery,
}

pub open spec fn failure_model(e: RetrieveError) -> RetrieveFailure {
    match e {
        RetrieveError::Document(d) => RetrieveFailure::Document(error_model(d)),
        RetrieveError::Selector => RetrieveFailure::Selector,
        RetrieveError::Reference => RetrieveFailure::Reference,
        RetrieveError::NoEndQuery => RetrieveFailure::NoEndQuery,
    }
}

/// The end, at or before `hi`, of `t[lo..hi]` without its trailing white
/// space.
pub open spec fn ws_back(t: Seq<char>, lo: int, hi: int) -> int
    decreases hi - lo,
{
    if lo < hi && unicode_whitespace(t[hi - 1]) {
        ws_back(t, lo, hi - 1)
    } else {
        hi
    }
}

/// `t` without the white space it starts and ends with, as `str::trim`
/// leaves it.
pub open spec fn trim_ws(t: Seq<char>) -> Seq<char> {
    let a = run_end(t, 0, CharClass::Whitespace);
    t.subrange(a, ws_back(t, a, t.len() as int))
}

/// The rest of `t` after the prefix `p`, if `t` starts with it.
pub open spec fn after_prefix(t: Seq<char>, p: Seq<char>) -> Option<Seq<char>> {
    if occurs_at(t, 0, p) {
        Some(t.skip(p.len() as int))
    } else {
        None
    }
}

/// For each element in turn, the first element of its subtree that matches
/// `sel`, where there is one.
pub open spec fn first_matches(current: Seq<HtmlElement>, sel: SelectorModel) -> Seq<HtmlElement>
    decreases current.len(),
{
    if current.len() == 0 {
        Seq::empty()
    } else {
        first_matches(current.drop_last(), sel) + match first_in_element(current.last(), sel) {
            Some(x) => seq![x],
            None => Seq::empty(),
        }
    }
}

/// For each element in turn, all the elements of its subtree that match
/// `sel`.
pub open spec fn all_matches(current: Seq<HtmlElement>, sel: SelectorModel) -> Seq<HtmlElement>
    decreases current.len(),
{
    if current.len() == 0 {
        Seq::empty()
    } else {
        all_matches(current.drop_last(), sel) + matching_in_element(current.last(), sel)
    }
}

/// `item` after `buf`, with `sep` between them unless `buf` is empty.
pub open spec fn separated(buf: Seq<char>, sep: Seq<char>, item: Seq<char>) -> Seq<char> {
    if buf.len() > 0 {
        buf + sep + item
    } else {
        item
    }
}

/// The values of the attribute `key` of the elements that have one, in
/// order, separated by `"\0a"`.
pub open spec fn attribute_values(current: Seq<HtmlElement>, key: Seq<char>) -> Seq<char>
    decreases current.len(),
{
    if current.len() == 0 {
        Seq::empty()
    } else {
        let buf = attribute_values(current.drop_last(), key);
        match first_value(current.last().attributes, key) {
            Some(v) => separated(buf, "\0a"@, v),
            None => buf,
        }
    }
}

/// The texts of the elements, in order, separated by `"\0t"`.
pub open spec fn texts(current: Seq<HtmlElement>) -> Option<Seq<char>>
    decreases current.len(),
{
    if current.len() == 0 {
        Some(Seq::empty())
    } else {
        match (texts(current.drop_last()), text_of_element(current.last())) {
            (Some(buf), Some(t)) => Some(separated(buf, "\0t"@, t)),
            _ => None,
        }
    }
}

/// The text of one node: that of an element's subtree, or a text node's
/// text with its references replaced.
pub open spec fn node_text(n: HtmlNode) -> Option<Seq<char>> {
    match n {
        HtmlNode::Element(e) => text_of_element(e),
        HtmlNode::Text(t) => unescape(t),
        _ => Some(Seq::empty()),
    }
}

/// The cells of a row: each one `"\0d"` and its text.
pub open spec fn cells_text(cells: Seq<HtmlNode>) -> Option<Seq<char>>
    decreases cells.len(),
{
    if cells.len() == 0 {
        Some(Seq::empty())
    } else {
        match cells_text(cells.drop_last()) {
            Some(buf) => prepend_text(buf + "\0d"@, node_text(cells.last())),
            None => None,
        }
    }
}

/// The rows: each element `"\0r"` and its cells.
pub open spec fn rows_text(rows: Seq<HtmlNode>) -> Option<Seq<char>>
    decreases rows.len(),
{
    if rows.len() == 0 {
        Some(Seq::empty())
    } else {
        match rows_text(rows.drop_last()) {
            Some(buf) => match rows.last() {
                HtmlNode::Element(r) => match r.children {
                    HtmlChildren::Children(cells) => prepend_text(buf + "\0r"@, cells_text(cells)),
                    _ => Some(buf + "\0r"@),
                },
                _ => Some(buf),
            },
            None => None,
        }
    }
}

/// The children of the first `tbody` element among `ns`.
pub open spec fn first_tbody(ns: Seq<HtmlNode>) -> Option<HtmlChildren>
    decreases ns.len(),
{
    if ns.len() == 0 {
        None
    } else {
        match first_tbody(ns.drop_last()) {
            Some(c) => Some(c),
            None => match ns.last() {
                HtmlNode::Element(e) => if e.tag_name == "tbody"@ {
                    Some(e.children)
                } else {
                    None
                },
                _ => None,
            },
        }
    }
}

/// The rows of a table: the children of its first `tbody` where that has
/// children, else its own children.
pub open spec fn table_rows(e: HtmlElement) -> Seq<HtmlNode> {
    let top = match e.children {
        HtmlChildren::Children(ns) => ns,
        _ => Seq::empty(),
    };
    match first_tbody(top) {
        Some(HtmlChildren::Children(rows)) => rows,
        _ => top,
    }
}

/// The tables, in order, separated by `"\0"`.
pub open spec fn tables(current: Seq<HtmlElement>) -> Option<Seq<char>>
    decreases current.len(),
{
    if current.len() == 0 {
        Some(Seq::empty())
    } else {
        match (tables(current.drop_last()), rows_text(table_rows(current.last()))) {
            (Some(buf), Some(t)) => Some(separated(buf, "\0"@, t)),
            _ => None,
        }
    }
}

/// The answer to the steps of the query `q` from position `i` on, over the
/// elements `current`. Steps are separated by `'\0'`: `single <selector>`
/// keeps the first match under each element, `all <selector>` every match;
/// `attribute <key>`, `text` and `table` end the query with their output;
/// any other step is passed over.
pub open spec fn retrieve_steps(current: Seq<HtmlElement>, q: Seq<char>, i: int) -> Result<
    Seq<char>,
    RetrieveFailure,
>
    decreases q.len() - i,
{
    if !(0 <= i <= q.len()) {
        Err(RetrieveFailure::NoEndQuery)
    } else {
        let e = find_from(q, i, seq!['\0']);
        proof {
            lemma_find_from(q, i, seq!['\0']);
        }
        let part = q.subrange(i, e);
        if let Some(t) = after_prefix(part, "single "@) {
            match parse_selector(trim_ws(t)) {
                Some(sel) => if e < q.len() {
                    retrieve_steps(first_matches(current, sel), q, e + 1)
                } else {
                    Err(RetrieveFailure::NoEndQuery)
                },
                None => Err(RetrieveFailure::Selector),
            }
        } else if let Some(t) = after_prefix(part, "all "@) {
            match parse_selector(trim_ws(t)) {
                Some(sel) => if e < q.len() {
                    retrieve_steps(all_matches(current, sel), q, e + 1)
                } else {
                    Err(RetrieveFailure::NoEndQuery)
                },
                None => Err(RetrieveFailure::Selector),
            }
        } else if let Some(key) = after_prefix(part, "attribute "@) {
            Ok(attribute_values(current, key))
        } else if part == "text"@ {
            match texts(current) {
                Some(t) => Ok(t),
                None => Err(RetrieveFailure::Reference),
            }
        } else if part == "table"@ {
            match tables(current) {
                Some(t) => Ok(t),
                None => Err(RetrieveFailure::Reference),
            }
        } else if e < q.len() {
            retrieve_steps(current, q, e + 1)
        } else {
            Err(RetrieveFailure::NoEndQuery)
        }
    }
}

/// The answer to `query` over the document `content`.
pub open spec fn retrieve_result(content: Seq<char>, query: Seq<char>) -> Result<Seq<char>, RetrieveFailure> {
    match parse_document(content) {
        Ok(html) => retrieve_steps(seq![html], query, 0),
        Err(f) => Err(RetrieveFailure::Document(f)),
    }
}

/// `s` without the white space it starts and ends with.
fn trim_whitespace(s: &str) -> (r: &str)
    ensures
        r@ == trim_ws(s@),
{
    let (chars, offsets) = chars_and_offsets(s);
    let n = chars.len();
    let a = scan_run(&chars, 0, CharClass::Whitespace);
    proof {
        lemma_run_end(s@, 0, CharClass::Whitespace);
    }
    let mut b = n;
    while b > a && is_unicode_whitespace(chars[b - 1])
        invariant
            chars@ == s@,
            n == s@.len(),
            a <= b <= n,
            ws_back(s@, a as int, n as int) == ws_back(s@, a as int, b as int),
        decreases b - a,
    {
        b = b - 1;
    }
    str_slice(s, offsets[a], offsets[b], Ghost(a as int), Ghost(b as int))
}

proof fn lemma_take_step<T>(m: Seq<T>, k: int)
    requires
        0 <= k < m.len(),
    ensures
        m.take(k + 1).drop_last() == m.take(k),
        m.take(k + 1).last() == m[k],
        m.take(k + 1).len() == k + 1,
{
    assert(m.take(k + 1).drop_last() =~= m.take(k));
}

/// For each element in turn, the first element of its subtree that matches
/// `sel`, where there is one.
fn select_first<'a, 'b>(current: &Vec<&'a Element<'b>>, sel: &Selector) -> (r: Vec<&'a Element<'b>>)
    ensures
        elements_model(r@) == first_matches(elements_model(current@), sel@),
{
    let ghost m = elements_model(current@);
    let mut out: Vec<&'a Element<'b>> = Vec::new();
    let mut k: usize = 0;
    proof {
        assert(m.take(0) =~= Seq::<HtmlElement>::empty());
        assert(elements_model(out@) =~= Seq::<HtmlElement>::empty());
    }
    while k < current.len()
        invariant
            k <= current@.len(),
            m == elements_model(current@),
            m.len() == current@.len(),
            elements_model(out@) == first_matches(m.take(k as int), sel@),
        decreases current@.len() - k,
    {
        proof {
            lemma_take_step(m, k as int);
        }
        let ghost before = elements_model(out@);
        match query_selector(current[k], sel) {
            Some(x) => {
                out.push(x);
                proof {
                    assert(elements_model(out@) =~= before + seq![element_model(*x)]);
                }
            },
            None => {
                proof {
                    assert(before + Seq::<HtmlElement>::empty() =~= before);
                }
            },
        }
        k = k + 1;
    }
    proof {
        assert(m.take(m.len() as int) =~= m);
    }
    out
}

/// For each element in turn, all the elements of its subtree that match
/// `sel`.
fn select_all<'a, 'b>(current: &Vec<&'a Element<'b>>, sel: &Selector) -> (r: Vec<&'a Element<'b>>)
    ensures
        elements_model(r@) == all_matches(elements_model(current@), sel@),
{
    let ghost m = elements_model(current@);
    let mut out: Vec<&'a Element<'b>> = Vec::new();
    let mut k: usize = 0;
    proof {
        assert(m.take(0) =~= Seq::<HtmlElement>::empty());
        assert(elements_model(out@) =~= Seq::<HtmlElement>::empty());
    }
    while k < current.len()
        invariant
            k <= current@.len(),
            m == elements_model(current@),
            m.len() == current@.len(),
            elements_model(out@) == all_matches(m.take(k as int), sel@),
        decreases current@.len() - k,
    {
        proof {
            lemma_take_step(m, k as int);
        }
        let found = query_selector_all(current[k], sel);
        let ghost before = elements_model(out@);
        let mut j: usize = 0;
        proof {
            assert(elements_model(found@).take(0) =~= Seq::<HtmlElement>::empty());
            assert(before + Seq::<HtmlElement>::empty() =~= before);
        }
        while j < found.len()
            invariant
                j <= found@.len(),
                elements_model(out@) == before + elements_model(found@).take(j as int),
            decreases found@.len() - j,
        {
            let ghost before_j = elements_model(out@);
            out.push(found[j]);
            proof {
                assert(elements_model(out@) =~= before_j.push(element_model(*found@[j as int])));
                assert(elements_model(found@).take(j + 1) =~= elements_model(found@).take(j as int).push(
                    element_model(*found@[j as int]),
                ));
                assert(elements_model(out@) =~= before + elements_model(found@).take(j + 1));
            }
            j = j + 1;
        }
        proof {
            assert(elements_model(found@).take(found@.len() as int) =~= elements_model(found@));
        }
        k = k + 1;
    }
    proof {
        assert(m.take(m.len() as int) =~= m);
    }
    out
}

/// The values of the attribute `key` of the elements that have one,
/// separated by `"\0a"`.
fn attribute_output(current: &Vec<&Element>, key: &str) -> (r: String)
    ensures
        r@ == attribute_values(elements_model(current@), key@),
{
    let ghost m = elements_model(current@);
    let mut buf = String::new();
    let mut k: usize = 0;
    proof {
        assert(m.take(0) =~= Seq::<HtmlElement>::empty());
    }
    while k < current.len()
        invariant
            k <= current@.len(),
            m == elements_model(current@),
            m.len() == current@.len(),
            buf@ == attribute_values(m.take(k as int), key@),
        decreases current@.len() - k,
    {
        proof {
            lemma_take_step(m, k as int);
        }
        match attribute_value(&current[k].attributes, key) {
            Some(value) => {
                if !buf.as_str().is_empty() {
                    buf.append("\0a");
                }
                buf.append(value);
            },
            None => {},
        }
        k = k + 1;
    }
    proof {
        assert(m.take(m.len() as int) =~= m);
    }
    buf
}

/// The texts of the elements, separated by `"\0t"`.
fn text_output(current: &Vec<&Element>) -> (r: Option<String>)
    ensures
        match r {
            Some(t) => texts(elements_model(current@)) == Some(t@),
            None => texts(elements_model(current@)) is None,
        },
{
    let ghost m = elements_model(current@);
    let mut buf = String::new();
    let mut k: usize = 0;
    proof {
        assert(m.take(0) =~= Seq::<HtmlElement>::empty());
    }
    while k < current.len()
        invariant
            k <= current@.len(),
            m == elements_model(current@),
            m.len() == current@.len(),
            texts(m.take(k as int)) == Some(buf@),
        decreases current@.len() - k,
    {
        proof {
            lemma_take_step(m, k as int);
        }
        if !buf.as_str().is_empty() {
            buf.append("\0t");
        }
        match inner_text_checked(current[k]) {
            Some(t) => {
                buf.append(t.as_str());
            },
            None => {
                proof {
                    lemma_texts_none_extends(m, k + 1);
                }
                return None;
            },
        }
        k = k + 1;
    }
    proof {
        assert(m.take(m.len() as int) =~= m);
    }
    Some(buf)
}

proof fn lemma_texts_none_extends(m: Seq<HtmlElement>, k: int)
    requires
        0 <= k <= m.len(),
        texts(m.take(k)) is None,
    ensures
        texts(m) is None,
    decreases m.len(),
{
    if k < m.len() {
        assert(m.drop_last().take(k) =~= m.take(k));
        lemma_texts_none_extends(m.drop_last(), k);
    } else {
        assert(m.take(k) =~= m);
    }
}

/// The text of one node.
fn node_text_checked(n: &Node) -> (r: Option<String>)
    ensures
        match r {
            Some(t) => node_text(node_model(*n)) == Some(t@),
            None => node_text(node_model(*n)) is None,
        },
{
    match n {
        Node::Element(e) => inner_text_checked(e),
        Node::TextNode(t) => unescape_checked(t),
        _ => Some(String::new()),
    }
}

proof fn lemma_cells_none_extends(ns: Seq<HtmlNode>, k: int)
    requires
        0 <= k <= ns.len(),
        cells_text(ns.take(k)) is None,
    ensures
        cells_text(ns) is None,
    decreases ns.len(),
{
    if k < ns.len() {
        assert(ns.drop_last().take(k) =~= ns.take(k));
        lemma_cells_none_extends(ns.drop_last(), k);
    } else {
        assert(ns.take(k) =~= ns);
    }
}

proof fn lemma_rows_none_extends(ns: Seq<HtmlNode>, k: int)
    requires
        0 <= k <= ns.len(),
        rows_text(ns.take(k)) is None,
    ensures
        rows_text(ns) is None,
    decreases ns.len(),
{
    if k < ns.len() {
        assert(ns.drop_last().take(k) =~= ns.take(k));
        lemma_rows_none_extends(ns.drop_last(), k);
    } else {
        assert(ns.take(k) =~= ns);
    }
}

proof fn lemma_nodes_take(v: Seq<Node>, k: int)
    requires
        0 <= k <= v.len(),
    ensures
        nodes_model(v.take(k)) == nodes_model(v).take(k),
        nodes_model(v).len() == v.len(),
{
    lemma_nodes_model(v);
    lemma_nodes_model(v.take(k));
    assert(nodes_model(v.take(k)) =~= nodes_model(v).take(k));
}

/// Appends each cell, `"\0d"` and its text, to `buf`; false where a text
/// cannot be read.
fn cells_output(cells: &Vec<Node>, buf: &mut String) -> (ok: bool)
    ensures
        ok == cells_text(nodes_model(cells@)) is Some,
        ok ==> Some(final(buf)@) == prepend_text(old(buf)@, cells_text(nodes_model(cells@))),
{
    let ghost start = buf@;
    let ghost m = nodes_model(cells@);
    let mut k: usize = 0;
    proof {
        lemma_nodes_take(cells@, 0);
        assert(m.take(0) =~= Seq::<HtmlNode>::empty());
        assert(start + Seq::<char>::empty() =~= start);
    }
    while k < cells.len()
        invariant
            k <= cells@.len(),
            m == nodes_model(cells@),
            m.len() == cells@.len(),
            Some(buf@) == prepend_text(start, cells_text(m.take(k as int))),
        decreases cells@.len() - k,
    {
        proof {
            lemma_take_step(m, k as int);
            lemma_nodes_model(cells@);
        }
        let ghost prev = cells_text(m.take(k as int))->0;
        buf.append("\0d");
        match node_text_checked(&cells[k]) {
            Some(t) => {
                buf.append(t.as_str());
                proof {
                    assert(start + prev + "\0d"@ + t@ =~= start + (prev + "\0d"@ + t@));
                }
            },
            None => {
                proof {
                    lemma_cells_none_extends(m, k + 1);
                }
                return false;
            },
        }
        k = k + 1;
    }
    proof {
        assert(m.take(m.len() as int) =~= m);
    }
    true
}

/// Appends each row, `"\0r"` and its cells, to `buf`; false where a text
/// cannot be read.
fn rows_output(rows: &Vec<Node>, buf: &mut String) -> (ok: bool)
    ensures
        ok == rows_text(nodes_model(rows@)) is Some,
        ok ==> Some(final(buf)@) == prepend_text(old(buf)@, rows_text(nodes_model(rows@))),
{
    let ghost start = buf@;
    let ghost m = nodes_model(rows@);
    let mut k: usize = 0;
    proof {
        lemma_nodes_take(rows@, 0);
        assert(m.take(0) =~= Seq::<HtmlNode>::empty());
        assert(start + Seq::<char>::empty() =~= start);
    }
    while k < rows.len()
        invariant
            k <= rows@.len(),
            m == nodes_model(rows@),
            m.len() == rows@.len(),
            Some(buf@) == prepend_text(start, rows_text(m.take(k as int))),
        decreases rows@.len() - k,
    {
        proof {
            lemma_take_step(m, k as int);
            lemma_nodes_model(rows@);
        }
        let ghost prev = rows_text(m.take(k as int))->0;
        match &rows[k] {
            Node::Element(row) => {
                buf.append("\0r");
                match &row.children {
                    ElementChildren::Children(cells) => {
                        let ghost mid = buf@;
                        if !cells_output(cells, buf) {
                            proof {
                                lemma_rows_none_extends(m, k + 1);
                            }
                            return false;
                        }
                        proof {
                            let c = cells_text(nodes_model(cells@))->0;
                            assert(start + prev + "\0r"@ + c =~= start + (prev + "\0r"@ + c));
                        }
                    },
                    _ => {
                        proof {
                            assert(start + prev + "\0r"@ =~= start + (prev + "\0r"@));
                        }
                    },
                }
            },
            _ => {},
        }
        k = k + 1;
    }
    proof {
        assert(m.take(m.len() as int) =~= m);
    }
    true
}

proof fn lemma_tbody_prefix(ns: Seq<HtmlNode>, k: int)
    requires
        0 <= k <= ns.len(),
        first_tbody(ns.take(k)) is Some,
    ensures
        first_tbody(ns) == first_tbody(ns.take(k)),
    decreases ns.len(),
{
    if k < ns.len() {
        assert(ns.drop_last().take(k) =~= ns.take(k));
        lemma_tbody_prefix(ns.drop_last(), k);
    } else {
        assert(ns.take(k) =~= ns);
    }
}

/// The rows of the table `e`; nothing stands for no rows.
fn table_rows_of<'x, 'y>(e: &'x Element<'y>) -> (r: Option<&'x Vec<Node<'y>>>)
    ensures
        match r {
            Some(v) => nodes_model(v@) == table_rows(element_model(*e)),
            None => table_rows(element_model(*e)) == Seq::<HtmlNode>::empty(),
        },
{
    let top = match &e.children {
        ElementChildren::Children(c) => c,
        _ => {
            proof {
                assert(first_tbody(Seq::<HtmlNode>::empty()) is None);
            }
            return None;
        },
    };
    let ghost m = nodes_model(top@);
    let mut k: usize = 0;
    proof {
        lemma_nodes_take(top@, 0);
        assert(m.take(0) =~= Seq::<HtmlNode>::empty());
    }
    while k < top.len()
        invariant
            k <= top@.len(),
            m == nodes_model(top@),
            m.len() == top@.len(),
            e.children == ElementChildren::Children(*top),
            first_tbody(m.take(k as int)) is None,
        decreases top@.len() - k,
    {
        proof {
            lemma_take_step(m, k as int);
            lemma_nodes_model(top@);
        }
        match &top[k] {
            Node::Element(x) => {
                if str_eq(x.tag_name, "tbody") {
                    proof {
                        lemma_tbody_prefix(m, k + 1);
                    }
                    match &x.children {
                        ElementChildren::Children(rows) => {
                            return Some(rows);
                        },
                        _ => {
                            return Some(top);
                        },
                    }
                }
            },
            _ => {},
        }
        k = k + 1;
    }
    proof {
        assert(m.take(m.len() as int) =~= m);
    }
    Some(top)
}

proof fn lemma_tables_none_extends(m: Seq<HtmlElement>, k: int)
    requires
        0 <= k <= m.len(),
        tables(m.take(k)) is None,
    ensures
        tables(m) is None,
    decreases m.len(),
{
    if k < m.len() {
        assert(m.drop_last().take(k) =~= m.take(k));
        lemma_tables_none_extends(m.drop_last(), k);
    } else {
        assert(m.take(k) =~= m);
    }
}

/// The tables, separated by `"\0"`: each row `"\0r"` and its cells, each
/// cell `"\0d"` and its text.
fn table_output(current: &Vec<&Element>) -> (r: Option<String>)
    ensures
        match r {
            Some(t) => tables(elements_model(current@)) == Some(t@),
            None => tables(elements_model(current@)) is None,
        },
{
    let ghost m = elements_model(current@);
    let mut buf = String::new();
    let mut k: usize = 0;
    proof {
        assert(m.take(0) =~= Seq::<HtmlElement>::empty());
    }
    while k < current.len()
        invariant
            k <= current@.len(),
            m == elements_model(current@),
            m.len() == current@.len(),
            tables(m.take(k as int)) == Some(buf@),
        decreases current@.len() - k,
    {
        proof {
            lemma_take_step(m, k as int);
        }
        let ghost prev = buf@;
        if !buf.as_str().is_empty() {
            buf.append("\0");
        }
        let ghost mid = buf@;
        match table_rows_of(current[k]) {
            Some(rows) => {
                if !rows_output(rows, &mut buf) {
                    proof {
                        lemma_tables_none_extends(m, k + 1);
                    }
                    return None;
                }
            },
            None => {
                proof {
                    assert(rows_text(Seq::<HtmlNode>::empty()) == Some(Seq::<char>::empty()));
                    assert(mid + Seq::<char>::empty() =~= mid);
                }
            },
        }
        proof {
            let t = rows_text(table_rows(m[k as int]))->0;
            assert(buf@ == mid + t);
            if prev.len() > 0 {
                assert(prev + "\0"@ + t =~= separated(prev, "\0"@, t));
            } else {
                assert(mid == prev);
                assert(prev.len() == 0);
                assert(mid + t =~= t);
            }
        }
        k = k + 1;
    }
    proof {
        assert(m.take(m.len() as int) =~= m);
    }
    Some(buf)
}

/// The part of `q` from `i` starts with `p` and ends at or after it, at `e`.
fn part_starts_with(q: &Vec<char>, i: usize, e: usize, p: &Vec<char>) -> (r: bool)
    requires
        i <= e <= q@.len(),
    ensures
        r == (after_prefix(q@.subrange(i as int, e as int), p@) is Some),
        r ==> after_prefix(q@.subrange(i as int, e as int), p@) == Some(q@.subrange(i + p@.len(), e as int)),
{
    let ghost part = q@.subrange(i as int, e as int);
    if p.len() > e - i {
        return false;
    }
    let r = matches_at(q, i, p);
    proof {
        assert(part.subrange(0, p@.len() as int) =~= q@.subrange(i as int, i + p@.len()));
        if r {
            assert(part.skip(p@.len() as int) =~= q@.subrange(i + p@.len(), e as int));
        }
    }
    r
}

/// The part of `q` from `i` to `e` is `p`.
fn part_is(q: &Vec<char>, i: usize, e: usize, p: &Vec<char>) -> (r: bool)
    requires
        i <= e <= q@.len(),
    ensures
        r == (q@.subrange(i as int, e as int) == p@),
{
    if p.len() != e - i {
        return false;
    }
    let r = matches_at(q, i, p);
    proof {
        if r {
            assert(q@.subrange(i as int, e as int) =~= p@);
        }
    }
    r
}

pub open spec fn retrieve_outcome(r: Result<String, RetrieveError>) -> Result<Seq<char>, RetrieveFailure> {
    match r {
        Ok(s) => Ok(s@),
        Err(e) => Err(failure_model(e)),
    }
}

/// The answer to `query` over the document `content`, or why there is
/// none.
pub fn try_retrieve(content: &str, query: &str) -> (r: Result<String, RetrieveError>)
    requires
        utf8_len(content@) <= u32::MAX,
    ensures
        retrieve_outcome(r) == retrieve_result(content@, query@),
{
    let mut reader = Lexer::new(content);
    let document = match Document::from_reader(&mut reader) {
        Ok(document) => document,
        Err(e) => {
            return Err(RetrieveError::Document(e));
        },
    };
    let (q, offsets) = chars_and_offsets(query);
    let n = q.len();
    let nul: Vec<char> = vec!['\0'];
    let single = str_chars("single ");
    let all = str_chars("all ");
    let attribute = str_chars("attribute ");
    let text = str_chars("text");
    let table = str_chars("table");
    let mut current: Vec<&Element> = Vec::new();
    current.push(&document.html_element);
    let mut i: usize = 0;
    proof {
        assert(nul@ =~= seq!['\0']);
        assert(elements_model(current@) =~= seq![element_model(document.html_element)]);
    }
    loop
        invariant
            q@ == query@,
            n == q@.len(),
            offsets@.len() == query@.len() + 1,
            forall|k: int| 0 <= k <= query@.len() ==> #[trigger] offsets@[k] == byte_offset(query@, k),
            nul@ == seq!['\0'],
            single@ == "single "@,
            all@ == "all "@,
            attribute@ == "attribute "@,
            text@ == "text"@,
            table@ == "table"@,
            i <= n,
            retrieve_result(content@, query@) == retrieve_steps(elements_model(current@), q@, i as int),
        decreases n - i,
    {
        let e = if i < n {
            find_pattern(&q, i, &nul)
        } else {
            n
        };
        proof {
            lemma_find_from(q@, i as int, seq!['\0']);
        }
        if part_starts_with(&q, i, e, &single) {
            let rest = str_slice(query, offsets[i + single.len()], offsets[e], Ghost(i + single@.len()), Ghost(e as int));
            let selector = match Selector::try_from_string(trim_whitespace(rest)) {
                Some(selector) => selector,
                None => {
                    return Err(RetrieveError::Selector);
                },
            };
            current = select_first(&current, &selector);
        } else if part_starts_with(&q, i, e, &all) {
            let rest = str_slice(query, offsets[i + all.len()], offsets[e], Ghost(i + all@.len()), Ghost(e as int));
            let selector = match Selector::try_from_string(trim_whitespace(rest)) {
                Some(selector) => selector,
                None => {
                    return Err(RetrieveError::Selector);
                },
            };
            current = select_all(&current, &selector);
        } else if part_starts_with(&q, i, e, &attribute) {
            let key = str_slice(query, offsets[i + attribute.len()], offsets[e], Ghost(i + attribute@.len()), Ghost(e as int));
            return Ok(attribute_output(&current, key));
        } else if part_is(&q, i, e, &text) {
            return match text_output(&current) {
                Some(t) => Ok(t),
                None => Err(RetrieveError::Reference),
            };
        } else if part_is(&q, i, e, &table) {
            return match table_output(&current) {
                Some(t) => Ok(t),
                None => Err(RetrieveError::Reference),
            };
        }
        if e >= n {
            return Err(RetrieveError::NoEndQuery);
        }
        i = e + 1;
    }
}

/// The answer to `query` over the document `content`: the steps of the
/// query, separated by `'\0'`, narrow the elements from the root down
/// (`single <selector>`, `all <selector>`) and the last step gives the
/// output (`attribute <key>`, `text`, `table`).
#[must_use]
pub fn retrieve(content: &str, query: &str) -> (r: String)
    requires
        utf8_len(content@) <= u32::MAX,
        retrieve_result(content@, query@) is Ok,
    ensures
        retrieve_result(content@, query@) == Ok::<Seq<char>, RetrieveFailure>(r@),
{
    match try_retrieve(content, query) {
        Ok(r) => r,
        Err(_) => {
            proof {
                assert(false);
            }
            String::new()
        },
    }
}

/// A `single` step keeps at most one element for each element it starts
/// from, and each one it keeps comes from `all` over the same element.
pub proof fn single_step_keeps_at_most_one(current: Seq<HtmlElement>, sel: SelectorModel)
    ensures
        first_matches(current, sel).len() <= current.len(),
        first_matches(current, sel).len() <= all_matches(current, sel).len(),
    decreases current.len(),
{
    if current.len() > 0 {
        single_step_keeps_at_most_one(current.drop_last(), sel);
        crate::matching::query_selector_is_first_of_all(current.last(), sel);
    }
}

/// The `text` step over one element gives that element's inner text.
pub proof fn text_step_of_one_element(e: HtmlElement)
    ensures
        texts(seq![e]) == text_of_element(e),
{
    let one = seq![e];
    assert(one.drop_last() =~= Seq::<HtmlElement>::empty());
    assert(texts(one.drop_last()) == Some(Seq::<char>::empty()));
    assert(one.last() == e);
}

/// A `single` step works element by element: over the elements of `a`
/// then those of `b` it keeps what it keeps over `a`, then what it keeps
/// over `b`; over one element it keeps the first match in that element's
/// subtree, if there is one. So it keeps one element for each element whose
/// subtree has a match.
pub proof fn single_step_maps_each_element(a: Seq<HtmlElement>, b: Seq<HtmlElement>, e: HtmlElement, sel: SelectorModel)
    ensures
        first_matches(a + b, sel) == first_matches(a, sel) + first_matches(b, sel),
        first_matches(seq![e], sel) == match first_in_element(e, sel) {
            Some(x) => seq![x],
            None => Seq::<HtmlElement>::empty(),
        },
    decreases b.len(),
{
    if b.len() > 0 {
        assert((a + b).drop_last() =~= a + b.drop_last());
        assert((a + b).last() == b.last());
        single_step_maps_each_element(a, b.drop_last(), e, sel);
        let x = match first_in_element(b.last(), sel) {
            Some(x) => seq![x],
            None => Seq::<HtmlElement>::empty(),
        };
        assert(first_matches(a, sel) + first_matches(b.drop_last(), sel) + x =~= first_matches(a, sel)
            + (first_matches(b.drop_last(), sel) + x));
    } else {
        assert(a + b =~= a);
        assert(first_matches(a, sel) + Seq::<HtmlElement>::empty() =~= first_matches(a, sel));
    }
    let one = seq![e];
    assert(one.drop_last() =~= Seq::<HtmlElement>::empty());
    assert(one.last() == e);
    assert(first_matches(one.drop_last(), sel) == Seq::<HtmlElement>::empty());
    assert(Seq::<HtmlElement>::empty() + match first_in_element(e, sel) {
        Some(x) => seq![x],
        None => Seq::<HtmlElement>::empty(),
    } =~= match first_in_element(e, sel) {
        Some(x) => seq![x],
        None => Seq::<HtmlElement>::empty(),
    });
}

/// An `all` step works element by element: over the elements of `a` then
/// those of `b` it keeps what it keeps over `a`, then what it keeps over
/// `b`; over one element it keeps every match in that element's subtree.
pub proof fn all_step_maps_each_element(a: Seq<HtmlElement>, b: Seq<HtmlElement>, e: HtmlElement, sel: SelectorModel)
    ensures
        all_matches(a + b, sel) == all_matches(a, sel) + all_matches(b, sel),
        all_matches(seq![e], sel) == matching_in_element(e, sel),
    decreases b.len(),
{
    if b.len() > 0 {
        assert((a + b).drop_last() =~= a + b.drop_last());
        assert((a + b).last() == b.last());
        all_step_maps_each_element(a, b.drop_last(), e, sel);
        let x = matching_in_element(b.last(), sel);
        assert(all_matches(a, sel) + all_matches(b.drop_last(), sel) + x =~= all_matches(a, sel) + (
        all_matches(b.drop_last(), sel) + x));
    } else {
        assert(a + b =~= a);
        assert(all_matches(a, sel) + Seq::<HtmlElement>::empty() =~= all_matches(a, sel));
    }
    let one = seq![e];
    assert(one.drop_last() =~= Seq::<HtmlElement>::empty());
    assert(one.last() == e);
    assert(all_matches(one.drop_last(), sel) == Seq::<HtmlElement>::empty());
    assert(Seq::<HtmlElement>::empty() + matching_in_element(e, sel) =~= matching_in_element(e, sel));
}

proof fn lemma_find_from_shift(p: Seq<char>, q: Seq<char>, i: int, pat: Seq<char>)
    requires
        0 <= i <= q.len(),
    ensures
        find_from(p + q, p.len() + i, pat) == p.len() + find_from(q, i, pat),
    decreases q.len() - i,
{
    let s = p + q;
    let k = p.len() + i;
    if i < q.len() {
        if k + pat.len() <= s.len() {
            assert(s.subrange(k, k + pat.len()) =~= q.subrange(i, i + pat.len()));
        }
        assert(occurs_at(s, k, pat) == occurs_at(q, i, pat));
        lemma_find_from_shift(p, q, i + 1, pat);
    }
}

proof fn lemma_steps_shift(cur: Seq<HtmlElement>, p: Seq<char>, q: Seq<char>, i: int)
    requires
        0 <= i <= q.len(),
    ensures
        retrieve_steps(cur, p + q, p.len() + i) == retrieve_steps(cur, q, i),
    decreases q.len() - i,
{
    let s = p + q;
    let k = p.len() + i;
    lemma_find_from_shift(p, q, i, seq!['\0']);
    lemma_find_from(q, i, seq!['\0']);
    let e = find_from(q, i, seq!['\0']);
    assert(s.subrange(k, p.len() + e) =~= q.subrange(i, e));
    if e < q.len() {
        let part = q.subrange(i, e);
        if let Some(t) = after_prefix(part, "single "@) {
            if let Some(sel) = parse_selector(trim_ws(t)) {
                lemma_steps_shift(first_matches(cur, sel), p, q, e + 1);
            }
        } else if let Some(t) = after_prefix(part, "all "@) {
            if let Some(sel) = parse_selector(trim_ws(t)) {
                lemma_steps_shift(all_matches(cur, sel), p, q, e + 1);
            }
        } else {
            lemma_steps_shift(cur, p, q, e + 1);
        }
    }
}

proof fn lemma_first_part(cur: Seq<HtmlElement>, u: Seq<char>, q: Seq<char>)
    requires
        forall|i: int| 0 <= i < u.len() ==> u[i] != '\0',
    ensures
        find_from(u + seq!['\0'] + q, 0, seq!['\0']) == u.len(),
        (u + seq!['\0'] + q).subrange(0, u.len() as int) == u,
        retrieve_steps(cur, u + seq!['\0'] + q, (u.len() + 1) as int) == retrieve_steps(cur, q, 0),
{
    let s = u + seq!['\0'] + q;
    lemma_no_nul_before(s, 0, u.len() as int);
    assert(s.subrange(0, u.len() as int) =~= u);
    assert(u + seq!['\0'] + q =~= (u + seq!['\0']) + q);
    lemma_steps_shift(cur, u + seq!['\0'], q, 0);
}

proof fn lemma_no_nul_before(s: Seq<char>, i: int, e: int)
    requires
        0 <= i <= e < s.len(),
        forall|j: int| i <= j < e ==> s[j] != '\0',
        s[e] == '\0',
    ensures
        find_from(s, i, seq!['\0']) == e,
    decreases e - i,
{
    if i < e {
        if occurs_at(s, i, seq!['\0']) {
            assert(s.subrange(i, i + 1)[0] == s[i]);
        }
        lemma_no_nul_before(s, i + 1, e);
    } else {
        assert(s.subrange(e, e + 1) =~= seq!['\0']);
    }
}

/// The steps of a query are read one after the other: a step that is none
/// of `single <selector>`, `all <selector>`, `attribute <key>`, `text` and
/// `table` is passed over, so the query answers as the rest of it does; a
/// `single` or `all` step answers as the rest of the query does over the
/// elements it keeps, or fails when its selector cannot be read.
pub proof fn query_steps_in_order(cur: Seq<HtmlElement>, u: Seq<char>, t: Seq<char>, q: Seq<char>)
    requires
        forall|i: int| 0 <= i < u.len() ==> u[i] != '\0',
        forall|i: int| 0 <= i < t.len() ==> t[i] != '\0',
    ensures
        after_prefix(u, "single "@) is None && after_prefix(u, "all "@) is None && after_prefix(
            u,
            "attribute "@,
        ) is None && u != "text"@ && u != "table"@ ==> retrieve_steps(cur, u + seq!['\0'] + q, 0)
            == retrieve_steps(cur, q, 0),
        retrieve_steps(cur, "single "@ + t + seq!['\0'] + q, 0) == match parse_selector(trim_ws(t)) {
            Some(sel) => retrieve_steps(first_matches(cur, sel), q, 0),
            None => Err(RetrieveFailure::Selector),
        },
        retrieve_steps(cur, "all "@ + t + seq!['\0'] + q, 0) == match parse_selector(trim_ws(t)) {
            Some(sel) => retrieve_steps(all_matches(cur, sel), q, 0),
            None => Err(RetrieveFailure::Selector),
        },
{
    reveal_strlit("single ");
    reveal_strlit("all ");
    lemma_first_part(cur, u, q);
    let a = "single "@ + t;
    assert forall|i: int| 0 <= i < a.len() implies a[i] != '\0' by {
        if i >= 7 {
            assert(a[i] == t[i - 7]);
        }
    }
    lemma_first_part(cur, a, q);
    assert(occurs_at(a, 0, "single "@)) by {
        assert(a.subrange(0, 7) =~= "single "@);
    }
    assert(a.skip(7) =~= t);
    if let Some(sel) = parse_selector(trim_ws(t)) {
        lemma_first_part(first_matches(cur, sel), a, q);
        lemma_first_part(all_matches(cur, sel), "all "@ + t, q);
    }
    let b = "all "@ + t;
    assert forall|i: int| 0 <= i < b.len() implies b[i] != '\0' by {
        if i >= 4 {
            assert(b[i] == t[i - 4]);
        }
    }
    lemma_first_part(cur, b, q);
    assert(occurs_at(b, 0, "all "@)) by {
        assert(b.subrange(0, 4) =~= "all "@);
    }
    assert(b.skip(4) =~= t);
    assert(!occurs_at(b, 0, "single "@)) by {
        if occurs_at(b, 0, "single "@) {
            assert(b.subrange(0, 7)[0] == b[0]);
        }
    }
    let ua = u + seq!['\0'] + q;
    let aa = a + seq!['\0'] + q;
    let ba = b + seq!['\0'] + q;
    assert("single "@ + t + seq!['\0'] + q == aa);
    assert("all "@ + t + seq!['\0'] + q == ba);
}

/// The last steps give the answer: `attribute <key>` the values of that
/// attribute, `text` the texts of the elements, `table` their tables; what
/// follows such a step is not read.
pub proof fn query_final_steps(cur: Seq<HtmlElement>, k: Seq<char>, q: Seq<char>)
    requires
        forall|i: int| 0 <= i < k.len() ==> k[i] != '\0',
    ensures
        retrieve_steps(cur, "attribute "@ + k + seq!['\0'] + q, 0) == Ok::<Seq<char>, RetrieveFailure>(
            attribute_values(cur, k),
        ),
        retrieve_steps(cur, "text"@ + seq!['\0'] + q, 0) == match texts(cur) {
            Some(x) => Ok(x),
            None => Err(RetrieveFailure::Reference),
        },
        retrieve_steps(cur, "table"@ + seq!['\0'] + q, 0) == match tables(cur) {
            Some(x) => Ok(x),
            None => Err(RetrieveFailure::Reference),
        },
{
    reveal_strlit("single ");
    reveal_strlit("all ");
    reveal_strlit("attribute ");
    reveal_strlit("text");
    reveal_strlit("table");
    let a = "attribute "@ + k;
    assert forall|i: int| 0 <= i < a.len() implies a[i] != '\0' by {
        if i >= 10 {
            assert(a[i] == k[i - 10]);
        }
    }
    lemma_first_part(cur, a, q);
    assert(occurs_at(a, 0, "attribute "@)) by {
        assert(a.subrange(0, 10) =~= "attribute "@);
    }
    assert(a.skip(10) =~= k);
    assert(!occurs_at(a, 0, "single "@)) by {
        if occurs_at(a, 0, "single "@) {
            assert(a.subrange(0, 7)[0] == a[0]);
        }
    }
    assert(!occurs_at(a, 0, "all "@)) by {
        if occurs_at(a, 0, "all "@) {
            assert(a.subrange(0, 4)[1] == a[1]);
        }
    }
    let x = "text"@;
    lemma_first_part(cur, x, q);
    assert(!occurs_at(x, 0, "single "@));
    assert(!occurs_at(x, 0, "all "@)) by {
        if occurs_at(x, 0, "all "@) {
            assert(x.subrange(0, 4)[0] == x[0]);
        }
    }
    assert(!occurs_at(x, 0, "attribute "@));
    let y = "table"@;
    lemma_first_part(cur, y, q);
    assert(!occurs_at(y, 0, "single "@));
    assert(!occurs_at(y, 0, "all "@)) by {
        if occurs_at(y, 0, "all "@) {
            assert(y.subrange(0, 4)[1] == y[1]);
        }
    }
    assert(!occurs_at(y, 0, "attribute "@));
    assert("attribute "@ + k + seq!['\0'] + q == a + seq!['\0'] + q);
}

pub open spec fn is_tbody(n: HtmlNode) -> bool {
    n matches HtmlNode::Element(e) && e.tag_name == "tbody"@
}

proof fn lemma_no_tbody(ns: Seq<HtmlNode>)
    requires
        forall|j: int| 0 <= j < ns.len() ==> !is_tbody(#[trigger] ns[j]),
    ensures
        first_tbody(ns) is None,
    decreases ns.len(),
{
    if ns.len() > 0 {
        let d = ns.drop_last();
        assert forall|j: int| 0 <= j < d.len() implies !is_tbody(#[trigger] d[j]) by {
            assert(d[j] == ns[j]);
        }
        lemma_no_tbody(d);
        assert(!is_tbody(ns[ns.len() - 1]));
    }
}

/// The body of a table is its first `tbody` child: when the child at `i`
/// is a `tbody` element and none before it is, its children are found;
/// when no child is one, nothing is found.
pub proof fn table_body_is_first_tbody(ns: Seq<HtmlNode>, i: int)
    ensures
        (forall|j: int| 0 <= j < ns.len() ==> !is_tbody(#[trigger] ns[j])) ==> first_tbody(ns) is None,
        0 <= i < ns.len() && is_tbody(ns[i]) && (forall|j: int| 0 <= j < i ==> !is_tbody(#[trigger] ns[j]))
            ==> first_tbody(ns) == Some(ns[i]->Element_0.children),
    decreases ns.len(),
{
    if forall|j: int| 0 <= j < ns.len() ==> !is_tbody(#[trigger] ns[j]) {
        lemma_no_tbody(ns);
    }
    if 0 <= i < ns.len() && is_tbody(ns[i]) && (forall|j: int| 0 <= j < i ==> !is_tbody(#[trigger] ns[j])) {
        let d = ns.drop_last();
        if i < ns.len() - 1 {
            assert(d[i] == ns[i]);
            assert forall|j: int| 0 <= j < i implies !is_tbody(#[trigger] d[j]) by {
                assert(d[j] == ns[j]);
            }
            table_body_is_first_tbody(d, i);
        } else {
            assert forall|j: int| 0 <= j < d.len() implies !is_tbody(#[trigger] d[j]) by {
                assert(d[j] == ns[j]);
            }
            lemma_no_tbody(d);
        }
    }
}

/// The cells of a row are written cell by cell: those of `a + b` are
/// those of `a`, then those of `b`; each cell is `"\0d"` and its text.
pub proof fn cells_cell_by_cell(a: Seq<HtmlNode>, b: Seq<HtmlNode>, n: HtmlNode)
    ensures
        cells_text(a + b) == match (cells_text(a), cells_text(b)) {
            (Some(x), Some(y)) => Some(x + y),
            _ => None::<Seq<char>>,
        },
        cells_text(seq![n]) == match node_text(n) {
            Some(t) => Some("\0d"@ + t),
            None => None::<Seq<char>>,
        },
    decreases b.len(),
{
    if b.len() > 0 {
        assert((a + b).drop_last() =~= a + b.drop_last());
        assert((a + b).last() == b.last());
        cells_cell_by_cell(a, b.drop_last(), n);
        if let (Some(x), Some(y)) = (cells_text(a), cells_text(b.drop_last())) {
            if let Some(z) = node_text(b.last()) {
                assert(x + y + "\0d"@ + z =~= x + (y + "\0d"@ + z));
            }
        }
    } else {
        assert(a + b =~= a);
        if let Some(x) = cells_text(a) {
            assert(x + Seq::<char>::empty() =~= x);
        }
    }
    let one = seq![n];
    assert(one.drop_last() =~= Seq::<HtmlNode>::empty());
    assert(cells_text(one.drop_last()) == Some(Seq::<char>::empty()));
    assert(one.last() == n);
    if let Some(t) = node_text(n) {
        assert(Seq::<char>::empty() + "\0d"@ + t =~= "\0d"@ + t);
    }
}

/// The rows of a table are written row by row: those of `a + b` are those
/// of `a`, then those of `b`; each element is `"\0r"` and its cells, and a
/// node that is not an element is no row.
pub proof fn rows_row_by_row(a: Seq<HtmlNode>, b: Seq<HtmlNode>, n: HtmlNode)
    ensures
        rows_text(a + b) == match (rows_text(a), rows_text(b)) {
            (Some(x), Some(y)) => Some(x + y),
            _ => None::<Seq<char>>,
        },
        rows_text(seq![n]) == match n {
            HtmlNode::Element(r) => match r.children {
                HtmlChildren::Children(cells) => match cells_text(cells) {
                    Some(c) => Some("\0r"@ + c),
                    None => None::<Seq<char>>,
                },
                _ => Some("\0r"@),
            },
            _ => Some(Seq::<char>::empty()),
        },
    decreases b.len(),
{
    if b.len() > 0 {
        assert((a + b).drop_last() =~= a + b.drop_last());
        assert((a + b).last() == b.last());
        rows_row_by_row(a, b.drop_last(), n);
        if let (Some(x), Some(y)) = (rows_text(a), rows_text(b.drop_last())) {
            match b.last() {
                HtmlNode::Element(r) => match r.children {
                    HtmlChildren::Children(cells) => {
                        if let Some(c) = cells_text(cells) {
                            assert(x + y + "\0r"@ + c =~= x + (y + "\0r"@ + c));
                        }
                    },
                    _ => {
                        assert(x + y + "\0r"@ =~= x + (y + "\0r"@));
                    },
                },
                _ => {},
            }
        }
    } else {
        assert(a + b =~= a);
        if let Some(x) = rows_text(a) {
            assert(x + Seq::<char>::empty() =~= x);
        }
    }
    let one = seq![n];
    assert(one.drop_last() =~= Seq::<HtmlNode>::empty());
    assert(rows_text(one.drop_last()) == Some(Seq::<char>::empty()));
    assert(one.last() == n);
    match n {
        HtmlNode::Element(r) => match r.children {
            HtmlChildren::Children(cells) => {
                if let Some(c) = cells_text(cells) {
                    assert(Seq::<char>::empty() + "\0r"@ + c =~= "\0r"@ + c);
                }
            },
            _ => {
                assert(Seq::<char>::empty() + "\0r"@ =~= "\0r"@);
            },
        },
        _ => {},
    }
}

} // verus!
