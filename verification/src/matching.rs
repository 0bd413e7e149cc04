//! Selectors over the tree: a small subset of CSS selectors (a tag name,
//! then `.class`, `#id` and `[attribute<op>value]` parts), the test of one
//! element against a selector, and the searches of a subtree.
use vstd::prelude::*;
use crate::html::{
    Attribute, Element, ElementChildren, HtmlChildren, HtmlElement, HtmlNode, Node, element_model,
    attributes_model, node_model, nodes_model, lemma_nodes_model,
};
use crate::lexer::str_chars;
use crate::text::{
    find_from, lemma_find_from, occurs_at, unicode_whitespace, is_unicode_whitespace, matches_at,
    find_pattern, str_eq, run_end, lemma_run_end, in_class, unicode_alphanumeric, scan_run, CharClass, unicode_alphabetic,
    char_is_alphabetic, chars_and_offsets, str_slice, byte_offset,
};

verus! {

/// How the value of an attribute is compared with the value in a selector.
#[derive(Debug, Clone, Copy)]
pub enum AttributeQuery {
    /// `[key=value]`, and `.class` and `#id`.
    Exactly,
    /// `[key|=value]`: the part before the first `-` is the value.
    ExactlyBeforeHyphen,
    /// `[key]` (with an empty value): the value occurs in the attribute.
    Contains,
    /// `[key~=value]`: one of the white-space separated words is the value.
    ContainsWhitespaceSplit,
    /// `[key^=value]`
    Prefixed,
    /// `[key$=value]`
    Suffixed,
}

#[derive(Debug)]
pub struct Selector<'a> {
    pub tag: Option<&'a str>,
    pub attributes: Vec<(&'a str, AttributeQuery, &'a str)>,
}

/// A selector by the characters of its strings.
pub struct SelectorModel {
    pub tag: Option<Seq<char>>,
    pub attributes: Seq<(Seq<char>, AttributeQuery, Seq<char>)>,
}

pub open spec fn query_model(q: (&str, AttributeQuery, &str)) -> (Seq<char>, AttributeQuery, Seq<char>) {
    (q.0@, q.1, q.2@)
}

pub open spec fn queries_model(v: Seq<(&str, AttributeQuery, &str)>) -> Seq<(Seq<char>, AttributeQuery, Seq<char>)> {
    v.map_values(|q: (&str, AttributeQuery, &str)| query_model(q))
}

impl<'a> View for Selector<'a> {
    type V = SelectorModel;

    open spec fn view(&self) -> SelectorModel {
        SelectorModel {
            tag: match self.tag {
                Some(t) => Some(t@),
                None => None,
            },
            attributes: queries_model(self.attributes@),
        }
    }
}

/// The first position at or after `i` whose character is not `c`, or `hi`.
pub open spec fn skip_char(t: Seq<char>, c: char, i: int, hi: int) -> int
    decreases hi - i,
{
    if i < hi && t[i] == c {
        skip_char(t, c, i + 1, hi)
    } else {
        i
    }
}

/// The end, at or before `hi`, of `t[lo..hi]` without the `c` it ends with.
pub open spec fn back_char(t: Seq<char>, c: char, lo: int, hi: int) -> int
    decreases hi - lo,
{
    if lo < hi && t[hi - 1] == c {
        back_char(t, c, lo, hi - 1)
    } else {
        hi
    }
}

/// `t` without the `c` it starts and ends with, as `str::trim_matches`
/// with a character pattern leaves it.
pub open spec fn trim_char(t: Seq<char>, c: char) -> Seq<char> {
    let a = skip_char(t, c, 0, t.len() as int);
    t.subrange(a, back_char(t, c, a, t.len() as int))
}

/// The comparison operator of an attribute part at `e`, and its length.
pub open spec fn operator_at(s: Seq<char>, e: int) -> Option<(AttributeQuery, int)> {
    let two = e + 1 < s.len() && s[e + 1] == '=';
    if s[e] == '~' && two {
        Some((AttributeQuery::ContainsWhitespaceSplit, 2))
    } else if s[e] == '^' && two {
        Some((AttributeQuery::Prefixed, 2))
    } else if s[e] == '$' && two {
        Some((AttributeQuery::Suffixed, 2))
    } else if s[e] == '|' && two {
        Some((AttributeQuery::ExactlyBeforeHyphen, 2))
    } else if s[e] == '=' {
        Some((AttributeQuery::Exactly, 1))
    } else {
        None
    }
}

/// `prefix` before what `rest` holds, or nothing when `rest` holds nothing.
pub open spec fn prepend_parts(
    prefix: Seq<(Seq<char>, AttributeQuery, Seq<char>)>,
    rest: Option<Seq<(Seq<char>, AttributeQuery, Seq<char>)>>,
) -> Option<Seq<(Seq<char>, AttributeQuery, Seq<char>)>> {
    match rest {
        Some(r) => Some(prefix + r),
        None => None,
    }
}

/// The attribute queries of the selector text `s` from position `i` on:
/// `.name`, `#name` and `[key]`, `[key=v]`, `[key~=v]`, `[key^=v]`,
/// `[key$=v]`, `[key|=v]` (quotes around `v` dropped). Nothing where the
/// text cannot be read: another character, an unknown operator, a missing
/// `]`, or a `]` right after a key, which is left to be read again.
pub open spec fn selector_parts(s: Seq<char>, i: int) -> Option<Seq<(Seq<char>, AttributeQuery, Seq<char>)>>
    decreases s.len() - i,
{
    if !(0 <= i < s.len()) {
        Some(Seq::empty())
    } else {
        let c = s[i];
        let r = i + 1;
        let e = run_end(s, r, CharClass::SelectorName);
        proof {
            lemma_run_end(s, r, CharClass::SelectorName);
        }
        if c == '.' || c == '#' {
            let key = if c == '.' {
                "class"@
            } else {
                "id"@
            };
            prepend_parts(seq![(key, AttributeQuery::Exactly, s.subrange(r, e))], selector_parts(s, e))
        } else if c == '[' {
            if e >= s.len() {
                selector_parts(s, r)
            } else if s[e] == ']' {
                prepend_parts(
                    seq![(s.subrange(r, e), AttributeQuery::Contains, Seq::empty())],
                    selector_parts(s, e),
                )
            } else {
                match operator_at(s, e) {
                    None => None,
                    Some((q, off)) => {
                        let v = e + off;
                        let j = find_from(s, v, seq![']']);
                        proof {
                            lemma_find_from(s, v, seq![']']);
                        }
                        if j >= s.len() {
                            None
                        } else {
                            let value = trim_char(trim_char(s.subrange(v, j), '"'), '\'');
                            prepend_parts(seq![(s.subrange(r, e), q, value)], selector_parts(s, j + 1))
                        }
                    },
                }
            }
        } else {
            None
        }
    }
}

/// The selector that the text `s` describes: an optional tag name (letters
/// and digits, starting with a letter), then attribute queries. A text that
/// starts with `*`, `[`, `.` or `#` names no tag. Nothing where the text
/// cannot be read, the empty text included.
pub open spec fn parse_selector(s: Seq<char>) -> Option<SelectorModel> {
    if s.len() > 0 && (s[0] == '*' || s[0] == '[' || s[0] == '.' || s[0] == '#') {
        match selector_parts(s, 0) {
            Some(a) => Some(SelectorModel { tag: None, attributes: a }),
            None => None,
        }
    } else if s.len() > 0 && unicode_alphabetic(s[0]) {
        let t = run_end(s, 0, CharClass::Alphanumeric);
        match selector_parts(s, t) {
            Some(a) => Some(SelectorModel { tag: Some(s.subrange(0, t)), attributes: a }),
            None => None,
        }
    } else {
        None
    }
}

/// The value of the first attribute named `key`, if there is one.
pub open spec fn first_value(attrs: Seq<(Seq<char>, Seq<char>)>, key: Seq<char>) -> Option<Seq<char>>
    decreases attrs.len(),
{
    if attrs.len() == 0 {
        None
    } else if attrs[0].0 == key {
        Some(attrs[0].1)
    } else {
        first_value(attrs.drop_first(), key)
    }
}

/// `v[i..j]` is one of the pieces that splitting `v` at each white-space
/// character gives (empty pieces included).
pub open spec fn is_split_part(v: Seq<char>, i: int, j: int) -> bool {
    &&& 0 <= i <= j <= v.len()
    &&& (i == 0 || unicode_whitespace(v[i - 1]))
    &&& (j == v.len() || unicode_whitespace(v[j]))
    &&& forall|k: int| i <= k < j ==> !unicode_whitespace(#[trigger] v[k])
}

/// One of the white-space separated pieces of `v` is `w`.
pub open spec fn has_split_part(v: Seq<char>, w: Seq<char>) -> bool {
    exists|i: int, j: int| is_split_part(v, i, j) && #[trigger] v.subrange(i, j) == w
}

/// `w` occurs somewhere in `v`.
pub open spec fn contains_seq(v: Seq<char>, w: Seq<char>) -> bool {
    exists|k: int| occurs_at(v, k, w)
}

/// The attribute value `value` passes the test `kind` against `expected`.
pub open spec fn value_matches(kind: AttributeQuery, value: Seq<char>, expected: Seq<char>) -> bool {
    match kind {
        AttributeQuery::Exactly => value == expected,
        AttributeQuery::ExactlyBeforeHyphen => value.subrange(0, find_from(value, 0, seq!['-']))
            == expected,
        AttributeQuery::Contains => contains_seq(value, expected),
        AttributeQuery::ContainsWhitespaceSplit => has_split_part(value, expected),
        AttributeQuery::Prefixed => occurs_at(value, 0, expected),
        AttributeQuery::Suffixed => occurs_at(value, value.len() - expected.len(), expected),
    }
}

/// The element's attributes pass one query: the first attribute with the
/// query's key exists and its value passes the test.
pub open spec fn query_holds(
    attrs: Seq<(Seq<char>, Seq<char>)>,
    q: (Seq<char>, AttributeQuery, Seq<char>),
) -> bool {
    match first_value(attrs, q.0) {
        Some(v) => value_matches(q.1, v, q.2),
        None => false,
    }
}

/// The element has the selector's tag name, if it names one, and passes
/// every attribute query.
pub open spec fn element_matches(e: HtmlElement, sel: SelectorModel) -> bool {
    &&& (sel.tag matches Some(t) ==> t == e.tag_name)
    &&& forall|k: int| 0 <= k < sel.attributes.len() ==> #[trigger] query_holds(e.attributes, sel.attributes[k])
}

proof fn lemma_prepend_push(
    v: Seq<(&str, AttributeQuery, &str)>,
    x: (&str, AttributeQuery, &str),
    rest: Option<Seq<(Seq<char>, AttributeQuery, Seq<char>)>>,
)
    ensures
        prepend_parts(queries_model(v), prepend_parts(seq![query_model(x)], rest)) == prepend_parts(
            queries_model(v.push(x)),
            rest,
        ),
{
    assert(queries_model(v.push(x)) =~= queries_model(v).push(query_model(x)));
    if let Some(r) = rest {
        assert(queries_model(v) + (seq![query_model(x)] + r) =~= queries_model(v).push(query_model(x))
            + r);
    }
}

/// The bounds of `t[lo..hi]` without the `c` it starts and ends with.
fn trim_span(t: &Vec<char>, lo: usize, hi: usize, c: char) -> (r: (usize, usize))
    requires
        lo <= hi <= t@.len(),
    ensures
        lo <= r.0 <= r.1 <= hi,
        t@.subrange(lo as int, hi as int).subrange(r.0 - lo, r.1 - lo) == trim_char(
            t@.subrange(lo as int, hi as int),
            c,
        ),
{
    let ghost u = t@.subrange(lo as int, hi as int);
    let ghost m = hi - lo;
    let mut a = lo;
    while a < hi && t[a] == c
        invariant
            lo <= a <= hi <= t@.len(),
            u == t@.subrange(lo as int, hi as int),
            m == hi - lo,
            skip_char(u, c, 0, m) == skip_char(u, c, a - lo, m),
        decreases hi - a,
    {
        assert(u[a - lo] == t@[a as int]);
        a = a + 1;
    }
    proof {
        if a < hi {
            assert(u[a - lo] == t@[a as int]);
        }
    }
    let mut b = hi;
    while b > a && t[b - 1] == c
        invariant
            lo <= a <= b <= hi <= t@.len(),
            u == t@.subrange(lo as int, hi as int),
            m == hi - lo,
            back_char(u, c, a - lo, m) == back_char(u, c, a - lo, b - lo),
        decreases b - a,
    {
        assert(u[b - 1 - lo] == t@[b - 1]);
        b = b - 1;
    }
    proof {
        if b > a {
            assert(u[b - 1 - lo] == t@[b - 1]);
        }
    }
    (a, b)
}

/// The comparison operator at `e` and its length.
fn operator_of(t: &Vec<char>, e: usize) -> (r: Option<(AttributeQuery, usize)>)
    requires
        e < t@.len(),
    ensures
        match r {
            Some((q, off)) => operator_at(t@, e as int) == Some((q, off as int)),
            None => operator_at(t@, e as int) is None,
        },
{
    let two = e < t.len() - 1 && t[e + 1] == '=';
    let c = t[e];
    if c == '~' && two {
        Some((AttributeQuery::ContainsWhitespaceSplit, 2))
    } else if c == '^' && two {
        Some((AttributeQuery::Prefixed, 2))
    } else if c == '$' && two {
        Some((AttributeQuery::Suffixed, 2))
    } else if c == '|' && two {
        Some((AttributeQuery::ExactlyBeforeHyphen, 2))
    } else if c == '=' {
        Some((AttributeQuery::Exactly, 1))
    } else {
        None
    }
}

/// The attribute queries of `from` from character position `start` on.
fn selector_queries<'a>(from: &'a str, chars: &Vec<char>, offsets: &Vec<usize>, start: usize) -> (r:
    Option<Vec<(&'a str, AttributeQuery, &'a str)>>)
    requires
        chars@ == from@,
        offsets@.len() == from@.len() + 1,
        forall|i: int| 0 <= i <= from@.len() ==> #[trigger] offsets@[i] == byte_offset(from@, i),
        start <= from@.len(),
    ensures
        match r {
            Some(v) => selector_parts(from@, start as int) == Some(queries_model(v@)),
            None => selector_parts(from@, start as int) is None,
        },
{
    let ghost s = from@;
    let n = chars.len();
    let close: Vec<char> = vec![']'];
    let mut attributes: Vec<(&'a str, AttributeQuery, &'a str)> = Vec::new();
    let mut idx = start;
    proof {
        assert(close@ =~= seq![']']);
        assert(queries_model(attributes@) =~= Seq::empty());
        assert(Seq::<(Seq<char>, AttributeQuery, Seq<char>)>::empty() + Seq::empty() =~= Seq::<
            (Seq<char>, AttributeQuery, Seq<char>),
        >::empty());
        reveal_strlit("");
    }
    while idx < n
        invariant
            s == from@,
            chars@ == s,
            n == s.len(),
            offsets@.len() == s.len() + 1,
            forall|i: int| 0 <= i <= s.len() ==> #[trigger] offsets@[i] == byte_offset(s, i),
            close@ == seq![']'],
            start <= idx <= n,
            selector_parts(s, start as int) == prepend_parts(
                queries_model(attributes@),
                selector_parts(s, idx as int),
            ),
        decreases n - idx,
    {
        let c = chars[idx];
        let r = idx + 1;
        let e = scan_run(chars, r, CharClass::SelectorName);
        proof {
            lemma_run_end(s, r as int, CharClass::SelectorName);
            reveal_strlit("");
        }
        if c == '.' || c == '#' {
            let key = if c == '.' {
                "class"
            } else {
                "id"
            };
            let value = str_slice(from, offsets[r], offsets[e], Ghost(r as int), Ghost(e as int));
            let item = (key, AttributeQuery::Exactly, value);
            proof {
                lemma_prepend_push(attributes@, item, selector_parts(s, e as int));
            }
            attributes.push(item);
            idx = e;
        } else if c == '[' {
            if e >= n {
                idx = r;
            } else if chars[e] == ']' {
                let name = str_slice(from, offsets[r], offsets[e], Ghost(r as int), Ghost(e as int));
                let item = (name, AttributeQuery::Contains, "");
                proof {
                    assert(""@ =~= Seq::<char>::empty());
                    lemma_prepend_push(attributes@, item, selector_parts(s, e as int));
                }
                attributes.push(item);
                idx = e;
            } else {
                let (q, off) = match operator_of(chars, e) {
                    Some(x) => x,
                    None => {
                        return None;
                    },
                };
                let v = e + off;
                let j = find_pattern(chars, v, &close);
                proof {
                    lemma_find_from(s, v as int, seq![']']);
                }
                if j >= n {
                    return None;
                }
                let name = str_slice(from, offsets[r], offsets[e], Ghost(r as int), Ghost(e as int));
                let (a1, b1) = trim_span(chars, v, j, '"');
                let (a2, b2) = trim_span(chars, a1, b1, '\'');
                proof {
                    assert(s.subrange(v as int, j as int).subrange(a1 - v, b1 - v) =~= s.subrange(
                        a1 as int,
                        b1 as int,
                    ));
                    assert(s.subrange(a1 as int, b1 as int).subrange(a2 - a1, b2 - a1) =~= s.subrange(
                        a2 as int,
                        b2 as int,
                    ));
                }
                let value = str_slice(from, offsets[a2], offsets[b2], Ghost(a2 as int), Ghost(b2 as int));
                let item = (name, q, value);
                proof {
                    lemma_prepend_push(attributes@, item, selector_parts(s, j + 1));
                }
                attributes.push(item);
                idx = j + 1;
            }
        } else {
            return None;
        }
    }
    proof {
        assert(queries_model(attributes@) + Seq::empty() =~= queries_model(attributes@));
    }
    Some(attributes)
}

impl<'a> Selector<'a> {
    /// The selector that `from` describes, or nothing where `from` cannot
    /// be read as one.
    pub fn try_from_string(from: &'a str) -> (r: Option<Self>)
        ensures
            match r {
                Some(sel) => parse_selector(from@) == Some(sel@),
                None => parse_selector(from@) is None,
            },
    {
        let (chars, offsets) = chars_and_offsets(from);
        let n = chars.len();
        if n == 0 {
            return None;
        }
        let first = chars[0];
        let mut idx: usize = 0;
        let mut tag: Option<&'a str> = None;
        if first == '*' || first == '[' || first == '.' || first == '#' {
        } else if char_is_alphabetic(first) {
            idx = scan_run(&chars, 0, CharClass::Alphanumeric);
            proof {
                lemma_run_end(from@, 0, CharClass::Alphanumeric);
            }
            tag = Some(str_slice(from, offsets[0], offsets[idx], Ghost(0), Ghost(idx as int)));
        } else {
            return None;
        }
        match selector_queries(from, &chars, &offsets, idx) {
            Some(attributes) => Some(Selector { tag, attributes }),
            None => None,
        }
    }

    /// The selector that `from` describes.
    pub fn from_string(from: &'a str) -> (r: Self)
        requires
            parse_selector(from@) is Some,
        ensures
            parse_selector(from@) == Some(r@),
    {
        match Self::try_from_string(from) {
            Some(sel) => sel,
            None => {
                proof {
                    assert(false);
                }
                Selector { tag: None, attributes: Vec::new() }
            },
        }
    }
}

/// The value of the first attribute of `element` whose key is `key`.
pub fn attribute_value<'b>(attributes: &Vec<Attribute<'b>>, key: &str) -> (r: Option<&'b str>)
    ensures
        match r {
            Some(v) => first_value(attributes_model(attributes@), key@) == Some(v@),
            None => first_value(attributes_model(attributes@), key@) is None,
        },
{
    let ghost a = attributes_model(attributes@);
    let mut i: usize = 0;
    assert(a.skip(0) =~= a);
    while i < attributes.len()
        invariant
            i <= attributes@.len(),
            a == attributes_model(attributes@),
            a.len() == attributes@.len(),
            first_value(a, key@) == first_value(a.skip(i as int), key@),
        decreases attributes@.len() - i,
    {
        proof {
            assert(a.skip(i as int).drop_first() =~= a.skip(i + 1));
            assert(a.skip(i as int)[0] == a[i as int]);
        }
        if str_eq(attributes[i].key, key) {
            return Some(attributes[i].value);
        }
        i = i + 1;
    }
    None
}

/// Whether `w` occurs somewhere in `v`.
fn contains_chars(v: &Vec<char>, w: &Vec<char>) -> (r: bool)
    ensures
        r == contains_seq(v@, w@),
{
    if w.len() > v.len() {
        return false;
    }
    let last = v.len() - w.len();
    let mut k: usize = 0;
    loop
        invariant
            last == v@.len() - w@.len(),
            k <= last,
            forall|m: int| 0 <= m < k ==> !occurs_at(v@, m, w@),
        decreases last - k,
    {
        if matches_at(v, k, w) {
            return true;
        }
        if k == last {
            assert forall|m: int| !occurs_at(v@, m, w@) by {
                if 0 <= m <= last {
                    assert(m < k || m == k);
                }
            }
            return false;
        }
        k = k + 1;
    }
}

/// Whether one of the white-space separated pieces of `v` is `w`.
fn has_split_part_chars(v: &Vec<char>, w: &Vec<char>) -> (r: bool)
    ensures
        r == has_split_part(v@, w@),
{
    let ghost s = v@;
    let n = v.len();
    let mut start: usize = 0;
    loop
        invariant
            s == v@,
            n == s.len(),
            start <= n,
            start == 0 || unicode_whitespace(s[start - 1]),
            forall|i: int, j: int| #![trigger is_split_part(s, i, j)]
                is_split_part(s, i, j) && i < start ==> s.subrange(i, j) != w@,
        decreases n - start,
    {
        let mut end = start;
        while end < n && !is_unicode_whitespace(v[end])
            invariant
                s == v@,
                start <= end <= n,
                n == s.len(),
                forall|k: int| start <= k < end ==> !unicode_whitespace(#[trigger] s[k]),
            decreases n - end,
        {
            end = end + 1;
        }
        assert(is_split_part(s, start as int, end as int));
        if end - start == w.len() && matches_at(v, start, w) {
            assert(s.subrange(start as int, end as int) =~= w@);
            return true;
        }
        assert forall|i: int, j: int| is_split_part(s, i, j) && start <= i <= end implies s.subrange(
            i,
            j,
        ) != w@ by {
            if i > start {
                assert(!unicode_whitespace(s[i - 1]));
            }
            if j < end {
                assert(!unicode_whitespace(s[j]));
            }
            if j > end {
                assert(!unicode_whitespace(s[end as int]));
            }
            assert(i == start && j == end);
            if s.subrange(i, j) == w@ {
                assert(occurs_at(s, start as int, w@));
            }
        }
        if end == n {
            return false;
        }
        start = end + 1;
    }
}

/// Whether `value` passes the test `kind` against `expected`.
fn value_passes(kind: AttributeQuery, value: &str, expected: &str) -> (r: bool)
    ensures
        r == value_matches(kind, value@, expected@),
{
    let v = str_chars(value);
    let w = str_chars(expected);
    match kind {
        AttributeQuery::Exactly => str_eq(value, expected),
        AttributeQuery::ExactlyBeforeHyphen => {
            let hyphen: Vec<char> = vec!['-'];
            let k = if v.len() == 0 {
                0
            } else {
                find_pattern(&v, 0, &hyphen)
            };
            proof {
                assert(hyphen@ =~= seq!['-']);
            }
            if k != w.len() {
                proof {
                    lemma_find_from(v@, 0, seq!['-']);
                }
                return false;
            }
            let same = matches_at(&v, 0, &w);
            proof {
                lemma_find_from(v@, 0, seq!['-']);
                if same {
                    assert(v@.subrange(0, k as int) =~= w@);
                } else {
                    assert(v@.subrange(0, k as int) != w@);
                }
            }
            same
        },
        AttributeQuery::Contains => contains_chars(&v, &w),
        AttributeQuery::ContainsWhitespaceSplit => has_split_part_chars(&v, &w),
        AttributeQuery::Prefixed => matches_at(&v, 0, &w),
        AttributeQuery::Suffixed => {
            if w.len() > v.len() {
                false
            } else {
                matches_at(&v, v.len() - w.len(), &w)
            }
        },
    }
}

/// Whether `element` has the tag name of `selector`, if it names one, and
/// passes every one of its attribute queries.
pub fn matches(element: &Element, selector: &Selector) -> (r: bool)
    ensures
        r == element_matches(element_model(*element), selector@),
{
    let ghost e = element_model(*element);
    let ghost sel = selector@;
    if let Some(tag) = selector.tag {
        if !str_eq(tag, element.tag_name) {
            return false;
        }
    }
    let mut k: usize = 0;
    while k < selector.attributes.len()
        invariant
            k <= selector.attributes@.len(),
            e == element_model(*element),
            sel == selector@,
            sel.attributes.len() == selector.attributes@.len(),
            sel.tag matches Some(t) ==> t == e.tag_name,
            forall|m: int| 0 <= m < k ==> #[trigger] query_holds(e.attributes, sel.attributes[m]),
        decreases selector.attributes@.len() - k,
    {
        let (key, kind, expected) = selector.attributes[k];
        proof {
            assert(sel.attributes[k as int] == query_model(selector.attributes@[k as int]));
        }
        let holds = match attribute_value(&element.attributes, key) {
            Some(value) => value_passes(kind, value, expected),
            None => false,
        };
        if !holds {
            assert(!query_holds(e.attributes, sel.attributes[k as int]));
            return false;
        }
        k = k + 1;
    }
    true
}

/// The elements of the subtree of `e` that match `sel`, in document order
/// (an element before its descendants, children in order).
pub open spec fn matching_in_element(e: HtmlElement, sel: SelectorModel) -> Seq<HtmlElement>
    decreases e,
{
    let own = if element_matches(e, sel) {
        seq![e]
    } else {
        Seq::empty()
    };
    match e.children {
        HtmlChildren::Children(ns) => own + matching_in_nodes(ns, sel),
        _ => own,
    }
}

/// The elements of the subtrees of the nodes `ns` that match `sel`, in
/// document order.
pub open spec fn matching_in_nodes(ns: Seq<HtmlNode>, sel: SelectorModel) -> Seq<HtmlElement>
    decreases ns,
{
    if ns.len() == 0 {
        Seq::empty()
    } else {
        matching_in_nodes(ns.drop_last(), sel) + match ns.last() {
            HtmlNode::Element(c) => matching_in_element(c, sel),
            _ => Seq::empty(),
        }
    }
}

/// The first element of the subtree of `e` that matches `sel`, searching
/// an element before its children and the children in order.
pub open spec fn first_in_element(e: HtmlElement, sel: SelectorModel) -> Option<HtmlElement>
    decreases e,
{
    if element_matches(e, sel) {
        Some(e)
    } else {
        match e.children {
            HtmlChildren::Children(ns) => first_in_nodes(ns, sel),
            _ => None,
        }
    }
}

/// The first element of the subtrees of `ns` that matches `sel`.
pub open spec fn first_in_nodes(ns: Seq<HtmlNode>, sel: SelectorModel) -> Option<HtmlElement>
    decreases ns,
{
    if ns.len() == 0 {
        None
    } else {
        match first_in_nodes(ns.drop_last(), sel) {
            Some(x) => Some(x),
            None => match ns.last() {
                HtmlNode::Element(c) => first_in_element(c, sel),
                _ => None,
            },
        }
    }
}

/// The elements that the references point to.
pub open spec fn elements_model(v: Seq<&Element>) -> Seq<HtmlElement> {
    v.map_values(|x: &Element| element_model(*x))
}

proof fn lemma_elements_model_push(v: Seq<&Element>, x: &Element)
    ensures
        elements_model(v.push(x)) == elements_model(v).push(element_model(*x)),
{
    assert(elements_model(v.push(x)) =~= elements_model(v).push(element_model(*x)));
}

proof fn lemma_nodes_model_take(v: Seq<Node>, i: int)
    requires
        0 <= i < v.len(),
    ensures
        nodes_model(v.take(i + 1)) == nodes_model(v.take(i)).push(node_model(v[i])),
{
    assert(v.take(i + 1).drop_last() =~= v.take(i));
}

/// Appends to `found` the elements of the subtree of `element` that match
/// `selector`, in document order.
fn collect_matches<'a, 'b>(element: &'a Element<'b>, selector: &Selector, found: &mut Vec<&'a Element<'b>>)
    ensures
        elements_model(final(found)@) == elements_model(old(found)@) + matching_in_element(
            element_model(*element),
            selector@,
        ),
    decreases element,
{
    let ghost e = element_model(*element);
    let ghost start = elements_model(found@);
    let own = matches(element, selector);
    if own {
        proof {
            lemma_elements_model_push(found@, element);
        }
        found.push(element);
    }
    let ghost after_own = elements_model(found@);
    proof {
        assert(after_own == start + if element_matches(e, selector@) {
            seq![e]
        } else {
            Seq::<HtmlElement>::empty()
        });
    }
    match &element.children {
        ElementChildren::Children(children) => {
            let mut i: usize = 0;
            proof {
                assert(children@.take(0) =~= Seq::<Node>::empty());
                assert(nodes_model(children@.take(0)) =~= Seq::<HtmlNode>::empty());
                assert(after_own + Seq::<HtmlElement>::empty() =~= after_own);
            }
            while i < children.len()
                invariant
                    i <= children@.len(),
                    element.children == ElementChildren::Children(*children),
                    elements_model(found@) == after_own + matching_in_nodes(
                        nodes_model(children@.take(i as int)),
                        selector@,
                    ),
                decreases children@.len() - i,
            {
                proof {
                    lemma_nodes_model_take(children@, i as int);
                }
                let ghost before = elements_model(found@);
                match &children[i] {
                    Node::Element(child) => {
                        proof {
                            assert(decreases_to!(*element => element.children));
                            assert(element.children->Children_0 == *children);
                            assert(decreases_to!(element.children => element.children->Children_0));
                            assert(decreases_to!(*children => children@));
                            assert(decreases_to!(children@ => children@[i as int]));
                            assert(decreases_to!(children@[i as int] => **child));
                        }
                        collect_matches(child, selector, found);
                    },
                    _ => {},
                }
                proof {
                    let ns = nodes_model(children@.take(i + 1));
                    assert(ns.drop_last() == nodes_model(children@.take(i as int)));
                    assert(ns.last() == node_model(children@[i as int]));
                    assert(elements_model(found@) =~= after_own + matching_in_nodes(ns, selector@));
                }
                i = i + 1;
            }
            proof {
                assert(children@.take(children@.len() as int) =~= children@);
                assert(start + (if element_matches(e, selector@) {
                    seq![e]
                } else {
                    Seq::<HtmlElement>::empty()
                }) + matching_in_nodes(nodes_model(children@), selector@) =~= start + matching_in_element(e, selector@));
            }
        },
        _ => {
            proof {
                assert(after_own =~= start + matching_in_element(e, selector@));
            }
        },
    }
}

/// The elements of the subtree of `element` (itself included) that match
/// `matching`, in document order.
pub fn query_selector_all<'a, 'b>(element: &'a Element<'b>, matching: &Selector) -> (r: Vec<&'a Element<'b>>)
    ensures
        elements_model(r@) == matching_in_element(element_model(*element), matching@),
{
    let mut found: Vec<&'a Element<'b>> = Vec::new();
    proof {
        assert(elements_model(found@) =~= Seq::<HtmlElement>::empty());
    }
    collect_matches(element, matching, &mut found);
    proof {
        assert(Seq::<HtmlElement>::empty() + matching_in_element(element_model(*element), matching@)
            =~= matching_in_element(element_model(*element), matching@));
    }
    found
}

proof fn lemma_nodes_model_prefix(v: Seq<Node>, k: int)
    requires
        0 <= k <= v.len(),
    ensures
        nodes_model(v.take(k)) == nodes_model(v).take(k),
{
    lemma_nodes_model(v);
    lemma_nodes_model(v.take(k));
    assert(nodes_model(v.take(k)) =~= nodes_model(v).take(k));
}

/// Once a prefix of the nodes holds a match, the first match of all the
/// nodes is that of the prefix.
proof fn lemma_first_prefix(ns: Seq<HtmlNode>, k: int, sel: SelectorModel)
    requires
        0 <= k <= ns.len(),
        first_in_nodes(ns.take(k), sel) is Some,
    ensures
        first_in_nodes(ns, sel) == first_in_nodes(ns.take(k), sel),
    decreases ns.len(),
{
    if k < ns.len() {
        assert(ns.drop_last().take(k) =~= ns.take(k));
        lemma_first_prefix(ns.drop_last(), k, sel);
    } else {
        assert(ns.take(k) =~= ns);
    }
}

/// The first element of the subtree of `element` (itself included) that
/// matches `matching`, searching an element before its children and the
/// children in order.
pub fn query_selector<'a, 'b>(element: &'a Element<'b>, matching: &Selector) -> (r: Option<&'a Element<'b>>)
    ensures
        match r {
            Some(x) => first_in_element(element_model(*element), matching@) == Some(element_model(*x)),
            None => first_in_element(element_model(*element), matching@) is None,
        },
    decreases element,
{
    if matches(element, matching) {
        return Some(element);
    }
    match &element.children {
        ElementChildren::Children(children) => {
            let mut i: usize = 0;
            proof {
                assert(children@.take(0) =~= Seq::<Node>::empty());
                assert(nodes_model(children@.take(0)) =~= Seq::<HtmlNode>::empty());
            }
            while i < children.len()
                invariant
                    i <= children@.len(),
                    element.children == ElementChildren::Children(*children),
                    !element_matches(element_model(*element), matching@),
                    first_in_nodes(nodes_model(children@.take(i as int)), matching@) is None,
                decreases children@.len() - i,
            {
                proof {
                    lemma_nodes_model_take(children@, i as int);
                }
                let ghost ns = nodes_model(children@.take(i + 1));
                proof {
                    assert(ns.drop_last() == nodes_model(children@.take(i as int)));
                    assert(ns.last() == node_model(children@[i as int]));
                }
                match &children[i] {
                    Node::Element(child) => {
                        proof {
                            assert(decreases_to!(*element => element.children));
                            assert(decreases_to!(element.children => element.children->Children_0));
                            assert(decreases_to!(*children => children@));
                            assert(decreases_to!(children@ => children@[i as int]));
                            assert(decreases_to!(children@[i as int] => **child));
                        }
                        let found = query_selector(child, matching);
                        if found.is_some() {
                            proof {
                                lemma_nodes_model(children@);
                                lemma_nodes_model_prefix(children@, i + 1);
                                lemma_first_prefix(nodes_model(children@), i + 1, matching@);
                            }
                            return found;
                        }
                    },
                    _ => {},
                }
                i = i + 1;
            }
            proof {
                assert(children@.take(children@.len() as int) =~= children@);
            }
            None
        },
        _ => None,
    }
}

/// The first element of a sequence, if it has one.
pub open spec fn head<T>(s: Seq<T>) -> Option<T> {
    if s.len() > 0 {
        Some(s[0])
    } else {
        None
    }
}

proof fn lemma_first_is_head_nodes(ns: Seq<HtmlNode>, sel: SelectorModel)
    ensures
        first_in_nodes(ns, sel) == head(matching_in_nodes(ns, sel)),
    decreases ns,
{
    if ns.len() > 0 {
        lemma_first_is_head_nodes(ns.drop_last(), sel);
        let prefix = matching_in_nodes(ns.drop_last(), sel);
        match ns.last() {
            HtmlNode::Element(c) => {
                lemma_first_is_head_element(c, sel);
                let m = matching_in_element(c, sel);
                if prefix.len() == 0 {
                    assert(prefix + m =~= m);
                }
            },
            _ => {
                assert(prefix + Seq::<HtmlElement>::empty() =~= prefix);
            },
        }
    }
}

proof fn lemma_first_is_head_element(e: HtmlElement, sel: SelectorModel)
    ensures
        first_in_element(e, sel) == head(matching_in_element(e, sel)),
    decreases e,
{
    if let HtmlChildren::Children(ns) = e.children {
        lemma_first_is_head_nodes(ns, sel);
        if !element_matches(e, sel) {
            assert(Seq::<HtmlElement>::empty() + matching_in_nodes(ns, sel) =~= matching_in_nodes(
                ns,
                sel,
            ));
        }
    }
}

/// `query_selector` finds the first of the elements that
/// `query_selector_all` lists, and nothing exactly when that list is empty.
pub proof fn query_selector_is_first_of_all(e: HtmlElement, sel: SelectorModel)
    ensures
        first_in_element(e, sel) == head(matching_in_element(e, sel)),
{
    lemma_first_is_head_element(e, sel);
}

proof fn lemma_nodes_only_matches(ns: Seq<HtmlNode>, sel: SelectorModel)
    ensures
        forall|i: int| 0 <= i < matching_in_nodes(ns, sel).len() ==> element_matches(
            #[trigger] matching_in_nodes(ns, sel)[i],
            sel,
        ),
    decreases ns,
{
    if ns.len() > 0 {
        lemma_nodes_only_matches(ns.drop_last(), sel);
        let prefix = matching_in_nodes(ns.drop_last(), sel);
        match ns.last() {
            HtmlNode::Element(c) => {
                lemma_element_only_matches(c, sel);
                let m = matching_in_element(c, sel);
                assert forall|i: int| 0 <= i < (prefix + m).len() implies element_matches(
                    #[trigger] (prefix + m)[i],
                    sel,
                ) by {
                    if i >= prefix.len() {
                        assert((prefix + m)[i] == m[i - prefix.len()]);
                    }
                }
            },
            _ => {
                assert(prefix + Seq::<HtmlElement>::empty() =~= prefix);
            },
        }
    }
}

proof fn lemma_element_only_matches(e: HtmlElement, sel: SelectorModel)
    ensures
        forall|i: int| 0 <= i < matching_in_element(e, sel).len() ==> element_matches(
            #[trigger] matching_in_element(e, sel)[i],
            sel,
        ),
    decreases e,
{
    let own = if element_matches(e, sel) {
        seq![e]
    } else {
        Seq::<HtmlElement>::empty()
    };
    if let HtmlChildren::Children(ns) = e.children {
        lemma_nodes_only_matches(ns, sel);
        let m = matching_in_nodes(ns, sel);
        assert forall|i: int| 0 <= i < (own + m).len() implies element_matches(
            #[trigger] (own + m)[i],
            sel,
        ) by {
            if i >= own.len() {
                assert((own + m)[i] == m[i - own.len()]);
            }
        }
    }
}

/// Every element that `query_selector_all` returns matches the selector,
/// and the element searched from comes first exactly when it matches.
pub proof fn query_selector_all_returns_matches(e: HtmlElement, sel: SelectorModel)
    ensures
        forall|i: int| 0 <= i < matching_in_element(e, sel).len() ==> element_matches(
            #[trigger] matching_in_element(e, sel)[i],
            sel,
        ),
        element_matches(e, sel) <==> (matching_in_element(e, sel).len() > 0
            && matching_in_element(e, sel)[0] == e),
{
    lemma_element_only_matches(e, sel);
    if element_matches(e, sel) {
        if let HtmlChildren::Children(ns) = e.children {
            assert((seq![e] + matching_in_nodes(ns, sel))[0] == e);
        }
    } else {
        if let HtmlChildren::Children(ns) = e.children {
            assert(Seq::<HtmlElement>::empty() + matching_in_nodes(ns, sel) =~= matching_in_nodes(ns, sel));
        }
    }
}

/// What each attribute test means: `=` is equality; `^=` holds exactly
/// when the value starts with the expected text, `$=` exactly when it ends
/// with it; `[key]` (contains) when the expected text occurs somewhere in
/// the value; `|=` when the value is the expected text, alone or followed by
/// a `-` and anything, the expected text holding no `-`.
pub proof fn attribute_tests_by_kind(v: Seq<char>, w: Seq<char>)
    ensures
        value_matches(AttributeQuery::Exactly, v, w) <==> v == w,
        value_matches(AttributeQuery::Prefixed, v, w) <==> (w.len() <= v.len() && v.subrange(
            0,
            w.len() as int,
        ) == w),
        value_matches(AttributeQuery::Suffixed, v, w) <==> (w.len() <= v.len() && v.subrange(
            v.len() - w.len(),
            v.len() as int,
        ) == w),
        value_matches(AttributeQuery::Contains, v, w) <==> exists|k: int|
            0 <= k && k + w.len() <= v.len() && #[trigger] v.subrange(k, k + w.len()) == w,
        value_matches(AttributeQuery::ExactlyBeforeHyphen, v, w) <==> (w.len() <= v.len()
            && v.subrange(0, w.len() as int) == w && (forall|i: int| 0 <= i < w.len() ==> w[i] != '-')
            && (w.len() == v.len() || v[w.len() as int] == '-')),
{
    assert(value_matches(AttributeQuery::Contains, v, w) == contains_seq(v, w));
    if contains_seq(v, w) {
        let k = choose|k: int| occurs_at(v, k, w);
        assert(v.subrange(k, k + w.len()) == w);
    }
    if exists|k: int| 0 <= k && k + w.len() <= v.len() && #[trigger] v.subrange(k, k + w.len()) == w {
        let k = choose|k: int| 0 <= k && k + w.len() <= v.len() && #[trigger] v.subrange(k, k + w.len()) == w;
        assert(occurs_at(v, k, w));
    }
    let h = seq!['-'];
    lemma_find_from(v, 0, h);
    let k = find_from(v, 0, h);
    assert forall|i: int| 0 <= i < v.len() implies (occurs_at(v, i, h) <==> v[i] == '-') by {
        if 0 <= i < v.len() {
            if v[i] == '-' {
                assert(v.subrange(i, i + 1) =~= h);
            }
            if occurs_at(v, i, h) {
                assert(v.subrange(i, i + 1)[0] == v[i]);
            }
        }
    }
    if value_matches(AttributeQuery::ExactlyBeforeHyphen, v, w) {
        assert(w.len() == k);
        assert forall|i: int| 0 <= i < w.len() implies w[i] != '-' by {
            assert(w[i] == v[i]);
            assert(!occurs_at(v, i, h));
        }
        if k < v.len() {
            assert(occurs_at(v, k, h));
        }
    }
    if w.len() <= v.len() && v.subrange(0, w.len() as int) == w && (forall|i: int|
        0 <= i < w.len() ==> w[i] != '-') && (w.len() == v.len() || v[w.len() as int] == '-') {
        if k < w.len() {
            assert(occurs_at(v, k, h));
            assert(v[k] == w[k]);
        }
        if w.len() < k {
            assert(!occurs_at(v, w.len() as int, h));
        }
        assert(k == w.len());
    }
}

proof fn lemma_run_to_end(s: Seq<char>, p: int, cls: CharClass)
    requires
        0 <= p <= s.len(),
        forall|i: int| p <= i < s.len() ==> in_class(cls, #[trigger] s[i]),
    ensures
        run_end(s, p, cls) == s.len(),
    decreases s.len() - p,
{
    if p < s.len() {
        lemma_run_to_end(s, p + 1, cls);
    }
}

/// A class or id name may hold letters, digits, `-` and `_`: for every
/// such name `n`, `.n` reads as the one query that the `class` attribute is
/// `n`, and `#n` as the one query that the `id` attribute is `n`.
pub proof fn class_and_id_names(n: Seq<char>)
    requires
        forall|i: int| 0 <= i < n.len() ==> unicode_alphanumeric(#[trigger] n[i]) || n[i] == '-'
            || n[i] == '_',
    ensures
        parse_selector(seq!['.'] + n) == Some(
            SelectorModel { tag: None, attributes: seq![("class"@, AttributeQuery::Exactly, n)] },
        ),
        parse_selector(seq!['#'] + n) == Some(
            SelectorModel { tag: None, attributes: seq![("id"@, AttributeQuery::Exactly, n)] },
        ),
{
    let a = seq!['.'] + n;
    let b = seq!['#'] + n;
    assert forall|i: int| 1 <= i < a.len() implies in_class(CharClass::SelectorName, #[trigger] a[i]) by {
        assert(a[i] == n[i - 1]);
    }
    assert forall|i: int| 1 <= i < b.len() implies in_class(CharClass::SelectorName, #[trigger] b[i]) by {
        assert(b[i] == n[i - 1]);
    }
    lemma_run_to_end(a, 1, CharClass::SelectorName);
    lemma_run_to_end(b, 1, CharClass::SelectorName);
    assert(a[0] == '.');
    assert(b[0] == '#');
    assert(a.subrange(1, a.len() as int) =~= n);
    assert(b.subrange(1, b.len() as int) =~= n);
    assert(selector_parts(a, a.len() as int) == Some(Seq::<(Seq<char>, AttributeQuery, Seq<char>)>::empty()));
    assert(selector_parts(b, b.len() as int) == Some(Seq::<(Seq<char>, AttributeQuery, Seq<char>)>::empty()));
    assert(seq![("class"@, AttributeQuery::Exactly, n)] + Seq::empty() =~= seq![("class"@, AttributeQuery::Exactly, n)]);
    assert(seq![("id"@, AttributeQuery::Exactly, n)] + Seq::empty() =~= seq![("id"@, AttributeQuery::Exactly, n)]);
}

/// Every element of the subtree of `e`: `e`, then the subtrees of its
/// child elements in order.
pub open spec fn subtree_elements(e: HtmlElement) -> Seq<HtmlElement>
    decreases e,
{
    match e.children {
        HtmlChildren::Children(ns) => seq![e] + subtree_nodes(ns),
        _ => seq![e],
    }
}

/// Every element of the subtrees of the nodes `ns`, in document order.
pub open spec fn subtree_nodes(ns: Seq<HtmlNode>) -> Seq<HtmlElement>
    decreases ns,
{
    if ns.len() == 0 {
        Seq::empty()
    } else {
        subtree_nodes(ns.drop_last()) + match ns.last() {
            HtmlNode::Element(c) => subtree_elements(c),
            _ => Seq::empty(),
        }
    }
}

pub open spec fn matches_pred(sel: SelectorModel) -> spec_fn(HtmlElement) -> bool {
    |d: HtmlElement| element_matches(d, sel)
}

proof fn lemma_filter_one(e: HtmlElement, sel: SelectorModel)
    ensures
        seq![e].filter(matches_pred(sel)) == if element_matches(e, sel) {
            seq![e]
        } else {
            Seq::<HtmlElement>::empty()
        },
{
    reveal(Seq::filter);
    assert(seq![e].drop_last() =~= Seq::<HtmlElement>::empty());
    assert(Seq::<HtmlElement>::empty().filter(matches_pred(sel)) =~= Seq::<HtmlElement>::empty());
    assert(Seq::<HtmlElement>::empty().push(e) =~= seq![e]);
}

proof fn lemma_nodes_filter(ns: Seq<HtmlNode>, sel: SelectorModel)
    ensures
        matching_in_nodes(ns, sel) == subtree_nodes(ns).filter(matches_pred(sel)),
    decreases ns,
{
    reveal(Seq::filter);
    if ns.len() == 0 {
        assert(subtree_nodes(ns).filter(matches_pred(sel)) =~= Seq::<HtmlElement>::empty());
    } else {
        lemma_nodes_filter(ns.drop_last(), sel);
        let last = match ns.last() {
            HtmlNode::Element(c) => subtree_elements(c),
            _ => Seq::empty(),
        };
        Seq::filter_distributes_over_add(subtree_nodes(ns.drop_last()), last, matches_pred(sel));
        match ns.last() {
            HtmlNode::Element(c) => {
                lemma_element_filter(c, sel);
            },
            _ => {
                assert(Seq::<HtmlElement>::empty().filter(matches_pred(sel)) =~= Seq::<HtmlElement>::empty());
            },
        }
    }
}

proof fn lemma_element_filter(e: HtmlElement, sel: SelectorModel)
    ensures
        matching_in_element(e, sel) == subtree_elements(e).filter(matches_pred(sel)),
    decreases e,
{
    lemma_filter_one(e, sel);
    let own = if element_matches(e, sel) {
        seq![e]
    } else {
        Seq::<HtmlElement>::empty()
    };
    match e.children {
        HtmlChildren::Children(ns) => {
            lemma_nodes_filter(ns, sel);
            Seq::filter_distributes_over_add(seq![e], subtree_nodes(ns), matches_pred(sel));
        },
        _ => {
            assert(own =~= own);
        },
    }
}

/// `query_selector_all` is complete and in document order: it returns
/// exactly the elements of the subtree (the element itself, its children,
/// their children, at any depth) that match, in the order in which the
/// subtree lists them. So every matching element at any depth is returned.
pub proof fn query_selector_all_is_every_match(e: HtmlElement, sel: SelectorModel)
    ensures
        matching_in_element(e, sel) == subtree_elements(e).filter(|d: HtmlElement| element_matches(d, sel)),
        forall|i: int| 0 <= i < subtree_elements(e).len() && element_matches(
            #[trigger] subtree_elements(e)[i],
            sel,
        ) ==> matching_in_element(e, sel).contains(subtree_elements(e)[i]),
{
    lemma_element_filter(e, sel);
    assert(matches_pred(sel) =~= |d: HtmlElement| element_matches(d, sel));
    assert forall|i: int| 0 <= i < subtree_elements(e).len() && element_matches(
        #[trigger] subtree_elements(e)[i],
        sel,
    ) implies matching_in_element(e, sel).contains(subtree_elements(e)[i]) by {
        subtree_elements(e).lemma_filter_contains(matches_pred(sel), i);
    }
}

/// An attribute query reads the first attribute with the query's key: the
/// value found is `v` exactly when some attribute is `(key, v)` and no
/// attribute before it has that key; nothing is found exactly when no
/// attribute has that key.
pub proof fn first_attribute_with_key(attrs: Seq<(Seq<char>, Seq<char>)>, key: Seq<char>, v: Seq<char>)
    ensures
        first_value(attrs, key) == Some(v) <==> exists|i: int|
            0 <= i < attrs.len() && #[trigger] attrs[i] == (key, v) && forall|j: int|
                0 <= j < i ==> (#[trigger] attrs[j]).0 != key,
        first_value(attrs, key) is None <==> forall|j: int| 0 <= j < attrs.len() ==> (#[trigger] attrs[j]).0 != key,
    decreases attrs.len(),
{
    if attrs.len() > 0 {
        let rest = attrs.drop_first();
        first_attribute_with_key(rest, key, v);
        assert forall|j: int| 0 <= j < rest.len() implies rest[j] == attrs[j + 1] by {}
        if attrs[0].0 != key {
            if exists|i: int|
                0 <= i < attrs.len() && #[trigger] attrs[i] == (key, v) && forall|j: int|
                    0 <= j < i ==> (#[trigger] attrs[j]).0 != key {
                let i = choose|i: int|
                    0 <= i < attrs.len() && #[trigger] attrs[i] == (key, v) && forall|j: int|
                        0 <= j < i ==> (#[trigger] attrs[j]).0 != key;
                assert(i > 0);
                assert(rest[i - 1] == (key, v));
                assert forall|j: int| 0 <= j < i - 1 implies (#[trigger] rest[j]).0 != key by {
                    assert(attrs[j + 1].0 != key);
                }
            }
            if first_value(attrs, key) == Some(v) {
                let i = choose|i: int|
                    0 <= i < rest.len() && #[trigger] rest[i] == (key, v) && forall|j: int|
                        0 <= j < i ==> (#[trigger] rest[j]).0 != key;
                assert(attrs[i + 1] == (key, v));
                assert forall|j: int| 0 <= j < i + 1 implies (#[trigger] attrs[j]).0 != key by {
                    if j > 0 {
                        assert(rest[j - 1].0 != key);
                    }
                }
            }
            if forall|j: int| 0 <= j < rest.len() ==> (#[trigger] rest[j]).0 != key {
                assert forall|j: int| 0 <= j < attrs.len() implies (#[trigger] attrs[j]).0 != key by {
                    if j > 0 {
                        assert(rest[j - 1].0 != key);
                    }
                }
            }
        } else {
            if attrs[0].1 == v {
                assert(attrs[0] == (key, v));
            }
            if exists|i: int|
                0 <= i < attrs.len() && #[trigger] attrs[i] == (key, v) && forall|j: int|
                    0 <= j < i ==> (#[trigger] attrs[j]).0 != key {
                let i = choose|i: int|
                    0 <= i < attrs.len() && #[trigger] attrs[i] == (key, v) && forall|j: int|
                        0 <= j < i ==> (#[trigger] attrs[j]).0 != key;
                if i > 0 {
                    assert(attrs[0].0 != key);
                }
            }
        }
    }
}

proof fn lemma_run_exact(s: Seq<char>, p: int, q: int, cls: CharClass)
    requires
        0 <= p <= q <= s.len(),
        forall|i: int| p <= i < q ==> in_class(cls, #[trigger] s[i]),
        q == s.len() || !in_class(cls, s[q]),
    ensures
        run_end(s, p, cls) == q,
    decreases q - p,
{
    if p < q {
        lemma_run_exact(s, p + 1, q, cls);
    }
}

proof fn lemma_trim_absent(t: Seq<char>, c: char)
    requires
        forall|i: int| 0 <= i < t.len() ==> t[i] != c,
    ensures
        trim_char(t, c) == t,
{
    assert(skip_char(t, c, 0, t.len() as int) == 0);
    assert(back_char(t, c, 0, t.len() as int) == t.len());
    assert(t.subrange(0, t.len() as int) =~= t);
}

proof fn lemma_trim_quoted(v: Seq<char>, c: char)
    requires
        forall|i: int| 0 <= i < v.len() ==> v[i] != c,
    ensures
        trim_char(seq![c] + v + seq![c], c) == v,
{
    let t = seq![c] + v + seq![c];
    let n = t.len() as int;
    assert(t[0] == c);
    if v.len() == 0 {
        assert(t[1] == c);
        assert(skip_char(t, c, 2, n) == 2);
        assert(skip_char(t, c, 1, n) == 2);
        assert(skip_char(t, c, 0, n) == 2);
        assert(back_char(t, c, 2, n) == 2);
        assert(t.subrange(2, 2) =~= v);
    } else {
        assert(t[1] == v[0]);
        assert(skip_char(t, c, 1, n) == 1);
        assert(skip_char(t, c, 0, n) == 1);
        assert(t[n - 1] == c);
        assert(t[n - 2] == v[v.len() - 1]);
        assert(back_char(t, c, 1, n - 1) == n - 1);
        assert(back_char(t, c, 1, n) == n - 1);
        assert(t.subrange(1, n - 1) =~= v);
    }
}

/// The reading of an attribute part `[k<op>v]`, for a key `k` of letters,
/// digits, `-` and `_` and an operator character that is none of these.
proof fn lemma_attribute_part(k: Seq<char>, op: Seq<char>, q: AttributeQuery, raw: Seq<char>, v: Seq<char>)
    requires
        k.len() > 0,
        forall|i: int| 0 <= i < k.len() ==> unicode_alphanumeric(#[trigger] k[i]) || k[i] == '-' || k[i] == '_',
        op.len() == 1 || op.len() == 2,
        op.last() == '=',
        !unicode_alphanumeric(op[0]),
        op[0] != '-' && op[0] != '_' && op[0] != ']',
        op.len() == 2 ==> (op[0] == '~' || op[0] == '^' || op[0] == '$' || op[0] == '|'),
        q == (if op.len() == 1 {
            AttributeQuery::Exactly
        } else if op[0] == '~' {
            AttributeQuery::ContainsWhitespaceSplit
        } else if op[0] == '^' {
            AttributeQuery::Prefixed
        } else if op[0] == '$' {
            AttributeQuery::Suffixed
        } else {
            AttributeQuery::ExactlyBeforeHyphen
        }),
        forall|i: int| 0 <= i < raw.len() ==> raw[i] != ']',
        trim_char(trim_char(raw, '"'), '\'') == v,
    ensures
        parse_selector(seq!['['] + k + op + raw + seq![']']) == Some(
            SelectorModel { tag: None, attributes: seq![(k, q, v)] },
        ),
{
    let s = seq!['['] + k + op + raw + seq![']'];
    let e = (1 + k.len()) as int;
    let n = s.len() as int;
    assert(s[0] == '[');
    assert forall|i: int| 1 <= i < e implies in_class(CharClass::SelectorName, #[trigger] s[i]) by {
        assert(s[i] == k[i - 1]);
    }
    assert(s[e] == op[0]);
    lemma_run_exact(s, 1, e, CharClass::SelectorName);
    assert(s.subrange(1, e) =~= k);
    if op.len() == 2 {
        assert(s[e + 1] == '=');
    }
    let start = (e + op.len()) as int;
    assert forall|i: int| start <= i < n - 1 implies s[i] != ']' by {
        assert(s[i] == raw[i - start]);
    }
    assert(s[n - 1] == ']');
    lemma_next_close(s, start, n - 1);
    assert(s.subrange(start, n - 1) =~= raw);
    assert(selector_parts(s, n) == Some(Seq::<(Seq<char>, AttributeQuery, Seq<char>)>::empty()));
    assert(seq![(k, q, v)] + Seq::empty() =~= seq![(k, q, v)]);
}

proof fn lemma_next_close(s: Seq<char>, p: int, q: int)
    requires
        0 <= p <= q < s.len(),
        forall|i: int| p <= i < q ==> s[i] != ']',
        s[q] == ']',
    ensures
        find_from(s, p, seq![']']) == q,
    decreases q - p,
{
    if p < q {
        if occurs_at(s, p, seq![']']) {
            assert(s.subrange(p, p + 1)[0] == s[p]);
        }
        lemma_next_close(s, p + 1, q);
    } else {
        assert(s.subrange(q, q + 1) =~= seq![']']);
    }
}

/// The attribute operators: `[k=v]` tests that the value is `v`, `[k~=v]`
/// that one of its white-space separated words is, `[k^=v]` that it starts
/// with `v`, `[k$=v]` that it ends with it, `[k|=v]` that its part before a
/// `-` is `v`; the value may be written between double or single quotes.
/// A key `k` is made of letters, digits, `-` and `_`; the operator
/// characters are not letters or digits.
pub proof fn attribute_selector_operators(k: Seq<char>, v: Seq<char>)
    requires
        k.len() > 0,
        forall|i: int| 0 <= i < k.len() ==> unicode_alphanumeric(#[trigger] k[i]) || k[i] == '-' || k[i] == '_',
        forall|i: int| 0 <= i < v.len() ==> v[i] != ']' && v[i] != '"' && v[i] != '\'',
        !unicode_alphanumeric('='),
        !unicode_alphanumeric('~'),
        !unicode_alphanumeric('^'),
        !unicode_alphanumeric('$'),
        !unicode_alphanumeric('|'),
    ensures
        parse_selector(seq!['['] + k + seq!['='] + v + seq![']']) == Some(
            SelectorModel { tag: None, attributes: seq![(k, AttributeQuery::Exactly, v)] },
        ),
        parse_selector(seq!['['] + k + seq!['~', '='] + v + seq![']']) == Some(
            SelectorModel { tag: None, attributes: seq![(k, AttributeQuery::ContainsWhitespaceSplit, v)] },
        ),
        parse_selector(seq!['['] + k + seq!['^', '='] + v + seq![']']) == Some(
            SelectorModel { tag: None, attributes: seq![(k, AttributeQuery::Prefixed, v)] },
        ),
        parse_selector(seq!['['] + k + seq!['$', '='] + v + seq![']']) == Some(
            SelectorModel { tag: None, attributes: seq![(k, AttributeQuery::Suffixed, v)] },
        ),
        parse_selector(seq!['['] + k + seq!['|', '='] + v + seq![']']) == Some(
            SelectorModel { tag: None, attributes: seq![(k, AttributeQuery::ExactlyBeforeHyphen, v)] },
        ),
        parse_selector(seq!['['] + k + seq!['^', '='] + (seq!['"'] + v + seq!['"']) + seq![']']) == Some(
            SelectorModel { tag: None, attributes: seq![(k, AttributeQuery::Prefixed, v)] },
        ),
        parse_selector(seq!['['] + k + seq!['^', '='] + (seq!['\''] + v + seq!['\'']) + seq![']']) == Some(
            SelectorModel { tag: None, attributes: seq![(k, AttributeQuery::Prefixed, v)] },
        ),
{
    lemma_trim_absent(v, '"');
    lemma_trim_absent(v, '\'');
    lemma_attribute_part(k, seq!['='], AttributeQuery::Exactly, v, v);
    lemma_attribute_part(k, seq!['~', '='], AttributeQuery::ContainsWhitespaceSplit, v, v);
    lemma_attribute_part(k, seq!['^', '='], AttributeQuery::Prefixed, v, v);
    lemma_attribute_part(k, seq!['$', '='], AttributeQuery::Suffixed, v, v);
    lemma_attribute_part(k, seq!['|', '='], AttributeQuery::ExactlyBeforeHyphen, v, v);
    let dq = seq!['"'] + v + seq!['"'];
    lemma_trim_quoted(v, '"');
    assert forall|i: int| 0 <= i < dq.len() implies dq[i] != ']' by {
        if 0 < i < dq.len() - 1 {
            assert(dq[i] == v[i - 1]);
        }
    }
    lemma_attribute_part(k, seq!['^', '='], AttributeQuery::Prefixed, dq, v);
    let sq = seq!['\''] + v + seq!['\''];
    assert forall|i: int| 0 <= i < sq.len() implies sq[i] != '"' by {
        if 0 < i < sq.len() - 1 {
            assert(sq[i] == v[i - 1]);
        }
    }
    lemma_trim_absent(sq, '"');
    lemma_trim_quoted(v, '\'');
    assert forall|i: int| 0 <= i < sq.len() implies sq[i] != ']' by {
        if 0 < i < sq.len() - 1 {
            assert(sq[i] == v[i - 1]);
        }
    }
    lemma_attribute_part(k, seq!['^', '='], AttributeQuery::Prefixed, sq, v);
}

/// A selector may start with a tag name (a letter, then letters and
/// digits) that the element's name must equal, and then `.class` parts;
/// the empty text and a text that starts with `*` are not selectors.
pub proof fn tag_selectors(t: Seq<char>, n: Seq<char>, x: Seq<char>)
    requires
        t.len() > 0,
        unicode_alphabetic(t[0]),
        t[0] != '*' && t[0] != '[' && t[0] != '.' && t[0] != '#',
        forall|i: int| 0 <= i < t.len() ==> unicode_alphanumeric(#[trigger] t[i]),
        forall|i: int| 0 <= i < n.len() ==> unicode_alphanumeric(#[trigger] n[i]) || n[i] == '-'
            || n[i] == '_',
        !unicode_alphanumeric('.'),
    ensures
        parse_selector(t) == Some(
            SelectorModel { tag: Some(t), attributes: Seq::<(Seq<char>, AttributeQuery, Seq<char>)>::empty() },
        ),
        parse_selector(t + seq!['.'] + n) == Some(
            SelectorModel { tag: Some(t), attributes: seq![("class"@, AttributeQuery::Exactly, n)] },
        ),
        parse_selector(Seq::empty()) is None,
        parse_selector(seq!['*'] + x) is None,
{
    lemma_run_exact(t, 0, t.len() as int, CharClass::Alphanumeric);
    assert(t.subrange(0, t.len() as int) =~= t);
    let s = t + seq!['.'] + n;
    let m = t.len() as int;
    assert(s[0] == t[0]);
    assert forall|i: int| 0 <= i < m implies in_class(CharClass::Alphanumeric, #[trigger] s[i]) by {
        assert(s[i] == t[i]);
    }
    assert(s[m] == '.');
    lemma_run_exact(s, 0, m, CharClass::Alphanumeric);
    assert(s.subrange(0, m) =~= t);
    assert forall|i: int| m + 1 <= i < s.len() implies in_class(CharClass::SelectorName, #[trigger] s[i]) by {
        assert(s[i] == n[i - m - 1]);
    }
    lemma_run_exact(s, m + 1, s.len() as int, CharClass::SelectorName);
    assert(s.subrange(m + 1, s.len() as int) =~= n);
    assert(selector_parts(s, s.len() as int) == Some(Seq::<(Seq<char>, AttributeQuery, Seq<char>)>::empty()));
    assert(seq![("class"@, AttributeQuery::Exactly, n)] + Seq::empty() =~= seq![("class"@, AttributeQuery::Exactly, n)]);
    let st = seq!['*'] + x;
    assert(st[0] == '*');
}

/// Some attribute has the query's key, no attribute before it has that
/// key, and its value passes the query's test.
pub open spec fn first_attribute_passes(
    attrs: Seq<(Seq<char>, Seq<char>)>,
    q: (Seq<char>, AttributeQuery, Seq<char>),
) -> bool {
    exists|i: int|
        0 <= i < attrs.len() && (#[trigger] attrs[i]).0 == q.0 && value_matches(q.1, attrs[i].1, q.2)
            && forall|j: int| 0 <= j < i ==> (#[trigger] attrs[j]).0 != q.0
}

proof fn lemma_query_holds(attrs: Seq<(Seq<char>, Seq<char>)>, q: (Seq<char>, AttributeQuery, Seq<char>))
    ensures
        query_holds(attrs, q) == first_attribute_passes(attrs, q),
{
    match first_value(attrs, q.0) {
        Some(v) => {
            first_attribute_with_key(attrs, q.0, v);
            let i = choose|i: int|
                0 <= i < attrs.len() && #[trigger] attrs[i] == (q.0, v) && forall|j: int|
                    0 <= j < i ==> (#[trigger] attrs[j]).0 != q.0;
            if first_attribute_passes(attrs, q) {
                let i2 = choose|i2: int|
                    0 <= i2 < attrs.len() && (#[trigger] attrs[i2]).0 == q.0 && value_matches(
                        q.1,
                        attrs[i2].1,
                        q.2,
                    ) && forall|j: int| 0 <= j < i2 ==> (#[trigger] attrs[j]).0 != q.0;
                if i2 < i {
                    assert(attrs[i2].0 != q.0);
                } else if i < i2 {
                    assert(attrs[i].0 != q.0);
                }
            }
            if query_holds(attrs, q) {
                assert(attrs[i].0 == q.0);
            }
        },
        None => {
            first_attribute_with_key(attrs, q.0, Seq::empty());
            if first_attribute_passes(attrs, q) {
                let i2 = choose|i2: int|
                    0 <= i2 < attrs.len() && (#[trigger] attrs[i2]).0 == q.0 && value_matches(
                        q.1,
                        attrs[i2].1,
                        q.2,
                    ) && forall|j: int| 0 <= j < i2 ==> (#[trigger] attrs[j]).0 != q.0;
                assert(attrs[i2].0 != q.0);
            }
        },
    }
}

/// An element matches a selector exactly when its name is the selector's
/// tag (if the selector names one) and, for every attribute query, the
/// element's first attribute with the query's key exists and its value
/// passes the query's test.
pub proof fn element_matches_means(e: HtmlElement, sel: SelectorModel)
    ensures
        element_matches(e, sel) <==> ((sel.tag is None || sel.tag == Some(e.tag_name)) && forall|k: int|
            0 <= k < sel.attributes.len() ==> first_attribute_passes(e.attributes, #[trigger] sel.attributes[k])),
{
    assert forall|k: int| 0 <= k < sel.attributes.len() implies query_holds(e.attributes, #[trigger] sel.attributes[k])
        == first_attribute_passes(e.attributes, sel.attributes[k]) by {
        lemma_query_holds(e.attributes, sel.attributes[k]);
    }
    if sel.tag is Some {
        if sel.tag->0 == e.tag_name {
            assert(sel.tag == Some(e.tag_name));
        }
    }
}

} // verus!
