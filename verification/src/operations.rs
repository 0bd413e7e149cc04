//! Text extraction: character references in text nodes, and the text of a
//! subtree.
use std::borrow::Cow;
use vstd::prelude::*;
use crate::html::{Element, ElementChildren, HtmlChildren, HtmlElement, HtmlNode, Node, element_model, node_model, nodes_model};
use crate::text::{chars_and_offsets, byte_offset, find_from, lemma_find_from, occurs_at, find_pattern, matches_at, str_slice, str_eq};

verus! {

broadcast use vstd::string::group_string_axioms;

/// The value of a hexadecimal digit.
pub open spec fn hex_digit(c: char) -> Option<u32> {
    if '0' <= c <= '9' {
        Some((c as u32 - '0' as u32) as u32)
    } else if 'a' <= c <= 'f' {
        Some((c as u32 - 'a' as u32 + 10) as u32)
    } else if 'A' <= c <= 'F' {
        Some((c as u32 - 'A' as u32 + 10) as u32)
    } else {
        None
    }
}

/// The hexadecimal digits `t` read into a `u32`, each digit shifting the
/// value left by four bits (bits shifted out are lost). Nothing where a
/// character is not a hexadecimal digit.
pub open spec fn hex_value(t: Seq<char>) -> Option<u32>
    decreases t.len(),
{
    if t.len() == 0 {
        Some(0)
    } else {
        match (hex_value(t.drop_last()), hex_digit(t.last())) {
            (Some(v), Some(d)) => Some((((v as int) * 16) % 0x1_0000_0000 + d) as u32),
            _ => None,
        }
    }
}

/// The decimal digits `t` as a `u32`; nothing where a character is not a
/// digit or the value does not fit.
pub open spec fn decimal_digits(t: Seq<char>) -> Option<u32>
    decreases t.len(),
{
    if t.len() == 0 {
        Some(0)
    } else {
        match decimal_digits(t.drop_last()) {
            Some(v) => {
                let c = t.last();
                if '0' <= c <= '9' && (v as int) * 10 + (c as u32 - '0' as u32) <= u32::MAX {
                    Some(((v as int) * 10 + (c as u32 - '0' as u32)) as u32)
                } else {
                    None
                }
            },
            None => None,
        }
    }
}

/// A `u32` written in decimal, as `str::parse::<u32>` reads it: digits,
/// optionally after a `+`, at least one digit, a value that fits.
pub open spec fn decimal_value(t: Seq<char>) -> Option<u32> {
    if t.len() == 0 {
        None
    } else if t[0] == '+' {
        if t.len() == 1 {
            None
        } else {
            decimal_digits(t.drop_first())
        }
    } else {
        decimal_digits(t)
    }
}

/// `v` is the code point of a character: not a surrogate, at most U+10FFFF.
pub open spec fn scalar_value(v: u32) -> bool {
    v < 0xD800 || (0xE000 <= v && v <= 0x10FFFF)
}

/// How the text after an `&` is read.
pub enum Reference {
    /// A named reference: what it stands for, and where copying resumes.
    Named(Seq<char>, int),
    /// A numeric reference: its character, and where copying resumes.
    Code(char, int),
    /// A numeric reference that cannot be read.
    Broken,
    /// Not a reference: the `&` is plain text.
    Plain,
}

/// What follows the `&` at position `a` of `s`. The names `quot`, `amp`,
/// `lt` and `gt` stand for `"`, `&`, `<` and `>`; copying resumes at their
/// `;`, which is therefore kept in the text. `&#` starts a numeric
/// reference up to the next `;`: hexadecimal after `x` or `X`, decimal
/// otherwise; copying resumes after the `;`.
pub open spec fn reference_at(s: Seq<char>, a: int) -> Reference {
    if occurs_at(s, a + 1, seq!['q', 'u', 'o', 't', ';']) {
        Reference::Named(seq!['"'], a + 5)
    } else if occurs_at(s, a + 1, seq!['a', 'm', 'p', ';']) {
        Reference::Named(seq!['&'], a + 4)
    } else if occurs_at(s, a + 1, seq!['l', 't', ';']) {
        Reference::Named(seq!['<'], a + 3)
    } else if occurs_at(s, a + 1, seq!['g', 't', ';']) {
        Reference::Named(seq!['>'], a + 3)
    } else if a + 1 < s.len() && s[a + 1] == '#' {
        let j = find_from(s, a + 2, seq![';']);
        if j >= s.len() {
            Reference::Broken
        } else {
            let item = s.subrange(a + 2, j);
            let code = if item.len() > 0 && (item[0] == 'x' || item[0] == 'X') {
                hex_value(item.drop_first())
            } else {
                decimal_value(item)
            };
            match code {
                Some(v) => if scalar_value(v) {
                    Reference::Code(v as char, j + 1)
                } else {
                    Reference::Broken
                },
                None => Reference::Broken,
            }
        }
    } else {
        Reference::Plain
    }
}

/// `x` before what `rest` holds, or nothing when `rest` holds nothing.
pub open spec fn prepend_text(x: Seq<char>, rest: Option<Seq<char>>) -> Option<Seq<char>> {
    match rest {
        Some(r) => Some(x + r),
        None => None,
    }
}

/// The output for the text `s` from the `&` at or after `k` on, when the
/// text not yet copied starts at `start`. At each `&`, the text from
/// `start` up to it is copied; a reference is replaced and copying resumes
/// after it, while a plain `&` leaves `start` where it was, so that text is
/// copied again at the next `&` or at the end. Nothing where a numeric
/// reference cannot be read.
pub open spec fn unescape_from(s: Seq<char>, start: int, k: int) -> Option<Seq<char>>
    decreases s.len() - k,
{
    let a = find_from(s, k, seq!['&']);
    if !(0 <= k < s.len()) || a >= s.len() {
        if 0 <= start <= s.len() {
            Some(s.subrange(start, s.len() as int))
        } else {
            None
        }
    } else if !(0 <= start <= a) {
        None
    } else {
        proof {
            lemma_find_from(s, k, seq!['&']);
        }
        let piece = s.subrange(start, a);
        match reference_at(s, a) {
            Reference::Named(r, next) => prepend_text(piece + r, unescape_from(s, next, a + 1)),
            Reference::Code(c, next) => prepend_text(piece.push(c), unescape_from(s, next, a + 1)),
            Reference::Broken => None,
            Reference::Plain => prepend_text(piece, unescape_from(s, start, a + 1)),
        }
    }
}

/// The text `s` with its character references replaced, or nothing where
/// one cannot be read.
pub open spec fn unescape(s: Seq<char>) -> Option<Seq<char>> {
    unescape_from(s, 0, 0)
}

/// Calls `char::from_u32`, which gives the character whose code point is
/// `code`, and nothing for a surrogate or a value past U+10FFFF.
#[verifier::external_body]
fn char_from_code(code: u32) -> (r: Option<char>)
    ensures
        r is Some <==> scalar_value(code),
        r matches Some(c) ==> c == code as char,
{
    char::from_u32(code)
}

/// Calls `String::push`, which appends `c` to `s`.
#[verifier::external_body]
fn push_char(s: &mut String, c: char)
    ensures
        final(s)@ == old(s)@.push(c),
{
    s.push(c);
}

proof fn lemma_hex_none_extends(t: Seq<char>, k: int)
    requires
        0 <= k <= t.len(),
        hex_value(t.take(k)) is None,
    ensures
        hex_value(t) is None,
    decreases t.len(),
{
    if k < t.len() {
        assert(t.drop_last().take(k) =~= t.take(k));
        lemma_hex_none_extends(t.drop_last(), k);
    } else {
        assert(t.take(k) =~= t);
    }
}

proof fn lemma_decimal_none_extends(t: Seq<char>, k: int)
    requires
        0 <= k <= t.len(),
        decimal_digits(t.take(k)) is None,
    ensures
        decimal_digits(t) is None,
    decreases t.len(),
{
    if k < t.len() {
        assert(t.drop_last().take(k) =~= t.take(k));
        lemma_decimal_none_extends(t.drop_last(), k);
    } else {
        assert(t.take(k) =~= t);
    }
}

/// The value of the hexadecimal digits `t[lo..hi]`.
fn hex_code(t: &Vec<char>, lo: usize, hi: usize) -> (r: Option<u32>)
    requires
        lo <= hi <= t@.len(),
    ensures
        r == hex_value(t@.subrange(lo as int, hi as int)),
{
    let mut value: u32 = 0;
    let mut i = lo;
    proof {
        assert(t@.subrange(lo as int, lo as int) =~= Seq::<char>::empty());
    }
    while i < hi
        invariant
            lo <= i <= hi <= t@.len(),
            hex_value(t@.subrange(lo as int, i as int)) == Some(value),
        decreases hi - i,
    {
        proof {
            assert(t@.subrange(lo as int, i + 1).drop_last() =~= t@.subrange(lo as int, i as int));
            assert(t@.subrange(lo as int, i + 1).last() == t@[i as int]);
        }
        let c = t[i];
        let d: u32 = if '0' <= c && c <= '9' {
            c as u32 - '0' as u32
        } else if 'a' <= c && c <= 'f' {
            c as u32 - 'a' as u32 + 10
        } else if 'A' <= c && c <= 'F' {
            c as u32 - 'A' as u32 + 10
        } else {
            proof {
                assert(t@.subrange(lo as int, hi as int).take(i + 1 - lo) =~= t@.subrange(lo as int, i + 1));
                lemma_hex_none_extends(t@.subrange(lo as int, hi as int), i + 1 - lo);
            }
            return None;
        };
        let shifted = value << 4u32;
        assert(shifted == ((value as int) * 16) % 0x1_0000_0000) by (bit_vector)
            requires
                shifted == value << 4u32,
        ;
        assert(shifted <= 0xffff_fff0u32) by (bit_vector)
            requires
                shifted == value << 4u32,
        ;
        value = shifted + d;
        i = i + 1;
    }
    Some(value)
}

/// The value of the decimal digits `t[lo..hi]`.
fn decimal_code(t: &Vec<char>, lo: usize, hi: usize) -> (r: Option<u32>)
    requires
        lo <= hi <= t@.len(),
    ensures
        r == decimal_digits(t@.subrange(lo as int, hi as int)),
{
    let mut value: u32 = 0;
    let mut i = lo;
    proof {
        assert(t@.subrange(lo as int, lo as int) =~= Seq::<char>::empty());
    }
    while i < hi
        invariant
            lo <= i <= hi <= t@.len(),
            decimal_digits(t@.subrange(lo as int, i as int)) == Some(value),
        decreases hi - i,
    {
        proof {
            assert(t@.subrange(lo as int, i + 1).drop_last() =~= t@.subrange(lo as int, i as int));
            assert(t@.subrange(lo as int, i + 1).last() == t@[i as int]);
        }
        let c = t[i];
        proof {
            assert(t@.subrange(lo as int, hi as int).take(i + 1 - lo) =~= t@.subrange(lo as int, i + 1));
        }
        if !('0' <= c && c <= '9') {
            proof {
                lemma_decimal_none_extends(t@.subrange(lo as int, hi as int), i + 1 - lo);
            }
            return None;
        }
        let d = c as u32 - '0' as u32;
        if value > (u32::MAX - d) / 10 {
            assert((value as int) * 10 + d > u32::MAX) by (nonlinear_arith)
                requires
                    value > (u32::MAX - d) / 10,
                    d <= 9,
            ;
            proof {
                lemma_decimal_none_extends(t@.subrange(lo as int, hi as int), i + 1 - lo);
            }
            return None;
        }
        assert((value as int) * 10 + d <= u32::MAX) by (nonlinear_arith)
            requires
                value <= (u32::MAX - d) / 10,
                d <= 9,
        ;
        value = value * 10 + d;
        i = i + 1;
    }
    Some(value)
}

/// The value of the numeric reference body `t[lo..hi]` (between `&#` and
/// `;`).
fn reference_code(t: &Vec<char>, lo: usize, hi: usize) -> (r: Option<u32>)
    requires
        lo <= hi <= t@.len(),
    ensures
        r == ({
            let item = t@.subrange(lo as int, hi as int);
            if item.len() > 0 && (item[0] == 'x' || item[0] == 'X') {
                hex_value(item.drop_first())
            } else {
                decimal_value(item)
            }
        }),
{
    let ghost item = t@.subrange(lo as int, hi as int);
    if lo < hi && (t[lo] == 'x' || t[lo] == 'X') {
        proof {
            assert(item.drop_first() =~= t@.subrange(lo + 1, hi as int));
        }
        hex_code(t, lo + 1, hi)
    } else if lo == hi {
        None
    } else if t[lo] == '+' {
        if hi - lo == 1 {
            None
        } else {
            proof {
                assert(item.drop_first() =~= t@.subrange(lo + 1, hi as int));
            }
            decimal_code(t, lo + 1, hi)
        }
    } else {
        decimal_code(t, lo, hi)
    }
}

/// A reference read at run time.
enum ReadReference {
    Named(&'static str, usize),
    Code(char, usize),
    Broken,
    Plain,
}

/// Reads what follows the `&` at position `a`.
fn read_reference(t: &Vec<char>, a: usize) -> (r: ReadReference)
    requires
        a < t@.len(),
    ensures
        match (r, reference_at(t@, a as int)) {
            (ReadReference::Named(x, n), Reference::Named(y, m)) => x@ == y && n == m,
            (ReadReference::Code(x, n), Reference::Code(y, m)) => x == y && n == m,
            (ReadReference::Broken, Reference::Broken) => true,
            (ReadReference::Plain, Reference::Plain) => true,
            _ => false,
        },
{
    let quot: Vec<char> = vec!['q', 'u', 'o', 't', ';'];
    let amp: Vec<char> = vec!['a', 'm', 'p', ';'];
    let lt: Vec<char> = vec!['l', 't', ';'];
    let gt: Vec<char> = vec!['g', 't', ';'];
    let semi: Vec<char> = vec![';'];
    proof {
        assert(quot@ =~= seq!['q', 'u', 'o', 't', ';']);
        assert(amp@ =~= seq!['a', 'm', 'p', ';']);
        assert(lt@ =~= seq!['l', 't', ';']);
        assert(gt@ =~= seq!['g', 't', ';']);
        assert(semi@ =~= seq![';']);
        reveal_strlit("\"");
        reveal_strlit("&");
        reveal_strlit("<");
        reveal_strlit(">");
    }
    let n = t.len();
    if matches_at(t, a + 1, &quot) {
        ReadReference::Named("\"", a + 5)
    } else if matches_at(t, a + 1, &amp) {
        ReadReference::Named("&", a + 4)
    } else if matches_at(t, a + 1, &lt) {
        ReadReference::Named("<", a + 3)
    } else if matches_at(t, a + 1, &gt) {
        ReadReference::Named(">", a + 3)
    } else if a + 1 < n && t[a + 1] == '#' {
        let j = if a + 2 < n {
            find_pattern(t, a + 2, &semi)
        } else {
            n
        };
        if j >= n {
            return ReadReference::Broken;
        }
        proof {
            lemma_find_from(t@, a + 2, seq![';']);
        }
        match reference_code(t, a + 2, j) {
            Some(v) => match char_from_code(v) {
                Some(c) => ReadReference::Code(c, j + 1),
                None => ReadReference::Broken,
            },
            None => ReadReference::Broken,
        }
    } else {
        ReadReference::Plain
    }
}

proof fn lemma_prepend_text(x: Seq<char>, y: Seq<char>, o: Option<Seq<char>>)
    ensures
        prepend_text(x, prepend_text(y, o)) == prepend_text(x + y, o),
{
    if let Some(r) = o {
        assert(x + (y + r) =~= (x + y) + r);
    }
}

/// The text `on` with its character references replaced, or nothing where
/// one cannot be read.
pub(crate) fn unescape_checked(on: &str) -> (r: Option<String>)
    ensures
        match r {
            Some(v) => unescape(on@) == Some(v@),
            None => unescape(on@) is None,
        },
{
    let (chars, offsets) = chars_and_offsets(on);
    let ghost s = on@;
    let n = chars.len();
    let amp: Vec<char> = vec!['&'];
    let mut out = String::new();
    let mut start: usize = 0;
    let mut k: usize = 0;
    proof {
        assert(amp@ =~= seq!['&']);
        assert(out@ + Seq::<char>::empty() =~= out@);
        lemma_prepend_text(Seq::empty(), Seq::empty(), unescape(s));
        assert(Seq::<char>::empty() + Seq::<char>::empty() =~= Seq::<char>::empty());
        if let Some(u) = unescape(s) {
            assert(Seq::<char>::empty() + u =~= u);
        }
    }
    loop
        invariant
            s == on@,
            chars@ == s,
            n == s.len(),
            offsets@.len() == s.len() + 1,
            forall|i: int| 0 <= i <= s.len() ==> #[trigger] offsets@[i] == byte_offset(s, i),
            amp@ == seq!['&'],
            start <= n,
            k <= n,
            unescape(s) == prepend_text(out@, unescape_from(s, start as int, k as int)),
        decreases n - k,
    {
        let a = if k < n {
            find_pattern(&chars, k, &amp)
        } else {
            n
        };
        proof {
            if k < n {
                lemma_find_from(s, k as int, seq!['&']);
            }
        }
        if a >= n {
            let tail = str_slice(on, offsets[start], offsets[n], Ghost(start as int), Ghost(n as int));
            out.append(tail);
            return Some(out);
        }
        if start > a {
            return None;
        }
        let piece = str_slice(on, offsets[start], offsets[a], Ghost(start as int), Ghost(a as int));
        let ghost before = out@;
        match read_reference(&chars, a) {
            ReadReference::Named(x, next) => {
                out.append(piece);
                out.append(x);
                proof {
                    lemma_prepend_text(before, piece@ + x@, unescape_from(s, next as int, a + 1));
                    assert(before + piece@ + x@ =~= before + (piece@ + x@));
                }
                start = next;
            },
            ReadReference::Code(c, next) => {
                out.append(piece);
                push_char(&mut out, c);
                proof {
                    lemma_prepend_text(before, piece@.push(c), unescape_from(s, next as int, a + 1));
                    assert((before + piece@).push(c) =~= before + piece@.push(c));
                }
                start = next;
            },
            ReadReference::Broken => {
                return None;
            },
            ReadReference::Plain => {
                out.append(piece);
                proof {
                    lemma_prepend_text(before, piece@, unescape_from(s, start as int, a + 1));
                }
            },
        }
        k = a + 1;
    }
}

/// The text `on` with its character references replaced: `&quot;`,
/// `&amp;`, `&lt;` and `&gt;` by their characters (the `;` stays), and
/// `&#...;` by the character with that decimal or (after `x`) hexadecimal
/// code point.
#[must_use]
pub fn unescape_string_content(on: &str) -> (r: Cow<'_, str>)
    requires
        unescape(on@) is Some,
    ensures
        unescape(on@) == Some(r@),
        (forall|i: int| 0 <= i < on@.len() ==> on@[i] != '&') ==> r matches Cow::Borrowed(_),
{
    let chars = crate::lexer::str_chars(on);
    let amp: Vec<char> = vec!['&'];
    let a = if chars.len() > 0 {
        find_pattern(&chars, 0, &amp)
    } else {
        0
    };
    proof {
        assert(amp@ =~= seq!['&']);
        if chars.len() > 0 {
            lemma_find_from(on@, 0, seq!['&']);
            if a < chars.len() {
                assert(on@.subrange(a as int, a + 1)[0] == on@[a as int]);
            }
        }
    }
    if a == chars.len() {
        proof {
            assert forall|i: int| 0 <= i < on@.len() implies on@[i] != '&' by {
                if on@[i] == '&' {
                    assert(occurs_at(on@, i, seq!['&'])) by {
                        assert(on@.subrange(i, i + 1) =~= seq!['&']);
                    }
                }
            }
            unescape_without_ampersand(on@);
        }
        return Cow::Borrowed(on);
    }
    match unescape_checked(on) {
        Some(v) => Cow::Owned(v),
        None => {
            proof {
                assert(false);
            }
            Cow::Borrowed(on)
        },
    }
}

/// Elements whose content is not text to read.
pub open spec fn textless_name(t: Seq<char>) -> bool {
    t == "math"@ || t == "svg"@ || t == "title"@
}

/// The text of the subtree of `e`: the text nodes in document order with
/// their references replaced; nothing inside `math`, `svg` and `title`
/// elements. Nothing where a text node holds a reference that cannot be
/// read.
pub open spec fn text_of_element(e: HtmlElement) -> Option<Seq<char>>
    decreases e,
{
    if textless_name(e.tag_name) {
        Some(Seq::empty())
    } else {
        match e.children {
            HtmlChildren::Children(ns) => text_of_nodes(ns),
            _ => Some(Seq::empty()),
        }
    }
}

/// The text of the subtrees of the nodes `ns`, one after the other.
pub open spec fn text_of_nodes(ns: Seq<HtmlNode>) -> Option<Seq<char>>
    decreases ns,
{
    if ns.len() == 0 {
        Some(Seq::empty())
    } else {
        match text_of_nodes(ns.drop_last()) {
            Some(a) => match ns.last() {
                HtmlNode::Element(c) => prepend_text(a, text_of_element(c)),
                HtmlNode::Text(t) => prepend_text(a, unescape(t)),
                _ => Some(a),
            },
            None => None,
        }
    }
}

proof fn lemma_text_none_extends(ns: Seq<HtmlNode>, k: int)
    requires
        0 <= k <= ns.len(),
        text_of_nodes(ns.take(k)) is None,
    ensures
        text_of_nodes(ns) is None,
    decreases ns.len(),
{
    if k < ns.len() {
        assert(ns.drop_last().take(k) =~= ns.take(k));
        lemma_text_none_extends(ns.drop_last(), k);
    } else {
        assert(ns.take(k) =~= ns);
    }
}

/// Appends the text of the subtree of `element` to `buf`; false where a
/// text node holds a reference that cannot be read.
fn collect_text(element: &Element, buf: &mut String) -> (ok: bool)
    ensures
        ok == text_of_element(element_model(*element)) is Some,
        ok ==> Some(final(buf)@) == prepend_text(old(buf)@, text_of_element(element_model(*element))),
    decreases element,
{
    let ghost start = buf@;
    if str_eq(element.tag_name, "math") || str_eq(element.tag_name, "svg") || str_eq(element.tag_name, "title") {
        proof {
            assert(start + Seq::<char>::empty() =~= start);
        }
        return true;
    }
    match &element.children {
        ElementChildren::Children(children) => {
            let mut i: usize = 0;
            proof {
                assert(children@.take(0) =~= Seq::<Node>::empty());
                assert(nodes_model(children@.take(0)) =~= Seq::<HtmlNode>::empty());
                assert(start + Seq::<char>::empty() =~= start);
            }
            while i < children.len()
                invariant
                    i <= children@.len(),
                    element.children == ElementChildren::Children(*children),
                    !textless_name(element.tag_name@),
                    Some(buf@) == prepend_text(start, text_of_nodes(nodes_model(children@.take(i as int)))),
                decreases children@.len() - i,
            {
                let ghost ns = nodes_model(children@.take(i + 1));
                let ghost before = buf@;
                proof {
                    assert(children@.take(i + 1).drop_last() =~= children@.take(i as int));
                    assert(ns.drop_last() == nodes_model(children@.take(i as int)));
                    assert(ns.last() == node_model(children@[i as int]));
                }
                match &children[i] {
                    Node::Element(child) => {
                        proof {
                            assert(decreases_to!(*element => element.children));
                            assert(decreases_to!(element.children => element.children->Children_0));
                            assert(decreases_to!(*children => children@));
                            assert(decreases_to!(children@ => children@[i as int]));
                            assert(decreases_to!(children@[i as int] => **child));
                        }
                        if !collect_text(child, buf) {
                            proof {
                                assert(nodes_model(children@).take(i + 1) == ns) by {
                                    crate::html::lemma_nodes_model(children@);
                                    crate::html::lemma_nodes_model(children@.take(i + 1));
                                    assert(nodes_model(children@).take(i + 1) =~= ns);
                                }
                                crate::html::lemma_nodes_model(children@);
                                lemma_text_none_extends(nodes_model(children@), i + 1);
                            }
                            return false;
                        }
                        proof {
                            let a = text_of_nodes(ns.drop_last())->0;
                            let b = text_of_element(element_model(**child))->0;
                            assert(buf@ =~= start + a + b);
                            assert(start + a + b =~= start + (a + b));
                        }
                    },
                    Node::TextNode(content) => {
                        match unescape_checked(content) {
                            Some(text) => {
                                buf.append(text.as_str());
                                proof {
                                    let a = text_of_nodes(ns.drop_last())->0;
                                    assert(start + a + text@ =~= start + (a + text@));
                                }
                            },
                            None => {
                                proof {
                                    crate::html::lemma_nodes_model(children@);
                                    crate::html::lemma_nodes_model(children@.take(i + 1));
                                    assert(nodes_model(children@).take(i + 1) =~= ns);
                                    lemma_text_none_extends(nodes_model(children@), i + 1);
                                }
                                return false;
                            },
                        }
                    },
                    _ => {},
                }
                i = i + 1;
            }
            proof {
                assert(children@.take(children@.len() as int) =~= children@);
            }
            true
        },
        _ => {
            proof {
                assert(start + Seq::<char>::empty() =~= start);
            }
            true
        },
    }
}

/// The text of the subtree of `element`, or nothing where a text node holds
/// a reference that cannot be read.
pub(crate) fn inner_text_checked(element: &Element) -> (r: Option<String>)
    ensures
        match r {
            Some(t) => text_of_element(element_model(*element)) == Some(t@),
            None => text_of_element(element_model(*element)) is None,
        },
{
    let mut s = String::new();
    let ok = collect_text(element, &mut s);
    if ok {
        proof {
            let t = text_of_element(element_model(*element))->0;
            assert(Seq::<char>::empty() + t =~= t);
        }
        Some(s)
    } else {
        None
    }
}

/// The text of the subtree of `element`: its text nodes in document order,
/// references replaced, leaving out what is inside `math`, `svg` and
/// `title` elements.
pub fn inner_text(element: &Element) -> (r: String)
    requires
        text_of_element(element_model(*element)) is Some,
    ensures
        text_of_element(element_model(*element)) == Some(r@),
{
    match inner_text_checked(element) {
        Some(t) => t,
        None => {
            proof {
                assert(false);
            }
            String::new()
        },
    }
}

/// A text with no `&` in it comes out of `unescape_string_content`
/// unchanged.
pub proof fn unescape_without_ampersand(s: Seq<char>)
    requires
        forall|i: int| 0 <= i < s.len() ==> s[i] != '&',
    ensures
        unescape(s) == Some(s),
{
    if s.len() > 0 {
        lemma_find_from(s, 0, seq!['&']);
        let a = find_from(s, 0, seq!['&']);
        if a < s.len() {
            assert(s.subrange(a, a + 1)[0] == s[a]);
        }
    }
    assert(s.subrange(0, s.len() as int) =~= s);
}

/// The text of an element: nothing inside `math`, `svg` and `title`
/// elements; otherwise its children's texts one after the other (nothing
/// for literal or childless elements).
pub proof fn text_of_element_by_name(e: HtmlElement)
    ensures
        textless_name(e.tag_name) <==> (e.tag_name == "math"@ || e.tag_name == "svg"@ || e.tag_name
            == "title"@),
        (e.tag_name == "math"@ || e.tag_name == "svg"@ || e.tag_name == "title"@) ==> text_of_element(e)
            == Some(Seq::<char>::empty()),
        !(e.tag_name == "math"@ || e.tag_name == "svg"@ || e.tag_name == "title"@) ==> text_of_element(e)
            == match e.children {
            HtmlChildren::Children(ns) => text_of_nodes(ns),
            _ => Some(Seq::<char>::empty()),
        },
{
}

/// The text of nodes is made node by node: the text of `a + b` is that of
/// `a` followed by that of `b` (nothing if either has none); an element
/// gives its text, a text node its text with references replaced, other
/// nodes nothing.
pub proof fn text_of_nodes_node_by_node(a: Seq<HtmlNode>, b: Seq<HtmlNode>, n: HtmlNode)
    ensures
        text_of_nodes(a + b) == match (text_of_nodes(a), text_of_nodes(b)) {
            (Some(x), Some(y)) => Some(x + y),
            _ => None::<Seq<char>>,
        },
        text_of_nodes(seq![n]) == match n {
            HtmlNode::Element(c) => text_of_element(c),
            HtmlNode::Text(t) => unescape(t),
            _ => Some(Seq::<char>::empty()),
        },
    decreases b.len(),
{
    if b.len() > 0 {
        assert((a + b).drop_last() =~= a + b.drop_last());
        assert((a + b).last() == b.last());
        text_of_nodes_node_by_node(a, b.drop_last(), n);
        match (text_of_nodes(a), text_of_nodes(b.drop_last())) {
            (Some(x), Some(y)) => {
                match b.last() {
                    HtmlNode::Element(c) => {
                        if let Some(z) = text_of_element(c) {
                            assert(x + y + z =~= x + (y + z));
                        }
                    },
                    HtmlNode::Text(t) => {
                        if let Some(z) = unescape(t) {
                            assert(x + y + z =~= x + (y + z));
                        }
                    },
                    _ => {},
                }
            },
            _ => {},
        }
    } else {
        assert(a + b =~= a);
        if let Some(x) = text_of_nodes(a) {
            assert(x + Seq::<char>::empty() =~= x);
        }
    }
    let one = seq![n];
    assert(one.drop_last() =~= Seq::<HtmlNode>::empty());
    assert(text_of_nodes(one.drop_last()) == Some(Seq::<char>::empty()));
    assert(one.last() == n);
    match n {
        HtmlNode::Element(c) => {
            if let Some(z) = text_of_element(c) {
                assert(Seq::<char>::empty() + z =~= z);
            }
        },
        HtmlNode::Text(t) => {
            if let Some(z) = unescape(t) {
                assert(Seq::<char>::empty() + z =~= z);
            }
        },
        _ => {},
    }
}

proof fn lemma_next_ampersand(s: Seq<char>, p: int, q: int)
    requires
        0 <= p <= q <= s.len(),
        forall|i: int| p <= i < q ==> s[i] != '&',
        q == s.len() || s[q] == '&',
    ensures
        find_from(s, p, seq!['&']) == q,
    decreases q - p,
{
    if p < q {
        assert(!occurs_at(s, p, seq!['&'])) by {
            if occurs_at(s, p, seq!['&']) {
                assert(s.subrange(p, p + 1)[0] == s[p]);
            }
        }
        lemma_next_ampersand(s, p + 1, q);
    } else if q < s.len() {
        assert(s.subrange(q, q + 1) =~= seq!['&']);
    }
}

proof fn lemma_not_at(s: Seq<char>, k: int, pat: Seq<char>)
    requires
        0 <= k < s.len(),
        pat.len() > 0,
        s[k] != pat[0],
    ensures
        !occurs_at(s, k, pat),
{
    if occurs_at(s, k, pat) {
        assert(s.subrange(k, k + pat.len())[0] == s[k]);
    }
}

proof fn lemma_named_reference(a: Seq<char>, name: Seq<char>, r: char, b: Seq<char>)
    requires
        forall|i: int| 0 <= i < a.len() ==> a[i] != '&',
        forall|i: int| 0 <= i < b.len() ==> b[i] != '&',
        forall|i: int| 0 <= i < name.len() ==> name[i] != '&',
        name.len() > 0,
        name.last() == ';',
        reference_at(a + seq!['&'] + name + b, a.len() as int) == Reference::Named(
            seq![r],
            (a.len() + name.len()) as int,
        ),
    ensures
        unescape(a + seq!['&'] + name + b) == Some(a + seq![r, ';'] + b),
{
    let s = a + seq!['&'] + name + b;
    let n = a.len() as int;
    let next = n + name.len();
    assert forall|i: int| 0 <= i < n implies s[i] != '&' by {
        assert(s[i] == a[i]);
    }
    assert(s[n] == '&');
    lemma_next_ampersand(s, 0, n);
    assert forall|i: int| n + 1 <= i < s.len() implies s[i] != '&' by {
        if i < n + 1 + name.len() {
            assert(s[i] == name[i - n - 1]);
        } else {
            assert(s[i] == b[i - n - 1 - name.len()]);
        }
    }
    lemma_next_ampersand(s, n + 1, s.len() as int);
    assert(s.subrange(0, n) =~= a);
    assert(s[next] == name[name.len() - 1]);
    assert(s.subrange(next, s.len() as int) =~= seq![';'] + b);
    let tail = unescape_from(s, next, n + 1);
    assert(tail == Some(seq![';'] + b));
    assert(unescape_from(s, 0, 0) == prepend_text(s.subrange(0, n) + seq![r], tail));
    assert(a + seq![r] + (seq![';'] + b) =~= a + seq![r, ';'] + b);
}

/// Named references are replaced and their `;` kept: in text whose only
/// `&` is that of the reference, `&quot;`, `&amp;`, `&lt;` and `&gt;` become
/// `";`, `&;`, `<;` and `>;`, and the rest of the text is unchanged.
pub proof fn named_references(a: Seq<char>, b: Seq<char>)
    requires
        forall|i: int| 0 <= i < a.len() ==> a[i] != '&',
        forall|i: int| 0 <= i < b.len() ==> b[i] != '&',
    ensures
        unescape(a + seq!['&', 'q', 'u', 'o', 't', ';'] + b) == Some(a + seq!['"', ';'] + b),
        unescape(a + seq!['&', 'a', 'm', 'p', ';'] + b) == Some(a + seq!['&', ';'] + b),
        unescape(a + seq!['&', 'l', 't', ';'] + b) == Some(a + seq!['<', ';'] + b),
        unescape(a + seq!['&', 'g', 't', ';'] + b) == Some(a + seq!['>', ';'] + b),
{
    named_reference_quot(a, b);
    named_reference_amp(a, b);
    named_reference_lt(a, b);
    named_reference_gt(a, b);
}

proof fn named_reference_quot(a: Seq<char>, b: Seq<char>)
    requires
        forall|i: int| 0 <= i < a.len() ==> a[i] != '&',
        forall|i: int| 0 <= i < b.len() ==> b[i] != '&',
    ensures
        unescape(a + seq!['&', 'q', 'u', 'o', 't', ';'] + b) == Some(a + seq!['"', ';'] + b),
{
    let q = seq!['q', 'u', 'o', 't', ';'];
    let n = a.len() as int;
    let s = a + seq!['&'] + q + b;
    assert(s.subrange(n + 1, n + 6) =~= q);
    lemma_named_reference(a, q, '"', b);
    assert(a + seq!['&'] + q + b =~= a + seq!['&', 'q', 'u', 'o', 't', ';'] + b);
}

proof fn named_reference_amp(a: Seq<char>, b: Seq<char>)
    requires
        forall|i: int| 0 <= i < a.len() ==> a[i] != '&',
        forall|i: int| 0 <= i < b.len() ==> b[i] != '&',
    ensures
        unescape(a + seq!['&', 'a', 'm', 'p', ';'] + b) == Some(a + seq!['&', ';'] + b),
{
    let m = seq!['a', 'm', 'p', ';'];
    let n = a.len() as int;
    let s = a + seq!['&'] + m + b;
    assert(s[n + 1] == 'a');
    lemma_not_at(s, n + 1, seq!['q', 'u', 'o', 't', ';']);
    assert(s.subrange(n + 1, n + 5) =~= m);
    lemma_named_reference(a, m, '&', b);
    assert(a + seq!['&'] + m + b =~= a + seq!['&', 'a', 'm', 'p', ';'] + b);
}

proof fn named_reference_lt(a: Seq<char>, b: Seq<char>)
    requires
        forall|i: int| 0 <= i < a.len() ==> a[i] != '&',
        forall|i: int| 0 <= i < b.len() ==> b[i] != '&',
    ensures
        unescape(a + seq!['&', 'l', 't', ';'] + b) == Some(a + seq!['<', ';'] + b),
{
    let l = seq!['l', 't', ';'];
    let n = a.len() as int;
    let s = a + seq!['&'] + l + b;
    assert(s[n + 1] == 'l');
    lemma_not_at(s, n + 1, seq!['q', 'u', 'o', 't', ';']);
    lemma_not_at(s, n + 1, seq!['a', 'm', 'p', ';']);
    assert(s.subrange(n + 1, n + 4) =~= l);
    lemma_named_reference(a, l, '<', b);
    assert(a + seq!['&'] + l + b =~= a + seq!['&', 'l', 't', ';'] + b);
}

proof fn named_reference_gt(a: Seq<char>, b: Seq<char>)
    requires
        forall|i: int| 0 <= i < a.len() ==> a[i] != '&',
        forall|i: int| 0 <= i < b.len() ==> b[i] != '&',
    ensures
        unescape(a + seq!['&', 'g', 't', ';'] + b) == Some(a + seq!['>', ';'] + b),
{
    let g = seq!['g', 't', ';'];
    let n = a.len() as int;
    let s = a + seq!['&'] + g + b;
    assert(s[n + 1] == 'g');
    lemma_not_at(s, n + 1, seq!['q', 'u', 'o', 't', ';']);
    lemma_not_at(s, n + 1, seq!['a', 'm', 'p', ';']);
    lemma_not_at(s, n + 1, seq!['l', 't', ';']);
    assert(s.subrange(n + 1, n + 4) =~= g);
    lemma_named_reference(a, g, '>', b);
    assert(a + seq!['&'] + g + b =~= a + seq!['&', 'g', 't', ';'] + b);
}

/// A numeric reference `&#` ... `;` is replaced by the character with that
/// code point, its `;` included, and the rest of the text is unchanged.
pub proof fn numeric_references(a: Seq<char>, d: Seq<char>, b: Seq<char>)
    requires
        forall|i: int| 0 <= i < a.len() ==> a[i] != '&',
        forall|i: int| 0 <= i < b.len() ==> b[i] != '&',
        forall|i: int| 0 <= i < d.len() ==> d[i] != ';' && d[i] != '&',
        (if d.len() > 0 && (d[0] == 'x' || d[0] == 'X') {
            hex_value(d.drop_first())
        } else {
            decimal_value(d)
        }) matches Some(v) && scalar_value(v),
    ensures
        ({
            let v = (if d.len() > 0 && (d[0] == 'x' || d[0] == 'X') {
                hex_value(d.drop_first())
            } else {
                decimal_value(d)
            })->0;
            unescape(a + seq!['&', '#'] + d + seq![';'] + b) == Some(a + seq![v as char] + b)
        }),
{
    let s = a + seq!['&', '#'] + d + seq![';'] + b;
    let n = a.len() as int;
    let j = n + 2 + d.len();
    assert forall|i: int| 0 <= i < n implies s[i] != '&' by {
        assert(s[i] == a[i]);
    }
    assert(s[n] == '&');
    assert(s[n + 1] == '#');
    lemma_next_ampersand(s, 0, n);
    lemma_not_at(s, n + 1, seq!['q', 'u', 'o', 't', ';']);
    lemma_not_at(s, n + 1, seq!['a', 'm', 'p', ';']);
    lemma_not_at(s, n + 1, seq!['l', 't', ';']);
    lemma_not_at(s, n + 1, seq!['g', 't', ';']);
    assert(s[j] == ';');
    assert forall|i: int| n + 2 <= i < j implies s[i] != ';' by {
        assert(s[i] == d[i - n - 2]);
    }
    lemma_next_semicolon(s, n + 2, j);
    assert(s.subrange(n + 2, j) =~= d);
    assert forall|i: int| n + 1 <= i < s.len() implies s[i] != '&' by {
        if i == n + 1 {
        } else if i < j {
            assert(s[i] == d[i - n - 2]);
        } else if i > j {
            assert(s[i] == b[i - j - 1]);
        }
    }
    lemma_next_ampersand(s, n + 1, s.len() as int);
    assert(s.subrange(0, n) =~= a);
    assert(s.subrange(j + 1, s.len() as int) =~= b);
    let v = (if d.len() > 0 && (d[0] == 'x' || d[0] == 'X') {
        hex_value(d.drop_first())
    } else {
        decimal_value(d)
    })->0;
    assert(reference_at(s, n) == Reference::Code(v as char, j + 1));
    let tail = unescape_from(s, j + 1, n + 1);
    assert(tail == Some(b));
    assert(unescape_from(s, 0, 0) == prepend_text(s.subrange(0, n).push(v as char), tail));
    assert(a.push(v as char) + b =~= a + seq![v as char] + b);
}

proof fn lemma_next_semicolon(s: Seq<char>, p: int, q: int)
    requires
        0 <= p <= q < s.len(),
        forall|i: int| p <= i < q ==> s[i] != ';',
        s[q] == ';',
    ensures
        find_from(s, p, seq![';']) == q,
    decreases q - p,
{
    if p < q {
        lemma_not_at(s, p, seq![';']);
        lemma_next_semicolon(s, p + 1, q);
    } else {
        assert(s.subrange(q, q + 1) =~= seq![';']);
    }
}

} // verus!
