//! A cursor over the characters of an HTML source text.
//!
//! The lexer is modelled by its text (a sequence of characters) and a
//! character position in it. Every operation is specified by a spec function
//! of the text and the position that gives its result and the new position;
//! positions handed back to callers (`consumed`, error offsets) are byte
//! offsets, as in UTF-8.
use vstd::prelude::*;
use crate::text::{
    byte_offset, find_from, find_pattern, is_ascii_whitespace, lemma_byte_offset_injective,
    lemma_byte_offset_mono, lemma_byte_offset_step, lemma_find_from, lemma_run_end, lemma_utf8_len_bounds, matches_at,
    occurs_at, run_end, scan_run, str_eq, str_slice, utf8_len, utf8_width, ascii_whitespace, CharClass,
};

verus! {

broadcast use vstd::string::group_string_axioms;


/// A string result of a lexer operation, by the characters of the string.
pub open spec fn str_result(r: Result<&str, u32>) -> Result<Seq<char>, u32> {
    match r {
        Ok(v) => Ok(v@),
        Err(e) => Err(e),
    }
}

pub open spec fn opt_str(r: Option<&str>) -> Option<Seq<char>> {
    match r {
        Some(v) => Some(v@),
        None => None,
    }
}

/// The byte offset of position `p`, as the error value of a failed operation.
pub open spec fn at(s: Seq<char>, p: int) -> u32 {
    byte_offset(s, p) as u32
}

/// Where `skip` leaves the head: after the white space at `p`, unless that
/// white space runs to the end of the text, in which case the head stays.
pub open spec fn skip_pos(s: Seq<char>, p: int) -> int {
    let e = run_end(s, p, CharClass::Whitespace);
    if e < s.len() {
        e
    } else {
        p
    }
}

/// `is_operator_advance`: after skipping white space, whether `op` follows,
/// and the position after it if so.
pub open spec fn operator_step(s: Seq<char>, p: int, op: Seq<char>) -> (bool, int) {
    let q = skip_pos(s, p);
    if occurs_at(s, q, op) {
        (true, q + op.len())
    } else {
        (false, q)
    }
}

pub open spec fn is_delimiter(c: char) -> bool {
    c == '"' || c == '\''
}

/// `parse_until`: the text up to the first occurrence of `pat` at or after
/// `p`; the head moves to that occurrence, or past it when `advance`.
pub open spec fn until_step(s: Seq<char>, p: int, pat: Seq<char>, advance: bool) -> (
    Result<Seq<char>, u32>,
    int,
) {
    let k = find_from(s, p, pat);
    if k < s.len() {
        (Ok(s.subrange(p, k)), if advance {
            k + pat.len()
        } else {
            k
        })
    } else {
        (Err(at(s, p)), p)
    }
}

/// `parse_until_postfix`: the text up to the first occurrence of `slice`
/// followed by `then`; the head moves past `slice`.
pub open spec fn postfix_step(s: Seq<char>, p: int, slice: Seq<char>, then: Seq<char>) -> (
    Result<Seq<char>, u32>,
    int,
) {
    let k = find_from(s, p, slice + then);
    if k < s.len() {
        (Ok(s.subrange(p, k)), k + slice.len())
    } else {
        (Err(at(s, p)), p)
    }
}

/// Number of backslashes that immediately precede position `j`, counting no
/// further back than `lo`.
pub open spec fn backslash_run(s: Seq<char>, lo: int, j: int) -> int
    decreases j - lo,
{
    if lo < j && s[j - 1] == '\\' {
        1 + backslash_run(s, lo, j - 1)
    } else {
        0
    }
}

/// Position `j` holds the delimiter opened at `p`, not escaped by a
/// backslash.
pub open spec fn closes_literal(s: Seq<char>, p: int, j: int) -> bool {
    p < j < s.len() && s[j] == s[p] && backslash_run(s, p + 1, j) % 2 == 0
}

/// The first position at or after `j` that closes the literal opened at `p`,
/// or the length of the text.
pub open spec fn literal_end(s: Seq<char>, p: int, j: int) -> int
    decreases s.len() - j,
{
    if j < 0 || j >= s.len() {
        s.len() as int
    } else if closes_literal(s, p, j) {
        j
    } else {
        literal_end(s, p, j + 1)
    }
}

/// `parse_string_literal`: a quoted string at `p`, without its quotes; the
/// head moves past the closing quote.
pub open spec fn string_literal_step(s: Seq<char>, p: int) -> (Result<Seq<char>, u32>, int) {
    if 0 <= p < s.len() && is_delimiter(s[p]) && literal_end(s, p, p + 1) < s.len() {
        (Ok(s.subrange(p + 1, literal_end(s, p, p + 1))), literal_end(s, p, p + 1) + 1)
    } else {
        (Err(at(s, p)), p)
    }
}

/// The characters that `parse_identifier` accepts for the given position
/// name.
pub open spec fn identifier_class(position: Seq<char>) -> CharClass {
    if position == "Attribute key"@ {
        CharClass::AttributeKey
    } else if position == "Attribute value"@ {
        CharClass::AttributeValue
    } else {
        CharClass::Name
    }
}

/// `parse_identifier`: a non-empty run of the class at `p` that ends before
/// the end of the text.
pub open spec fn identifier_step(s: Seq<char>, p: int, cls: CharClass) -> (
    Result<Seq<char>, u32>,
    int,
) {
    let e = run_end(s, p, cls);
    if p < e && e < s.len() {
        (Ok(s.subrange(p, e)), e)
    } else {
        (Err(at(s, p)), p)
    }
}

/// The name of the tag that starts after the white space at `p` with
/// `prefix` and ends at a `>` or a space.
pub open spec fn tag_ahead(s: Seq<char>, p: int, prefix: Seq<char>) -> Option<Seq<char>> {
    let t = run_end(s, p, CharClass::Whitespace);
    let e = run_end(s, t + prefix.len(), CharClass::TagName);
    if occurs_at(s, t, prefix) && e < s.len() {
        Some(s.subrange(t + prefix.len(), e))
    } else {
        None
    }
}

/// `parse_whitespace`: the white space at `p`, when some follows and it does
/// not run to the end of the text.
pub open spec fn whitespace_step(s: Seq<char>, p: int) -> (Option<Seq<char>>, int) {
    let e = run_end(s, p, CharClass::Whitespace);
    if e < s.len() {
        (if e == p {
            None
        } else {
            Some(s.subrange(p, e))
        }, e)
    } else {
        (None, p)
    }
}

/// `expect`: after skipping white space, whether `c` follows.
pub open spec fn expect_step(s: Seq<char>, p: int, c: char) -> (Result<(), u32>, int) {
    let q = skip_pos(s, p);
    if q < s.len() && s[q] == c {
        (Ok(()), q + 1)
    } else {
        (Err(at(s, q)), q)
    }
}

/// The two characters are equal once ASCII upper case is mapped to lower
/// case.
pub open spec fn ascii_case_eq(a: char, b: char) -> bool {
    ||| a == b
    ||| 'A' <= a <= 'Z' && (a as u32) + 32 == b as u32
    ||| 'A' <= b <= 'Z' && (b as u32) + 32 == a as u32
}

/// `expected` follows at `p`, ignoring ASCII case.
pub open spec fn case_insensitive_at(s: Seq<char>, p: int, expected: Seq<char>) -> bool {
    &&& 0 <= p
    &&& p + expected.len() <= s.len()
    &&& forall|i: int| 0 <= i < expected.len() ==> ascii_case_eq(s[p + i], #[trigger] expected[i])
}

/// Byte offset `b` is the start of a character of `s`, or its end.
pub open spec fn is_boundary(s: Seq<char>, b: int) -> bool {
    exists|q: int| 0 <= q <= s.len() && byte_offset(s, q) == b
}

/// The character position whose byte offset is `b`.
pub open spec fn position_of_byte(s: Seq<char>, b: int) -> int {
    choose|q: int| 0 <= q <= s.len() && byte_offset(s, q) == b
}

pub fn ascii_case_equal(a: char, b: char) -> (r: bool)
    ensures
        r == ascii_case_eq(a, b),
{
    let x = a as u32;
    let y = b as u32;
    x == y || ('A' <= a && a <= 'Z' && x + 32 == y) || ('A' <= b && b <= 'Z' && y + 32 == x)
}


pub proof fn lemma_skip_pos(s: Seq<char>, p: int)
    requires
        0 <= p <= s.len(),
    ensures
        p <= skip_pos(s, p) <= s.len(),
{
    lemma_run_end(s, p, CharClass::Whitespace);
}

pub proof fn lemma_operator_step(s: Seq<char>, p: int, op: Seq<char>)
    requires
        0 <= p <= s.len(),
    ensures
        p <= operator_step(s, p, op).1 <= s.len(),
        operator_step(s, p, op).0 ==> operator_step(s, p, op).1 == skip_pos(s, p) + op.len(),
{
    lemma_skip_pos(s, p);
}

pub proof fn lemma_expect_step(s: Seq<char>, p: int, c: char)
    requires
        0 <= p <= s.len(),
    ensures
        p <= expect_step(s, p, c).1 <= s.len(),
        expect_step(s, p, c).0 is Ok ==> p < expect_step(s, p, c).1,
{
    lemma_skip_pos(s, p);
}

pub proof fn lemma_identifier_step(s: Seq<char>, p: int, cls: CharClass)
    requires
        0 <= p <= s.len(),
    ensures
        p <= identifier_step(s, p, cls).1 <= s.len(),
        identifier_step(s, p, cls).0 is Ok ==> p < identifier_step(s, p, cls).1 < s.len(),
{
    lemma_run_end(s, p, cls);
}

pub proof fn lemma_until_step(s: Seq<char>, p: int, pat: Seq<char>, advance: bool)
    requires
        0 <= p <= s.len(),
    ensures
        p <= until_step(s, p, pat, advance).1 <= s.len(),
        until_step(s, p, pat, advance).0 is Ok && advance && pat.len() > 0 ==> p < until_step(s, p, pat, advance).1,
{
    lemma_find_from(s, p, pat);
}

pub proof fn lemma_postfix_step(s: Seq<char>, p: int, slice: Seq<char>, then: Seq<char>)
    requires
        0 <= p <= s.len(),
    ensures
        p <= postfix_step(s, p, slice, then).1 <= s.len(),
{
    lemma_find_from(s, p, slice + then);
}

pub proof fn lemma_literal_end(s: Seq<char>, p: int, j: int)
    requires
        0 <= j <= s.len(),
    ensures
        j <= literal_end(s, p, j) <= s.len(),
    decreases s.len() - j,
{
    if j < s.len() && !closes_literal(s, p, j) {
        lemma_literal_end(s, p, j + 1);
    }
}

pub proof fn lemma_string_literal_step(s: Seq<char>, p: int)
    requires
        0 <= p <= s.len(),
    ensures
        p <= string_literal_step(s, p).1 <= s.len(),
        string_literal_step(s, p).0 is Ok ==> p < string_literal_step(s, p).1,
{
    if p < s.len() {
        lemma_literal_end(s, p, p + 1);
    }
}

pub proof fn lemma_whitespace_step(s: Seq<char>, p: int)
    requires
        0 <= p <= s.len(),
    ensures
        p <= whitespace_step(s, p).1 <= s.len(),
{
    lemma_run_end(s, p, CharClass::Whitespace);
}

/// No lexer operation moves the position back, nor past the end of the
/// text; reading an expected character, an identifier or a string literal
/// moves it forward.
pub proof fn lexer_moves_forward(
    s: Seq<char>,
    p: int,
    op: Seq<char>,
    c: char,
    cls: CharClass,
    pat: Seq<char>,
    then: Seq<char>,
    advance: bool,
)
    requires
        0 <= p <= s.len(),
    ensures
        p <= skip_pos(s, p) <= s.len(),
        p <= whitespace_step(s, p).1 <= s.len(),
        p <= operator_step(s, p, op).1 <= s.len(),
        p <= expect_step(s, p, c).1 <= s.len(),
        expect_step(s, p, c).0 is Ok ==> p < expect_step(s, p, c).1,
        p <= identifier_step(s, p, cls).1 <= s.len(),
        identifier_step(s, p, cls).0 is Ok ==> p < identifier_step(s, p, cls).1,
        p <= until_step(s, p, pat, advance).1 <= s.len(),
        p <= postfix_step(s, p, pat, then).1 <= s.len(),
        p <= string_literal_step(s, p).1 <= s.len(),
        string_literal_step(s, p).0 is Ok ==> p < string_literal_step(s, p).1,
{
    lemma_skip_pos(s, p);
    lemma_whitespace_step(s, p);
    lemma_operator_step(s, p, op);
    lemma_expect_step(s, p, c);
    lemma_identifier_step(s, p, cls);
    lemma_until_step(s, p, pat, advance);
    lemma_postfix_step(s, p, pat, then);
    lemma_string_literal_step(s, p);
}

/// The position names the parser passes to `parse_identifier`.
pub proof fn lemma_identifier_classes()
    ensures
        identifier_class("Element name"@) == CharClass::Name,
        identifier_class("Closing tag"@) == CharClass::Name,
        identifier_class("Attribute key"@) == CharClass::AttributeKey,
        identifier_class("Attribute value"@) == CharClass::AttributeValue,
{
    reveal_strlit("Element name");
    reveal_strlit("Closing tag");
    reveal_strlit("Attribute key");
    reveal_strlit("Attribute value");
    assert("Element name"@[0] != "Attribute key"@[0]);
    assert("Element name"@[0] != "Attribute value"@[0]);
    assert("Closing tag"@[0] != "Attribute key"@[0]);
    assert("Closing tag"@[0] != "Attribute value"@[0]);
    assert("Attribute key"@.len() != "Attribute value"@.len());
}

/// The characters of `s`, in order.
pub fn str_chars(s: &str) -> (r: Vec<char>)
    ensures
        r@ == s@,
{
    let mut out: Vec<char> = Vec::new();
    for c in it: s.chars()
        invariant
            it.seq() == s@,
            out@ == it.seq().take(it.index()),
    {
        out.push(c);
    }
    out
}

pub struct Lexer<'a> {
    on: &'a str,
    chars: Vec<char>,
    index: usize,
    bytes: u32,
}

impl<'a> Lexer<'a> {
    /// The text being lexed.
    pub closed spec fn text(&self) -> Seq<char> {
        self.chars@
    }

    /// The character position of the head.
    pub closed spec fn pos(&self) -> int {
        self.index as int
    }

    pub closed spec fn wf(&self) -> bool {
        &&& self.chars@ == self.on@
        &&& self.index <= self.chars@.len()
        &&& self.bytes == byte_offset(self.chars@, self.index as int)
        &&& utf8_len(self.chars@) <= u32::MAX
        &&& self.chars@.len() <= u32::MAX
    }

    pub proof fn lemma_wf(&self)
        requires
            self.wf(),
        ensures
            0 <= self.pos() <= self.text().len(),
            utf8_len(self.text()) <= u32::MAX,
            self.text().len() <= u32::MAX,
    {
    }

    pub fn new(on: &'a str) -> (r: Self)
        requires
            utf8_len(on@) <= u32::MAX,
        ensures
            r.wf(),
            r.text() == on@,
            r.pos() == 0,
    {
        let chars = str_chars(on);
        proof {
            lemma_utf8_len_bounds(on@);
            assert(chars@.take(0) =~= Seq::<char>::empty());
        }
        Lexer { on, chars, index: 0, bytes: 0 }
    }

    /// Byte offset of the head.
    pub fn consumed(&self) -> (r: u32)
        requires
            self.wf(),
        ensures
            r == byte_offset(self.text(), self.pos()),
    {
        self.bytes
    }

    pub fn is_finished(&self) -> (r: bool)
        requires
            self.wf(),
        ensures
            r == (self.pos() == self.text().len()),
    {
        self.index == self.chars.len()
    }

    /// Byte offset of the character position `q`, at or after the head.
    fn offset_of(&self, q: usize) -> (r: u32)
        requires
            self.wf(),
            self.pos() <= q <= self.text().len(),
        ensures
            r == byte_offset(self.text(), q as int),
    {
        let mut i = self.index;
        let mut b = self.bytes;
        while i < q
            invariant
                self.wf(),
                self.pos() <= i <= q <= self.text().len(),
                b == byte_offset(self.text(), i as int),
            decreases q - i,
        {
            proof {
                lemma_byte_offset_step(self.text(), i as int);
                lemma_byte_offset_mono(self.text(), i + 1, self.text().len() as int);
            }
            b = b + utf8_width(self.chars[i]);
            i = i + 1;
        }
        b
    }

    /// Moves the head to the character position `q`, at or after the head.
    fn move_to(&mut self, q: usize)
        requires
            old(self).wf(),
            old(self).pos() <= q <= old(self).text().len(),
        ensures
            final(self).wf(),
            final(self).text() == old(self).text(),
            final(self).pos() == q,
    {
        let b = self.offset_of(q);
        self.index = q;
        self.bytes = b;
    }

    /// The text between two character positions at or after the head.
    fn slice(&self, p: usize, q: usize) -> (r: &'a str)
        requires
            self.wf(),
            self.pos() <= p <= q <= self.text().len(),
        ensures
            r@ == self.text().subrange(p as int, q as int),
    {
        let bp = self.offset_of(p);
        let bq = self.offset_of(q);
        str_slice(self.on, bp as usize, bq as usize, Ghost(p as int), Ghost(q as int))
    }

    /// The rest of the text, from the head.
    pub fn current(&self) -> (r: &'a str)
        requires
            self.wf(),
        ensures
            r@ == self.text().skip(self.pos()),
    {
        self.slice(self.index, self.chars.len())
    }
    /// The character position whose byte offset is `target`, at or after the
    /// head.
    fn position_at_byte(&self, target: u32) -> (r: usize)
        requires
            self.wf(),
            byte_offset(self.text(), self.pos()) <= target,
            is_boundary(self.text(), target as int),
        ensures
            r == position_of_byte(self.text(), target as int),
            self.pos() <= r <= self.text().len(),
    {
        let ghost s = self.text();
        let ghost q = position_of_byte(s, target as int);
        let mut i = self.index;
        let mut b = self.bytes;
        proof {
            if q < i {
                lemma_byte_offset_mono(s, q, i as int);
            }
        }
        while b < target
            invariant
                self.wf(),
                s == self.text(),
                0 <= q <= s.len(),
                byte_offset(s, q) == target,
                self.pos() <= i <= q,
                b == byte_offset(s, i as int),
                b <= target,
            decreases target - b,
        {
            proof {
                if i == q {
                    assert(false);
                }
                lemma_byte_offset_step(s, i as int);
                lemma_byte_offset_mono(s, i + 1, q);
            }
            b = b + utf8_width(self.chars[i]);
            i = i + 1;
        }
        proof {
            lemma_byte_offset_injective(s, i as int, q);
        }
        i
    }

    /// Moves the head forward by `distance` bytes.
    pub fn advance(&mut self, distance: u32)
        requires
            old(self).wf(),
            is_boundary(old(self).text(), byte_offset(old(self).text(), old(self).pos()) + distance),
        ensures
            final(self).wf(),
            final(self).text() == old(self).text(),
            final(self).pos() == position_of_byte(
                old(self).text(),
                byte_offset(old(self).text(), old(self).pos()) + distance,
            ),
    {
        let ghost s = self.text();
        proof {
            let q = choose|q: int| 0 <= q <= s.len() && #[trigger] byte_offset(s, q) == byte_offset(s, self.pos()) + distance;
            lemma_byte_offset_mono(s, q, s.len() as int);
        }
        let target = self.bytes + distance;
        let q = self.position_at_byte(target);
        self.move_to(q);
    }

    /// The text from `offset` bytes after the head.
    pub fn current_with_offset(&self, offset: u32) -> (r: &'a str)
        requires
            self.wf(),
            is_boundary(self.text(), byte_offset(self.text(), self.pos()) + offset),
        ensures
            r@ == self.text().skip(
                position_of_byte(self.text(), byte_offset(self.text(), self.pos()) + offset),
            ),
    {
        let ghost s = self.text();
        proof {
            let q = choose|q: int| 0 <= q <= s.len() && #[trigger] byte_offset(s, q) == byte_offset(s, self.pos()) + offset;
            lemma_byte_offset_mono(s, q, s.len() as int);
        }
        let target = self.bytes + offset;
        let q = self.position_at_byte(target);
        self.slice(q, self.chars.len())
    }

    pub fn skip(&mut self)
        requires
            old(self).wf(),
        ensures
            final(self).wf(),
            final(self).text() == old(self).text(),
            final(self).pos() == skip_pos(old(self).text(), old(self).pos()),
    {
        let e = scan_run(&self.chars, self.index, CharClass::Whitespace);
        proof {
            lemma_run_end(self.text(), self.pos(), CharClass::Whitespace);
        }
        if e < self.chars.len() {
            self.move_to(e);
        }
    }

    pub fn is_operator_advance(&mut self, operator: &str) -> (r: bool)
        requires
            old(self).wf(),
        ensures
            final(self).wf(),
            final(self).text() == old(self).text(),
            (r, final(self).pos()) == operator_step(old(self).text(), old(self).pos(), operator@),
    {
        self.skip();
        let op = str_chars(operator);
        if matches_at(&self.chars, self.index, &op) {
            let q = self.index + op.len();
            self.move_to(q);
            true
        } else {
            false
        }
    }

    pub fn starts_with_string_delimeter(&mut self) -> (r: bool)
        requires
            old(self).wf(),
        ensures
            final(self).wf(),
            final(self).text() == old(self).text(),
            final(self).pos() == skip_pos(old(self).text(), old(self).pos()),
            r == (final(self).pos() < final(self).text().len() && is_delimiter(
                final(self).text()[final(self).pos()],
            )),
    {
        self.skip();
        self.index < self.chars.len() && (self.chars[self.index] == '"' || self.chars[self.index]
            == '\'')
    }

    pub fn starts_with_no_advance(&mut self, slice: &str) -> (r: bool)
        requires
            old(self).wf(),
        ensures
            *final(self) == *old(self),
            r == occurs_at(old(self).text(), old(self).pos(), slice@),
    {
        let pat = str_chars(slice);
        matches_at(&self.chars, self.index, &pat)
    }

    /// # Errors
    ///
    /// Returns the byte offset of the head when `slice` does not occur in the
    /// rest of the text.
    pub fn parse_until(&mut self, slice: &str, advance: bool) -> (r: Result<&'a str, u32>)
        requires
            old(self).wf(),
        ensures
            final(self).wf(),
            final(self).text() == old(self).text(),
            (str_result(r), final(self).pos()) == until_step(
                old(self).text(),
                old(self).pos(),
                slice@,
                advance,
            ),
    {
        let pat = str_chars(slice);
        let p = self.index;
        let k = find_pattern(&self.chars, p, &pat);
        proof {
            lemma_find_from(self.text(), p as int, pat@);
        }
        if k < self.chars.len() {
            let out = self.slice(p, k);
            let q = if advance {
                k + pat.len()
            } else {
                k
            };
            self.move_to(q);
            Ok(out)
        } else {
            Err(self.bytes)
        }
    }

    /// # Errors
    ///
    /// Returns the byte offset of the head when `slice` followed by `then`
    /// does not occur in the rest of the text.
    pub fn parse_until_postfix(&mut self, slice: &str, then: &str) -> (r: Result<&'a str, u32>)
        requires
            old(self).wf(),
        ensures
            final(self).wf(),
            final(self).text() == old(self).text(),
            (str_result(r), final(self).pos()) == postfix_step(
                old(self).text(),
                old(self).pos(),
                slice@,
                then@,
            ),
    {
        let mut pat = str_chars(slice);
        let n = pat.len();
        let mut rest = str_chars(then);
        pat.append(&mut rest);
        let p = self.index;
        let k = find_pattern(&self.chars, p, &pat);
        proof {
            lemma_find_from(self.text(), p as int, pat@);
        }
        if k < self.chars.len() {
            let out = self.slice(p, k);
            self.move_to(k + n);
            Ok(out)
        } else {
            Err(self.bytes)
        }
    }

    /// # Errors
    ///
    /// Returns the byte offset of the head when no quoted string starts there
    /// or it is not closed.
    pub fn parse_string_literal(&mut self) -> (r: Result<&'a str, u32>)
        requires
            old(self).wf(),
        ensures
            final(self).wf(),
            final(self).text() == old(self).text(),
            (str_result(r), final(self).pos()) == string_literal_step(
                old(self).text(),
                old(self).pos(),
            ),
    {
        let ghost s = self.text();
        let p = self.index;
        if p >= self.chars.len() || !(self.chars[p] == '"' || self.chars[p] == '\'') {
            return Err(self.bytes);
        }
        let delimiter = self.chars[p];
        let mut j = p + 1;
        let mut escaped = false;
        while j < self.chars.len()
            invariant
                self.wf(),
                *self == *old(self),
                s == self.text(),
                self.pos() == p,
                p < s.len(),
                s[p as int] == delimiter,
                is_delimiter(delimiter),
                p + 1 <= j <= s.len(),
                literal_end(s, p as int, j as int) == literal_end(s, p as int, p + 1),
                escaped == (backslash_run(s, p + 1, j as int) % 2 == 1),
            decreases s.len() - j,
        {
            let c = self.chars[j];
            if escaped {
                escaped = false;
            } else {
                if c == delimiter {
                    proof {
                        assert(closes_literal(s, p as int, j as int));
                        assert(literal_end(s, p as int, j as int) == j);
                    }
                    let out = self.slice(p + 1, j);
                    self.move_to(j + 1);
                    return Ok(out);
                }
                escaped = c == '\\';
            }
            j = j + 1;
        }
        Err(self.bytes)
    }

    /// # Errors
    ///
    /// Returns the byte offset of the head when no identifier starts there or
    /// it runs to the end of the text.
    pub fn parse_identifier(&mut self, position: &str) -> (r: Result<&'a str, u32>)
        requires
            old(self).wf(),
        ensures
            final(self).wf(),
            final(self).text() == old(self).text(),
            (str_result(r), final(self).pos()) == identifier_step(
                old(self).text(),
                old(self).pos(),
                identifier_class(position@),
            ),
    {
        let cls = if str_eq(position, "Attribute key") {
            CharClass::AttributeKey
        } else if str_eq(position, "Attribute value") {
            CharClass::AttributeValue
        } else {
            CharClass::Name
        };
        let p = self.index;
        let e = scan_run(&self.chars, p, cls);
        proof {
            lemma_run_end(self.text(), p as int, cls);
        }
        if p < e && e < self.chars.len() {
            let out = self.slice(p, e);
            self.move_to(e);
            Ok(out)
        } else {
            Err(self.bytes)
        }
    }

    pub fn parse_opening_tag_no_advance(&self) -> (r: Option<&'a str>)
        requires
            self.wf(),
        ensures
            opt_str(r) == tag_ahead(self.text(), self.pos(), seq!['<']),
    {
        let ghost s = self.text();
        let t = scan_run(&self.chars, self.index, CharClass::Whitespace);
        proof {
            lemma_run_end(s, self.pos(), CharClass::Whitespace);
        }
        if t < self.chars.len() && self.chars[t] == '<' {
            let e = scan_run(&self.chars, t + 1, CharClass::TagName);
            proof {
                lemma_run_end(s, t + 1, CharClass::TagName);
                assert(s.subrange(t as int, t + 1) =~= seq!['<']);
            }
            if e < self.chars.len() {
                Some(self.slice(t + 1, e))
            } else {
                None
            }
        } else {
            proof {
                if t < s.len() {
                    assert(s.subrange(t as int, t + 1)[0] == s[t as int]);
                }
            }
            None
        }
    }

    pub fn parse_closing_tag_no_advance(&self) -> (r: Option<&'a str>)
        requires
            self.wf(),
        ensures
            opt_str(r) == tag_ahead(self.text(), self.pos(), seq!['<', '/']),
    {
        let ghost s = self.text();
        let t = scan_run(&self.chars, self.index, CharClass::Whitespace);
        proof {
            lemma_run_end(s, self.pos(), CharClass::Whitespace);
        }
        if t < self.chars.len() && self.chars[t] == '<' && t + 1 < self.chars.len() && self.chars[t
            + 1] == '/' {
            let e = scan_run(&self.chars, t + 2, CharClass::TagName);
            proof {
                lemma_run_end(s, t + 2, CharClass::TagName);
                assert(s.subrange(t as int, t + 2) =~= seq!['<', '/']);
            }
            if e < self.chars.len() {
                Some(self.slice(t + 2, e))
            } else {
                None
            }
        } else {
            proof {
                if t + 1 < s.len() {
                    assert(s.subrange(t as int, t + 2)[0] == s[t as int]);
                    assert(s.subrange(t as int, t + 2)[1] == s[t + 1]);
                }
            }
            None
        }
    }

    pub fn parse_whitespace(&mut self) -> (r: Option<&'a str>)
        requires
            old(self).wf(),
        ensures
            final(self).wf(),
            final(self).text() == old(self).text(),
            (opt_str(r), final(self).pos()) == whitespace_step(old(self).text(), old(self).pos()),
    {
        let p = self.index;
        let e = scan_run(&self.chars, p, CharClass::Whitespace);
        proof {
            lemma_run_end(self.text(), p as int, CharClass::Whitespace);
        }
        if e < self.chars.len() {
            let out = if e == p {
                None
            } else {
                Some(self.slice(p, e))
            };
            self.move_to(e);
            out
        } else {
            None
        }
    }

    /// # Errors
    ///
    /// Returns the byte offset of the head, after white space, when `chr`
    /// does not follow.
    pub fn expect(&mut self, chr: char) -> (r: Result<(), u32>)
        requires
            old(self).wf(),
        ensures
            final(self).wf(),
            final(self).text() == old(self).text(),
            (r, final(self).pos()) == expect_step(old(self).text(), old(self).pos(), chr),
    {
        self.skip();
        if self.index < self.chars.len() && self.chars[self.index] == chr {
            let q = self.index + 1;
            self.move_to(q);
            Ok(())
        } else {
            Err(self.bytes)
        }
    }

    pub fn parse_one_or_more_whitespace(&mut self) -> (r: bool)
        requires
            old(self).wf(),
        ensures
            final(self).wf(),
            final(self).text() == old(self).text(),
            r == (old(self).pos() < old(self).text().len() && ascii_whitespace(
                old(self).text()[old(self).pos()],
            )),
            final(self).pos() == if r {
                skip_pos(old(self).text(), old(self).pos())
            } else {
                old(self).pos()
            },
    {
        if self.index < self.chars.len() && is_ascii_whitespace(self.chars[self.index]) {
            self.skip();
            true
        } else {
            false
        }
    }

    pub fn starts_with_ascii_case_ignore(&mut self, expected: &str) -> (r: bool)
        requires
            old(self).wf(),
        ensures
            final(self).wf(),
            final(self).text() == old(self).text(),
            r == case_insensitive_at(old(self).text(), old(self).pos(), expected@),
            final(self).pos() == if r {
                old(self).pos() + expected@.len()
            } else {
                old(self).pos()
            },
    {
        let e = str_chars(expected);
        let p = self.index;
        if e.len() > self.chars.len() - p {
            return false;
        }
        let mut i: usize = 0;
        while i < e.len()
            invariant
                self.wf(),
                p == self.pos(),
                p + e@.len() <= self.text().len(),
                e@ == expected@,
                i <= e@.len(),
                forall|j: int| 0 <= j < i ==> ascii_case_eq(self.text()[p + j], #[trigger] e@[j]),
            decreases e@.len() - i,
        {
            if !ascii_case_equal(self.chars[p + i], e[i]) {
                return false;
            }
            i = i + 1;
        }
        self.move_to(p + e.len());
        true
    }
}

} // verus!
