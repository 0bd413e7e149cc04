//! Character-level helpers shared by the lexer, the selector engine and the
//! text operations: UTF-8 byte accounting, slicing a `str` by character
//! positions, string equality and the character classes the parser uses.
use vstd::prelude::*;
use vstd::utf8::*;

verus! {

broadcast use {encode_utf8_valid_utf8, encode_utf8_decode_utf8};

/// Number of bytes of the UTF-8 encoding of `s`.
pub open spec fn utf8_len(s: Seq<char>) -> int {
    encode_utf8(s).len() as int
}

/// Byte offset of the character position `p` in `s`.
pub open spec fn byte_offset(s: Seq<char>, p: int) -> int {
    utf8_len(s.take(p))
}

/// Number of bytes of the UTF-8 encoding of one character, as documented
/// for `char::len_utf8`.
pub open spec fn char_width(c: char) -> int {
    if (c as u32) < 0x80 {
        1
    } else if (c as u32) < 0x800 {
        2
    } else if (c as u32) < 0x10000 {
        3
    } else {
        4
    }
}

pub proof fn lemma_encode_scalar_len(c: char)
    ensures
        encode_scalar(c as u32).len() == char_width(c),
{
    char_is_scalar(c);
}

/// Encoding distributes over concatenation.
pub proof fn lemma_encode_concat(a: Seq<char>, b: Seq<char>)
    ensures
        encode_utf8(a + b) == encode_utf8(a) + encode_utf8(b),
    decreases a.len(),
{
    if a.len() == 0 {
        assert(a + b =~= b);
        assert(encode_utf8(a) + encode_utf8(b) =~= encode_utf8(b));
    } else {
        assert((a + b).drop_first() =~= a.drop_first() + b);
        lemma_encode_concat(a.drop_first(), b);
        assert((a + b)[0] == a[0]);
        assert(encode_utf8(a + b) =~= encode_scalar(a[0] as u32) + encode_utf8(a.drop_first() + b));
        assert(encode_utf8(a) + encode_utf8(b) =~= encode_scalar(a[0] as u32) + (encode_utf8(
            a.drop_first(),
        ) + encode_utf8(b)));
    }
}

pub proof fn lemma_utf8_len_concat(a: Seq<char>, b: Seq<char>)
    ensures
        utf8_len(a + b) == utf8_len(a) + utf8_len(b),
{
    lemma_encode_concat(a, b);
}

pub proof fn lemma_utf8_len_single(c: char)
    ensures
        utf8_len(seq![c]) == char_width(c),
{
    lemma_encode_scalar_len(c);
    assert(seq![c].drop_first() =~= Seq::<char>::empty());
    assert(encode_utf8(seq![c]) =~= encode_scalar(c as u32) + encode_utf8(Seq::<char>::empty()));
}

/// Every character takes between one and four bytes.
pub proof fn lemma_utf8_len_bounds(s: Seq<char>)
    ensures
        s.len() <= utf8_len(s) <= 4 * s.len(),
    decreases s.len(),
{
    if s.len() > 0 {
        lemma_encode_scalar_len(s[0]);
        lemma_utf8_len_bounds(s.drop_first());
    }
}

/// Moving a position forward by one character adds that character's width.
pub proof fn lemma_byte_offset_step(s: Seq<char>, p: int)
    requires
        0 <= p < s.len(),
    ensures
        byte_offset(s, p + 1) == byte_offset(s, p) + char_width(s[p]),
{
    assert(s.take(p + 1) =~= s.take(p) + seq![s[p]]);
    lemma_utf8_len_concat(s.take(p), seq![s[p]]);
    lemma_utf8_len_single(s[p]);
}

/// Byte offsets grow strictly with the character position.
pub proof fn lemma_byte_offset_mono(s: Seq<char>, p: int, q: int)
    requires
        0 <= p <= q <= s.len(),
    ensures
        byte_offset(s, p) + (q - p) <= byte_offset(s, q) <= byte_offset(s, p) + 4 * (q - p),
        byte_offset(s, q) <= utf8_len(s),
{
    assert(s.take(q) =~= s.take(p) + s.subrange(p, q));
    lemma_utf8_len_concat(s.take(p), s.subrange(p, q));
    lemma_utf8_len_bounds(s.subrange(p, q));
    assert(s =~= s.take(q) + s.skip(q));
    lemma_utf8_len_concat(s.take(q), s.skip(q));
    lemma_utf8_len_bounds(s.skip(q));
}

/// A character position maps to exactly one byte offset and back.
pub proof fn lemma_byte_offset_injective(s: Seq<char>, p: int, q: int)
    requires
        0 <= p <= s.len(),
        0 <= q <= s.len(),
        byte_offset(s, p) == byte_offset(s, q),
    ensures
        p == q,
{
    if p < q {
        lemma_byte_offset_mono(s, p, q);
    } else if q < p {
        lemma_byte_offset_mono(s, q, p);
    }
}

/// The byte offset of a character position is a character boundary of the
/// encoding.
pub proof fn lemma_byte_offset_is_boundary(s: Seq<char>, p: int)
    requires
        0 <= p <= s.len(),
    ensures
        is_char_boundary(encode_utf8(s), byte_offset(s, p)),
    decreases p,
{
    let bytes = encode_utf8(s);
    if p == 0 {
        assert(s.take(0) =~= Seq::<char>::empty());
    } else {
        encode_utf8_first_scalar(s);
        let rest = s.drop_first();
        assert(s =~= seq![s[0]] + rest);
        lemma_encode_concat(seq![s[0]], rest);
        lemma_utf8_len_single(s[0]);
        lemma_encode_scalar_len(s[0]);
        assert(encode_utf8(seq![s[0]]) =~= encode_scalar(s[0] as u32) + encode_utf8(
            Seq::<char>::empty(),
        ));
        assert(pop_first_scalar(bytes) =~= encode_utf8(rest));
        assert(s.take(p) =~= seq![s[0]] + rest.take(p - 1));
        lemma_utf8_len_concat(seq![s[0]], rest.take(p - 1));
        lemma_byte_offset_is_boundary(rest, p - 1);
        lemma_byte_offset_mono(s, 0, p);
        assert(s.take(0) =~= Seq::<char>::empty());
    }
}

/// Taking the bytes of a character range gives the encoding of that range.
pub proof fn lemma_encode_subrange(s: Seq<char>, p: int, q: int)
    requires
        0 <= p <= q <= s.len(),
    ensures
        encode_utf8(s).subrange(byte_offset(s, p), byte_offset(s, q)) == encode_utf8(
            s.subrange(p, q),
        ),
{
    assert(s =~= s.take(p) + (s.subrange(p, q) + s.skip(q)));
    lemma_encode_concat(s.take(p), s.subrange(p, q) + s.skip(q));
    lemma_encode_concat(s.subrange(p, q), s.skip(q));
    assert(s.take(q) =~= s.take(p) + s.subrange(p, q));
    lemma_utf8_len_concat(s.take(p), s.subrange(p, q));
    assert(encode_utf8(s).subrange(byte_offset(s, p), byte_offset(s, q)) =~= encode_utf8(
        s.subrange(p, q),
    ));
}

/// Characters one byte wide, one after another, take one byte each.
pub proof fn lemma_byte_offset_narrow_run(s: Seq<char>, a: int, b: int)
    requires
        0 <= a <= b <= s.len(),
        forall|i: int| a <= i < b ==> char_width(#[trigger] s[i]) == 1,
    ensures
        byte_offset(s, b) == byte_offset(s, a) + (b - a),
    decreases b - a,
{
    if a < b {
        lemma_byte_offset_narrow_run(s, a, b - 1);
        lemma_byte_offset_step(s, b - 1);
    }
}

/// The bytes of a character range are the difference of its offsets.
pub proof fn lemma_byte_offset_range(s: Seq<char>, p: int, q: int)
    requires
        0 <= p <= q <= s.len(),
    ensures
        byte_offset(s, q) == byte_offset(s, p) + utf8_len(s.subrange(p, q)),
{
    assert(s.take(q) =~= s.take(p) + s.subrange(p, q));
    lemma_utf8_len_concat(s.take(p), s.subrange(p, q));
}

/// Width in bytes of the UTF-8 encoding of `c`.
pub fn utf8_width(c: char) -> (n: u32)
    ensures
        n == char_width(c),
{
    let v = c as u32;
    if v < 0x80 {
        1
    } else if v < 0x800 {
        2
    } else if v < 0x10000 {
        3
    } else {
        4
    }
}

/// The part of `s` between the character positions `i` and `j`, given their
/// byte offsets `from` and `to`.
pub fn str_slice<'a>(s: &'a str, from: usize, to: usize, Ghost(i): Ghost<int>, Ghost(j): Ghost<int>) -> (r: &'a str)
    requires
        0 <= i <= j <= s@.len(),
        from == byte_offset(s@, i),
        to == byte_offset(s@, j),
    ensures
        r@ == s@.subrange(i, j),
{
    proof {
        lemma_byte_offset_is_boundary(s@, j);
        lemma_byte_offset_mono(s@, i, j);
        lemma_encode_subrange(s@, 0, j);
        assert(s@.take(0) =~= Seq::<char>::empty());
        assert(s@.subrange(0, j) =~= s@.take(j));
    }
    let (left, _) = s.split_at(to);
    proof {
        assert(encode_utf8(left@) == encode_utf8(s@.take(j)));
        assert(decode_utf8(encode_utf8(left@)) == left@);
        assert(decode_utf8(encode_utf8(s@.take(j))) == s@.take(j));
        assert(left@ == s@.take(j));
        assert(s@.take(j).take(i) =~= s@.take(i));
        lemma_byte_offset_is_boundary(left@, i);
        lemma_encode_subrange(left@, i, j);
        assert(left@.take(j) =~= left@);
        lemma_utf8_len_bounds(left@);
    }
    let (_, mid) = left.split_at(from);
    proof {
        assert(encode_utf8(left@).len() == byte_offset(left@, j));
        assert(encode_utf8(mid@) == encode_utf8(left@.subrange(i, j)));
        assert(decode_utf8(encode_utf8(mid@)) == mid@);
        assert(decode_utf8(encode_utf8(left@.subrange(i, j))) == left@.subrange(i, j));
        assert(left@.subrange(i, j) =~= s@.subrange(i, j));
    }
    mid
}

/// The characters of `s` and the byte offset of every character position,
/// the end included.
pub fn chars_and_offsets(s: &str) -> (r: (Vec<char>, Vec<usize>))
    ensures
        r.0@ == s@,
        r.1@.len() == s@.len() + 1,
        forall|i: int| 0 <= i <= s@.len() ==> #[trigger] r.1@[i] == byte_offset(s@, i),
{
    let total = s.as_bytes().len();
    let mut chars: Vec<char> = Vec::new();
    let mut offsets: Vec<usize> = Vec::new();
    let mut b: usize = 0;
    proof {
        assert(s@.take(0) =~= Seq::<char>::empty());
    }
    offsets.push(0);
    for c in it: s.chars()
        invariant
            it.seq() == s@,
            total == utf8_len(s@),
            chars@ == it.seq().take(it.index()),
            offsets@.len() == it.index() + 1,
            b == byte_offset(s@, it.index() as int),
            forall|i: int| 0 <= i <= it.index() ==> #[trigger] offsets@[i] == byte_offset(s@, i),
    {
        proof {
            lemma_byte_offset_step(s@, it.index() as int);
            lemma_byte_offset_mono(s@, it.index() + 1, s@.len() as int);
        }
        chars.push(c);
        b = b + utf8_width(c) as usize;
        offsets.push(b);
    }
    (chars, offsets)
}

/// Equality of two string slices by their characters.
pub fn str_eq(a: &str, b: &str) -> (r: bool)
    ensures
        r == (a@ == b@),
{
    let x = a.as_bytes();
    let y = b.as_bytes();
    if x.len() != y.len() {
        return false;
    }
    let mut i: usize = 0;
    while i < x.len()
        invariant
            x@ == encode_utf8(a@),
            y@ == encode_utf8(b@),
            x@.len() == y@.len(),
            i <= x@.len(),
            forall|k: int| 0 <= k < i ==> x@[k] == y@[k],
        decreases x@.len() - i,
    {
        if x[i] != y[i] {
            return false;
        }
        i = i + 1;
    }
    assert(x@ =~= y@);
    assert(decode_utf8(encode_utf8(a@)) == a@);
    assert(decode_utf8(encode_utf8(b@)) == b@);
    true
}


/// Whether `c` is alphabetic or numeric in Unicode, as `char::is_alphanumeric`
/// decides it.
pub uninterp spec fn unicode_alphanumeric(c: char) -> bool;

/// Whether `c` has the Unicode `Alphabetic` property, as `char::is_alphabetic`
/// decides it.
pub uninterp spec fn unicode_alphabetic(c: char) -> bool;

/// The Unicode `White_Space` property, which `char::is_whitespace` tests:
/// U+0009 to U+000D, U+0020, U+0085, U+00A0, U+1680, U+2000 to U+200A,
/// U+2028, U+2029, U+202F, U+205F and U+3000.
pub open spec fn unicode_whitespace(c: char) -> bool {
    ||| '\t' <= c <= '\r'
    ||| c == ' '
    ||| c == '\u{85}'
    ||| c == '\u{A0}'
    ||| c == '\u{1680}'
    ||| '\u{2000}' <= c <= '\u{200A}'
    ||| c == '\u{2028}'
    ||| c == '\u{2029}'
    ||| c == '\u{202F}'
    ||| c == '\u{205F}'
    ||| c == '\u{3000}'
}

pub fn is_unicode_whitespace(c: char) -> (r: bool)
    ensures
        r == unicode_whitespace(c),
{
    ('\t' <= c && c <= '\r') || c == ' ' || c == '\u{85}' || c == '\u{A0}' || c == '\u{1680}'
        || ('\u{2000}' <= c && c <= '\u{200A}') || c == '\u{2028}' || c == '\u{2029}' || c
        == '\u{202F}' || c == '\u{205F}' || c == '\u{3000}'
}

/// Calls `char::is_alphanumeric`, which tells whether the character is
/// alphabetic or numeric in Unicode. The contract names that result, and
/// states it for ASCII characters: the letters and digits.
#[verifier::external_body]
pub(crate) fn char_is_alphanumeric(c: char) -> (r: bool)
    ensures
        r == unicode_alphanumeric(c),
        (c as u32) < 0x80 ==> (r <==> ('0' <= c <= '9' || 'a' <= c <= 'z' || 'A' <= c <= 'Z')),
{
    c.is_alphanumeric()
}

/// Calls `char::is_alphabetic`, which tells whether the character has the
/// Unicode `Alphabetic` property. The contract names that result, and
/// states it for ASCII characters: the letters.
#[verifier::external_body]
pub(crate) fn char_is_alphabetic(c: char) -> (r: bool)
    ensures
        r == unicode_alphabetic(c),
        (c as u32) < 0x80 ==> (r <==> ('a' <= c <= 'z' || 'A' <= c <= 'Z')),
{
    c.is_alphabetic()
}

/// ASCII whitespace as `char::is_ascii_whitespace` defines it: space,
/// horizontal tab, line feed, form feed and carriage return.
pub open spec fn ascii_whitespace(c: char) -> bool {
    c == ' ' || c == '\t' || c == '\n' || c == '\x0C' || c == '\r'
}

pub fn is_ascii_whitespace(c: char) -> (r: bool)
    ensures
        r == ascii_whitespace(c),
{
    c == ' ' || c == '\t' || c == '\n' || c == '\x0C' || c == '\r'
}

/// The sets of characters that the scanners run over.
#[derive(Clone, Copy, Debug, PartialEq, Eq)]
pub enum CharClass {
    /// Unicode white space.
    Whitespace,
    /// Characters of an attribute key.
    AttributeKey,
    /// Characters of an unquoted attribute value.
    AttributeValue,
    /// Characters of an element name.
    Name,
    /// Characters of a tag name seen ahead, up to `>` or a space.
    TagName,
    /// Characters of a class or id in a selector.
    SelectorName,
    /// Unicode alphanumeric characters.
    Alphanumeric,
    /// The space character.
    Space,
}

pub open spec fn in_class(cls: CharClass, c: char) -> bool {
    match cls {
        CharClass::Whitespace => unicode_whitespace(c),
        CharClass::AttributeKey => !(c == ' ' || c == '\'' || c == '"' || c == '>' || c == '/'
            || c == '='),
        CharClass::AttributeValue => !(ascii_whitespace(c) || c == '`' || c == '"' || c == '\''
            || c == '>' || c == '<' || c == '='),
        CharClass::Name => unicode_alphanumeric(c) || c == '-' || c == '_' || c == '$' || c
            == ':',
        CharClass::TagName => !(c == '>' || c == ' '),
        CharClass::SelectorName => unicode_alphanumeric(c) || c == '-' || c == '_',
        CharClass::Alphanumeric => unicode_alphanumeric(c),
        CharClass::Space => c == ' ',
    }
}

pub fn class_contains(cls: CharClass, c: char) -> (r: bool)
    ensures
        r == in_class(cls, c),
{
    match cls {
        CharClass::Whitespace => is_unicode_whitespace(c),
        CharClass::AttributeKey => !(c == ' ' || c == '\'' || c == '"' || c == '>' || c == '/'
            || c == '='),
        CharClass::AttributeValue => !(is_ascii_whitespace(c) || c == '`' || c == '"' || c
            == '\'' || c == '>' || c == '<' || c == '='),
        CharClass::Name => char_is_alphanumeric(c) || c == '-' || c == '_' || c == '$' || c
            == ':',
        CharClass::TagName => !(c == '>' || c == ' '),
        CharClass::SelectorName => char_is_alphanumeric(c) || c == '-' || c == '_',
        CharClass::Alphanumeric => char_is_alphanumeric(c),
        CharClass::Space => c == ' ',
    }
}

/// End of the run of characters of class `cls` that starts at `p`: the first
/// position at or after `p` whose character is not in the class, or the end.
pub open spec fn run_end(s: Seq<char>, p: int, cls: CharClass) -> int
    decreases s.len() - p,
{
    if 0 <= p < s.len() && in_class(cls, s[p]) {
        run_end(s, p + 1, cls)
    } else {
        p
    }
}

pub proof fn lemma_run_end(s: Seq<char>, p: int, cls: CharClass)
    requires
        0 <= p <= s.len(),
    ensures
        p <= run_end(s, p, cls) <= s.len(),
        forall|i: int| p <= i < run_end(s, p, cls) ==> in_class(cls, #[trigger] s[i]),
        run_end(s, p, cls) < s.len() ==> !in_class(cls, s[run_end(s, p, cls)]),
    decreases s.len() - p,
{
    if p < s.len() && in_class(cls, s[p]) {
        lemma_run_end(s, p + 1, cls);
    }
}

/// `run_end` is the same from every position inside the run.
pub proof fn lemma_run_end_inside(s: Seq<char>, p: int, q: int, cls: CharClass)
    requires
        0 <= p <= q <= run_end(s, p, cls),
        q <= s.len(),
    ensures
        run_end(s, q, cls) == run_end(s, p, cls),
    decreases q - p,
{
    if p < q {
        lemma_run_end(s, p, cls);
        assert(in_class(cls, s[p]));
        lemma_run_end_inside(s, p + 1, q, cls);
    }
}

/// The position where the run of `cls` starting at `p` ends in `s`.
pub fn scan_run(s: &Vec<char>, p: usize, cls: CharClass) -> (r: usize)
    requires
        p <= s@.len(),
    ensures
        r == run_end(s@, p as int, cls),
{
    let mut i = p;
    while i < s.len() && class_contains(cls, s[i])
        invariant
            p <= i <= s@.len(),
            run_end(s@, i as int, cls) == run_end(s@, p as int, cls),
        decreases s@.len() - i,
    {
        i = i + 1;
    }
    i
}

/// `pat` occurs in `s` at position `k`.
pub open spec fn occurs_at(s: Seq<char>, k: int, pat: Seq<char>) -> bool {
    0 <= k && k + pat.len() <= s.len() && s.subrange(k, k + pat.len()) == pat
}

/// The first position at or after `p`, before the end of `s`, at which `pat`
/// occurs; the length of `s` when there is none.
pub open spec fn find_from(s: Seq<char>, p: int, pat: Seq<char>) -> int
    decreases s.len() - p,
{
    if p < 0 || p >= s.len() {
        s.len() as int
    } else if occurs_at(s, p, pat) {
        p
    } else {
        find_from(s, p + 1, pat)
    }
}

pub proof fn lemma_find_from(s: Seq<char>, p: int, pat: Seq<char>)
    requires
        0 <= p <= s.len(),
    ensures
        p <= find_from(s, p, pat) <= s.len(),
        forall|i: int| p <= i < find_from(s, p, pat) ==> !occurs_at(s, i, pat),
        find_from(s, p, pat) < s.len() ==> occurs_at(s, find_from(s, p, pat), pat),
    decreases s.len() - p,
{
    if p < s.len() && !occurs_at(s, p, pat) {
        lemma_find_from(s, p + 1, pat);
    }
}

/// Whether `pat` occurs in `s` at position `k`.
pub fn matches_at(s: &Vec<char>, k: usize, pat: &Vec<char>) -> (r: bool)
    ensures
        r == occurs_at(s@, k as int, pat@),
{
    if k > s.len() || pat.len() > s.len() - k {
        return false;
    }
    let mut i: usize = 0;
    while i < pat.len()
        invariant
            k + pat@.len() <= s@.len(),
            s@.len() == s.len(),
            i <= pat@.len(),
            forall|j: int| 0 <= j < i ==> s@[k + j] == pat@[j],
        decreases pat@.len() - i,
    {
        if s[k + i] != pat[i] {
            assert(s@.subrange(k as int, k + pat@.len())[i as int] != pat@[i as int]);
            return false;
        }
        i = i + 1;
    }
    assert(s@.subrange(k as int, k + pat@.len()) =~= pat@);
    true
}

/// The first position at or after `p` at which `pat` occurs in `s`.
pub fn find_pattern(s: &Vec<char>, p: usize, pat: &Vec<char>) -> (r: usize)
    requires
        p <= s@.len(),
    ensures
        r == find_from(s@, p as int, pat@),
{
    let mut i = p;
    while i < s.len() && !matches_at(s, i, pat)
        invariant
            p <= i <= s@.len(),
            find_from(s@, i as int, pat@) == find_from(s@, p as int, pat@),
        decreases s@.len() - i,
    {
        i = i + 1;
    }
    i
}

} // verus!
