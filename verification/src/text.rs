//! Character classes and small string helpers shared by the scanners.
use vstd::prelude::*;

verus! {

/// Whether `c` carries the Unicode `Alphabetic` property.
pub uninterp spec fn unicode_alphabetic(c: char) -> bool;

/// Whether `c` falls in one of the Unicode general categories for numbers.
pub uninterp spec fn unicode_numeric(c: char) -> bool;

/// Whether `c` carries the Unicode `White_Space` property: tab, line feed,
/// vertical tab, form feed, carriage return, space, next line, no-break
/// space, ogham space mark, the spaces U+2000 to U+200A, line and paragraph
/// separators, narrow no-break space, medium mathematical space and
/// ideographic space.
pub open spec fn unicode_whitespace(c: char) -> bool {
    let n = c as u32;
    ||| 0x09 <= n <= 0x0d
    ||| n == 0x20
    ||| n == 0x85
    ||| n == 0xa0
    ||| n == 0x1680
    ||| 0x2000 <= n <= 0x200a
    ||| n == 0x2028
    ||| n == 0x2029
    ||| n == 0x202f
    ||| n == 0x205f
    ||| n == 0x3000
}

/// `char::is_alphanumeric`: alphabetic or numeric.
pub open spec fn unicode_alphanumeric(c: char) -> bool {
    unicode_alphabetic(c) || unicode_numeric(c)
}

/// `char::is_ascii_digit`: one of `'0'..='9'`.
pub open spec fn ascii_digit(c: char) -> bool {
    '0' <= c && c <= '9'
}

/// The value of an ASCII digit.
pub open spec fn digit_value(c: char) -> int {
    (c as int) - ('0' as int)
}

/// Whether `c` is an ASCII letter.
pub open spec fn ascii_letter(c: char) -> bool {
    ('a' <= c && c <= 'z') || ('A' <= c && c <= 'Z')
}

/// Calls `char::is_alphabetic`; the result is the Unicode `Alphabetic`
/// property of `c`, which the library names.  Stated beside it: among ASCII
/// characters the property holds of the letters `a`-`z` and `A`-`Z` only.
#[verifier::external_body]
pub(crate) fn is_alphabetic(c: char) -> (b: bool)
    ensures
        b == unicode_alphabetic(c),
        (c as u32) < 0x80 ==> (b <==> ascii_letter(c)),
{
    c.is_alphabetic()
}

/// Calls `char::is_numeric`; the result is the Unicode numeric property of
/// `c` (general categories Nd, Nl, No), which the library names.  Stated
/// beside it: among ASCII characters it holds of the digits `0`-`9` only.
#[verifier::external_body]
pub(crate) fn is_numeric(c: char) -> (b: bool)
    ensures
        b == unicode_numeric(c),
        (c as u32) < 0x80 ==> (b <==> ascii_digit(c)),
{
    c.is_numeric()
}

/// `char::is_alphanumeric`, which std documents as `is_alphabetic() ||
/// is_numeric()`.
pub(crate) fn is_alphanumeric(c: char) -> (b: bool)
    ensures
        b == unicode_alphanumeric(c),
{
    is_alphabetic(c) || is_numeric(c)
}

/// `char::is_whitespace`, written out from the `White_Space` list.
pub fn is_whitespace(c: char) -> (b: bool)
    ensures
        b == unicode_whitespace(c),
{
    let n = c as u32;
    (0x09 <= n && n <= 0x0d) || n == 0x20 || n == 0x85 || n == 0xa0 || n == 0x1680 || (0x2000 <= n && n
        <= 0x200a) || n == 0x2028 || n == 0x2029 || n == 0x202f || n == 0x205f || n == 0x3000
}

/// `char::is_ascii_digit`, written out.
pub fn is_ascii_digit(c: char) -> (b: bool)
    ensures
        b == ascii_digit(c),
{
    '0' <= c && c <= '9'
}

/// Calls `String::push`, which appends one character.
#[verifier::external_body]
pub(crate) fn push_char(s: &mut String, c: char)
    ensures
        final(s)@ == old(s)@.push(c),
{
    s.push(c);
}

/// The characters of a string slice, in order.
pub fn chars_of(s: &str) -> (v: Vec<char>)
    ensures
        v@ == s@,
{
    let mut v: Vec<char> = Vec::new();
    for c in it: s.chars()
        invariant
            v@ == it.seq().take(it.index() as int),
    {
        v.push(c);
    }
    v
}

/// A string holding exactly the given characters.
pub fn string_of(chars: &Vec<char>) -> (s: String)
    ensures
        s@ == chars@,
{
    let mut s = String::new();
    let mut i: usize = 0;
    while i < chars.len()
        invariant
            i <= chars.len(),
            s@ == chars@.take(i as int),
        decreases chars.len() - i,
    {
        push_char(&mut s, chars[i]);
        assert(chars@.take(i + 1) =~= chars@.take(i as int).push(chars@[i as int]));
        i += 1;
    }
    assert(chars@.take(chars.len() as int) =~= chars@);
    s
}

/// Whether `a` holds exactly the characters of `b`.
pub fn chars_eq(a: &Vec<char>, b: &[char]) -> (r: bool)
    ensures
        r == (a@ == b@),
{
    if a.len() != b.len() {
        return false;
    }
    let mut i: usize = 0;
    while i < a.len()
        invariant
            a@.len() == b@.len(),
            i <= a.len(),
            forall|k: int| 0 <= k < i ==> a@[k] == b@[k],
        decreases a.len() - i,
    {
        if a[i] != b[i] {
            return false;
        }
        i += 1;
    }
    assert(a@ =~= b@);
    true
}

/// A label made safe to stand between double quotes: each `"` becomes `'`
/// and each backslash becomes `/`.
pub open spec fn quoted_label(s: Seq<char>) -> Seq<char> {
    s.map_values(
        |c: char|
            if c == '"' {
                '\''
            } else if c == '\\' {
                '/'
            } else {
                c
            },
    )
}

/// The label of an event as the geometry dump writes it.
pub fn geometry_label(label: &str) -> (r: String)
    ensures
        r@ == quoted_label(label@),
{
    let v = chars_of(label);
    let mut out: Vec<char> = Vec::new();
    let mut i: usize = 0;
    while i < v.len()
        invariant
            i <= v@.len(),
            out@ == quoted_label(v@.take(i as int)),
        decreases v.len() - i,
    {
        let c = v[i];
        let d = if c == '"' {
            '\''
        } else if c == '\\' {
            '/'
        } else {
            c
        };
        out.push(d);
        assert(quoted_label(v@.take(i + 1)) =~= quoted_label(v@.take(i as int)).push(d));
        i += 1;
    }
    assert(v@.take(v@.len() as int) =~= v@);
    string_of(&out)
}

} // verus!
