//! The source scanner: a text to words, numbers and symbols, each with the
//! kind of generator it stands for.
use vstd::prelude::*;
use crate::lexer::{ident_end, keyword, keyword_tok, lemma_ident_end_bounds};
use crate::text::{
    chars_of, is_alphabetic, is_alphanumeric, is_numeric, is_whitespace, string_of,
    unicode_alphabetic, unicode_alphanumeric, unicode_numeric, unicode_whitespace,
};
use crate::vm::TokenKind;

verus! {

/// Whether a word is one of the language's keywords.
pub open spec fn keyword_word(w: Seq<char>) -> bool {
    keyword(w) is Some
}

/// Whether `word` is one of the keywords `gen`, `let`, `concept`,
/// `constraint`, `event`, `if`, `else`, `match`, `ingest`, `print`,
/// `enforce`, `requires`, `fn`, `import`.
pub fn is_keyword(word: &str) -> (b: bool)
    ensures
        b == keyword_word(word@),
{
    let v = chars_of(word);
    keyword_tok(&v).is_some()
}

/// A piece of scanned source: its text and kind.
#[derive(Clone, Debug)]
pub struct SourceToken {
    pub text: String,
    pub kind: TokenKind,
}

/// The value of a scanned piece.
pub struct SourceTokenView {
    pub text: Seq<char>,
    pub kind: TokenKind,
}

impl DeepView for SourceToken {
    type V = SourceTokenView;

    open spec fn deep_view(&self) -> SourceTokenView {
        SourceTokenView { text: self.text@, kind: self.kind }
    }
}

/// The end of a run of numeric characters from `i`.
pub open spec fn numeric_end(s: Seq<char>, i: int) -> int
    decreases s.len() - i,
{
    if i < 0 || i >= s.len() {
        i
    } else if unicode_numeric(s[i]) {
        numeric_end(s, i + 1)
    } else {
        i
    }
}

/// The two-character symbols `==`, `=>`, `->`, `!=`, `>=`, `<=`.
pub open spec fn two_char_symbol(a: char, b: char) -> bool {
    ||| a == '=' && b == '='
    ||| a == '=' && b == '>'
    ||| a == '-' && b == '>'
    ||| a == '!' && b == '='
    ||| a == '>' && b == '='
    ||| a == '<' && b == '='
}

/// The one-character operators `+ - * / =`.
pub open spec fn operator_char(c: char) -> bool {
    c == '+' || c == '-' || c == '*' || c == '/' || c == '='
}

pub proof fn lemma_numeric_end_bounds(s: Seq<char>, i: int)
    requires
        0 <= i <= s.len(),
    ensures
        i <= numeric_end(s, i) <= s.len(),
    decreases s.len() - i,
{
    if i < s.len() && unicode_numeric(s[i]) {
        lemma_numeric_end_bounds(s, i + 1);
    }
}

/// The pieces of `s` from index `i`: white space is skipped; a word starts
/// with an alphabetic character and runs over alphanumerics and `_` (a
/// keyword or an identifier); a number is a run of numeric characters (a
/// literal); anything else is a symbol of one character, or of two for the
/// two-character symbols (an operator for `+ - * / =`, else a delimiter).
pub open spec fn scan_from(s: Seq<char>, i: int) -> Seq<SourceTokenView>
    decreases s.len() - i,
{
    if i < 0 || i >= s.len() {
        Seq::empty()
    } else {
        let c = s[i];
        if unicode_whitespace(c) {
            scan_from(s, i + 1)
        } else if unicode_alphabetic(c) {
            let e = ident_end(s, i);
            proof {
                lemma_ident_end_bounds(s, i + 1);
            }
            let w = s.subrange(i, e);
            let kind = if keyword_word(w) {
                TokenKind::Keyword
            } else {
                TokenKind::Identifier
            };
            seq![SourceTokenView { text: w, kind }] + scan_from(s, e)
        } else if unicode_numeric(c) {
            let e = numeric_end(s, i);
            proof {
                lemma_numeric_end_bounds(s, i + 1);
            }
            seq![SourceTokenView { text: s.subrange(i, e), kind: TokenKind::Literal }] + scan_from(s, e)
        } else {
            let two = i + 1 < s.len() && two_char_symbol(c, s[i + 1]);
            let e = if two {
                i + 2
            } else {
                i + 1
            };
            let kind = if !two && operator_char(c) {
                TokenKind::Operator
            } else {
                TokenKind::Delimiter
            };
            seq![SourceTokenView { text: s.subrange(i, e), kind }] + scan_from(s, e)
        }
    }
}

proof fn lemma_ident_end_at(s: Seq<char>, i: int, e: int)
    requires
        0 <= i <= e <= s.len(),
        forall|m: int| i <= m < e ==> unicode_alphanumeric(#[trigger] s[m]) || s[m] == '_',
        e == s.len() || !(unicode_alphanumeric(s[e]) || s[e] == '_'),
    ensures
        ident_end(s, i) == e,
    decreases e - i,
{
    if i < e {
        lemma_ident_end_at(s, i + 1, e);
    }
}

proof fn lemma_numeric_end_at(s: Seq<char>, i: int, e: int)
    requires
        0 <= i <= e <= s.len(),
        forall|m: int| i <= m < e ==> unicode_numeric(#[trigger] s[m]),
        e == s.len() || !unicode_numeric(s[e]),
    ensures
        numeric_end(s, i) == e,
    decreases e - i,
{
    if i < e {
        lemma_numeric_end_at(s, i + 1, e);
    }
}

/// A word is read whole: from an alphabetic character that is not white
/// space, the longest run of alphanumeric characters and `_` is one piece,
/// a keyword where it spells one and an identifier otherwise, and scanning
/// goes on after it.
pub proof fn lemma_word_piece(s: Seq<char>, i: int, e: int)
    requires
        0 <= i < e <= s.len(),
        !unicode_whitespace(s[i]),
        unicode_alphabetic(s[i]),
        forall|m: int| i < m < e ==> unicode_alphanumeric(#[trigger] s[m]) || s[m] == '_',
        e == s.len() || !(unicode_alphanumeric(s[e]) || s[e] == '_'),
    ensures
        scan_from(s, i) == seq![
            SourceTokenView {
                text: s.subrange(i, e),
                kind: if keyword_word(s.subrange(i, e)) {
                    TokenKind::Keyword
                } else {
                    TokenKind::Identifier
                },
            },
        ] + scan_from(s, e),
{
    lemma_ident_end_at(s, i + 1, e);
}

/// A number is read whole: from a numeric character that is neither white
/// space nor alphabetic, the longest run of numeric characters is one piece,
/// a literal, and scanning goes on after it.
pub proof fn lemma_number_piece(s: Seq<char>, i: int, e: int)
    requires
        0 <= i < e <= s.len(),
        !unicode_whitespace(s[i]),
        !unicode_alphabetic(s[i]),
        forall|m: int| i <= m < e ==> unicode_numeric(#[trigger] s[m]),
        e == s.len() || !unicode_numeric(s[e]),
    ensures
        scan_from(s, i) == seq![SourceTokenView { text: s.subrange(i, e), kind: TokenKind::Literal }] + scan_from(s, e),
{
    lemma_numeric_end_at(s, i + 1, e);
}

/// White space is skipped: it starts no piece.
pub proof fn lemma_white_space_skipped(s: Seq<char>, i: int)
    requires
        0 <= i < s.len(),
        unicode_whitespace(s[i]),
    ensures
        scan_from(s, i) == scan_from(s, i + 1),
{
}

/// At a symbol position (a character that is neither white space, nor
/// alphabetic, nor numeric), the pairs `==`, `=>`, `->`, `!=`, `>=` and `<=`
/// are read as one piece of two characters, a delimiter, and scanning goes
/// on after both.
pub proof fn lemma_two_char_symbols(s: Seq<char>, i: int)
    requires
        0 <= i,
        i + 1 < s.len(),
        !unicode_alphabetic(s[i]),
        !unicode_numeric(s[i]),
        (s[i] == '=' && s[i + 1] == '=') || (s[i] == '=' && s[i + 1] == '>') || (s[i] == '-' && s[i + 1] == '>')
            || (s[i] == '!' && s[i + 1] == '=') || (s[i] == '>' && s[i + 1] == '=') || (s[i] == '<' && s[i + 1]
            == '='),
    ensures
        scan_from(s, i) == seq![SourceTokenView { text: s.subrange(i, i + 2), kind: TokenKind::Delimiter }]
            + scan_from(s, i + 2),
{
}

/// At a symbol position where no two-character symbol starts, one character
/// is a piece: an operator where it is one of `+ - * / =`, else a
/// delimiter; scanning goes on after it.
pub proof fn lemma_one_char_symbols(s: Seq<char>, i: int)
    requires
        0 <= i < s.len(),
        !unicode_whitespace(s[i]),
        !unicode_alphabetic(s[i]),
        !unicode_numeric(s[i]),
        i + 1 < s.len() ==> !((s[i] == '=' && s[i + 1] == '=') || (s[i] == '=' && s[i + 1] == '>') || (s[i] == '-'
            && s[i + 1] == '>') || (s[i] == '!' && s[i + 1] == '=') || (s[i] == '>' && s[i + 1] == '=') || (s[i]
            == '<' && s[i + 1] == '=')),
    ensures
        scan_from(s, i) == seq![
            SourceTokenView {
                text: seq![s[i]],
                kind: if s[i] == '+' || s[i] == '-' || s[i] == '*' || s[i] == '/' || s[i] == '=' {
                    TokenKind::Operator
                } else {
                    TokenKind::Delimiter
                },
            },
        ] + scan_from(s, i + 1),
{
    assert(s.subrange(i, i + 1) =~= seq![s[i]]);
}

/// Splits a source text into its pieces, as `scan_from` says.
pub fn scan_source(source: &str) -> (r: Vec<SourceToken>)
    ensures
        r.deep_view() == scan_from(source@, 0),
{
    let s = chars_of(source);
    let mut out: Vec<SourceToken> = Vec::new();
    let mut i: usize = 0;
    assert(out.deep_view() =~= Seq::empty());
    assert(scan_from(s@, 0) =~= out.deep_view() + scan_from(s@, 0));
    while i < s.len()
        invariant
            i <= s@.len(),
            s@ == source@,
            scan_from(s@, 0) == out.deep_view() + scan_from(s@, i as int),
        decreases s.len() - i,
    {
        let c = s[i];
        if is_whitespace(c) {
            i = i + 1;
        } else {
            let start = i;
            let kind;
            if is_alphabetic(c) {
                let mut j = i + 1;
                while j < s.len() && (is_alphanumeric(s[j]) || s[j] == '_')
                    invariant
                        start < j <= s@.len(),
                        ident_end(s@, j as int) == ident_end(s@, start as int),
                    decreases s.len() - j,
                {
                    j = j + 1;
                }
                let mut w: Vec<char> = Vec::new();
                let mut k = start;
                while k < j
                    invariant
                        start <= k <= j <= s@.len(),
                        w@ == s@.subrange(start as int, k as int),
                    decreases j - k,
                {
                    w.push(s[k]);
                    assert(s@.subrange(start as int, k + 1) =~= s@.subrange(start as int, k as int).push(
                        s@[k as int],
                    ));
                    k = k + 1;
                }
                kind = if keyword_tok(&w).is_some() {
                    TokenKind::Keyword
                } else {
                    TokenKind::Identifier
                };
                i = j;
            } else if is_numeric(c) {
                let mut j = i + 1;
                while j < s.len() && is_numeric(s[j])
                    invariant
                        start < j <= s@.len(),
                        numeric_end(s@, j as int) == numeric_end(s@, start as int),
                    decreases s.len() - j,
                {
                    j = j + 1;
                }
                kind = TokenKind::Literal;
                i = j;
            } else {
                let mut two = false;
                if i + 1 < s.len() {
                    let d = s[i + 1];
                    two = (c == '=' && d == '=') || (c == '=' && d == '>') || (c == '-' && d == '>')
                        || (c == '!' && d == '=') || (c == '>' && d == '=') || (c == '<' && d == '=');
                }
                kind = if !two && (c == '+' || c == '-' || c == '*' || c == '/' || c == '=') {
                    TokenKind::Operator
                } else {
                    TokenKind::Delimiter
                };
                i = if two {
                    i + 2
                } else {
                    i + 1
                };
            }
            let mut text: Vec<char> = Vec::new();
            let mut k = start;
            while k < i
                invariant
                    start <= k <= i <= s@.len(),
                    text@ == s@.subrange(start as int, k as int),
                decreases i - k,
            {
                text.push(s[k]);
                assert(s@.subrange(start as int, k + 1) =~= s@.subrange(start as int, k as int).push(
                    s@[k as int],
                ));
                k = k + 1;
            }
            let tok = SourceToken { text: string_of(&text), kind };
            let ghost v0 = out;
            let ghost gt = tok;
            out.push(tok);
            proof {
                crate::ast::lemma_push_deep_view(v0, out, gt);
                assert(v0.deep_view() + (seq![gt.deep_view()] + scan_from(s@, i as int)) =~= out.deep_view()
                    + scan_from(s@, i as int));
            }
        }
    }
    assert(out.deep_view() + Seq::<SourceTokenView>::empty() =~= out.deep_view());
    out
}

/// The end of the line from `i`: the next line feed, or the end of the text.
pub open spec fn line_end(s: Seq<char>, i: int) -> int
    decreases s.len() - i,
{
    if i < 0 || i >= s.len() || s[i] == '\n' {
        i
    } else {
        line_end(s, i + 1)
    }
}

pub proof fn lemma_line_end_bounds(s: Seq<char>, i: int)
    requires
        0 <= i <= s.len(),
    ensures
        i <= line_end(s, i) <= s.len(),
        line_end(s, i) < s.len() ==> s[line_end(s, i)] == '\n',
    decreases s.len() - i,
{
    if i < s.len() && s[i] != '\n' {
        lemma_line_end_bounds(s, i + 1);
    }
}

/// A line ended by a line feed loses a carriage return before it.
pub open spec fn strip_cr(l: Seq<char>) -> Seq<char> {
    if l.len() > 0 && l.last() == '\r' {
        l.drop_last()
    } else {
        l
    }
}

/// The non-empty lines of `s` from `i` on, the last first.  Lines end at a
/// line feed, which with a carriage return just before it is not part of
/// the line; a text that ends in a line feed has no empty line after it.
pub open spec fn stream_from(s: Seq<char>, i: int) -> Seq<Seq<char>>
    decreases s.len() - i,
{
    if i < 0 || i >= s.len() {
        Seq::empty()
    } else {
        proof {
            lemma_line_end_bounds(s, i);
        }
        let e = line_end(s, i);
        let l = if e < s.len() {
            strip_cr(s.subrange(i, e))
        } else {
            s.subrange(i, e)
        };
        let rest = if e < s.len() {
            stream_from(s, e + 1)
        } else {
            Seq::empty()
        };
        if l.len() > 0 {
            rest.push(l)
        } else {
            rest
        }
    }
}

/// Every streamed line is non-empty and holds no line feed.
pub proof fn lemma_stream_lines_plain(s: Seq<char>, i: int)
    ensures
        forall|k: int| 0 <= k < stream_from(s, i).len() ==> {
            &&& (#[trigger] stream_from(s, i)[k]).len() > 0
            &&& !stream_from(s, i)[k].contains('\n')
        },
    decreases s.len() - i,
{
    if 0 <= i < s.len() {
        lemma_line_end_bounds(s, i);
        let e = line_end(s, i);
        if e < s.len() {
            lemma_stream_lines_plain(s, e + 1);
        }
        let l = if e < s.len() {
            strip_cr(s.subrange(i, e))
        } else {
            s.subrange(i, e)
        };
        assert(!s.subrange(i, e).contains('\n')) by {
            lemma_line_end_no_feed(s, i);
        }
        assert(!l.contains('\n')) by {
            if l.contains('\n') {
                let m = choose|m: int| 0 <= m < l.len() && l[m] == '\n';
                assert(s.subrange(i, e)[m] == '\n');
            }
        }
        let rest = if e < s.len() {
            stream_from(s, e + 1)
        } else {
            Seq::empty()
        };
        let all = stream_from(s, i);
        assert(all == if l.len() > 0 {
            rest.push(l)
        } else {
            rest
        });
        assert forall|k: int| 0 <= k < all.len() implies (#[trigger] all[k]).len() > 0 && !all[k].contains('\n') by {
            if k < rest.len() {
                assert(all[k] == rest[k]);
            }
        }
    }
}

proof fn lemma_line_end_no_feed(s: Seq<char>, i: int)
    requires
        0 <= i <= s.len(),
    ensures
        forall|m: int| i <= m < line_end(s, i) ==> s[m] != '\n',
        !s.subrange(i, line_end(s, i)).contains('\n'),
    decreases s.len() - i,
{
    lemma_line_end_bounds(s, i);
    if i < s.len() && s[i] != '\n' {
        lemma_line_end_no_feed(s, i + 1);
    }
    let t = s.subrange(i, line_end(s, i));
    if t.contains('\n') {
        let m = choose|m: int| 0 <= m < t.len() && t[m] == '\n';
        assert(s[i + m] == '\n');
    }
}

/// The line end from `i` is the first line feed from there.
proof fn lemma_line_end_at(s: Seq<char>, i: int, k: int)
    requires
        0 <= i <= k <= s.len(),
        forall|m: int| i <= m < k ==> s[m] != '\n',
        k == s.len() || s[k] == '\n',
    ensures
        line_end(s, i) == k,
    decreases k - i,
{
    if i < k {
        lemma_line_end_at(s, i + 1, k);
    }
}

/// Streaming the part of a text after a prefix is streaming that part
/// alone.
proof fn lemma_stream_shift(p: Seq<char>, t: Seq<char>, j: int)
    requires
        0 <= j <= t.len(),
    ensures
        stream_from(p + t, p.len() + j) == stream_from(t, j),
    decreases t.len() - j,
{
    let s = p + t;
    let i = p.len() + j;
    if j < t.len() {
        lemma_line_end_bounds(t, j);
        let e = line_end(t, j);
        assert forall|m: int| i <= m < p.len() + e implies s[m] != '\n' by {
            assert(s[m] == t[m - p.len()]);
            lemma_line_end_no_feed(t, j);
            assert(t[m - p.len()] != '\n');
        }
        if e < t.len() {
            assert(s[p.len() + e] == t[e]);
        }
        lemma_line_end_at(s, i, p.len() + e);
        assert(s.subrange(i, p.len() + e) =~= t.subrange(j, e));
        if e < t.len() {
            lemma_stream_shift(p, t, e + 1);
        }
    }
}

/// A text that starts with a line and a line feed streams as the rest of
/// the text, then that line (without a carriage return just before the
/// feed) where it is not empty, whatever characters it holds.
pub proof fn lemma_stream_first_line(l: Seq<char>, t: Seq<char>)
    requires
        !l.contains('\n'),
    ensures
        stream_from(l + seq!['\n'] + t, 0) == {
            let k = if l.len() > 0 && l.last() == '\r' {
                l.drop_last()
            } else {
                l
            };
            if k.len() > 0 {
                stream_from(t, 0).push(k)
            } else {
                stream_from(t, 0)
            }
        },
{
    let p = l + seq!['\n'];
    let s = p + t;
    assert forall|m: int| 0 <= m < l.len() implies s[m] != '\n' by {
        assert(s[m] == l[m]);
        assert(l.contains(l[m]));
    }
    assert(s[l.len() as int] == '\n');
    lemma_line_end_at(s, 0, l.len() as int);
    assert(s.subrange(0, l.len() as int) =~= l);
    lemma_stream_shift(p, t, 0);
    assert(p.len() + 0 == l.len() + 1);
}

/// A text of one line without a line feed streams as that line where it is
/// not empty, whatever characters it holds.
pub proof fn lemma_stream_last_line(l: Seq<char>)
    requires
        !l.contains('\n'),
    ensures
        stream_from(l, 0) == if l.len() > 0 {
            seq![l]
        } else {
            Seq::<Seq<char>>::empty()
        },
{
    if l.len() > 0 {
        assert forall|m: int| 0 <= m < l.len() implies l[m] != '\n' by {
            assert(l.contains(l[m]));
        }
        lemma_line_end_at(l, 0, l.len() as int);
        assert(l.subrange(0, l.len() as int) =~= l);
        assert(Seq::<Seq<char>>::empty().push(l) =~= seq![l]);
    }
}

/// The non-empty lines of a text, the last first, as `stream_from` says.
pub fn stream_lines(content: &str) -> (r: Vec<String>)
    ensures
        r.deep_view() == stream_from(content@, 0),
{
    let s = chars_of(content);
    let mut out: Vec<String> = Vec::new();
    let mut i: usize = 0;
    assert(stream_from(s@, 0) =~= stream_from(s@, 0) + out.deep_view());
    while i < s.len()
        invariant
            i <= s@.len(),
            s@ == content@,
            stream_from(s@, 0) == stream_from(s@, i as int) + out.deep_view(),
        decreases s.len() - i,
    {
        let mut e = i;
        while e < s.len() && s[e] != '\n'
            invariant
                i <= e <= s@.len(),
                line_end(s@, e as int) == line_end(s@, i as int),
            decreases s.len() - e,
        {
            e = e + 1;
        }
        let mut b = e;
        if e < s.len() && e > i && s[e - 1] == '\r' {
            b = e - 1;
        }
        let mut line: Vec<char> = Vec::new();
        let mut k = i;
        while k < b
            invariant
                i <= k <= b <= e <= s@.len(),
                line@ == s@.subrange(i as int, k as int),
            decreases b - k,
        {
            line.push(s[k]);
            assert(s@.subrange(i as int, k + 1) =~= s@.subrange(i as int, k as int).push(s@[k as int]));
            k = k + 1;
        }
        proof {
            if e < s.len() {
                assert(strip_cr(s@.subrange(i as int, e as int)) =~= s@.subrange(i as int, b as int));
            }
        }
        let ghost o0 = out.deep_view();
        if line.len() > 0 {
            let t = string_of(&line);
            out.insert(0, t);
            assert(out.deep_view() =~= seq![line@] + o0);
        }
        let next = if e < s.len() {
            e + 1
        } else {
            e
        };
        proof {
            let rest = stream_from(s@, next as int);
            if e == s.len() {
                assert(rest =~= Seq::<Seq<char>>::empty());
            }
            if line@.len() > 0 {
                assert(stream_from(s@, i as int) == rest.push(line@));
                assert(rest.push(line@) + o0 =~= rest + (seq![line@] + o0));
            } else {
                assert(stream_from(s@, i as int) == rest);
            }
        }
        i = next;
    }
    out
}

} // verus!
