//! The tokenizer: source text to a sequence of positioned tokens.
use vstd::prelude::*;
use crate::text::{
    ascii_digit, chars_eq, chars_of, digit_value, is_alphabetic, is_alphanumeric, is_ascii_digit,
    is_whitespace, push_char, string_of, unicode_alphabetic, unicode_alphanumeric, unicode_whitespace,
};

verus! {

/// A token of the language.  A floating-point literal is kept as the text
/// it was written with; turning it into a number is the caller's business.
#[derive(Clone, Debug)]
pub enum Tok {
    Gen,
    Let,
    Concept,
    Constraint,
    Event,
    Enforce,
    Requires,
    If,
    Else,
    Match,
    Ingest,
    Print,
    Fn,
    Import,
    Int(i64),
    Float(String),
    Str(String),
    Ident(String),
    Plus,
    Minus,
    Star,
    Slash,
    Eq,
    NotEq,
    Gte,
    Lte,
    Gt,
    Lt,
    Assign,
    Arrow,
    FatArrow,
    Colon,
    Semicolon,
    Comma,
    LParen,
    RParen,
    LBrace,
    RBrace,
    Eof,
}

/// The mathematical value of a token: its strings as character sequences.
pub enum TokView {
    Gen,
    Let,
    Concept,
    Constraint,
    Event,
    Enforce,
    Requires,
    If,
    Else,
    Match,
    Ingest,
    Print,
    Fn,
    Import,
    Int(i64),
    Float(Seq<char>),
    Str(Seq<char>),
    Ident(Seq<char>),
    Plus,
    Minus,
    Star,
    Slash,
    Eq,
    NotEq,
    Gte,
    Lte,
    Gt,
    Lt,
    Assign,
    Arrow,
    FatArrow,
    Colon,
    Semicolon,
    Comma,
    LParen,
    RParen,
    LBrace,
    RBrace,
    Eof,
}

impl View for Tok {
    type V = TokView;

    open spec fn view(&self) -> TokView {
        match self {
            Tok::Gen => TokView::Gen,
            Tok::Let => TokView::Let,
            Tok::Concept => TokView::Concept,
            Tok::Constraint => TokView::Constraint,
            Tok::Event => TokView::Event,
            Tok::Enforce => TokView::Enforce,
            Tok::Requires => TokView::Requires,
            Tok::If => TokView::If,
            Tok::Else => TokView::Else,
            Tok::Match => TokView::Match,
            Tok::Ingest => TokView::Ingest,
            Tok::Print => TokView::Print,
            Tok::Fn => TokView::Fn,
            Tok::Import => TokView::Import,
            Tok::Int(n) => TokView::Int(*n),
            Tok::Float(s) => TokView::Float(s@),
            Tok::Str(s) => TokView::Str(s@),
            Tok::Ident(s) => TokView::Ident(s@),
            Tok::Plus => TokView::Plus,
            Tok::Minus => TokView::Minus,
            Tok::Star => TokView::Star,
            Tok::Slash => TokView::Slash,
            Tok::Eq => TokView::Eq,
            Tok::NotEq => TokView::NotEq,
            Tok::Gte => TokView::Gte,
            Tok::Lte => TokView::Lte,
            Tok::Gt => TokView::Gt,
            Tok::Lt => TokView::Lt,
            Tok::Assign => TokView::Assign,
            Tok::Arrow => TokView::Arrow,
            Tok::FatArrow => TokView::FatArrow,
            Tok::Colon => TokView::Colon,
            Tok::Semicolon => TokView::Semicolon,
            Tok::Comma => TokView::Comma,
            Tok::LParen => TokView::LParen,
            Tok::RParen => TokView::RParen,
            Tok::LBrace => TokView::LBrace,
            Tok::RBrace => TokView::RBrace,
            Tok::Eof => TokView::Eof,
        }
    }
}

impl Tok {
    /// A copy of the token.
    pub fn duplicate(&self) -> (t: Tok)
        ensures
            t@ == self@,
    {
        match self {
            Tok::Int(n) => Tok::Int(*n),
            Tok::Float(s) => Tok::Float(s.clone()),
            Tok::Str(s) => Tok::Str(s.clone()),
            Tok::Ident(s) => Tok::Ident(s.clone()),
            Tok::Gen => Tok::Gen,
            Tok::Let => Tok::Let,
            Tok::Concept => Tok::Concept,
            Tok::Constraint => Tok::Constraint,
            Tok::Event => Tok::Event,
            Tok::Enforce => Tok::Enforce,
            Tok::Requires => Tok::Requires,
            Tok::If => Tok::If,
            Tok::Else => Tok::Else,
            Tok::Match => Tok::Match,
            Tok::Ingest => Tok::Ingest,
            Tok::Print => Tok::Print,
            Tok::Fn => Tok::Fn,
            Tok::Import => Tok::Import,
            Tok::Plus => Tok::Plus,
            Tok::Minus => Tok::Minus,
            Tok::Star => Tok::Star,
            Tok::Slash => Tok::Slash,
            Tok::Eq => Tok::Eq,
            Tok::NotEq => Tok::NotEq,
            Tok::Gte => Tok::Gte,
            Tok::Lte => Tok::Lte,
            Tok::Gt => Tok::Gt,
            Tok::Lt => Tok::Lt,
            Tok::Assign => Tok::Assign,
            Tok::Arrow => Tok::Arrow,
            Tok::FatArrow => Tok::FatArrow,
            Tok::Colon => Tok::Colon,
            Tok::Semicolon => Tok::Semicolon,
            Tok::Comma => Tok::Comma,
            Tok::LParen => Tok::LParen,
            Tok::RParen => Tok::RParen,
            Tok::LBrace => Tok::LBrace,
            Tok::RBrace => Tok::RBrace,
            Tok::Eof => Tok::Eof,
        }
    }

    /// Whether two tokens are the same token (same kind, same payload).
    pub fn same(&self, other: &Tok) -> (r: bool)
        ensures
            r == (self@ == other@),
    {
        match (self, other) {
            (Tok::Int(a), Tok::Int(b)) => *a == *b,
            (Tok::Float(a), Tok::Float(b)) => *a == *b,
            (Tok::Str(a), Tok::Str(b)) => *a == *b,
            (Tok::Ident(a), Tok::Ident(b)) => *a == *b,
            (Tok::Gen, Tok::Gen) => true,
            (Tok::Let, Tok::Let) => true,
            (Tok::Concept, Tok::Concept) => true,
            (Tok::Constraint, Tok::Constraint) => true,
            (Tok::Event, Tok::Event) => true,
            (Tok::Enforce, Tok::Enforce) => true,
            (Tok::Requires, Tok::Requires) => true,
            (Tok::If, Tok::If) => true,
            (Tok::Else, Tok::Else) => true,
            (Tok::Match, Tok::Match) => true,
            (Tok::Ingest, Tok::Ingest) => true,
            (Tok::Print, Tok::Print) => true,
            (Tok::Fn, Tok::Fn) => true,
            (Tok::Import, Tok::Import) => true,
            (Tok::Plus, Tok::Plus) => true,
            (Tok::Minus, Tok::Minus) => true,
            (Tok::Star, Tok::Star) => true,
            (Tok::Slash, Tok::Slash) => true,
            (Tok::Eq, Tok::Eq) => true,
            (Tok::NotEq, Tok::NotEq) => true,
            (Tok::Gte, Tok::Gte) => true,
            (Tok::Lte, Tok::Lte) => true,
            (Tok::Gt, Tok::Gt) => true,
            (Tok::Lt, Tok::Lt) => true,
            (Tok::Assign, Tok::Assign) => true,
            (Tok::Arrow, Tok::Arrow) => true,
            (Tok::FatArrow, Tok::FatArrow) => true,
            (Tok::Colon, Tok::Colon) => true,
            (Tok::Semicolon, Tok::Semicolon) => true,
            (Tok::Comma, Tok::Comma) => true,
            (Tok::LParen, Tok::LParen) => true,
            (Tok::RParen, Tok::RParen) => true,
            (Tok::LBrace, Tok::LBrace) => true,
            (Tok::RBrace, Tok::RBrace) => true,
            (Tok::Eof, Tok::Eof) => true,
            _ => false,
        }
    }
}

impl PartialEq for Tok {
    fn eq(&self, other: &Tok) -> (r: bool) {
        self.same(other)
    }
}

impl vstd::std_specs::cmp::PartialEqSpecImpl for Tok {
    open spec fn obeys_eq_spec() -> bool {
        true
    }

    open spec fn eq_spec(&self, other: &Tok) -> bool {
        self@ == other@
    }
}

/// A token with the line and column (both counted from 1, columns in
/// characters) at which it starts.
#[derive(Clone, Debug)]
pub struct Token {
    pub tok: Tok,
    pub line: usize,
    pub col: usize,
}

/// The mathematical value of a positioned token.
pub struct TokenView {
    pub tok: TokView,
    pub line: int,
    pub col: int,
}

impl View for Token {
    type V = TokenView;

    open spec fn view(&self) -> TokenView {
        TokenView { tok: self.tok@, line: self.line as int, col: self.col as int }
    }
}

impl PartialEq for Token {
    fn eq(&self, other: &Token) -> (r: bool) {
        self.tok.same(&other.tok) && self.line == other.line && self.col == other.col
    }
}

impl vstd::std_specs::cmp::PartialEqSpecImpl for Token {
    open spec fn obeys_eq_spec() -> bool {
        true
    }

    open spec fn eq_spec(&self, other: &Token) -> bool {
        self@ == other@
    }
}

/// Why the source text could not be split into tokens; each error carries
/// the line and column at which the offending token starts.
#[derive(Clone, Copy, Debug, PartialEq, Eq, Structural)]
pub enum LexError {
    /// A `!` not followed by `=`.
    UnexpectedBang { line: usize, col: usize },
    /// A character that starts no token.
    UnexpectedChar { line: usize, col: usize, found: char },
    /// A string literal with no closing quote.
    UnterminatedString { line: usize, col: usize },
    /// An integer literal too large for `i64`.
    InvalidInt { line: usize, col: usize },
}

/// The character of a decimal digit.
pub open spec fn digit_char(d: nat) -> char {
    if d == 0 {
        '0'
    } else if d == 1 {
        '1'
    } else if d == 2 {
        '2'
    } else if d == 3 {
        '3'
    } else if d == 4 {
        '4'
    } else if d == 5 {
        '5'
    } else if d == 6 {
        '6'
    } else if d == 7 {
        '7'
    } else if d == 8 {
        '8'
    } else {
        '9'
    }
}

/// A number written in decimal, without leading zeros.
pub open spec fn decimal(n: nat) -> Seq<char>
    decreases n,
{
    if n < 10 {
        seq![digit_char(n)]
    } else {
        decimal(n / 10).push(digit_char(n % 10))
    }
}

/// The text of a lexical error: the line and column, then what went wrong.
pub open spec fn lex_message(e: LexError) -> Seq<char> {
    let (line, col, what) = match e {
        LexError::UnexpectedBang { line, col } => (line, col, "Unexpected '!'"@),
        LexError::UnexpectedChar { line, col, found } => (
            line,
            col,
            "Unexpected character '"@ + seq![found] + "'"@,
        ),
        LexError::UnterminatedString { line, col } => (line, col, "Unterminated string"@),
        LexError::InvalidInt { line, col } => (
            line,
            col,
            "Invalid int: number too large to fit in target type"@,
        ),
    };
    decimal(line as nat) + ":"@ + decimal(col as nat) + ": "@ + what
}

/// The character of the digit `d`.
fn digit(d: usize) -> (c: char)
    requires
        d < 10,
    ensures
        c == digit_char(d as nat),
{
    if d == 0 {
        '0'
    } else if d == 1 {
        '1'
    } else if d == 2 {
        '2'
    } else if d == 3 {
        '3'
    } else if d == 4 {
        '4'
    } else if d == 5 {
        '5'
    } else if d == 6 {
        '6'
    } else if d == 7 {
        '7'
    } else if d == 8 {
        '8'
    } else {
        '9'
    }
}

/// Appends `n` written in decimal.
fn push_decimal(out: &mut Vec<char>, n: usize)
    ensures
        final(out)@ == old(out)@ + decimal(n as nat),
    decreases n,
{
    if n >= 10 {
        push_decimal(out, n / 10);
    }
    out.push(digit(n % 10));
    proof {
        if n < 10 {
            assert(old(out)@ + decimal(n as nat) =~= old(out)@.push(digit_char(n as nat)));
        } else {
            assert((old(out)@ + decimal((n / 10) as nat)).push(digit_char((n % 10) as nat)) =~= old(out)@
                + decimal(n as nat));
        }
    }
}

/// Appends the characters of `s`.
fn push_text(out: &mut Vec<char>, s: &str)
    ensures
        final(out)@ == old(out)@ + s@,
{
    let v = chars_of(s);
    let ghost start = out@;
    let mut k: usize = 0;
    while k < v.len()
        invariant
            k <= v@.len(),
            v@ == s@,
            out@ == start + v@.take(k as int),
        decreases v.len() - k,
    {
        out.push(v[k]);
        assert(v@.take(k + 1) =~= v@.take(k as int).push(v@[k as int]));
        k += 1;
    }
    assert(v@.take(v@.len() as int) =~= v@);
}

impl LexError {
    /// The error's text: `line:col: ` and what went wrong.
    pub fn message(&self) -> (m: String)
        ensures
            m@ == lex_message(*self),
    {
        let mut out: Vec<char> = Vec::new();
        let (line, col) = match *self {
            LexError::UnexpectedBang { line, col } => (line, col),
            LexError::UnexpectedChar { line, col, .. } => (line, col),
            LexError::UnterminatedString { line, col } => (line, col),
            LexError::InvalidInt { line, col } => (line, col),
        };
        push_decimal(&mut out, line);
        push_text(&mut out, ":");
        push_decimal(&mut out, col);
        push_text(&mut out, ": ");
        let ghost head = out@;
        match *self {
            LexError::UnexpectedBang { .. } => push_text(&mut out, "Unexpected '!'"),
            LexError::UnexpectedChar { found, .. } => {
                push_text(&mut out, "Unexpected character '");
                out.push(found);
                push_text(&mut out, "'");
            },
            LexError::UnterminatedString { .. } => push_text(&mut out, "Unterminated string"),
            LexError::InvalidInt { .. } => push_text(
                &mut out,
                "Invalid int: number too large to fit in target type",
            ),
        }
        assert(out@ =~= lex_message(*self));
        string_of(&out)
    }
}

// ---------------------------------------------------------------------------
// Positions

/// The position after reading character `c` at position `p`.
pub open spec fn step(p: (int, int), c: char) -> (int, int) {
    if c == '\n' {
        (p.0 + 1, 1)
    } else {
        (p.0, p.1 + 1)
    }
}

/// The position reached from position `p` at index `i` after reading the
/// characters `s[i..j]`.
pub open spec fn pos_after(s: Seq<char>, i: int, j: int, p: (int, int)) -> (int, int)
    decreases j - i,
{
    if j <= i {
        p
    } else {
        step(pos_after(s, i, j - 1, p), s[j - 1])
    }
}

pub proof fn lemma_pos_after_one(s: Seq<char>, i: int, p: (int, int))
    ensures
        pos_after(s, i, i + 1, p) == step(p, s[i]),
{
    assert(pos_after(s, i, i, p) == p);
}

pub proof fn lemma_pos_after_next(s: Seq<char>, i: int, j: int, p: (int, int))
    requires
        i <= j,
    ensures
        pos_after(s, i, j + 1, p) == step(pos_after(s, i, j, p), s[j]),
{
}

pub proof fn lemma_pos_after_compose(s: Seq<char>, i: int, j: int, k: int, p: (int, int))
    requires
        i <= j <= k,
    ensures
        pos_after(s, j, k, pos_after(s, i, j, p)) == pos_after(s, i, k, p),
    decreases k - j,
{
    if k > j {
        lemma_pos_after_compose(s, i, j, k - 1, p);
    }
}

// ---------------------------------------------------------------------------
// The lexical grammar

/// Where white space and `//` comments starting at `i` end.
pub open spec fn ws_end(s: Seq<char>, i: int, in_comment: bool) -> int
    decreases s.len() - i, (if in_comment { 1int } else { 0int }),
{
    if i < 0 || i >= s.len() {
        i
    } else if in_comment {
        if s[i] == '\n' {
            ws_end(s, i, false)
        } else {
            ws_end(s, i + 1, true)
        }
    } else if unicode_whitespace(s[i]) {
        ws_end(s, i + 1, false)
    } else if s[i] == '/' && i + 1 < s.len() && s[i + 1] == '/' {
        ws_end(s, i + 2, true)
    } else {
        i
    }
}

/// The character an escape `\e` stands for inside a string literal.
pub open spec fn escape_char(e: char) -> char {
    if e == 'n' {
        '\n'
    } else if e == 't' {
        '\t'
    } else {
        e
    }
}

/// The body of a string literal from `i` (just after the opening quote):
/// its characters, and the index just after the closing quote.
pub open spec fn string_body(s: Seq<char>, i: int, acc: Seq<char>) -> Option<(Seq<char>, int)>
    decreases s.len() - i,
{
    if i < 0 || i >= s.len() {
        None
    } else if s[i] == '"' {
        Some((acc, i + 1))
    } else if s[i] == '\\' {
        if i + 1 >= s.len() {
            None
        } else {
            string_body(s, i + 2, acc.push(escape_char(s[i + 1])))
        }
    } else {
        string_body(s, i + 1, acc.push(s[i]))
    }
}

/// The end of a number literal from `i`: digits with at most one `.`;
/// also whether a `.` was read.
pub open spec fn number_scan(s: Seq<char>, i: int, dot: bool) -> (int, bool)
    decreases s.len() - i,
{
    if i < 0 || i >= s.len() {
        (i, dot)
    } else if ascii_digit(s[i]) {
        number_scan(s, i + 1, dot)
    } else if s[i] == '.' && !dot {
        number_scan(s, i + 1, true)
    } else {
        (i, dot)
    }
}

/// The value of a string of decimal digits.
pub open spec fn decimal_value(t: Seq<char>) -> int
    decreases t.len(),
{
    if t.len() == 0 {
        0
    } else {
        decimal_value(t.drop_last()) * 10 + digit_value(t.last())
    }
}

/// The end of an identifier or keyword from `i`.
pub open spec fn ident_end(s: Seq<char>, i: int) -> int
    decreases s.len() - i,
{
    if i < 0 || i >= s.len() {
        i
    } else if unicode_alphanumeric(s[i]) || s[i] == '_' {
        ident_end(s, i + 1)
    } else {
        i
    }
}

/// The keyword a word spells, if any.
pub open spec fn keyword(w: Seq<char>) -> Option<TokView> {
    if w == seq!['g', 'e', 'n'] {
        Some(TokView::Gen)
    } else if w == seq!['l', 'e', 't'] {
        Some(TokView::Let)
    } else if w == seq!['c', 'o', 'n', 'c', 'e', 'p', 't'] {
        Some(TokView::Concept)
    } else if w == seq!['c', 'o', 'n', 's', 't', 'r', 'a', 'i', 'n', 't'] {
        Some(TokView::Constraint)
    } else if w == seq!['e', 'v', 'e', 'n', 't'] {
        Some(TokView::Event)
    } else if w == seq!['e', 'n', 'f', 'o', 'r', 'c', 'e'] {
        Some(TokView::Enforce)
    } else if w == seq!['r', 'e', 'q', 'u', 'i', 'r', 'e', 's'] {
        Some(TokView::Requires)
    } else if w == seq!['i', 'f'] {
        Some(TokView::If)
    } else if w == seq!['e', 'l', 's', 'e'] {
        Some(TokView::Else)
    } else if w == seq!['m', 'a', 't', 'c', 'h'] {
        Some(TokView::Match)
    } else if w == seq!['i', 'n', 'g', 'e', 's', 't'] {
        Some(TokView::Ingest)
    } else if w == seq!['p', 'r', 'i', 'n', 't'] {
        Some(TokView::Print)
    } else if w == seq!['f', 'n'] {
        Some(TokView::Fn)
    } else if w == seq!['i', 'm', 'p', 'o', 'r', 't'] {
        Some(TokView::Import)
    } else {
        None
    }
}

/// The token a word is: its keyword, or else an identifier.
pub open spec fn word_tok(w: Seq<char>) -> TokView {
    match keyword(w) {
        Some(t) => t,
        None => TokView::Ident(w),
    }
}

/// The characters that begin an operator or punctuation token.
pub open spec fn symbol_start(c: char) -> bool {
    c == '+' || c == '-' || c == '*' || c == '/' || c == '=' || c == '!' || c == '>' || c == '<'
        || c == ':' || c == ';' || c == ',' || c == '(' || c == ')' || c == '{' || c == '}'
}

/// The character after index `j`, if there is one.
pub open spec fn next_char(s: Seq<char>, j: int) -> Option<char> {
    if 0 <= j + 1 < s.len() {
        Some(s[j + 1])
    } else {
        None
    }
}

/// The operator or punctuation token at `j` (where `symbol_start(s[j])`)
/// and the index after it; `p` is the position of `j`.
pub open spec fn symbol_at(s: Seq<char>, j: int, p: (int, int)) -> Result<(TokView, int), LexError> {
    let c = s[j];
    let n = next_char(s, j);
    if c == '+' {
        Ok((TokView::Plus, j + 1))
    } else if c == '-' {
        if n == Some('>') {
            Ok((TokView::Arrow, j + 2))
        } else {
            Ok((TokView::Minus, j + 1))
        }
    } else if c == '*' {
        Ok((TokView::Star, j + 1))
    } else if c == '/' {
        Ok((TokView::Slash, j + 1))
    } else if c == '=' {
        if n == Some('=') {
            Ok((TokView::Eq, j + 2))
        } else if n == Some('>') {
            Ok((TokView::FatArrow, j + 2))
        } else {
            Ok((TokView::Assign, j + 1))
        }
    } else if c == '!' {
        if n == Some('=') {
            Ok((TokView::NotEq, j + 2))
        } else {
            Err(LexError::UnexpectedBang { line: p.0 as usize, col: p.1 as usize })
        }
    } else if c == '>' {
        if n == Some('=') {
            Ok((TokView::Gte, j + 2))
        } else {
            Ok((TokView::Gt, j + 1))
        }
    } else if c == '<' {
        if n == Some('=') {
            Ok((TokView::Lte, j + 2))
        } else {
            Ok((TokView::Lt, j + 1))
        }
    } else if c == ':' {
        Ok((TokView::Colon, j + 1))
    } else if c == ';' {
        Ok((TokView::Semicolon, j + 1))
    } else if c == ',' {
        Ok((TokView::Comma, j + 1))
    } else if c == '(' {
        Ok((TokView::LParen, j + 1))
    } else if c == ')' {
        Ok((TokView::RParen, j + 1))
    } else if c == '{' {
        Ok((TokView::LBrace, j + 1))
    } else {
        Ok((TokView::RBrace, j + 1))
    }
}

/// The number token at `j` (where `s[j]` is a digit) and the index after it.
pub open spec fn number_at(s: Seq<char>, j: int, p: (int, int)) -> Result<(TokView, int), LexError> {
    let (e, dot) = number_scan(s, j, false);
    let t = s.subrange(j, e);
    if dot {
        Ok((TokView::Float(t), e))
    } else if decimal_value(t) <= i64::MAX {
        Ok((TokView::Int(decimal_value(t) as i64), e))
    } else {
        Err(LexError::InvalidInt { line: p.0 as usize, col: p.1 as usize })
    }
}

/// The token starting at index `j` (which holds no white space) and the
/// index after it; `p` is the position of `j`.
pub open spec fn lex_at(s: Seq<char>, j: int, p: (int, int)) -> Result<(TokView, int), LexError> {
    let c = s[j];
    if symbol_start(c) {
        symbol_at(s, j, p)
    } else if c == '"' {
        match string_body(s, j + 1, Seq::empty()) {
            Some((t, e)) => Ok((TokView::Str(t), e)),
            None => Err(LexError::UnterminatedString { line: p.0 as usize, col: p.1 as usize }),
        }
    } else if ascii_digit(c) {
        number_at(s, j, p)
    } else if unicode_alphabetic(c) || c == '_' {
        let e = ident_end(s, j);
        Ok((word_tok(s.subrange(j, e)), e))
    } else {
        Err(LexError::UnexpectedChar { line: p.0 as usize, col: p.1 as usize, found: c })
    }
}

/// The token each operator and punctuation character starts: `+ * / : ; ,
/// ( ) { }` stand alone; `-` is `->` before `>`; `=` is `==` or `=>`
/// before `=` or `>`; `>` and `<` take a following `=`; `!` must be
/// followed by `=`.
pub proof fn lemma_symbol_tokens(s: Seq<char>, j: int, p: (int, int))
    requires
        0 <= j < s.len(),
    ensures
        ({
            let c = s[j];
            let n = if j + 1 < s.len() {
                Some(s[j + 1])
            } else {
                None
            };
            &&& c == '+' ==> lex_at(s, j, p) == Ok::<(TokView, int), LexError>((TokView::Plus, j + 1))
            &&& c == '*' ==> lex_at(s, j, p) == Ok::<(TokView, int), LexError>((TokView::Star, j + 1))
            &&& c == '/' ==> lex_at(s, j, p) == Ok::<(TokView, int), LexError>((TokView::Slash, j + 1))
            &&& c == ':' ==> lex_at(s, j, p) == Ok::<(TokView, int), LexError>((TokView::Colon, j + 1))
            &&& c == ';' ==> lex_at(s, j, p) == Ok::<(TokView, int), LexError>((TokView::Semicolon, j + 1))
            &&& c == ',' ==> lex_at(s, j, p) == Ok::<(TokView, int), LexError>((TokView::Comma, j + 1))
            &&& c == '(' ==> lex_at(s, j, p) == Ok::<(TokView, int), LexError>((TokView::LParen, j + 1))
            &&& c == ')' ==> lex_at(s, j, p) == Ok::<(TokView, int), LexError>((TokView::RParen, j + 1))
            &&& c == '{' ==> lex_at(s, j, p) == Ok::<(TokView, int), LexError>((TokView::LBrace, j + 1))
            &&& c == '}' ==> lex_at(s, j, p) == Ok::<(TokView, int), LexError>((TokView::RBrace, j + 1))
            &&& c == '-' ==> lex_at(s, j, p) == if n == Some('>') {
                Ok::<(TokView, int), LexError>((TokView::Arrow, j + 2))
            } else {
                Ok((TokView::Minus, j + 1))
            }
            &&& c == '=' ==> lex_at(s, j, p) == if n == Some('=') {
                Ok::<(TokView, int), LexError>((TokView::Eq, j + 2))
            } else if n == Some('>') {
                Ok((TokView::FatArrow, j + 2))
            } else {
                Ok((TokView::Assign, j + 1))
            }
            &&& c == '>' ==> lex_at(s, j, p) == if n == Some('=') {
                Ok::<(TokView, int), LexError>((TokView::Gte, j + 2))
            } else {
                Ok((TokView::Gt, j + 1))
            }
            &&& c == '<' ==> lex_at(s, j, p) == if n == Some('=') {
                Ok::<(TokView, int), LexError>((TokView::Lte, j + 2))
            } else {
                Ok((TokView::Lt, j + 1))
            }
            &&& c == '!' ==> lex_at(s, j, p) == if n == Some('=') {
                Ok::<(TokView, int), LexError>((TokView::NotEq, j + 2))
            } else {
                Err(LexError::UnexpectedBang { line: p.0 as usize, col: p.1 as usize })
            }
        }),
{
}

proof fn lemma_number_scan_at(s: Seq<char>, i: int, e: int)
    requires
        0 <= i <= e <= s.len(),
        forall|m: int| i <= m < e ==> ascii_digit(#[trigger] s[m]),
        e == s.len() || (!ascii_digit(s[e]) && s[e] != '.'),
    ensures
        number_scan(s, i, false) == (e, false),
    decreases e - i,
{
    if i < e {
        lemma_number_scan_at(s, i + 1, e);
    }
}

/// A run of digits with no point after it is an integer token with the
/// run's decimal value, or an error where that value does not fit in 64
/// signed bits.
pub proof fn lemma_integer_token(s: Seq<char>, j: int, e: int, p: (int, int))
    requires
        0 <= j < e <= s.len(),
        forall|m: int| j <= m < e ==> ascii_digit(#[trigger] s[m]),
        e == s.len() || (!ascii_digit(s[e]) && s[e] != '.'),
    ensures
        lex_at(s, j, p) == if decimal_value(s.subrange(j, e)) <= i64::MAX {
            Ok::<(TokView, int), LexError>((TokView::Int(decimal_value(s.subrange(j, e)) as i64), e))
        } else {
            Err(LexError::InvalidInt { line: p.0 as usize, col: p.1 as usize })
        },
{
    assert(ascii_digit(s[j]));
    lemma_number_scan_at(s, j, e);
}

proof fn lemma_ident_end_at(s: Seq<char>, i: int, e: int)
    requires
        0 <= i <= e <= s.len(),
        forall|m: int| i <= m < e ==> unicode_alphanumeric(#[trigger] s[m]) || s[m] == '_',
        e == s.len() || !(unicode_alphanumeric(s[e]) || s[e] == '_'),
    ensures
        ident_end(s, i) == e,
    decreases e - i,
{
    if i < e {
        lemma_ident_end_at(s, i + 1, e);
    }
}

/// A word is read whole: from a letter or `_`, the longest run of
/// alphanumeric characters and `_` is one token, its keyword where it
/// spells one and an identifier otherwise.
pub proof fn lemma_word_token(s: Seq<char>, j: int, e: int, p: (int, int))
    requires
        0 <= j < e <= s.len(),
        unicode_alphabetic(s[j]) || s[j] == '_',
        !symbol_start(s[j]),
        s[j] != '"',
        !ascii_digit(s[j]),
        forall|m: int| j <= m < e ==> unicode_alphanumeric(#[trigger] s[m]) || s[m] == '_',
        e == s.len() || !(unicode_alphanumeric(s[e]) || s[e] == '_'),
    ensures
        lex_at(s, j, p) == Ok::<(TokView, int), LexError>((word_tok(s.subrange(j, e)), e)),
{
    lemma_ident_end_at(s, j, e);
}

pub proof fn lemma_ws_end_bounds(s: Seq<char>, i: int, in_comment: bool)
    requires
        0 <= i <= s.len(),
    ensures
        i <= ws_end(s, i, in_comment) <= s.len(),
    decreases s.len() - i, (if in_comment { 1int } else { 0int }),
{
    if i < s.len() {
        if in_comment {
            if s[i] == '\n' {
                lemma_ws_end_bounds(s, i, false);
            } else {
                lemma_ws_end_bounds(s, i + 1, true);
            }
        } else if unicode_whitespace(s[i]) {
            lemma_ws_end_bounds(s, i + 1, false);
        } else if s[i] == '/' && i + 1 < s.len() && s[i + 1] == '/' {
            lemma_ws_end_bounds(s, i + 2, true);
        }
    }
}

pub proof fn lemma_string_body_bounds(s: Seq<char>, i: int, acc: Seq<char>)
    requires
        0 <= i,
    ensures
        string_body(s, i, acc) matches Some((_, e)) ==> i < e <= s.len(),
    decreases s.len() - i,
{
    if 0 <= i < s.len() && s[i] != '"' {
        if s[i] == '\\' {
            if i + 1 < s.len() {
                lemma_string_body_bounds(s, i + 2, acc.push(escape_char(s[i + 1])));
            }
        } else {
            lemma_string_body_bounds(s, i + 1, acc.push(s[i]));
        }
    }
}

pub proof fn lemma_number_scan_bounds(s: Seq<char>, i: int, dot: bool)
    requires
        0 <= i <= s.len(),
    ensures
        i <= number_scan(s, i, dot).0 <= s.len(),
    decreases s.len() - i,
{
    if i < s.len() {
        if ascii_digit(s[i]) {
            lemma_number_scan_bounds(s, i + 1, dot);
        } else if s[i] == '.' && !dot {
            lemma_number_scan_bounds(s, i + 1, true);
        }
    }
}

pub proof fn lemma_ident_end_bounds(s: Seq<char>, i: int)
    requires
        0 <= i <= s.len(),
    ensures
        i <= ident_end(s, i) <= s.len(),
    decreases s.len() - i,
{
    if i < s.len() && (unicode_alphanumeric(s[i]) || s[i] == '_') {
        lemma_ident_end_bounds(s, i + 1);
    }
}

/// Every token read consumes at least one character and stays in the text.
pub proof fn lemma_lex_at_progress(s: Seq<char>, j: int, p: (int, int))
    requires
        0 <= j < s.len(),
    ensures
        lex_at(s, j, p) matches Ok((_, k)) ==> j < k <= s.len(),
{
    let c = s[j];
    if symbol_start(c) {
    } else if c == '"' {
        lemma_string_body_bounds(s, j + 1, Seq::empty());
    } else if ascii_digit(c) {
        lemma_number_scan_bounds(s, j + 1, false);
    } else if unicode_alphabetic(c) || c == '_' {
        lemma_ident_end_bounds(s, j + 1);
    }
}

/// The tokens of `s` from index `i`, at position `p`: every token in turn,
/// then `Eof` at the end of the text; or the first error.
pub open spec fn tokens_from(s: Seq<char>, i: int, p: (int, int)) -> Result<Seq<TokenView>, LexError>
    decreases s.len() - i,
{
    if i < 0 || i > s.len() {
        Ok(Seq::empty())
    } else {
        let j = ws_end(s, i, false);
        let pj = pos_after(s, i, j, p);
        if j >= s.len() {
            Ok(seq![TokenView { tok: TokView::Eof, line: pj.0, col: pj.1 }])
        } else {
            match lex_at(s, j, pj) {
                Err(e) => Err(e),
                Ok((t, k)) => {
                    proof {
                        lemma_ws_end_bounds(s, i, false);
                        lemma_lex_at_progress(s, j, pj);
                    }
                    match tokens_from(s, k, pos_after(s, j, k, pj)) {
                        Err(e) => Err(e),
                        Ok(rest) => Ok(seq![TokenView { tok: t, line: pj.0, col: pj.1 }] + rest),
                    }
                },
            }
        }
    }
}


/// Whether position `a` comes before position `b`: an earlier line, or the
/// same line and an earlier column.
pub open spec fn pos_before(a: (int, int), b: (int, int)) -> bool {
    a.0 < b.0 || (a.0 == b.0 && a.1 < b.1)
}

/// Reading characters never moves the position back, and reading at least
/// one moves it forward.
pub proof fn lemma_pos_after_moves(s: Seq<char>, i: int, j: int, p: (int, int))
    requires
        i <= j,
    ensures
        pos_after(s, i, j, p) == p || pos_before(p, pos_after(s, i, j, p)),
        i < j ==> pos_before(p, pos_after(s, i, j, p)),
    decreases j - i,
{
    if j > i {
        lemma_pos_after_moves(s, i, j - 1, p);
    }
}

/// A tokenization of the text from index `i` has at most one token per
/// remaining character, and one more for `Eof`; the tokens' positions
/// strictly increase, and none comes before the starting position.
pub proof fn lemma_tokens_ordered(s: Seq<char>, i: int, p: (int, int))
    requires
        0 <= i <= s.len(),
    ensures
        tokens_from(s, i, p) matches Ok(ts) ==> {
            &&& ts.len() <= s.len() - i + 1
            &&& forall|a: int, b: int| #![trigger ts[a], ts[b]] 0 <= a < b < ts.len() ==> pos_before(
                (ts[a].line, ts[a].col),
                (ts[b].line, ts[b].col),
            )
            &&& ts.len() > 0 ==> (p == (ts[0].line, ts[0].col) || pos_before(p, (ts[0].line, ts[0].col)))
        },
    decreases s.len() - i,
{
    let j = ws_end(s, i, false);
    let pj = pos_after(s, i, j, p);
    lemma_ws_end_bounds(s, i, false);
    lemma_pos_after_moves(s, i, j, p);
    if j < s.len() {
        lemma_lex_at_progress(s, j, pj);
        if let Ok((t, k)) = lex_at(s, j, pj) {
            let pk = pos_after(s, j, k, pj);
            lemma_pos_after_moves(s, j, k, pj);
            lemma_tokens_ordered(s, k, pk);
            if let Ok(rest) = tokens_from(s, k, pk) {
                let ts = seq![TokenView { tok: t, line: pj.0, col: pj.1 }] + rest;
                assert forall|a: int, b: int| #![trigger ts[a], ts[b]] 0 <= a < b < ts.len() implies pos_before(
                    (ts[a].line, ts[a].col),
                    (ts[b].line, ts[b].col),
                ) by {
                    assert(ts[b] == rest[b - 1]);
                    if a > 0 {
                        assert(ts[a] == rest[a - 1]);
                    }
                }
            }
        }
    }
}

/// No token read from the text is `Eof`.
pub proof fn lemma_lex_at_not_eof(s: Seq<char>, j: int, p: (int, int))
    requires
        0 <= j < s.len(),
    ensures
        lex_at(s, j, p) matches Ok((t, _)) ==> t != TokView::Eof,
{
}

/// A successful tokenization ends with exactly one `Eof`: it is the last
/// token and no other token is `Eof`.
pub proof fn lemma_tokens_end_with_eof(s: Seq<char>, i: int, p: (int, int))
    requires
        0 <= i <= s.len(),
    ensures
        tokens_from(s, i, p) matches Ok(ts) ==> {
            &&& ts.len() >= 1
            &&& ts.last().tok == TokView::Eof
            &&& forall|k: int| 0 <= k < ts.len() - 1 ==> (#[trigger] ts[k]).tok != TokView::Eof
        },
    decreases s.len() - i,
{
    let j = ws_end(s, i, false);
    let pj = pos_after(s, i, j, p);
    lemma_ws_end_bounds(s, i, false);
    if j < s.len() {
        lemma_lex_at_not_eof(s, j, pj);
        lemma_lex_at_progress(s, j, pj);
        if let Ok((t, k)) = lex_at(s, j, pj) {
            lemma_tokens_end_with_eof(s, k, pos_after(s, j, k, pj));
            if let Ok(rest) = tokens_from(s, k, pos_after(s, j, k, pj)) {
                let ts = seq![TokenView { tok: t, line: pj.0, col: pj.1 }] + rest;
                assert forall|m: int| 0 <= m < ts.len() - 1 implies (#[trigger] ts[m]).tok != TokView::Eof by {
                    if m > 0 {
                        assert(ts[m] == rest[m - 1]);
                    }
                }
            }
        }
    }
}

/// The value of a sequence of tokens.
pub open spec fn tokens_view(v: Seq<Token>) -> Seq<TokenView> {
    v.map_values(|t: Token| t@)
}


pub proof fn lemma_subrange_push(s: Seq<char>, a: int, b: int)
    requires
        0 <= a <= b < s.len(),
    ensures
        s.subrange(a, b + 1) == s.subrange(a, b).push(s[b]),
{
    assert(s.subrange(a, b + 1) =~= s.subrange(a, b).push(s[b]));
}

/// A lexing result as values.
pub open spec fn lex_result(r: Result<Vec<Token>, LexError>) -> Result<Seq<TokenView>, LexError> {
    match r {
        Ok(v) => Ok(tokens_view(v@)),
        Err(e) => Err(e),
    }
}

/// `r` with `pre` put in front of its tokens.
pub open spec fn prefixed(pre: Seq<TokenView>, r: Result<Seq<TokenView>, LexError>) -> Result<Seq<TokenView>, LexError> {
    match r {
        Ok(rest) => Ok(pre + rest),
        Err(e) => Err(e),
    }
}

pub proof fn lemma_decimal_value_nonneg(t: Seq<char>)
    requires
        forall|k: int| 0 <= k < t.len() ==> ascii_digit(#[trigger] t[k]),
    ensures
        decimal_value(t) >= 0,
    decreases t.len(),
{
    if t.len() > 0 {
        lemma_decimal_value_nonneg(t.drop_last());
    }
}

/// A string of digits is worth at least as much as any of its prefixes.
pub proof fn lemma_decimal_value_prefix(t: Seq<char>, k: int)
    requires
        0 <= k <= t.len(),
        forall|m: int| 0 <= m < t.len() ==> ascii_digit(#[trigger] t[m]),
    ensures
        decimal_value(t.take(k)) <= decimal_value(t),
    decreases t.len() - k,
{
    if k < t.len() {
        let u = t.take(k + 1);
        assert(u.drop_last() =~= t.take(k));
        assert forall|m: int| 0 <= m < t.take(k).len() implies ascii_digit(#[trigger] t.take(k)[m]) by {
            assert(t.take(k)[m] == t[m]);
        }
        lemma_decimal_value_nonneg(t.take(k));
        lemma_decimal_value_prefix(t, k + 1);
    } else {
        assert(t.take(k) =~= t);
    }
}

/// Reads a string of ASCII digits as an `i64`; `None` where its value does
/// not fit.
pub fn parse_decimal(t: &Vec<char>) -> (r: Option<i64>)
    requires
        forall|k: int| 0 <= k < t@.len() ==> ascii_digit(#[trigger] t@[k]),
    ensures
        match r {
            Some(v) => v == decimal_value(t@),
            None => decimal_value(t@) > i64::MAX,
        },
{
    let mut v: i64 = 0;
    let mut i: usize = 0;
    assert(t@.take(0) =~= Seq::<char>::empty());
    while i < t.len()
        invariant
            i <= t@.len(),
            forall|k: int| 0 <= k < t@.len() ==> ascii_digit(#[trigger] t@[k]),
            v == decimal_value(t@.take(i as int)),
            v >= 0,
        decreases t.len() - i,
    {
        let c = t[i];
        assert(ascii_digit(t@[i as int]));
        let d: i64 = (c as u32 - '0' as u32) as i64;
        assert(t@.take(i + 1).drop_last() =~= t@.take(i as int));
        assert(decimal_value(t@.take(i + 1)) == v * 10 + d);
        if v > (i64::MAX - d) / 10 {
            assert(v * 10 + d > i64::MAX) by (nonlinear_arith)
                requires
                    v > (i64::MAX - d) / 10,
                    0 <= d <= 9,
            ;
            proof {
                lemma_decimal_value_prefix(t@, i + 1);
            }
            return None;
        }
        assert(v * 10 + d <= i64::MAX) by (nonlinear_arith)
            requires
                v <= (i64::MAX - d) / 10,
                0 <= d <= 9,
                v >= 0,
        ;
        v = v * 10 + d;
        i += 1;
    }
    assert(t@.take(t.len() as int) =~= t@);
    Some(v)
}

/// The keyword token a word spells, if any.
pub fn keyword_tok(w: &Vec<char>) -> (r: Option<Tok>)
    ensures
        match r {
            Some(t) => keyword(w@) == Some(t@),
            None => keyword(w@) is None,
        },
{
    if chars_eq(w, &['g', 'e', 'n']) {
        Some(Tok::Gen)
    } else if chars_eq(w, &['l', 'e', 't']) {
        Some(Tok::Let)
    } else if chars_eq(w, &['c', 'o', 'n', 'c', 'e', 'p', 't']) {
        Some(Tok::Concept)
    } else if chars_eq(w, &['c', 'o', 'n', 's', 't', 'r', 'a', 'i', 'n', 't']) {
        Some(Tok::Constraint)
    } else if chars_eq(w, &['e', 'v', 'e', 'n', 't']) {
        Some(Tok::Event)
    } else if chars_eq(w, &['e', 'n', 'f', 'o', 'r', 'c', 'e']) {
        Some(Tok::Enforce)
    } else if chars_eq(w, &['r', 'e', 'q', 'u', 'i', 'r', 'e', 's']) {
        Some(Tok::Requires)
    } else if chars_eq(w, &['i', 'f']) {
        Some(Tok::If)
    } else if chars_eq(w, &['e', 'l', 's', 'e']) {
        Some(Tok::Else)
    } else if chars_eq(w, &['m', 'a', 't', 'c', 'h']) {
        Some(Tok::Match)
    } else if chars_eq(w, &['i', 'n', 'g', 'e', 's', 't']) {
        Some(Tok::Ingest)
    } else if chars_eq(w, &['p', 'r', 'i', 'n', 't']) {
        Some(Tok::Print)
    } else if chars_eq(w, &['f', 'n']) {
        Some(Tok::Fn)
    } else if chars_eq(w, &['i', 'm', 'p', 'o', 'r', 't']) {
        Some(Tok::Import)
    } else {
        None
    }
}

/// A tokenizer over a source text: the text, the index of the next
/// character, and the line and column of that character.
pub struct Lexer {
    chars: Vec<char>,
    pos: usize,
    line: usize,
    col: usize,
}

/// The state of a tokenizer as values.
pub struct LexerView {
    pub chars: Seq<char>,
    pub pos: int,
    pub line: int,
    pub col: int,
}

impl View for Lexer {
    type V = LexerView;

    closed spec fn view(&self) -> LexerView {
        LexerView {
            chars: self.chars@,
            pos: self.pos as int,
            line: self.line as int,
            col: self.col as int,
        }
    }
}

impl Lexer {
    /// The index is within the text, and the line and column cannot overflow
    /// while the rest of the text is read.
    pub open spec fn wf(&self) -> bool {
        &&& 0 <= self@.pos <= self@.chars.len()
        &&& self@.line + (self@.chars.len() - self@.pos) < usize::MAX
        &&& self@.col + (self@.chars.len() - self@.pos) < usize::MAX
    }

    /// The position of the next character.
    pub open spec fn position(&self) -> (int, int) {
        (self@.line, self@.col)
    }

    /// A tokenizer at the start of `src`, at line 1, column 1.
    pub fn new(src: &str) -> (l: Lexer)
        requires
            src@.len() + 1 < usize::MAX,
        ensures
            l@ == (LexerView { chars: src@, pos: 0, line: 1, col: 1 }),
            l.wf(),
    {
        Lexer { chars: chars_of(src), pos: 0, line: 1, col: 1 }
    }

    /// The next character, if any, without reading it.
    pub fn peek(&self) -> (r: Option<char>)
        ensures
            r == (if 0 <= self@.pos < self@.chars.len() {
                Some(self@.chars[self@.pos])
            } else {
                None
            }),
    {
        if self.pos < self.chars.len() {
            Some(self.chars[self.pos])
        } else {
            None
        }
    }

    /// Whether the next character is `c`.
    fn next_is(&self, c: char) -> (b: bool)
        ensures
            b == (0 <= self@.pos < self@.chars.len() && self@.chars[self@.pos] == c),
    {
        self.pos < self.chars.len() && self.chars[self.pos] == c
    }

    /// Reads the next character and moves the position past it; at the end
    /// of the text nothing is read, and the column still moves by one.
    pub fn advance(&mut self) -> (r: Option<char>)
        requires
            old(self).wf(),
        ensures
            final(self)@.chars == old(self)@.chars,
            old(self)@.pos < old(self)@.chars.len() ==> {
                &&& r == Some(old(self)@.chars[old(self)@.pos])
                &&& final(self)@.pos == old(self)@.pos + 1
                &&& final(self).position() == step(old(self).position(), old(self)@.chars[old(self)@.pos])
                &&& final(self).wf()
            },
            old(self)@.pos >= old(self)@.chars.len() ==> {
                &&& r is None
                &&& final(self)@.pos == old(self)@.pos
                &&& final(self)@.line == old(self)@.line
                &&& final(self)@.col == old(self)@.col + 1
            },
    {
        let c = if self.pos < self.chars.len() {
            let c = self.chars[self.pos];
            self.pos = self.pos + 1;
            Some(c)
        } else {
            None
        };
        match c {
            Some('\n') => {
                self.line = self.line + 1;
                self.col = 1;
            },
            _ => {
                self.col = self.col + 1;
            },
        }
        c
    }

    /// Moves past white space and `//` comments.
    pub fn skip_ws(&mut self)
        requires
            old(self).wf(),
        ensures
            final(self).wf(),
            final(self)@.chars == old(self)@.chars,
            final(self)@.pos == ws_end(old(self)@.chars, old(self)@.pos, false),
            final(self).position() == pos_after(
                old(self)@.chars,
                old(self)@.pos,
                final(self)@.pos,
                old(self).position(),
            ),
    {
        let ghost s = self@.chars;
        let ghost pos0 = self@.pos;
        let ghost p0 = self.position();
        loop
            invariant
                self.wf(),
                self@.chars == s,
                s == old(self)@.chars,
                pos0 == old(self)@.pos,
                p0 == old(self).position(),
                pos0 <= self@.pos,
                ws_end(s, self@.pos, false) == ws_end(s, pos0, false),
                self.position() == pos_after(s, pos0, self@.pos, p0),
            ensures
                self.wf(),
                self@.chars == s,
                self@.pos == ws_end(s, pos0, false),
                self.position() == pos_after(s, pos0, self@.pos, p0),
            decreases s.len() - self@.pos,
        {
            match self.peek() {
                None => {
                    break;
                },
                Some(c) => {
                    if is_whitespace(c) {
                        self.advance();
                    } else if c == '/' {
                        assert(self@.pos == self.pos as int);
                        assert(self.pos < self.chars.len());
                        if self.pos + 1 < self.chars.len() && self.chars[self.pos + 1] == '/' {
                            let ghost pc = self@.pos;
                            assert(ws_end(s, pc, false) == ws_end(s, pc + 2, true));
                            assert(ws_end(s, pc, true) == ws_end(s, pc + 1, true));
                            assert(ws_end(s, pc + 1, true) == ws_end(s, pc + 2, true));
                            loop
                                invariant
                                    self.wf(),
                                    self@.chars == s,
                                    pos0 <= pc <= self@.pos,
                                    pc + 1 < s.len(),
                                    s[pc] == '/',
                                    s[pc + 1] == '/',
                                    ws_end(s, self@.pos, true) == ws_end(s, pos0, false),
                                    self.position() == pos_after(s, pos0, self@.pos, p0),
                                ensures
                                    self.wf(),
                                    self@.chars == s,
                                    pc < self@.pos,
                                    ws_end(s, self@.pos, false) == ws_end(s, pos0, false),
                                    self.position() == pos_after(s, pos0, self@.pos, p0),
                                decreases s.len() - self@.pos,
                            {
                                match self.peek() {
                                    None => {
                                        break;
                                    },
                                    Some(c2) => {
                                        if c2 == '\n' {
                                            break;
                                        }
                                        self.advance();
                                    },
                                }
                            }
                        } else {
                            break;
                        }
                    } else {
                        break;
                    }
                },
            }
        }
    }

    /// Reads the rest of a string literal whose opening quote, at `line` and
    /// `col`, has just been read.
    fn read_string(&mut self, line: usize, col: usize) -> (r: Result<Tok, LexError>)
        requires
            old(self).wf(),
        ensures
            final(self)@.chars == old(self)@.chars,
            match string_body(old(self)@.chars, old(self)@.pos, Seq::empty()) {
                Some((t, e)) => {
                    &&& r matches Ok(tok) && tok@ == TokView::Str(t)
                    &&& final(self)@.pos == e
                    &&& final(self).position() == pos_after(
                        old(self)@.chars,
                        old(self)@.pos,
                        e,
                        old(self).position(),
                    )
                    &&& final(self).wf()
                },
                None => r == Err::<Tok, LexError>(
                    LexError::UnterminatedString { line, col },
                ),
            },
    {
        let ghost s = self@.chars;
        let ghost pos0 = self@.pos;
        let ghost p0 = self.position();
        let mut text = String::new();
        loop
            invariant
                self.wf(),
                self@.chars == s,
                s == old(self)@.chars,
                pos0 == old(self)@.pos,
                p0 == old(self).position(),
                pos0 <= self@.pos,
                string_body(s, self@.pos, text@) == string_body(s, pos0, Seq::empty()),
                self.position() == pos_after(s, pos0, self@.pos, p0),
            decreases s.len() - self@.pos,
        {
            proof {
                lemma_pos_after_next(s, pos0, self@.pos, p0);
            }
            match self.advance() {
                Some(c) => {
                    if c == '"' {
                        return Ok(Tok::Str(text));
                    } else if c == '\\' {
                        proof {
                            lemma_pos_after_next(s, pos0, self@.pos, p0);
                        }
                        match self.advance() {
                            Some(e) => {
                                let d = if e == 'n' {
                                    '\n'
                                } else if e == 't' {
                                    '\t'
                                } else {
                                    e
                                };
                                push_char(&mut text, d);
                            },
                            None => {
                                return Err(LexError::UnterminatedString { line, col });
                            },
                        }
                    } else {
                        push_char(&mut text, c);
                    }
                },
                None => {
                    return Err(LexError::UnterminatedString { line, col });
                },
            }
        }
    }

    /// Reads a number literal starting at the next character, a digit, at
    /// `line` and `col`.
    fn read_number(&mut self, line: usize, col: usize) -> (r: Result<Tok, LexError>)
        requires
            old(self).wf(),
            0 <= old(self)@.pos < old(self)@.chars.len(),
            ascii_digit(old(self)@.chars[old(self)@.pos]),
            old(self).position() == (line as int, col as int),
        ensures
            final(self)@.chars == old(self)@.chars,
            match number_at(old(self)@.chars, old(self)@.pos, (line as int, col as int)) {
                Ok((t, e)) => {
                    &&& r matches Ok(tok) && tok@ == t
                    &&& final(self)@.pos == e
                    &&& final(self).position() == pos_after(
                        old(self)@.chars,
                        old(self)@.pos,
                        e,
                        old(self).position(),
                    )
                    &&& final(self).wf()
                },
                Err(err) => r == Err::<Tok, LexError>(err),
            },
    {
        let ghost s = self@.chars;
        let ghost pos0 = self@.pos;
        let ghost p0 = self.position();
        let mut digits: Vec<char> = Vec::new();
        let mut is_float = false;
        loop
            invariant
                self.wf(),
                self@.chars == s,
                s == old(self)@.chars,
                pos0 == old(self)@.pos,
                p0 == old(self).position(),
                pos0 <= self@.pos <= s.len(),
                number_scan(s, self@.pos, is_float) == number_scan(s, pos0, false),
                digits@ == s.subrange(pos0, self@.pos),
                !is_float ==> forall|k: int| 0 <= k < digits@.len() ==> ascii_digit(#[trigger] digits@[k]),
                self.position() == pos_after(s, pos0, self@.pos, p0),
            ensures
                self.wf(),
                self@.chars == s,
                pos0 <= self@.pos <= s.len(),
                number_scan(s, pos0, false) == (self@.pos, is_float),
                digits@ == s.subrange(pos0, self@.pos),
                !is_float ==> forall|k: int| 0 <= k < digits@.len() ==> ascii_digit(#[trigger] digits@[k]),
                self.position() == pos_after(s, pos0, self@.pos, p0),
            decreases s.len() - self@.pos,
        {
            match self.peek() {
                Some(c) => {
                    if is_ascii_digit(c) {
                        proof {
                            lemma_subrange_push(s, pos0, self@.pos);
                        }
                        digits.push(c);
                        self.advance();
                        assert(digits@ =~= s.subrange(pos0, self@.pos));
                    } else if c == '.' && !is_float {
                        is_float = true;
                        proof {
                            lemma_subrange_push(s, pos0, self@.pos);
                        }
                        digits.push(c);
                        self.advance();
                        assert(digits@ =~= s.subrange(pos0, self@.pos));
                    } else {
                        break;
                    }
                },
                None => {
                    break;
                },
            }
        }
        if is_float {
            Ok(Tok::Float(string_of(&digits)))
        } else {
            match parse_decimal(&digits) {
                Some(v) => Ok(Tok::Int(v)),
                None => Err(LexError::InvalidInt { line, col }),
            }
        }
    }

    /// Reads an identifier or keyword starting at the next character.
    fn read_ident(&mut self) -> (t: Tok)
        requires
            old(self).wf(),
            0 <= old(self)@.pos < old(self)@.chars.len(),
        ensures
            final(self)@.chars == old(self)@.chars,
            t@ == word_tok(
                old(self)@.chars.subrange(old(self)@.pos, ident_end(old(self)@.chars, old(self)@.pos)),
            ),
            final(self)@.pos == ident_end(old(self)@.chars, old(self)@.pos),
            final(self).position() == pos_after(
                old(self)@.chars,
                old(self)@.pos,
                final(self)@.pos,
                old(self).position(),
            ),
            final(self).wf(),
    {
        let ghost s = self@.chars;
        let ghost pos0 = self@.pos;
        let ghost p0 = self.position();
        let mut word: Vec<char> = Vec::new();
        loop
            invariant
                self.wf(),
                self@.chars == s,
                s == old(self)@.chars,
                pos0 == old(self)@.pos,
                p0 == old(self).position(),
                pos0 <= self@.pos <= s.len(),
                ident_end(s, self@.pos) == ident_end(s, pos0),
                word@ == s.subrange(pos0, self@.pos),
                self.position() == pos_after(s, pos0, self@.pos, p0),
            ensures
                self.wf(),
                self@.chars == s,
                self@.pos == ident_end(s, pos0),
                word@ == s.subrange(pos0, self@.pos),
                self.position() == pos_after(s, pos0, self@.pos, p0),
            decreases s.len() - self@.pos,
        {
            match self.peek() {
                Some(c) => {
                    if is_alphanumeric(c) || c == '_' {
                        proof {
                            lemma_subrange_push(s, pos0, self@.pos);
                        }
                        word.push(c);
                        self.advance();
                        assert(word@ =~= s.subrange(pos0, self@.pos));
                    } else {
                        break;
                    }
                },
                None => {
                    break;
                },
            }
        }
        match keyword_tok(&word) {
            Some(t) => t,
            None => Tok::Ident(string_of(&word)),
        }
    }

    /// Reads an operator or punctuation token starting at the next
    /// character, at `line` and `col`.
    fn read_symbol(&mut self, line: usize, col: usize) -> (r: Result<Tok, LexError>)
        requires
            old(self).wf(),
            0 <= old(self)@.pos < old(self)@.chars.len(),
            symbol_start(old(self)@.chars[old(self)@.pos]),
        ensures
            final(self)@.chars == old(self)@.chars,
            match symbol_at(old(self)@.chars, old(self)@.pos, (line as int, col as int)) {
                Ok((t, e)) => {
                    &&& r matches Ok(tok) && tok@ == t
                    &&& final(self)@.pos == e
                    &&& final(self).position() == pos_after(
                        old(self)@.chars,
                        old(self)@.pos,
                        e,
                        old(self).position(),
                    )
                    &&& final(self).wf()
                },
                Err(err) => r == Err::<Tok, LexError>(err),
            },
    {
        let ghost s = self@.chars;
        let ghost pos0 = self@.pos;
        let ghost p0 = self.position();
        let c = self.chars[self.pos];
        self.advance();
        proof {
            lemma_pos_after_one(s, pos0, p0);
            if pos0 + 1 < s.len() {
                assert(pos_after(s, pos0, pos0 + 2, p0) == step(
                    pos_after(s, pos0, pos0 + 1, p0),
                    s[pos0 + 1],
                ));
            }
        }
        if c == '+' {
            Ok(Tok::Plus)
        } else if c == '-' {
            if self.next_is('>') {
                self.advance();
                Ok(Tok::Arrow)
            } else {
                Ok(Tok::Minus)
            }
        } else if c == '*' {
            Ok(Tok::Star)
        } else if c == '/' {
            Ok(Tok::Slash)
        } else if c == '=' {
            if self.next_is('=') {
                self.advance();
                Ok(Tok::Eq)
            } else if self.next_is('>') {
                self.advance();
                Ok(Tok::FatArrow)
            } else {
                Ok(Tok::Assign)
            }
        } else if c == '!' {
            if self.next_is('=') {
                self.advance();
                Ok(Tok::NotEq)
            } else {
                Err(LexError::UnexpectedBang { line, col })
            }
        } else if c == '>' {
            if self.next_is('=') {
                self.advance();
                Ok(Tok::Gte)
            } else {
                Ok(Tok::Gt)
            }
        } else if c == '<' {
            if self.next_is('=') {
                self.advance();
                Ok(Tok::Lte)
            } else {
                Ok(Tok::Lt)
            }
        } else if c == ':' {
            Ok(Tok::Colon)
        } else if c == ';' {
            Ok(Tok::Semicolon)
        } else if c == ',' {
            Ok(Tok::Comma)
        } else if c == '(' {
            Ok(Tok::LParen)
        } else if c == ')' {
            Ok(Tok::RParen)
        } else if c == '{' {
            Ok(Tok::LBrace)
        } else {
            Ok(Tok::RBrace)
        }
    }

    /// Reads the token starting at the next character, at `line` and `col`.
    fn read_token(&mut self, line: usize, col: usize) -> (r: Result<Tok, LexError>)
        requires
            old(self).wf(),
            0 <= old(self)@.pos < old(self)@.chars.len(),
            old(self).position() == (line as int, col as int),
        ensures
            final(self)@.chars == old(self)@.chars,
            match lex_at(old(self)@.chars, old(self)@.pos, (line as int, col as int)) {
                Ok((t, e)) => {
                    &&& r matches Ok(tok) && tok@ == t
                    &&& final(self)@.pos == e
                    &&& final(self).position() == pos_after(
                        old(self)@.chars,
                        old(self)@.pos,
                        e,
                        old(self).position(),
                    )
                    &&& final(self).wf()
                },
                Err(err) => r == Err::<Tok, LexError>(err),
            },
    {
        let ghost s = self@.chars;
        let ghost pos0 = self@.pos;
        let ghost p0 = self.position();
        let c = self.chars[self.pos];
        if c == '+' || c == '-' || c == '*' || c == '/' || c == '=' || c == '!' || c == '>' || c == '<'
            || c == ':' || c == ';' || c == ',' || c == '(' || c == ')' || c == '{' || c == '}' {
            self.read_symbol(line, col)
        } else if c == '"' {
            self.advance();
            let r = self.read_string(line, col);
            proof {
                lemma_pos_after_one(s, pos0, p0);
                if let Some((t, e)) = string_body(s, pos0 + 1, Seq::empty()) {
                    lemma_string_body_bounds(s, pos0 + 1, Seq::empty());
                    lemma_pos_after_compose(s, pos0, pos0 + 1, e, p0);
                }
            }
            r
        } else if is_ascii_digit(c) {
            self.read_number(line, col)
        } else if is_alphabetic(c) || c == '_' {
            Ok(self.read_ident())
        } else {
            Err(LexError::UnexpectedChar { line, col, found: c })
        }
    }

    /// Splits the rest of the text into tokens, ending with `Eof`.
    pub fn tokenize(&mut self) -> (r: Result<Vec<Token>, LexError>)
        requires
            old(self).wf(),
        ensures
            final(self)@.chars == old(self)@.chars,
            lex_result(r) == tokens_from(old(self)@.chars, old(self)@.pos, old(self).position()),
            r is Ok ==> final(self).wf() && final(self)@.pos == final(self)@.chars.len(),
    {
        let ghost s = self@.chars;
        let ghost pos0 = self@.pos;
        let ghost p0 = self.position();
        let mut tokens: Vec<Token> = Vec::new();
        assert(tokens_view(tokens@) =~= Seq::<TokenView>::empty());
        assert(prefixed(Seq::empty(), tokens_from(s, pos0, p0)) =~= tokens_from(s, pos0, p0)) by {
            match tokens_from(s, pos0, p0) {
                Ok(rest) => {
                    assert(Seq::<TokenView>::empty() + rest =~= rest);
                },
                Err(e) => {},
            }
        }
        loop
            invariant
                self.wf(),
                self@.chars == s,
                s == old(self)@.chars,
                pos0 == old(self)@.pos,
                p0 == old(self).position(),
                tokens_from(s, pos0, p0) == prefixed(
                    tokens_view(tokens@),
                    tokens_from(s, self@.pos, self.position()),
                ),
            decreases s.len() - self@.pos,
        {
            let ghost pos1 = self@.pos;
            self.skip_ws();
            proof {
                lemma_ws_end_bounds(s, pos1, false);
            }
            let line = self.line;
            let col = self.col;
            match self.peek() {
                None => {
                    let ghost before = tokens@;
                    tokens.push(Token { tok: Tok::Eof, line, col });
                    assert(tokens_view(tokens@) =~= tokens_view(before) + seq![
                        TokenView { tok: TokView::Eof, line: line as int, col: col as int },
                    ]);
                    return Ok(tokens);
                },
                Some(_) => {
                    let ghost j = self@.pos;
                    let ghost pj = self.position();
                    match self.read_token(line, col) {
                        Ok(tok) => {
                            proof {
                                lemma_lex_at_progress(s, j, pj);
                            }
                            let ghost before = tokens@;
                            let ghost tv = tok@;
                            tokens.push(Token { tok, line, col });
                            proof {
                                assert(tokens_view(tokens@) =~= tokens_view(before).push(
                                    TokenView { tok: tv, line: line as int, col: col as int },
                                ));
                                match tokens_from(s, self@.pos, self.position()) {
                                    Ok(rest) => {
                                        assert(tokens_view(before) + (seq![
                                            TokenView { tok: tv, line: line as int, col: col as int },
                                        ] + rest) =~= tokens_view(tokens@) + rest);
                                    },
                                    Err(e) => {},
                                }
                            }
                        },
                        Err(e) => {
                            return Err(e);
                        },
                    }
                },
            }
        }
    }
}

} // verus!
