//! The parser: a token sequence to a program, as the grammar says.
use vstd::prelude::*;
use crate::ast::{
    lemma_block_view, lemma_call_view, lemma_match_view, lemma_push_deep_view, BinOp, Decl, Expr,
    MatchArm, Program, Stmt,
};
use crate::grammar::{
    phrases_rest, params_rest, program_rest, requirements_rest, sp_concept, sp_constraint,
    sp_event, sp_event_head, sp_gen, sp_import, sp_item, sp_params, sp_phrases, sp_program,
    ItemView, additive_rest, args_rest, arms_rest, block_rest, comparison_rest, match_end,
    multiplicative_rest, skip_semis, sp_additive, sp_args, sp_block, sp_comparison, sp_expect,
    sp_expr, sp_ident, sp_if, sp_ingest, sp_let, sp_match, sp_multiplicative, sp_primary, sp_print,
    sp_unary, ParseError, Parsed,
};
use crate::lexer::{tokens_view, Tok, Token, TokenView};
use crate::text::{chars_eq, chars_of};

verus! {

/// The outcome of reading at a position, as the grammar's `Parsed`.
pub enum Step<T> {
    Done(T, usize),
    Fail(ParseError),
    Stuck,
}

impl<T: DeepView> DeepView for Step<T> {
    type V = Parsed<T::V>;

    open spec fn deep_view(&self) -> Parsed<T::V> {
        match self {
            Step::Done(v, p) => Parsed::Done(v.deep_view(), *p as int),
            Step::Fail(e) => Parsed::Fail(e.deep_view()),
            Step::Stuck => Parsed::Stuck,
        }
    }
}

/// `r` read past `pos`, within `len` tokens.
pub open spec fn advanced<T>(r: Step<T>, pos: usize, len: int) -> bool {
    r matches Step::Done(_, p) ==> pos < p && p <= len
}

/// `r` read from `pos` on, within `len` tokens.
pub open spec fn kept<T>(r: Step<T>, pos: usize, len: int) -> bool {
    r matches Step::Done(_, p) ==> pos <= p && p <= len
}

/// A top-level item: a declaration or a statement.
pub enum Item {
    Decl(Decl),
    Stmt(Stmt),
}

impl DeepView for Item {
    type V = ItemView;

    open spec fn deep_view(&self) -> ItemView {
        match self {
            Item::Decl(d) => ItemView::Decl(d.deep_view()),
            Item::Stmt(s) => ItemView::Stmt(s.deep_view()),
        }
    }
}

/// A parser over a token sequence and the index of the next token.
pub struct Parser {
    tokens: Vec<Token>,
    pos: usize,
}

/// The state of a parser as values.
pub struct ParserView {
    pub tokens: Seq<TokenView>,
    pub pos: int,
}

impl View for Parser {
    type V = ParserView;

    closed spec fn view(&self) -> ParserView {
        ParserView { tokens: tokens_view(self.tokens@), pos: self.pos as int }
    }
}

/// Whether `s` is the word `_`.
fn is_underscore(s: &String) -> (b: bool)
    ensures
        b == (s@ == seq!['_']),
{
    let v = chars_of(s.as_str());
    let r = chars_eq(&v, &['_']);
    assert(['_']@ =~= seq!['_']);
    r
}

impl Parser {
    /// A parser at the first of `tokens`.
    pub fn new(tokens: Vec<Token>) -> (p: Parser)
        ensures
            p@ == (ParserView { tokens: tokens_view(tokens@), pos: 0 }),
    {
        Parser { tokens, pos: 0 }
    }

    proof fn lemma_len(&self)
        ensures
            self@.tokens.len() == self.tokens@.len(),
            forall|i: int| 0 <= i < self.tokens@.len() ==> #[trigger] self@.tokens[i] == self.tokens@[i]@,
    {
    }

    /// Reads the token `t`.
    fn expect(&self, pos: usize, t: Tok) -> (r: Step<()>)
        ensures
            r.deep_view() == sp_expect(self@.tokens, pos as int, t@),
            r matches Step::Done(_, p) ==> p == pos + 1 && p <= self@.tokens.len(),
    {
        proof {
            self.lemma_len();
        }
        if pos >= self.tokens.len() {
            return Step::Stuck;
        }
        let tok = &self.tokens[pos];
        if tok.tok.same(&t) {
            Step::Done((), pos + 1)
        } else {
            Step::Fail(
                ParseError::Expected { line: tok.line, col: tok.col, expected: t, found: tok.tok.duplicate() },
            )
        }
    }

    /// Reads an identifier.
    fn parse_ident(&self, pos: usize) -> (r: Step<String>)
        ensures
            r.deep_view() == sp_ident(self@.tokens, pos as int),
            r matches Step::Done(_, p) ==> p == pos + 1 && p <= self@.tokens.len(),
    {
        proof {
            self.lemma_len();
        }
        if pos >= self.tokens.len() {
            return Step::Stuck;
        }
        match &self.tokens[pos].tok {
            Tok::Ident(s) => Step::Done(s.clone(), pos + 1),
            t => {
                if pos + 1 >= self.tokens.len() {
                    Step::Stuck
                } else {
                    Step::Fail(
                        ParseError::Identifier {
                            line: self.tokens[pos + 1].line,
                            col: self.tokens[pos + 1].col,
                            found: t.duplicate(),
                        },
                    )
                }
            },
        }
    }

    /// Where a run of semicolons from `pos` ends.
    fn skip_semis(&self, pos: usize) -> (r: Option<usize>)
        ensures
            match r {
                Some(q) => skip_semis(self@.tokens, pos as int) == Some(q as int) && pos <= q < self@.tokens.len(),
                None => skip_semis(self@.tokens, pos as int) is None,
            },
    {
        proof {
            self.lemma_len();
        }
        let mut cur = pos;
        loop
            invariant
                pos <= cur,
                skip_semis(self@.tokens, cur as int) == skip_semis(self@.tokens, pos as int),
                self@.tokens.len() == self.tokens@.len(),
                forall|i: int| 0 <= i < self.tokens@.len() ==> #[trigger] self@.tokens[i] == self.tokens@[i]@,
            decreases self.tokens@.len() - cur,
        {
            if cur >= self.tokens.len() {
                return None;
            }
            match self.tokens[cur].tok {
                Tok::Semicolon => {
                    cur = cur + 1;
                },
                _ => {
                    return Some(cur);
                },
            }
        }
    }

    /// An expression.
    fn parse_expr(&self, pos: usize) -> (r: Step<Expr>)
        ensures
            r.deep_view() == sp_expr(self@.tokens, pos as int),
            advanced(r, pos, self@.tokens.len() as int),
        decreases self@.tokens.len() - pos, 20int,
    {
        self.parse_comparison(pos)
    }

    fn parse_comparison(&self, pos: usize) -> (r: Step<Expr>)
        ensures
            r.deep_view() == sp_comparison(self@.tokens, pos as int),
            advanced(r, pos, self@.tokens.len() as int),
        decreases self@.tokens.len() - pos, 19int,
    {
        proof {
            self.lemma_len();
        }
        let (mut left, mut cur) = match self.parse_additive(pos) {
            Step::Done(l, p) => (l, p),
            Step::Fail(e) => {
                return Step::Fail(e);
            },
            Step::Stuck => {
                return Step::Stuck;
            },
        };
        loop
            invariant
                pos < cur <= self@.tokens.len(),
                comparison_rest(self@.tokens, left.deep_view(), cur as int) == sp_comparison(
                    self@.tokens,
                    pos as int,
                ),
                self@.tokens.len() == self.tokens@.len(),
                forall|i: int| 0 <= i < self.tokens@.len() ==> #[trigger] self@.tokens[i] == self.tokens@[i]@,
            decreases self@.tokens.len() - cur,
        {
            if cur >= self.tokens.len() {
                return Step::Stuck;
            }
            let op = match self.tokens[cur].tok {
                Tok::Eq => BinOp::Eq,
                Tok::NotEq => BinOp::NotEq,
                Tok::Gte => BinOp::Gte,
                Tok::Lte => BinOp::Lte,
                Tok::Gt => BinOp::Gt,
                Tok::Lt => BinOp::Lt,
                _ => {
                    return Step::Done(left, cur);
                },
            };
            match self.parse_additive(cur + 1) {
                Step::Done(r, p) => {
                    left = Expr::BinOp(Box::new(left), op, Box::new(r));
                    cur = p;
                },
                Step::Fail(e) => {
                    return Step::Fail(e);
                },
                Step::Stuck => {
                    return Step::Stuck;
                },
            }
        }
    }

    fn parse_additive(&self, pos: usize) -> (r: Step<Expr>)
        ensures
            r.deep_view() == sp_additive(self@.tokens, pos as int),
            advanced(r, pos, self@.tokens.len() as int),
        decreases self@.tokens.len() - pos, 17int,
    {
        proof {
            self.lemma_len();
        }
        let (mut left, mut cur) = match self.parse_multiplicative(pos) {
            Step::Done(l, p) => (l, p),
            Step::Fail(e) => {
                return Step::Fail(e);
            },
            Step::Stuck => {
                return Step::Stuck;
            },
        };
        loop
            invariant
                pos < cur <= self@.tokens.len(),
                additive_rest(self@.tokens, left.deep_view(), cur as int) == sp_additive(
                    self@.tokens,
                    pos as int,
                ),
                self@.tokens.len() == self.tokens@.len(),
                forall|i: int| 0 <= i < self.tokens@.len() ==> #[trigger] self@.tokens[i] == self.tokens@[i]@,
            decreases self@.tokens.len() - cur,
        {
            if cur >= self.tokens.len() {
                return Step::Stuck;
            }
            let op = match self.tokens[cur].tok {
                Tok::Plus => BinOp::Add,
                Tok::Minus => BinOp::Sub,
                _ => {
                    return Step::Done(left, cur);
                },
            };
            match self.parse_multiplicative(cur + 1) {
                Step::Done(r, p) => {
                    left = Expr::BinOp(Box::new(left), op, Box::new(r));
                    cur = p;
                },
                Step::Fail(e) => {
                    return Step::Fail(e);
                },
                Step::Stuck => {
                    return Step::Stuck;
                },
            }
        }
    }

    fn parse_multiplicative(&self, pos: usize) -> (r: Step<Expr>)
        ensures
            r.deep_view() == sp_multiplicative(self@.tokens, pos as int),
            advanced(r, pos, self@.tokens.len() as int),
        decreases self@.tokens.len() - pos, 14int,
    {
        proof {
            self.lemma_len();
        }
        let (mut left, mut cur) = match self.parse_unary(pos) {
            Step::Done(l, p) => (l, p),
            Step::Fail(e) => {
                return Step::Fail(e);
            },
            Step::Stuck => {
                return Step::Stuck;
            },
        };
        loop
            invariant
                pos < cur <= self@.tokens.len(),
                multiplicative_rest(self@.tokens, left.deep_view(), cur as int) == sp_multiplicative(
                    self@.tokens,
                    pos as int,
                ),
                self@.tokens.len() == self.tokens@.len(),
                forall|i: int| 0 <= i < self.tokens@.len() ==> #[trigger] self@.tokens[i] == self.tokens@[i]@,
            decreases self@.tokens.len() - cur,
        {
            if cur >= self.tokens.len() {
                return Step::Stuck;
            }
            let op = match self.tokens[cur].tok {
                Tok::Star => BinOp::Mul,
                Tok::Slash => BinOp::Div,
                _ => {
                    return Step::Done(left, cur);
                },
            };
            match self.parse_unary(cur + 1) {
                Step::Done(r, p) => {
                    left = Expr::BinOp(Box::new(left), op, Box::new(r));
                    cur = p;
                },
                Step::Fail(e) => {
                    return Step::Fail(e);
                },
                Step::Stuck => {
                    return Step::Stuck;
                },
            }
        }
    }

    fn parse_unary(&self, pos: usize) -> (r: Step<Expr>)
        ensures
            r.deep_view() == sp_unary(self@.tokens, pos as int),
            advanced(r, pos, self@.tokens.len() as int),
        decreases self@.tokens.len() - pos, 11int,
    {
        proof {
            self.lemma_len();
        }
        if pos >= self.tokens.len() {
            return Step::Stuck;
        }
        match self.tokens[pos].tok {
            Tok::Minus => match self.parse_primary(pos + 1) {
                Step::Done(e, p) => {
                    assert(Expr::Int(0).deep_view() == crate::ast::ExprView::Int(0));
                    Step::Done(Expr::BinOp(Box::new(Expr::Int(0)), BinOp::Sub, Box::new(e)), p)
                },
                Step::Fail(e) => Step::Fail(e),
                Step::Stuck => Step::Stuck,
            },
            _ => self.parse_primary(pos),
        }
    }

    fn parse_primary(&self, pos: usize) -> (r: Step<Expr>)
        ensures
            r.deep_view() == sp_primary(self@.tokens, pos as int),
            advanced(r, pos, self@.tokens.len() as int),
        decreases self@.tokens.len() - pos, 10int,
    {
        proof {
            self.lemma_len();
        }
        if pos >= self.tokens.len() {
            return Step::Stuck;
        }
        let tok = &self.tokens[pos];
        match &tok.tok {
            Tok::Int(n) => Step::Done(Expr::Int(*n), pos + 1),
            Tok::Float(s) => Step::Done(Expr::Float(s.clone()), pos + 1),
            Tok::Str(s) => Step::Done(Expr::Str(s.clone()), pos + 1),
            Tok::LParen => match self.parse_expr(pos + 1) {
                Step::Done(e, p) => match self.expect(p, Tok::RParen) {
                    Step::Done(_, q) => Step::Done(e, q),
                    Step::Fail(x) => Step::Fail(x),
                    Step::Stuck => Step::Stuck,
                },
                Step::Fail(x) => Step::Fail(x),
                Step::Stuck => Step::Stuck,
            },
            Tok::LBrace => self.parse_block(pos),
            Tok::If => self.parse_if(pos),
            Tok::Match => self.parse_match(pos),
            Tok::Ident(name) => {
                if pos + 1 >= self.tokens.len() {
                    return Step::Stuck;
                }
                match self.tokens[pos + 1].tok {
                    Tok::LParen => match self.parse_args(pos + 2) {
                        Step::Done(args, p) => match self.expect(p, Tok::RParen) {
                            Step::Done(_, q) => {
                                let n = name.clone();
                                proof {
                                    lemma_call_view(n, args);
                                }
                                Step::Done(Expr::Call(n, args), q)
                            },
                            Step::Fail(x) => Step::Fail(x),
                            Step::Stuck => Step::Stuck,
                        },
                        Step::Fail(x) => Step::Fail(x),
                        Step::Stuck => Step::Stuck,
                    },
                    _ => Step::Done(Expr::Var(name.clone()), pos + 1),
                }
            },
            t => Step::Fail(
                ParseError::UnexpectedToken { line: tok.line, col: tok.col, found: t.duplicate() },
            ),
        }
    }

    /// The arguments of a call, up to the closing parenthesis.
    fn parse_args(&self, pos: usize) -> (r: Step<Vec<Expr>>)
        ensures
            r.deep_view() == sp_args(self@.tokens, pos as int),
            kept(r, pos, self@.tokens.len() as int),
        decreases self@.tokens.len() - pos, 21int,
    {
        proof {
            self.lemma_len();
        }
        if pos >= self.tokens.len() {
            return Step::Stuck;
        }
        if let Tok::RParen = self.tokens[pos].tok {
            let v: Vec<Expr> = Vec::new();
            assert(v.deep_view() =~= Seq::empty());
            return Step::Done(v, pos);
        }
        let mut args: Vec<Expr> = Vec::new();
        let mut cur = match self.parse_expr(pos) {
            Step::Done(e, p) => {
                let ghost v0 = args;
                let ghost ge = e;
                args.push(e);
                proof {
                    lemma_push_deep_view(v0, args, ge);
                    assert(v0.deep_view() =~= Seq::empty());
                    assert(args.deep_view() =~= seq![ge.deep_view()]);
                }
                p
            },
            Step::Fail(x) => {
                return Step::Fail(x);
            },
            Step::Stuck => {
                return Step::Stuck;
            },
        };
        loop
            invariant
                pos < cur <= self@.tokens.len(),
                args_rest(self@.tokens, args.deep_view(), cur as int) == sp_args(self@.tokens, pos as int),
                self@.tokens.len() == self.tokens@.len(),
                forall|i: int| 0 <= i < self.tokens@.len() ==> #[trigger] self@.tokens[i] == self.tokens@[i]@,
            decreases self@.tokens.len() - cur,
        {
            if cur >= self.tokens.len() {
                return Step::Stuck;
            }
            match self.tokens[cur].tok {
                Tok::Comma => {},
                _ => {
                    return Step::Done(args, cur);
                },
            }
            match self.parse_expr(cur + 1) {
                Step::Done(e, p) => {
                    let ghost v0 = args;
                    let ghost ge = e;
                    args.push(e);
                    proof {
                        lemma_push_deep_view(v0, args, ge);
                    }
                    cur = p;
                },
                Step::Fail(x) => {
                    return Step::Fail(x);
                },
                Step::Stuck => {
                    return Step::Stuck;
                },
            }
        }
    }

    /// The closing brace of a block.
    fn block_end(&self, stmts: Vec<Stmt>, last: Expr, pos: usize) -> (r: Step<Expr>)
        ensures
            r.deep_view() == crate::grammar::block_end(
                self@.tokens,
                stmts.deep_view(),
                last.deep_view(),
                pos as int,
            ),
            r matches Step::Done(_, p) ==> p == pos + 1 && p <= self@.tokens.len(),
    {
        match self.expect(pos, Tok::RBrace) {
            Step::Done(_, q) => {
                proof {
                    lemma_block_view(stmts, last);
                }
                Step::Done(Expr::Block(stmts, Box::new(last)), q)
            },
            Step::Fail(x) => Step::Fail(x),
            Step::Stuck => Step::Stuck,
        }
    }

    /// A block `{ .. }` at `pos`.
    fn parse_block(&self, pos: usize) -> (r: Step<Expr>)
        ensures
            r.deep_view() == sp_block(self@.tokens, pos as int),
            advanced(r, pos, self@.tokens.len() as int),
        decreases self@.tokens.len() - pos, 9int,
    {
        proof {
            self.lemma_len();
        }
        if pos >= self.tokens.len() {
            return Step::Stuck;
        }
        match self.tokens[pos].tok {
            Tok::LBrace => {},
            _ => {
                let tok = &self.tokens[pos];
                return Step::Fail(
                    ParseError::Expected {
                        line: tok.line,
                        col: tok.col,
                        expected: Tok::LBrace,
                        found: tok.tok.duplicate(),
                    },
                );
            },
        }
        let mut stmts: Vec<Stmt> = Vec::new();
        let mut cur = pos + 1;
        assert(stmts.deep_view() =~= Seq::empty());
        loop
            invariant
                pos < cur <= self@.tokens.len(),
                block_rest(self@.tokens, stmts.deep_view(), cur as int) == sp_block(self@.tokens, pos as int),
                self@.tokens.len() == self.tokens@.len(),
                forall|i: int| 0 <= i < self.tokens@.len() ==> #[trigger] self@.tokens[i] == self.tokens@[i]@,
            decreases self@.tokens.len() - cur,
        {
            if cur >= self.tokens.len() {
                return Step::Stuck;
            }
            let kind: u8 = match self.tokens[cur].tok {
                Tok::RBrace => 0,
                Tok::Eof => 0,
                Tok::Let => 1,
                Tok::Print => 2,
                Tok::Ingest => 3,
                _ => 4,
            };
            if kind == 0 {
                return self.block_end(stmts, Expr::Int(0), cur);
            } else if kind < 4 {
                let s = if kind == 1 {
                    self.parse_let(cur)
                } else if kind == 2 {
                    self.parse_print(cur)
                } else {
                    self.parse_ingest(cur)
                };
                match s {
                    Step::Done(st, p) => match self.skip_semis(p) {
                        Some(q) => {
                            let ghost v0 = stmts;
                            let ghost gs = st;
                            stmts.push(st);
                            proof {
                                lemma_push_deep_view(v0, stmts, gs);
                            }
                            cur = q;
                        },
                        None => {
                            return Step::Stuck;
                        },
                    },
                    Step::Fail(x) => {
                        return Step::Fail(x);
                    },
                    Step::Stuck => {
                        return Step::Stuck;
                    },
                }
            } else {
                match self.parse_expr(cur) {
                    Step::Done(e, p) => {
                        if p >= self.tokens.len() {
                            return Step::Stuck;
                        }
                        match self.tokens[p].tok {
                            Tok::Semicolon => match self.skip_semis(p) {
                                Some(q) => {
                                    let ghost v0 = stmts;
                                    let st = Stmt::Expr(e);
                                    let ghost gs = st;
                                    stmts.push(st);
                                    proof {
                                        lemma_push_deep_view(v0, stmts, gs);
                                    }
                                    cur = q;
                                },
                                None => {
                                    return Step::Stuck;
                                },
                            },
                            _ => {
                                return self.block_end(stmts, e, p);
                            },
                        }
                    },
                    Step::Fail(x) => {
                        return Step::Fail(x);
                    },
                    Step::Stuck => {
                        return Step::Stuck;
                    },
                }
            }
        }
    }

    /// `let name = value` at `pos`.
    fn parse_let(&self, pos: usize) -> (r: Step<Stmt>)
        ensures
            r.deep_view() == sp_let(self@.tokens, pos as int),
            advanced(r, pos, self@.tokens.len() as int),
        decreases self@.tokens.len() - pos, 8int,
    {
        proof {
            self.lemma_len();
        }
        if pos >= self.tokens.len() {
            return Step::Stuck;
        }
        match self.parse_ident(pos + 1) {
            Step::Done(name, p1) => match self.expect(p1, Tok::Assign) {
                Step::Done(_, p2) => match self.parse_expr(p2) {
                    Step::Done(v, p3) => Step::Done(Stmt::Let { name, value: v }, p3),
                    Step::Fail(x) => Step::Fail(x),
                    Step::Stuck => Step::Stuck,
                },
                Step::Fail(x) => Step::Fail(x),
                Step::Stuck => Step::Stuck,
            },
            Step::Fail(x) => Step::Fail(x),
            Step::Stuck => Step::Stuck,
        }
    }

    /// `print(e)` at `pos`.
    fn parse_print(&self, pos: usize) -> (r: Step<Stmt>)
        ensures
            r.deep_view() == sp_print(self@.tokens, pos as int),
            advanced(r, pos, self@.tokens.len() as int),
        decreases self@.tokens.len() - pos, 8int,
    {
        proof {
            self.lemma_len();
        }
        if pos >= self.tokens.len() {
            return Step::Stuck;
        }
        match self.expect(pos + 1, Tok::LParen) {
            Step::Done(_, p1) => match self.parse_expr(p1) {
                Step::Done(e, p2) => match self.expect(p2, Tok::RParen) {
                    Step::Done(_, p3) => Step::Done(Stmt::Print(e), p3),
                    Step::Fail(x) => Step::Fail(x),
                    Step::Stuck => Step::Stuck,
                },
                Step::Fail(x) => Step::Fail(x),
                Step::Stuck => Step::Stuck,
            },
            Step::Fail(x) => Step::Fail(x),
            Step::Stuck => Step::Stuck,
        }
    }

    /// `ingest "text"` at `pos`.
    fn parse_ingest(&self, pos: usize) -> (r: Step<Stmt>)
        ensures
            r.deep_view() == sp_ingest(self@.tokens, pos as int),
            advanced(r, pos, self@.tokens.len() as int),
    {
        proof {
            self.lemma_len();
        }
        if pos >= self.tokens.len() || pos + 1 >= self.tokens.len() {
            return Step::Stuck;
        }
        match &self.tokens[pos + 1].tok {
            Tok::Str(s) => Step::Done(Stmt::Ingest(s.clone()), pos + 2),
            t => Step::Fail(ParseError::IngestText { found: t.duplicate() }),
        }
    }

    /// `if c { .. } else { .. }` at `pos`.
    fn parse_if(&self, pos: usize) -> (r: Step<Expr>)
        ensures
            r.deep_view() == sp_if(self@.tokens, pos as int),
            advanced(r, pos, self@.tokens.len() as int),
        decreases self@.tokens.len() - pos, 9int,
    {
        proof {
            self.lemma_len();
        }
        if pos >= self.tokens.len() {
            return Step::Stuck;
        }
        match self.parse_expr(pos + 1) {
            Step::Done(c, p1) => match self.parse_block(p1) {
                Step::Done(t, p2) => match self.expect(p2, Tok::Else) {
                    Step::Done(_, p3) => match self.parse_block(p3) {
                        Step::Done(f, p4) => Step::Done(
                            Expr::If(Box::new(c), Box::new(t), Box::new(f)),
                            p4,
                        ),
                        Step::Fail(x) => Step::Fail(x),
                        Step::Stuck => Step::Stuck,
                    },
                    Step::Fail(x) => Step::Fail(x),
                    Step::Stuck => Step::Stuck,
                },
                Step::Fail(x) => Step::Fail(x),
                Step::Stuck => Step::Stuck,
            },
            Step::Fail(x) => Step::Fail(x),
            Step::Stuck => Step::Stuck,
        }
    }

    /// The closing brace of a match.
    fn match_end(&self, s: Expr, arms: Vec<MatchArm>, pos: usize) -> (r: Step<Expr>)
        ensures
            r.deep_view() == match_end(
                self@.tokens,
                s.deep_view(),
                Parsed::Done(arms.deep_view(), pos as int),
            ),
            r matches Step::Done(_, p) ==> p == pos + 1 && p <= self@.tokens.len(),
    {
        match self.expect(pos, Tok::RBrace) {
            Step::Done(_, q) => {
                proof {
                    lemma_match_view(s, arms);
                }
                Step::Done(Expr::Match(Box::new(s), arms), q)
            },
            Step::Fail(x) => Step::Fail(x),
            Step::Stuck => Step::Stuck,
        }
    }

    /// `match s { arms }` at `pos`.
    fn parse_match(&self, pos: usize) -> (r: Step<Expr>)
        ensures
            r.deep_view() == sp_match(self@.tokens, pos as int),
            advanced(r, pos, self@.tokens.len() as int),
        decreases self@.tokens.len() - pos, 9int,
    {
        proof {
            self.lemma_len();
        }
        if pos >= self.tokens.len() {
            return Step::Stuck;
        }
        let (s, p2) = match self.parse_expr(pos + 1) {
            Step::Done(s, p1) => match self.expect(p1, Tok::LBrace) {
                Step::Done(_, p2) => (s, p2),
                Step::Fail(x) => {
                    return Step::Fail(x);
                },
                Step::Stuck => {
                    return Step::Stuck;
                },
            },
            Step::Fail(x) => {
                return Step::Fail(x);
            },
            Step::Stuck => {
                return Step::Stuck;
            },
        };
        match self.parse_arms(p2) {
            Step::Done(arms, p3) => self.match_end(s, arms, p3),
            Step::Fail(x) => Step::Fail(x),
            Step::Stuck => Step::Stuck,
        }
    }

    /// The arms of a match from `pos`, up to the closing brace.
    fn parse_arms(&self, pos: usize) -> (r: Step<Vec<MatchArm>>)
        ensures
            r.deep_view() == arms_rest(self@.tokens, Seq::empty(), pos as int),
            kept(r, pos, self@.tokens.len() as int),
        decreases self@.tokens.len() - pos, 23int,
    {
        proof {
            self.lemma_len();
        }
        let mut arms: Vec<MatchArm> = Vec::new();
        let mut cur = pos;
        assert(arms.deep_view() =~= Seq::empty());
        loop
            invariant
                pos <= cur,
                arms_rest(self@.tokens, arms.deep_view(), cur as int) == arms_rest(
                    self@.tokens,
                    Seq::empty(),
                    pos as int,
                ),
                self@.tokens.len() == self.tokens@.len(),
                forall|i: int| 0 <= i < self.tokens@.len() ==> #[trigger] self@.tokens[i] == self.tokens@[i]@,
            decreases self@.tokens.len() - cur,
        {
            if cur >= self.tokens.len() {
                return Step::Stuck;
            }
            let wild = match &self.tokens[cur].tok {
                Tok::RBrace => {
                    return Step::Done(arms, cur);
                },
                Tok::Ident(w) => is_underscore(w),
                _ => false,
            };
            let (pat, p1) = if wild {
                (Expr::Int(0), cur + 1)
            } else {
                match self.parse_expr(cur) {
                    Step::Done(e, p) => (e, p),
                    Step::Fail(x) => {
                        return Step::Fail(x);
                    },
                    Step::Stuck => {
                        return Step::Stuck;
                    },
                }
            };
            match self.expect(p1, Tok::FatArrow) {
                Step::Done(_, pb) => match self.parse_expr(pb) {
                    Step::Done(b, p3) => {
                        if p3 >= self.tokens.len() {
                            return Step::Stuck;
                        }
                        let arm = MatchArm { pattern: pat, body: b, is_wildcard: wild };
                        let ghost v0 = arms;
                        let ghost ga = arm;
                        arms.push(arm);
                        proof {
                            lemma_push_deep_view(v0, arms, ga);
                        }
                        match self.tokens[p3].tok {
                            Tok::Comma => {
                                cur = p3 + 1;
                            },
                            _ => {
                                return Step::Done(arms, p3);
                            },
                        }
                    },
                    Step::Fail(x) => {
                        return Step::Fail(x);
                    },
                    Step::Stuck => {
                        return Step::Stuck;
                    },
                },
                Step::Fail(x) => {
                    return Step::Fail(x);
                },
                Step::Stuck => {
                    return Step::Stuck;
                },
            }
        }
    }
}


impl Parser {
    /// A parameter list, up to the closing parenthesis.
    fn parse_params(&self, pos: usize) -> (r: Step<Vec<(String, String)>>)
        ensures
            r.deep_view() == sp_params(self@.tokens, pos as int),
            kept(r, pos, self@.tokens.len() as int),
    {
        proof {
            self.lemma_len();
        }
        let mut params: Vec<(String, String)> = Vec::new();
        assert(params.deep_view() =~= Seq::empty());
        if pos >= self.tokens.len() {
            return Step::Stuck;
        }
        if let Tok::RParen = self.tokens[pos].tok {
            return Step::Done(params, pos);
        }
        let mut cur = pos;
        loop
            invariant
                pos <= cur,
                params_rest(self@.tokens, params.deep_view(), cur as int) == sp_params(self@.tokens, pos as int),
                self@.tokens.len() == self.tokens@.len(),
                forall|i: int| 0 <= i < self.tokens@.len() ==> #[trigger] self@.tokens[i] == self.tokens@[i]@,
            decreases self@.tokens.len() - cur,
        {
            let name = match self.parse_ident(cur) {
                Step::Done(n, _) => n,
                Step::Fail(x) => {
                    return Step::Fail(x);
                },
                Step::Stuck => {
                    return Step::Stuck;
                },
            };
            match self.expect(cur + 1, Tok::Colon) {
                Step::Done(_, _) => {},
                Step::Fail(x) => {
                    return Step::Fail(x);
                },
                Step::Stuck => {
                    return Step::Stuck;
                },
            }
            let ty = match self.parse_ident(cur + 2) {
                Step::Done(t, _) => t,
                Step::Fail(x) => {
                    return Step::Fail(x);
                },
                Step::Stuck => {
                    return Step::Stuck;
                },
            };
            let p3 = cur + 3;
            if p3 >= self.tokens.len() {
                return Step::Stuck;
            }
            let ghost v0 = params;
            let pair = (name, ty);
            let ghost gp = pair;
            params.push(pair);
            proof {
                lemma_push_deep_view(v0, params, gp);
            }
            match self.tokens[p3].tok {
                Tok::Comma => {
                    cur = p3 + 1;
                },
                _ => {
                    return Step::Done(params, p3);
                },
            }
        }
    }

    /// `gen name: type [= init];` at `pos`.
    fn parse_gen(&self, pos: usize) -> (r: Step<Decl>)
        ensures
            r.deep_view() == sp_gen(self@.tokens, pos as int),
            advanced(r, pos, self@.tokens.len() as int),
    {
        proof {
            self.lemma_len();
        }
        if pos >= self.tokens.len() {
            return Step::Stuck;
        }
        let name = match self.parse_ident(pos + 1) {
            Step::Done(n, _) => n,
            Step::Fail(x) => {
                return Step::Fail(x);
            },
            Step::Stuck => {
                return Step::Stuck;
            },
        };
        match self.expect(pos + 2, Tok::Colon) {
            Step::Done(_, _) => {},
            Step::Fail(x) => {
                return Step::Fail(x);
            },
            Step::Stuck => {
                return Step::Stuck;
            },
        }
        let ty = match self.parse_ident(pos + 3) {
            Step::Done(t, _) => t,
            Step::Fail(x) => {
                return Step::Fail(x);
            },
            Step::Stuck => {
                return Step::Stuck;
            },
        };
        let p3 = pos + 4;
        if p3 >= self.tokens.len() {
            return Step::Stuck;
        }
        let (init, q) = match self.tokens[p3].tok {
            Tok::Assign => match self.parse_expr(p3 + 1) {
                Step::Done(e, q) => (Some(e), q),
                Step::Fail(x) => {
                    return Step::Fail(x);
                },
                Step::Stuck => {
                    return Step::Stuck;
                },
            },
            _ => (None, p3),
        };
        match self.expect(q, Tok::Semicolon) {
            Step::Done(_, r) => Step::Done(Decl::Generator { name, ty, init }, r),
            Step::Fail(x) => Step::Fail(x),
            Step::Stuck => Step::Stuck,
        }
    }

    /// `constraint name(params) { enforce cond; }` at `pos`.
    fn parse_constraint(&self, pos: usize) -> (r: Step<Decl>)
        ensures
            r.deep_view() == sp_constraint(self@.tokens, pos as int),
            advanced(r, pos, self@.tokens.len() as int),
    {
        proof {
            self.lemma_len();
        }
        if pos >= self.tokens.len() {
            return Step::Stuck;
        }
        let name = match self.parse_ident(pos + 1) {
            Step::Done(n, _) => n,
            Step::Fail(x) => {
                return Step::Fail(x);
            },
            Step::Stuck => {
                return Step::Stuck;
            },
        };
        match self.expect(pos + 2, Tok::LParen) {
            Step::Done(_, _) => {},
            Step::Fail(x) => {
                return Step::Fail(x);
            },
            Step::Stuck => {
                return Step::Stuck;
            },
        }
        let (params, p3) = match self.parse_params(pos + 3) {
            Step::Done(ps, p) => (ps, p),
            Step::Fail(x) => {
                return Step::Fail(x);
            },
            Step::Stuck => {
                return Step::Stuck;
            },
        };
        let p4 = match self.expect(p3, Tok::RParen) {
            Step::Done(_, p) => p,
            Step::Fail(x) => {
                return Step::Fail(x);
            },
            Step::Stuck => {
                return Step::Stuck;
            },
        };
        let p5 = match self.expect(p4, Tok::LBrace) {
            Step::Done(_, p) => p,
            Step::Fail(x) => {
                return Step::Fail(x);
            },
            Step::Stuck => {
                return Step::Stuck;
            },
        };
        let p6 = match self.expect(p5, Tok::Enforce) {
            Step::Done(_, p) => p,
            Step::Fail(x) => {
                return Step::Fail(x);
            },
            Step::Stuck => {
                return Step::Stuck;
            },
        };
        let (condition, p7) = match self.parse_expr(p6) {
            Step::Done(e, p) => (e, p),
            Step::Fail(x) => {
                return Step::Fail(x);
            },
            Step::Stuck => {
                return Step::Stuck;
            },
        };
        let p8 = match self.expect(p7, Tok::Semicolon) {
            Step::Done(_, p) => p,
            Step::Fail(x) => {
                return Step::Fail(x);
            },
            Step::Stuck => {
                return Step::Stuck;
            },
        };
        match self.expect(p8, Tok::RBrace) {
            Step::Done(_, p9) => Step::Done(Decl::Constraint { name, params, condition }, p9),
            Step::Fail(x) => Step::Fail(x),
            Step::Stuck => Step::Stuck,
        }
    }

    /// The optional return type and `requires` list of an event, at `pos`.
    fn parse_event_head(&self, pos: usize) -> (r: Step<(Option<String>, Vec<Expr>)>)
        ensures
            r.deep_view() == sp_event_head(self@.tokens, pos as int),
            kept(r, pos, self@.tokens.len() as int),
    {
        proof {
            self.lemma_len();
        }
        if pos >= self.tokens.len() {
            return Step::Stuck;
        }
        let (ret_type, q) = match self.tokens[pos].tok {
            Tok::Arrow => match self.parse_ident(pos + 1) {
                Step::Done(t, q) => (Some(t), q),
                Step::Fail(x) => {
                    return Step::Fail(x);
                },
                Step::Stuck => {
                    return Step::Stuck;
                },
            },
            _ => (None, pos),
        };
        if q >= self.tokens.len() {
            return Step::Stuck;
        }
        let mut reqs: Vec<Expr> = Vec::new();
        assert(reqs.deep_view() =~= Seq::empty());
        match self.tokens[q].tok {
            Tok::Requires => {},
            _ => {
                return Step::Done((ret_type, reqs), q);
            },
        }
        let mut cur = match self.parse_expr(q + 1) {
            Step::Done(e, p) => {
                let ghost v0 = reqs;
                let ghost ge = e;
                reqs.push(e);
                proof {
                    lemma_push_deep_view(v0, reqs, ge);
                    assert(reqs.deep_view() =~= seq![ge.deep_view()]);
                }
                p
            },
            Step::Fail(x) => {
                return Step::Fail(x);
            },
            Step::Stuck => {
                return Step::Stuck;
            },
        };
        let ghost r0 = cur;
        let ghost first = reqs.deep_view();
        loop
            invariant
                pos < cur <= self@.tokens.len(),
                requirements_rest(self@.tokens, reqs.deep_view(), cur as int) == requirements_rest(
                    self@.tokens,
                    first,
                    r0 as int,
                ),
                sp_event_head(self@.tokens, pos as int) == (match requirements_rest(
                    self@.tokens,
                    first,
                    r0 as int,
                ) {
                    Parsed::Done(rs, r2) => Parsed::Done((ret_type.deep_view(), rs), r2),
                    Parsed::Fail(x) => Parsed::Fail(x),
                    Parsed::Stuck => Parsed::Stuck,
                }),
                self@.tokens.len() == self.tokens@.len(),
                forall|i: int| 0 <= i < self.tokens@.len() ==> #[trigger] self@.tokens[i] == self.tokens@[i]@,
            decreases self@.tokens.len() - cur,
        {
            if cur >= self.tokens.len() {
                return Step::Stuck;
            }
            match self.tokens[cur].tok {
                Tok::Comma => {},
                _ => {
                    return Step::Done((ret_type, reqs), cur);
                },
            }
            match self.parse_expr(cur + 1) {
                Step::Done(e, p) => {
                    let ghost v0 = reqs;
                    let ghost ge = e;
                    reqs.push(e);
                    proof {
                        lemma_push_deep_view(v0, reqs, ge);
                    }
                    cur = p;
                },
                Step::Fail(x) => {
                    return Step::Fail(x);
                },
                Step::Stuck => {
                    return Step::Stuck;
                },
            }
        }
    }

    /// `event name(params) [-> type] [requires ..] { body }` at `pos`.
    fn parse_event(&self, pos: usize) -> (r: Step<Decl>)
        ensures
            r.deep_view() == sp_event(self@.tokens, pos as int),
            advanced(r, pos, self@.tokens.len() as int),
    {
        proof {
            self.lemma_len();
        }
        if pos >= self.tokens.len() {
            return Step::Stuck;
        }
        let name = match self.parse_ident(pos + 1) {
            Step::Done(n, _) => n,
            Step::Fail(x) => {
                return Step::Fail(x);
            },
            Step::Stuck => {
                return Step::Stuck;
            },
        };
        match self.expect(pos + 2, Tok::LParen) {
            Step::Done(_, _) => {},
            Step::Fail(x) => {
                return Step::Fail(x);
            },
            Step::Stuck => {
                return Step::Stuck;
            },
        }
        let (params, p3) = match self.parse_params(pos + 3) {
            Step::Done(ps, p) => (ps, p),
            Step::Fail(x) => {
                return Step::Fail(x);
            },
            Step::Stuck => {
                return Step::Stuck;
            },
        };
        let p4 = match self.expect(p3, Tok::RParen) {
            Step::Done(_, p) => p,
            Step::Fail(x) => {
                return Step::Fail(x);
            },
            Step::Stuck => {
                return Step::Stuck;
            },
        };
        let (ret_type, requirements, p5) = match self.parse_event_head(p4) {
            Step::Done((t, rs), p) => (t, rs, p),
            Step::Fail(x) => {
                return Step::Fail(x);
            },
            Step::Stuck => {
                return Step::Stuck;
            },
        };
        match self.parse_block(p5) {
            Step::Done(body, p6) => Step::Done(
                Decl::Event { name, params, ret_type, requirements, body },
                p6,
            ),
            Step::Fail(x) => Step::Fail(x),
            Step::Stuck => Step::Stuck,
        }
    }

    /// The phrases of a concept, up to the closing brace.
    fn parse_phrases(&self, pos: usize) -> (r: Step<Vec<String>>)
        ensures
            r.deep_view() == sp_phrases(self@.tokens, pos as int),
            kept(r, pos, self@.tokens.len() as int),
    {
        proof {
            self.lemma_len();
        }
        let mut phrases: Vec<String> = Vec::new();
        assert(phrases.deep_view() =~= Seq::empty());
        if pos >= self.tokens.len() {
            return Step::Stuck;
        }
        match &self.tokens[pos].tok {
            Tok::RBrace => {
                return Step::Done(phrases, pos);
            },
            Tok::Str(s) => {
                let ghost v0 = phrases;
                let p = s.clone();
                let ghost gp = p;
                phrases.push(p);
                proof {
                    lemma_push_deep_view(v0, phrases, gp);
                    assert(phrases.deep_view() =~= seq![gp@]);
                }
            },
            _ => {},
        }
        let mut cur = pos + 1;
        loop
            invariant
                pos < cur,
                phrases_rest(self@.tokens, phrases.deep_view(), cur as int) == sp_phrases(
                    self@.tokens,
                    pos as int,
                ),
                self@.tokens.len() == self.tokens@.len(),
                forall|i: int| 0 <= i < self.tokens@.len() ==> #[trigger] self@.tokens[i] == self.tokens@[i]@,
            decreases self@.tokens.len() - cur,
        {
            if cur >= self.tokens.len() {
                return Step::Stuck;
            }
            match self.tokens[cur].tok {
                Tok::Comma => {},
                _ => {
                    return Step::Done(phrases, cur);
                },
            }
            if cur + 1 >= self.tokens.len() {
                return Step::Stuck;
            }
            match &self.tokens[cur + 1].tok {
                Tok::Str(s) => {
                    let ghost v0 = phrases;
                    let p = s.clone();
                    let ghost gp = p;
                    phrases.push(p);
                    proof {
                        lemma_push_deep_view(v0, phrases, gp);
                    }
                    cur = cur + 2;
                },
                _ => {
                    if cur + 2 >= self.tokens.len() {
                        return Step::Stuck;
                    }
                    return Step::Fail(
                        ParseError::ConceptString {
                            line: self.tokens[cur + 2].line,
                            col: self.tokens[cur + 2].col,
                        },
                    );
                },
            }
        }
    }

    /// `concept name = { "phrase", .. };` at `pos`.
    fn parse_concept(&self, pos: usize) -> (r: Step<Decl>)
        ensures
            r.deep_view() == sp_concept(self@.tokens, pos as int),
            advanced(r, pos, self@.tokens.len() as int),
    {
        proof {
            self.lemma_len();
        }
        if pos >= self.tokens.len() {
            return Step::Stuck;
        }
        let name = match self.parse_ident(pos + 1) {
            Step::Done(n, _) => n,
            Step::Fail(x) => {
                return Step::Fail(x);
            },
            Step::Stuck => {
                return Step::Stuck;
            },
        };
        match self.expect(pos + 2, Tok::Assign) {
            Step::Done(_, _) => {},
            Step::Fail(x) => {
                return Step::Fail(x);
            },
            Step::Stuck => {
                return Step::Stuck;
            },
        }
        match self.expect(pos + 3, Tok::LBrace) {
            Step::Done(_, _) => {},
            Step::Fail(x) => {
                return Step::Fail(x);
            },
            Step::Stuck => {
                return Step::Stuck;
            },
        }
        let (tokens, p4) = match self.parse_phrases(pos + 4) {
            Step::Done(ts, p) => (ts, p),
            Step::Fail(x) => {
                return Step::Fail(x);
            },
            Step::Stuck => {
                return Step::Stuck;
            },
        };
        let p5 = match self.expect(p4, Tok::RBrace) {
            Step::Done(_, p) => p,
            Step::Fail(x) => {
                return Step::Fail(x);
            },
            Step::Stuck => {
                return Step::Stuck;
            },
        };
        match self.expect(p5, Tok::Semicolon) {
            Step::Done(_, p6) => Step::Done(Decl::Concept { name, tokens }, p6),
            Step::Fail(x) => Step::Fail(x),
            Step::Stuck => Step::Stuck,
        }
    }

    /// `import "path"` and an optional semicolon, at `pos`.
    fn parse_import(&self, pos: usize) -> (r: Step<Decl>)
        ensures
            r.deep_view() == sp_import(self@.tokens, pos as int),
            advanced(r, pos, self@.tokens.len() as int),
    {
        proof {
            self.lemma_len();
        }
        if pos >= self.tokens.len() || pos + 1 >= self.tokens.len() {
            return Step::Stuck;
        }
        match &self.tokens[pos + 1].tok {
            Tok::Str(s) => {
                if pos + 2 >= self.tokens.len() {
                    return Step::Stuck;
                }
                match self.tokens[pos + 2].tok {
                    Tok::Semicolon => Step::Done(Decl::Import(s.clone()), pos + 3),
                    _ => Step::Done(Decl::Import(s.clone()), pos + 2),
                }
            },
            t => Step::Fail(ParseError::ImportPath { found: t.duplicate() }),
        }
    }

    /// The top-level item at `pos`.
    fn parse_item(&self, pos: usize) -> (r: Step<Item>)
        ensures
            r.deep_view() == sp_item(self@.tokens, pos as int),
            advanced(r, pos, self@.tokens.len() as int),
    {
        proof {
            self.lemma_len();
        }
        if pos >= self.tokens.len() {
            return Step::Stuck;
        }
        let kind: u8 = match self.tokens[pos].tok {
            Tok::Gen => 0,
            Tok::Constraint => 1,
            Tok::Event => 2,
            Tok::Concept => 3,
            Tok::Import => 4,
            Tok::Let => 5,
            Tok::Print => 6,
            Tok::Ingest => 7,
            _ => 8,
        };
        if kind < 5 {
            let d = if kind == 0 {
                self.parse_gen(pos)
            } else if kind == 1 {
                self.parse_constraint(pos)
            } else if kind == 2 {
                self.parse_event(pos)
            } else if kind == 3 {
                self.parse_concept(pos)
            } else {
                self.parse_import(pos)
            };
            match d {
                Step::Done(d, p) => Step::Done(Item::Decl(d), p),
                Step::Fail(x) => Step::Fail(x),
                Step::Stuck => Step::Stuck,
            }
        } else {
            let st = if kind == 5 {
                self.parse_let(pos)
            } else if kind == 6 {
                self.parse_print(pos)
            } else if kind == 7 {
                self.parse_ingest(pos)
            } else {
                match self.parse_expr(pos) {
                    Step::Done(e, p) => Step::Done(Stmt::Expr(e), p),
                    Step::Fail(x) => Step::Fail(x),
                    Step::Stuck => Step::Stuck,
                }
            };
            match st {
                Step::Done(s, p) => Step::Done(Item::Stmt(s), p),
                Step::Fail(x) => Step::Fail(x),
                Step::Stuck => Step::Stuck,
            }
        }
    }

    /// Reads a whole program from position `pos`.
    fn parse_from(&self, pos: usize) -> (r: Step<Program>)
        ensures
            r.deep_view() == sp_program(self@.tokens, pos as int),
    {
        proof {
            self.lemma_len();
        }
        let mut decls: Vec<Decl> = Vec::new();
        let mut stmts: Vec<Stmt> = Vec::new();
        assert(decls.deep_view() =~= Seq::empty());
        assert(stmts.deep_view() =~= Seq::empty());
        let mut cur = pos;
        loop
            invariant
                program_rest(self@.tokens, decls.deep_view(), stmts.deep_view(), cur as int) == sp_program(
                    self@.tokens,
                    pos as int,
                ),
                self@.tokens.len() == self.tokens@.len(),
                forall|i: int| 0 <= i < self.tokens@.len() ==> #[trigger] self@.tokens[i] == self.tokens@[i]@,
            decreases self@.tokens.len() - cur,
        {
            if cur >= self.tokens.len() {
                return Step::Stuck;
            }
            if let Tok::Eof = self.tokens[cur].tok {
                return Step::Done(Program { decls, stmts }, cur);
            }
            let p = match self.skip_semis(cur) {
                Some(p) => p,
                None => {
                    return Step::Stuck;
                },
            };
            if let Tok::Eof = self.tokens[p].tok {
                return Step::Done(Program { decls, stmts }, p);
            }
            let (item, q) = match self.parse_item(p) {
                Step::Done(item, q) => (item, q),
                Step::Fail(x) => {
                    return Step::Fail(x);
                },
                Step::Stuck => {
                    return Step::Stuck;
                },
            };
            if q >= self.tokens.len() {
                return Step::Stuck;
            }
            let q2 = match self.tokens[q].tok {
                Tok::Semicolon => q + 1,
                _ => q,
            };
            match item {
                Item::Decl(d) => {
                    let ghost v0 = decls;
                    let ghost gd = d;
                    decls.push(d);
                    proof {
                        lemma_push_deep_view(v0, decls, gd);
                    }
                },
                Item::Stmt(s) => {
                    let ghost v0 = stmts;
                    let ghost gs = s;
                    stmts.push(s);
                    proof {
                        lemma_push_deep_view(v0, stmts, gs);
                    }
                },
            }
            cur = q2;
        }
    }

    /// Reads the whole program from the current position: its declarations
    /// and statements, each in order, as the grammar says.  The tokens stay
    /// as they are; on success the position moves to the closing `Eof`.
    /// Inputs on which reading would look past the last token are left out.
    pub fn parse_program(&mut self) -> (r: Result<Program, ParseError>)
        requires
            !(sp_program(old(self)@.tokens, old(self)@.pos) is Stuck),
        ensures
            final(self)@.tokens == old(self)@.tokens,
            match sp_program(old(self)@.tokens, old(self)@.pos) {
                Parsed::Done(prog, p) => r matches Ok(x) && x.deep_view() == prog && final(self)@.pos == p,
                Parsed::Fail(e) => r matches Err(x) && x.deep_view() == e,
                Parsed::Stuck => false,
            },
    {
        match self.parse_from(self.pos) {
            Step::Done(prog, p) => {
                self.pos = p;
                Ok(prog)
            },
            Step::Fail(e) => Err(e),
            Step::Stuck => {
                assert(false);
                Err(ParseError::ImportPath { found: Tok::Eof })
            },
        }
    }

    /// As `parse_program`, for every input: `None` exactly where reading
    /// would look past the last token.
    pub fn try_parse_program(&mut self) -> (r: Option<Result<Program, ParseError>>)
        ensures
            final(self)@.tokens == old(self)@.tokens,
            match sp_program(old(self)@.tokens, old(self)@.pos) {
                Parsed::Done(prog, p) => r matches Some(Ok(x)) && x.deep_view() == prog && final(self)@.pos == p,
                Parsed::Fail(e) => r matches Some(Err(x)) && x.deep_view() == e,
                Parsed::Stuck => r is None,
            },
    {
        match self.parse_from(self.pos) {
            Step::Done(prog, p) => {
                self.pos = p;
                Some(Ok(prog))
            },
            Step::Fail(e) => Some(Err(e)),
            Step::Stuck => None,
        }
    }
}

} // verus!
