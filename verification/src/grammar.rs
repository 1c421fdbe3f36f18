//! The grammar of the language, as functions from a token sequence and a
//! position to what is read there and the position after it.
//!
//! Each function says what the parser reads at a position.  `Stuck` is the
//! outcome where the parser would look at a token past the end of the
//! sequence; a token sequence made by the tokenizer ends with `Eof`, and the
//! grammar reaches past it only at a few places (an identifier or a concept
//! phrase missing at the very end of the text).
use vstd::prelude::*;
use crate::ast::{ArmView, BinOp, DeclView, ExprView, ProgramView, StmtView};
use crate::lexer::{Tok, TokView, TokenView};

verus! {

/// Why a token sequence is not a program.  Positions are those of a token
/// (line, column).
#[derive(Debug)]
pub enum ParseError {
    /// The token at the position is not the one the grammar needs there.
    Expected { line: usize, col: usize, expected: Tok, found: Tok },
    /// `import` is not followed by a string.
    ImportPath { found: Tok },
    /// A concept phrase after a comma is not a string; the position is that
    /// of the token after it.
    ConceptString { line: usize, col: usize },
    /// `ingest` is not followed by a string.
    IngestText { found: Tok },
    /// An identifier was needed; the position is that of the token after the
    /// one found.
    Identifier { line: usize, col: usize, found: Tok },
    /// No expression starts with this token.
    UnexpectedToken { line: usize, col: usize, found: Tok },
}

/// The value of a parse error.
pub enum ParseErrorView {
    Expected { line: int, col: int, expected: TokView, found: TokView },
    ImportPath { found: TokView },
    ConceptString { line: int, col: int },
    IngestText { found: TokView },
    Identifier { line: int, col: int, found: TokView },
    UnexpectedToken { line: int, col: int, found: TokView },
}

impl DeepView for ParseError {
    type V = ParseErrorView;

    open spec fn deep_view(&self) -> ParseErrorView {
        match self {
            ParseError::Expected { line, col, expected, found } => ParseErrorView::Expected {
                line: *line as int,
                col: *col as int,
                expected: expected@,
                found: found@,
            },
            ParseError::ImportPath { found } => ParseErrorView::ImportPath { found: found@ },
            ParseError::ConceptString { line, col } => ParseErrorView::ConceptString {
                line: *line as int,
                col: *col as int,
            },
            ParseError::IngestText { found } => ParseErrorView::IngestText { found: found@ },
            ParseError::Identifier { line, col, found } => ParseErrorView::Identifier {
                line: *line as int,
                col: *col as int,
                found: found@,
            },
            ParseError::UnexpectedToken { line, col, found } => ParseErrorView::UnexpectedToken {
                line: *line as int,
                col: *col as int,
                found: found@,
            },
        }
    }
}

/// What is read at a position: a value and the position after it, an
/// error, or `Stuck` where the parser would look past the last token.
pub enum Parsed<T> {
    Done(T, int),
    Fail(ParseErrorView),
    Stuck,
}

/// A top-level item: a declaration or a statement.
pub enum ItemView {
    Decl(DeclView),
    Stmt(StmtView),
}

/// Whether `q` lies after `pos` and within the sequence.
pub open spec fn moved(ts: Seq<TokenView>, pos: int, q: int) -> bool {
    pos < q && q <= ts.len()
}

/// Whether there is a token at `pos`.
pub open spec fn in_range(ts: Seq<TokenView>, pos: int) -> bool {
    0 <= pos < ts.len()
}

/// Reads the token `t`.
pub open spec fn sp_expect(ts: Seq<TokenView>, pos: int, t: TokView) -> Parsed<()> {
    if !in_range(ts, pos) {
        Parsed::Stuck
    } else if ts[pos].tok == t {
        Parsed::Done((), pos + 1)
    } else {
        Parsed::Fail(
            ParseErrorView::Expected {
                line: ts[pos].line,
                col: ts[pos].col,
                expected: t,
                found: ts[pos].tok,
            },
        )
    }
}

/// Reads an identifier.
pub open spec fn sp_ident(ts: Seq<TokenView>, pos: int) -> Parsed<Seq<char>> {
    if !in_range(ts, pos) {
        Parsed::Stuck
    } else {
        match ts[pos].tok {
            TokView::Ident(s) => Parsed::Done(s, pos + 1),
            t => if !in_range(ts, pos + 1) {
                Parsed::Stuck
            } else {
                Parsed::Fail(
                    ParseErrorView::Identifier { line: ts[pos + 1].line, col: ts[pos + 1].col, found: t },
                )
            },
        }
    }
}

/// Where a run of semicolons from `pos` ends; `None` where it runs past the
/// last token.
pub open spec fn skip_semis(ts: Seq<TokenView>, pos: int) -> Option<int>
    decreases ts.len() - pos,
{
    if !in_range(ts, pos) {
        None
    } else if ts[pos].tok == TokView::Semicolon {
        skip_semis(ts, pos + 1)
    } else {
        Some(pos)
    }
}

pub open spec fn comparison_op(t: TokView) -> Option<BinOp> {
    match t {
        TokView::Eq => Some(BinOp::Eq),
        TokView::NotEq => Some(BinOp::NotEq),
        TokView::Gte => Some(BinOp::Gte),
        TokView::Lte => Some(BinOp::Lte),
        TokView::Gt => Some(BinOp::Gt),
        TokView::Lt => Some(BinOp::Lt),
        _ => None,
    }
}

pub open spec fn additive_op(t: TokView) -> Option<BinOp> {
    match t {
        TokView::Plus => Some(BinOp::Add),
        TokView::Minus => Some(BinOp::Sub),
        _ => None,
    }
}

pub open spec fn multiplicative_op(t: TokView) -> Option<BinOp> {
    match t {
        TokView::Star => Some(BinOp::Mul),
        TokView::Slash => Some(BinOp::Div),
        _ => None,
    }
}

pub open spec fn binop(l: ExprView, op: BinOp, r: ExprView) -> ExprView {
    ExprView::BinOp(Box::new(l), op, Box::new(r))
}

/// An expression.
pub open spec fn sp_expr(ts: Seq<TokenView>, pos: int) -> Parsed<ExprView>
    decreases ts.len() - pos, 20int,
{
    sp_comparison(ts, pos)
}

/// Comparisons, left-associative, over sums.
pub open spec fn sp_comparison(ts: Seq<TokenView>, pos: int) -> Parsed<ExprView>
    decreases ts.len() - pos, 19int,
{
    match sp_additive(ts, pos) {
        Parsed::Done(l, p) => if pos <= p <= ts.len() {
            comparison_rest(ts, l, p)
        } else {
            Parsed::Stuck
        },
        Parsed::Fail(e) => Parsed::Fail(e),
        Parsed::Stuck => Parsed::Stuck,
    }
}

pub open spec fn comparison_rest(ts: Seq<TokenView>, left: ExprView, pos: int) -> Parsed<ExprView>
    decreases ts.len() - pos, 18int,
{
    if !in_range(ts, pos) {
        Parsed::Stuck
    } else {
        match comparison_op(ts[pos].tok) {
            None => Parsed::Done(left, pos),
            Some(op) => match sp_additive(ts, pos + 1) {
                Parsed::Done(r, p) => if moved(ts, pos, p) {
                    comparison_rest(ts, binop(left, op, r), p)
                } else {
                    Parsed::Stuck
                },
                Parsed::Fail(e) => Parsed::Fail(e),
                Parsed::Stuck => Parsed::Stuck,
            },
        }
    }
}

/// Sums and differences, left-associative, over products.
pub open spec fn sp_additive(ts: Seq<TokenView>, pos: int) -> Parsed<ExprView>
    decreases ts.len() - pos, 17int,
{
    match sp_multiplicative(ts, pos) {
        Parsed::Done(l, p) => if pos <= p <= ts.len() {
            additive_rest(ts, l, p)
        } else {
            Parsed::Stuck
        },
        Parsed::Fail(e) => Parsed::Fail(e),
        Parsed::Stuck => Parsed::Stuck,
    }
}

pub open spec fn additive_rest(ts: Seq<TokenView>, left: ExprView, pos: int) -> Parsed<ExprView>
    decreases ts.len() - pos, 15int,
{
    if !in_range(ts, pos) {
        Parsed::Stuck
    } else {
        match additive_op(ts[pos].tok) {
            None => Parsed::Done(left, pos),
            Some(op) => match sp_multiplicative(ts, pos + 1) {
                Parsed::Done(r, p) => if moved(ts, pos, p) {
                    additive_rest(ts, binop(left, op, r), p)
                } else {
                    Parsed::Stuck
                },
                Parsed::Fail(e) => Parsed::Fail(e),
                Parsed::Stuck => Parsed::Stuck,
            },
        }
    }
}

/// Products and quotients, left-associative, over unary expressions.
pub open spec fn sp_multiplicative(ts: Seq<TokenView>, pos: int) -> Parsed<ExprView>
    decreases ts.len() - pos, 14int,
{
    match sp_unary(ts, pos) {
        Parsed::Done(l, p) => if pos <= p <= ts.len() {
            multiplicative_rest(ts, l, p)
        } else {
            Parsed::Stuck
        },
        Parsed::Fail(e) => Parsed::Fail(e),
        Parsed::Stuck => Parsed::Stuck,
    }
}

pub open spec fn multiplicative_rest(ts: Seq<TokenView>, left: ExprView, pos: int) -> Parsed<ExprView>
    decreases ts.len() - pos, 12int,
{
    if !in_range(ts, pos) {
        Parsed::Stuck
    } else {
        match multiplicative_op(ts[pos].tok) {
            None => Parsed::Done(left, pos),
            Some(op) => match sp_unary(ts, pos + 1) {
                Parsed::Done(r, p) => if moved(ts, pos, p) {
                    multiplicative_rest(ts, binop(left, op, r), p)
                } else {
                    Parsed::Stuck
                },
                Parsed::Fail(e) => Parsed::Fail(e),
                Parsed::Stuck => Parsed::Stuck,
            },
        }
    }
}

/// A primary expression, or `-` and a primary expression, read as `0 - e`.
pub open spec fn sp_unary(ts: Seq<TokenView>, pos: int) -> Parsed<ExprView>
    decreases ts.len() - pos, 11int,
{
    if !in_range(ts, pos) {
        Parsed::Stuck
    } else if ts[pos].tok == TokView::Minus {
        match sp_primary(ts, pos + 1) {
            Parsed::Done(e, p) => Parsed::Done(binop(ExprView::Int(0), BinOp::Sub, e), p),
            Parsed::Fail(e) => Parsed::Fail(e),
            Parsed::Stuck => Parsed::Stuck,
        }
    } else {
        sp_primary(ts, pos)
    }
}

/// A literal, a variable, a call, a parenthesized expression, a block, an
/// `if` or a `match`.
pub open spec fn sp_primary(ts: Seq<TokenView>, pos: int) -> Parsed<ExprView>
    decreases ts.len() - pos, 10int,
{
    if !in_range(ts, pos) {
        Parsed::Stuck
    } else {
        match ts[pos].tok {
            TokView::Int(n) => Parsed::Done(ExprView::Int(n), pos + 1),
            TokView::Float(s) => Parsed::Done(ExprView::Float(s), pos + 1),
            TokView::Str(s) => Parsed::Done(ExprView::Str(s), pos + 1),
            TokView::LParen => match sp_expr(ts, pos + 1) {
                Parsed::Done(e, p) => match sp_expect(ts, p, TokView::RParen) {
                    Parsed::Done(_, q) => Parsed::Done(e, q),
                    Parsed::Fail(x) => Parsed::Fail(x),
                    Parsed::Stuck => Parsed::Stuck,
                },
                Parsed::Fail(x) => Parsed::Fail(x),
                Parsed::Stuck => Parsed::Stuck,
            },
            TokView::LBrace => sp_block(ts, pos),
            TokView::If => sp_if(ts, pos),
            TokView::Match => sp_match(ts, pos),
            TokView::Ident(name) => if !in_range(ts, pos + 1) {
                Parsed::Stuck
            } else if ts[pos + 1].tok == TokView::LParen {
                match sp_args(ts, pos + 2) {
                    Parsed::Done(args, p) => match sp_expect(ts, p, TokView::RParen) {
                        Parsed::Done(_, q) => Parsed::Done(ExprView::Call(name, args), q),
                        Parsed::Fail(x) => Parsed::Fail(x),
                        Parsed::Stuck => Parsed::Stuck,
                    },
                    Parsed::Fail(x) => Parsed::Fail(x),
                    Parsed::Stuck => Parsed::Stuck,
                }
            } else {
                Parsed::Done(ExprView::Var(name), pos + 1)
            },
            t => Parsed::Fail(
                ParseErrorView::UnexpectedToken { line: ts[pos].line, col: ts[pos].col, found: t },
            ),
        }
    }
}

/// The arguments of a call, up to (not including) the closing parenthesis.
pub open spec fn sp_args(ts: Seq<TokenView>, pos: int) -> Parsed<Seq<ExprView>>
    decreases ts.len() - pos, 21int,
{
    if !in_range(ts, pos) {
        Parsed::Stuck
    } else if ts[pos].tok == TokView::RParen {
        Parsed::Done(Seq::empty(), pos)
    } else {
        match sp_expr(ts, pos) {
            Parsed::Done(e, p) => if moved(ts, pos, p) {
                args_rest(ts, seq![e], p)
            } else {
                Parsed::Stuck
            },
            Parsed::Fail(x) => Parsed::Fail(x),
            Parsed::Stuck => Parsed::Stuck,
        }
    }
}

pub open spec fn args_rest(ts: Seq<TokenView>, acc: Seq<ExprView>, pos: int) -> Parsed<Seq<ExprView>>
    decreases ts.len() - pos, 21int,
{
    if !in_range(ts, pos) {
        Parsed::Stuck
    } else if ts[pos].tok == TokView::Comma {
        match sp_expr(ts, pos + 1) {
            Parsed::Done(e, p) => if moved(ts, pos, p) {
                args_rest(ts, acc.push(e), p)
            } else {
                Parsed::Stuck
            },
            Parsed::Fail(x) => Parsed::Fail(x),
            Parsed::Stuck => Parsed::Stuck,
        }
    } else {
        Parsed::Done(acc, pos)
    }
}

/// A block `{ statements; last }`; its value is its last expression, or
/// `0` where it ends with a statement.
pub open spec fn sp_block(ts: Seq<TokenView>, pos: int) -> Parsed<ExprView>
    decreases ts.len() - pos, 9int,
{
    if !in_range(ts, pos) {
        Parsed::Stuck
    } else if ts[pos].tok == TokView::LBrace {
        block_rest(ts, Seq::empty(), pos + 1)
    } else {
        Parsed::Fail(
            ParseErrorView::Expected {
                line: ts[pos].line,
                col: ts[pos].col,
                expected: TokView::LBrace,
                found: ts[pos].tok,
            },
        )
    }
}

/// The closing brace of a block.
pub open spec fn block_end(ts: Seq<TokenView>, stmts: Seq<StmtView>, last: ExprView, pos: int) -> Parsed<ExprView> {
    match sp_expect(ts, pos, TokView::RBrace) {
        Parsed::Done(_, q) => Parsed::Done(ExprView::Block(stmts, Box::new(last)), q),
        Parsed::Fail(x) => Parsed::Fail(x),
        Parsed::Stuck => Parsed::Stuck,
    }
}

/// The statements of a block after those in `stmts`, and its end.
pub open spec fn block_rest(ts: Seq<TokenView>, stmts: Seq<StmtView>, pos: int) -> Parsed<ExprView>
    decreases ts.len() - pos, 22int,
{
    if !in_range(ts, pos) {
        Parsed::Stuck
    } else {
        let t = ts[pos].tok;
        if t == TokView::RBrace || t == TokView::Eof {
            block_end(ts, stmts, ExprView::Int(0), pos)
        } else if t == TokView::Let || t == TokView::Print || t == TokView::Ingest {
            let s = if t == TokView::Let {
                sp_let(ts, pos)
            } else if t == TokView::Print {
                sp_print(ts, pos)
            } else {
                sp_ingest(ts, pos)
            };
            match s {
                Parsed::Done(st, p) => if moved(ts, pos, p) {
                    match skip_semis(ts, p) {
                        Some(q) => if moved(ts, pos, q) {
                            block_rest(ts, stmts.push(st), q)
                        } else {
                            Parsed::Stuck
                        },
                        None => Parsed::Stuck,
                    }
                } else {
                    Parsed::Stuck
                },
                Parsed::Fail(x) => Parsed::Fail(x),
                Parsed::Stuck => Parsed::Stuck,
            }
        } else {
            match sp_expr(ts, pos) {
                Parsed::Done(e, p) => if moved(ts, pos, p) && in_range(ts, p) {
                    if ts[p].tok == TokView::Semicolon {
                        match skip_semis(ts, p) {
                            Some(q) => if moved(ts, pos, q) {
                                block_rest(ts, stmts.push(StmtView::Expr(e)), q)
                            } else {
                                Parsed::Stuck
                            },
                            None => Parsed::Stuck,
                        }
                    } else {
                        block_end(ts, stmts, e, p)
                    }
                } else {
                    Parsed::Stuck
                },
                Parsed::Fail(x) => Parsed::Fail(x),
                Parsed::Stuck => Parsed::Stuck,
            }
        }
    }
}

/// `let name = value` (the `let` is at `pos`).
pub open spec fn sp_let(ts: Seq<TokenView>, pos: int) -> Parsed<StmtView>
    decreases ts.len() - pos, 8int,
{
    match sp_ident(ts, pos + 1) {
        Parsed::Done(name, p1) => match sp_expect(ts, p1, TokView::Assign) {
            Parsed::Done(_, p2) => if moved(ts, pos, p2) {
                match sp_expr(ts, p2) {
                    Parsed::Done(v, p3) => Parsed::Done(StmtView::Let { name, value: v }, p3),
                    Parsed::Fail(x) => Parsed::Fail(x),
                    Parsed::Stuck => Parsed::Stuck,
                }
            } else {
                Parsed::Stuck
            },
            Parsed::Fail(x) => Parsed::Fail(x),
            Parsed::Stuck => Parsed::Stuck,
        },
        Parsed::Fail(x) => Parsed::Fail(x),
        Parsed::Stuck => Parsed::Stuck,
    }
}

/// `print(e)` (the `print` is at `pos`).
pub open spec fn sp_print(ts: Seq<TokenView>, pos: int) -> Parsed<StmtView>
    decreases ts.len() - pos, 8int,
{
    match sp_expect(ts, pos + 1, TokView::LParen) {
        Parsed::Done(_, p1) => if moved(ts, pos, p1) {
            match sp_expr(ts, p1) {
                Parsed::Done(e, p2) => match sp_expect(ts, p2, TokView::RParen) {
                    Parsed::Done(_, p3) => Parsed::Done(StmtView::Print(e), p3),
                    Parsed::Fail(x) => Parsed::Fail(x),
                    Parsed::Stuck => Parsed::Stuck,
                },
                Parsed::Fail(x) => Parsed::Fail(x),
                Parsed::Stuck => Parsed::Stuck,
            }
        } else {
            Parsed::Stuck
        },
        Parsed::Fail(x) => Parsed::Fail(x),
        Parsed::Stuck => Parsed::Stuck,
    }
}

/// `ingest "text"` (the `ingest` is at `pos`).
pub open spec fn sp_ingest(ts: Seq<TokenView>, pos: int) -> Parsed<StmtView> {
    if !in_range(ts, pos + 1) {
        Parsed::Stuck
    } else {
        match ts[pos + 1].tok {
            TokView::Str(s) => Parsed::Done(StmtView::Ingest(s), pos + 2),
            t => Parsed::Fail(ParseErrorView::IngestText { found: t }),
        }
    }
}

/// `if cond { .. } else { .. }` (the `if` is at `pos`).
pub open spec fn sp_if(ts: Seq<TokenView>, pos: int) -> Parsed<ExprView>
    decreases ts.len() - pos, 9int,
{
    if !in_range(ts, pos) {
        Parsed::Stuck
    } else {
        match sp_expr(ts, pos + 1) {
            Parsed::Done(c, p1) => if moved(ts, pos, p1) {
                match sp_block(ts, p1) {
                    Parsed::Done(t, p2) => match sp_expect(ts, p2, TokView::Else) {
                        Parsed::Done(_, p3) => if moved(ts, pos, p3) {
                            match sp_block(ts, p3) {
                                Parsed::Done(f, p4) => Parsed::Done(
                                    ExprView::If(Box::new(c), Box::new(t), Box::new(f)),
                                    p4,
                                ),
                                Parsed::Fail(x) => Parsed::Fail(x),
                                Parsed::Stuck => Parsed::Stuck,
                            }
                        } else {
                            Parsed::Stuck
                        },
                        Parsed::Fail(x) => Parsed::Fail(x),
                        Parsed::Stuck => Parsed::Stuck,
                    },
                    Parsed::Fail(x) => Parsed::Fail(x),
                    Parsed::Stuck => Parsed::Stuck,
                }
            } else {
                Parsed::Stuck
            },
            Parsed::Fail(x) => Parsed::Fail(x),
            Parsed::Stuck => Parsed::Stuck,
        }
    }
}

/// The closing brace of a match, after its arms.
pub open spec fn match_end(ts: Seq<TokenView>, s: ExprView, arms: Parsed<Seq<ArmView>>) -> Parsed<ExprView> {
    match arms {
        Parsed::Done(a, p) => match sp_expect(ts, p, TokView::RBrace) {
            Parsed::Done(_, q) => Parsed::Done(ExprView::Match(Box::new(s), a), q),
            Parsed::Fail(x) => Parsed::Fail(x),
            Parsed::Stuck => Parsed::Stuck,
        },
        Parsed::Fail(x) => Parsed::Fail(x),
        Parsed::Stuck => Parsed::Stuck,
    }
}

/// `match scrutinee { arms }` (the `match` is at `pos`).
pub open spec fn sp_match(ts: Seq<TokenView>, pos: int) -> Parsed<ExprView>
    decreases ts.len() - pos, 9int,
{
    if !in_range(ts, pos) {
        Parsed::Stuck
    } else {
        match sp_expr(ts, pos + 1) {
            Parsed::Done(s, p1) => match sp_expect(ts, p1, TokView::LBrace) {
                Parsed::Done(_, p2) => if moved(ts, pos, p2) {
                    match_end(ts, s, arms_rest(ts, Seq::empty(), p2))
                } else {
                    Parsed::Stuck
                },
                Parsed::Fail(x) => Parsed::Fail(x),
                Parsed::Stuck => Parsed::Stuck,
            },
            Parsed::Fail(x) => Parsed::Fail(x),
            Parsed::Stuck => Parsed::Stuck,
        }
    }
}

/// The word `_`.
pub open spec fn wildcard() -> TokView {
    TokView::Ident(seq!['_'])
}

/// The arms of a match after those in `arms`, up to (not including) the
/// closing brace.
pub open spec fn arms_rest(ts: Seq<TokenView>, arms: Seq<ArmView>, pos: int) -> Parsed<Seq<ArmView>>
    decreases ts.len() - pos, 23int,
{
    if !in_range(ts, pos) {
        Parsed::Stuck
    } else if ts[pos].tok == TokView::RBrace {
        Parsed::Done(arms, pos)
    } else {
        let wild = ts[pos].tok == wildcard();
        let pat = if wild {
            Parsed::Done(ExprView::Int(0), pos + 1)
        } else {
            sp_expr(ts, pos)
        };
        match pat {
            Parsed::Done(pe, p1) => match sp_expect(ts, p1, TokView::FatArrow) {
                Parsed::Done(_, p2) => if moved(ts, pos, p2) {
                    match sp_expr(ts, p2) {
                        Parsed::Done(b, p3) => if moved(ts, pos, p3) && in_range(ts, p3) {
                            let arms2 = arms.push(ArmView { pattern: pe, body: b, is_wildcard: wild });
                            if ts[p3].tok == TokView::Comma {
                                arms_rest(ts, arms2, p3 + 1)
                            } else {
                                Parsed::Done(arms2, p3)
                            }
                        } else {
                            Parsed::Stuck
                        },
                        Parsed::Fail(x) => Parsed::Fail(x),
                        Parsed::Stuck => Parsed::Stuck,
                    }
                } else {
                    Parsed::Stuck
                },
                Parsed::Fail(x) => Parsed::Fail(x),
                Parsed::Stuck => Parsed::Stuck,
            },
            Parsed::Fail(x) => Parsed::Fail(x),
            Parsed::Stuck => Parsed::Stuck,
        }
    }
}


/// A parameter list `name: type, ...`, up to (not including) the closing
/// parenthesis.
pub open spec fn sp_params(ts: Seq<TokenView>, pos: int) -> Parsed<Seq<(Seq<char>, Seq<char>)>> {
    if !in_range(ts, pos) {
        Parsed::Stuck
    } else if ts[pos].tok == TokView::RParen {
        Parsed::Done(Seq::empty(), pos)
    } else {
        params_rest(ts, Seq::empty(), pos)
    }
}

pub open spec fn params_rest(
    ts: Seq<TokenView>,
    acc: Seq<(Seq<char>, Seq<char>)>,
    pos: int,
) -> Parsed<Seq<(Seq<char>, Seq<char>)>>
    decreases ts.len() - pos,
{
    match sp_ident(ts, pos) {
        Parsed::Done(name, p1) => match sp_expect(ts, p1, TokView::Colon) {
            Parsed::Done(_, p2) => match sp_ident(ts, p2) {
                Parsed::Done(ty, p3) => if moved(ts, pos, p3) && in_range(ts, p3) {
                    let acc2 = acc.push((name, ty));
                    if ts[p3].tok == TokView::Comma {
                        params_rest(ts, acc2, p3 + 1)
                    } else {
                        Parsed::Done(acc2, p3)
                    }
                } else {
                    Parsed::Stuck
                },
                Parsed::Fail(x) => Parsed::Fail(x),
                Parsed::Stuck => Parsed::Stuck,
            },
            Parsed::Fail(x) => Parsed::Fail(x),
            Parsed::Stuck => Parsed::Stuck,
        },
        Parsed::Fail(x) => Parsed::Fail(x),
        Parsed::Stuck => Parsed::Stuck,
    }
}

/// `gen name: type [= init];` (the `gen` is at `pos`).
pub open spec fn sp_gen(ts: Seq<TokenView>, pos: int) -> Parsed<DeclView> {
    match sp_ident(ts, pos + 1) {
        Parsed::Done(name, p1) => match sp_expect(ts, p1, TokView::Colon) {
            Parsed::Done(_, p2) => match sp_ident(ts, p2) {
                Parsed::Done(ty, p3) => if !in_range(ts, p3) {
                    Parsed::Stuck
                } else {
                    let init = if ts[p3].tok == TokView::Assign {
                        match sp_expr(ts, p3 + 1) {
                            Parsed::Done(e, q) => Parsed::Done(Some(e), q),
                            Parsed::Fail(x) => Parsed::Fail(x),
                            Parsed::Stuck => Parsed::Stuck,
                        }
                    } else {
                        Parsed::Done(None, p3)
                    };
                    match init {
                        Parsed::Done(init, q) => match sp_expect(ts, q, TokView::Semicolon) {
                            Parsed::Done(_, r) => Parsed::Done(DeclView::Generator { name, ty, init }, r),
                            Parsed::Fail(x) => Parsed::Fail(x),
                            Parsed::Stuck => Parsed::Stuck,
                        },
                        Parsed::Fail(x) => Parsed::Fail(x),
                        Parsed::Stuck => Parsed::Stuck,
                    }
                },
                Parsed::Fail(x) => Parsed::Fail(x),
                Parsed::Stuck => Parsed::Stuck,
            },
            Parsed::Fail(x) => Parsed::Fail(x),
            Parsed::Stuck => Parsed::Stuck,
        },
        Parsed::Fail(x) => Parsed::Fail(x),
        Parsed::Stuck => Parsed::Stuck,
    }
}

/// `constraint name(params) { enforce cond; }` (the `constraint` is at
/// `pos`).
pub open spec fn sp_constraint(ts: Seq<TokenView>, pos: int) -> Parsed<DeclView> {
    match sp_ident(ts, pos + 1) {
        Parsed::Done(name, p1) => match sp_expect(ts, p1, TokView::LParen) {
            Parsed::Done(_, p2) => match sp_params(ts, p2) {
                Parsed::Done(params, p3) => match sp_expect(ts, p3, TokView::RParen) {
                    Parsed::Done(_, p4) => match sp_expect(ts, p4, TokView::LBrace) {
                        Parsed::Done(_, p5) => match sp_expect(ts, p5, TokView::Enforce) {
                            Parsed::Done(_, p6) => match sp_expr(ts, p6) {
                                Parsed::Done(condition, p7) => match sp_expect(ts, p7, TokView::Semicolon) {
                                    Parsed::Done(_, p8) => match sp_expect(ts, p8, TokView::RBrace) {
                                        Parsed::Done(_, p9) => Parsed::Done(
                                            DeclView::Constraint { name, params, condition },
                                            p9,
                                        ),
                                        Parsed::Fail(x) => Parsed::Fail(x),
                                        Parsed::Stuck => Parsed::Stuck,
                                    },
                                    Parsed::Fail(x) => Parsed::Fail(x),
                                    Parsed::Stuck => Parsed::Stuck,
                                },
                                Parsed::Fail(x) => Parsed::Fail(x),
                                Parsed::Stuck => Parsed::Stuck,
                            },
                            Parsed::Fail(x) => Parsed::Fail(x),
                            Parsed::Stuck => Parsed::Stuck,
                        },
                        Parsed::Fail(x) => Parsed::Fail(x),
                        Parsed::Stuck => Parsed::Stuck,
                    },
                    Parsed::Fail(x) => Parsed::Fail(x),
                    Parsed::Stuck => Parsed::Stuck,
                },
                Parsed::Fail(x) => Parsed::Fail(x),
                Parsed::Stuck => Parsed::Stuck,
            },
            Parsed::Fail(x) => Parsed::Fail(x),
            Parsed::Stuck => Parsed::Stuck,
        },
        Parsed::Fail(x) => Parsed::Fail(x),
        Parsed::Stuck => Parsed::Stuck,
    }
}

/// The further `, cond` clauses of a `requires` list.
pub open spec fn requirements_rest(ts: Seq<TokenView>, acc: Seq<ExprView>, pos: int) -> Parsed<Seq<ExprView>>
    decreases ts.len() - pos,
{
    if !in_range(ts, pos) {
        Parsed::Stuck
    } else if ts[pos].tok == TokView::Comma {
        match sp_expr(ts, pos + 1) {
            Parsed::Done(e, p) => if moved(ts, pos, p) {
                requirements_rest(ts, acc.push(e), p)
            } else {
                Parsed::Stuck
            },
            Parsed::Fail(x) => Parsed::Fail(x),
            Parsed::Stuck => Parsed::Stuck,
        }
    } else {
        Parsed::Done(acc, pos)
    }
}

/// The optional `-> type` and `requires c, ...` of an event, from `pos`.
pub open spec fn sp_event_head(ts: Seq<TokenView>, pos: int) -> Parsed<(Option<Seq<char>>, Seq<ExprView>)> {
    if !in_range(ts, pos) {
        Parsed::Stuck
    } else {
        let ret = if ts[pos].tok == TokView::Arrow {
            match sp_ident(ts, pos + 1) {
                Parsed::Done(t, q) => Parsed::Done(Some(t), q),
                Parsed::Fail(x) => Parsed::Fail(x),
                Parsed::Stuck => Parsed::Stuck,
            }
        } else {
            Parsed::Done(None, pos)
        };
        match ret {
            Parsed::Done(ret_type, q) => if !in_range(ts, q) {
                Parsed::Stuck
            } else if ts[q].tok == TokView::Requires {
                match sp_expr(ts, q + 1) {
                    Parsed::Done(e, r) => if moved(ts, q, r) {
                        match requirements_rest(ts, seq![e], r) {
                            Parsed::Done(reqs, r2) => Parsed::Done((ret_type, reqs), r2),
                            Parsed::Fail(x) => Parsed::Fail(x),
                            Parsed::Stuck => Parsed::Stuck,
                        }
                    } else {
                        Parsed::Stuck
                    },
                    Parsed::Fail(x) => Parsed::Fail(x),
                    Parsed::Stuck => Parsed::Stuck,
                }
            } else {
                Parsed::Done((ret_type, Seq::empty()), q)
            },
            Parsed::Fail(x) => Parsed::Fail(x),
            Parsed::Stuck => Parsed::Stuck,
        }
    }
}

/// `event name(params) [-> type] [requires c, ...] { body }` (the `event` is
/// at `pos`).
pub open spec fn sp_event(ts: Seq<TokenView>, pos: int) -> Parsed<DeclView> {
    match sp_ident(ts, pos + 1) {
        Parsed::Done(name, p1) => match sp_expect(ts, p1, TokView::LParen) {
            Parsed::Done(_, p2) => match sp_params(ts, p2) {
                Parsed::Done(params, p3) => match sp_expect(ts, p3, TokView::RParen) {
                    Parsed::Done(_, p4) => match sp_event_head(ts, p4) {
                        Parsed::Done((ret_type, requirements), p5) => match sp_block(ts, p5) {
                            Parsed::Done(body, p6) => Parsed::Done(
                                DeclView::Event { name, params, ret_type, requirements, body },
                                p6,
                            ),
                            Parsed::Fail(x) => Parsed::Fail(x),
                            Parsed::Stuck => Parsed::Stuck,
                        },
                        Parsed::Fail(x) => Parsed::Fail(x),
                        Parsed::Stuck => Parsed::Stuck,
                    },
                    Parsed::Fail(x) => Parsed::Fail(x),
                    Parsed::Stuck => Parsed::Stuck,
                },
                Parsed::Fail(x) => Parsed::Fail(x),
                Parsed::Stuck => Parsed::Stuck,
            },
            Parsed::Fail(x) => Parsed::Fail(x),
            Parsed::Stuck => Parsed::Stuck,
        },
        Parsed::Fail(x) => Parsed::Fail(x),
        Parsed::Stuck => Parsed::Stuck,
    }
}

/// The further `, "phrase"` entries of a concept.
pub open spec fn phrases_rest(ts: Seq<TokenView>, acc: Seq<Seq<char>>, pos: int) -> Parsed<Seq<Seq<char>>>
    decreases ts.len() - pos,
{
    if !in_range(ts, pos) {
        Parsed::Stuck
    } else if ts[pos].tok == TokView::Comma {
        if !in_range(ts, pos + 1) {
            Parsed::Stuck
        } else {
            match ts[pos + 1].tok {
                TokView::Str(s) => phrases_rest(ts, acc.push(s), pos + 2),
                _ => if !in_range(ts, pos + 2) {
                    Parsed::Stuck
                } else {
                    Parsed::Fail(ParseErrorView::ConceptString { line: ts[pos + 2].line, col: ts[pos + 2].col })
                },
            }
        }
    } else {
        Parsed::Done(acc, pos)
    }
}

/// The phrases of a concept from `pos`, up to (not including) the closing
/// brace.  A first entry that is not a string is read and left out.
pub open spec fn sp_phrases(ts: Seq<TokenView>, pos: int) -> Parsed<Seq<Seq<char>>> {
    if !in_range(ts, pos) {
        Parsed::Stuck
    } else if ts[pos].tok == TokView::RBrace {
        Parsed::Done(Seq::empty(), pos)
    } else {
        let first = match ts[pos].tok {
            TokView::Str(s) => seq![s],
            _ => Seq::empty(),
        };
        phrases_rest(ts, first, pos + 1)
    }
}

/// `concept name = { "phrase", ... };` (the `concept` is at `pos`).
pub open spec fn sp_concept(ts: Seq<TokenView>, pos: int) -> Parsed<DeclView> {
    match sp_ident(ts, pos + 1) {
        Parsed::Done(name, p1) => match sp_expect(ts, p1, TokView::Assign) {
            Parsed::Done(_, p2) => match sp_expect(ts, p2, TokView::LBrace) {
                Parsed::Done(_, p3) => match sp_phrases(ts, p3) {
                    Parsed::Done(tokens, p4) => match sp_expect(ts, p4, TokView::RBrace) {
                        Parsed::Done(_, p5) => match sp_expect(ts, p5, TokView::Semicolon) {
                            Parsed::Done(_, p6) => Parsed::Done(DeclView::Concept { name, tokens }, p6),
                            Parsed::Fail(x) => Parsed::Fail(x),
                            Parsed::Stuck => Parsed::Stuck,
                        },
                        Parsed::Fail(x) => Parsed::Fail(x),
                        Parsed::Stuck => Parsed::Stuck,
                    },
                    Parsed::Fail(x) => Parsed::Fail(x),
                    Parsed::Stuck => Parsed::Stuck,
                },
                Parsed::Fail(x) => Parsed::Fail(x),
                Parsed::Stuck => Parsed::Stuck,
            },
            Parsed::Fail(x) => Parsed::Fail(x),
            Parsed::Stuck => Parsed::Stuck,
        },
        Parsed::Fail(x) => Parsed::Fail(x),
        Parsed::Stuck => Parsed::Stuck,
    }
}

/// `import "path"` and an optional semicolon (the `import` is at `pos`).
pub open spec fn sp_import(ts: Seq<TokenView>, pos: int) -> Parsed<DeclView> {
    if !in_range(ts, pos + 1) {
        Parsed::Stuck
    } else {
        match ts[pos + 1].tok {
            TokView::Str(s) => if !in_range(ts, pos + 2) {
                Parsed::Stuck
            } else if ts[pos + 2].tok == TokView::Semicolon {
                Parsed::Done(DeclView::Import(s), pos + 3)
            } else {
                Parsed::Done(DeclView::Import(s), pos + 2)
            },
            t => Parsed::Fail(ParseErrorView::ImportPath { found: t }),
        }
    }
}

pub open spec fn as_decl(r: Parsed<DeclView>) -> Parsed<ItemView> {
    match r {
        Parsed::Done(d, p) => Parsed::Done(ItemView::Decl(d), p),
        Parsed::Fail(x) => Parsed::Fail(x),
        Parsed::Stuck => Parsed::Stuck,
    }
}

pub open spec fn as_stmt(r: Parsed<StmtView>) -> Parsed<ItemView> {
    match r {
        Parsed::Done(s, p) => Parsed::Done(ItemView::Stmt(s), p),
        Parsed::Fail(x) => Parsed::Fail(x),
        Parsed::Stuck => Parsed::Stuck,
    }
}

/// The top-level item starting at `pos`, chosen by its first token.
pub open spec fn sp_item(ts: Seq<TokenView>, pos: int) -> Parsed<ItemView> {
    if !in_range(ts, pos) {
        Parsed::Stuck
    } else {
        match ts[pos].tok {
            TokView::Gen => as_decl(sp_gen(ts, pos)),
            TokView::Constraint => as_decl(sp_constraint(ts, pos)),
            TokView::Event => as_decl(sp_event(ts, pos)),
            TokView::Concept => as_decl(sp_concept(ts, pos)),
            TokView::Import => as_decl(sp_import(ts, pos)),
            TokView::Let => as_stmt(sp_let(ts, pos)),
            TokView::Print => as_stmt(sp_print(ts, pos)),
            TokView::Ingest => as_stmt(sp_ingest(ts, pos)),
            _ => match sp_expr(ts, pos) {
                Parsed::Done(e, p) => Parsed::Done(ItemView::Stmt(StmtView::Expr(e)), p),
                Parsed::Fail(x) => Parsed::Fail(x),
                Parsed::Stuck => Parsed::Stuck,
            },
        }
    }
}

/// The program items from `pos` after the declarations and statements read
/// so far, up to `Eof`.  Semicolons between items are skipped.
pub open spec fn program_rest(
    ts: Seq<TokenView>,
    decls: Seq<DeclView>,
    stmts: Seq<StmtView>,
    pos: int,
) -> Parsed<ProgramView>
    decreases ts.len() - pos,
{
    if !in_range(ts, pos) {
        Parsed::Stuck
    } else if ts[pos].tok == TokView::Eof {
        Parsed::Done(ProgramView { decls, stmts }, pos)
    } else {
        match skip_semis(ts, pos) {
            None => Parsed::Stuck,
            Some(p) => if !in_range(ts, p) {
                Parsed::Stuck
            } else if ts[p].tok == TokView::Eof {
                Parsed::Done(ProgramView { decls, stmts }, p)
            } else {
                match sp_item(ts, p) {
                    Parsed::Done(item, q) => if !in_range(ts, q) {
                        Parsed::Stuck
                    } else {
                        let q2 = if ts[q].tok == TokView::Semicolon {
                            q + 1
                        } else {
                            q
                        };
                        if moved(ts, pos, q2) {
                            match item {
                                ItemView::Decl(d) => program_rest(ts, decls.push(d), stmts, q2),
                                ItemView::Stmt(s) => program_rest(ts, decls, stmts.push(s), q2),
                            }
                        } else {
                            Parsed::Stuck
                        }
                    },
                    Parsed::Fail(x) => Parsed::Fail(x),
                    Parsed::Stuck => Parsed::Stuck,
                }
            },
        }
    }
}

/// A whole program, read from `pos`.
pub open spec fn sp_program(ts: Seq<TokenView>, pos: int) -> Parsed<ProgramView> {
    program_rest(ts, Seq::empty(), Seq::empty(), pos)
}


/// A program is read up to an `Eof` token: where reading succeeds, it ends
/// at a position that holds `Eof`.
pub proof fn lemma_program_ends_at_eof(
    ts: Seq<TokenView>,
    decls: Seq<DeclView>,
    stmts: Seq<StmtView>,
    pos: int,
)
    ensures
        program_rest(ts, decls, stmts, pos) matches Parsed::Done(_, p) ==> in_range(ts, p) && ts[p].tok
            == TokView::Eof,
    decreases ts.len() - pos,
{
    if in_range(ts, pos) && ts[pos].tok != TokView::Eof {
        if let Some(p) = skip_semis(ts, pos) {
            if in_range(ts, p) && ts[p].tok != TokView::Eof {
                if let Parsed::Done(item, q) = sp_item(ts, p) {
                    if in_range(ts, q) {
                        let q2 = if ts[q].tok == TokView::Semicolon {
                            q + 1
                        } else {
                            q
                        };
                        if moved(ts, pos, q2) {
                            match item {
                                ItemView::Decl(d) => lemma_program_ends_at_eof(ts, decls.push(d), stmts, q2),
                                ItemView::Stmt(s) => lemma_program_ends_at_eof(ts, decls, stmts.push(s), q2),
                            }
                        }
                    }
                }
            }
        }
    }
}

/// An integer operand at `k` followed by a token that continues no
/// expression is read as that integer, at every level of the expression
/// grammar.
proof fn lemma_int_operand(ts: Seq<TokenView>, k: int, n: i64)
    requires
        0 <= k,
        k + 1 < ts.len(),
        ts[k].tok == TokView::Int(n),
    ensures
        sp_unary(ts, k) == Parsed::Done(ExprView::Int(n), k + 1),
        multiplicative_op(ts[k + 1].tok) is None ==> sp_multiplicative(ts, k) == Parsed::Done(ExprView::Int(n), k + 1),
        multiplicative_op(ts[k + 1].tok) is None && additive_op(ts[k + 1].tok) is None ==> sp_additive(ts, k)
            == Parsed::Done(ExprView::Int(n), k + 1),
{
    assert(sp_primary(ts, k) == Parsed::Done(ExprView::Int(n), k + 1));
    assert(sp_unary(ts, k) == Parsed::Done(ExprView::Int(n), k + 1));
    if multiplicative_op(ts[k + 1].tok) is None {
        assert(multiplicative_rest(ts, ExprView::Int(n), k + 1) == Parsed::Done(ExprView::Int(n), k + 1));
        if additive_op(ts[k + 1].tok) is None {
            assert(additive_rest(ts, ExprView::Int(n), k + 1) == Parsed::Done(ExprView::Int(n), k + 1));
        }
    }
}

/// The program of one binary operation on two integers.
pub open spec fn one_operation(a: i64, op: BinOp, b: i64) -> ProgramView {
    ProgramView {
        decls: Seq::empty(),
        stmts: seq![
            StmtView::Expr(ExprView::BinOp(Box::new(ExprView::Int(a)), op, Box::new(ExprView::Int(b)))),
        ],
    }
}

/// Each operator token between two integers is read as its own operator:
/// `+` adds, `-` subtracts, `*` multiplies, `/` divides, and `==`, `!=`,
/// `>=`, `<=`, `>`, `<` compare as written.  The program `a op b` is one
/// expression statement applying that operator to `a` and `b`.
#[verifier::spinoff_prover]
pub proof fn lemma_operator_tokens(ts: Seq<TokenView>, a: i64, b: i64)
    requires
        ts.len() == 4,
        ts[0].tok == TokView::Int(a),
        ts[2].tok == TokView::Int(b),
        ts[3].tok == TokView::Eof,
    ensures
        ts[1].tok == TokView::Plus ==> sp_program(ts, 0) == Parsed::Done(one_operation(a, BinOp::Add, b), 3),
        ts[1].tok == TokView::Minus ==> sp_program(ts, 0) == Parsed::Done(one_operation(a, BinOp::Sub, b), 3),
        ts[1].tok == TokView::Star ==> sp_program(ts, 0) == Parsed::Done(one_operation(a, BinOp::Mul, b), 3),
        ts[1].tok == TokView::Slash ==> sp_program(ts, 0) == Parsed::Done(one_operation(a, BinOp::Div, b), 3),
        ts[1].tok == TokView::Eq ==> sp_program(ts, 0) == Parsed::Done(one_operation(a, BinOp::Eq, b), 3),
        ts[1].tok == TokView::NotEq ==> sp_program(ts, 0) == Parsed::Done(one_operation(a, BinOp::NotEq, b), 3),
        ts[1].tok == TokView::Gte ==> sp_program(ts, 0) == Parsed::Done(one_operation(a, BinOp::Gte, b), 3),
        ts[1].tok == TokView::Lte ==> sp_program(ts, 0) == Parsed::Done(one_operation(a, BinOp::Lte, b), 3),
        ts[1].tok == TokView::Gt ==> sp_program(ts, 0) == Parsed::Done(one_operation(a, BinOp::Gt, b), 3),
        ts[1].tok == TokView::Lt ==> sp_program(ts, 0) == Parsed::Done(one_operation(a, BinOp::Lt, b), 3),
{
    let t = ts[1].tok;
    let ia = ExprView::Int(a);
    let ib = ExprView::Int(b);
    lemma_int_operand(ts, 0, a);
    lemma_int_operand(ts, 2, b);
    assert(multiplicative_op(TokView::Eof) is None && additive_op(TokView::Eof) is None);
    assert(comparison_op(TokView::Eof) is None);
    let op = if t == TokView::Plus {
        BinOp::Add
    } else if t == TokView::Minus {
        BinOp::Sub
    } else if t == TokView::Star {
        BinOp::Mul
    } else if t == TokView::Slash {
        BinOp::Div
    } else if t == TokView::Eq {
        BinOp::Eq
    } else if t == TokView::NotEq {
        BinOp::NotEq
    } else if t == TokView::Gte {
        BinOp::Gte
    } else if t == TokView::Lte {
        BinOp::Lte
    } else if t == TokView::Gt {
        BinOp::Gt
    } else {
        BinOp::Lt
    };
    let e = binop(ia, op, ib);
    if t == TokView::Star || t == TokView::Slash {
        assert(multiplicative_rest(ts, e, 3) == Parsed::Done(e, 3));
        assert(multiplicative_rest(ts, ia, 1) == Parsed::Done(e, 3));
        assert(sp_multiplicative(ts, 0) == Parsed::Done(e, 3));
        assert(additive_rest(ts, e, 3) == Parsed::Done(e, 3));
        assert(sp_additive(ts, 0) == Parsed::Done(e, 3));
    } else if t == TokView::Plus || t == TokView::Minus {
        assert(sp_multiplicative(ts, 2) == Parsed::Done(ib, 3));
        assert(additive_rest(ts, e, 3) == Parsed::Done(e, 3));
        assert(additive_rest(ts, ia, 1) == Parsed::Done(e, 3));
        assert(sp_additive(ts, 0) == Parsed::Done(e, 3));
    } else if comparison_op(t) is Some {
        assert(sp_additive(ts, 0) == Parsed::Done(ia, 1));
        assert(sp_additive(ts, 2) == Parsed::Done(ib, 3));
        assert(comparison_rest(ts, e, 3) == Parsed::Done(e, 3));
        assert(comparison_rest(ts, ia, 1) == Parsed::Done(e, 3));
    }
    if t == TokView::Plus || t == TokView::Minus || t == TokView::Star || t == TokView::Slash || comparison_op(t) is Some {
        assert(comparison_rest(ts, e, 3) == Parsed::Done(e, 3));
        assert(sp_expr(ts, 0) == Parsed::Done(e, 3));
        assert(sp_item(ts, 0) == Parsed::Done(ItemView::Stmt(StmtView::Expr(e)), 3));
        assert(skip_semis(ts, 0) == Some(0int));
        let st = seq![StmtView::Expr(e)];
        assert(Seq::<StmtView>::empty().push(StmtView::Expr(e)) =~= st);
        assert(program_rest(ts, Seq::empty(), st, 3) == Parsed::Done(ProgramView { decls: Seq::empty(), stmts: st }, 3));
        assert(sp_program(ts, 0) == Parsed::Done(ProgramView { decls: Seq::empty(), stmts: st }, 3));
    }
}

/// The operator a binary-operator token names in the language.
pub open spec fn token_operator(t: TokView) -> Option<BinOp> {
    if t == TokView::Plus {
        Some(BinOp::Add)
    } else if t == TokView::Minus {
        Some(BinOp::Sub)
    } else if t == TokView::Star {
        Some(BinOp::Mul)
    } else if t == TokView::Slash {
        Some(BinOp::Div)
    } else if t == TokView::Eq {
        Some(BinOp::Eq)
    } else if t == TokView::NotEq {
        Some(BinOp::NotEq)
    } else if t == TokView::Gte {
        Some(BinOp::Gte)
    } else if t == TokView::Lte {
        Some(BinOp::Lte)
    } else if t == TokView::Gt {
        Some(BinOp::Gt)
    } else if t == TokView::Lt {
        Some(BinOp::Lt)
    } else {
        None
    }
}

/// How tightly an operator token binds: products 3, sums 2, comparisons 1.
pub open spec fn binding(t: TokView) -> int {
    if t == TokView::Star || t == TokView::Slash {
        3
    } else if t == TokView::Plus || t == TokView::Minus {
        2
    } else {
        1
    }
}

/// Two operators between three integers group by how tightly they bind:
/// where the first binds at least as tightly as the second, `a op1 b op2 c`
/// is `(a op1 b) op2 c` (so operators of one level associate to the left);
/// otherwise it is `a op1 (b op2 c)`.
#[verifier::rlimit(40)]
#[verifier::spinoff_prover]
pub proof fn lemma_operator_grouping(ts: Seq<TokenView>, a: i64, b: i64, c: i64)
    requires
        ts.len() == 6,
        ts[0].tok == TokView::Int(a),
        ts[2].tok == TokView::Int(b),
        ts[4].tok == TokView::Int(c),
        ts[5].tok == TokView::Eof,
        token_operator(ts[1].tok) is Some,
        token_operator(ts[3].tok) is Some,
    ensures
        ({
            let o1 = token_operator(ts[1].tok)->0;
            let o2 = token_operator(ts[3].tok)->0;
            let ia = ExprView::Int(a);
            let ib = ExprView::Int(b);
            let ic = ExprView::Int(c);
            let e = if binding(ts[1].tok) >= binding(ts[3].tok) {
                binop(binop(ia, o1, ib), o2, ic)
            } else {
                binop(ia, o1, binop(ib, o2, ic))
            };
            sp_program(ts, 0) == Parsed::Done(
                ProgramView { decls: Seq::empty(), stmts: seq![StmtView::Expr(e)] },
                5,
            )
        }),
{
    let t1 = ts[1].tok;
    let t2 = ts[3].tok;
    let o1 = token_operator(t1)->0;
    let o2 = token_operator(t2)->0;
    let ia = ExprView::Int(a);
    let ib = ExprView::Int(b);
    let ic = ExprView::Int(c);
    lemma_int_operand(ts, 0, a);
    lemma_int_operand(ts, 2, b);
    lemma_int_operand(ts, 4, c);
    let m1 = binding(t1) == 3;
    let a1 = binding(t1) == 2;
    let m2 = binding(t2) == 3;
    let a2 = binding(t2) == 2;
    assert(m1 ==> multiplicative_op(t1) == Some(o1));
    assert(a1 ==> multiplicative_op(t1) is None && additive_op(t1) == Some(o1));
    assert(!m1 && !a1 ==> multiplicative_op(t1) is None && additive_op(t1) is None && comparison_op(t1) == Some(o1));
    assert(m2 ==> multiplicative_op(t2) == Some(o2));
    assert(a2 ==> multiplicative_op(t2) is None && additive_op(t2) == Some(o2));
    assert(!m2 && !a2 ==> multiplicative_op(t2) is None && additive_op(t2) is None && comparison_op(t2) == Some(o2));
    let e = if binding(t1) >= binding(t2) {
        binop(binop(ia, o1, ib), o2, ic)
    } else {
        binop(ia, o1, binop(ib, o2, ic))
    };
    let ab = binop(ia, o1, ib);
    let bc = binop(ib, o2, ic);
    // The tail of each level at the end.
    assert(multiplicative_rest(ts, e, 5) == Parsed::Done(e, 5));
    assert(additive_rest(ts, e, 5) == Parsed::Done(e, 5));
    assert(comparison_rest(ts, e, 5) == Parsed::Done(e, 5));
    assert(multiplicative_rest(ts, bc, 5) == Parsed::Done(bc, 5));
    assert(additive_rest(ts, bc, 5) == Parsed::Done(bc, 5));
    if m1 {
        assert(multiplicative_rest(ts, ab, 3) == if m2 {
            multiplicative_rest(ts, e, 5)
        } else {
            Parsed::Done(ab, 3)
        });
        assert(multiplicative_rest(ts, ia, 1) == multiplicative_rest(ts, ab, 3));
        assert(sp_multiplicative(ts, 0) == multiplicative_rest(ts, ab, 3));
        if m2 {
            assert(sp_additive(ts, 0) == Parsed::Done(e, 5));
        } else if a2 {
            assert(sp_multiplicative(ts, 4) == Parsed::Done(ic, 5));
            assert(additive_rest(ts, ab, 3) == additive_rest(ts, e, 5));
            assert(sp_additive(ts, 0) == Parsed::Done(e, 5));
        } else {
            assert(additive_rest(ts, ab, 3) == Parsed::Done(ab, 3));
            assert(sp_additive(ts, 0) == Parsed::Done(ab, 3));
            assert(sp_additive(ts, 4) == Parsed::Done(ic, 5));
            assert(comparison_rest(ts, ab, 3) == comparison_rest(ts, e, 5));
        }
    } else if a1 {
        assert(sp_multiplicative(ts, 0) == Parsed::Done(ia, 1));
        if m2 {
            assert(multiplicative_rest(ts, ib, 3) == multiplicative_rest(ts, bc, 5));
            assert(sp_multiplicative(ts, 2) == Parsed::Done(bc, 5));
            assert(additive_rest(ts, ia, 1) == additive_rest(ts, e, 5));
        } else if a2 {
            assert(sp_multiplicative(ts, 2) == Parsed::Done(ib, 3));
            assert(sp_multiplicative(ts, 4) == Parsed::Done(ic, 5));
            assert(additive_rest(ts, ab, 3) == additive_rest(ts, e, 5));
            assert(additive_rest(ts, ia, 1) == additive_rest(ts, ab, 3));
        } else {
            assert(sp_multiplicative(ts, 2) == Parsed::Done(ib, 3));
            assert(additive_rest(ts, ab, 3) == Parsed::Done(ab, 3));
            assert(additive_rest(ts, ia, 1) == Parsed::Done(ab, 3));
            assert(sp_additive(ts, 4) == Parsed::Done(ic, 5));
            assert(comparison_rest(ts, ab, 3) == comparison_rest(ts, e, 5));
        }
        assert(sp_additive(ts, 0) == additive_rest(ts, ia, 1));
    } else {
        assert(sp_additive(ts, 0) == Parsed::Done(ia, 1));
        if m2 {
            assert(multiplicative_rest(ts, ib, 3) == multiplicative_rest(ts, bc, 5));
            assert(sp_multiplicative(ts, 2) == Parsed::Done(bc, 5));
            assert(sp_additive(ts, 2) == Parsed::Done(bc, 5));
            assert(comparison_rest(ts, bc, 5) == Parsed::Done(bc, 5));
            assert(comparison_rest(ts, ia, 1) == comparison_rest(ts, e, 5));
        } else if a2 {
            assert(sp_multiplicative(ts, 2) == Parsed::Done(ib, 3));
            assert(sp_multiplicative(ts, 4) == Parsed::Done(ic, 5));
            assert(additive_rest(ts, ib, 3) == additive_rest(ts, bc, 5));
            assert(sp_additive(ts, 2) == Parsed::Done(bc, 5));
            assert(comparison_rest(ts, ia, 1) == comparison_rest(ts, e, 5));
        } else {
            assert(sp_additive(ts, 2) == Parsed::Done(ib, 3));
            assert(sp_additive(ts, 4) == Parsed::Done(ic, 5));
            assert(comparison_rest(ts, ab, 3) == comparison_rest(ts, e, 5));
            assert(comparison_rest(ts, ia, 1) == comparison_rest(ts, ab, 3));
        }
    }
    assert(sp_expr(ts, 0) == Parsed::Done(e, 5));
    assert(sp_item(ts, 0) == Parsed::Done(ItemView::Stmt(StmtView::Expr(e)), 5));
    assert(skip_semis(ts, 0) == Some(0int));
    let st = seq![StmtView::Expr(e)];
    assert(Seq::<StmtView>::empty().push(StmtView::Expr(e)) =~= st);
    assert(program_rest(ts, Seq::empty(), st, 5) == Parsed::Done(ProgramView { decls: Seq::empty(), stmts: st }, 5));
}

} // verus!
