use rcl::ast::{BinOp, Decl, Expr, Stmt};
use rcl::grammar::ParseError;
use rcl::lexer::{Lexer, Tok};
use rcl::parser::Parser;
use rcl::ast::Program;

fn parse(src: &str) -> Option<Result<Program, ParseError>> {
    let tokens = Lexer::new(src).tokenize().unwrap();
    Parser::new(tokens).try_parse_program()
}

fn program(src: &str) -> Program {
    parse(src).unwrap().unwrap()
}

fn int_of(e: &Expr) -> i64 {
    match e {
        Expr::Int(n) => *n,
        other => panic!("not an int: {:?}", other),
    }
}

#[test]
fn precedence_and_associativity() {
    let p = program("1 - 2 - 3 * 4 < 5");
    assert_eq!(p.stmts.len(), 1);
    match &p.stmts[0] {
        Stmt::Expr(Expr::BinOp(l, BinOp::Lt, r)) => {
            assert_eq!(int_of(r), 5);
            match &**l {
                Expr::BinOp(ll, BinOp::Sub, lr) => {
                    match &**ll {
                        Expr::BinOp(a, BinOp::Sub, b) => {
                            assert_eq!(int_of(a), 1);
                            assert_eq!(int_of(b), 2);
                        }
                        other => panic!("{:?}", other),
                    }
                    match &**lr {
                        Expr::BinOp(a, BinOp::Mul, b) => {
                            assert_eq!(int_of(a), 3);
                            assert_eq!(int_of(b), 4);
                        }
                        other => panic!("{:?}", other),
                    }
                }
                other => panic!("{:?}", other),
            }
        }
        other => panic!("{:?}", other),
    }
}

#[test]
fn unary_minus_is_zero_minus() {
    let p = program("-7;");
    match &p.stmts[0] {
        Stmt::Expr(Expr::BinOp(a, BinOp::Sub, b)) => {
            assert_eq!(int_of(a), 0);
            assert_eq!(int_of(b), 7);
        }
        other => panic!("{:?}", other),
    }
}

#[test]
fn declarations() {
    let p = program(
        "gen a: Token; gen b: Token = 2;\n\
         constraint c(x: T, y: U) { enforce x == y; }\n\
         event e(x: T) -> R requires x > 0, x < 9 { let y = x; y }\n\
         concept k = { \"hi\", \"hello\" };\n\
         import \"lib.rcl\";",
    );
    assert_eq!(p.decls.len(), 6);
    assert!(p.stmts.is_empty());
    match &p.decls[0] {
        Decl::Generator { name, ty, init } => {
            assert_eq!(name, "a");
            assert_eq!(ty, "Token");
            assert!(init.is_none());
        }
        other => panic!("{:?}", other),
    }
    match &p.decls[1] {
        Decl::Generator { init: Some(e), .. } => assert_eq!(int_of(e), 2),
        other => panic!("{:?}", other),
    }
    match &p.decls[2] {
        Decl::Constraint { name, params, .. } => {
            assert_eq!(name, "c");
            assert_eq!(
                params,
                &vec![("x".to_string(), "T".to_string()), ("y".to_string(), "U".to_string())]
            );
        }
        other => panic!("{:?}", other),
    }
    match &p.decls[3] {
        Decl::Event { name, params, ret_type, requirements, body } => {
            assert_eq!(name, "e");
            assert_eq!(params.len(), 1);
            assert_eq!(ret_type.as_deref(), Some("R"));
            assert_eq!(requirements.len(), 2);
            match body {
                Expr::Block(stmts, last) => {
                    assert_eq!(stmts.len(), 1);
                    assert!(matches!(&**last, Expr::Var(v) if v == "y"));
                }
                other => panic!("{:?}", other),
            }
        }
        other => panic!("{:?}", other),
    }
    match &p.decls[4] {
        Decl::Concept { name, tokens } => {
            assert_eq!(name, "k");
            assert_eq!(tokens, &vec!["hi".to_string(), "hello".to_string()]);
        }
        other => panic!("{:?}", other),
    }
    assert!(matches!(&p.decls[5], Decl::Import(path) if path == "lib.rcl"));
}

#[test]
fn statements_and_expressions() {
    let p = program(
        "let s = \"txt\"; print(f(1, 2.5, s)); ingest \"some words\";\n\
         if x { 1 } else { 2 };\n\
         match y { 1 => a, _ => b };\n\
         { let z = 1; z };",
    );
    assert_eq!(p.stmts.len(), 6);
    assert!(matches!(&p.stmts[0], Stmt::Let { name, value: Expr::Str(s) } if name == "s" && s == "txt"));
    match &p.stmts[1] {
        Stmt::Print(Expr::Call(f, args)) => {
            assert_eq!(f, "f");
            assert_eq!(args.len(), 3);
            assert!(matches!(&args[1], Expr::Float(t) if t == "2.5"));
        }
        other => panic!("{:?}", other),
    }
    assert!(matches!(&p.stmts[2], Stmt::Ingest(t) if t == "some words"));
    assert!(matches!(&p.stmts[3], Stmt::Expr(Expr::If(..))));
    match &p.stmts[4] {
        Stmt::Expr(Expr::Match(_, arms)) => {
            assert_eq!(arms.len(), 2);
            assert!(!arms[0].is_wildcard);
            assert!(arms[1].is_wildcard);
        }
        other => panic!("{:?}", other),
    }
    match &p.stmts[5] {
        Stmt::Expr(Expr::Block(stmts, last)) => {
            assert_eq!(stmts.len(), 1);
            assert!(matches!(&**last, Expr::Var(v) if v == "z"));
        }
        other => panic!("{:?}", other),
    }
}

#[test]
fn block_ending_with_statement_is_zero() {
    let p = program("{ print(1); }");
    match &p.stmts[0] {
        Stmt::Expr(Expr::Block(stmts, last)) => {
            assert_eq!(stmts.len(), 1);
            assert_eq!(int_of(last), 0);
        }
        other => panic!("{:?}", other),
    }
}

#[test]
fn semicolons_are_skipped() {
    let p = program(";;; 1;; ;2");
    assert_eq!(p.stmts.len(), 2);
    let p = program("");
    assert!(p.decls.is_empty() && p.stmts.is_empty());
}

#[test]
fn expected_token_error() {
    match parse("gen a Token;").unwrap() {
        Err(ParseError::Expected { line, col, expected, found }) => {
            assert_eq!((line, col), (1, 7));
            assert_eq!(expected, Tok::Colon);
            assert_eq!(found, Tok::Ident("Token".to_string()));
        }
        other => panic!("{:?}", other),
    }
}

#[test]
fn identifier_error_reports_next_position() {
    match parse("let 5 = 1;").unwrap() {
        Err(ParseError::Identifier { line, col, found }) => {
            assert_eq!((line, col), (1, 7));
            assert_eq!(found, Tok::Int(5));
        }
        other => panic!("{:?}", other),
    }
}

#[test]
fn string_errors() {
    assert!(matches!(
        parse("import x;").unwrap(),
        Err(ParseError::ImportPath { found: Tok::Ident(_) })
    ));
    assert!(matches!(parse("ingest 3").unwrap(), Err(ParseError::IngestText { found: Tok::Int(3) })));
    assert!(matches!(
        parse("concept k = { \"a\", b };").unwrap(),
        Err(ParseError::ConceptString { line: 1, col: 22 })
    ));
}

#[test]
fn unexpected_token() {
    assert!(matches!(
        parse("print(;)").unwrap(),
        Err(ParseError::UnexpectedToken { line: 1, col: 7, found: Tok::Semicolon })
    ));
}

#[test]
fn reading_past_the_end_is_reported() {
    assert!(parse("gen").is_none());
    assert!(parse("concept k = {").is_none());
}

#[test]
fn parse_program_on_good_input() {
    let tokens = Lexer::new("let a = 1;").tokenize().unwrap();
    let prog = Parser::new(tokens).parse_program().unwrap();
    assert_eq!(prog.stmts.len(), 1);
}

#[test]
fn programs_copy_deeply() {
    let p = program("gen g: T = 2; constraint c(x: T) { enforce x > 1; } event e(a: T) -> T requires a > 0, a < 9 { let y = a; match y { 1 => 2, _ => 3 } } concept k = { \"a\", \"b\" }; import \"m.rcl\"; print(e(1));");
    let q = p.clone();
    assert_eq!(format!("{:?}", p), format!("{:?}", q));
    assert_eq!(q.decls.len(), 5);
    assert_eq!(q.stmts.len(), 1);
}
