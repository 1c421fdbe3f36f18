use rcl::lexer::{LexError, Lexer, Tok, Token};

fn lex(src: &str) -> Result<Vec<Token>, LexError> {
    Lexer::new(src).tokenize()
}

fn toks(src: &str) -> Vec<Tok> {
    lex(src).unwrap().into_iter().map(|t| t.tok).collect()
}

#[test]
fn keywords_and_identifiers() {
    assert_eq!(
        toks("gen let concept constraint event enforce requires if else match ingest print fn import x _y z9"),
        vec![
            Tok::Gen, Tok::Let, Tok::Concept, Tok::Constraint, Tok::Event, Tok::Enforce,
            Tok::Requires, Tok::If, Tok::Else, Tok::Match, Tok::Ingest, Tok::Print, Tok::Fn,
            Tok::Import, Tok::Ident("x".to_string()), Tok::Ident("_y".to_string()),
            Tok::Ident("z9".to_string()), Tok::Eof,
        ]
    );
}

#[test]
fn operators_and_punctuation() {
    assert_eq!(
        toks("+ - * / == != >= <= > < = -> => : ; , ( ) { }"),
        vec![
            Tok::Plus, Tok::Minus, Tok::Star, Tok::Slash, Tok::Eq, Tok::NotEq, Tok::Gte,
            Tok::Lte, Tok::Gt, Tok::Lt, Tok::Assign, Tok::Arrow, Tok::FatArrow, Tok::Colon,
            Tok::Semicolon, Tok::Comma, Tok::LParen, Tok::RParen, Tok::LBrace, Tok::RBrace,
            Tok::Eof,
        ]
    );
}

#[test]
fn numbers() {
    assert_eq!(
        toks("42 007 3.25 1. 9223372036854775807"),
        vec![
            Tok::Int(42), Tok::Int(7), Tok::Float("3.25".to_string()),
            Tok::Float("1.".to_string()), Tok::Int(i64::MAX), Tok::Eof,
        ]
    );
    // A second dot ends the literal and is no token.
    assert_eq!(lex("1.2.3"), Err(LexError::UnexpectedChar { line: 1, col: 4, found: '.' }));
}

#[test]
fn integer_too_large() {
    assert_eq!(lex("x = 9223372036854775808"), Err(LexError::InvalidInt { line: 1, col: 5 }));
}

#[test]
fn strings_and_escapes() {
    assert_eq!(
        toks(r#""a\nb\t\"c\\d\q""#),
        vec![Tok::Str("a\nb\t\"c\\dq".to_string()), Tok::Eof]
    );
    assert_eq!(lex("  \"abc"), Err(LexError::UnterminatedString { line: 1, col: 3 }));
    assert_eq!(lex("\"abc\\"), Err(LexError::UnterminatedString { line: 1, col: 1 }));
}

#[test]
fn comments_and_positions() {
    let ts = lex("let x // note\n  = 1;\n//end").unwrap();
    let pos: Vec<(usize, usize)> = ts.iter().map(|t| (t.line, t.col)).collect();
    assert_eq!(pos, vec![(1, 1), (1, 5), (2, 3), (2, 5), (2, 6), (3, 6)]);
    assert_eq!(ts[5].tok, Tok::Eof);
    // A single slash is division.
    assert_eq!(toks("a / b"), vec![
        Tok::Ident("a".to_string()), Tok::Slash, Tok::Ident("b".to_string()), Tok::Eof,
    ]);
}

#[test]
fn lexical_errors() {
    assert_eq!(lex("a ! b"), Err(LexError::UnexpectedBang { line: 1, col: 3 }));
    assert_eq!(lex("\n  #"), Err(LexError::UnexpectedChar { line: 2, col: 3, found: '#' }));
}

#[test]
fn empty_text_is_just_eof() {
    let ts = lex("").unwrap();
    assert_eq!(ts, vec![Token { tok: Tok::Eof, line: 1, col: 1 }]);
    let ts = lex("   \n ").unwrap();
    assert_eq!(ts, vec![Token { tok: Tok::Eof, line: 2, col: 2 }]);
}

#[test]
fn unicode_identifiers() {
    assert_eq!(toks("été"), vec![Tok::Ident("été".to_string()), Tok::Eof]);
}

#[test]
fn lexer_step_by_step() {
    let mut l = Lexer::new(" a");
    assert_eq!(l.peek(), Some(' '));
    l.skip_ws();
    assert_eq!(l.peek(), Some('a'));
    assert_eq!(l.advance(), Some('a'));
    assert_eq!(l.advance(), None);
}

#[test]
fn lexical_error_messages() {
    let msg = |src: &str| lex(src).unwrap_err().message();
    assert_eq!(msg("x = !y"), "1:5: Unexpected '!'");
    assert_eq!(msg("\n\n   #"), "3:4: Unexpected character '#'");
    assert_eq!(msg("print(\"abc"), "1:7: Unterminated string");
    assert_eq!(msg("99999999999999999999"), "1:1: Invalid int: number too large to fit in target type");
    let mut long = String::new();
    for _ in 0..1234 {
        long.push('\n');
    }
    long.push_str("          @");
    assert_eq!(msg(&long), "1235:11: Unexpected character '@'");
}
