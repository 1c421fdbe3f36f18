use rcl::algebra::{GeneratorId, Monomial};
use rcl::scan::{is_keyword, scan_source, stream_lines, SourceToken};
use rcl::vm::{Pathways, TokenKind};

#[test]
fn monomials() {
    let u = Monomial::unit();
    assert!(u.is_unit());
    let a = Monomial::atom(GeneratorId(1));
    let b = Monomial::atom(GeneratorId(2));
    assert!(!a.is_unit());
    let ab = a.compose(&b);
    assert_eq!(ab.word, vec![GeneratorId(1), GeneratorId(2)]);
    assert_eq!(u.compose(&a), a);
    assert_eq!(a.compose(&u), a);
    let c = Monomial::atom(GeneratorId(3));
    assert_eq!(ab.compose(&c), a.compose(&b.compose(&c)));
    assert_ne!(ab, b.compose(&a));
}

#[test]
fn keywords() {
    for w in ["gen", "let", "concept", "constraint", "event", "if", "else", "match", "ingest",
              "print", "enforce", "requires", "fn", "import"] {
        assert!(is_keyword(w), "{}", w);
    }
    assert!(!is_keyword("Gen"));
    assert!(!is_keyword("generator"));
    assert!(!is_keyword(""));
}

fn pieces(src: &str) -> Vec<(String, TokenKind)> {
    scan_source(src).into_iter().map(|SourceToken { text, kind }| (text, kind)).collect()
}

#[test]
fn source_scanner() {
    assert_eq!(
        pieces("let x_1 = 42 -> y; a==b !c"),
        vec![
            ("let".to_string(), TokenKind::Keyword),
            ("x_1".to_string(), TokenKind::Identifier),
            ("=".to_string(), TokenKind::Operator),
            ("42".to_string(), TokenKind::Literal),
            ("->".to_string(), TokenKind::Delimiter),
            ("y".to_string(), TokenKind::Identifier),
            (";".to_string(), TokenKind::Delimiter),
            ("a".to_string(), TokenKind::Identifier),
            ("==".to_string(), TokenKind::Delimiter),
            ("b".to_string(), TokenKind::Identifier),
            ("!".to_string(), TokenKind::Delimiter),
            ("c".to_string(), TokenKind::Identifier),
        ]
    );
    assert!(pieces("  \n\t").is_empty());
}

#[test]
fn token_kind_codes() {
    let kinds = [TokenKind::Unknown, TokenKind::Letter, TokenKind::Digit, TokenKind::Delimiter,
                 TokenKind::Operator, TokenKind::Keyword, TokenKind::Identifier, TokenKind::Literal];
    let codes: Vec<u8> = kinds.iter().map(|k| k.code()).collect();
    assert_eq!(codes, vec![0, 1, 2, 3, 4, 5, 6, 7]);
}

#[test]
fn pathways_grow_the_basis_when_full() {
    let mut p = Pathways::new(1);
    let (g1, grew1) = p.register();
    assert_eq!((g1, grew1), (GeneratorId(1), false));
    assert_eq!((p.count, p.basis_dim), (1, 1));
    let (g2, grew2) = p.register();
    assert_eq!((g2, grew2), (GeneratorId(2), true));
    assert_eq!((p.next_gen, p.count, p.basis_dim), (3, 2, 2));
    let mut q = Pathways::new(3);
    assert!(!q.register().1);
    assert!(!q.register().1);
    assert!(!q.register().1);
    assert!(q.register().1);
    assert_eq!((q.count, q.basis_dim), (4, 4));
    assert!(q.count <= q.basis_dim);
}

#[test]
fn lines_are_streamed_last_first() {
    assert_eq!(stream_lines("foo\r\nbar\n\nbaz\r"), vec!["baz\r".to_string(), "bar".to_string(), "foo".to_string()]);
    assert_eq!(stream_lines("a\n"), vec!["a".to_string()]);
    assert_eq!(stream_lines("\n\n"), Vec::<String>::new());
    assert_eq!(stream_lines(""), Vec::<String>::new());
}
