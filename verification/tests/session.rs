use rcl::session::{repl_step, ReplAction};

fn run_of(a: ReplAction) -> Option<String> {
    match a {
        ReplAction::Run(s) => Some(s),
        _ => None,
    }
}

#[test]
fn quit_ends_the_session_and_keeps_the_block() {
    let mut buf = "let x = 1;\n".to_string();
    assert!(matches!(repl_step(&mut buf, "quit\n"), ReplAction::Quit));
    assert!(matches!(repl_step(&mut buf, "  quit \t"), ReplAction::Quit));
    assert_eq!(buf, "let x = 1;\n");
    assert!(matches!(repl_step(&mut buf, "quitx\n"), ReplAction::Wait));
    assert_eq!(buf, "let x = 1;\nquitx\n");
}

#[test]
fn lines_gather_until_a_double_semicolon() {
    let mut buf = String::new();
    assert!(matches!(repl_step(&mut buf, "let x = 1;\n"), ReplAction::Wait));
    assert_eq!(buf, "let x = 1;\n");
    // The line feed stays at the end, so nothing is stripped.
    assert_eq!(run_of(repl_step(&mut buf, "print(x);;\n")), Some("let x = 1;\nprint(x);;\n".to_string()));
    assert_eq!(buf, "");
}

#[test]
fn trailing_pairs_are_stripped() {
    let mut buf = String::new();
    assert_eq!(run_of(repl_step(&mut buf, "x;;;;")), Some("x".to_string()));
    assert_eq!(run_of(repl_step(&mut buf, "a;;;")), Some("a;".to_string()));
    assert_eq!(run_of(repl_step(&mut buf, ";;  ")), Some(";;  ".to_string()));
    assert_eq!(buf, "");
}
