use rcl::ingest::{ingest_pieces, IngestPiece};

fn words(text: &str, phrases: &[&str]) -> Option<Vec<String>> {
    let ps: Vec<String> = phrases.iter().map(|p| p.to_string()).collect();
    ingest_pieces(text, &ps).map(|v| {
        v.into_iter()
            .map(|p| match p {
                IngestPiece::Phrase(s) => format!("<{}>", s),
                IngestPiece::Word(s) => s,
            })
            .collect()
    })
}

#[test]
fn words_are_trimmed_and_lower_cased() {
    assert_eq!(words("Hello, World!  foo", &[]), Some(vec!["hello".to_string(), "world".to_string(), "foo".to_string()]));
    assert_eq!(words("ÄRGER", &[]), Some(vec!["ärger".to_string()]));
    assert_eq!(words("(don't)", &[]), Some(vec!["don't".to_string()]));
}

#[test]
fn words_without_letters_are_dropped() {
    assert_eq!(words("123 abc --", &[]), Some(vec!["abc".to_string()]));
    assert_eq!(words("", &[]), Some(vec![]));
    assert_eq!(words("   ", &[]), Some(vec![]));
}

#[test]
fn the_longest_phrase_wins() {
    assert_eq!(
        words("new york city", &["new", "new york"]),
        Some(vec!["<new york>".to_string(), "city".to_string()])
    );
    assert_eq!(
        words("newyork", &["new"]),
        Some(vec!["<new>".to_string(), "york".to_string()])
    );
    // Phrases match case for case; the word is lower-cased afterwards.
    assert_eq!(words("New", &["new"]), Some(vec!["new".to_string()]));
}

#[test]
fn wide_white_space_cannot_be_skipped() {
    assert_eq!(words("a\u{3000}b", &[]), None);
    // Inside a phrase it is never skipped on its own.
    assert_eq!(words("a\u{3000}b", &["a\u{3000}b"]), Some(vec!["<a\u{3000}b>".to_string()]));
}
