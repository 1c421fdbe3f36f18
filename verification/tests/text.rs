use rcl::text::{chars_eq, chars_of, geometry_label, is_ascii_digit, string_of};

#[test]
fn labels_lose_quotes_and_backslashes() {
    assert_eq!(geometry_label("say \"hi\" at C:\\dir"), "say 'hi' at C:/dir");
    assert_eq!(geometry_label("plain"), "plain");
    assert_eq!(geometry_label(""), "");
}

#[test]
fn character_helpers() {
    let v = chars_of("aé1");
    assert_eq!(v, vec!['a', 'é', '1']);
    assert_eq!(string_of(&v), "aé1");
    assert!(chars_eq(&v, &['a', 'é', '1']));
    assert!(!chars_eq(&v, &['a', 'e', '1']));
    assert!(!chars_eq(&v, &['a']));
    assert!(is_ascii_digit('7'));
    assert!(!is_ascii_digit('٣'));
}

#[test]
fn white_space_matches_std_everywhere() {
    for n in 0u32..0x11_0000 {
        if let Some(c) = char::from_u32(n) {
            assert_eq!(rcl::text::is_whitespace(c), c.is_whitespace(), "U+{:04X}", n);
        }
    }
}
