use stax::token_store::TokenStore;
use stax::utils::{is_yes, is_yes_word, truncate_string};

#[test]
fn test_truncate_string_short() {
    let input = "short";
    let result = truncate_string(input, 10);
    assert_eq!(result, "short");
}

#[test]
fn test_truncate_string_exact() {
    let input = "exactly10c";
    let result = truncate_string(input, 10);
    assert_eq!(result, "exactly10c");
}

#[test]
fn test_truncate_string_long() {
    let input = "this is a very long string that should be truncated";
    let result = truncate_string(input, 10);
    assert_eq!(result, "this is...");
}

#[test]
fn test_truncate_string_edge_case() {
    let input = "abc";
    let result = truncate_string(input, 3);
    assert_eq!(result, "abc");
}

#[test]
fn test_truncate_string_very_short_limit() {
    let input = "hello world";
    let result = truncate_string(input, 2);
    assert_eq!(result, "...");
}

#[test]
fn test_token_from_contents_trims() {
    assert_eq!(TokenStore::token_from_contents("  gho_abc123\n"), "gho_abc123");
    assert_eq!(TokenStore::token_from_contents("tok"), "tok");
}

#[test]
fn test_is_yes_answers() {
    assert!(is_yes("y"));
    assert!(is_yes(" YES \n"));
    assert!(is_yes("Yes"));
    assert!(!is_yes("no"));
    assert!(!is_yes(""));
    assert!(!is_yes("yess"));
}

#[test]
fn test_is_yes_word_exact() {
    assert!(is_yes_word("y"));
    assert!(is_yes_word("yes"));
    assert!(!is_yes_word("Y"));
    assert!(!is_yes_word(" yes"));
    assert!(!is_yes_word("yeah"));
    assert!(!is_yes_word(""));
}

#[test]
fn test_is_whitespace_matches_std() {
    for c in ['\t', '\n', '\u{b}', '\u{c}', '\r', ' ', '\u{85}', '\u{a0}', '\u{1680}', '\u{2000}', '\u{200a}',
        '\u{2028}', '\u{2029}', '\u{202f}', '\u{205f}', '\u{3000}', 'a', '_', '\u{200b}', '\u{1f}', '\u{feff}']
    {
        assert_eq!(stax::text::is_whitespace(c), c.is_whitespace(), "{:?}", c);
    }
    for n in 0u32..0x3100 {
        if let Some(c) = char::from_u32(n) {
            assert_eq!(stax::text::is_whitespace(c), c.is_whitespace(), "{:?}", c);
        }
    }
}

#[test]
fn test_trim_matches_std() {
    for s in ["", "   ", "  a b  ", "\t\nx\r\n", "\u{3000}tok\u{a0}", "abc", " \u{200b}x\u{200b} "] {
        assert_eq!(stax::text::trim(s), s.trim(), "{:?}", s);
    }
}
