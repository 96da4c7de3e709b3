//! The key lexer on its own: close matching, nesting, truncation.

use token_expander::lexer::{Lexer, LexerRules};

#[test]
fn search_finds_matching_close() {
    let mut lexer = Lexer::new("foo ${bar}} rest", LexerRules::default());
    assert_eq!(lexer.search(), "foo ${bar}");
    assert!(lexer.terminated());
    assert!(lexer.found_nested());
    assert_eq!(lexer.read(), 11);
}

#[test]
fn search_flat_key() {
    let mut lexer = Lexer::new("key} tail", LexerRules::default());
    assert_eq!(lexer.search(), "key");
    assert!(lexer.terminated());
    assert!(!lexer.found_nested());
    assert_eq!(lexer.read(), 4);
}

#[test]
fn search_without_close_takes_everything() {
    let mut lexer = Lexer::new("abc", LexerRules::default());
    assert_eq!(lexer.search(), "abc");
    assert!(!lexer.terminated());
    assert!(!lexer.found_nested());
    assert_eq!(lexer.read(), 3);
}

#[test]
fn with_escape_replaces_the_byte() {
    let rules = LexerRules::default();
    assert_eq!(rules.escape(), b'\\');
    let rules = rules.with_escape(b'#');
    assert_eq!(rules.escape(), b'#');
}
