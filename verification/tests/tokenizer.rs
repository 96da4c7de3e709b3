//! Scanning: token streams for plain, escaped, nested and malformed
//! patterns.

use token_expander::{Token, Tokenizer, TokenizerExt};

fn collect_tokens<'a>(mut t: Tokenizer<'a>) -> Vec<Token<'a>> {
    let mut v = Vec::new();
    while let Some(tok) = t.next() {
        v.push(tok);
    }
    v
}

#[test]
fn tokens() {
    let url = "https://${domain}/$repo/$name/${name}_${version}_$arch.deb";
    assert_eq!(
        collect_tokens(Tokenizer::new(url)),
        vec![
            Token::Literal("https://"),
            Token::Key("domain", false),
            Token::Literal("/$repo/$name/"),
            Token::Key("name", false),
            Token::Literal("_"),
            Token::Key("version", false),
            Token::Literal("_$arch.deb"),
        ]
    );
}

#[test]
fn braced_url() {
    let url = "https://${domain}/${repo}/${name}.deb";
    assert_eq!(
        collect_tokens(Tokenizer::new(url)),
        vec![
            Token::Literal("https://"),
            Token::Key("domain", false),
            Token::Literal("/"),
            Token::Key("repo", false),
            Token::Literal("/"),
            Token::Key("name", false),
            Token::Literal(".deb"),
        ]
    );
}

#[test]
fn escaper() {
    let pattern = "foo\\${bar}";
    assert_eq!(
        collect_tokens(Tokenizer::new(pattern)),
        vec![
            Token::Literal("foo"),
            Token::Escaped('$'),
            Token::Literal("{bar}"),
        ]
    );

    assert_eq!(
        collect_tokens(Tokenizer::new("foo###${bar}").set_escape(b'#')),
        vec![
            Token::Literal("foo"),
            Token::Escaped('#'),
            Token::Escaped('$'),
            Token::Literal("{bar}"),
        ]
    );
}

#[test]
fn malformed() {
    assert_eq!(
        collect_tokens(Tokenizer::new("A ${ab")),
        vec![Token::Literal("A "), Token::Key("ab", false)]
    );
}

#[test]
fn nested_keys() {
    assert_eq!(
        collect_tokens(Tokenizer::new("${foo ${bar}} ${${foo} bar}")),
        vec![
            Token::Key("foo ${bar}", true),
            Token::Literal(" "),
            Token::Key("${foo} bar", true),
        ]
    );
}

#[test]
fn stray_close() {
    assert_eq!(
        collect_tokens(Tokenizer::new("${ab}} ")),
        vec![Token::Key("ab", false), Token::Literal("} ")]
    );
}

#[test]
fn adjacent_keys() {
    assert_eq!(
        collect_tokens(Tokenizer::new("${a}${b}")),
        vec![Token::Key("a", false), Token::Key("b", false)]
    );
}

#[test]
fn trailing_escape() {
    assert_eq!(
        collect_tokens(Tokenizer::new("ab\\")),
        vec![Token::Literal("ab"), Token::Escaped('\\')]
    );
    assert_eq!(
        collect_tokens(Tokenizer::new("\\")),
        vec![Token::Escaped('\\')]
    );
}

#[test]
fn empty_pattern() {
    assert_eq!(collect_tokens(Tokenizer::new("")), Vec::new());
}

#[test]
fn plain_pattern_single_literal() {
    assert_eq!(
        collect_tokens(Tokenizer::new("no delimiters here")),
        vec![Token::Literal("no delimiters here")]
    );
}

#[test]
fn dollar_without_brace_is_literal() {
    assert_eq!(
        collect_tokens(Tokenizer::new("a$b${k}c$")),
        vec![
            Token::Literal("a$b"),
            Token::Key("k", false),
            Token::Literal("c$"),
        ]
    );
}

#[test]
fn nested_flag_false_without_complete_opening() {
    assert_eq!(
        collect_tokens(Tokenizer::new("${a$b}")),
        vec![Token::Key("a$b", false)]
    );
    assert_eq!(
        collect_tokens(Tokenizer::new("${ab")),
        vec![Token::Key("ab", false)]
    );
}

#[test]
fn nested_flag_true_when_truncated() {
    assert_eq!(
        collect_tokens(Tokenizer::new("${a ${b")),
        vec![Token::Key("a ${b", true)]
    );
}

#[test]
fn multibyte_code_points() {
    assert_eq!(
        collect_tokens(Tokenizer::new("π${α}µ")),
        vec![
            Token::Literal("π"),
            Token::Key("α", false),
            Token::Literal("µ"),
        ]
    );
    assert_eq!(
        collect_tokens(Tokenizer::new("\\π")),
        vec![Token::Escaped('π')]
    );
}

#[test]
fn introspection() {
    let t = Tokenizer::new("abc${k}");
    assert_eq!(t.get_escape(), b'\\');
    assert_eq!(t.len(), 7);
    assert_eq!(t.read(), 0);
    assert!(!t.is_empty());
    assert!(Tokenizer::new("").is_empty());

    let t = Tokenizer::new("x").set_escape(b'%');
    assert_eq!(t.get_escape(), b'%');

    let mut t = Tokenizer::new("ab${k}");
    while t.next().is_some() {}
    assert_eq!(t.read(), t.len());
}

#[test]
fn escaped_output_stays_inert() {
    // resolving `Escaped('$')` yields the text "$"; scanning it again never
    // produces a placeholder
    let mut t = Tokenizer::new("\\$");
    let resolved = match t.next() {
        Some(Token::Escaped(c)) => c.to_string(),
        other => panic!("expected an escaped token, got {:?}", other),
    };
    assert_eq!(
        collect_tokens(Tokenizer::new(&resolved)),
        vec![Token::Literal("$")]
    );
}

#[test]
fn key_leaves_no_nesting_state() {
    // the nesting seen inside the first key does not leak into the second
    assert_eq!(
        collect_tokens(Tokenizer::new("${a ${b}}${c}")),
        vec![Token::Key("a ${b}", true), Token::Key("c", false)]
    );
}

#[test]
fn token_concatenation_recovers_pattern() {
    let pattern = "pre \\$x ${a}${b ${c}} post";
    let mut rebuilt = String::new();
    for tok in collect_tokens(Tokenizer::new(pattern)) {
        match tok {
            Token::Literal(text) => rebuilt.push_str(text),
            Token::Escaped(c) => {
                rebuilt.push('\\');
                rebuilt.push(c);
            }
            Token::Key(text, _) => {
                rebuilt.push_str("${");
                rebuilt.push_str(text);
                rebuilt.push('}');
            }
        }
    }
    assert_eq!(rebuilt, pattern);
}
