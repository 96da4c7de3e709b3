//! Expansion: folding the token stream through a resolver.

use token_expander::{Token, Tokenizer, TokenizerExt};

#[test]
fn expander() {
    let url = "https://app.domain.org/${name}/${name}_${version}.deb";
    assert_eq!(
        Tokenizer::new(url).expand(|mut buf: String, key| {
            let outcome: Result<bool, String> = match key {
                Token::Literal(text) => {
                    buf.push_str(text);
                    Ok(true)
                }
                Token::Key("name", _) => {
                    buf.push_str("system76");
                    Ok(true)
                }
                Token::Key("version", _) => {
                    buf.push_str("1.0.0");
                    Ok(true)
                }
                Token::Key(other, _) => Err(format!("unsupported key: {}", other)),
                Token::Escaped(_) => panic!("didn't expect an escaped character"),
            };
            (buf, outcome)
        }),
        Ok("https://app.domain.org/system76/system76_1.0.0.deb".into())
    );

    assert_eq!(
        Tokenizer::new("https://app.domain.org/package_version.deb").expand(
            |mut buf: String, key| {
                let outcome: Result<bool, String> = match key {
                    Token::Literal(text) => {
                        buf.push_str(text);
                        Ok(true)
                    }
                    Token::Key(key, _) if key == "foo" => {
                        buf.push_str("bar");
                        Ok(true)
                    }
                    _ => Ok(true),
                };
                (buf, outcome)
            }
        ),
        Ok("https://app.domain.org/package_version.deb".into())
    );
}

#[test]
fn expander_propagates_error() {
    let r = Tokenizer::new("x ${nope} y").expand(|mut buf: String, key| {
        let outcome: Result<bool, String> = match key {
            Token::Literal(text) => {
                buf.push_str(text);
                Ok(true)
            }
            Token::Key(other, _) => Err(format!("unsupported key: {}", other)),
            Token::Escaped(c) => {
                buf.push(c);
                Ok(true)
            }
        };
        (buf, outcome)
    });
    assert_eq!(r, Err("unsupported key: nope".to_string()));
}

#[test]
fn expander_stops_early() {
    let r = Tokenizer::new("a${k}b").expand(|mut buf: String, key| {
        let outcome: Result<bool, String> = match key {
            Token::Literal(text) => {
                buf.push_str(text);
                Ok(true)
            }
            Token::Key(_, _) => {
                buf.push_str("K");
                Ok(false)
            }
            Token::Escaped(c) => {
                buf.push(c);
                Ok(true)
            }
        };
        (buf, outcome)
    });
    assert_eq!(r, Ok("aK".to_string()));
}

#[test]
fn expander_resolves_escapes() {
    let r = Tokenizer::new("100\\% of ${what}").expand(|mut buf: String, key| {
        let outcome: Result<bool, String> = match key {
            Token::Literal(text) => {
                buf.push_str(text);
                Ok(true)
            }
            Token::Key("what", _) => {
                buf.push_str("everything");
                Ok(true)
            }
            Token::Key(other, _) => Err(format!("unsupported key: {}", other)),
            Token::Escaped(c) => {
                buf.push(c);
                Ok(true)
            }
        };
        (buf, outcome)
    });
    assert_eq!(r, Ok("100% of everything".to_string()));
}
