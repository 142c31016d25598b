use orpheus::token::{FormatError, Token};
use std::collections::HashSet;

#[test]
fn token_text_round_trips() {
    for _ in 0..64 {
        let token = Token::generate();
        let text = token.to_text();
        assert_eq!(Token::parse(text.as_str()), Ok(token));
    }
}

#[test]
fn token_text_of_a_known_value() {
    let token = Token(0xa1a2a3a4b1b2c1c2d1d2d3d4d5d6d7d8);
    assert_eq!(token.to_text(), "a1a2a3a4-b1b2-c1c2-d1d2-d3d4d5d6d7d8");
}

#[test]
fn parse_of_a_known_value() {
    let parsed = Token::parse("550e8400-e29b-41d4-a716-446655440000");
    assert_eq!(parsed, Ok(Token(0x550e8400e29b41d4a716446655440000)));
}

#[test]
fn parse_rejects_malformed_text() {
    assert_eq!(Token::parse(""), Err(FormatError::Malformed));
    assert_eq!(Token::parse("not-a-token"), Err(FormatError::Malformed));
    assert_eq!(
        Token::parse("550E8400-E29B-41D4-A716-446655440000"),
        Err(FormatError::Malformed)
    );
    assert_eq!(
        Token::parse("550e8400e29b41d4a716446655440000"),
        Err(FormatError::Malformed)
    );
    assert_eq!(
        Token::parse("{550e8400-e29b-41d4-a716-446655440000}"),
        Err(FormatError::Malformed)
    );
    assert_eq!(
        Token::parse("550e8400-e29b-41d4-a716-44665544000g"),
        Err(FormatError::Malformed)
    );
    assert_eq!(
        Token::parse("550e8400-e29b-41d4-a716_446655440000"),
        Err(FormatError::Malformed)
    );
}

#[test]
fn generated_tokens_have_version_and_variant_bits() {
    for _ in 0..32 {
        let token = Token::generate();
        assert_eq!((token.0 >> 76) & 0xf, 4);
        assert_eq!((token.0 >> 62) & 0x3, 2);
    }
}

#[test]
fn generated_tokens_do_not_collide() {
    let mut seen: HashSet<Token> = HashSet::new();
    for _ in 0..10_000 {
        assert!(seen.insert(Token::generate()));
    }
}
