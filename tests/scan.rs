use std::collections::HashMap;

use m68k_scanner::{scan, Token};
use m68k_scanner::ErrorCollector;

fn expect_scanned_tokens(source: &str, expected_tokens: Vec<&Token>) {
    let mut errors: ErrorCollector = Default::default();
    let tokens: Vec<Token> = scan(source, &mut errors);

    assert!(errors.has_no_errors());
    assert_eq!(tokens.len(), expected_tokens.len());
    for (actual, expected) in tokens.iter().zip(expected_tokens.iter()) {
        assert_eq!(&actual, expected);
    }
}

#[test]
fn test_scan_empty_string() {
    expect_scanned_tokens("", vec![]);
}

#[test]
fn test_scan_single_space() {
    expect_scanned_tokens(" ", vec![&Token::Whitespace(0..1)]);
}

#[test]
fn test_scan_multiple_spaces() {
    expect_scanned_tokens(
        " \t",
        vec![&Token::Whitespace(0..1), &Token::Whitespace(1..2)],
    );
}

#[test]
fn test_scan_empty_lines() {
    expect_scanned_tokens("\n\r\n", vec![&Token::Newline(0..1), &Token::Newline(1..3)]);
}

#[test]
fn test_scan_single_token() {
    let mut tokens: HashMap<&str, Token> = HashMap::new();

    tokens.insert("(", Token::OpeningParen(0..1));
    tokens.insert(")", Token::ClosingParen(0..1));
    tokens.insert(",", Token::Comma(0..1));
    tokens.insert(".", Token::Dot(0..1));
    tokens.insert("-", Token::Minus(0..1));
    tokens.insert("+", Token::Plus(0..1));
    tokens.insert("#", Token::NumberSign(0..1));
    tokens.insert(":", Token::Colon(0..1));

    for (source, expected) in tokens.iter() {
        expect_scanned_tokens(source, vec![expected]);
    }
}
