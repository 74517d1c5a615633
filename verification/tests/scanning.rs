use lox::lox::{Lox, Output};
use lox::numbers::Numerics;
use lox::scanner::{is_alpha, is_alpha_numeric, is_digit, keyword, Scanner};
use lox::token::{Literal, Token, TokenType};

/// Lox numbers as `f64`, held as their bits.
struct F64;

impl Numerics for F64 {
    fn parse(&self, text: &str) -> u64 {
        text.parse::<f64>().unwrap().to_bits()
    }

    fn sum(&self, a: u64, b: u64) -> u64 {
        (f64::from_bits(a) + f64::from_bits(b)).to_bits()
    }

    fn difference(&self, a: u64, b: u64) -> u64 {
        (f64::from_bits(a) - f64::from_bits(b)).to_bits()
    }

    fn product(&self, a: u64, b: u64) -> u64 {
        (f64::from_bits(a) * f64::from_bits(b)).to_bits()
    }

    fn quotient(&self, a: u64, b: u64) -> u64 {
        (f64::from_bits(a) / f64::from_bits(b)).to_bits()
    }

    fn debug_text(&self, a: u64) -> String {
        format!("{:?}", f64::from_bits(a))
    }
}

fn num(x: f64) -> u64 {
    x.to_bits()
}

fn token(token_type: TokenType, lexeme: &str, literal: Literal, line: usize) -> Token {
    Token { token_type, lexeme: lexeme.to_string(), literal, line }
}

#[test]
fn scans_a_declaration() {
    let mut lox = Lox::new();
    let mut scanner = Scanner::new("var a = 1.5;".to_string());
    let tokens = scanner.scan_tokens(&mut lox, &F64);
    assert_eq!(
        tokens,
        vec![
            token(TokenType::Var, "var", Literal::Nil, 0),
            token(TokenType::Identifier, "a", Literal::Nil, 0),
            token(TokenType::Equal, "=", Literal::Nil, 0),
            token(TokenType::Number, "1.5", Literal::Number(num(1.5)), 0),
            token(TokenType::Semicolon, ";", Literal::Nil, 0),
            token(TokenType::Eof, "", Literal::Nil, 0),
        ]
    );
    assert!(!lox.had_error());
}

#[test]
fn scans_operators_strings_and_lines() {
    let mut lox = Lox::new();
    let mut scanner = Scanner::new("!= <= // note\n\"two\nlines\" >".to_string());
    let tokens = scanner.scan_tokens(&mut lox, &F64);
    assert_eq!(
        tokens,
        vec![
            token(TokenType::BangEqual, "!=", Literal::Nil, 0),
            token(TokenType::LessEqual, "<=", Literal::Nil, 0),
            token(TokenType::Str, "\"two\nlines\"", Literal::String("two\nlines".to_string()), 2),
            token(TokenType::Greater, ">", Literal::Nil, 2),
            token(TokenType::Eof, "", Literal::Nil, 2),
        ]
    );
}

#[test]
fn unterminated_string_is_reported() {
    let mut lox = Lox::new();
    let mut scanner = Scanner::new("\"abc".to_string());
    let tokens = scanner.scan_tokens(&mut lox, &F64);
    assert_eq!(tokens, vec![token(TokenType::Eof, "", Literal::Nil, 0)]);
    assert!(lox.had_error());
    assert_eq!(lox.take_output(), vec![Output::Stdout("[line 0] Error: Unterminated string.".to_string())]);
}

#[test]
fn character_classes() {
    assert!(is_alpha('a') && is_alpha('Z') && is_alpha('_'));
    assert!(!is_alpha('1') && !is_alpha(' '));
    assert!(is_digit('0') && is_digit('9') && !is_digit('a'));
    assert!(is_alpha_numeric('q') && is_alpha_numeric('7') && !is_alpha_numeric('-'));
}

#[test]
fn keywords() {
    assert_eq!(keyword("while"), Some(TokenType::While));
    assert_eq!(keyword("nil"), Some(TokenType::Nil));
    assert_eq!(keyword("whilst"), None);
}

#[test]
fn operators_with_and_without_equal() {
    let mut lox = Lox::new();
    let mut scanner = Scanner::new("!= = ! == < >= >".to_string());
    let tokens = scanner.scan_tokens(&mut lox, &F64);
    assert_eq!(
        tokens,
        vec![
            token(TokenType::BangEqual, "!=", Literal::Nil, 0),
            token(TokenType::Equal, "=", Literal::Nil, 0),
            token(TokenType::Bang, "!", Literal::Nil, 0),
            token(TokenType::EqualEqual, "==", Literal::Nil, 0),
            token(TokenType::Less, "<", Literal::Nil, 0),
            token(TokenType::GreaterEqual, ">=", Literal::Nil, 0),
            token(TokenType::Greater, ">", Literal::Nil, 0),
            token(TokenType::Eof, "", Literal::Nil, 0),
        ]
    );
    assert!(!lox.had_error());
}

#[test]
fn unexpected_characters_are_skipped() {
    let mut lox = Lox::new();
    let mut scanner = Scanner::new("@\n#;".to_string());
    let tokens = scanner.scan_tokens(&mut lox, &F64);
    assert_eq!(tokens, vec![token(TokenType::Semicolon, ";", Literal::Nil, 1), token(TokenType::Eof, "", Literal::Nil, 1)]);
    assert!(lox.had_error());
    assert_eq!(
        lox.take_output(),
        vec![
            Output::Stdout("[line 0] Error: Unexpected character.".to_string()),
            Output::Stdout("[line 1] Error: Unexpected character.".to_string()),
        ]
    );
}

#[test]
fn end_of_file_carries_the_newline_count() {
    let mut lox = Lox::new();
    let mut scanner = Scanner::new("1\n\n// two\nx\n".to_string());
    let tokens = scanner.scan_tokens(&mut lox, &F64);
    assert_eq!(
        tokens,
        vec![
            token(TokenType::Number, "1", Literal::Number(num(1_f64)), 0),
            token(TokenType::Identifier, "x", Literal::Nil, 3),
            token(TokenType::Eof, "", Literal::Nil, 4),
        ]
    );
}
