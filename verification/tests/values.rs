use lox::environment::{Environment, Heap};
use lox::expr::Expr;
use lox::numbers::Numerics;
use lox::render::{display_text, quote};
use lox::stmt::Stmt;
use lox::token::{Literal, Token, TokenType};
use lox::value::Value;

/// Lox numbers as `f64`, held as their bits.
struct F64;

impl Numerics for F64 {
    fn parse(&self, text: &str) -> u64 {
        text.parse::<f64>().unwrap().to_bits()
    }

    fn sum(&self, a: u64, b: u64) -> u64 {
        (f64::from_bits(a) + f64::from_bits(b)).to_bits()
    }

    fn difference(&self, a: u64, b: u64) -> u64 {
        (f64::from_bits(a) - f64::from_bits(b)).to_bits()
    }

    fn product(&self, a: u64, b: u64) -> u64 {
        (f64::from_bits(a) * f64::from_bits(b)).to_bits()
    }

    fn quotient(&self, a: u64, b: u64) -> u64 {
        (f64::from_bits(a) / f64::from_bits(b)).to_bits()
    }

    fn debug_text(&self, a: u64) -> String {
        format!("{:?}", f64::from_bits(a))
    }
}

fn num(x: f64) -> u64 {
    x.to_bits()
}

fn token(token_type: TokenType, lexeme: &str) -> Token {
    Token { token_type, lexeme: lexeme.to_string(), literal: Literal::Nil, line: 0 }
}

fn show(v: Value) -> Option<String> {
    let mut heap = Heap::new();
    let _ = Environment::new_top_level(&mut heap);
    display_text(&heap, &v, &F64)
}

#[test]
fn test_display_string() {
    assert_eq!(show(Value::String("hi".to_string())), Some("Value(\"hi\")".to_string()));
}

#[test]
fn test_display_number() {
    assert_eq!(show(Value::Number(num(11_f64))), Some("Value(11.0)".to_string()));
}

#[test]
fn test_display_boolean() {
    assert_eq!(show(Value::Boolean(false)), Some("Value(false)".to_string()));
}

#[test]
fn value_test_display_fun() {
    let mut heap = Heap::new();
    let environment = Environment::new_top_level(&mut heap);
    let value = Value::Fun {
        params: vec![token(TokenType::Identifier, "a"), token(TokenType::Identifier, "b")],
        body: vec![Stmt::Expression { expression: Expr::Literal { value: Literal::Nil } }],
        environment,
    };
    assert_eq!(
        display_text(&heap, &value, &F64),
        Some("Value(Fun(params: [Token { token_type: Identifier, lexeme: \"a\", literal: None, line: 0 }, Token { token_type: Identifier, lexeme: \"b\", literal: None, line: 0 }], body: [Expression { expression: Literal { value: None } }], environment: RefCell { value: Environment { enclosing: None, values: {} } }))".to_string())
    );
}

#[test]
fn test_display_none() {
    assert_eq!(show(Value::Nil), Some("Value(none)".to_string()));
}

#[test]
fn strings_are_escaped() {
    assert_eq!(show(Value::String("a\"b\\c\nd\te\u{1b}".to_string())), Some("Value(\"a\\\"b\\\\c\\nd\\te\\u{1b}\")".to_string()));
}

#[test]
fn environment_with_values_is_written_in_name_order() {
    let mut heap = Heap::new();
    let outer = Environment::new_top_level(&mut heap);
    Environment::define(&mut heap, outer, "z", Value::Number(num(1.5_f64)));
    let inner = Environment::new_block(&mut heap, outer);
    Environment::define(&mut heap, inner, "b", Value::Boolean(true));
    Environment::define(&mut heap, inner, "a", Value::String("s".to_string()));
    let value = Value::Fun { params: Vec::new(), body: Vec::new(), environment: inner };
    assert_eq!(
        display_text(&heap, &value, &F64),
        Some("Value(Fun(params: [], body: [], environment: RefCell { value: Environment { enclosing: Some(RefCell { value: Environment { enclosing: None, values: {\"z\": Number(1.5)} } }), values: {\"a\": String(\"s\"), \"b\": Boolean(true)} } }))".to_string())
    );
}

#[test]
fn function_inside_its_own_environment_has_no_text() {
    let mut heap = Heap::new();
    let env = Environment::new_top_level(&mut heap);
    let value = Value::Fun { params: Vec::new(), body: Vec::new(), environment: env };
    Environment::define(&mut heap, env, "f", value.clone());
    assert_eq!(display_text(&heap, &value, &F64), None);
}

#[test]
fn test_display_literal() {
    assert_eq!(Expr::Literal { value: Literal::Nil }.to_text(&F64), "Expr(None)");
    assert_eq!(Expr::Literal { value: Literal::Boolean(true) }.to_text(&F64), "Expr(Boolean(true))");
    assert_eq!(Expr::Literal { value: Literal::String("hi".to_string()) }.to_text(&F64), "Expr(String(\"hi\"))");
    assert_eq!(Expr::Literal { value: Literal::Number(num(42_f64)) }.to_text(&F64), "Expr(Number(42.0))");
}

#[test]
fn test_display_unary() {
    assert_eq!(
        Expr::Unary {
            operator: token(TokenType::Bang, "!"),
            right: Box::new(Expr::Literal { value: Literal::Boolean(true) })
        }
        .to_text(&F64),
        "Expr(! Expr(Boolean(true)))"
    );
}

#[test]
fn test_display_binary() {
    assert_eq!(
        Expr::Binary {
            left: Box::new(Expr::Literal { value: Literal::Number(num(1_f64)) }),
            operator: token(TokenType::Plus, "+"),
            right: Box::new(Expr::Literal { value: Literal::Number(num(2_f64)) })
        }
        .to_text(&F64),
        "Expr(+ Expr(Number(1.0)) Expr(Number(2.0)))"
    );
}

#[test]
fn test_display_grouping() {
    assert_eq!(
        Expr::Grouping { expression: Box::new(Expr::Literal { value: Literal::Number(num(1_f64)) }) }.to_text(&F64),
        "Expr(Grouping(Expr(Number(1.0))))"
    );
}

#[test]
fn display_of_variable_and_assignment() {
    let name = Token { token_type: TokenType::Identifier, lexeme: "x".to_string(), literal: Literal::Nil, line: 2 };
    assert_eq!(
        Expr::Assign { name: name.clone(), value: Box::new(Expr::Variable { name }) }.to_text(&F64),
        "Expr(Token { token_type: Identifier, lexeme: \"x\", literal: None, line: 2 } Expr(Token { token_type: Identifier, lexeme: \"x\", literal: None, line: 2 }))"
    );
}

#[test]
fn expr_test_display_fun() {
    assert_eq!(
        Expr::Fun {
            params: vec![token(TokenType::Identifier, "a"), token(TokenType::Identifier, "b")],
            body: vec![Stmt::Expression { expression: Expr::Literal { value: Literal::Nil } }],
        }
        .to_text(&F64),
        "Expr(Fun(params: [Token { token_type: Identifier, lexeme: \"a\", literal: None, line: 0 }, Token { token_type: Identifier, lexeme: \"b\", literal: None, line: 0 }], body: [Expression { expression: Literal { value: None } }]))"
    );
}

#[test]
fn characters_outside_ascii_are_written_as_debug_writes_them() {
    assert_eq!(quote("\u{e9}t\u{e9}"), "\"\u{e9}t\u{e9}\"");
    assert_eq!(quote("a\u{301}"), "\"a\\u{301}\"");
    assert_eq!(quote("\u{200b}"), "\"\\u{200b}\"");
    assert_eq!(quote("it's"), "\"it's\"");
    assert_eq!(quote("a\u{301}"), format!("{:?}", "a\u{301}"));
    assert_eq!(quote("x\u{200b}\u{e9}\u{1b}"), format!("{:?}", "x\u{200b}\u{e9}\u{1b}"));
}
