use lox::expr::Expr;
use lox::parser::{ParseFailure, Parser, ParserError};
use lox::stmt::Stmt;
use lox::token::{Literal, Token, TokenType};

fn num(x: f64) -> u64 {
    x.to_bits()
}

fn token(token_type: TokenType, lexeme: &str, literal: Literal) -> Token {
    Token { token_type, lexeme: lexeme.to_string(), literal, line: 0 }
}

fn eof() -> Token {
    token(TokenType::Eof, "", Literal::Nil)
}

#[test]
fn test_malformed_equality() {
    let tokens = vec![
        token(TokenType::Number, "", Literal::Number(num(5_f64))),
        // The grammar does not support this token type here.
        token(TokenType::Equal, "", Literal::Nil),
        token(TokenType::Number, "", Literal::Number(num(12_f64))),
        eof(),
    ];
    let mut parser = Parser::new(tokens);
    assert_eq!(parser.factor(), Ok(Expr::Literal { value: Literal::Number(num(5_f64)) }),);
}

#[test]
fn test_factor_one_unary() {
    let tokens = vec![token(TokenType::Number, "", Literal::Number(num(5_f64))), eof()];
    let mut parser = Parser::new(tokens);
    assert_eq!(parser.factor(), Ok(Expr::Literal { value: Literal::Number(num(5_f64)) },));
}

#[test]
fn test_factor_two_unary() {
    let tokens = vec![
        token(TokenType::Number, "", Literal::Number(num(5_f64))),
        token(TokenType::Slash, "", Literal::Nil),
        token(TokenType::Number, "", Literal::Number(num(12_f64))),
        eof(),
    ];
    let mut parser = Parser::new(tokens);
    assert_eq!(
        parser.factor(),
        Ok(Expr::Binary {
            left: Box::new(Expr::Literal { value: Literal::Number(num(5_f64)) }),
            operator: token(TokenType::Slash, "", Literal::Nil),
            right: Box::new(Expr::Literal { value: Literal::Number(num(12_f64)) })
        })
    );
}

#[test]
fn test_factor_three_unary() {
    let tokens = vec![
        token(TokenType::Number, "", Literal::Number(num(5_f64))),
        token(TokenType::Slash, "", Literal::Nil),
        token(TokenType::Number, "", Literal::Number(num(12_f64))),
        token(TokenType::Star, "", Literal::Nil),
        token(TokenType::Number, "", Literal::Number(num(32_f64))),
        eof(),
    ];
    let mut parser = Parser::new(tokens);
    assert_eq!(
        parser.factor(),
        // Left-associative implies 5 / 12 * 32 = (5 / 12) * 32.
        Ok(Expr::Binary {
            left: Box::new(Expr::Binary {
                left: Box::new(Expr::Literal { value: Literal::Number(num(5_f64)) }),
                operator: token(TokenType::Slash, "", Literal::Nil),
                right: Box::new(Expr::Literal { value: Literal::Number(num(12_f64)) })
            }),
            operator: token(TokenType::Star, "", Literal::Nil),
            right: Box::new(Expr::Literal { value: Literal::Number(num(32_f64)) }),
        })
    );
}

#[test]
fn parser_test_assignment() {
    // a = 4;
    let tokens = vec![
        token(TokenType::Identifier, "a", Literal::Nil),
        token(TokenType::Equal, "", Literal::Nil),
        token(TokenType::Number, "", Literal::Number(num(4_f64))),
        eof(),
    ];
    let mut parser = Parser::new(tokens);
    assert_eq!(
        parser.assignment(),
        Ok(Expr::Assign {
            name: token(TokenType::Identifier, "a", Literal::Nil),
            value: Box::new(Expr::Literal { value: Literal::Number(num(4_f64)) }),
        })
    );
}

#[test]
fn test_nested_assignment() {
    // Nested assignment is not a syntax error: a = b = 4;
    let tokens = vec![
        token(TokenType::Identifier, "a", Literal::Nil),
        token(TokenType::Equal, "", Literal::Nil),
        token(TokenType::Identifier, "b", Literal::Nil),
        token(TokenType::Equal, "", Literal::Nil),
        token(TokenType::Number, "", Literal::Number(num(4_f64))),
        eof(),
    ];
    let mut parser = Parser::new(tokens);
    assert_eq!(
        parser.assignment(),
        Ok(Expr::Assign {
            name: token(TokenType::Identifier, "a", Literal::Nil),
            value: Box::new(Expr::Assign {
                name: token(TokenType::Identifier, "b", Literal::Nil),
                value: Box::new(Expr::Literal { value: Literal::Number(num(4_f64)) }),
            })
        })
    );
}

#[test]
fn invalid_assignment_target() {
    // 1 = 2
    let tokens = vec![
        token(TokenType::Number, "1", Literal::Number(num(1_f64))),
        token(TokenType::Equal, "=", Literal::Nil),
        token(TokenType::Number, "2", Literal::Number(num(2_f64))),
        eof(),
    ];
    let mut parser = Parser::new(tokens);
    assert_eq!(
        parser.assignment(),
        Err(ParseFailure::Error(ParserError {
            token: token(TokenType::Equal, "=", Literal::Nil),
            message: "Invalid assignment target".to_string(),
        }))
    );
}

#[test]
fn parse_statements() {
    // print 1; { var a; }
    let tokens = vec![
        token(TokenType::Print, "print", Literal::Nil),
        token(TokenType::Number, "1", Literal::Number(num(1_f64))),
        token(TokenType::Semicolon, ";", Literal::Nil),
        token(TokenType::LeftBrace, "{", Literal::Nil),
        token(TokenType::Var, "var", Literal::Nil),
        token(TokenType::Identifier, "a", Literal::Nil),
        token(TokenType::Semicolon, ";", Literal::Nil),
        token(TokenType::RightBrace, "}", Literal::Nil),
        eof(),
    ];
    let mut parser = Parser::new(tokens);
    assert_eq!(
        parser.parse(),
        Ok(vec![
            Stmt::Print { expression: Expr::Literal { value: Literal::Number(num(1_f64)) } },
            Stmt::Block {
                statements: vec![Stmt::Var {
                    name: token(TokenType::Identifier, "a", Literal::Nil),
                    initializer: Expr::Literal { value: Literal::Nil },
                }],
            },
        ])
    );
}

#[test]
fn parse_if_else() {
    // if (true) print 1; else print 2;
    let tokens = vec![
        token(TokenType::If, "if", Literal::Nil),
        token(TokenType::LeftParen, "(", Literal::Nil),
        token(TokenType::True, "true", Literal::Nil),
        token(TokenType::RightParen, ")", Literal::Nil),
        token(TokenType::Print, "print", Literal::Nil),
        token(TokenType::Number, "1", Literal::Number(num(1_f64))),
        token(TokenType::Semicolon, ";", Literal::Nil),
        token(TokenType::Else, "else", Literal::Nil),
        token(TokenType::Print, "print", Literal::Nil),
        token(TokenType::Number, "2", Literal::Number(num(2_f64))),
        token(TokenType::Semicolon, ";", Literal::Nil),
        eof(),
    ];
    let mut parser = Parser::new(tokens);
    assert_eq!(
        parser.parse(),
        Ok(vec![Stmt::If {
            keyword: token(TokenType::If, "if", Literal::Nil),
            condition: Expr::Literal { value: Literal::Boolean(true) },
            consq: Box::new(Stmt::Print { expression: Expr::Literal { value: Literal::Number(num(1_f64)) } }),
            altern: Some(Box::new(Stmt::Print { expression: Expr::Literal { value: Literal::Number(num(2_f64)) } })),
        }])
    );
}

#[test]
fn first_syntax_error_is_returned() {
    // var = ; print 1
    let tokens = vec![
        token(TokenType::Var, "var", Literal::Nil),
        token(TokenType::Equal, "=", Literal::Nil),
        token(TokenType::Semicolon, ";", Literal::Nil),
        token(TokenType::Print, "print", Literal::Nil),
        token(TokenType::Number, "1", Literal::Number(num(1_f64))),
        eof(),
    ];
    let mut parser = Parser::new(tokens);
    assert_eq!(
        parser.parse(),
        Err(ParserError { token: token(TokenType::Equal, "=", Literal::Nil), message: "Expect variable name".to_string() })
    );
}

#[test]
fn token_that_cannot_start_an_expression() {
    let tokens = vec![token(TokenType::Semicolon, ";", Literal::Nil), eof()];
    let mut parser = Parser::new(tokens);
    assert_eq!(parser.parse_checked(), Err(ParseFailure::Unreachable));
}
