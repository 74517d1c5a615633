use vstd::prelude::*;
use vstd::string::*;

use crate::expr::{Expr, ExprV};
use crate::stmt::{lemma_stmts_model_push, stmts_model, Stmt, StmtV};
use crate::token::{Literal, Token, TokenType};

verus! {

/// A syntax error: the token where it was found and what was expected.
#[derive(Debug, PartialEq)]
pub struct ParserError {
    pub token: Token,
    pub message: String,
}

/// Why parsing stopped: a syntax error, or a token that cannot start an
/// expression, where the parser reaches `unreachable!()` and panics.
#[derive(Debug, PartialEq)]
pub enum ParseFailure {
    Error(ParserError),
    Unreachable,
}

/// The model of a [`ParseFailure`].
pub enum Failure {
    Error(Token, Seq<char>),
    Unreachable,
}

impl ParseFailure {
    pub open spec fn model(&self) -> Failure {
        match self {
            ParseFailure::Error(e) => Failure::Error(e.token, e.message@),
            ParseFailure::Unreachable => Failure::Unreachable,
        }
    }
}

/// The outcome of parsing from a position: the position after what was read
/// and the tree read, or the position where parsing stopped and why.
pub type Parsed<T> = Result<(nat, T), (nat, Failure)>;

// ---------------------------------------------------------------------------
// The grammar, as a function of the token sequence and a position
//
// program        → declaration* EOF ;
// declaration    → varDecl | statement ;
// varDecl        → "var" IDENTIFIER ( "=" expression )? ";" ;
// statement      → printStmt | block | ifStmt | exprStmt ;
// block          → "{" declaration* "}" ;
// ifStmt         → "if" "(" expression ")" statement ( "else" statement )? ;
// expression     → assignment ;
// assignment     → IDENTIFIER "=" assignment | equality ;
// equality       → comparison ( ( "!=" | "==" ) comparison )* ;
// comparison     → term ( ( ">" | ">=" | "<" | "<=" ) term )* ;
// term           → factor ( ( "-" | "+" ) factor )* ;
// factor         → unary ( ( "/" | "*" ) unary )* ;
// unary          → ( "!" | "-" ) unary | primary ;
// primary        → NUMBER | STRING | "true" | "false" | "nil"
//                | "(" expression ")" | IDENTIFIER ;
// ---------------------------------------------------------------------------

pub open spec fn at_end(t: Seq<Token>, p: nat) -> bool {
    p >= t.len() || t[p as int].token_type == TokenType::Eof
}

pub open spec fn check(t: Seq<Token>, p: nat, ty: TokenType) -> bool {
    !at_end(t, p) && t[p as int].token_type == ty
}

pub open spec fn check_any(t: Seq<Token>, p: nat, tys: Seq<TokenType>) -> bool {
    !at_end(t, p) && tys.contains(t[p as int].token_type)
}

pub open spec fn advance(t: Seq<Token>, p: nat) -> nat {
    if at_end(t, p) {
        p
    } else {
        p + 1
    }
}

pub open spec fn consume(t: Seq<Token>, p: nat, ty: TokenType, message: Seq<char>) -> Parsed<Token> {
    if check(t, p, ty) {
        Ok((p + 1, t[p as int]))
    } else {
        Err((p, Failure::Error(t[p as int], message)))
    }
}

pub open spec fn equality_ops() -> Seq<TokenType> {
    seq![TokenType::EqualEqual, TokenType::BangEqual]
}

pub open spec fn comparison_ops() -> Seq<TokenType> {
    seq![TokenType::Less, TokenType::LessEqual, TokenType::Greater, TokenType::GreaterEqual]
}

pub open spec fn term_ops() -> Seq<TokenType> {
    seq![TokenType::Minus, TokenType::Plus]
}

pub open spec fn factor_ops() -> Seq<TokenType> {
    seq![TokenType::Slash, TokenType::Star]
}

pub open spec fn unary_ops() -> Seq<TokenType> {
    seq![TokenType::Bang, TokenType::Minus]
}

/// Whether a recursive step read something and stayed within the tokens.
pub open spec fn moved(t: Seq<Token>, from: nat, to: nat) -> bool {
    from < to <= t.len()
}

#[verifier::opaque]
pub open spec fn p_expression(t: Seq<Token>, p: nat) -> Parsed<ExprV>
    decreases t.len() - p, 16nat,
{
    p_assignment(t, p)
}

pub open spec fn p_assignment(t: Seq<Token>, p: nat) -> Parsed<ExprV>
    decreases t.len() - p, 15nat,
{
    match p_equality(t, p) {
        Err(f) => Err(f),
        Ok((p1, e)) => if p <= p1 && check(t, p1, TokenType::Equal) {
            let equals = t[p1 as int];
            match p_assignment(t, p1 + 1) {
                Err(f) => Err(f),
                Ok((p2, v)) => match e {
                    ExprV::Variable(name) => Ok((p2, ExprV::Assign(name, Box::new(v)))),
                    _ => Err((p2, Failure::Error(equals, "Invalid assignment target"@))),
                },
            }
        } else {
            Ok((p1, e))
        },
    }
}

pub open spec fn p_equality(t: Seq<Token>, p: nat) -> Parsed<ExprV>
    decreases t.len() - p, 14nat,
{
    match p_comparison(t, p) {
        Err(f) => Err(f),
        Ok((p1, e)) => if p <= p1 <= t.len() {
            p_equality_rest(t, p1, e)
        } else {
            Ok((p1, e))
        },
    }
}

pub open spec fn p_equality_rest(t: Seq<Token>, q: nat, left: ExprV) -> Parsed<ExprV>
    decreases t.len() - q, 13nat,
{
    if check_any(t, q, equality_ops()) {
        let op = t[q as int];
        match p_comparison(t, q + 1) {
            Err(f) => Err(f),
            Ok((q1, right)) => {
                let e = ExprV::Binary(Box::new(left), op, Box::new(right));
                if moved(t, q, q1) {
                    p_equality_rest(t, q1, e)
                } else {
                    Ok((q1, e))
                }
            },
        }
    } else {
        Ok((q, left))
    }
}

pub open spec fn p_comparison(t: Seq<Token>, p: nat) -> Parsed<ExprV>
    decreases t.len() - p, 12nat,
{
    match p_term(t, p) {
        Err(f) => Err(f),
        Ok((p1, e)) => if p <= p1 <= t.len() {
            p_comparison_rest(t, p1, e)
        } else {
            Ok((p1, e))
        },
    }
}

pub open spec fn p_comparison_rest(t: Seq<Token>, q: nat, left: ExprV) -> Parsed<ExprV>
    decreases t.len() - q, 11nat,
{
    if check_any(t, q, comparison_ops()) {
        let op = t[q as int];
        match p_term(t, q + 1) {
            Err(f) => Err(f),
            Ok((q1, right)) => {
                let e = ExprV::Binary(Box::new(left), op, Box::new(right));
                if moved(t, q, q1) {
                    p_comparison_rest(t, q1, e)
                } else {
                    Ok((q1, e))
                }
            },
        }
    } else {
        Ok((q, left))
    }
}

pub open spec fn p_term(t: Seq<Token>, p: nat) -> Parsed<ExprV>
    decreases t.len() - p, 10nat,
{
    match p_factor(t, p) {
        Err(f) => Err(f),
        Ok((p1, e)) => if p <= p1 <= t.len() {
            p_term_rest(t, p1, e)
        } else {
            Ok((p1, e))
        },
    }
}

pub open spec fn p_term_rest(t: Seq<Token>, q: nat, left: ExprV) -> Parsed<ExprV>
    decreases t.len() - q, 9nat,
{
    if check_any(t, q, term_ops()) {
        let op = t[q as int];
        match p_factor(t, q + 1) {
            Err(f) => Err(f),
            Ok((q1, right)) => {
                let e = ExprV::Binary(Box::new(left), op, Box::new(right));
                if moved(t, q, q1) {
                    p_term_rest(t, q1, e)
                } else {
                    Ok((q1, e))
                }
            },
        }
    } else {
        Ok((q, left))
    }
}

pub open spec fn p_factor(t: Seq<Token>, p: nat) -> Parsed<ExprV>
    decreases t.len() - p, 8nat,
{
    match p_unary(t, p) {
        Err(f) => Err(f),
        Ok((p1, e)) => if p <= p1 <= t.len() {
            p_factor_rest(t, p1, e)
        } else {
            Ok((p1, e))
        },
    }
}

pub open spec fn p_factor_rest(t: Seq<Token>, q: nat, left: ExprV) -> Parsed<ExprV>
    decreases t.len() - q, 7nat,
{
    if check_any(t, q, factor_ops()) {
        let op = t[q as int];
        match p_unary(t, q + 1) {
            Err(f) => Err(f),
            Ok((q1, right)) => {
                let e = ExprV::Binary(Box::new(left), op, Box::new(right));
                if moved(t, q, q1) {
                    p_factor_rest(t, q1, e)
                } else {
                    Ok((q1, e))
                }
            },
        }
    } else {
        Ok((q, left))
    }
}

pub open spec fn p_unary(t: Seq<Token>, p: nat) -> Parsed<ExprV>
    decreases t.len() - p, 6nat,
{
    if check_any(t, p, unary_ops()) {
        let op = t[p as int];
        match p_unary(t, p + 1) {
            Err(f) => Err(f),
            Ok((p1, right)) => Ok((p1, ExprV::Unary(op, Box::new(right)))),
        }
    } else {
        p_primary(t, p)
    }
}

pub open spec fn p_primary(t: Seq<Token>, p: nat) -> Parsed<ExprV>
    decreases t.len() - p, 5nat,
{
    if check(t, p, TokenType::False) {
        Ok((p + 1, ExprV::Literal(Literal::Boolean(false))))
    } else if check(t, p, TokenType::True) {
        Ok((p + 1, ExprV::Literal(Literal::Boolean(true))))
    } else if check(t, p, TokenType::Nil) {
        Ok((p + 1, ExprV::Literal(Literal::Nil)))
    } else if check(t, p, TokenType::Number) || check(t, p, TokenType::Str) {
        Ok((p + 1, ExprV::Literal(t[p as int].literal)))
    } else if check(t, p, TokenType::LeftParen) {
        match p_expression(t, p + 1) {
            Err(f) => Err(f),
            Ok((p1, e)) => match consume(t, p1, TokenType::RightParen, "Expected ')' after expression"@) {
                Err(f) => Err(f),
                Ok((p2, _)) => Ok((p2, ExprV::Grouping(Box::new(e)))),
            },
        }
    } else if check(t, p, TokenType::Identifier) {
        Ok((p + 1, ExprV::Variable(t[p as int])))
    } else {
        Err((p, Failure::Unreachable))
    }
}

/// Where parsing resumes after an error found at `p`: past the next `;`, or
/// before the next token that starts a statement.
#[verifier::opaque]
pub open spec fn synchronize(t: Seq<Token>, p: nat) -> nat {
    synchronize_from(t, advance(t, p))
}

pub open spec fn synchronize_from(t: Seq<Token>, q: nat) -> nat
    decreases t.len() - q,
{
    if at_end(t, q) {
        q
    } else if q >= 1 && t[q - 1].token_type == TokenType::Semicolon {
        q
    } else if is_statement_start(t[q as int].token_type) {
        q
    } else {
        synchronize_from(t, q + 1)
    }
}

pub open spec fn is_statement_start(ty: TokenType) -> bool {
    ||| ty == TokenType::Class
    ||| ty == TokenType::Fun
    ||| ty == TokenType::Var
    ||| ty == TokenType::For
    ||| ty == TokenType::If
    ||| ty == TokenType::While
    ||| ty == TokenType::Print
    ||| ty == TokenType::Return
}

#[verifier::opaque]
pub open spec fn p_var_declaration(t: Seq<Token>, p: nat) -> Parsed<StmtV> {
    match consume(t, p, TokenType::Identifier, "Expect variable name"@) {
        Err(f) => Err(f),
        Ok((p1, name)) => {
            let init = if check(t, p1, TokenType::Equal) {
                p_expression(t, p1 + 1)
            } else {
                Ok((p1, ExprV::Literal(Literal::Nil)))
            };
            match init {
                Err(f) => Err(f),
                Ok((p2, e)) => match consume(t, p2, TokenType::Semicolon, "Expect ';' after variable declaration"@) {
                    Err(f) => Err(f),
                    Ok((p3, _)) => Ok((p3, StmtV::Var(name, e))),
                },
            }
        },
    }
}

#[verifier::opaque]
pub open spec fn p_print_statement(t: Seq<Token>, p: nat) -> Parsed<StmtV> {
    match p_expression(t, p) {
        Err(f) => Err(f),
        Ok((p1, e)) => match consume(t, p1, TokenType::Semicolon, "Expect ';' after value"@) {
            Err(f) => Err(f),
            Ok((p2, _)) => Ok((p2, StmtV::Print(e))),
        },
    }
}

#[verifier::opaque]
pub open spec fn p_expression_statement(t: Seq<Token>, p: nat) -> Parsed<StmtV> {
    match p_expression(t, p) {
        Err(f) => Err(f),
        Ok((p1, e)) => match consume(t, p1, TokenType::Semicolon, "Expect ';' after expression"@) {
            Err(f) => Err(f),
            Ok((p2, _)) => Ok((p2, StmtV::Expression(e))),
        },
    }
}

#[verifier::opaque]
pub open spec fn p_declaration(t: Seq<Token>, p: nat) -> Parsed<StmtV>
    decreases t.len() - p, 5nat,
{
    match p_declaration_inner(t, p) {
        Err((q, f)) => Err((synchronize(t, q), f)),
        Ok(x) => Ok(x),
    }
}

#[verifier::opaque]
pub open spec fn p_declaration_inner(t: Seq<Token>, p: nat) -> Parsed<StmtV>
    decreases t.len() - p, 4nat,
{
    if check(t, p, TokenType::Var) {
        p_var_declaration(t, p + 1)
    } else {
        p_statement(t, p)
    }
}

#[verifier::opaque]
pub open spec fn p_statement(t: Seq<Token>, p: nat) -> Parsed<StmtV>
    decreases t.len() - p, 3nat,
{
    if check(t, p, TokenType::Print) {
        p_print_statement(t, p + 1)
    } else if check(t, p, TokenType::LeftBrace) {
        match p_block(t, p + 1, Seq::empty()) {
            Err(f) => Err(f),
            Ok((p1, stmts)) => Ok((p1, StmtV::Block(stmts))),
        }
    } else if check(t, p, TokenType::If) {
        p_if_statement(t, p + 1, t[p as int])
    } else {
        p_expression_statement(t, p)
    }
}

/// The rest of a block, after the declarations `done` have been read.
#[verifier::opaque]
pub open spec fn p_block(t: Seq<Token>, q: nat, done: Seq<StmtV>) -> Parsed<Seq<StmtV>>
    decreases t.len() - q, 6nat,
{
    if !check(t, q, TokenType::RightBrace) && !at_end(t, q) {
        match p_declaration(t, q) {
            Err(f) => Err(f),
            Ok((q1, s)) => if moved(t, q, q1) {
                p_block(t, q1, done.push(s))
            } else {
                Ok((q1, done.push(s)))
            },
        }
    } else {
        match consume(t, q, TokenType::RightBrace, "Expect '}' after block"@) {
            Err(f) => Err(f),
            Ok((q1, _)) => Ok((q1, done)),
        }
    }
}

#[verifier::opaque]
pub open spec fn p_if_statement(t: Seq<Token>, q: nat, keyword: Token) -> Parsed<StmtV>
    decreases t.len() - q, 2nat,
{
    match consume(t, q, TokenType::LeftParen, "Expect '(' after 'if'"@) {
        Err(f) => Err(f),
        Ok((q1, _)) => match p_expression(t, q1) {
            Err(f) => Err(f),
            Ok((q2, condition)) => match consume(t, q2, TokenType::RightParen, "Expect ')' after if condition"@) {
                Err(f) => Err(f),
                Ok((q3, _)) => if q < q3 {
                    match p_statement(t, q3) {
                        Err(f) => Err(f),
                        Ok((q4, consq)) => if q3 <= q4 && check(t, q4, TokenType::Else) {
                            match p_statement(t, q4 + 1) {
                                Err(f) => Err(f),
                                Ok((q5, altern)) => Ok((q5, StmtV::If(keyword, condition, Box::new(consq), Some(Box::new(altern))))),
                            }
                        } else {
                            Ok((q4, StmtV::If(keyword, condition, Box::new(consq), None)))
                        },
                    }
                } else {
                    Err((q3, Failure::Unreachable))
                },
            },
        },
    }
}

/// The whole program from `p`, after the declarations `done` have been read.
#[verifier::opaque]
pub open spec fn p_program(t: Seq<Token>, p: nat, done: Seq<StmtV>) -> Parsed<Seq<StmtV>>
    decreases t.len() - p,
{
    if at_end(t, p) {
        Ok((p, done))
    } else {
        match p_declaration(t, p) {
            Err(f) => Err(f),
            Ok((p1, s)) => if moved(t, p, p1) {
                p_program(t, p1, done.push(s))
            } else {
                Ok((p1, done.push(s)))
            },
        }
    }
}

} // verus!

verus! {

/// Factors group to the left: `a * b / c` reads as `(a * b) / c`.
pub proof fn law_factor_groups_left(t: Seq<Token>, p: nat, a: ExprV, p1: nat, b: ExprV, p2: nat, c: ExprV, p3: nat)
    requires
        p3 <= t.len(),
        p_unary(t, p) == Ok::<(nat, ExprV), (nat, Failure)>((p1, a)),
        p < p1,
        check_any(t, p1, factor_ops()),
        p_unary(t, p1 + 1) == Ok::<(nat, ExprV), (nat, Failure)>((p2, b)),
        p1 + 1 < p2,
        check_any(t, p2, factor_ops()),
        p_unary(t, p2 + 1) == Ok::<(nat, ExprV), (nat, Failure)>((p3, c)),
        p2 + 1 < p3,
        !check_any(t, p3, factor_ops()),
    ensures
        p_factor(t, p) == Ok::<(nat, ExprV), (nat, Failure)>(
            (p3, ExprV::Binary(Box::new(ExprV::Binary(Box::new(a), t[p1 as int], Box::new(b))), t[p2 as int], Box::new(c))),
        ),
{
    let ab = ExprV::Binary(Box::new(a), t[p1 as int], Box::new(b));
    let abc = ExprV::Binary(Box::new(ab), t[p2 as int], Box::new(c));
    assert(p_factor_rest(t, p3, abc) == Ok::<(nat, ExprV), (nat, Failure)>((p3, abc)));
    assert(p_factor_rest(t, p2, ab) == p_factor_rest(t, p3, abc));
    assert(p_factor_rest(t, p1, a) == p_factor_rest(t, p2, ab));
}

/// Terms group to the left and keep their operands in source order:
/// `a - b + c` reads as `(a - b) + c`.
pub proof fn law_term_groups_left(t: Seq<Token>, p: nat, a: ExprV, p1: nat, b: ExprV, p2: nat, c: ExprV, p3: nat)
    requires
        p3 <= t.len(),
        p_factor(t, p) == Ok::<(nat, ExprV), (nat, Failure)>((p1, a)),
        p < p1,
        check_any(t, p1, term_ops()),
        p_factor(t, p1 + 1) == Ok::<(nat, ExprV), (nat, Failure)>((p2, b)),
        p1 + 1 < p2,
        check_any(t, p2, term_ops()),
        p_factor(t, p2 + 1) == Ok::<(nat, ExprV), (nat, Failure)>((p3, c)),
        p2 + 1 < p3,
        !check_any(t, p3, term_ops()),
    ensures
        p_term(t, p) == Ok::<(nat, ExprV), (nat, Failure)>(
            (p3, ExprV::Binary(Box::new(ExprV::Binary(Box::new(a), t[p1 as int], Box::new(b))), t[p2 as int], Box::new(c))),
        ),
{
    let ab = ExprV::Binary(Box::new(a), t[p1 as int], Box::new(b));
    let abc = ExprV::Binary(Box::new(ab), t[p2 as int], Box::new(c));
    assert(p_term_rest(t, p3, abc) == Ok::<(nat, ExprV), (nat, Failure)>((p3, abc)));
    assert(p_term_rest(t, p2, ab) == p_term_rest(t, p3, abc));
    assert(p_term_rest(t, p1, a) == p_term_rest(t, p2, ab));
}

/// One operator between two operands: `a - b` has `a` on the left and `b`
/// on the right.
pub proof fn law_term_keeps_operand_order(t: Seq<Token>, p: nat, a: ExprV, p1: nat, b: ExprV, p2: nat)
    requires
        p2 <= t.len(),
        p_factor(t, p) == Ok::<(nat, ExprV), (nat, Failure)>((p1, a)),
        p < p1,
        check_any(t, p1, term_ops()),
        p_factor(t, p1 + 1) == Ok::<(nat, ExprV), (nat, Failure)>((p2, b)),
        p1 + 1 < p2,
        !check_any(t, p2, term_ops()),
    ensures
        p_term(t, p) == Ok::<(nat, ExprV), (nat, Failure)>((p2, ExprV::Binary(Box::new(a), t[p1 as int], Box::new(b)))),
{
    let ab = ExprV::Binary(Box::new(a), t[p1 as int], Box::new(b));
    assert(p_term_rest(t, p2, ab) == Ok::<(nat, ExprV), (nat, Failure)>((p2, ab)));
    assert(p_term_rest(t, p1, a) == p_term_rest(t, p2, ab));
}

/// Comparisons group to the left and keep their operands in source order:
/// `a < b < c` reads as `(a < b) < c`.
pub proof fn law_comparison_groups_left(t: Seq<Token>, p: nat, a: ExprV, p1: nat, b: ExprV, p2: nat, c: ExprV, p3: nat)
    requires
        p3 <= t.len(),
        p_term(t, p) == Ok::<(nat, ExprV), (nat, Failure)>((p1, a)),
        p < p1,
        check_any(t, p1, comparison_ops()),
        p_term(t, p1 + 1) == Ok::<(nat, ExprV), (nat, Failure)>((p2, b)),
        p1 + 1 < p2,
        check_any(t, p2, comparison_ops()),
        p_term(t, p2 + 1) == Ok::<(nat, ExprV), (nat, Failure)>((p3, c)),
        p2 + 1 < p3,
        !check_any(t, p3, comparison_ops()),
    ensures
        p_comparison(t, p) == Ok::<(nat, ExprV), (nat, Failure)>(
            (p3, ExprV::Binary(Box::new(ExprV::Binary(Box::new(a), t[p1 as int], Box::new(b))), t[p2 as int], Box::new(c))),
        ),
{
    let ab = ExprV::Binary(Box::new(a), t[p1 as int], Box::new(b));
    let abc = ExprV::Binary(Box::new(ab), t[p2 as int], Box::new(c));
    assert(p_comparison_rest(t, p3, abc) == Ok::<(nat, ExprV), (nat, Failure)>((p3, abc)));
    assert(p_comparison_rest(t, p2, ab) == p_comparison_rest(t, p3, abc));
    assert(p_comparison_rest(t, p1, a) == p_comparison_rest(t, p2, ab));
}

/// One operator between two operands: `a < b` has `a` on the left and `b`
/// on the right.
pub proof fn law_comparison_keeps_operand_order(t: Seq<Token>, p: nat, a: ExprV, p1: nat, b: ExprV, p2: nat)
    requires
        p2 <= t.len(),
        p_term(t, p) == Ok::<(nat, ExprV), (nat, Failure)>((p1, a)),
        p < p1,
        check_any(t, p1, comparison_ops()),
        p_term(t, p1 + 1) == Ok::<(nat, ExprV), (nat, Failure)>((p2, b)),
        p1 + 1 < p2,
        !check_any(t, p2, comparison_ops()),
    ensures
        p_comparison(t, p) == Ok::<(nat, ExprV), (nat, Failure)>((p2, ExprV::Binary(Box::new(a), t[p1 as int], Box::new(b)))),
{
    let ab = ExprV::Binary(Box::new(a), t[p1 as int], Box::new(b));
    assert(p_comparison_rest(t, p2, ab) == Ok::<(nat, ExprV), (nat, Failure)>((p2, ab)));
    assert(p_comparison_rest(t, p1, a) == p_comparison_rest(t, p2, ab));
}

/// Equalities group to the left and keep their operands in source order:
/// `a == b != c` reads as `(a == b) != c`.
pub proof fn law_equality_groups_left(t: Seq<Token>, p: nat, a: ExprV, p1: nat, b: ExprV, p2: nat, c: ExprV, p3: nat)
    requires
        p3 <= t.len(),
        p_comparison(t, p) == Ok::<(nat, ExprV), (nat, Failure)>((p1, a)),
        p < p1,
        check_any(t, p1, equality_ops()),
        p_comparison(t, p1 + 1) == Ok::<(nat, ExprV), (nat, Failure)>((p2, b)),
        p1 + 1 < p2,
        check_any(t, p2, equality_ops()),
        p_comparison(t, p2 + 1) == Ok::<(nat, ExprV), (nat, Failure)>((p3, c)),
        p2 + 1 < p3,
        !check_any(t, p3, equality_ops()),
    ensures
        p_equality(t, p) == Ok::<(nat, ExprV), (nat, Failure)>(
            (p3, ExprV::Binary(Box::new(ExprV::Binary(Box::new(a), t[p1 as int], Box::new(b))), t[p2 as int], Box::new(c))),
        ),
{
    let ab = ExprV::Binary(Box::new(a), t[p1 as int], Box::new(b));
    let abc = ExprV::Binary(Box::new(ab), t[p2 as int], Box::new(c));
    assert(p_equality_rest(t, p3, abc) == Ok::<(nat, ExprV), (nat, Failure)>((p3, abc)));
    assert(p_equality_rest(t, p2, ab) == p_equality_rest(t, p3, abc));
    assert(p_equality_rest(t, p1, a) == p_equality_rest(t, p2, ab));
}

/// One operator between two operands: `a == b` has `a` on the left and `b`
/// on the right.
pub proof fn law_equality_keeps_operand_order(t: Seq<Token>, p: nat, a: ExprV, p1: nat, b: ExprV, p2: nat)
    requires
        p2 <= t.len(),
        p_comparison(t, p) == Ok::<(nat, ExprV), (nat, Failure)>((p1, a)),
        p < p1,
        check_any(t, p1, equality_ops()),
        p_comparison(t, p1 + 1) == Ok::<(nat, ExprV), (nat, Failure)>((p2, b)),
        p1 + 1 < p2,
        !check_any(t, p2, equality_ops()),
    ensures
        p_equality(t, p) == Ok::<(nat, ExprV), (nat, Failure)>((p2, ExprV::Binary(Box::new(a), t[p1 as int], Box::new(b)))),
{
    let ab = ExprV::Binary(Box::new(a), t[p1 as int], Box::new(b));
    assert(p_equality_rest(t, p2, ab) == Ok::<(nat, ExprV), (nat, Failure)>((p2, ab)));
    assert(p_equality_rest(t, p1, a) == p_equality_rest(t, p2, ab));
}

/// One operator between two operands: `a * b` has `a` on the left and `b`
/// on the right.
pub proof fn law_factor_keeps_operand_order(t: Seq<Token>, p: nat, a: ExprV, p1: nat, b: ExprV, p2: nat)
    requires
        p2 <= t.len(),
        p_unary(t, p) == Ok::<(nat, ExprV), (nat, Failure)>((p1, a)),
        p < p1,
        check_any(t, p1, factor_ops()),
        p_unary(t, p1 + 1) == Ok::<(nat, ExprV), (nat, Failure)>((p2, b)),
        p1 + 1 < p2,
        !check_any(t, p2, factor_ops()),
    ensures
        p_factor(t, p) == Ok::<(nat, ExprV), (nat, Failure)>((p2, ExprV::Binary(Box::new(a), t[p1 as int], Box::new(b)))),
{
    let ab = ExprV::Binary(Box::new(a), t[p1 as int], Box::new(b));
    assert(p_factor_rest(t, p2, ab) == Ok::<(nat, ExprV), (nat, Failure)>((p2, ab)));
    assert(p_factor_rest(t, p1, a) == p_factor_rest(t, p2, ab));
}

/// Assignment groups to the right: `a = b = v` assigns `v` to `b`, and that
/// to `a`.
pub proof fn law_assignment_groups_right(
    t: Seq<Token>,
    p: nat,
    first: Token,
    p1: nat,
    second: Token,
    p2: nat,
    v: ExprV,
    p3: nat,
)
    requires
        p_equality(t, p) == Ok::<(nat, ExprV), (nat, Failure)>((p1, ExprV::Variable(first))),
        p <= p1,
        check(t, p1, TokenType::Equal),
        p_equality(t, p1 + 1) == Ok::<(nat, ExprV), (nat, Failure)>((p2, ExprV::Variable(second))),
        p1 + 1 <= p2,
        check(t, p2, TokenType::Equal),
        p_assignment(t, p2 + 1) == Ok::<(nat, ExprV), (nat, Failure)>((p3, v)),
    ensures
        p_assignment(t, p) == Ok::<(nat, ExprV), (nat, Failure)>(
            (p3, ExprV::Assign(first, Box::new(ExprV::Assign(second, Box::new(v))))),
        ),
{
    assert(p_assignment(t, p1 + 1) == Ok::<(nat, ExprV), (nat, Failure)>((p3, ExprV::Assign(second, Box::new(v)))));
}

/// How an exec parse result relates to the grammar's outcome, given the
/// position the parser stands at afterwards.
pub open spec fn expr_outcome(r: Result<Expr, ParseFailure>, pos: nat, s: Parsed<ExprV>) -> bool {
    match r {
        Ok(e) => s == Ok::<(nat, ExprV), (nat, Failure)>((pos, e.model())),
        Err(f) => s == Err::<(nat, ExprV), (nat, Failure)>((pos, f.model())),
    }
}

pub open spec fn stmt_outcome(r: Result<Stmt, ParseFailure>, pos: nat, s: Parsed<StmtV>) -> bool {
    match r {
        Ok(st) => s == Ok::<(nat, StmtV), (nat, Failure)>((pos, st.model())),
        Err(f) => s == Err::<(nat, StmtV), (nat, Failure)>((pos, f.model())),
    }
}

pub open spec fn stmts_outcome(r: Result<Vec<Stmt>, ParseFailure>, pos: nat, s: Parsed<Seq<StmtV>>) -> bool {
    match r {
        Ok(v) => s == Ok::<(nat, Seq<StmtV>), (nat, Failure)>((pos, stmts_model(v@))),
        Err(f) => s == Err::<(nat, Seq<StmtV>), (nat, Failure)>((pos, f.model())),
    }
}

pub open spec fn token_outcome(r: Result<Token, ParseFailure>, pos: nat, s: Parsed<Token>) -> bool {
    match r {
        Ok(t) => s == Ok::<(nat, Token), (nat, Failure)>((pos, t)),
        Err(f) => s == Err::<(nat, Token), (nat, Failure)>((pos, f.model())),
    }
}

/// A recursive-descent parser for Lox.
pub struct Parser {
    tokens: Vec<Token>,
    current: usize,
    eof: Ghost<nat>,
}

impl Parser {
    /// The tokens being parsed.
    pub closed spec fn tokens(&self) -> Seq<Token> {
        self.tokens@
    }

    /// The index of the next token to read.
    pub closed spec fn position(&self) -> nat {
        self.current as nat
    }

    /// The parser stands on a token, and an end-of-file token lies at or
    /// after it (the parser never reads past it).
    pub closed spec fn ready(&self) -> bool {
        &&& self.current <= self.eof@ < self.tokens@.len() <= usize::MAX
        &&& self.tokens@[self.eof@ as int].token_type == TokenType::Eof
    }

    pub fn new(tokens: Vec<Token>) -> (p: Self)
        ensures
            p.tokens() == tokens@,
            p.position() == 0,
            (exists|e: int| 0 <= e < tokens@.len() && tokens@[e].token_type == TokenType::Eof) ==> p.ready(),
    {
        let _n = tokens.len();
        let ghost eof = choose|e: nat| e < tokens@.len() && tokens@[e as int].token_type == TokenType::Eof;
        proof {
            if exists|e: int| 0 <= e < tokens@.len() && tokens@[e].token_type == TokenType::Eof {
                let e = choose|e: int| 0 <= e < tokens@.len() && tokens@[e].token_type == TokenType::Eof;
                let en: nat = e as nat;
                assert(en < tokens@.len() && tokens@[en as int].token_type == TokenType::Eof);
            }
        }
        Self { tokens, current: 0, eof: Ghost(eof) }
    }

    fn is_at_end(&self) -> (r: bool)
        requires
            self.ready(),
        ensures
            r == at_end(self.tokens@, self.current as nat),
    {
        self.tokens[self.current].token_type == TokenType::Eof
    }

    fn check(&self, token_type: TokenType) -> (r: bool)
        requires
            self.ready(),
        ensures
            r == check(self.tokens@, self.current as nat, token_type),
    {
        if self.is_at_end() {
            false
        } else {
            self.tokens[self.current].token_type == token_type
        }
    }

    fn peek(&self) -> (t: Token)
        requires
            self.ready(),
        ensures
            t == self.tokens@[self.current as int],
    {
        self.tokens[self.current].clone()
    }

    fn previous(&self) -> (t: Token)
        requires
            1 <= self.current <= self.tokens@.len(),
        ensures
            t == self.tokens@[self.current - 1],
    {
        self.tokens[self.current - 1].clone()
    }

    fn advance(&mut self) -> (t: Token)
        requires
            old(self).ready(),
            1 <= old(self).current || !at_end(old(self).tokens@, old(self).current as nat),
        ensures
            final(self).ready(),
            final(self).tokens@ == old(self).tokens@,
            final(self).current == advance(old(self).tokens@, old(self).current as nat),
            t == final(self).tokens@[final(self).current - 1],
    {
        if !self.is_at_end() {
            self.current = self.current + 1;
        }
        self.previous()
    }

    fn match_types(&mut self, types: &[TokenType]) -> (r: bool)
        requires
            old(self).ready(),
        ensures
            final(self).ready(),
            final(self).tokens@ == old(self).tokens@,
            r == check_any(old(self).tokens@, old(self).current as nat, types@),
            final(self).current == old(self).current + if r { 1nat } else { 0nat },
    {
        let mut i: usize = 0;
        while i < types.len()
            invariant
                self.ready(),
                *self == *old(self),
                i <= types@.len(),
                forall|j: int| 0 <= j < i ==> !check(self.tokens@, self.current as nat, #[trigger] types@[j]),
            decreases types@.len() - i,
        {
            if self.check(types[i]) {
                self.advance();
                assert(types@.contains(types@[i as int]));
                return true;
            }
            i = i + 1;
        }
        proof {
            if check_any(self.tokens@, self.current as nat, types@) {
                let k = choose|k: int| 0 <= k < types@.len() && types@[k] == self.tokens@[self.current as int].token_type;
                assert(!check(self.tokens@, self.current as nat, types@[k]));
            }
        }
        false
    }

    fn match_type(&mut self, token_type: TokenType) -> (r: bool)
        requires
            old(self).ready(),
        ensures
            final(self).ready(),
            final(self).tokens@ == old(self).tokens@,
            r == check(old(self).tokens@, old(self).current as nat, token_type),
            final(self).current == old(self).current + if r { 1nat } else { 0nat },
    {
        if self.check(token_type) {
            self.advance();
            true
        } else {
            false
        }
    }

    fn consume(&mut self, token_type: TokenType, message: String) -> (r: Result<Token, ParseFailure>)
        requires
            old(self).ready(),
        ensures
            final(self).ready(),
            final(self).tokens@ == old(self).tokens@,
            token_outcome(r, final(self).current as nat, consume(old(self).tokens@, old(self).current as nat, token_type, message@)),
    {
        if self.check(token_type) {
            Ok(self.advance())
        } else {
            let token = self.peek();
            Err(self.error(token, message))
        }
    }

    fn error(&mut self, token: Token, message: String) -> (e: ParseFailure)
        ensures
            e.model() == Failure::Error(token, message@),
            *final(self) == *old(self),
    {
        ParseFailure::Error(ParserError { token, message })
    }
}


impl Parser {
    fn expression(&mut self) -> (r: Result<Expr, ParseFailure>)
        requires
            old(self).ready(),
        ensures
            final(self).ready(),
            final(self).tokens@ == old(self).tokens@,
            old(self).current <= final(self).current,
            r is Ok ==> old(self).current < final(self).current,
            expr_outcome(r, final(self).current as nat, p_expression(old(self).tokens@, old(self).current as nat)),
        decreases old(self).tokens().len() - old(self).position(), 16nat,
    {
        proof {
            reveal_with_fuel(p_expression, 1);
        }
        self.assignment()
    }

    /// Parses an assignment (or any expression of lower precedence).
    #[verifier::rlimit(100)]
    #[verifier::spinoff_prover]
    pub fn assignment(&mut self) -> (r: Result<Expr, ParseFailure>)
        requires
            old(self).ready(),
        ensures
            final(self).ready(),
            final(self).tokens() == old(self).tokens(),
            old(self).position() <= final(self).position(),
            r is Ok ==> old(self).position() < final(self).position(),
            expr_outcome(r, final(self).position(), p_assignment(old(self).tokens(), old(self).position())),
        decreases old(self).tokens().len() - old(self).position(), 15nat,
    {
        let expr = match self.equality() {
            Ok(e) => e,
            Err(f) => return Err(f),
        };
        if self.match_type(TokenType::Equal) {
            let equals = self.previous();
            let value = match self.assignment() {
                Ok(v) => v,
                Err(f) => return Err(f),
            };
            match expr {
                Expr::Variable { name } => {
                    return Ok(Expr::Assign { name, value: Box::new(value) });
                },
                _ => {},
            }
            return Err(self.error(equals, String::from_str("Invalid assignment target")));
        }
        Ok(expr)
    }

    #[verifier::rlimit(100)]
    #[verifier::spinoff_prover]
    fn equality(&mut self) -> (r: Result<Expr, ParseFailure>)
        requires
            old(self).ready(),
        ensures
            final(self).ready(),
            final(self).tokens@ == old(self).tokens@,
            old(self).current <= final(self).current,
            r is Ok ==> old(self).current < final(self).current,
            expr_outcome(r, final(self).current as nat, p_equality(old(self).tokens@, old(self).current as nat)),
        decreases old(self).tokens().len() - old(self).position(), 14nat,
    {
        let ghost t = self.tokens@;
        let ghost p0 = self.current as nat;
        let mut expr = match self.comparison() {
            Ok(e) => e,
            Err(f) => return Err(f),
        };
        loop
            invariant
                self.ready(),
                self.tokens@ == t,
                p0 == old(self).current,
                t == old(self).tokens@,
                p0 < self.current,
                p_equality(t, p0) == p_equality_rest(t, self.current as nat, expr.model()),
            decreases t.len() - self.current,
        {
            let ghost q = self.current as nat;
            let ops: [TokenType; 2] = [TokenType::EqualEqual, TokenType::BangEqual];
            proof {
                assert(ops@ =~= equality_ops());
            }
            if !self.match_types(&ops) {
                return Ok(expr);
            }
            let operator = self.previous();
            let right = match self.comparison() {
                Ok(e) => e,
                Err(f) => return Err(f),
            };
            expr = Expr::Binary { left: Box::new(expr), operator, right: Box::new(right) };
        }
    }

    #[verifier::rlimit(100)]
    #[verifier::spinoff_prover]
    fn comparison(&mut self) -> (r: Result<Expr, ParseFailure>)
        requires
            old(self).ready(),
        ensures
            final(self).ready(),
            final(self).tokens@ == old(self).tokens@,
            old(self).current <= final(self).current,
            r is Ok ==> old(self).current < final(self).current,
            expr_outcome(r, final(self).current as nat, p_comparison(old(self).tokens@, old(self).current as nat)),
        decreases old(self).tokens().len() - old(self).position(), 12nat,
    {
        let ghost t = self.tokens@;
        let ghost p0 = self.current as nat;
        let mut expr = match self.term() {
            Ok(e) => e,
            Err(f) => return Err(f),
        };
        loop
            invariant
                self.ready(),
                self.tokens@ == t,
                p0 == old(self).current,
                t == old(self).tokens@,
                p0 < self.current,
                p_comparison(t, p0) == p_comparison_rest(t, self.current as nat, expr.model()),
            decreases t.len() - self.current,
        {
            let ops: [TokenType; 4] = [TokenType::Less, TokenType::LessEqual, TokenType::Greater, TokenType::GreaterEqual];
            proof {
                assert(ops@ =~= comparison_ops());
            }
            if !self.match_types(&ops) {
                return Ok(expr);
            }
            let operator = self.previous();
            let right = match self.term() {
                Ok(e) => e,
                Err(f) => return Err(f),
            };
            expr = Expr::Binary { left: Box::new(expr), operator, right: Box::new(right) };
        }
    }

    #[verifier::rlimit(100)]
    #[verifier::spinoff_prover]
    fn term(&mut self) -> (r: Result<Expr, ParseFailure>)
        requires
            old(self).ready(),
        ensures
            final(self).ready(),
            final(self).tokens@ == old(self).tokens@,
            old(self).current <= final(self).current,
            r is Ok ==> old(self).current < final(self).current,
            expr_outcome(r, final(self).current as nat, p_term(old(self).tokens@, old(self).current as nat)),
        decreases old(self).tokens().len() - old(self).position(), 10nat,
    {
        let ghost t = self.tokens@;
        let ghost p0 = self.current as nat;
        let mut expr = match self.factor() {
            Ok(e) => e,
            Err(f) => return Err(f),
        };
        loop
            invariant
                self.ready(),
                self.tokens@ == t,
                p0 == old(self).current,
                t == old(self).tokens@,
                p0 < self.current,
                p_term(t, p0) == p_term_rest(t, self.current as nat, expr.model()),
            decreases t.len() - self.current,
        {
            let ops: [TokenType; 2] = [TokenType::Minus, TokenType::Plus];
            proof {
                assert(ops@ =~= term_ops());
            }
            if !self.match_types(&ops) {
                return Ok(expr);
            }
            let operator = self.previous();
            let right = match self.factor() {
                Ok(e) => e,
                Err(f) => return Err(f),
            };
            expr = Expr::Binary { left: Box::new(expr), operator, right: Box::new(right) };
        }
    }

    /// Parses a factor: unary expressions joined by `/` and `*`, grouped to
    /// the left.
    #[verifier::rlimit(100)]
    #[verifier::spinoff_prover]
    pub fn factor(&mut self) -> (r: Result<Expr, ParseFailure>)
        requires
            old(self).ready(),
        ensures
            final(self).ready(),
            final(self).tokens() == old(self).tokens(),
            old(self).position() <= final(self).position(),
            r is Ok ==> old(self).position() < final(self).position(),
            expr_outcome(r, final(self).position(), p_factor(old(self).tokens(), old(self).position())),
        decreases old(self).tokens().len() - old(self).position(), 8nat,
    {
        let ghost t = self.tokens@;
        let ghost p0 = self.current as nat;
        let mut expr = match self.unary() {
            Ok(e) => e,
            Err(f) => return Err(f),
        };
        loop
            invariant
                self.ready(),
                self.tokens@ == t,
                p0 == old(self).current,
                t == old(self).tokens@,
                p0 < self.current,
                p_factor(t, p0) == p_factor_rest(t, self.current as nat, expr.model()),
            decreases t.len() - self.current,
        {
            let ops: [TokenType; 2] = [TokenType::Slash, TokenType::Star];
            proof {
                assert(ops@ =~= factor_ops());
            }
            if !self.match_types(&ops) {
                return Ok(expr);
            }
            let operator = self.previous();
            let right = match self.unary() {
                Ok(e) => e,
                Err(f) => return Err(f),
            };
            expr = Expr::Binary { left: Box::new(expr), operator, right: Box::new(right) };
        }
    }

    fn unary(&mut self) -> (r: Result<Expr, ParseFailure>)
        requires
            old(self).ready(),
        ensures
            final(self).ready(),
            final(self).tokens@ == old(self).tokens@,
            old(self).current <= final(self).current,
            r is Ok ==> old(self).current < final(self).current,
            expr_outcome(r, final(self).current as nat, p_unary(old(self).tokens@, old(self).current as nat)),
        decreases old(self).tokens().len() - old(self).position(), 6nat,
    {
        let ops: [TokenType; 2] = [TokenType::Bang, TokenType::Minus];
        proof {
            assert(ops@ =~= unary_ops());
        }
        if self.match_types(&ops) {
            let operator: Token = self.previous();
            let right: Expr = match self.unary() {
                Ok(e) => e,
                Err(f) => return Err(f),
            };
            Ok(Expr::Unary { operator, right: Box::new(right) })
        } else {
            self.primary()
        }
    }

    #[verifier::rlimit(100)]
    #[verifier::spinoff_prover]
    fn primary(&mut self) -> (r: Result<Expr, ParseFailure>)
        requires
            old(self).ready(),
        ensures
            final(self).ready(),
            final(self).tokens@ == old(self).tokens@,
            old(self).current <= final(self).current,
            r is Ok ==> old(self).current < final(self).current,
            expr_outcome(r, final(self).current as nat, p_primary(old(self).tokens@, old(self).current as nat)),
        decreases old(self).tokens().len() - old(self).position(), 5nat,
    {
        if self.match_type(TokenType::False) {
            Ok(Expr::Literal { value: Literal::Boolean(false) })
        } else if self.match_type(TokenType::True) {
            Ok(Expr::Literal { value: Literal::Boolean(true) })
        } else if self.match_type(TokenType::Nil) {
            Ok(Expr::Literal { value: Literal::Nil })
        } else if self.match_type(TokenType::Number) || self.match_type(TokenType::Str) {
            Ok(Expr::Literal { value: self.previous().literal })
        } else if self.match_type(TokenType::LeftParen) {
            let expr = match self.expression() {
                Ok(e) => e,
                Err(f) => return Err(f),
            };
            match self.consume(TokenType::RightParen, String::from_str("Expected ')' after expression")) {
                Ok(_) => {},
                Err(f) => return Err(f),
            }
            Ok(Expr::Grouping { expression: Box::new(expr) })
        } else if self.match_type(TokenType::Identifier) {
            Ok(Expr::Variable { name: self.previous() })
        } else {
            Err(ParseFailure::Unreachable)
        }
    }
}


pub proof fn lemma_declaration_unfold(t: Seq<Token>, p: nat)
    ensures
        p_declaration(t, p) == match p_declaration_inner(t, p) {
            Err((q, f)) => Err((synchronize(t, q), f)),
            Ok(x) => Ok(x),
        },
{
    reveal_with_fuel(p_declaration, 1);
    reveal_with_fuel(p_declaration_inner, 1);
}

pub proof fn lemma_block_step(t: Seq<Token>, q: nat, done: Seq<StmtV>)
    requires
        !check(t, q, TokenType::RightBrace) && !at_end(t, q),
    ensures
        p_block(t, q, done) == match p_declaration(t, q) {
            Err(f) => Err(f),
            Ok((q1, s)) => if moved(t, q, q1) {
                p_block(t, q1, done.push(s))
            } else {
                Ok((q1, done.push(s)))
            },
        },
{
    reveal_with_fuel(p_block, 1);
    reveal_with_fuel(p_declaration, 1);
}

pub proof fn lemma_block_end(t: Seq<Token>, q: nat, done: Seq<StmtV>)
    requires
        !(!check(t, q, TokenType::RightBrace) && !at_end(t, q)),
    ensures
        p_block(t, q, done) == match consume(t, q, TokenType::RightBrace, "Expect '}' after block"@) {
            Err(f) => Err(f),
            Ok((q1, _)) => Ok((q1, done)),
        },
{
    reveal_with_fuel(p_block, 1);
}

pub proof fn lemma_program_step(t: Seq<Token>, p: nat, done: Seq<StmtV>)
    requires
        !at_end(t, p),
    ensures
        p_program(t, p, done) == match p_declaration(t, p) {
            Err(f) => Err(f),
            Ok((p1, s)) => if moved(t, p, p1) {
                p_program(t, p1, done.push(s))
            } else {
                Ok((p1, done.push(s)))
            },
        },
{
    reveal_with_fuel(p_program, 1);
}

pub proof fn lemma_program_end(t: Seq<Token>, p: nat, done: Seq<StmtV>)
    requires
        at_end(t, p),
    ensures
        p_program(t, p, done) == Ok::<(nat, Seq<StmtV>), (nat, Failure)>((p, done)),
{
    reveal_with_fuel(p_program, 1);
}

impl Parser {
    fn synchronize(&mut self)
        requires
            old(self).ready(),
            1 <= old(self).current || !at_end(old(self).tokens@, old(self).current as nat),
        ensures
            final(self).ready(),
            final(self).tokens@ == old(self).tokens@,
            final(self).current == synchronize(old(self).tokens@, old(self).current as nat),
            old(self).current <= final(self).current,
    {
        let ghost t = self.tokens@;
        proof {
            reveal(synchronize);
        }
        self.advance();
        while !self.is_at_end()
            invariant
                self.ready(),
                self.tokens@ == t,
                t == old(self).tokens@,
                1 <= self.current,
                old(self).current <= self.current,
                synchronize_from(t, self.current as nat) == synchronize(t, old(self).current as nat),
            decreases t.len() - self.current,
        {
            if self.previous().token_type == TokenType::Semicolon {
                return;
            }
            match self.peek().token_type {
                TokenType::Class
                | TokenType::Fun
                | TokenType::Var
                | TokenType::For
                | TokenType::If
                | TokenType::While
                | TokenType::Print
                | TokenType::Return => {
                    return;
                },
                _ => {},
            }
            self.advance();
        }
    }

    /// Parses a declaration; after a syntax error the parser moves on to
    /// where the next statement is likely to start.
    #[verifier::rlimit(100)]
    #[verifier::spinoff_prover]
    fn declaration(&mut self) -> (r: Result<Stmt, ParseFailure>)
        requires
            old(self).ready(),
            !at_end(old(self).tokens@, old(self).current as nat),
        ensures
            final(self).ready(),
            final(self).tokens@ == old(self).tokens@,
            old(self).current <= final(self).current,
            r is Ok ==> old(self).current < final(self).current,
            stmt_outcome(r, final(self).current as nat, p_declaration(old(self).tokens@, old(self).current as nat)),
        decreases old(self).tokens().len() - old(self).position(), 5nat,
    {
        let ghost t = self.tokens@;
        let ghost p0 = self.current as nat;
        let statement = self.declaration_inner();
        let ghost q = self.current as nat;
        let ghost inner = p_declaration_inner(t, p0);
        proof {
            lemma_declaration_unfold(t, p0);
        }
        match statement {
            Ok(s) => {
                assert(inner == Ok::<(nat, StmtV), (nat, Failure)>((q, s.model())));
                Ok(s)
            },
            Err(f) => {
                assert(inner == Err::<(nat, StmtV), (nat, Failure)>((q, f.model())));
                self.synchronize();
                Err(f)
            },
        }
    }

    fn declaration_inner(&mut self) -> (r: Result<Stmt, ParseFailure>)
        requires
            old(self).ready(),
            !at_end(old(self).tokens@, old(self).current as nat),
        ensures
            final(self).ready(),
            final(self).tokens@ == old(self).tokens@,
            old(self).current <= final(self).current,
            r is Ok ==> old(self).current < final(self).current,
            1 <= final(self).current || !at_end(final(self).tokens@, final(self).current as nat),
            stmt_outcome(r, final(self).current as nat, p_declaration_inner(old(self).tokens@, old(self).current as nat)),
        decreases old(self).tokens().len() - old(self).position(), 4nat,
    {
        proof {
            reveal_with_fuel(p_declaration_inner, 1);
            reveal_with_fuel(p_statement, 1);
        }
        if self.match_type(TokenType::Var) {
            self.var_declaration()
        } else {
            self.statement()
        }
    }

    #[verifier::rlimit(100)]
    #[verifier::spinoff_prover]
    fn var_declaration(&mut self) -> (r: Result<Stmt, ParseFailure>)
        requires
            old(self).ready(),
        ensures
            final(self).ready(),
            final(self).tokens@ == old(self).tokens@,
            old(self).current <= final(self).current,
            r is Ok ==> old(self).current < final(self).current,
            stmt_outcome(r, final(self).current as nat, p_var_declaration(old(self).tokens@, old(self).current as nat)),
    {
        proof {
            reveal(p_var_declaration);
        }
        let ghost t = self.tokens@;
        let ghost p0 = self.current as nat;
        let name = match self.consume(TokenType::Identifier, String::from_str("Expect variable name")) {
            Ok(t) => t,
            Err(f) => return Err(f),
        };
        let ghost p1 = self.current as nat;
        assert(consume(t, p0, TokenType::Identifier, "Expect variable name"@) == Ok::<(nat, Token), (nat, Failure)>((p1, name)));
        let initializer = if self.match_type(TokenType::Equal) {
            match self.expression() {
                Ok(e) => {
                    assert(p_expression(t, p1 + 1) == Ok::<(nat, ExprV), (nat, Failure)>((self.current as nat, e.model())));
                    e
                },
                Err(f) => return Err(f),
            }
        } else {
            Expr::Literal { value: Literal::Nil }
        };
        let ghost p2 = self.current as nat;
        let ghost init = if check(t, p1, TokenType::Equal) {
            p_expression(t, p1 + 1)
        } else {
            Ok((p1, ExprV::Literal(Literal::Nil)))
        };
        assert(init == Ok::<(nat, ExprV), (nat, Failure)>((p2, initializer.model())));
        match self.consume(TokenType::Semicolon, String::from_str("Expect ';' after variable declaration")) {
            Ok(_) => {},
            Err(f) => return Err(f),
        }
        let r = Stmt::Var { name, initializer };
        assert(r.model() == StmtV::Var(name, initializer.model()));
        Ok(r)
    }

    #[verifier::rlimit(100)]
    #[verifier::spinoff_prover]
    fn statement(&mut self) -> (r: Result<Stmt, ParseFailure>)
        requires
            old(self).ready(),
        ensures
            final(self).ready(),
            final(self).tokens@ == old(self).tokens@,
            old(self).current <= final(self).current,
            r is Ok ==> old(self).current < final(self).current,
            stmt_outcome(r, final(self).current as nat, p_statement(old(self).tokens@, old(self).current as nat)),
        decreases old(self).tokens().len() - old(self).position(), 3nat,
    {
        proof {
            reveal_with_fuel(p_statement, 1);
        }
        if self.match_type(TokenType::Print) {
            self.print_statement()
        } else if self.match_type(TokenType::LeftBrace) {
            match self.block() {
                Ok(statements) => Ok(Stmt::Block { statements }),
                Err(f) => Err(f),
            }
        } else if self.match_type(TokenType::If) {
            self.if_statement()
        } else {
            self.expression_statement()
        }
    }

    fn print_statement(&mut self) -> (r: Result<Stmt, ParseFailure>)
        requires
            old(self).ready(),
        ensures
            final(self).ready(),
            final(self).tokens@ == old(self).tokens@,
            old(self).current <= final(self).current,
            r is Ok ==> old(self).current < final(self).current,
            stmt_outcome(r, final(self).current as nat, p_print_statement(old(self).tokens@, old(self).current as nat)),
    {
        proof {
            reveal(p_print_statement);
        }
        let value = match self.expression() {
            Ok(e) => e,
            Err(f) => return Err(f),
        };
        match self.consume(TokenType::Semicolon, String::from_str("Expect ';' after value")) {
            Ok(_) => {},
            Err(f) => return Err(f),
        }
        Ok(Stmt::Print { expression: value })
    }

    #[verifier::rlimit(100)]
    #[verifier::spinoff_prover]
    fn block(&mut self) -> (r: Result<Vec<Stmt>, ParseFailure>)
        requires
            old(self).ready(),
        ensures
            final(self).ready(),
            final(self).tokens@ == old(self).tokens@,
            old(self).current <= final(self).current,
            r is Ok ==> old(self).current < final(self).current,
            stmts_outcome(r, final(self).current as nat, p_block(old(self).tokens@, old(self).current as nat, Seq::empty())),
        decreases old(self).tokens().len() - old(self).position(), 6nat,
    {
        let ghost t = self.tokens@;
        let mut statements: Vec<Stmt> = Vec::new();
        proof {
            assert(stmts_model(statements@) =~= Seq::<StmtV>::empty());
        }
        while !self.check(TokenType::RightBrace) && !self.is_at_end()
            invariant
                self.ready(),
                self.tokens@ == t,
                t == old(self).tokens@,
                old(self).current <= self.current,
                p_block(t, old(self).current as nat, Seq::empty()) == p_block(t, self.current as nat, stmts_model(statements@)),
            decreases t.len() - self.current,
        {
            proof {
                lemma_block_step(t, self.current as nat, stmts_model(statements@));
            }
            let s = match self.declaration() {
                Ok(s) => s,
                Err(f) => return Err(f),
            };
            proof {
                lemma_stmts_model_push(statements@, s);
            }
            statements.push(s);
        }
        proof {
            lemma_block_end(t, self.current as nat, stmts_model(statements@));
        }
        match self.consume(TokenType::RightBrace, String::from_str("Expect '}' after block")) {
            Ok(_) => {},
            Err(f) => return Err(f),
        }
        Ok(statements)
    }

    #[verifier::rlimit(100)]
    #[verifier::spinoff_prover]
    fn if_statement(&mut self) -> (r: Result<Stmt, ParseFailure>)
        requires
            old(self).ready(),
            1 <= old(self).current,
        ensures
            final(self).ready(),
            final(self).tokens@ == old(self).tokens@,
            old(self).current <= final(self).current,
            r is Ok ==> old(self).current < final(self).current,
            stmt_outcome(r, final(self).current as nat, p_if_statement(
                old(self).tokens@,
                old(self).current as nat,
                old(self).tokens@[old(self).current - 1],
            )),
        decreases old(self).tokens().len() - old(self).position(), 2nat,
    {
        proof {
            reveal_with_fuel(p_if_statement, 1);
        }
        let keyword = self.previous();
        match self.consume(TokenType::LeftParen, String::from_str("Expect '(' after 'if'")) {
            Ok(_) => {},
            Err(f) => return Err(f),
        }
        let condition = match self.expression() {
            Ok(e) => e,
            Err(f) => return Err(f),
        };
        match self.consume(TokenType::RightParen, String::from_str("Expect ')' after if condition")) {
            Ok(_) => {},
            Err(f) => return Err(f),
        }
        let consq = match self.statement() {
            Ok(s) => s,
            Err(f) => return Err(f),
        };
        if self.match_type(TokenType::Else) {
            let altern = match self.statement() {
                Ok(s) => s,
                Err(f) => return Err(f),
            };
            Ok(Stmt::If { keyword, condition, consq: Box::new(consq), altern: Some(Box::new(altern)) })
        } else {
            Ok(Stmt::If { keyword, condition, consq: Box::new(consq), altern: None })
        }
    }

    fn expression_statement(&mut self) -> (r: Result<Stmt, ParseFailure>)
        requires
            old(self).ready(),
        ensures
            final(self).ready(),
            final(self).tokens@ == old(self).tokens@,
            old(self).current <= final(self).current,
            r is Ok ==> old(self).current < final(self).current,
            stmt_outcome(r, final(self).current as nat, p_expression_statement(old(self).tokens@, old(self).current as nat)),
    {
        proof {
            reveal(p_expression_statement);
        }
        let value = match self.expression() {
            Ok(e) => e,
            Err(f) => return Err(f),
        };
        match self.consume(TokenType::Semicolon, String::from_str("Expect ';' after expression")) {
            Ok(_) => {},
            Err(f) => return Err(f),
        }
        Ok(Stmt::Expression { expression: value })
    }

    /// Parses declarations up to the end-of-file token. Stops at the first
    /// syntax error, or where a token cannot start an expression.
    #[verifier::rlimit(100)]
    #[verifier::spinoff_prover]
    pub fn parse_checked(&mut self) -> (r: Result<Vec<Stmt>, ParseFailure>)
        requires
            old(self).ready(),
        ensures
            final(self).ready(),
            final(self).tokens() == old(self).tokens(),
            stmts_outcome(r, final(self).position(), p_program(old(self).tokens(), old(self).position(), Seq::empty())),
    {
        let ghost t = self.tokens@;
        let mut statements = Vec::<Stmt>::new();
        proof {
            assert(stmts_model(statements@) =~= Seq::<StmtV>::empty());
        }
        while !self.is_at_end()
            invariant
                self.ready(),
                self.tokens@ == t,
                t == old(self).tokens@,
                p_program(t, old(self).current as nat, Seq::empty()) == p_program(t, self.current as nat, stmts_model(statements@)),
            decreases t.len() - self.current,
        {
            proof {
                lemma_program_step(t, self.current as nat, stmts_model(statements@));
            }
            let s = match self.declaration() {
                Ok(s) => s,
                Err(f) => return Err(f),
            };
            proof {
                lemma_stmts_model_push(statements@, s);
            }
            statements.push(s);
        }
        proof {
            lemma_program_end(t, self.current as nat, stmts_model(statements@));
        }
        Ok(statements)
    }

    /// Parses declarations up to the end-of-file token, stopping at the first
    /// syntax error.
    pub fn parse(&mut self) -> (r: Result<Vec<Stmt>, ParserError>)
        requires
            old(self).ready(),
            !(p_program(old(self).tokens(), old(self).position(), Seq::empty()) matches Err((_, Failure::Unreachable))),
        ensures
            final(self).ready(),
            final(self).tokens() == old(self).tokens(),
            match r {
                Ok(v) => p_program(old(self).tokens(), old(self).position(), Seq::empty())
                    == Ok::<(nat, Seq<StmtV>), (nat, Failure)>((final(self).position(), stmts_model(v@))),
                Err(e) => p_program(old(self).tokens(), old(self).position(), Seq::empty())
                    == Err::<(nat, Seq<StmtV>), (nat, Failure)>((final(self).position(), Failure::Error(e.token, e.message@))),
            },
    {
        match self.parse_checked() {
            Ok(v) => Ok(v),
            Err(ParseFailure::Error(e)) => Err(e),
            Err(ParseFailure::Unreachable) => {
                proof {
                    assert(false);
                }
                Ok(Vec::new())
            },
        }
    }
}

} // verus!
