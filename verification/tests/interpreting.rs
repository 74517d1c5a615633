use lox::environment::Environment;
use lox::expr::Expr;
use lox::interpreter::{evaluate, execute, interpret, ExecuteError, Fault, Halt, Interpreter, RuntimeError, FUEL};
use lox::numbers::Numerics;
use lox::stmt::Stmt;
use lox::token::{Literal, Token, TokenType};
use lox::value::Value;

/// Lox numbers as `f64`, held as their bits.
struct F64;

impl Numerics for F64 {
    fn parse(&self, text: &str) -> u64 {
        text.parse::<f64>().unwrap().to_bits()
    }

    fn sum(&self, a: u64, b: u64) -> u64 {
        (f64::from_bits(a) + f64::from_bits(b)).to_bits()
    }

    fn difference(&self, a: u64, b: u64) -> u64 {
        (f64::from_bits(a) - f64::from_bits(b)).to_bits()
    }

    fn product(&self, a: u64, b: u64) -> u64 {
        (f64::from_bits(a) * f64::from_bits(b)).to_bits()
    }

    fn quotient(&self, a: u64, b: u64) -> u64 {
        (f64::from_bits(a) / f64::from_bits(b)).to_bits()
    }

    fn debug_text(&self, a: u64) -> String {
        format!("{:?}", f64::from_bits(a))
    }
}

fn num(x: f64) -> u64 {
    x.to_bits()
}

fn token(token_type: TokenType) -> Token {
    Token { token_type, lexeme: String::new(), literal: Literal::Nil, line: 0 }
}

fn identifier(name: &str) -> Token {
    Token { token_type: TokenType::Identifier, lexeme: name.to_string(), literal: Literal::Nil, line: 0 }
}

fn literal(value: Literal) -> Expr {
    Expr::Literal { value }
}

fn binary(left: Literal, operator: TokenType, right: Literal) -> Expr {
    Expr::Binary { left: Box::new(literal(left)), operator: token(operator), right: Box::new(literal(right)) }
}

fn eval_fresh(e: Expr) -> Result<Value, RuntimeError> {
    let mut it = Interpreter::new(&F64);
    let env = it.new_top_level();
    evaluate(e, env, &mut it)
}

#[test]
fn test_evaluate_unary() {
    assert_eq!(
        eval_fresh(Expr::Unary { operator: token(TokenType::Bang), right: Box::new(literal(Literal::Boolean(false))) }),
        Ok(Value::Boolean(true))
    );
    assert_eq!(
        eval_fresh(Expr::Unary { operator: token(TokenType::Bang), right: Box::new(literal(Literal::Boolean(true))) }),
        Ok(Value::Boolean(false))
    );
    assert_eq!(
        eval_fresh(Expr::Unary { operator: token(TokenType::Minus), right: Box::new(literal(Literal::Number(num(-13_f64)))) }),
        Ok(Value::Number(num(13_f64)))
    );
    assert_eq!(
        eval_fresh(Expr::Unary { operator: token(TokenType::Minus), right: Box::new(literal(Literal::Number(num(13_f64)))) }),
        Ok(Value::Number(num(-13_f64)))
    );
}

#[test]
fn test_evaluate_unary_bang_number() {
    assert_eq!(
        eval_fresh(Expr::Unary { operator: token(TokenType::Bang), right: Box::new(literal(Literal::Number(num(0_f64)))) }),
        Err(RuntimeError { token: token(TokenType::Bang), message: "Expected type Value::Boolean for ! operator".to_string() })
    );
}

#[test]
fn test_evaluate_binary() {
    assert_eq!(eval_fresh(binary(Literal::Nil, TokenType::EqualEqual, Literal::Nil)), Ok(Value::Boolean(true)));
    assert_eq!(eval_fresh(binary(Literal::Nil, TokenType::EqualEqual, Literal::Number(num(0_f64)))), Ok(Value::Boolean(false)));
}

#[test]
fn test_divide_by_zero() {
    assert_eq!(
        eval_fresh(binary(Literal::Number(num(5_f64)), TokenType::Slash, Literal::Number(num(0_f64)))),
        Err(RuntimeError { token: token(TokenType::Slash), message: "Cannot divide by zero".to_string() })
    );
}

#[test]
fn test_global_variable() {
    let mut it = Interpreter::new(&F64);
    let environment = it.new_top_level();

    let definition = Stmt::Var { name: identifier("a"), initializer: literal(Literal::Number(num(5_f64))) };
    assert!(execute(definition, environment, &mut it).is_ok());

    let lookup = Expr::Variable { name: identifier("a") };
    let value = evaluate(lookup, environment, &mut it);
    assert!(value.is_ok());
    assert_eq!(value.unwrap(), Value::Number(num(5_f64)));
}

#[test]
fn interpreter_test_assignment() {
    let mut it = Interpreter::new(&F64);
    let environment = it.new_top_level();

    let assignment = Expr::Assign { name: identifier("a"), value: Box::new(literal(Literal::Number(num(4_f64)))) };
    assert_eq!(
        evaluate(assignment.clone(), environment, &mut it),
        Err(RuntimeError { token: identifier("a"), message: "Undefined variable 'a'".to_string() })
    );

    let definition = Stmt::Var { name: identifier("a"), initializer: literal(Literal::Number(num(5_f64))) };
    assert!(execute(definition, environment, &mut it).is_ok());

    assert_eq!(evaluate(assignment, environment, &mut it), Ok(Value::Number(num(4_f64))));
}

#[test]
fn test_valid_if_statement() {
    let mut it = Interpreter::new(&F64);
    let environment = it.new_top_level();
    let if_statement = Stmt::If {
        keyword: token(TokenType::If),
        condition: literal(Literal::Boolean(true)),
        consq: Box::new(Stmt::Expression { expression: literal(Literal::Boolean(false)) }),
        altern: None,
    };
    assert_eq!(execute(if_statement, environment, &mut it), Ok(()));
}

#[test]
fn test_invalid_if_statement() {
    let mut it = Interpreter::new(&F64);
    let environment = it.new_top_level();
    let if_statement = Stmt::If {
        keyword: token(TokenType::If),
        condition: literal(Literal::Number(num(1_f64))),
        consq: Box::new(Stmt::Expression { expression: literal(Literal::Boolean(false)) }),
        altern: None,
    };
    assert_eq!(
        execute(if_statement, environment, &mut it),
        Err(ExecuteError::RuntimeError(RuntimeError {
            token: token(TokenType::If),
            message: "Expect 'if' conditional to evaluate to a boolean".to_string()
        }))
    );
}

#[test]
fn test_if_statement_short_circuiting() {
    let mut it = Interpreter::new(&F64);
    let environment = it.new_top_level();
    let divide_by_zero = binary(Literal::Number(num(5_f64)), TokenType::Slash, Literal::Number(num(0_f64)));

    let if_statement_consq = Stmt::If {
        keyword: token(TokenType::If),
        condition: literal(Literal::Boolean(true)),
        consq: Box::new(Stmt::Expression { expression: literal(Literal::Nil) }),
        // 5 / 0 should not be evaluated; otherwise, it's a runtime error.
        altern: Some(Box::new(Stmt::Expression { expression: divide_by_zero.clone() })),
    };
    assert_eq!(execute(if_statement_consq, environment, &mut it), Ok(()));

    let if_statement_altern = Stmt::If {
        keyword: token(TokenType::If),
        condition: literal(Literal::Boolean(false)),
        // 5 / 0 should not be evaluated; otherwise, it's a runtime error.
        consq: Box::new(Stmt::Expression { expression: divide_by_zero }),
        altern: None,
    };
    assert_eq!(execute(if_statement_altern, environment, &mut it), Ok(()));
}

#[test]
fn test_logical_or_true_table() {
    let t = Literal::Boolean(true);
    let f = Literal::Boolean(false);
    assert_eq!(eval_fresh(binary(t.clone(), TokenType::Or, f.clone())), Ok(Value::Boolean(true)));
    assert_eq!(eval_fresh(binary(f.clone(), TokenType::Or, t.clone())), Ok(Value::Boolean(true)));
    assert_eq!(eval_fresh(binary(t.clone(), TokenType::Or, t.clone())), Ok(Value::Boolean(true)));
    assert_eq!(eval_fresh(binary(f.clone(), TokenType::Or, f.clone())), Ok(Value::Boolean(false)));
}

#[test]
fn test_logical_or_runtime_type_error() {
    let error = Err(RuntimeError { token: token(TokenType::Or), message: "Expected type Value::Boolean for OR operator".to_string() });
    assert_eq!(eval_fresh(binary(Literal::Boolean(false), TokenType::Or, Literal::Number(num(5_f64)))), error);
    assert_eq!(eval_fresh(binary(Literal::Number(num(5_f64)), TokenType::Or, Literal::Boolean(false))), error);
    // Short-circuiting avoids runtime type error.
    assert_eq!(eval_fresh(binary(Literal::Boolean(true), TokenType::Or, Literal::Number(num(5_f64)))), Ok(Value::Boolean(true)));
}

#[test]
fn test_logical_and_true_table() {
    let t = Literal::Boolean(true);
    let f = Literal::Boolean(false);
    assert_eq!(eval_fresh(binary(t.clone(), TokenType::And, f.clone())), Ok(Value::Boolean(false)));
    assert_eq!(eval_fresh(binary(f.clone(), TokenType::And, t.clone())), Ok(Value::Boolean(false)));
    assert_eq!(eval_fresh(binary(t.clone(), TokenType::And, t.clone())), Ok(Value::Boolean(true)));
    assert_eq!(eval_fresh(binary(f.clone(), TokenType::And, f.clone())), Ok(Value::Boolean(false)));
}

#[test]
fn test_logical_and_runtime_type_error() {
    let error = Err(RuntimeError { token: token(TokenType::And), message: "Expected type Value::Boolean for AND operator".to_string() });
    assert_eq!(eval_fresh(binary(Literal::Boolean(true), TokenType::And, Literal::Number(num(5_f64)))), error);
    assert_eq!(eval_fresh(binary(Literal::Number(num(5_f64)), TokenType::And, Literal::Boolean(false))), error);
    // Short-circuiting avoids runtime type error.
    assert_eq!(eval_fresh(binary(Literal::Boolean(false), TokenType::And, Literal::Number(num(5_f64)))), Ok(Value::Boolean(false)));
}

#[test]
fn test_function_application() {
    // Zero args.
    assert_eq!(
        eval_fresh(Expr::Call {
            fun: Box::new(Expr::Fun {
                params: Vec::new(),
                body: vec![Stmt::Return { keyword: token(TokenType::Return), value: Some(literal(Literal::Number(num(5_f64)))) }],
            }),
            paren: token(TokenType::LeftParen),
            arguments: Vec::new(),
        }),
        Ok(Value::Number(num(5_f64)))
    );

    // One arg.
    assert_eq!(
        eval_fresh(Expr::Call {
            fun: Box::new(Expr::Fun {
                params: vec![identifier("foo")],
                body: vec![Stmt::Return {
                    keyword: token(TokenType::Return),
                    value: Some(Expr::Variable { name: identifier("foo") }),
                }],
            }),
            paren: token(TokenType::LeftParen),
            arguments: vec![literal(Literal::Boolean(false))],
        }),
        Ok(Value::Boolean(false))
    );

    let sum = Expr::Binary {
        left: Box::new(Expr::Variable { name: identifier("x") }),
        operator: token(TokenType::Plus),
        right: Box::new(Expr::Variable { name: identifier("y") }),
    };

    // Two args.
    assert_eq!(
        eval_fresh(Expr::Call {
            fun: Box::new(Expr::Fun {
                params: vec![identifier("x"), identifier("y")],
                body: vec![Stmt::Return { keyword: token(TokenType::Return), value: Some(sum.clone()) }],
            }),
            paren: token(TokenType::LeftParen),
            arguments: vec![literal(Literal::Number(num(1_f64))), literal(Literal::Number(num(2_f64)))],
        }),
        Ok(Value::Number(num(3_f64)))
    );

    assert_eq!(
        eval_fresh(Expr::Call {
            fun: Box::new(Expr::Fun {
                params: vec![identifier("x"), identifier("y")],
                body: vec![Stmt::Expression { expression: sum }],
            }),
            paren: token(TokenType::LeftParen),
            arguments: vec![literal(Literal::Boolean(false))],
        }),
        Err(RuntimeError { token: token(TokenType::LeftParen), message: "Expected 2 function arguments but got 1".to_string() })
    );

    // `fun` is not a function.
    assert_eq!(
        eval_fresh(Expr::Call {
            fun: Box::new(literal(Literal::Number(num(5_f64)))),
            paren: token(TokenType::LeftParen),
            arguments: Vec::new(),
        }),
        Err(RuntimeError {
            token: token(TokenType::LeftParen),
            message: "Literal { value: Number(5.0) } is not a function".to_string()
        })
    );
}

#[test]
fn unexpected_binary_operator_halts() {
    let mut it = Interpreter::new(&F64);
    let env = it.new_top_level();
    let e = binary(Literal::Number(num(5_f64)), TokenType::Print, Literal::Boolean(false));
    assert_eq!(it.eval_expr(FUEL, env, &e), Err(Fault::Halt(Halt::UnexpectedOperator(TokenType::Print))));
}

#[test]
fn arithmetic_goes_through_the_backend() {
    assert_eq!(eval_fresh(binary(Literal::Number(num(7_f64)), TokenType::Minus, Literal::Number(num(2_f64)))), Ok(Value::Number(num(5_f64))));
    assert_eq!(eval_fresh(binary(Literal::Number(num(7_f64)), TokenType::Star, Literal::Number(num(2_f64)))), Ok(Value::Number(num(14_f64))));
    assert_eq!(eval_fresh(binary(Literal::Number(num(7_f64)), TokenType::Slash, Literal::Number(num(2_f64)))), Ok(Value::Number(num(3.5_f64))));
    assert_eq!(eval_fresh(binary(Literal::Number(num(7_f64)), TokenType::Plus, Literal::Number(num(2_f64)))), Ok(Value::Number(num(9_f64))));
}

#[test]
fn comparisons_follow_ieee() {
    let nan = Literal::Number(f64::NAN.to_bits());
    assert_eq!(eval_fresh(binary(nan.clone(), TokenType::EqualEqual, nan.clone())), Ok(Value::Boolean(false)));
    assert_eq!(eval_fresh(binary(nan.clone(), TokenType::Less, Literal::Number(num(1_f64)))), Ok(Value::Boolean(false)));
    assert_eq!(
        eval_fresh(binary(Literal::Number(num(-0_f64)), TokenType::EqualEqual, Literal::Number(num(0_f64)))),
        Ok(Value::Boolean(true))
    );
    assert_eq!(eval_fresh(binary(Literal::Number(num(-2_f64)), TokenType::Less, Literal::Number(num(1_f64)))), Ok(Value::Boolean(true)));
    assert_eq!(eval_fresh(binary(Literal::Number(num(2_f64)), TokenType::GreaterEqual, Literal::Number(num(2_f64)))), Ok(Value::Boolean(true)));
    assert_eq!(eval_fresh(binary(Literal::Number(num(2_f64)), TokenType::Greater, Literal::Number(num(2_f64)))), Ok(Value::Boolean(false)));
    assert_eq!(eval_fresh(binary(Literal::Number(num(-3_f64)), TokenType::LessEqual, Literal::Number(num(-4_f64)))), Ok(Value::Boolean(false)));
}

#[test]
fn bang_equal_negates_equal_equal() {
    assert_eq!(eval_fresh(binary(Literal::Boolean(true), TokenType::BangEqual, Literal::Boolean(true))), Ok(Value::Boolean(false)));
    assert_eq!(eval_fresh(binary(Literal::Nil, TokenType::BangEqual, Literal::Number(num(0_f64)))), Ok(Value::Boolean(true)));
    assert_eq!(eval_fresh(binary(Literal::Nil, TokenType::BangEqual, Literal::Nil)), Ok(Value::Boolean(false)));
    assert_eq!(eval_fresh(binary(Literal::Nil, TokenType::EqualEqual, Literal::Number(num(0_f64)))), Ok(Value::Boolean(false)));
    assert_eq!(
        eval_fresh(binary(Literal::Number(num(1_f64)), TokenType::BangEqual, Literal::Number(num(2_f64)))),
        Ok(Value::Boolean(true))
    );
}

#[test]
fn equality_passes_operand_errors_on() {
    let undefined = Expr::Variable { name: identifier("q") };
    let e = Expr::Binary { left: Box::new(undefined.clone()), operator: token(TokenType::EqualEqual), right: Box::new(undefined) };
    assert_eq!(eval_fresh(e), Err(RuntimeError { token: identifier("q"), message: "Undefined variable 'q'".to_string() }));
    let e = Expr::Binary {
        left: Box::new(literal(Literal::Nil)),
        operator: token(TokenType::BangEqual),
        right: Box::new(Expr::Variable { name: identifier("r") }),
    };
    assert_eq!(eval_fresh(e), Err(RuntimeError { token: identifier("r"), message: "Undefined variable 'r'".to_string() }));
}

#[test]
fn while_loop_counts() {
    let mut it = Interpreter::new(&F64);
    let program = vec![
        Stmt::Var { name: identifier("i"), initializer: literal(Literal::Number(num(0_f64))) },
        Stmt::While {
            condition: Expr::Binary {
                left: Box::new(Expr::Variable { name: identifier("i") }),
                operator: token(TokenType::Less),
                right: Box::new(literal(Literal::Number(num(3_f64)))),
            },
            body: Box::new(Stmt::Block {
                statements: vec![
                    Stmt::Print { expression: Expr::Variable { name: identifier("i") } },
                    Stmt::Expression {
                        expression: Expr::Assign {
                            name: identifier("i"),
                            value: Box::new(Expr::Binary {
                                left: Box::new(Expr::Variable { name: identifier("i") }),
                                operator: token(TokenType::Plus),
                                right: Box::new(literal(Literal::Number(num(1_f64)))),
                            }),
                        },
                    },
                ],
            }),
        },
    ];
    assert_eq!(interpret(program, &mut it), Ok(()));
    assert_eq!(it.output(), &vec!["Value(0.0)".to_string(), "Value(1.0)".to_string(), "Value(2.0)".to_string()]);
}

#[test]
fn while_condition_must_be_boolean() {
    let mut it = Interpreter::new(&F64);
    let env = it.new_top_level();
    let w = Stmt::While { condition: literal(Literal::Nil), body: Box::new(Stmt::Expression { expression: literal(Literal::Nil) }) };
    assert_eq!(it.exec_stmt(FUEL, env, &w), Err(lox::interpreter::Flow::Fault(Fault::Halt(Halt::NotImplemented))));
}

#[test]
fn loop_runs_out_of_fuel() {
    let mut it = Interpreter::new(&F64);
    let env = it.new_top_level();
    let w = Stmt::While { condition: literal(Literal::Boolean(true)), body: Box::new(Stmt::Expression { expression: literal(Literal::Nil) }) };
    assert_eq!(it.exec_stmt(3, env, &w), Err(lox::interpreter::Flow::Fault(Fault::Halt(Halt::OutOfFuel))));
}

#[test]
fn top_level_return_ends_only_its_statement() {
    let mut it = Interpreter::new(&F64);
    let program = vec![
        Stmt::Return { keyword: token(TokenType::Return), value: None },
        Stmt::Print { expression: literal(Literal::Boolean(true)) },
    ];
    assert_eq!(interpret(program, &mut it), Ok(()));
    assert_eq!(it.output(), &vec!["Value(true)".to_string()]);
}

#[test]
fn function_statement_and_call() {
    let mut it = Interpreter::new(&F64);
    let env = it.new_top_level();
    let fun = Stmt::Fun {
        name: identifier("one"),
        params: Vec::new(),
        body: vec![Stmt::Return { keyword: token(TokenType::Return), value: Some(literal(Literal::Number(num(1_f64)))) }],
    };
    assert_eq!(execute(fun, env, &mut it), Ok(()));
    let call = Expr::Call { fun: Box::new(Expr::Variable { name: identifier("one") }), paren: token(TokenType::LeftParen), arguments: Vec::new() };
    assert_eq!(evaluate(call, env, &mut it), Ok(Value::Number(num(1_f64))));
}

#[test]
fn arguments_are_evaluated_in_the_callers_environment() {
    let mut it = Interpreter::new(&F64);
    let env = it.new_top_level();
    let define = Stmt::Var { name: identifier("a"), initializer: literal(Literal::Number(num(7_f64))) };
    assert_eq!(execute(define, env, &mut it), Ok(()));
    let call = Expr::Call {
        fun: Box::new(Expr::Fun {
            params: vec![identifier("foo")],
            body: vec![Stmt::Return { keyword: token(TokenType::Return), value: Some(Expr::Variable { name: identifier("foo") }) }],
        }),
        paren: token(TokenType::LeftParen),
        arguments: vec![Expr::Variable { name: identifier("a") }],
    };
    assert_eq!(evaluate(call, env, &mut it), Ok(Value::Number(num(7_f64))));
    assert_eq!(Environment::get(it.heap(), env, &identifier("foo")), None);
    assert_eq!(Environment::get(it.heap(), env, &identifier("a")), Some(Value::Number(num(7_f64))));
}

#[test]
fn functions_see_the_environment_they_were_made_in() {
    let mut it = Interpreter::new(&F64);
    let program = vec![
        Stmt::Var { name: identifier("x"), initializer: literal(Literal::String("global".to_string())) },
        Stmt::Fun {
            name: identifier("show"),
            params: Vec::new(),
            body: vec![Stmt::Print { expression: Expr::Variable { name: identifier("x") } }],
        },
        Stmt::Block {
            statements: vec![
                Stmt::Var { name: identifier("x"), initializer: literal(Literal::String("local".to_string())) },
                Stmt::Expression {
                    expression: Expr::Call {
                        fun: Box::new(Expr::Variable { name: identifier("show") }),
                        paren: token(TokenType::LeftParen),
                        arguments: Vec::new(),
                    },
                },
            ],
        },
    ];
    assert_eq!(interpret(program, &mut it), Ok(()));
    assert_eq!(it.output(), &vec!["Value(\"global\")".to_string()]);
}

#[test]
fn recursive_function() {
    let mut it = Interpreter::new(&F64);
    let n = || Expr::Variable { name: identifier("n") };
    let number = |x: f64| literal(Literal::Number(num(x)));
    let call_fact = |arg: Expr| Expr::Call {
        fun: Box::new(Expr::Variable { name: identifier("fact") }),
        paren: token(TokenType::LeftParen),
        arguments: vec![arg],
    };
    let program = vec![
        Stmt::Fun {
            name: identifier("fact"),
            params: vec![identifier("n")],
            body: vec![
                Stmt::If {
                    keyword: token(TokenType::If),
                    condition: Expr::Binary { left: Box::new(n()), operator: token(TokenType::Less), right: Box::new(number(2_f64)) },
                    consq: Box::new(Stmt::Return { keyword: token(TokenType::Return), value: Some(number(1_f64)) }),
                    altern: None,
                },
                Stmt::Return {
                    keyword: token(TokenType::Return),
                    value: Some(Expr::Binary {
                        left: Box::new(n()),
                        operator: token(TokenType::Star),
                        right: Box::new(call_fact(Expr::Binary {
                            left: Box::new(n()),
                            operator: token(TokenType::Minus),
                            right: Box::new(number(1_f64)),
                        })),
                    }),
                },
            ],
        },
        Stmt::Print { expression: call_fact(number(5_f64)) },
        Stmt::Print { expression: Expr::Variable { name: identifier("n") } },
    ];
    assert_eq!(
        interpret(program, &mut it),
        Err(RuntimeError { token: identifier("n"), message: "Undefined variable 'n'".to_string() })
    );
    assert_eq!(it.output(), &vec!["Value(120.0)".to_string()]);
}

#[test]
fn argument_error_stops_the_call() {
    let call = Expr::Call {
        fun: Box::new(Expr::Fun { params: vec![identifier("a")], body: vec![Stmt::Print { expression: literal(Literal::Nil) }] }),
        paren: token(TokenType::LeftParen),
        arguments: vec![Expr::Variable { name: identifier("missing") }],
    };
    assert_eq!(
        eval_fresh(call),
        Err(RuntimeError { token: identifier("missing"), message: "Undefined variable 'missing'".to_string() })
    );
}

#[test]
fn function_without_return_gives_nil() {
    let call = Expr::Call {
        fun: Box::new(Expr::Fun { params: Vec::new(), body: vec![Stmt::Expression { expression: literal(Literal::Nil) }] }),
        paren: token(TokenType::LeftParen),
        arguments: Vec::new(),
    };
    assert_eq!(eval_fresh(call), Ok(Value::Nil));
}

#[test]
fn comparing_a_function_with_itself_never_ends() {
    let mut it = Interpreter::new(&F64);
    let env = it.new_top_level();
    let fun = Stmt::Fun { name: identifier("f"), params: Vec::new(), body: Vec::new() };
    assert_eq!(execute(fun, env, &mut it), Ok(()));
    let f = Expr::Variable { name: identifier("f") };
    let e = Expr::Binary { left: Box::new(f.clone()), operator: token(TokenType::EqualEqual), right: Box::new(f) };
    assert_eq!(it.eval_expr(FUEL, env, &e), Err(Fault::Halt(Halt::Cycle)));
}

#[test]
fn unknown_unary_operator_halts() {
    let mut it = Interpreter::new(&F64);
    let env = it.new_top_level();
    let e = Expr::Unary { operator: token(TokenType::Plus), right: Box::new(literal(Literal::Nil)) };
    assert_eq!(it.eval_expr(FUEL, env, &e), Err(Fault::Halt(Halt::Unreachable)));
}

#[test]
fn unary_error_replaces_the_operand_error() {
    let e = Expr::Unary { operator: token(TokenType::Minus), right: Box::new(Expr::Variable { name: identifier("x") }) };
    assert_eq!(
        eval_fresh(e),
        Err(RuntimeError { token: token(TokenType::Minus), message: "Expected type Value::Number for - operator".to_string() })
    );
}

#[test]
fn printing_a_function_inside_its_own_environment_halts() {
    let mut it = Interpreter::new(&F64);
    let env = it.new_top_level();
    let fun = Stmt::Fun { name: identifier("f"), params: Vec::new(), body: Vec::new() };
    assert_eq!(execute(fun, env, &mut it), Ok(()));
    let print = Stmt::Print { expression: Expr::Variable { name: identifier("f") } };
    assert_eq!(it.exec_stmt(FUEL, env, &print), Err(lox::interpreter::Flow::Fault(Fault::Halt(Halt::Cycle))));
}

#[test]
fn or_stops_before_a_call() {
    let mut it = Interpreter::new(&F64);
    let env = it.new_top_level();
    let left = Expr::Binary {
        left: Box::new(literal(Literal::Number(num(0_f64)))),
        operator: token(TokenType::Less),
        right: Box::new(binary(Literal::Number(num(1_f64)), TokenType::Plus, Literal::Number(num(1_f64)))),
    };
    let call = Expr::Call {
        fun: Box::new(Expr::Fun {
            params: vec![identifier("x")],
            body: vec![Stmt::Return { keyword: token(TokenType::Return), value: Some(Expr::Variable { name: identifier("x") }) }],
        }),
        paren: token(TokenType::LeftParen),
        arguments: vec![Expr::Variable { name: identifier("a") }],
    };
    let e = Expr::Binary { left: Box::new(Expr::Grouping { expression: Box::new(left) }), operator: token(TokenType::Or), right: Box::new(call) };
    assert_eq!(evaluate(e, env, &mut it), Ok(Value::Boolean(true)));
}
