use lox::lox::{Lox, Output};
use lox::numbers::Numerics;

/// Lox numbers as `f64`, held as their bits.
struct F64;

impl Numerics for F64 {
    fn parse(&self, text: &str) -> u64 {
        text.parse::<f64>().unwrap().to_bits()
    }

    fn sum(&self, a: u64, b: u64) -> u64 {
        (f64::from_bits(a) + f64::from_bits(b)).to_bits()
    }

    fn difference(&self, a: u64, b: u64) -> u64 {
        (f64::from_bits(a) - f64::from_bits(b)).to_bits()
    }

    fn product(&self, a: u64, b: u64) -> u64 {
        (f64::from_bits(a) * f64::from_bits(b)).to_bits()
    }

    fn quotient(&self, a: u64, b: u64) -> u64 {
        (f64::from_bits(a) / f64::from_bits(b)).to_bits()
    }

    fn debug_text(&self, a: u64) -> String {
        format!("{:?}", f64::from_bits(a))
    }
}

fn num(x: f64) -> u64 {
    x.to_bits()
}

#[test]
fn test_parser_error() {
    let mut lox = Lox::new();
    // No semicolon.
    lox.run("print 1".to_string(), &F64);
    assert!(lox.had_error());
    assert!(!lox.had_runtime_error());
}

#[test]
fn test_runtime_error() {
    let mut lox = Lox::new();
    // Runtime type error.
    lox.run("1 + false;".to_string(), &F64);
    assert!(!lox.had_error());
    assert!(lox.had_runtime_error());
}

#[test]
fn test_statement() {
    let mut lox = Lox::new();
    lox.run("print 1 + 2;".to_string(), &F64);
    assert!(!lox.had_error());
    assert!(!lox.had_runtime_error());
}

#[test]
fn print_writes_the_value() {
    let mut lox = Lox::new();
    let halt = lox.run("print 1 + 2;".to_string(), &F64);
    assert_eq!(halt, None);
    assert_eq!(lox.take_output(), vec![Output::Stdout("Value(3.0)".to_string())]);
}

#[test]
fn print_writes_each_kind_of_value() {
    let mut lox = Lox::new();
    lox.run("print \"hi\"; print true; print nil; print 7 / 2;".to_string(), &F64);
    assert_eq!(
        lox.take_output(),
        vec![
            Output::Stdout("Value(\"hi\")".to_string()),
            Output::Stdout("Value(true)".to_string()),
            Output::Stdout("Value(none)".to_string()),
            Output::Stdout("Value(3.5)".to_string()),
        ]
    );
}

#[test]
fn missing_semicolon_is_reported_at_end() {
    let mut lox = Lox::new();
    lox.run("print 1".to_string(), &F64);
    assert_eq!(
        lox.take_output(),
        vec![Output::Stdout("[line 0] Error at end: Expect ';' after value".to_string())]
    );
}

#[test]
fn syntax_error_names_the_token() {
    let mut lox = Lox::new();
    lox.run("var 1 = 2;".to_string(), &F64);
    assert!(lox.had_error());
    assert_eq!(
        lox.take_output(),
        vec![Output::Stdout("[line 0] Error at '1': Expect variable name".to_string())]
    );
}

#[test]
fn runtime_error_goes_to_standard_error() {
    let mut lox = Lox::new();
    lox.run("print 1;\n1 + false;".to_string(), &F64);
    assert_eq!(
        lox.take_output(),
        vec![
            Output::Stdout("Value(1.0)".to_string()),
            Output::Stderr("Expected type Value::Number for numeric operator \n[line 1]".to_string()),
        ]
    );
}

#[test]
fn scanner_errors_are_reported_and_the_program_still_runs() {
    let mut lox = Lox::new();
    lox.run("print 2; @".to_string(), &F64);
    assert!(lox.had_error());
    assert_eq!(
        lox.take_output(),
        vec![
            Output::Stdout("[line 0] Error: Unexpected character.".to_string()),
            Output::Stdout("Value(2.0)".to_string()),
        ]
    );
}

#[test]
fn scanner_error_then_parse() {
    let mut lox = Lox::new();
    lox.scanner_error(3, "Unexpected character.".to_string());
    assert!(lox.had_error());
    assert_eq!(
        lox.take_output(),
        vec![Output::Stdout("[line 3] Error: Unexpected character.".to_string())]
    );
}

#[test]
fn variables_blocks_and_if() {
    let mut lox = Lox::new();
    let program = "var a = 1;\n{ var a = 2; print a; }\nprint a;\nif (a == 1) print \"one\"; else print \"other\";\na = a + 10;\nprint a;";
    assert_eq!(lox.run(program.to_string(), &F64), None);
    assert_eq!(
        lox.take_output(),
        vec![
            Output::Stdout("Value(2.0)".to_string()),
            Output::Stdout("Value(1.0)".to_string()),
            Output::Stdout("Value(\"one\")".to_string()),
            Output::Stdout("Value(11.0)".to_string()),
        ]
    );
}

#[test]
fn expression_that_cannot_start_halts() {
    let mut lox = Lox::new();
    let halt = lox.run("print ;".to_string(), &F64);
    assert_eq!(halt, Some(lox::interpreter::Halt::Unreachable));
}

#[test]
fn globals_outlive_a_run() {
    let mut lox = Lox::new();
    lox.run("var a = 1;".to_string(), &F64);
    lox.run("print a;".to_string(), &F64);
    assert!(!lox.had_error());
    assert!(!lox.had_runtime_error());
    assert_eq!(lox.take_output(), vec![Output::Stdout("Value(1.0)".to_string())]);
}

#[test]
fn globals_survive_errors_at_the_prompt() {
    let mut lox = Lox::new();
    lox.run("var a = 1;".to_string(), &F64);
    lox.run("print a".to_string(), &F64);
    lox.clear_error();
    lox.run("a = a + 1; print b;".to_string(), &F64);
    lox.run("print a;".to_string(), &F64);
    assert!(!lox.had_error());
    assert!(lox.had_runtime_error());
    assert_eq!(
        lox.take_output(),
        vec![
            Output::Stdout("[line 0] Error at end: Expect ';' after value".to_string()),
            Output::Stderr("Undefined variable 'b' \n[line 0]".to_string()),
            Output::Stdout("Value(2.0)".to_string()),
        ]
    );
}

#[test]
fn clear_error_keeps_the_runtime_flag() {
    let mut lox = Lox::new();
    lox.run("print 1".to_string(), &F64);
    lox.run("1 + nil;".to_string(), &F64);
    lox.clear_error();
    assert!(!lox.had_error());
    assert!(lox.had_runtime_error());
}

#[test]
fn runtime_error_ends_the_program() {
    let mut lox = Lox::new();
    lox.run("print -true;\nprint 2;".to_string(), &F64);
    assert!(lox.had_runtime_error());
    assert_eq!(
        lox.take_output(),
        vec![Output::Stderr("Expected type Value::Number for - operator \n[line 0]".to_string())]
    );
}

#[test]
fn syntax_error_runs_nothing() {
    let mut lox = Lox::new();
    lox.run("print 1; print (2;".to_string(), &F64);
    assert!(lox.had_error());
    assert!(!lox.had_runtime_error());
    assert_eq!(
        lox.take_output(),
        vec![Output::Stdout("[line 0] Error at ';': Expected ')' after expression".to_string())]
    );
}

#[test]
fn or_is_not_in_the_grammar() {
    let mut lox = Lox::new();
    lox.run("print true or 1 / 0;".to_string(), &F64);
    assert!(lox.had_error());
    assert_eq!(lox.take_output(), vec![Output::Stdout("[line 0] Error at 'or': Expect ';' after value".to_string())]);
}

fn first_report(source: &str) -> Vec<Output> {
    let mut lox = Lox::new();
    lox.run(source.to_string(), &F64);
    assert!(lox.had_error());
    lox.take_output()
}

#[test]
fn each_syntax_error_message() {
    assert_eq!(
        first_report("var a = 1"),
        vec![Output::Stdout("[line 0] Error at end: Expect ';' after variable declaration".to_string())]
    );
    assert_eq!(first_report("{ print 1;"), vec![Output::Stdout("[line 0] Error at end: Expect '}' after block".to_string())]);
    assert_eq!(first_report("if true"), vec![Output::Stdout("[line 0] Error at 'true': Expect '(' after 'if'".to_string())]);
    assert_eq!(first_report("if (true print"), vec![Output::Stdout("[line 0] Error at 'print': Expect ')' after if condition".to_string())]);
    assert_eq!(first_report("1\n2"), vec![Output::Stdout("[line 1] Error at '2': Expect ';' after expression".to_string())]);
    assert_eq!(first_report("1 = 2;"), vec![Output::Stdout("[line 0] Error at '=': Invalid assignment target".to_string())]);
}
