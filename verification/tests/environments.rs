use lox::environment::{Environment, Heap};
use lox::token::{Literal, Token, TokenType};
use lox::value::Value;

fn num(x: f64) -> u64 {
    x.to_bits()
}

fn identifier(name: &str) -> Token {
    Token { token_type: TokenType::Identifier, lexeme: name.to_string(), literal: Literal::Nil, line: 0 }
}

#[test]
fn test_define() {
    let mut heap = Heap::new();
    let environment = Environment::new_top_level(&mut heap);
    Environment::define(&mut heap, environment, "foo", Value::Number(num(5_f64)));
    let key = identifier("foo");
    assert_eq!(Environment::get(&heap, environment, &key), Some(Value::Number(num(5_f64))));

    // Re-defining variables is allowed.
    Environment::define(&mut heap, environment, "foo", Value::Number(num(6_f64)));
    assert_eq!(Environment::get(&heap, environment, &key), Some(Value::Number(num(6_f64))));
}

#[test]
fn test_assign() {
    let mut heap = Heap::new();
    let environment = Environment::new_top_level(&mut heap);
    Environment::define(&mut heap, environment, "foo", Value::Number(num(5_f64)));
    let foo = identifier("foo");
    assert_eq!(Environment::get(&heap, environment, &foo), Some(Value::Number(num(5_f64))));

    assert_eq!(
        Environment::assign(&mut heap, environment, &foo, Value::Number(num(6_f64))),
        Some(Value::Number(num(5_f64)))
    );
    assert_eq!(Environment::get(&heap, environment, &foo), Some(Value::Number(num(6_f64))));

    // Undefined variable.
    let bar = identifier("bar");
    assert_eq!(Environment::assign(&mut heap, environment, &bar, Value::Number(num(1_f64))), None);
}

#[test]
fn test_shadowing() {
    let mut heap = Heap::new();
    let tle = Environment::new_top_level(&mut heap);
    Environment::define(&mut heap, tle, "foo", Value::Number(num(5_f64)));

    let block = Environment::new_block(&mut heap, tle);
    Environment::define(&mut heap, block, "foo", Value::Number(num(3_f64)));
    let key = identifier("foo");
    assert_eq!(Environment::get(&heap, block, &key), Some(Value::Number(num(3_f64))));
}

#[test]
fn test_parent_lookup() {
    let mut heap = Heap::new();
    let tle = Environment::new_top_level(&mut heap);
    Environment::define(&mut heap, tle, "foo", Value::Number(num(5_f64)));

    let block = Environment::new_block(&mut heap, tle);
    let key = identifier("foo");
    assert_eq!(Environment::get(&heap, block, &key), Some(Value::Number(num(5_f64))));
}

#[test]
fn test_parent_assign() {
    let mut heap = Heap::new();
    let tle = Environment::new_top_level(&mut heap);
    Environment::define(&mut heap, tle, "foo", Value::Number(num(5_f64)));

    let block = Environment::new_block(&mut heap, tle);
    let key = identifier("foo");
    Environment::assign(&mut heap, block, &key, Value::Number(num(3_f64)));
    assert_eq!(Environment::get(&heap, block, &key), Some(Value::Number(num(3_f64))));
}

#[test]
fn shadowing_leaves_the_parent_alone() {
    let mut heap = Heap::new();
    let tle = Environment::new_top_level(&mut heap);
    Environment::define(&mut heap, tle, "foo", Value::Number(num(5_f64)));
    let block = Environment::new_block(&mut heap, tle);
    Environment::define(&mut heap, block, "foo", Value::Number(num(3_f64)));
    assert_eq!(Environment::get(&heap, tle, &identifier("foo")), Some(Value::Number(num(5_f64))));
}

#[test]
fn undefined_name_is_missing() {
    let mut heap = Heap::new();
    let tle = Environment::new_top_level(&mut heap);
    let block = Environment::new_block(&mut heap, tle);
    assert_eq!(Environment::get(&heap, block, &identifier("foo")), None);
    assert_eq!(heap.len(), 2);
}

#[test]
fn names_are_kept_in_order() {
    let mut heap = Heap::new();
    let tle = Environment::new_top_level(&mut heap);
    Environment::define(&mut heap, tle, "b", Value::Boolean(true));
    Environment::define(&mut heap, tle, "a", Value::Nil);
    Environment::define(&mut heap, tle, "c", Value::Boolean(false));
    Environment::define(&mut heap, tle, "ab", Value::Nil);
    assert_eq!(heap.count(tle), 4);
    assert_eq!(heap.name_at(tle, 0), "a");
    assert_eq!(heap.name_at(tle, 1), "ab");
    assert_eq!(heap.name_at(tle, 2), "b");
    assert_eq!(heap.name_at(tle, 3), "c");
}

#[test]
fn assignment_never_defines() {
    let mut heap = Heap::new();
    let tle = Environment::new_top_level(&mut heap);
    let block = Environment::new_block(&mut heap, tle);
    let bar = identifier("bar");
    assert_eq!(Environment::assign(&mut heap, block, &bar, Value::Boolean(true)), None);
    assert_eq!(Environment::get(&heap, block, &bar), None);
    assert_eq!(Environment::get(&heap, tle, &bar), None);
    assert_eq!(heap.count(tle), 0);
    assert_eq!(heap.count(block), 0);
}

#[test]
fn assignment_through_a_block_changes_the_enclosing_variable() {
    let mut heap = Heap::new();
    let tle = Environment::new_top_level(&mut heap);
    Environment::define(&mut heap, tle, "foo", Value::Number(num(5_f64)));
    let block = Environment::new_block(&mut heap, tle);
    let key = identifier("foo");
    assert_eq!(Environment::assign(&mut heap, block, &key, Value::Nil), Some(Value::Number(num(5_f64))));
    assert_eq!(Environment::get(&heap, tle, &key), Some(Value::Nil));
    assert_eq!(heap.count(block), 0);
}

#[test]
fn defining_one_name_keeps_the_others() {
    let mut heap = Heap::new();
    let tle = Environment::new_top_level(&mut heap);
    Environment::define(&mut heap, tle, "a", Value::Boolean(true));
    Environment::define(&mut heap, tle, "b", Value::Nil);
    Environment::define(&mut heap, tle, "b", Value::Boolean(false));
    assert_eq!(Environment::get(&heap, tle, &identifier("a")), Some(Value::Boolean(true)));
    assert_eq!(Environment::get(&heap, tle, &identifier("b")), Some(Value::Boolean(false)));
    // Defining a name again does not add a second variable.
    assert_eq!(heap.count(tle), 2);
}

#[test]
fn a_held_scope_cannot_be_read_or_written() {
    let mut heap = Heap::new();
    let env = Environment::new_top_level(&mut heap);
    Environment::define(&mut heap, env, "a", Value::Number(num(1_f64)));
    let block = Environment::new_block(&mut heap, env);
    heap.set_borrowed(env, true);
    assert!(heap.is_borrowed(env));
    assert!(heap.get_checked(block, &"a".to_string()).is_err());
    assert!(heap.assign_checked(block, &"a".to_string(), Value::Nil).is_err());
    heap.set_borrowed(env, false);
    assert_eq!(heap.get_checked(block, &"a".to_string()), Ok(Some(Value::Number(num(1_f64)))));
}
