use vstd::prelude::*;

use vstd::string::*;

use crate::environment::{
    assign, define, fresh_scope, heap_in_order, lemma_assign_heap_in_order, lemma_assign_shape, lemma_define_heap_in_order,
    lemma_push_fresh_in_order, law_get_after_define, lookup, Environment, Heap, Lookup, ScopeV,
};
use crate::equality::{eq_depth, eq_depth_exec, stack_model, value_eq, value_equal, Stuck};
use crate::expr::{exprs_model, Expr, ExprV};
use crate::numbers::{
    answered_by, extends, is_zero, is_zero_exec, Backend, lemma_extends_push, lemma_extends_pushed, lemma_extends_refl, lemma_extends_trans, less, less_equal, negate, negated, num_le,
    num_eq, num_lt, is_nan, SIGN_BIT, Answer, NumOp, Numerics,
};
use crate::render::{display_doc, expr_doc, fill, holes, t, write_display, write_expr, Doc, Piece, PieceV};
use crate::stmt::{clone_stmts, clone_tokens, stmts_model, Stmt, StmtV};
use crate::text::{decimal, push_decimal};
use crate::token::{Literal, Token, TokenType};
use crate::value::{clone_value, Value, ValueV};

verus! {

/// An error that stops the program, with the token where it arose.
#[derive(Debug, PartialEq)]
pub struct RuntimeError {
    pub token: Token,
    pub message: String,
}

/// Where the interpreter stops where the program has no further meaning:
/// each of these is a point where evaluation cannot go on (an operator the
/// evaluator does not know, a `while` condition that is not a boolean, an
/// environment that a user of the heap holds for writing, a value whose text or
/// comparison would never end, or the step budget spent).
#[derive(Clone, Copy, Debug, PartialEq, Eq, Structural)]
pub enum Halt {
    Unreachable,
    UnexpectedOperator(TokenType),
    NotImplemented,
    AlreadyBorrowed,
    Cycle,
    OutOfFuel,
}

/// The model of a failed evaluation. `Mismatch` stands for an answer log
/// that does not hold the question the evaluation asks; no run gives it.
pub enum FaultV {
    Error(Token, Seq<char>),
    Halt(Halt),
    Mismatch,
}

/// The model of a statement that does not complete normally.
pub enum FlowV {
    Fault(FaultV),
    Return(ValueV),
}

/// The state a program changes: the environments, and the lines printed.
pub struct State {
    pub heap: Seq<ScopeV>,
    pub out: Seq<Seq<char>>,
}

pub open spec fn halt_of(s: Stuck) -> Halt {
    match s {
        Stuck::AlreadyBorrowed => Halt::AlreadyBorrowed,
        Stuck::Cycle => Halt::Cycle,
    }
}

pub open spec fn lit_value(l: Literal) -> ValueV {
    match l {
        Literal::String(s) => ValueV::String(s@),
        Literal::Number(n) => ValueV::Number(n),
        Literal::Boolean(b) => ValueV::Boolean(b),
        Literal::Nil => ValueV::Nil,
    }
}

pub open spec fn undefined_message(name: Seq<char>) -> Seq<char> {
    "Undefined variable '"@ + name + "'"@
}

pub open spec fn arity_message(expected: nat, got: nat) -> Seq<char> {
    "Expected "@ + decimal(expected) + " function arguments but got "@ + decimal(got)
}

pub open spec fn with_heap(s: State, h: Seq<ScopeV>) -> State {
    State { heap: h, ..s }
}

/// The number that the answer at `pos` gives for `a op b`.
pub open spec fn ask(s: State, full: Seq<Answer>, pos: nat, op: NumOp, a: u64, b: u64) -> (State, nat, Result<ValueV, FaultV>) {
    match full[pos as int] {
        Answer::Number(o, x, y, r) => if o == op && x == a && y == b {
            (s, pos + 1, Ok(ValueV::Number(r)))
        } else {
            (s, pos + 1, Err(FaultV::Mismatch))
        },
        _ => (s, pos + 1, Err(FaultV::Mismatch)),
    }
}

pub open spec fn unary_result(op: Token, r: Result<ValueV, FaultV>) -> Result<ValueV, FaultV> {
    if r matches Err(FaultV::Halt(_)) || r matches Err(FaultV::Mismatch) {
        r
    } else if op.token_type == TokenType::Minus {
        match r {
            Ok(ValueV::Number(n)) => Ok(ValueV::Number(negated(n))),
            _ => Err(FaultV::Error(op, "Expected type Value::Number for - operator"@)),
        }
    } else if op.token_type == TokenType::Bang {
        match r {
            Ok(ValueV::Boolean(b)) => Ok(ValueV::Boolean(!b)),
            _ => Err(FaultV::Error(op, "Expected type Value::Boolean for ! operator"@)),
        }
    } else {
        Err(FaultV::Halt(Halt::Unreachable))
    }
}

pub open spec fn is_numeric_op(ty: TokenType) -> bool {
    ||| ty == TokenType::Minus
    ||| ty == TokenType::Plus
    ||| ty == TokenType::Slash
    ||| ty == TokenType::Star
    ||| ty == TokenType::Greater
    ||| ty == TokenType::GreaterEqual
    ||| ty == TokenType::Less
    ||| ty == TokenType::LessEqual
}

pub open spec fn logic_error(op: Token) -> FaultV {
    if op.token_type == TokenType::Or {
        FaultV::Error(op, "Expected type Value::Boolean for OR operator"@)
    } else {
        FaultV::Error(op, "Expected type Value::Boolean for AND operator"@)
    }
}

pub open spec fn numeric_error(op: Token) -> FaultV {
    FaultV::Error(op, "Expected type Value::Number for numeric operator"@)
}

/// A numeric operator applied to two numbers.
pub open spec fn numeric(op: Token, a: u64, b: u64, s: State, full: Seq<Answer>, pos: nat) -> (State, nat, Result<ValueV, FaultV>) {
    let ty = op.token_type;
    if ty == TokenType::Minus {
        ask(s, full, pos, NumOp::Difference, a, b)
    } else if ty == TokenType::Plus {
        ask(s, full, pos, NumOp::Sum, a, b)
    } else if ty == TokenType::Star {
        ask(s, full, pos, NumOp::Product, a, b)
    } else if ty == TokenType::Slash {
        if is_zero(b) {
            (s, pos, Err(FaultV::Error(op, "Cannot divide by zero"@)))
        } else {
            ask(s, full, pos, NumOp::Quotient, a, b)
        }
    } else if ty == TokenType::Greater {
        (s, pos, Ok(ValueV::Boolean(num_lt(b, a))))
    } else if ty == TokenType::GreaterEqual {
        (s, pos, Ok(ValueV::Boolean(num_le(b, a))))
    } else if ty == TokenType::Less {
        (s, pos, Ok(ValueV::Boolean(num_lt(a, b))))
    } else {
        (s, pos, Ok(ValueV::Boolean(num_le(a, b))))
    }
}

/// `==` (or, negated, `!=`) on two values.
pub open spec fn equality_result(h: Seq<ScopeV>, ty: TokenType, x: ValueV, y: ValueV) -> Result<ValueV, FaultV> {
    match value_eq(h, x, y, Seq::empty(), eq_depth(h)) {
        Ok(c) => Ok(ValueV::Boolean(if ty == TokenType::BangEqual { !c } else { c })),
        Err(s) => Err(FaultV::Halt(halt_of(s))),
    }
}

// ---------------------------------------------------------------------------
// Evaluation. `fuel` bounds the nesting of calls and the iterations of
// loops; `full` holds the answers of the number backend and `pos` is the
// first one not yet used.
// ---------------------------------------------------------------------------

pub open spec fn eval(fuel: nat, s: State, full: Seq<Answer>, pos: nat, env: nat, e: ExprV) -> (State, nat, Result<ValueV, FaultV>)
    decreases fuel, e, 0nat,
{
    match e {
        ExprV::Literal(l) => (s, pos, Ok(lit_value(l))),
        ExprV::Grouping(inner) => eval(fuel, s, full, pos, env, *inner),
        ExprV::Unary(op, right) => {
            let (s1, p1, r) = eval(fuel, s, full, pos, env, *right);
            (s1, p1, unary_result(op, r))
        },
        ExprV::Binary(left, op, right) => {
            let ty = op.token_type;
            if ty == TokenType::BangEqual || ty == TokenType::EqualEqual {
                let (s1, p1, rl) = eval(fuel, s, full, pos, env, *left);
                match rl {
                    Err(f) => (s1, p1, Err(f)),
                    Ok(x) => {
                        let (s2, p2, rr) = eval(fuel, s1, full, p1, env, *right);
                        match rr {
                            Err(f) => (s2, p2, Err(f)),
                            Ok(y) => (s2, p2, equality_result(s2.heap, ty, x, y)),
                        }
                    },
                }
            } else if ty == TokenType::Or || ty == TokenType::And {
                let (s1, p1, rl) = eval(fuel, s, full, pos, env, *left);
                match rl {
                    Err(f) => (s1, p1, Err(f)),
                    Ok(ValueV::Boolean(b)) => if (ty == TokenType::Or && !b) || (ty == TokenType::And && b) {
                        let (s2, p2, rr) = eval(fuel, s1, full, p1, env, *right);
                        match rr {
                            Err(f) => (s2, p2, Err(f)),
                            Ok(ValueV::Boolean(c)) => (s2, p2, Ok(ValueV::Boolean(c))),
                            Ok(_) => (s2, p2, Err(logic_error(op))),
                        }
                    } else {
                        (s1, p1, Ok(ValueV::Boolean(b)))
                    },
                    Ok(_) => (s1, p1, Err(logic_error(op))),
                }
            } else if is_numeric_op(ty) {
                let (s1, p1, rl) = eval(fuel, s, full, pos, env, *left);
                match rl {
                    Err(f) => (s1, p1, Err(f)),
                    Ok(ValueV::Number(a)) => {
                        let (s2, p2, rr) = eval(fuel, s1, full, p1, env, *right);
                        match rr {
                            Err(f) => (s2, p2, Err(f)),
                            Ok(ValueV::Number(b)) => numeric(op, a, b, s2, full, p2),
                            Ok(_) => (s2, p2, Err(numeric_error(op))),
                        }
                    },
                    Ok(_) => (s1, p1, Err(numeric_error(op))),
                }
            } else {
                (s, pos, Err(FaultV::Halt(Halt::UnexpectedOperator(ty))))
            }
        },
        ExprV::Variable(name) => match lookup(s.heap, env, name.lexeme@) {
            Lookup::Found(v) => (s, pos, Ok(v)),
            Lookup::Missing => (s, pos, Err(FaultV::Error(name, undefined_message(name.lexeme@)))),
            Lookup::Borrowed => (s, pos, Err(FaultV::Halt(Halt::AlreadyBorrowed))),
        },
        ExprV::Assign(name, value) => {
            let (s1, p1, r) = eval(fuel, s, full, pos, env, *value);
            match r {
                Err(f) => (s1, p1, Err(f)),
                Ok(v) => {
                    let (h2, found) = assign(s1.heap, env, name.lexeme@, v);
                    match found {
                        Lookup::Found(_) => (with_heap(s1, h2), p1, Ok(v)),
                        Lookup::Missing => (s1, p1, Err(FaultV::Error(name, undefined_message(name.lexeme@)))),
                        Lookup::Borrowed => (s1, p1, Err(FaultV::Halt(Halt::AlreadyBorrowed))),
                    }
                },
            }
        },
        ExprV::Fun(params, body) => (s, pos, Ok(ValueV::Fun(params, body, env))),
        ExprV::Call(fun, paren, args) => {
            let (s1, p1, rf) = eval(fuel, s, full, pos, env, *fun);
            match rf {
                Err(f) => (s1, p1, Err(f)),
                Ok(ValueV::Fun(params, body, fenv)) => if params.len() != args.len() {
                    (s1, p1, Err(FaultV::Error(paren, arity_message(params.len(), args.len()))))
                } else {
                    let (s2, p2, ra) = eval_args(fuel, s1, full, p1, env, args);
                    match ra {
                        Err(f) => (s2, p2, Err(f)),
                        Ok(vals) => if fenv >= s2.heap.len() {
                            (s2, p2, Err(FaultV::Halt(Halt::Unreachable)))
                        } else if fuel == 0 {
                            (s2, p2, Err(FaultV::Halt(Halt::OutOfFuel)))
                        } else {
                            let b = s2.heap.len();
                            let h3 = bind(s2.heap.push(fresh_scope(Some(fenv))), b, params, vals);
                            call_body((fuel - 1) as nat, with_heap(s2, h3), full, p2, b, body)
                        },
                    }
                },
                Ok(_) => {
                    let pieces = expr_doc(*fun) + t(" is not a function"@);
                    match fill(pieces, full, p1) {
                        Some(m) => (s1, p1 + holes(pieces), Err(FaultV::Error(paren, m))),
                        None => (s1, p1 + holes(pieces), Err(FaultV::Mismatch)),
                    }
                },
            }
        },
    }
}

/// Evaluates the arguments of a call in order, in the caller's environment
/// `env`, stopping at the first that fails.
pub open spec fn eval_args(fuel: nat, s: State, full: Seq<Answer>, pos: nat, env: nat, args: Seq<ExprV>) -> (State, nat, Result<Seq<ValueV>, FaultV>)
    decreases fuel, args, 0nat,
{
    if args.len() == 0 {
        (s, pos, Ok(Seq::empty()))
    } else {
        let (s1, p1, r) = eval(fuel, s, full, pos, env, args[0]);
        match r {
            Err(f) => (s1, p1, Err(f)),
            Ok(v) => {
                let (s2, p2, rest) = eval_args(fuel, s1, full, p1, env, args.subrange(1, args.len() as int));
                match rest {
                    Err(f) => (s2, p2, Err(f)),
                    Ok(vs) => (s2, p2, Ok(seq![v] + vs)),
                }
            },
        }
    }
}

/// Defines each parameter, in order, as the value at the same place, in
/// environment `env`.
pub open spec fn bind(h: Seq<ScopeV>, env: nat, params: Seq<Token>, vals: Seq<ValueV>) -> Seq<ScopeV>
    decreases params.len(),
{
    if params.len() == 0 || vals.len() == 0 {
        h
    } else {
        bind(define(h, env, params[0].lexeme@, vals[0]), env, params.subrange(1, params.len() as int), vals.subrange(1, vals.len() as int))
    }
}

/// Runs the body of a function: the value of the first `return`, else nil.
pub open spec fn call_body(fuel: nat, s: State, full: Seq<Answer>, pos: nat, fenv: nat, body: Seq<StmtV>) -> (State, nat, Result<ValueV, FaultV>)
    decreases fuel, body, 0nat,
{
    if body.len() == 0 {
        (s, pos, Ok(ValueV::Nil))
    } else {
        let (s1, p1, r) = exec(fuel, s, full, pos, fenv, body[0]);
        match r {
            Ok(()) => call_body(fuel, s1, full, p1, fenv, body.subrange(1, body.len() as int)),
            Err(FlowV::Return(v)) => (s1, p1, Ok(v)),
            Err(FlowV::Fault(f)) => (s1, p1, Err(f)),
        }
    }
}

pub open spec fn fault(s: State, pos: nat, f: FaultV) -> (State, nat, Result<(), FlowV>) {
    (s, pos, Err(FlowV::Fault(f)))
}

/// Executes one statement.
pub open spec fn exec(fuel: nat, s: State, full: Seq<Answer>, pos: nat, env: nat, st: StmtV) -> (State, nat, Result<(), FlowV>)
    decreases fuel, st, 1nat,
{
    match st {
        StmtV::Expression(e) => {
            let (s1, p1, r) = eval(fuel, s, full, pos, env, e);
            match r {
                Err(f) => fault(s1, p1, f),
                Ok(_) => (s1, p1, Ok(())),
            }
        },
        StmtV::Print(e) => {
            let (s1, p1, r) = eval(fuel, s, full, pos, env, e);
            match r {
                Err(f) => fault(s1, p1, f),
                Ok(v) => match display_doc(s1.heap, v) {
                    None => fault(s1, p1, FaultV::Halt(Halt::Cycle)),
                    Some(pieces) => match fill(pieces, full, p1) {
                        None => fault(s1, p1 + holes(pieces), FaultV::Mismatch),
                        Some(text) => (State { out: s1.out.push(text), ..s1 }, p1 + holes(pieces), Ok(())),
                    },
                },
            }
        },
        StmtV::If(keyword, condition, consq, altern) => {
            let (s1, p1, r) = eval(fuel, s, full, pos, env, condition);
            match r {
                Err(f) => fault(s1, p1, f),
                Ok(ValueV::Boolean(b)) => if b {
                    exec(fuel, s1, full, p1, env, *consq)
                } else {
                    match altern {
                        Some(a) => exec(fuel, s1, full, p1, env, *a),
                        None => (s1, p1, Ok(())),
                    }
                },
                Ok(_) => fault(s1, p1, FaultV::Error(keyword, "Expect 'if' conditional to evaluate to a boolean"@)),
            }
        },
        StmtV::Var(name, initializer) => {
            let (s1, p1, r) = eval(fuel, s, full, pos, env, initializer);
            match r {
                Err(f) => fault(s1, p1, f),
                Ok(v) => if env >= s1.heap.len() {
                    fault(s1, p1, FaultV::Halt(Halt::Unreachable))
                } else if s1.heap[env as int].borrowed {
                    fault(s1, p1, FaultV::Halt(Halt::AlreadyBorrowed))
                } else {
                    (with_heap(s1, define(s1.heap, env, name.lexeme@, v)), p1, Ok(()))
                },
            }
        },
        StmtV::Block(statements) => exec_list(
            fuel,
            with_heap(s, s.heap.push(fresh_scope(Some(env)))),
            full,
            pos,
            s.heap.len(),
            statements,
        ),
        StmtV::While(_, _) => exec_while(fuel, s, full, pos, env, st),
        StmtV::Fun(name, params, body) => if env >= s.heap.len() {
            fault(s, pos, FaultV::Halt(Halt::Unreachable))
        } else if s.heap[env as int].borrowed {
            fault(s, pos, FaultV::Halt(Halt::AlreadyBorrowed))
        } else {
            (with_heap(s, define(s.heap, env, name.lexeme@, ValueV::Fun(params, body, env))), pos, Ok(()))
        },
        StmtV::Return(_, value) => match value {
            None => (s, pos, Err(FlowV::Return(ValueV::Nil))),
            Some(e) => {
                let (s1, p1, r) = eval(fuel, s, full, pos, env, e);
                match r {
                    Err(f) => fault(s1, p1, f),
                    Ok(v) => (s1, p1, Err(FlowV::Return(v))),
                }
            },
        },
    }
}

/// Executes statements in order, stopping at the first that does not
/// complete normally.
pub open spec fn exec_list(fuel: nat, s: State, full: Seq<Answer>, pos: nat, env: nat, sts: Seq<StmtV>) -> (State, nat, Result<(), FlowV>)
    decreases fuel, sts, 0nat,
{
    if sts.len() == 0 {
        (s, pos, Ok(()))
    } else {
        let (s1, p1, r) = exec(fuel, s, full, pos, env, sts[0]);
        match r {
            Err(x) => (s1, p1, Err(x)),
            Ok(()) => exec_list(fuel, s1, full, p1, env, sts.subrange(1, sts.len() as int)),
        }
    }
}

/// Runs a `while` statement `w`; each iteration costs one unit of fuel.
pub open spec fn exec_while(fuel: nat, s: State, full: Seq<Answer>, pos: nat, env: nat, w: StmtV) -> (State, nat, Result<(), FlowV>)
    decreases fuel, w, 0nat,
{
    match w {
        StmtV::While(condition, body) => if fuel == 0 {
            fault(s, pos, FaultV::Halt(Halt::OutOfFuel))
        } else {
            let (s1, p1, r) = eval(fuel, s, full, pos, env, condition);
            match r {
                Err(f) => fault(s1, p1, f),
                Ok(ValueV::Boolean(b)) => if b {
                    let (s2, p2, r2) = exec(fuel, s1, full, p1, env, *body);
                    match r2 {
                        Err(x) => (s2, p2, Err(x)),
                        Ok(()) => exec_while((fuel - 1) as nat, s2, full, p2, env, w),
                    }
                } else {
                    (s1, p1, Ok(()))
                },
                Ok(_) => fault(s1, p1, FaultV::Halt(Halt::NotImplemented)),
            }
        },
        _ => (s, pos, Ok(())),
    }
}

/// Runs a program: its statements in a new outermost environment, in order;
/// a `return` at the top level ends only its own statement. Stops at the
/// first error.
pub open spec fn interpret_from(fuel: nat, s: State, full: Seq<Answer>, pos: nat, env: nat, sts: Seq<StmtV>) -> (State, nat, Result<(), FaultV>)
    decreases sts.len(),
{
    if sts.len() == 0 {
        (s, pos, Ok(()))
    } else {
        let (s1, p1, r) = exec(fuel, s, full, pos, env, sts[0]);
        match r {
            Err(FlowV::Fault(f)) => (s1, p1, Err(f)),
            _ => interpret_from(fuel, s1, full, p1, env, sts.subrange(1, sts.len() as int)),
        }
    }
}

// ---------------------------------------------------------------------------
// Laws of evaluation
// ---------------------------------------------------------------------------

/// `or` does not evaluate its right operand when the left one is true.
pub proof fn law_or_short_circuits(
    fuel: nat,
    s: State,
    full: Seq<Answer>,
    pos: nat,
    env: nat,
    left: ExprV,
    op: Token,
    right: ExprV,
)
    requires
        op.token_type == TokenType::Or,
        eval(fuel, s, full, pos, env, left).2 == Ok::<ValueV, FaultV>(ValueV::Boolean(true)),
    ensures
        eval(fuel, s, full, pos, env, ExprV::Binary(Box::new(left), op, Box::new(right))) == (
            eval(fuel, s, full, pos, env, left).0,
            eval(fuel, s, full, pos, env, left).1,
            Ok::<ValueV, FaultV>(ValueV::Boolean(true)),
        ),
{
}

/// `and` does not evaluate its right operand when the left one is false.
pub proof fn law_and_short_circuits(
    fuel: nat,
    s: State,
    full: Seq<Answer>,
    pos: nat,
    env: nat,
    left: ExprV,
    op: Token,
    right: ExprV,
)
    requires
        op.token_type == TokenType::And,
        eval(fuel, s, full, pos, env, left).2 == Ok::<ValueV, FaultV>(ValueV::Boolean(false)),
    ensures
        eval(fuel, s, full, pos, env, ExprV::Binary(Box::new(left), op, Box::new(right))) == (
            eval(fuel, s, full, pos, env, left).0,
            eval(fuel, s, full, pos, env, left).1,
            Ok::<ValueV, FaultV>(ValueV::Boolean(false)),
        ),
{
}

/// An `if` whose condition is true runs its first branch only; one whose
/// condition is false runs its `else` branch only.
pub proof fn law_if_runs_one_branch(
    fuel: nat,
    s: State,
    full: Seq<Answer>,
    pos: nat,
    env: nat,
    keyword: Token,
    condition: ExprV,
    consq: StmtV,
    altern: StmtV,
)
    ensures
        eval(fuel, s, full, pos, env, condition).2 == Ok::<ValueV, FaultV>(ValueV::Boolean(true)) ==> exec(
            fuel,
            s,
            full,
            pos,
            env,
            StmtV::If(keyword, condition, Box::new(consq), Some(Box::new(altern))),
        ) == exec(fuel, eval(fuel, s, full, pos, env, condition).0, full, eval(fuel, s, full, pos, env, condition).1, env, consq),
        eval(fuel, s, full, pos, env, condition).2 == Ok::<ValueV, FaultV>(ValueV::Boolean(false)) ==> exec(
            fuel,
            s,
            full,
            pos,
            env,
            StmtV::If(keyword, condition, Box::new(consq), Some(Box::new(altern))),
        ) == exec(fuel, eval(fuel, s, full, pos, env, condition).0, full, eval(fuel, s, full, pos, env, condition).1, env, altern),
{
}

/// Dividing by zero (either sign) is an error, and the backend is not asked.
pub proof fn law_division_by_zero(fuel: nat, s: State, full: Seq<Answer>, pos: nat, env: nat, op: Token, a: u64, b: u64)
    requires
        op.token_type == TokenType::Slash,
        is_zero(b),
    ensures
        eval(
            fuel,
            s,
            full,
            pos,
            env,
            ExprV::Binary(Box::new(ExprV::Literal(Literal::Number(a))), op, Box::new(ExprV::Literal(Literal::Number(b)))),
        ) == (s, pos, Err::<ValueV, FaultV>(FaultV::Error(op, "Cannot divide by zero"@))),
{
    let l = ExprV::Literal(Literal::Number(a));
    let r = ExprV::Literal(Literal::Number(b));
    assert(eval(fuel, s, full, pos, env, l) == (s, pos, Ok::<ValueV, FaultV>(ValueV::Number(a))));
    assert(eval(fuel, s, full, pos, env, r) == (s, pos, Ok::<ValueV, FaultV>(ValueV::Number(b))));
}

pub open spec fn number_literal(a: u64) -> ExprV {
    ExprV::Literal(Literal::Number(a))
}

pub open spec fn binary_of(left: ExprV, op: Token, right: ExprV) -> ExprV {
    ExprV::Binary(Box::new(left), op, Box::new(right))
}

/// `a > b` is `b < a`, and `a >= b` is `b <= a`: the order operators swap
/// their operands and nothing else.
pub proof fn law_greater_is_less_swapped(fuel: nat, s: State, full: Seq<Answer>, pos: nat, env: nat, a: u64, b: u64, gt: Token, lt: Token)
    requires
        (gt.token_type == TokenType::Greater && lt.token_type == TokenType::Less) || (gt.token_type == TokenType::GreaterEqual
            && lt.token_type == TokenType::LessEqual),
    ensures
        eval(fuel, s, full, pos, env, binary_of(number_literal(a), gt, number_literal(b))) == eval(
            fuel,
            s,
            full,
            pos,
            env,
            binary_of(number_literal(b), lt, number_literal(a)),
        ),
{
    assert(eval(fuel, s, full, pos, env, number_literal(a)) == (s, pos, Ok::<ValueV, FaultV>(ValueV::Number(a))));
    assert(eval(fuel, s, full, pos, env, number_literal(b)) == (s, pos, Ok::<ValueV, FaultV>(ValueV::Number(b))));
}

proof fn lemma_key_of_non_negative(a: u64)
    requires
        a & SIGN_BIT == 0,
    ensures
        crate::numbers::order_key(a) == a + SIGN_BIT,
{
    assert(a & 0x8000_0000_0000_0000u64 == 0 ==> a | 0x8000_0000_0000_0000u64 == a + 0x8000_0000_0000_0000u64) by (bit_vector);
}

/// On numbers that are not negative and not NaN, `<` and `<=` order as the
/// numbers do, which for these values is the order of their bit patterns:
/// `2 < 3` is true and `3 < 2` is false. The other two order operators
/// follow by `law_greater_is_less_swapped`.
pub proof fn law_order_of_non_negative_numbers(fuel: nat, s: State, full: Seq<Answer>, pos: nat, env: nat, a: u64, b: u64, op: Token)
    requires
        a & SIGN_BIT == 0,
        b & SIGN_BIT == 0,
        !is_nan(a),
        !is_nan(b),
        op.token_type == TokenType::Less || op.token_type == TokenType::LessEqual,
    ensures
        eval(fuel, s, full, pos, env, binary_of(number_literal(a), op, number_literal(b))) == (
            s,
            pos,
            Ok::<ValueV, FaultV>(ValueV::Boolean(if op.token_type == TokenType::Less { a < b } else { a <= b })),
        ),
{
    lemma_key_of_non_negative(a);
    lemma_key_of_non_negative(b);
    assert(is_zero(a) ==> a == 0) by {
        assert(a & 0x8000_0000_0000_0000u64 == 0 && a & 0x7fff_ffff_ffff_ffffu64 == 0 ==> a == 0) by (bit_vector);
    }
    assert(is_zero(b) ==> b == 0) by {
        assert(b & 0x8000_0000_0000_0000u64 == 0 && b & 0x7fff_ffff_ffff_ffffu64 == 0 ==> b == 0) by (bit_vector);
    }
    assert(a == b ==> num_eq(a, b));
    assert(eval(fuel, s, full, pos, env, number_literal(a)) == (s, pos, Ok::<ValueV, FaultV>(ValueV::Number(a))));
    assert(eval(fuel, s, full, pos, env, number_literal(b)) == (s, pos, Ok::<ValueV, FaultV>(ValueV::Number(b))));
}

/// `+`, `-`, `*` and `/` (by a nonzero number) ask the number backend for
/// the sum, difference, product or quotient of the left operand and the
/// right one, in that order, and give its answer.
pub proof fn law_arithmetic_asks_in_order(fuel: nat, s: State, full: Seq<Answer>, pos: nat, env: nat, a: u64, b: u64, op: Token, r: u64)
    requires
        pos < full.len(),
        op.token_type == TokenType::Plus ==> full[pos as int] == Answer::Number(NumOp::Sum, a, b, r),
        op.token_type == TokenType::Minus ==> full[pos as int] == Answer::Number(NumOp::Difference, a, b, r),
        op.token_type == TokenType::Star ==> full[pos as int] == Answer::Number(NumOp::Product, a, b, r),
        op.token_type == TokenType::Slash ==> full[pos as int] == Answer::Number(NumOp::Quotient, a, b, r) && !is_zero(b),
        op.token_type == TokenType::Plus || op.token_type == TokenType::Minus || op.token_type == TokenType::Star || op.token_type
            == TokenType::Slash,
    ensures
        eval(fuel, s, full, pos, env, binary_of(number_literal(a), op, number_literal(b))) == (
            s,
            pos + 1,
            Ok::<ValueV, FaultV>(ValueV::Number(r)),
        ),
{
    assert(eval(fuel, s, full, pos, env, number_literal(a)) == (s, pos, Ok::<ValueV, FaultV>(ValueV::Number(a))));
    assert(eval(fuel, s, full, pos, env, number_literal(b)) == (s, pos, Ok::<ValueV, FaultV>(ValueV::Number(b))));
}

/// Two strings are `==` exactly when they hold the same characters, two
/// booleans when they are the same, two numbers when IEEE-754 says so, and
/// `nil` equals `nil`; values of different kinds are never equal.
pub proof fn law_equality_of_literals(fuel: nat, s: State, full: Seq<Answer>, pos: nat, env: nat, x: Literal, op: Token, y: Literal)
    requires
        op.token_type == TokenType::EqualEqual,
    ensures
        eval(fuel, s, full, pos, env, binary_of(ExprV::Literal(x), op, ExprV::Literal(y))) == (
            s,
            pos,
            Ok::<ValueV, FaultV>(ValueV::Boolean(
                match (x, y) {
                    (Literal::String(a), Literal::String(b)) => a@ == b@,
                    (Literal::Number(a), Literal::Number(b)) => num_eq(a, b),
                    (Literal::Boolean(a), Literal::Boolean(b)) => a == b,
                    (Literal::Nil, Literal::Nil) => true,
                    _ => false,
                },
            )),
        ),
{
    assert(eval(fuel, s, full, pos, env, ExprV::Literal(x)) == (s, pos, Ok::<ValueV, FaultV>(lit_value(x))));
    assert(eval(fuel, s, full, pos, env, ExprV::Literal(y)) == (s, pos, Ok::<ValueV, FaultV>(lit_value(y))));
}

/// The value of an argument that is a literal, or a variable defined where
/// the call is made.
pub open spec fn plain_value(h: Seq<ScopeV>, env: nat, e: ExprV) -> ValueV {
    match e {
        ExprV::Literal(l) => lit_value(l),
        ExprV::Variable(name) => lookup(h, env, name.lexeme@)->Found_0,
        _ => ValueV::Nil,
    }
}

pub open spec fn is_plain(h: Seq<ScopeV>, env: nat, e: ExprV) -> bool {
    e is Literal || (e is Variable && lookup(h, env, e->Variable_0.lexeme@) is Found)
}

/// Arguments that are literals or defined variables evaluate to their
/// values in argument order: the `i`-th value is the `i`-th argument's, and
/// nothing else changes.
pub proof fn law_arguments_in_order(fuel: nat, s: State, full: Seq<Answer>, pos: nat, env: nat, args: Seq<ExprV>)
    requires
        forall|i: int| 0 <= i < args.len() ==> is_plain(s.heap, env, #[trigger] args[i]),
    ensures
        eval_args(fuel, s, full, pos, env, args) == (
            s,
            pos,
            Ok::<Seq<ValueV>, FaultV>(Seq::new(args.len(), |i: int| plain_value(s.heap, env, args[i]))),
        ),
    decreases args.len(),
{
    if args.len() > 0 {
        let rest = args.subrange(1, args.len() as int);
        assert forall|i: int| 0 <= i < rest.len() implies is_plain(s.heap, env, #[trigger] rest[i]) by {
            assert(rest[i] == args[i + 1]);
        }
        law_arguments_in_order(fuel, s, full, pos, env, rest);
        assert(is_plain(s.heap, env, args[0]));
        assert(eval(fuel, s, full, pos, env, args[0]) == (s, pos, Ok::<ValueV, FaultV>(plain_value(s.heap, env, args[0]))));
        assert(seq![plain_value(s.heap, env, args[0])] + Seq::new(rest.len(), |i: int| plain_value(s.heap, env, rest[i])) =~= Seq::new(
            args.len(),
            |i: int| plain_value(s.heap, env, args[i]),
        ));
    } else {
        assert(Seq::new(args.len(), |i: int| plain_value(s.heap, env, args[i])) =~= Seq::<ValueV>::empty());
    }
}

proof fn lemma_bind_keeps_other_names(h: Seq<ScopeV>, env: nat, params: Seq<Token>, vals: Seq<ValueV>, from: nat, name: Seq<char>)
    requires
        env < h.len(),
        forall|i: int| 0 <= i < params.len() ==> (#[trigger] params[i]).lexeme@ != name,
    ensures
        lookup(bind(h, env, params, vals), from, name) == lookup(h, from, name),
    decreases params.len(),
{
    if params.len() > 0 && vals.len() > 0 {
        let rest = params.subrange(1, params.len() as int);
        assert(params[0].lexeme@ != name);
        crate::environment::law_define_keeps_other_names(h, env, params[0].lexeme@, vals[0], from, name);
        assert forall|i: int| 0 <= i < rest.len() implies (#[trigger] rest[i]).lexeme@ != name by {
            assert(rest[i] == params[i + 1]);
        }
        lemma_bind_keeps_other_names(define(h, env, params[0].lexeme@, vals[0]), env, rest, vals.subrange(1, vals.len() as int), from, name);
    }
}

/// Binding parameters with distinct names: looking the `i`-th parameter up
/// in the scope gives the `i`-th value.
pub proof fn law_bind_in_order(h: Seq<ScopeV>, env: nat, params: Seq<Token>, vals: Seq<ValueV>)
    requires
        env < h.len(),
        !h[env as int].borrowed,
        params.len() == vals.len(),
        forall|i: int, j: int| 0 <= i < j < params.len() ==> (#[trigger] params[i]).lexeme@ != (#[trigger] params[j]).lexeme@,
    ensures
        forall|i: int| 0 <= i < params.len() ==> lookup(bind(h, env, params, vals), env, (#[trigger] params[i]).lexeme@) == Lookup::Found(
            vals[i],
        ),
    decreases params.len(),
{
    if params.len() > 0 {
        let h1 = define(h, env, params[0].lexeme@, vals[0]);
        let ps = params.subrange(1, params.len() as int);
        let vs = vals.subrange(1, vals.len() as int);
        assert forall|i: int, j: int| 0 <= i < j < ps.len() implies (#[trigger] ps[i]).lexeme@ != (#[trigger] ps[j]).lexeme@ by {
            assert(ps[i] == params[i + 1] && ps[j] == params[j + 1]);
        }
        assert(h1[env as int].borrowed == h[env as int].borrowed);
        law_bind_in_order(h1, env, ps, vs);
        law_get_after_define(h, env, params[0].lexeme@, vals[0]);
        assert forall|i: int| 0 <= i < ps.len() implies (#[trigger] ps[i]).lexeme@ != params[0].lexeme@ by {
            assert(ps[i] == params[i + 1]);
        }
        lemma_bind_keeps_other_names(h1, env, ps, vs, env, params[0].lexeme@);
        assert forall|i: int| 0 <= i < params.len() implies lookup(bind(h, env, params, vals), env, (#[trigger] params[i]).lexeme@)
            == Lookup::Found(vals[i]) by {
            if i > 0 {
                assert(params[i] == ps[i - 1]);
                assert(vals[i] == vs[i - 1]);
            }
        }
    }
}

/// Calling a function literal on arguments that are literals or defined
/// variables runs its body in a new scope, nested in the caller's, where the
/// `i`-th parameter holds the value of the `i`-th argument.
pub proof fn law_call_binds_arguments_in_order(
    fuel: nat,
    s: State,
    full: Seq<Answer>,
    pos: nat,
    env: nat,
    params: Seq<Token>,
    body: Seq<StmtV>,
    paren: Token,
    args: Seq<ExprV>,
)
    requires
        fuel > 0,
        env < s.heap.len(),
        params.len() == args.len(),
        forall|i: int, j: int| 0 <= i < j < params.len() ==> (#[trigger] params[i]).lexeme@ != (#[trigger] params[j]).lexeme@,
        forall|i: int| 0 <= i < args.len() ==> is_plain(s.heap, env, #[trigger] args[i]),
    ensures
        ({
            let b = s.heap.len();
            let vals = Seq::new(args.len(), |i: int| plain_value(s.heap, env, args[i]));
            let h = bind(s.heap.push(fresh_scope(Some(env))), b, params, vals);
            &&& eval(fuel, s, full, pos, env, ExprV::Call(Box::new(ExprV::Fun(params, body)), paren, args)) == call_body(
                (fuel - 1) as nat,
                with_heap(s, h),
                full,
                pos,
                b,
                body,
            )
            &&& h[b as int].enclosing == Some(env)
            &&& forall|i: int| 0 <= i < params.len() ==> lookup(h, b, (#[trigger] params[i]).lexeme@) == Lookup::Found(plain_value(s.heap, env, args[i]))
        }),
{
    let b = s.heap.len();
    let vals = Seq::new(args.len(), |i: int| plain_value(s.heap, env, args[i]));
    let h0 = s.heap.push(fresh_scope(Some(env)));
    law_arguments_in_order(fuel, s, full, pos, env, args);
    assert(eval_args(fuel, s, full, pos, env, args) == (s, pos, Ok::<Seq<ValueV>, FaultV>(vals)));
    assert(eval(fuel, s, full, pos, env, ExprV::Fun(params, body)) == (s, pos, Ok::<ValueV, FaultV>(ValueV::Fun(params, body, env))));
    law_bind_in_order(h0, b, params, vals);
    lemma_bind_touches_one(h0, b, params, vals);
    let h = bind(h0, b, params, vals);
    assert forall|i: int| 0 <= i < params.len() implies lookup(h, b, (#[trigger] params[i]).lexeme@) == Lookup::Found(
        plain_value(s.heap, env, args[i]),
    ) by {
        assert(vals[i] == plain_value(s.heap, env, args[i]));
    }
}

/// `and` and `or` on two booleans follow their truth tables.
pub proof fn law_logic_truth_tables(fuel: nat, s: State, full: Seq<Answer>, pos: nat, env: nat, a: bool, op: Token, b: bool)
    requires
        op.token_type == TokenType::And || op.token_type == TokenType::Or,
    ensures
        eval(fuel, s, full, pos, env, binary_of(ExprV::Literal(Literal::Boolean(a)), op, ExprV::Literal(Literal::Boolean(b)))) == (
            s,
            pos,
            Ok::<ValueV, FaultV>(ValueV::Boolean(if op.token_type == TokenType::And { a && b } else { a || b })),
        ),
{
    assert(eval(fuel, s, full, pos, env, ExprV::Literal(Literal::Boolean(a))) == (s, pos, Ok::<ValueV, FaultV>(ValueV::Boolean(a))));
    assert(eval(fuel, s, full, pos, env, ExprV::Literal(Literal::Boolean(b))) == (s, pos, Ok::<ValueV, FaultV>(ValueV::Boolean(b))));
}

/// `!` negates a boolean; unary `-` flips the sign of a number and nothing
/// else, so negating twice gives the number back.
pub proof fn law_unary_operators(fuel: nat, s: State, full: Seq<Answer>, pos: nat, env: nat, bang: Token, minus: Token, b: bool, a: u64)
    requires
        bang.token_type == TokenType::Bang,
        minus.token_type == TokenType::Minus,
    ensures
        eval(fuel, s, full, pos, env, ExprV::Unary(bang, Box::new(ExprV::Literal(Literal::Boolean(b))))) == (
            s,
            pos,
            Ok::<ValueV, FaultV>(ValueV::Boolean(!b)),
        ),
        eval(fuel, s, full, pos, env, ExprV::Unary(minus, Box::new(number_literal(a)))) matches (_, _, Ok(ValueV::Number(n))) && n != a && (n
            & SIGN_BIT) != (a & SIGN_BIT) && (n & !SIGN_BIT) == (a & !SIGN_BIT),
        eval(fuel, s, full, pos, env, ExprV::Unary(minus, Box::new(ExprV::Unary(minus, Box::new(number_literal(a))))))
            == (s, pos, Ok::<ValueV, FaultV>(ValueV::Number(a))),
{
    assert(eval(fuel, s, full, pos, env, ExprV::Literal(Literal::Boolean(b))) == (s, pos, Ok::<ValueV, FaultV>(ValueV::Boolean(b))));
    assert(eval(fuel, s, full, pos, env, number_literal(a)) == (s, pos, Ok::<ValueV, FaultV>(ValueV::Number(a))));
    let inner = ExprV::Unary(minus, Box::new(number_literal(a)));
    assert(eval(fuel, s, full, pos, env, inner) == (s, pos, Ok::<ValueV, FaultV>(ValueV::Number(negated(a)))));
    assert((a ^ 0x8000_0000_0000_0000u64) ^ 0x8000_0000_0000_0000u64 == a) by (bit_vector);
    assert((a ^ 0x8000_0000_0000_0000u64) != a) by (bit_vector);
    assert(((a ^ 0x8000_0000_0000_0000u64) & 0x8000_0000_0000_0000u64) != (a & 0x8000_0000_0000_0000u64)) by (bit_vector);
    assert(((a ^ 0x8000_0000_0000_0000u64) & !0x8000_0000_0000_0000u64) == (a & !0x8000_0000_0000_0000u64)) by (bit_vector);
}

/// A statement that fails ends the program: the statements after it do not
/// run.
pub proof fn law_error_ends_program(fuel: nat, s: State, full: Seq<Answer>, pos: nat, env: nat, sts: Seq<StmtV>)
    requires
        sts.len() > 0,
        exec(fuel, s, full, pos, env, sts[0]).2 matches Err(FlowV::Fault(_)),
    ensures
        interpret_from(fuel, s, full, pos, env, sts) == (
            exec(fuel, s, full, pos, env, sts[0]).0,
            exec(fuel, s, full, pos, env, sts[0]).1,
            Err::<(), FaultV>(exec(fuel, s, full, pos, env, sts[0]).2->Err_0->Fault_0),
        ),
{
}

/// `!=` gives the negation of what `==` gives on the same operands, and
/// fails where `==` fails, in the same way.
pub proof fn law_bang_equal_negates(
    fuel: nat,
    s: State,
    full: Seq<Answer>,
    pos: nat,
    env: nat,
    left: ExprV,
    eq: Token,
    ne: Token,
    right: ExprV,
)
    requires
        eq.token_type == TokenType::EqualEqual,
        ne.token_type == TokenType::BangEqual,
    ensures
        ({
            let a = eval(fuel, s, full, pos, env, ExprV::Binary(Box::new(left), eq, Box::new(right)));
            let b = eval(fuel, s, full, pos, env, ExprV::Binary(Box::new(left), ne, Box::new(right)));
            &&& a.0 == b.0 && a.1 == b.1
            &&& a.2 matches Ok(ValueV::Boolean(c)) ==> b.2 == Ok::<ValueV, FaultV>(ValueV::Boolean(!c))
            &&& a.2 is Err ==> b.2 == a.2
        }),
{
}

/// An operand of `==` or `!=` that fails makes the comparison fail with its
/// error: the left one first, and the right one only once the left one has
/// a value.
pub proof fn law_equality_passes_errors_on(
    fuel: nat,
    s: State,
    full: Seq<Answer>,
    pos: nat,
    env: nat,
    left: ExprV,
    op: Token,
    right: ExprV,
)
    requires
        op.token_type == TokenType::EqualEqual || op.token_type == TokenType::BangEqual,
    ensures
        ({
            let e = ExprV::Binary(Box::new(left), op, Box::new(right));
            let (s1, p1, rl) = eval(fuel, s, full, pos, env, left);
            let (s2, p2, rr) = eval(fuel, s1, full, p1, env, right);
            &&& rl is Err ==> eval(fuel, s, full, pos, env, e) == (s1, p1, rl)
            &&& (rl is Ok && rr is Err) ==> eval(fuel, s, full, pos, env, e) == (s2, p2, rr)
        }),
{
}

/// There are no truthy or falsy values: `!`, `and`, `or` and `if` fail with
/// a runtime error on an operand that evaluates to a value that is not a
/// boolean.
pub proof fn law_no_truthiness(
    fuel: nat,
    s: State,
    full: Seq<Answer>,
    pos: nat,
    env: nat,
    e: ExprV,
    op: Token,
    right: ExprV,
    keyword: Token,
    consq: StmtV,
    altern: Option<Box<StmtV>>,
)
    ensures
        ({
            let (s1, p1, r) = eval(fuel, s, full, pos, env, e);
            (r is Ok && !(r->Ok_0 is Boolean)) ==> {
                &&& op.token_type == TokenType::Bang ==> eval(fuel, s, full, pos, env, ExprV::Unary(op, Box::new(e))) == (
                    s1,
                    p1,
                    Err::<ValueV, FaultV>(FaultV::Error(op, "Expected type Value::Boolean for ! operator"@)),
                )
                &&& (op.token_type == TokenType::Or || op.token_type == TokenType::And) ==> eval(
                    fuel,
                    s,
                    full,
                    pos,
                    env,
                    ExprV::Binary(Box::new(e), op, Box::new(right)),
                ) == (s1, p1, Err::<ValueV, FaultV>(logic_error(op)))
                &&& exec(fuel, s, full, pos, env, StmtV::If(keyword, e, Box::new(consq), altern)) == (
                    s1,
                    p1,
                    Err::<(), FlowV>(FlowV::Fault(FaultV::Error(keyword, "Expect 'if' conditional to evaluate to a boolean"@))),
                )
            }
        }),
{
}

/// A statement that completes, or a `return` at the top level, lets the
/// program go on with the next statement, from the state it left.
pub proof fn law_program_goes_on(fuel: nat, s: State, full: Seq<Answer>, pos: nat, env: nat, sts: Seq<StmtV>)
    requires
        sts.len() > 0,
        !(exec(fuel, s, full, pos, env, sts[0]).2 matches Err(FlowV::Fault(_))),
    ensures
        interpret_from(fuel, s, full, pos, env, sts) == interpret_from(
            fuel,
            exec(fuel, s, full, pos, env, sts[0]).0,
            full,
            exec(fuel, s, full, pos, env, sts[0]).1,
            env,
            sts.drop_first(),
        ),
{
    assert(sts.drop_first() =~= sts.subrange(1, sts.len() as int));
}

/// Running `a` and then `b` in one environment is running `a + b`: `b`
/// starts from the state that `a` left, unless `a` failed, and then `b`
/// does not run.
pub proof fn law_program_in_parts(fuel: nat, s: State, full: Seq<Answer>, pos: nat, env: nat, a: Seq<StmtV>, b: Seq<StmtV>)
    ensures
        interpret_from(fuel, s, full, pos, env, a + b) == if interpret_from(fuel, s, full, pos, env, a).2 is Ok {
            interpret_from(fuel, interpret_from(fuel, s, full, pos, env, a).0, full, interpret_from(fuel, s, full, pos, env, a).1, env, b)
        } else {
            interpret_from(fuel, s, full, pos, env, a)
        },
    decreases a.len(),
{
    if a.len() == 0 {
        assert(a + b =~= b);
    } else {
        let (s1, p1, r) = exec(fuel, s, full, pos, env, a[0]);
        assert((a + b)[0] == a[0]);
        assert((a + b).subrange(1, (a + b).len() as int) =~= a.subrange(1, a.len() as int) + b);
        law_program_in_parts(fuel, s1, full, p1, env, a.subrange(1, a.len() as int), b);
    }
}

/// The condition of a `while` decides each iteration: an error in it ends
/// the loop with that error, `false` ends the loop, and `true` runs the body
/// and then the loop again; a value that is not a boolean goes no further.
pub proof fn law_while_condition(fuel: nat, s: State, full: Seq<Answer>, pos: nat, env: nat, condition: ExprV, body: StmtV)
    requires
        fuel > 0,
    ensures
        ({
            let w = StmtV::While(condition, Box::new(body));
            let (s1, p1, r) = eval(fuel, s, full, pos, env, condition);
            &&& r matches Err(f) ==> exec(fuel, s, full, pos, env, w) == (s1, p1, Err::<(), FlowV>(FlowV::Fault(f)))
            &&& r == Ok::<ValueV, FaultV>(ValueV::Boolean(false)) ==> exec(fuel, s, full, pos, env, w) == (s1, p1, Ok::<(), FlowV>(()))
            &&& r == Ok::<ValueV, FaultV>(ValueV::Boolean(true)) ==> exec(fuel, s, full, pos, env, w) == {
                let (s2, p2, r2) = exec(fuel, s1, full, p1, env, body);
                if r2 is Ok {
                    exec_while((fuel - 1) as nat, s2, full, p2, env, w)
                } else {
                    (s2, p2, r2)
                }
            }
            &&& (r is Ok && !(r->Ok_0 is Boolean)) ==> exec(fuel, s, full, pos, env, w).2 matches Err(FlowV::Fault(FaultV::Halt(_)))
        }),
{
    let w = StmtV::While(condition, Box::new(body));
    assert(exec(fuel, s, full, pos, env, w) == exec_while(fuel, s, full, pos, env, w));
    let (s1, p1, r) = eval(fuel, s, full, pos, env, condition);
    if r == Ok::<ValueV, FaultV>(ValueV::Boolean(true)) {
        let (s2, p2, r2) = exec(fuel, s1, full, p1, env, body);
        assert(exec_while(fuel, s, full, pos, env, w) == if r2 is Ok {
            exec_while((fuel - 1) as nat, s2, full, p2, env, w)
        } else {
            (s2, p2, r2)
        });
    }
}

proof fn lemma_bind_touches_one(h: Seq<ScopeV>, env: nat, params: Seq<Token>, vals: Seq<ValueV>)
    requires
        env < h.len(),
    ensures
        bind(h, env, params, vals).len() == h.len(),
        forall|j: int| 0 <= j < h.len() && j != env ==> #[trigger] bind(h, env, params, vals)[j] == h[j],
        bind(h, env, params, vals)[env as int].enclosing == h[env as int].enclosing,
        bind(h, env, params, vals)[env as int].borrowed == h[env as int].borrowed,
    decreases params.len(),
{
    if params.len() > 0 && vals.len() > 0 {
        lemma_bind_touches_one(
            define(h, env, params[0].lexeme@, vals[0]),
            env,
            params.subrange(1, params.len() as int),
            vals.subrange(1, vals.len() as int),
        );
    }
}

/// A call binds its parameters in a new environment of its own, nested in
/// the environment the function was made in: every environment that
/// existed before the call, the caller's and the function's among them, is
/// left as it was.
pub proof fn law_parameters_bound_in_new_scope(h: Seq<ScopeV>, fenv: nat, params: Seq<Token>, vals: Seq<ValueV>)
    ensures
        ({
            let h2 = bind(h.push(fresh_scope(Some(fenv))), h.len(), params, vals);
            &&& h2.len() == h.len() + 1
            &&& forall|j: int| 0 <= j < h.len() ==> #[trigger] h2[j] == h[j]
            &&& h2[h.len() as int].enclosing == Some(fenv)
        }),
{
    let h1 = h.push(fresh_scope(Some(fenv)));
    lemma_bind_touches_one(h1, h.len(), params, vals);
    assert forall|j: int| 0 <= j < h.len() implies #[trigger] bind(h1, h.len(), params, vals)[j] == h[j] by {
        assert(h1[j] == h[j]);
    }
}

/// Whatever an expression does, every environment keeps its variables in
/// order of name (as an ordered map keeps its keys), so that no name occurs
/// twice in one; and no environment goes away.
pub proof fn law_eval_keeps_names_in_order(fuel: nat, s: State, full: Seq<Answer>, pos: nat, env: nat, e: ExprV)
    requires
        heap_in_order(s.heap),
    ensures
        heap_in_order(eval(fuel, s, full, pos, env, e).0.heap),
        s.heap.len() <= eval(fuel, s, full, pos, env, e).0.heap.len(),
    decreases fuel, e, 0nat,
{
    match e {
        ExprV::Literal(_) => {},
        ExprV::Grouping(inner) => law_eval_keeps_names_in_order(fuel, s, full, pos, env, *inner),
        ExprV::Unary(_, right) => law_eval_keeps_names_in_order(fuel, s, full, pos, env, *right),
        ExprV::Binary(left, op, right) => {
            law_eval_keeps_names_in_order(fuel, s, full, pos, env, *left);
            let (s1, p1, rl) = eval(fuel, s, full, pos, env, *left);
            law_eval_keeps_names_in_order(fuel, s1, full, p1, env, *right);
        },
        ExprV::Variable(_) => {},
        ExprV::Assign(name, value) => {
            law_eval_keeps_names_in_order(fuel, s, full, pos, env, *value);
            let (s1, p1, r) = eval(fuel, s, full, pos, env, *value);
            if let Ok(v) = r {
                lemma_assign_heap_in_order(s1.heap, env, name.lexeme@, v);
                lemma_assign_shape(s1.heap, env, name.lexeme@, v);
            }
        },
        ExprV::Fun(_, _) => {},
        ExprV::Call(fun, paren, args) => {
            law_eval_keeps_names_in_order(fuel, s, full, pos, env, *fun);
            let (s1, p1, rf) = eval(fuel, s, full, pos, env, *fun);
            if let Ok(ValueV::Fun(params, body, fenv)) = rf {
                if params.len() == args.len() {
                    law_eval_args_keeps_names_in_order(fuel, s1, full, p1, env, args);
                    let (s2, p2, ra) = eval_args(fuel, s1, full, p1, env, args);
                    if let Ok(vals) = ra {
                        if fenv < s2.heap.len() && fuel > 0 {
                            let b = s2.heap.len();
                            lemma_push_fresh_in_order(s2.heap, Some(fenv));
                            lemma_bind_in_order(s2.heap.push(fresh_scope(Some(fenv))), b, params, vals);
                            let h3 = bind(s2.heap.push(fresh_scope(Some(fenv))), b, params, vals);
                            law_call_body_keeps_names_in_order((fuel - 1) as nat, with_heap(s2, h3), full, p2, b, body);
                        }
                    }
                }
            }
        },
    }
}

pub proof fn law_eval_args_keeps_names_in_order(fuel: nat, s: State, full: Seq<Answer>, pos: nat, env: nat, args: Seq<ExprV>)
    requires
        heap_in_order(s.heap),
    ensures
        heap_in_order(eval_args(fuel, s, full, pos, env, args).0.heap),
        s.heap.len() <= eval_args(fuel, s, full, pos, env, args).0.heap.len(),
    decreases fuel, args, 0nat,
{
    if args.len() > 0 {
        law_eval_keeps_names_in_order(fuel, s, full, pos, env, args[0]);
        let (s1, p1, r) = eval(fuel, s, full, pos, env, args[0]);
        if r is Ok {
            law_eval_args_keeps_names_in_order(fuel, s1, full, p1, env, args.subrange(1, args.len() as int));
        }
    }
}

proof fn lemma_bind_in_order(h: Seq<ScopeV>, env: nat, params: Seq<Token>, vals: Seq<ValueV>)
    requires
        env < h.len(),
        heap_in_order(h),
    ensures
        heap_in_order(bind(h, env, params, vals)),
        bind(h, env, params, vals).len() == h.len(),
    decreases params.len(),
{
    if params.len() > 0 && vals.len() > 0 {
        lemma_define_heap_in_order(h, env, params[0].lexeme@, vals[0]);
        lemma_bind_in_order(
            define(h, env, params[0].lexeme@, vals[0]),
            env,
            params.subrange(1, params.len() as int),
            vals.subrange(1, vals.len() as int),
        );
    }
}

pub proof fn law_call_body_keeps_names_in_order(fuel: nat, s: State, full: Seq<Answer>, pos: nat, fenv: nat, body: Seq<StmtV>)
    requires
        heap_in_order(s.heap),
    ensures
        heap_in_order(call_body(fuel, s, full, pos, fenv, body).0.heap),
        s.heap.len() <= call_body(fuel, s, full, pos, fenv, body).0.heap.len(),
    decreases fuel, body, 0nat,
{
    if body.len() > 0 {
        law_exec_keeps_names_in_order(fuel, s, full, pos, fenv, body[0]);
        let (s1, p1, r) = exec(fuel, s, full, pos, fenv, body[0]);
        law_call_body_keeps_names_in_order(fuel, s1, full, p1, fenv, body.subrange(1, body.len() as int));
    }
}

pub proof fn law_exec_keeps_names_in_order(fuel: nat, s: State, full: Seq<Answer>, pos: nat, env: nat, st: StmtV)
    requires
        heap_in_order(s.heap),
    ensures
        heap_in_order(exec(fuel, s, full, pos, env, st).0.heap),
        s.heap.len() <= exec(fuel, s, full, pos, env, st).0.heap.len(),
    decreases fuel, st, 1nat,
{
    match st {
        StmtV::Expression(e) => law_eval_keeps_names_in_order(fuel, s, full, pos, env, e),
        StmtV::Print(e) => law_eval_keeps_names_in_order(fuel, s, full, pos, env, e),
        StmtV::If(_, condition, consq, altern) => {
            law_eval_keeps_names_in_order(fuel, s, full, pos, env, condition);
            let (s1, p1, r) = eval(fuel, s, full, pos, env, condition);
            law_exec_keeps_names_in_order(fuel, s1, full, p1, env, *consq);
            if let Some(a) = altern {
                law_exec_keeps_names_in_order(fuel, s1, full, p1, env, *a);
            }
        },
        StmtV::Var(name, initializer) => {
            law_eval_keeps_names_in_order(fuel, s, full, pos, env, initializer);
            let (s1, p1, r) = eval(fuel, s, full, pos, env, initializer);
            if let Ok(v) = r {
                if env < s1.heap.len() {
                    lemma_define_heap_in_order(s1.heap, env, name.lexeme@, v);
                }
            }
        },
        StmtV::Block(statements) => {
            lemma_push_fresh_in_order(s.heap, Some(env));
            law_exec_list_keeps_names_in_order(
                fuel,
                with_heap(s, s.heap.push(fresh_scope(Some(env)))),
                full,
                pos,
                s.heap.len(),
                statements,
            );
        },
        StmtV::While(_, _) => law_exec_while_keeps_names_in_order(fuel, s, full, pos, env, st),
        StmtV::Fun(name, params, body) => {
            if env < s.heap.len() {
                lemma_define_heap_in_order(s.heap, env, name.lexeme@, ValueV::Fun(params, body, env));
            }
        },
        StmtV::Return(_, value) => {
            if let Some(e) = value {
                law_eval_keeps_names_in_order(fuel, s, full, pos, env, e);
            }
        },
    }
}

pub proof fn law_exec_list_keeps_names_in_order(fuel: nat, s: State, full: Seq<Answer>, pos: nat, env: nat, sts: Seq<StmtV>)
    requires
        heap_in_order(s.heap),
    ensures
        heap_in_order(exec_list(fuel, s, full, pos, env, sts).0.heap),
        s.heap.len() <= exec_list(fuel, s, full, pos, env, sts).0.heap.len(),
    decreases fuel, sts, 0nat,
{
    if sts.len() > 0 {
        law_exec_keeps_names_in_order(fuel, s, full, pos, env, sts[0]);
        let (s1, p1, r) = exec(fuel, s, full, pos, env, sts[0]);
        law_exec_list_keeps_names_in_order(fuel, s1, full, p1, env, sts.subrange(1, sts.len() as int));
    }
}

pub proof fn law_exec_while_keeps_names_in_order(fuel: nat, s: State, full: Seq<Answer>, pos: nat, env: nat, w: StmtV)
    requires
        heap_in_order(s.heap),
    ensures
        heap_in_order(exec_while(fuel, s, full, pos, env, w).0.heap),
        s.heap.len() <= exec_while(fuel, s, full, pos, env, w).0.heap.len(),
    decreases fuel, w, 0nat,
{
    if let StmtV::While(condition, body) = w {
        if fuel > 0 {
            law_eval_keeps_names_in_order(fuel, s, full, pos, env, condition);
            let (s1, p1, r) = eval(fuel, s, full, pos, env, condition);
            law_exec_keeps_names_in_order(fuel, s1, full, p1, env, *body);
            let (s2, p2, r2) = exec(fuel, s1, full, p1, env, *body);
            law_exec_while_keeps_names_in_order((fuel - 1) as nat, s2, full, p2, env, w);
        }
    }
}

/// Running the statements of a program keeps every environment's variables
/// in order of name; no environment goes away.
pub proof fn law_interpret_keeps_names_in_order(fuel: nat, s: State, full: Seq<Answer>, pos: nat, env: nat, sts: Seq<StmtV>)
    requires
        heap_in_order(s.heap),
    ensures
        heap_in_order(interpret_from(fuel, s, full, pos, env, sts).0.heap),
        s.heap.len() <= interpret_from(fuel, s, full, pos, env, sts).0.heap.len(),
    decreases sts.len(),
{
    if sts.len() > 0 {
        law_exec_keeps_names_in_order(fuel, s, full, pos, env, sts[0]);
        let (s1, p1, r) = exec(fuel, s, full, pos, env, sts[0]);
        law_interpret_keeps_names_in_order(fuel, s1, full, p1, env, sts.subrange(1, sts.len() as int));
    }
}

/// Running a program keeps every environment's variables in order of name.
pub proof fn law_program_keeps_names_in_order(s: State, full: Seq<Answer>, pos: nat, sts: Seq<StmtV>)
    requires
        heap_in_order(s.heap),
    ensures
        heap_in_order(program(s, full, pos, sts).0.heap),
{
    lemma_push_fresh_in_order(s.heap, None);
    law_interpret_keeps_names_in_order(FUEL as nat, with_heap(s, s.heap.push(fresh_scope(None))), full, pos, s.heap.len(), sts);
}

/// The fuel a program runs with: no program nests calls or runs loops that
/// long.
pub const FUEL: u64 = 0xffff_ffff_ffff_ffff;

/// Runs a program from state `s`: a new outermost environment is made and
/// the statements run in it.
pub open spec fn program(s: State, full: Seq<Answer>, pos: nat, sts: Seq<StmtV>) -> (State, nat, Result<(), FaultV>) {
    interpret_from(FUEL as nat, with_heap(s, s.heap.push(fresh_scope(None))), full, pos, s.heap.len(), sts)
}

/// Whether evaluating `e` from state `s`, after the answers `log`, stops
/// short of a result or an error for some answers that the number backend
/// `n` can give.
pub open spec fn eval_may_halt<N: Numerics>(n: &N, fuel: nat, s: State, log: Seq<Answer>, env: nat, e: ExprV) -> bool {
    exists|full: Seq<Answer>|
        extends(full, log) && answered_by(n, full) && #[trigger] eval(fuel, s, full, log.len(), env, e).2 matches Err(FaultV::Halt(_))
}

/// Whether executing `st` stops short of completing, returning or failing
/// with an error for some answers that the number backend `n` can give.
pub open spec fn exec_may_halt<N: Numerics>(n: &N, fuel: nat, s: State, log: Seq<Answer>, env: nat, st: StmtV) -> bool {
    exists|full: Seq<Answer>|
        extends(full, log) && answered_by(n, full) && #[trigger] exec(fuel, s, full, log.len(), env, st).2 matches Err(
            FlowV::Fault(FaultV::Halt(_)),
        )
}

/// Whether running the program `sts` stops short of its end or an error for
/// some answers that the number backend `n` can give.
pub open spec fn program_may_halt<N: Numerics>(n: &N, s: State, log: Seq<Answer>, sts: Seq<StmtV>) -> bool {
    exists|full: Seq<Answer>|
        extends(full, log) && answered_by(n, full) && #[trigger] program(s, full, log.len(), sts).2 matches Err(FaultV::Halt(_))
}

// ---------------------------------------------------------------------------
// The interpreter
// ---------------------------------------------------------------------------

/// Why a statement did not complete normally: an error, or a `return`
/// carrying its value up the call stack.
#[derive(Debug, PartialEq)]
pub enum ExecuteError {
    RuntimeError(RuntimeError),
    ControlFlow(Value),
}

impl From<RuntimeError> for ExecuteError {
    fn from(err: RuntimeError) -> (r: Self) {
        ExecuteError::RuntimeError(err)
    }
}

impl vstd::std_specs::convert::FromSpecImpl<RuntimeError> for ExecuteError {
    open spec fn obeys_from_spec() -> bool {
        true
    }

    open spec fn from_spec(v: RuntimeError) -> Self {
        ExecuteError::RuntimeError(v)
    }
}

pub open spec fn error_outcome(r: Result<Value, RuntimeError>) -> Result<ValueV, FaultV> {
    match r {
        Ok(v) => Ok(v.model()),
        Err(e) => Err(FaultV::Error(e.token, e.message@)),
    }
}

pub open spec fn execute_outcome(r: Result<(), ExecuteError>) -> Result<(), FlowV> {
    match r {
        Ok(()) => Ok(()),
        Err(ExecuteError::RuntimeError(e)) => Err(FlowV::Fault(FaultV::Error(e.token, e.message@))),
        Err(ExecuteError::ControlFlow(v)) => Err(FlowV::Return(v.model())),
    }
}

pub open spec fn program_outcome(r: Result<(), Fault>) -> Result<(), FaultV> {
    match r {
        Ok(()) => Ok(()),
        Err(f) => Err(f.model()),
    }
}

pub open spec fn interpret_outcome(r: Result<(), RuntimeError>) -> Result<(), FaultV> {
    match r {
        Ok(()) => Ok(()),
        Err(e) => Err(FaultV::Error(e.token, e.message@)),
    }
}

/// Why an evaluation failed.
#[derive(Debug, PartialEq)]
pub enum Fault {
    Error(RuntimeError),
    Halt(Halt),
}

/// Why a statement did not complete normally.
#[derive(Debug, PartialEq)]
pub enum Flow {
    Fault(Fault),
    Return(Value),
}

impl Fault {
    pub open spec fn model(&self) -> FaultV {
        match self {
            Fault::Error(e) => FaultV::Error(e.token, e.message@),
            Fault::Halt(h) => FaultV::Halt(*h),
        }
    }
}

impl Flow {
    pub open spec fn model(&self) -> FlowV {
        match self {
            Flow::Fault(f) => FlowV::Fault(f.model()),
            Flow::Return(v) => FlowV::Return(v.model()),
        }
    }
}

pub open spec fn value_outcome(r: Result<Value, Fault>) -> Result<ValueV, FaultV> {
    match r {
        Ok(v) => Ok(v.model()),
        Err(f) => Err(f.model()),
    }
}

pub open spec fn flow_outcome(r: Result<(), Flow>) -> Result<(), FlowV> {
    match r {
        Ok(()) => Ok(()),
        Err(f) => Err(f.model()),
    }
}

/// The models of a list of values.
pub open spec fn values_model(v: Seq<Value>) -> Seq<ValueV> {
    v.map_values(|x: Value| x.model())
}

pub open spec fn values_outcome(r: Result<Vec<Value>, Fault>) -> Result<Seq<ValueV>, FaultV> {
    match r {
        Ok(v) => Ok(values_model(v@)),
        Err(f) => Err(f.model()),
    }
}

/// `e` evaluates from state `s0` with answer log `l0` to state `s1`, log `l1`
/// and result `r`, whatever answers come after `l1`.
pub open spec fn runs_eval(
    fuel: nat,
    s0: State,
    l0: Seq<Answer>,
    env: nat,
    e: ExprV,
    s1: State,
    l1: Seq<Answer>,
    r: Result<ValueV, FaultV>,
) -> bool {
    &&& extends(l1, l0)
    &&& forall|full: Seq<Answer>| extends(full, l1) ==> #[trigger] eval(fuel, s0, full, l0.len(), env, e) == (s1, l1.len(), r)
}

pub open spec fn runs_eval_args(
    fuel: nat,
    s0: State,
    l0: Seq<Answer>,
    env: nat,
    args: Seq<ExprV>,
    s1: State,
    l1: Seq<Answer>,
    r: Result<Seq<ValueV>, FaultV>,
) -> bool {
    &&& extends(l1, l0)
    &&& forall|full: Seq<Answer>| extends(full, l1) ==> #[trigger] eval_args(fuel, s0, full, l0.len(), env, args) == (s1, l1.len(), r)
}

pub open spec fn runs_call_body(
    fuel: nat,
    s0: State,
    l0: Seq<Answer>,
    fenv: nat,
    body: Seq<StmtV>,
    s1: State,
    l1: Seq<Answer>,
    r: Result<ValueV, FaultV>,
) -> bool {
    &&& extends(l1, l0)
    &&& forall|full: Seq<Answer>| extends(full, l1) ==> #[trigger] call_body(fuel, s0, full, l0.len(), fenv, body) == (s1, l1.len(), r)
}

pub open spec fn runs_exec(
    fuel: nat,
    s0: State,
    l0: Seq<Answer>,
    env: nat,
    st: StmtV,
    s1: State,
    l1: Seq<Answer>,
    r: Result<(), FlowV>,
) -> bool {
    &&& extends(l1, l0)
    &&& forall|full: Seq<Answer>| extends(full, l1) ==> #[trigger] exec(fuel, s0, full, l0.len(), env, st) == (s1, l1.len(), r)
}

pub open spec fn runs_exec_list(
    fuel: nat,
    s0: State,
    l0: Seq<Answer>,
    env: nat,
    sts: Seq<StmtV>,
    s1: State,
    l1: Seq<Answer>,
    r: Result<(), FlowV>,
) -> bool {
    &&& extends(l1, l0)
    &&& forall|full: Seq<Answer>| extends(full, l1) ==> #[trigger] exec_list(fuel, s0, full, l0.len(), env, sts) == (s1, l1.len(), r)
}

/// A program state with its own environments, the lines it printed, and the
/// answers the number backend gave so far.
pub struct Interpreter<'a, N: Numerics> {
    backend: Backend<'a, N>,
    heap: Heap,
    output: Vec<String>,
}

pub open spec fn lines_model(v: Seq<String>) -> Seq<Seq<char>> {
    v.map_values(|s: String| s@)
}

impl<'a, N: Numerics> Interpreter<'a, N> {
    /// The number backend.
    pub closed spec fn numbers(&self) -> &'a N {
        self.backend.numbers()
    }

    pub closed spec fn state(&self) -> State {
        State { heap: self.heap@, out: lines_model(self.output@) }
    }

    /// The answers of the number backend so far.
    pub closed spec fn log(&self) -> Seq<Answer> {
        self.backend.log()
    }

    /// Every answer the number backend has given this interpreter is one it
    /// can give.
    pub fn answers_hold(&self)
        ensures
            answered_by(self.numbers(), self.log()),
    {
        self.backend.answers_hold();
    }

    pub fn new(numbers: &'a N) -> (it: Self)
        ensures
            it.state() == (State { heap: Seq::empty(), out: Seq::empty() }),
            it.log() == Seq::<Answer>::empty(),
            it.numbers() == numbers,
    {
        let it = Interpreter { backend: Backend::new(numbers), heap: Heap::new(), output: Vec::new() };
        assert(lines_model(it.output@) =~= Seq::<Seq<char>>::empty());
        it
    }

    /// An interpreter that runs in the environments `heap`, kept from an
    /// earlier run.
    pub fn from_heap(numbers: &'a N, heap: Heap) -> (it: Self)
        ensures
            it.state() == (State { heap: heap@, out: Seq::empty() }),
            it.log() == Seq::<Answer>::empty(),
            it.numbers() == numbers,
    {
        let it = Interpreter { backend: Backend::new(numbers), heap, output: Vec::new() };
        assert(lines_model(it.output@) =~= Seq::<Seq<char>>::empty());
        it
    }

    /// The environments.
    pub fn heap(&self) -> (h: &Heap)
        ensures
            h@ == self.state().heap,
    {
        &self.heap
    }

    /// The lines printed so far.
    pub fn output(&self) -> (o: &Vec<String>)
        ensures
            lines_model(o@) == self.state().out,
    {
        &self.output
    }

    /// Makes a new outermost environment and gives its index.
    pub fn new_top_level(&mut self) -> (env: usize)
        ensures
            final(self).numbers() == old(self).numbers(),
            env == old(self).state().heap.len(),
            final(self).state() == with_heap(old(self).state(), old(self).state().heap.push(fresh_scope(None))),
            final(self).log() == old(self).log(),
    {
        Environment::new_top_level(&mut self.heap)
    }

    /// Asks the number backend for `a op b`.
    fn ask(&mut self, op: NumOp, a: u64, b: u64) -> (r: u64)
        ensures
            final(self).numbers() == old(self).numbers(),
            final(self).state() == old(self).state(),
            final(self).log() == old(self).log().push(Answer::Number(op, a, b, r)),
    {
        self.backend.ask(op, a, b)
    }

    /// The text of `d`, with the numbers written by the number backend.
    fn fill(&mut self, d: &Doc) -> (r: String)
        ensures
            final(self).numbers() == old(self).numbers(),
            final(self).state() == old(self).state(),
            extends(final(self).log(), old(self).log()),
            final(self).log().len() == old(self).log().len() + holes(d@),
            forall|full: Seq<Answer>| extends(full, final(self).log()) ==> #[trigger] fill(d@, full, old(self).log().len()) == Some(r@),
    {
        let ghost l0 = self.log();
        let mut text = String::new();
        let mut i: usize = 0;
        assert(extends(l0, l0)) by {
            assert(l0.take(l0.len() as int) =~= l0);
        }
        while i < d.len()
            invariant
                self.numbers() == old(self).numbers(),
                i <= d@.len(),
                self.state() == old(self).state(),
                l0 == old(self).log(),
                extends(self.log(), l0),
                self.log().len() == l0.len() + holes(d@.take(i as int)),
                forall|full: Seq<Answer>| extends(full, self.log()) ==> #[trigger] fill(d@.take(i as int), full, l0.len()) == Some(text@),
            decreases d@.len() - i,
        {
            let ghost lb = self.log();
            let ghost tb = text@;
            assert(d@.take(i + 1).drop_last() =~= d@.take(i as int));
            match d.piece(i) {
                Piece::Text(s) => {
                    text.append(s.as_str());
                    assert forall|full: Seq<Answer>| extends(full, self.log()) implies #[trigger] fill(d@.take(i + 1), full, l0.len()) == Some(text@) by {
                        assert(fill(d@.take(i as int), full, l0.len()) == Some(tb));
                    }
                },
                Piece::Number(n) => {
                    let s = self.backend.text(*n);
                    let ghost a = Answer::Text(*n, s@);
                    text.append(s.as_str());
                    assert forall|full: Seq<Answer>| extends(full, self.log()) implies #[trigger] fill(d@.take(i + 1), full, l0.len()) == Some(text@) by {
                        lemma_extends_push(full, lb, a);
                        assert(fill(d@.take(i as int), full, l0.len()) == Some(tb));
                    }
                    proof {
                        assert(lb.push(a).take(lb.len() as int) =~= lb);
                        lemma_extends_trans(self.log(), lb, l0);
                    }
                },
            }
            i = i + 1;
        }
        assert(d@.take(d@.len() as int) =~= d@);
        text
    }

    /// A numeric operator applied to two numbers.
    fn numeric(&mut self, op: &Token, a: u64, b: u64) -> (r: Result<Value, Fault>)
        ensures
            final(self).numbers() == old(self).numbers(),
            final(self).state() == old(self).state(),
            extends(final(self).log(), old(self).log()),
            forall|full: Seq<Answer>| extends(full, final(self).log()) ==> #[trigger] numeric(*op, a, b, old(self).state(), full, old(self).log().len())
                == (old(self).state(), final(self).log().len(), value_outcome(r)),
    {
        let ghost l0 = self.log();
        proof {
            lemma_extends_refl(l0);
        }
        let ty = op.token_type;
        let o = if ty == TokenType::Minus {
            NumOp::Difference
        } else if ty == TokenType::Plus {
            NumOp::Sum
        } else if ty == TokenType::Star {
            NumOp::Product
        } else if ty == TokenType::Slash {
            if is_zero_exec(b) {
                return Err(error(op, "Cannot divide by zero"));
            }
            NumOp::Quotient
        } else if ty == TokenType::Greater {
            return Ok(Value::Boolean(less(b, a)));
        } else if ty == TokenType::GreaterEqual {
            return Ok(Value::Boolean(less_equal(b, a)));
        } else if ty == TokenType::Less {
            return Ok(Value::Boolean(less(a, b)));
        } else {
            return Ok(Value::Boolean(less_equal(a, b)));
        };
        let n = self.ask(o, a, b);
        proof {
            lemma_extends_pushed(l0, Answer::Number(o, a, b, n));
            assert forall|full: Seq<Answer>| extends(full, self.log()) implies #[trigger] numeric(*op, a, b, old(self).state(), full, l0.len())
                == (old(self).state(), self.log().len(), value_outcome(Ok::<Value, Fault>(Value::Number(n)))) by {
                lemma_extends_push(full, l0, Answer::Number(o, a, b, n));
            }
        }
        Ok(Value::Number(n))
    }

    /// `==`, or `!=` where `ty` is `BangEqual`, on two values.
    fn compare(&self, ty: TokenType, x: &Value, y: &Value) -> (r: Result<Value, Fault>)
        ensures
            value_outcome(r) == equality_result(self.state().heap, ty, x.model(), y.model()),
    {
        let mut stack: Vec<(usize, usize)> = Vec::new();
        assert(stack_model(stack@) =~= Seq::<(nat, nat)>::empty());
        let depth = eq_depth_exec(self.heap.len());
        match value_equal(&self.heap, x, y, &mut stack, depth) {
            Ok(c) => Ok(Value::Boolean(if ty == TokenType::BangEqual { !c } else { c })),
            Err(Stuck::AlreadyBorrowed) => Err(Fault::Halt(Halt::AlreadyBorrowed)),
            Err(Stuck::Cycle) => Err(Fault::Halt(Halt::Cycle)),
        }
    }

    /// Evaluates an expression in environment `env`.
    #[verifier::rlimit(100)]
    #[verifier::spinoff_prover]
    fn eval_node(&mut self, fuel: u64, env: usize, e: &Expr) -> (r: Result<Value, Fault>)
        requires
            env < old(self).state().heap.len(),
        ensures
            final(self).numbers() == old(self).numbers(),
            old(self).state().heap.len() <= final(self).state().heap.len(),
            runs_eval(fuel as nat, old(self).state(), old(self).log(), env as nat, e.model(), final(self).state(), final(self).log(), value_outcome(r)),
        decreases fuel, e, 3nat, 0nat,
    {
        let ghost s0 = self.state();
        let ghost l0 = self.log();
        proof {
            lemma_extends_refl(l0);
        }
        match e {
            Expr::Literal { value } => {
                let v = match value {
                    Literal::String(s) => Value::String(s.clone()),
                    Literal::Number(n) => Value::Number(*n),
                    Literal::Boolean(b) => Value::Boolean(*b),
                    Literal::Nil => Value::Nil,
                };
                assert(v.model() == lit_value(*value));
                Ok(v)
            },
            Expr::Grouping { expression } => {
                let r = self.eval_node(fuel, env, expression);
                assert forall|full: Seq<Answer>| extends(full, self.log()) implies #[trigger] eval(fuel as nat, s0, full, l0.len(), env as nat, e.model())
                    == (self.state(), self.log().len(), value_outcome(r)) by {
                    assert(eval(fuel as nat, s0, full, l0.len(), env as nat, expression.model()) == (self.state(), self.log().len(), value_outcome(r)));
                }
                r
            },
            Expr::Unary { operator, right } => {
                let r = self.eval_node(fuel, env, right);
                let result = match r {
                    Err(Fault::Halt(h)) => Err(Fault::Halt(h)),
                    other => if operator.token_type == TokenType::Minus {
                        match other {
                            Ok(Value::Number(n)) => Ok(Value::Number(negate(n))),
                            _ => Err(error(operator, "Expected type Value::Number for - operator")),
                        }
                    } else if operator.token_type == TokenType::Bang {
                        match other {
                            Ok(Value::Boolean(b)) => Ok(Value::Boolean(!b)),
                            _ => Err(error(operator, "Expected type Value::Boolean for ! operator")),
                        }
                    } else {
                        Err(Fault::Halt(Halt::Unreachable))
                    },
                };
                assert forall|full: Seq<Answer>| extends(full, self.log()) implies #[trigger] eval(fuel as nat, s0, full, l0.len(), env as nat, e.model())
                    == (self.state(), self.log().len(), value_outcome(result)) by {
                    assert(eval(fuel as nat, s0, full, l0.len(), env as nat, right.model()) == (self.state(), self.log().len(), value_outcome(r)));
                }
                result
            },
            Expr::Binary { .. } => self.eval_binary(fuel, env, e),
            Expr::Variable { name } => {
                let result = match self.heap.get_checked(env, &name.lexeme) {
                    Ok(Some(v)) => Ok(v),
                    Ok(None) => Err(Fault::Error(RuntimeError { token: name.clone(), message: undefined(&name.lexeme) })),
                    Err(_) => Err(Fault::Halt(Halt::AlreadyBorrowed)),
                };
                result
            },
            Expr::Assign { name, value } => {
                let r = self.eval_node(fuel, env, value);
                let ghost s1 = self.state();
                let ghost l1 = self.log();
                let result = match r {
                    Err(f) => Err(f),
                    Ok(v) => {
                        let vc = clone_value(&v);
                        proof {
                            lemma_assign_shape(s1.heap, env as nat, name.lexeme@, v.model());
                        }
                        match self.heap.assign_checked(env, &name.lexeme, vc) {
                            Ok(Some(_)) => Ok(v),
                            Ok(None) => Err(Fault::Error(RuntimeError { token: name.clone(), message: undefined(&name.lexeme) })),
                            Err(_) => Err(Fault::Halt(Halt::AlreadyBorrowed)),
                        }
                    },
                };
                assert forall|full: Seq<Answer>| extends(full, self.log()) implies #[trigger] eval(fuel as nat, s0, full, l0.len(), env as nat, e.model())
                    == (self.state(), self.log().len(), value_outcome(result)) by {
                    assert(eval(fuel as nat, s0, full, l0.len(), env as nat, value.model()) == (s1, l1.len(), value_outcome(r)));
                }
                result
            },
            Expr::Fun { params, body } => Ok(Value::Fun { params: clone_tokens(params), body: clone_stmts(body), environment: env }),
            Expr::Call { .. } => self.eval_call(fuel, env, e),
        }
    }

    /// Evaluates a binary expression.
    #[verifier::rlimit(100)]
    #[verifier::spinoff_prover]
    fn eval_binary(&mut self, fuel: u64, env: usize, e: &Expr) -> (r: Result<Value, Fault>)
        requires
            env < old(self).state().heap.len(),
            e is Binary,
        ensures
            final(self).numbers() == old(self).numbers(),
            old(self).state().heap.len() <= final(self).state().heap.len(),
            runs_eval(fuel as nat, old(self).state(), old(self).log(), env as nat, e.model(), final(self).state(), final(self).log(), value_outcome(r)),
        decreases fuel, e, 2nat, 0nat,
    {
        let ghost s0 = self.state();
        let ghost l0 = self.log();
        proof {
            lemma_extends_refl(l0);
        }
        let Expr::Binary { left, operator, right } = e else {
            return Err(Fault::Halt(Halt::Unreachable));
        };
        let ty = operator.token_type;
        if ty == TokenType::BangEqual || ty == TokenType::EqualEqual {
            let rl = self.eval_node(fuel, env, left);
            let ghost s1 = self.state();
            let ghost l1 = self.log();
            let ghost ol = value_outcome(rl);
            let x = match rl {
                Ok(x) => x,
                Err(f) => {
                    assert forall|full: Seq<Answer>| extends(full, self.log()) implies #[trigger] eval(fuel as nat, s0, full, l0.len(), env as nat, e.model())
                        == (self.state(), self.log().len(), value_outcome(Err::<Value, Fault>(f))) by {
                        assert(eval(fuel as nat, s0, full, l0.len(), env as nat, left.model()) == (s1, l1.len(), ol));
                    }
                    return Err(f);
                },
            };
            let rr = self.eval_node(fuel, env, right);
            let ghost s2 = self.state();
            let ghost l2 = self.log();
            let ghost or = value_outcome(rr);
            let result = match rr {
                Ok(y) => self.compare(ty, &x, &y),
                Err(f) => Err(f),
            };
            assert forall|full: Seq<Answer>| extends(full, self.log()) implies #[trigger] eval(fuel as nat, s0, full, l0.len(), env as nat, e.model())
                == (self.state(), self.log().len(), value_outcome(result)) by {
                lemma_extends_trans(full, l2, l1);
                assert(eval(fuel as nat, s0, full, l0.len(), env as nat, left.model()) == (s1, l1.len(), ol));
                assert(eval(fuel as nat, s1, full, l1.len(), env as nat, right.model()) == (s2, l2.len(), or));
            }
            proof {
                lemma_extends_trans(self.log(), l1, l0);
            }
            result
        } else if ty == TokenType::Or || ty == TokenType::And {
            let rl = self.eval_node(fuel, env, left);
            let ghost s1 = self.state();
            let ghost l1 = self.log();
            let b = match rl {
                Ok(Value::Boolean(b)) => b,
                Ok(_) => {
                    let f = logic_fault(operator);
                    assert forall|full: Seq<Answer>| extends(full, self.log()) implies #[trigger] eval(fuel as nat, s0, full, l0.len(), env as nat, e.model())
                        == (self.state(), self.log().len(), value_outcome(Err::<Value, Fault>(f))) by {
                        assert(eval(fuel as nat, s0, full, l0.len(), env as nat, left.model()) == (s1, l1.len(), value_outcome(rl)));
                    }
                    return Err(f);
                },
                Err(f) => {
                    assert forall|full: Seq<Answer>| extends(full, self.log()) implies #[trigger] eval(fuel as nat, s0, full, l0.len(), env as nat, e.model())
                        == (self.state(), self.log().len(), value_outcome(Err::<Value, Fault>(f))) by {
                        assert(eval(fuel as nat, s0, full, l0.len(), env as nat, left.model()) == (s1, l1.len(), value_outcome(rl)));
                    }
                    return Err(f);
                },
            };
            if (ty == TokenType::Or && !b) || (ty == TokenType::And && b) {
                let rr = self.eval_node(fuel, env, right);
                let ghost s2 = self.state();
                let ghost l2 = self.log();
                let result = match rr {
                    Err(f) => Err(f),
                    Ok(Value::Boolean(c)) => Ok(Value::Boolean(c)),
                    Ok(_) => Err(logic_fault(operator)),
                };
                assert forall|full: Seq<Answer>| extends(full, self.log()) implies #[trigger] eval(fuel as nat, s0, full, l0.len(), env as nat, e.model())
                    == (self.state(), self.log().len(), value_outcome(result)) by {
                    lemma_extends_trans(full, l2, l1);
                    assert(eval(fuel as nat, s0, full, l0.len(), env as nat, left.model()) == (s1, l1.len(), value_outcome(rl)));
                    assert(eval(fuel as nat, s1, full, l1.len(), env as nat, right.model()) == (s2, l2.len(), value_outcome(rr)));
                }
                proof {
                    lemma_extends_trans(self.log(), l1, l0);
                }
                result
            } else {
                assert forall|full: Seq<Answer>| extends(full, self.log()) implies #[trigger] eval(fuel as nat, s0, full, l0.len(), env as nat, e.model())
                    == (self.state(), self.log().len(), value_outcome(Ok::<Value, Fault>(Value::Boolean(b)))) by {
                    assert(eval(fuel as nat, s0, full, l0.len(), env as nat, left.model()) == (s1, l1.len(), value_outcome(rl)));
                }
                Ok(Value::Boolean(b))
            }
        } else if ty == TokenType::Minus || ty == TokenType::Plus || ty == TokenType::Slash || ty == TokenType::Star
            || ty == TokenType::Greater || ty == TokenType::GreaterEqual || ty == TokenType::Less || ty == TokenType::LessEqual {
            let rl = self.eval_node(fuel, env, left);
            let ghost s1 = self.state();
            let ghost l1 = self.log();
            let a = match rl {
                Ok(Value::Number(a)) => a,
                Ok(_) => {
                    let f = error(operator, "Expected type Value::Number for numeric operator");
                    assert forall|full: Seq<Answer>| extends(full, self.log()) implies #[trigger] eval(fuel as nat, s0, full, l0.len(), env as nat, e.model())
                        == (self.state(), self.log().len(), value_outcome(Err::<Value, Fault>(f))) by {
                        assert(eval(fuel as nat, s0, full, l0.len(), env as nat, left.model()) == (s1, l1.len(), value_outcome(rl)));
                    }
                    return Err(f);
                },
                Err(f) => {
                    assert forall|full: Seq<Answer>| extends(full, self.log()) implies #[trigger] eval(fuel as nat, s0, full, l0.len(), env as nat, e.model())
                        == (self.state(), self.log().len(), value_outcome(Err::<Value, Fault>(f))) by {
                        assert(eval(fuel as nat, s0, full, l0.len(), env as nat, left.model()) == (s1, l1.len(), value_outcome(rl)));
                    }
                    return Err(f);
                },
            };
            let rr = self.eval_node(fuel, env, right);
            let ghost s2 = self.state();
            let ghost l2 = self.log();
            let b = match rr {
                Ok(Value::Number(b)) => b,
                Ok(_) => {
                    let f = error(operator, "Expected type Value::Number for numeric operator");
                    assert forall|full: Seq<Answer>| extends(full, self.log()) implies #[trigger] eval(fuel as nat, s0, full, l0.len(), env as nat, e.model())
                        == (self.state(), self.log().len(), value_outcome(Err::<Value, Fault>(f))) by {
                        lemma_extends_trans(full, l2, l1);
                        assert(eval(fuel as nat, s0, full, l0.len(), env as nat, left.model()) == (s1, l1.len(), value_outcome(rl)));
                        assert(eval(fuel as nat, s1, full, l1.len(), env as nat, right.model()) == (s2, l2.len(), value_outcome(rr)));
                    }
                    proof {
                        lemma_extends_trans(self.log(), l1, l0);
                    }
                    return Err(f);
                },
                Err(f) => {
                    assert forall|full: Seq<Answer>| extends(full, self.log()) implies #[trigger] eval(fuel as nat, s0, full, l0.len(), env as nat, e.model())
                        == (self.state(), self.log().len(), value_outcome(Err::<Value, Fault>(f))) by {
                        lemma_extends_trans(full, l2, l1);
                        assert(eval(fuel as nat, s0, full, l0.len(), env as nat, left.model()) == (s1, l1.len(), value_outcome(rl)));
                        assert(eval(fuel as nat, s1, full, l1.len(), env as nat, right.model()) == (s2, l2.len(), value_outcome(rr)));
                    }
                    proof {
                        lemma_extends_trans(self.log(), l1, l0);
                    }
                    return Err(f);
                },
            };
            let result = self.numeric(operator, a, b);
            assert forall|full: Seq<Answer>| extends(full, self.log()) implies #[trigger] eval(fuel as nat, s0, full, l0.len(), env as nat, e.model())
                == (self.state(), self.log().len(), value_outcome(result)) by {
                lemma_extends_trans(full, self.log(), l2);
                lemma_extends_trans(full, l2, l1);
                assert(eval(fuel as nat, s0, full, l0.len(), env as nat, left.model()) == (s1, l1.len(), value_outcome(rl)));
                assert(eval(fuel as nat, s1, full, l1.len(), env as nat, right.model()) == (s2, l2.len(), value_outcome(rr)));
                assert(numeric(*operator, a, b, s2, full, l2.len()) == (s2, self.log().len(), value_outcome(result)));
            }
            proof {
                lemma_extends_trans(self.log(), l2, l1);
                lemma_extends_trans(self.log(), l1, l0);
            }
            result
        } else {
            Err(Fault::Halt(Halt::UnexpectedOperator(ty)))
        }
    }

    /// Evaluates a call.
    #[verifier::rlimit(100)]
    #[verifier::spinoff_prover]
    fn eval_call(&mut self, fuel: u64, env: usize, e: &Expr) -> (r: Result<Value, Fault>)
        requires
            env < old(self).state().heap.len(),
            e is Call,
        ensures
            final(self).numbers() == old(self).numbers(),
            old(self).state().heap.len() <= final(self).state().heap.len(),
            runs_eval(fuel as nat, old(self).state(), old(self).log(), env as nat, e.model(), final(self).state(), final(self).log(), value_outcome(r)),
        decreases fuel, e, 2nat, 0nat,
    {
        let ghost s0 = self.state();
        let ghost l0 = self.log();
        let Expr::Call { fun, paren, arguments } = e else {
            return Err(Fault::Halt(Halt::Unreachable));
        };
        let rf = self.eval_node(fuel, env, fun);
        let ghost s1 = self.state();
        let ghost l1 = self.log();
        proof {
            crate::expr::lemma_exprs_model_len(arguments@);
        }
        match rf {
            Err(f) => {
                assert forall|full: Seq<Answer>| extends(full, self.log()) implies #[trigger] eval(fuel as nat, s0, full, l0.len(), env as nat, e.model())
                    == (self.state(), self.log().len(), value_outcome(Err::<Value, Fault>(f))) by {
                    assert(eval(fuel as nat, s0, full, l0.len(), env as nat, fun.model()) == (s1, l1.len(), value_outcome(rf)));
                }
                Err(f)
            },
            Ok(Value::Fun { params, body, environment }) => {
                if params.len() != arguments.len() {
                    let mut m = String::from_str("Expected ");
                    push_decimal(&mut m, params.len());
                    m.append(" function arguments but got ");
                    push_decimal(&mut m, arguments.len());
                    assert(m@ =~= arity_message(params@.len(), exprs_model(arguments@).len()));
                    let f = Fault::Error(RuntimeError { token: paren.clone(), message: m });
                    assert forall|full: Seq<Answer>| extends(full, self.log()) implies #[trigger] eval(fuel as nat, s0, full, l0.len(), env as nat, e.model())
                        == (self.state(), self.log().len(), value_outcome(Err::<Value, Fault>(f))) by {
                        assert(eval(fuel as nat, s0, full, l0.len(), env as nat, fun.model()) == (s1, l1.len(), value_outcome(rf)));
                    }
                    return Err(f);
                }
                assert(exprs_model(arguments@).subrange(0, arguments@.len() as int) =~= exprs_model(arguments@));
                let ra = self.eval_args(fuel, env, arguments, 0);
                let ghost s2 = self.state();
                let ghost l2 = self.log();
                let ghost oa = values_outcome(ra);
                let vals = match ra {
                    Ok(vals) => vals,
                    Err(f) => {
                        assert forall|full: Seq<Answer>| extends(full, self.log()) implies #[trigger] eval(fuel as nat, s0, full, l0.len(), env as nat, e.model())
                            == (self.state(), self.log().len(), value_outcome(Err::<Value, Fault>(f))) by {
                            lemma_extends_trans(full, l2, l1);
                            assert(eval(fuel as nat, s0, full, l0.len(), env as nat, fun.model()) == (s1, l1.len(), value_outcome(rf)));
                            assert(eval_args(fuel as nat, s1, full, l1.len(), env as nat, exprs_model(arguments@)) == (s2, l2.len(), oa));
                        }
                        proof {
                            lemma_extends_trans(self.log(), l1, l0);
                        }
                        return Err(f);
                    },
                };
                proof {
                    lemma_extends_trans(l2, l1, l0);
                }
                let ghost vm = values_model(vals@);
                if environment >= self.heap.len() || fuel == 0 {
                    let f = if environment >= self.heap.len() {
                        Fault::Halt(Halt::Unreachable)
                    } else {
                        Fault::Halt(Halt::OutOfFuel)
                    };
                    assert forall|full: Seq<Answer>| extends(full, self.log()) implies #[trigger] eval(fuel as nat, s0, full, l0.len(), env as nat, e.model())
                        == (self.state(), self.log().len(), value_outcome(Err::<Value, Fault>(f))) by {
                        lemma_extends_trans(full, l2, l1);
                        assert(eval(fuel as nat, s0, full, l0.len(), env as nat, fun.model()) == (s1, l1.len(), value_outcome(rf)));
                        assert(eval_args(fuel as nat, s1, full, l1.len(), env as nat, exprs_model(arguments@)) == (s2, l2.len(), Ok::<Seq<ValueV>, FaultV>(vm)));
                    }
                    return Err(f);
                }
                let b = Environment::new_block(&mut self.heap, environment);
                self.bind(b, &params, &vals);
                let ghost s3 = self.state();
                assert(s3 == with_heap(s2, bind(s2.heap.push(fresh_scope(Some(environment as nat))), b as nat, params@, vm)));
                proof {
                    crate::stmt::lemma_stmts_model_len(body@);
                }
                assert(stmts_model(body@).subrange(0, body@.len() as int) =~= stmts_model(body@));
                let r = self.call_body(fuel - 1, b, &body, 0);
                assert forall|full: Seq<Answer>| extends(full, self.log()) implies #[trigger] eval(fuel as nat, s0, full, l0.len(), env as nat, e.model())
                    == (self.state(), self.log().len(), value_outcome(r)) by {
                    lemma_extends_trans(full, self.log(), l2);
                    lemma_extends_trans(full, l2, l1);
                    assert(eval(fuel as nat, s0, full, l0.len(), env as nat, fun.model()) == (s1, l1.len(), value_outcome(rf)));
                    assert(eval_args(fuel as nat, s1, full, l1.len(), env as nat, exprs_model(arguments@)) == (s2, l2.len(), Ok::<Seq<ValueV>, FaultV>(vm)));
                    assert(call_body((fuel - 1) as nat, s3, full, l2.len(), b as nat, stmts_model(body@)) == (self.state(), self.log().len(), value_outcome(r)));
                }
                proof {
                    lemma_extends_trans(self.log(), l2, l0);
                }
                r
            },
            Ok(_) => {
                let mut d = Doc::new();
                write_expr(&mut d, fun);
                d.text(" is not a function");
                let m = self.fill(&d);
                let f = Fault::Error(RuntimeError { token: paren.clone(), message: m });
                assert forall|full: Seq<Answer>| extends(full, self.log()) implies #[trigger] eval(fuel as nat, s0, full, l0.len(), env as nat, e.model())
                    == (self.state(), self.log().len(), value_outcome(Err::<Value, Fault>(f))) by {
                    lemma_extends_trans(full, self.log(), l1);
                    assert(eval(fuel as nat, s0, full, l0.len(), env as nat, fun.model()) == (s1, l1.len(), value_outcome(rf)));
                    assert(fill(d@, full, l1.len()) == Some(f->Error_0.message@));
                }
                proof {
                    lemma_extends_trans(self.log(), l1, l0);
                }
                Err(f)
            },
        }
    }

    /// Evaluates the arguments from the `i`-th on, in environment `env`.
    #[verifier::rlimit(100)]
    #[verifier::spinoff_prover]
    fn eval_args(&mut self, fuel: u64, env: usize, args: &Vec<Expr>, i: usize) -> (r: Result<Vec<Value>, Fault>)
        requires
            env < old(self).state().heap.len(),
            i <= args@.len(),
        ensures
            final(self).numbers() == old(self).numbers(),
            old(self).state().heap.len() <= final(self).state().heap.len(),
            runs_eval_args(
                fuel as nat,
                old(self).state(),
                old(self).log(),
                env as nat,
                exprs_model(args@).subrange(i as int, args@.len() as int),
                final(self).state(),
                final(self).log(),
                values_outcome(r),
            ),
            r matches Ok(vs) ==> vs@.len() == args@.len() - i,
        decreases fuel, args, 1nat, args@.len() - i,
    {
        let ghost s0 = self.state();
        let ghost l0 = self.log();
        let ghost es = exprs_model(args@).subrange(i as int, args@.len() as int);
        proof {
            lemma_extends_refl(l0);
            crate::expr::lemma_exprs_model_len(args@);
        }
        if i >= args.len() {
            let none: Vec<Value> = Vec::new();
            assert(values_model(none@) =~= Seq::<ValueV>::empty());
            return Ok(none);
        }
        proof {
            crate::expr::lemma_exprs_model_index(args@, i as int);
            vstd::std_specs::vec::axiom_vec_index_decreases(*args, i as int);
        }
        let r = self.eval_node(fuel, env, &args[i]);
        let ghost s1 = self.state();
        let ghost l1 = self.log();
        let ghost o1 = value_outcome(r);
        let v = match r {
            Ok(v) => v,
            Err(f) => {
                assert forall|full: Seq<Answer>| extends(full, self.log()) implies #[trigger] eval_args(fuel as nat, s0, full, l0.len(), env as nat, es)
                    == (self.state(), self.log().len(), values_outcome(Err::<Vec<Value>, Fault>(f))) by {
                    assert(eval(fuel as nat, s0, full, l0.len(), env as nat, args@[i as int].model()) == (s1, l1.len(), o1));
                }
                return Err(f);
            },
        };
        assert(es.subrange(1, es.len() as int) =~= exprs_model(args@).subrange(i + 1, args@.len() as int));
        let rest = self.eval_args(fuel, env, args, i + 1);
        let ghost o2 = values_outcome(rest);
        let result = match rest {
            Ok(vs) => {
                let ghost before = values_model(vs@);
                let mut vs = vs;
                vs.insert(0, v);
                assert(values_model(vs@) =~= seq![v.model()] + before);
                Ok(vs)
            },
            Err(f) => Err(f),
        };
        assert forall|full: Seq<Answer>| extends(full, self.log()) implies #[trigger] eval_args(fuel as nat, s0, full, l0.len(), env as nat, es)
            == (self.state(), self.log().len(), values_outcome(result)) by {
            lemma_extends_trans(full, self.log(), l1);
            assert(eval(fuel as nat, s0, full, l0.len(), env as nat, args@[i as int].model()) == (s1, l1.len(), o1));
            assert(eval_args(fuel as nat, s1, full, l1.len(), env as nat, es.subrange(1, es.len() as int)) == (self.state(), self.log().len(), o2));
        }
        proof {
            lemma_extends_trans(self.log(), l1, l0);
        }
        result
    }

    /// Defines each parameter as the value at the same place, in environment
    /// `env`.
    fn bind(&mut self, env: usize, params: &Vec<Token>, vals: &Vec<Value>)
        requires
            env < old(self).state().heap.len(),
            params@.len() == vals@.len(),
        ensures
            final(self).numbers() == old(self).numbers(),
            final(self).state() == with_heap(old(self).state(), bind(old(self).state().heap, env as nat, params@, values_model(vals@))),
            final(self).state().heap.len() == old(self).state().heap.len(),
            final(self).log() == old(self).log(),
    {
        let ghost h0 = self.heap@;
        let ghost vm = values_model(vals@);
        let mut k: usize = 0;
        assert(params@.subrange(0, params@.len() as int) =~= params@);
        assert(vm.subrange(0, vm.len() as int) =~= vm);
        while k < params.len()
            invariant
                self.numbers() == old(self).numbers(),
                k <= params@.len(),
                params@.len() == vals@.len(),
                vm == values_model(vals@),
                env < self.heap@.len(),
                self.heap@.len() == h0.len(),
                self.state() == with_heap(old(self).state(), self.heap@),
                self.log() == old(self).log(),
                h0 == old(self).state().heap,
                bind(h0, env as nat, params@, vm) == bind(
                    self.heap@,
                    env as nat,
                    params@.subrange(k as int, params@.len() as int),
                    vm.subrange(k as int, vm.len() as int),
                ),
            decreases params@.len() - k,
        {
            let ghost ps = params@.subrange(k as int, params@.len() as int);
            let ghost vs = vm.subrange(k as int, vm.len() as int);
            assert(ps.subrange(1, ps.len() as int) =~= params@.subrange(k + 1, params@.len() as int));
            assert(vs.subrange(1, vs.len() as int) =~= vm.subrange(k + 1, vm.len() as int));
            let v = clone_value(&vals[k]);
            self.heap.define_checked(env, &params[k].lexeme, v);
            k = k + 1;
        }
        assert(params@.subrange(k as int, params@.len() as int) =~= Seq::<Token>::empty());
    }

    /// Runs the statements of a function body from the `i`-th on.
    #[verifier::rlimit(100)]
    #[verifier::spinoff_prover]
    fn call_body(&mut self, fuel: u64, fenv: usize, body: &Vec<Stmt>, i: usize) -> (r: Result<Value, Fault>)
        requires
            i <= body@.len(),
            fenv < old(self).state().heap.len(),
        ensures
            final(self).numbers() == old(self).numbers(),
            old(self).state().heap.len() <= final(self).state().heap.len(),
            runs_call_body(
                fuel as nat,
                old(self).state(),
                old(self).log(),
                fenv as nat,
                stmts_model(body@).subrange(i as int, body@.len() as int),
                final(self).state(),
                final(self).log(),
                value_outcome(r),
            ),
        decreases fuel, body, 1nat, body@.len() - i,
    {
        let ghost s0 = self.state();
        let ghost l0 = self.log();
        let ghost bs = stmts_model(body@).subrange(i as int, body@.len() as int);
        proof {
            lemma_extends_refl(l0);
            crate::stmt::lemma_stmts_model_len(body@);
        }
        if i >= body.len() {
            return Ok(Value::Nil);
        }
        proof {
            crate::stmt::lemma_stmts_model_index(body@, i as int);
            vstd::std_specs::vec::axiom_vec_index_decreases(*body, i as int);
        }
        let r = self.exec_node(fuel, fenv, &body[i]);
        let ghost s1 = self.state();
        let ghost l1 = self.log();
        match r {
            Ok(()) => {
                assert(bs.subrange(1, bs.len() as int) =~= stmts_model(body@).subrange(i + 1, body@.len() as int));
                let rest = self.call_body(fuel, fenv, body, i + 1);
                assert forall|full: Seq<Answer>| extends(full, self.log()) implies #[trigger] call_body(fuel as nat, s0, full, l0.len(), fenv as nat, bs)
                    == (self.state(), self.log().len(), value_outcome(rest)) by {
                    lemma_extends_trans(full, self.log(), l1);
                    assert(exec(fuel as nat, s0, full, l0.len(), fenv as nat, body@[i as int].model()) == (s1, l1.len(), flow_outcome(r)));
                    assert(call_body(fuel as nat, s1, full, l1.len(), fenv as nat, bs.subrange(1, bs.len() as int)) == (self.state(), self.log().len(), value_outcome(rest)));
                }
                proof {
                    lemma_extends_trans(self.log(), l1, l0);
                }
                rest
            },
            Err(Flow::Return(v)) => {
                assert forall|full: Seq<Answer>| extends(full, self.log()) implies #[trigger] call_body(fuel as nat, s0, full, l0.len(), fenv as nat, bs)
                    == (self.state(), self.log().len(), value_outcome(Ok::<Value, Fault>(v))) by {
                    assert(exec(fuel as nat, s0, full, l0.len(), fenv as nat, body@[i as int].model()) == (s1, l1.len(), flow_outcome(r)));
                }
                Ok(v)
            },
            Err(Flow::Fault(f)) => {
                assert forall|full: Seq<Answer>| extends(full, self.log()) implies #[trigger] call_body(fuel as nat, s0, full, l0.len(), fenv as nat, bs)
                    == (self.state(), self.log().len(), value_outcome(Err::<Value, Fault>(f))) by {
                    assert(exec(fuel as nat, s0, full, l0.len(), fenv as nat, body@[i as int].model()) == (s1, l1.len(), flow_outcome(r)));
                }
                Err(f)
            },
        }
    }


    /// Executes a statement in environment `env`.
    #[verifier::rlimit(100)]
    #[verifier::spinoff_prover]
    fn exec_node(&mut self, fuel: u64, env: usize, st: &Stmt) -> (r: Result<(), Flow>)
        requires
            env < old(self).state().heap.len(),
        ensures
            final(self).numbers() == old(self).numbers(),
            old(self).state().heap.len() <= final(self).state().heap.len(),
            runs_exec(fuel as nat, old(self).state(), old(self).log(), env as nat, st.model(), final(self).state(), final(self).log(), flow_outcome(r)),
        decreases fuel, st, 3nat, 0nat,
    {
        let ghost s0 = self.state();
        let ghost l0 = self.log();
        proof {
            lemma_extends_refl(l0);
        }
        match st {
            Stmt::Expression { expression } => {
                let r = self.eval_node(fuel, env, expression);
                let result = match r {
                    Err(f) => Err(Flow::Fault(f)),
                    Ok(_) => Ok(()),
                };
                assert forall|full: Seq<Answer>| extends(full, self.log()) implies #[trigger] exec(fuel as nat, s0, full, l0.len(), env as nat, st.model())
                    == (self.state(), self.log().len(), flow_outcome(result)) by {
                    assert(eval(fuel as nat, s0, full, l0.len(), env as nat, expression.model()) == (self.state(), self.log().len(), value_outcome(r)));
                }
                result
            },
            Stmt::Print { expression } => {
                let r = self.eval_node(fuel, env, expression);
                let ghost s1 = self.state();
                let ghost l1 = self.log();
                match r {
                    Err(f) => {
                        assert forall|full: Seq<Answer>| extends(full, self.log()) implies #[trigger] exec(fuel as nat, s0, full, l0.len(), env as nat, st.model())
                            == (self.state(), self.log().len(), flow_outcome(Err::<(), Flow>(Flow::Fault(f)))) by {
                            assert(eval(fuel as nat, s0, full, l0.len(), env as nat, expression.model()) == (s1, l1.len(), value_outcome(r)));
                        }
                        Err(Flow::Fault(f))
                    },
                    Ok(v) => {
                        let mut d = Doc::new();
                        if !write_display(&mut d, &self.heap, &v) {
                            let f = Flow::Fault(Fault::Halt(Halt::Cycle));
                            assert forall|full: Seq<Answer>| extends(full, self.log()) implies #[trigger] exec(fuel as nat, s0, full, l0.len(), env as nat, st.model())
                                == (self.state(), self.log().len(), flow_outcome(Err::<(), Flow>(f))) by {
                                assert(eval(fuel as nat, s0, full, l0.len(), env as nat, expression.model()) == (s1, l1.len(), value_outcome(r)));
                            }
                            return Err(f);
                        }
                        let text = self.fill(&d);
                        let ghost l2 = self.log();
                        let ghost tv = text@;
                        self.output.push(text);
                        assert(lines_model(self.output@) =~= s1.out.push(tv));
                        assert forall|full: Seq<Answer>| extends(full, self.log()) implies #[trigger] exec(fuel as nat, s0, full, l0.len(), env as nat, st.model())
                            == (self.state(), self.log().len(), flow_outcome(Ok::<(), Flow>(()))) by {
                            lemma_extends_trans(full, l2, l1);
                            assert(eval(fuel as nat, s0, full, l0.len(), env as nat, expression.model()) == (s1, l1.len(), value_outcome(r)));
                            assert(fill(d@, full, l1.len()) == Some(tv));
                        }
                        proof {
                            lemma_extends_trans(self.log(), l1, l0);
                        }
                        Ok(())
                    },
                }
            },
            Stmt::If { keyword, condition, consq, altern } => {
                let r = self.eval_node(fuel, env, condition);
                let ghost s1 = self.state();
                let ghost l1 = self.log();
                match r {
                    Err(f) => {
                        assert forall|full: Seq<Answer>| extends(full, self.log()) implies #[trigger] exec(fuel as nat, s0, full, l0.len(), env as nat, st.model())
                            == (self.state(), self.log().len(), flow_outcome(Err::<(), Flow>(Flow::Fault(f)))) by {
                            assert(eval(fuel as nat, s0, full, l0.len(), env as nat, condition.model()) == (s1, l1.len(), value_outcome(r)));
                        }
                        Err(Flow::Fault(f))
                    },
                    Ok(Value::Boolean(b)) => {
                        let branch = if b {
                            Some(&**consq)
                        } else {
                            match altern {
                                Some(a) => Some(&**a),
                                None => None,
                            }
                        };
                        match branch {
                            Some(next) => {
                                let r2 = self.exec_node(fuel, env, next);
                                assert forall|full: Seq<Answer>| extends(full, self.log()) implies #[trigger] exec(fuel as nat, s0, full, l0.len(), env as nat, st.model())
                                    == (self.state(), self.log().len(), flow_outcome(r2)) by {
                                    lemma_extends_trans(full, self.log(), l1);
                                    assert(eval(fuel as nat, s0, full, l0.len(), env as nat, condition.model()) == (s1, l1.len(), value_outcome(r)));
                                    assert(exec(fuel as nat, s1, full, l1.len(), env as nat, next.model()) == (self.state(), self.log().len(), flow_outcome(r2)));
                                }
                                proof {
                                    lemma_extends_trans(self.log(), l1, l0);
                                }
                                r2
                            },
                            None => {
                                assert forall|full: Seq<Answer>| extends(full, self.log()) implies #[trigger] exec(fuel as nat, s0, full, l0.len(), env as nat, st.model())
                                    == (self.state(), self.log().len(), flow_outcome(Ok::<(), Flow>(()))) by {
                                    assert(eval(fuel as nat, s0, full, l0.len(), env as nat, condition.model()) == (s1, l1.len(), value_outcome(r)));
                                }
                                Ok(())
                            },
                        }
                    },
                    Ok(_) => {
                        let f = Flow::Fault(error(keyword, "Expect 'if' conditional to evaluate to a boolean"));
                        assert forall|full: Seq<Answer>| extends(full, self.log()) implies #[trigger] exec(fuel as nat, s0, full, l0.len(), env as nat, st.model())
                            == (self.state(), self.log().len(), flow_outcome(Err::<(), Flow>(f))) by {
                            assert(eval(fuel as nat, s0, full, l0.len(), env as nat, condition.model()) == (s1, l1.len(), value_outcome(r)));
                        }
                        Err(f)
                    },
                }
            },
            Stmt::Var { name, initializer } => {
                let r = self.eval_node(fuel, env, initializer);
                let ghost s1 = self.state();
                let ghost l1 = self.log();
                let result = match r {
                    Err(f) => Err(Flow::Fault(f)),
                    Ok(v) => if self.heap.is_borrowed(env) {
                        Err(Flow::Fault(Fault::Halt(Halt::AlreadyBorrowed)))
                    } else {
                        self.heap.define_checked(env, &name.lexeme, v);
                        Ok(())
                    },
                };
                assert forall|full: Seq<Answer>| extends(full, self.log()) implies #[trigger] exec(fuel as nat, s0, full, l0.len(), env as nat, st.model())
                    == (self.state(), self.log().len(), flow_outcome(result)) by {
                    assert(eval(fuel as nat, s0, full, l0.len(), env as nat, initializer.model()) == (s1, l1.len(), value_outcome(r)));
                }
                result
            },
            Stmt::Block { statements } => {
                let b = Environment::new_block(&mut self.heap, env);
                let ghost s1 = self.state();
                assert(s1 == with_heap(s0, s0.heap.push(fresh_scope(Some(env as nat)))));
                assert(stmts_model(statements@).subrange(0, statements@.len() as int) =~= stmts_model(statements@)) by {
                    crate::stmt::lemma_stmts_model_len(statements@);
                }
                let r = self.exec_list(fuel, b, statements, 0);
                assert forall|full: Seq<Answer>| extends(full, self.log()) implies #[trigger] exec(fuel as nat, s0, full, l0.len(), env as nat, st.model())
                    == (self.state(), self.log().len(), flow_outcome(r)) by {
                    assert(exec_list(fuel as nat, s1, full, l0.len(), b as nat, stmts_model(statements@).subrange(0, statements@.len() as int))
                        == (self.state(), self.log().len(), flow_outcome(r)));
                }
                r
            },
            Stmt::While { .. } => self.exec_while(fuel, env, st),
            Stmt::Fun { name, params, body } => {
                if self.heap.is_borrowed(env) {
                    return Err(Flow::Fault(Fault::Halt(Halt::AlreadyBorrowed)));
                }
                let f = Value::Fun { params: clone_tokens(params), body: clone_stmts(body), environment: env };
                self.heap.define_checked(env, &name.lexeme, f);
                Ok(())
            },
            Stmt::Return { value, .. } => match value {
                None => Err(Flow::Return(Value::Nil)),
                Some(e) => {
                    let r = self.eval_node(fuel, env, e);
                    let result = match r {
                        Err(f) => Err(Flow::Fault(f)),
                        Ok(v) => Err(Flow::Return(v)),
                    };
                    assert forall|full: Seq<Answer>| extends(full, self.log()) implies #[trigger] exec(fuel as nat, s0, full, l0.len(), env as nat, st.model())
                        == (self.state(), self.log().len(), flow_outcome(result)) by {
                        assert(eval(fuel as nat, s0, full, l0.len(), env as nat, e.model()) == (self.state(), self.log().len(), value_outcome(r)));
                    }
                    result
                },
            },
        }
    }

    /// Executes the statements from the `i`-th on, in environment `env`.
    #[verifier::rlimit(100)]
    #[verifier::spinoff_prover]
    fn exec_list(&mut self, fuel: u64, env: usize, sts: &Vec<Stmt>, i: usize) -> (r: Result<(), Flow>)
        requires
            env < old(self).state().heap.len(),
            i <= sts@.len(),
        ensures
            final(self).numbers() == old(self).numbers(),
            old(self).state().heap.len() <= final(self).state().heap.len(),
            runs_exec_list(
                fuel as nat,
                old(self).state(),
                old(self).log(),
                env as nat,
                stmts_model(sts@).subrange(i as int, sts@.len() as int),
                final(self).state(),
                final(self).log(),
                flow_outcome(r),
            ),
        decreases fuel, sts, 1nat, sts@.len() - i,
    {
        let ghost s0 = self.state();
        let ghost l0 = self.log();
        let ghost xs = stmts_model(sts@).subrange(i as int, sts@.len() as int);
        proof {
            lemma_extends_refl(l0);
            crate::stmt::lemma_stmts_model_len(sts@);
        }
        if i >= sts.len() {
            return Ok(());
        }
        proof {
            crate::stmt::lemma_stmts_model_index(sts@, i as int);
            vstd::std_specs::vec::axiom_vec_index_decreases(*sts, i as int);
        }
        let r = self.exec_node(fuel, env, &sts[i]);
        let ghost s1 = self.state();
        let ghost l1 = self.log();
        match r {
            Err(x) => {
                assert forall|full: Seq<Answer>| extends(full, self.log()) implies #[trigger] exec_list(fuel as nat, s0, full, l0.len(), env as nat, xs)
                    == (self.state(), self.log().len(), flow_outcome(Err::<(), Flow>(x))) by {
                    assert(exec(fuel as nat, s0, full, l0.len(), env as nat, sts@[i as int].model()) == (s1, l1.len(), flow_outcome(r)));
                }
                Err(x)
            },
            Ok(()) => {
                assert(xs.subrange(1, xs.len() as int) =~= stmts_model(sts@).subrange(i + 1, sts@.len() as int));
                let rest = self.exec_list(fuel, env, sts, i + 1);
                assert forall|full: Seq<Answer>| extends(full, self.log()) implies #[trigger] exec_list(fuel as nat, s0, full, l0.len(), env as nat, xs)
                    == (self.state(), self.log().len(), flow_outcome(rest)) by {
                    lemma_extends_trans(full, self.log(), l1);
                    assert(exec(fuel as nat, s0, full, l0.len(), env as nat, sts@[i as int].model()) == (s1, l1.len(), flow_outcome(r)));
                    assert(exec_list(fuel as nat, s1, full, l1.len(), env as nat, xs.subrange(1, xs.len() as int))
                        == (self.state(), self.log().len(), flow_outcome(rest)));
                }
                proof {
                    lemma_extends_trans(self.log(), l1, l0);
                }
                rest
            },
        }
    }

    /// Runs a `while` statement; each iteration costs one unit of fuel.
    #[verifier::rlimit(100)]
    #[verifier::spinoff_prover]
    fn exec_while(&mut self, fuel: u64, env: usize, w: &Stmt) -> (r: Result<(), Flow>)
        requires
            env < old(self).state().heap.len(),
            w is While,
        ensures
            final(self).numbers() == old(self).numbers(),
            old(self).state().heap.len() <= final(self).state().heap.len(),
            runs_exec(fuel as nat, old(self).state(), old(self).log(), env as nat, w.model(), final(self).state(), final(self).log(), flow_outcome(r)),
        decreases fuel, w, 2nat, 0nat,
    {
        let ghost s0 = self.state();
        let ghost l0 = self.log();
        proof {
            lemma_extends_refl(l0);
        }
        let Stmt::While { condition, body } = w else {
            return Ok(());
        };
        let mut f: u64 = fuel;
        loop
            invariant
                self.numbers() == old(self).numbers(),
                f <= fuel,
                env < self.state().heap.len(),
                s0.heap.len() <= self.state().heap.len(),
                s0 == old(self).state(),
                l0 == old(self).log(),
                extends(self.log(), l0),
                w is While,
                *w == (Stmt::While { condition: *condition, body: *body }),
                forall|full: Seq<Answer>| extends(full, self.log()) ==> #[trigger] exec(fuel as nat, s0, full, l0.len(), env as nat, w.model())
                    == exec_while(f as nat, self.state(), full, self.log().len(), env as nat, w.model()),
            decreases f,
        {
            let ghost sa = self.state();
            let ghost la = self.log();
            if f == 0 {
                let x = Flow::Fault(Fault::Halt(Halt::OutOfFuel));
                assert forall|full: Seq<Answer>| extends(full, self.log()) implies #[trigger] exec(fuel as nat, s0, full, l0.len(), env as nat, w.model())
                    == (self.state(), self.log().len(), flow_outcome(Err::<(), Flow>(x))) by {
                    assert(exec_while(f as nat, sa, full, la.len(), env as nat, w.model()) == (sa, la.len(), flow_outcome(Err::<(), Flow>(x))));
                }
                return Err(x);
            }
            let rc = self.eval_node(f, env, condition);
            let ghost s1 = self.state();
            let ghost l1 = self.log();
            match rc {
                Ok(Value::Boolean(true)) => {},
                Ok(Value::Boolean(false)) => {
                    assert forall|full: Seq<Answer>| extends(full, self.log()) implies #[trigger] exec(fuel as nat, s0, full, l0.len(), env as nat, w.model())
                        == (self.state(), self.log().len(), flow_outcome(Ok::<(), Flow>(()))) by {
                        lemma_extends_trans(full, self.log(), la);
                        assert(eval(f as nat, sa, full, la.len(), env as nat, condition.model()) == (s1, l1.len(), value_outcome(rc)));
                    }
                    proof {
                        lemma_extends_trans(self.log(), la, l0);
                    }
                    return Ok(());
                },
                Ok(_) => {
                    let x = Flow::Fault(Fault::Halt(Halt::NotImplemented));
                    assert forall|full: Seq<Answer>| extends(full, self.log()) implies #[trigger] exec(fuel as nat, s0, full, l0.len(), env as nat, w.model())
                        == (self.state(), self.log().len(), flow_outcome(Err::<(), Flow>(x))) by {
                        lemma_extends_trans(full, self.log(), la);
                        assert(eval(f as nat, sa, full, la.len(), env as nat, condition.model()) == (s1, l1.len(), value_outcome(rc)));
                    }
                    proof {
                        lemma_extends_trans(self.log(), la, l0);
                    }
                    return Err(x);
                },
                Err(e) => {
                    let x = Flow::Fault(e);
                    assert forall|full: Seq<Answer>| extends(full, self.log()) implies #[trigger] exec(fuel as nat, s0, full, l0.len(), env as nat, w.model())
                        == (self.state(), self.log().len(), flow_outcome(Err::<(), Flow>(x))) by {
                        lemma_extends_trans(full, self.log(), la);
                        assert(eval(f as nat, sa, full, la.len(), env as nat, condition.model()) == (s1, l1.len(), value_outcome(rc)));
                    }
                    proof {
                        lemma_extends_trans(self.log(), la, l0);
                    }
                    return Err(x);
                },
            }
            let rb = self.exec_node(f, env, body);
            let ghost s2 = self.state();
            let ghost l2 = self.log();
            match rb {
                Err(x) => {
                    assert forall|full: Seq<Answer>| extends(full, self.log()) implies #[trigger] exec(fuel as nat, s0, full, l0.len(), env as nat, w.model())
                        == (self.state(), self.log().len(), flow_outcome(Err::<(), Flow>(x))) by {
                        lemma_extends_trans(full, self.log(), l1);
                        lemma_extends_trans(full, l1, la);
                        assert(eval(f as nat, sa, full, la.len(), env as nat, condition.model()) == (s1, l1.len(), value_outcome(rc)));
                        assert(exec(f as nat, s1, full, l1.len(), env as nat, body.model()) == (s2, l2.len(), flow_outcome(rb)));
                    }
                    proof {
                        lemma_extends_trans(self.log(), l1, la);
                        lemma_extends_trans(self.log(), la, l0);
                    }
                    return Err(x);
                },
                Ok(()) => {},
            }
            assert forall|full: Seq<Answer>| extends(full, self.log()) implies #[trigger] exec(fuel as nat, s0, full, l0.len(), env as nat, w.model())
                == exec_while((f - 1) as nat, self.state(), full, self.log().len(), env as nat, w.model()) by {
                lemma_extends_trans(full, self.log(), l1);
                lemma_extends_trans(full, l1, la);
                assert(eval(f as nat, sa, full, la.len(), env as nat, condition.model()) == (s1, l1.len(), value_outcome(rc)));
                assert(exec(f as nat, s1, full, l1.len(), env as nat, body.model()) == (s2, l2.len(), flow_outcome(rb)));
            }
            proof {
                lemma_extends_trans(self.log(), l1, la);
                lemma_extends_trans(self.log(), la, l0);
            }
            f = f - 1;
        }
    }


    /// Evaluates an expression in environment `env`, with at most `fuel`
    /// nested calls and loop iterations.
    pub fn eval_expr(&mut self, fuel: u64, env: usize, e: &Expr) -> (r: Result<Value, Fault>)
        requires
            env < old(self).state().heap.len(),
        ensures
            final(self).numbers() == old(self).numbers(),
            answered_by(final(self).numbers(), final(self).log()),
            old(self).state().heap.len() <= final(self).state().heap.len(),
            runs_eval(fuel as nat, old(self).state(), old(self).log(), env as nat, e.model(), final(self).state(), final(self).log(), value_outcome(r)),
    {
        let r = self.eval_node(fuel, env, e);
        self.backend.answers_hold();
        r
    }

    /// Executes a statement in environment `env`, with at most `fuel` nested
    /// calls and loop iterations.
    pub fn exec_stmt(&mut self, fuel: u64, env: usize, st: &Stmt) -> (r: Result<(), Flow>)
        requires
            env < old(self).state().heap.len(),
        ensures
            final(self).numbers() == old(self).numbers(),
            answered_by(final(self).numbers(), final(self).log()),
            old(self).state().heap.len() <= final(self).state().heap.len(),
            runs_exec(fuel as nat, old(self).state(), old(self).log(), env as nat, st.model(), final(self).state(), final(self).log(), flow_outcome(r)),
    {
        let r = self.exec_node(fuel, env, st);
        self.backend.answers_hold();
        r
    }

    /// The lines printed so far.
    pub fn into_output(self) -> (o: Vec<String>)
        ensures
            lines_model(o@) == self.state().out,
    {
        self.output
    }

    /// Runs a program: its statements, in order, in a new outermost
    /// environment. Stops at the first error, or where the program halts.
    pub fn interpret_checked(&mut self, statements: &Vec<Stmt>) -> (r: Result<(), Fault>)
        ensures
            final(self).numbers() == old(self).numbers(),
            answered_by(final(self).numbers(), final(self).log()),
            extends(final(self).log(), old(self).log()),
            forall|full: Seq<Answer>| extends(full, final(self).log()) ==> #[trigger] program(old(self).state(), full, old(self).log().len(), stmts_model(statements@))
                == (final(self).state(), final(self).log().len(), program_outcome(r)),
    {
        let env = self.new_top_level();
        self.interpret_in(env, statements)
    }

    /// Runs the statements of a program, in order, in environment `env`,
    /// which outlives the run. Stops at the first error, or where the
    /// program halts.
    #[verifier::rlimit(100)]
    #[verifier::spinoff_prover]
    pub fn interpret_in(&mut self, env: usize, statements: &Vec<Stmt>) -> (r: Result<(), Fault>)
        requires
            env < old(self).state().heap.len(),
        ensures
            final(self).numbers() == old(self).numbers(),
            answered_by(final(self).numbers(), final(self).log()),
            old(self).state().heap.len() <= final(self).state().heap.len(),
            extends(final(self).log(), old(self).log()),
            forall|full: Seq<Answer>| extends(full, final(self).log()) ==> #[trigger] interpret_from(
                FUEL as nat,
                old(self).state(),
                full,
                old(self).log().len(),
                env as nat,
                stmts_model(statements@),
            ) == (final(self).state(), final(self).log().len(), program_outcome(r)),
    {
        let ghost s0 = self.state();
        let ghost l0 = self.log();
        let ghost sts = stmts_model(statements@);
        proof {
            lemma_extends_refl(l0);
            crate::stmt::lemma_stmts_model_len(statements@);
        }
        assert(sts.subrange(0, sts.len() as int) =~= sts);
        let mut i: usize = 0;
        while i < statements.len()
            invariant
                self.numbers() == old(self).numbers(),
                i <= statements@.len(),
                sts == stmts_model(statements@),
                sts.len() == statements@.len(),
                env < self.state().heap.len(),
                s0.heap.len() <= self.state().heap.len(),
                l0 == old(self).log(),
                s0 == old(self).state(),
                extends(self.log(), l0),
                forall|full: Seq<Answer>| extends(full, self.log()) ==> #[trigger] interpret_from(FUEL as nat, s0, full, l0.len(), env as nat, sts)
                    == interpret_from(FUEL as nat, self.state(), full, self.log().len(), env as nat, sts.subrange(i as int, sts.len() as int)),
            decreases statements@.len() - i,
        {
            let ghost sa = self.state();
            let ghost la = self.log();
            let ghost rest = sts.subrange(i as int, sts.len() as int);
            proof {
                crate::stmt::lemma_stmts_model_index(statements@, i as int);
            }
            let r = self.exec_node(FUEL, env, &statements[i]);
            assert(rest.subrange(1, rest.len() as int) =~= sts.subrange(i + 1, sts.len() as int));
            match r {
                Err(Flow::Fault(f)) => {
                    assert forall|full: Seq<Answer>| extends(full, self.log()) implies #[trigger] interpret_from(FUEL as nat, s0, full, l0.len(), env as nat, sts)
                        == (self.state(), self.log().len(), program_outcome(Err::<(), Fault>(f))) by {
                        lemma_extends_trans(full, self.log(), la);
                        assert(exec(FUEL as nat, sa, full, la.len(), env as nat, statements@[i as int].model()) == (self.state(), self.log().len(), flow_outcome(r)));
                    }
                    proof {
                        lemma_extends_trans(self.log(), la, l0);
                    }
                    self.backend.answers_hold();
                    return Err(f);
                },
                _ => {},
            }
            assert forall|full: Seq<Answer>| extends(full, self.log()) implies #[trigger] interpret_from(FUEL as nat, s0, full, l0.len(), env as nat, sts)
                == interpret_from(FUEL as nat, self.state(), full, self.log().len(), env as nat, sts.subrange(i + 1, sts.len() as int)) by {
                lemma_extends_trans(full, self.log(), la);
                assert(exec(FUEL as nat, sa, full, la.len(), env as nat, statements@[i as int].model()) == (self.state(), self.log().len(), flow_outcome(r)));
            }
            proof {
                lemma_extends_trans(self.log(), la, l0);
            }
            i = i + 1;
        }
        self.backend.answers_hold();
        Ok(())
    }

    /// Ends the run, giving back its environments and the lines it printed.
    pub fn into_parts(self) -> (parts: (Heap, Vec<String>))
        ensures
            parts.0@ == self.state().heap,
            lines_model(parts.1@) == self.state().out,
    {
        (self.heap, self.output)
    }
}

/// A runtime error at `token` with the given message.
pub fn error(token: &Token, message: &str) -> (f: Fault)
    ensures
        f.model() == FaultV::Error(*token, message@),
{
    Fault::Error(RuntimeError { token: token.clone(), message: String::from_str(message) })
}

fn logic_fault(op: &Token) -> (f: Fault)
    ensures
        f.model() == logic_error(*op),
{
    if op.token_type == TokenType::Or {
        error(op, "Expected type Value::Boolean for OR operator")
    } else {
        error(op, "Expected type Value::Boolean for AND operator")
    }
}

/// The message for a variable that is not defined.
fn undefined(name: &String) -> (m: String)
    ensures
        m@ == undefined_message(name@),
{
    let mut m = String::from_str("Undefined variable '");
    m.append(name.as_str());
    m.append("'");
    m
}

/// Evaluates `expression` in `environment`.
pub fn evaluate<N: Numerics>(expression: Expr, environment: usize, interpreter: &mut Interpreter<N>) -> (r: Result<Value, RuntimeError>)
    requires
        environment < old(interpreter).state().heap.len(),
        !eval_may_halt(old(interpreter).numbers(), FUEL as nat, old(interpreter).state(), old(interpreter).log(), environment as nat, expression.model()),
    ensures
        final(interpreter).numbers() == old(interpreter).numbers(),
        answered_by(final(interpreter).numbers(), final(interpreter).log()),
        runs_eval(
            FUEL as nat,
            old(interpreter).state(),
            old(interpreter).log(),
            environment as nat,
            expression.model(),
            final(interpreter).state(),
            final(interpreter).log(),
            error_outcome(r),
        ),
        heap_in_order(old(interpreter).state().heap) ==> heap_in_order(final(interpreter).state().heap),
{
    let ghost s0 = interpreter.state();
    let ghost l0 = interpreter.log();
    let r = interpreter.eval_expr(FUEL, environment, &expression);
    proof {
        lemma_extends_refl(interpreter.log());
        assert(eval(FUEL as nat, s0, interpreter.log(), l0.len(), environment as nat, expression.model()).2 == value_outcome(r));
        if heap_in_order(s0.heap) {
            law_eval_keeps_names_in_order(FUEL as nat, s0, interpreter.log(), l0.len(), environment as nat, expression.model());
        }
    }
    match r {
        Ok(v) => Ok(v),
        Err(Fault::Error(e)) => Err(e),
        Err(Fault::Halt(_)) => {
            proof {
                assert(false);
            }
            Ok(Value::Nil)
        },
    }
}

/// Executes `stmt` in `environment`.
pub fn execute<N: Numerics>(stmt: Stmt, environment: usize, interpreter: &mut Interpreter<N>) -> (r: Result<(), ExecuteError>)
    requires
        environment < old(interpreter).state().heap.len(),
        !exec_may_halt(old(interpreter).numbers(), FUEL as nat, old(interpreter).state(), old(interpreter).log(), environment as nat, stmt.model()),
    ensures
        final(interpreter).numbers() == old(interpreter).numbers(),
        answered_by(final(interpreter).numbers(), final(interpreter).log()),
        runs_exec(
            FUEL as nat,
            old(interpreter).state(),
            old(interpreter).log(),
            environment as nat,
            stmt.model(),
            final(interpreter).state(),
            final(interpreter).log(),
            execute_outcome(r),
        ),
        heap_in_order(old(interpreter).state().heap) ==> heap_in_order(final(interpreter).state().heap),
{
    let ghost s0 = interpreter.state();
    let ghost l0 = interpreter.log();
    let r = interpreter.exec_stmt(FUEL, environment, &stmt);
    proof {
        lemma_extends_refl(interpreter.log());
        assert(exec(FUEL as nat, s0, interpreter.log(), l0.len(), environment as nat, stmt.model()).2 == flow_outcome(r));
        if heap_in_order(s0.heap) {
            law_exec_keeps_names_in_order(FUEL as nat, s0, interpreter.log(), l0.len(), environment as nat, stmt.model());
        }
    }
    match r {
        Ok(()) => Ok(()),
        Err(Flow::Return(v)) => Err(ExecuteError::ControlFlow(v)),
        Err(Flow::Fault(Fault::Error(e))) => Err(ExecuteError::RuntimeError(e)),
        Err(Flow::Fault(Fault::Halt(_))) => {
            proof {
                assert(false);
            }
            Ok(())
        },
    }
}

/// Runs a program in a new outermost environment; a `return` at the top
/// level ends its own statement only. Stops at the first error.
pub fn interpret<N: Numerics>(statements: Vec<Stmt>, interpreter: &mut Interpreter<N>) -> (r: Result<(), RuntimeError>)
    requires
        !program_may_halt(old(interpreter).numbers(), old(interpreter).state(), old(interpreter).log(), stmts_model(statements@)),
    ensures
        final(interpreter).numbers() == old(interpreter).numbers(),
        answered_by(final(interpreter).numbers(), final(interpreter).log()),
        extends(final(interpreter).log(), old(interpreter).log()),
        forall|full: Seq<Answer>| extends(full, final(interpreter).log()) ==> #[trigger] program(old(interpreter).state(), full, old(interpreter).log().len(), stmts_model(statements@))
            == (final(interpreter).state(), final(interpreter).log().len(), interpret_outcome(r)),
        heap_in_order(old(interpreter).state().heap) ==> heap_in_order(final(interpreter).state().heap),
{
    let ghost s0 = interpreter.state();
    let ghost l0 = interpreter.log();
    let r = interpreter.interpret_checked(&statements);
    proof {
        lemma_extends_refl(interpreter.log());
        assert(program(s0, interpreter.log(), l0.len(), stmts_model(statements@)).2 == program_outcome(r));
        if heap_in_order(s0.heap) {
            law_program_keeps_names_in_order(s0, interpreter.log(), l0.len(), stmts_model(statements@));
        }
    }
    match r {
        Ok(()) => Ok(()),
        Err(Fault::Error(e)) => Err(e),
        Err(Fault::Halt(_)) => {
            proof {
                assert(false);
            }
            Ok(())
        },
    }
}

} // verus!
