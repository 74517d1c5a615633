use vstd::prelude::*;

use crate::environment::{Heap, ScopeV};
use crate::expr::{exprs_model, lemma_exprs_model_len, lemma_exprs_model_push, Expr, ExprV};
use crate::numbers::{equal, num_eq};
use crate::stmt::{lemma_stmts_model_len, lemma_stmts_model_push, stmts_model, Stmt, StmtV};
use crate::token::{Literal, Token};
use crate::value::{Value, ValueV};

verus! {

broadcast use vstd::seq::group_seq_axioms;

/// Why comparing two values never gives an answer: an environment held for
/// writing had to be read, or the comparison would recurse forever.
#[derive(Clone, Copy, Debug, PartialEq, Eq, Structural)]
pub enum Stuck {
    AlreadyBorrowed,
    Cycle,
}

// ---------------------------------------------------------------------------
// Equality of literals, tokens and syntax trees, field by field; numbers
// compare as IEEE-754 values.
// ---------------------------------------------------------------------------

pub open spec fn literal_eq(a: Literal, b: Literal) -> bool {
    match (a, b) {
        (Literal::String(x), Literal::String(y)) => x@ == y@,
        (Literal::Number(x), Literal::Number(y)) => num_eq(x, y),
        (Literal::Boolean(x), Literal::Boolean(y)) => x == y,
        (Literal::Nil, Literal::Nil) => true,
        _ => false,
    }
}

pub open spec fn token_eq(a: Token, b: Token) -> bool {
    a.token_type == b.token_type && a.lexeme@ == b.lexeme@ && literal_eq(a.literal, b.literal) && a.line == b.line
}

pub open spec fn tokens_eq(a: Seq<Token>, b: Seq<Token>) -> bool
    decreases a.len(),
{
    if a.len() != b.len() {
        false
    } else if a.len() == 0 {
        true
    } else {
        tokens_eq(a.drop_last(), b.drop_last()) && token_eq(a.last(), b.last())
    }
}

pub open spec fn expr_eq(a: ExprV, b: ExprV) -> bool
    decreases a,
{
    match (a, b) {
        (ExprV::Literal(x), ExprV::Literal(y)) => literal_eq(x, y),
        (ExprV::Unary(o1, r1), ExprV::Unary(o2, r2)) => token_eq(o1, o2) && expr_eq(*r1, *r2),
        (ExprV::Binary(l1, o1, r1), ExprV::Binary(l2, o2, r2)) => expr_eq(*l1, *l2) && token_eq(o1, o2) && expr_eq(*r1, *r2),
        (ExprV::Grouping(x), ExprV::Grouping(y)) => expr_eq(*x, *y),
        (ExprV::Variable(x), ExprV::Variable(y)) => token_eq(x, y),
        (ExprV::Assign(n1, v1), ExprV::Assign(n2, v2)) => token_eq(n1, n2) && expr_eq(*v1, *v2),
        (ExprV::Fun(p1, b1), ExprV::Fun(p2, b2)) => tokens_eq(p1, p2) && stmts_eq(b1, b2),
        (ExprV::Call(f1, p1, a1), ExprV::Call(f2, p2, a2)) => expr_eq(*f1, *f2) && token_eq(p1, p2) && exprs_eq(a1, a2),
        _ => false,
    }
}

pub open spec fn exprs_eq(a: Seq<ExprV>, b: Seq<ExprV>) -> bool
    decreases a,
{
    if a.len() != b.len() {
        false
    } else if a.len() == 0 {
        true
    } else {
        exprs_eq(a.drop_last(), b.drop_last()) && expr_eq(a.last(), b.last())
    }
}

pub open spec fn stmt_eq(a: StmtV, b: StmtV) -> bool
    decreases a,
{
    match (a, b) {
        (StmtV::Expression(x), StmtV::Expression(y)) => expr_eq(x, y),
        (StmtV::If(k1, c1, t1, e1), StmtV::If(k2, c2, t2, e2)) => token_eq(k1, k2) && expr_eq(c1, c2) && stmt_eq(*t1, *t2)
            && match (e1, e2) {
            (Some(x), Some(y)) => stmt_eq(*x, *y),
            (None, None) => true,
            _ => false,
        },
        (StmtV::Print(x), StmtV::Print(y)) => expr_eq(x, y),
        (StmtV::Var(n1, i1), StmtV::Var(n2, i2)) => token_eq(n1, n2) && expr_eq(i1, i2),
        (StmtV::Block(x), StmtV::Block(y)) => stmts_eq(x, y),
        (StmtV::While(c1, b1), StmtV::While(c2, b2)) => expr_eq(c1, c2) && stmt_eq(*b1, *b2),
        (StmtV::Fun(n1, p1, b1), StmtV::Fun(n2, p2, b2)) => token_eq(n1, n2) && tokens_eq(p1, p2) && stmts_eq(b1, b2),
        (StmtV::Return(k1, v1), StmtV::Return(k2, v2)) => token_eq(k1, k2) && match (v1, v2) {
            (Some(x), Some(y)) => expr_eq(x, y),
            (None, None) => true,
            _ => false,
        },
        _ => false,
    }
}

pub open spec fn stmts_eq(a: Seq<StmtV>, b: Seq<StmtV>) -> bool
    decreases a,
{
    if a.len() != b.len() {
        false
    } else if a.len() == 0 {
        true
    } else {
        stmts_eq(a.drop_last(), b.drop_last()) && stmt_eq(a.last(), b.last())
    }
}

pub fn literal_equal(a: &Literal, b: &Literal) -> (r: bool)
    ensures
        r == literal_eq(*a, *b),
{
    match (a, b) {
        (Literal::String(x), Literal::String(y)) => *x == *y,
        (Literal::Number(x), Literal::Number(y)) => equal(*x, *y),
        (Literal::Boolean(x), Literal::Boolean(y)) => *x == *y,
        (Literal::Nil, Literal::Nil) => true,
        _ => false,
    }
}

pub fn token_equal(a: &Token, b: &Token) -> (r: bool)
    ensures
        r == token_eq(*a, *b),
{
    a.token_type == b.token_type && a.lexeme == b.lexeme && literal_equal(&a.literal, &b.literal) && a.line == b.line
}

pub fn tokens_equal(a: &Vec<Token>, b: &Vec<Token>) -> (r: bool)
    ensures
        r == tokens_eq(a@, b@),
{
    if a.len() != b.len() {
        return false;
    }
    let mut ok = true;
    let mut i: usize = 0;
    while i < a.len()
        invariant
            a.len() == b.len(),
            i <= a.len(),
            ok == tokens_eq(a@.take(i as int), b@.take(i as int)),
        decreases a.len() - i,
    {
        assert(a@.take(i + 1).drop_last() =~= a@.take(i as int));
        assert(b@.take(i + 1).drop_last() =~= b@.take(i as int));
        ok = ok && token_equal(&a[i], &b[i]);
        i = i + 1;
    }
    assert(a@.take(a.len() as int) =~= a@);
    assert(b@.take(b.len() as int) =~= b@);
    ok
}

#[verifier::spinoff_prover]
#[verifier::rlimit(50)]
pub fn expr_equal(a: &Expr, b: &Expr) -> (r: bool)
    ensures
        r == expr_eq(a.model(), b.model()),
    decreases a,
{
    match (a, b) {
        (Expr::Literal { value: x }, Expr::Literal { value: y }) => literal_equal(x, y),
        (Expr::Unary { operator: o1, right: r1 }, Expr::Unary { operator: o2, right: r2 }) => token_equal(o1, o2)
            && expr_equal(r1, r2),
        (Expr::Binary { left: l1, operator: o1, right: r1 }, Expr::Binary { left: l2, operator: o2, right: r2 }) => {
            expr_equal(l1, l2) && token_equal(o1, o2) && expr_equal(r1, r2)
        },
        (Expr::Grouping { expression: x }, Expr::Grouping { expression: y }) => expr_equal(x, y),
        (Expr::Variable { name: x }, Expr::Variable { name: y }) => token_equal(x, y),
        (Expr::Assign { name: n1, value: v1 }, Expr::Assign { name: n2, value: v2 }) => token_equal(n1, n2) && expr_equal(
            v1,
            v2,
        ),
        (Expr::Fun { params: p1, body: b1 }, Expr::Fun { params: p2, body: b2 }) => tokens_equal(p1, p2) && stmts_equal(
            b1,
            b2,
        ),
        (Expr::Call { fun: f1, paren: p1, arguments: a1 }, Expr::Call { fun: f2, paren: p2, arguments: a2 }) => {
            expr_equal(f1, f2) && token_equal(p1, p2) && exprs_equal(a1, a2)
        },
        _ => false,
    }
}

pub fn exprs_equal(a: &Vec<Expr>, b: &Vec<Expr>) -> (r: bool)
    ensures
        r == exprs_eq(exprs_model(a@), exprs_model(b@)),
    decreases a,
{
    proof {
        lemma_exprs_model_len(a@);
        lemma_exprs_model_len(b@);
    }
    if a.len() != b.len() {
        return false;
    }
    let mut ok = true;
    let mut i: usize = 0;
    while i < a.len()
        invariant
            a.len() == b.len(),
            i <= a.len(),
            ok == exprs_eq(exprs_model(a@.take(i as int)), exprs_model(b@.take(i as int))),
        decreases a.len() - i,
    {
        proof {
            vstd::std_specs::vec::axiom_vec_index_decreases(*a, i as int);
            assert(a@.take(i as int).push(a@[i as int]) =~= a@.take(i + 1));
            assert(b@.take(i as int).push(b@[i as int]) =~= b@.take(i + 1));
            lemma_exprs_model_push(a@.take(i as int), a@[i as int]);
            lemma_exprs_model_push(b@.take(i as int), b@[i as int]);
            lemma_exprs_model_len(a@.take(i as int));
            lemma_exprs_model_len(b@.take(i as int));
            assert(exprs_model(a@.take(i + 1)).drop_last() =~= exprs_model(a@.take(i as int)));
            assert(exprs_model(b@.take(i + 1)).drop_last() =~= exprs_model(b@.take(i as int)));
        }
        ok = ok && expr_equal(&a[i], &b[i]);
        i = i + 1;
    }
    assert(a@.take(a.len() as int) =~= a@);
    assert(b@.take(b.len() as int) =~= b@);
    ok
}

#[verifier::spinoff_prover]
#[verifier::rlimit(50)]
pub fn stmt_equal(a: &Stmt, b: &Stmt) -> (r: bool)
    ensures
        r == stmt_eq(a.model(), b.model()),
    decreases a,
{
    match (a, b) {
        (Stmt::Expression { expression: x }, Stmt::Expression { expression: y }) => expr_equal(x, y),
        (
            Stmt::If { keyword: k1, condition: c1, consq: t1, altern: e1 },
            Stmt::If { keyword: k2, condition: c2, consq: t2, altern: e2 },
        ) => {
            token_equal(k1, k2) && expr_equal(c1, c2) && stmt_equal(t1, t2) && match (e1, e2) {
                (Some(x), Some(y)) => stmt_equal(x, y),
                (None, None) => true,
                _ => false,
            }
        },
        (Stmt::Print { expression: x }, Stmt::Print { expression: y }) => expr_equal(x, y),
        (Stmt::Var { name: n1, initializer: i1 }, Stmt::Var { name: n2, initializer: i2 }) => token_equal(n1, n2)
            && expr_equal(i1, i2),
        (Stmt::Block { statements: x }, Stmt::Block { statements: y }) => stmts_equal(x, y),
        (Stmt::While { condition: c1, body: b1 }, Stmt::While { condition: c2, body: b2 }) => expr_equal(c1, c2)
            && stmt_equal(b1, b2),
        (Stmt::Fun { name: n1, params: p1, body: b1 }, Stmt::Fun { name: n2, params: p2, body: b2 }) => {
            token_equal(n1, n2) && tokens_equal(p1, p2) && stmts_equal(b1, b2)
        },
        (Stmt::Return { keyword: k1, value: v1 }, Stmt::Return { keyword: k2, value: v2 }) => {
            token_equal(k1, k2) && match (v1, v2) {
                (Some(x), Some(y)) => expr_equal(x, y),
                (None, None) => true,
                _ => false,
            }
        },
        _ => false,
    }
}

pub fn stmts_equal(a: &Vec<Stmt>, b: &Vec<Stmt>) -> (r: bool)
    ensures
        r == stmts_eq(stmts_model(a@), stmts_model(b@)),
    decreases a,
{
    proof {
        lemma_stmts_model_len(a@);
        lemma_stmts_model_len(b@);
    }
    if a.len() != b.len() {
        return false;
    }
    let mut ok = true;
    let mut i: usize = 0;
    while i < a.len()
        invariant
            a.len() == b.len(),
            i <= a.len(),
            ok == stmts_eq(stmts_model(a@.take(i as int)), stmts_model(b@.take(i as int))),
        decreases a.len() - i,
    {
        proof {
            vstd::std_specs::vec::axiom_vec_index_decreases(*a, i as int);
            assert(a@.take(i as int).push(a@[i as int]) =~= a@.take(i + 1));
            assert(b@.take(i as int).push(b@[i as int]) =~= b@.take(i + 1));
            lemma_stmts_model_push(a@.take(i as int), a@[i as int]);
            lemma_stmts_model_push(b@.take(i as int), b@[i as int]);
            lemma_stmts_model_len(a@.take(i as int));
            lemma_stmts_model_len(b@.take(i as int));
            assert(stmts_model(a@.take(i + 1)).drop_last() =~= stmts_model(a@.take(i as int)));
            assert(stmts_model(b@.take(i + 1)).drop_last() =~= stmts_model(b@.take(i as int)));
        }
        ok = ok && stmt_equal(&a[i], &b[i]);
        i = i + 1;
    }
    assert(a@.take(a.len() as int) =~= a@);
    assert(b@.take(b.len() as int) =~= b@);
    ok
}

// ---------------------------------------------------------------------------
// Equality of values. Functions compare by parameters, body and the contents
// of the environments they close over, as derived equality on shared cells
// does; comparing an environment with itself again while doing so would
// recurse forever.
// ---------------------------------------------------------------------------

pub open spec fn value_eq(h: Seq<ScopeV>, a: ValueV, b: ValueV, stack: Seq<(nat, nat)>, depth: nat) -> Result<bool, Stuck>
    decreases depth, 1nat, 0nat,
{
    match (a, b) {
        (ValueV::String(x), ValueV::String(y)) => Ok(x == y),
        (ValueV::Number(x), ValueV::Number(y)) => Ok(num_eq(x, y)),
        (ValueV::Boolean(x), ValueV::Boolean(y)) => Ok(x == y),
        (ValueV::Nil, ValueV::Nil) => Ok(true),
        (ValueV::Fun(p1, b1, e1), ValueV::Fun(p2, b2, e2)) => if !tokens_eq(p1, p2) || !stmts_eq(b1, b2) {
            Ok(false)
        } else {
            cell_eq(h, e1, e2, stack, depth)
        },
        _ => Ok(false),
    }
}

pub open spec fn cell_eq(h: Seq<ScopeV>, e1: nat, e2: nat, stack: Seq<(nat, nat)>, depth: nat) -> Result<bool, Stuck>
    decreases depth, 0nat, 0nat,
{
    if e1 >= h.len() || e2 >= h.len() {
        Ok(false)
    } else if h[e1 as int].borrowed || h[e2 as int].borrowed {
        Err(Stuck::AlreadyBorrowed)
    } else if stack.contains((e1, e2)) || depth == 0 {
        Err(Stuck::Cycle)
    } else {
        env_eq(h, e1, e2, stack.push((e1, e2)), (depth - 1) as nat)
    }
}

pub open spec fn env_eq(h: Seq<ScopeV>, e1: nat, e2: nat, stack: Seq<(nat, nat)>, depth: nat) -> Result<bool, Stuck>
    decreases depth, 3nat, 0nat,
{
    if e1 >= h.len() || e2 >= h.len() {
        Ok(false)
    } else {
        let enclosing = match (h[e1 as int].enclosing, h[e2 as int].enclosing) {
            (None, None) => Ok(true),
            (Some(p1), Some(p2)) => cell_eq(h, p1, p2, stack, depth),
            _ => Ok(false),
        };
        match enclosing {
            Err(s) => Err(s),
            Ok(false) => Ok(false),
            Ok(true) => if h[e1 as int].values.len() != h[e2 as int].values.len() {
                Ok(false)
            } else {
                entries_eq(h, e1, e2, 0, stack, depth)
            },
        }
    }
}

pub open spec fn entries_eq(h: Seq<ScopeV>, e1: nat, e2: nat, i: nat, stack: Seq<(nat, nat)>, depth: nat) -> Result<bool, Stuck>
    decreases depth, 2nat, h[e1 as int].values.len() - i,
{
    if e1 >= h.len() || e2 >= h.len() || i >= h[e1 as int].values.len() || i >= h[e2 as int].values.len() {
        Ok(true)
    } else if h[e1 as int].values[i as int].0 != h[e2 as int].values[i as int].0 {
        Ok(false)
    } else {
        match value_eq(h, h[e1 as int].values[i as int].1, h[e2 as int].values[i as int].1, stack, depth) {
            Err(s) => Err(s),
            Ok(false) => Ok(false),
            Ok(true) => entries_eq(h, e1, e2, i + 1, stack, depth),
        }
    }
}

/// The bound on nested comparisons of environments: more than there are
/// pairs of environments.
pub open spec fn eq_depth(h: Seq<ScopeV>) -> nat {
    if h.len() * h.len() < u64::MAX {
        (h.len() * h.len() + 1) as nat
    } else {
        u64::MAX as nat
    }
}

fn stack_contains(v: &Vec<(usize, usize)>, p: (usize, usize)) -> (r: bool)
    ensures
        r == v@.map_values(|x: (usize, usize)| (x.0 as nat, x.1 as nat)).contains((p.0 as nat, p.1 as nat)),
{
    let ghost m = v@.map_values(|x: (usize, usize)| (x.0 as nat, x.1 as nat));
    let mut i: usize = 0;
    while i < v.len()
        invariant
            i <= v.len(),
            m == v@.map_values(|x: (usize, usize)| (x.0 as nat, x.1 as nat)),
            forall|j: int| 0 <= j < i ==> m[j] != (p.0 as nat, p.1 as nat),
        decreases v.len() - i,
    {
        if v[i].0 == p.0 && v[i].1 == p.1 {
            assert(m[i as int] == (p.0 as nat, p.1 as nat));
            return true;
        }
        i = i + 1;
    }
    false
}

pub open spec fn stack_model(v: Seq<(usize, usize)>) -> Seq<(nat, nat)> {
    v.map_values(|x: (usize, usize)| (x.0 as nat, x.1 as nat))
}

pub fn value_equal(h: &Heap, a: &Value, b: &Value, stack: &mut Vec<(usize, usize)>, depth: u64) -> (r: Result<bool, Stuck>)
    ensures
        final(stack)@ == old(stack)@,
        r == value_eq(h@, a.model(), b.model(), stack_model(old(stack)@), depth as nat),
    decreases depth, 1nat, 0nat,
{
    match (a, b) {
        (Value::String(x), Value::String(y)) => Ok(*x == *y),
        (Value::Number(x), Value::Number(y)) => Ok(equal(*x, *y)),
        (Value::Boolean(x), Value::Boolean(y)) => Ok(*x == *y),
        (Value::Nil, Value::Nil) => Ok(true),
        (Value::Fun { params: p1, body: b1, environment: e1 }, Value::Fun { params: p2, body: b2, environment: e2 }) => {
            if !tokens_equal(p1, p2) || !stmts_equal(b1, b2) {
                Ok(false)
            } else {
                cell_equal(h, *e1, *e2, stack, depth)
            }
        },
        _ => Ok(false),
    }
}

pub fn cell_equal(h: &Heap, e1: usize, e2: usize, stack: &mut Vec<(usize, usize)>, depth: u64) -> (r: Result<bool, Stuck>)
    ensures
        final(stack)@ == old(stack)@,
        r == cell_eq(h@, e1 as nat, e2 as nat, stack_model(old(stack)@), depth as nat),
    decreases depth, 0nat, 0nat,
{
    if e1 >= h.len() || e2 >= h.len() {
        return Ok(false);
    }
    if h.is_borrowed(e1) || h.is_borrowed(e2) {
        return Err(Stuck::AlreadyBorrowed);
    }
    if stack_contains(stack, (e1, e2)) || depth == 0 {
        return Err(Stuck::Cycle);
    }
    let ghost sm = stack_model(stack@);
    stack.push((e1, e2));
    assert(stack_model(stack@) =~= sm.push((e1 as nat, e2 as nat)));
    let r = env_equal(h, e1, e2, stack, depth - 1);
    stack.pop();
    assert(stack@ =~= old(stack)@);
    r
}

pub fn env_equal(h: &Heap, e1: usize, e2: usize, stack: &mut Vec<(usize, usize)>, depth: u64) -> (r: Result<bool, Stuck>)
    ensures
        final(stack)@ == old(stack)@,
        r == env_eq(h@, e1 as nat, e2 as nat, stack_model(old(stack)@), depth as nat),
    decreases depth, 3nat, 0nat,
{
    if e1 >= h.len() || e2 >= h.len() {
        return Ok(false);
    }
    let enclosing = match (h.enclosing(e1), h.enclosing(e2)) {
        (None, None) => Ok(true),
        (Some(p1), Some(p2)) => cell_equal(h, p1, p2, stack, depth),
        _ => Ok(false),
    };
    match enclosing {
        Err(s) => Err(s),
        Ok(false) => Ok(false),
        Ok(true) => if h.count(e1) != h.count(e2) {
            Ok(false)
        } else {
            entries_equal(h, e1, e2, 0, stack, depth)
        },
    }
}

pub fn entries_equal(h: &Heap, e1: usize, e2: usize, i: usize, stack: &mut Vec<(usize, usize)>, depth: u64) -> (r: Result<bool, Stuck>)
    requires
        e1 < h@.len(),
        i <= h@[e1 as int].values.len(),
    ensures
        final(stack)@ == old(stack)@,
        r == entries_eq(h@, e1 as nat, e2 as nat, i as nat, stack_model(old(stack)@), depth as nat),
    decreases depth, 2nat, h@[e1 as int].values.len() - i,
{
    if e2 >= h.len() || i >= h.count(e1) || i >= h.count(e2) {
        return Ok(true);
    }
    if *h.name_at(e1, i) != *h.name_at(e2, i) {
        return Ok(false);
    }
    match value_equal(h, h.value_at(e1, i), h.value_at(e2, i), stack, depth) {
        Err(s) => Err(s),
        Ok(false) => Ok(false),
        Ok(true) => entries_equal(h, e1, e2, i + 1, stack, depth),
    }
}

/// The bound on nested comparisons used for a heap of `n` environments.
pub fn eq_depth_exec(n: usize) -> (d: u64)
    ensures
        forall|h: Seq<ScopeV>| h.len() == n ==> d as nat == eq_depth(h),
{
    let m = n as u64;
    match m.checked_mul(m) {
        Some(p) => if p < u64::MAX {
            p + 1
        } else {
            u64::MAX
        },
        None => u64::MAX,
    }
}

} // verus!
