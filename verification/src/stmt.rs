use vstd::prelude::*;

use crate::expr::{exprs_model, lemma_exprs_model_push, Expr, ExprV};
use crate::token::{Literal, Token};

verus! {

broadcast use vstd::seq::group_seq_axioms;

#[derive(Debug, PartialEq)]
pub enum Stmt {
    Expression { expression: Expr },
    If { keyword: Token, condition: Expr, consq: Box<Stmt>, altern: Option<Box<Stmt>> },
    Print { expression: Expr },
    Var { name: Token, initializer: Expr },
    Block { statements: Vec<Stmt> },
    While { condition: Expr, body: Box<Stmt> },
    Fun { name: Token, params: Vec<Token>, body: Vec<Stmt> },
    Return { keyword: Token, value: Option<Expr> },
}

pub enum StmtV {
    Expression(ExprV),
    If(Token, ExprV, Box<StmtV>, Option<Box<StmtV>>),
    Print(ExprV),
    Var(Token, ExprV),
    Block(Seq<StmtV>),
    While(ExprV, Box<StmtV>),
    Fun(Token, Seq<Token>, Seq<StmtV>),
    Return(Token, Option<ExprV>),
}

impl Stmt {
    pub open spec fn model(&self) -> StmtV
        decreases self,
    {
        match self {
            Stmt::Expression { expression } => StmtV::Expression(expression.model()),
            Stmt::If { keyword, condition, consq, altern } => StmtV::If(
                *keyword,
                condition.model(),
                Box::new(consq.model()),
                match altern {
                    Some(a) => Some(Box::new(a.model())),
                    None => None,
                },
            ),
            Stmt::Print { expression } => StmtV::Print(expression.model()),
            Stmt::Var { name, initializer } => StmtV::Var(*name, initializer.model()),
            Stmt::Block { statements } => StmtV::Block(stmts_model(statements@)),
            Stmt::While { condition, body } => StmtV::While(condition.model(), Box::new(body.model())),
            Stmt::Fun { name, params, body } => StmtV::Fun(*name, params@, stmts_model(body@)),
            Stmt::Return { keyword, value } => StmtV::Return(*keyword, match value {
                Some(v) => Some(v.model()),
                None => None,
            }),
        }
    }
}

pub open spec fn stmts_model(s: Seq<Stmt>) -> Seq<StmtV>
    decreases s,
{
    if s.len() == 0 {
        Seq::empty()
    } else {
        stmts_model(s.subrange(0, s.len() - 1)).push(s[s.len() - 1].model())
    }
}

pub proof fn lemma_stmts_model_push(v: Seq<Stmt>, s: Stmt)
    ensures
        stmts_model(v.push(s)) == stmts_model(v).push(s.model()),
{
    assert(v.push(s).subrange(0, v.len() as int) =~= v);
}

pub proof fn lemma_stmts_model_len(v: Seq<Stmt>)
    ensures
        stmts_model(v).len() == v.len(),
    decreases v.len(),
{
    if v.len() > 0 {
        lemma_stmts_model_len(v.subrange(0, v.len() - 1));
    }
}

pub proof fn lemma_stmts_model_index(v: Seq<Stmt>, i: int)
    requires
        0 <= i < v.len(),
    ensures
        stmts_model(v)[i] == v[i].model(),
    decreases v.len(),
{
    lemma_stmts_model_len(v.subrange(0, v.len() - 1));
    if i < v.len() - 1 {
        lemma_stmts_model_index(v.subrange(0, v.len() - 1), i);
    }
}

/// A copy of `e`.
pub fn clone_expr(e: &Expr) -> (r: Expr)
    ensures
        r.model() == e.model(),
    decreases e,
{
    match e {
        Expr::Literal { value } => Expr::Literal { value: value.clone() },
        Expr::Unary { operator, right } => Expr::Unary {
            operator: operator.clone(),
            right: Box::new(clone_expr(right)),
        },
        Expr::Binary { left, operator, right } => Expr::Binary {
            left: Box::new(clone_expr(left)),
            operator: operator.clone(),
            right: Box::new(clone_expr(right)),
        },
        Expr::Grouping { expression } => Expr::Grouping { expression: Box::new(clone_expr(expression)) },
        Expr::Variable { name } => Expr::Variable { name: name.clone() },
        Expr::Assign { name, value } => Expr::Assign { name: name.clone(), value: Box::new(clone_expr(value)) },
        Expr::Fun { params, body } => Expr::Fun { params: clone_tokens(params), body: clone_stmts(body) },
        Expr::Call { fun, paren, arguments } => Expr::Call {
            fun: Box::new(clone_expr(fun)),
            paren: paren.clone(),
            arguments: clone_exprs(arguments),
        },
    }
}

/// A copy of `v`.
pub fn clone_tokens(v: &Vec<Token>) -> (r: Vec<Token>)
    ensures
        r@ == v@,
{
    let mut r: Vec<Token> = Vec::new();
    let mut i: usize = 0;
    while i < v.len()
        invariant
            i <= v.len(),
            r@ == v@.subrange(0, i as int),
        decreases v.len() - i,
    {
        r.push(v[i].clone());
        i = i + 1;
        assert(r@ =~= v@.subrange(0, i as int));
    }
    assert(v@.subrange(0, v.len() as int) =~= v@);
    r
}

/// A copy of `v`.
pub fn clone_exprs(v: &Vec<Expr>) -> (r: Vec<Expr>)
    ensures
        exprs_model(r@) == exprs_model(v@),
    decreases v,
{
    let mut r: Vec<Expr> = Vec::new();
    let mut i: usize = 0;
    while i < v.len()
        invariant
            i <= v.len(),
            exprs_model(r@) == exprs_model(v@.subrange(0, i as int)),
        decreases v.len() - i,
    {
        proof {
            vstd::std_specs::vec::axiom_vec_index_decreases(*v, i as int);
        }
        let c = clone_expr(&v[i]);
        proof {
            lemma_exprs_model_push(r@, c);
            lemma_exprs_model_push(v@.subrange(0, i as int), v@[i as int]);
            assert(v@.subrange(0, i as int).push(v@[i as int]) =~= v@.subrange(0, i + 1));
        }
        r.push(c);
        i = i + 1;
    }
    assert(v@.subrange(0, v.len() as int) =~= v@);
    r
}

/// A copy of `s`.
pub fn clone_stmt(s: &Stmt) -> (r: Stmt)
    ensures
        r.model() == s.model(),
    decreases s,
{
    match s {
        Stmt::Expression { expression } => Stmt::Expression { expression: clone_expr(expression) },
        Stmt::If { keyword, condition, consq, altern } => {
            let a = match altern {
                Some(b) => Some(Box::new(clone_stmt(b))),
                None => None,
            };
            Stmt::If {
                keyword: keyword.clone(),
                condition: clone_expr(condition),
                consq: Box::new(clone_stmt(consq)),
                altern: a,
            }
        },
        Stmt::Print { expression } => Stmt::Print { expression: clone_expr(expression) },
        Stmt::Var { name, initializer } => Stmt::Var { name: name.clone(), initializer: clone_expr(initializer) },
        Stmt::Block { statements } => Stmt::Block { statements: clone_stmts(statements) },
        Stmt::While { condition, body } => Stmt::While { condition: clone_expr(condition), body: Box::new(clone_stmt(body)) },
        Stmt::Fun { name, params, body } => Stmt::Fun { name: name.clone(), params: clone_tokens(params), body: clone_stmts(body) },
        Stmt::Return { keyword, value } => {
            let v = match value {
                Some(e) => Some(clone_expr(e)),
                None => None,
            };
            Stmt::Return { keyword: keyword.clone(), value: v }
        },
    }
}

/// A copy of `v`.
pub fn clone_stmts(v: &Vec<Stmt>) -> (r: Vec<Stmt>)
    ensures
        stmts_model(r@) == stmts_model(v@),
    decreases v,
{
    let mut r: Vec<Stmt> = Vec::new();
    let mut i: usize = 0;
    while i < v.len()
        invariant
            i <= v.len(),
            stmts_model(r@) == stmts_model(v@.subrange(0, i as int)),
        decreases v.len() - i,
    {
        proof {
            vstd::std_specs::vec::axiom_vec_index_decreases(*v, i as int);
        }
        let c = clone_stmt(&v[i]);
        proof {
            lemma_stmts_model_push(r@, c);
            lemma_stmts_model_push(v@.subrange(0, i as int), v@[i as int]);
            assert(v@.subrange(0, i as int).push(v@[i as int]) =~= v@.subrange(0, i + 1));
        }
        r.push(c);
        i = i + 1;
    }
    assert(v@.subrange(0, v.len() as int) =~= v@);
    r
}

impl Clone for Expr {
    fn clone(&self) -> (r: Self)
        ensures
            r.model() == self.model(),
    {
        clone_expr(self)
    }
}

impl Clone for Stmt {
    fn clone(&self) -> (r: Self)
        ensures
            r.model() == self.model(),
    {
        clone_stmt(self)
    }
}

} // verus!
