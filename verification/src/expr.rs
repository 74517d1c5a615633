use vstd::prelude::*;

use crate::stmt::{Stmt, StmtV};
use crate::token::{Literal, Token};

verus! {

broadcast use vstd::seq::group_seq_axioms;

#[derive(Debug, PartialEq)]
pub enum Expr {
    Literal { value: Literal },
    Unary { operator: Token, right: Box<Expr> },
    Binary { left: Box<Expr>, operator: Token, right: Box<Expr> },
    Grouping { expression: Box<Expr> },
    Variable { name: Token },
    Assign { name: Token, value: Box<Expr> },
    Fun { params: Vec<Token>, body: Vec<Stmt> },
    Call { fun: Box<Expr>, paren: Token, arguments: Vec<Expr> },
}

/// The model of an [`Expr`]: the same tree, with sequences in place of vectors.
pub enum ExprV {
    Literal(Literal),
    Unary(Token, Box<ExprV>),
    Binary(Box<ExprV>, Token, Box<ExprV>),
    Grouping(Box<ExprV>),
    Variable(Token),
    Assign(Token, Box<ExprV>),
    Fun(Seq<Token>, Seq<StmtV>),
    Call(Box<ExprV>, Token, Seq<ExprV>),
}

impl Expr {
    pub open spec fn model(&self) -> ExprV
        decreases self,
    {
        match self {
            Expr::Literal { value } => ExprV::Literal(*value),
            Expr::Unary { operator, right } => ExprV::Unary(*operator, Box::new(right.model())),
            Expr::Binary { left, operator, right } => ExprV::Binary(Box::new(left.model()), *operator, Box::new(right.model())),
            Expr::Grouping { expression } => ExprV::Grouping(Box::new(expression.model())),
            Expr::Variable { name } => ExprV::Variable(*name),
            Expr::Assign { name, value } => ExprV::Assign(*name, Box::new(value.model())),
            Expr::Fun { params, body } => ExprV::Fun(params@, crate::stmt::stmts_model(body@)),
            Expr::Call { fun, paren, arguments } => ExprV::Call(Box::new(fun.model()), *paren, exprs_model(arguments@)),
        }
    }
}

pub open spec fn exprs_model(s: Seq<Expr>) -> Seq<ExprV>
    decreases s,
{
    if s.len() == 0 {
        Seq::empty()
    } else {
        exprs_model(s.subrange(0, s.len() - 1)).push(s[s.len() - 1].model())
    }
}

pub proof fn lemma_exprs_model_push(v: Seq<Expr>, e: Expr)
    ensures
        exprs_model(v.push(e)) == exprs_model(v).push(e.model()),
{
    assert(v.push(e).subrange(0, v.len() as int) =~= v);
}

pub proof fn lemma_exprs_model_len(v: Seq<Expr>)
    ensures
        exprs_model(v).len() == v.len(),
    decreases v.len(),
{
    if v.len() > 0 {
        lemma_exprs_model_len(v.subrange(0, v.len() - 1));
    }
}

pub proof fn lemma_exprs_model_index(v: Seq<Expr>, i: int)
    requires
        0 <= i < v.len(),
    ensures
        exprs_model(v)[i] == v[i].model(),
    decreases v.len(),
{
    lemma_exprs_model_len(v.subrange(0, v.len() - 1));
    if i < v.len() - 1 {
        lemma_exprs_model_index(v.subrange(0, v.len() - 1), i);
    }
}

} // verus!
