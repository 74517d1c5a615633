use vstd::prelude::*;

use crate::stmt::{clone_stmts, clone_tokens, stmts_model, Stmt, StmtV};
use crate::token::Token;

verus! {

/// A runtime value. Numbers are IEEE-754 binary64 values held as their bit
/// pattern; a function holds the index of the environment it closes over.
#[derive(Debug, PartialEq)]
pub enum Value {
    String(String),
    Number(u64),
    Boolean(bool),
    Fun { params: Vec<Token>, body: Vec<Stmt>, environment: usize },
    Nil,
}

/// The model of a [`Value`].
pub enum ValueV {
    String(Seq<char>),
    Number(u64),
    Boolean(bool),
    Fun(Seq<Token>, Seq<StmtV>, nat),
    Nil,
}

impl Value {
    pub open spec fn model(&self) -> ValueV {
        match self {
            Value::String(s) => ValueV::String(s@),
            Value::Number(n) => ValueV::Number(*n),
            Value::Boolean(b) => ValueV::Boolean(*b),
            Value::Fun { params, body, environment } => ValueV::Fun(params@, stmts_model(body@), *environment as nat),
            Value::Nil => ValueV::Nil,
        }
    }
}

/// A copy of `v`.
pub fn clone_value(v: &Value) -> (r: Value)
    ensures
        r.model() == v.model(),
{
    match v {
        Value::String(s) => Value::String(s.clone()),
        Value::Number(n) => Value::Number(*n),
        Value::Boolean(b) => Value::Boolean(*b),
        Value::Fun { params, body, environment } => Value::Fun {
            params: clone_tokens(params),
            body: clone_stmts(body),
            environment: *environment,
        },
        Value::Nil => Value::Nil,
    }
}

impl Clone for Value {
    fn clone(&self) -> (r: Self)
        ensures
            r.model() == self.model(),
    {
        clone_value(self)
    }
}

} // verus!
