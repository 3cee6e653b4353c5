use vstd::prelude::*;
use crate::tokens::{Literal, Token};

verus! {

/// A Lox expression.
#[derive(Debug)]
pub enum Expr {
    Array(Vec<Expr>),
    Assign(Assign),
    Binary(Binary),
    Call(Call),
    Get(Get),
    Grouping(Grouping),
    Index(Index),
    IndexSet(IndexSet),
    Literal(Literal),
    Logical(Logical),
    SetProperty(SetExpr),
    Super(Super),
    This(Token),
    Unary(Unary),
    Variable(Token),
}

#[derive(Debug)]
pub struct Assign {
    pub name: Token,
    pub value: Box<Expr>,
}

#[derive(Debug)]
pub struct Binary {
    pub left: Box<Expr>,
    pub operator: Token,
    pub right: Box<Expr>,
}

#[derive(Debug)]
pub struct Call {
    pub callee: Box<Expr>,
    pub paren: Token,
    pub args: Vec<Expr>,
}

#[derive(Debug)]
pub struct Grouping {
    pub expression: Box<Expr>,
}

#[derive(Debug)]
pub struct Logical {
    pub left: Box<Expr>,
    pub operator: Token,
    pub right: Box<Expr>,
}

#[derive(Debug)]
pub struct Unary {
    pub operator: Token,
    pub right: Box<Expr>,
}

#[derive(Debug)]
pub struct Get {
    pub expr: Box<Expr>,
    pub name: Token,
}

#[derive(Debug)]
pub struct SetExpr {
    pub expr: Box<Expr>,
    pub name: Token,
    pub value: Box<Expr>,
}

#[derive(Debug)]
pub struct Super {
    pub keyword: Token,
    pub method: Token,
}

/// An index read, e.g. `a[i]`. The `bracket` token is retained for error reporting.
#[derive(Debug)]
pub struct Index {
    pub object: Box<Expr>,
    pub bracket: Token,
    pub index: Box<Expr>,
}

/// An index assignment, e.g. `a[i] = value`.
#[derive(Debug)]
pub struct IndexSet {
    pub object: Box<Expr>,
    pub bracket: Token,
    pub index: Box<Expr>,
    pub value: Box<Expr>,
}



} // verus!
