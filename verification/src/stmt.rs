use vstd::prelude::*;
use crate::expr::Expr;
use crate::tokens::Token;
use std::rc::Rc;

verus! {

/// A Lox statement.
#[derive(Debug)]
pub enum Stmt {
    If(If),
    While(While),
    Block(Vec<Stmt>),
    Class(Class),
    Expression(Expr),
    Var(Var),
    Print(Expr),
    Function(Function),
    Return(Return),
}

#[derive(Debug)]
pub struct If {
    pub condition: Expr,
    pub then_branch: Box<Stmt>,
    pub else_branch: Option<Box<Stmt>>,
}

#[derive(Debug)]
pub struct While {
    pub condition: Expr,
    pub body: Box<Stmt>,
}

#[derive(Debug)]
pub struct Class {
    pub name: Token,
    pub methods: Vec<Stmt>,
    pub superclass: Option<Expr>,
}

#[derive(Debug)]
pub struct Var {
    pub name: Token,
    pub initializer: Option<Expr>,
}

#[derive(Debug)]
pub struct Function {
    pub name: Token,
    pub params: Vec<Token>,
    pub body: Rc<Vec<Stmt>>,
}

#[derive(Debug)]
pub struct Return {
    pub keyword: Token,
    pub value: Option<Expr>,
}

/// The shape that the parser gives statements: a class names its superclass by a
/// variable (if it has one) and lists only function declarations as methods.
pub open spec fn stmt_ok(s: Stmt) -> bool
    decreases s,
{
    match s {
        Stmt::Block(v) => forall|i: int| 0 <= i < v@.len() ==> stmt_ok(#[trigger] v@[i]),
        Stmt::Class(c) => {
            &&& (c.superclass matches Some(e) ==> e is Variable)
            &&& forall|i: int|
                0 <= i < c.methods@.len() ==> (#[trigger] c.methods@[i] is Function && stmt_ok(
                    c.methods@[i],
                ))
        },
        Stmt::Function(f) => forall|i: int| 0 <= i < (*f.body)@.len() ==> stmt_ok(#[trigger] (*f.body)@[i]),
        Stmt::If(i) => stmt_ok(*i.then_branch) && match i.else_branch {
            Some(e) => stmt_ok(*e),
            None => true,
        },
        Stmt::While(w) => stmt_ok(*w.body),
        _ => true,
    }
}

/// Every statement of `v` has the shape that the parser gives statements.
pub open spec fn stmts_ok(v: Seq<Stmt>) -> bool {
    forall|i: int| 0 <= i < v.len() ==> stmt_ok(#[trigger] v[i])
}




} // verus!
