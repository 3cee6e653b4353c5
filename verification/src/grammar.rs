use vstd::prelude::*;
use crate::expr::Expr;
use crate::stmt::Stmt;
use crate::tokens::{Literal, Token, TokenType};

verus! {

/// An expression as a tree of values: what the parser builds, with its lists as
/// sequences.
pub enum ETree {
    Literal(Literal),
    Variable(Token),
    Grouping(Box<ETree>),
    Unary(Token, Box<ETree>),
    Binary(Box<ETree>, Token, Box<ETree>),
    Logical(Box<ETree>, Token, Box<ETree>),
    Call(Box<ETree>, Token, Seq<ETree>),
    Get(Box<ETree>, Token),
    Assign(Token, Box<ETree>),
    SetProperty(Box<ETree>, Token, Box<ETree>),
    /// Expressions the parser never builds (arrays, indexing, `this`, `super`).
    Other,
}

/// A statement as a tree of values, with its lists as sequences.
pub enum STree {
    Expression(ETree),
    Print(ETree),
    Var(Token, Option<ETree>),
    Block(Seq<STree>),
    If(ETree, Box<STree>, Option<Box<STree>>),
    While(ETree, Box<STree>),
    Function(Token, Seq<Token>, Seq<STree>),
    Class(Token, Option<ETree>, Seq<STree>),
    Return(Token, Option<ETree>),
}

/// The tree of an expression.
pub open spec fn expr_tree(e: Expr) -> ETree
    decreases e,
{
    match e {
        Expr::Literal(l) => ETree::Literal(l),
        Expr::Variable(t) => ETree::Variable(t),
        Expr::Grouping(g) => ETree::Grouping(Box::new(expr_tree(*g.expression))),
        Expr::Unary(u) => ETree::Unary(u.operator, Box::new(expr_tree(*u.right))),
        Expr::Binary(b) => ETree::Binary(Box::new(expr_tree(*b.left)), b.operator, Box::new(expr_tree(*b.right))),
        Expr::Logical(b) => ETree::Logical(Box::new(expr_tree(*b.left)), b.operator, Box::new(expr_tree(*b.right))),
        Expr::Call(c) => ETree::Call(Box::new(expr_tree(*c.callee)), c.paren, expr_trees(c.args@)),
        Expr::Get(g) => ETree::Get(Box::new(expr_tree(*g.expr)), g.name),
        Expr::Assign(a) => ETree::Assign(a.name, Box::new(expr_tree(*a.value))),
        Expr::SetProperty(s) => ETree::SetProperty(Box::new(expr_tree(*s.expr)), s.name, Box::new(expr_tree(*s.value))),
        _ => ETree::Other,
    }
}

/// The trees of a list of expressions.
pub open spec fn expr_trees(es: Seq<Expr>) -> Seq<ETree>
    decreases es,
{
    if es.len() == 0 {
        Seq::empty()
    } else {
        expr_trees(es.drop_last()).push(expr_tree(es.last()))
    }
}

/// A list of expressions has as many trees as expressions.
pub proof fn lemma_expr_trees_len(es: Seq<Expr>)
    ensures
        expr_trees(es).len() == es.len(),
    decreases es.len(),
{
    if es.len() > 0 {
        lemma_expr_trees_len(es.drop_last());
    }
}

/// A list of statements has as many trees as statements.
pub proof fn lemma_stmt_trees_len(v: Seq<Stmt>)
    ensures
        stmt_trees(v).len() == v.len(),
    decreases v.len(),
{
    if v.len() > 0 {
        lemma_stmt_trees_len(v.drop_last());
    }
}

/// The trees of two statements.
pub proof fn lemma_stmt_trees_two(a: Stmt, b: Stmt)
    ensures
        stmt_trees(seq![a, b]) == seq![stmt_tree(a), stmt_tree(b)],
{
    assert(seq![a, b].drop_last() =~= seq![a]);
    assert(seq![a].drop_last() =~= Seq::<Stmt>::empty());
    assert(stmt_trees(Seq::<Stmt>::empty()) =~= Seq::<STree>::empty());
    assert(stmt_trees(seq![a]) == stmt_trees(Seq::<Stmt>::empty()).push(stmt_tree(a)));
    assert(stmt_trees(seq![a]) =~= seq![stmt_tree(a)]);
    assert(stmt_trees(seq![a, b]) == stmt_trees(seq![a]).push(stmt_tree(b)));
    assert(stmt_trees(seq![a, b]) =~= seq![stmt_tree(a), stmt_tree(b)]);
}

/// The tree of an optional expression.
pub open spec fn opt_expr_tree(e: Option<Expr>) -> Option<ETree> {
    match e {
        Some(x) => Some(expr_tree(x)),
        None => None,
    }
}

/// The tree of a statement.
pub open spec fn stmt_tree(s: Stmt) -> STree
    decreases s,
{
    match s {
        Stmt::Expression(e) => STree::Expression(expr_tree(e)),
        Stmt::Print(e) => STree::Print(expr_tree(e)),
        Stmt::Var(v) => STree::Var(v.name, opt_expr_tree(v.initializer)),
        Stmt::Block(b) => STree::Block(stmt_trees(b@)),
        Stmt::If(i) => STree::If(
            expr_tree(i.condition),
            Box::new(stmt_tree(*i.then_branch)),
            match i.else_branch {
                Some(e) => Some(Box::new(stmt_tree(*e))),
                None => None,
            },
        ),
        Stmt::While(w) => STree::While(expr_tree(w.condition), Box::new(stmt_tree(*w.body))),
        Stmt::Function(f) => STree::Function(f.name, f.params@, stmt_trees((*f.body)@)),
        Stmt::Class(c) => STree::Class(c.name, opt_expr_tree(c.superclass), stmt_trees(c.methods@)),
        Stmt::Return(r) => STree::Return(r.keyword, opt_expr_tree(r.value)),
    }
}

/// The trees of a list of statements.
pub open spec fn stmt_trees(v: Seq<Stmt>) -> Seq<STree>
    decreases v,
{
    if v.len() == 0 {
        Seq::empty()
    } else {
        stmt_trees(v.drop_last()).push(stmt_tree(v.last()))
    }
}

/// Whether the token at `i` has type `t`.
pub open spec fn at(ts: Seq<Token>, i: int, t: TokenType) -> bool {
    0 <= i < ts.len() && ts[i].token_type == t
}

/// Whether a token of type `t` is an operator of the binary level `k` (3: factor,
/// 4: term, 5: comparison, 6: equality, 7: `and`, 8: `or`).
pub open spec fn level_op(k: int, t: TokenType) -> bool {
    if k == 3 {
        t == TokenType::Slash || t == TokenType::Star
    } else if k == 4 {
        t == TokenType::Minus || t == TokenType::Plus
    } else if k == 5 {
        t == TokenType::Greater || t == TokenType::GreaterEqual || t == TokenType::Less || t
            == TokenType::LessEqual
    } else if k == 6 {
        t == TokenType::BangEqual || t == TokenType::EqualEqual
    } else if k == 7 {
        t == TokenType::And
    } else {
        t == TokenType::Or
    }
}

/// The node that joins two operands at the binary level `k`.
pub open spec fn join(k: int, l: ETree, op: Token, r: ETree) -> ETree {
    if k >= 7 {
        ETree::Logical(Box::new(l), op, Box::new(r))
    } else {
        ETree::Binary(Box::new(l), op, Box::new(r))
    }
}

/// The primary expression that the tokens from `i` begin, and where it ends.
pub open spec fn g_primary(ts: Seq<Token>, i: int) -> Option<(ETree, int)>
    decreases ts.len() - i, 0int,
{
    if !(0 <= i < ts.len()) {
        None
    } else {
        let t = ts[i];
        match t.token_type {
            TokenType::True => Some((ETree::Literal(Literal::Bool(true)), i + 1)),
            TokenType::False => Some((ETree::Literal(Literal::Bool(false)), i + 1)),
            TokenType::Nil => Some((ETree::Literal(Literal::Nil), i + 1)),
            TokenType::Number | TokenType::String => match t.literal {
                Some(l) => Some((ETree::Literal(l), i + 1)),
                None => None,
            },
            TokenType::Identifier => Some((ETree::Variable(t), i + 1)),
            TokenType::LeftParen => match g_expr(ts, i + 1) {
                Some((e, j)) => if at(ts, j, TokenType::RightParen) {
                    Some((ETree::Grouping(Box::new(e)), j + 1))
                } else {
                    None
                },
                None => None,
            },
            _ => None,
        }
    }
}

/// The calls and property reads that follow the operand `e`, from `j` on.
pub open spec fn g_call_rest(ts: Seq<Token>, e: ETree, j: int) -> Option<(ETree, int)>
    decreases ts.len() - j, 1int,
{
    if j < 0 {
        None
    } else if at(ts, j, TokenType::LeftParen) {
        match g_arguments(ts, e, j + 1) {
            Some((c, k)) => if j < k <= ts.len() {
                g_call_rest(ts, c, k)
            } else {
                None
            },
            None => None,
        }
    } else if at(ts, j, TokenType::Dot) {
        if at(ts, j + 1, TokenType::Identifier) {
            g_call_rest(ts, ETree::Get(Box::new(e), ts[j + 1]), j + 2)
        } else {
            None
        }
    } else {
        Some((e, j))
    }
}

/// The arguments and closing parenthesis of a call of `callee`, from `i` (just
/// after the opening parenthesis).
pub open spec fn g_arguments(ts: Seq<Token>, callee: ETree, i: int) -> Option<(ETree, int)>
    decreases ts.len() - i, 12int,
{
    if i < 0 {
        None
    } else if at(ts, i, TokenType::RightParen) {
        Some((ETree::Call(Box::new(callee), ts[i], Seq::empty()), i + 1))
    } else {
        match g_expr(ts, i) {
            Some((a, j)) => if i < j <= ts.len() {
                g_more_arguments(ts, callee, seq![a], j)
            } else {
                None
            },
            None => None,
        }
    }
}

/// The rest of an argument list after the arguments `args`, from `j`: more
/// arguments after commas (at most 255 in all), then the closing parenthesis.
pub open spec fn g_more_arguments(ts: Seq<Token>, callee: ETree, args: Seq<ETree>, j: int) -> Option<
    (ETree, int),
>
    decreases ts.len() - j, 12int,
{
    if j < 0 {
        None
    } else if at(ts, j, TokenType::Comma) {
        match g_expr(ts, j + 1) {
            Some((a, k)) => if args.len() + 1 > 255 {
                None
            } else if j < k <= ts.len() {
                g_more_arguments(ts, callee, args.push(a), k)
            } else {
                None
            },
            None => None,
        }
    } else if at(ts, j, TokenType::RightParen) {
        Some((ETree::Call(Box::new(callee), ts[j], args), j + 1))
    } else {
        None
    }
}

/// A call-level expression from `i`: a primary followed by calls and property reads.
pub open spec fn g_call(ts: Seq<Token>, i: int) -> Option<(ETree, int)>
    decreases ts.len() - i, 1int,
{
    match g_primary(ts, i) {
        Some((e, j)) => if i < j <= ts.len() {
            g_call_rest(ts, e, j)
        } else {
            None
        },
        None => None,
    }
}

/// A unary-level expression from `i`: `!` or `-` applied to one, or a call.
pub open spec fn g_unary(ts: Seq<Token>, i: int) -> Option<(ETree, int)>
    decreases ts.len() - i, 2int,
{
    if at(ts, i, TokenType::Bang) || at(ts, i, TokenType::Minus) {
        match g_unary(ts, i + 1) {
            Some((r, j)) => Some((ETree::Unary(ts[i], Box::new(r)), j)),
            None => None,
        }
    } else {
        g_call(ts, i)
    }
}

/// An expression of the binary level `k` (3 to 8) from `i`: operands of level
/// `k - 1` joined, left to right, by operators of level `k`.
pub open spec fn g_level(ts: Seq<Token>, i: int, k: int) -> Option<(ETree, int)>
    decreases ts.len() - i, k + 1,
{
    if k < 2 {
        None
    } else if k == 2 {
        g_unary(ts, i)
    } else if k > 8 {
        None
    } else {
        match g_level(ts, i, k - 1) {
            Some((l, j)) => if i < j <= ts.len() {
                g_level_rest(ts, l, j, k)
            } else {
                None
            },
            None => None,
        }
    }
}

/// The operators of level `k` and their right operands that follow `l`, from `j`.
pub open spec fn g_level_rest(ts: Seq<Token>, l: ETree, j: int, k: int) -> Option<(ETree, int)>
    decreases ts.len() - j, k,
{
    if j < 0 || k <= 2 || k > 8 {
        None
    } else if 0 <= j < ts.len() && level_op(k, ts[j].token_type) {
        match g_level(ts, j + 1, k - 1) {
            Some((r, m)) => if j < m <= ts.len() {
                g_level_rest(ts, join(k, l, ts[j], r), m, k)
            } else {
                None
            },
            None => None,
        }
    } else {
        Some((l, j))
    }
}

/// An assignment-level expression from `i`: an `or` expression, or a variable or
/// property read followed by `=` and an assignment (which nests to the right).
pub open spec fn g_assignment(ts: Seq<Token>, i: int) -> Option<(ETree, int)>
    decreases ts.len() - i, 10int,
{
    match g_level(ts, i, 8) {
        Some((l, j)) => if j <= i || j > ts.len() {
            None
        } else if at(ts, j, TokenType::Equal) {
            match l {
                ETree::Variable(t) => match g_assignment(ts, j + 1) {
                    Some((v, m)) => Some((ETree::Assign(t, Box::new(v)), m)),
                    None => None,
                },
                ETree::Get(o, n) => match g_assignment(ts, j + 1) {
                    Some((v, m)) => Some((ETree::SetProperty(o, n, Box::new(v)), m)),
                    None => None,
                },
                _ => None,
            }
        } else {
            Some((l, j))
        },
        None => None,
    }
}

/// An expression from `i`, and where it ends.
pub open spec fn g_expr(ts: Seq<Token>, i: int) -> Option<(ETree, int)>
    decreases ts.len() - i, 11int,
{
    g_assignment(ts, i)
}


/// The tree of an optional statement.
pub open spec fn opt_stmt_tree(s: Option<Stmt>) -> Option<STree> {
    match s {
        Some(x) => Some(stmt_tree(x)),
        None => None,
    }
}

/// An expression statement from `i`: an expression and `;`.
pub open spec fn g_expr_stmt(ts: Seq<Token>, i: int) -> Option<(STree, int)>
    decreases ts.len() - i, 13int,
{
    match g_expr(ts, i) {
        Some((e, j)) => if at(ts, j, TokenType::Semicolon) {
            Some((STree::Expression(e), j + 1))
        } else {
            None
        },
        None => None,
    }
}

/// A `print` statement after its keyword: an expression and `;`.
pub open spec fn g_print(ts: Seq<Token>, i: int) -> Option<(STree, int)> {
    match g_expr(ts, i) {
        Some((e, j)) => if at(ts, j, TokenType::Semicolon) {
            Some((STree::Print(e), j + 1))
        } else {
            None
        },
        None => None,
    }
}

/// A `return` statement after its keyword (the token before `i`): an optional
/// value and `;`.
pub open spec fn g_return(ts: Seq<Token>, i: int) -> Option<(STree, int)> {
    if i < 1 || i > ts.len() {
        None
    } else if at(ts, i, TokenType::Semicolon) {
        Some((STree::Return(ts[i - 1], None), i + 1))
    } else {
        match g_expr(ts, i) {
            Some((v, j)) => if at(ts, j, TokenType::Semicolon) {
                Some((STree::Return(ts[i - 1], Some(v)), j + 1))
            } else {
                None
            },
            None => None,
        }
    }
}

/// A variable declaration after `var`: a name, an optional `=` and initializer,
/// and `;`.
pub open spec fn g_var(ts: Seq<Token>, i: int) -> Option<(STree, int)> {
    if !at(ts, i, TokenType::Identifier) {
        None
    } else if at(ts, i + 1, TokenType::Equal) {
        match g_expr(ts, i + 2) {
            Some((e, j)) => if at(ts, j, TokenType::Semicolon) {
                Some((STree::Var(ts[i], Some(e)), j + 1))
            } else {
                None
            },
            None => None,
        }
    } else if at(ts, i + 1, TokenType::Semicolon) {
        Some((STree::Var(ts[i], None), i + 2))
    } else {
        None
    }
}

/// The initializer clause of a `for` loop from `i`, its `;` included: nothing, a
/// variable declaration or an expression statement.
pub open spec fn g_for_init(ts: Seq<Token>, i: int) -> Option<(Option<STree>, int)>
    decreases ts.len() - i, 14int,
{
    if at(ts, i, TokenType::Semicolon) {
        Some((None, i + 1))
    } else if at(ts, i, TokenType::Var) {
        match g_var(ts, i + 1) {
            Some((v, j)) => Some((Some(v), j)),
            None => None,
        }
    } else {
        match g_expr_stmt(ts, i) {
            Some((v, j)) => Some((Some(v), j)),
            None => None,
        }
    }
}

/// An optional expression from `j` followed by `end`, which is included.
pub open spec fn g_clause(ts: Seq<Token>, j: int, end: TokenType) -> Option<(Option<ETree>, int)> {
    if at(ts, j, end) {
        Some((None, j + 1))
    } else {
        match g_expr(ts, j) {
            Some((e, k)) => if at(ts, k, end) {
                Some((Some(e), k + 1))
            } else {
                None
            },
            None => None,
        }
    }
}

/// The `while` loop that a `for` loop with these clauses and body stands for,
/// after its initializer (if there is one).
pub open spec fn g_desugar(init: Option<STree>, cond: Option<ETree>, inc: Option<ETree>, body: STree) -> STree {
    let looped = match inc {
        Some(x) => STree::Block(seq![body, STree::Expression(x)]),
        None => body,
    };
    let test = match cond {
        Some(c) => c,
        None => ETree::Literal(Literal::Bool(true)),
    };
    let w = STree::While(test, Box::new(looped));
    match init {
        Some(s) => STree::Block(seq![s, w]),
        None => w,
    }
}

/// A statement from `i`.
pub open spec fn g_stmt(ts: Seq<Token>, i: int) -> Option<(STree, int)>
    decreases ts.len() - i, 29int,
{
    if i < 0 || i >= ts.len() {
        g_expr_stmt(ts, i)
    } else if at(ts, i, TokenType::If) {
        g_if(ts, i + 1)
    } else if at(ts, i, TokenType::While) {
        g_while(ts, i + 1)
    } else if at(ts, i, TokenType::For) {
        g_for(ts, i + 1)
    } else if at(ts, i, TokenType::LeftBrace) {
        g_block(ts, i + 1)
    } else if at(ts, i, TokenType::Print) {
        g_print(ts, i + 1)
    } else if at(ts, i, TokenType::Return) {
        g_return(ts, i + 1)
    } else {
        g_expr_stmt(ts, i)
    }
}

/// An `if` statement after its keyword.
pub open spec fn g_if(ts: Seq<Token>, i: int) -> Option<(STree, int)>
    decreases ts.len() - i, 28int,
{
    if !at(ts, i, TokenType::LeftParen) {
        None
    } else {
        match g_expr(ts, i + 1) {
            Some((c, j)) => if i < j && at(ts, j, TokenType::RightParen) {
                match g_stmt(ts, j + 1) {
                    Some((t, k)) => if j < k <= ts.len() && at(ts, k, TokenType::Else) {
                        match g_stmt(ts, k + 1) {
                            Some((e, m)) => Some((STree::If(c, Box::new(t), Some(Box::new(e))), m)),
                            None => None,
                        }
                    } else {
                        Some((STree::If(c, Box::new(t), None), k))
                    },
                    None => None,
                }
            } else {
                None
            },
            None => None,
        }
    }
}

/// A `while` statement after its keyword.
pub open spec fn g_while(ts: Seq<Token>, i: int) -> Option<(STree, int)>
    decreases ts.len() - i, 28int,
{
    if !at(ts, i, TokenType::LeftParen) {
        None
    } else {
        match g_expr(ts, i + 1) {
            Some((c, j)) => if i < j && at(ts, j, TokenType::RightParen) {
                match g_stmt(ts, j + 1) {
                    Some((b, k)) => Some((STree::While(c, Box::new(b)), k)),
                    None => None,
                }
            } else {
                None
            },
            None => None,
        }
    }
}

/// The clauses of a `for` loop from `i` (just after its `(`), up to and including
/// the `)`: initializer, condition and increment.
pub open spec fn g_for_head(ts: Seq<Token>, i: int) -> Option<((Option<STree>, Option<ETree>, Option<ETree>), int)>
    decreases ts.len() - i, 15int,
{
    match g_for_init(ts, i) {
        Some((init, j)) => if i < j <= ts.len() {
            match g_clause(ts, j, TokenType::Semicolon) {
                Some((cond, k)) => if j < k <= ts.len() {
                    match g_clause(ts, k, TokenType::RightParen) {
                        Some((inc, m)) => Some(((init, cond, inc), m)),
                        None => None,
                    }
                } else {
                    None
                },
                None => None,
            }
        } else {
            None
        },
        None => None,
    }
}

/// A `for` statement after its keyword, as the `while` loop it stands for.
pub open spec fn g_for(ts: Seq<Token>, i: int) -> Option<(STree, int)>
    decreases ts.len() - i, 28int,
{
    if !at(ts, i, TokenType::LeftParen) {
        None
    } else {
        match g_for_head(ts, i + 1) {
            Some((h, m)) => if i < m <= ts.len() {
                match g_stmt(ts, m) {
                    Some((b, n)) => Some((g_desugar(h.0, h.1, h.2, b), n)),
                    None => None,
                }
            } else {
                None
            },
            None => None,
        }
    }
}

/// A block after its `{`.
pub open spec fn g_block(ts: Seq<Token>, i: int) -> Option<(STree, int)>
    decreases ts.len() - i, 32int,
{
    match g_block_items(ts, i) {
        Some((v, j)) => Some((STree::Block(v), j)),
        None => None,
    }
}

/// The declarations of a block from `i`, up to and including its `}`.
pub open spec fn g_block_items(ts: Seq<Token>, i: int) -> Option<(Seq<STree>, int)>
    decreases ts.len() - i, 31int,
{
    if at(ts, i, TokenType::RightBrace) {
        Some((Seq::empty(), i + 1))
    } else if i < 0 || i >= ts.len() {
        None
    } else {
        match g_decl(ts, i) {
            Some((s, j)) => if i < j <= ts.len() {
                match g_block_items(ts, j) {
                    Some((v, k)) => Some((seq![s] + v, k)),
                    None => None,
                }
            } else {
                None
            },
            None => None,
        }
    }
}

/// A parameter list from `i` (just after the `(`), up to and including its `)`.
pub open spec fn g_params(ts: Seq<Token>, i: int) -> Option<(Seq<Token>, int)> {
    if at(ts, i, TokenType::RightParen) {
        Some((Seq::empty(), i + 1))
    } else if at(ts, i, TokenType::Identifier) {
        g_more_params(ts, seq![ts[i]], i + 1)
    } else {
        None
    }
}

/// The rest of a parameter list after the names `ps`, from `j`: more names after
/// commas (at most 255 in all), then `)`.
pub open spec fn g_more_params(ts: Seq<Token>, ps: Seq<Token>, j: int) -> Option<(Seq<Token>, int)>
    decreases ts.len() - j,
{
    if j < 0 || j > ts.len() {
        None
    } else if at(ts, j, TokenType::Comma) {
        if at(ts, j + 1, TokenType::Identifier) {
            if ps.len() >= 255 {
                None
            } else {
                g_more_params(ts, ps.push(ts[j + 1]), j + 2)
            }
        } else {
            None
        }
    } else if at(ts, j, TokenType::RightParen) {
        Some((ps, j + 1))
    } else {
        None
    }
}

/// A function declaration after `fun` (or a method): a name, parameters and a body.
pub open spec fn g_function(ts: Seq<Token>, i: int) -> Option<(STree, int)>
    decreases ts.len() - i, 20int,
{
    if !(at(ts, i, TokenType::Identifier) && at(ts, i + 1, TokenType::LeftParen)) {
        None
    } else {
        match g_params(ts, i + 2) {
            Some((ps, close)) => if i < close && at(ts, close, TokenType::LeftBrace) {
                match g_block_items(ts, close + 1) {
                    Some((body, k)) => Some((STree::Function(ts[i], ps, body), k)),
                    None => None,
                }
            } else {
                None
            },
            None => None,
        }
    }
}

/// The methods of a class from `j`, up to and including its `}`.
pub open spec fn g_methods(ts: Seq<Token>, j: int) -> Option<(Seq<STree>, int)>
    decreases ts.len() - j, 21int,
{
    if at(ts, j, TokenType::RightBrace) {
        Some((Seq::empty(), j + 1))
    } else if j < 0 || j >= ts.len() {
        None
    } else {
        match g_function(ts, j) {
            Some((f, k)) => if j < k <= ts.len() {
                match g_methods(ts, k) {
                    Some((v, m)) => Some((seq![f] + v, m)),
                    None => None,
                }
            } else {
                None
            },
            None => None,
        }
    }
}

/// A class declaration after `class`: a name and methods in braces.
pub open spec fn g_class(ts: Seq<Token>, i: int) -> Option<(STree, int)>
    decreases ts.len() - i, 22int,
{
    if !(at(ts, i, TokenType::Identifier) && at(ts, i + 1, TokenType::LeftBrace)) {
        None
    } else {
        match g_methods(ts, i + 2) {
            Some((ms, k)) => Some((STree::Class(ts[i], None, ms), k)),
            None => None,
        }
    }
}

/// A declaration from `i`: a class, function or variable declaration, or a statement.
pub open spec fn g_decl(ts: Seq<Token>, i: int) -> Option<(STree, int)>
    decreases ts.len() - i, 30int,
{
    if at(ts, i, TokenType::Class) {
        g_class(ts, i + 1)
    } else if at(ts, i, TokenType::Fun) {
        g_function(ts, i + 1)
    } else if at(ts, i, TokenType::Var) {
        g_var(ts, i + 1)
    } else {
        g_stmt(ts, i)
    }
}

/// The program that the tokens from `i` to the end make, declaration after
/// declaration; none when they are not one.
pub open spec fn g_program(ts: Seq<Token>, i: int) -> Option<Seq<STree>>
    decreases ts.len() - i,
{
    if i >= ts.len() {
        Some(Seq::empty())
    } else if i < 0 {
        None
    } else {
        match g_decl(ts, i) {
            Some((s, j)) => if i < j <= ts.len() {
                match g_program(ts, j) {
                    Some(v) => Some(seq![s] + v),
                    None => None,
                }
            } else {
                None
            },
            None => None,
        }
    }
}


/// `xs` put before the statements of `r`, if there are any.
pub open spec fn prepend(xs: Seq<STree>, r: Option<(Seq<STree>, int)>) -> Option<(Seq<STree>, int)> {
    match r {
        Some((v, k)) => Some((xs + v, k)),
        None => None,
    }
}

} // verus!
