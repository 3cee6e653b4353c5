use vstd::prelude::*;
use crate::expr::{Assign, Binary, Call, Expr, Get, Grouping, Logical, SetExpr, Unary};
use crate::lexer::{carries_literal, Lexer};
use crate::stmt::{stmt_ok, stmts_ok, Class, Function, If, Return, Stmt, Var, While};
use crate::grammar::{
    at, expr_tree, expr_trees, g_arguments, g_assignment, g_block, g_block_items, g_call, g_call_rest, g_class, g_clause,
    g_decl, g_desugar, g_expr, g_expr_stmt, g_for, g_for_head, g_for_init, g_function, g_if, g_level, g_level_rest,
    g_methods, g_more_arguments, g_more_params, g_params, g_primary, g_print, g_program, g_return, g_stmt, g_unary,
    g_var, g_while, join, prepend, lemma_expr_trees_len, lemma_stmt_trees_len, lemma_stmt_trees_two, level_op, opt_expr_tree, opt_stmt_tree,
    stmt_tree, stmt_trees, ETree, STree,
};
use crate::tokens::{Literal, Token, TokenType};
use std::rc::Rc;
use crate::{compile_time_error, report_message, reports_at, Report};

verus! {

/// What kind of callable a `fun` declaration introduces.
#[derive(Clone, Copy, Debug)]
pub enum FunctionKind {
    Function,
    Method,
}

/// A token that is a whole expression by itself is parsed as one.
proof fn lemma_atom_expr(ts: Seq<Token>, i: int)
    requires
        atom_at(ts, i),
        literals_ok(ts),
    ensures
        g_expr(ts, i) matches Some((e, j)) && j == i + 1,
{
    assert(carries_literal(ts[i].literal, ts[i].token_type, ts[i].lexeme@));
    let p = g_primary(ts, i);
    assert(p matches Some((x, j)) && j == i + 1);
    let e = p.unwrap().0;
    assert(g_call_rest(ts, e, i + 1) == Some((e, i + 1)));
    assert(g_call(ts, i) == Some((e, i + 1)));
    assert(g_unary(ts, i) == Some((e, i + 1)));
    assert(g_level(ts, i, 2) == Some((e, i + 1)));
    assert(g_level_rest(ts, e, i + 1, 3) == Some((e, i + 1)));
    assert(g_level(ts, i, 3) == Some((e, i + 1)));
    assert(g_level_rest(ts, e, i + 1, 4) == Some((e, i + 1)));
    assert(g_level(ts, i, 4) == Some((e, i + 1)));
    assert(g_level_rest(ts, e, i + 1, 5) == Some((e, i + 1)));
    assert(g_level(ts, i, 5) == Some((e, i + 1)));
    assert(g_level_rest(ts, e, i + 1, 6) == Some((e, i + 1)));
    assert(g_level(ts, i, 6) == Some((e, i + 1)));
    assert(g_level_rest(ts, e, i + 1, 7) == Some((e, i + 1)));
    assert(g_level(ts, i, 7) == Some((e, i + 1)));
    assert(g_level_rest(ts, e, i + 1, 8) == Some((e, i + 1)));
    assert(g_level(ts, i, 8) == Some((e, i + 1)));
    assert(g_assignment(ts, i) == Some((e, i + 1)));
}

/// The operators of the binary level `k`, in the order the parser tries them.
pub open spec fn level_ops(k: int) -> Seq<TokenType> {
    if k == 3 {
        seq![TokenType::Slash, TokenType::Star]
    } else if k == 4 {
        seq![TokenType::Minus, TokenType::Plus]
    } else if k == 5 {
        seq![TokenType::Greater, TokenType::GreaterEqual, TokenType::Less, TokenType::LessEqual]
    } else if k == 6 {
        seq![TokenType::BangEqual, TokenType::EqualEqual]
    } else if k == 7 {
        seq![TokenType::And]
    } else {
        seq![TokenType::Or]
    }
}

proof fn lemma_level_ops(k: int)
    requires
        3 <= k <= 8,
    ensures
        forall|t: TokenType| #[trigger] level_ops(k).contains(t) <==> level_op(k, t),
{
    let ops = level_ops(k);
    assert forall|t: TokenType| #[trigger] ops.contains(t) <==> level_op(k, t) by {
        if ops.contains(t) {
            let i = choose|i: int| 0 <= i < ops.len() && ops[i] == t;
            if i == 0 {
            } else if i == 1 {
            } else if i == 2 {
            }
        }
        if level_op(k, t) {
            if ops[0] == t {
            } else if ops.len() > 1 && ops[1] == t {
            } else if ops.len() > 2 && ops[2] == t {
            } else if ops.len() > 3 && ops[3] == t {
            }
        }
    }
}

/// Every number and string token carries its literal, and no other token carries one.
pub open spec fn literals_ok(ts: Seq<Token>) -> bool {
    forall|k: int| 0 <= k < ts.len() ==> carries_literal(#[trigger] ts[k].literal, ts[k].token_type, ts[k].lexeme@)
}

/// The Lox parser.
pub struct Parser {
    /// The tokens to parse.
    tokens: Vec<Token>,
    /// The position of the next token to be processed.
    current: usize,
    /// The previously processed `Token`.
    previous: Token,
    /// Whether the parser has so far encountered an error.
    had_error: bool,
    /// The compile-time errors found so far, in order.
    reports: Vec<Report>,
}

/// Whether a token of type `t` starts a primary expression.
pub open spec fn starts_primary(t: TokenType) -> bool {
    ||| t == TokenType::True
    ||| t == TokenType::False
    ||| t == TokenType::Nil
    ||| t == TokenType::Number
    ||| t == TokenType::String
    ||| t == TokenType::Identifier
    ||| t == TokenType::LeftParen
}

/// Whether a token of type `t` can follow an operand inside an expression: an
/// operator, `=`, a call's `(` or a property's `.`.
pub open spec fn continues_expr(t: TokenType) -> bool {
    ||| t == TokenType::Equal
    ||| t == TokenType::Or
    ||| t == TokenType::And
    ||| t == TokenType::BangEqual
    ||| t == TokenType::EqualEqual
    ||| t == TokenType::Greater
    ||| t == TokenType::GreaterEqual
    ||| t == TokenType::Less
    ||| t == TokenType::LessEqual
    ||| t == TokenType::Minus
    ||| t == TokenType::Plus
    ||| t == TokenType::Slash
    ||| t == TokenType::Star
    ||| t == TokenType::LeftParen
    ||| t == TokenType::Dot
}

/// Whether the token at `i` is a whole expression by itself: a literal or a name,
/// not followed by anything that would continue the expression.
pub open spec fn atom_at(ts: Seq<Token>, i: int) -> bool {
    &&& 0 <= i < ts.len()
    &&& starts_primary(ts[i].token_type)
    &&& ts[i].token_type != TokenType::LeftParen
    &&& (i + 1 < ts.len() ==> !continues_expr(ts[i + 1].token_type))
}

/// Whether the tokens from `i` (just after a call's `(`) begin an argument list of
/// more than 255 arguments: 256 one-token expressions separated by commas.
pub open spec fn too_many_args(ts: Seq<Token>, i: int) -> bool {
    &&& 0 <= i && i + 2 * 255 < ts.len()
    &&& forall|k: int| 0 <= k <= 255 ==> #[trigger] atom_at(ts, i + 2 * k)
    &&& forall|k: int| 1 <= k <= 255 ==> (#[trigger] ts[i + 2 * k - 1]).token_type == TokenType::Comma
}

/// Whether the tokens from `i` (just after the `(`) begin a parameter list of more
/// than 255 names: 256 names separated by commas.
pub open spec fn too_many_params(ts: Seq<Token>, i: int) -> bool {
    &&& 0 <= i && i + 2 * 255 < ts.len()
    &&& forall|k: int| 0 <= k <= 255 ==> (#[trigger] ts[i + 2 * k]).token_type == TokenType::Identifier
    &&& forall|k: int| 1 <= k <= 255 ==> (#[trigger] ts[i + 2 * k - 1]).token_type == TokenType::Comma
}

/// Whether a token of type `t` starts a statement.
pub open spec fn starts_statement(t: TokenType) -> bool {
    ||| t == TokenType::Class
    ||| t == TokenType::Fun
    ||| t == TokenType::Var
    ||| t == TokenType::For
    ||| t == TokenType::If
    ||| t == TokenType::While
    ||| t == TokenType::Print
    ||| t == TokenType::Return
}

/// Whether recovery from an error stops with `i` tokens consumed: at the end, just
/// after a `;`, or just before a token that starts a statement.
pub open spec fn sync_stop(ts: Seq<Token>, i: int) -> bool {
    ||| i >= ts.len()
    ||| (0 < i && ts[i - 1].token_type == TokenType::Semicolon)
    ||| (0 <= i < ts.len() && starts_statement(ts[i].token_type))
}

impl Parser {
    /// The tokens being parsed.
    pub closed spec fn tokens(&self) -> Seq<Token> {
        self.tokens@
    }

    /// How many tokens have been consumed.
    pub closed spec fn current(&self) -> int {
        self.current as int
    }

    /// The errors reported so far.
    pub closed spec fn reports(&self) -> Seq<Report> {
        self.reports@
    }

    pub closed spec fn wf(&self) -> bool {
        &&& self.current <= self.tokens.len()
        &&& self.current > 0 ==> self.previous == self.tokens@[self.current - 1]
        &&& self.had_error == (self.reports.len() > 0)
        &&& literals_ok(self.tokens@)
    }

    /// Whether an expression step gave what the grammar `g` says: on success the
    /// tree, where it ends and no new report; otherwise a new report.
    pub open spec fn gives_expr(old: &Parser, new: &Parser, res: Result<Expr, ()>, g: Option<(ETree, int)>) -> bool {
        match g {
            Some((t, j)) => res matches Ok(e) && expr_tree(e) == t && new.current() == j && old.current() < j
                && new.reports().len() == old.reports().len(),
            None => new.reports().len() > old.reports().len(),
        }
    }

    /// Whether a statement step gave what the grammar `g` says: on success the
    /// tree, where it ends and no new report; otherwise a new report.
    pub open spec fn gives_stmt(old: &Parser, new: &Parser, res: Result<Stmt, ()>, g: Option<(STree, int)>) -> bool {
        match g {
            Some((t, j)) => res matches Ok(st) && stmt_tree(st) == t && new.current() == j && old.current() < j
                && new.reports().len() == old.reports().len(),
            None => new.reports().len() > old.reports().len(),
        }
    }

    /// Whether a declaration step gave what the grammar `g` says.
    pub open spec fn gives_decl(old: &Parser, new: &Parser, res: Option<Stmt>, g: Option<(STree, int)>) -> bool {
        match g {
            Some((t, j)) => res matches Some(st) && stmt_tree(st) == t && new.current() == j && old.current() < j
                && new.reports().len() == old.reports().len(),
            None => new.reports().len() > old.reports().len(),
        }
    }

    /// What every parsing step keeps: the parser stays well formed, the tokens stay
    /// the same, tokens are consumed, never given back, and at least one is consumed
    /// whenever one is left; reports are only added.
    pub closed spec fn step(old: &Parser, new: &Parser) -> bool {
        &&& new.wf()
        &&& new.tokens@ == old.tokens@
        &&& old.current <= new.current
        &&& old.current < old.tokens.len() ==> old.current < new.current
        &&& old.reports.len() <= new.reports.len()
    }

    /// A step that may consume nothing.
    pub closed spec fn weak_step(old: &Parser, new: &Parser) -> bool {
        &&& new.wf()
        &&& new.tokens@ == old.tokens@
        &&& old.current <= new.current
        &&& old.reports.len() <= new.reports.len()
    }

    /// Create a new `Parser` over all the tokens of `lexer`.
    pub fn new(lexer: Lexer) -> (res: Self)
        requires
            lexer.wf(),
        ensures
            res.wf(),
            res.current() == 0,
            res.reports().len() == 0,
            res.tokens().len() == crate::lexer::lexemes(lexer.source(), lexer.pos(), lexer.line()).len(),
            forall|k: int|
                0 <= k < res.tokens().len() ==> crate::lexer::token_is(
                    #[trigger] res.tokens()[k],
                    lexer.source(),
                    crate::lexer::lexemes(lexer.source(), lexer.pos(), lexer.line())[k],
                    lexer.next_id() + k,
                ),
    {
        let mut lexer = lexer;
        let tokens = lexer.tokenize();
        // There is no previous token at the very beginning: an Error token stands in for it.
        let previous = Token::new(TokenType::Error, "PRE-TOKEN".to_owned(), None, 0, 0);
        Parser { tokens, current: 0, previous, had_error: false, reports: Vec::new() }
    }

    /// The compile-time errors found so far, in order.
    pub fn reports_found(&self) -> (res: &Vec<Report>)
        ensures
            res@ == self.reports(),
    {
        &self.reports
    }

    /// Parse the whole token sequence into statements.
    /// The result is `Err` exactly when some compile-time error was reported. Where
    /// no error was reported before, the tokens parse exactly when they make a program
    /// of the grammar, and then into the trees that the grammar gives.
    pub fn parse(&mut self) -> (res: Result<Vec<Stmt>, ()>)
        requires
            old(self).wf(),
        ensures
            final(self).wf(),
            final(self).tokens() == old(self).tokens(),
            final(self).current() == final(self).tokens().len(),
            old(self).reports().len() <= final(self).reports().len(),
            res is Err <==> final(self).reports().len() > 0,
            res matches Ok(v) ==> stmts_ok(v@),
            old(self).reports().len() == 0 ==> match g_program(old(self).tokens(), old(self).current()) {
                Some(trees) => res matches Ok(v) && stmt_trees(v@) == trees,
                None => res is Err,
            },
    {
        let ghost t = self.tokens@;
        let ghost start = self.current as int;
        let ghost n0 = self.reports@.len();
        let mut stmts: Vec<Stmt> = Vec::new();
        while self.current < self.tokens.len()
            invariant
                self.wf(),
                self.tokens@ == old(self).tokens@,
                t == old(self).tokens@,
                start == old(self).current,
                n0 == old(self).reports@.len(),
                start <= self.current <= t.len(),
                old(self).reports@.len() <= self.reports@.len(),
                stmts_ok(stmts@),
                self.reports@.len() == n0 ==> g_program(t, start) == match g_program(t, self.current as int) {
                    Some(rest) => Some(stmt_trees(stmts@) + rest),
                    None => None,
                },
                self.reports@.len() > n0 ==> g_program(t, start) is None,
            decreases self.tokens@.len() - self.current,
        {
            let ghost mid = self.current as int;
            let ghost before = stmts@;
            let d = self.decl();
            proof {
                if self.reports@.len() == n0 {
                    assert(g_program(t, mid) == match g_decl(t, mid) {
                        Some((s, j)) => if mid < j <= t.len() {
                            match g_program(t, j) {
                                Some(v) => Some(seq![s] + v),
                                None => None,
                            }
                        } else {
                            None
                        },
                        None => None,
                    });
                }
            }
            if let Some(stmt) = d {
                stmts.push(stmt);
                proof {
                    assert(stmts@.drop_last() =~= before);
                    assert(stmt_trees(stmts@) == stmt_trees(before).push(stmt_tree(stmt)));
                    if self.reports@.len() == n0 {
                        match g_program(t, self.current as int) {
                            Some(rest) => {
                                assert(stmt_trees(before) + (seq![stmt_tree(stmt)] + rest)
                                    =~= stmt_trees(stmts@) + rest);
                            },
                            None => {},
                        }
                    }
                }
            }
        }
        if self.had_error {
            return Err(());
        }
        proof {
            if self.reports@.len() == 0 {
                assert(stmt_trees(stmts@) + Seq::<STree>::empty() =~= stmt_trees(stmts@));
            }
        }
        Ok(stmts)
    }

    fn decl(&mut self) -> (res: Option<Stmt>)
        requires
            old(self).wf(),
        ensures
            Self::step(old(self), final(self)),
            res is None ==> old(self).reports().len() < final(self).reports().len(),
            res matches Some(st) ==> stmt_ok(st),
            Self::gives_decl(old(self), final(self), res, g_decl(old(self).tokens(), old(self).current())),
        decreases old(self).tokens@.len() - old(self).current, 16nat,
    {
        proof {
            assert([TokenType::Class]@ =~= seq![TokenType::Class]);
            assert(seq![TokenType::Class][0] == TokenType::Class);
            assert([TokenType::Fun]@ =~= seq![TokenType::Fun]);
            assert(seq![TokenType::Fun][0] == TokenType::Fun);
            assert([TokenType::Var]@ =~= seq![TokenType::Var]);
            assert(seq![TokenType::Var][0] == TokenType::Var);
        }
        let stmt = if self.matches(&[TokenType::Class]) {
            proof {
                assert([TokenType::Class]@ =~= seq![TokenType::Class]);
            }
            let r = self.class_decl();
            r
        } else if self.matches(&[TokenType::Fun]) {
            proof {
                assert([TokenType::Fun]@ =~= seq![TokenType::Fun]);
            }
            let r = self.fun_decl(FunctionKind::Function);
            r
        } else if self.matches(&[TokenType::Var]) {
            proof {
                assert([TokenType::Var]@ =~= seq![TokenType::Var]);
            }
            let r = self.var_decl();
            r
        } else {
            self.stmt()
        };
        match stmt {
            Ok(stmt) => Some(stmt),
            Err(_) => {
                self.synchronize();
                None
            },
        }
    }

    #[verifier::rlimit(40)]
    fn class_decl(&mut self) -> (res: Result<Stmt, ()>)
        requires
            old(self).wf(),
        ensures
            Self::step(old(self), final(self)),
            res is Err ==> old(self).reports().len() < final(self).reports().len(),
            res matches Ok(st) ==> stmt_ok(st),
            res matches Ok(Stmt::Class(c)) ==> c.name == old(self).tokens()[old(self).current()],
            Self::gives_stmt(old(self), final(self), res, g_class(old(self).tokens(), old(self).current())),
        decreases old(self).tokens@.len() - old(self).current, 20nat,
    {
        let ghost t = self.tokens@;
        let ghost s0 = self.current as int;
        let ghost n0 = self.reports@.len();
        self.consume(TokenType::Identifier, "Expect class name.")?;
        let name = self.previous.clone();
        self.consume(TokenType::LeftBrace, "Expect '{' before class body.")?;
        let ghost s1 = self.current as int;
        let mut methods: Vec<Stmt> = Vec::new();
        proof {
            assert(stmt_trees(methods@) =~= Seq::<STree>::empty());
            assert(g_methods(t, s1) == prepend(stmt_trees(methods@), g_methods(t, s1)));
        }
        while !self.check(TokenType::RightBrace)
            invariant
                Self::step(old(self), self),
                t == self.tokens@,
                s0 == old(self).current,
                n0 == old(self).reports@.len(),
                s1 == s0 + 2,
                s1 <= self.current,
                forall|i: int|
                    0 <= i < methods@.len() ==> (#[trigger] methods@[i] is Function && stmt_ok(
                        methods@[i],
                    )),
                name == t[s0],
                g_class(t, s0) == match g_methods(t, s1) {
                    Some((ms, k)) => Some((STree::Class(t[s0], None, ms), k)),
                    None => None,
                },
                self.reports@.len() == n0 ==> g_methods(t, s1) == prepend(
                    stmt_trees(methods@),
                    g_methods(t, self.current as int),
                ),
                self.reports@.len() > n0 ==> g_methods(t, s1) is None,
            decreases self.tokens@.len() - self.current,
        {
            let ghost mid = self.current as int;
            let ghost before = methods@;
            let ghost nm = self.reports@.len();
            let method = self.fun_decl(FunctionKind::Method)?;
            methods.push(method);
            proof {
                assert(methods@.drop_last() =~= before);
                assert(stmt_trees(methods@) == stmt_trees(before).push(stmt_tree(method)));
                assert(!at(t, mid, TokenType::RightBrace));
                if self.reports@.len() == n0 {
                    let r = g_methods(t, self.current as int);
                    assert(g_methods(t, mid) == prepend(seq![stmt_tree(method)], r));
                    if let Some((v, k)) = r {
                        assert(stmt_trees(before) + (seq![stmt_tree(method)] + v) =~= stmt_trees(methods@) + v);
                    }
                } else if nm == n0 {
                    assert(g_function(t, mid) is None);
                    assert(g_methods(t, mid) is None);
                }
            }
        }
        proof {
            if self.reports@.len() == n0 {
                assert(stmt_trees(methods@) + Seq::<STree>::empty() =~= stmt_trees(methods@));
            }
        }
        self.consume(TokenType::RightBrace, "Expect '}' after class body.")?;
        Ok(Stmt::Class(Class { name, methods, superclass: None }))
    }

    #[verifier::rlimit(60)]
    #[verifier::spinoff_prover]
    fn fun_decl(&mut self, kind: FunctionKind) -> (res: Result<Stmt, ()>)
        requires
            old(self).wf(),
        ensures
            Self::step(old(self), final(self)),
            res is Err ==> old(self).reports().len() < final(self).reports().len(),
            res matches Ok(st) ==> stmt_ok(st),
            res is Ok ==> old(self).current < final(self).current,
            res matches Ok(st) ==> st is Function,
            old(self).current() + 1 < old(self).tokens().len() && old(self).tokens()[old(self).current()].token_type
                == TokenType::Identifier && old(self).tokens()[old(self).current() + 1].token_type == TokenType::LeftParen
                && too_many_params(old(self).tokens(), old(self).current() + 2) ==> res is Err && reports_at(
                final(self).reports().last(),
                old(self).tokens()[old(self).current() + 2 + 2 * 255],
                "Can't have more than 255 parameters."@,
            ),
            Self::gives_stmt(old(self), final(self), res, g_function(old(self).tokens(), old(self).current())),
        decreases old(self).tokens@.len() - old(self).current, 19nat,
    {
        let ghost t = self.tokens@;
        let ghost s0 = self.current as int;
        let ghost n0 = self.reports@.len();
        let (msg_name, msg_paren, msg_brace) = match kind {
            FunctionKind::Function => (
                "Expect function name.",
                "Expect '(' after function name.",
                "Expect '{' before function body.",
            ),
            FunctionKind::Method => (
                "Expect method name.",
                "Expect '(' after method name.",
                "Expect '{' before method body.",
            ),
        };
        self.consume(TokenType::Identifier, msg_name)?;
        let name = self.previous.clone();
        self.consume(TokenType::LeftParen, msg_paren)?;
        let ghost s1 = self.current as int;
        let mut params: Vec<Token> = Vec::new();
        if !self.check(TokenType::RightParen) {
            proof {
                if too_many_params(t, s1) {
                    assert(t[s1 + 2 * 0].token_type == TokenType::Identifier);
                }
            }
            self.consume(TokenType::Identifier, "Expect parameter name.")?;
            params.push(self.previous.clone());
            proof {
                assert(params@ =~= seq![t[s1]]);
            }
            while self.matches(&[TokenType::Comma])
                invariant
                    Self::step(old(self), self),
                    t == self.tokens@,
                    s1 == old(self).current + 2,
                    s0 == old(self).current,
                    n0 == old(self).reports@.len(),
                    self.reports@.len() == n0,
                    s1 < self.current,
                    params@.len() >= 1,
                    self.current == s1 + 2 * params@.len() - 1,
                    forall|k: int| 0 <= k < params@.len() ==> #[trigger] params@[k] == t[s1 + 2 * k],
                    name == t[s0],
                    too_many_params(t, s1) ==> params@.len() <= 255,
                    g_params(t, s1) == g_more_params(t, params@, self.current as int),
                decreases self.tokens@.len() - self.current,
            {
                let ghost mid = self.current - 1;
                let ghost before = params@;
                proof {
                    assert([TokenType::Comma]@ =~= seq![TokenType::Comma]);
                    assert(seq![TokenType::Comma].len() == 1 && seq![TokenType::Comma][0] == TokenType::Comma);
                    assert(at(t, mid, TokenType::Comma));
                    if too_many_params(t, s1) {
                        let p = params@.len() as int;
                        assert(t[s1 + 2 * p].token_type == TokenType::Identifier);
                    }
                }
                self.consume(TokenType::Identifier, "Expect parameter name.")?;
                if params.len() >= 255 {
                    let msg = "Can't have more than 255 parameters.";
                    self.error(msg);
                    return Err(());
                }
                params.push(self.previous.clone());
                proof {
                    assert(params@.drop_last() =~= before);
                    assert forall|k: int| 0 <= k < params@.len() implies #[trigger] params@[k] == t[s1 + 2 * k] by {
                        if k < before.len() {
                            assert(params@[k] == before[k]);
                        }
                    }
                    assert(s1 + 2 * (params@.len() - 1) == s1 + 2 * before.len());
                    assert(params@ =~= before.push(t[mid + 1]));
                }
            }
            proof {
                assert([TokenType::Comma]@ =~= seq![TokenType::Comma]);
            }
        } else {
            proof {
                assert(params@ =~= Seq::<Token>::empty());
            }
        }
        self.consume(TokenType::RightParen, "Expect ')' after parameters.")?;
        let ghost close = self.current as int;
        proof {
            assert(g_params(t, s1) == Some((params@, close)));
        }
        self.consume(TokenType::LeftBrace, msg_brace)?;
        // The left brace is consumed *before* calling block.
        let body = self.block()?;
        match body {
            Stmt::Block(stmts) => {
                let f = Function { name, params, body: Rc::new(stmts) };
                Ok(Stmt::Function(f))
            },
            _ => {
                let msg = "Calling block did not return a Block statement. This should never happen.";
                self.error(msg);
                Err(())
            },
        }
    }

    #[verifier::rlimit(60)]
    #[verifier::spinoff_prover]
    fn var_decl(&mut self) -> (res: Result<Stmt, ()>)
        requires
            old(self).wf(),
        ensures
            Self::step(old(self), final(self)),
            res is Err ==> old(self).reports().len() < final(self).reports().len(),
            res matches Ok(st) ==> stmt_ok(st),
            res matches Ok(Stmt::Var(v)) ==> v.name == old(self).tokens()[old(self).current()],
            Self::gives_stmt(old(self), final(self), res, g_var(old(self).tokens(), old(self).current())),
        decreases old(self).tokens@.len() - old(self).current, 12nat,
    {
        self.consume(TokenType::Identifier, "Expect variable name.")?;
        let name = self.previous.clone();
        let mut initializer: Option<Expr> = None;
        if self.matches(&[TokenType::Equal]) {
            proof {
                assert([TokenType::Equal]@ =~= seq![TokenType::Equal]);
            }
            initializer = Some(self.expr()?);
        }
        self.consume(TokenType::Semicolon, "Expect ';' after variable declaration.")?;
        Ok(Stmt::Var(Var { name, initializer }))
    }

    fn stmt(&mut self) -> (res: Result<Stmt, ()>)
        requires
            old(self).wf(),
        ensures
            Self::step(old(self), final(self)),
            res is Err ==> old(self).reports().len() < final(self).reports().len(),
            res matches Ok(st) ==> stmt_ok(st),
            Self::gives_stmt(old(self), final(self), res, g_stmt(old(self).tokens(), old(self).current())),
        decreases old(self).tokens@.len() - old(self).current, 15nat,
    {
        proof {
            assert([TokenType::If]@ =~= seq![TokenType::If]);
            assert(seq![TokenType::If][0] == TokenType::If);
            assert([TokenType::While]@ =~= seq![TokenType::While]);
            assert(seq![TokenType::While][0] == TokenType::While);
            assert([TokenType::For]@ =~= seq![TokenType::For]);
            assert(seq![TokenType::For][0] == TokenType::For);
            assert([TokenType::LeftBrace]@ =~= seq![TokenType::LeftBrace]);
            assert(seq![TokenType::LeftBrace][0] == TokenType::LeftBrace);
            assert([TokenType::Print]@ =~= seq![TokenType::Print]);
            assert(seq![TokenType::Print][0] == TokenType::Print);
            assert([TokenType::Return]@ =~= seq![TokenType::Return]);
            assert(seq![TokenType::Return][0] == TokenType::Return);
        }
        if self.matches(&[TokenType::If]) {
            proof {
                assert([TokenType::If]@ =~= seq![TokenType::If]);
            }
            let r = self.if_stmt();
            r
        } else if self.matches(&[TokenType::While]) {
            proof {
                assert([TokenType::While]@ =~= seq![TokenType::While]);
            }
            let r = self.while_stmt();
            r
        } else if self.matches(&[TokenType::For]) {
            proof {
                assert([TokenType::For]@ =~= seq![TokenType::For]);
            }
            let r = self.for_stmt();
            r
        } else if self.matches(&[TokenType::LeftBrace]) {
            proof {
                assert([TokenType::LeftBrace]@ =~= seq![TokenType::LeftBrace]);
            }
            let r = self.block();
            r
        } else if self.matches(&[TokenType::Print]) {
            proof {
                assert([TokenType::Print]@ =~= seq![TokenType::Print]);
            }
            let r = self.print_stmt();
            r
        } else if self.matches(&[TokenType::Return]) {
            proof {
                assert([TokenType::Return]@ =~= seq![TokenType::Return]);
            }
            let r = self.return_stmt();
            r
        } else {
            self.expr_stmt()
        }
    }

    #[verifier::rlimit(40)]
    fn if_stmt(&mut self) -> (res: Result<Stmt, ()>)
        requires
            old(self).wf(),
        ensures
            Self::step(old(self), final(self)),
            res is Err ==> old(self).reports().len() < final(self).reports().len(),
            res matches Ok(st) ==> stmt_ok(st),
            Self::gives_stmt(old(self), final(self), res, g_if(old(self).tokens(), old(self).current())),
        decreases old(self).tokens@.len() - old(self).current, 12nat,
    {
        self.consume(TokenType::LeftParen, "Expect '(' after 'if'.")?;
        let condition = self.expr()?;
        self.consume(TokenType::RightParen, "Expect ')' after condition.")?;
        let then_branch = Box::new(self.stmt()?);
        let else_branch = if self.matches(&[TokenType::Else]) {
            proof {
                assert([TokenType::Else]@ =~= seq![TokenType::Else]);
                assert(seq![TokenType::Else][0] == TokenType::Else);
            }
            let e = Box::new(self.stmt()?);
            Some(e)
        } else {
            proof {
                assert([TokenType::Else]@ =~= seq![TokenType::Else]);
                assert(seq![TokenType::Else][0] == TokenType::Else);
            }
            None
        };
        proof {
            let s3 = self.current as int;
        }
        Ok(Stmt::If(If { condition, then_branch, else_branch }))
    }

    fn while_stmt(&mut self) -> (res: Result<Stmt, ()>)
        requires
            old(self).wf(),
        ensures
            Self::step(old(self), final(self)),
            res is Err ==> old(self).reports().len() < final(self).reports().len(),
            res matches Ok(st) ==> stmt_ok(st),
            Self::gives_stmt(old(self), final(self), res, g_while(old(self).tokens(), old(self).current())),
        decreases old(self).tokens@.len() - old(self).current, 12nat,
    {
        self.consume(TokenType::LeftParen, "Expect '(' after 'while'.")?;
        let condition = self.expr()?;
        self.consume(TokenType::RightParen, "Expect ')' after condition.")?;
        let body = self.stmt()?;
        proof {
            let s2 = self.current as int;
        }
        Ok(Stmt::While(While { condition, body: Box::new(body) }))
    }

    fn for_stmt(&mut self) -> (res: Result<Stmt, ()>)
        requires
            old(self).wf(),
        ensures
            Self::step(old(self), final(self)),
            res is Err ==> old(self).reports().len() < final(self).reports().len(),
            res matches Ok(st) ==> stmt_ok(st),
            Self::gives_stmt(old(self), final(self), res, g_for(old(self).tokens(), old(self).current())),
        decreases old(self).tokens@.len() - old(self).current, 14nat,
    {
        let ghost t = self.tokens@;
        let ghost n0 = old(self).reports@.len();
        self.consume(TokenType::LeftParen, "Expect '(' after 'for'.")?;
        let (initializer, condition, increment) = self.for_head()?;
        let ghost m = self.current as int;
        let ghost h = (opt_stmt_tree(initializer), opt_expr_tree(condition), opt_expr_tree(increment));
        let body = self.stmt()?;
        let res = desugar_for(initializer, condition, increment, body);
        proof {
            if self.reports@.len() == n0 {
                assert(g_for_head(t, old(self).current + 1) == Some((h, m)));
            }
        }
        Ok(res)
    }

    /// The clauses of a `for` loop, from just after its `(` to its `)`.
    #[verifier::rlimit(60)]
    #[verifier::spinoff_prover]
    fn for_head(&mut self) -> (res: Result<(Option<Stmt>, Option<Expr>, Option<Expr>), ()>)
        requires
            old(self).wf(),
        ensures
            Self::step(old(self), final(self)),
            res is Err ==> old(self).reports().len() < final(self).reports().len(),
            res matches Ok(r) ==> (r.0 matches Some(i) ==> stmt_ok(i)),
            match g_for_head(old(self).tokens(), old(self).current()) {
                Some((h, m)) => res matches Ok(r) && opt_stmt_tree(r.0) == h.0 && opt_expr_tree(r.1) == h.1
                    && opt_expr_tree(r.2) == h.2 && final(self).current() == m && old(self).current() < m
                    && final(self).reports().len() == old(self).reports().len(),
                None => final(self).reports().len() > old(self).reports().len(),
            },
        decreases old(self).tokens@.len() - old(self).current, 13nat,
    {
        let ghost t = self.tokens@;
        let ghost s1 = self.current as int;
        let ghost n0 = old(self).reports@.len();
        proof {
            assert([TokenType::Semicolon]@ =~= seq![TokenType::Semicolon]);
            assert([TokenType::Var]@ =~= seq![TokenType::Var]);
            assert(seq![TokenType::Semicolon][0] == TokenType::Semicolon);
            assert(seq![TokenType::Var][0] == TokenType::Var);
        }
        let initializer = if self.matches(&[TokenType::Semicolon]) {
            None
        } else if self.matches(&[TokenType::Var]) {
            let i = self.var_decl()?;
            Some(i)
        } else {
            Some(self.expr_stmt()?)
        };
        let ghost s2 = self.current as int;
        let ghost init_t = opt_stmt_tree(initializer);
        proof {
            if self.reports@.len() == n0 {
                assert(g_for_init(t, s1) == Some((init_t, s2)));
            }
        }
        let condition = if self.check(TokenType::Semicolon) {
            None
        } else {
            Some(self.expr()?)
        };
        let ghost cond_t = opt_expr_tree(condition);
        self.consume(TokenType::Semicolon, "Expect ';' after loop condition.")?;
        let ghost s4 = self.current as int;
        proof {
            if self.reports@.len() == n0 {
                assert(g_clause(t, s2, TokenType::Semicolon) == Some((cond_t, s4)));
            }
        }
        let increment = if self.check(TokenType::RightParen) {
            None
        } else {
            Some(self.expr()?)
        };
        let ghost inc_t = opt_expr_tree(increment);
        self.consume(TokenType::RightParen, "Expect ')' after for clauses.")?;
        let ghost s6 = self.current as int;
        proof {
            if self.reports@.len() == n0 {
                assert(g_clause(t, s4, TokenType::RightParen) == Some((inc_t, s6)));
            }
        }
        Ok((initializer, condition, increment))
    }

    fn block(&mut self) -> (res: Result<Stmt, ()>)
        requires
            old(self).wf(),
        ensures
            Self::step(old(self), final(self)),
            res is Err ==> old(self).reports().len() < final(self).reports().len(),
            res matches Ok(st) ==> stmt_ok(st),
            res matches Ok(s) ==> s is Block,
            Self::gives_stmt(old(self), final(self), res, g_block(old(self).tokens(), old(self).current())),
        decreases old(self).tokens@.len() - old(self).current, 17nat,
    {
        let ghost t = self.tokens@;
        let ghost s0 = self.current as int;
        let mut statements: Vec<Stmt> = Vec::new();
        while !self.check(TokenType::RightBrace) && self.current < self.tokens.len()
            invariant
                Self::weak_step(old(self), self),
                t == self.tokens@,
                s0 == old(self).current,
                stmts_ok(statements@),
                self.reports@.len() == old(self).reports@.len() ==> g_block_items(t, s0) == prepend(
                    stmt_trees(statements@),
                    g_block_items(t, self.current as int),
                ),
                self.reports@.len() > old(self).reports@.len() ==> g_block_items(t, s0) is None,
            decreases self.tokens@.len() - self.current,
        {
            let ghost mid = self.current as int;
            let ghost before = statements@;
            if let Some(stmt) = self.decl() {
                statements.push(stmt);
                proof {
                    assert(statements@.drop_last() =~= before);
                    assert(statements@.last() == stmt);
                    assert(stmt_trees(statements@) == stmt_trees(before).push(stmt_tree(stmt)));
                    if self.reports@.len() == old(self).reports@.len() {
                        let r = g_block_items(t, self.current as int);
                        assert(g_block_items(t, mid) == prepend(seq![stmt_tree(stmt)], r));
                        if let Some((v, k)) = r {
                            assert(stmt_trees(before) + (seq![stmt_tree(stmt)] + v) =~= stmt_trees(statements@) + v);
                        }
                    }
                }
            }
        }
        proof {
            if self.reports@.len() == old(self).reports@.len() {
                assert(stmt_trees(statements@) + Seq::<STree>::empty() =~= stmt_trees(statements@));
            }
        }
        self.consume(TokenType::RightBrace, "Expect '}' after block.")?;
        Ok(Stmt::Block(statements))
    }

    fn print_stmt(&mut self) -> (res: Result<Stmt, ()>)
        requires
            old(self).wf(),
        ensures
            Self::step(old(self), final(self)),
            res is Err ==> old(self).reports().len() < final(self).reports().len(),
            res matches Ok(st) ==> stmt_ok(st),
            Self::gives_stmt(old(self), final(self), res, g_print(old(self).tokens(), old(self).current())),
        decreases old(self).tokens@.len() - old(self).current, 12nat,
    {
        let value = self.expr()?;
        self.consume(TokenType::Semicolon, "Expect ';' after value.")?;
        Ok(Stmt::Print(value))
    }

    fn expr_stmt(&mut self) -> (res: Result<Stmt, ()>)
        requires
            old(self).wf(),
        ensures
            Self::step(old(self), final(self)),
            res is Err ==> old(self).reports().len() < final(self).reports().len(),
            res matches Ok(st) ==> stmt_ok(st),
            Self::gives_stmt(old(self), final(self), res, g_expr_stmt(old(self).tokens(), old(self).current())),
        decreases old(self).tokens@.len() - old(self).current, 12nat,
    {
        let expr = self.expr()?;
        self.consume(TokenType::Semicolon, "Expect ';' after expression.")?;
        Ok(Stmt::Expression(expr))
    }

    fn return_stmt(&mut self) -> (res: Result<Stmt, ()>)
        requires
            old(self).wf(),
            old(self).current() > 0,
        ensures
            Self::step(old(self), final(self)),
            res is Err ==> old(self).reports().len() < final(self).reports().len(),
            res matches Ok(st) ==> stmt_ok(st),
            res matches Ok(Stmt::Return(r)) ==> (old(self).current() > 0 ==> r.keyword == old(self).tokens()[old(self).current()
                - 1]),
            Self::gives_stmt(old(self), final(self), res, g_return(old(self).tokens(), old(self).current())),
        decreases old(self).tokens@.len() - old(self).current, 12nat,
    {
        let keyword = self.previous.clone();
        let mut value = None;
        if !self.check(TokenType::Semicolon) {
            value = Some(self.expr()?);
        }
        self.consume(TokenType::Semicolon, "Expect ; after return value.")?;
        Ok(Stmt::Return(Return { keyword, value }))
    }

    fn expr(&mut self) -> (res: Result<Expr, ()>)
        requires
            old(self).wf(),
        ensures
            Self::step(old(self), final(self)),
            res is Err ==> old(self).reports().len() < final(self).reports().len(),
            Self::gives_expr(old(self), final(self), res, g_expr(old(self).tokens(), old(self).current())),
        decreases old(self).tokens@.len() - old(self).current, 11nat,
    {
        self.assignment()
    }

    fn assignment(&mut self) -> (res: Result<Expr, ()>)
        requires
            old(self).wf(),
        ensures
            Self::step(old(self), final(self)),
            res is Err ==> old(self).reports().len() < final(self).reports().len(),
            match g_level(old(self).tokens(), old(self).current(), 8) {
                Some((l, j)) => at(old(self).tokens(), j, TokenType::Equal) && !(l is Variable) && !(l is Get)
                    ==> res is Err && reports_at(
                    final(self).reports().last(),
                    old(self).tokens()[j],
                    "Invalid assignment target."@,
                ),
                None => true,
            },
            Self::gives_expr(old(self), final(self), res, g_assignment(old(self).tokens(), old(self).current())),
        decreases old(self).tokens@.len() - old(self).current, 10nat,
    {
        let l_expr = self.logical_or()?;
        if self.matches(&[TokenType::Equal]) {
            proof {
                assert([TokenType::Equal]@ =~= seq![TokenType::Equal]);
            }
            match l_expr {
                Expr::Variable(token) => {
                    let value = self.assignment()?;
                    proof {
                        assert(seq![token.token_type, TokenType::Equal] =~= seq![token.token_type]
                            + seq![TokenType::Equal]);
                    }
                    return Ok(Expr::Assign(Assign { name: token, value: Box::new(value) }));
                },
                Expr::Get(get) => {
                    let value = self.assignment()?;
                    return Ok(Expr::SetProperty(SetExpr { expr: get.expr, name: get.name, value: Box::new(value) }));
                },
                _ => {
                    let msg = "Invalid assignment target.";
                    self.error(msg);
                    return Err(());
                },
            }
        }
        Ok(l_expr)
    }

    fn logical_or(&mut self) -> (res: Result<Expr, ()>)
        requires
            old(self).wf(),
        ensures
            Self::step(old(self), final(self)),
            res is Err ==> old(self).reports().len() < final(self).reports().len(),
            Self::gives_expr(old(self), final(self), res, g_level(old(self).tokens(), old(self).current(), 8)),
        decreases old(self).tokens@.len() - old(self).current, 9nat,
    {
        let ghost start = self.current as int;
        let mut expr = self.logical_and()?;
        while self.matches(&[TokenType::Or])
            invariant
                Self::step(old(self), self),
                start == old(self).current,
                self.reports@.len() == old(self).reports@.len() ==> g_level(self.tokens@, start, 8) == g_level_rest(
                    self.tokens@,
                    expr_tree(expr),
                    self.current as int,
                    8,
                ),
                self.reports@.len() > old(self).reports@.len() ==> g_level(self.tokens@, start, 8) is None,
            decreases self.tokens@.len() - self.current,
        {
            proof {
                assert([TokenType::Or]@ =~= level_ops(8));
                lemma_level_ops(8);
                assert([TokenType::Or]@ =~= seq![TokenType::Or]);
            }
            let operator = self.previous.clone();
            let right = self.logical_and()?;
            expr = Expr::Logical(Logical { left: Box::new(expr), operator, right: Box::new(right) });
        }
        proof {
            assert([TokenType::Or]@ =~= level_ops(8));
            lemma_level_ops(8);
        }
        Ok(expr)
    }

    fn logical_and(&mut self) -> (res: Result<Expr, ()>)
        requires
            old(self).wf(),
        ensures
            Self::step(old(self), final(self)),
            res is Err ==> old(self).reports().len() < final(self).reports().len(),
            Self::gives_expr(old(self), final(self), res, g_level(old(self).tokens(), old(self).current(), 7)),
        decreases old(self).tokens@.len() - old(self).current, 8nat,
    {
        let ghost start = self.current as int;
        let mut expr = self.equality()?;
        while self.matches(&[TokenType::And])
            invariant
                Self::step(old(self), self),
                start == old(self).current,
                self.reports@.len() == old(self).reports@.len() ==> g_level(self.tokens@, start, 7) == g_level_rest(
                    self.tokens@,
                    expr_tree(expr),
                    self.current as int,
                    7,
                ),
                self.reports@.len() > old(self).reports@.len() ==> g_level(self.tokens@, start, 7) is None,
            decreases self.tokens@.len() - self.current,
        {
            proof {
                assert([TokenType::And]@ =~= level_ops(7));
                lemma_level_ops(7);
                assert([TokenType::And]@ =~= seq![TokenType::And]);
            }
            let operator = self.previous.clone();
            let right = self.equality()?;
            expr = Expr::Logical(Logical { left: Box::new(expr), operator, right: Box::new(right) });
        }
        proof {
            assert([TokenType::And]@ =~= level_ops(7));
            lemma_level_ops(7);
        }
        Ok(expr)
    }

    fn equality(&mut self) -> (res: Result<Expr, ()>)
        requires
            old(self).wf(),
        ensures
            Self::step(old(self), final(self)),
            res is Err ==> old(self).reports().len() < final(self).reports().len(),
            Self::gives_expr(old(self), final(self), res, g_level(old(self).tokens(), old(self).current(), 6)),
        decreases old(self).tokens@.len() - old(self).current, 7nat,
    {
        let ghost start = self.current as int;
        let mut expr = self.comparison()?;
        while self.matches(&[TokenType::BangEqual, TokenType::EqualEqual])
            invariant
                Self::step(old(self), self),
                start == old(self).current,
                self.reports@.len() == old(self).reports@.len() ==> g_level(self.tokens@, start, 6) == g_level_rest(
                    self.tokens@,
                    expr_tree(expr),
                    self.current as int,
                    6,
                ),
                self.reports@.len() > old(self).reports@.len() ==> g_level(self.tokens@, start, 6) is None,
            decreases self.tokens@.len() - self.current,
        {
            proof {
                assert([TokenType::BangEqual, TokenType::EqualEqual]@ =~= level_ops(6));
                lemma_level_ops(6);
                assert([TokenType::BangEqual, TokenType::EqualEqual]@ =~= seq![TokenType::BangEqual, TokenType::EqualEqual]);
            }
            let operator = self.previous.clone();
            let right = self.comparison()?;
            expr = Expr::Binary(Binary { left: Box::new(expr), operator, right: Box::new(right) });
        }
        proof {
            assert([TokenType::BangEqual, TokenType::EqualEqual]@ =~= level_ops(6));
            lemma_level_ops(6);
        }
        Ok(expr)
    }

    fn comparison(&mut self) -> (res: Result<Expr, ()>)
        requires
            old(self).wf(),
        ensures
            Self::step(old(self), final(self)),
            res is Err ==> old(self).reports().len() < final(self).reports().len(),
            Self::gives_expr(old(self), final(self), res, g_level(old(self).tokens(), old(self).current(), 5)),
        decreases old(self).tokens@.len() - old(self).current, 6nat,
    {
        let ghost start = self.current as int;
        let mut expr = self.term()?;
        while self.matches(
            &[TokenType::Greater, TokenType::GreaterEqual, TokenType::Less, TokenType::LessEqual],
        )
            invariant
                Self::step(old(self), self),
                start == old(self).current,
                self.reports@.len() == old(self).reports@.len() ==> g_level(self.tokens@, start, 5) == g_level_rest(
                    self.tokens@,
                    expr_tree(expr),
                    self.current as int,
                    5,
                ),
                self.reports@.len() > old(self).reports@.len() ==> g_level(self.tokens@, start, 5) is None,
            decreases self.tokens@.len() - self.current,
        {
            proof {
                assert([TokenType::Greater, TokenType::GreaterEqual, TokenType::Less, TokenType::LessEqual]@ =~= level_ops(5));
                lemma_level_ops(5);
                assert([TokenType::Greater, TokenType::GreaterEqual, TokenType::Less, TokenType::LessEqual]@ =~= seq![TokenType::Greater, TokenType::GreaterEqual, TokenType::Less, TokenType::LessEqual]);
            }
            let operator = self.previous.clone();
            let right = self.term()?;
            expr = Expr::Binary(Binary { left: Box::new(expr), operator, right: Box::new(right) });
        }
        proof {
            assert([TokenType::Greater, TokenType::GreaterEqual, TokenType::Less, TokenType::LessEqual]@ =~= level_ops(5));
            lemma_level_ops(5);
        }
        Ok(expr)
    }

    fn term(&mut self) -> (res: Result<Expr, ()>)
        requires
            old(self).wf(),
        ensures
            Self::step(old(self), final(self)),
            res is Err ==> old(self).reports().len() < final(self).reports().len(),
            Self::gives_expr(old(self), final(self), res, g_level(old(self).tokens(), old(self).current(), 4)),
        decreases old(self).tokens@.len() - old(self).current, 5nat,
    {
        let ghost start = self.current as int;
        let mut expr = self.factor()?;
        while self.matches(&[TokenType::Minus, TokenType::Plus])
            invariant
                Self::step(old(self), self),
                start == old(self).current,
                self.reports@.len() == old(self).reports@.len() ==> g_level(self.tokens@, start, 4) == g_level_rest(
                    self.tokens@,
                    expr_tree(expr),
                    self.current as int,
                    4,
                ),
                self.reports@.len() > old(self).reports@.len() ==> g_level(self.tokens@, start, 4) is None,
            decreases self.tokens@.len() - self.current,
        {
            proof {
                assert([TokenType::Minus, TokenType::Plus]@ =~= level_ops(4));
                lemma_level_ops(4);
                assert([TokenType::Minus, TokenType::Plus]@ =~= seq![TokenType::Minus, TokenType::Plus]);
            }
            let operator = self.previous.clone();
            let right = self.factor()?;
            expr = Expr::Binary(Binary { left: Box::new(expr), operator, right: Box::new(right) });
        }
        proof {
            assert([TokenType::Minus, TokenType::Plus]@ =~= level_ops(4));
            lemma_level_ops(4);
        }
        Ok(expr)
    }

    fn factor(&mut self) -> (res: Result<Expr, ()>)
        requires
            old(self).wf(),
        ensures
            Self::step(old(self), final(self)),
            res is Err ==> old(self).reports().len() < final(self).reports().len(),
            Self::gives_expr(old(self), final(self), res, g_level(old(self).tokens(), old(self).current(), 3)),
        decreases old(self).tokens@.len() - old(self).current, 4nat,
    {
        let ghost start = self.current as int;
        let mut expr = self.unary()?;
        proof {
            assert(g_level(self.tokens@, start, 2) == g_unary(self.tokens@, start));
            if self.reports@.len() == old(self).reports@.len() {
                assert(g_unary(self.tokens@, start) == Some((expr_tree(expr), self.current as int)));
                assert(start < self.current);
                assert(g_level(self.tokens@, start, 3) == g_level_rest(self.tokens@, expr_tree(expr), self.current as int, 3));
            }
        }
        while self.matches(&[TokenType::Slash, TokenType::Star])
            invariant
                Self::step(old(self), self),
                start == old(self).current,
                self.reports@.len() == old(self).reports@.len() ==> g_level(self.tokens@, start, 3) == g_level_rest(
                    self.tokens@,
                    expr_tree(expr),
                    self.current as int,
                    3,
                ),
                self.reports@.len() > old(self).reports@.len() ==> g_level(self.tokens@, start, 3) is None,
            decreases self.tokens@.len() - self.current,
        {
            let ghost mid = self.current - 1;
            proof {
                assert([TokenType::Slash, TokenType::Star]@ =~= level_ops(3));
                lemma_level_ops(3);
                assert(g_level(self.tokens@, mid + 1, 2) == g_unary(self.tokens@, mid + 1));
                assert([TokenType::Slash, TokenType::Star]@ =~= seq![TokenType::Slash, TokenType::Star]);
            }
            let operator = self.previous.clone();
            let right = self.unary()?;
            expr = Expr::Binary(Binary { left: Box::new(expr), operator, right: Box::new(right) });
        }
        proof {
            assert([TokenType::Slash, TokenType::Star]@ =~= level_ops(3));
            lemma_level_ops(3);
        }
        Ok(expr)
    }

    fn unary(&mut self) -> (res: Result<Expr, ()>)
        requires
            old(self).wf(),
        ensures
            Self::step(old(self), final(self)),
            res is Err ==> old(self).reports().len() < final(self).reports().len(),
            Self::gives_expr(old(self), final(self), res, g_unary(old(self).tokens(), old(self).current())),
        decreases old(self).tokens@.len() - old(self).current, 3nat,
    {
        let ghost start = self.current as int;
        if self.matches(&[TokenType::Bang, TokenType::Minus]) {
            proof {
                assert([TokenType::Bang, TokenType::Minus]@ =~= seq![TokenType::Bang, TokenType::Minus]);
                let w = choose|w: int| 0 <= w < 2 && seq![TokenType::Bang, TokenType::Minus][w] == self.tokens@[start].token_type;
                assert(at(self.tokens@, start, TokenType::Bang) || at(self.tokens@, start, TokenType::Minus));
            }
            let operator = self.previous.clone();
            let right = self.unary()?;
            Ok(Expr::Unary(Unary { operator, right: Box::new(right) }))
        } else {
            proof {
                assert([TokenType::Bang, TokenType::Minus]@ =~= seq![TokenType::Bang, TokenType::Minus]);
                assert(seq![TokenType::Bang, TokenType::Minus][0] == TokenType::Bang);
                assert(seq![TokenType::Bang, TokenType::Minus][1] == TokenType::Minus);
            }
            self.call()
        }
    }

    #[verifier::rlimit(60)]
    #[verifier::spinoff_prover]
    fn call(&mut self) -> (res: Result<Expr, ()>)
        requires
            old(self).wf(),
        ensures
            Self::step(old(self), final(self)),
            res is Err ==> old(self).reports().len() < final(self).reports().len(),
            Self::gives_expr(old(self), final(self), res, g_call(old(self).tokens(), old(self).current())),
        decreases old(self).tokens@.len() - old(self).current, 2nat,
    {
        let ghost start = self.current as int;
        let mut expr = self.primary()?;
        loop
            invariant
                Self::step(old(self), self),
                start == old(self).current,
                self.reports@.len() == old(self).reports@.len() ==> g_call(self.tokens@, start) == g_call_rest(
                    self.tokens@,
                    expr_tree(expr),
                    self.current as int,
                ),
                self.reports@.len() > old(self).reports@.len() ==> g_call(self.tokens@, start) is None,
                self.reports@.len() == old(self).reports@.len() ==> start < self.current,
            ensures
                Self::step(old(self), self),
                self.reports@.len() == old(self).reports@.len() ==> g_call(self.tokens@, start) == Some(
                    (expr_tree(expr), self.current as int),
                ),
                self.reports@.len() > old(self).reports@.len() ==> g_call(self.tokens@, start) is None,
                self.reports@.len() == old(self).reports@.len() ==> start < self.current,
            decreases self.tokens@.len() - self.current,
        {
            let ghost mid = self.current as int;
            if self.matches(&[TokenType::LeftParen]) {
                proof {
                    assert([TokenType::LeftParen]@ =~= seq![TokenType::LeftParen]);
                    assert(self.tokens@[mid].token_type == TokenType::LeftParen);
                }
                expr = self.finish_call(expr)?;
                proof {
                    let c = expr->Call_0;
                }
            } else if self.matches(&[TokenType::Dot]) {
                proof {
                    assert([TokenType::Dot]@ =~= seq![TokenType::Dot]);
                    assert(self.tokens@[mid].token_type == TokenType::Dot);
                }
                self.consume(TokenType::Identifier, "Expect property name after '.'.")?;
                let name = self.previous.clone();
                expr = Expr::Get(Get { expr: Box::new(expr), name });
            } else {
                proof {
                    assert([TokenType::LeftParen]@ =~= seq![TokenType::LeftParen]);
                    assert(seq![TokenType::LeftParen][0] == TokenType::LeftParen);
                    assert([TokenType::Dot]@ =~= seq![TokenType::Dot]);
                    assert(seq![TokenType::Dot][0] == TokenType::Dot);
                    assert(!at(self.tokens@, mid, TokenType::LeftParen));
                    assert(!at(self.tokens@, mid, TokenType::Dot));
                    assert(g_call_rest(self.tokens@, expr_tree(expr), mid) == Some((expr_tree(expr), mid)));
                }
                break;
            }
        }
        proof {
            if self.reports@.len() == old(self).reports@.len() {
                assert(g_call(self.tokens@, start) == Some((expr_tree(expr), self.current as int)));
            }
        }
        Ok(expr)
    }

    /// Parse the arguments and closing parenthesis of a call of `callee`, whose
    /// opening parenthesis has just been consumed.
    #[verifier::rlimit(100)]
    #[verifier::spinoff_prover]
    fn finish_call(&mut self, callee: Expr) -> (res: Result<Expr, ()>)
        requires
            old(self).wf(),
        ensures
            Self::step(old(self), final(self)),
            res is Err ==> old(self).reports().len() < final(self).reports().len(),
            too_many_args(old(self).tokens(), old(self).current()) ==> res is Err && reports_at(
                final(self).reports().last(),
                old(self).tokens()[old(self).current() + 2 * 255],
                "Can't have more than 255 arguments."@,
            ),
            Self::gives_expr(old(self), final(self), res, g_arguments(old(self).tokens(), expr_tree(callee), old(self).current())),
        decreases old(self).tokens@.len() - old(self).current, 12nat,
    {
        let ghost start = self.current as int;
        let mut args: Vec<Expr> = Vec::new();
        if !self.check(TokenType::RightParen) {
            proof {
                if too_many_args(self.tokens@, start) {
                    assert(atom_at(self.tokens@, start + 2 * 0));
                    lemma_atom_expr(self.tokens@, start);
                }
            }
            let first = self.expr()?;
            args.push(first);
            proof {
                assert(args@ =~= seq![first]);
                assert(args@.drop_last() =~= Seq::<Expr>::empty());
                assert(expr_trees(Seq::<Expr>::empty()) =~= Seq::<ETree>::empty());
                assert(args@.last() == first);
                assert(expr_trees(args@) == expr_trees(args@.drop_last()).push(expr_tree(args@.last())));
                assert(expr_trees(args@) =~= seq![expr_tree(first)]);
            }
            while self.matches(&[TokenType::Comma])
                invariant
                    Self::step(old(self), self),
                    start == old(self).current,
                    args.len() >= 1,
                    too_many_args(self.tokens@, start) ==> args@.len() <= 255 && self.current == start + 2
                        * args@.len() - 1 && self.reports@.len() == old(self).reports@.len(),
                    self.reports@.len() == old(self).reports@.len() ==> g_arguments(self.tokens@, expr_tree(callee), start)
                        == g_more_arguments(self.tokens@, expr_tree(callee), expr_trees(args@), self.current as int),
                    self.reports@.len() > old(self).reports@.len() ==> g_arguments(
                        self.tokens@,
                        expr_tree(callee),
                        start,
                    ) is None,
                    args@.len() >= 1,
                decreases self.tokens@.len() - self.current,
            {
                proof {
                    if too_many_args(self.tokens@, start) {
                        let p = args@.len() as int;
                        assert(atom_at(self.tokens@, start + 2 * p));
                        lemma_atom_expr(self.tokens@, start + 2 * p);
                    }
                }
                let ghost mid = self.current - 1;
                let ghost before = args@;
                proof {
                    assert([TokenType::Comma]@ =~= seq![TokenType::Comma]);
                    assert(seq![TokenType::Comma].len() == 1 && seq![TokenType::Comma][0] == TokenType::Comma);
                    assert(seq![TokenType::Comma].contains(self.tokens@[mid].token_type));
                    assert(at(self.tokens@, mid, TokenType::Comma));
                }
                let arg = self.expr()?;
                args.push(arg);
                proof {
                    assert(args@.drop_last() =~= before);
                    assert(args@.last() == arg);
                    assert(expr_trees(args@) == expr_trees(before).push(expr_tree(arg)));
                    lemma_expr_trees_len(before);
                }
                if args.len() > 255 {
                    let msg = "Can't have more than 255 arguments.";
                    self.error(msg);
                    return Err(());
                }
            }
            proof {
                assert([TokenType::Comma]@ =~= seq![TokenType::Comma]);
                if too_many_args(self.tokens@, start) {
                    let p = args@.len() as int;
                    assert(self.tokens@[start + 2 * p - 1].token_type == TokenType::Comma);
                    assert(seq![TokenType::Comma][0] == TokenType::Comma);
                    assert(seq![TokenType::Comma].contains(self.tokens@[start + 2 * p - 1].token_type));
                }
            }
        } else {
            proof {
                if too_many_args(self.tokens@, start) {
                    assert(atom_at(self.tokens@, start + 2 * 0));
                }
            }
        }
        let ghost mid = self.current as int;
        self.consume(TokenType::RightParen, "Expect ')' after arguments.")?;
        let paren = self.previous.clone();
        Ok(Expr::Call(Call { callee: Box::new(callee), paren, args }))
    }

    fn primary(&mut self) -> (res: Result<Expr, ()>)
        requires
            old(self).wf(),
        ensures
            Self::step(old(self), final(self)),
            res is Err ==> old(self).reports().len() < final(self).reports().len(),
            old(self).current() < old(self).tokens().len() && starts_primary(
                old(self).tokens()[old(self).current()].token_type,
            ) && old(self).tokens()[old(self).current()].token_type != TokenType::LeftParen ==> res is Ok
                && final(self).current() == old(self).current() + 1 && final(self).reports() == old(self).reports(),
            old(self).current() < old(self).tokens().len() ==> (starts_primary(
                old(self).tokens()[old(self).current()].token_type,
            ) || old(self).tokens()[old(self).current()].token_type == TokenType::UnterminatedString
                || res is Err && reports_at(
                final(self).reports().last(),
                old(self).tokens()[old(self).current()],
                "Expect expression."@,
            )),
            old(self).current() >= old(self).tokens().len() ==> res is Err && report_message(
                final(self).reports().last(),
            ) == "Unexpected EOF."@,
            old(self).current() < old(self).tokens().len() && old(self).tokens()[old(self).current()].token_type
                == TokenType::UnterminatedString ==> res is Err && report_message(final(self).reports().last())
                == "Unterminated string."@,
            Self::gives_expr(old(self), final(self), res, g_primary(old(self).tokens(), old(self).current())),
        decreases old(self).tokens@.len() - old(self).current, 1nat,
    {
        let ghost start = self.current as int;
        if self.current >= self.tokens.len() {
            let msg = "Unexpected EOF.";
            self.error(msg);
            return Err(());
        }
        // consume the literal
        self.advance();
        let p = match self.previous.token_type {
            TokenType::True => Expr::Literal(Literal::Bool(true)),
            TokenType::False => Expr::Literal(Literal::Bool(false)),
            TokenType::Nil => Expr::Literal(Literal::Nil),
            TokenType::Number | TokenType::String => {
                proof {
                    assert(carries_literal(self.tokens@[start].literal, self.tokens@[start].token_type, self.tokens@[start].lexeme@));
                }
                match &self.previous.literal {
                    Some(l) => Expr::Literal(l.clone()),
                    None => {
                        proof {
                            assert(false);
                        }
                        Expr::Literal(Literal::Nil)
                    },
                }
            },
            TokenType::Identifier => Expr::Variable(self.previous.clone()),
            TokenType::LeftParen => {
                let expr = self.expr()?;
                self.consume(TokenType::RightParen, "Expect ')' after expression.")?;
                return Ok(Expr::Grouping(Grouping { expression: Box::new(expr) }));
            },
            TokenType::UnterminatedString => {
                let msg = "Unterminated string.";
                self.handle_unterminated_string(msg);
                return Err(());
            },
            _ => {
                let msg = "Expect expression.";
                self.error(msg);
                return Err(());
            },
        };
        Ok(p)
    }

    /// Record a compile-time error at the previous token.
    fn error(&mut self, message: &str)
        requires
            old(self).wf(),
        ensures
            final(self).wf(),
            final(self).tokens == old(self).tokens,
            final(self).current == old(self).current,
            final(self).previous == old(self).previous,
            final(self).reports@.len() == old(self).reports@.len() + 1,
            final(self).reports@.drop_last() == old(self).reports@,
            reports_at(final(self).reports@.last(), old(self).previous, message@),
    {
        let report = compile_time_error(Some(&self.previous), message);
        self.reports.push(report);
        self.had_error = true;
    }

    fn handle_unterminated_string(&mut self, message: &str)
        requires
            old(self).wf(),
        ensures
            final(self).wf(),
            final(self).tokens == old(self).tokens,
            final(self).current == old(self).current,
            final(self).reports@.len() == old(self).reports@.len() + 1,
            final(self).reports@.last() matches Report::OnLine { line, message: m } && line
                == old(self).previous.line && m@ == message@,
    {
        self.reports.push(Report::OnLine { line: self.previous.line, message: message.to_owned() });
        self.had_error = true;
    }

    fn advance(&mut self)
        requires
            old(self).wf(),
        ensures
            final(self).wf(),
            final(self).tokens == old(self).tokens,
            final(self).reports == old(self).reports,
            final(self).had_error == old(self).had_error,
            old(self).current < old(self).tokens.len() ==> final(self).current == old(self).current + 1,
            old(self).current >= old(self).tokens.len() ==> *final(self) == *old(self),
    {
        if self.current < self.tokens.len() {
            self.previous = self.tokens[self.current].clone();
            self.current = self.current + 1;
        }
    }

    fn matches(&mut self, token_types: &[TokenType]) -> (res: bool)
        requires
            old(self).wf(),
        ensures
            res == (old(self).current < old(self).tokens.len() && token_types@.contains(
                old(self).tokens@[old(self).current as int].token_type,
            )),
            res ==> {
                &&& final(self).wf()
                &&& final(self).tokens == old(self).tokens
                &&& final(self).reports == old(self).reports
                &&& final(self).current == old(self).current + 1
            },
            !res ==> *final(self) == *old(self),
    {
        let mut i: usize = 0;
        while i < token_types.len()
            invariant
                self.wf(),
                i <= token_types.len(),
                *self == *old(self),
                forall|k: int|
                    0 <= k < i ==> !self.check_spec(#[trigger] token_types@[k]),
            decreases token_types.len() - i,
        {
            if self.check(token_types[i]) {
                self.advance();
                return true;
            }
            i = i + 1;
        }
        assert(!(self.current < self.tokens.len() && token_types@.contains(
            self.tokens@[self.current as int].token_type,
        ))) by {
            if self.current < self.tokens.len() && token_types@.contains(
                self.tokens@[self.current as int].token_type,
            ) {
                let k = choose|k: int| 0 <= k < token_types@.len() && token_types@[k]
                    == self.tokens@[self.current as int].token_type;
            }
        }
        false
    }

    pub closed spec fn check_spec(&self, token_type: TokenType) -> bool {
        self.current < self.tokens.len() && self.tokens@[self.current as int].token_type == token_type
    }

    fn check(&self, token_type: TokenType) -> (res: bool)
        ensures
            res == self.check_spec(token_type),
    {
        if self.current < self.tokens.len() {
            self.tokens[self.current].token_type == token_type
        } else {
            false
        }
    }

    fn consume(&mut self, token_type: TokenType, message: &str) -> (res: Result<(), ()>)
        requires
            old(self).wf(),
        ensures
            final(self).wf(),
            final(self).tokens == old(self).tokens,
            res is Ok <==> old(self).check_spec(token_type),
            res is Ok ==> final(self).current == old(self).current + 1 && final(self).reports
                == old(self).reports,
            res is Err ==> final(self).reports@.len() == old(self).reports@.len() + 1,
            res is Err && old(self).current < old(self).tokens.len() ==> final(self).current
                == old(self).current + 1,
            res is Err && old(self).current >= old(self).tokens.len() ==> final(self).current
                == old(self).current,
    {
        if self.check(token_type) {
            self.advance();
            Ok(())
        } else {
            self.advance();
            self.error(message);
            Err(())
        }
    }

    /// Skip tokens after an error, up to the next likely statement boundary: just
    /// after a `;`, just before a keyword that starts a statement, or the end.
    fn synchronize(&mut self)
        requires
            old(self).wf(),
        ensures
            Self::step(old(self), final(self)),
            final(self).reports == old(self).reports,
            old(self).current < old(self).tokens.len() ==> sync_stop(final(self).tokens(), final(self).current()),
            forall|i: int|
                old(self).current < i < final(self).current ==> !sync_stop(final(self).tokens(), i),
    {
        self.advance();
        while self.current < self.tokens.len()
            invariant
                Self::step(old(self), self),
                self.reports == old(self).reports,
                old(self).current < old(self).tokens.len() ==> old(self).current < self.current,
                forall|i: int| old(self).current < i < self.current ==> !sync_stop(self.tokens@, i),
            decreases self.tokens@.len() - self.current,
        {
            if self.previous.token_type == TokenType::Semicolon {
                return;
            }
            match self.tokens[self.current].token_type {
                TokenType::Class | TokenType::Fun | TokenType::Var | TokenType::For | TokenType::If
                | TokenType::While | TokenType::Print | TokenType::Return => {
                    return;
                },
                _ => {},
            }
            self.advance();
        }
    }
}

/// Whether `w` is the `while` loop of a `for` loop with these clauses and body: it
/// loops on the condition (`true` when there is none) over the body followed by
/// the increment (if there is one).
pub open spec fn while_of_for(w: Stmt, condition: Option<Expr>, increment: Option<Expr>, body: Stmt) -> bool {
    &&& w matches Stmt::While(wl)
    &&& wl.condition == match condition {
        Some(c) => c,
        None => Expr::Literal(Literal::Bool(true)),
    }
    &&& match increment {
        Some(inc) => *wl.body matches Stmt::Block(b) && b@ == seq![body, Stmt::Expression(inc)],
        None => *wl.body == body,
    }
}

/// Whether `s` is what a `for` loop with these clauses and body stands for: the
/// initializer (if there is one) followed, in a block, by the loop itself.
pub open spec fn desugared_for(
    s: Stmt,
    initializer: Option<Stmt>,
    condition: Option<Expr>,
    increment: Option<Expr>,
    body: Stmt,
) -> bool {
    match initializer {
        Some(i) => s matches Stmt::Block(v) && v@.len() == 2 && v@[0] == i && while_of_for(
            v@[1],
            condition,
            increment,
            body,
        ),
        None => while_of_for(s, condition, increment, body),
    }
}

/// The loop that a `for` statement stands for:
/// `{ initializer; while (condition) { body; increment; } }`, where a missing
/// condition is `true` and missing parts are left out.
pub fn desugar_for(
    initializer: Option<Stmt>,
    condition: Option<Expr>,
    increment: Option<Expr>,
    body: Stmt,
) -> (res: Stmt)
    ensures
        desugared_for(res, initializer, condition, increment, body),
        stmt_tree(res) == g_desugar(
            opt_stmt_tree(initializer),
            opt_expr_tree(condition),
            opt_expr_tree(increment),
            stmt_tree(body),
        ),
        (initializer is Some ==> stmt_ok(initializer->0)) && stmt_ok(body) ==> stmt_ok(res),
{
    let ghost ok_parts = (initializer is Some ==> stmt_ok(initializer->0)) && stmt_ok(body);
    let ghost b0 = stmt_tree(body);
    let ghost inc0 = increment;
    let ghost cond0 = condition;
    let mut body = body;
    if let Some(increment) = increment {
        let v = vec![body, Stmt::Expression(increment)];
        proof {
            lemma_stmt_trees_two(v@[0], v@[1]);
            assert(v@ =~= seq![v@[0], v@[1]]);
            if ok_parts {
                assert(stmt_ok(v@[0]));
                assert(stmt_ok(v@[1]));
                assert(forall|i: int| 0 <= i < v@.len() ==> stmt_ok(#[trigger] v@[i]));
            }
        }
        body = Stmt::Block(v);
    }
    assert(ok_parts ==> stmt_ok(body));
    let ghost looped = match opt_expr_tree(inc0) {
        Some(x) => STree::Block(seq![b0, STree::Expression(x)]),
        None => b0,
    };
    assert(stmt_tree(body) == looped);
    let condition = match condition {
        Some(c) => c,
        None => Expr::Literal(Literal::Bool(true)),
    };
    body = Stmt::While(While { condition, body: Box::new(body) });
    assert(ok_parts ==> stmt_ok(body));
    let ghost w = stmt_tree(body);
    assert(w == STree::While(
        match opt_expr_tree(cond0) {
            Some(c) => c,
            None => ETree::Literal(Literal::Bool(true)),
        },
        Box::new(looped),
    ));
    if let Some(initializer) = initializer {
        let v = vec![initializer, body];
        proof {
            lemma_stmt_trees_two(v@[0], v@[1]);
            assert(v@ =~= seq![v@[0], v@[1]]);
            if ok_parts {
                assert(stmt_ok(v@[0]));
                assert(stmt_ok(v@[1]));
                assert(forall|i: int| 0 <= i < v@.len() ==> stmt_ok(#[trigger] v@[i]));
            }
        }
        body = Stmt::Block(v);
    }
    body
}

} // verus!
