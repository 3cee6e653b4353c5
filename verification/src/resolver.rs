use vstd::prelude::*;
use crate::expr::Expr;
use crate::stmt::{stmt_ok, stmts_ok, Class, Function, If, Return, Stmt, Var, While};
use crate::tokens::Token;
use crate::{compile_time_error, reports_at, text_is, Report};

verus! {

/// Whether a name in a scope has been fully defined yet.
#[derive(Debug, Clone, Copy, PartialEq, Eq, Structural)]
pub enum SymbolState {
    Pending,
    Resolved,
}

/// What kind of callable body the resolver is inside.
#[derive(Debug, Clone, Copy, PartialEq, Eq, Structural)]
pub enum FunctionType {
    NoFunction,
    Function,
    Initializer,
    Method,
}

/// What kind of class definition the resolver is inside.
#[derive(Debug, Clone, Copy, PartialEq, Eq, Structural)]
pub enum ClassType {
    NoClass,
    Class,
    SubClass,
}

/// The state of `name` in a scope, which lists its entries in the order they were
/// made (a later entry for a name replaces an earlier one).
pub open spec fn scope_lookup(scope: Seq<(Seq<char>, SymbolState)>, name: Seq<char>) -> Option<SymbolState>
    decreases scope.len(),
{
    if scope.len() == 0 {
        None
    } else if scope.last().0 == name {
        Some(scope.last().1)
    } else {
        scope_lookup(scope.drop_last(), name)
    }
}

/// The index of the innermost scope among `scopes[0..n]` that has an entry for `name`.
pub open spec fn innermost(scopes: Seq<Seq<(Seq<char>, SymbolState)>>, n: int, name: Seq<char>) -> Option<int>
    decreases n,
{
    if n <= 0 {
        None
    } else if scope_lookup(scopes[n - 1], name) is Some {
        Some(n - 1)
    } else {
        innermost(scopes, n - 1, name)
    }
}

/// Whether `scope` has an entry named `name`.
pub open spec fn declares(scope: Seq<(Seq<char>, SymbolState)>, name: Seq<char>) -> bool {
    exists|k: int| 0 <= k < scope.len() && #[trigger] scope[k].0 == name
}

proof fn lemma_scope_lookup_declares(scope: Seq<(Seq<char>, SymbolState)>, name: Seq<char>)
    ensures
        scope_lookup(scope, name) is Some <==> declares(scope, name),
    decreases scope.len(),
{
    if scope.len() > 0 {
        lemma_scope_lookup_declares(scope.drop_last(), name);
        if declares(scope, name) && scope.last().0 != name {
            let k = choose|k: int| 0 <= k < scope.len() && #[trigger] scope[k].0 == name;
            assert(scope.drop_last()[k].0 == name);
        }
        if declares(scope.drop_last(), name) {
            let k = choose|k: int| 0 <= k < scope.len() - 1 && #[trigger] scope.drop_last()[k].0 == name;
            assert(scope[k].0 == name);
        }
        assert(scope[scope.len() - 1] == scope.last());
    }
}

proof fn lemma_innermost_nearest(scopes: Seq<Seq<(Seq<char>, SymbolState)>>, n: int, name: Seq<char>)
    requires
        n <= scopes.len(),
    ensures
        match innermost(scopes, n, name) {
            Some(k) => 0 <= k < n && declares(scopes[k], name) && forall|j: int|
                k < j < n ==> !declares(#[trigger] scopes[j], name),
            None => forall|j: int| 0 <= j < n ==> !declares(#[trigger] scopes[j], name),
        },
    decreases n,
{
    if n > 0 {
        lemma_scope_lookup_declares(scopes[n - 1], name);
        lemma_innermost_nearest(scopes, n - 1, name);
    }
}

/// A local reference resolves to the nearest scope that declares its name: the
/// recorded distance counts out from the innermost scope to a scope that has an
/// entry for the name, and no scope nearer to the reference has one. When no scope
/// has one, nothing is recorded and the name is global.
pub proof fn lemma_reference_resolves_to_nearest(scopes: Seq<Seq<(Seq<char>, SymbolState)>>, t: Token)
    requires
        scopes.len() <= usize::MAX,
    ensures
        local_ref(scopes, t).len() <= 1,
        local_ref(scopes, t).len() == 1 ==> {
            let (id, d) = local_ref(scopes, t)[0];
            &&& id == t.id
            &&& d < scopes.len()
            &&& declares(scopes[scopes.len() - 1 - d], t.lexeme@)
            &&& forall|j: int|
                scopes.len() - 1 - d < j < scopes.len() ==> !declares(#[trigger] scopes[j], t.lexeme@)
        },
        local_ref(scopes, t).len() == 0 ==> forall|j: int|
            0 <= j < scopes.len() ==> !declares(#[trigger] scopes[j], t.lexeme@),
{
    lemma_innermost_nearest(scopes, scopes.len() as int, t.lexeme@);
    if let Some(k) = innermost(scopes, scopes.len() as int, t.lexeme@) {
        let d = (scopes.len() - 1 - k) as usize;
        assert(d as int == scopes.len() - 1 - k);
        assert(local_ref(scopes, t)[0] == (t.id, d));
    }
}

/// The entries of a scope, each name given by its text.
pub open spec fn scope_view(v: Seq<(String, SymbolState)>) -> Seq<(Seq<char>, SymbolState)> {
    v.map_values(|p: (String, SymbolState)| (p.0@, p.1))
}

/// `scopes` with an entry for `name` in state `state` added to the innermost scope,
/// if there is one.
pub open spec fn enter(
    scopes: Seq<Seq<(Seq<char>, SymbolState)>>,
    name: Seq<char>,
    state: SymbolState,
) -> Seq<Seq<(Seq<char>, SymbolState)>> {
    if scopes.len() > 0 {
        scopes.update(scopes.len() - 1, scopes.last().push((name, state)))
    } else {
        scopes
    }
}

/// `scopes` with `name` declared and then defined in the innermost scope.
pub open spec fn declare_define(scopes: Seq<Seq<(Seq<char>, SymbolState)>>, name: Seq<char>) -> Seq<
    Seq<(Seq<char>, SymbolState)>,
> {
    enter(enter(scopes, name, SymbolState::Pending), name, SymbolState::Resolved)
}

/// `scopes` with each parameter of `ps` declared and defined, in order.
pub open spec fn params_entered(scopes: Seq<Seq<(Seq<char>, SymbolState)>>, ps: Seq<Token>) -> Seq<
    Seq<(Seq<char>, SymbolState)>,
>
    decreases ps.len(),
{
    if ps.len() == 0 {
        scopes
    } else {
        declare_define(params_entered(scopes, ps.drop_last()), ps.last().lexeme@)
    }
}

/// The resolution of a reference to `t` from the innermost of `scopes`: its identity
/// and how many scopes out the innermost scope that has `t`'s name is; none when no
/// scope has it (the name is then global).
pub open spec fn local_ref(scopes: Seq<Seq<(Seq<char>, SymbolState)>>, t: Token) -> Seq<(usize, usize)> {
    match innermost(scopes, scopes.len() as int, t.lexeme@) {
        Some(i) => seq![(t.id, (scopes.len() - 1 - i) as usize)],
        None => Seq::empty(),
    }
}

/// The resolutions of the references in an expression, in the order the resolver
/// meets them.
pub open spec fn expr_refs(scopes: Seq<Seq<(Seq<char>, SymbolState)>>, e: Expr) -> Seq<(usize, usize)>
    decreases e,
{
    match e {
        Expr::Variable(t) => local_ref(scopes, t),
        Expr::Assign(a) => expr_refs(scopes, *a.value) + local_ref(scopes, a.name),
        Expr::Binary(b) => expr_refs(scopes, *b.left) + expr_refs(scopes, *b.right),
        Expr::Call(c) => expr_refs(scopes, *c.callee) + exprs_refs(scopes, c.args@),
        Expr::Get(g) => expr_refs(scopes, *g.expr),
        Expr::Grouping(g) => expr_refs(scopes, *g.expression),
        Expr::Literal(_) => Seq::empty(),
        Expr::Logical(l) => expr_refs(scopes, *l.left) + expr_refs(scopes, *l.right),
        Expr::SetProperty(s) => expr_refs(scopes, *s.value) + expr_refs(scopes, *s.expr),
        Expr::Super(s) => local_ref(scopes, s.keyword),
        Expr::This(t) => local_ref(scopes, t),
        Expr::Unary(u) => expr_refs(scopes, *u.right),
        Expr::Array(es) => exprs_refs(scopes, es@),
        Expr::Index(i) => expr_refs(scopes, *i.object) + expr_refs(scopes, *i.index),
        Expr::IndexSet(i) => expr_refs(scopes, *i.object) + expr_refs(scopes, *i.index) + expr_refs(
            scopes,
            *i.value,
        ),
    }
}

/// The resolutions of the references in expressions, one expression after the other.
pub open spec fn exprs_refs(scopes: Seq<Seq<(Seq<char>, SymbolState)>>, es: Seq<Expr>) -> Seq<(usize, usize)>
    decreases es,
{
    if es.len() == 0 {
        Seq::empty()
    } else {
        exprs_refs(scopes, es.drop_last()) + expr_refs(scopes, es.last())
    }
}

/// What resolving a statement that has no static error does: the scopes it leaves,
/// and the resolutions of its references, in order.
pub open spec fn stmt_res(scopes: Seq<Seq<(Seq<char>, SymbolState)>>, s: Stmt) -> (
    Seq<Seq<(Seq<char>, SymbolState)>>,
    Seq<(usize, usize)>,
)
    decreases s, 0nat,
{
    match s {
        Stmt::Block(v) => {
            let inner = stmts_res(scopes.push(Seq::empty()), v@);
            (inner.0.drop_last(), inner.1)
        },
        Stmt::Class(c) => {
            let declared = declare_define(scopes, c.name.lexeme@);
            let above = match c.superclass {
                Some(e) => enter(declared.push(Seq::empty()), "super"@, SymbolState::Resolved),
                None => declared,
            };
            let inner = methods_res(enter(above.push(Seq::empty()), "this"@, SymbolState::Resolved), c.methods@);
            let refs = match c.superclass {
                Some(e) => expr_refs(declared, e),
                None => Seq::empty(),
            };
            let out = match c.superclass {
                Some(e) => inner.0.drop_last().drop_last(),
                None => inner.0.drop_last(),
            };
            (out, refs + inner.1)
        },
        Stmt::Var(v) => {
            let declared = enter(scopes, v.name.lexeme@, SymbolState::Pending);
            let refs = match v.initializer {
                Some(e) => expr_refs(declared, e),
                None => Seq::empty(),
            };
            (enter(declared, v.name.lexeme@, SymbolState::Resolved), refs)
        },
        Stmt::Function(f) => function_res(scopes, f.name.lexeme@, f.params@, (*f.body)@),
        Stmt::Expression(e) => (scopes, expr_refs(scopes, e)),
        Stmt::Print(e) => (scopes, expr_refs(scopes, e)),
        Stmt::If(i) => {
            let then_res = stmt_res(scopes, *i.then_branch);
            match i.else_branch {
                Some(e) => {
                    let else_res = stmt_res(then_res.0, *e);
                    (else_res.0, expr_refs(scopes, i.condition) + then_res.1 + else_res.1)
                },
                None => (then_res.0, expr_refs(scopes, i.condition) + then_res.1),
            }
        },
        Stmt::Return(r) => (
            scopes,
            match r.value {
                Some(e) => expr_refs(scopes, e),
                None => Seq::empty(),
            },
        ),
        Stmt::While(w) => {
            let body_res = stmt_res(scopes, *w.body);
            (body_res.0, expr_refs(scopes, w.condition) + body_res.1)
        },
    }
}

/// What resolving statements that have no static error does, one after the other.
pub open spec fn stmts_res(scopes: Seq<Seq<(Seq<char>, SymbolState)>>, v: Seq<Stmt>) -> (
    Seq<Seq<(Seq<char>, SymbolState)>>,
    Seq<(usize, usize)>,
)
    decreases v, 1nat,
{
    if v.len() == 0 {
        (scopes, Seq::empty())
    } else {
        let first = stmts_res(scopes, v.drop_last());
        let last = stmt_res(first.0, v.last());
        (last.0, first.1 + last.1)
    }
}

/// What resolving a function declaration that has no static error does: its name
/// is declared where it stands, and its body is resolved in a new scope that holds
/// its parameters.
pub open spec fn function_res(
    scopes: Seq<Seq<(Seq<char>, SymbolState)>>,
    name: Seq<char>,
    params: Seq<Token>,
    body: Seq<Stmt>,
) -> (Seq<Seq<(Seq<char>, SymbolState)>>, Seq<(usize, usize)>)
    decreases body, 2nat,
{
    let inner = stmts_res(params_entered(declare_define(scopes, name).push(Seq::empty()), params), body);
    (inner.0.drop_last(), inner.1)
}

/// What resolving the methods of a class that have no static error does, one after
/// the other.
pub open spec fn methods_res(scopes: Seq<Seq<(Seq<char>, SymbolState)>>, v: Seq<Stmt>) -> (
    Seq<Seq<(Seq<char>, SymbolState)>>,
    Seq<(usize, usize)>,
)
    decreases v, 1nat,
{
    if v.len() == 0 {
        (scopes, Seq::empty())
    } else {
        let first = methods_res(scopes, v.drop_last());
        let last = match v.last() {
            Stmt::Function(f) => function_res(first.0, f.name.lexeme@, f.params@, (*f.body)@),
            _ => (first.0, Seq::empty()),
        };
        (last.0, first.1 + last.1)
    }
}

/// Whether `b` has as many scopes as `a`, all of them the same but the innermost.
pub open spec fn same_outer(a: Seq<Seq<(Seq<char>, SymbolState)>>, b: Seq<Seq<(Seq<char>, SymbolState)>>) -> bool {
    &&& a.len() == b.len()
    &&& forall|i: int| 0 <= i < a.len() - 1 ==> #[trigger] a[i] == b[i]
}

proof fn lemma_params_scopes(scopes: Seq<Seq<(Seq<char>, SymbolState)>>, ps: Seq<Token>)
    ensures
        same_outer(params_entered(scopes, ps), scopes),
    decreases ps.len(),
{
    if ps.len() > 0 {
        lemma_params_scopes(scopes, ps.drop_last());
    }
}

/// Resolving a statement changes no scope but the innermost one, and adds or
/// removes none.
pub proof fn lemma_stmt_scopes(scopes: Seq<Seq<(Seq<char>, SymbolState)>>, s: Stmt)
    ensures
        same_outer(stmt_res(scopes, s).0, scopes),
    decreases s, 0nat,
{
    match s {
        Stmt::Block(v) => {
            let inner = stmts_res(scopes.push(Seq::empty()), v@);
            lemma_stmts_scopes(scopes.push(Seq::empty()), v@);
            assert(inner.0.drop_last() =~= scopes);
        },
        Stmt::Class(c) => {
            let declared = declare_define(scopes, c.name.lexeme@);
            let above = match c.superclass {
                Some(e) => enter(declared.push(Seq::empty()), "super"@, SymbolState::Resolved),
                None => declared,
            };
            let start = enter(above.push(Seq::empty()), "this"@, SymbolState::Resolved);
            let inner = methods_res(start, c.methods@);
            lemma_methods_scopes(start, c.methods@);
            assert(inner.0.drop_last() =~= above);
            if c.superclass is Some {
                assert(above.drop_last() =~= declared);
            }
        },
        Stmt::Function(f) => {
            lemma_function_scopes(scopes, f.name.lexeme@, f.params@, (*f.body)@);
        },
        Stmt::If(i) => {
            lemma_stmt_scopes(scopes, *i.then_branch);
            let then_res = stmt_res(scopes, *i.then_branch);
            if let Some(e) = i.else_branch {
                lemma_stmt_scopes(then_res.0, *e);
            }
        },
        Stmt::While(w) => {
            lemma_stmt_scopes(scopes, *w.body);
        },
        _ => {},
    }
}

/// Resolving statements changes no scope but the innermost one, and adds or
/// removes none.
pub proof fn lemma_stmts_scopes(scopes: Seq<Seq<(Seq<char>, SymbolState)>>, v: Seq<Stmt>)
    ensures
        same_outer(stmts_res(scopes, v).0, scopes),
    decreases v, 1nat,
{
    if v.len() > 0 {
        lemma_stmts_scopes(scopes, v.drop_last());
        let first = stmts_res(scopes, v.drop_last());
        lemma_stmt_scopes(first.0, v.last());
    }
}

proof fn lemma_methods_scopes(scopes: Seq<Seq<(Seq<char>, SymbolState)>>, v: Seq<Stmt>)
    ensures
        same_outer(methods_res(scopes, v).0, scopes),
    decreases v, 1nat,
{
    if v.len() > 0 {
        lemma_methods_scopes(scopes, v.drop_last());
        let first = methods_res(scopes, v.drop_last());
        if let Stmt::Function(f) = v.last() {
            lemma_function_scopes(first.0, f.name.lexeme@, f.params@, (*f.body)@);
        }
    }
}

proof fn lemma_function_scopes(
    scopes: Seq<Seq<(Seq<char>, SymbolState)>>,
    name: Seq<char>,
    params: Seq<Token>,
    body: Seq<Stmt>,
)
    ensures
        same_outer(function_res(scopes, name, params, body).0, scopes),
    decreases body, 2nat,
{
    let declared = declare_define(scopes, name);
    let entered = params_entered(declared.push(Seq::empty()), params);
    lemma_params_scopes(declared.push(Seq::empty()), params);
    lemma_stmts_scopes(entered, body);
    let inner = stmts_res(entered, body);
    assert(inner.0.drop_last() =~= declared);
}

/// A declaration statement leaves its name declared and defined in the innermost
/// scope, when there is one.
pub proof fn lemma_declared_name_resolved(scopes: Seq<Seq<(Seq<char>, SymbolState)>>, s: Stmt)
    requires
        scopes.len() > 0,
    ensures
        s matches Stmt::Var(v) ==> scope_lookup(stmt_res(scopes, s).0.last(), v.name.lexeme@) == Some(
            SymbolState::Resolved,
        ),
        s matches Stmt::Function(f) ==> scope_lookup(stmt_res(scopes, s).0.last(), f.name.lexeme@) == Some(
            SymbolState::Resolved,
        ),
        s matches Stmt::Class(c) ==> scope_lookup(stmt_res(scopes, s).0.last(), c.name.lexeme@) == Some(
            SymbolState::Resolved,
        ),
{
    match s {
        Stmt::Function(f) => {
            let declared = declare_define(scopes, f.name.lexeme@);
            let entered = params_entered(declared.push(Seq::empty()), f.params@);
            lemma_params_scopes(declared.push(Seq::empty()), f.params@);
            lemma_stmts_scopes(entered, (*f.body)@);
            let inner = stmts_res(entered, (*f.body)@);
            let last = declared.len() - 1;
            assert(entered[last] == declared.push(Seq::empty())[last]);
            assert(inner.0[last] == entered[last]);
            assert(stmt_res(scopes, s) == function_res(scopes, f.name.lexeme@, f.params@, (*f.body)@));
            assert(function_res(scopes, f.name.lexeme@, f.params@, (*f.body)@).0 == inner.0.drop_last());
        },
        Stmt::Class(c) => {
            lemma_stmt_scopes(scopes, s);
            let declared = declare_define(scopes, c.name.lexeme@);
            let above = match c.superclass {
                Some(e) => enter(declared.push(Seq::empty()), "super"@, SymbolState::Resolved),
                None => declared,
            };
            let start = enter(above.push(Seq::empty()), "this"@, SymbolState::Resolved);
            lemma_methods_scopes(start, c.methods@);
            let inner = methods_res(start, c.methods@);
            assert(inner.0.drop_last() =~= above);
            if c.superclass is Some {
                assert(above.drop_last() =~= declared);
            }
        },
        _ => {},
    }
}

/// A block leaves the scopes exactly as it found them: what it declares ends with it.
pub proof fn lemma_block_scopes(scopes: Seq<Seq<(Seq<char>, SymbolState)>>, s: Stmt)
    requires
        s is Block,
    ensures
        stmt_res(scopes, s).0 == scopes,
{
    let v = s->Block_0;
    lemma_stmts_scopes(scopes.push(Seq::empty()), v@);
    assert(stmts_res(scopes.push(Seq::empty()), v@).0.drop_last() =~= scopes);
}

/// Whether `name` already has an entry in the innermost scope, if there is one.
pub open spec fn redeclared(scopes: Seq<Seq<(Seq<char>, SymbolState)>>, name: Seq<char>) -> bool {
    scopes.len() > 0 && scope_lookup(scopes.last(), name) is Some
}

/// Whether no two parameters share a name.
pub open spec fn params_distinct(ps: Seq<Token>) -> bool {
    forall|i: int, j: int| 0 <= i < j < ps.len() ==> #[trigger] ps[i].lexeme@ != #[trigger] ps[j].lexeme@
}

/// Whether `j` is the first parameter whose name an earlier parameter already has.
pub open spec fn first_repeat(ps: Seq<Token>, j: int) -> bool {
    &&& 0 <= j < ps.len()
    &&& params_distinct(ps.take(j))
    &&& exists|k: int| 0 <= k < j && #[trigger] ps[k].lexeme@ == ps[j].lexeme@
}

/// Whether an expression, resolved from `scopes` inside a class of kind `ct`, has no
/// static error: no local variable is read in its own initializer, `this` stands
/// only in a class, and `super` only in a class that has a superclass.
pub open spec fn expr_clean(scopes: Seq<Seq<(Seq<char>, SymbolState)>>, ct: ClassType, e: Expr) -> bool
    decreases e,
{
    match e {
        Expr::Variable(t) => !(scopes.len() > 0 && scope_lookup(scopes.last(), t.lexeme@) == Some(
            SymbolState::Pending,
        )),
        Expr::Assign(a) => expr_clean(scopes, ct, *a.value),
        Expr::Binary(b) => expr_clean(scopes, ct, *b.left) && expr_clean(scopes, ct, *b.right),
        Expr::Call(c) => expr_clean(scopes, ct, *c.callee) && exprs_clean(scopes, ct, c.args@),
        Expr::Get(g) => expr_clean(scopes, ct, *g.expr),
        Expr::Grouping(g) => expr_clean(scopes, ct, *g.expression),
        Expr::Literal(_) => true,
        Expr::Logical(l) => expr_clean(scopes, ct, *l.left) && expr_clean(scopes, ct, *l.right),
        Expr::SetProperty(s) => expr_clean(scopes, ct, *s.value) && expr_clean(scopes, ct, *s.expr),
        Expr::Super(_) => ct == ClassType::SubClass,
        Expr::This(_) => ct != ClassType::NoClass,
        Expr::Unary(u) => expr_clean(scopes, ct, *u.right),
        Expr::Array(es) => exprs_clean(scopes, ct, es@),
        Expr::Index(i) => expr_clean(scopes, ct, *i.object) && expr_clean(scopes, ct, *i.index),
        Expr::IndexSet(i) => expr_clean(scopes, ct, *i.object) && expr_clean(scopes, ct, *i.index)
            && expr_clean(scopes, ct, *i.value),
    }
}

/// Whether each of the expressions has no static error.
pub open spec fn exprs_clean(scopes: Seq<Seq<(Seq<char>, SymbolState)>>, ct: ClassType, es: Seq<Expr>) -> bool
    decreases es,
{
    if es.len() == 0 {
        true
    } else {
        exprs_clean(scopes, ct, es.drop_last()) && expr_clean(scopes, ct, es.last())
    }
}

/// Whether a statement, resolved from `scopes` inside a body of kind `ft` and a class
/// of kind `ct`, has no static error.
pub open spec fn stmt_clean(
    scopes: Seq<Seq<(Seq<char>, SymbolState)>>,
    ft: FunctionType,
    ct: ClassType,
    s: Stmt,
) -> bool
    decreases s, 0nat,
{
    match s {
        Stmt::Block(v) => stmts_clean(scopes.push(Seq::empty()), ft, ct, v@),
        Stmt::Class(c) => {
            let declared = declare_define(scopes, c.name.lexeme@);
            let above = match c.superclass {
                Some(e) => enter(declared.push(Seq::empty()), "super"@, SymbolState::Resolved),
                None => declared,
            };
            let inner_ct = if c.superclass is Some { ClassType::SubClass } else { ClassType::Class };
            &&& !redeclared(scopes, c.name.lexeme@)
            &&& match c.superclass {
                Some(e) => (e matches Expr::Variable(t) ==> t.lexeme@ != c.name.lexeme@) && expr_clean(
                    declared,
                    ClassType::SubClass,
                    e,
                ),
                None => true,
            }
            &&& methods_clean(enter(above.push(Seq::empty()), "this"@, SymbolState::Resolved), inner_ct, c.methods@)
        },
        Stmt::Var(v) => !redeclared(scopes, v.name.lexeme@) && match v.initializer {
            Some(e) => expr_clean(enter(scopes, v.name.lexeme@, SymbolState::Pending), ct, e),
            None => true,
        },
        Stmt::Function(f) => function_clean(scopes, ct, f.name.lexeme@, f.params@, (*f.body)@, FunctionType::Function),
        Stmt::Expression(e) => expr_clean(scopes, ct, e),
        Stmt::Print(e) => expr_clean(scopes, ct, e),
        Stmt::If(i) => {
            &&& expr_clean(scopes, ct, i.condition)
            &&& stmt_clean(scopes, ft, ct, *i.then_branch)
            &&& match i.else_branch {
                Some(e) => stmt_clean(stmt_res(scopes, *i.then_branch).0, ft, ct, *e),
                None => true,
            }
        },
        Stmt::Return(r) => {
            &&& ft != FunctionType::NoFunction
            &&& !(ft == FunctionType::Initializer && r.value is Some)
            &&& match r.value {
                Some(e) => expr_clean(scopes, ct, e),
                None => true,
            }
        },
        Stmt::While(w) => expr_clean(scopes, ct, w.condition) && stmt_clean(scopes, ft, ct, *w.body),
    }
}

/// Whether statements, resolved one after the other, have no static error.
pub open spec fn stmts_clean(
    scopes: Seq<Seq<(Seq<char>, SymbolState)>>,
    ft: FunctionType,
    ct: ClassType,
    v: Seq<Stmt>,
) -> bool
    decreases v, 1nat,
{
    if v.len() == 0 {
        true
    } else {
        stmts_clean(scopes, ft, ct, v.drop_last()) && stmt_clean(
            stmts_res(scopes, v.drop_last()).0,
            ft,
            ct,
            v.last(),
        )
    }
}

/// Whether a function declaration has no static error: its name is new to the scope
/// where it stands, its parameters have distinct names, and its body, a body of kind
/// `kind`, has none.
pub open spec fn function_clean(
    scopes: Seq<Seq<(Seq<char>, SymbolState)>>,
    ct: ClassType,
    name: Seq<char>,
    params: Seq<Token>,
    body: Seq<Stmt>,
    kind: FunctionType,
) -> bool
    decreases body, 2nat,
{
    &&& !redeclared(scopes, name)
    &&& params_distinct(params)
    &&& stmts_clean(params_entered(declare_define(scopes, name).push(Seq::empty()), params), kind, ct, body)
}

/// The kind of body a method has: `init` is the initializer.
pub open spec fn method_kind(name: Seq<char>) -> FunctionType {
    if name == "init"@ {
        FunctionType::Initializer
    } else {
        FunctionType::Method
    }
}

/// Whether the methods of a class, resolved one after the other, have no static error.
pub open spec fn methods_clean(scopes: Seq<Seq<(Seq<char>, SymbolState)>>, ct: ClassType, v: Seq<Stmt>) -> bool
    decreases v, 1nat,
{
    if v.len() == 0 {
        true
    } else {
        methods_clean(scopes, ct, v.drop_last()) && match v.last() {
            Stmt::Function(f) => function_clean(
                methods_res(scopes, v.drop_last()).0,
                ct,
                f.name.lexeme@,
                f.params@,
                (*f.body)@,
                method_kind(f.name.lexeme@),
            ),
            _ => true,
        }
    }
}

proof fn lemma_exprs_clean_prefix(scopes: Seq<Seq<(Seq<char>, SymbolState)>>, ct: ClassType, v: Seq<Expr>, k: int)
    requires
        0 <= k <= v.len(),
        exprs_clean(scopes, ct, v),
    ensures
        exprs_clean(scopes, ct, v.take(k)),
    decreases v.len(),
{
    if k < v.len() {
        assert(v.drop_last().take(k) =~= v.take(k));
        lemma_exprs_clean_prefix(scopes, ct, v.drop_last(), k);
    } else {
        assert(v.take(k) =~= v);
    }
}

proof fn lemma_methods_clean_prefix(scopes: Seq<Seq<(Seq<char>, SymbolState)>>, ct: ClassType, v: Seq<Stmt>, k: int)
    requires
        0 <= k <= v.len(),
        methods_clean(scopes, ct, v),
    ensures
        methods_clean(scopes, ct, v.take(k)),
    decreases v.len(),
{
    if k < v.len() {
        assert(v.drop_last().take(k) =~= v.take(k));
        lemma_methods_clean_prefix(scopes, ct, v.drop_last(), k);
    } else {
        assert(v.take(k) =~= v);
    }
}

/// The innermost scope after the parameters are entered into a new scope has an
/// entry for a name exactly when some parameter has that name.
proof fn lemma_params_lookup(scopes: Seq<Seq<(Seq<char>, SymbolState)>>, ps: Seq<Token>, name: Seq<char>)
    ensures
        params_entered(scopes.push(Seq::empty()), ps).len() == scopes.len() + 1,
        scope_lookup(params_entered(scopes.push(Seq::empty()), ps).last(), name) is Some <==> exists|j: int|
            0 <= j < ps.len() && #[trigger] ps[j].lexeme@ == name,
    decreases ps.len(),
{
    if ps.len() > 0 {
        let prev = ps.drop_last();
        lemma_params_lookup(scopes, prev, name);
        let base = params_entered(scopes.push(Seq::empty()), prev);
        let once = enter(base, ps.last().lexeme@, SymbolState::Pending);
        let twice = enter(once, ps.last().lexeme@, SymbolState::Resolved);
        assert(twice.last().drop_last() =~= once.last());
        assert(once.last().drop_last() =~= base.last());
        assert(twice == params_entered(scopes.push(Seq::empty()), ps));
        if ps.last().lexeme@ != name {
            assert(scope_lookup(twice.last(), name) == scope_lookup(once.last(), name));
            assert(scope_lookup(once.last(), name) == scope_lookup(base.last(), name));
        } else {
            assert(ps[ps.len() - 1].lexeme@ == name);
        }
        if exists|j: int| 0 <= j < ps.len() && #[trigger] ps[j].lexeme@ == name {
            let j = choose|j: int| 0 <= j < ps.len() && #[trigger] ps[j].lexeme@ == name;
            if j < ps.len() - 1 {
                assert(prev[j].lexeme@ == name);
            }
        }
        if exists|j: int| 0 <= j < prev.len() && #[trigger] prev[j].lexeme@ == name {
            let j = choose|j: int| 0 <= j < prev.len() && #[trigger] prev[j].lexeme@ == name;
            assert(ps[j].lexeme@ == name);
        }
    } else {
        assert(scopes.push(Seq::empty()).last() =~= Seq::<(Seq<char>, SymbolState)>::empty());
    }
}

/// The Lox resolver: works out, for each local variable reference, how many scopes
/// out its declaration is, and finds the static errors of a program.
pub struct Resolver {
    /// A stack of scopes used during resolution.
    scopes: Vec<Vec<(String, SymbolState)>>,
    /// Whether the current scope is in the body of a callable.
    current_function_type: FunctionType,
    /// Whether the current scope is in a class definition.
    current_class_type: ClassType,
    /// The resolved references: token identity and distance, in the order found.
    resolutions: Vec<(usize, usize)>,
    /// The errors found, in order.
    reports: Vec<Report>,
}

fn lookup(scope: &Vec<(String, SymbolState)>, name: &String) -> (res: Option<SymbolState>)
    ensures
        res == scope_lookup(scope_view(scope@), name@),
{
    let ghost view = scope_view(scope@);
    let mut i = scope.len();
    assert(view.take(i as int) =~= view);
    while i > 0
        invariant
            i <= scope.len(),
            view == scope_view(scope@),
            scope_lookup(view, name@) == scope_lookup(view.take(i as int), name@),
        decreases i,
    {
        assert(view.take(i as int).drop_last() =~= view.take(i - 1));
        if scope[i - 1].0 == *name {
            return Some(scope[i - 1].1);
        }
        i = i - 1;
    }
    None
}

impl Resolver {
    /// The scopes, innermost last.
    pub closed spec fn scopes(&self) -> Seq<Seq<(Seq<char>, SymbolState)>> {
        self.scopes@.map_values(|v: Vec<(String, SymbolState)>| scope_view(v@))
    }

    pub closed spec fn function_type(&self) -> FunctionType {
        self.current_function_type
    }

    pub closed spec fn class_type(&self) -> ClassType {
        self.current_class_type
    }

    pub closed spec fn resolutions(&self) -> Seq<(usize, usize)> {
        self.resolutions@
    }

    pub closed spec fn reports(&self) -> Seq<Report> {
        self.reports@
    }

    /// Reports are only added, never changed or removed.
    pub open spec fn reports_kept(old: &Resolver, new: &Resolver) -> bool {
        &&& old.reports().len() <= new.reports().len()
        &&& forall|i: int| 0 <= i < old.reports().len() ==> #[trigger] new.reports()[i] == old.reports()[i]
    }

    /// Create a new `Resolver`, outside of any scope, function or class.
    pub fn new() -> (res: Self)
        ensures
            res.scopes().len() == 0,
            res.function_type() == FunctionType::NoFunction,
            res.class_type() == ClassType::NoClass,
            res.resolutions().len() == 0,
            res.reports().len() == 0,
    {
        Resolver {
            scopes: Vec::new(),
            current_function_type: FunctionType::NoFunction,
            current_class_type: ClassType::NoClass,
            resolutions: Vec::new(),
            reports: Vec::new(),
        }
    }

    /// The references resolved so far: token identity and distance.
    pub fn resolved(&self) -> (res: &Vec<(usize, usize)>)
        ensures
            res@ == self.resolutions(),
    {
        &self.resolutions
    }

    /// The errors found, in order.
    pub fn into_reports(self) -> (res: Vec<Report>)
        ensures
            res@ == self.reports(),
    {
        self.reports
    }

    fn report(&mut self, token: &Token, message: &str)
        ensures
            final(self).scopes == old(self).scopes,
            final(self).current_function_type == old(self).current_function_type,
            final(self).current_class_type == old(self).current_class_type,
            final(self).resolutions == old(self).resolutions,
            final(self).reports@ == old(self).reports@.push(final(self).reports@.last()),
            reports_at(final(self).reports@.last(), *token, message@),
    {
        let r = compile_time_error(Some(token), message);
        self.reports.push(r);
    }

    fn begin_scope(&mut self)
        ensures
            final(self).scopes() == old(self).scopes().push(Seq::empty()),
            final(self).current_function_type == old(self).current_function_type,
            final(self).current_class_type == old(self).current_class_type,
            final(self).resolutions == old(self).resolutions,
            final(self).reports == old(self).reports,
    {
        self.scopes.push(Vec::new());
        assert(scope_view(self.scopes@.last()@) =~= Seq::<(Seq<char>, SymbolState)>::empty());
        assert(self.scopes() =~= old(self).scopes().push(Seq::empty()));
    }

    fn end_scope(&mut self)
        ensures
            final(self).scopes() == if old(self).scopes().len() > 0 {
                old(self).scopes().drop_last()
            } else {
                old(self).scopes()
            },
            final(self).current_function_type == old(self).current_function_type,
            final(self).current_class_type == old(self).current_class_type,
            final(self).resolutions == old(self).resolutions,
            final(self).reports == old(self).reports,
    {
        self.scopes.pop();
        assert(old(self).scopes().len() > 0 ==> self.scopes() =~= old(self).scopes().drop_last());
    }

    /// Add an entry for `name` to the innermost scope, if there is one.
    fn enter(&mut self, name: String, state: SymbolState)
        ensures
            final(self).scopes() == enter(old(self).scopes(), name@, state),
            final(self).current_function_type == old(self).current_function_type,
            final(self).current_class_type == old(self).current_class_type,
            final(self).resolutions == old(self).resolutions,
            final(self).reports == old(self).reports,
    {
        let n = self.scopes.len();
        if n > 0 {
            let ghost key = name@;
            let mut scope = self.scopes.pop().unwrap();
            let ghost last = scope@;
            scope.push((name, state));
            self.scopes.push(scope);
            proof {
                assert(scope_view(scope@) =~= scope_view(last).push((key, state)));
                assert(self.scopes() =~= enter(old(self).scopes(), key, state));
            }
        }
    }

    /// Declare `name` in the innermost scope; it is an error to declare a name twice in one scope.
    fn declare(&mut self, name: &Token) -> (res: Result<(), ()>)
        ensures
            Self::reports_kept(old(self), final(self)),
            res is Err <==> final(self).reports().len() > old(self).reports().len(),
            res is Err <==> (old(self).scopes().len() > 0 && scope_lookup(
                old(self).scopes().last(),
                name.lexeme@,
            ) is Some),
            res is Err ==> final(self).scopes() == old(self).scopes() && final(self).reports@.len()
                == old(self).reports@.len() + 1 && reports_at(
                final(self).reports@.last(),
                *name,
                "Already a variable with this name in this scope."@,
            ),
            res is Ok ==> final(self).reports == old(self).reports,
            res is Ok ==> final(self).scopes() == enter(old(self).scopes(), name.lexeme@, SymbolState::Pending),
            final(self).current_function_type == old(self).current_function_type,
            final(self).current_class_type == old(self).current_class_type,
            final(self).resolutions == old(self).resolutions,
    {
        let n = self.scopes.len();
        if n > 0 {
            if lookup(&self.scopes[n - 1], &name.lexeme).is_some() {
                let msg = "Already a variable with this name in this scope.";
                self.report(name, msg);
                return Err(());
            }
            self.enter(name.lexeme.clone(), SymbolState::Pending);
        }
        Ok(())
    }

    /// Mark `name` as defined in the innermost scope, if there is one.
    fn define(&mut self, name: String)
        ensures
            final(self).scopes() == enter(old(self).scopes(), name@, SymbolState::Resolved),
            final(self).current_function_type == old(self).current_function_type,
            final(self).current_class_type == old(self).current_class_type,
            final(self).resolutions == old(self).resolutions,
            final(self).reports == old(self).reports,
    {
        self.enter(name, SymbolState::Resolved);
    }

    /// Record the distance from the innermost scope to the innermost scope that declares `name`;
    /// record nothing when no scope does (the name is then global).
    fn resolve_local(&mut self, name: &Token)
        ensures
            final(self).scopes == old(self).scopes,
            final(self).current_function_type == old(self).current_function_type,
            final(self).current_class_type == old(self).current_class_type,
            final(self).reports == old(self).reports,
            final(self).resolutions@ == old(self).resolutions@ + local_ref(old(self).scopes(), *name),
    {
        let n = self.scopes.len();
        let mut i = n;
        while i > 0
            invariant
                i <= n == self.scopes@.len(),
                *self == *old(self),
                innermost(self.scopes(), n as int, name.lexeme@) == innermost(
                    self.scopes(),
                    i as int,
                    name.lexeme@,
                ),
            decreases i,
        {
            if lookup(&self.scopes[i - 1], &name.lexeme).is_some() {
                self.resolutions.push((name.id, n - i));
                assert(self.resolutions@ =~= old(self).resolutions@ + local_ref(old(self).scopes(), *name));
                return;
            }
            i = i - 1;
        }
        assert(self.resolutions@ =~= old(self).resolutions@ + local_ref(old(self).scopes(), *name));
    }

    /// The common guarantee of resolution steps: reports are only added, and a step
    /// fails exactly when it adds a report.
    pub open spec fn reported(old: &Resolver, new: &Resolver, failed: bool) -> bool {
        &&& Self::reports_kept(old, new)
        &&& failed <==> new.reports().len() > old.reports().len()
    }

    /// What a successful statement leaves as it found: the depth of the scope stack,
    /// and the kind of function and class it is in.
    pub open spec fn restored(old: &Resolver, new: &Resolver) -> bool {
        &&& new.scopes().len() == old.scopes().len()
        &&& new.function_type() == old.function_type()
        &&& new.class_type() == old.class_type()
    }

    /// Whether a resolution step without error left the scopes and resolutions as
    /// `res` (the scopes, and the resolutions added) says.
    pub open spec fn resolved_as(
        old: &Resolver,
        new: &Resolver,
        res: (Seq<Seq<(Seq<char>, SymbolState)>>, Seq<(usize, usize)>),
    ) -> bool {
        &&& new.scopes() == res.0
        &&& new.resolutions() == old.resolutions() + res.1
    }

    /// Resolve symbols in a sequence of statements.
    /// All statements are resolved; the result is an error if any of them failed.
    pub fn resolve(&mut self, stmts: &[Stmt]) -> (res: Result<(), ()>)
        requires
            stmts_ok(stmts@),
        ensures
            Self::reported(old(self), final(self), res is Err),
            res is Ok <==> stmts_clean(old(self).scopes(), old(self).function_type(), old(self).class_type(), stmts@),
            res is Ok ==> Self::restored(old(self), final(self)),
            res is Ok ==> Self::resolved_as(old(self), final(self), stmts_res(old(self).scopes(), stmts@)),
        decreases stmts@, 1nat,
    {
        let mut had_error = false;
        let mut i: usize = 0;
        assert(stmts@.take(0) =~= Seq::<Stmt>::empty());
        assert(old(self).resolutions() + Seq::<(usize, usize)>::empty() =~= old(self).resolutions());
        while i < stmts.len()
            invariant
                i <= stmts.len(),
                stmts_ok(stmts@),
                Self::reports_kept(old(self), self),
                had_error <==> self.reports().len() > old(self).reports().len(),
                !had_error <==> stmts_clean(
                    old(self).scopes(),
                    old(self).function_type(),
                    old(self).class_type(),
                    stmts@.take(i as int),
                ),
                !had_error ==> Self::restored(old(self), self),
                !had_error ==> Self::resolved_as(
                    old(self),
                    self,
                    stmts_res(old(self).scopes(), stmts@.take(i as int)),
                ),
            decreases stmts.len() - i,
        {
            let ghost before = *self;
            if self.resolve_stmt(&stmts[i]).is_err() {
                had_error = true;
            }
            proof {
                let done = stmts@.take(i + 1);
                assert(done.drop_last() =~= stmts@.take(i as int));
                assert(done.last() == stmts@[i as int]);
                if !had_error {
                    let first = stmts_res(old(self).scopes(), stmts@.take(i as int));
                    let last = stmt_res(first.0, stmts@[i as int]);
                    assert(self.resolutions() =~= old(self).resolutions() + (first.1 + last.1));
                }
            }
            i = i + 1;
        }
        assert(stmts@.take(stmts@.len() as int) =~= stmts@);
        if had_error {
            Err(())
        } else {
            Ok(())
        }
    }

    fn resolve_stmt(&mut self, stmt: &Stmt) -> (res: Result<(), ()>)
        requires
            stmt_ok(*stmt),
        ensures
            Self::reported(old(self), final(self), res is Err),
            res is Ok ==> Self::restored(old(self), final(self)),
            res is Ok <==> stmt_clean(old(self).scopes(), old(self).function_type(), old(self).class_type(), *stmt),
            res is Ok ==> Self::resolved_as(old(self), final(self), stmt_res(old(self).scopes(), *stmt)),
            stmt matches Stmt::Var(v) ==> (redeclared(old(self).scopes(), v.name.lexeme@) ==> res is Err
                && final(self).scopes() == old(self).scopes() && final(self).resolutions() == old(
                self,
            ).resolutions() && reports_at(
                final(self).reports().last(),
                v.name,
                "Already a variable with this name in this scope."@,
            )),
            stmt matches Stmt::Return(r) ==> (old(self).function_type() == FunctionType::NoFunction
                ==> res is Err && final(self).resolutions() == old(self).resolutions() && reports_at(
                final(self).reports().last(),
                r.keyword,
                "Can't return from top-level code."@,
            )),
            stmt matches Stmt::Return(r) ==> (old(self).function_type() == FunctionType::Initializer
                && r.value is Some ==> res is Err && final(self).resolutions() == old(self).resolutions()
                && reports_at(
                final(self).reports().last(),
                r.keyword,
                "Can't return a value from an initializer."@,
            )),
            stmt matches Stmt::Class(c) ==> (c.superclass matches Some(Expr::Variable(t)) ==> (t.lexeme@
                == c.name.lexeme@ && !(old(self).scopes().len() > 0 && scope_lookup(
                old(self).scopes().last(),
                c.name.lexeme@,
            ) is Some) ==> res is Err && reports_at(
                final(self).reports().last(),
                t,
                "A class can't inherit from itself."@,
            ))),
        decreases stmt, 0nat,
    {
        match stmt {
            Stmt::Block(stmts) => {
                self.begin_scope();
                self.resolve(stmts.as_slice())?;
                self.end_scope();
            },
            Stmt::Class(Class { name, methods, superclass }) => {
                let enclosing_class_type = self.current_class_type;
                self.current_class_type = ClassType::Class;
                self.declare(name)?;
                self.define(name.lexeme.clone());
                let ghost declared = self.scopes();
                let ghost base = self.resolutions();
                if let Some(class) = superclass {
                    match class {
                        Expr::Variable(token) => {
                            if token.lexeme == name.lexeme {
                                let msg = "A class can't inherit from itself.";
                                self.report(token, msg);
                                return Err(());
                            }
                        },
                        _ => {
                            proof {
                                assert(false);
                            }
                        },
                    }
                    self.current_class_type = ClassType::SubClass;
                    self.resolve_expr(class)?;
                    self.begin_scope();
                    self.define("super".to_owned());
                }
                let ghost above = self.scopes();
                let ghost refs = match superclass {
                    Some(e) => expr_refs(declared, *e),
                    None => Seq::empty(),
                };
                assert(self.resolutions() == base + refs);
                self.begin_scope();
                self.define("this".to_owned());
                let ghost start = self.scopes();
                let ghost inner_ct = self.current_class_type;
                assert(start == enter(above.push(Seq::empty()), "this"@, SymbolState::Resolved));
                assert(methods@.take(0) =~= Seq::<Stmt>::empty());
                assert(self.resolutions() =~= base + refs + Seq::<(usize, usize)>::empty());
                let mut i: usize = 0;
                while i < methods.len()
                    invariant
                        i <= methods.len(),
                        stmt_ok(*stmt),
                        *stmt == Stmt::Class(Class { name: *name, methods: *methods, superclass: *superclass }),
                        Self::reports_kept(old(self), self),
                        self.reports().len() == old(self).reports().len(),
                        self.scopes().len() == old(self).scopes().len() + if superclass is Some { 2int } else { 1int },
                        self.function_type() == old(self).function_type(),
                        self.class_type() == inner_ct,
                        inner_ct == if superclass is Some {
                            ClassType::SubClass
                        } else {
                            ClassType::Class
                        },
                        methods_clean(start, inner_ct, methods@.take(i as int)),
                        declared == declare_define(old(self).scopes(), name.lexeme@),
                        above == match superclass {
                            Some(e) => enter(declared.push(Seq::empty()), "super"@, SymbolState::Resolved),
                            None => declared,
                        },
                        start == enter(above.push(Seq::empty()), "this"@, SymbolState::Resolved),
                        superclass matches Some(Expr::Variable(t)) ==> t.lexeme@ != name.lexeme@,
                        self.scopes() == methods_res(start, methods@.take(i as int)).0,
                        self.resolutions() == base + refs + methods_res(start, methods@.take(i as int)).1,
                    decreases methods.len() - i,
                {
                    proof {
                        assert(stmt_ok(methods@[i as int]));
                        let done = methods@.take(i + 1);
                        assert(done.drop_last() =~= methods@.take(i as int));
                        if methods_clean(start, inner_ct, methods@) {
                            lemma_methods_clean_prefix(start, inner_ct, methods@, i + 1);
                        }
                    }
                    match &methods[i] {
                        Stmt::Function(Function { name: token, params, body }) => {
                            let function_type = if text_is(&token.lexeme, "init") {
                                FunctionType::Initializer
                            } else {
                                FunctionType::Method
                            };
                            let ghost before = *self;
                            self.resolve_function(token, params.as_slice(), body.as_slice(), function_type)?;
                            proof {
                                let done = methods@.take(i + 1);
                                assert(done.drop_last() =~= methods@.take(i as int));
                                assert(done.last() == methods@[i as int]);
                                let first = methods_res(start, methods@.take(i as int));
                                let last = function_res(first.0, token.lexeme@, params@, (**body)@);
                                assert(self.resolutions() =~= base + refs + (first.1 + last.1));
                            }
                        },
                        _ => {
                            proof {
                                assert(false);
                            }
                        },
                    }
                    i = i + 1;
                }
                assert(methods@.take(methods@.len() as int) =~= methods@);
                self.end_scope();
                if superclass.is_some() {
                    self.end_scope();
                }
                self.current_class_type = enclosing_class_type;
                assert(self.resolutions() =~= old(self).resolutions() + (refs + methods_res(start, methods@).1));
            },
            Stmt::Var(Var { name, initializer }) => {
                self.declare(name)?;
                if let Some(expr) = initializer {
                    self.resolve_expr(expr)?;
                } else {
                    assert(self.resolutions() =~= old(self).resolutions() + Seq::<(usize, usize)>::empty());
                }
                self.define(name.lexeme.clone());
            },
            Stmt::Function(Function { name, params, body }) => {
                self.resolve_function(name, params.as_slice(), body.as_slice(), FunctionType::Function)?;
            },
            Stmt::Expression(expr) => {
                self.resolve_expr(expr)?;
            },
            Stmt::If(If { condition, then_branch, else_branch }) => {
                self.resolve_expr(condition)?;
                self.resolve_stmt(then_branch)?;
                if let Some(stmt) = else_branch {
                    self.resolve_stmt(stmt)?;
                }
                proof {
                    let c = expr_refs(old(self).scopes(), *condition);
                    let t = stmt_res(old(self).scopes(), **then_branch);
                    match else_branch {
                        Some(e) => {
                            let r = stmt_res(t.0, **e);
                            assert(self.resolutions() =~= old(self).resolutions() + (c + t.1 + r.1));
                        },
                        None => {
                            assert(self.resolutions() =~= old(self).resolutions() + (c + t.1));
                        },
                    }
                }
            },
            Stmt::Print(expr) => {
                self.resolve_expr(expr)?;
            },
            Stmt::Return(Return { keyword, value }) => {
                match self.current_function_type {
                    FunctionType::NoFunction => {
                        let msg = "Can't return from top-level code.";
                        self.report(keyword, msg);
                        return Err(());
                    },
                    FunctionType::Initializer => {
                        if value.is_some() {
                            let msg = "Can't return a value from an initializer.";
                            self.report(keyword, msg);
                            return Err(());
                        }
                    },
                    _ => {},
                }
                if let Some(expr) = value {
                    self.resolve_expr(expr)?;
                } else {
                    assert(self.resolutions() =~= old(self).resolutions() + Seq::<(usize, usize)>::empty());
                }
            },
            Stmt::While(While { condition, body }) => {
                self.resolve_expr(condition)?;
                self.resolve_stmt(body)?;
                proof {
                    let c = expr_refs(old(self).scopes(), *condition);
                    let b = stmt_res(old(self).scopes(), **body);
                    assert(self.resolutions() =~= old(self).resolutions() + (c + b.1));
                }
            },
        }
        Ok(())
    }

    fn resolve_function(
        &mut self,
        token: &Token,
        params: &[Token],
        body: &[Stmt],
        function_type: FunctionType,
    ) -> (res: Result<(), ()>)
        requires
            stmts_ok(body@),
        ensures
            Self::reported(old(self), final(self), res is Err),
            res is Ok ==> Self::restored(old(self), final(self)),
            res is Ok <==> function_clean(
                old(self).scopes(),
                old(self).class_type(),
                token.lexeme@,
                params@,
                body@,
                function_type,
            ),
            !params_distinct(params@) ==> res is Err,
            forall|j: int|
                #[trigger] first_repeat(params@, j) && !(old(self).scopes().len() > 0 && scope_lookup(
                    old(self).scopes().last(),
                    token.lexeme@,
                ) is Some) ==> res is Err && reports_at(
                    final(self).reports().last(),
                    params@[j],
                    "Already a variable with this name in this scope."@,
                ),
            res is Ok ==> Self::resolved_as(
                old(self),
                final(self),
                function_res(old(self).scopes(), token.lexeme@, params@, body@),
            ),
        decreases body@, 2nat,
    {
        self.declare(token)?;
        self.define(token.lexeme.clone());
        let enclosing_function_type = self.current_function_type;
        self.current_function_type = function_type;
        let ghost declared = self.scopes();
        self.begin_scope();
        let ghost start = self.scopes();
        assert(params@.take(0) =~= Seq::<Token>::empty());
        let mut i: usize = 0;
        while i < params.len()
            invariant
                i <= params.len(),
                Self::reports_kept(old(self), self),
                self.reports().len() == old(self).reports().len(),
                self.scopes().len() == old(self).scopes().len() + 1,
                self.function_type() == function_type,
                self.class_type() == old(self).class_type(),
                self.resolutions() == old(self).resolutions(),
                self.scopes() == params_entered(start, params@.take(i as int)),
                start == declared.push(Seq::empty()),
                params_distinct(params@.take(i as int)),
            decreases params.len() - i,
        {
            proof {
                lemma_params_lookup(declared, params@.take(i as int), params@[i as int].lexeme@);
                if scope_lookup(self.scopes().last(), params@[i as int].lexeme@) is Some {
                    let j = choose|j: int|
                        0 <= j < i && #[trigger] params@.take(i as int)[j].lexeme@ == params@[i as int].lexeme@;
                    assert(params@[j].lexeme@ == params@[i as int].lexeme@);
                }
                assert forall|a: int, b: int| 0 <= a < b < i + 1 implies #[trigger] params@.take(i + 1)[a].lexeme@
                    != #[trigger] params@.take(i + 1)[b].lexeme@ || scope_lookup(
                    self.scopes().last(),
                    params@[i as int].lexeme@,
                ) is Some by {
                    if b < i {
                        assert(params@.take(i as int)[a] == params@.take(i + 1)[a]);
                        assert(params@.take(i as int)[b] == params@.take(i + 1)[b]);
                    } else if params@.take(i + 1)[a].lexeme@ == params@.take(i + 1)[b].lexeme@ {
                        assert(params@.take(i as int)[a].lexeme@ == params@[i as int].lexeme@);
                    }
                }
            }
            let declared_ok = self.declare(&params[i]);
            if declared_ok.is_err() {
                proof {
                    lemma_params_lookup(declared, params@.take(i as int), params@[i as int].lexeme@);
                    assert forall|j: int| #[trigger] first_repeat(params@, j) implies j == i by {
                        if j < i {
                            let k = choose|k: int| 0 <= k < j && #[trigger] params@[k].lexeme@ == params@[j].lexeme@;
                            assert(params@.take(i as int)[k] == params@[k]);
                            assert(params@.take(i as int)[j] == params@[j]);
                        } else if j > i {
                            let k = choose|k: int|
                                0 <= k < i && #[trigger] params@.take(i as int)[k].lexeme@ == params@[i as int].lexeme@;
                            assert(params@.take(j)[k] == params@[k]);
                            assert(params@.take(j)[i as int] == params@[i as int]);
                        }
                    }
                }
                return Err(());
            }
            self.define(params[i].lexeme.clone());
            proof {
                let done = params@.take(i + 1);
                assert(done.drop_last() =~= params@.take(i as int));
                assert(done.last() == params@[i as int]);
            }
            i = i + 1;
        }
        assert(params@.take(params@.len() as int) =~= params@);
        assert forall|j: int| #[trigger] first_repeat(params@, j) implies false by {
            let k = choose|k: int| 0 <= k < j && #[trigger] params@[k].lexeme@ == params@[j].lexeme@;
        }
        self.resolve(body)?;
        self.end_scope();
        self.current_function_type = enclosing_function_type;
        Ok(())
    }

    fn resolve_expr(&mut self, expr: &Expr) -> (res: Result<(), ()>)
        ensures
            Self::reported(old(self), final(self), res is Err),
            final(self).scopes() == old(self).scopes(),
            final(self).function_type() == old(self).function_type(),
            final(self).class_type() == old(self).class_type(),
            res is Ok <==> expr_clean(old(self).scopes(), old(self).class_type(), *expr),
            res is Ok ==> final(self).resolutions() == old(self).resolutions() + expr_refs(old(self).scopes(), *expr),
            expr matches Expr::This(t) ==> (old(self).class_type() == ClassType::NoClass ==> res is Err
                && final(self).resolutions() == old(self).resolutions() && reports_at(
                final(self).reports().last(),
                *t,
                "Can't use 'this' outside of a class."@,
            )),
            expr matches Expr::Super(s) ==> (old(self).class_type() == ClassType::NoClass ==> res is Err
                && final(self).resolutions() == old(self).resolutions() && reports_at(
                final(self).reports().last(),
                s.keyword,
                "Can't use 'super' outside of a class."@,
            )),
            expr matches Expr::Super(s) ==> (old(self).class_type() == ClassType::Class ==> res is Err
                && final(self).resolutions() == old(self).resolutions() && reports_at(
                final(self).reports().last(),
                s.keyword,
                "Can't use 'super' in a class with no superclass."@,
            )),
            expr matches Expr::Variable(t) ==> (old(self).scopes().len() > 0 && scope_lookup(
                old(self).scopes().last(),
                t.lexeme@,
            ) == Some(SymbolState::Pending) ==> res is Err && final(self).resolutions() == old(
                self,
            ).resolutions() && reports_at(
                final(self).reports().last(),
                *t,
                "Can't read local variable in its own initializer."@,
            )),
        decreases expr,
    {
        let ghost sc = self.scopes();
        match expr {
            Expr::Variable(token) => {
                let n = self.scopes.len();
                if n > 0 {
                    if lookup(&self.scopes[n - 1], &token.lexeme) == Some(SymbolState::Pending) {
                        let msg = "Can't read local variable in its own initializer.";
                        self.report(token, msg);
                        return Err(());
                    }
                }
                self.resolve_local(token);
            },
            Expr::Assign(assign) => {
                self.resolve_expr(&assign.value)?;
                self.resolve_local(&assign.name);
                assert(self.resolutions() =~= old(self).resolutions() + (expr_refs(sc, *assign.value)
                    + local_ref(sc, assign.name)));
            },
            Expr::Binary(binary) => {
                self.resolve_expr(&binary.left)?;
                self.resolve_expr(&binary.right)?;
                assert(self.resolutions() =~= old(self).resolutions() + (expr_refs(sc, *binary.left)
                    + expr_refs(sc, *binary.right)));
            },
            Expr::Call(call) => {
                self.resolve_expr(&call.callee)?;
                let ghost head = self.resolutions();
                assert(call.args@.take(0) =~= Seq::<Expr>::empty());
                assert(head =~= head + exprs_refs(sc, call.args@.take(0)));
                let mut i: usize = 0;
                while i < call.args.len()
                    invariant
                        i <= call.args.len(),
                        *expr == Expr::Call(*call),
                        Self::reports_kept(old(self), self),
                        self.reports().len() == old(self).reports().len(),
                        self.scopes() == old(self).scopes(),
                        sc == old(self).scopes(),
                        self.function_type() == old(self).function_type(),
                        self.class_type() == old(self).class_type(),
                        self.resolutions() == head + exprs_refs(sc, call.args@.take(i as int)),
                        exprs_clean(sc, self.class_type(), call.args@.take(i as int)),
                    decreases call.args.len() - i,
                {
                    proof {
                        let done = call.args@.take(i + 1);
                        assert(done.drop_last() =~= call.args@.take(i as int));
                        if exprs_clean(sc, self.class_type(), call.args@) {
                            lemma_exprs_clean_prefix(sc, self.class_type(), call.args@, i + 1);
                        }
                        assert(decreases_to!(*expr => (*expr)->Call_0));
                        assert(decreases_to!(*call => call.args));
                        assert(decreases_to!(call.args => call.args@));
                        assert(decreases_to!(call.args@ => call.args@[i as int]));
                        assert(decreases_to!(*expr => call.args@[i as int]));
                    }
                    self.resolve_expr(&call.args[i])?;
                    proof {
                        let done = call.args@.take(i + 1);
                        assert(done.drop_last() =~= call.args@.take(i as int));
                        assert(done.last() == call.args@[i as int]);
                        assert(self.resolutions() =~= head + exprs_refs(sc, done));
                    }
                    i = i + 1;
                }
                assert(call.args@.take(call.args@.len() as int) =~= call.args@);
                assert(self.resolutions() =~= old(self).resolutions() + (expr_refs(sc, *call.callee)
                    + exprs_refs(sc, call.args@)));
            },
            Expr::Get(get) => {
                self.resolve_expr(&get.expr)?;
            },
            Expr::Grouping(grouping) => {
                self.resolve_expr(&grouping.expression)?;
            },
            Expr::Literal(_) => {
                assert(self.resolutions() =~= old(self).resolutions() + Seq::<(usize, usize)>::empty());
            },
            Expr::Logical(logical) => {
                self.resolve_expr(&logical.left)?;
                self.resolve_expr(&logical.right)?;
                assert(self.resolutions() =~= old(self).resolutions() + (expr_refs(sc, *logical.left)
                    + expr_refs(sc, *logical.right)));
            },
            Expr::SetProperty(set) => {
                self.resolve_expr(&set.value)?;
                self.resolve_expr(&set.expr)?;
                assert(self.resolutions() =~= old(self).resolutions() + (expr_refs(sc, *set.value)
                    + expr_refs(sc, *set.expr)));
            },
            Expr::Super(supr) => {
                match self.current_class_type {
                    ClassType::NoClass => {
                        let msg = "Can't use 'super' outside of a class.";
                        self.report(&supr.keyword, msg);
                        return Err(());
                    },
                    ClassType::Class => {
                        let msg = "Can't use 'super' in a class with no superclass.";
                        self.report(&supr.keyword, msg);
                        return Err(());
                    },
                    ClassType::SubClass => {
                        self.resolve_local(&supr.keyword);
                    },
                }
            },
            Expr::This(token) => {
                if self.current_class_type == ClassType::NoClass {
                    let msg = "Can't use 'this' outside of a class.";
                    self.report(token, msg);
                    return Err(());
                }
                self.resolve_local(token);
            },
            Expr::Unary(unary) => {
                self.resolve_expr(&unary.right)?;
            },
            Expr::Array(elements) => {
                assert(elements@.take(0) =~= Seq::<Expr>::empty());
                assert(self.resolutions() =~= old(self).resolutions() + exprs_refs(sc, elements@.take(0)));
                let mut i: usize = 0;
                while i < elements.len()
                    invariant
                        i <= elements.len(),
                        *expr == Expr::Array(*elements),
                        Self::reports_kept(old(self), self),
                        self.reports().len() == old(self).reports().len(),
                        self.scopes() == old(self).scopes(),
                        sc == old(self).scopes(),
                        self.function_type() == old(self).function_type(),
                        self.class_type() == old(self).class_type(),
                        self.resolutions() == old(self).resolutions() + exprs_refs(sc, elements@.take(i as int)),
                        exprs_clean(sc, self.class_type(), elements@.take(i as int)),
                    decreases elements.len() - i,
                {
                    proof {
                        let done = elements@.take(i + 1);
                        assert(done.drop_last() =~= elements@.take(i as int));
                        if exprs_clean(sc, self.class_type(), elements@) {
                            lemma_exprs_clean_prefix(sc, self.class_type(), elements@, i + 1);
                        }
                        assert(decreases_to!(*expr => (*expr)->Array_0));
                        assert(decreases_to!(*elements => elements@));
                        assert(decreases_to!(elements@ => elements@[i as int]));
                        assert(decreases_to!(*expr => elements@[i as int]));
                    }
                    self.resolve_expr(&elements[i])?;
                    proof {
                        let done = elements@.take(i + 1);
                        assert(done.drop_last() =~= elements@.take(i as int));
                        assert(done.last() == elements@[i as int]);
                        assert(self.resolutions() =~= old(self).resolutions() + exprs_refs(sc, done));
                    }
                    i = i + 1;
                }
                assert(elements@.take(elements@.len() as int) =~= elements@);
            },
            Expr::Index(index) => {
                self.resolve_expr(&index.object)?;
                self.resolve_expr(&index.index)?;
                assert(self.resolutions() =~= old(self).resolutions() + (expr_refs(sc, *index.object)
                    + expr_refs(sc, *index.index)));
            },
            Expr::IndexSet(index_set) => {
                self.resolve_expr(&index_set.object)?;
                self.resolve_expr(&index_set.index)?;
                self.resolve_expr(&index_set.value)?;
                assert(self.resolutions() =~= old(self).resolutions() + (expr_refs(sc, *index_set.object)
                    + expr_refs(sc, *index_set.index) + expr_refs(sc, *index_set.value)));
            },
        }
        Ok(())
    }
}

} // verus!
