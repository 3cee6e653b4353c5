use std::rc::Rc;

use rlox::expr::{Expr, Get, Super};
use rlox::lexer::Lexer;
use rlox::parser::Parser;
use rlox::resolver::Resolver;
use rlox::stmt::{Class, Function, Stmt};
use rlox::tokens::{Token, TokenType};
use rlox::Report;

fn show(report: &Report) -> String {
    match report {
        Report::AtEnd { line, message } => format!("[line {line}] Error at end: {message}"),
        Report::At { line, lexeme, message } => format!("[line {line}] Error at '{lexeme}': {message}"),
        Report::OnLine { line, message } => format!("[line {line}] Error: {message}"),
        Report::Plain { message } => message.clone(),
    }
}

fn program(source: &str) -> Vec<Stmt> {
    let mut parser = Parser::new(Lexer::new(source, 1));
    parser.parse().expect("the program parses")
}

/// Resolve `stmts`: whether it succeeded, the resolved references and the reports.
fn resolve(stmts: &[Stmt]) -> (bool, Vec<(usize, usize)>, Vec<String>) {
    let mut resolver = Resolver::new();
    let ok = resolver.resolve(stmts).is_ok();
    let resolved = resolver.resolved().clone();
    let reports = resolver.into_reports().iter().map(show).collect();
    (ok, resolved, reports)
}

fn token(token_type: TokenType, lexeme: &str, line: usize, id: usize) -> Token {
    Token::new(token_type, lexeme.to_string(), None, line, id)
}

#[test]
fn a_local_is_resolved_to_the_scope_that_declares_it() {
    // `{` 1, `var` 2, `a` 3, `=` 4, `1` 5, `;` 6, `{` 7, `print` 8, `a` 9, ...
    let (ok, resolved, reports) = resolve(&program("{ var a = 1; { print a; } }"));
    assert!(ok);
    assert!(reports.is_empty());
    assert_eq!(resolved, vec![(9, 1)]);
}

#[test]
fn globals_are_left_unresolved() {
    let (ok, resolved, _) = resolve(&program("var g = 1; { print g; }"));
    assert!(ok);
    assert!(resolved.is_empty());
}

#[test]
fn parameters_live_in_the_scope_of_the_body() {
    // `fun` 1, `f` 2, `(` 3, `a` 4, `)` 5, `{` 6, `a` 7, `=` 8, `2` 9, `;` 10, `return` 11, `a` 12
    let (ok, resolved, _) = resolve(&program("fun f(a) { a = 2; return a; }"));
    assert!(ok);
    assert_eq!(resolved, vec![(7, 0), (12, 0)]);
}

#[test]
fn reading_a_local_in_its_own_initializer_is_an_error() {
    let (ok, _, reports) = resolve(&program("{ var a = a; }"));
    assert!(!ok);
    assert_eq!(
        reports,
        vec!["[line 1] Error at 'a': Can't read local variable in its own initializer."]
    );
}

#[test]
fn a_global_may_read_itself_in_its_initializer() {
    let (ok, _, reports) = resolve(&program("var a = a;"));
    assert!(ok);
    assert!(reports.is_empty());
}

#[test]
fn declaring_a_local_twice_is_an_error() {
    let (ok, _, reports) = resolve(&program("{ var a = 1;\n var a = 2; }"));
    assert!(!ok);
    assert_eq!(
        reports,
        vec!["[line 2] Error at 'a': Already a variable with this name in this scope."]
    );
}

#[test]
fn returning_from_top_level_code_is_an_error_each_time() {
    let (ok, _, reports) = resolve(&program("return 1;\nreturn;"));
    assert!(!ok);
    assert_eq!(
        reports,
        vec![
            "[line 1] Error at 'return': Can't return from top-level code.",
            "[line 2] Error at 'return': Can't return from top-level code.",
        ]
    );
}

#[test]
fn an_initializer_cannot_return_a_value() {
    let (ok, _, reports) = resolve(&program("class A { init() { return 1; } }"));
    assert!(!ok);
    assert_eq!(
        reports,
        vec!["[line 1] Error at 'return': Can't return a value from an initializer."]
    );
    let (ok, _, _) = resolve(&program("class A { init() { return; } }"));
    assert!(ok);
}

#[test]
fn this_outside_a_class_is_an_error() {
    let stmts = vec![Stmt::Expression(Expr::This(token(TokenType::This, "this", 3, 42)))];
    let (ok, _, reports) = resolve(&stmts);
    assert!(!ok);
    assert_eq!(reports, vec!["[line 3] Error at 'this': Can't use 'this' outside of a class."]);
}

#[test]
fn this_in_a_method_is_one_scope_out() {
    let method = Stmt::Function(Function {
        name: token(TokenType::Identifier, "m", 1, 2),
        params: vec![],
        body: Rc::new(vec![Stmt::Expression(Expr::This(token(TokenType::This, "this", 1, 7)))]),
    });
    let class = Stmt::Class(Class {
        name: token(TokenType::Identifier, "C", 1, 1),
        methods: vec![method],
        superclass: None,
    });
    let (ok, resolved, _) = resolve(&[class]);
    assert!(ok);
    assert_eq!(resolved, vec![(7, 1)]);
}

fn super_call(id: usize) -> Stmt {
    Stmt::Expression(Expr::Get(Get {
        expr: Box::new(Expr::Super(Super {
            keyword: token(TokenType::Super, "super", 2, id),
            method: token(TokenType::Identifier, "m", 2, id + 1),
        })),
        name: token(TokenType::Identifier, "x", 2, id + 2),
    }))
}

#[test]
fn super_outside_a_class_is_an_error() {
    let (ok, _, reports) = resolve(&[super_call(10)]);
    assert!(!ok);
    assert_eq!(reports, vec!["[line 2] Error at 'super': Can't use 'super' outside of a class."]);
}

#[test]
fn super_in_a_class_without_a_superclass_is_an_error() {
    let method = Stmt::Function(Function {
        name: token(TokenType::Identifier, "m", 1, 2),
        params: vec![],
        body: Rc::new(vec![super_call(10)]),
    });
    let class = Stmt::Class(Class {
        name: token(TokenType::Identifier, "A", 1, 1),
        methods: vec![method],
        superclass: None,
    });
    let (ok, _, reports) = resolve(&[class]);
    assert!(!ok);
    assert_eq!(
        reports,
        vec!["[line 2] Error at 'super': Can't use 'super' in a class with no superclass."]
    );
}

#[test]
fn super_in_a_subclass_is_two_scopes_out() {
    let method = Stmt::Function(Function {
        name: token(TokenType::Identifier, "m", 1, 4),
        params: vec![],
        body: Rc::new(vec![super_call(10)]),
    });
    let class = Stmt::Class(Class {
        name: token(TokenType::Identifier, "B", 1, 1),
        methods: vec![method],
        superclass: Some(Expr::Variable(token(TokenType::Identifier, "A", 1, 3))),
    });
    let (ok, resolved, reports) = resolve(&[class]);
    assert!(ok, "{reports:?}");
    assert_eq!(resolved, vec![(10, 2)]);
}

#[test]
fn a_class_cannot_inherit_from_itself() {
    let class = Stmt::Class(Class {
        name: token(TokenType::Identifier, "A", 4, 1),
        methods: vec![],
        superclass: Some(Expr::Variable(token(TokenType::Identifier, "A", 4, 3))),
    });
    let (ok, _, reports) = resolve(&[class]);
    assert!(!ok);
    assert_eq!(reports, vec!["[line 4] Error at 'A': A class can't inherit from itself."]);
}

#[test]
fn a_duplicate_parameter_is_an_error() {
    let (ok, _, reports) = resolve(&program("fun f(a, b, a) {}"));
    assert!(!ok);
    assert_eq!(reports, vec!["[line 1] Error at 'a': Already a variable with this name in this scope."]);
}

#[test]
fn every_failing_statement_is_reported() {
    let (ok, _, reports) = resolve(&program("{ var a = 1; var a = 2; }\nfun g() { return 1; }\nreturn;"));
    assert!(!ok);
    assert_eq!(
        reports,
        vec![
            "[line 1] Error at 'a': Already a variable with this name in this scope.",
            "[line 3] Error at 'return': Can't return from top-level code.",
        ]
    );
}

#[test]
fn a_program_without_static_errors_resolves() {
    let (ok, _, reports) = resolve(&program(
        "class A { init() { return; } m() { return 1; } }\nfun f(a, b) { { var c = a; return c; } }",
    ));
    assert!(ok);
    assert!(reports.is_empty());
}
