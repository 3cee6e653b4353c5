use std::rc::Rc;

use rlox::expr::Expr;
use rlox::interpreter::{Interpreter, Signal};
use rlox::lexer::Lexer;
use rlox::parser::Parser;
use rlox::runner::{program_next, program_start, ProgramStep, RunAction, RunEvent, StmtRunner};
use rlox::stmt::{Class, Stmt};
use rlox::tokens::{Literal, Token, TokenType};
use rlox::value::Value;
use rlox::RuntimeError;

/// Evaluates the few kinds of expressions these tests use.
fn eval(it: &mut Interpreter, e: &Expr) -> Result<Value, RuntimeError> {
    match e {
        Expr::Literal(Literal::Bool(b)) => Ok(Value::Bool(*b)),
        Expr::Literal(Literal::String(s)) => Ok(Value::String(s.clone())),
        Expr::Literal(Literal::Nil) => Ok(Value::Nil),
        Expr::Variable(t) => it.lookup_var(t),
        Expr::Assign(a) => {
            let v = eval(it, &a.value)?;
            it.assign_var(&a.name, v)
        }
        other => panic!("not used here: {other:?}"),
    }
}

/// Drives a runner to its end: the outcome, what was printed, and the errors reported.
fn drive(it: &mut Interpreter, mut runner: StmtRunner) -> (Result<Value, Signal>, Vec<String>, Vec<String>) {
    let mut printed = Vec::new();
    let mut reported = Vec::new();
    let mut event = RunEvent::Resume;
    for _ in 0..10_000 {
        assert!(runner.accepts(&event));
        match runner.step(it, event) {
            RunAction::Continue => event = RunEvent::Resume,
            RunAction::Evaluate(e) => event = RunEvent::Evaluated(eval(it, e)),
            RunAction::Print(v) => {
                printed.push(it.display_text(&v).unwrap());
                event = RunEvent::Printed;
            }
            RunAction::ReportError(e) => {
                reported.push(e.message);
                event = RunEvent::Resume;
            }
            RunAction::Done(outcome) => return (outcome, printed, reported),
        }
    }
    panic!("the runner did not finish");
}

/// Runs a program statement by statement, stopping at the first that fails.
fn run(source: &str) -> (Interpreter, Result<Value, Signal>, Vec<String>) {
    let mut parser = Parser::new(Lexer::new(source, 1));
    let stmts = parser.parse().expect("the program parses");
    let mut it = Interpreter::new();
    let mut printed = Vec::new();
    for stmt in &stmts {
        let (outcome, p, _) = drive(&mut it, StmtRunner::statement(stmt));
        printed.extend(p);
        if outcome.is_err() {
            return (it, outcome, printed);
        }
    }
    (it, Ok(Value::Nil), printed)
}

#[test]
fn variables_and_printing() {
    let (it, outcome, printed) = run("var a = \"hi\"; print a; var b; print b;");
    assert!(outcome.is_ok());
    assert_eq!(printed, vec!["hi", "nil"]);
    assert!(!it.had_runtime_error());
}

#[test]
fn if_runs_the_branch_its_condition_picks() {
    let (_, _, printed) = run("if (false) print \"a\"; else print \"b\"; if (nil) print \"c\"; if (\"\") print \"d\";");
    assert_eq!(printed, vec!["b", "d"]);
}

#[test]
fn while_runs_its_body_while_its_condition_holds() {
    let (_, outcome, printed) = run("var go = true; while (go) { print \"x\"; go = false; } print go;");
    assert!(outcome.is_ok());
    assert_eq!(printed, vec!["x", "false"]);
}

#[test]
fn a_block_restores_the_environment_it_started_in() {
    let (it, outcome, printed) = run("var a = \"outer\"; { var a = \"inner\"; print a; } print a;");
    assert!(outcome.is_ok());
    // Without resolution, references are global; the block's own `a` is gone with it.
    assert_eq!(printed, vec!["outer", "outer"]);
    assert_eq!(it.current_environment(), 0);
}

#[test]
fn a_block_goes_on_past_a_failed_statement() {
    let mut parser = Parser::new(Lexer::new("{ print missing; print \"after\"; }", 1));
    let stmts = parser.parse().unwrap();
    let mut it = Interpreter::new();
    let (outcome, printed, _) = drive(&mut it, StmtRunner::statement(&stmts[0]));
    assert_eq!(printed, vec!["after"]);
    assert!(matches!(outcome, Err(Signal::RuntimeError(e)) if e.message.is_empty()));
    assert_eq!(it.current_environment(), 0);
}

#[test]
fn a_statement_outside_a_block_stops_at_its_error() {
    let (_, outcome, printed) = run("print missing; print \"never\";");
    assert!(matches!(outcome, Err(Signal::RuntimeError(e)) if e.message == "Undefined variable 'missing'."));
    assert!(printed.is_empty());
}

#[test]
fn return_leaves_with_its_value() {
    let (_, outcome, _) = run("return \"r\";");
    assert!(matches!(outcome, Err(Signal::Return(Value::String(s))) if s == "r"));
    let (_, outcome, printed) = run("{ print \"in\"; return; print \"out\"; }");
    assert!(matches!(outcome, Err(Signal::Return(Value::Nil))));
    assert_eq!(printed, vec!["in"]);
}

#[test]
fn declarations_declare() {
    let (it, outcome, _) = run("fun f() {} class C {}");
    assert!(outcome.is_ok());
    let f = Token::new(TokenType::Identifier, "f".to_string(), None, 1, 900);
    let c = Token::new(TokenType::Identifier, "C".to_string(), None, 1, 901);
    assert!(matches!(it.lookup_var(&f), Ok(Value::Callable(0))));
    assert!(matches!(it.lookup_var(&c), Ok(Value::Class(0))));
}

#[test]
fn a_superclass_that_is_not_a_class_is_reported() {
    let mut it = Interpreter::new();
    it.define("B".to_string(), Some(Value::Nil));
    let class = Stmt::Class(Class {
        name: Token::new(TokenType::Identifier, "A".to_string(), None, 3, 1),
        methods: vec![],
        superclass: Some(Expr::Variable(Token::new(TokenType::Identifier, "B".to_string(), None, 3, 2))),
    });
    let (outcome, _, reported) = drive(&mut it, StmtRunner::statement(&class));
    assert_eq!(reported, vec!["Superclass must be a class."]);
    assert!(matches!(outcome, Err(Signal::RuntimeError(e)) if e.message == "Superclass must be a class."));
    assert!(it.had_runtime_error());
}

#[test]
fn a_function_body_runs_in_its_own_environment() {
    let mut parser = Parser::new(Lexer::new("fun f(x) { print x; return x; }", 1));
    let stmts = parser.parse().unwrap();
    let mut it = Interpreter::new();
    let (outcome, _, _) = drive(&mut it, StmtRunner::statement(&stmts[0]));
    assert!(outcome.is_ok());
    let paren = Token::new(TokenType::RightParen, ")".to_string(), None, 1, 99);
    let env = it.begin_call(0, &vec![Value::String("arg".to_string())], &paren).unwrap();
    // `x` is a local of the body: in `print x` it has identity 8, in `return x` 11.
    it.resolve(8, 0);
    it.resolve(11, 0);
    let body: Rc<Vec<Stmt>> = it.function_body(0);
    let runner = StmtRunner::body(&body, env, &mut it);
    assert_eq!(it.current_environment(), env);
    let (outcome, printed, _) = drive(&mut it, runner);
    assert_eq!(printed, vec!["arg"]);
    assert!(matches!(outcome, Err(Signal::Return(Value::String(s))) if s == "arg"));
    assert_eq!(it.current_environment(), 0);
}

fn parse_program(source: &str) -> Vec<Stmt> {
    Parser::new(Lexer::new(source, 1)).parse().expect("the program parses")
}

/// Runs a whole program the way the interpreter does: the outcome and what was printed.
fn run_program(it: &mut Interpreter, stmts: &[Stmt]) -> (Result<Value, Signal>, Vec<String>) {
    let mut printed = Vec::new();
    let mut step = match program_start(it, stmts) {
        Ok(step) => step,
        Err(_) => return (Err(Signal::ResolveError), printed),
    };
    loop {
        match step {
            ProgramStep::Run(i) => {
                let (outcome, out, _) = drive(it, StmtRunner::statement(&stmts[i]));
                printed.extend(out);
                step = program_next(it, stmts.len(), i, outcome);
            }
            ProgramStep::Finish(outcome) => return (outcome, printed),
        }
    }
}

#[test]
fn a_program_runs_its_statements_in_order() {
    let mut it = Interpreter::new();
    let stmts = parse_program("var a = \"one\"; print a; a = \"two\"; print a;");
    let (outcome, printed) = run_program(&mut it, &stmts);
    assert!(matches!(outcome, Ok(Value::Nil)));
    assert_eq!(printed, vec!["one", "two"]);
}

#[test]
fn a_program_stops_at_its_first_failing_statement() {
    let mut it = Interpreter::new();
    let stmts = parse_program("print \"a\"; print b; print \"c\";");
    let (outcome, printed) = run_program(&mut it, &stmts);
    assert!(matches!(outcome, Err(Signal::RuntimeError(_))));
    assert_eq!(printed, vec!["a"]);
}

#[test]
fn a_program_with_a_static_error_does_not_run() {
    let mut it = Interpreter::new();
    let stmts = parse_program("print \"a\"; return;");
    assert!(matches!(program_start(&mut it, &stmts), Err(reports) if reports.len() == 1));
}

#[test]
fn an_empty_program_ends_at_once() {
    let mut it = Interpreter::new();
    assert!(matches!(program_start(&mut it, &[]), Ok(ProgramStep::Finish(Ok(Value::Nil)))));
    assert!(matches!(program_next(&it, 2, 0, Ok(Value::Nil)), ProgramStep::Run(1)));
    assert!(matches!(program_next(&it, 2, 1, Ok(Value::Nil)), ProgramStep::Finish(Ok(Value::Nil))));
    it.record_runtime_error();
    assert!(matches!(program_next(&it, 2, 1, Ok(Value::Nil)), ProgramStep::Finish(Err(Signal::RuntimeError(_)))));
    assert!(matches!(program_next(&it, 2, 0, Err(Signal::ResolveError)), ProgramStep::Finish(Err(Signal::ResolveError))));
}
