use rlox::expr::Expr;
use rlox::lexer::Lexer;
use rlox::parser::Parser;
use rlox::stmt::Stmt;
use rlox::tokens::{Literal, TokenType};
use rlox::Report;

/// A report as the user sees it.
fn show(report: &Report) -> String {
    match report {
        Report::AtEnd { line, message } => format!("[line {line}] Error at end: {message}"),
        Report::At { line, lexeme, message } => format!("[line {line}] Error at '{lexeme}': {message}"),
        Report::OnLine { line, message } => format!("[line {line}] Error: {message}"),
        Report::Plain { message } => message.clone(),
    }
}

fn parse(source: &str) -> (Result<Vec<Stmt>, ()>, Vec<String>) {
    let mut parser = Parser::new(Lexer::new(source, 1));
    let result = parser.parse();
    let reports = parser.reports_found().iter().map(show).collect();
    (result, reports)
}

fn parse_ok(source: &str) -> Vec<Stmt> {
    let (result, reports) = parse(source);
    assert!(reports.is_empty(), "unexpected reports: {reports:?}");
    result.expect("the program parses")
}

fn errors(source: &str) -> Vec<String> {
    let (result, reports) = parse(source);
    assert!(result.is_err());
    reports
}

fn number(e: &Expr) -> String {
    match e {
        Expr::Literal(Literal::Number(lexeme)) => lexeme.clone(),
        other => panic!("not a number literal: {other:?}"),
    }
}

#[test]
fn multiplication_binds_tighter_than_addition() {
    let stmts = parse_ok("print 1 + 2 * 3;");
    assert_eq!(stmts.len(), 1);
    let Stmt::Print(Expr::Binary(sum)) = &stmts[0] else { panic!("{:?}", stmts[0]) };
    assert_eq!(sum.operator.token_type, TokenType::Plus);
    assert_eq!(number(&sum.left), "1");
    let Expr::Binary(product) = &*sum.right else { panic!("{:?}", sum.right) };
    assert_eq!(product.operator.token_type, TokenType::Star);
    assert_eq!(number(&product.left), "2");
    assert_eq!(number(&product.right), "3");
}

#[test]
fn binary_operators_associate_to_the_left() {
    let stmts = parse_ok("1 - 2 - 3;");
    let Stmt::Expression(Expr::Binary(outer)) = &stmts[0] else { panic!("{:?}", stmts[0]) };
    assert_eq!(number(&outer.right), "3");
    let Expr::Binary(inner) = &*outer.left else { panic!("{:?}", outer.left) };
    assert_eq!(number(&inner.left), "1");
    assert_eq!(number(&inner.right), "2");
}

#[test]
fn assignment_associates_to_the_right() {
    let stmts = parse_ok("a = b = 1;");
    let Stmt::Expression(Expr::Assign(outer)) = &stmts[0] else { panic!("{:?}", stmts[0]) };
    assert_eq!(outer.name.lexeme, "a");
    let Expr::Assign(inner) = &*outer.value else { panic!("{:?}", outer.value) };
    assert_eq!(inner.name.lexeme, "b");
    assert_eq!(number(&inner.value), "1");
}

#[test]
fn property_assignment_becomes_a_set_expression() {
    let stmts = parse_ok("a.b = true;");
    let Stmt::Expression(Expr::SetProperty(set)) = &stmts[0] else { panic!("{:?}", stmts[0]) };
    assert_eq!(set.name.lexeme, "b");
    assert!(matches!(&*set.expr, Expr::Variable(t) if t.lexeme == "a"));
    assert!(matches!(&*set.value, Expr::Literal(Literal::Bool(true))));
}

#[test]
fn calls_and_property_access_chain() {
    let stmts = parse_ok("f(1, 2).g;");
    let Stmt::Expression(Expr::Get(get)) = &stmts[0] else { panic!("{:?}", stmts[0]) };
    assert_eq!(get.name.lexeme, "g");
    let Expr::Call(call) = &*get.expr else { panic!("{:?}", get.expr) };
    assert_eq!(call.paren.token_type, TokenType::RightParen);
    assert_eq!(call.args.len(), 2);
    assert!(matches!(&*call.callee, Expr::Variable(t) if t.lexeme == "f"));
}

#[test]
fn logical_operators_and_grouping() {
    let stmts = parse_ok("print !(nil or false) and x;");
    let Stmt::Print(Expr::Logical(and)) = &stmts[0] else { panic!("{:?}", stmts[0]) };
    assert_eq!(and.operator.token_type, TokenType::And);
    let Expr::Unary(not) = &*and.left else { panic!("{:?}", and.left) };
    assert_eq!(not.operator.token_type, TokenType::Bang);
    let Expr::Grouping(group) = &*not.right else { panic!("{:?}", not.right) };
    let Expr::Logical(or) = &*group.expression else { panic!("{:?}", group.expression) };
    assert_eq!(or.operator.token_type, TokenType::Or);
    assert!(matches!(&*or.left, Expr::Literal(Literal::Nil)));
}

#[test]
fn declarations_and_statements() {
    let stmts = parse_ok(
        "var a = \"hi\"; var b; fun f(x, y) { return x; } class C { m() { print 1; } } \
         if (a) print a; else { b = 2; } while (false) print 3;",
    );
    assert_eq!(stmts.len(), 6);
    let Stmt::Var(a) = &stmts[0] else { panic!("{:?}", stmts[0]) };
    assert_eq!(a.name.lexeme, "a");
    assert!(matches!(&a.initializer, Some(Expr::Literal(Literal::String(s))) if s == "hi"));
    let Stmt::Var(b) = &stmts[1] else { panic!("{:?}", stmts[1]) };
    assert!(b.initializer.is_none());
    let Stmt::Function(f) = &stmts[2] else { panic!("{:?}", stmts[2]) };
    assert_eq!(f.name.lexeme, "f");
    let params: Vec<&str> = f.params.iter().map(|p| p.lexeme.as_str()).collect();
    assert_eq!(params, vec!["x", "y"]);
    assert_eq!(f.body.len(), 1);
    assert!(matches!(&f.body[0], Stmt::Return(r) if r.keyword.lexeme == "return" && r.value.is_some()));
    let Stmt::Class(c) = &stmts[3] else { panic!("{:?}", stmts[3]) };
    assert_eq!(c.name.lexeme, "C");
    assert!(c.superclass.is_none());
    assert_eq!(c.methods.len(), 1);
    assert!(matches!(&c.methods[0], Stmt::Function(m) if m.name.lexeme == "m"));
    let Stmt::If(branch) = &stmts[4] else { panic!("{:?}", stmts[4]) };
    assert!(matches!(&*branch.then_branch, Stmt::Print(_)));
    assert!(matches!(branch.else_branch.as_deref(), Some(Stmt::Block(v)) if v.len() == 1));
    let Stmt::While(w) = &stmts[5] else { panic!("{:?}", stmts[5]) };
    assert!(matches!(&w.condition, Expr::Literal(Literal::Bool(false))));
}

#[test]
fn for_loops_become_while_loops() {
    let stmts = parse_ok("for (var i = 0; i < 3; i = i + 1) print i;");
    assert_eq!(stmts.len(), 1);
    let Stmt::Block(outer) = &stmts[0] else { panic!("{:?}", stmts[0]) };
    assert_eq!(outer.len(), 2);
    assert!(matches!(&outer[0], Stmt::Var(v) if v.name.lexeme == "i"));
    let Stmt::While(w) = &outer[1] else { panic!("{:?}", outer[1]) };
    assert!(matches!(&w.condition, Expr::Binary(b) if b.operator.token_type == TokenType::Less));
    let Stmt::Block(body) = &*w.body else { panic!("{:?}", w.body) };
    assert_eq!(body.len(), 2);
    assert!(matches!(&body[0], Stmt::Print(_)));
    assert!(matches!(&body[1], Stmt::Expression(Expr::Assign(a)) if a.name.lexeme == "i"));
}

#[test]
fn a_for_loop_without_clauses_loops_on_true() {
    let stmts = parse_ok("for (;;) print 1;");
    let Stmt::While(w) = &stmts[0] else { panic!("{:?}", stmts[0]) };
    assert!(matches!(&w.condition, Expr::Literal(Literal::Bool(true))));
    assert!(matches!(&*w.body, Stmt::Print(_)));
}

#[test]
fn a_missing_semicolon_is_reported_at_the_last_token() {
    assert_eq!(
        errors("var x = 1"),
        vec!["[line 1] Error at '1': Expect ';' after variable declaration."]
    );
}

#[test]
fn an_invalid_assignment_target_is_reported_at_the_equals_sign() {
    assert_eq!(errors("1 = 2;"), vec!["[line 1] Error at '=': Invalid assignment target."]);
}

#[test]
fn a_missing_expression_is_reported() {
    assert_eq!(errors("print ;"), vec!["[line 1] Error at ';': Expect expression."]);
}

#[test]
fn an_unclosed_group_is_reported_at_the_offending_token() {
    assert_eq!(errors("print (1;"), vec!["[line 1] Error at ';': Expect ')' after expression."]);
}

#[test]
fn running_out_of_tokens_is_reported() {
    assert_eq!(errors("print 1 +"), vec!["[line 1] Error at '+': Unexpected EOF."]);
}

#[test]
fn an_unterminated_string_is_reported_on_its_line() {
    assert_eq!(errors("print\n\"abc"), vec!["[line 2] Error: Unterminated string."]);
}

#[test]
fn a_class_cannot_name_a_superclass() {
    assert_eq!(
        errors("class A < B {}"),
        vec!["[line 1] Error at '<': Expect '{' before class body."]
    );
}

#[test]
fn a_method_needs_a_name() {
    assert_eq!(errors("class A { 1 }"), vec!["[line 1] Error at '1': Expect method name."]);
}

#[test]
fn the_parser_recovers_at_the_next_statement() {
    assert_eq!(
        errors("var = 1;\nprint ;\nprint 2;"),
        vec![
            "[line 1] Error at '=': Expect variable name.",
            "[line 2] Error at ';': Expect expression.",
        ]
    );
}

#[test]
fn an_empty_program_parses_to_nothing() {
    assert!(parse_ok("").is_empty());
    assert!(parse_ok("// only a comment\n").is_empty());
}

/// The token types that spell an expression.
fn spell_expr(e: &Expr, out: &mut Vec<TokenType>) {
    match e {
        Expr::Literal(Literal::Number(_)) => out.push(TokenType::Number),
        Expr::Literal(Literal::String(_)) => out.push(TokenType::String),
        Expr::Literal(Literal::Bool(true)) => out.push(TokenType::True),
        Expr::Literal(Literal::Bool(false)) => out.push(TokenType::False),
        Expr::Literal(Literal::Nil) => out.push(TokenType::Nil),
        Expr::Variable(t) => out.push(t.token_type),
        Expr::Grouping(g) => {
            out.push(TokenType::LeftParen);
            spell_expr(&g.expression, out);
            out.push(TokenType::RightParen);
        }
        Expr::Unary(u) => {
            out.push(u.operator.token_type);
            spell_expr(&u.right, out);
        }
        Expr::Binary(b) => {
            spell_expr(&b.left, out);
            out.push(b.operator.token_type);
            spell_expr(&b.right, out);
        }
        Expr::Logical(b) => {
            spell_expr(&b.left, out);
            out.push(b.operator.token_type);
            spell_expr(&b.right, out);
        }
        Expr::Call(c) => {
            spell_expr(&c.callee, out);
            out.push(TokenType::LeftParen);
            for (k, a) in c.args.iter().enumerate() {
                if k > 0 {
                    out.push(TokenType::Comma);
                }
                spell_expr(a, out);
            }
            out.push(c.paren.token_type);
        }
        Expr::Get(g) => {
            spell_expr(&g.expr, out);
            out.push(TokenType::Dot);
            out.push(g.name.token_type);
        }
        Expr::Assign(a) => {
            out.push(a.name.token_type);
            out.push(TokenType::Equal);
            spell_expr(&a.value, out);
        }
        Expr::SetProperty(s) => {
            spell_expr(&s.expr, out);
            out.extend([TokenType::Dot, s.name.token_type, TokenType::Equal]);
            spell_expr(&s.value, out);
        }
        other => panic!("the parser does not make {other:?}"),
    }
}

/// The token types that spell a function after `fun`.
fn spell_function(f: &rlox::stmt::Function, out: &mut Vec<TokenType>) {
    out.extend([TokenType::Identifier, TokenType::LeftParen]);
    for (k, p) in f.params.iter().enumerate() {
        if k > 0 {
            out.push(TokenType::Comma);
        }
        out.push(p.token_type);
    }
    out.extend([TokenType::RightParen, TokenType::LeftBrace]);
    for s in f.body.iter() {
        spell_stmt(s, out);
    }
    out.push(TokenType::RightBrace);
}

/// The token types that spell a statement.
fn spell_stmt(s: &Stmt, out: &mut Vec<TokenType>) {
    match s {
        Stmt::Expression(e) => {
            spell_expr(e, out);
            out.push(TokenType::Semicolon);
        }
        Stmt::Print(e) => {
            out.push(TokenType::Print);
            spell_expr(e, out);
            out.push(TokenType::Semicolon);
        }
        Stmt::Var(v) => {
            out.extend([TokenType::Var, TokenType::Identifier]);
            if let Some(e) = &v.initializer {
                out.push(TokenType::Equal);
                spell_expr(e, out);
            }
            out.push(TokenType::Semicolon);
        }
        Stmt::Block(v) => {
            out.push(TokenType::LeftBrace);
            for s in v {
                spell_stmt(s, out);
            }
            out.push(TokenType::RightBrace);
        }
        Stmt::If(i) => {
            out.extend([TokenType::If, TokenType::LeftParen]);
            spell_expr(&i.condition, out);
            out.push(TokenType::RightParen);
            spell_stmt(&i.then_branch, out);
            if let Some(e) = &i.else_branch {
                out.push(TokenType::Else);
                spell_stmt(e, out);
            }
        }
        Stmt::While(w) => {
            out.extend([TokenType::While, TokenType::LeftParen]);
            spell_expr(&w.condition, out);
            out.push(TokenType::RightParen);
            spell_stmt(&w.body, out);
        }
        Stmt::Function(f) => {
            out.push(TokenType::Fun);
            spell_function(f, out);
        }
        Stmt::Class(c) => {
            out.extend([TokenType::Class, TokenType::Identifier, TokenType::LeftBrace]);
            for m in &c.methods {
                let Stmt::Function(f) = m else { panic!("{m:?}") };
                spell_function(f, out);
            }
            out.push(TokenType::RightBrace);
        }
        Stmt::Return(r) => {
            out.push(TokenType::Return);
            if let Some(e) = &r.value {
                spell_expr(e, out);
            }
            out.push(TokenType::Semicolon);
        }
    }
}

#[test]
fn a_program_without_for_loops_spells_back_its_tokens() {
    let source = "class P { init(x, y) { q.x = x; return; } sum() { return -x + y * (2 - 1); } }\n\
                  fun f(a) { if (a and !nil) print a; else { var b = a.c(1, \"s\"); while (b) b = false; } }\n\
                  var p = P(1, 2); print p.sum() >= 3 or true;";
    let stmts = parse_ok(source);
    let mut spelled = Vec::new();
    for s in &stmts {
        spell_stmt(s, &mut spelled);
    }
    let types: Vec<TokenType> = Lexer::new(source, 1).tokenize().iter().map(|t| t.token_type).collect();
    assert_eq!(spelled, types);
}

#[test]
fn recovery_stops_before_a_statement_keyword() {
    assert_eq!(
        errors("var = 1 print 2; print ;"),
        vec!["[line 1] Error at '=': Expect variable name.", "[line 1] Error at ';': Expect expression."]
    );
}

#[test]
fn more_than_255_arguments_is_an_error() {
    let args: Vec<String> = (0..256).map(|k| k.to_string()).collect();
    let source = format!("f({});", args.join(", "));
    assert_eq!(errors(&source), vec!["[line 1] Error at '255': Can't have more than 255 arguments."]);
    let args: Vec<String> = (0..255).map(|k| k.to_string()).collect();
    let source = format!("f({});", args.join(", "));
    assert_eq!(parse_ok(&source).len(), 1);
}

#[test]
fn more_than_255_parameters_is_an_error() {
    let params: Vec<String> = (0..256).map(|k| format!("p{k}")).collect();
    let source = format!("fun f({}) {{}}", params.join(", "));
    assert_eq!(errors(&source), vec!["[line 1] Error at 'p255': Can't have more than 255 parameters."]);
}

#[test]
fn simple_statements_keep_their_tokens() {
    let stmts = parse_ok("print 12; var a; var b = c; d; nil;");
    assert_eq!(stmts.len(), 5);
    let Stmt::Print(p) = &stmts[0] else { panic!("{:?}", stmts[0]) };
    assert_eq!(number(p), "12");
    assert!(matches!(&stmts[1], Stmt::Var(v) if v.name.lexeme == "a" && v.initializer.is_none()));
    assert!(matches!(
        &stmts[2],
        Stmt::Var(v) if v.name.lexeme == "b" && matches!(&v.initializer, Some(Expr::Variable(t)) if t.lexeme == "c")
    ));
    assert!(matches!(&stmts[3], Stmt::Expression(Expr::Variable(t)) if t.lexeme == "d"));
    assert!(matches!(&stmts[4], Stmt::Expression(Expr::Literal(Literal::Nil))));
}

#[test]
fn a_for_loop_of_simple_parts_parses() {
    let stmts = parse_ok("for (var i = 0; i; i) { print i; }");
    assert_eq!(stmts.len(), 1);
    let Stmt::Block(parts) = &stmts[0] else { panic!("{:?}", stmts[0]) };
    assert_eq!(parts.len(), 2);
    assert!(matches!(&parts[0], Stmt::Var(v) if v.name.lexeme == "i"));
    assert!(matches!(&parts[1], Stmt::While(_)));
}
