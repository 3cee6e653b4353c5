use rlox::environment::Environments;
use rlox::tokens::{Token, TokenType};
use rlox::value::Value;
use rlox::{array_text, compile_time_error, concat2, concat3, decimal_string, push_chars, runtime_error, string_of, text_is, Report};

fn tok(lexeme: &str, line: usize) -> Token {
    Token::new(TokenType::Identifier, lexeme.to_string(), None, line, 1)
}

#[test]
fn decimal_numerals() {
    assert_eq!(decimal_string(0), "0");
    assert_eq!(decimal_string(7), "7");
    assert_eq!(decimal_string(10), "10");
    assert_eq!(decimal_string(1234), "1234");
    assert_eq!(decimal_string(usize::MAX), usize::MAX.to_string());
}

#[test]
fn joining_texts() {
    assert_eq!(concat2("foo", "bar"), "foobar");
    assert_eq!(concat2("", ""), "");
    assert_eq!(concat3("Undefined variable '", "x", "'."), "Undefined variable 'x'.");
    let mut chars = vec!['a'];
    push_chars("bç", &mut chars);
    assert_eq!(chars, vec!['a', 'b', 'ç']);
}

#[test]
fn a_range_of_characters_as_text() {
    let chars = vec!['a', 'b', 'c', 'd'];
    assert_eq!(string_of(&chars, 1, 3), "bc");
    assert_eq!(string_of(&chars, 2, 2), "");
    assert_eq!(string_of(&chars, 0, 4), "abcd");
}

#[test]
fn comparing_texts() {
    assert!(text_is(&"init".to_string(), "init"));
    assert!(!text_is(&"init".to_string(), "ini"));
}

#[test]
fn compile_time_reports() {
    let eof = Token::new(TokenType::EOF, String::new(), None, 3, 1);
    assert!(matches!(
        compile_time_error(Some(&eof), "Expect expression."),
        Report::AtEnd { line: 3, message } if message == "Expect expression."
    ));
    assert!(matches!(
        compile_time_error(Some(&tok("x", 2)), "Bad."),
        Report::At { line: 2, lexeme, message } if lexeme == "x" && message == "Bad."
    ));
    assert!(matches!(
        compile_time_error(None, "Plain."),
        Report::Plain { message } if message == "Plain."
    ));
}

#[test]
fn runtime_errors_carry_their_line() {
    let e = runtime_error(Some(&tok("x", 8)), "Oops.");
    assert_eq!(e.message, "Oops.");
    assert_eq!(e.line, Some(8));
    let e = runtime_error(None, "Plain.");
    assert_eq!(e.line, None);
}

#[test]
fn environments_chain_outwards() {
    let mut envs = Environments::new();
    let globals = envs.new_with_enclosing(None);
    let inner = envs.new_with_enclosing(Some(globals));
    assert_eq!(envs.len(), 2);
    assert_eq!(envs.enclosing(inner), Some(globals));
    envs.define(globals, "a".to_string(), Some(Value::Bool(true)));
    assert!(matches!(envs.get(inner, &tok("a", 1)), Ok(Value::Bool(true))));
    assert_eq!(envs.ancestor(inner, 1), Some(globals));
    assert_eq!(envs.ancestor(inner, 2), None);
    assert!(matches!(envs.get_at(inner, 1, &tok("a", 1)), Ok(Value::Bool(true))));
    let e = envs.get_at(inner, 2, &tok("a", 6)).unwrap_err();
    assert_eq!(e.message, "Undefined variable 'a' at distance 2.");
    assert_eq!(e.line, Some(6));
}

#[test]
fn an_assignment_reaches_the_innermost_declaration() {
    let mut envs = Environments::new();
    let globals = envs.new_with_enclosing(None);
    let inner = envs.new_with_enclosing(Some(globals));
    envs.define(globals, "a".to_string(), Some(Value::Nil));
    envs.define(inner, "b".to_string(), None);
    envs.assign(inner, &tok("a", 1), Value::Bool(false)).unwrap();
    assert!(matches!(envs.get(globals, &tok("a", 1)), Ok(Value::Bool(false))));
    // A declared but unset variable can be assigned.
    envs.assign(inner, &tok("b", 1), Value::Bool(true)).unwrap();
    assert!(matches!(envs.get(inner, &tok("b", 1)), Ok(Value::Bool(true))));
    assert!(envs.get(globals, &tok("b", 1)).is_err());
    let e = envs.assign(inner, &tok("c", 4), Value::Nil).unwrap_err();
    assert_eq!(e.message, "Undefined variable 'c'.");
    assert_eq!(e.line, Some(4));
    envs.assign_at(inner, 1, &tok("a", 1), Value::String("s".into())).unwrap();
    assert!(matches!(envs.get(inner, &tok("a", 1)), Ok(Value::String(s)) if s == "s"));
    let e = envs.assign_at(inner, 5, &tok("a", 2), Value::Nil).unwrap_err();
    assert_eq!(e.message, "Undefined variable 'a' at distance 5.");
}

#[test]
fn arrays_print_their_elements_in_brackets() {
    assert_eq!(array_text(&vec![]), "[]");
    assert_eq!(array_text(&vec!["1".to_string()]), "[1]");
    assert_eq!(array_text(&vec!["1".to_string(), "two".to_string(), "nil".to_string()]), "[1, two, nil]");
}
