use std::rc::Rc;

use rlox::expr::{Expr, Super};
use rlox::interpreter::{
    block_end, block_step, short_circuits, BlockStep, Signal, LoxCallable, LoxFunction, arity_error, check_arity, native_arity_of, native_name, slice_bound, BinaryOutcome, Callee,
    Interpreter, NativeOutcome, NumericOp, UnaryOutcome, WholeNumber,
};
use rlox::lexer::Lexer;
use rlox::parser::Parser;
use rlox::stmt::{Class, Function, Stmt};
use rlox::tokens::{Token, TokenType};
use rlox::value::{is_truthy, Native, Value};
use rlox::RuntimeError;

fn tok(lexeme: &str, line: usize, id: usize) -> Token {
    Token::new(TokenType::Identifier, lexeme.to_string(), None, line, id)
}

fn op(token_type: TokenType, lexeme: &str) -> Token {
    Token::new(token_type, lexeme.to_string(), None, 7, 1000)
}

fn num(n: f32) -> Value {
    Value::Number(n.to_bits())
}

fn text(v: &Value) -> String {
    match v {
        Value::String(s) => s.clone(),
        other => panic!("not a string: {other:?}"),
    }
}

fn err<T: std::fmt::Debug>(r: Result<T, RuntimeError>) -> (String, Option<usize>) {
    let e = r.expect_err("an error");
    (e.message, e.line)
}

fn function(name: &str, params: &[&str], id: usize) -> Function {
    Function {
        name: tok(name, 1, id),
        params: params.iter().enumerate().map(|(k, p)| tok(p, 1, id + 1 + k)).collect(),
        body: Rc::new(vec![]),
    }
}

fn class(name: &str, methods: Vec<Function>, superclass: Option<&str>) -> Class {
    Class {
        name: tok(name, 1, 500),
        methods: methods.into_iter().map(Stmt::Function).collect(),
        superclass: superclass.map(|s| Expr::Variable(tok(s, 2, 501))),
    }
}

#[test]
fn a_new_interpreter_defines_the_natives() {
    let it = Interpreter::new();
    for (name, native) in [
        ("clock", Native::Clock),
        ("len", Native::Len),
        ("push", Native::Push),
        ("pop", Native::Pop),
        ("slice", Native::Slice),
    ] {
        let v = it.lookup_var(&tok(name, 1, 1)).unwrap();
        assert!(matches!(v, Value::NativeFunction(n) if n == native));
    }
    assert!(!it.had_runtime_error());
    assert_eq!(it.array_count(), 0);
    assert_eq!(it.current_environment(), 0);
}

#[test]
fn an_undefined_variable_is_an_error() {
    let it = Interpreter::new();
    assert_eq!(
        err(it.lookup_var(&tok("x", 4, 1))),
        ("Undefined variable 'x'.".to_string(), Some(4))
    );
}

#[test]
fn a_defined_variable_reads_back() {
    let mut it = Interpreter::new();
    it.define("a".to_string(), Some(Value::Bool(true)));
    assert!(matches!(it.lookup_var(&tok("a", 1, 1)), Ok(Value::Bool(true))));
    it.define("a".to_string(), Some(Value::Nil));
    assert!(matches!(it.lookup_var(&tok("a", 1, 2)), Ok(Value::Nil)));
}

#[test]
fn a_declared_but_unset_variable_is_undefined() {
    let mut it = Interpreter::new();
    it.define("b".to_string(), None);
    assert_eq!(err(it.lookup_var(&tok("b", 2, 1))).0, "Undefined variable 'b'.");
}

#[test]
fn an_assigned_variable_reads_back() {
    let mut it = Interpreter::new();
    it.define("a".to_string(), Some(num(1.0)));
    let given = it.assign_var(&tok("a", 1, 1), Value::String("x".to_string())).unwrap();
    assert_eq!(text(&given), "x");
    assert_eq!(text(&it.lookup_var(&tok("a", 1, 2)).unwrap()), "x");
}

#[test]
fn assigning_an_undefined_variable_is_an_error() {
    let mut it = Interpreter::new();
    assert_eq!(
        err(it.assign_var(&tok("y", 3, 1), Value::Nil)),
        ("Undefined variable 'y'.".to_string(), Some(3))
    );
    assert!(it.lookup_var(&tok("y", 3, 2)).is_err());
}

#[test]
fn resolved_locals_are_found_at_their_distance() {
    let mut it = Interpreter::new();
    it.define("a".to_string(), Some(Value::String("global".to_string())));
    let outer = it.new_environment(it.current_environment());
    let inner = it.new_environment(outer);
    it.set_environment(outer);
    it.define("a".to_string(), Some(Value::String("outer".to_string())));
    it.set_environment(inner);
    it.resolve(10, 1);
    it.resolve(11, 0);
    it.resolve(12, 3);
    assert_eq!(it.depth_of(10), Some(1));
    assert_eq!(it.depth_of(99), None);
    assert_eq!(text(&it.lookup_var(&tok("a", 1, 10)).unwrap()), "outer");
    // An unresolved reference is a global one.
    assert_eq!(text(&it.lookup_var(&tok("a", 1, 13)).unwrap()), "global");
    // The innermost environment does not have `a` itself, so it is looked for outwards.
    assert_eq!(text(&it.lookup_var(&tok("a", 1, 11)).unwrap()), "outer");
    assert_eq!(
        err(it.lookup_var(&tok("a", 5, 12))),
        ("Undefined variable 'a' at distance 3.".to_string(), Some(5))
    );
    // Assigning through a resolved reference changes the variable it reaches.
    it.assign_var(&tok("a", 1, 10), num(2.0)).unwrap();
    assert!(matches!(it.lookup_var(&tok("a", 1, 10)), Ok(Value::Number(b)) if b == 2.0f32.to_bits()));
    assert_eq!(text(&it.lookup_var(&tok("a", 1, 13)).unwrap()), "global");
}

#[test]
fn binary_operators_on_numbers_are_left_to_the_caller() {
    let mut it = Interpreter::new();
    let cases = [
        (TokenType::Minus, NumericOp::Subtract),
        (TokenType::Slash, NumericOp::Divide),
        (TokenType::Star, NumericOp::Multiply),
        (TokenType::Plus, NumericOp::Add),
        (TokenType::Greater, NumericOp::Greater),
        (TokenType::GreaterEqual, NumericOp::GreaterEqual),
        (TokenType::Less, NumericOp::Less),
        (TokenType::LessEqual, NumericOp::LessEqual),
        (TokenType::BangEqual, NumericOp::NotEqual),
        (TokenType::EqualEqual, NumericOp::Equal),
    ];
    for (t, expected) in cases {
        match it.binary(&op(t, "?"), &num(6.0), &num(3.0)).unwrap() {
            BinaryOutcome::Numeric(o, a, b) => {
                assert_eq!(o, expected);
                assert_eq!(a, 6.0f32.to_bits());
                assert_eq!(b, 3.0f32.to_bits());
            }
            other => panic!("{other:?}"),
        }
    }
    assert!(!it.had_runtime_error());
}

#[test]
fn plus_joins_strings() {
    let mut it = Interpreter::new();
    let joined = it
        .binary(&op(TokenType::Plus, "+"), &Value::String("foo".into()), &Value::String("bar".into()))
        .unwrap();
    assert!(matches!(joined, BinaryOutcome::Value(Value::String(s)) if s == "foobar"));
}

#[test]
fn plus_on_mixed_operands_is_an_error() {
    let mut it = Interpreter::new();
    let r = it.binary(&op(TokenType::Plus, "+"), &Value::String("a".into()), &num(1.0));
    assert_eq!(err(r), ("Operands must be two numbers or two strings.".to_string(), Some(7)));
    assert!(it.had_runtime_error());
}

#[test]
fn arithmetic_on_non_numbers_is_an_error() {
    let mut it = Interpreter::new();
    let r = it.binary(&op(TokenType::Minus, "-"), &Value::Bool(true), &num(1.0));
    assert_eq!(err(r), ("Operands must be numbers.".to_string(), Some(7)));
    let r = it.binary(&op(TokenType::Less, "<"), &Value::Nil, &Value::Nil);
    assert_eq!(err(r).0, "Operands must be numbers.");
}

fn equals(it: &mut Interpreter, a: &Value, b: &Value) -> bool {
    match it.binary(&op(TokenType::EqualEqual, "=="), a, b).unwrap() {
        BinaryOutcome::Value(Value::Bool(x)) => x,
        other => panic!("{other:?}"),
    }
}

fn not_equals(it: &mut Interpreter, a: &Value, b: &Value) -> bool {
    match it.binary(&op(TokenType::BangEqual, "!="), a, b).unwrap() {
        BinaryOutcome::Value(Value::Bool(x)) => x,
        other => panic!("{other:?}"),
    }
}

#[test]
fn equality_of_values() {
    let mut it = Interpreter::new();
    assert!(equals(&mut it, &Value::Nil, &Value::Nil));
    assert!(equals(&mut it, &Value::String("a".into()), &Value::String("a".into())));
    assert!(!equals(&mut it, &Value::String("a".into()), &Value::String("b".into())));
    assert!(equals(&mut it, &Value::Bool(false), &Value::Bool(false)));
    assert!(!equals(&mut it, &Value::Bool(false), &Value::Nil));
    assert!(!equals(&mut it, &Value::String("1".into()), &num(1.0)));
    assert!(equals(&mut it, &Value::Callable(3), &Value::Callable(3)));
    assert!(!equals(&mut it, &Value::Callable(3), &Value::Callable(4)));
    // Instances and arrays are equal by identity.
    assert!(equals(&mut it, &Value::Instance(0), &Value::Instance(0)));
    assert!(!equals(&mut it, &Value::Instance(0), &Value::Instance(1)));
    assert!(equals(&mut it, &Value::Array(2), &Value::Array(2)));
    assert!(!equals(&mut it, &Value::Array(0), &Value::Array(2)));
    // Native functions are never equal, not even to themselves.
    let clock = Value::NativeFunction(Native::Clock);
    assert!(!equals(&mut it, &clock, &clock));
    // `!=` is the negation of `==`.
    assert!(!not_equals(&mut it, &Value::Nil, &Value::Nil));
    assert!(not_equals(&mut it, &Value::Instance(0), &Value::Instance(1)));
    assert!(not_equals(&mut it, &clock, &clock));
    assert!(!it.had_runtime_error());
}

#[test]
fn classes_are_equal_by_name() {
    let mut it = Interpreter::new();
    it.class_decl(&class("A", vec![], None), None).unwrap();
    it.class_decl(&class("A", vec![], None), None).unwrap();
    it.class_decl(&class("B", vec![], None), None).unwrap();
    assert!(equals(&mut it, &Value::Class(0), &Value::Class(1)));
    assert!(!equals(&mut it, &Value::Class(0), &Value::Class(2)));
}

#[test]
fn unary_operators() {
    let mut it = Interpreter::new();
    let bang = op(TokenType::Bang, "!");
    assert!(matches!(it.unary(&bang, &Value::Nil), Ok(UnaryOutcome::Value(Value::Bool(true)))));
    assert!(matches!(it.unary(&bang, &num(0.0)), Ok(UnaryOutcome::Value(Value::Bool(false)))));
    assert!(matches!(it.unary(&bang, &Value::Bool(false)), Ok(UnaryOutcome::Value(Value::Bool(true)))));
    let minus = op(TokenType::Minus, "-");
    assert!(matches!(it.unary(&minus, &num(2.5)), Ok(UnaryOutcome::Negate(b)) if b == 2.5f32.to_bits()));
    assert!(!it.had_runtime_error());
    assert_eq!(
        err(it.unary(&minus, &Value::String("x".into()))),
        ("Operand must be a number.".to_string(), Some(7))
    );
    assert!(it.had_runtime_error());
}

#[test]
fn truthiness() {
    assert!(!is_truthy(&Value::Nil));
    assert!(!is_truthy(&Value::Bool(false)));
    assert!(is_truthy(&Value::Bool(true)));
    assert!(is_truthy(&num(0.0)));
    assert!(is_truthy(&Value::String(String::new())));
    assert!(is_truthy(&Value::Array(0)));
}

#[test]
fn how_values_are_shown() {
    let mut it = Interpreter::new();
    it.declare_function(&function("f", &[], 1));
    it.class_decl(&class("Point", vec![], None), None).unwrap();
    let (instance, _) = it.begin_class_call(0, 0, &op(TokenType::RightParen, ")")).unwrap();
    assert_eq!(it.display_text(&Value::Bool(true)).unwrap(), "true");
    assert_eq!(it.display_text(&Value::Bool(false)).unwrap(), "false");
    assert_eq!(it.display_text(&Value::Nil).unwrap(), "nil");
    assert_eq!(it.display_text(&Value::String("s".into())).unwrap(), "s");
    assert_eq!(it.display_text(&Value::Callable(0)).unwrap(), "<fn f>");
    assert_eq!(it.display_text(&Value::NativeFunction(Native::Len)).unwrap(), "<native fn>");
    assert_eq!(it.display_text(&Value::Class(0)).unwrap(), "Point");
    assert_eq!(it.display_text(&Value::Instance(instance)).unwrap(), "Point instance");
    assert_eq!(it.display_text(&num(1.0)), None);
    assert_eq!(it.display_text(&Value::Callable(9)), None);
}

#[test]
fn arrays_are_indexed_and_assigned() {
    let mut it = Interpreter::new();
    let a = it.new_array(vec![Value::Nil, Value::Bool(true)]);
    assert!(matches!(a, Value::Array(0)));
    assert_eq!(it.array_count(), 1);
    assert_eq!(it.array_elements(0).len(), 2);
    let bracket = op(TokenType::RightBrace, "]");
    assert!(matches!(it.index(&a, WholeNumber::Whole(1), &bracket), Ok(Value::Bool(true))));
    // A read after a write gives back what was written.
    let written = it.index_set(&a, WholeNumber::Whole(0), Value::String("w".into()), &bracket).unwrap();
    assert_eq!(text(&written), "w");
    assert_eq!(text(&it.index(&a, WholeNumber::Whole(0), &bracket).unwrap()), "w");
    assert!(matches!(it.index(&a, WholeNumber::Whole(1), &bracket), Ok(Value::Bool(true))));
    assert!(!it.had_runtime_error());
}

#[test]
fn unusable_array_indices_are_errors() {
    let mut it = Interpreter::new();
    let a = it.new_array(vec![Value::Nil]);
    let bracket = op(TokenType::RightBrace, "]");
    assert_eq!(
        err(it.index(&a, WholeNumber::Whole(1), &bracket)),
        ("Array index out of bounds.".to_string(), Some(7))
    );
    assert_eq!(
        err(it.index(&a, WholeNumber::NotWhole, &bracket)).0,
        "Array index must be a non-negative integer."
    );
    assert_eq!(err(it.index(&a, WholeNumber::NotANumber, &bracket)).0, "Array index must be a number.");
    assert_eq!(
        err(it.index_set(&a, WholeNumber::Whole(5), Value::Nil, &bracket)).0,
        "Array index out of bounds."
    );
    assert_eq!(
        err(it.index(&Value::Nil, WholeNumber::Whole(0), &bracket)),
        ("Can only index into arrays.".to_string(), Some(7))
    );
    assert!(it.had_runtime_error());
    assert!(matches!(it.index(&a, WholeNumber::Whole(0), &bracket), Ok(Value::Nil)));
}

fn native(it: &mut Interpreter, n: Native, args: Vec<Value>, wholes: Vec<WholeNumber>) -> Result<NativeOutcome, RuntimeError> {
    it.call_native(n, &args, &wholes, &op(TokenType::RightParen, ")"))
}

fn wholes(n: usize) -> Vec<WholeNumber> {
    vec![WholeNumber::NotANumber; n]
}

#[test]
fn pop_gives_back_what_push_pushed() {
    let mut it = Interpreter::new();
    let a = it.new_array(vec![num(1.0)]);
    let pushed = native(&mut it, Native::Push, vec![a.clone(), Value::String("p".into())], wholes(2));
    assert!(matches!(pushed, Ok(NativeOutcome::Value(Value::Nil))));
    assert!(matches!(native(&mut it, Native::Len, vec![a.clone()], wholes(1)), Ok(NativeOutcome::Length(2))));
    let popped = native(&mut it, Native::Pop, vec![a.clone()], wholes(1)).unwrap();
    assert!(matches!(popped, NativeOutcome::Value(Value::String(s)) if s == "p"));
    assert!(matches!(native(&mut it, Native::Len, vec![a.clone()], wholes(1)), Ok(NativeOutcome::Length(1))));
    let popped = native(&mut it, Native::Pop, vec![a.clone()], wholes(1)).unwrap();
    assert!(matches!(popped, NativeOutcome::Value(Value::Number(b)) if b == 1.0f32.to_bits()));
    assert_eq!(
        err(native(&mut it, Native::Pop, vec![a], wholes(1))),
        ("Cannot pop from an empty array.".to_string(), Some(7))
    );
}

#[test]
fn natives_want_arrays() {
    let mut it = Interpreter::new();
    assert_eq!(
        err(native(&mut it, Native::Len, vec![Value::Nil], wholes(1))).0,
        "Argument to 'len' must be an array."
    );
    assert_eq!(
        err(native(&mut it, Native::Push, vec![Value::Nil, Value::Nil], wholes(2))).0,
        "First argument to 'push' must be an array."
    );
    assert_eq!(
        err(native(&mut it, Native::Pop, vec![num(1.0)], wholes(1))).0,
        "Argument to 'pop' must be an array."
    );
    assert_eq!(
        err(native(&mut it, Native::Slice, vec![Value::Nil, num(0.0), num(0.0)], wholes(3))).0,
        "First argument to 'slice' must be an array."
    );
}

#[test]
fn natives_check_their_arity() {
    let mut it = Interpreter::new();
    assert_eq!(
        err(native(&mut it, Native::Len, vec![Value::Nil, Value::Nil], wholes(2))),
        ("Expected 1 arguments but got 2.".to_string(), Some(7))
    );
    assert_eq!(
        err(native(&mut it, Native::Clock, vec![Value::Nil], wholes(1))).0,
        "Expected 0 arguments but got 1."
    );
    assert!(matches!(native(&mut it, Native::Clock, vec![], vec![]), Ok(NativeOutcome::Time)));
    assert_eq!(native_arity_of(Native::Clock), 0);
    assert_eq!(native_arity_of(Native::Len), 1);
    assert_eq!(native_arity_of(Native::Push), 2);
    assert_eq!(native_arity_of(Native::Pop), 1);
    assert_eq!(native_arity_of(Native::Slice), 3);
    assert_eq!(native_name(Native::Slice), "slice");
    assert_eq!(native_name(Native::Clock), "clock");
}

#[test]
fn slice_copies_a_range_into_a_new_array() {
    let mut it = Interpreter::new();
    let a = it.new_array(vec![num(0.0), num(1.0), num(2.0), num(3.0)]);
    let args = vec![a.clone(), num(1.0), num(3.0)];
    let w = vec![WholeNumber::NotANumber, WholeNumber::Whole(1), WholeNumber::Whole(3)];
    let sliced = native(&mut it, Native::Slice, args, w).unwrap();
    assert!(matches!(sliced, NativeOutcome::Value(Value::Array(1))));
    let elements = it.array_elements(1);
    assert_eq!(elements.len(), 2);
    assert!(matches!(elements[0], Value::Number(b) if b == 1.0f32.to_bits()));
    assert!(matches!(elements[1], Value::Number(b) if b == 2.0f32.to_bits()));
    assert_eq!(it.array_elements(0).len(), 4);
}

#[test]
fn unusable_slice_bounds_are_errors() {
    let mut it = Interpreter::new();
    let a = it.new_array(vec![Value::Nil, Value::Nil]);
    let args = vec![a.clone(), Value::Nil, Value::Nil];
    let cases = [
        (WholeNumber::Whole(2), WholeNumber::Whole(1), "Slice bounds out of range."),
        (WholeNumber::Whole(0), WholeNumber::Whole(3), "Slice bounds out of range."),
        (WholeNumber::NotANumber, WholeNumber::Whole(1), "Slice bounds must be numbers."),
        (WholeNumber::Whole(0), WholeNumber::NotWhole, "Slice bounds must be non-negative integers."),
    ];
    for (start, end, message) in cases {
        let w = vec![WholeNumber::NotANumber, start, end];
        assert_eq!(err(native(&mut it, Native::Slice, args.clone(), w)).0, message);
    }
    assert_eq!(it.array_count(), 1);
    assert!(matches!(slice_bound(WholeNumber::Whole(4), &op(TokenType::Comma, ",")), Ok(4)));
    assert_eq!(
        err(slice_bound(WholeNumber::NotWhole, &op(TokenType::Comma, ","))),
        ("Slice bounds must be non-negative integers.".to_string(), Some(7))
    );
}

#[test]
fn arity_messages() {
    let paren = op(TokenType::RightParen, ")");
    let e = arity_error(3, 10, &paren);
    assert_eq!(e.message, "Expected 3 arguments but got 10.");
    assert_eq!(e.line, Some(7));
    assert!(check_arity(2, 2, &paren).is_ok());
    assert_eq!(err(check_arity(0, 255, &paren)).0, "Expected 0 arguments but got 255.");
}

#[test]
fn calling_a_function_binds_its_parameters() {
    let mut it = Interpreter::new();
    it.declare_function(&function("f", &["a", "b"], 1));
    let f = it.lookup_var(&tok("f", 1, 50)).unwrap();
    assert!(matches!(f, Value::Callable(0)));
    assert_eq!(it.function_arity(0), 2);
    assert_eq!(it.function_name(0), "f");
    assert!(it.function_body(0).is_empty());
    let paren = op(TokenType::RightParen, ")");
    assert!(matches!(it.callee(&f, &paren), Ok(Callee::Function(0))));
    assert_eq!(
        err(it.begin_call(0, &vec![num(1.0)], &paren)),
        ("Expected 2 arguments but got 1.".to_string(), Some(7))
    );
    let env = it.begin_call(0, &vec![num(1.0), Value::String("two".into())], &paren).unwrap();
    it.set_environment(env);
    it.resolve(60, 0);
    assert_eq!(text(&it.lookup_var(&tok("b", 1, 60)).unwrap()), "two");
    assert!(matches!(it.end_call(0, None), Ok(Value::Nil)));
    assert!(matches!(it.end_call(0, Some(Value::Bool(true))), Ok(Value::Bool(true))));
}

#[test]
fn only_functions_and_classes_can_be_called() {
    let mut it = Interpreter::new();
    let paren = op(TokenType::RightParen, ")");
    assert_eq!(
        err(it.callee(&Value::Bool(true), &paren)),
        ("Can only call functions and classes.".to_string(), Some(7))
    );
    assert!(matches!(
        it.callee(&Value::NativeFunction(Native::Pop), &paren),
        Ok(Callee::Native(Native::Pop))
    ));
    assert!(it.callee(&Value::Callable(0), &paren).is_err());
}

#[test]
fn instances_get_their_fields_and_methods() {
    let mut it = Interpreter::new();
    let decl = class("A", vec![function("init", &["x"], 10), function("m", &[], 20)], None);
    it.class_decl(&decl, None).unwrap();
    assert!(matches!(it.lookup_var(&tok("A", 1, 30)), Ok(Value::Class(0))));
    assert_eq!(it.class_name(0), "A");
    assert_eq!(it.class_arity(0), 1);
    let paren = op(TokenType::RightParen, ")");
    assert!(matches!(it.callee(&Value::Class(0), &paren), Ok(Callee::Class(0))));
    let (instance, init) = it.begin_class_call(0, 1, &paren).unwrap();
    let init = init.expect("the class has an initializer");
    // An initializer gives back the instance it initialized.
    assert!(matches!(it.end_call(init, None), Ok(Value::Instance(i)) if i == instance));
    let object = Value::Instance(instance);
    let name = tok("m", 3, 31);
    match it.get_property(&object, &name).unwrap() {
        Value::Callable(g) => assert_eq!(it.function_name(g), "m"),
        other => panic!("{other:?}"),
    }
    // A field read after it is set gives back what was set, and shadows the method.
    let target = it.instance_for_set(&object, &name).unwrap();
    it.set_field(target, &name, num(5.0));
    assert!(matches!(it.get_property(&object, &name), Ok(Value::Number(b)) if b == 5.0f32.to_bits()));
    assert!(matches!(it.instance_get(instance, &name), Some(Value::Number(_))));
    assert_eq!(
        err(it.get_property(&object, &tok("nope", 4, 32))),
        ("Undefined property 'nope'.".to_string(), Some(4))
    );
    assert_eq!(
        err(it.get_property(&Value::Nil, &name)),
        ("Only instances have properties.".to_string(), Some(3))
    );
    assert_eq!(
        err(it.instance_for_set(&num(1.0), &name)),
        ("Only instances have fields.".to_string(), Some(3))
    );
}

#[test]
fn a_class_without_an_initializer_takes_no_arguments() {
    let mut it = Interpreter::new();
    it.class_decl(&class("A", vec![], None), None).unwrap();
    let paren = op(TokenType::RightParen, ")");
    assert_eq!(
        err(it.begin_class_call(0, 2, &paren)).0,
        "Expected 0 arguments but got 2."
    );
    assert!(matches!(it.begin_class_call(0, 0, &paren), Ok((_, None))));
}

#[test]
fn a_superclass_must_be_a_class() {
    let mut it = Interpreter::new();
    let r = it.class_decl(&class("B", vec![], Some("A")), Some(Value::Nil));
    assert_eq!(err(r), ("Superclass must be a class.".to_string(), Some(2)));
    assert!(it.had_runtime_error());
    assert!(it.lookup_var(&tok("B", 1, 1)).is_err());
}

#[test]
fn methods_are_inherited_and_overridden() {
    let mut it = Interpreter::new();
    it.class_decl(&class("A", vec![function("m", &[], 10), function("n", &[], 20)], None), None)
        .unwrap();
    it.class_decl(&class("B", vec![function("m", &["x"], 30)], Some("A")), Some(Value::Class(0)))
        .unwrap();
    let own = it.find_method(1, &"m".to_string()).unwrap();
    assert_eq!(it.function_arity(own), 1);
    let inherited = it.find_method(1, &"n".to_string()).unwrap();
    assert_eq!(it.function_name(inherited), "n");
    assert_eq!(it.find_method(0, &"m".to_string()).map(|f| it.function_arity(f)), Some(0));
    assert_eq!(it.find_method(1, &"z".to_string()), None);
}

#[test]
fn super_finds_the_superclass_method() {
    let mut it = Interpreter::new();
    it.class_decl(&class("A", vec![function("m", &[], 10)], None), None).unwrap();
    it.class_decl(&class("B", vec![function("m", &["x", "y"], 20)], Some("A")), Some(Value::Class(0)))
        .unwrap();
    let paren = op(TokenType::RightParen, ")");
    let (instance, _) = it.begin_class_call(1, 0, &paren).unwrap();
    // Call B's `m` on the instance: from its body, `this` is one environment out
    // and `super` two.
    let method = match it.get_property(&Value::Instance(instance), &tok("m", 1, 40)).unwrap() {
        Value::Callable(g) => g,
        other => panic!("{other:?}"),
    };
    let env = it.begin_call(method, &vec![Value::Nil, Value::Nil], &paren).unwrap();
    it.set_environment(env);
    let supr = Super {
        keyword: Token::new(TokenType::Super, "super".to_string(), None, 9, 41),
        method: tok("m", 9, 42),
    };
    it.resolve(41, 2);
    assert!(it.check_super(&supr));
    match it.supr(&supr).unwrap() {
        Value::Callable(g) => assert_eq!(it.function_arity(g), 0),
        other => panic!("{other:?}"),
    }
    let missing = Super {
        keyword: Token::new(TokenType::Super, "super".to_string(), None, 9, 43),
        method: tok("q", 9, 44),
    };
    it.resolve(43, 2);
    assert!(it.check_super(&missing));
    assert_eq!(err(it.supr(&missing)), ("Undefined property 'q'.".to_string(), Some(9)));
}

#[test]
fn resolving_a_program_records_local_distances() {
    let source = "{ var a = 1; { print a; } }";
    let mut parser = Parser::new(Lexer::new(source, 1));
    let stmts = parser.parse().unwrap();
    let mut it = Interpreter::new();
    assert!(it.resolve_program(&stmts).is_ok());
    assert_eq!(it.depth_of(9), Some(1));
    assert_eq!(it.depth_of(3), None);
}

#[test]
fn resolving_a_program_gives_its_static_errors() {
    let source = "return 1;";
    let mut parser = Parser::new(Lexer::new(source, 1));
    let stmts = parser.parse().unwrap();
    let mut it = Interpreter::new();
    let reports = it.resolve_program(&stmts).unwrap_err();
    assert_eq!(reports.len(), 1);
    assert!(matches!(
        &reports[0],
        rlox::Report::At { line: 1, lexeme, message }
            if lexeme == "return" && message == "Can't return from top-level code."
    ));
}

#[test]
fn recording_a_runtime_error() {
    let mut it = Interpreter::new();
    assert!(!it.had_runtime_error());
    it.record_runtime_error();
    assert!(it.had_runtime_error());
}

#[test]
fn tokens_are_equal_when_they_are_the_same_token() {
    let a = Token::new(TokenType::Identifier, "a".to_string(), None, 1, 5);
    let b = Token::new(TokenType::Number, "1".to_string(), None, 2, 5);
    let c = Token::new(TokenType::Identifier, "a".to_string(), None, 1, 6);
    assert!(a == b);
    assert!(a != c);
    assert!(a.same_token(&b));
    assert!(!a.same_token(&c));
}

#[test]
fn callables_have_names_and_arities() {
    let f = LoxFunction {
        name: "add".to_string(),
        params: vec!["a".to_string(), "b".to_string()],
        body: Rc::new(vec![]),
        closure: 0,
        is_initializer: false,
    };
    assert_eq!(f.name(), "add");
    assert_eq!(f.arity(), 2);
    assert_eq!(Native::Push.arity(), 2);
    assert_eq!(Native::Len.name(), "len");
    assert_eq!(Native::Clock.name(), "clock");
}

#[test]
fn a_block_goes_on_after_an_error_and_stops_at_a_return() {
    let (noted, step) = block_step(false, Ok(Value::Nil));
    assert!(!noted);
    assert!(matches!(step, BlockStep::Next));
    let failed = Err(Signal::RuntimeError(RuntimeError { message: "boom".into(), line: Some(1) }));
    let (noted, step) = block_step(false, failed);
    assert!(noted);
    assert!(matches!(step, BlockStep::Next));
    let (noted, step) = block_step(false, Err(Signal::Return(Value::Bool(true))));
    assert!(!noted);
    assert!(matches!(step, BlockStep::Finish(Err(Signal::Return(Value::Bool(true))))));
    // A return after an error in the same block is a failure.
    let (_, step) = block_step(true, Err(Signal::Return(Value::Nil)));
    assert!(matches!(step, BlockStep::Finish(Err(Signal::RuntimeError(e))) if e.message.is_empty() && e.line.is_none()));
    assert!(matches!(block_end(false), Ok(Value::Nil)));
    assert!(matches!(block_end(true), Err(Signal::RuntimeError(_))));
}

#[test]
fn logical_operators_short_circuit() {
    assert!(short_circuits(TokenType::Or, &Value::Bool(true)));
    assert!(!short_circuits(TokenType::Or, &Value::Nil));
    assert!(short_circuits(TokenType::And, &Value::Nil));
    assert!(!short_circuits(TokenType::And, &num(0.0)));
}

#[test]
fn finishing_calls() {
    let mut it = Interpreter::new();
    it.declare_function(&function("f", &[], 1));
    assert!(matches!(it.finish_call(0, Ok(Value::Bool(true))), Ok(Value::Nil)));
    assert!(matches!(it.finish_call(0, Err(Signal::Return(num(3.0)))), Ok(Value::Number(b)) if b == 3.0f32.to_bits()));
    let e = it
        .finish_call(0, Err(Signal::RuntimeError(RuntimeError { message: "m".into(), line: Some(2) })))
        .unwrap_err();
    assert_eq!((e.message.as_str(), e.line), ("m", Some(2)));
    assert!(it.finish_call(0, Err(Signal::ResolveError)).is_err());
    assert!(matches!(it.program_outcome(), Ok(Value::Nil)));
    it.record_runtime_error();
    assert!(matches!(it.program_outcome(), Err(Signal::RuntimeError(_))));
}

#[test]
fn a_subclass_takes_the_arity_of_an_inherited_initializer() {
    let mut it = Interpreter::new();
    it.class_decl(&class("A", vec![function("init", &["a", "b"], 10)], None), None).unwrap();
    it.class_decl(&class("B", vec![function("m", &[], 20)], Some("A")), Some(Value::Class(0))).unwrap();
    assert_eq!(it.class_arity(0), 2);
    assert_eq!(it.class_arity(1), 2);
    it.class_decl(&class("C", vec![], None), None).unwrap();
    assert_eq!(it.class_arity(2), 0);
}

#[test]
fn a_superclass_that_is_not_a_class_leaves_the_name_undefined() {
    let mut it = Interpreter::new();
    let e = it.class_decl(&class("B", vec![], Some("A")), Some(Value::Bool(true))).unwrap_err();
    assert_eq!(e.message, "Superclass must be a class.");
    assert!(it.had_runtime_error());
    assert!(it.lookup_var(&tok("B", 1, 40)).is_err());
}

#[test]
fn dividing_by_zero_is_an_error() {
    let mut it = Interpreter::new();
    let slash = op(TokenType::Slash, "/");
    let e = it.binary(&slash, &num(1.0), &num(0.0)).unwrap_err();
    assert_eq!(e.message, "Division by zero.");
    assert!(it.had_runtime_error());
    let mut it = Interpreter::new();
    assert!(it.binary(&slash, &num(1.0), &num(-0.0)).is_err());
    assert!(matches!(it.binary(&op(TokenType::Star, "*"), &num(1.0), &num(0.0)), Ok(BinaryOutcome::Numeric(NumericOp::Multiply, _, _))));
}

#[test]
fn values_compare_by_kind_and_content() {
    let it = Interpreter::new();
    assert!(it.equal(&Value::Nil, &Value::Nil));
    assert!(it.equal(&Value::Bool(true), &Value::Bool(true)));
    assert!(!it.equal(&Value::Bool(true), &Value::Bool(false)));
    assert!(it.equal(&Value::String("a".to_string()), &Value::String("a".to_string())));
    assert!(!it.equal(&Value::String("a".to_string()), &Value::Nil));
    assert!(!it.equal(&Value::Number(0), &Value::Bool(false)));
    assert!(!it.equal(&Value::NativeFunction(Native::Clock), &Value::NativeFunction(Native::Clock)));
}
