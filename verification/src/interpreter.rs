use vstd::prelude::*;
use std::collections::HashMap;
use std::rc::Rc;
use crate::expr::{Expr, Super};
use crate::environment::{env_ancestor, env_get, env_holder, lemma_ancestor_same_chain, Environments};
use crate::resolver::{stmts_clean, stmts_res, ClassType, FunctionType, Resolver, SymbolState};
use crate::stmt::{stmt_ok, stmts_ok, Class, Function, Stmt};
use crate::tokens::{Token, TokenType};
use crate::value::{is_truthy, truthy, entry, find_entry, last_index, lemma_last_index, set_entry, Native, Value};
use crate::{concat3, runtime_error, text_is, Report, RuntimeError};

verus! {

broadcast use vstd::std_specs::hash::group_hash_axioms;

/// A Lox function: its parameters and body, and the environment it closes over.
#[derive(Debug)]
pub struct LoxFunction {
    pub name: String,
    pub params: Vec<String>,
    pub body: Rc<Vec<Stmt>>,
    pub closure: usize,
    pub is_initializer: bool,
}

/// Something that Lox code can call, by name, with a fixed number of arguments.
pub trait LoxCallable {
    /// The name of the callable.
    fn name(&self) -> String;

    /// The number of arguments that the callable takes.
    fn arity(&self) -> usize;
}

impl LoxCallable for LoxFunction {
    fn name(&self) -> (res: String)
        ensures
            res@ == self.name@,
    {
        self.name.clone()
    }

    fn arity(&self) -> (res: usize)
        ensures
            res == self.params@.len(),
    {
        self.params.len()
    }
}

impl LoxCallable for Native {
    fn name(&self) -> (res: String)
        ensures
            res@ == native_name_text(*self),
    {
        native_name(*self)
    }

    fn arity(&self) -> (res: usize)
        ensures
            res == native_arity(*self),
    {
        native_arity_of(*self)
    }
}

/// A Lox class: its methods (each a function in the interpreter's store) and its superclass.
#[derive(Debug)]
pub struct LoxClass {
    pub class_name: String,
    pub methods: Vec<(String, usize)>,
    pub superclass: Option<usize>,
}

/// An instance of a Lox class, with its fields.
#[derive(Debug)]
pub struct Instance {
    pub class: usize,
    pub fields: Vec<(String, Value)>,
}

/// How the execution of a statement ended, when it did not end normally.
#[derive(Debug)]
pub enum Signal {
    Return(Value),
    ResolveError,
    RuntimeError(RuntimeError),
}

/// What a call expression calls.
#[derive(Debug, Clone, Copy, PartialEq, Eq, Structural)]
pub enum Callee {
    Function(usize),
    Class(usize),
    Native(Native),
}

/// What a number used as an index or a slice bound is: not a number at all, a
/// number that is negative or has a fractional part, or a whole number (which is
/// `usize::MAX` when it is larger than that).
#[derive(Debug, Clone, Copy, PartialEq, Eq, Structural)]
pub enum WholeNumber {
    NotANumber,
    NotWhole,
    Whole(usize),
}

/// What a native function call produces: a value, the length of an array (to be
/// given to Lox as a number), or a request for the current time.
#[derive(Debug)]
pub enum NativeOutcome {
    Value(Value),
    Length(usize),
    Time,
}

/// The number operations that Lox operators stand for.
#[derive(Debug, Clone, Copy, PartialEq, Eq, Structural)]
pub enum NumericOp {
    Subtract,
    Divide,
    Multiply,
    Add,
    Greater,
    GreaterEqual,
    Less,
    LessEqual,
    NotEqual,
    Equal,
}

/// Whether the bits of a number are those of zero (positive or negative).
pub open spec fn is_zero_bits(b: u32) -> bool {
    b == 0 || b == 0x8000_0000
}

/// What a binary operator gives: a value, or an operation on two numbers (given by their bits).
#[derive(Debug)]
pub enum BinaryOutcome {
    Value(Value),
    Numeric(NumericOp, u32, u32),
}

/// What a unary operator gives: a value, or the negation of a number (given by its bits).
#[derive(Debug)]
pub enum UnaryOutcome {
    Value(Value),
    Negate(u32),
}

/// How a block goes on once one of its statements has run.
#[derive(Debug)]
pub enum BlockStep {
    /// Run the next statement.
    Next,
    /// Leave the block with this outcome.
    Finish(Result<Value, Signal>),
}

/// The failure that stands for errors already reported.
pub open spec fn reported_failure(r: Result<Value, Signal>) -> bool {
    r matches Err(Signal::RuntimeError(e)) && e.message@.len() == 0 && e.line is None
}

fn reported_error() -> (res: RuntimeError)
    ensures
        res.message@.len() == 0,
        res.line is None,
{
    RuntimeError { message: String::new(), line: None }
}

/// What a block does once one of its statements has ended with `outcome`, given
/// whether an earlier statement of the block failed: an error is noted and the
/// block goes on; a `return` leaves the block at once, as a failure if an error was
/// noted before; otherwise the block goes on. Gives back whether an error has been
/// noted, and what to do.
pub fn block_step(had_error: bool, outcome: Result<Value, Signal>) -> (res: (bool, BlockStep))
    ensures
        match outcome {
            Ok(_) => res.0 == had_error && res.1 is Next,
            Err(Signal::Return(v)) => res.0 == had_error && (res.1 matches BlockStep::Finish(r) && if had_error {
                reported_failure(r)
            } else {
                r == Err::<Value, Signal>(Signal::Return(v))
            }),
            Err(_) => res.0 && res.1 is Next,
        },
{
    match outcome {
        Ok(_) => (had_error, BlockStep::Next),
        Err(Signal::Return(v)) => {
            if had_error {
                (had_error, BlockStep::Finish(Err(Signal::RuntimeError(reported_error()))))
            } else {
                (had_error, BlockStep::Finish(Err(Signal::Return(v))))
            }
        },
        Err(_) => (true, BlockStep::Next),
    }
}

/// What a block that ran all its statements ends with: a failure if one of them
/// failed, `nil` otherwise.
pub fn block_end(had_error: bool) -> (res: Result<Value, Signal>)
    ensures
        had_error ==> reported_failure(res),
        !had_error ==> res == Ok::<Value, Signal>(Value::Nil),
{
    if had_error {
        Err(Signal::RuntimeError(reported_error()))
    } else {
        Ok(Value::Nil)
    }
}

/// Whether a logical operator (`or` or `and`) gives its left operand without
/// evaluating its right one: `or` when the left operand is truthy, `and` when it
/// is not.
pub fn short_circuits(operator: TokenType, left: &Value) -> (res: bool)
    requires
        operator == TokenType::Or || operator == TokenType::And,
    ensures
        res == if operator == TokenType::Or {
            truthy(*left)
        } else {
            !truthy(*left)
        },
{
    if operator == TokenType::Or {
        is_truthy(left)
    } else {
        !is_truthy(left)
    }
}

/// The message of a call with the wrong number of arguments.
pub open spec fn arity_message(expected: nat, got: nat) -> Seq<char> {
    "Expected "@ + crate::decimal(expected) + " arguments but got "@ + crate::decimal(got) + "."@
}

/// `m` with each pair of `s` inserted in order, a later pair for a key replacing an
/// earlier one.
pub open spec fn insert_all(m: Map<usize, usize>, s: Seq<(usize, usize)>) -> Map<usize, usize>
    decreases s.len(),
{
    if s.len() == 0 {
        m
    } else {
        insert_all(m, s.drop_last()).insert(s.last().0, s.last().1)
    }
}

/// What the globals of a new interpreter hold for `k`: one of the native functions
/// `clock`, `len`, `push`, `pop` and `slice`, and nothing else.
pub open spec fn native_binding(k: Seq<char>) -> Option<Option<Value>> {
    if k == "clock"@ {
        Some(Some(Value::NativeFunction(Native::Clock)))
    } else if k == "len"@ {
        Some(Some(Value::NativeFunction(Native::Len)))
    } else if k == "push"@ {
        Some(Some(Value::NativeFunction(Native::Push)))
    } else if k == "pop"@ {
        Some(Some(Value::NativeFunction(Native::Pop)))
    } else if k == "slice"@ {
        Some(Some(Value::NativeFunction(Native::Slice)))
    } else {
        None
    }
}

/// Whether function `g` of `after` is function `f` of `before` bound to `instance`:
/// a new function with `f`'s name, parameters and body, closing over a new
/// environment (the last one of `after`) inside `f`'s closure, where `this` is the
/// instance and nothing else is defined.
pub open spec fn bound(before: Interpreter, after: Interpreter, f: usize, instance: usize, g: usize) -> bool {
    let b = after.functions()[g as int];
    let of = before.functions()[f as int];
    let env = b.closure as int;
    &&& g == before.functions().len()
    &&& after.functions().len() == before.functions().len() + 1
    &&& after.functions().drop_last() == before.functions()
    &&& b.name == of.name
    &&& b.params@ == of.params@
    &&& b.body == of.body
    &&& b.is_initializer == of.is_initializer
    &&& env == before.envs().frames().len()
    &&& after.envs().frames().len() == before.envs().frames().len() + 1
    &&& after.envs().frames().drop_last() == before.envs().frames()
    &&& after.envs().frames()[env].enclosing == Some(of.closure)
    &&& forall|k: Seq<char>|
        #[trigger] entry(after.envs().frames()[env].values@, k) == if k == "this"@ {
            Some(Some(Value::Instance(instance)))
        } else {
            None
        }
}

/// The state of a Lox interpreter: its environments, the functions, classes,
/// instances and arrays made so far, and the resolved distance of each local
/// variable reference.
/// Whether `after` differs from `before` in its environments only in that `name` is
/// bound to `value` in the environment `before` executes in: it executes there still,
/// and every other binding and environment is as it was.
pub open spec fn rebound(before: Interpreter, after: Interpreter, name: Seq<char>, value: Value) -> bool {
    let env = before.environment();
    &&& after.environment() == env
    &&& after.envs().frames().len() == before.envs().frames().len()
    &&& forall|e: int|
        0 <= e < before.envs().frames().len() && e != env ==> #[trigger] after.envs().frames()[e]
            == before.envs().frames()[e]
    &&& after.envs().frames()[env].enclosing == before.envs().frames()[env].enclosing
    &&& forall|k: Seq<char>|
        #[trigger] entry(after.envs().frames()[env].values@, k) == if k == name {
            Some(Some(value))
        } else {
            entry(before.envs().frames()[env].values@, k)
        }
}

/// What declaring the function `decl` does: a function is added with its name,
/// parameters and body, closing over the current environment and not an
/// initializer, and it is bound to its name in the current environment.
pub open spec fn function_declared(before: Interpreter, after: Interpreter, decl: Function) -> bool {
    let f = after.functions().last();
    &&& after.functions().len() == before.functions().len() + 1
    &&& after.functions().drop_last() == before.functions()
    &&& f.name@ == decl.name.lexeme@
    &&& texts(f.params@) == decl.params@.map_values(|t: Token| t.lexeme@)
    &&& f.body == decl.body
    &&& f.closure == before.environment()
    &&& !f.is_initializer
    &&& rebound(before, after, decl.name.lexeme@, Value::Callable(before.functions().len() as usize))
    &&& after.globals() == before.globals()
    &&& after.classes() == before.classes()
    &&& after.instances() == before.instances()
    &&& after.arrays() == before.arrays()
    &&& after.locals() == before.locals()
    &&& after.had_error() == before.had_error()
}

/// What declaring `class` does, with `superclass` the value its superclass expression
/// gave (if it names one) and that value a class: the class is added, with its name,
/// its superclass and its methods, each method closing over the environment the
/// declaration stands in, or, when there is a superclass, over a new environment
/// inside it where `super` is the superclass; and the class is bound to its name
/// in the current environment, every other binding and environment as it was.
pub open spec fn class_declared(before: Interpreter, after: Interpreter, class: Class, superclass: Option<Value>) -> bool {
    let base = before.functions().len() as int;
    let scope = if superclass is Some {
        before.envs().frames().len() as int
    } else {
        before.environment()
    };
    let cls = after.classes().last();
    let env = before.environment();
    &&& after.environment() == before.environment()
    &&& after.globals() == before.globals()
    &&& after.instances() == before.instances()
    &&& after.arrays() == before.arrays()
    &&& after.locals() == before.locals()
    &&& after.had_error() == before.had_error()
    &&& after.classes().len() == before.classes().len() + 1
    &&& after.classes().drop_last() == before.classes()
    &&& cls.class_name@ == class.name.lexeme@
    &&& cls.superclass == match superclass {
        Some(Value::Class(c)) => Some(c),
        _ => None::<usize>,
    }
    &&& forall|k: Seq<char>|
        #[trigger] entry(cls.methods@, k) == entry(method_entries(class.methods@, base), k)
    &&& after.functions().len() == base + class.methods@.len()
    &&& after.functions().subrange(0, base) == before.functions()
    &&& forall|j: int|
        0 <= j < class.methods@.len() ==> {
            let m = class.methods@[j]->Function_0;
            let f = #[trigger] after.functions()[base + j];
            &&& f.name@ == m.name.lexeme@
            &&& texts(f.params@) == m.params@.map_values(|t: Token| t.lexeme@)
            &&& f.body == m.body
            &&& f.closure == scope
            &&& f.is_initializer == (m.name.lexeme@ == "init"@)
        }
    &&& superclass is Some ==> {
        &&& after.envs().frames().len() == before.envs().frames().len() + 1
        &&& after.envs().frames()[scope].enclosing == Some(env as usize)
        &&& forall|k: Seq<char>|
            #[trigger] entry(after.envs().frames()[scope].values@, k) == if k
                == "super"@ {
                Some(superclass)
            } else {
                None
            }
    }
    &&& superclass is None ==> after.envs().frames().len()
        == before.envs().frames().len()
    &&& forall|e: int|
        0 <= e < before.envs().frames().len() && e != env
            ==> #[trigger] after.envs().frames()[e] == before.envs().frames()[e]
    &&& forall|k: Seq<char>|
        #[trigger] entry(after.envs().frames()[env].values@, k) == if k
            == class.name.lexeme@ {
            Some(Some(Value::Class(before.classes().len() as usize)))
        } else {
            entry(before.envs().frames()[env].values@, k)
        }
}

pub struct Interpreter {
    envs: Environments,
    functions: Vec<LoxFunction>,
    classes: Vec<LoxClass>,
    instances: Vec<Instance>,
    arrays: Vec<Vec<Value>>,
    globals: usize,
    environment: usize,
    locals: HashMap<usize, usize>,
    had_runtime_error: bool,
}

/// The method `name` of class `c`: its own, or else its superclass's.
pub open spec fn class_method(classes: Seq<LoxClass>, c: int, name: Seq<char>) -> Option<usize>
    decreases c,
{
    if 0 <= c < classes.len() {
        match entry(classes[c].methods@, name) {
            Some(f) => Some(f),
            None => match classes[c].superclass {
                Some(s) => if s < c {
                    class_method(classes, s as int, name)
                } else {
                    None
                },
                None => None,
            },
        }
    } else {
        None
    }
}

/// The entries that a class's method declarations make: each method's name, and the
/// function that it becomes (numbered from `base` in declaration order).
pub open spec fn method_entries(methods: Seq<Stmt>, base: int) -> Seq<(String, usize)> {
    Seq::new(methods.len(), |j: int| (methods[j]->Function_0.name.lexeme, (base + j) as usize))
}

/// The texts of a list of strings.
pub open spec fn texts(v: Seq<String>) -> Seq<Seq<char>> {
    v.map_values(|s: String| s@)
}

/// A copy of a list of strings.
fn copy_strings(v: &Vec<String>) -> (res: Vec<String>)
    ensures
        res@ == v@,
{
    let mut out: Vec<String> = Vec::new();
    let mut i: usize = 0;
    while i < v.len()
        invariant
            i <= v.len(),
            out@ == v@.take(i as int),
        decreases v.len() - i,
    {
        out.push(v[i].clone());
        assert(out@ =~= v@.take(i + 1));
        i = i + 1;
    }
    assert(out@ =~= v@);
    out
}

/// The names of a list of tokens.
fn lexemes_of(tokens: &Vec<Token>) -> (res: Vec<String>)
    ensures
        texts(res@) == tokens@.map_values(|t: Token| t.lexeme@),
{
    let mut out: Vec<String> = Vec::new();
    let mut i: usize = 0;
    while i < tokens.len()
        invariant
            i <= tokens.len(),
            out@.len() == i,
            forall|j: int| 0 <= j < i ==> #[trigger] out@[j]@ == tokens@[j].lexeme@,
        decreases tokens.len() - i,
    {
        out.push(tokens[i].lexeme.clone());
        i = i + 1;
    }
    assert(texts(out@) =~= tokens@.map_values(|t: Token| t.lexeme@));
    out
}

/// The number of arguments that a native function takes.
pub open spec fn native_arity(native: Native) -> int {
    match native {
        Native::Clock => 0,
        Native::Len => 1,
        Native::Push => 2,
        Native::Pop => 1,
        Native::Slice => 3,
    }
}

/// The number of arguments that a native function takes.
pub fn native_arity_of(native: Native) -> (res: usize)
    ensures
        res == native_arity(native),
{
    match native {
        Native::Clock => 0,
        Native::Len => 1,
        Native::Push => 2,
        Native::Pop => 1,
        Native::Slice => 3,
    }
}

/// The name of a native function: the name it is defined by.
pub open spec fn native_name_text(native: Native) -> Seq<char> {
    match native {
        Native::Clock => "clock"@,
        Native::Len => "len"@,
        Native::Push => "push"@,
        Native::Pop => "pop"@,
        Native::Slice => "slice"@,
    }
}

/// The name of a native function: the name it is defined by.
pub fn native_name(native: Native) -> (res: String)
    ensures
        res@ == native_name_text(native),
{
    match native {
        Native::Clock => "clock".to_owned(),
        Native::Len => "len".to_owned(),
        Native::Push => "push".to_owned(),
        Native::Pop => "pop".to_owned(),
        Native::Slice => "slice".to_owned(),
    }
}

/// The message of an unusable array index.
pub open spec fn index_message(idx: WholeNumber) -> Seq<char> {
    match idx {
        WholeNumber::NotANumber => "Array index must be a number."@,
        WholeNumber::NotWhole => "Array index must be a non-negative integer."@,
        WholeNumber::Whole(_) => "Array index out of bounds."@,
    }
}

/// The message of an unusable slice bound, if it is one.
pub open spec fn slice_bound_message(b: WholeNumber) -> Option<Seq<char>> {
    match b {
        WholeNumber::NotANumber => Some("Slice bounds must be numbers."@),
        WholeNumber::NotWhole => Some("Slice bounds must be non-negative integers."@),
        WholeNumber::Whole(_) => None,
    }
}

/// Check a Lox number used as a slice bound.
pub fn slice_bound(b: WholeNumber, paren: &Token) -> (res: Result<usize, RuntimeError>)
    ensures
        match b {
            WholeNumber::Whole(n) => res == Ok::<usize, RuntimeError>(n),
            _ => res matches Err(e) && Some(e.message@) == slice_bound_message(b) && e.line == Some(paren.line),
        },
{
    match b {
        WholeNumber::NotANumber => Err(runtime_error(Some(paren), "Slice bounds must be numbers.")),
        WholeNumber::NotWhole => Err(runtime_error(Some(paren), "Slice bounds must be non-negative integers.")),
        WholeNumber::Whole(n) => Ok(n),
    }
}

/// What a native call with the right number of arguments does to the arrays
/// (`before` to `after`) and gives back.
pub open spec fn native_result(
    before: Seq<Vec<Value>>,
    after: Seq<Vec<Value>>,
    native: Native,
    args: Seq<Value>,
    wholes: Seq<WholeNumber>,
    res: Result<NativeOutcome, RuntimeError>,
) -> bool {
    let is_array = args[0] matches Value::Array(a) && a < before.len();
    let a = args[0]->Array_0 as int;
    match native {
        Native::Clock => res matches Ok(NativeOutcome::Time) && after == before,
        Native::Len => after == before && if is_array {
            res matches Ok(NativeOutcome::Length(n)) && n == before[a]@.len()
        } else {
            res matches Err(e) && e.message@ == "Argument to 'len' must be an array."@
        },
        Native::Push => if is_array {
            &&& res matches Ok(NativeOutcome::Value(Value::Nil))
            &&& after.len() == before.len()
            &&& forall|b: int| 0 <= b < before.len() && b != a ==> #[trigger] after[b] == before[b]
            &&& after[a]@ == before[a]@.push(args[1])
        } else {
            after == before && (res matches Err(e) && e.message@ == "First argument to 'push' must be an array."@)
        },
        Native::Pop => if is_array {
            if before[a]@.len() == 0 {
                after == before && (res matches Err(e) && e.message@ == "Cannot pop from an empty array."@)
            } else {
                &&& res matches Ok(NativeOutcome::Value(v)) && v == before[a]@.last()
                &&& after.len() == before.len()
                &&& forall|b: int| 0 <= b < before.len() && b != a ==> #[trigger] after[b] == before[b]
                &&& after[a]@ == before[a]@.drop_last()
            }
        } else {
            after == before && (res matches Err(e) && e.message@ == "Argument to 'pop' must be an array."@)
        },
        Native::Slice => if !is_array {
            after == before && (res matches Err(e) && e.message@ == "First argument to 'slice' must be an array."@)
        } else if slice_bound_message(wholes[1]) is Some {
            after == before && (res matches Err(e) && Some(e.message@) == slice_bound_message(wholes[1]))
        } else if slice_bound_message(wholes[2]) is Some {
            after == before && (res matches Err(e) && Some(e.message@) == slice_bound_message(wholes[2]))
        } else {
            let start = wholes[1]->Whole_0 as int;
            let end = wholes[2]->Whole_0 as int;
            if start > end || end > before[a]@.len() {
                after == before && (res matches Err(e) && e.message@ == "Slice bounds out of range."@)
            } else {
                &&& res matches Ok(NativeOutcome::Value(Value::Array(id))) && id == before.len()
                &&& after.len() == before.len() + 1
                &&& after.drop_last() == before
                &&& after.last()@ == before[a]@.subrange(start, end)
            }
        },
    }
}

/// Whether two values that are not both numbers are equal: booleans and strings by
/// their contents, `nil` to `nil`, classes by their names, and functions, instances
/// and arrays by identity. Native functions are never equal, not even to themselves,
/// and values of different kinds are never equal.
pub open spec fn equal_values(classes: Seq<LoxClass>, a: Value, b: Value) -> bool {
    match (a, b) {
        (Value::Bool(x), Value::Bool(y)) => x == y,
        (Value::String(x), Value::String(y)) => x@ == y@,
        (Value::Nil, Value::Nil) => true,
        (Value::Callable(f), Value::Callable(g)) => f == g,
        (Value::Class(x), Value::Class(y)) => if x < classes.len() && y < classes.len() {
            classes[x as int].class_name@ == classes[y as int].class_name@
        } else {
            x == y
        },
        (Value::Instance(x), Value::Instance(y)) => x == y,
        (Value::Array(x), Value::Array(y)) => x == y,
        _ => false,
    }
}

/// The number operation that an arithmetic or comparison operator stands for.
pub open spec fn numeric_op(t: TokenType) -> NumericOp {
    match t {
        TokenType::Minus => NumericOp::Subtract,
        TokenType::Slash => NumericOp::Divide,
        TokenType::Star => NumericOp::Multiply,
        TokenType::Plus => NumericOp::Add,
        TokenType::Greater => NumericOp::Greater,
        TokenType::GreaterEqual => NumericOp::GreaterEqual,
        TokenType::Less => NumericOp::Less,
        TokenType::LessEqual => NumericOp::LessEqual,
        TokenType::BangEqual => NumericOp::NotEqual,
        _ => NumericOp::Equal,
    }
}

/// Whether a token type is a binary operator.
pub open spec fn is_binary_operator(t: TokenType) -> bool {
    t == TokenType::Minus || t == TokenType::Slash || t == TokenType::Star || t == TokenType::Plus
        || t == TokenType::Greater || t == TokenType::GreaterEqual || t == TokenType::Less || t
        == TokenType::LessEqual || t == TokenType::BangEqual || t == TokenType::EqualEqual
}

/// The error of a call with `got` arguments of a callable that takes `expected`.
pub fn arity_error(expected: usize, got: usize, paren: &Token) -> (res: RuntimeError)
    ensures
        res.message@ == arity_message(expected as nat, got as nat),
        res.line == Some(paren.line),
{
    let head = concat3("Expected ", crate::decimal_string(expected).as_str(), " arguments but got ");
    let message = concat3(head.as_str(), crate::decimal_string(got).as_str(), ".");
    assert(message@ =~= arity_message(expected as nat, got as nat));
    RuntimeError { message, line: Some(paren.line) }
}

/// Check that a callable taking `arity` arguments is given `args_len` of them.
pub fn check_arity(arity: usize, args_len: usize, paren: &Token) -> (res: Result<(), RuntimeError>)
    ensures
        arity == args_len ==> res is Ok,
        arity != args_len ==> (res matches Err(e) && e.message@ == arity_message(arity as nat, args_len as nat)
            && e.line == Some(paren.line)),
{
    if args_len != arity {
        return Err(arity_error(arity, args_len, paren));
    }
    Ok(())
}

impl Interpreter {
    pub closed spec fn envs(&self) -> Environments {
        self.envs
    }

    pub closed spec fn functions(&self) -> Seq<LoxFunction> {
        self.functions@
    }

    pub closed spec fn classes(&self) -> Seq<LoxClass> {
        self.classes@
    }

    pub closed spec fn instances(&self) -> Seq<Instance> {
        self.instances@
    }

    pub closed spec fn arrays(&self) -> Seq<Vec<Value>> {
        self.arrays@
    }

    pub closed spec fn globals(&self) -> int {
        self.globals as int
    }

    /// The environment in which statements are currently executed.
    pub closed spec fn environment(&self) -> int {
        self.environment as int
    }

    /// The resolved distance of each local variable reference, by token identity.
    pub closed spec fn locals(&self) -> Map<usize, usize> {
        self.locals@
    }

    pub closed spec fn had_error(&self) -> bool {
        self.had_runtime_error
    }

    pub closed spec fn wf(&self) -> bool {
        &&& self.envs.wf()
        &&& self.globals < self.envs.frames().len()
        &&& self.environment < self.envs.frames().len()
        &&& forall|f: int|
            0 <= f < self.functions@.len() ==> #[trigger] self.functions@[f].closure
                < self.envs.frames().len()
        &&& forall|c: int|
            0 <= c < self.classes@.len() ==> (#[trigger] self.classes@[c].superclass matches Some(s)
                ==> s < c)
        &&& forall|c: int, k: int|
            0 <= c < self.classes@.len() && 0 <= k < self.classes@[c].methods@.len()
                ==> #[trigger] self.classes@[c].methods@[k].1 < self.functions@.len()
        &&& forall|i: int|
            0 <= i < self.instances@.len() ==> #[trigger] self.instances@[i].class
                < self.classes@.len()
    }

    /// A new interpreter, whose global environment defines the native functions
    /// `clock`, `len`, `push`, `pop` and `slice`.
    pub fn new() -> (res: Self)
        ensures
            res.wf(),
            res.environment() == res.globals(),
            res.envs().frames().len() == 1,
            res.envs().frames()[res.globals()].enclosing is None,
            env_get(res.envs().frames(), res.globals(), "clock"@) == Some(Value::NativeFunction(Native::Clock)),
            env_get(res.envs().frames(), res.globals(), "len"@) == Some(Value::NativeFunction(Native::Len)),
            env_get(res.envs().frames(), res.globals(), "push"@) == Some(Value::NativeFunction(Native::Push)),
            env_get(res.envs().frames(), res.globals(), "pop"@) == Some(Value::NativeFunction(Native::Pop)),
            env_get(res.envs().frames(), res.globals(), "slice"@) == Some(Value::NativeFunction(Native::Slice)),
            forall|k: Seq<char>|
                #[trigger] entry(res.envs().frames()[res.globals()].values@, k) == native_binding(k),
            res.functions().len() == 0,
            res.classes().len() == 0,
            res.instances().len() == 0,
            res.arrays().len() == 0,
            res.locals() == Map::<usize, usize>::empty(),
            !res.had_error(),
    {
        proof {
            reveal_strlit("clock");
            reveal_strlit("len");
            reveal_strlit("push");
            reveal_strlit("pop");
            reveal_strlit("slice");
            assert("clock"@.len() == 5 && "pop"@.len() == 3 && "len"@.len() == 3);
            assert("clock"@[0] == 'c' && "slice"@[0] == 's');
            assert("len"@[0] == 'l' && "pop"@[0] == 'p' && "push"@[0] == 'p' && "slice"@[0] == 's');
        }
        let mut envs = Environments::new();
        let env = envs.new_with_enclosing(None);
        assert forall|k: Seq<char>| #[trigger] entry(envs.frames()[env as int].values@, k) is None by {
            assert(envs.frames()[env as int].values@.len() == 0);
        }
        envs.define(env, "clock".to_owned(), Some(Value::NativeFunction(Native::Clock)));
        envs.define(env, "len".to_owned(), Some(Value::NativeFunction(Native::Len)));
        envs.define(env, "push".to_owned(), Some(Value::NativeFunction(Native::Push)));
        envs.define(env, "pop".to_owned(), Some(Value::NativeFunction(Native::Pop)));
        envs.define(env, "slice".to_owned(), Some(Value::NativeFunction(Native::Slice)));
        assert forall|k: Seq<char>| #[trigger] entry(envs.frames()[env as int].values@, k) == native_binding(k) by {}
        Interpreter {
            envs,
            functions: Vec::new(),
            classes: Vec::new(),
            instances: Vec::new(),
            arrays: Vec::new(),
            globals: env,
            environment: env,
            locals: HashMap::new(),
            had_runtime_error: false,
        }
    }

    /// Record that a local variable reference (the token with identity `id`) is
    /// `depth` environments out from where it is evaluated.
    pub fn resolve(&mut self, id: usize, depth: usize)
        ensures
            final(self).locals() == old(self).locals().insert(id, depth),
            final(self).envs() == old(self).envs(),
            final(self).environment() == old(self).environment(),
            final(self).globals() == old(self).globals(),
            final(self).functions() == old(self).functions(),
            final(self).classes() == old(self).classes(),
            final(self).instances() == old(self).instances(),
            final(self).arrays() == old(self).arrays(),
            final(self).had_error() == old(self).had_error(),
            old(self).wf() ==> final(self).wf(),
    {
        self.locals.insert(id, depth);
    }

    /// The resolved distance of the local variable reference `id`, if it was resolved.
    pub fn depth_of(&self, id: usize) -> (res: Option<usize>)
        ensures
            res == if self.locals().contains_key(id) {
                Some(self.locals()[id])
            } else {
                None::<usize>
            },
    {
        match self.locals.get(&id) {
            Some(d) => Some(*d),
            None => None,
        }
    }

    /// Resolve a program: record the distance of each local variable reference, and
    /// return the reports of its static errors, if it has any.
    pub fn resolve_program(&mut self, stmts: &[Stmt]) -> (res: Result<(), Vec<Report>>)
        requires
            old(self).wf(),
            stmts_ok(stmts@),
        ensures
            final(self).wf(),
            final(self).envs() == old(self).envs(),
            final(self).environment() == old(self).environment(),
            final(self).globals() == old(self).globals(),
            final(self).functions() == old(self).functions(),
            final(self).classes() == old(self).classes(),
            final(self).instances() == old(self).instances(),
            final(self).arrays() == old(self).arrays(),
            final(self).had_error() == old(self).had_error(),
            res is Ok <==> stmts_clean(Seq::empty(), FunctionType::NoFunction, ClassType::NoClass, stmts@),
            match res {
                Ok(()) => final(self).locals() == insert_all(
                    old(self).locals(),
                    stmts_res(Seq::empty(), stmts@).1,
                ),
                Err(reports) => reports@.len() > 0,
            },
    {
        let mut resolver = Resolver::new();
        assert(resolver.scopes() =~= Seq::<Seq<(Seq<char>, SymbolState)>>::empty());
        let outcome = resolver.resolve(stmts);
        let resolved = resolver.resolved();
        assert(outcome is Ok ==> resolved@ =~= stmts_res(Seq::empty(), stmts@).1);
        let mut i: usize = 0;
        assert(resolved@.take(0) =~= Seq::<(usize, usize)>::empty());
        while i < resolved.len()
            invariant
                i <= resolved.len(),
                self.locals() == insert_all(old(self).locals(), resolved@.take(i as int)),
                self.wf(),
                self.envs() == old(self).envs(),
                self.environment() == old(self).environment(),
                self.globals() == old(self).globals(),
                self.functions() == old(self).functions(),
                self.classes() == old(self).classes(),
                self.instances() == old(self).instances(),
                self.arrays() == old(self).arrays(),
                self.had_error() == old(self).had_error(),
            decreases resolved.len() - i,
        {
            let (id, depth) = resolved[i];
            self.resolve(id, depth);
            proof {
                let done = resolved@.take(i + 1);
                assert(done.drop_last() =~= resolved@.take(i as int));
                assert(done.last() == resolved@[i as int]);
            }
            i = i + 1;
        }
        assert(resolved@.take(resolved@.len() as int) =~= resolved@);
        match outcome {
            Ok(()) => Ok(()),
            Err(()) => Err(resolver.into_reports()),
        }
    }

    /// What running a program ends with: a failure if a run-time error was recorded,
    /// `nil` otherwise.
    pub fn program_outcome(&self) -> (res: Result<Value, Signal>)
        ensures
            self.had_error() ==> reported_failure(res),
            !self.had_error() ==> res == Ok::<Value, Signal>(Value::Nil),
    {
        block_end(self.had_runtime_error)
    }

    /// Whether a run-time error has been recorded.
    pub fn had_runtime_error(&self) -> (res: bool)
        ensures
            res == self.had_error(),
    {
        self.had_runtime_error
    }

    /// Record that a run-time error happened.
    pub fn record_runtime_error(&mut self)
        ensures
            final(self).had_error(),
            final(self).envs() == old(self).envs(),
            final(self).environment() == old(self).environment(),
            final(self).globals() == old(self).globals(),
            final(self).functions() == old(self).functions(),
            final(self).classes() == old(self).classes(),
            final(self).instances() == old(self).instances(),
            final(self).arrays() == old(self).arrays(),
            final(self).locals() == old(self).locals(),
            old(self).wf() ==> final(self).wf(),
    {
        self.had_runtime_error = true;
    }

    /// How many environments there are.
    pub fn environment_count(&self) -> (res: usize)
        ensures
            res == self.envs().frames().len(),
    {
        self.envs.len()
    }

    /// The environment in which statements are currently executed.
    pub fn current_environment(&self) -> (res: usize)
        ensures
            res == self.environment(),
            self.wf() ==> res < self.envs().frames().len(),
    {
        self.environment
    }

    /// Make a new, empty environment inside `enclosing`, and return it.
    pub fn new_environment(&mut self, enclosing: usize) -> (res: usize)
        requires
            old(self).wf(),
            enclosing < old(self).envs().frames().len(),
        ensures
            final(self).wf(),
            res == old(self).envs().frames().len(),
            final(self).envs().frames().len() == old(self).envs().frames().len() + 1,
            final(self).envs().frames().drop_last() == old(self).envs().frames(),
            final(self).envs().frames()[res as int].enclosing == Some(enclosing),
            final(self).envs().frames()[res as int].values@.len() == 0,
            final(self).environment() == old(self).environment(),
            final(self).globals() == old(self).globals(),
            final(self).functions() == old(self).functions(),
            final(self).classes() == old(self).classes(),
            final(self).instances() == old(self).instances(),
            final(self).arrays() == old(self).arrays(),
            final(self).locals() == old(self).locals(),
            final(self).had_error() == old(self).had_error(),
    {
        let res = self.envs.new_with_enclosing(Some(enclosing));
        assert forall|f: int| 0 <= f < self.functions@.len() implies #[trigger] self.functions@[f].closure
            < self.envs.frames().len() by {}
        res
    }

    /// Execute in environment `env` from now on.
    pub fn set_environment(&mut self, env: usize)
        requires
            old(self).wf(),
            env < old(self).envs().frames().len(),
        ensures
            final(self).wf(),
            final(self).environment() == env,
            final(self).envs() == old(self).envs(),
            final(self).globals() == old(self).globals(),
            final(self).functions() == old(self).functions(),
            final(self).classes() == old(self).classes(),
            final(self).instances() == old(self).instances(),
            final(self).arrays() == old(self).arrays(),
            final(self).locals() == old(self).locals(),
            final(self).had_error() == old(self).had_error(),
    {
        self.environment = env;
    }

    /// Give `name` the value `value` (or declare it without one) in the current environment.
    pub fn define(&mut self, name: String, value: Option<Value>)
        requires
            old(self).wf(),
        ensures
            final(self).wf(),
            final(self).envs().frames().len() == old(self).envs().frames().len(),
            forall|e: int|
                0 <= e < old(self).envs().frames().len() && e != old(self).environment()
                    ==> #[trigger] final(self).envs().frames()[e] == old(self).envs().frames()[e],
            final(self).envs().frames()[old(self).environment()].enclosing == old(self).envs().frames()[old(self).environment()].enclosing,
            forall|k: Seq<char>|
                #[trigger] entry(final(self).envs().frames()[old(self).environment()].values@, k)
                    == if k == name@ {
                    Some(value)
                } else {
                    entry(old(self).envs().frames()[old(self).environment()].values@, k)
                },
            value matches Some(v) ==> env_get(final(self).envs().frames(), old(self).environment(), name@)
                == Some(v),
            final(self).environment() == old(self).environment(),
            final(self).globals() == old(self).globals(),
            final(self).functions() == old(self).functions(),
            final(self).classes() == old(self).classes(),
            final(self).instances() == old(self).instances(),
            final(self).arrays() == old(self).arrays(),
            final(self).locals() == old(self).locals(),
            final(self).had_error() == old(self).had_error(),
    {
        self.envs.define(self.environment, name, value);
    }

    /// The value of the variable `name`, if it has one: looked up at its resolved
    /// distance from the current environment if it is a resolved local, and among
    /// the globals otherwise.
    pub open spec fn var_value(&self, name: Token) -> Option<Value> {
        let frames = self.envs().frames();
        if self.locals().contains_key(name.id) {
            match env_ancestor(frames, self.environment(), self.locals()[name.id] as nat) {
                Some(a) => env_get(frames, a, name.lexeme@),
                None => None,
            }
        } else {
            env_get(frames, self.globals(), name.lexeme@)
        }
    }

    /// The message of a failed read of, or assignment to, the variable `name`: it names
    /// the distance when `name` is a resolved local whose chain of environments is
    /// shorter than that.
    pub open spec fn undefined_text(&self, name: Token) -> Seq<char> {
        if self.locals().contains_key(name.id) && env_ancestor(
            self.envs().frames(),
            self.environment(),
            self.locals()[name.id] as nat,
        ) is None {
            "Undefined variable '"@ + name.lexeme@ + "' at distance "@ + crate::decimal(
                self.locals()[name.id] as nat,
            ) + "."@
        } else {
            crate::environment::undefined_message(name.lexeme@)
        }
    }

    /// The value of the variable `name`: looked up at its resolved distance from the
    /// current environment if it is a resolved local, and among the globals otherwise.
    pub fn lookup_var(&self, name: &Token) -> (res: Result<Value, RuntimeError>)
        requires
            self.wf(),
        ensures
            match self.var_value(*name) {
                Some(v) => res == Ok::<Value, RuntimeError>(v),
                None => res matches Err(e) && e.line == Some(name.line) && e.message@ == self.undefined_text(
                    *name,
                ),
            },
    {
        match self.depth_of(name.id) {
            Some(distance) => self.envs.get_at(self.environment, distance, name),
            None => self.envs.get(self.globals, name),
        }
    }

    /// Assign `value` to the variable `name` (at its resolved distance if it is a
    /// resolved local, among the globals otherwise), and give back the value.
    pub fn assign_var(&mut self, name: &Token, value: Value) -> (res: Result<Value, RuntimeError>)
        requires
            old(self).wf(),
        ensures
            final(self).wf(),
            res matches Ok(v) ==> v == value,
            final(self).envs().frames().len() == old(self).envs().frames().len(),
            ({
                let frames = old(self).envs().frames();
                let start = if old(self).locals().contains_key(name.id) {
                    env_ancestor(frames, old(self).environment(), old(self).locals()[name.id] as nat)
                } else {
                    Some(old(self).globals())
                };
                match start {
                    Some(a) => match env_holder(frames, a, name.lexeme@) {
                        Some(h) => {
                            &&& res is Ok
                            &&& forall|e: int|
                                0 <= e < frames.len() && e != h ==> #[trigger] final(self).envs().frames()[e]
                                    == frames[e]
                            &&& forall|k: Seq<char>|
                                #[trigger] entry(final(self).envs().frames()[h].values@, k) == if k
                                    == name.lexeme@ {
                                    Some(Some(value))
                                } else {
                                    entry(frames[h].values@, k)
                                }
                        },
                        None => res is Err && final(self).envs().frames() == frames,
                    },
                    None => res is Err && final(self).envs().frames() == frames,
                }
            }),
            final(self).environment() == old(self).environment(),
            final(self).globals() == old(self).globals(),
            final(self).functions() == old(self).functions(),
            final(self).classes() == old(self).classes(),
            final(self).instances() == old(self).instances(),
            final(self).arrays() == old(self).arrays(),
            final(self).locals() == old(self).locals(),
            final(self).had_error() == old(self).had_error(),
            res is Ok ==> final(self).var_value(*name) == Some(value),
            res matches Err(e) ==> e.message@ == old(self).undefined_text(*name) && e.line == Some(name.line),
    {
        let result = match self.depth_of(name.id) {
            Some(distance) => self.envs.assign_at(self.environment, distance, name, value.clone()),
            None => self.envs.assign(self.globals, name, value.clone()),
        };
        proof {
            let frames = old(self).envs.frames();
            let start = if old(self).locals@.contains_key(name.id) {
                env_ancestor(frames, old(self).environment as int, old(self).locals@[name.id] as nat)
            } else {
                Some(old(self).globals as int)
            };
            if let Some(a) = start {
                if let Some(h) = env_holder(frames, a, name.lexeme@) {
                    assert forall|x: int| 0 <= x < frames.len() implies #[trigger] self.envs.frames()[x].enclosing
                        == frames[x].enclosing by {
                        if x != h {
                            assert(self.envs.frames()[x] == frames[x]);
                        }
                    }
                    if old(self).locals@.contains_key(name.id) {
                        lemma_ancestor_same_chain(
                            frames,
                            self.envs.frames(),
                            old(self).environment as int,
                            old(self).locals@[name.id] as nat,
                        );
                    }
                    assert forall|k: Seq<char>| #[trigger] entry(self.envs.frames()[h].values@, k) == if k
                        == name.lexeme@ {
                        Some(Some(value))
                    } else {
                        entry(frames[h].values@, k)
                    } by {}
                }
            }
        }
        match result {
            Ok(()) => Ok(value),
            Err(e) => Err(e),
        }
    }

    /// Declare the function `decl` in the current environment, closing over it.
    pub fn declare_function(&mut self, decl: &Function)
        requires
            old(self).wf(),
        ensures
            final(self).wf(),
            function_declared(*old(self), *final(self), *decl),
    {
        let f = LoxFunction {
            name: decl.name.lexeme.clone(),
            params: lexemes_of(&decl.params),
            body: decl.body.clone(),
            closure: self.environment,
            is_initializer: false,
        };
        let id = self.functions.len();
        self.functions.push(f);
        assert(self.functions@.drop_last() =~= old(self).functions@);
        self.envs.define(self.environment, decl.name.lexeme.clone(), Some(Value::Callable(id)));
    }

    /// The method `name` of class `c`: its own, or else its superclass's.
    pub fn find_method(&self, c: usize, name: &String) -> (res: Option<usize>)
        requires
            self.wf(),
        ensures
            res == class_method(self.classes(), c as int, name@),
            res matches Some(f) ==> f < self.functions().len(),
    {
        let mut k = c;
        loop
            invariant
                self.wf(),
                class_method(self.classes(), c as int, name@) == class_method(self.classes(), k as int, name@),
            decreases k,
        {
            if k >= self.classes.len() {
                return None;
            }
            let class = &self.classes[k];
            match find_entry(&class.methods, name) {
                Some(i) => {
                    proof {
                        lemma_last_index(class.methods@, name@);
                    }
                    return Some(class.methods[i].1);
                },
                None => {},
            }
            match class.superclass {
                Some(sup) => {
                    if sup < k {
                        k = sup;
                    } else {
                        return None;
                    }
                },
                None => {
                    return None;
                },
            }
        }
    }

    /// The number of parameters of function `f`.
    pub fn function_arity(&self, f: usize) -> (res: usize)
        requires
            f < self.functions().len(),
        ensures
            res == self.functions()[f as int].params@.len(),
    {
        self.functions[f].params.len()
    }

    /// The name of function `f`.
    pub fn function_name(&self, f: usize) -> (res: String)
        requires
            f < self.functions().len(),
        ensures
            res@ == self.functions()[f as int].name@,
    {
        self.functions[f].name.clone()
    }

    /// The body of function `f`.
    pub fn function_body(&self, f: usize) -> (res: Rc<Vec<Stmt>>)
        requires
            f < self.functions().len(),
        ensures
            res == self.functions()[f as int].body,
    {
        self.functions[f].body.clone()
    }

    /// The number of arguments that calling class `c` takes: that of its `init`
    /// method, its own or else one it inherits, or none when it has no `init`.
    pub fn class_arity(&self, c: usize) -> (res: usize)
        requires
            self.wf(),
            c < self.classes().len(),
        ensures
            res == match class_method(self.classes(), c as int, "init"@) {
                Some(f) => self.functions()[f as int].params@.len(),
                None => 0,
            },
    {
        let init = "init".to_owned();
        match self.find_method(c, &init) {
            Some(f) => self.functions[f].params.len(),
            None => 0,
        }
    }

    /// The name of class `c`.
    pub fn class_name(&self, c: usize) -> (res: String)
        requires
            c < self.classes().len(),
        ensures
            res@ == self.classes()[c as int].class_name@,
    {
        self.classes[c].class_name.clone()
    }

    /// Bind function `f` to instance `instance`: a copy of `f` whose closure is a new
    /// environment, inside `f`'s closure, where `this` is the instance.
    pub fn bind(&mut self, f: usize, instance: usize) -> (res: usize)
        requires
            old(self).wf(),
            f < old(self).functions().len(),
        ensures
            final(self).wf(),
            bound(*old(self), *final(self), f, instance, res),
            final(self).environment() == old(self).environment(),
            final(self).globals() == old(self).globals(),
            final(self).classes() == old(self).classes(),
            final(self).instances() == old(self).instances(),
            final(self).arrays() == old(self).arrays(),
            final(self).locals() == old(self).locals(),
            final(self).had_error() == old(self).had_error(),
    {
        let closure = self.functions[f].closure;
        let env = self.envs.new_with_enclosing(Some(closure));
        let ghost mid = self.envs.frames();
        self.envs.define(env, "this".to_owned(), Some(Value::Instance(instance)));
        assert(self.envs.frames().drop_last() =~= mid.drop_last());
        let g = LoxFunction {
            name: self.functions[f].name.clone(),
            params: copy_strings(&self.functions[f].params),
            body: self.functions[f].body.clone(),
            closure: env,
            is_initializer: self.functions[f].is_initializer,
        };
        let id = self.functions.len();
        self.functions.push(g);
        assert(self.functions@.drop_last() =~= old(self).functions@);
        id
    }

    /// Execute a class declaration, given the value of its superclass expression
    /// (if it names one).
    ///
    /// The superclass must be a class. The class's name is declared in the current
    /// environment; its methods close over that environment, or, when there is a
    /// superclass, over a new environment inside it where `super` is the superclass.
    /// Methods named `init` are initializers. The class is then assigned to its name.
    pub fn class_decl(&mut self, class: &Class, superclass: Option<Value>) -> (res: Result<(), RuntimeError>)
        requires
            old(self).wf(),
            stmt_ok(Stmt::Class(*class)),
            superclass is Some <==> class.superclass is Some,
        ensures
            final(self).wf(),
            final(self).environment() == old(self).environment(),
            final(self).globals() == old(self).globals(),
            final(self).instances() == old(self).instances(),
            final(self).arrays() == old(self).arrays(),
            final(self).locals() == old(self).locals(),
            (superclass matches Some(v) && !(v matches Value::Class(c) && c < old(self).classes().len()))
                ==> {
                &&& res matches Err(e) && e.message@ == "Superclass must be a class."@
                    && e.line == Some(class.superclass->0->Variable_0.line)
                &&& final(self).had_error()
                &&& final(self).functions() == old(self).functions()
                &&& final(self).classes() == old(self).classes()
                &&& final(self).envs() == old(self).envs()
            },
            (superclass matches Some(v) ==> (v matches Value::Class(c) && c < old(self).classes().len()))
                ==> res is Ok && class_declared(*old(self), *final(self), *class, superclass),
    {
        let ghost start = *self;
        let superclass_id: Option<usize> = match superclass {
            Some(value) => {
                match value {
                    Value::Class(c) => {
                        if c < self.classes.len() {
                            Some(c)
                        } else {
                            return self.superclass_error(class);
                        }
                    },
                    _ => {
                        return self.superclass_error(class);
                    },
                }
            },
            None => None,
        };
        let env = self.environment;
        self.envs.define(env, class.name.lexeme.clone(), None);
        let ghost declared = self.envs.frames();
        let mut scope = env;
        if let Some(c) = superclass_id {
            scope = self.envs.new_with_enclosing(Some(env));
            let ghost after_new = self.envs.frames();
            self.envs.define(scope, "super".to_owned(), Some(Value::Class(c)));
            assert forall|e: int| 0 <= e < declared.len() implies #[trigger] self.envs.frames()[e] == declared[e] by {
                assert(after_new[e] == after_new.drop_last()[e]);
            }
            proof {
                reveal_strlit("super");
            }
        }
        let ghost scoped = self.envs.frames();
        assert forall|e: int| 0 <= e < start.envs.frames().len() implies #[trigger] scoped[e] == if e == env {
            declared[e]
        } else {
            start.envs.frames()[e]
        } by {
            assert(scoped[e] == declared[e]);
        }
        let base = self.functions.len();
        let mut methods: Vec<(String, usize)> = Vec::new();
        let mut j: usize = 0;
        while j < class.methods.len()
            invariant
                self.envs.wf(),
                self.envs.frames() == scoped,
                self.classes@ == start.classes@,
                self.instances@ == start.instances@,
                self.arrays@ == start.arrays@,
                self.locals@ == start.locals@,
                self.environment == start.environment,
                self.globals == start.globals,
                self.had_runtime_error == start.had_runtime_error,
                scope < scoped.len(),
                base == start.functions@.len(),
                j <= class.methods.len(),
                stmt_ok(Stmt::Class(*class)),
                self.functions@.len() == base + j,
                self.functions@.subrange(0, base as int) == start.functions@,
                forall|f: int| 0 <= f < self.functions@.len() ==> #[trigger] self.functions@[f].closure < scoped.len(),
                forall|m: int| 0 <= m < methods@.len() ==> #[trigger] methods@[m].1 < self.functions@.len(),
                forall|k: Seq<char>|
                    #[trigger] entry(methods@, k) == entry(method_entries(class.methods@.take(j as int), base as int), k),
                forall|i: int|
                    0 <= i < j ==> {
                        let m = class.methods@[i]->Function_0;
                        let f = #[trigger] self.functions@[base + i];
                        &&& f.name@ == m.name.lexeme@
                        &&& texts(f.params@) == m.params@.map_values(|t: Token| t.lexeme@)
                        &&& f.body == m.body
                        &&& f.closure == scope
                        &&& f.is_initializer == (m.name.lexeme@ == "init"@)
                    },
            decreases class.methods.len() - j,
        {
            proof {
                assert(class.methods@[j as int] is Function);
            }
            match &class.methods[j] {
                Stmt::Function(decl) => {
                    let f = LoxFunction {
                        name: decl.name.lexeme.clone(),
                        params: lexemes_of(&decl.params),
                        body: decl.body.clone(),
                        closure: scope,
                        is_initializer: text_is(&decl.name.lexeme, "init"),
                    };
                    let id = self.functions.len();
                    self.functions.push(f);
                    let ghost before = methods@;
                    set_entry(&mut methods, decl.name.lexeme.clone(), id);
                    proof {
                        let pre = method_entries(class.methods@.take(j as int), base as int);
                        let post = method_entries(class.methods@.take(j + 1), base as int);
                        assert(post.drop_last() =~= pre);
                        assert forall|k: Seq<char>| #[trigger] entry(methods@, k) == entry(post, k) by {
                            lemma_last_index(pre, k);
                        }
                        assert(self.functions@.subrange(0, base as int) =~= start.functions@);
                    }
                },
                _ => {},
            }
            j = j + 1;
        }
        assert(class.methods@.take(j as int) =~= class.methods@);
        if superclass_id.is_some() {
            scope = env;
        }
        let id = self.classes.len();
        self.classes.push(LoxClass { class_name: class.name.lexeme.clone(), methods, superclass: superclass_id });
        assert(self.classes@.drop_last() =~= start.classes@);
        match self.envs.assign(env, &class.name, Value::Class(id)) {
            Ok(()) => {
                Ok(())
            },
            Err(e) => {
                self.had_runtime_error = true;
                Err(e)
            },
        }
    }

    fn superclass_error(&mut self, class: &Class) -> (res: Result<(), RuntimeError>)
        requires
            stmt_ok(Stmt::Class(*class)),
            class.superclass is Some,
        ensures
            res matches Err(e) && e.message@ == "Superclass must be a class."@ && e.line == Some(
                class.superclass->0->Variable_0.line,
            ),
            final(self).had_error(),
            final(self).envs == old(self).envs,
            final(self).functions == old(self).functions,
            final(self).classes == old(self).classes,
            final(self).instances == old(self).instances,
            final(self).arrays == old(self).arrays,
            final(self).locals == old(self).locals,
            final(self).environment == old(self).environment,
            final(self).globals == old(self).globals,
    {
        let msg = "Superclass must be a class.";
        self.had_runtime_error = true;
        match &class.superclass {
            Some(Expr::Variable(token)) => Err(runtime_error(Some(token), msg)),
            _ => {
                proof {
                    assert(false);
                }
                Err(runtime_error(None, msg))
            },
        }
    }

    /// A new instance of class `c`, without fields.
    pub fn instantiate(&mut self, c: usize) -> (res: usize)
        requires
            old(self).wf(),
            c < old(self).classes().len(),
        ensures
            final(self).wf(),
            res == old(self).instances().len(),
            final(self).instances().len() == old(self).instances().len() + 1,
            final(self).instances().drop_last() == old(self).instances(),
            final(self).instances()[res as int].class == c,
            final(self).instances()[res as int].fields@.len() == 0,
            final(self).envs() == old(self).envs(),
            final(self).environment() == old(self).environment(),
            final(self).globals() == old(self).globals(),
            final(self).functions() == old(self).functions(),
            final(self).classes() == old(self).classes(),
            final(self).arrays() == old(self).arrays(),
            final(self).locals() == old(self).locals(),
            final(self).had_error() == old(self).had_error(),
    {
        let id = self.instances.len();
        self.instances.push(Instance { class: c, fields: Vec::new() });
        assert(self.instances@.drop_last() =~= old(self).instances@);
        id
    }

    /// The property `name` of instance `i`: a field, or else a method of its class
    /// bound to the instance.
    pub fn instance_get(&mut self, i: usize, name: &Token) -> (res: Option<Value>)
        requires
            old(self).wf(),
            i < old(self).instances().len(),
        ensures
            final(self).wf(),
            final(self).environment() == old(self).environment(),
            final(self).globals() == old(self).globals(),
            final(self).classes() == old(self).classes(),
            final(self).instances() == old(self).instances(),
            final(self).arrays() == old(self).arrays(),
            final(self).locals() == old(self).locals(),
            final(self).had_error() == old(self).had_error(),
            match entry(old(self).instances()[i as int].fields@, name.lexeme@) {
                Some(v) => res == Some(v) && final(self).functions() == old(self).functions()
                    && final(self).envs() == old(self).envs(),
                None => match class_method(
                    old(self).classes(),
                    old(self).instances()[i as int].class as int,
                    name.lexeme@,
                ) {
                    Some(f) => {
                        &&& res == Some(Value::Callable(old(self).functions().len() as usize))
                        &&& bound(*old(self), *final(self), f, i, old(self).functions().len() as usize)
                    },
                    None => res is None && final(self).functions() == old(self).functions()
                        && final(self).envs() == old(self).envs(),
                },
            },
    {
        match find_entry(&self.instances[i].fields, &name.lexeme) {
            Some(k) => {
                proof {
                    lemma_last_index(self.instances[i as int].fields@, name.lexeme@);
                }
                return Some(self.instances[i].fields[k].1.clone());
            },
            None => {},
        }
        let class = self.instances[i].class;
        if let Some(method) = self.find_method(class, &name.lexeme) {
            let bound = self.bind(method, i);
            return Some(Value::Callable(bound));
        }
        if let Some(superclass) = self.classes[class].superclass {
            if let Some(method) = self.find_method(superclass, &name.lexeme) {
                let bound = self.bind(method, i);
                return Some(Value::Callable(bound));
            }
        }
        None
    }

    /// The value of a property expression `object.name`.
    pub fn get_property(&mut self, object: &Value, name: &Token) -> (res: Result<Value, RuntimeError>)
        requires
            old(self).wf(),
        ensures
            final(self).wf(),
            final(self).environment() == old(self).environment(),
            final(self).globals() == old(self).globals(),
            final(self).classes() == old(self).classes(),
            final(self).instances() == old(self).instances(),
            final(self).arrays() == old(self).arrays(),
            final(self).locals() == old(self).locals(),
            match *object {
                Value::Instance(i) if i < old(self).instances().len() => {
                    match entry(old(self).instances()[i as int].fields@, name.lexeme@) {
                        Some(v) => res == Ok::<Value, RuntimeError>(v) && final(self).had_error() == old(self).had_error(),
                        None => match class_method(
                            old(self).classes(),
                            old(self).instances()[i as int].class as int,
                            name.lexeme@,
                        ) {
                            Some(f) => res == Ok::<Value, RuntimeError>(Value::Callable(old(self).functions().len() as usize))
                                && final(self).had_error() == old(self).had_error()
                                && bound(*old(self), *final(self), f, i, old(self).functions().len() as usize),
                            None => res matches Err(e) && e.message@ == "Undefined property '"@ + name.lexeme@
                                + "'."@ && e.line == Some(name.line) && final(self).had_error(),
                        },
                    }
                },
                _ => res matches Err(e) && e.message@ == "Only instances have properties."@ && e.line
                    == Some(name.line) && final(self).had_error(),
            },
    {
        match object {
            Value::Instance(i) => {
                if *i < self.instances.len() {
                    match self.instance_get(*i, name) {
                        Some(value) => Ok(value),
                        None => {
                            let msg = concat3("Undefined property '", name.lexeme.as_str(), "'.");
                            self.had_runtime_error = true;
                            Err(runtime_error(Some(name), msg.as_str()))
                        },
                    }
                } else {
                    self.had_runtime_error = true;
                    Err(runtime_error(Some(name), "Only instances have properties."))
                }
            },
            _ => {
                self.had_runtime_error = true;
                Err(runtime_error(Some(name), "Only instances have properties."))
            },
        }
    }

    /// The instance whose field `name` a set expression assigns.
    pub fn instance_for_set(&mut self, object: &Value, name: &Token) -> (res: Result<usize, RuntimeError>)
        ensures
            final(self).envs() == old(self).envs(),
            final(self).environment() == old(self).environment(),
            final(self).globals() == old(self).globals(),
            final(self).functions() == old(self).functions(),
            final(self).classes() == old(self).classes(),
            final(self).instances() == old(self).instances(),
            final(self).arrays() == old(self).arrays(),
            final(self).locals() == old(self).locals(),
            old(self).wf() ==> final(self).wf(),
            match *object {
                Value::Instance(i) if i < old(self).instances().len() => res == Ok::<usize, RuntimeError>(i)
                    && final(self).had_error() == old(self).had_error(),
                _ => res matches Err(e) && e.message@ == "Only instances have fields."@ && e.line
                    == Some(name.line) && final(self).had_error(),
            },
    {
        if let Value::Instance(i) = object {
            if *i < self.instances.len() {
                return Ok(*i);
            }
        }
        self.had_runtime_error = true;
        Err(runtime_error(Some(name), "Only instances have fields."))
    }

    /// Set the field `name` of instance `i` to `value`.
    pub fn set_field(&mut self, i: usize, name: &Token, value: Value)
        requires
            old(self).wf(),
            i < old(self).instances().len(),
        ensures
            final(self).wf(),
            final(self).instances().len() == old(self).instances().len(),
            forall|j: int|
                0 <= j < old(self).instances().len() && j != i ==> #[trigger] final(self).instances()[j]
                    == old(self).instances()[j],
            final(self).instances()[i as int].class == old(self).instances()[i as int].class,
            forall|k: Seq<char>|
                #[trigger] entry(final(self).instances()[i as int].fields@, k) == if k == name.lexeme@ {
                    Some(value)
                } else {
                    entry(old(self).instances()[i as int].fields@, k)
                },
            entry(final(self).instances()[i as int].fields@, name.lexeme@) == Some(value),
            final(self).envs() == old(self).envs(),
            final(self).environment() == old(self).environment(),
            final(self).globals() == old(self).globals(),
            final(self).functions() == old(self).functions(),
            final(self).classes() == old(self).classes(),
            final(self).arrays() == old(self).arrays(),
            final(self).locals() == old(self).locals(),
            final(self).had_error() == old(self).had_error(),
    {
        let mut instance = Instance { class: 0, fields: Vec::new() };
        self.instances.set_and_swap(i, &mut instance);
        set_entry(&mut instance.fields, name.lexeme.clone(), value);
        self.instances.set(i, instance);
    }

    /// What a value in callee position calls; only functions and classes can be called.
    pub fn callee(&mut self, value: &Value, paren: &Token) -> (res: Result<Callee, RuntimeError>)
        ensures
            final(self).envs() == old(self).envs(),
            final(self).environment() == old(self).environment(),
            final(self).globals() == old(self).globals(),
            final(self).functions() == old(self).functions(),
            final(self).classes() == old(self).classes(),
            final(self).instances() == old(self).instances(),
            final(self).arrays() == old(self).arrays(),
            final(self).locals() == old(self).locals(),
            old(self).wf() ==> final(self).wf(),
            match *value {
                Value::Callable(f) if f < old(self).functions().len() => res == Ok::<Callee, RuntimeError>(Callee::Function(f))
                    && final(self).had_error() == old(self).had_error(),
                Value::Class(c) if c < old(self).classes().len() => res == Ok::<Callee, RuntimeError>(Callee::Class(c))
                    && final(self).had_error() == old(self).had_error(),
                Value::NativeFunction(n) => res == Ok::<Callee, RuntimeError>(Callee::Native(n))
                    && final(self).had_error() == old(self).had_error(),
                _ => res matches Err(e) && e.message@ == "Can only call functions and classes."@
                    && e.line == Some(paren.line) && final(self).had_error(),
            },
    {
        match value {
            Value::Callable(f) => {
                if *f < self.functions.len() {
                    return Ok(Callee::Function(*f));
                }
            },
            Value::Class(c) => {
                if *c < self.classes.len() {
                    return Ok(Callee::Class(*c));
                }
            },
            Value::NativeFunction(n) => {
                return Ok(Callee::Native(*n));
            },
            _ => {},
        }
        self.had_runtime_error = true;
        Err(runtime_error(Some(paren), "Can only call functions and classes."))
    }

    /// Start a call of function `f` with `args`: check the number of arguments, and
    /// give back a new environment, inside the function's closure, where each
    /// parameter is bound to its argument. The function's body is to be executed there.
    pub fn begin_call(&mut self, f: usize, args: &Vec<Value>, paren: &Token) -> (res: Result<usize, RuntimeError>)
        requires
            old(self).wf(),
            f < old(self).functions().len(),
        ensures
            final(self).wf(),
            final(self).environment() == old(self).environment(),
            final(self).globals() == old(self).globals(),
            final(self).functions() == old(self).functions(),
            final(self).classes() == old(self).classes(),
            final(self).instances() == old(self).instances(),
            final(self).arrays() == old(self).arrays(),
            final(self).locals() == old(self).locals(),
            final(self).had_error() == old(self).had_error(),
            args@.len() != old(self).functions()[f as int].params@.len() ==> {
                &&& res matches Err(e) && e.message@ == arity_message(
                    old(self).functions()[f as int].params@.len(),
                    args@.len(),
                ) && e.line == Some(paren.line)
                &&& final(self).envs() == old(self).envs()
            },
            args@.len() == old(self).functions()[f as int].params@.len() ==> {
                let params = old(self).functions()[f as int].params@;
                &&& res == Ok::<usize, RuntimeError>(old(self).envs().frames().len() as usize)
                &&& final(self).envs().frames().len() == old(self).envs().frames().len() + 1
                &&& final(self).envs().frames().drop_last() == old(self).envs().frames()
                &&& final(self).envs().frames().last().enclosing == Some(old(self).functions()[f as int].closure)
                &&& forall|k: Seq<char>|
                    #[trigger] entry(final(self).envs().frames().last().values@, k)
                        == entry(params.zip_with(args@.map_values(|v: Value| Some(v))), k)
            },
    {
        let n = self.functions[f].params.len();
        if args.len() != n {
            return Err(arity_error(n, args.len(), paren));
        }
        let closure = self.functions[f].closure;
        let env = self.envs.new_with_enclosing(Some(closure));
        let ghost fresh = self.envs.frames();
        let ghost pairs = self.functions@[f as int].params@.zip_with(args@.map_values(|v: Value| Some(v)));
        let mut i: usize = 0;
        while i < n
            invariant
                self.wf(),
                self.functions@ == old(self).functions@,
                self.classes@ == old(self).classes@,
                self.instances@ == old(self).instances@,
                self.arrays@ == old(self).arrays@,
                self.locals@ == old(self).locals@,
                self.environment == old(self).environment,
                self.globals == old(self).globals,
                self.had_runtime_error == old(self).had_runtime_error,
                f < self.functions@.len(),
                n == self.functions@[f as int].params@.len() == args@.len(),
                env == old(self).envs.frames().len(),
                i <= n,
                pairs == self.functions@[f as int].params@.zip_with(args@.map_values(|v: Value| Some(v))),
                self.envs.frames().len() == fresh.len(),
                self.envs.frames().drop_last() == old(self).envs.frames(),
                self.envs.frames().last().enclosing == Some(closure),
                forall|k: Seq<char>|
                    #[trigger] entry(self.envs.frames().last().values@, k) == entry(pairs.take(i as int), k),
            decreases n - i,
        {
            let ghost before = self.envs.frames();
            let name = self.functions[f].params[i].clone();
            self.envs.define(env, name, Some(args[i].clone()));
            proof {
                assert(self.envs.frames().drop_last() =~= before.drop_last());
                assert(pairs.take(i + 1).drop_last() =~= pairs.take(i as int));
                assert forall|k: Seq<char>| #[trigger] entry(self.envs.frames().last().values@, k)
                    == entry(pairs.take(i + 1), k) by {
                    lemma_last_index(pairs.take(i as int), k);
                }
            }
            i = i + 1;
        }
        assert(pairs.take(n as int) =~= pairs);
        Ok(env)
    }

    /// Finish a call of function `f`, given the value that its body returned (if it
    /// returned one): an initializer gives back the instance it initialized (`this`
    /// in its closure), any other function the returned value, or `nil`.
    pub fn end_call(&self, f: usize, returned: Option<Value>) -> (res: Result<Value, RuntimeError>)
        requires
            self.wf(),
            f < self.functions().len(),
        ensures
            self.call_ends(f, returned, res),
    {
        if self.functions[f].is_initializer {
            let this_token = Token::new(TokenType::This, "this".to_owned(), None, 0, 0);
            self.envs.get_at(self.functions[f].closure, 0, &this_token)
        } else {
            match returned {
                Some(v) => Ok(v),
                None => Ok(Value::Nil),
            }
        }
    }

    /// Whether `res` is what a call of function `f` gives back when its body returned
    /// `returned` (if it returned a value): an initializer gives back the instance it
    /// initialized (`this` in its closure), any other function the returned value, or
    /// `nil`.
    pub open spec fn call_ends(&self, f: usize, returned: Option<Value>, res: Result<Value, RuntimeError>) -> bool {
        if self.functions()[f as int].is_initializer {
            match env_get(self.envs().frames(), self.functions()[f as int].closure as int, "this"@) {
                Some(v) => res == Ok::<Value, RuntimeError>(v),
                None => res is Err,
            }
        } else {
            res == Ok::<Value, RuntimeError>(
                match returned {
                    Some(v) => v,
                    None => Value::Nil,
                },
            )
        }
    }

    /// Finish a call of function `f` whose body ended with `outcome`: a body that ran
    /// to its end returns nothing, a `return` returns its value (see `end_call`), and
    /// a failure of the body is the failure of the call.
    pub fn finish_call(&self, f: usize, outcome: Result<Value, Signal>) -> (res: Result<Value, RuntimeError>)
        requires
            self.wf(),
            f < self.functions().len(),
        ensures
            match outcome {
                Ok(_) => self.call_ends(f, None, res),
                Err(Signal::Return(v)) => self.call_ends(f, Some(v), res),
                Err(Signal::RuntimeError(e)) => res == Err::<Value, RuntimeError>(e),
                Err(Signal::ResolveError) => res matches Err(e) && e.message@.len() == 0 && e.line is None,
            },
    {
        match outcome {
            Ok(_) => self.end_call(f, None),
            Err(Signal::Return(value)) => self.end_call(f, Some(value)),
            Err(Signal::RuntimeError(e)) => Err(e),
            Err(Signal::ResolveError) => Err(reported_error()),
        }
    }

    /// Start a call of class `c` with `args_len` arguments: make a new instance, and
    /// give back its initializer bound to it, if the class has one (which is then to
    /// be called with the arguments); without one, no argument may be given.
    pub fn begin_class_call(&mut self, c: usize, args_len: usize, paren: &Token) -> (res: Result<(usize, Option<usize>), RuntimeError>)
        requires
            old(self).wf(),
            c < old(self).classes().len(),
        ensures
            final(self).wf(),
            final(self).environment() == old(self).environment(),
            final(self).globals() == old(self).globals(),
            final(self).classes() == old(self).classes(),
            final(self).arrays() == old(self).arrays(),
            final(self).locals() == old(self).locals(),
            final(self).had_error() == old(self).had_error(),
            final(self).instances().len() == old(self).instances().len() + 1,
            final(self).instances().drop_last() == old(self).instances(),
            final(self).instances().last().class == c,
            final(self).instances().last().fields@.len() == 0,
            match class_method(old(self).classes(), c as int, "init"@) {
                Some(init) => res == Ok::<(usize, Option<usize>), RuntimeError>(
                    (old(self).instances().len() as usize, Some(old(self).functions().len() as usize)),
                ) && bound(
                    *old(self),
                    *final(self),
                    init,
                    old(self).instances().len() as usize,
                    old(self).functions().len() as usize,
                ),
                None => final(self).functions() == old(self).functions() && if args_len
                    == 0 {
                    res == Ok::<(usize, Option<usize>), RuntimeError>(
                        (old(self).instances().len() as usize, None),
                    )
                } else {
                    res matches Err(e) && e.message@ == arity_message(0, args_len as nat)
                },
            },
    {
        let instance = self.instantiate(c);
        let init = "init".to_owned();
        proof {
            reveal_strlit("init");
        }
        match self.find_method(c, &init) {
            Some(method) => {
                let bound = self.bind(method, instance);
                Ok((instance, Some(bound)))
            },
            None => {
                let arity = self.class_arity(c);
                if args_len != arity {
                    return Err(arity_error(arity, args_len, paren));
                }
                Ok((instance, None))
            },
        }
    }

    /// A new array holding `values`.
    pub fn new_array(&mut self, values: Vec<Value>) -> (res: Value)
        requires
            old(self).wf(),
        ensures
            final(self).wf(),
            res == Value::Array(old(self).arrays().len() as usize),
            final(self).arrays() == old(self).arrays().push(values),
            final(self).envs() == old(self).envs(),
            final(self).environment() == old(self).environment(),
            final(self).globals() == old(self).globals(),
            final(self).functions() == old(self).functions(),
            final(self).classes() == old(self).classes(),
            final(self).instances() == old(self).instances(),
            final(self).locals() == old(self).locals(),
            final(self).had_error() == old(self).had_error(),
    {
        let id = self.arrays.len();
        self.arrays.push(values);
        Value::Array(id)
    }

    /// The elements of array `a`.
    pub fn array_elements(&self, a: usize) -> (res: &Vec<Value>)
        requires
            a < self.arrays().len(),
        ensures
            *res == self.arrays()[a as int],
    {
        &self.arrays[a]
    }

    /// The number of arrays made so far.
    pub fn array_count(&self) -> (res: usize)
        ensures
            res == self.arrays().len(),
    {
        self.arrays.len()
    }

    /// Check a Lox number used as an index into an array of length `len`.
    fn array_index(&mut self, idx: WholeNumber, len: usize, bracket: &Token) -> (res: Result<usize, RuntimeError>)
        ensures
            final(self).envs == old(self).envs,
            final(self).functions == old(self).functions,
            final(self).classes == old(self).classes,
            final(self).instances == old(self).instances,
            final(self).arrays == old(self).arrays,
            final(self).locals == old(self).locals,
            final(self).environment == old(self).environment,
            final(self).globals == old(self).globals,
            match idx {
                WholeNumber::Whole(i) if i < len => res == Ok::<usize, RuntimeError>(i)
                    && final(self).had_runtime_error == old(self).had_runtime_error,
                _ => res matches Err(e) && e.message@ == index_message(idx) && e.line == Some(bracket.line)
                    && final(self).had_runtime_error,
            },
    {
        let msg = match idx {
            WholeNumber::NotANumber => "Array index must be a number.",
            WholeNumber::NotWhole => "Array index must be a non-negative integer.",
            WholeNumber::Whole(i) => {
                if i < len {
                    return Ok(i);
                }
                "Array index out of bounds."
            },
        };
        self.had_runtime_error = true;
        Err(runtime_error(Some(bracket), msg))
    }

    /// The value of an index expression `object[idx]`.
    pub fn index(&mut self, object: &Value, idx: WholeNumber, bracket: &Token) -> (res: Result<Value, RuntimeError>)
        requires
            old(self).wf(),
        ensures
            final(self).wf(),
            final(self).envs() == old(self).envs(),
            final(self).environment() == old(self).environment(),
            final(self).globals() == old(self).globals(),
            final(self).functions() == old(self).functions(),
            final(self).classes() == old(self).classes(),
            final(self).instances() == old(self).instances(),
            final(self).arrays() == old(self).arrays(),
            final(self).locals() == old(self).locals(),
            match *object {
                Value::Array(a) if a < old(self).arrays().len() => match idx {
                    WholeNumber::Whole(i) if i < old(self).arrays()[a as int]@.len() => res
                        == Ok::<Value, RuntimeError>(old(self).arrays()[a as int]@[i as int])
                        && final(self).had_error() == old(self).had_error(),
                    _ => res matches Err(e) && e.message@ == index_message(idx) && final(self).had_error(),
                },
                _ => res matches Err(e) && e.message@ == "Can only index into arrays."@ && e.line
                    == Some(bracket.line) && final(self).had_error(),
            },
    {
        match object {
            Value::Array(a) => {
                if *a < self.arrays.len() {
                    let len = self.arrays[*a].len();
                    let i = self.array_index(idx, len, bracket)?;
                    return Ok(self.arrays[*a][i].clone());
                }
            },
            _ => {},
        }
        self.had_runtime_error = true;
        Err(runtime_error(Some(bracket), "Can only index into arrays."))
    }

    /// Execute an index assignment `object[idx] = value`, and give back the value.
    pub fn index_set(&mut self, object: &Value, idx: WholeNumber, value: Value, bracket: &Token) -> (res: Result<Value, RuntimeError>)
        requires
            old(self).wf(),
        ensures
            final(self).wf(),
            final(self).envs() == old(self).envs(),
            final(self).environment() == old(self).environment(),
            final(self).globals() == old(self).globals(),
            final(self).functions() == old(self).functions(),
            final(self).classes() == old(self).classes(),
            final(self).instances() == old(self).instances(),
            final(self).locals() == old(self).locals(),
            match *object {
                Value::Array(a) if a < old(self).arrays().len() => match idx {
                    WholeNumber::Whole(i) if i < old(self).arrays()[a as int]@.len() => {
                        &&& res == Ok::<Value, RuntimeError>(value)
                        &&& final(self).had_error() == old(self).had_error()
                        &&& final(self).arrays().len() == old(self).arrays().len()
                        &&& forall|b: int|
                            0 <= b < old(self).arrays().len() && b != a ==> #[trigger] final(self).arrays()[b]
                                == old(self).arrays()[b]
                        &&& final(self).arrays()[a as int]@ == old(self).arrays()[a as int]@.update(i as int, value)
                        &&& final(self).arrays()[a as int]@[i as int] == value
                    },
                    _ => res matches Err(e) && e.message@ == index_message(idx) && final(self).had_error()
                        && final(self).arrays() == old(self).arrays(),
                },
                _ => res matches Err(e) && e.message@ == "Can only index into arrays."@ && e.line
                    == Some(bracket.line) && final(self).had_error() && final(self).arrays() == old(self).arrays(),
            },
    {
        match object {
            Value::Array(a) => {
                if *a < self.arrays.len() {
                    let len = self.arrays[*a].len();
                    let i = self.array_index(idx, len, bracket)?;
                    let mut elements: Vec<Value> = Vec::new();
                    self.arrays.set_and_swap(*a, &mut elements);
                    elements.set(i, value.clone());
                    self.arrays.set(*a, elements);
                    return Ok(value);
                }
            },
            _ => {},
        }
        self.had_runtime_error = true;
        Err(runtime_error(Some(bracket), "Can only index into arrays."))
    }

    /// The array that a value is, if it is one.
    fn array_arg(&self, v: &Value) -> (res: Option<usize>)
        ensures
            res == if v matches Value::Array(a) && a < self.arrays@.len() {
                Some(v->Array_0)
            } else {
                None::<usize>
            },
    {
        match v {
            Value::Array(a) => {
                if *a < self.arrays.len() {
                    Some(*a)
                } else {
                    None
                }
            },
            _ => None,
        }
    }

    /// A copy of the elements `start..end` of array `a`.
    fn copy_range(&self, a: usize, start: usize, end: usize) -> (res: Vec<Value>)
        requires
            a < self.arrays@.len(),
            start <= end <= self.arrays@[a as int]@.len(),
        ensures
            res@ == self.arrays@[a as int]@.subrange(start as int, end as int),
    {
        let mut sliced: Vec<Value> = Vec::new();
        let mut k = start;
        while k < end
            invariant
                start <= k <= end <= self.arrays@[a as int]@.len(),
                a < self.arrays@.len(),
                sliced@ == self.arrays@[a as int]@.subrange(start as int, k as int),
            decreases end - k,
        {
            sliced.push(self.arrays[a][k].clone());
            assert(sliced@ =~= self.arrays@[a as int]@.subrange(start as int, k + 1));
            k = k + 1;
        }
        sliced
    }

    /// Call native function `native` with `args`, where `wholes[i]` says what
    /// `args[i]` is as a whole number.
    ///
    /// `clock` asks for the time; `len(a)` gives the length of array `a`; `push(a, v)`
    /// appends `v` to `a`; `pop(a)` removes and gives back the last element of `a`;
    /// `slice(a, start, end)` gives a new array holding `a[start..end]`.
    pub fn call_native(
        &mut self,
        native: Native,
        args: &Vec<Value>,
        wholes: &Vec<WholeNumber>,
        paren: &Token,
    ) -> (res: Result<NativeOutcome, RuntimeError>)
        requires
            old(self).wf(),
            wholes@.len() == args@.len(),
        ensures
            final(self).wf(),
            final(self).envs() == old(self).envs(),
            final(self).environment() == old(self).environment(),
            final(self).globals() == old(self).globals(),
            final(self).functions() == old(self).functions(),
            final(self).classes() == old(self).classes(),
            final(self).instances() == old(self).instances(),
            final(self).locals() == old(self).locals(),
            final(self).had_error() == old(self).had_error(),
            args@.len() != native_arity(native) ==> (res matches Err(e) && e.message@ == arity_message(
                native_arity(native) as nat,
                args@.len(),
            ) && final(self).arrays() == old(self).arrays()),
            args@.len() == native_arity(native) ==> native_result(old(self).arrays(), final(self).arrays(), native, args@, wholes@, res),
    {
        check_arity(native_arity_of(native), args.len(), paren)?;
        let array = if args.len() > 0 {
            self.array_arg(&args[0])
        } else {
            None
        };
        match native {
            Native::Clock => Ok(NativeOutcome::Time),
            Native::Len => match array {
                Some(a) => Ok(NativeOutcome::Length(self.arrays[a].len())),
                None => Err(runtime_error(Some(paren), "Argument to 'len' must be an array.")),
            },
            Native::Push => match array {
                Some(a) => {
                    let mut elements: Vec<Value> = Vec::new();
                    self.arrays.set_and_swap(a, &mut elements);
                    elements.push(args[1].clone());
                    self.arrays.set(a, elements);
                    Ok(NativeOutcome::Value(Value::Nil))
                },
                None => Err(runtime_error(Some(paren), "First argument to 'push' must be an array.")),
            },
            Native::Pop => match array {
                Some(a) => {
                    if self.arrays[a].len() == 0 {
                        return Err(runtime_error(Some(paren), "Cannot pop from an empty array."));
                    }
                    let mut elements: Vec<Value> = Vec::new();
                    self.arrays.set_and_swap(a, &mut elements);
                    let popped = elements.pop().unwrap();
                    self.arrays.set(a, elements);
                    Ok(NativeOutcome::Value(popped))
                },
                None => Err(runtime_error(Some(paren), "Argument to 'pop' must be an array.")),
            },
            Native::Slice => match array {
                Some(a) => {
                    let len = self.arrays[a].len();
                    let start = slice_bound(wholes[1], paren)?;
                    let end = slice_bound(wholes[2], paren)?;
                    if start > end || end > len {
                        return Err(runtime_error(Some(paren), "Slice bounds out of range."));
                    }
                    let sliced = self.copy_range(a, start, end);
                    let id = self.arrays.len();
                    self.arrays.push(sliced);
                    assert(self.arrays@.drop_last() =~= old(self).arrays@);
                    Ok(NativeOutcome::Value(Value::Array(id)))
                },
                None => Err(runtime_error(Some(paren), "First argument to 'slice' must be an array.")),
            },
        }
    }

    /// Whether two values are equal in Lox. Two numbers compare as floats, which the
    /// library leaves to its caller, so they are not asked here.
    pub fn equal(&self, a: &Value, b: &Value) -> (res: bool)
        requires
            !(a is Number && b is Number),
        ensures
            res == equal_values(self.classes(), *a, *b),
    {
        match (a, b) {
            (Value::Bool(x), Value::Bool(y)) => *x == *y,
            (Value::String(x), Value::String(y)) => *x == *y,
            (Value::Nil, Value::Nil) => true,
            (Value::Callable(f), Value::Callable(g)) => *f == *g,
            (Value::Class(x), Value::Class(y)) => {
                if *x < self.classes.len() && *y < self.classes.len() {
                    self.classes[*x].class_name == self.classes[*y].class_name
                } else {
                    *x == *y
                }
            },
            (Value::Instance(x), Value::Instance(y)) => *x == *y,
            (Value::Array(x), Value::Array(y)) => *x == *y,
            _ => false,
        }
    }

    /// Apply a binary operator to two values. Arithmetic and comparison apply to
    /// two numbers (and are left, as an operation on their bits, to the caller);
    /// `+` also joins two strings; `==` and `!=` apply to any two values.
    pub fn binary(&mut self, operator: &Token, left: &Value, right: &Value) -> (res: Result<BinaryOutcome, RuntimeError>)
        requires
            is_binary_operator(operator.token_type),
        ensures
            final(self).envs() == old(self).envs(),
            final(self).environment() == old(self).environment(),
            final(self).globals() == old(self).globals(),
            final(self).functions() == old(self).functions(),
            final(self).classes() == old(self).classes(),
            final(self).instances() == old(self).instances(),
            final(self).arrays() == old(self).arrays(),
            final(self).locals() == old(self).locals(),
            old(self).wf() ==> final(self).wf(),
            res is Ok ==> final(self).had_error() == old(self).had_error(),
            res is Err ==> final(self).had_error(),
            match (*left, *right) {
                (Value::Number(a), Value::Number(b)) => if operator.token_type == TokenType::Slash && is_zero_bits(
                    b,
                ) {
                    res matches Err(e) && e.message@ == "Division by zero."@ && e.line == Some(operator.line)
                } else {
                    res matches Ok(BinaryOutcome::Numeric(op, x, y)) && op == numeric_op(operator.token_type) && x
                        == a && y == b
                },
                (Value::String(a), Value::String(b)) if operator.token_type == TokenType::Plus => res matches Ok(
                    BinaryOutcome::Value(Value::String(s)),
                ) && s@ == a@ + b@,
                _ => if operator.token_type == TokenType::EqualEqual {
                    res == Ok::<BinaryOutcome, RuntimeError>(
                        BinaryOutcome::Value(Value::Bool(equal_values(old(self).classes(), *left, *right))),
                    )
                } else if operator.token_type == TokenType::BangEqual {
                    res == Ok::<BinaryOutcome, RuntimeError>(
                        BinaryOutcome::Value(Value::Bool(!equal_values(old(self).classes(), *left, *right))),
                    )
                } else if operator.token_type == TokenType::Plus {
                    res matches Err(e) && e.message@ == "Operands must be two numbers or two strings."@
                        && e.line == Some(operator.line)
                } else {
                    res matches Err(e) && e.message@ == "Operands must be numbers."@ && e.line == Some(
                        operator.line,
                    )
                },
            },
    {
        let t = operator.token_type;
        if let (Value::Number(a), Value::Number(b)) = (left, right) {
            if t == TokenType::Slash && (*b == 0 || *b == 0x8000_0000) {
                self.had_runtime_error = true;
                return Err(runtime_error(Some(operator), "Division by zero."));
            }
            let op = match t {
                TokenType::Minus => NumericOp::Subtract,
                TokenType::Slash => NumericOp::Divide,
                TokenType::Star => NumericOp::Multiply,
                TokenType::Plus => NumericOp::Add,
                TokenType::Greater => NumericOp::Greater,
                TokenType::GreaterEqual => NumericOp::GreaterEqual,
                TokenType::Less => NumericOp::Less,
                TokenType::LessEqual => NumericOp::LessEqual,
                TokenType::BangEqual => NumericOp::NotEqual,
                _ => NumericOp::Equal,
            };
            return Ok(BinaryOutcome::Numeric(op, *a, *b));
        }
        if t == TokenType::Plus {
            if let (Value::String(a), Value::String(b)) = (left, right) {
                return Ok(BinaryOutcome::Value(Value::String(crate::concat2(a.as_str(), b.as_str()))));
            }
            self.had_runtime_error = true;
            return Err(runtime_error(Some(operator), "Operands must be two numbers or two strings."));
        }
        if t == TokenType::EqualEqual {
            return Ok(BinaryOutcome::Value(Value::Bool(self.equal(left, right))));
        }
        if t == TokenType::BangEqual {
            return Ok(BinaryOutcome::Value(Value::Bool(!self.equal(left, right))));
        }
        self.had_runtime_error = true;
        Err(runtime_error(Some(operator), "Operands must be numbers."))
    }

    /// Apply a unary operator (`-` or `!`) to a value.
    pub fn unary(&mut self, operator: &Token, right: &Value) -> (res: Result<UnaryOutcome, RuntimeError>)
        requires
            operator.token_type == TokenType::Minus || operator.token_type == TokenType::Bang,
        ensures
            final(self).envs() == old(self).envs(),
            final(self).environment() == old(self).environment(),
            final(self).globals() == old(self).globals(),
            final(self).functions() == old(self).functions(),
            final(self).classes() == old(self).classes(),
            final(self).instances() == old(self).instances(),
            final(self).arrays() == old(self).arrays(),
            final(self).locals() == old(self).locals(),
            old(self).wf() ==> final(self).wf(),
            operator.token_type == TokenType::Bang ==> res == Ok::<UnaryOutcome, RuntimeError>(
                UnaryOutcome::Value(Value::Bool(!truthy(*right))),
            ) && final(self).had_error() == old(self).had_error(),
            operator.token_type == TokenType::Minus ==> match *right {
                Value::Number(n) => res == Ok::<UnaryOutcome, RuntimeError>(UnaryOutcome::Negate(n))
                    && final(self).had_error() == old(self).had_error(),
                _ => res matches Err(e) && e.message@ == "Operand must be a number."@ && e.line == Some(
                    operator.line,
                ) && final(self).had_error(),
            },
    {
        if operator.token_type == TokenType::Bang {
            return Ok(UnaryOutcome::Value(Value::Bool(!is_truthy(right))));
        }
        match right {
            Value::Number(n) => Ok(UnaryOutcome::Negate(*n)),
            _ => {
                self.had_runtime_error = true;
                Err(runtime_error(Some(operator), "Operand must be a number."))
            },
        }
    }

    /// How a value is printed, for values other than numbers and arrays.
    pub fn display_text(&self, value: &Value) -> (res: Option<String>)
        ensures
            match *value {
                Value::String(s) => res == Some(s),
                Value::Bool(b) => res matches Some(t) && t@ == if b {
                    "true"@
                } else {
                    "false"@
                },
                Value::Nil => res matches Some(t) && t@ == "nil"@,
                Value::Callable(f) => if f < self.functions().len() {
                    res matches Some(t) && t@ == "<fn "@ + self.functions()[f as int].name@ + ">"@
                } else {
                    res is None
                },
                Value::NativeFunction(_) => res matches Some(t) && t@ == "<native fn>"@,
                Value::Class(c) => if c < self.classes().len() {
                    res matches Some(t) && t@ == self.classes()[c as int].class_name@
                } else {
                    res is None
                },
                Value::Instance(i) => if i < self.instances().len() && self.instances()[i as int].class
                    < self.classes().len() {
                    res matches Some(t) && t@ == self.classes()[self.instances()[i as int].class as int].class_name@
                        + " instance"@
                } else {
                    res is None
                },
                _ => res is None,
            },
    {
        match value {
            Value::String(s) => Some(s.clone()),
            Value::Bool(b) => Some(
                if *b {
                    "true".to_owned()
                } else {
                    "false".to_owned()
                },
            ),
            Value::Nil => Some("nil".to_owned()),
            Value::Callable(f) => {
                if *f < self.functions.len() {
                    Some(concat3("<fn ", self.functions[*f].name.as_str(), ">"))
                } else {
                    None
                }
            },
            Value::NativeFunction(_) => Some("<native fn>".to_owned()),
            Value::Class(c) => {
                if *c < self.classes.len() {
                    Some(self.classes[*c].class_name.clone())
                } else {
                    None
                }
            },
            Value::Instance(i) => {
                if *i < self.instances.len() && self.instances[*i].class < self.classes.len() {
                    Some(crate::concat2(self.classes[self.instances[*i].class].class_name.as_str(), " instance"))
                } else {
                    None
                }
            },
            _ => None,
        }
    }

    /// What a `super` expression finds: its distance must have been resolved; at
    /// that distance `super` names a class and, one environment closer, `this` an
    /// instance (as a class declaration and a bound method arrange). Lookups that
    /// fail are errors, not breaches of this.
    pub open spec fn super_ready(&self, supr: Super) -> bool {
        let frames = self.envs().frames();
        let env = self.environment();
        &&& self.locals().contains_key(supr.keyword.id)
        &&& match env_ancestor(frames, env, self.locals()[supr.keyword.id] as nat) {
            Some(a) => match env_get(frames, a, supr.keyword.lexeme@) {
                Some(v) => {
                    &&& v matches Value::Class(c) && c < self.classes().len()
                    &&& self.locals()[supr.keyword.id] >= 1
                    &&& match env_ancestor(frames, env, (self.locals()[supr.keyword.id] - 1) as nat) {
                        Some(b) => match env_get(frames, b, "this"@) {
                            Some(w) => w matches Value::Instance(i) && i < self.instances().len(),
                            None => true,
                        },
                        None => true,
                    }
                },
                None => true,
            },
            None => true,
        }
    }

    /// Whether a `super` expression finds what it needs (see `super_ready`).
    pub fn check_super(&self, supr: &Super) -> (res: bool)
        requires
            self.wf(),
        ensures
            res == self.super_ready(*supr),
    {
        proof {
            reveal_strlit("this");
        }
        let distance = match self.depth_of(supr.keyword.id) {
            Some(d) => d,
            None => {
                return false;
            },
        };
        match self.envs.get_at(self.environment, distance, &supr.keyword) {
            Ok(Value::Class(c)) => {
                if c >= self.classes.len() || distance < 1 {
                    return false;
                }
            },
            Ok(_) => {
                return false;
            },
            Err(_) => {
                return true;
            },
        }
        let this_token = Token::new(TokenType::This, "this".to_owned(), None, 0, 0);
        match self.envs.get_at(self.environment, distance - 1, &this_token) {
            Ok(Value::Instance(i)) => i < self.instances.len(),
            Ok(_) => false,
            Err(_) => true,
        }
    }

    /// The value of `super.method`: the superclass's method bound to `this`.
    pub fn supr(&mut self, supr: &Super) -> (res: Result<Value, RuntimeError>)
        requires
            old(self).wf(),
            old(self).super_ready(*supr),
        ensures
            final(self).wf(),
            final(self).environment() == old(self).environment(),
            final(self).globals() == old(self).globals(),
            final(self).classes() == old(self).classes(),
            final(self).instances() == old(self).instances(),
            final(self).arrays() == old(self).arrays(),
            final(self).locals() == old(self).locals(),
            ({
                let frames = old(self).envs().frames();
                let env = old(self).environment();
                let d = old(self).locals()[supr.keyword.id];
                match env_ancestor(frames, env, d as nat) {
                    Some(a) => match env_get(frames, a, supr.keyword.lexeme@) {
                        Some(Value::Class(c)) => match env_ancestor(frames, env, (d - 1) as nat) {
                            Some(b) => match env_get(frames, b, "this"@) {
                                Some(Value::Instance(i)) => match class_method(old(self).classes(), c as int, supr.method.lexeme@) {
                                    Some(f) => {
                                        &&& res == Ok::<Value, RuntimeError>(Value::Callable(old(self).functions().len() as usize))
                                        &&& bound(*old(self), *final(self), f, i, old(self).functions().len() as usize)
                                        &&& final(self).had_error() == old(self).had_error()
                                    },
                                    None => res matches Err(e) && e.message@ == "Undefined property '"@
                                        + supr.method.lexeme@ + "'."@ && e.line == Some(supr.method.line)
                                        && final(self).had_error(),
                                },
                                _ => res is Err,
                            },
                            None => res is Err,
                        },
                        _ => res is Err,
                    },
                    None => res is Err,
                }
            }),
    {
        proof {
            reveal_strlit("this");
        }
        let distance = match self.depth_of(supr.keyword.id) {
            Some(d) => d,
            None => {
                proof {
                    assert(false);
                }
                0
            },
        };
        let superclass = match self.envs.get_at(self.environment, distance, &supr.keyword)? {
            Value::Class(c) => c,
            _ => {
                proof {
                    assert(false);
                }
                0
            },
        };
        let this_token = Token::new(TokenType::This, "this".to_owned(), None, 0, 0);
        let object = match self.envs.get_at(self.environment, distance - 1, &this_token)? {
            Value::Instance(i) => i,
            _ => {
                proof {
                    assert(false);
                }
                0
            },
        };
        match self.find_method(superclass, &supr.method.lexeme) {
            Some(method) => {
                let bound = self.bind(method, object);
                Ok(Value::Callable(bound))
            },
            None => {
                let msg = concat3("Undefined property '", supr.method.lexeme.as_str(), "'.");
                self.had_runtime_error = true;
                Err(runtime_error(Some(&supr.method), msg.as_str()))
            },
        }
    }
}


/// A well-formed interpreter executes in one of its environments, and its globals
/// are one of them.
pub proof fn lemma_environment_exists(it: Interpreter)
    requires
        it.wf(),
    ensures
        0 <= it.environment() < it.envs().frames().len(),
        0 <= it.globals() < it.envs().frames().len(),
        it.envs().wf(),
{
}

/// A declared function closes over the environment current at its declaration
/// (where its body's free names were resolved), and its name is bound, in that same
/// environment, to the new function.
pub proof fn lemma_function_closes_over_declaring_environment(before: Interpreter, after: Interpreter, decl: Function)
    requires
        function_declared(before, after, decl),
    ensures
        after.functions().len() == before.functions().len() + 1,
        after.functions()[before.functions().len() as int].closure == before.environment(),
        !after.functions()[before.functions().len() as int].is_initializer,
        after.environment() == before.environment(),
        entry(after.envs().frames()[before.environment()].values@, decl.name.lexeme@) == Some(
            Some(Value::Callable(before.functions().len() as usize)),
        ),
{
}

/// Equality of values (numbers aside, which are compared by the caller) is
/// symmetric and transitive, and reflexive on the values that can be equal at all.
pub proof fn lemma_equal_values(classes: Seq<LoxClass>, a: Value, b: Value, c: Value)
    ensures
        !(a is Number || a is NativeFunction) ==> equal_values(
            classes,
            a,
            a,
        ),
        equal_values(classes, a, b) == equal_values(classes, b, a),
        equal_values(classes, a, b) && equal_values(classes, b, c) ==> equal_values(classes, a, c),
{
}

/// Popping an array right after pushing `v` onto it gives back `v`, and leaves
/// every array as it was before the push.
pub proof fn lemma_pop_undoes_push(
    a0: Seq<Vec<Value>>,
    a1: Seq<Vec<Value>>,
    a2: Seq<Vec<Value>>,
    arr: usize,
    v: Value,
    w1: Seq<WholeNumber>,
    w2: Seq<WholeNumber>,
    r1: Result<NativeOutcome, RuntimeError>,
    r2: Result<NativeOutcome, RuntimeError>,
)
    requires
        arr < a0.len(),
        native_result(a0, a1, Native::Push, seq![Value::Array(arr), v], w1, r1),
        native_result(a1, a2, Native::Pop, seq![Value::Array(arr)], w2, r2),
    ensures
        r2 matches Ok(NativeOutcome::Value(x)) && x == v,
        a2.len() == a0.len(),
        forall|b: int| 0 <= b < a0.len() ==> #[trigger] a2[b]@ == a0[b]@,
{
    assert(a0[arr as int]@.push(v).drop_last() =~= a0[arr as int]@);
}

} // verus!
