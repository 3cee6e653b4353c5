use vstd::prelude::*;
use crate::environment::env_get;
use crate::expr::Expr;
use crate::interpreter::{
    block_end, block_step, class_declared, function_declared, insert_all, lemma_environment_exists, rebound,
    reported_failure, BlockStep, Interpreter, Signal,
};
use crate::resolver::{stmts_clean, stmts_res, ClassType, FunctionType};
use crate::Report;
use crate::stmt::{stmt_ok, stmts_ok, Class, Function, If, Return, Stmt, Var, While};
use crate::tokens::Token;
use crate::value::{is_truthy, truthy, Value};
use crate::RuntimeError;

verus! {

/// A piece of work that the statement runner has yet to finish.
#[derive(Debug)]
pub enum Frame<'a> {
    /// Run this statement.
    Run(&'a Stmt),
    /// The rest of a block: its statements from `next` on, the environment to go
    /// back to when it ends, and whether one of its statements failed.
    Block { stmts: &'a [Stmt], next: usize, saved: usize, had_error: bool },
    /// A `while` loop waiting for the value of its condition.
    WhileCondition { condition: &'a Expr, body: &'a Stmt },
    /// A `while` loop whose body runs.
    WhileBody { condition: &'a Expr, body: &'a Stmt },
    /// An `if` statement waiting for the value of its condition.
    IfCondition { then_branch: &'a Stmt, else_branch: Option<&'a Stmt> },
    /// A variable declaration waiting for the value of its initializer.
    VarValue(&'a Token),
    /// A `print` statement waiting for the value to print.
    PrintValue,
    /// A `print` statement waiting for its value to be printed.
    Printing,
    /// An expression statement waiting for its value.
    ExpressionValue,
    /// A `return` statement waiting for its value.
    ReturnValue,
    /// A class declaration waiting for the value of its superclass.
    SuperclassValue(&'a Class),
}

/// What the runner is handed back after an action.
#[derive(Debug)]
pub enum RunEvent {
    /// Go on (after `Continue`, `ReportError`, or to start).
    Resume,
    /// The expression to evaluate has this value, or failed with this (reported) error.
    Evaluated(Result<Value, RuntimeError>),
    /// The value to print has been printed.
    Printed,
}

/// What the runner asks of whoever drives it.
#[derive(Debug)]
pub enum RunAction<'a> {
    /// Nothing to do: hand back `Resume`.
    Continue,
    /// Evaluate this expression in the current environment, and hand back its value.
    Evaluate(&'a Expr),
    /// Print this value, and hand back `Printed`.
    Print(Value),
    /// Report this run-time error to the user, and hand back `Resume`.
    ReportError(RuntimeError),
    /// The statements are done, with this outcome.
    Done(Result<Value, Signal>),
}

/// Whether a frame holds only statements that have the shape the parser gives them.
pub open spec fn frame_ok(f: Frame) -> bool {
    match f {
        Frame::Run(s) => stmt_ok(*s),
        Frame::Block { stmts, next, .. } => stmts_ok(stmts@) && next <= stmts@.len(),
        Frame::WhileCondition { body, .. } => stmt_ok(*body),
        Frame::WhileBody { body, .. } => stmt_ok(*body),
        Frame::IfCondition { then_branch, else_branch } => stmt_ok(*then_branch) && match else_branch {
            Some(e) => stmt_ok(*e),
            None => true,
        },
        Frame::SuperclassValue(c) => stmt_ok(Stmt::Class(*c)) && c.superclass is Some,
        _ => true,
    }
}

/// Whether a frame waits for the value of an expression.
pub open spec fn waits_for_value(f: Frame) -> bool {
    f is WhileCondition || f is IfCondition || f is VarValue || f is PrintValue || f is ExpressionValue
        || f is ReturnValue || f is SuperclassValue
}

/// Whether `after` keeps what `before` holds, its environments and the environment
/// it executes in aside.
pub open spec fn same_but_envs(before: Interpreter, after: Interpreter) -> bool {
    &&& after.globals() == before.globals()
    &&& after.functions() == before.functions()
    &&& after.classes() == before.classes()
    &&& after.instances() == before.instances()
    &&& after.arrays() == before.arrays()
    &&& after.locals() == before.locals()
    &&& after.had_error() == before.had_error()
}

/// Whether `after` executes in `saved` again (when it is an environment at all), and
/// is otherwise `before`.
pub open spec fn restored_to(before: Interpreter, after: Interpreter, saved: usize) -> bool {
    &&& after.envs() == before.envs()
    &&& same_but_envs(before, after)
    &&& after.environment() == if saved < before.envs().frames().len() {
        saved as int
    } else {
        before.environment()
    }
}

/// What a block does once one of its statements ended with `o` (see `block_step`):
/// the frames, outcome and interpreter it leaves.
pub open spec fn block_delivery<'a>(
    rest: Seq<Frame<'a>>,
    stmts: &'a [Stmt],
    next: usize,
    saved: usize,
    had_error: bool,
    o: Result<Value, Signal>,
    frames: Seq<Frame<'a>>,
    pending: Option<Result<Value, Signal>>,
    before: Interpreter,
    after: Interpreter,
) -> bool {
    match o {
        Err(Signal::Return(v)) => {
            &&& frames == rest
            &&& restored_to(before, after, saved)
            &&& pending matches Some(r) && if had_error {
                reported_failure(r)
            } else {
                r == Err::<Value, Signal>(Signal::Return(v))
            }
        },
        _ => {
            &&& frames == rest.push(Frame::Block { stmts, next, saved, had_error: had_error || o is Err })
            &&& pending is None
            &&& after == before
        },
    }
}

/// What running the statement `s` does: the frames, outcome, action and
/// interpreter it leaves, given the frames `rest` below it.
pub open spec fn run_effect<'a>(
    rest: Seq<Frame<'a>>,
    s: &'a Stmt,
    frames: Seq<Frame<'a>>,
    pending: Option<Result<Value, Signal>>,
    res: RunAction<'a>,
    before: Interpreter,
    after: Interpreter,
) -> bool {
    let env = before.environment();
    match *s {
        Stmt::If(i) => {
            &&& frames == rest.push(frames.last())
            &&& frames.last() matches Frame::IfCondition { then_branch: t, else_branch: e }
            &&& *t == *i.then_branch
            &&& match (e, i.else_branch) {
                (Some(x), Some(y)) => *x == *y,
                (None, None) => true,
                _ => false,
            }
            &&& pending is None
            &&& res matches RunAction::Evaluate(c) && *c == i.condition
            &&& after == before
        },
        Stmt::While(w) => {
            &&& frames == rest.push(frames.last())
            &&& frames.last() matches Frame::WhileCondition { condition: c, body: b }
            &&& *c == w.condition && *b == *w.body
            &&& pending is None
            &&& res matches RunAction::Evaluate(e) && *e == w.condition
            &&& after == before
        },
        Stmt::Block(v) => {
            &&& frames == rest.push(frames.last())
            &&& frames.last() matches Frame::Block { stmts, next, saved, had_error }
            &&& stmts@ == v@ && next == 0 && saved == env && !had_error
            &&& pending is None
            &&& res is Continue
            &&& same_but_envs(before, after)
            &&& after.envs().frames().len() == before.envs().frames().len() + 1
            &&& after.envs().frames().drop_last() == before.envs().frames()
            &&& after.envs().frames().last().enclosing == Some(env as usize)
            &&& after.envs().frames().last().values@.len() == 0
            &&& after.environment() == before.envs().frames().len()
        },
        Stmt::Class(c) => match c.superclass {
            Some(e) => {
                &&& frames == rest.push(frames.last())
                &&& frames.last() matches Frame::SuperclassValue(k) && *k == c
                &&& pending is None
                &&& res matches RunAction::Evaluate(x) && *x == e
                &&& after == before
            },
            None => {
                &&& frames == rest
                &&& pending == Some(Ok::<Value, Signal>(Value::Nil))
                &&& res is Continue
                &&& after.wf()
                &&& class_declared(before, after, c, None)
                &&& env_get(after.envs().frames(), env, c.name.lexeme@) == Some(
                    Value::Class(before.classes().len() as usize),
                )
            },
        },
        Stmt::Var(v) => match v.initializer {
            Some(e) => {
                &&& frames == rest.push(frames.last())
                &&& frames.last() matches Frame::VarValue(n) && *n == v.name
                &&& pending is None
                &&& res matches RunAction::Evaluate(x) && *x == e
                &&& after == before
            },
            None => {
                &&& frames == rest
                &&& pending == Some(Ok::<Value, Signal>(Value::Nil))
                &&& res is Continue
                &&& rebound(before, after, v.name.lexeme@, Value::Nil)
                &&& same_but_envs(before, after)
                &&& env_get(after.envs().frames(), env, v.name.lexeme@) == Some(Value::Nil)
            },
        },
        Stmt::Expression(e) => {
            &&& frames == rest.push(Frame::ExpressionValue)
            &&& pending is None
            &&& res matches RunAction::Evaluate(x) && *x == e
            &&& after == before
        },
        Stmt::Print(e) => {
            &&& frames == rest.push(Frame::PrintValue)
            &&& pending is None
            &&& res matches RunAction::Evaluate(x) && *x == e
            &&& after == before
        },
        Stmt::Function(f) => {
            &&& frames == rest
            &&& pending == Some(Ok::<Value, Signal>(Value::Nil))
            &&& res is Continue
            &&& function_declared(before, after, f)
            &&& env_get(after.envs().frames(), env, f.name.lexeme@) == Some(
                Value::Callable(before.functions().len() as usize),
            )
        },
        Stmt::Return(r) => match r.value {
            Some(e) => {
                &&& frames == rest.push(Frame::ReturnValue)
                &&& pending is None
                &&& res matches RunAction::Evaluate(x) && *x == e
                &&& after == before
            },
            None => {
                &&& frames == rest
                &&& pending == Some(Err::<Value, Signal>(Signal::Return(Value::Nil)))
                &&& res is Continue
                &&& after == before
            },
        },
    }
}

/// What a frame waiting for a value does with `v`: the frames, outcome, action and
/// interpreter it leaves, given the frames `rest` below it.
pub open spec fn value_effect<'a>(
    rest: Seq<Frame<'a>>,
    f: Frame<'a>,
    v: Value,
    frames: Seq<Frame<'a>>,
    pending: Option<Result<Value, Signal>>,
    res: RunAction<'a>,
    before: Interpreter,
    after: Interpreter,
) -> bool {
    let env = before.environment();
    match f {
        Frame::WhileCondition { condition, body } => {
            &&& res is Continue
            &&& after == before
            &&& if truthy(v) {
                frames == rest.push(Frame::WhileBody { condition, body }).push(Frame::Run(body))
                    && pending is None
            } else {
                frames == rest && pending == Some(Ok::<Value, Signal>(Value::Nil))
            }
        },
        Frame::IfCondition { then_branch, else_branch } => {
            &&& res is Continue
            &&& after == before
            &&& if truthy(v) {
                frames == rest.push(Frame::Run(then_branch)) && pending is None
            } else {
                match else_branch {
                    Some(e) => frames == rest.push(Frame::Run(e)) && pending is None,
                    None => frames == rest && pending == Some(Ok::<Value, Signal>(Value::Nil)),
                }
            }
        },
        Frame::VarValue(name) => {
            &&& frames == rest
            &&& pending == Some(Ok::<Value, Signal>(Value::Nil))
            &&& res is Continue
            &&& rebound(before, after, name.lexeme@, v)
            &&& same_but_envs(before, after)
            &&& env_get(after.envs().frames(), env, name.lexeme@) == Some(v)
        },
        Frame::PrintValue => {
            &&& frames == rest.push(Frame::Printing)
            &&& pending is None
            &&& res == RunAction::<'a>::Print(v)
            &&& after == before
        },
        Frame::ExpressionValue => {
            &&& frames == rest
            &&& pending == Some(Ok::<Value, Signal>(v))
            &&& res is Continue
            &&& after == before
        },
        Frame::ReturnValue => {
            &&& frames == rest
            &&& pending == Some(Err::<Value, Signal>(Signal::Return(v)))
            &&& res is Continue
            &&& after == before
        },
        Frame::SuperclassValue(c) => {
            &&& frames == rest
            &&& after.wf()
            &&& after.environment() == env
            &&& if v matches Value::Class(k) && k < before.classes().len() {
                &&& pending == Some(Ok::<Value, Signal>(Value::Nil))
                &&& res is Continue
                &&& class_declared(before, after, *c, Some(v))
                &&& env_get(after.envs().frames(), env, c.name.lexeme@) == Some(
                    Value::Class(before.classes().len() as usize),
                )
            } else {
                &&& res matches RunAction::ReportError(e) && e.message@ == "Superclass must be a class."@
                &&& pending == Some(Err::<Value, Signal>(Signal::RuntimeError(res->ReportError_0)))
                &&& after.had_error()
                &&& after.classes() == before.classes()
                &&& after.functions() == before.functions()
                &&& after.envs() == before.envs()
            }
        },
        _ => false,
    }
}

/// Whether every frame but the most urgent one is a block or a loop body: the only
/// work that other work runs inside.
pub open spec fn enclosing_frames(frames: Seq<Frame>) -> bool {
    forall|i: int| 0 <= i < frames.len() - 1 ==> (#[trigger] frames[i] is Block || frames[i] is WhileBody)
}

/// What handing the outcome `o` of a statement to the work below it does: the
/// frames, outcome, action and interpreter it leaves.
pub open spec fn delivery_effect<'a>(
    below: Seq<Frame<'a>>,
    o: Result<Value, Signal>,
    frames: Seq<Frame<'a>>,
    pending: Option<Result<Value, Signal>>,
    res: RunAction<'a>,
    before: Interpreter,
    after: Interpreter,
) -> bool {
    if below.len() == 0 {
        &&& res == RunAction::<'a>::Done(o)
        &&& frames == below
        &&& pending is None
        &&& after == before
    } else {
        match below.last() {
            Frame::Block { stmts, next, saved, had_error } => {
                &&& res is Continue
                &&& block_delivery(below.drop_last(), stmts, next, saved, had_error, o, frames, pending, before, after)
            },
            Frame::WhileBody { condition, body } => {
                &&& after == before
                &&& if o is Ok {
                    &&& frames == below.drop_last().push(Frame::WhileCondition { condition, body })
                    &&& pending is None
                    &&& res == RunAction::<'a>::Evaluate(condition)
                } else {
                    &&& frames == below.drop_last()
                    &&& pending == Some(o)
                    &&& res is Continue
                }
            },
            _ => false,
        }
    }
}

/// What going on with the rest of a block does: the next statement runs, or, when
/// none is left, the block ends and the environment it started in is restored.
pub open spec fn advance_effect<'a>(
    rest: Seq<Frame<'a>>,
    stmts: &'a [Stmt],
    next: usize,
    saved: usize,
    had_error: bool,
    frames: Seq<Frame<'a>>,
    pending: Option<Result<Value, Signal>>,
    res: RunAction<'a>,
    before: Interpreter,
    after: Interpreter,
) -> bool {
    &&& res is Continue
    &&& if next < stmts@.len() {
        &&& frames == rest.push(Frame::Block { stmts, next: (next + 1) as usize, saved, had_error }).push(frames.last())
        &&& frames.last() matches Frame::Run(s) && *s == stmts@[next as int]
        &&& pending is None
        &&& after == before
    } else {
        &&& frames == rest
        &&& restored_to(before, after, saved)
        &&& pending matches Some(r) && if had_error {
            reported_failure(r)
        } else {
            r == Ok::<Value, Signal>(Value::Nil)
        }
    }
}

/// What one step of the runner does on `event`: the frames, outcome, action and
/// interpreter it leaves.
pub open spec fn step_effect<'a>(
    old_frames: Seq<Frame<'a>>,
    old_pending: Option<Result<Value, Signal>>,
    event: RunEvent,
    frames: Seq<Frame<'a>>,
    pending: Option<Result<Value, Signal>>,
    res: RunAction<'a>,
    before: Interpreter,
    after: Interpreter,
) -> bool {
    match old_pending {
        Some(o) => delivery_effect(old_frames, o, frames, pending, res, before, after),
        None => if old_frames.len() == 0 {
            &&& res == RunAction::<'a>::Done(Ok(Value::Nil))
            &&& frames == old_frames
            &&& pending is None
            &&& after == before
        } else {
            let rest = old_frames.drop_last();
            match old_frames.last() {
                Frame::Run(s) => run_effect(rest, s, frames, pending, res, before, after),
                Frame::Block { stmts, next, saved, had_error } => advance_effect(
                    rest,
                    stmts,
                    next,
                    saved,
                    had_error,
                    frames,
                    pending,
                    res,
                    before,
                    after,
                ),
                Frame::WhileBody { condition, body } => {
                    &&& frames == rest.push(Frame::WhileCondition { condition, body })
                    &&& pending is None
                    &&& res == RunAction::<'a>::Evaluate(condition)
                    &&& after == before
                },
                Frame::Printing => {
                    &&& frames == rest
                    &&& pending == Some(Ok::<Value, Signal>(Value::Nil))
                    &&& res is Continue
                    &&& after == before
                },
                f => match event {
                    RunEvent::Evaluated(Ok(v)) => value_effect(rest, f, v, frames, pending, res, before, after),
                    RunEvent::Evaluated(Err(e)) => {
                        &&& frames == rest
                        &&& pending == Some(Err::<Value, Signal>(Signal::RuntimeError(e)))
                        &&& res is Continue
                        &&& after == before
                    },
                    _ => false,
                },
            }
        },
    }
}

/// Whether every frame is a block or a loop body.
pub open spec fn all_enclosing(frames: Seq<Frame>) -> bool {
    forall|i: int| 0 <= i < frames.len() ==> (#[trigger] frames[i] is Block || frames[i] is WhileBody)
}

/// Whether every frame holds statements of the shape the parser gives them.
pub open spec fn all_ok(frames: Seq<Frame>) -> bool {
    forall|i: int| 0 <= i < frames.len() ==> frame_ok(#[trigger] frames[i])
}

proof fn lemma_push_frame<'a>(frames: Seq<Frame<'a>>, f: Frame<'a>)
    requires
        all_ok(frames),
        all_enclosing(frames),
        frame_ok(f),
    ensures
        all_ok(frames.push(f)),
        enclosing_frames(frames.push(f)),
        (f is Block || f is WhileBody) ==> all_enclosing(frames.push(f)),
{
    assert forall|i: int| 0 <= i < frames.push(f).len() implies frame_ok(#[trigger] frames.push(f)[i]) by {
        if i < frames.len() {
            assert(frames.push(f)[i] == frames[i]);
        }
    }
    assert forall|i: int| 0 <= i < frames.push(f).len() - 1 implies (#[trigger] frames.push(f)[i] is Block
        || frames.push(f)[i] is WhileBody) by {
        assert(frames.push(f)[i] == frames[i]);
    }
    if f is Block || f is WhileBody {
        assert forall|i: int| 0 <= i < frames.push(f).len() implies (#[trigger] frames.push(f)[i] is Block
            || frames.push(f)[i] is WhileBody) by {
            if i < frames.len() {
                assert(frames.push(f)[i] == frames[i]);
            }
        }
    }
}

proof fn lemma_enclosing_all(frames: Seq<Frame>)
    requires
        all_enclosing(frames),
    ensures
        enclosing_frames(frames),
        frames.len() == 0 || frames.last() is Block || frames.last() is WhileBody,
{
    if frames.len() > 0 {
        assert(frames[frames.len() - 1] is Block || frames[frames.len() - 1] is WhileBody);
    }
}

proof fn lemma_pop_frame(frames: Seq<Frame>)
    requires
        frames.len() > 0,
        all_ok(frames),
        enclosing_frames(frames),
    ensures
        all_ok(frames.drop_last()),
        all_enclosing(frames.drop_last()),
        frame_ok(frames.last()),
{
    assert forall|i: int| 0 <= i < frames.drop_last().len() implies frame_ok(#[trigger] frames.drop_last()[i]) by {
        assert(frames.drop_last()[i] == frames[i]);
    }
    assert forall|i: int| 0 <= i < frames.drop_last().len() implies (#[trigger] frames.drop_last()[i] is Block
        || frames.drop_last()[i] is WhileBody) by {
        assert(frames.drop_last()[i] == frames[i]);
    }
}

/// A copy of a run-time error.
fn copy_error(e: &RuntimeError) -> (res: RuntimeError)
    ensures
        res == *e,
{
    RuntimeError { message: e.message.clone(), line: e.line }
}

/// Runs statements one step at a time: it decides what each statement does, and
/// asks whoever drives it to evaluate expressions, to print values and to report
/// errors, which it cannot do itself.
pub struct StmtRunner<'a> {
    frames: Vec<Frame<'a>>,
    pending: Option<Result<Value, Signal>>,
}

impl<'a> StmtRunner<'a> {
    /// The work left, the most urgent last.
    pub closed spec fn frames(&self) -> Seq<Frame<'a>> {
        self.frames@
    }

    /// The outcome of the statement that has just ended, if one has.
    pub closed spec fn pending(&self) -> Option<Result<Value, Signal>> {
        self.pending
    }

    /// The runner holds statements of the shape the parser gives them, and an
    /// outcome only when a block, a loop body or nothing is left to take it.
    pub open spec fn wf(&self) -> bool {
        &&& all_ok(self.frames())
        &&& enclosing_frames(self.frames())
        &&& self.pending() is Some ==> (self.frames().len() == 0 || self.frames().last() is Block
            || self.frames().last() is WhileBody)
    }

    /// Whether `event` is what the runner waits for: a value when its most urgent
    /// work waits for one, `Printed` while a value is printed, `Resume` otherwise.
    pub open spec fn accepts_spec(&self, event: RunEvent) -> bool {
        if self.pending() is None && self.frames().len() > 0 && waits_for_value(self.frames().last()) {
            event is Evaluated
        } else if self.pending() is None && self.frames().len() > 0 && self.frames().last() is Printing {
            event is Printed
        } else {
            event is Resume
        }
    }

    /// A runner for one statement.
    pub fn statement(stmt: &'a Stmt) -> (res: Self)
        requires
            stmt_ok(*stmt),
        ensures
            res.wf(),
            res.frames() == seq![Frame::Run(stmt)],
            res.pending() is None,
    {
        let frames = vec![Frame::Run(stmt)];
        StmtRunner { frames, pending: None }
    }

    /// A runner for the statements of a function body, run in environment `env`:
    /// the interpreter executes in `env` from now on, and goes back to the
    /// environment it executed in when the statements are done.
    pub fn body(stmts: &'a [Stmt], env: usize, it: &mut Interpreter) -> (res: Self)
        requires
            stmts_ok(stmts@),
            old(it).wf(),
            env < old(it).envs().frames().len(),
        ensures
            res.wf(),
            res.frames() == seq![
                Frame::Block { stmts, next: 0, saved: old(it).environment() as usize, had_error: false },
            ],
            res.pending() is None,
            final(it).wf(),
            final(it).environment() == env,
            final(it).envs() == old(it).envs(),
            final(it).globals() == old(it).globals(),
            final(it).functions() == old(it).functions(),
            final(it).classes() == old(it).classes(),
            final(it).instances() == old(it).instances(),
            final(it).arrays() == old(it).arrays(),
            final(it).locals() == old(it).locals(),
            final(it).had_error() == old(it).had_error(),
    {
        let saved = it.current_environment();
        it.set_environment(env);
        let frames = vec![Frame::Block { stmts, next: 0, saved, had_error: false }];
        StmtRunner { frames, pending: None }
    }

    fn restore(it: &mut Interpreter, saved: usize)
        requires
            old(it).wf(),
        ensures
            final(it).wf(),
            restored_to(*old(it), *final(it), saved),
    {
        if saved < it.environment_count() {
            it.set_environment(saved);
        }
    }

    fn deliver(&mut self, it: &mut Interpreter, o: Result<Value, Signal>) -> (res: RunAction<'a>)
        requires
            old(it).wf(),
            old(self).pending() is None,
            all_ok(old(self).frames()),
            enclosing_frames(old(self).frames()),
            old(self).frames().len() == 0 || old(self).frames().last() is Block || old(self).frames().last() is WhileBody,
        ensures
            final(it).wf(),
            final(self).wf(),
            delivery_effect(old(self).frames(), o, final(self).frames(), final(self).pending(), res, *old(it), *final(it)),
    {
        let n = self.frames.len();
        if n == 0 {
            return RunAction::Done(o);
        }
        let top = self.frames.pop().unwrap();
        assert(self.frames@ == old(self).frames().drop_last());
        proof {
            lemma_pop_frame(old(self).frames());
            lemma_enclosing_all(self.frames@);
        }
        match top {
            Frame::Block { stmts, next, saved, had_error } => {
                let (noted, step) = block_step(had_error, o);
                match step {
                    BlockStep::Next => {
                        proof {
                            lemma_push_frame(self.frames@, Frame::Block { stmts, next, saved, had_error: noted });
                        }
                        self.frames.push(Frame::Block { stmts, next, saved, had_error: noted });
                    },
                    BlockStep::Finish(r) => {
                        Self::restore(it, saved);
                        self.pending = Some(r);
                    },
                }
                RunAction::Continue
            },
            Frame::WhileBody { condition, body } => {
                if o.is_ok() {
                    proof {
                        lemma_push_frame(self.frames@, Frame::WhileCondition { condition, body });
                    }
                    self.frames.push(Frame::WhileCondition { condition, body });
                    RunAction::Evaluate(condition)
                } else {
                    self.pending = Some(o);
                    RunAction::Continue
                }
            },
            _ => {
                proof {
                    assert(false);
                }
                RunAction::Continue
            },
        }
    }

    fn advance(&mut self, it: &mut Interpreter, stmts: &'a [Stmt], next: usize, saved: usize, had_error: bool) -> (res: RunAction<'a>)
        requires
            old(it).wf(),
            old(self).pending() is None,
            all_ok(old(self).frames()),
            all_enclosing(old(self).frames()),
            stmts_ok(stmts@),
            next <= stmts@.len(),
        ensures
            final(it).wf(),
            final(self).wf(),
            advance_effect(
                old(self).frames(),
                stmts,
                next,
                saved,
                had_error,
                final(self).frames(),
                final(self).pending(),
                res,
                *old(it),
                *final(it),
            ),
    {
        if next < stmts.len() {
            let ghost block = Frame::Block { stmts, next: (next + 1) as usize, saved, had_error };
            proof {
                lemma_push_frame(old(self).frames(), block);
            }
            self.frames.push(Frame::Block { stmts, next: next + 1, saved, had_error });
            let s = &stmts[next];
            proof {
                assert(stmt_ok(stmts@[next as int]));
                lemma_push_frame(self.frames@, Frame::Run(s));
            }
            self.frames.push(Frame::Run(s));
            assert(self.frames@.drop_last() =~= old(self).frames().push(block));
        } else {
            proof {
                lemma_enclosing_all(old(self).frames());
            }
            Self::restore(it, saved);
            self.pending = Some(block_end(had_error));
        }
        RunAction::Continue
    }

    fn run(&mut self, it: &mut Interpreter, s: &'a Stmt) -> (res: RunAction<'a>)
        requires
            old(it).wf(),
            stmt_ok(*s),
            old(self).pending() is None,
            all_ok(old(self).frames()),
            all_enclosing(old(self).frames()),
        ensures
            final(it).wf(),
            final(self).wf(),
            run_effect(old(self).frames(), s, final(self).frames(), final(self).pending(), res, *old(it), *final(it)),
    {
        proof {
            lemma_enclosing_all(old(self).frames());
        }
        match s {
            Stmt::If(If { condition, then_branch, else_branch }) => {
                let e: Option<&'a Stmt> = match else_branch {
                    Some(b) => Some(&**b),
                    None => None,
                };
                proof {
                    lemma_push_frame(self.frames@, Frame::IfCondition { then_branch: &**then_branch, else_branch: e });
                }
                self.frames.push(Frame::IfCondition { then_branch: &**then_branch, else_branch: e });
                assert(self.frames@.drop_last() =~= old(self).frames());
                RunAction::Evaluate(condition)
            },
            Stmt::While(While { condition, body }) => {
                proof {
                    lemma_push_frame(self.frames@, Frame::WhileCondition { condition, body: &**body });
                }
                self.frames.push(Frame::WhileCondition { condition, body: &**body });
                assert(self.frames@.drop_last() =~= old(self).frames());
                RunAction::Evaluate(condition)
            },
            Stmt::Block(stmts) => {
                let enclosing = it.current_environment();
                let env = it.new_environment(enclosing);
                it.set_environment(env);
                let block = Frame::Block { stmts: stmts.as_slice(), next: 0, saved: enclosing, had_error: false };
                proof {
                    lemma_push_frame(self.frames@, block);
                }
                self.frames.push(block);
                assert(self.frames@.drop_last() =~= old(self).frames());
                RunAction::Continue
            },
            Stmt::Class(class) => {
                match &class.superclass {
                    Some(e) => {
                        proof {
                            lemma_push_frame(self.frames@, Frame::SuperclassValue(class));
                        }
                        self.frames.push(Frame::SuperclassValue(class));
                        assert(self.frames@.drop_last() =~= old(self).frames());
                        RunAction::Evaluate(e)
                    },
                    None => {
                        let r = it.class_decl(class, None);
                        proof {
                            lemma_environment_exists(*it);

                        }
                        self.pending = Some(Ok(Value::Nil));
                        RunAction::Continue
                    },
                }
            },
            Stmt::Var(Var { name, initializer }) => {
                match initializer {
                    Some(e) => {
                        proof {
                            lemma_push_frame(self.frames@, Frame::VarValue(name));
                        }
                        self.frames.push(Frame::VarValue(name));
                        assert(self.frames@.drop_last() =~= old(self).frames());
                        RunAction::Evaluate(e)
                    },
                    None => {
                        it.define(name.lexeme.clone(), Some(Value::Nil));
                        proof {
                            lemma_environment_exists(*it);
                        }
                        self.pending = Some(Ok(Value::Nil));
                        RunAction::Continue
                    },
                }
            },
            Stmt::Expression(e) => {
                proof {
                    lemma_push_frame(self.frames@, Frame::ExpressionValue);
                }
                self.frames.push(Frame::ExpressionValue);
                RunAction::Evaluate(e)
            },
            Stmt::Print(e) => {
                proof {
                    lemma_push_frame(self.frames@, Frame::PrintValue);
                }
                self.frames.push(Frame::PrintValue);
                RunAction::Evaluate(e)
            },
            Stmt::Function(f) => {
                it.declare_function(f);
                proof {
                    lemma_environment_exists(*it);
                }
                self.pending = Some(Ok(Value::Nil));
                RunAction::Continue
            },
            Stmt::Return(Return { value, .. }) => {
                match value {
                    Some(e) => {
                        proof {
                            lemma_push_frame(self.frames@, Frame::ReturnValue);
                        }
                        self.frames.push(Frame::ReturnValue);
                        RunAction::Evaluate(e)
                    },
                    None => {
                        self.pending = Some(Err(Signal::Return(Value::Nil)));
                        RunAction::Continue
                    },
                }
            },
        }
    }

    fn evaluated(&mut self, it: &mut Interpreter, top: Frame<'a>, r: Result<Value, RuntimeError>) -> (res: RunAction<'a>)
        requires
            old(it).wf(),
            waits_for_value(top),
            frame_ok(top),
            old(self).pending() is None,
            all_ok(old(self).frames()),
            all_enclosing(old(self).frames()),
        ensures
            final(it).wf(),
            final(self).wf(),
            match r {
                Ok(v) => value_effect(old(self).frames(), top, v, final(self).frames(), final(self).pending(), res, *old(it), *final(it)),
                Err(e) => {
                    &&& final(self).frames() == old(self).frames()
                    &&& final(self).pending() == Some(Err::<Value, Signal>(Signal::RuntimeError(e)))
                    &&& res is Continue
                    &&& *final(it) == *old(it)
                },
            },
    {
        proof {
            lemma_enclosing_all(old(self).frames());
        }
        let v = match r {
            Ok(v) => v,
            Err(e) => {
                self.pending = Some(Err(Signal::RuntimeError(e)));
                return RunAction::Continue;
            },
        };
        match top {
            Frame::WhileCondition { condition, body } => {
                if is_truthy(&v) {
                    proof {
                        lemma_push_frame(self.frames@, Frame::WhileBody { condition, body });
                    }
                    self.frames.push(Frame::WhileBody { condition, body });
                    proof {
                        lemma_push_frame(self.frames@, Frame::Run(body));
                    }
                    self.frames.push(Frame::Run(body));
                } else {
                    self.pending = Some(Ok(Value::Nil));
                }
                RunAction::Continue
            },
            Frame::IfCondition { then_branch, else_branch } => {
                if is_truthy(&v) {
                    proof {
                        lemma_push_frame(self.frames@, Frame::Run(then_branch));
                    }
                    self.frames.push(Frame::Run(then_branch));
                } else {
                    match else_branch {
                        Some(e) => {
                            proof {
                                lemma_push_frame(self.frames@, Frame::Run(e));
                            }
                            self.frames.push(Frame::Run(e));
                        },
                        None => {
                            self.pending = Some(Ok(Value::Nil));
                        },
                    }
                }
                RunAction::Continue
            },
            Frame::VarValue(name) => {
                it.define(name.lexeme.clone(), Some(v));
                proof {
                    lemma_environment_exists(*it);
                }
                self.pending = Some(Ok(Value::Nil));
                RunAction::Continue
            },
            Frame::PrintValue => {
                proof {
                    lemma_push_frame(self.frames@, Frame::Printing);
                }
                self.frames.push(Frame::Printing);
                RunAction::Print(v)
            },
            Frame::ExpressionValue => {
                self.pending = Some(Ok(v));
                RunAction::Continue
            },
            Frame::ReturnValue => {
                self.pending = Some(Err(Signal::Return(v)));
                RunAction::Continue
            },
            Frame::SuperclassValue(class) => {
                let r = it.class_decl(class, Some(v));
                proof {
                    lemma_environment_exists(*it);
                }
                match r {
                    Ok(()) => {
                        self.pending = Some(Ok(Value::Nil));
                        RunAction::Continue
                    },
                    Err(e) => {
                        self.pending = Some(Err(Signal::RuntimeError(copy_error(&e))));
                        RunAction::ReportError(e)
                    },
                }
            },
            _ => {
                proof {
                    assert(false);
                }
                RunAction::Continue
            },
        }
    }

    /// Take one step on `event` (which must be what the runner waits for; see
    /// `accepts`), and say what is to be done next (see `step_effect`).
    ///
    /// A statement runs by asking for the values of its expressions: `if` runs a
    /// branch by the truth of its condition; `while` runs its body as long as its
    /// condition is true; a block runs its statements one after the other in a new
    /// environment, goes on past a failed statement and leaves at a `return`, and
    /// then restores the environment it started in; a variable declaration defines
    /// the variable (as `nil` without an initializer); `print` asks for its value to
    /// be printed; a function or class declaration declares it; `return` ends with
    /// its value. A statement that fails ends with its error.
    pub fn step(&mut self, it: &mut Interpreter, event: RunEvent) -> (res: RunAction<'a>)
        requires
            old(self).wf(),
            old(it).wf(),
            old(self).accepts_spec(event),
        ensures
            final(self).wf(),
            final(it).wf(),
            step_effect(
                old(self).frames(),
                old(self).pending(),
                event,
                final(self).frames(),
                final(self).pending(),
                res,
                *old(it),
                *final(it),
            ),
    {
        if let Some(o) = self.pending.take() {
            return self.deliver(it, o);
        }
        let n = self.frames.len();
        if n == 0 {
            return RunAction::Done(Ok(Value::Nil));
        }
        let top = self.frames.pop().unwrap();
        proof {
            assert(self.frames@ == old(self).frames().drop_last());
            lemma_pop_frame(old(self).frames());
            lemma_enclosing_all(self.frames@);
        }
        match top {
            Frame::Run(s) => self.run(it, s),
            Frame::Block { stmts, next, saved, had_error } => self.advance(it, stmts, next, saved, had_error),
            Frame::WhileBody { condition, body } => {
                proof {
                    lemma_push_frame(self.frames@, Frame::WhileCondition { condition, body });
                }
                self.frames.push(Frame::WhileCondition { condition, body });
                RunAction::Evaluate(condition)
            },
            Frame::Printing => {
                self.pending = Some(Ok(Value::Nil));
                RunAction::Continue
            },
            _ => match event {
                RunEvent::Evaluated(r) => self.evaluated(it, top, r),
                _ => {
                    proof {
                        assert(false);
                    }
                    RunAction::Continue
                },
            },
        }
    }

    /// Whether `event` is what the runner waits for (see `accepts_spec`).
    pub fn accepts(&self, event: &RunEvent) -> (res: bool)
        ensures
            res == self.accepts_spec(*event),
    {
        let n = self.frames.len();
        if self.pending.is_none() && n > 0 {
            match &self.frames[n - 1] {
                Frame::WhileCondition { .. } | Frame::IfCondition { .. } | Frame::VarValue(_)
                | Frame::PrintValue | Frame::ExpressionValue | Frame::ReturnValue
                | Frame::SuperclassValue(_) => {
                    return match event {
                        RunEvent::Evaluated(_) => true,
                        _ => false,
                    };
                },
                Frame::Printing => {
                    return match event {
                        RunEvent::Printed => true,
                        _ => false,
                    };
                },
                _ => {},
            }
        }
        match event {
            RunEvent::Resume => true,
            _ => false,
        }
    }
}


/// What a program does next: run one of its statements, or end.
#[derive(Debug)]
pub enum ProgramStep {
    /// Run the statement at this index.
    Run(usize),
    /// The program has ended with this outcome.
    Finish(Result<Value, Signal>),
}

/// Whether `step` ends a program that ran to its end on `it`: with a failure if a
/// run-time error was recorded, with `nil` otherwise.
pub open spec fn finished_as(it: Interpreter, step: ProgramStep) -> bool {
    step matches ProgramStep::Finish(o) && (if it.had_error() {
        reported_failure(o)
    } else {
        o == Ok::<Value, Signal>(Value::Nil)
    })
}

/// Start a program: resolve it, and run its first statement, or end at once when it
/// has none. A program with a static error does not run: its reports come back.
pub fn program_start(it: &mut Interpreter, stmts: &[Stmt]) -> (res: Result<ProgramStep, Vec<Report>>)
    requires
        old(it).wf(),
        stmts_ok(stmts@),
    ensures
        final(it).wf(),
        final(it).globals() == old(it).globals(),
        final(it).functions() == old(it).functions(),
        final(it).classes() == old(it).classes(),
        final(it).instances() == old(it).instances(),
        final(it).arrays() == old(it).arrays(),
        final(it).envs() == old(it).envs(),
        final(it).environment() == old(it).environment(),
        final(it).had_error() == old(it).had_error(),
        res is Ok <==> stmts_clean(Seq::empty(), FunctionType::NoFunction, ClassType::NoClass, stmts@),
        res is Ok ==> final(it).locals() == insert_all(old(it).locals(), stmts_res(Seq::empty(), stmts@).1),
        res matches Err(reports) ==> reports@.len() > 0,
        res matches Ok(step) ==> if stmts@.len() > 0 {
            step == ProgramStep::Run(0)
        } else {
            finished_as(*final(it), step)
        },
{
    match it.resolve_program(stmts) {
        Err(reports) => Err(reports),
        Ok(()) => {
            if stmts.len() > 0 {
                Ok(ProgramStep::Run(0))
            } else {
                Ok(ProgramStep::Finish(it.program_outcome()))
            }
        },
    }
}

/// What a program of `count` statements does once its statement `done` ended with
/// `outcome`: a failure ends it there; otherwise the next statement runs, and after
/// the last the program ends as `finished_as` says.
pub fn program_next(it: &Interpreter, count: usize, done: usize, outcome: Result<Value, Signal>) -> (res: ProgramStep)
    requires
        done < count,
    ensures
        outcome is Err ==> res == ProgramStep::Finish(outcome),
        outcome is Ok && done + 1 < count ==> res == ProgramStep::Run((done + 1) as usize),
        outcome is Ok && done + 1 >= count ==> finished_as(*it, res),
{
    match outcome {
        Err(e) => ProgramStep::Finish(Err(e)),
        Ok(_) => {
            if done + 1 < count {
                ProgramStep::Run(done + 1)
            } else {
                ProgramStep::Finish(it.program_outcome())
            }
        },
    }
}


/// Entering a block makes one new, empty environment, nested in the environment
/// current when the block is entered, and the block runs in it; every other
/// environment stays as it was.
pub proof fn lemma_block_nests_in_current<'a>(
    rest: Seq<Frame<'a>>,
    s: &'a Stmt,
    event: RunEvent,
    frames: Seq<Frame<'a>>,
    pending: Option<Result<Value, Signal>>,
    res: RunAction<'a>,
    before: Interpreter,
    after: Interpreter,
)
    requires
        *s is Block,
        step_effect(rest.push(Frame::Run(s)), None, event, frames, pending, res, before, after),
    ensures
        after.envs().frames().len() == before.envs().frames().len() + 1,
        after.environment() == before.envs().frames().len(),
        after.envs().frames()[after.environment()].enclosing == Some(before.environment() as usize),
        after.envs().frames()[after.environment()].values@.len() == 0,
        forall|e: int|
            0 <= e < before.envs().frames().len() ==> #[trigger] after.envs().frames()[e]
                == before.envs().frames()[e],
{
    let old_frames = rest.push(Frame::Run(s));
    assert(old_frames.drop_last() =~= rest);
    assert(old_frames.last() == Frame::Run(s));
    let f = after.envs().frames();
    assert forall|e: int| 0 <= e < before.envs().frames().len() implies #[trigger] f[e] == before.envs().frames()[e] by {
        assert(f.drop_last()[e] == f[e]);
    }
}

/// Whenever a step of the runner leaves a block (its frame is gone from the work
/// left), by running out of statements or by a `return`, the interpreter executes
/// in the environment the block was entered from again, every environment as it was.
pub proof fn lemma_block_exit_restores<'a>(
    rest: Seq<Frame<'a>>,
    stmts: &'a [Stmt],
    next: usize,
    saved: usize,
    had_error: bool,
    old_pending: Option<Result<Value, Signal>>,
    event: RunEvent,
    pending: Option<Result<Value, Signal>>,
    res: RunAction<'a>,
    before: Interpreter,
    after: Interpreter,
)
    requires
        step_effect(
            rest.push(Frame::Block { stmts, next, saved, had_error }),
            old_pending,
            event,
            rest,
            pending,
            res,
            before,
            after,
        ),
    ensures
        after.envs() == before.envs(),
        after.environment() == if saved < before.envs().frames().len() {
            saved as int
        } else {
            before.environment()
        },
{
    let old_frames = rest.push(Frame::Block { stmts, next, saved, had_error });
    assert(old_frames.drop_last() =~= rest);
    assert(old_frames.last() == Frame::Block { stmts, next, saved, had_error });
    match old_pending {
        Some(o) => {
            match o {
                Err(Signal::Return(v)) => {},
                _ => {
                    assert(rest.push(Frame::Block { stmts, next, saved, had_error: had_error || o is Err }).len()
                        != rest.len());
                },
            }
        },
        None => {
            if next < stmts@.len() {
                assert(rest.len() != rest.len() + 2);
            }
        },
    }
}

} // verus!
