use vstd::prelude::*;
use crate::tokens::Token;
use crate::value::{entry, find_entry, last_index, lemma_last_index, set_entry, Value};
use crate::{concat3, decimal, decimal_string, RuntimeError};

verus! {

/// One scope of variables at run time, and the scope that encloses it.
#[derive(Debug)]
pub struct Environment {
    pub enclosing: Option<usize>,
    /// Each variable and its value; a variable without a value is declared but not yet defined.
    pub values: Vec<(String, Option<Value>)>,
}

/// All the environments of a run, each known by its index. An environment can only
/// be enclosed by one made before it.
pub struct Environments {
    frames: Vec<Environment>,
}

/// The value of `name` seen from environment `e`: the innermost environment on the
/// chain from `e` outwards where `name` has a value.
pub open spec fn env_get(frames: Seq<Environment>, e: int, name: Seq<char>) -> Option<Value>
    decreases e,
{
    if 0 <= e < frames.len() {
        match entry(frames[e].values@, name) {
            Some(Some(v)) => Some(v),
            _ => match frames[e].enclosing {
                Some(p) => if p < e {
                    env_get(frames, p as int, name)
                } else {
                    None
                },
                None => None,
            },
        }
    } else {
        None
    }
}

/// The environment that `distance` steps out from `e` reaches.
pub open spec fn env_ancestor(frames: Seq<Environment>, e: int, distance: nat) -> Option<int>
    decreases distance,
{
    if distance == 0 {
        Some(e)
    } else if 0 <= e < frames.len() {
        match frames[e].enclosing {
            Some(p) => env_ancestor(frames, p as int, (distance - 1) as nat),
            None => None,
        }
    } else {
        None
    }
}

/// The innermost environment on the chain from `e` outwards that declares `name`.
pub open spec fn env_holder(frames: Seq<Environment>, e: int, name: Seq<char>) -> Option<int>
    decreases e,
{
    if 0 <= e < frames.len() {
        if last_index(frames[e].values@, name) is Some {
            Some(e)
        } else {
            match frames[e].enclosing {
                Some(p) => if p < e {
                    env_holder(frames, p as int, name)
                } else {
                    None
                },
                None => None,
            }
        }
    } else {
        None
    }
}

/// The error for reading or assigning an undefined variable.
pub open spec fn undefined_message(name: Seq<char>) -> Seq<char> {
    "Undefined variable '"@ + name + "'."@
}

/// The error for reading or assigning the undefined variable `name`.
fn undefined(name: &Token) -> (res: RuntimeError)
    ensures
        res.message@ == undefined_message(name.lexeme@),
        res.line == Some(name.line),
{
    RuntimeError {
        message: concat3("Undefined variable '", name.lexeme.as_str(), "'."),
        line: Some(name.line),
    }
}

impl Environments {
    pub closed spec fn frames(&self) -> Seq<Environment> {
        self.frames@
    }

    pub open spec fn wf(&self) -> bool {
        forall|e: int|
            0 <= e < self.frames().len() ==> (#[trigger] self.frames()[e].enclosing matches Some(p)
                ==> p < e)
    }

    /// No environments yet.
    pub fn new() -> (res: Self)
        ensures
            res.wf(),
            res.frames().len() == 0,
    {
        Environments { frames: Vec::new() }
    }

    /// How many environments there are.
    pub fn len(&self) -> (res: usize)
        ensures
            res == self.frames().len(),
    {
        self.frames.len()
    }

    /// The environment that encloses `env`.
    pub fn enclosing(&self, env: usize) -> (res: Option<usize>)
        requires
            env < self.frames().len(),
        ensures
            res == self.frames()[env as int].enclosing,
    {
        self.frames[env].enclosing
    }

    /// Make a new, empty environment inside `enclosing`, and return its index.
    pub fn new_with_enclosing(&mut self, enclosing: Option<usize>) -> (res: usize)
        requires
            old(self).wf(),
            enclosing matches Some(p) ==> p < old(self).frames().len(),
        ensures
            final(self).wf(),
            res == old(self).frames().len(),
            final(self).frames().len() == old(self).frames().len() + 1,
            final(self).frames().drop_last() == old(self).frames(),
            final(self).frames()[res as int].enclosing == enclosing,
            final(self).frames()[res as int].values@.len() == 0,
    {
        let res = self.frames.len();
        self.frames.push(Environment { enclosing, values: Vec::new() });
        assert(self.frames@.drop_last() =~= old(self).frames@);
        res
    }

    /// Give `name` the value `value` (or declare it without one) in environment `env`.
    pub fn define(&mut self, env: usize, name: String, value: Option<Value>)
        requires
            old(self).wf(),
            env < old(self).frames().len(),
        ensures
            final(self).wf(),
            final(self).frames().len() == old(self).frames().len(),
            forall|e: int|
                0 <= e < old(self).frames().len() && e != env ==> #[trigger] final(self).frames()[e]
                    == old(self).frames()[e],
            final(self).frames()[env as int].enclosing == old(self).frames()[env as int].enclosing,
            forall|k: Seq<char>|
                #[trigger] entry(final(self).frames()[env as int].values@, k) == if k == name@ {
                    Some(value)
                } else {
                    entry(old(self).frames()[env as int].values@, k)
                },
            forall|k: Seq<char>|
                (#[trigger] last_index(final(self).frames()[env as int].values@, k) is Some) == (k
                    == name@ || last_index(old(self).frames()[env as int].values@, k) is Some),
            value matches Some(v) ==> env_get(final(self).frames(), env as int, name@) == Some(v),
    {
        let mut frame = Environment { enclosing: None, values: Vec::new() };
        self.frames.set_and_swap(env, &mut frame);
        set_entry(&mut frame.values, name, value);
        self.frames.set(env, frame);
    }

    /// The value of `name` seen from environment `env`.
    pub fn get(&self, env: usize, name: &Token) -> (res: Result<Value, RuntimeError>)
        requires
            self.wf(),
        ensures
            match env_get(self.frames(), env as int, name.lexeme@) {
                Some(v) => res == Ok::<Value, RuntimeError>(v),
                None => res matches Err(e) && e.message@ == undefined_message(name.lexeme@)
                    && e.line == Some(name.line),
            },
    {
        let mut e = env;
        loop
            invariant
                self.wf(),
                env_get(self.frames(), env as int, name.lexeme@) == env_get(
                    self.frames(),
                    e as int,
                    name.lexeme@,
                ),
            decreases e,
        {
            if e >= self.frames.len() {
                return Err(undefined(name));
            }
            let frame = &self.frames[e];
            let ghost found = entry(frame.values@, name.lexeme@);
            assert(env_get(self.frames(), e as int, name.lexeme@) == match found {
                Some(Some(v)) => Some(v),
                _ => match frame.enclosing {
                    Some(p) => if p < e {
                        env_get(self.frames(), p as int, name.lexeme@)
                    } else {
                        None
                    },
                    None => None,
                },
            });
            match find_entry(&frame.values, &name.lexeme) {
                Some(i) => {
                    proof {
                        lemma_last_index(frame.values@, name.lexeme@);
                    }
                    let slot = &frame.values[i].1;
                    assert(last_index(frame.values@, name.lexeme@) == Some(i as int));
                    assert(*slot == frame.values@[i as int].1);
                    assert(found == Some(*slot));
                    match slot {
                        Some(v) => {
                            return Ok(v.clone());
                        },
                        None => {},
                    }
                },
                None => {},
            }
            match frame.enclosing {
                Some(p) => {
                    if p < e {
                        e = p;
                    } else {
                        return Err(undefined(name));
                    }
                },
                None => {
                    return Err(undefined(name));
                },
            }
        }
    }

    /// The environment `distance` steps out from `env`, if the chain is that long.
    pub fn ancestor(&self, env: usize, distance: usize) -> (res: Option<usize>)
        requires
            self.wf(),
        ensures
            res matches Some(a) ==> env_ancestor(self.frames(), env as int, distance as nat) == Some(
                a as int,
            ),
            res is None ==> env_ancestor(self.frames(), env as int, distance as nat) is None,
            res matches Some(a) ==> a <= env,
    {
        let mut e = env;
        let mut d: usize = 0;
        while d < distance
            invariant
                self.wf(),
                d <= distance,
                e <= env,
                env_ancestor(self.frames(), env as int, distance as nat) == env_ancestor(
                    self.frames(),
                    e as int,
                    (distance - d) as nat,
                ),
            decreases distance - d,
        {
            if e >= self.frames.len() {
                return None;
            }
            match self.frames[e].enclosing {
                Some(p) => {
                    e = p;
                },
                None => {
                    return None;
                },
            }
            d = d + 1;
        }
        Some(e)
    }

    /// The value of `name` seen from the environment `distance` steps out from `env`.
    pub fn get_at(&self, env: usize, distance: usize, name: &Token) -> (res: Result<Value, RuntimeError>)
        requires
            self.wf(),
        ensures
            match env_ancestor(self.frames(), env as int, distance as nat) {
                Some(a) => match env_get(self.frames(), a, name.lexeme@) {
                    Some(v) => res == Ok::<Value, RuntimeError>(v),
                    None => res matches Err(e) && e.message@ == undefined_message(name.lexeme@)
                        && e.line == Some(name.line),
                },
                None => res matches Err(e) && e.message@ == "Undefined variable '"@ + name.lexeme@
                    + "' at distance "@ + decimal(distance as nat) + "."@ && e.line == Some(name.line),
            },
    {
        match self.ancestor(env, distance) {
            Some(a) => self.get(a, name),
            None => {
                let head = concat3("Undefined variable '", name.lexeme.as_str(), "' at distance ");
                let message = concat3(head.as_str(), decimal_string(distance).as_str(), ".");
                assert(message@ =~= "Undefined variable '"@ + name.lexeme@ + "' at distance "@
                    + decimal(distance as nat) + "."@);
                Err(RuntimeError { message, line: Some(name.line) })
            },
        }
    }

    /// Assign `value` to `name` in the innermost environment, from `env` outwards, that declares it.
    pub fn assign(&mut self, env: usize, name: &Token, value: Value) -> (res: Result<(), RuntimeError>)
        requires
            old(self).wf(),
        ensures
            final(self).wf(),
            final(self).frames().len() == old(self).frames().len(),
            match env_holder(old(self).frames(), env as int, name.lexeme@) {
                Some(h) => {
                    &&& res is Ok
                    &&& forall|e: int|
                        0 <= e < old(self).frames().len() && e != h ==> #[trigger] final(self).frames()[e]
                            == old(self).frames()[e]
                    &&& final(self).frames()[h].enclosing == old(self).frames()[h].enclosing
                    &&& forall|k: Seq<char>|
                        #[trigger] entry(final(self).frames()[h].values@, k) == if k == name.lexeme@ {
                            Some(Some(value))
                        } else {
                            entry(old(self).frames()[h].values@, k)
                        }
                    &&& forall|k: Seq<char>|
                        (#[trigger] last_index(final(self).frames()[h].values@, k) is Some) == (
                        last_index(old(self).frames()[h].values@, k) is Some)
                },
                None => {
                    &&& final(self).frames() == old(self).frames()
                    &&& res matches Err(e) && e.message@ == undefined_message(name.lexeme@) && e.line == Some(
                        name.line,
                    )
                },
            },
            res is Ok ==> env_get(final(self).frames(), env as int, name.lexeme@) == Some(value),
    {
        let mut e = env;
        loop
            invariant
                self.wf(),
                *self == *old(self),
                env_holder(self.frames(), env as int, name.lexeme@) == env_holder(
                    self.frames(),
                    e as int,
                    name.lexeme@,
                ),
            decreases e,
        {
            if e >= self.frames.len() {
                return Err(undefined(name));
            }
            if find_entry(&self.frames[e].values, &name.lexeme).is_some() {
                let ghost before = self.frames();
                self.define(e, name.lexeme.clone(), Some(value));
                proof {
                    lemma_get_after_assign(before, self.frames(), env as int, e as int, name.lexeme@, value);
                }
                return Ok(());
            }
            match self.frames[e].enclosing {
                Some(p) => {
                    if p < e {
                        e = p;
                    } else {
                        return Err(undefined(name));
                    }
                },
                None => {
                    return Err(undefined(name));
                },
            }
        }
    }

    /// Assign `value` to `name`, looking from the environment `distance` steps out from `env`.
    pub fn assign_at(&mut self, env: usize, distance: usize, name: &Token, value: Value) -> (res: Result<(), RuntimeError>)
        requires
            old(self).wf(),
        ensures
            final(self).wf(),
            final(self).frames().len() == old(self).frames().len(),
            match env_ancestor(old(self).frames(), env as int, distance as nat) {
                Some(a) => match env_holder(old(self).frames(), a, name.lexeme@) {
                    Some(h) => {
                        &&& res is Ok
                        &&& forall|e: int|
                            0 <= e < old(self).frames().len() && e != h ==> #[trigger] final(self).frames()[e]
                                == old(self).frames()[e]
                        &&& final(self).frames()[h].enclosing == old(self).frames()[h].enclosing
                        &&& env_get(final(self).frames(), a, name.lexeme@) == Some(value)
                        &&& forall|k: Seq<char>|
                            #[trigger] entry(final(self).frames()[h].values@, k) == if k == name.lexeme@ {
                                Some(Some(value))
                            } else {
                                entry(old(self).frames()[h].values@, k)
                            }
                    },
                    None => final(self).frames() == old(self).frames() && (res matches Err(e) && e.message@
                        == undefined_message(name.lexeme@) && e.line == Some(name.line)),
                },
                None => final(self).frames() == old(self).frames() && (res matches Err(e) && e.message@
                    == "Undefined variable '"@ + name.lexeme@ + "' at distance "@ + decimal(distance as nat)
                    + "."@ && e.line == Some(name.line)),
            },
    {
        match self.ancestor(env, distance) {
            Some(a) => self.assign(a, name, value),
            None => {
                let head = concat3("Undefined variable '", name.lexeme.as_str(), "' at distance ");
                let message = concat3(head.as_str(), decimal_string(distance).as_str(), ".");
                assert(message@ =~= "Undefined variable '"@ + name.lexeme@ + "' at distance "@
                    + decimal(distance as nat) + "."@);
                Err(RuntimeError { message, line: Some(name.line) })
            },
        }
    }
}


/// Assigning to a variable changes no environment's enclosing one, so the chain
/// outwards from any environment stays as it was.
pub proof fn lemma_ancestor_same_chain(before: Seq<Environment>, after: Seq<Environment>, e: int, distance: nat)
    requires
        after.len() == before.len(),
        forall|x: int| 0 <= x < before.len() ==> #[trigger] after[x].enclosing == before[x].enclosing,
    ensures
        env_ancestor(after, e, distance) == env_ancestor(before, e, distance),
    decreases distance,
{
    if distance > 0 && 0 <= e < before.len() {
        if let Some(p) = before[e].enclosing {
            lemma_ancestor_same_chain(before, after, p as int, (distance - 1) as nat);
        }
    }
}

/// Once `value` is assigned to `name` in `h`, the environment that declares `name`
/// innermost seen from `e`, the variable read from `e` is `value`.
proof fn lemma_get_after_assign(
    before: Seq<Environment>,
    after: Seq<Environment>,
    e: int,
    h: int,
    name: Seq<char>,
    value: Value,
)
    requires
        env_holder(before, e, name) == Some(h),
        after.len() == before.len(),
        forall|x: int| 0 <= x < before.len() && x != h ==> #[trigger] after[x] == before[x],
        after[h].enclosing == before[h].enclosing,
        entry(after[h].values@, name) == Some(Some(value)),
    ensures
        env_get(after, e, name) == Some(value),
    decreases e,
{
    if e != h {
        assert(after[e] == before[e]);
        if let Some(p) = before[e].enclosing {
            if p < e {
                lemma_get_after_assign(before, after, p as int, h, name, value);
            }
        }
    }
}

} // verus!
