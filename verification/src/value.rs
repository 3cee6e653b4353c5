use vstd::prelude::*;

verus! {

/// The native functions that every interpreter defines globally.
#[derive(Debug, Clone, Copy, PartialEq, Eq, Structural)]
pub enum Native {
    Clock,
    Len,
    Push,
    Pop,
    Slice,
}

/// A Lox value.
///
/// Functions, classes, instances and arrays live in the interpreter's stores; a
/// value refers to one by its index there, so that two values refer to the same
/// object exactly when their indices agree.
#[derive(Debug)]
pub enum Value {
    /// A Lox number, as the bits of an IEEE 754 single-precision float.
    /// The library never computes with numbers itself.
    Number(u32),
    /// A Lox string.
    String(String),
    /// A Lox Boolean.
    Bool(bool),
    /// A Lox function.
    Callable(usize),
    /// A native Lox function.
    NativeFunction(Native),
    /// A Lox class.
    Class(usize),
    /// An instance of a Lox class.
    Instance(usize),
    /// An array of values.
    Array(usize),
    /// The special Lox value, `nil`.
    Nil,
}

impl Clone for Value {
    fn clone(&self) -> (res: Self)
        ensures
            res == *self,
    {
        match self {
            Value::Number(n) => Value::Number(*n),
            Value::String(s) => Value::String(s.clone()),
            Value::Bool(b) => Value::Bool(*b),
            Value::Callable(f) => Value::Callable(*f),
            Value::NativeFunction(n) => Value::NativeFunction(*n),
            Value::Class(c) => Value::Class(*c),
            Value::Instance(i) => Value::Instance(*i),
            Value::Array(a) => Value::Array(*a),
            Value::Nil => Value::Nil,
        }
    }
}

/// Lox truthiness: `false` and `nil` are false, everything else is true.
pub open spec fn truthy(v: Value) -> bool {
    match v {
        Value::Bool(b) => b,
        Value::Nil => false,
        _ => true,
    }
}

/// Only `false` and `nil` are falsy: every other value, numbers (zero too),
/// strings (the empty one too), functions, classes, instances and arrays, is truthy.
pub proof fn lemma_only_false_and_nil_are_falsy(v: Value)
    ensures
        !truthy(v) <==> (v == Value::Bool(false) || v == Value::Nil),
{
}

/// Whether a value is truthy.
pub fn is_truthy(value: &Value) -> (res: bool)
    ensures
        res == truthy(*value),
{
    match value {
        Value::Bool(val) => *val,
        Value::Nil => false,
        _ => true,
    }
}

/// The index of the last entry named `k` in a list of named entries (a later entry
/// for a name stands for it), if there is one.
pub open spec fn last_index<T>(s: Seq<(String, T)>, k: Seq<char>) -> Option<int>
    decreases s.len(),
{
    if s.len() == 0 {
        None
    } else if s.last().0@ == k {
        Some(s.len() - 1)
    } else {
        last_index(s.drop_last(), k)
    }
}

/// What a list of named entries holds for `k`.
pub open spec fn entry<T>(s: Seq<(String, T)>, k: Seq<char>) -> Option<T> {
    match last_index(s, k) {
        Some(i) => Some(s[i].1),
        None => None,
    }
}

pub proof fn lemma_last_index<T>(s: Seq<(String, T)>, k: Seq<char>)
    ensures
        last_index(s, k) matches Some(i) ==> 0 <= i < s.len() && s[i].0@ == k,
    decreases s.len(),
{
    if s.len() > 0 && s.last().0@ != k {
        lemma_last_index(s.drop_last(), k);
    }
}

/// Replacing the value of an entry changes no entry's position.
pub proof fn lemma_last_index_update<T>(s: Seq<(String, T)>, i: int, n: String, v: T, k: Seq<char>)
    requires
        0 <= i < s.len(),
        n@ == s[i].0@,
    ensures
        last_index(s.update(i, (n, v)), k) == last_index(s, k),
    decreases s.len(),
{
    let t = s.update(i, (n, v));
    if i < s.len() - 1 {
        assert(t.drop_last() =~= s.drop_last().update(i, (n, v)));
        lemma_last_index_update(s.drop_last(), i, n, v, k);
    } else {
        assert(t.drop_last() =~= s.drop_last());
    }
}

/// The index of the last entry named `name`.
pub fn find_entry<T>(s: &Vec<(String, T)>, name: &String) -> (res: Option<usize>)
    ensures
        res matches Some(i) ==> last_index(s@, name@) == Some(i as int),
        res is None ==> last_index(s@, name@) is None,
{
    let mut i = s.len();
    assert(s@.take(i as int) =~= s@);
    while i > 0
        invariant
            i <= s.len(),
            last_index(s@, name@) == last_index(s@.take(i as int), name@),
        decreases i,
    {
        assert(s@.take(i as int).drop_last() =~= s@.take(i - 1));
        if s[i - 1].0 == *name {
            assert(last_index(s@.take(i as int), name@) == Some(i - 1));
            return Some(i - 1);
        }
        i = i - 1;
    }
    None
}

/// Set the entry named `name` to `v`, replacing an existing one in place or adding one at the end.
pub fn set_entry<T>(s: &mut Vec<(String, T)>, name: String, v: T)
    ensures
        forall|k: Seq<char>|
            #[trigger] entry(final(s)@, k) == if k == name@ {
                Some(v)
            } else {
                entry(old(s)@, k)
            },
        forall|k: Seq<char>|
            (#[trigger] last_index(final(s)@, k) is Some) == (k == name@ || last_index(old(s)@, k) is Some),
        forall|i: int|
            0 <= i < final(s)@.len() ==> #[trigger] final(s)@[i].1 == v || (i < old(s)@.len()
                && final(s)@[i] == old(s)@[i]),
{
    match find_entry(s, &name) {
        Some(i) => {
            proof {
                lemma_last_index(old(s)@, name@);
            }
            let ghost n = name;
            s.set(i, (name, v));
            proof {
                assert(s@ =~= old(s)@.update(i as int, (n, v)));
                assert forall|k: Seq<char>| #[trigger] entry(s@, k) == if k == name@ {
                    Some(v)
                } else {
                    entry(old(s)@, k)
                } by {
                    lemma_last_index_update(old(s)@, i as int, n, v, k);
                    lemma_last_index(old(s)@, k);
                }
                assert forall|k: Seq<char>| (#[trigger] last_index(s@, k) is Some) == (k == name@
                    || last_index(old(s)@, k) is Some) by {
                    lemma_last_index_update(old(s)@, i as int, n, v, k);
                }
            }
        },
        None => {
            let ghost n = name;
            s.push((name, v));
            proof {
                assert(s@.drop_last() =~= old(s)@);
                assert forall|k: Seq<char>| #[trigger] entry(s@, k) == if k == n@ {
                    Some(v)
                } else {
                    entry(old(s)@, k)
                } by {
                    lemma_last_index(old(s)@, k);
                    if k != n@ {
                        assert(last_index(s@, k) == last_index(old(s)@, k));
                    }
                }
            }
        },
    }
}

} // verus!
