//! A Lox front end and runtime core: lexer, parser, resolver and the
//! interpreter's state (environments, classes, instances and arrays).

pub mod tokens;
pub mod lexer;
pub mod expr;
pub mod stmt;
pub mod grammar;
pub mod parser;
pub mod resolver;
pub mod value;
pub mod environment;
pub mod interpreter;
pub mod runner;

use vstd::prelude::*;
use crate::tokens::{Token, TokenType};
pub use crate::tokens::Literal;

verus! {

/// A compile-time error, as it is to be shown to the user.
#[derive(Debug)]
pub enum Report {
    /// `[line N] Error at end: message`
    AtEnd { line: usize, message: String },
    /// `[line N] Error at 'lexeme': message`
    At { line: usize, lexeme: String, message: String },
    /// `[line N] Error: message`
    OnLine { line: usize, message: String },
    /// `message`
    Plain { message: String },
}

/// The characters `s[from..to]` as a `String`.
#[verifier::external_body]
pub fn string_of(s: &Vec<char>, from: usize, to: usize) -> (res: String)
    requires
        from <= to <= s.len(),
    ensures
        res@ == s@.subrange(from as int, to as int),
{
    String::from_iter(s[from..to].iter())
}

/// Append the characters of `s` to `out`.
pub fn push_chars(s: &str, out: &mut Vec<char>)
    ensures
        final(out)@ == old(out)@ + s@,
{
    for ch in it: s.chars()
        invariant
            out@ == old(out)@ + it.seq().take(it.index() as int),
    {
        out.push(ch);
    }
    proof {
        broadcast use vstd::string::group_string_axioms;
    }
    assert(out@ =~= old(out)@ + s@);
}

/// The texts of a list's elements, separated by `", "`.
pub open spec fn joined(parts: Seq<Seq<char>>) -> Seq<char>
    decreases parts.len(),
{
    if parts.len() == 0 {
        Seq::empty()
    } else if parts.len() == 1 {
        parts[0]
    } else {
        joined(parts.drop_last()) + ", "@ + parts.last()
    }
}

/// How an array is printed, given the printed texts of its elements: the texts
/// separated by `", "` in square brackets.
pub fn array_text(parts: &Vec<String>) -> (res: String)
    ensures
        res@ == "["@ + joined(parts@.map_values(|p: String| p@)) + "]"@,
{
    let ghost texts = parts@.map_values(|p: String| p@);
    let mut chars: Vec<char> = Vec::new();
    push_chars("[", &mut chars);
    let mut i: usize = 0;
    proof {
        reveal_strlit("[");
        reveal_strlit(", ");
        assert(texts.take(0) =~= Seq::<Seq<char>>::empty());
    }
    while i < parts.len()
        invariant
            i <= parts.len(),
            texts == parts@.map_values(|p: String| p@),
            chars@ == "["@ + joined(texts.take(i as int)),
            "["@ =~= seq!['['],
            ", "@ =~= seq![',', ' '],
        decreases parts.len() - i,
    {
        if i > 0 {
            push_chars(", ", &mut chars);
        }
        push_chars(parts[i].as_str(), &mut chars);
        proof {
            let done = texts.take(i + 1);
            assert(done.drop_last() =~= texts.take(i as int));
            assert(done.last() == parts@[i as int]@);
            if i == 0 {
                assert(done =~= seq![parts@[0]@]);
            }
        }
        i = i + 1;
    }
    push_chars("]", &mut chars);
    proof {
        assert(texts.take(parts@.len() as int) =~= texts);
    }
    let n = chars.len();
    string_of(&chars, 0, n)
}

/// The concatenation of two texts.
pub fn concat2(a: &str, b: &str) -> (res: String)
    ensures
        res@ == a@ + b@,
{
    let mut chars: Vec<char> = Vec::new();
    push_chars(a, &mut chars);
    push_chars(b, &mut chars);
    let n = chars.len();
    string_of(&chars, 0, n)
}

/// The concatenation of three texts.
pub fn concat3(a: &str, b: &str, c: &str) -> (res: String)
    ensures
        res@ == a@ + b@ + c@,
{
    let mut chars: Vec<char> = Vec::new();
    push_chars(a, &mut chars);
    push_chars(b, &mut chars);
    push_chars(c, &mut chars);
    assert(chars@ =~= a@ + b@ + c@);
    let n = chars.len();
    string_of(&chars, 0, n)
}

/// The decimal digit for `d`.
pub open spec fn digit(d: int) -> char {
    if d == 0 {
        '0'
    } else if d == 1 {
        '1'
    } else if d == 2 {
        '2'
    } else if d == 3 {
        '3'
    } else if d == 4 {
        '4'
    } else if d == 5 {
        '5'
    } else if d == 6 {
        '6'
    } else if d == 7 {
        '7'
    } else if d == 8 {
        '8'
    } else {
        '9'
    }
}

/// The decimal numeral of `n`.
pub open spec fn decimal(n: nat) -> Seq<char>
    decreases n,
{
    if n < 10 {
        seq![digit(n as int)]
    } else {
        decimal(n / 10) + seq![digit((n % 10) as int)]
    }
}

fn digit_char(d: usize) -> (res: char)
    requires
        d < 10,
    ensures
        res == digit(d as int),
{
    if d == 0 {
        '0'
    } else if d == 1 {
        '1'
    } else if d == 2 {
        '2'
    } else if d == 3 {
        '3'
    } else if d == 4 {
        '4'
    } else if d == 5 {
        '5'
    } else if d == 6 {
        '6'
    } else if d == 7 {
        '7'
    } else if d == 8 {
        '8'
    } else {
        '9'
    }
}

fn push_decimal(n: usize, out: &mut Vec<char>)
    ensures
        final(out)@ == old(out)@ + decimal(n as nat),
    decreases n,
{
    if n >= 10 {
        push_decimal(n / 10, out);
    }
    out.push(digit_char(n % 10));
    proof {
        if n >= 10 {
            assert(final(out)@ =~= old(out)@ + decimal(n as nat));
        } else {
            assert(final(out)@ =~= old(out)@ + decimal(n as nat));
        }
    }
}

/// The decimal numeral of `n`, as text.
pub fn decimal_string(n: usize) -> (res: String)
    ensures
        res@ == decimal(n as nat),
{
    let mut chars: Vec<char> = Vec::new();
    push_decimal(n, &mut chars);
    assert(chars@ =~= decimal(n as nat));
    let len = chars.len();
    string_of(&chars, 0, len)
}

/// Whether the text of `s` is `lit`.
pub fn text_is(s: &String, lit: &str) -> (res: bool)
    ensures
        res == (s@ == lit@),
{
    *s == lit.to_owned()
}

/// Whether `r` reports the error `message` at token `t`.
pub open spec fn reports_at(r: Report, t: Token, message: Seq<char>) -> bool {
    if t.token_type == TokenType::EOF {
        r matches Report::AtEnd { line, message: m } && line == t.line && m@ == message
    } else {
        r matches Report::At { line, lexeme, message: m } && line == t.line && lexeme == t.lexeme
            && m@ == message
    }
}

/// The message that a report carries.
pub open spec fn report_message(r: Report) -> Seq<char> {
    match r {
        Report::AtEnd { message, .. } => message@,
        Report::At { message, .. } => message@,
        Report::OnLine { message, .. } => message@,
        Report::Plain { message } => message@,
    }
}

/// The report of a compile-time error at `token` (or at no token).
pub fn compile_time_error(token: Option<&Token>, message: &str) -> (res: Report)
    ensures
        match token {
            Some(t) => reports_at(res, *t, message@),
            None => res matches Report::Plain { message: m } && m@ == message@,
        },
{
    match token {
        Some(t) => {
            if t.token_type == TokenType::EOF {
                Report::AtEnd { line: t.line, message: message.to_owned() }
            } else {
                Report::At { line: t.line, lexeme: t.lexeme.clone(), message: message.to_owned() }
            }
        },
        None => Report::Plain { message: message.to_owned() },
    }
}

/// A run-time error: its message, and the line of the token where it arose, if any.
#[derive(Debug)]
pub struct RuntimeError {
    pub message: String,
    pub line: Option<usize>,
}

/// The run-time error `message` at `token` (or at no token).
pub fn runtime_error(token: Option<&Token>, message: &str) -> (res: RuntimeError)
    ensures
        res.message@ == message@,
        res.line == match token {
            Some(t) => Some(t.line),
            None => None::<usize>,
        },
{
    RuntimeError {
        message: message.to_owned(),
        line: match token {
            Some(t) => Some(t.line),
            None => None,
        },
    }
}

} // verus!
