use vstd::prelude::*;
use crate::tokens::{Literal, Token, TokenType};
use crate::string_of;

verus! {

// ---------------------------------------------------------------------------
// The token grammar, stated over the source as a sequence of characters.
//
// At each position the scanner takes the longest lexeme that some token
// pattern matches (keywords win over identifiers of the same length):
//   whitespace      [ \t\r\f]+              skipped
//   comment         //[^\n]*                skipped
//   NewLine         \n+                     counted, not returned
//   Number          [0-9]+(\.[0-9]+)?
//   String          "([^"\\]|\\[^\n])*"
//   Unterminated    "([^"\\]|\\[^\n])*
//   Identifier      [a-zA-Z_][a-zA-Z0-9_]*  (or the keyword it spells)
//   operators       ( ) { } , . - + ; * / ! != = == < <= > >= 
// A character that starts no pattern is an Error token of that one character.
// ---------------------------------------------------------------------------

/// Classes of characters that the grammar repeats.
#[derive(Clone, Copy)]
pub enum CharClass {
    Space,
    Digit,
    IdentPart,
    LineBreak,
    NotLineBreak,
}

pub open spec fn is_digit(c: char) -> bool {
    '0' <= c <= '9'
}

pub open spec fn is_alpha(c: char) -> bool {
    ('a' <= c <= 'z') || ('A' <= c <= 'Z') || c == '_'
}

pub open spec fn in_class(c: char, cls: CharClass) -> bool {
    match cls {
        CharClass::Space => c == ' ' || c == '\t' || c == '\r' || c == '\x0C',
        CharClass::Digit => is_digit(c),
        CharClass::IdentPart => is_alpha(c) || is_digit(c),
        CharClass::LineBreak => c == '\n',
        CharClass::NotLineBreak => c != '\n',
    }
}

/// The end of the longest run of characters of class `cls` starting at `i`.
pub open spec fn run_end(s: Seq<char>, i: int, cls: CharClass) -> int
    decreases s.len() - i,
{
    if 0 <= i < s.len() && in_class(s[i], cls) {
        run_end(s, i + 1, cls)
    } else {
        i
    }
}

/// The end of the longest string body (`([^"\\]|\\[^\n])*`) starting at `i`.
pub open spec fn string_body_end(s: Seq<char>, i: int) -> int
    decreases s.len() - i,
{
    if i < 0 || i >= s.len() || s[i] == '"' {
        i
    } else if s[i] == '\\' {
        if i + 1 < s.len() && s[i + 1] != '\n' {
            string_body_end(s, i + 2)
        } else {
            i
        }
    } else {
        string_body_end(s, i + 1)
    }
}

/// The keyword that a word spells, or `Identifier`.
pub open spec fn keyword(w: Seq<char>) -> TokenType {
    if w == seq!['a', 'n', 'd'] {
        TokenType::And
    } else if w == seq!['c', 'l', 'a', 's', 's'] {
        TokenType::Class
    } else if w == seq!['e', 'l', 's', 'e'] {
        TokenType::Else
    } else if w == seq!['f', 'a', 'l', 's', 'e'] {
        TokenType::False
    } else if w == seq!['f', 'u', 'n'] {
        TokenType::Fun
    } else if w == seq!['f', 'o', 'r'] {
        TokenType::For
    } else if w == seq!['i', 'f'] {
        TokenType::If
    } else if w == seq!['n', 'i', 'l'] {
        TokenType::Nil
    } else if w == seq!['o', 'r'] {
        TokenType::Or
    } else if w == seq!['p', 'r', 'i', 'n', 't'] {
        TokenType::Print
    } else if w == seq!['r', 'e', 't', 'u', 'r', 'n'] {
        TokenType::Return
    } else if w == seq!['s', 'u', 'p', 'e', 'r'] {
        TokenType::Super
    } else if w == seq!['t', 'h', 'i', 's'] {
        TokenType::This
    } else if w == seq!['t', 'r', 'u', 'e'] {
        TokenType::True
    } else if w == seq!['v', 'a', 'r'] {
        TokenType::Var
    } else if w == seq!['w', 'h', 'i', 'l', 'e'] {
        TokenType::While
    } else {
        TokenType::Identifier
    }
}

/// What the scanner recognises at one position: text to skip, or a token.
#[derive(Clone, Copy)]
pub enum Scanned {
    Skip,
    Token(TokenType),
}

/// The type of a one-character operator token, if `c` is one.
pub open spec fn single_char_token(c: char) -> Option<TokenType> {
    if c == '(' {
        Some(TokenType::LeftParen)
    } else if c == ')' {
        Some(TokenType::RightParen)
    } else if c == '{' {
        Some(TokenType::LeftBrace)
    } else if c == '}' {
        Some(TokenType::RightBrace)
    } else if c == ',' {
        Some(TokenType::Comma)
    } else if c == '.' {
        Some(TokenType::Dot)
    } else if c == '-' {
        Some(TokenType::Minus)
    } else if c == '+' {
        Some(TokenType::Plus)
    } else if c == ';' {
        Some(TokenType::Semicolon)
    } else if c == '*' {
        Some(TokenType::Star)
    } else {
        None
    }
}

/// The one-or-two character operators: the token for `c` alone and for `c` followed by `=`.
pub open spec fn equal_pair(c: char) -> Option<(TokenType, TokenType)> {
    if c == '!' {
        Some((TokenType::Bang, TokenType::BangEqual))
    } else if c == '=' {
        Some((TokenType::Equal, TokenType::EqualEqual))
    } else if c == '<' {
        Some((TokenType::Less, TokenType::LessEqual))
    } else if c == '>' {
        Some((TokenType::Greater, TokenType::GreaterEqual))
    } else {
        None
    }
}

/// The longest match at position `i` (which must be inside `s`): what it is, and where it ends.
pub open spec fn scan(s: Seq<char>, i: int) -> (Scanned, int)
    recommends
        0 <= i < s.len(),
{
    let c = s[i];
    if in_class(c, CharClass::Space) {
        (Scanned::Skip, run_end(s, i, CharClass::Space))
    } else if c == '\n' {
        (Scanned::Token(TokenType::NewLine), run_end(s, i, CharClass::LineBreak))
    } else if c == '/' {
        if i + 1 < s.len() && s[i + 1] == '/' {
            (Scanned::Skip, run_end(s, i, CharClass::NotLineBreak))
        } else {
            (Scanned::Token(TokenType::Slash), i + 1)
        }
    } else if is_digit(c) {
        let j = run_end(s, i, CharClass::Digit);
        if j + 1 < s.len() && s[j] == '.' && is_digit(s[j + 1]) {
            (Scanned::Token(TokenType::Number), run_end(s, j + 1, CharClass::Digit))
        } else {
            (Scanned::Token(TokenType::Number), j)
        }
    } else if c == '"' {
        let k = string_body_end(s, i + 1);
        if k < s.len() && s[k] == '"' {
            (Scanned::Token(TokenType::String), k + 1)
        } else {
            (Scanned::Token(TokenType::UnterminatedString), k)
        }
    } else if is_alpha(c) {
        let j = run_end(s, i + 1, CharClass::IdentPart);
        (Scanned::Token(keyword(s.subrange(i, j))), j)
    } else if equal_pair(c) is Some {
        let (one, two) = equal_pair(c).unwrap();
        if i + 1 < s.len() && s[i + 1] == '=' {
            (Scanned::Token(two), i + 2)
        } else {
            (Scanned::Token(one), i + 1)
        }
    } else if single_char_token(c) is Some {
        (Scanned::Token(single_char_token(c).unwrap()), i + 1)
    } else {
        (Scanned::Token(TokenType::Error), i + 1)
    }
}

/// The number of line breaks in `w`.
pub open spec fn count_newlines(w: Seq<char>) -> nat
    decreases w.len(),
{
    if w.len() == 0 {
        0
    } else {
        count_newlines(w.drop_last()) + if w.last() == '\n' { 1nat } else { 0nat }
    }
}

/// The next token of `s` at or after position `i`, when the current line is `line`:
/// its type, where its lexeme starts and ends, and the line it is reported on.
/// Skipped text and line breaks are passed over; line breaks advance the line,
/// and so do the line breaks inside a (terminated) string, which is reported on
/// the line where it ends.
pub open spec fn next_lexeme(s: Seq<char>, i: int, line: int) -> Option<(TokenType, int, int, int)>
    decreases s.len() - i,
{
    if i < 0 || i >= s.len() {
        None
    } else {
        let (what, j) = scan(s, i);
        if j <= i || j > s.len() {
            None
        } else {
            match what {
                Scanned::Skip => next_lexeme(s, j, line),
                Scanned::Token(TokenType::NewLine) => next_lexeme(s, j, line + (j - i)),
                Scanned::Token(TokenType::String) => Some(
                    (TokenType::String, i, j, line + count_newlines(s.subrange(i + 1, j - 1))),
                ),
                Scanned::Token(t) => Some((t, i, j, line)),
            }
        }
    }
}

/// All the tokens of `s` from position `i` on, when the current line is `line`.
pub open spec fn lexemes(s: Seq<char>, i: int, line: int) -> Seq<(TokenType, int, int, int)>
    decreases s.len() - i,
{
    match next_lexeme(s, i, line) {
        None => Seq::empty(),
        Some((t, a, b, l)) => if i < b <= s.len() {
            seq![(t, a, b, l)] + lexemes(s, b, l)
        } else {
            Seq::empty()
        },
    }
}

proof fn lemma_next_lexeme_kind(s: Seq<char>, i: int, line: int)
    ensures
        next_lexeme(s, i, line) matches Some((t, a, b, l)) ==> t != TokenType::NewLine && t != TokenType::EOF
            && l >= line && i <= a < b <= s.len(),
    decreases s.len() - i,
{
    if 0 <= i < s.len() {
        let (what, j) = scan(s, i);
        if i < j <= s.len() {
            match what {
                Scanned::Skip => lemma_next_lexeme_kind(s, j, line),
                Scanned::Token(TokenType::NewLine) => lemma_next_lexeme_kind(s, j, line + (j - i)),
                _ => {},
            }
        }
    }
}

/// Whether `c` can stand in a name: a letter, a digit or `_`.
pub open spec fn word_char(c: char) -> bool {
    ('a' <= c <= 'z') || ('A' <= c <= 'Z') || c == '_' || ('0' <= c <= '9')
}

/// The token that `next_lexeme` finds is the one that the scan at its start gives.
proof fn lemma_next_lexeme_scan(s: Seq<char>, i: int, line: int)
    requires
        0 <= i,
    ensures
        next_lexeme(s, i, line) matches Some((t, a, b, l)) ==> i <= a < s.len() && scan(s, a).1 == b && scan(
            s,
            a,
        ).0 == Scanned::Token(t),
    decreases s.len() - i,
{
    if i < s.len() {
        lemma_scan_bounds(s, i);
        let (what, j) = scan(s, i);
        match what {
            Scanned::Skip => lemma_next_lexeme_scan(s, j, line),
            Scanned::Token(TokenType::NewLine) => lemma_next_lexeme_scan(s, j, line + (j - i)),
            _ => {},
        }
    }
}

/// A token that starts with a letter or `_` is a whole name: every character of it
/// is a letter, digit or `_`, and the character after it (if any) is not, so a
/// name is never split in two. A name with a character other than a lower-case
/// letter is no keyword: it is an identifier.
pub proof fn lemma_names_are_whole(s: Seq<char>, i: int, line: int)
    requires
        0 <= i,
    ensures
        match next_lexeme(s, i, line) {
            Some((t, a, b, l)) => (('a' <= s[a] <= 'z') || ('A' <= s[a] <= 'Z') || s[a] == '_') ==> {
                &&& forall|k: int| a <= k < b ==> word_char(#[trigger] s[k])
                &&& b == s.len() || !word_char(s[b])
                &&& (exists|q: int| a <= q < b && !('a' <= #[trigger] s[q] <= 'z')) ==> t == TokenType::Identifier
            },
            None => true,
        },
{
    lemma_next_lexeme_scan(s, i, line);
    if let Some((t, a, b, l)) = next_lexeme(s, i, line) {
        if ('a' <= s[a] <= 'z') || ('A' <= s[a] <= 'Z') || s[a] == '_' {
            lemma_run_end(s, a + 1, CharClass::IdentPart);
            assert(b == run_end(s, a + 1, CharClass::IdentPart));
            assert forall|k: int| a <= k < b implies word_char(#[trigger] s[k]) by {
                if k > a {
                    assert(in_class(s[k], CharClass::IdentPart));
                }
            }
            assert(t == keyword(s.subrange(a, b)));
            if exists|q: int| a <= q < b && !('a' <= #[trigger] s[q] <= 'z') {
                let q = choose|q: int| a <= q < b && !('a' <= #[trigger] s[q] <= 'z');
                let w = s.subrange(a, b);
                assert(w[q - a] == s[q]);
                assert(forall|x: int| 0 <= x < w.len() ==> #[trigger] w[x] == s[a + x]);
                assert(!(forall|x: int| 0 <= x < w.len() ==> 'a' <= #[trigger] w[x] <= 'z'));
            }
        }
    }
}

/// Every token of the text from `i` on that starts with a letter or `_` is a whole
/// name (see `lemma_names_are_whole`).
pub proof fn lemma_all_names_are_whole(s: Seq<char>, i: int, line: int)
    requires
        0 <= i,
    ensures
        forall|k: int|
            0 <= k < lexemes(s, i, line).len() ==> {
                let (t, a, b, l) = #[trigger] lexemes(s, i, line)[k];
                (('a' <= s[a] <= 'z') || ('A' <= s[a] <= 'Z') || s[a] == '_') ==> {
                    &&& forall|q: int| a <= q < b ==> word_char(#[trigger] s[q])
                    &&& b == s.len() || !word_char(s[b])
                    &&& (exists|q: int| a <= q < b && !('a' <= #[trigger] s[q] <= 'z')) ==> t
                        == TokenType::Identifier
                }
            },
    decreases s.len() - i,
{
    lemma_names_are_whole(s, i, line);
    if let Some((t, a, b, l)) = next_lexeme(s, i, line) {
        if i < b <= s.len() {
            lemma_all_names_are_whole(s, b, l);
            let rest = lexemes(s, b, l);
            assert(lexemes(s, i, line) == seq![(t, a, b, l)] + rest);
            assert forall|k: int| 1 <= k < lexemes(s, i, line).len() implies #[trigger] lexemes(s, i, line)[k]
                == rest[k - 1] by {}
        }
    }
}

/// Whether a `//` comment starts at `m`.
pub open spec fn comment_start(s: Seq<char>, m: int) -> bool {
    0 <= m && m + 1 < s.len() && s[m] == '/' && s[m + 1] == '/'
}

/// Whether no line break stands in `s` from `m` to `k`, both included.
pub open spec fn no_break(s: Seq<char>, m: int, k: int) -> bool {
    forall|q: int| m <= q <= k ==> s[q] != '\n'
}

/// Whether the character at `k` is skipped when scanning from `i`: a blank, a line
/// break, or part of a `//` comment that starts at or after `i`.
pub open spec fn skipped_at(s: Seq<char>, i: int, k: int) -> bool {
    ||| in_class(s[k], CharClass::Space)
    ||| s[k] == '\n'
    ||| exists|m: int| i <= m <= k && #[trigger] comment_start(s, m) && no_break(s, m, k)
}

/// Whether nothing but blanks, line breaks and `//` comments is left in `s` from `i` on.
pub open spec fn only_skippable(s: Seq<char>, i: int) -> bool {
    forall|k: int| i <= k < s.len() ==> #[trigger] skipped_at(s, i, k)
}

/// The lexer finds no further token exactly when only blanks, line breaks and
/// comments are left.
pub proof fn lemma_nothing_left(s: Seq<char>, i: int, line: int)
    requires
        0 <= i,
    ensures
        next_lexeme(s, i, line) is None <==> only_skippable(s, i),
    decreases s.len() - i,
{
    if i < s.len() {
        lemma_scan_bounds(s, i);
        let (what, j) = scan(s, i);
        let c = s[i];
        if in_class(c, CharClass::Space) || c == '\n' {
            let cls = if in_class(c, CharClass::Space) { CharClass::Space } else { CharClass::LineBreak };
            lemma_run_end(s, i, cls);
            if in_class(c, CharClass::Space) {
                lemma_nothing_left(s, j, line);
            } else {
                lemma_nothing_left(s, j, line + (j - i));
            }
            if only_skippable(s, i) {
                assert forall|k: int| j <= k < s.len() implies #[trigger] skipped_at(s, j, k) by {
                    assert(skipped_at(s, i, k));
                    if !in_class(s[k], CharClass::Space) && s[k] != '\n' {
                        let m = choose|m: int| i <= m <= k && #[trigger] comment_start(s, m) && no_break(s, m, k);
                        if m < j {
                            assert(in_class(s[m], cls));
                        }
                    }
                }
            }
            if only_skippable(s, j) {
                assert forall|k: int| i <= k < s.len() implies #[trigger] skipped_at(s, i, k) by {
                    if k >= j {
                        assert(skipped_at(s, j, k));
                        if !in_class(s[k], CharClass::Space) && s[k] != '\n' {
                            let m = choose|m: int| j <= m <= k && #[trigger] comment_start(s, m) && no_break(s, m, k);
                            assert(i <= m <= k && comment_start(s, m) && no_break(s, m, k));
                        }
                    } else {
                        assert(in_class(s[k], cls));
                    }
                }
            }
        } else if comment_start(s, i) {
            lemma_run_end(s, i, CharClass::NotLineBreak);
            lemma_nothing_left(s, j, line);
            if only_skippable(s, i) {
                assert forall|k: int| j <= k < s.len() implies #[trigger] skipped_at(s, j, k) by {
                    assert(skipped_at(s, i, k));
                    if !in_class(s[k], CharClass::Space) && s[k] != '\n' {
                        let m = choose|m: int| i <= m <= k && #[trigger] comment_start(s, m) && no_break(s, m, k);
                        if m < j {
                            assert(s[j] == '\n');
                        }
                    }
                }
            }
            if only_skippable(s, j) {
                assert forall|k: int| i <= k < s.len() implies #[trigger] skipped_at(s, i, k) by {
                    if k >= j {
                        assert(skipped_at(s, j, k));
                        if !in_class(s[k], CharClass::Space) && s[k] != '\n' {
                            let m = choose|m: int| j <= m <= k && #[trigger] comment_start(s, m) && no_break(s, m, k);
                            assert(i <= m <= k && comment_start(s, m) && no_break(s, m, k));
                        }
                    } else {
                        assert(no_break(s, i, k));
                        assert(comment_start(s, i));
                    }
                }
            }
        } else {
            assert(next_lexeme(s, i, line) is Some);
            if only_skippable(s, i) {
                assert(skipped_at(s, i, i));
                let m = choose|m: int| i <= m <= i && #[trigger] comment_start(s, m) && no_break(s, m, i);
                assert(m == i);
            }
        }
    }
}

/// The lexemes from a position on hold no new-line and no end-of-file token, and
/// their lines start at the current line and never decrease.
pub proof fn lemma_lexemes_lines(s: Seq<char>, i: int, line: int)
    ensures
        forall|k: int|
            0 <= k < lexemes(s, i, line).len() ==> {
                let x = #[trigger] lexemes(s, i, line)[k];
                &&& x.0 != TokenType::NewLine
                &&& x.0 != TokenType::EOF
                &&& x.3 >= line
            },
        forall|a: int, b: int|
            0 <= a <= b < lexemes(s, i, line).len() ==> #[trigger] lexemes(s, i, line)[a].3
                <= #[trigger] lexemes(s, i, line)[b].3,
    decreases s.len() - i,
{
    lemma_next_lexeme_kind(s, i, line);
    match next_lexeme(s, i, line) {
        None => {},
        Some((t, a, b, l)) => {
            if i < b <= s.len() {
                lemma_lexemes_lines(s, b, l);
                let all = lexemes(s, i, line);
                let rest = lexemes(s, b, l);
                assert(all == seq![(t, a, b, l)] + rest);
                assert forall|k: int| 1 <= k < all.len() implies #[trigger] all[k] == rest[k - 1] by {}
                assert forall|x: int, y: int| 0 <= x <= y < all.len() implies #[trigger] all[x].3 <= #[trigger] all[y].3 by {
                    if x > 0 {
                        assert(all[x] == rest[x - 1]);
                        assert(all[y] == rest[y - 1]);
                    } else if y > 0 {
                        assert(all[y] == rest[y - 1]);
                    }
                }
            }
        },
    }
}

proof fn lemma_run_end(s: Seq<char>, i: int, cls: CharClass)
    requires
        0 <= i <= s.len(),
    ensures
        i <= run_end(s, i, cls) <= s.len(),
        forall|k: int| i <= k < run_end(s, i, cls) ==> in_class(#[trigger] s[k], cls),
        run_end(s, i, cls) == s.len() || !in_class(s[run_end(s, i, cls)], cls),
    decreases s.len() - i,
{
    if i < s.len() && in_class(s[i], cls) {
        lemma_run_end(s, i + 1, cls);
    }
}

proof fn lemma_string_body_end(s: Seq<char>, i: int)
    requires
        0 <= i <= s.len(),
    ensures
        i <= string_body_end(s, i) <= s.len(),
    decreases s.len() - i,
{
    if i < s.len() && s[i] != '"' {
        if s[i] == '\\' {
            if i + 1 < s.len() && s[i + 1] != '\n' {
                lemma_string_body_end(s, i + 2);
            }
        } else {
            lemma_string_body_end(s, i + 1);
        }
    }
}

/// A match always consumes at least one character and stays inside the source.
pub proof fn lemma_scan_bounds(s: Seq<char>, i: int)
    requires
        0 <= i < s.len(),
    ensures
        i < scan(s, i).1 <= s.len(),
        scan(s, i).0 == Scanned::Token(TokenType::String) ==> i + 2 <= scan(s, i).1,
{
    lemma_run_end(s, i, CharClass::Space);
    lemma_run_end(s, i, CharClass::LineBreak);
    lemma_run_end(s, i, CharClass::NotLineBreak);
    lemma_run_end(s, i, CharClass::Digit);
    lemma_run_end(s, i + 1, CharClass::IdentPart);
    lemma_string_body_end(s, i + 1);
    let j = run_end(s, i, CharClass::Digit);
    if j + 1 < s.len() {
        lemma_run_end(s, j + 1, CharClass::Digit);
    }
}

fn class_member(c: char, cls: CharClass) -> (res: bool)
    ensures
        res == in_class(c, cls),
{
    match cls {
        CharClass::Space => c == ' ' || c == '\t' || c == '\r' || c == '\x0C',
        CharClass::Digit => '0' <= c && c <= '9',
        CharClass::IdentPart => ('a' <= c && c <= 'z') || ('A' <= c && c <= 'Z') || c == '_' || (
        '0' <= c && c <= '9'),
        CharClass::LineBreak => c == '\n',
        CharClass::NotLineBreak => c != '\n',
    }
}

fn find_run_end(s: &Vec<char>, i: usize, cls: CharClass) -> (res: usize)
    requires
        i <= s.len(),
    ensures
        res == run_end(s@, i as int, cls),
{
    let mut j = i;
    while j < s.len() && class_member(s[j], cls)
        invariant
            i <= j <= s.len(),
            run_end(s@, i as int, cls) == run_end(s@, j as int, cls),
        decreases s.len() - j,
    {
        j = j + 1;
    }
    j
}

fn find_string_body_end(s: &Vec<char>, i: usize) -> (res: usize)
    requires
        i <= s.len(),
    ensures
        res == string_body_end(s@, i as int),
{
    let mut j = i;
    loop
        invariant
            i <= j <= s.len(),
            string_body_end(s@, i as int) == string_body_end(s@, j as int),
        decreases s.len() - j,
    {
        if j >= s.len() || s[j] == '"' {
            return j;
        }
        if s[j] == '\\' {
            if j + 1 < s.len() && s[j + 1] != '\n' {
                j = j + 2;
            } else {
                return j;
            }
        } else {
            j = j + 1;
        }
    }
}

/// Whether `s[i..j]` spells `w`.
fn spells(s: &Vec<char>, i: usize, j: usize, w: &[char]) -> (res: bool)
    requires
        i <= j <= s.len(),
    ensures
        res == (s@.subrange(i as int, j as int) == w@),
{
    if j - i != w.len() {
        return false;
    }
    let mut k: usize = 0;
    while k < w.len()
        invariant
            j - i == w.len(),
            i <= j <= s.len(),
            k <= w.len(),
            forall|m: int| 0 <= m < k ==> s@[i + m] == w@[m],
        decreases w.len() - k,
    {
        if s[i + k] != w[k] {
            assert(s@.subrange(i as int, j as int)[k as int] != w@[k as int]);
            return false;
        }
        k = k + 1;
    }
    assert(s@.subrange(i as int, j as int) =~= w@);
    true
}

fn keyword_of(s: &Vec<char>, i: usize, j: usize) -> (res: TokenType)
    requires
        i <= j <= s.len(),
    ensures
        res == keyword(s@.subrange(i as int, j as int)),
{
    assert(seq!['a', 'n', 'd'] =~= ['a', 'n', 'd']@);
    assert(seq!['c', 'l', 'a', 's', 's'] =~= ['c', 'l', 'a', 's', 's']@);
    assert(seq!['e', 'l', 's', 'e'] =~= ['e', 'l', 's', 'e']@);
    assert(seq!['f', 'a', 'l', 's', 'e'] =~= ['f', 'a', 'l', 's', 'e']@);
    assert(seq!['f', 'u', 'n'] =~= ['f', 'u', 'n']@);
    assert(seq!['f', 'o', 'r'] =~= ['f', 'o', 'r']@);
    assert(seq!['i', 'f'] =~= ['i', 'f']@);
    assert(seq!['n', 'i', 'l'] =~= ['n', 'i', 'l']@);
    assert(seq!['o', 'r'] =~= ['o', 'r']@);
    assert(seq!['p', 'r', 'i', 'n', 't'] =~= ['p', 'r', 'i', 'n', 't']@);
    assert(seq!['r', 'e', 't', 'u', 'r', 'n'] =~= ['r', 'e', 't', 'u', 'r', 'n']@);
    assert(seq!['s', 'u', 'p', 'e', 'r'] =~= ['s', 'u', 'p', 'e', 'r']@);
    assert(seq!['t', 'h', 'i', 's'] =~= ['t', 'h', 'i', 's']@);
    assert(seq!['t', 'r', 'u', 'e'] =~= ['t', 'r', 'u', 'e']@);
    assert(seq!['v', 'a', 'r'] =~= ['v', 'a', 'r']@);
    assert(seq!['w', 'h', 'i', 'l', 'e'] =~= ['w', 'h', 'i', 'l', 'e']@);
    if spells(s, i, j, &['a', 'n', 'd']) {
        TokenType::And
    }     else if spells(s, i, j, &['c', 'l', 'a', 's', 's']) {
        TokenType::Class
    }     else if spells(s, i, j, &['e', 'l', 's', 'e']) {
        TokenType::Else
    }     else if spells(s, i, j, &['f', 'a', 'l', 's', 'e']) {
        TokenType::False
    }     else if spells(s, i, j, &['f', 'u', 'n']) {
        TokenType::Fun
    }     else if spells(s, i, j, &['f', 'o', 'r']) {
        TokenType::For
    }     else if spells(s, i, j, &['i', 'f']) {
        TokenType::If
    }     else if spells(s, i, j, &['n', 'i', 'l']) {
        TokenType::Nil
    }     else if spells(s, i, j, &['o', 'r']) {
        TokenType::Or
    }     else if spells(s, i, j, &['p', 'r', 'i', 'n', 't']) {
        TokenType::Print
    }     else if spells(s, i, j, &['r', 'e', 't', 'u', 'r', 'n']) {
        TokenType::Return
    }     else if spells(s, i, j, &['s', 'u', 'p', 'e', 'r']) {
        TokenType::Super
    }     else if spells(s, i, j, &['t', 'h', 'i', 's']) {
        TokenType::This
    }     else if spells(s, i, j, &['t', 'r', 'u', 'e']) {
        TokenType::True
    }     else if spells(s, i, j, &['v', 'a', 'r']) {
        TokenType::Var
    }     else if spells(s, i, j, &['w', 'h', 'i', 'l', 'e']) {
        TokenType::While
    } else {
        TokenType::Identifier
    }
}

fn single_char_type(c: char) -> (res: Option<TokenType>)
    ensures
        res == single_char_token(c),
{
    if c == '(' {
        Some(TokenType::LeftParen)
    } else if c == ')' {
        Some(TokenType::RightParen)
    } else if c == '{' {
        Some(TokenType::LeftBrace)
    } else if c == '}' {
        Some(TokenType::RightBrace)
    } else if c == ',' {
        Some(TokenType::Comma)
    } else if c == '.' {
        Some(TokenType::Dot)
    } else if c == '-' {
        Some(TokenType::Minus)
    } else if c == '+' {
        Some(TokenType::Plus)
    } else if c == ';' {
        Some(TokenType::Semicolon)
    } else if c == '*' {
        Some(TokenType::Star)
    } else {
        None
    }
}

fn equal_pair_types(c: char) -> (res: Option<(TokenType, TokenType)>)
    ensures
        res == equal_pair(c),
{
    if c == '!' {
        Some((TokenType::Bang, TokenType::BangEqual))
    } else if c == '=' {
        Some((TokenType::Equal, TokenType::EqualEqual))
    } else if c == '<' {
        Some((TokenType::Less, TokenType::LessEqual))
    } else if c == '>' {
        Some((TokenType::Greater, TokenType::GreaterEqual))
    } else {
        None
    }
}

/// The longest match at position `i`.
fn scan_at(s: &Vec<char>, i: usize) -> (res: (Scanned, usize))
    requires
        i < s.len(),
    ensures
        res.0 == scan(s@, i as int).0,
        res.1 == scan(s@, i as int).1,
        i < res.1 <= s.len(),
        res.0 == Scanned::Token(TokenType::String) ==> i + 2 <= res.1,
{
    proof {
        lemma_scan_bounds(s@, i as int);
    }
    let c = s[i];
    if class_member(c, CharClass::Space) {
        (Scanned::Skip, find_run_end(s, i, CharClass::Space))
    } else if c == '\n' {
        (Scanned::Token(TokenType::NewLine), find_run_end(s, i, CharClass::LineBreak))
    } else if c == '/' {
        if i + 1 < s.len() && s[i + 1] == '/' {
            (Scanned::Skip, find_run_end(s, i, CharClass::NotLineBreak))
        } else {
            (Scanned::Token(TokenType::Slash), i + 1)
        }
    } else if '0' <= c && c <= '9' {
        let j = find_run_end(s, i, CharClass::Digit);
        proof {
            lemma_run_end(s@, i as int, CharClass::Digit);
        }
        if j < s.len() && j + 1 < s.len() && s[j] == '.' && '0' <= s[j + 1] && s[j + 1] <= '9' {
            (Scanned::Token(TokenType::Number), find_run_end(s, j + 1, CharClass::Digit))
        } else {
            (Scanned::Token(TokenType::Number), j)
        }
    } else if c == '"' {
        let k = find_string_body_end(s, i + 1);
        proof {
            lemma_string_body_end(s@, i + 1);
        }
        if k < s.len() && s[k] == '"' {
            (Scanned::Token(TokenType::String), k + 1)
        } else {
            (Scanned::Token(TokenType::UnterminatedString), k)
        }
    } else if ('a' <= c && c <= 'z') || ('A' <= c && c <= 'Z') || c == '_' {
        let j = find_run_end(s, i + 1, CharClass::IdentPart);
        proof {
            lemma_run_end(s@, i + 1, CharClass::IdentPart);
        }
        (Scanned::Token(keyword_of(s, i, j)), j)
    } else if let Some((one, two)) = equal_pair_types(c) {
        if i + 1 < s.len() && s[i + 1] == '=' {
            (Scanned::Token(two), i + 2)
        } else {
            (Scanned::Token(one), i + 1)
        }
    } else if let Some(t) = single_char_type(c) {
        (Scanned::Token(t), i + 1)
    } else {
        (Scanned::Token(TokenType::Error), i + 1)
    }
}

proof fn lemma_count_newlines_step(s: Seq<char>, a: int, k: int)
    requires
        0 <= a <= k < s.len(),
    ensures
        count_newlines(s.subrange(a, k + 1)) == count_newlines(s.subrange(a, k)) + if s[k] == '\n' {
            1nat
        } else {
            0nat
        },
{
    assert(s.subrange(a, k + 1).drop_last() =~= s.subrange(a, k));
}

proof fn lemma_count_newlines_bound(w: Seq<char>)
    ensures
        count_newlines(w) <= w.len(),
    decreases w.len(),
{
    if w.len() > 0 {
        lemma_count_newlines_bound(w.drop_last());
    }
}

/// The number of line breaks in `s[a..b]`.
fn newlines_between(s: &Vec<char>, a: usize, b: usize) -> (res: usize)
    requires
        a <= b <= s.len(),
    ensures
        res == count_newlines(s@.subrange(a as int, b as int)),
{
    let mut k = a;
    let mut n: usize = 0;
    assert(s@.subrange(a as int, a as int) =~= Seq::<char>::empty());
    while k < b
        invariant
            a <= k <= b <= s.len(),
            n == count_newlines(s@.subrange(a as int, k as int)),
            n <= k - a,
        decreases b - k,
    {
        proof {
            lemma_count_newlines_step(s@, a as int, k as int);
        }
        if s[k] == '\n' {
            n = n + 1;
        }
        k = k + 1;
    }
    n
}

proof fn lemma_next_lexeme_bounds(s: Seq<char>, i: int, line: int)
    requires
        0 <= i,
    ensures
        next_lexeme(s, i, line) matches Some((t, a, b, l)) ==> i <= a < b <= s.len(),
    decreases s.len() - i,
{
    if 0 <= i < s.len() {
        lemma_scan_bounds(s, i);
        let (what, j) = scan(s, i);
        match what {
            Scanned::Skip => lemma_next_lexeme_bounds(s, j, line),
            Scanned::Token(TokenType::NewLine) => lemma_next_lexeme_bounds(s, j, line + (j - i)),
            _ => {},
        }
    }
}

/// Whether `tok` is the token described by `lx` (type, span in `s`, line) with identity `id`.
pub open spec fn token_is(tok: Token, s: Seq<char>, lx: (TokenType, int, int, int), id: int) -> bool {
    &&& tok.token_type == lx.0
    &&& tok.lexeme@ == s.subrange(lx.1, lx.2)
    &&& tok.line == lx.3
    &&& tok.id == id
    &&& carries_literal(tok.literal, lx.0, tok.lexeme@)
}

/// Whether `literal` is the literal that a token of type `t` with lexeme `w` carries.
pub open spec fn carries_literal(literal: Option<Literal>, t: TokenType, w: Seq<char>) -> bool {
    match t {
        TokenType::Number => literal matches Some(Literal::Number(x)) && x@ == w,
        TokenType::String => literal matches Some(Literal::String(x)) && x@ == w.subrange(
            1,
            w.len() - 1,
        ),
        _ => literal is None,
    }
}

/// The Lox lexer: hands out the tokens of a source text one at a time.
pub struct Lexer {
    source: Vec<char>,
    pos: usize,
    line: usize,
    next_id: usize,
}

impl Lexer {
    /// The source text, as characters.
    pub closed spec fn source(&self) -> Seq<char> {
        self.source@
    }

    /// The position up to which the source has been read.
    pub closed spec fn pos(&self) -> int {
        self.pos as int
    }

    /// The current line.
    pub closed spec fn line(&self) -> int {
        self.line as int
    }

    /// The identity that the next token will get.
    pub closed spec fn next_id(&self) -> int {
        self.next_id as int
    }

    pub closed spec fn wf(&self) -> bool {
        &&& self.pos <= self.source@.len() < usize::MAX
        &&& 1 <= self.line <= self.pos + 1
        &&& self.next_id + (self.source@.len() - self.pos) <= usize::MAX
    }

    /// Create a lexer over `source`, whose tokens get the identities `first_id`, `first_id + 1`, ...
    pub fn new(source: &str, first_id: usize) -> (res: Self)
        requires
            source@.len() < usize::MAX,
            first_id + source@.len() <= usize::MAX,
        ensures
            res.wf(),
            res.source() == source@,
            res.pos() == 0,
            res.line() == 1,
            res.next_id() == first_id,
    {
        let mut chars: Vec<char> = Vec::new();
        crate::push_chars(source, &mut chars);
        assert(chars@ =~= source@);
        Lexer { source: chars, pos: 0, line: 1, next_id: first_id }
    }

    /// The next token, or `None` at the end of the source.
    pub fn next_token(&mut self) -> (res: Option<Token>)
        requires
            old(self).wf(),
        ensures
            final(self).wf(),
            final(self).source() == old(self).source(),
            match next_lexeme(old(self).source(), old(self).pos(), old(self).line()) {
                None => {
                    &&& res is None
                    &&& final(self).pos() == old(self).source().len()
                    &&& final(self).next_id() == old(self).next_id()
                },
                Some((t, a, b, l)) => {
                    &&& res matches Some(tok)
                    &&& tok.token_type == t
                    &&& tok.lexeme@ == old(self).source().subrange(a, b)
                    &&& tok.line == l
                    &&& tok.id == old(self).next_id()
                    &&& carries_literal(tok.literal, t, tok.lexeme@)
                    &&& final(self).pos() == b
                    &&& final(self).line() == l
                    &&& final(self).next_id() == old(self).next_id() + 1
                },
            },
    {
        loop
            invariant
                self.wf(),
                self.source@ == old(self).source@,
                self.next_id == old(self).next_id,
                next_lexeme(self.source@, self.pos as int, self.line as int) == next_lexeme(
                    old(self).source@,
                    old(self).pos as int,
                    old(self).line as int,
                ),
            decreases self.source@.len() - self.pos,
        {
            if self.pos >= self.source.len() {
                return None;
            }
            let start = self.pos;
            let (what, end) = scan_at(&self.source, start);
            match what {
                Scanned::Skip => {
                    self.pos = end;
                },
                Scanned::Token(TokenType::NewLine) => {
                    self.line = self.line + (end - start);
                    self.pos = end;
                },
                Scanned::Token(t) => {
                    let lexeme = string_of(&self.source, start, end);
                    let literal = match t {
                        TokenType::Number => Some(Literal::Number(lexeme.clone())),
                        TokenType::String => {
                            proof {
                                lemma_count_newlines_bound(
                                    self.source@.subrange(start + 1, end - 1),
                                );
                            }
                            self.line = self.line + newlines_between(&self.source, start + 1, end - 1);
                            assert(self.source@.subrange(start as int, end as int).subrange(1, end - start - 1)
                                =~= self.source@.subrange(start + 1, end - 1));
                            Some(Literal::String(string_of(&self.source, start + 1, end - 1)))
                        },
                        _ => None,
                    };
                    let id = self.next_id;
                    self.pos = end;
                    self.next_id = self.next_id + 1;
                    return Some(Token::new(t, lexeme, literal, self.line, id));
                },
            }
        }
    }

    /// All the remaining tokens, in order. The `k`-th of them has the identity `next_id() + k`.
    pub fn tokenize(&mut self) -> (res: Vec<Token>)
        requires
            old(self).wf(),
        ensures
            final(self).wf(),
            final(self).source() == old(self).source(),
            final(self).pos() == old(self).source().len(),
            res.len() == lexemes(old(self).source(), old(self).pos(), old(self).line()).len(),
            forall|k: int|
                0 <= k < res.len() ==> token_is(
                    #[trigger] res[k],
                    old(self).source(),
                    lexemes(old(self).source(), old(self).pos(), old(self).line())[k],
                    old(self).next_id() + k,
                ),
            final(self).next_id() == old(self).next_id() + res.len(),
            forall|k: int|
                0 <= k < res.len() ==> (#[trigger] res[k]).token_type != TokenType::NewLine && res[k].token_type
                    != TokenType::EOF && res[k].line >= old(self).line(),
            forall|a: int, b: int| 0 <= a <= b < res.len() ==> (#[trigger] res[a]).line <= (#[trigger] res[b]).line,
    {
        let mut out: Vec<Token> = Vec::new();
        let ghost all = lexemes(self.source@, self.pos as int, self.line as int);
        loop
            invariant
                self.wf(),
                self.source@ == old(self).source@,
                self.next_id == old(self).next_id + out.len(),
                all == lexemes(old(self).source@, old(self).pos as int, old(self).line as int),
                out.len() + lexemes(self.source@, self.pos as int, self.line as int).len() == all.len(),
                forall|k: int|
                    0 <= k < lexemes(self.source@, self.pos as int, self.line as int).len() ==>
                        #[trigger] lexemes(self.source@, self.pos as int, self.line as int)[k]
                        == all[out.len() + k],
                forall|k: int|
                    0 <= k < out.len() ==> token_is(
                        #[trigger] out[k],
                        self.source@,
                        all[k],
                        old(self).next_id + k,
                    ),
            decreases self.source@.len() - self.pos,
        {
            let ghost before = lexemes(self.source@, self.pos as int, self.line as int);
            let ghost p = self.pos as int;
            let ghost ln = self.line as int;
            proof {
                lemma_next_lexeme_bounds(self.source@, p, ln);
            }
            match self.next_token() {
                None => {
                    proof {
                        lemma_lexemes_lines(old(self).source(), old(self).pos(), old(self).line());
                        assert forall|k: int| 0 <= k < out.len() implies (#[trigger] out[k]).token_type
                            != TokenType::NewLine && out[k].token_type != TokenType::EOF && out[k].line
                            >= old(self).line() by {
                            assert(token_is(out[k], self.source@, all[k], old(self).next_id + k));
                        }
                        assert forall|a: int, b: int| 0 <= a <= b < out.len() implies (#[trigger] out[a]).line
                            <= (#[trigger] out[b]).line by {
                            assert(token_is(out[a], self.source@, all[a], old(self).next_id + a));
                            assert(token_is(out[b], self.source@, all[b], old(self).next_id + b));
                        }
                    }
                    return out;
                },
                Some(tok) => {
                    proof {
                        let (t, a, b, l) = next_lexeme(self.source@, p, ln).unwrap();
                        assert(before == seq![(t, a, b, l)] + lexemes(self.source@, b, l));
                        assert(before[0] == (t, a, b, l));
                        let rest = lexemes(self.source@, b, l);
                        assert forall|k: int| 0 <= k < rest.len() implies #[trigger] rest[k]
                            == all[out.len() + 1 + k] by {
                            assert(rest[k] == before[k + 1]);
                            assert(before[k + 1] == all[out.len() + (k + 1)]);
                        }
                    }
                    out.push(tok);
                },
            }
        }
    }

}

} // verus!
