use rlox::lexer::Lexer;
use rlox::tokens::{Literal, Token, TokenType};

fn lex(source: &str) -> Vec<Token> {
    let mut lexer = Lexer::new(source, 1);
    lexer.tokenize()
}

fn types(source: &str) -> Vec<TokenType> {
    lex(source).iter().map(|t| t.token_type).collect()
}

#[test]
fn lexes_operators_longest_first() {
    assert_eq!(
        types("! != = == < <= > >= / // comment"),
        vec![
            TokenType::Bang,
            TokenType::BangEqual,
            TokenType::Equal,
            TokenType::EqualEqual,
            TokenType::Less,
            TokenType::LessEqual,
            TokenType::Greater,
            TokenType::GreaterEqual,
            TokenType::Slash,
        ]
    );
}

#[test]
fn lexes_single_characters() {
    assert_eq!(
        types("(){},.-+;*"),
        vec![
            TokenType::LeftParen,
            TokenType::RightParen,
            TokenType::LeftBrace,
            TokenType::RightBrace,
            TokenType::Comma,
            TokenType::Dot,
            TokenType::Minus,
            TokenType::Plus,
            TokenType::Semicolon,
            TokenType::Star,
        ]
    );
}

#[test]
fn keywords_win_only_on_whole_words() {
    assert_eq!(
        types("and andy class classy _x x1 while"),
        vec![
            TokenType::And,
            TokenType::Identifier,
            TokenType::Class,
            TokenType::Identifier,
            TokenType::Identifier,
            TokenType::Identifier,
            TokenType::While,
        ]
    );
    let all = "and class else false fun for if nil or print return super this true var while";
    assert_eq!(
        types(all),
        vec![
            TokenType::And,
            TokenType::Class,
            TokenType::Else,
            TokenType::False,
            TokenType::Fun,
            TokenType::For,
            TokenType::If,
            TokenType::Nil,
            TokenType::Or,
            TokenType::Print,
            TokenType::Return,
            TokenType::Super,
            TokenType::This,
            TokenType::True,
            TokenType::Var,
            TokenType::While,
        ]
    );
}

#[test]
fn numbers_need_digits_after_the_dot() {
    let tokens = lex("12.5 7. .5");
    let kinds: Vec<TokenType> = tokens.iter().map(|t| t.token_type).collect();
    assert_eq!(
        kinds,
        vec![TokenType::Number, TokenType::Number, TokenType::Dot, TokenType::Dot, TokenType::Number]
    );
    assert_eq!(tokens[0].lexeme, "12.5");
    assert!(matches!(&tokens[0].literal, Some(Literal::Number(s)) if s == "12.5"));
    assert_eq!(tokens[1].lexeme, "7");
    assert_eq!(tokens[4].lexeme, "5");
}

#[test]
fn strings_carry_their_contents() {
    let tokens = lex("\"hello\" \"a\\\"b\"");
    assert_eq!(tokens.len(), 2);
    assert_eq!(tokens[0].token_type, TokenType::String);
    assert!(matches!(&tokens[0].literal, Some(Literal::String(s)) if s == "hello"));
    assert_eq!(tokens[1].lexeme, "\"a\\\"b\"");
    assert!(matches!(&tokens[1].literal, Some(Literal::String(s)) if s == "a\\\"b"));
}

#[test]
fn unterminated_string_runs_to_the_end() {
    let tokens = lex("x = \"abc");
    assert_eq!(tokens.len(), 3);
    assert_eq!(tokens[2].token_type, TokenType::UnterminatedString);
    assert_eq!(tokens[2].lexeme, "\"abc");
    assert!(tokens[2].literal.is_none());
}

#[test]
fn unknown_characters_are_single_error_tokens() {
    let tokens = lex("@#é");
    assert_eq!(tokens.len(), 3);
    assert!(tokens.iter().all(|t| t.token_type == TokenType::Error));
    assert_eq!(tokens[2].lexeme, "é");
}

#[test]
fn lines_are_counted() {
    let tokens = lex("a\n\nb // note\nc \"x\ny\" d");
    let lines: Vec<usize> = tokens.iter().map(|t| t.line).collect();
    // the string is reported on the line where it ends
    assert_eq!(lines, vec![1, 3, 4, 5, 5]);
}

#[test]
fn identities_are_consecutive() {
    let mut lexer = Lexer::new("var a = 1;", 40);
    let tokens = lexer.tokenize();
    let ids: Vec<usize> = tokens.iter().map(|t| t.id).collect();
    assert_eq!(ids, vec![40, 41, 42, 43, 44]);
    assert!(lexer.next_token().is_none());
}

#[test]
fn whitespace_and_comments_make_no_tokens() {
    assert!(lex(" \t\r\x0c// only a comment").is_empty());
    assert!(lex("").is_empty());
}

#[test]
fn token_lines_never_decrease_and_no_line_break_is_a_token() {
    let tokens = lex("a\n\nb \"x\ny\"\n// note\nc");
    let lines: Vec<usize> = tokens.iter().map(|t| t.line).collect();
    assert_eq!(lines, vec![1, 3, 4, 6]);
    assert!(tokens.iter().all(|t| t.token_type != TokenType::NewLine && t.token_type != TokenType::EOF));
}

#[test]
fn a_single_slash_is_a_token_but_two_start_a_comment() {
    assert_eq!(types("  / \n"), vec![TokenType::Slash]);
    assert_eq!(types("  // / x\n\t\n"), Vec::<TokenType>::new());
}
