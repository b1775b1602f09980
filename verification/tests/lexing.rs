use json_tokens::lexer::lex;
use json_tokens::token::{Token, TokenType};

fn word(lexeme: &str, kind: TokenType) -> Token {
    Token::new(lexeme, kind)
}

fn mark(kind: TokenType) -> Token {
    Token::no_lexeme(kind)
}

#[test]
fn token_keeps_what_it_was_made_of() {
    let t = Token::new("\"k\"", TokenType::Key);
    assert_eq!(t.lexeme(), &Some("\"k\"".to_string()));
    assert_eq!(t.token_type(), TokenType::Key);
    let s = Token::no_lexeme(TokenType::Separator);
    assert_eq!(s.lexeme(), &None);
    assert_eq!(s.token_type(), TokenType::Separator);
    assert_eq!(t.clone(), t);
    assert_ne!(t, s);
}

#[test]
fn lex_of_a_flat_object() {
    let tokens = lex("{\"a\":1,\"b\":true}");
    assert_eq!(
        tokens,
        vec![
            mark(TokenType::OpeningBrace),
            word("\"a\"", TokenType::Key),
            mark(TokenType::Assigner),
            word("1", TokenType::Value),
            mark(TokenType::Separator),
            word("\"b\"", TokenType::Key),
            mark(TokenType::Assigner),
            word("true", TokenType::Value),
            mark(TokenType::ClosingBrace),
        ]
    );
}

#[test]
fn lex_of_nested_objects_and_arrays() {
    let tokens = lex("{\"a\":{\"b\":[1,2]}}");
    assert_eq!(
        tokens,
        vec![
            mark(TokenType::OpeningBrace),
            word("\"a\"", TokenType::Key),
            mark(TokenType::Assigner),
            mark(TokenType::OpeningBrace),
            word("\"b\"", TokenType::Key),
            mark(TokenType::Assigner),
            mark(TokenType::LeftBracket),
            word("1", TokenType::Value),
            mark(TokenType::Separator),
            word("2", TokenType::Value),
            mark(TokenType::RightBracket),
            mark(TokenType::ClosingBrace),
            mark(TokenType::ClosingBrace),
        ]
    );
}

#[test]
fn lex_drops_space_outside_quotes() {
    assert_eq!(lex("{ \"a\": 1 }\r\n"), lex("{\"a\":1}"));
    assert_eq!(lex("{\n\t\"a\":\t1\n}"), lex("{\"a\":1}"));
    assert_eq!(lex("{\"a\":1 2}"), lex("{\"a\":12}"));
}

#[test]
fn lex_keeps_space_behind_an_opening_quote() {
    let tokens = lex("{\"a b\":\"c  d\"}");
    assert_eq!(
        tokens,
        vec![
            mark(TokenType::OpeningBrace),
            word("\"a b\"", TokenType::Key),
            mark(TokenType::Assigner),
            word("\"c  d\"", TokenType::Value),
            mark(TokenType::ClosingBrace),
        ]
    );
    // The lexeme is still open behind the closing quote, so a space there stays too.
    assert_eq!(lex("\"a\" :")[0], word("\"a\" ", TokenType::Key));
}

#[test]
fn lex_drops_line_breaks_and_tabs_everywhere() {
    assert_eq!(lex("\"a\n\tb\":")[0], word("\"ab\"", TokenType::Key));
}

#[test]
fn lex_closes_an_empty_key_but_no_empty_value() {
    assert_eq!(lex(":"), vec![word("", TokenType::Key), mark(TokenType::Assigner)]);
    assert_eq!(lex(","), vec![mark(TokenType::Separator)]);
    assert_eq!(lex("}"), vec![mark(TokenType::ClosingBrace)]);
    assert_eq!(lex("]"), vec![mark(TokenType::RightBracket)]);
    assert_eq!(lex("{}"), vec![mark(TokenType::OpeningBrace), mark(TokenType::ClosingBrace)]);
}

#[test]
fn lex_leaves_out_a_lexeme_that_nothing_closes() {
    assert_eq!(lex("abc"), vec![]);
    assert_eq!(lex(""), vec![]);
    assert_eq!(lex("{\"a\":1"), lex("{\"a\":"));
}

#[test]
fn lex_emits_an_opening_brace_ahead_of_the_open_lexeme() {
    assert_eq!(
        lex("ab{cd:"),
        vec![
            mark(TokenType::OpeningBrace),
            word("abcd", TokenType::Key),
            mark(TokenType::Assigner),
        ]
    );
    assert_eq!(
        lex("x[y,"),
        vec![
            mark(TokenType::LeftBracket),
            word("xy", TokenType::Value),
            mark(TokenType::Separator),
        ]
    );
}

#[test]
fn lex_checks_nothing() {
    assert_eq!(
        lex("}}{,:"),
        vec![
            mark(TokenType::ClosingBrace),
            mark(TokenType::ClosingBrace),
            mark(TokenType::OpeningBrace),
            mark(TokenType::Separator),
            word("", TokenType::Key),
            mark(TokenType::Assigner),
        ]
    );
}

#[test]
fn lex_takes_characters_beyond_ascii() {
    assert_eq!(lex("\"né\":\"日本\",")[0], word("\"né\"", TokenType::Key));
    assert_eq!(lex("\"né\":\"日本\",")[2], word("\"日本\"", TokenType::Value));
}
