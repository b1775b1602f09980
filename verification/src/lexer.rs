use vstd::prelude::*;
use vstd::string::StrSliceExecFns;
use crate::token::{Token, TokenType, TokenView, token_views, bare, worded, lemma_views_push};

verus! {

/// Where the lexer stands inside a text: the tokens it has emitted and the
/// characters it has gathered for the lexeme that is still open.
pub struct LexState {
    pub tokens: Seq<TokenView>,
    pub pending: Seq<char>,
}

/// The state with the given emitted tokens and open lexeme.
pub open spec fn lex_state(tokens: Seq<TokenView>, pending: Seq<char>) -> LexState {
    LexState { tokens, pending }
}

/// The state before any character has been read.
pub open spec fn lex_start() -> LexState {
    LexState { tokens: Seq::empty(), pending: Seq::empty() }
}

/// The emitted tokens, with the open lexeme closed as a value if it holds
/// anything.
pub open spec fn with_value_flushed(st: LexState) -> Seq<TokenView> {
    if st.pending.len() > 0 {
        st.tokens.push(worded(st.pending, TokenType::Value))
    } else {
        st.tokens
    }
}

/// The emitted tokens, with the open lexeme closed as a key, empty or not.
pub open spec fn with_key_flushed(st: LexState) -> Seq<TokenView> {
    st.tokens.push(worded(st.pending, TokenType::Key))
}

/// Whether a plain space met in state `st` belongs to the open lexeme: it does
/// when that lexeme began with a double quote.
pub open spec fn keeps_space(st: LexState) -> bool {
    st.pending.len() > 0 && st.pending[0] == '"'
}

/// The state after reading `c` in state `st`.
///
/// Opening braces and brackets are emitted at once and leave the open lexeme
/// alone. `}`, `]` and `,` close it as a value if it is not empty; `:` closes
/// it as a key in any case. Line breaks and tabs are dropped, and so is a
/// space outside a quoted lexeme. Every other character joins the open lexeme.
pub open spec fn lex_step(st: LexState, c: char) -> LexState {
    if c == '{' {
        LexState { tokens: st.tokens.push(bare(TokenType::OpeningBrace)), pending: st.pending }
    } else if c == '[' {
        LexState { tokens: st.tokens.push(bare(TokenType::LeftBracket)), pending: st.pending }
    } else if c == '}' {
        LexState {
            tokens: with_value_flushed(st).push(bare(TokenType::ClosingBrace)),
            pending: Seq::empty(),
        }
    } else if c == ']' {
        LexState {
            tokens: with_value_flushed(st).push(bare(TokenType::RightBracket)),
            pending: Seq::empty(),
        }
    } else if c == ':' {
        LexState {
            tokens: with_key_flushed(st).push(bare(TokenType::Assigner)),
            pending: Seq::empty(),
        }
    } else if c == ',' {
        LexState {
            tokens: with_value_flushed(st).push(bare(TokenType::Separator)),
            pending: Seq::empty(),
        }
    } else if c == ' ' {
        if keeps_space(st) {
            LexState { tokens: st.tokens, pending: st.pending.push(' ') }
        } else {
            st
        }
    } else if c == '\n' || c == '\r' || c == '\t' {
        st
    } else {
        LexState { tokens: st.tokens, pending: st.pending.push(c) }
    }
}

/// The state after reading all of `text`, left to right.
pub open spec fn lex_run(text: Seq<char>) -> LexState
    decreases text.len(),
{
    if text.len() == 0 {
        lex_start()
    } else {
        lex_step(lex_run(text.drop_last()), text.last())
    }
}

/// The tokens of `text`. A lexeme that is still open at the end of the text
/// is not among them.
pub open spec fn lex_spec(text: Seq<char>) -> Seq<TokenView> {
    lex_run(text).tokens
}

/// Reading one more character is one more step.
pub proof fn lemma_lex_run_push(text: Seq<char>, c: char)
    ensures
        lex_run(text.push(c)) == lex_step(lex_run(text), c),
{
    assert(text.push(c).drop_last() =~= text);
}

/// Appends `token` to `buf`.
fn push_token(buf: &mut Vec<Token>, token: Token)
    ensures
        token_views(final(buf)@) == token_views(old(buf)@).push(token@),
{
    proof {
        lemma_views_push(buf@, token);
    }
    buf.push(token);
}

/// Closes the open lexeme as a value, if it holds anything.
fn push_value_if_any(buf: &mut Vec<Token>, lexeme: &String)
    ensures
        token_views(final(buf)@) == with_value_flushed(
            lex_state(token_views(old(buf)@), lexeme@),
        ),
{
    if !lexeme.as_str().is_empty() {
        push_token(buf, Token::new(lexeme.as_str(), TokenType::Value));
    }
}

/// Reads a `}`: closes the open lexeme as a value, then emits the brace.
fn handle_closing_brace(buf: &mut Vec<Token>, lexeme: &mut String)
    ensures
        lex_state(token_views(final(buf)@), final(lexeme)@) == lex_step(
            lex_state(token_views(old(buf)@), old(lexeme)@),
            '}',
        ),
{
    push_value_if_any(buf, lexeme);
    push_token(buf, Token::no_lexeme(TokenType::ClosingBrace));
    lexeme.clear();
}

/// Reads a `]`: closes the open lexeme as a value, then emits the bracket.
fn handle_right_bracket(buf: &mut Vec<Token>, lexeme: &mut String)
    ensures
        lex_state(token_views(final(buf)@), final(lexeme)@) == lex_step(
            lex_state(token_views(old(buf)@), old(lexeme)@),
            ']',
        ),
{
    push_value_if_any(buf, lexeme);
    push_token(buf, Token::no_lexeme(TokenType::RightBracket));
    lexeme.clear();
}

/// Reads a `:`: closes the open lexeme as a key, then emits the assigner.
fn handle_assigner(buf: &mut Vec<Token>, lexeme: &mut String)
    ensures
        lex_state(token_views(final(buf)@), final(lexeme)@) == lex_step(
            lex_state(token_views(old(buf)@), old(lexeme)@),
            ':',
        ),
{
    push_token(buf, Token::new(lexeme.as_str(), TokenType::Key));
    push_token(buf, Token::no_lexeme(TokenType::Assigner));
    lexeme.clear();
}

/// Reads a `,`: closes the open lexeme as a value, then emits the separator.
fn handle_separator(buf: &mut Vec<Token>, lexeme: &mut String)
    ensures
        lex_state(token_views(final(buf)@), final(lexeme)@) == lex_step(
            lex_state(token_views(old(buf)@), old(lexeme)@),
            ',',
        ),
{
    push_value_if_any(buf, lexeme);
    push_token(buf, Token::no_lexeme(TokenType::Separator));
    lexeme.clear();
}

/// Reads a space: it joins the open lexeme if that began with a double quote.
fn handle_space(lexeme: &mut String)
    ensures
        final(lexeme)@ == lex_step(lex_state(Seq::empty(), old(lexeme)@), ' ').pending,
{
    if !lexeme.as_str().is_empty() && lexeme.as_str().get_char(0) == '"' {
        lexeme.push(' ');
    }
}

/// Cuts `data` into its tokens in one pass from left to right. Nothing is
/// checked: any text has a token sequence.
#[verifier::loop_isolation(false)]
pub fn lex(data: &str) -> (result: Vec<Token>)
    ensures
        token_views(result@) == lex_spec(data@),
{
    let mut result: Vec<Token> = Vec::new();
    let mut lexeme = String::new();
    assert(token_views(result@) =~= lex_start().tokens);
    assert(data@.subrange(0, 0) =~= Seq::<char>::empty());

    for ch in it: data.chars()
        invariant
            token_views(result@) == lex_run(data@.subrange(0, it.index() as int)).tokens,
            lexeme@ == lex_run(data@.subrange(0, it.index() as int)).pending,
    {
        proof {
            let seen = data@.subrange(0, it.index() as int);
            lemma_lex_run_push(seen, ch);
            assert(seen.push(ch) =~= data@.subrange(0, it.index() + 1));
        }
        match ch {
            '{' => push_token(&mut result, Token::no_lexeme(TokenType::OpeningBrace)),
            '}' => handle_closing_brace(&mut result, &mut lexeme),
            '[' => push_token(&mut result, Token::no_lexeme(TokenType::LeftBracket)),
            ']' => handle_right_bracket(&mut result, &mut lexeme),
            ':' => handle_assigner(&mut result, &mut lexeme),
            ',' => handle_separator(&mut result, &mut lexeme),
            ' ' => handle_space(&mut lexeme),
            '\n' | '\r' | '\t' => (),
            _ => lexeme.push(ch),
        }
    }
    assert(data@.subrange(0, data@.len() as int) =~= data@);
    result
}

} // verus!
