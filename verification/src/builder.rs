use vstd::prelude::*;
use crate::json::{Json, value_entry};
use crate::text::{quote, quoted};
use crate::token::{Token, TokenType, TokenView, token_views, bare, worded};
use crate::value::{JsonValue, is_scalar, lexeme_of};

verus! {

/// Whether a new entry behind `ts` has to be parted from what stands before
/// it: it has where `ts` ends with a value or a closing brace.
pub open spec fn needs_separator(ts: Seq<TokenView>) -> bool {
    ts.len() > 0 && (ts.last().kind == TokenType::Value || ts.last().kind
        == TokenType::ClosingBrace)
}

/// `ts`, with a separator behind it where a new entry needs one.
pub open spec fn with_separator(ts: Seq<TokenView>) -> Seq<TokenView> {
    if needs_separator(ts) {
        ts.push(bare(TokenType::Separator))
    } else {
        ts
    }
}

/// The tokens that open the object of the entry `name`.
pub open spec fn object_opening(name: Seq<char>) -> Seq<TokenView> {
    seq![
        worded(quoted(name), TokenType::Key),
        bare(TokenType::Assigner),
        bare(TokenType::OpeningBrace),
    ]
}

/// Builds a document token by token, from its opening brace on.
pub struct JsonBuilder {
    tokens: Vec<Token>,
}

impl View for JsonBuilder {
    type V = Seq<TokenView>;

    closed spec fn view(&self) -> Seq<TokenView> {
        token_views(self.tokens@)
    }
}

impl JsonBuilder {
    /// A builder that holds the opening brace of the root.
    pub fn new() -> (builder: JsonBuilder)
        ensures
            builder@ == seq![bare(TokenType::OpeningBrace)],
    {
        let mut tokens: Vec<Token> = Vec::new();
        tokens.push(Token::no_lexeme(TokenType::OpeningBrace));
        let builder = JsonBuilder { tokens };
        assert(builder@ =~= seq![bare(TokenType::OpeningBrace)]);
        builder
    }

    fn push(&mut self, token: Token)
        ensures
            final(self)@ == old(self)@.push(token@),
    {
        self.tokens.push(token);
        assert(self@ =~= old(self)@.push(token@));
    }

    /// Adds a separator where the next entry needs one.
    pub fn add_separator_if_needed(&mut self)
        ensures
            final(self)@ == with_separator(old(self)@),
    {
        let n = self.tokens.len();
        if n > 0 {
            assert(self@.last() == self.tokens@[n - 1]@);
            let kind = self.tokens[n - 1].token_type();
            if kind == TokenType::Value || kind == TokenType::ClosingBrace {
                self.push(Token::no_lexeme(TokenType::Separator));
            }
        }
    }

    /// Opens the object of a new entry `name`.
    pub fn object(self, name: &str) -> (builder: JsonBuilder)
        ensures
            builder@ == with_separator(self@) + object_opening(name@),
    {
        let mut builder = self;
        builder.add_separator_if_needed();
        builder.push(Token::new(quote(name).as_str(), TokenType::Key));
        builder.push(Token::no_lexeme(TokenType::Assigner));
        builder.push(Token::no_lexeme(TokenType::OpeningBrace));
        assert(builder@ =~= with_separator(self@) + object_opening(name@));
        builder
    }

    /// Adds the entry `key` with the scalar `value`.
    pub fn value(self, key: &str, value: JsonValue) -> (builder: JsonBuilder)
        requires
            is_scalar(value@),
        ensures
            builder@ == with_separator(self@) + value_entry(key@, lexeme_of(value@)),
    {
        let mut builder = self;
        builder.add_separator_if_needed();
        builder.push(Token::new(quote(key).as_str(), TokenType::Key));
        builder.push(Token::no_lexeme(TokenType::Assigner));
        builder.push(Token::new(value.to_string_force().as_str(), TokenType::Value));
        assert(builder@ =~= with_separator(self@) + value_entry(key@, lexeme_of(value@)));
        builder
    }

    /// Closes the object that was opened last.
    pub fn object_end(self) -> (builder: JsonBuilder)
        ensures
            builder@ == self@.push(bare(TokenType::ClosingBrace)),
    {
        let mut builder = self;
        builder.push(Token::no_lexeme(TokenType::ClosingBrace));
        builder
    }

    /// Closes the root and hands the document over.
    pub fn build(self) -> (json: Json)
        ensures
            json@ == self@.push(bare(TokenType::ClosingBrace)),
    {
        let mut builder = self;
        builder.push(Token::no_lexeme(TokenType::ClosingBrace));
        Json::from_tokens(builder.tokens)
    }
}

} // verus!
