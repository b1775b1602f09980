use vstd::prelude::*;

verus! {

/// The kind of a lexical unit of a JSON text.
#[derive(Debug, Clone, Copy, PartialEq, Eq, Structural)]
pub enum TokenType {
    /// `{`
    OpeningBrace,
    /// `}`
    ClosingBrace,
    /// `[`
    LeftBracket,
    /// `]`
    RightBracket,
    /// The name of an entry, as written (quotes included).
    Key,
    /// `:`
    Assigner,
    /// A scalar, as written.
    Value,
    /// `,`
    Separator,
}

/// What a [`Token`] is to a contract: its kind and the characters of its
/// lexeme, if it carries one.
pub struct TokenView {
    pub lexeme: Option<Seq<char>>,
    pub kind: TokenType,
}

/// One lexical unit: a kind and, for keys and values, the captured text.
#[derive(Debug, PartialEq, Eq)]
pub struct Token {
    lexeme: Option<String>,
    token_type: TokenType,
}

impl View for Token {
    type V = TokenView;

    closed spec fn view(&self) -> TokenView {
        TokenView {
            lexeme: match self.lexeme {
                Some(s) => Some(s@),
                None => None,
            },
            kind: self.token_type,
        }
    }
}

/// The views of a run of tokens, in order.
pub open spec fn token_views(tokens: Seq<Token>) -> Seq<TokenView> {
    Seq::new(tokens.len(), |i: int| tokens[i]@)
}

/// The view of a token of the given kind that carries no lexeme.
pub open spec fn bare(kind: TokenType) -> TokenView {
    TokenView { lexeme: None, kind }
}

/// The view of a token of the given kind that carries `lexeme`.
pub open spec fn worded(lexeme: Seq<char>, kind: TokenType) -> TokenView {
    TokenView { lexeme: Some(lexeme), kind }
}

/// The views of a run with one more token are the views of the run with
/// the view of the token.
pub proof fn lemma_views_push(tokens: Seq<Token>, t: Token)
    ensures
        token_views(tokens.push(t)) == token_views(tokens).push(t@),
{
    assert(token_views(tokens.push(t)) =~= token_views(tokens).push(t@));
}

/// The views of two runs, one behind the other, are the views of the first
/// and then those of the second.
pub proof fn lemma_views_concat(a: Seq<Token>, b: Seq<Token>)
    ensures
        token_views(a + b) == token_views(a) + token_views(b),
{
    assert(token_views(a + b) =~= token_views(a) + token_views(b));
}

/// The views of a part of a run are that part of the views of the run.
pub proof fn lemma_views_subrange(a: Seq<Token>, from: int, to: int)
    requires
        0 <= from <= to <= a.len(),
    ensures
        token_views(a.subrange(from, to)) == token_views(a).subrange(from, to),
{
    assert(token_views(a.subrange(from, to)) =~= token_views(a).subrange(from, to));
}

impl Token {
    /// A token that carries `lexeme`.
    pub fn new(lexeme: &str, token_type: TokenType) -> (t: Token)
        ensures
            t@ == worded(lexeme@, token_type),
    {
        Token { lexeme: Some(lexeme.to_owned()), token_type }
    }

    /// A token without a lexeme.
    pub fn no_lexeme(token_type: TokenType) -> (t: Token)
        ensures
            t@ == bare(token_type),
    {
        Token { lexeme: None, token_type }
    }

    /// The captured text, if any.
    pub fn lexeme(&self) -> (l: &Option<String>)
        ensures
            l is Some <==> self@.lexeme is Some,
            l is Some ==> l->0@ == self@.lexeme->0,
    {
        &self.lexeme
    }

    /// The token's kind.
    pub fn token_type(&self) -> (k: TokenType)
        ensures
            k == self@.kind,
    {
        self.token_type
    }
}

impl Clone for Token {
    fn clone(&self) -> (t: Token)
        ensures
            t@ == self@,
    {
        match &self.lexeme {
            Some(s) => Token { lexeme: Some(s.clone()), token_type: self.token_type },
            None => Token { lexeme: None, token_type: self.token_type },
        }
    }
}

} // verus!
