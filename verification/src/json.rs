use vstd::prelude::*;
use crate::error::{JsonError, JsonResult};
use crate::lexer::{lex, lex_spec};
use crate::text::{chars_of, quote, quoted};
use crate::value::{JsonValue, JsonValueView, parse_spec, is_scalar, lexeme_of};
use crate::token::{Token, TokenType, TokenView, token_views, bare, worded, lemma_views_concat, lemma_views_subrange};

verus! {

/// A key path as contracts see it: the characters of each segment.
pub open spec fn path_view(keys: Seq<&str>) -> Seq<Seq<char>> {
    Seq::new(keys.len(), |i: int| keys[i]@)
}

/// A key lexeme without its first and last character, which are its quotes.
/// A lexeme of fewer than two characters has no such form.
pub open spec fn dequoted(lexeme: Seq<char>) -> Option<Seq<char>> {
    if lexeme.len() >= 2 {
        Some(lexeme.subrange(1, lexeme.len() - 1))
    } else {
        None
    }
}

/// Whether `t` is a key whose dequoted lexeme is `name`.
pub open spec fn names(t: TokenView, name: Seq<char>) -> bool {
    t.kind == TokenType::Key && t.lexeme is Some && dequoted(t.lexeme->0) == Some(name)
}

/// The nesting depth behind a token of kind `kind` that stands at depth
/// `depth`, where only braces count.
pub open spec fn brace_step(kind: TokenType, depth: int) -> int {
    match kind {
        TokenType::OpeningBrace => depth + 1,
        TokenType::ClosingBrace => depth - 1,
        _ => depth,
    }
}

/// The nesting depth once the token at `i` has been seen, `depth` being the
/// depth before it. The first and the last token of the document, its outer
/// pair, do not count.
pub open spec fn depth_past(ts: Seq<TokenView>, i: int, depth: int) -> int {
    if i == 0 || i == ts.len() - 1 {
        depth
    } else {
        brace_step(ts[i].kind, depth)
    }
}

/// The outcome of the scan for `path` that stands before the token at `i`
/// with `matched` segments found so far at nesting depth `depth`.
///
/// A key is taken for segment `matched` only at depth `matched`, and the
/// first such key wins. The index of the key that completes the path is the
/// result. A closing brace below depth zero ends the scan with
/// `InvalidJson`, the end of the tokens with `InvalidPath`.
pub open spec fn find_from(
    ts: Seq<TokenView>,
    path: Seq<Seq<char>>,
    i: int,
    matched: int,
    depth: int,
) -> Result<int, JsonError>
    decreases ts.len() - i,
{
    if i < 0 || i >= ts.len() || matched < 0 || matched >= path.len() {
        Err(JsonError::InvalidPath)
    } else {
        let d = depth_past(ts, i, depth);
        if d < 0 {
            Err(JsonError::InvalidJson)
        } else if d == matched && names(ts[i], path[matched]) {
            if matched + 1 == path.len() {
                Ok(i)
            } else {
                find_from(ts, path, i + 1, matched + 1, d)
            }
        } else {
            find_from(ts, path, i + 1, matched, d)
        }
    }
}

/// The index of the key token that `path` leads to.
pub open spec fn find_spec(ts: Seq<TokenView>, path: Seq<Seq<char>>) -> Result<int, JsonError> {
    if path.len() == 0 {
        Err(JsonError::NoPathProvided)
    } else {
        find_from(ts, path, 0, 0, 0)
    }
}

/// A JSON document: the tokens of its text, in order.
pub struct Json {
    tokens: Vec<Token>,
}

impl View for Json {
    type V = Seq<TokenView>;

    closed spec fn view(&self) -> Seq<TokenView> {
        token_views(self.tokens@)
    }
}

/// Whether the dequoted form of `lexeme` is `name`.
fn lexeme_names(lexeme: &str, name: &str) -> (r: bool)
    ensures
        r == (dequoted(lexeme@) == Some(name@)),
{
    let l = chars_of(lexeme);
    let k = chars_of(name);
    if l.len() < 2 || l.len() - 2 != k.len() {
        return false;
    }
    let mut j: usize = 0;
    while j < k.len()
        invariant
            l@ == lexeme@,
            k@ == name@,
            l.len() == k.len() + 2,
            j <= k.len(),
            forall|x: int| 0 <= x < j ==> l@[x + 1] == k@[x],
        decreases k.len() - j,
    {
        if l[j + 1] != k[j] {
            assert(lexeme@.subrange(1, lexeme@.len() - 1)[j as int] != name@[j as int]);
            return false;
        }
        j += 1;
    }
    assert(lexeme@.subrange(1, lexeme@.len() - 1) =~= name@);
    true
}

impl Json {
    /// The document of the given text.
    pub fn from_string(data: &str) -> (json: Json)
        ensures
            json@ == lex_spec(data@),
    {
        Json { tokens: lex(data) }
    }

    /// The tokens of the document.
    pub fn tokens(&self) -> (tokens: &Vec<Token>)
        ensures
            token_views(tokens@) == self@,
    {
        &self.tokens
    }

    /// The document that consists of the given tokens.
    pub fn from_tokens(tokens: Vec<Token>) -> (json: Json)
        ensures
            json@ == token_views(tokens@),
    {
        Json { tokens }
    }

    /// Moves the nesting depth `buf` past `current_token`, counting braces.
    /// Returns `false`, and leaves the depth as it is, where a closing brace
    /// would take it below zero.
    pub fn update_nested_level(buf: &mut usize, current_token: &Token) -> (ok: bool)
        requires
            *old(buf) < usize::MAX,
        ensures
            ok == (brace_step(current_token@.kind, *old(buf) as int) >= 0),
            ok ==> *final(buf) == brace_step(current_token@.kind, *old(buf) as int),
            !ok ==> *final(buf) == *old(buf),
    {
        match current_token.token_type() {
            TokenType::OpeningBrace => {
                *buf += 1;
                true
            },
            TokenType::ClosingBrace => {
                if *buf == 0 {
                    false
                } else {
                    *buf -= 1;
                    true
                }
            },
            _ => true,
        }
    }

    /// Finds the key token that the path `keys` leads to, and returns its index.
    pub fn find_key_token_index(&self, keys: &[&str]) -> (r: JsonResult<usize>)
        ensures
            r is Ok ==> find_spec(self@, path_view(keys@)) == Ok::<int, JsonError>(r->Ok_0 as int),
            r is Ok ==> r->Ok_0 < self@.len(),
            r is Err ==> find_spec(self@, path_view(keys@)) == Err::<int, JsonError>(r->Err_0),
    {
        if keys.len() == 0 {
            return Err(JsonError::NoPathProvided);
        }
        let ghost ts = self@;
        let ghost path = path_view(keys@);
        let n = self.tokens.len();
        let mut key_found: usize = 0;
        let mut nested_level: usize = 0;
        let mut i: usize = 0;
        while i < n
            invariant
                ts == self@,
                path == path_view(keys@),
                n == self.tokens.len(),
                i <= n,
                key_found < keys.len(),
                nested_level <= i,
                find_from(ts, path, i as int, key_found as int, nested_level as int) == find_spec(
                    ts,
                    path,
                ),
            decreases n - i,
        {
            let token = &self.tokens[i];
            assert(ts[i as int] == token@);
            if i != 0 && i != n - 1 {
                if !Self::update_nested_level(&mut nested_level, token) {
                    return Err(JsonError::InvalidJson);
                }
            }
            if token.token_type() == TokenType::Key && nested_level == key_found {
                let hit = match token.lexeme() {
                    Some(l) => lexeme_names(l.as_str(), keys[key_found]),
                    None => false,
                };
                if hit {
                    key_found += 1;
                    if key_found == keys.len() {
                        return Ok(i);
                    }
                }
            }
            i += 1;
        }
        Err(JsonError::InvalidPath)
    }
}

/// What a query for `path` gives: the value that the token two places behind
/// the key stands for.
///
/// Without such a token the document is broken (`InvalidJson`). Where an
/// object or an array begins there, the path does not lead to a leaf
/// (`InvalidPath`). Any other token without a lexeme is `InvalidJson` too.
pub open spec fn get_spec(ts: Seq<TokenView>, path: Seq<Seq<char>>) -> Result<
    JsonValueView,
    JsonError,
> {
    match find_spec(ts, path) {
        Err(e) => Err(e),
        Ok(i) => if i + 2 >= ts.len() {
            Err(JsonError::InvalidJson)
        } else if ts[i + 2].kind == TokenType::OpeningBrace || ts[i + 2].kind
            == TokenType::LeftBracket {
            Err(JsonError::InvalidPath)
        } else {
            match ts[i + 2].lexeme {
                Some(l) => Ok(parse_spec(l)),
                None => Err(JsonError::InvalidJson),
            }
        },
    }
}

/// What a lookup of `path` gives: what a query gives, and `Unknown` where
/// the query fails.
pub open spec fn lookup_spec(ts: Seq<TokenView>, path: Seq<Seq<char>>) -> JsonValueView {
    match get_spec(ts, path) {
        Ok(v) => v,
        Err(_) => JsonValueView::Unknown,
    }
}

/// Whether the entry whose key stands at `key_index` holds an object.
pub open spec fn holds_object(ts: Seq<TokenView>, key_index: int) -> Result<bool, JsonError> {
    if 0 <= key_index && key_index + 2 < ts.len() {
        Ok(ts[key_index + 2].kind == TokenType::OpeningBrace)
    } else {
        Err(JsonError::InvalidJson)
    }
}

/// Where a new entry goes for the container that `path` names: behind the
/// first token for the empty path, which names the root, and else behind the
/// opening brace of the object that the path leads to.
pub open spec fn insertion_index(ts: Seq<TokenView>, path: Seq<Seq<char>>) -> Result<
    int,
    JsonError,
> {
    match find_spec(ts, path) {
        Err(JsonError::NoPathProvided) => Ok(1),
        Err(e) => Err(e),
        Ok(i) => match holds_object(ts, i) {
            Err(e) => Err(e),
            Ok(true) => Ok(i + 3),
            Ok(false) => Err(JsonError::InsertCantInsertIntoValue),
        },
    }
}

/// `ts` with `run` let in before the token at `at`.
pub open spec fn spliced(ts: Seq<TokenView>, at: int, run: Seq<TokenView>) -> Seq<TokenView> {
    ts.subrange(0, at) + run + ts.subrange(at, ts.len() as int)
}

/// How an insertion of `run` for `path` ends.
///
/// It fails as the search for the place fails. It fails with `InvalidJson`
/// where the place lies behind the end of the tokens, and, when a separator
/// is to be seen to, where no token follows the place.
pub open spec fn insert_outcome(
    ts: Seq<TokenView>,
    path: Seq<Seq<char>>,
    end_with_sep: bool,
) -> Result<(), JsonError> {
    match insertion_index(ts, path) {
        Err(e) => Err(e),
        Ok(at) => if at > ts.len() || (end_with_sep && at == ts.len()) {
            Err(JsonError::InvalidJson)
        } else {
            Ok(())
        },
    }
}

/// The tokens that an insertion of `run` for `path` leaves behind.
///
/// Where no place is found, or the place lies behind the end, nothing
/// changes. Else the run is let in at the place. A separator follows it if
/// one is to be seen to and the token behind the run is no closing brace.
/// Where no token is behind the run, the run stays although the insertion
/// fails.
pub open spec fn inserted(
    ts: Seq<TokenView>,
    path: Seq<Seq<char>>,
    run: Seq<TokenView>,
    end_with_sep: bool,
) -> Seq<TokenView> {
    match insertion_index(ts, path) {
        Err(e) => ts,
        Ok(at) => if at > ts.len() {
            ts
        } else if end_with_sep && at < ts.len() && ts[at].kind != TokenType::ClosingBrace {
            spliced(ts, at, run.push(bare(TokenType::Separator)))
        } else {
            spliced(ts, at, run)
        },
    }
}

/// The tokens of a new entry `key` that holds the lexeme `lexeme`.
pub open spec fn value_entry(key: Seq<char>, lexeme: Seq<char>) -> Seq<TokenView> {
    seq![
        worded(quoted(key), TokenType::Key),
        bare(TokenType::Assigner),
        worded(lexeme, TokenType::Value),
    ]
}

/// The tokens of a new entry `key` that holds an empty object.
pub open spec fn object_entry(key: Seq<char>) -> Seq<TokenView> {
    seq![
        worded(quoted(key), TokenType::Key),
        bare(TokenType::Assigner),
        bare(TokenType::OpeningBrace),
        bare(TokenType::ClosingBrace),
    ]
}

impl Json {
    /// The value that the path `keys` leads to.
    pub fn get(&self, keys: &[&str]) -> (r: JsonResult<JsonValue>)
        ensures
            r is Ok ==> get_spec(self@, path_view(keys@)) == Ok::<JsonValueView, JsonError>(
                r->Ok_0@,
            ),
            r is Err ==> get_spec(self@, path_view(keys@)) == Err::<JsonValueView, JsonError>(
                r->Err_0,
            ),
    {
        let i = match self.find_key_token_index(keys) {
            Ok(i) => i,
            Err(e) => {
                return Err(e);
            },
        };
        let n = self.tokens.len();
        if n - i <= 2 {
            return Err(JsonError::InvalidJson);
        }
        let value_token = &self.tokens[i + 2];
        assert(self@[i + 2] == value_token@);
        match value_token.token_type() {
            TokenType::OpeningBrace | TokenType::LeftBracket => Err(JsonError::InvalidPath),
            _ => match value_token.lexeme() {
                Some(l) => Ok(JsonValue::parse(l.as_str())),
                None => Err(JsonError::InvalidJson),
            },
        }
    }

    /// The value that the path `keys` leads to, or `Unknown` where the
    /// query fails.
    pub fn lookup(&self, keys: &[&str]) -> (value: JsonValue)
        ensures
            value@ == lookup_spec(self@, path_view(keys@)),
    {
        match self.get(keys) {
            Ok(value) => value,
            Err(_) => JsonValue::Unknown,
        }
    }

    /// Whether the entry whose key stands at `key_index` holds an object.
    pub fn is_key_value_an_object(&self, key_index: usize) -> (r: JsonResult<bool>)
        ensures
            r == holds_object(self@, key_index as int),
    {
        let n = self.tokens.len();
        if key_index >= n || n - key_index <= 2 {
            return Err(JsonError::InvalidJson);
        }
        let token = &self.tokens[key_index + 2];
        assert(self@[key_index + 2] == token@);
        Ok(token.token_type() == TokenType::OpeningBrace)
    }

    /// Lets the run `tokens` in where new entries of the container `keys`
    /// go, and sees to the separator behind it if `end_with_sep` is set.
    pub fn insert_tokens(&mut self, keys: &[&str], tokens: Vec<Token>, end_with_sep: bool) -> (r:
        JsonResult<()>)
        ensures
            r == insert_outcome(old(self)@, path_view(keys@), end_with_sep),
            final(self)@ == inserted(
                old(self)@,
                path_view(keys@),
                token_views(tokens@),
                end_with_sep,
            ),
    {
        let ghost ts = self@;
        let count = self.tokens.len();
        let insert_at: usize = match self.find_key_token_index(keys) {
            Ok(i) => match self.is_key_value_an_object(i) {
                Ok(true) => {
                    assert(i + 2 < count);
                    i + 3
                },
                Ok(false) => {
                    return Err(JsonError::InsertCantInsertIntoValue);
                },
                Err(e) => {
                    return Err(e);
                },
            },
            Err(JsonError::NoPathProvided) => 1,
            Err(e) => {
                return Err(e);
            },
        };
        assert(insertion_index(ts, path_view(keys@)) == Ok::<int, JsonError>(insert_at as int));
        if insert_at > count {
            return Err(JsonError::InvalidJson);
        }
        let ghost before = self.tokens@;
        let mut run = tokens;
        let mut tail = self.tokens.split_off(insert_at);
        self.tokens.append(&mut run);
        let followed = tail.len() > 0;
        if end_with_sep && followed {
            assert(tail@[0]@ == ts[insert_at as int]);
            if tail[0].token_type() != TokenType::ClosingBrace {
                self.tokens.push(Token::no_lexeme(TokenType::Separator));
            }
        }
        let ghost head = self.tokens@;
        self.tokens.append(&mut tail);
        proof {
            let rest = before.subrange(insert_at as int, before.len() as int);
            lemma_views_concat(head, rest);
            lemma_views_subrange(before, insert_at as int, before.len() as int);
            lemma_views_subrange(before, 0, insert_at as int);
            let start = before.subrange(0, insert_at as int);
            lemma_views_concat(start, tokens@);
            if end_with_sep && followed && ts[insert_at as int].kind != TokenType::ClosingBrace {
                assert(token_views(head) =~= token_views(start) + token_views(tokens@).push(
                    bare(TokenType::Separator),
                ));
            }
            assert(self@ =~= inserted(ts, path_view(keys@), token_views(tokens@), end_with_sep));
        }
        if end_with_sep && !followed {
            return Err(JsonError::InvalidJson);
        }
        Ok(())
    }

    /// Adds the entry `key` with the scalar `value` to the container that
    /// the path `keys` names; the empty path names the root.
    pub fn insert_value(&mut self, keys: &[&str], key: &str, value: JsonValue) -> (r: JsonResult<
        (),
    >)
        requires
            is_scalar(value@),
        ensures
            r == insert_outcome(old(self)@, path_view(keys@), true),
            final(self)@ == inserted(
                old(self)@,
                path_view(keys@),
                value_entry(key@, lexeme_of(value@)),
                true,
            ),
    {
        let value_as_string = value.to_string_force();
        let mut run: Vec<Token> = Vec::new();
        run.push(Token::new(quote(key).as_str(), TokenType::Key));
        run.push(Token::no_lexeme(TokenType::Assigner));
        run.push(Token::new(value_as_string.as_str(), TokenType::Value));
        assert(token_views(run@) =~= value_entry(key@, lexeme_of(value@)));
        self.insert_tokens(keys, run, true)
    }

    /// Adds the entry `key` with an empty object to the container that the
    /// path `keys` names; the empty path names the root.
    pub fn insert_object(&mut self, keys: &[&str], key: &str) -> (r: JsonResult<()>)
        ensures
            r == insert_outcome(old(self)@, path_view(keys@), true),
            final(self)@ == inserted(old(self)@, path_view(keys@), object_entry(key@), true),
    {
        let mut run: Vec<Token> = Vec::new();
        run.push(Token::new(quote(key).as_str(), TokenType::Key));
        run.push(Token::no_lexeme(TokenType::Assigner));
        run.push(Token::no_lexeme(TokenType::OpeningBrace));
        run.push(Token::no_lexeme(TokenType::ClosingBrace));
        assert(token_views(run@) =~= object_entry(key@));
        self.insert_tokens(keys, run, true)
    }
}

} // verus!
