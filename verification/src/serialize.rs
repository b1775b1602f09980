use vstd::prelude::*;
use vstd::string::StringExecFns;
use vstd::utf8::encode_utf8;
use crate::error::{JsonError, JsonResult};
use crate::json::Json;
use crate::text::{chars_of, string_from};
use crate::token::{Token, TokenType, TokenView, token_views};

verus! {

/// The lexeme of `t`; nothing where it carries none.
pub open spec fn lexeme_text(t: TokenView) -> Seq<char> {
    match t.lexeme {
        Some(l) => l,
        None => Seq::empty(),
    }
}

/// The character that a token of the structural kind `kind` stands for.
pub open spec fn mark(kind: TokenType) -> char {
    match kind {
        TokenType::OpeningBrace => '{',
        TokenType::ClosingBrace => '}',
        TokenType::LeftBracket => '[',
        TokenType::RightBracket => ']',
        TokenType::Assigner => ':',
        _ => ',',
    }
}

/// Whether tokens of kind `kind` carry the text of the document, as keys
/// and values do.
pub open spec fn is_worded(kind: TokenType) -> bool {
    kind == TokenType::Key || kind == TokenType::Value
}

/// What `t` adds to the compact text: its lexeme for a key or a value, its
/// one character for any other token.
pub open spec fn token_text(t: TokenView) -> Seq<char> {
    if is_worded(t.kind) {
        lexeme_text(t)
    } else {
        seq![mark(t.kind)]
    }
}

/// The compact text of `ts`: what its tokens add, one behind the other, and
/// nothing between them.
pub open spec fn compact_text(ts: Seq<TokenView>) -> Seq<char>
    decreases ts.len(),
{
    if ts.len() == 0 {
        Seq::empty()
    } else {
        compact_text(ts.drop_last()) + token_text(ts.last())
    }
}

/// The bytes that `t` is reckoned to take in the compact text: those of its
/// lexeme in UTF-8 for a key or a value, as a `usize` counts them, and one
/// for any other token.
pub open spec fn token_weight(t: TokenView) -> nat {
    if !is_worded(t.kind) {
        1
    } else {
        match t.lexeme {
            Some(l) => (encode_utf8(l).len() as usize) as nat,
            None => 0,
        }
    }
}

/// The sum of the weights of `ts`.
pub open spec fn total_weight(ts: Seq<TokenView>) -> nat
    decreases ts.len(),
{
    if ts.len() == 0 {
        0
    } else {
        total_weight(ts.drop_last()) + token_weight(ts.last())
    }
}

/// One and a half times the weight of `ts`, as far as a `usize` can hold it.
pub open spec fn size_estimate(ts: Seq<TokenView>) -> int {
    let w = total_weight(ts) as int;
    if w + w / 2 <= usize::MAX {
        w + w / 2
    } else {
        usize::MAX as int
    }
}

fn mark_of(kind: TokenType) -> (c: char)
    ensures
        c == mark(kind),
{
    match kind {
        TokenType::OpeningBrace => '{',
        TokenType::ClosingBrace => '}',
        TokenType::LeftBracket => '[',
        TokenType::RightBracket => ']',
        TokenType::Assigner => ':',
        _ => ',',
    }
}

/// The capacity that a buffer for `size` bytes is asked to have beforehand.
fn capped(size: usize) -> (r: usize)
    ensures
        r == capacity_for(size),
{
    let most: usize = isize::MAX as usize;
    if size > most {
        most
    } else {
        size
    }
}

/// The capacity to ask for where `size` bytes are expected: `size` itself,
/// or the most that an allocation can hold where `size` is more than that.
pub open spec fn capacity_for(size: usize) -> usize {
    if size > isize::MAX as usize {
        isize::MAX as usize
    } else {
        size
    }
}

impl Json {
    /// A guess at the bytes that the text of the document takes, good
    /// enough to size a buffer with.
    pub fn estimate_json_size(&self) -> (size: usize)
        ensures
            size == size_estimate(self@),
    {
        let tokens = self.tokens();
        let ghost ts = self@;
        let mut weight: usize = 0;
        let mut i: usize = 0;
        assert(ts.subrange(0, 0) =~= Seq::<TokenView>::empty());
        while i < tokens.len()
            invariant
                i <= tokens.len(),
                ts == token_views(tokens@),
                weight == if total_weight(ts.subrange(0, i as int)) <= usize::MAX {
                    total_weight(ts.subrange(0, i as int)) as int
                } else {
                    usize::MAX as int
                },
            decreases tokens.len() - i,
        {
            let token = &tokens[i];
            let w: usize = match token.token_type() {
                TokenType::Key | TokenType::Value => match token.lexeme() {
                    Some(l) => l.as_str().len(),
                    None => 0,
                },
                _ => 1,
            };
            proof {
                assert(ts[i as int] == token@);
                assert(ts.subrange(0, i + 1).drop_last() =~= ts.subrange(0, i as int));
                assert(w == token_weight(ts[i as int]));
            }
            weight = if usize::MAX - weight < w {
                usize::MAX
            } else {
                weight + w
            };
            i += 1;
        }
        assert(ts.subrange(0, tokens.len() as int) =~= ts);
        let half = weight / 2;
        if usize::MAX - weight < half {
            usize::MAX
        } else {
            weight + half
        }
    }

    /// The compact text of the document.
    pub fn to_string(&self) -> (text: String)
        ensures
            text@ == compact_text(self@),
    {
        let mut buffer = String::with_capacity(capped(self.estimate_json_size()));
        let tokens = self.tokens();
        let ghost ts = self@;
        let mut i: usize = 0;
        assert(ts.subrange(0, 0) =~= Seq::<TokenView>::empty());
        while i < tokens.len()
            invariant
                i <= tokens.len(),
                ts == token_views(tokens@),
                buffer@ == compact_text(ts.subrange(0, i as int)),
            decreases tokens.len() - i,
        {
            let token = &tokens[i];
            proof {
                assert(ts[i as int] == token@);
                assert(ts.subrange(0, i + 1).drop_last() =~= ts.subrange(0, i as int));
            }
            match token.token_type() {
                TokenType::Key | TokenType::Value => match token.lexeme() {
                    Some(l) => {
                        buffer.append(l.as_str());
                    },
                    None => {
                        assert(buffer@ + Seq::<char>::empty() =~= buffer@);
                    },
                },
                kind => {
                    buffer.push(mark_of(kind));
                    assert(buffer@ =~= compact_text(ts.subrange(0, i as int)) + seq![mark(kind)]);
                },
            }
            i += 1;
        }
        assert(ts.subrange(0, tokens.len() as int) =~= ts);
        buffer
    }
}

/// `n` tab characters; none where `n` is not positive.
pub open spec fn tabs(n: int) -> Seq<char> {
    Seq::new(
        if n > 0 {
            n as nat
        } else {
            0
        },
        |i: int| '\t',
    )
}

/// The nesting depth behind a token of kind `kind` that stands at depth
/// `level`, where braces and brackets count alike.
pub open spec fn bracket_step(kind: TokenType, level: int) -> int {
    match kind {
        TokenType::OpeningBrace | TokenType::LeftBracket => level + 1,
        TokenType::ClosingBrace | TokenType::RightBracket => level - 1,
        _ => level,
    }
}

/// Whether a brace or a bracket closes at a token of kind `kind`.
pub open spec fn is_closing(kind: TokenType) -> bool {
    kind == TokenType::ClosingBrace || kind == TokenType::RightBracket
}

/// Whether the token behind the one at `i` is a separator.
pub open spec fn followed_by_separator(ts: Seq<TokenView>, i: int) -> bool {
    i + 1 < ts.len() && ts[i + 1].kind == TokenType::Separator
}

/// What ends the line behind the token at `i`: a line break, or nothing
/// where a separator follows and brings its own.
pub open spec fn line_end(ts: Seq<TokenView>, i: int) -> Seq<char> {
    if followed_by_separator(ts, i) {
        Seq::empty()
    } else {
        seq!['\n']
    }
}

/// Whether `text` ends with a line break.
pub open spec fn ends_line(text: Seq<char>) -> bool {
    text.len() > 0 && text.last() == '\n'
}

/// What the token at `i` adds to the indented text, `level` being the depth
/// behind it and `so_far` the text before it.
///
/// An opening brace or bracket ends its line; a bracket that does not follow
/// an assigner is indented one level less than its content. A closing one is
/// indented and ends its line unless a separator follows. A key is indented.
/// A value is indented where it begins a line, and ends its line unless a
/// separator follows. An assigner is a colon and a space, a separator a comma
/// and a line break.
pub open spec fn pretty_piece(ts: Seq<TokenView>, i: int, level: int, so_far: Seq<char>) -> Seq<
    char,
> {
    match ts[i].kind {
        TokenType::OpeningBrace => seq!['{', '\n'],
        TokenType::LeftBracket => (if i > 0 && ts[i - 1].kind == TokenType::Assigner {
            Seq::empty()
        } else {
            tabs(level - 1)
        }) + seq!['[', '\n'],
        TokenType::ClosingBrace => tabs(level) + seq!['}'] + line_end(ts, i),
        TokenType::RightBracket => tabs(level) + seq![']'] + line_end(ts, i),
        TokenType::Key => tabs(level) + lexeme_text(ts[i]),
        TokenType::Value => (if ends_line(so_far) {
            tabs(level)
        } else {
            Seq::empty()
        }) + lexeme_text(ts[i]) + line_end(ts, i),
        TokenType::Assigner => seq![':', ' '],
        TokenType::Separator => seq![',', '\n'],
    }
}

/// Whether the document is broken at the token at `i`, `level` being the
/// depth behind it: more has been closed than was opened, or the last token
/// closes and leaves something open.
pub open spec fn breaks_at(ts: Seq<TokenView>, i: int, level: int) -> bool {
    level < 0 || (is_closing(ts[i].kind) && i + 1 == ts.len() && level != 0)
}

/// How far the indented text has come: the text, and the nesting depth.
pub struct PrettyState {
    pub text: Seq<char>,
    pub level: int,
}

/// The state with the given text and depth.
pub open spec fn pretty_state(text: Seq<char>, level: int) -> PrettyState {
    PrettyState { text, level }
}

/// The state behind the first `n` tokens of `ts`, unless the document is
/// broken at one of them.
pub open spec fn pretty_run(ts: Seq<TokenView>, n: int) -> Option<PrettyState>
    decreases n,
{
    if n <= 0 {
        Some(pretty_state(Seq::empty(), 0))
    } else {
        match pretty_run(ts, n - 1) {
            None => None,
            Some(before) => {
                let level = bracket_step(ts[n - 1].kind, before.level);
                if breaks_at(ts, n - 1, level) {
                    None
                } else {
                    Some(
                        pretty_state(
                            before.text + pretty_piece(ts, n - 1, level, before.text),
                            level,
                        ),
                    )
                }
            },
        }
    }
}

/// The indented text of `ts`, unless the document is broken.
pub open spec fn pretty_text(ts: Seq<TokenView>) -> Option<Seq<char>> {
    match pretty_run(ts, ts.len() as int) {
        Some(state) => Some(state.text),
        None => None,
    }
}

fn push_tabs(buf: &mut Vec<char>, count: usize)
    ensures
        final(buf)@ == old(buf)@ + tabs(count as int),
{
    let mut k: usize = 0;
    assert(buf@ =~= old(buf)@ + tabs(0));
    while k < count
        invariant
            k <= count,
            buf@ == old(buf)@ + tabs(k as int),
        decreases count - k,
    {
        buf.push('\t');
        assert(buf@ =~= old(buf)@ + tabs(k + 1));
        k += 1;
    }
}

fn push_lexeme(buf: &mut Vec<char>, token: &Token)
    ensures
        final(buf)@ == old(buf)@ + lexeme_text(token@),
{
    match token.lexeme() {
        Some(l) => {
            let mut chars = chars_of(l.as_str());
            buf.append(&mut chars);
        },
        None => {
            assert(buf@ =~= old(buf)@ + Seq::<char>::empty());
        },
    }
}

impl Json {
    /// Moves the nesting depth `buf` past `current_token`, counting braces
    /// and brackets. Returns `false`, and leaves the depth as it is, where a
    /// closing token would take it below zero.
    pub fn update_nested_level_include_brackets(buf: &mut usize, current_token: &Token) -> (ok:
        bool)
        requires
            *old(buf) < usize::MAX,
        ensures
            ok == (bracket_step(current_token@.kind, *old(buf) as int) >= 0),
            ok ==> *final(buf) == bracket_step(current_token@.kind, *old(buf) as int),
            !ok ==> *final(buf) == *old(buf),
    {
        match current_token.token_type() {
            TokenType::OpeningBrace | TokenType::LeftBracket => {
                *buf += 1;
                true
            },
            TokenType::ClosingBrace | TokenType::RightBracket => {
                if *buf == 0 {
                    false
                } else {
                    *buf -= 1;
                    true
                }
            },
            _ => true,
        }
    }

    /// Whether the token behind the one at `i` is a separator.
    fn separator_follows(&self, i: usize) -> (r: bool)
        requires
            i < self@.len(),
        ensures
            r == followed_by_separator(self@, i as int),
    {
        let tokens = self.tokens();
        if tokens.len() - i > 1 {
            assert(self@[i + 1] == tokens@[i + 1]@);
            tokens[i + 1].token_type() == TokenType::Separator
        } else {
            false
        }
    }

    /// Writes the closing `bracket` of the token at `i`, indented to
    /// `nested_level`, and ends the line unless a separator follows. Fails
    /// where the token is the last one and something is still open.
    fn format_handle_close_bracket(
        &self,
        buf: &mut Vec<char>,
        i: usize,
        nested_level: usize,
        bracket: char,
    ) -> (r: JsonResult<()>)
        requires
            bracket == '}' || bracket == ']',
            i < self@.len(),
        ensures
            r is Err <==> i + 1 == self@.len() && nested_level != 0,
            r is Err ==> r->Err_0 == JsonError::InvalidJson,
            r is Ok ==> final(buf)@ == old(buf)@ + (tabs(nested_level as int) + seq![bracket]
                + line_end(self@, i as int)),
    {
        push_tabs(buf, nested_level);
        let last = self.tokens().len() - i == 1;
        if last && nested_level != 0 {
            return Err(JsonError::InvalidJson);
        }
        buf.push(bracket);
        if !self.separator_follows(i) {
            buf.push('\n');
        }
        assert(buf@ =~= old(buf)@ + (tabs(nested_level as int) + seq![bracket] + line_end(
            self@,
            i as int,
        )));
        Ok(())
    }

    /// Writes the opening bracket of the token at `i`, indented to one level
    /// less than `nested_level` unless it follows an assigner, and ends the line.
    fn format_handle_left_bracket(&self, buf: &mut Vec<char>, i: usize, nested_level: usize)
        requires
            i < self@.len(),
            self@[i as int].kind == TokenType::LeftBracket,
            nested_level >= 1,
        ensures
            final(buf)@ == old(buf)@ + pretty_piece(
                self@,
                i as int,
                nested_level as int,
                old(buf)@,
            ),
    {
        let tokens = self.tokens();
        let inline = i > 0 && tokens[i - 1].token_type() == TokenType::Assigner;
        assert(i > 0 ==> self@[i - 1] == tokens@[i - 1]@);
        if !inline {
            push_tabs(buf, nested_level - 1);
        }
        buf.push('[');
        buf.push('\n');
        assert(buf@ =~= old(buf)@ + pretty_piece(self@, i as int, nested_level as int, old(buf)@));
    }

    /// Writes the key at `i`, indented to `nested_level`.
    fn format_handle_key(&self, buf: &mut Vec<char>, i: usize, nested_level: usize)
        requires
            i < self@.len(),
            self@[i as int].kind == TokenType::Key,
        ensures
            final(buf)@ == old(buf)@ + pretty_piece(
                self@,
                i as int,
                nested_level as int,
                old(buf)@,
            ),
    {
        let tokens = self.tokens();
        assert(self@[i as int] == tokens@[i as int]@);
        push_tabs(buf, nested_level);
        push_lexeme(buf, &tokens[i]);
        assert(buf@ =~= old(buf)@ + pretty_piece(self@, i as int, nested_level as int, old(buf)@));
    }

    /// Writes the value at `i`, indented to `nested_level` where it begins
    /// a line, and ends the line unless a separator follows.
    fn format_handle_value(&self, buf: &mut Vec<char>, i: usize, nested_level: usize)
        requires
            i < self@.len(),
            self@[i as int].kind == TokenType::Value,
        ensures
            final(buf)@ == old(buf)@ + pretty_piece(
                self@,
                i as int,
                nested_level as int,
                old(buf)@,
            ),
    {
        let tokens = self.tokens();
        assert(self@[i as int] == tokens@[i as int]@);
        if buf.len() > 0 && buf[buf.len() - 1] == '\n' {
            push_tabs(buf, nested_level);
        }
        push_lexeme(buf, &tokens[i]);
        if !self.separator_follows(i) {
            buf.push('\n');
        }
        assert(buf@ =~= old(buf)@ + pretty_piece(self@, i as int, nested_level as int, old(buf)@));
    }

    /// The indented text of the document: one entry to a line, a tab for
    /// each level of nesting. Fails with `InvalidJson` where more is closed
    /// than was opened, or the last token closes and leaves something open.
    pub fn to_string_format(&self) -> (r: JsonResult<String>)
        ensures
            r is Ok ==> pretty_text(self@) == Some(r->Ok_0@),
            r is Err ==> r->Err_0 == JsonError::InvalidJson && pretty_text(self@) is None,
    {
        let tokens = self.tokens();
        let ghost ts = self@;
        let mut buffer: Vec<char> = Vec::new();
        let mut nested_level: usize = 0;
        let mut i: usize = 0;
        while i < tokens.len()
            invariant
                i <= tokens.len(),
                ts == self@,
                ts == token_views(tokens@),
                nested_level <= i,
                pretty_run(ts, i as int) == Some(pretty_state(buffer@, nested_level as int)),
            decreases tokens.len() - i,
        {
            let token = &tokens[i];
            assert(ts[i as int] == token@);
            let ghost before = buffer@;
            if !Self::update_nested_level_include_brackets(&mut nested_level, token) {
                proof {
                    lemma_pretty_stays_broken(ts, i + 1, ts.len() as int);
                }
                return Err(JsonError::InvalidJson);
            }
            match token.token_type() {
                TokenType::OpeningBrace => {
                    buffer.push('{');
                    buffer.push('\n');
                    assert(buffer@ =~= before + seq!['{', '\n']);
                },
                TokenType::ClosingBrace => {
                    match self.format_handle_close_bracket(&mut buffer, i, nested_level, '}') {
                        Ok(()) => {},
                        Err(e) => {
                            proof {
                                lemma_pretty_stays_broken(ts, i + 1, ts.len() as int);
                            }
                            return Err(e);
                        },
                    }
                },
                TokenType::LeftBracket => {
                    self.format_handle_left_bracket(&mut buffer, i, nested_level);
                },
                TokenType::RightBracket => {
                    match self.format_handle_close_bracket(&mut buffer, i, nested_level, ']') {
                        Ok(()) => {},
                        Err(e) => {
                            proof {
                                lemma_pretty_stays_broken(ts, i + 1, ts.len() as int);
                            }
                            return Err(e);
                        },
                    }
                },
                TokenType::Key => {
                    self.format_handle_key(&mut buffer, i, nested_level);
                },
                TokenType::Value => {
                    self.format_handle_value(&mut buffer, i, nested_level);
                },
                TokenType::Assigner => {
                    buffer.push(':');
                    buffer.push(' ');
                    assert(buffer@ =~= before + seq![':', ' ']);
                },
                TokenType::Separator => {
                    buffer.push(',');
                    buffer.push('\n');
                    assert(buffer@ =~= before + seq![',', '\n']);
                },
            }
            assert(buffer@ == before + pretty_piece(ts, i as int, nested_level as int, before));
            i += 1;
        }
        let text = string_from(&buffer, 0, buffer.len());
        assert(buffer@.subrange(0, buffer@.len() as int) =~= buffer@);
        Ok(text)
    }
}

/// Once broken, the document stays broken however many tokens follow.
pub proof fn lemma_pretty_stays_broken(ts: Seq<TokenView>, n: int, m: int)
    requires
        pretty_run(ts, n) is None,
        n <= m,
    ensures
        pretty_run(ts, m) is None,
    decreases m - n,
{
    if n < m {
        lemma_pretty_stays_broken(ts, n, m - 1);
    }
}

} // verus!
