use vstd::prelude::*;
use crate::lexer::{LexState, lex_state, lex_start, lex_step, lex_run, lex_spec, keeps_space, lemma_lex_run_push};
use crate::serialize::{compact_text, token_text, lexeme_text, mark, is_worded};
use crate::token::{TokenType, TokenView, bare, worded};

verus! {

/// Whether the lexer, in state `st`, takes the character `c` into a token
/// at the place where it stands. It does not where it drops `c`, as it drops
/// line breaks, tabs and spaces outside a quoted lexeme, nor where it emits
/// `c`, an opening brace or bracket, ahead of a lexeme that is still open.
pub open spec fn kept(st: LexState, c: char) -> bool {
    if c == '{' || c == '[' {
        st.pending.len() == 0
    } else if c == ' ' {
        keeps_space(st)
    } else {
        c != '\n' && c != '\r' && c != '\t'
    }
}

/// Whether the lexer takes the first `n` characters of `text` into tokens,
/// each at its place.
pub open spec fn kept_up_to(text: Seq<char>, n: int) -> bool {
    forall|i: int| 0 <= i < n ==> kept(lex_run(#[trigger] text.subrange(0, i)), text[i])
}

/// Whether `text` is settled: the lexer takes every character of it into a
/// token at its place, and no lexeme is left open at its end.
pub open spec fn settled(text: Seq<char>) -> bool {
    kept_up_to(text, text.len() as int) && lex_run(text).pending.len() == 0
}

/// The text that a lexer state has taken in: that of its tokens, then the
/// open lexeme.
pub open spec fn taken(st: LexState) -> Seq<char> {
    compact_text(st.tokens) + st.pending
}

/// One more token adds its text to the compact text.
pub proof fn lemma_compact_push(ts: Seq<TokenView>, t: TokenView)
    ensures
        compact_text(ts.push(t)) == compact_text(ts) + token_text(t),
{
    assert(ts.push(t).drop_last() =~= ts);
}

/// A character that is kept adds itself to what the lexer has taken in.
pub proof fn lemma_kept_step(st: LexState, c: char)
    requires
        kept(st, c),
    ensures
        taken(lex_step(st, c)) == taken(st).push(c),
{
    let next = lex_step(st, c);
    if c == '{' || c == '[' {
        let kind = if c == '{' {
            TokenType::OpeningBrace
        } else {
            TokenType::LeftBracket
        };
        lemma_compact_push(st.tokens, bare(kind));
        assert(taken(next) =~= taken(st).push(c));
    } else if c == '}' || c == ']' || c == ',' {
        let kind = if c == '}' {
            TokenType::ClosingBrace
        } else if c == ']' {
            TokenType::RightBracket
        } else {
            TokenType::Separator
        };
        if st.pending.len() > 0 {
            let value = worded(st.pending, TokenType::Value);
            lemma_compact_push(st.tokens, value);
            lemma_compact_push(st.tokens.push(value), bare(kind));
        } else {
            lemma_compact_push(st.tokens, bare(kind));
        }
        assert(taken(next) =~= taken(st).push(c));
    } else if c == ':' {
        let key = worded(st.pending, TokenType::Key);
        lemma_compact_push(st.tokens, key);
        lemma_compact_push(st.tokens.push(key), bare(TokenType::Assigner));
        assert(taken(next) =~= taken(st).push(c));
    } else {
        assert(taken(next) =~= taken(st).push(c));
    }
}

/// As long as every character is kept, the lexer has taken in exactly what
/// it has read.
pub proof fn lemma_taken_is_read(text: Seq<char>, n: int)
    requires
        0 <= n <= text.len(),
        kept_up_to(text, n),
    ensures
        taken(lex_run(text.subrange(0, n))) == text.subrange(0, n),
    decreases n,
{
    if n == 0 {
        assert(text.subrange(0, 0) =~= Seq::<char>::empty());
        assert(taken(lex_start()) =~= Seq::<char>::empty());
    } else {
        let before = text.subrange(0, n - 1);
        lemma_taken_is_read(text, n - 1);
        assert(before.push(text[n - 1]) =~= text.subrange(0, n));
        lemma_lex_run_push(before, text[n - 1]);
        assert(kept(lex_run(before), text[n - 1]));
        lemma_kept_step(lex_run(before), text[n - 1]);
    }
}

/// The compact text of the tokens of a settled text is that text.
pub proof fn lemma_settled_text_is_fixed(text: Seq<char>)
    requires
        settled(text),
    ensures
        compact_text(lex_spec(text)) == text,
{
    lemma_taken_is_read(text, text.len() as int);
    assert(text.subrange(0, text.len() as int) =~= text);
    assert(taken(lex_run(text)) =~= compact_text(lex_spec(text)));
}

/// Writing a document out, reading the text in again and writing that out
/// gives the text of the first writing, for every document whose compact
/// text is settled.
pub proof fn law_compact_round_trip(tokens: Seq<TokenView>)
    requires
        settled(compact_text(tokens)),
    ensures
        compact_text(lex_spec(compact_text(tokens))) == compact_text(tokens),
{
    lemma_settled_text_is_fixed(compact_text(tokens));
}

/// The state that the lexer reaches from `st` by reading `text`.
pub open spec fn lex_from(st: LexState, text: Seq<char>) -> LexState
    decreases text.len(),
{
    if text.len() == 0 {
        st
    } else {
        lex_step(lex_from(st, text.drop_last()), text.last())
    }
}

/// Reading two texts one behind the other is reading the second from where
/// the first ended.
pub proof fn lemma_lex_run_concat(a: Seq<char>, b: Seq<char>)
    ensures
        lex_run(a + b) == lex_from(lex_run(a), b),
    decreases b.len(),
{
    if b.len() == 0 {
        assert(a + b =~= a);
    } else {
        assert((a + b).drop_last() =~= a + b.drop_last());
        lemma_lex_run_concat(a, b.drop_last());
    }
}

/// Reading one character is one step.
pub proof fn lemma_lex_from_one(st: LexState, c: char)
    ensures
        lex_from(st, seq![c]) == lex_step(st, c),
{
    assert(seq![c].drop_last() =~= Seq::<char>::empty());
    assert(lex_from(st, seq![c].drop_last()) == st);
}

/// Whether `c` is one of the six characters that are tokens by themselves.
pub open spec fn is_mark(c: char) -> bool {
    c == '{' || c == '}' || c == '[' || c == ']' || c == ':' || c == ','
}

/// Whether the character at `j` can stand in the lexeme `l` of a token that
/// the lexer made: it is no token by itself, no line break and no tab, and
/// a space only behind the double quote that opens the lexeme.
pub open spec fn fits(l: Seq<char>, j: int) -> bool {
    !is_mark(l[j]) && l[j] != '\n' && l[j] != '\r' && l[j] != '\t' && (l[j] == ' ' ==> j > 0
        && l[0] == '"')
}

/// Whether the lexer can have gathered `l` as a lexeme.
pub open spec fn is_lexeme(l: Seq<char>) -> bool {
    forall|j: int| 0 <= j < l.len() ==> fits(l, j)
}

/// The lexer gathers a lexeme again when it reads it with none open.
pub proof fn lemma_replay(st: LexState, l: Seq<char>, n: int)
    requires
        st.pending.len() == 0,
        is_lexeme(l),
        0 <= n <= l.len(),
    ensures
        lex_from(st, l.subrange(0, n)) == lex_state(st.tokens, l.subrange(0, n)),
    decreases n,
{
    if n == 0 {
        assert(l.subrange(0, 0) =~= Seq::<char>::empty());
        assert(st.pending =~= Seq::<char>::empty());
    } else {
        lemma_replay(st, l, n - 1);
        let read = l.subrange(0, n);
        assert(read.drop_last() =~= l.subrange(0, n - 1));
        assert(read.last() == l[n - 1]);
        assert(fits(l, n - 1));
        let before = lex_state(st.tokens, l.subrange(0, n - 1));
        assert(lex_step(before, l[n - 1]).pending =~= read);
    }
}

/// Whether the token at `k` stands among `ts` as the lexer places tokens.
///
/// A key carries a lexeme and an assigner follows it. A value carries a
/// lexeme that is not empty, and a closing brace, a closing bracket or a
/// separator follows it. An assigner follows a key. No token but a key or a
/// value carries a lexeme.
pub open spec fn placed(ts: Seq<TokenView>, k: int) -> bool {
    match ts[k].kind {
        TokenType::Key => ts[k].lexeme is Some && is_lexeme(ts[k].lexeme->0) && k + 1 < ts.len()
            && ts[k + 1].kind == TokenType::Assigner,
        TokenType::Value => ts[k].lexeme is Some && is_lexeme(ts[k].lexeme->0)
            && ts[k].lexeme->0.len() > 0 && k + 1 < ts.len() && (ts[k + 1].kind
            == TokenType::ClosingBrace || ts[k + 1].kind == TokenType::RightBracket || ts[k
            + 1].kind == TokenType::Separator),
        TokenType::Assigner => ts[k].lexeme is None && k > 0 && ts[k - 1].kind == TokenType::Key,
        _ => ts[k].lexeme is None,
    }
}

/// Whether `ts` can be the tokens of a text.
pub open spec fn lexed(ts: Seq<TokenView>) -> bool {
    forall|k: int| 0 <= k < ts.len() ==> placed(ts, k)
}

/// Where the lexer stands behind the compact text of the first `k` tokens
/// of `ts`: it has emitted them all, but for a key or a value at the end,
/// whose lexeme it holds open.
pub open spec fn relex_state(ts: Seq<TokenView>, k: int) -> LexState {
    if k > 0 && is_worded(ts[k - 1].kind) {
        lex_state(ts.subrange(0, k - 1), lexeme_text(ts[k - 1]))
    } else {
        lex_state(ts.subrange(0, k), Seq::empty())
    }
}

proof fn lemma_relex_prefix(ts: Seq<TokenView>, k: int)
    requires
        lexed(ts),
        0 <= k <= ts.len(),
    ensures
        lex_run(compact_text(ts.subrange(0, k))) == relex_state(ts, k),
    decreases k,
{
    if k == 0 {
        assert(ts.subrange(0, 0) =~= Seq::<TokenView>::empty());
        assert(relex_state(ts, 0) == lex_start());
    } else {
        lemma_relex_prefix(ts, k - 1);
        let t = ts[k - 1];
        let before = ts.subrange(0, k - 1);
        let st = relex_state(ts, k - 1);
        assert(before.push(t) =~= ts.subrange(0, k));
        lemma_compact_push(before, t);
        lemma_lex_run_concat(compact_text(before), token_text(t));
        assert(placed(ts, k - 1));
        if k - 1 > 0 {
            assert(placed(ts, k - 2));
        }
        if is_worded(t.kind) {
            // No lexeme is open in front of a key or a value.
            assert(st == lex_state(before, Seq::empty()));
            let l = t.lexeme->0;
            lemma_replay(st, l, l.len() as int);
            assert(l.subrange(0, l.len() as int) =~= l);
        } else {
            lemma_lex_from_one(st, mark(t.kind));
            if k - 1 > 0 && is_worded(ts[k - 2].kind) {
                let held = ts[k - 2];
                let earlier = ts.subrange(0, k - 2);
                assert(earlier.push(held).push(t) =~= ts.subrange(0, k));
                assert(held == worded(held.lexeme->0, held.kind));
                assert(t == bare(t.kind));
                assert(lex_step(st, mark(t.kind)).tokens =~= ts.subrange(0, k));
            } else {
                assert(t == bare(t.kind));
                assert(lex_step(st, mark(t.kind)).tokens =~= ts.subrange(0, k));
            }
        }
    }
}

/// Tokens that can be the tokens of a text are the tokens of their own
/// compact text.
pub proof fn lemma_lexed_tokens_come_back(ts: Seq<TokenView>)
    requires
        lexed(ts),
    ensures
        lex_spec(compact_text(ts)) == ts,
{
    lemma_relex_prefix(ts, ts.len() as int);
    assert(ts.subrange(0, ts.len() as int) =~= ts);
    if ts.len() > 0 {
        assert(placed(ts, ts.len() - 1));
    }
}

/// Whether a lexer state holds what a lexer can have made.
pub open spec fn sound(st: LexState) -> bool {
    lexed(st.tokens) && is_lexeme(st.pending)
}

proof fn lemma_placed_extends(ts: Seq<TokenView>, t: TokenView, k: int)
    requires
        0 <= k < ts.len(),
        placed(ts, k),
    ensures
        placed(ts.push(t), k),
{
}

proof fn lemma_lexed_push_bare(ts: Seq<TokenView>, kind: TokenType)
    requires
        lexed(ts),
        !is_worded(kind),
        kind != TokenType::Assigner,
    ensures
        lexed(ts.push(bare(kind))),
{
    let next = ts.push(bare(kind));
    assert forall|k: int| 0 <= k < next.len() implies placed(next, k) by {
        if k < ts.len() {
            lemma_placed_extends(ts, bare(kind), k);
        }
    }
}

proof fn lemma_lexed_push_value(ts: Seq<TokenView>, l: Seq<char>, kind: TokenType)
    requires
        lexed(ts),
        is_lexeme(l),
        l.len() > 0,
        kind == TokenType::ClosingBrace || kind == TokenType::RightBracket || kind
            == TokenType::Separator,
    ensures
        lexed(ts.push(worded(l, TokenType::Value)).push(bare(kind))),
{
    let value = worded(l, TokenType::Value);
    let next = ts.push(value).push(bare(kind));
    assert forall|k: int| 0 <= k < next.len() implies placed(next, k) by {
        if k < ts.len() {
            lemma_placed_extends(ts, value, k);
            lemma_placed_extends(ts.push(value), bare(kind), k);
        }
    }
}

proof fn lemma_lexed_push_key(ts: Seq<TokenView>, l: Seq<char>)
    requires
        lexed(ts),
        is_lexeme(l),
    ensures
        lexed(ts.push(worded(l, TokenType::Key)).push(bare(TokenType::Assigner))),
{
    let key = worded(l, TokenType::Key);
    let next = ts.push(key).push(bare(TokenType::Assigner));
    assert forall|k: int| 0 <= k < next.len() implies placed(next, k) by {
        if k < ts.len() {
            lemma_placed_extends(ts, key, k);
            lemma_placed_extends(ts.push(key), bare(TokenType::Assigner), k);
        }
    }
}

/// A step of the lexer keeps its state sound.
pub proof fn lemma_step_sound(st: LexState, c: char)
    requires
        sound(st),
    ensures
        sound(lex_step(st, c)),
{
    let next = lex_step(st, c);
    if c == '{' {
        lemma_lexed_push_bare(st.tokens, TokenType::OpeningBrace);
    } else if c == '[' {
        lemma_lexed_push_bare(st.tokens, TokenType::LeftBracket);
    } else if c == '}' || c == ']' || c == ',' {
        let kind = if c == '}' {
            TokenType::ClosingBrace
        } else if c == ']' {
            TokenType::RightBracket
        } else {
            TokenType::Separator
        };
        if st.pending.len() > 0 {
            lemma_lexed_push_value(st.tokens, st.pending, kind);
        } else {
            lemma_lexed_push_bare(st.tokens, kind);
        }
    } else if c == ':' {
        lemma_lexed_push_key(st.tokens, st.pending);
    } else if c == '\n' || c == '\r' || c == '\t' {
    } else if c == ' ' && !keeps_space(st) {
    } else {
        let l = st.pending.push(c);
        assert forall|j: int| 0 <= j < l.len() implies fits(l, j) by {
            if j < st.pending.len() {
                assert(fits(st.pending, j));
            }
        }
    }
}

/// Whatever the lexer reads, its state is sound.
pub proof fn lemma_run_sound(text: Seq<char>)
    ensures
        sound(lex_run(text)),
    decreases text.len(),
{
    if text.len() > 0 {
        lemma_run_sound(text.drop_last());
        lemma_step_sound(lex_run(text.drop_last()), text.last());
    }
}

/// The tokens of a text are the tokens of their own compact text: to write
/// a document that was read from text, and to read it in again, changes
/// nothing.
pub proof fn law_tokens_come_back(text: Seq<char>)
    ensures
        lex_spec(compact_text(lex_spec(text))) == lex_spec(text),
{
    lemma_run_sound(text);
    lemma_lexed_tokens_come_back(lex_spec(text));
}

/// Writing out a document that was read from text, reading the result in
/// again and writing that out gives the text of the first writing.
pub proof fn law_compact_round_trip_of_text(text: Seq<char>)
    ensures
        compact_text(lex_spec(compact_text(lex_spec(text)))) == compact_text(lex_spec(text)),
{
    law_tokens_come_back(text);
}

/// Whether the lexer, in state `st`, drops the character `c`.
pub open spec fn dropped(st: LexState, c: char) -> bool {
    c == '\n' || c == '\r' || c == '\t' || (c == ' ' && !keeps_space(st))
}

/// How many of the first `n` characters of `text` the lexer drops.
pub open spec fn drops(text: Seq<char>, n: int) -> int
    decreases n,
{
    if n <= 0 {
        0
    } else {
        drops(text, n - 1) + if dropped(lex_run(text.subrange(0, n - 1)), text[n - 1]) {
            1int
        } else {
            0int
        }
    }
}

proof fn lemma_taken_len_step(st: LexState, c: char)
    ensures
        taken(lex_step(st, c)).len() == taken(st).len() + if dropped(st, c) {
            0int
        } else {
            1int
        },
        compact_text(st.tokens).is_prefix_of(compact_text(lex_step(st, c).tokens)),
{
    let a = compact_text(st.tokens);
    if c == '{' || c == '[' {
        let kind = if c == '{' {
            TokenType::OpeningBrace
        } else {
            TokenType::LeftBracket
        };
        lemma_compact_push(st.tokens, bare(kind));
        assert(a =~= (a + seq![c]).subrange(0, a.len() as int));
    } else if c == '}' || c == ']' || c == ',' {
        let kind = if c == '}' {
            TokenType::ClosingBrace
        } else if c == ']' {
            TokenType::RightBracket
        } else {
            TokenType::Separator
        };
        if st.pending.len() > 0 {
            let value = worded(st.pending, TokenType::Value);
            lemma_compact_push(st.tokens, value);
            lemma_compact_push(st.tokens.push(value), bare(kind));
            assert(a =~= (a + st.pending + seq![c]).subrange(0, a.len() as int));
        } else {
            lemma_compact_push(st.tokens, bare(kind));
            assert(a =~= (a + seq![c]).subrange(0, a.len() as int));
        }
    } else if c == ':' {
        let key = worded(st.pending, TokenType::Key);
        lemma_compact_push(st.tokens, key);
        lemma_compact_push(st.tokens.push(key), bare(TokenType::Assigner));
        assert(a =~= (a + st.pending + seq![c]).subrange(0, a.len() as int));
    } else {
        assert(a =~= a.subrange(0, a.len() as int));
    }
}

proof fn lemma_taken_len(text: Seq<char>, n: int)
    requires
        0 <= n <= text.len(),
    ensures
        taken(lex_run(text.subrange(0, n))).len() + drops(text, n) == n,
        drops(text, n) >= 0,
    decreases n,
{
    if n == 0 {
        assert(text.subrange(0, 0) =~= Seq::<char>::empty());
        assert(taken(lex_start()) =~= Seq::<char>::empty());
    } else {
        lemma_taken_len(text, n - 1);
        let before = text.subrange(0, n - 1);
        assert(before.push(text[n - 1]) =~= text.subrange(0, n));
        lemma_lex_run_push(before, text[n - 1]);
        lemma_taken_len_step(lex_run(before), text[n - 1]);
    }
}

proof fn lemma_no_drops(text: Seq<char>, n: int, i: int)
    requires
        0 <= i < n <= text.len(),
        drops(text, n) == 0,
    ensures
        !dropped(lex_run(text.subrange(0, i)), text[i]),
    decreases n,
{
    lemma_taken_len(text, n - 1);
    if i < n - 1 {
        lemma_no_drops(text, n - 1, i);
    }
}

proof fn lemma_compact_grows(text: Seq<char>, m: int, n: int)
    requires
        0 <= m <= n <= text.len(),
    ensures
        compact_text(lex_run(text.subrange(0, m)).tokens).is_prefix_of(
            compact_text(lex_run(text.subrange(0, n)).tokens),
        ),
    decreases n - m,
{
    let a = compact_text(lex_run(text.subrange(0, m)).tokens);
    if m == n {
        assert(a =~= a.subrange(0, a.len() as int));
    } else {
        lemma_compact_grows(text, m, n - 1);
        let before = text.subrange(0, n - 1);
        assert(before.push(text[n - 1]) =~= text.subrange(0, n));
        lemma_lex_run_push(before, text[n - 1]);
        lemma_taken_len_step(lex_run(before), text[n - 1]);
        let b = compact_text(lex_run(before).tokens);
        let c = compact_text(lex_run(text.subrange(0, n)).tokens);
        assert(a =~= c.subrange(0, a.len() as int)) by {
            assert(a =~= b.subrange(0, a.len() as int));
            assert(b =~= c.subrange(0, b.len() as int));
        }
    }
}

proof fn lemma_fixed_text_keeps(text: Seq<char>, n: int)
    requires
        compact_text(lex_spec(text)) == text,
        drops(text, text.len() as int) == 0,
        0 <= n <= text.len(),
    ensures
        kept_up_to(text, n),
    decreases n,
{
    if n > 0 {
        lemma_fixed_text_keeps(text, n - 1);
        let before = text.subrange(0, n - 1);
        let st = lex_run(before);
        let c = text[n - 1];
        lemma_no_drops(text, text.len() as int, n - 1);
        if (c == '{' || c == '[') && st.pending.len() > 0 {
            // The brace would come out ahead of the open lexeme.
            let a = compact_text(st.tokens);
            lemma_taken_is_read(text, n - 1);
            assert(taken(st)[a.len() as int] == st.pending[0]);
            assert(text[a.len() as int] == st.pending[0]);
            lemma_run_sound(before);
            assert(fits(st.pending, 0));
            assert(before.push(c) =~= text.subrange(0, n));
            lemma_lex_run_push(before, c);
            let kind = if c == '{' {
                TokenType::OpeningBrace
            } else {
                TokenType::LeftBracket
            };
            lemma_compact_push(st.tokens, bare(kind));
            let b = compact_text(lex_run(text.subrange(0, n)).tokens);
            assert(b[a.len() as int] == c);
            lemma_compact_grows(text, n, text.len() as int);
            assert(text.subrange(0, text.len() as int) =~= text);
            assert(text[a.len() as int] == c);
            assert(false);
        }
        assert(kept(st, c));
        assert forall|i: int| 0 <= i < n implies kept(
            lex_run(#[trigger] text.subrange(0, i)),
            text[i],
        ) by {
            if i == n - 1 {
            }
        }
    }
}

/// A text that comes back unchanged when it is read in and written out is
/// settled: the round trip holds of settled texts and of no others.
pub proof fn law_fixed_text_is_settled(text: Seq<char>)
    requires
        compact_text(lex_spec(text)) == text,
    ensures
        settled(text),
{
    let n = text.len() as int;
    lemma_taken_len(text, n);
    assert(text.subrange(0, n) =~= text);
    assert(taken(lex_run(text)).len() == compact_text(lex_spec(text)).len() + lex_run(
        text,
    ).pending.len());
    lemma_fixed_text_keeps(text, n);
}

} // verus!
