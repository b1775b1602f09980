use vstd::prelude::*;
use crate::error::JsonError;
use crate::json::{find_from, find_spec, holds_object, insert_outcome, inserted, insertion_index, object_entry, spliced, value_entry};
use crate::laws::{entry, lemma_found_in_range, lemma_search_errors};
use crate::serialize::{bracket_step, breaks_at, is_worded, pretty_run, pretty_text};
use crate::token::{TokenType, TokenView, bare};

verus! {

/// Whether a token of kind `b` may stand directly behind one of kind `a` in
/// a document.
///
/// A key or a closing brace follows an opening brace. A value or an opening
/// token follows an opening bracket, an assigner and a separator; a closing
/// bracket follows an opening bracket too, and a key a separator. An
/// assigner follows a key. A separator or a closing token follows a value
/// and a closing token.
pub open spec fn may_follow(a: TokenType, b: TokenType) -> bool {
    match a {
        TokenType::OpeningBrace => b == TokenType::Key || b == TokenType::ClosingBrace,
        TokenType::LeftBracket => b == TokenType::Value || b == TokenType::OpeningBrace || b
            == TokenType::LeftBracket || b == TokenType::RightBracket,
        TokenType::Key => b == TokenType::Assigner,
        TokenType::Assigner => b == TokenType::Value || b == TokenType::OpeningBrace || b
            == TokenType::LeftBracket,
        TokenType::Separator => b == TokenType::Key || b == TokenType::Value || b
            == TokenType::OpeningBrace || b == TokenType::LeftBracket,
        _ => b == TokenType::Separator || b == TokenType::ClosingBrace || b
            == TokenType::RightBracket,
    }
}

/// Whether the token behind the one at `i` may follow it.
pub open spec fn follows(ts: Seq<TokenView>, i: int) -> bool {
    may_follow(ts[i].kind, ts[i + 1].kind)
}

/// Whether `t` carries a lexeme exactly if it is a key or a value.
pub open spec fn carries_rightly(t: TokenView) -> bool {
    is_worded(t.kind) <==> t.lexeme is Some
}

/// How many braces and brackets the first `n` tokens of `ts` leave open.
pub open spec fn depth_at(ts: Seq<TokenView>, n: int) -> int
    decreases n,
{
    if n <= 0 {
        0
    } else {
        bracket_step(ts[n - 1].kind, depth_at(ts, n - 1))
    }
}

/// Whether `ts` has the shape of a document.
///
/// It begins with an opening brace and ends with the closing brace that
/// matches it: something is open behind every token but the last, and
/// nothing behind the last. Keys and values carry a lexeme and no other
/// token does. Each token may follow the one before it, so that an assigner
/// and then a value, an object or an array follow every key, and a separator
/// stands only between two entries.
pub open spec fn well_formed(ts: Seq<TokenView>) -> bool {
    &&& ts.len() >= 2
    &&& ts[0].kind == TokenType::OpeningBrace
    &&& ts.last().kind == TokenType::ClosingBrace
    &&& forall|i: int| 0 <= i < ts.len() ==> carries_rightly(#[trigger] ts[i])
    &&& forall|i: int| 0 <= i < ts.len() - 1 ==> #[trigger] follows(ts, i)
    &&& forall|n: int| 1 <= n < ts.len() ==> #[trigger] depth_at(ts, n) >= 1
    &&& depth_at(ts, ts.len() as int) == 0
}

/// The depth behind tokens of `a` is the same when more tokens follow `a`.
pub proof fn lemma_depth_of_prefix(a: Seq<TokenView>, b: Seq<TokenView>, n: int)
    requires
        0 <= n <= a.len(),
    ensures
        depth_at(a + b, n) == depth_at(a, n),
    decreases n,
{
    if n > 0 {
        lemma_depth_of_prefix(a, b, n - 1);
        assert((a + b)[n - 1] == a[n - 1]);
    }
}

/// The depth behind tokens of `b` that follow `a` is the depth behind `a`
/// and the depth that `b` adds.
pub proof fn lemma_depth_of_suffix(a: Seq<TokenView>, b: Seq<TokenView>, k: int)
    requires
        0 <= k <= b.len(),
    ensures
        depth_at(a + b, a.len() + k) == depth_at(a, a.len() as int) + depth_at(b, k),
    decreases k,
{
    if k == 0 {
        lemma_depth_of_prefix(a, b, a.len() as int);
    } else {
        lemma_depth_of_suffix(a, b, k - 1);
        assert((a + b)[a.len() + k - 1] == b[k - 1]);
    }
}

/// The depth behind a part of a run, counted from the start of the part.
proof fn lemma_depth_of_part(ts: Seq<TokenView>, at: int, k: int)
    requires
        0 <= at <= ts.len(),
        0 <= k <= ts.len() - at,
    ensures
        depth_at(ts, at + k) == depth_at(ts, at) + depth_at(ts.subrange(at, ts.len() as int), k),
{
    let a = ts.subrange(0, at);
    let b = ts.subrange(at, ts.len() as int);
    assert(a + b =~= ts);
    lemma_depth_of_suffix(a, b, k);
    lemma_depth_of_prefix(a, b, at);
}

/// A run that opens nothing it does not close, let in among the tokens of
/// a document behind an opening brace and so that each token may follow the
/// one before it, leaves a document.
pub proof fn lemma_splice_keeps_shape(ts: Seq<TokenView>, at: int, run: Seq<TokenView>)
    requires
        well_formed(ts),
        0 < at < ts.len(),
        run.len() > 0,
        may_follow(ts[at - 1].kind, run[0].kind),
        may_follow(run.last().kind, ts[at].kind),
        forall|r: int| 0 <= r < run.len() ==> carries_rightly(#[trigger] run[r]),
        forall|r: int| 0 <= r < run.len() - 1 ==> #[trigger] follows(run, r),
        forall|k: int| 0 <= k <= run.len() ==> #[trigger] depth_at(run, k) >= 0,
        depth_at(run, run.len() as int) == 0,
    ensures
        well_formed(spliced(ts, at, run)),
{
    let after = spliced(ts, at, run);
    let m = run.len() as int;
    let head = ts.subrange(0, at);
    let tail = ts.subrange(at, ts.len() as int);
    assert(after.last() == ts.last());
    assert forall|i: int| 0 <= i < after.len() implies carries_rightly(#[trigger] after[i]) by {
        if i < at {
            assert(after[i] == ts[i]);
        } else if i < at + m {
            assert(after[i] == run[i - at]);
        } else {
            assert(after[i] == ts[i - m]);
        }
    }
    assert forall|i: int| 0 <= i < after.len() - 1 implies #[trigger] follows(after, i) by {
        if i + 1 < at {
            assert(after[i] == ts[i] && after[i + 1] == ts[i + 1]);
            assert(follows(ts, i));
        } else if i + 1 == at {
            assert(after[i] == ts[at - 1] && after[i + 1] == run[0]);
        } else if i + 1 < at + m {
            assert(after[i] == run[i - at] && after[i + 1] == run[i + 1 - at]);
            assert(follows(run, i - at));
        } else if i + 1 == at + m {
            assert(after[i] == run.last() && after[i + 1] == ts[at]);
        } else {
            assert(after[i] == ts[i - m] && after[i + 1] == ts[i + 1 - m]);
            assert(follows(ts, i - m));
        }
    }
    assert forall|n: int| 1 <= n <= after.len() implies #[trigger] depth_at(after, n) == (if n
        <= at {
        depth_at(ts, n)
    } else if n <= at + m {
        depth_at(ts, at) + depth_at(run, n - at)
    } else {
        depth_at(ts, n - m)
    }) by {
        assert(after == (head + run) + tail);
        if n <= at {
            lemma_depth_of_prefix(head + run, tail, n);
            lemma_depth_of_prefix(head, run, n);
            assert(head + tail =~= ts);
            lemma_depth_of_prefix(head, tail, n);
        } else if n <= at + m {
            lemma_depth_of_prefix(head + run, tail, n);
            lemma_depth_of_suffix(head, run, n - at);
            assert(head + tail =~= ts);
            lemma_depth_of_prefix(head, tail, at);
        } else {
            lemma_depth_of_suffix(head + run, tail, n - at - m);
            lemma_depth_of_suffix(head, run, m);
            assert(head + tail =~= ts);
            lemma_depth_of_prefix(head, tail, at);
            lemma_depth_of_part(ts, at, n - at - m);
        }
    }
    assert(depth_at(ts, at) >= 1);
    assert forall|n: int| 1 <= n < after.len() implies #[trigger] depth_at(after, n) >= 1 by {
        if n <= at {
        } else if n <= at + m {
            assert(depth_at(run, n - at) >= 0);
        } else {
            assert(depth_at(ts, n - m) >= 1);
        }
    }
}

/// A document is still a document when an entry with a scalar has been
/// added to it.
pub proof fn law_value_insertion_keeps_shape(
    ts: Seq<TokenView>,
    path: Seq<Seq<char>>,
    key: Seq<char>,
    lexeme: Seq<char>,
)
    requires
        well_formed(ts),
        insert_outcome(ts, path, true) is Ok,
    ensures
        well_formed(inserted(ts, path, value_entry(key, lexeme), true)),
{
    lemma_insertion_keeps_shape(ts, path, key, Some(lexeme));
}

/// A document is still a document when an entry with an empty object has
/// been added to it.
pub proof fn law_object_insertion_keeps_shape(
    ts: Seq<TokenView>,
    path: Seq<Seq<char>>,
    key: Seq<char>,
)
    requires
        well_formed(ts),
        insert_outcome(ts, path, true) is Ok,
    ensures
        well_formed(inserted(ts, path, object_entry(key), true)),
{
    lemma_insertion_keeps_shape(ts, path, key, None);
}

proof fn lemma_insertion_keeps_shape(
    ts: Seq<TokenView>,
    path: Seq<Seq<char>>,
    key: Seq<char>,
    lexeme: Option<Seq<char>>,
)
    requires
        well_formed(ts),
        insert_outcome(ts, path, true) is Ok,
    ensures
        well_formed(inserted(ts, path, entry(key, lexeme), true)),
{
    let run = entry(key, lexeme);
    let at = insertion_index(ts, path)->Ok_0;
    if path.len() > 0 {
        if find_from(ts, path, 0, 0, 0) is Err {
            lemma_search_errors(ts, path, 0, 0, 0);
        } else {
            lemma_found_in_range(ts, path, 0, 0, 0);
        }
        let i = find_spec(ts, path)->Ok_0;
        assert(holds_object(ts, i) == Ok::<bool, JsonError>(true));
        assert(at == i + 3);
    }
    assert(0 < at < ts.len());
    assert(ts[at - 1].kind == TokenType::OpeningBrace);
    assert(follows(ts, at - 1));
    let whole = if ts[at].kind != TokenType::ClosingBrace {
        run.push(bare(TokenType::Separator))
    } else {
        run
    };
    assert(inserted(ts, path, run, true) == spliced(ts, at, whole));
    assert forall|k: int| 0 <= k <= whole.len() implies #[trigger] depth_at(whole, k) >= 0
        && depth_at(whole, whole.len() as int) == 0 by {
        reveal_with_fuel(depth_at, 6);
    }
    assert forall|r: int| 0 <= r < whole.len() - 1 implies #[trigger] follows(whole, r) by {}
    lemma_splice_keeps_shape(ts, at, whole);
}

proof fn lemma_shape_prints(ts: Seq<TokenView>, n: int)
    requires
        well_formed(ts),
        0 <= n <= ts.len(),
    ensures
        pretty_run(ts, n) is Some,
        pretty_run(ts, n)->0.level == depth_at(ts, n),
    decreases n,
{
    if n > 0 {
        lemma_shape_prints(ts, n - 1);
        if n < ts.len() {
            assert(depth_at(ts, n) >= 1);
        }
        assert(!breaks_at(ts, n - 1, depth_at(ts, n)));
    }
}

/// A document has an indented text.
pub proof fn law_document_has_pretty_text(ts: Seq<TokenView>)
    requires
        well_formed(ts),
    ensures
        pretty_text(ts) is Some,
{
    lemma_shape_prints(ts, ts.len() as int);
}

} // verus!
