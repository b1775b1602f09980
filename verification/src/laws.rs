use vstd::prelude::*;
use crate::error::JsonError;
use crate::json::{find_spec, find_from, get_spec, holds_object, insert_outcome, inserted, insertion_index, object_entry, spliced, value_entry, names, dequoted, depth_past};
use crate::lexer::lex_spec;
use crate::number::{all_digits, digit_char, digits_end, digits_of, digits_value, int_of_text, is_digit, is_float_text, text_of_int, unsigned_part};
use crate::round_trip::{is_lexeme, lexed, placed, lemma_lexed_tokens_come_back};
use crate::serialize::{compact_text, is_worded};
use crate::text::quoted;
use crate::token::{TokenType, TokenView, bare};
use crate::value::{JsonValueView, is_scalar, lexeme_of, parse_spec, word_false, word_true};

verus! {

/// The digits of a number are digits, and write that number.
pub proof fn lemma_digits_of(n: int)
    requires
        n >= 0,
    ensures
        digits_of(n).len() >= 1,
        all_digits(digits_of(n)),
        digits_value(digits_of(n)) == n,
    decreases n,
{
    if n < 10 {
        let d = seq![digit_char(n)];
        assert(d.drop_last() =~= Seq::<char>::empty());
        assert(digits_value(d.drop_last()) == 0);
    } else {
        lemma_digits_of(n / 10);
        let d = digits_of(n);
        assert(d.drop_last() =~= digits_of(n / 10));
        assert forall|i: int| 0 <= i < d.len() implies is_digit(#[trigger] d[i]) by {
            if i < d.len() - 1 {
                assert(d[i] == digits_of(n / 10)[i]);
            }
        }
    }
}

/// The decimal text of a 32-bit integer reads back as that integer.
pub proof fn law_int_text_reads_back(n: i32)
    ensures
        int_of_text(text_of_int(n as int)) == Some(n),
{
    let t = text_of_int(n as int);
    if n < 0 {
        lemma_digits_of(-(n as int));
        assert(t.subrange(1, t.len() as int) =~= digits_of(-(n as int)));
    } else {
        lemma_digits_of(n as int);
        assert(is_digit(t[0]));
    }
}

/// A scalar that is written into a document reads back as itself. Of a
/// float this holds where its text writes a floating-point number and no
/// 32-bit integer.
pub proof fn law_scalar_reads_back(v: JsonValueView)
    requires
        is_scalar(v),
        v is Float ==> is_float_text(v->Float_0) && int_of_text(v->Float_0) is None,
    ensures
        parse_spec(lexeme_of(v)) == v,
{
    match v {
        JsonValueView::Int(n) => {
            law_int_text_reads_back(n);
            lemma_digits_of(if n < 0 {
                -(n as int)
            } else {
                n as int
            });
            let t = text_of_int(n as int);
            assert(t[0] == '-' || is_digit(t[0]));
        },
        JsonValueView::Bool(b) => {
            assert(word_true().len() == 4 && word_false().len() == 5);
            assert(!is_digit(word_true()[0]) && !is_digit(word_false()[0]));
            assert(!all_digits(word_true()));
            assert(!all_digits(word_false()));
        },
        JsonValueView::String(s) => {
            let q = quoted(s);
            assert(q.len() == s.len() + 2);
            assert(q[0] == '"' && q.last() == '"');
            assert(q.subrange(1, q.len() - 1) =~= s);
            assert(!is_digit(q[0]));
            assert(!all_digits(q));
            assert(unsigned_part(q) == q);
            assert(digits_end(q, 0) == 0);
        },
        JsonValueView::Float(t) => {
            assert(digits_end(word_true(), 0) == 0);
            assert(digits_end(word_false(), 0) == 0);
            assert(unsigned_part(word_true()) == word_true());
            assert(unsigned_part(word_false()) == word_false());
        },
        _ => {},
    }
}

/// A query for the key of an entry that was just added to the root gives
/// the value that was added, where the first token of the document is not
/// itself a key of that name. Of a float this holds where its text writes a
/// floating-point number and no 32-bit integer.
pub proof fn law_root_insert_then_get(ts: Seq<TokenView>, key: Seq<char>, v: JsonValueView)
    requires
        is_scalar(v),
        v is Float ==> is_float_text(v->Float_0) && int_of_text(v->Float_0) is None,
        insert_outcome(ts, Seq::empty(), true) is Ok,
        !names(ts[0], key),
    ensures
        get_spec(inserted(ts, Seq::empty(), value_entry(key, lexeme_of(v)), true), seq![key])
            == Ok::<JsonValueView, JsonError>(v),
{
    law_scalar_reads_back(v);
    let root = Seq::<Seq<char>>::empty();
    let run = value_entry(key, lexeme_of(v));
    let path = seq![key];
    let after = inserted(ts, root, run, true);
    assert(insertion_index(ts, root) == Ok::<int, JsonError>(1));
    assert(ts.len() >= 2);
    assert(after.len() >= 5);
    assert(after[0] == ts[0]);
    assert(after[1] == run[0]);
    assert(after[2] == run[1]);
    assert(after[3] == run[2]);
    let q = quoted(key);
    assert(q.subrange(1, q.len() - 1) =~= key);
    assert(dequoted(q) == Some(key));
    assert(names(after[1], key));
    assert(find_from(after, path, 1, 0, 0) == Ok::<int, JsonError>(1));
    assert(find_from(after, path, 0, 0, 0) == find_from(after, path, 1, 0, 0));
    assert(find_spec(after, path) == Ok::<int, JsonError>(1));
}

/// A query with the empty path fails with `NoPathProvided`, whatever the
/// document holds.
pub proof fn law_empty_path_is_rejected(ts: Seq<TokenView>)
    ensures
        get_spec(ts, Seq::empty()) == Err::<JsonValueView, JsonError>(JsonError::NoPathProvided),
{
}

/// A key that a search finds stands among the tokens, at or behind the place
/// where the search began.
pub proof fn lemma_found_in_range(
    ts: Seq<TokenView>,
    path: Seq<Seq<char>>,
    i: int,
    matched: int,
    depth: int,
)
    requires
        find_from(ts, path, i, matched, depth) is Ok,
    ensures
        i <= find_from(ts, path, i, matched, depth)->Ok_0 < ts.len(),
    decreases ts.len() - i,
{
    if 0 <= i < ts.len() && 0 <= matched < path.len() {
        let d = depth_past(ts, i, depth);
        if d >= 0 {
            if d == matched && names(ts[i], path[matched]) {
                if matched + 1 != path.len() {
                    lemma_found_in_range(ts, path, i + 1, matched + 1, d);
                }
            } else {
                lemma_found_in_range(ts, path, i + 1, matched, d);
            }
        }
    }
}

/// A search that has begun fails with `InvalidPath` or `InvalidJson` only.
pub proof fn lemma_search_errors(
    ts: Seq<TokenView>,
    path: Seq<Seq<char>>,
    i: int,
    matched: int,
    depth: int,
)
    requires
        find_from(ts, path, i, matched, depth) is Err,
    ensures
        find_from(ts, path, i, matched, depth)->Err_0 == JsonError::InvalidPath || find_from(
            ts,
            path,
            i,
            matched,
            depth,
        )->Err_0 == JsonError::InvalidJson,
    decreases ts.len() - i,
{
    if 0 <= i < ts.len() && 0 <= matched < path.len() {
        let d = depth_past(ts, i, depth);
        if d >= 0 {
            if d == matched && names(ts[i], path[matched]) {
                if matched + 1 != path.len() {
                    lemma_search_errors(ts, path, i + 1, matched + 1, d);
                }
            } else {
                lemma_search_errors(ts, path, i + 1, matched, d);
            }
        }
    }
}

/// An insertion into an entry that holds no object fails with
/// `InsertCantInsertIntoValue` and leaves the document as it was.
pub proof fn law_scalar_target_is_rejected(
    ts: Seq<TokenView>,
    path: Seq<Seq<char>>,
    run: Seq<TokenView>,
    end_with_sep: bool,
)
    requires
        find_spec(ts, path) is Ok,
        find_spec(ts, path)->Ok_0 + 2 < ts.len(),
        ts[find_spec(ts, path)->Ok_0 + 2].kind != TokenType::OpeningBrace,
    ensures
        insert_outcome(ts, path, end_with_sep) == Err::<(), JsonError>(
            JsonError::InsertCantInsertIntoValue,
        ),
        inserted(ts, path, run, end_with_sep) == ts,
{
    lemma_found_in_range(ts, path, 0, 0, 0);
}

/// Tokens that the lexer can have made are still such when a run is let in
/// among them that is placed as the lexer places tokens, behind a token that
/// is no key and no value.
pub proof fn lemma_splice_keeps_lexed(ts: Seq<TokenView>, at: int, run: Seq<TokenView>)
    requires
        lexed(ts),
        0 < at < ts.len(),
        !is_worded(ts[at - 1].kind),
        forall|r: int| 0 <= r < run.len() ==> placed(run.push(ts[at]), r),
    ensures
        lexed(spliced(ts, at, run)),
{
    let after = spliced(ts, at, run);
    let m = run.len() as int;
    assert(placed(ts, at - 1));
    assert(placed(ts, at));
    assert forall|k: int| 0 <= k < after.len() implies placed(after, k) by {
        if k < at {
            assert(placed(ts, k));
            assert(after[k] == ts[k]);
            if k > 0 {
                assert(after[k - 1] == ts[k - 1]);
            }
            if k + 1 < at {
                assert(after[k + 1] == ts[k + 1]);
            }
        } else if k < at + m {
            let r = k - at;
            let closed = run.push(ts[at]);
            assert(placed(closed, r));
            assert(after[k] == closed[r]);
            assert(after[k + 1] == closed[r + 1]);
            if r > 0 {
                assert(after[k - 1] == closed[r - 1]);
            }
        } else {
            let j = k - m;
            assert(placed(ts, j));
            assert(after[k] == ts[j]);
            if j + 1 < ts.len() {
                assert(after[k + 1] == ts[j + 1]);
            }
            if j > at {
                assert(after[k - 1] == ts[j - 1]);
            }
        }
    }
}

/// The tokens of a new entry `key`: with the scalar that `lexeme` writes, or
/// with an empty object where there is none.
pub open spec fn entry(key: Seq<char>, lexeme: Option<Seq<char>>) -> Seq<TokenView> {
    match lexeme {
        Some(l) => value_entry(key, l),
        None => object_entry(key),
    }
}

/// A document that the lexer can have made is still one when an entry with
/// a scalar or with an empty object has been added to it, so that its
/// tokens still come back from its compact text. The key between its quotes,
/// and the lexeme of the scalar, have to be lexemes that the lexer can
/// gather, and for an entry of the root the first token must be neither a
/// key nor a value.
pub proof fn law_insertion_keeps_lexed(
    ts: Seq<TokenView>,
    path: Seq<Seq<char>>,
    key: Seq<char>,
    lexeme: Option<Seq<char>>,
)
    requires
        lexed(ts),
        insert_outcome(ts, path, true) is Ok,
        path.len() == 0 ==> !is_worded(ts[0].kind),
        is_lexeme(quoted(key)),
        lexeme is Some ==> is_lexeme(lexeme->0) && lexeme->0.len() > 0,
    ensures
        lexed(inserted(ts, path, entry(key, lexeme), true)),
        lex_spec(compact_text(inserted(ts, path, entry(key, lexeme), true))) == inserted(
            ts,
            path,
            entry(key, lexeme),
            true,
        ),
{
    let at = insertion_index(ts, path)->Ok_0;
    if path.len() > 0 {
        if find_from(ts, path, 0, 0, 0) is Err {
            lemma_search_errors(ts, path, 0, 0, 0);
        } else {
            lemma_found_in_range(ts, path, 0, 0, 0);
        }
        let i = find_spec(ts, path)->Ok_0;
        assert(holds_object(ts, i) == Ok::<bool, JsonError>(true));
        assert(at == i + 3);
    }
    assert(0 < at < ts.len());
    assert(!is_worded(ts[at - 1].kind));
    let run = entry(key, lexeme);
    let sep = bare(TokenType::Separator);
    let whole = if ts[at].kind != TokenType::ClosingBrace {
        run.push(sep)
    } else {
        run
    };
    assert(inserted(ts, path, run, true) == spliced(ts, at, whole));
    assert(placed(ts, at));
    assert forall|r: int| 0 <= r < whole.len() implies placed(whole.push(ts[at]), r) by {
        let closed = whole.push(ts[at]);
        assert(closed[r] == whole[r]);
        if r + 1 < whole.len() {
            assert(closed[r + 1] == whole[r + 1]);
        }
        if r > 0 {
            assert(closed[r - 1] == whole[r - 1]);
        }
    }
    lemma_splice_keeps_lexed(ts, at, whole);
    lemma_lexed_tokens_come_back(spliced(ts, at, whole));
}

} // verus!
