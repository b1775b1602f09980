use vstd::prelude::*;
use vstd::std_specs::cmp::PartialEqSpecImpl;
use vstd::std_specs::convert::FromSpecImpl;
use crate::error::{JsonError, JsonResult};
use crate::number::{int_of_text, is_float_text, text_of_int, parse_int, is_float, int_text};
use crate::text::{chars_of, string_from, quote, quoted};

verus! {

/// A value read from a document or handed to it.
///
/// A float is held as its decimal text, which is all that a document knows
/// of it. A string is held without the quotes that wrap it in the text.
#[derive(Debug)]
pub enum JsonValue {
    /// Stands for a value that a lookup did not find.
    Unknown,
    Int(i32),
    Float(String),
    Bool(bool),
    String(String),
    Array(Vec<JsonValue>),
}

/// What a [`JsonValue`] is to a contract.
pub enum JsonValueView {
    Unknown,
    Int(i32),
    Float(Seq<char>),
    Bool(bool),
    String(Seq<char>),
    Array(Seq<JsonValueView>),
}

/// What `v` is to a contract.
pub open spec fn value_view(v: JsonValue) -> JsonValueView
    decreases v,
{
    match v {
        JsonValue::Unknown => JsonValueView::Unknown,
        JsonValue::Int(n) => JsonValueView::Int(n),
        JsonValue::Float(t) => JsonValueView::Float(t@),
        JsonValue::Bool(b) => JsonValueView::Bool(b),
        JsonValue::String(s) => JsonValueView::String(s@),
        JsonValue::Array(items) => JsonValueView::Array(
            Seq::new(
                items@.len(),
                |i: int|
                    if 0 <= i < items@.len() {
                        value_view(items@[i])
                    } else {
                        JsonValueView::Unknown
                    },
            ),
        ),
    }
}

impl View for JsonValue {
    type V = JsonValueView;

    open spec fn view(&self) -> JsonValueView {
        value_view(*self)
    }
}

/// The view of an array is the sequence of its items' views.
pub proof fn lemma_array_view(items: Vec<JsonValue>)
    ensures
        JsonValue::Array(items)@ is Array,
        JsonValue::Array(items)@->Array_0.len() == items@.len(),
        forall|i: int|
            0 <= i < items@.len() ==> (#[trigger] JsonValue::Array(items)@->Array_0[i])
                == items@[i]@,
{
}

impl Clone for JsonValue {
    #[verifier::loop_isolation(false)]
    fn clone(&self) -> (r: JsonValue)
        ensures
            r@ == self@,
        decreases self,
    {
        match self {
            JsonValue::Unknown => JsonValue::Unknown,
            JsonValue::Int(n) => JsonValue::Int(*n),
            JsonValue::Float(t) => JsonValue::Float(t.clone()),
            JsonValue::Bool(b) => JsonValue::Bool(*b),
            JsonValue::String(s) => JsonValue::String(s.clone()),
            JsonValue::Array(v) => {
                let mut items: Vec<JsonValue> = Vec::new();
                let mut i: usize = 0;
                while i < v.len()
                    invariant
                        i <= v.len(),
                        items.len() == i,
                        forall|j: int| 0 <= j < i ==> items@[j]@ == v@[j]@,
                    decreases v.len() - i,
                {
                    let item = v[i].clone();
                    items.push(item);
                    i += 1;
                }
                let r = JsonValue::Array(items);
                assert(r@->Array_0 =~= self@->Array_0);
                r
            },
        }
    }
}

impl PartialEq for JsonValue {
    #[verifier::loop_isolation(false)]
    fn eq(&self, other: &JsonValue) -> (r: bool)
        decreases self,
    {
        match self {
            JsonValue::Unknown => matches!(other, JsonValue::Unknown),
            JsonValue::Int(a) => match other {
                JsonValue::Int(b) => *a == *b,
                _ => false,
            },
            JsonValue::Float(a) => match other {
                JsonValue::Float(b) => *a == *b,
                _ => false,
            },
            JsonValue::Bool(a) => match other {
                JsonValue::Bool(b) => *a == *b,
                _ => false,
            },
            JsonValue::String(a) => match other {
                JsonValue::String(b) => *a == *b,
                _ => false,
            },
            JsonValue::Array(a) => match other {
                JsonValue::Array(b) => {
                    proof {
                        lemma_array_view(*a);
                        lemma_array_view(*b);
                    }
                    if a.len() != b.len() {
                        return false;
                    }
                    let mut i: usize = 0;
                    while i < a.len()
                        invariant
                            a.len() == b.len(),
                            i <= a.len(),
                            forall|j: int| 0 <= j < i ==> a@[j]@ == b@[j]@,
                        decreases a.len() - i,
                    {
                        if !a[i].eq(&b[i]) {
                            assert(self@->Array_0[i as int] == a@[i as int]@);
                            assert(other@->Array_0[i as int] == b@[i as int]@);
                            return false;
                        }
                        i += 1;
                    }
                    assert(self@->Array_0 =~= other@->Array_0);
                    true
                },
                _ => false,
            },
        }
    }
}

impl PartialEqSpecImpl for JsonValue {
    open spec fn obeys_eq_spec() -> bool {
        true
    }

    open spec fn eq_spec(&self, other: &JsonValue) -> bool {
        self@ == other@
    }
}

/// The characters of the literal `true`.
pub open spec fn word_true() -> Seq<char> {
    seq!['t', 'r', 'u', 'e']
}

/// The characters of the literal `false`.
pub open spec fn word_false() -> Seq<char> {
    seq!['f', 'a', 'l', 's', 'e']
}

/// A lexeme without the double quotes that wrap it; the lexeme itself where
/// it is not wrapped in them.
pub open spec fn unquoted(lexeme: Seq<char>) -> Seq<char> {
    if lexeme.len() >= 2 && lexeme[0] == '"' && lexeme.last() == '"' {
        lexeme.subrange(1, lexeme.len() - 1)
    } else {
        lexeme
    }
}

/// The value that a lexeme stands for: a boolean if it is `true` or `false`,
/// else an integer if it writes one of 32 bits, else a float if it writes a
/// floating-point number, else the string between its quotes.
pub open spec fn parse_spec(lexeme: Seq<char>) -> JsonValueView {
    if lexeme == word_true() {
        JsonValueView::Bool(true)
    } else if lexeme == word_false() {
        JsonValueView::Bool(false)
    } else if int_of_text(lexeme) is Some {
        JsonValueView::Int(int_of_text(lexeme)->0)
    } else if is_float_text(lexeme) {
        JsonValueView::Float(lexeme)
    } else {
        JsonValueView::String(unquoted(lexeme))
    }
}

/// Whether `v` is an integer, a float, a boolean or a string.
pub open spec fn is_scalar(v: JsonValueView) -> bool {
    v is Int || v is Float || v is Bool || v is String
}

/// The lexeme that writes the scalar `v` in a document: a number or a
/// boolean as it is written, a string between double quotes.
pub open spec fn lexeme_of(v: JsonValueView) -> Seq<char> {
    match v {
        JsonValueView::Int(n) => text_of_int(n as int),
        JsonValueView::Float(t) => t,
        JsonValueView::Bool(b) => if b {
            word_true()
        } else {
            word_false()
        },
        JsonValueView::String(s) => quoted(s),
        _ => Seq::empty(),
    }
}

fn is_true(chars: &Vec<char>) -> (r: bool)
    ensures
        r == (chars@ == word_true()),
{
    let r = chars.len() == 4 && chars[0] == 't' && chars[1] == 'r' && chars[2] == 'u' && chars[3]
        == 'e';
    assert(r ==> chars@ =~= word_true());
    r
}

fn is_false(chars: &Vec<char>) -> (r: bool)
    ensures
        r == (chars@ == word_false()),
{
    let r = chars.len() == 5 && chars[0] == 'f' && chars[1] == 'a' && chars[2] == 'l' && chars[3]
        == 's' && chars[4] == 'e';
    assert(r ==> chars@ =~= word_false());
    r
}

impl JsonValue {
    /// The value that the lexeme `value` stands for.
    pub fn parse(value: &str) -> (r: JsonValue)
        ensures
            r@ == parse_spec(value@),
    {
        let chars = chars_of(value);
        if is_true(&chars) {
            return JsonValue::Bool(true);
        }
        if is_false(&chars) {
            return JsonValue::Bool(false);
        }
        if let Some(n) = parse_int(&chars) {
            return JsonValue::Int(n);
        }
        if is_float(&chars) {
            return JsonValue::Float(value.to_owned());
        }
        let n = chars.len();
        if n >= 2 && chars[0] == '"' && chars[n - 1] == '"' {
            JsonValue::String(string_from(&chars, 1, n - 1))
        } else {
            JsonValue::String(value.to_owned())
        }
    }

    /// The lexeme that writes this scalar in a document: a number or a
    /// boolean as it is written, a string between double quotes. Only a
    /// scalar has a lexeme.
    pub fn to_string_force(self) -> (text: String)
        requires
            is_scalar(self@),
        ensures
            text@ == lexeme_of(self@),
    {
        match self {
            JsonValue::String(value) => quote(value.as_str()),
            JsonValue::Int(value) => int_text(value),
            JsonValue::Float(value) => value,
            JsonValue::Bool(value) => {
                if value {
                    let text = "true".to_owned();
                    proof {
                        reveal_strlit("true");
                    }
                    assert(text@ =~= word_true());
                    text
                } else {
                    let text = "false".to_owned();
                    proof {
                        reveal_strlit("false");
                    }
                    assert(text@ =~= word_false());
                    text
                }
            },
            _ => vstd::pervasive::unreached(),
        }
    }

    /// The integer that this value holds.
    pub fn try_into_int(self) -> (r: JsonResult<i32>)
        ensures
            self@ is Int ==> r == Ok::<i32, JsonError>(self@->Int_0),
            !(self@ is Int) ==> r == Err::<i32, JsonError>(JsonError::JsonValueIsNotInteger),
    {
        match self {
            JsonValue::Int(value) => Ok(value),
            _ => Err(JsonError::JsonValueIsNotInteger),
        }
    }

    /// The boolean that this value holds.
    pub fn try_into_bool(self) -> (r: JsonResult<bool>)
        ensures
            self@ is Bool ==> r == Ok::<bool, JsonError>(self@->Bool_0),
            !(self@ is Bool) ==> r == Err::<bool, JsonError>(JsonError::JsonValueIsNotBool),
    {
        match self {
            JsonValue::Bool(value) => Ok(value),
            _ => Err(JsonError::JsonValueIsNotBool),
        }
    }

    /// The string that this value holds.
    pub fn try_into_string(self) -> (r: JsonResult<String>)
        ensures
            self@ is String ==> r is Ok && r->Ok_0@ == self@->String_0,
            !(self@ is String) ==> r == Err::<String, JsonError>(JsonError::JsonValueIsNotString),
    {
        match self {
            JsonValue::String(value) => Ok(value),
            _ => Err(JsonError::JsonValueIsNotString),
        }
    }

    /// The decimal text of the float that this value holds.
    pub fn try_into_float_text(self) -> (r: JsonResult<String>)
        ensures
            self@ is Float ==> r is Ok && r->Ok_0@ == self@->Float_0,
            !(self@ is Float) ==> r == Err::<String, JsonError>(JsonError::JsonValueIsNotFloat),
    {
        match self {
            JsonValue::Float(value) => Ok(value),
            _ => Err(JsonError::JsonValueIsNotFloat),
        }
    }
}

impl From<i32> for JsonValue {
    fn from(value: i32) -> (r: JsonValue)
    {
        JsonValue::Int(value)
    }
}

impl FromSpecImpl<i32> for JsonValue {
    open spec fn obeys_from_spec() -> bool {
        true
    }

    open spec fn from_spec(value: i32) -> JsonValue {
        JsonValue::Int(value)
    }
}

impl From<bool> for JsonValue {
    fn from(value: bool) -> (r: JsonValue)
    {
        JsonValue::Bool(value)
    }
}

impl FromSpecImpl<bool> for JsonValue {
    open spec fn obeys_from_spec() -> bool {
        true
    }

    open spec fn from_spec(value: bool) -> JsonValue {
        JsonValue::Bool(value)
    }
}

impl From<String> for JsonValue {
    fn from(value: String) -> (r: JsonValue)
    {
        JsonValue::String(value)
    }
}

impl FromSpecImpl<String> for JsonValue {
    open spec fn obeys_from_spec() -> bool {
        true
    }

    open spec fn from_spec(value: String) -> JsonValue {
        JsonValue::String(value)
    }
}

impl<'a> From<&'a str> for JsonValue {
    /// The string value of the characters of `value`.
    fn from(value: &'a str) -> (r: JsonValue)
        ensures
            r@ == JsonValueView::String(value@),
    {
        JsonValue::String(value.to_owned())
    }
}

/// The conversion from a string slice makes a new `String`, which no
/// specification can name: what it gives is stated on `from` itself, by view.
impl<'a> FromSpecImpl<&'a str> for JsonValue {
    open spec fn obeys_from_spec() -> bool {
        false
    }

    open spec fn from_spec(value: &'a str) -> JsonValue {
        JsonValue::Unknown
    }
}

} // verus!
