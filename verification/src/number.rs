use vstd::prelude::*;

verus! {

/// Whether `c` is one of the ten decimal digits.
pub open spec fn is_digit(c: char) -> bool {
    '0' <= c && c <= '9'
}

/// Whether `s` holds decimal digits only.
pub open spec fn all_digits(s: Seq<char>) -> bool {
    forall|i: int| 0 <= i < s.len() ==> is_digit(#[trigger] s[i])
}

/// The number that the digit `c` stands for.
pub open spec fn digit_value(c: char) -> int {
    c as int - '0' as int
}

/// The number that the digits `s` write in base ten; zero for no digits.
pub open spec fn digits_value(s: Seq<char>) -> int
    decreases s.len(),
{
    if s.len() == 0 {
        0
    } else {
        digits_value(s.drop_last()) * 10 + digit_value(s.last())
    }
}

/// Whether `s` begins with a plus or a minus sign.
pub open spec fn has_sign(s: Seq<char>) -> bool {
    s.len() > 0 && (s[0] == '+' || s[0] == '-')
}

/// Whether `s` begins with a minus sign.
pub open spec fn is_negative(s: Seq<char>) -> bool {
    s.len() > 0 && s[0] == '-'
}

/// `s` without its leading sign, if it has one.
pub open spec fn unsigned_part(s: Seq<char>) -> Seq<char> {
    if has_sign(s) {
        s.subrange(1, s.len() as int)
    } else {
        s
    }
}

/// The number that `s` writes, sign included, if `s` is an optional sign
/// followed by one or more digits.
pub open spec fn signed_value(s: Seq<char>) -> Option<int> {
    let body = unsigned_part(s);
    if body.len() > 0 && all_digits(body) {
        Some(
            if is_negative(s) {
                -digits_value(body)
            } else {
                digits_value(body)
            },
        )
    } else {
        None
    }
}

/// The 32-bit signed integer that `s` writes in decimal: an optional sign,
/// then digits and nothing else, the number within the range of `i32`.
pub open spec fn int_of_text(s: Seq<char>) -> Option<i32> {
    match signed_value(s) {
        Some(v) => if i32::MIN <= v <= i32::MAX {
            Some(v as i32)
        } else {
            None
        },
        None => None,
    }
}

/// Reads `text` as a 32-bit signed integer in decimal.
pub fn parse_int(text: &Vec<char>) -> (r: Option<i32>)
    ensures
        r == int_of_text(text@),
{
    let n = text.len();
    if n == 0 {
        return None;
    }
    let negative = text[0] == '-';
    let start: usize = if text[0] == '-' || text[0] == '+' {
        1
    } else {
        0
    };
    if start == n {
        return None;
    }
    let ghost body = unsigned_part(text@);
    // One more than the largest magnitude that any `i32` has.
    let cap: i64 = 2147483649;
    let mut acc: i64 = 0;
    let mut i: usize = start;
    while i < n
        invariant
            n == text.len(),
            start <= i <= n,
            body == unsigned_part(text@),
            body == text@.subrange(start as int, n as int),
            cap == 2147483649,
            all_digits(body.subrange(0, i - start)),
            0 <= acc <= cap,
            acc == if digits_value(body.subrange(0, i - start)) < cap {
                digits_value(body.subrange(0, i - start))
            } else {
                cap as int
            },
        decreases n - i,
    {
        let c = text[i];
        if c < '0' || c > '9' {
            assert(!is_digit(body[i - start]));
            return None;
        }
        let d: i64 = (c as u32 - '0' as u32) as i64;
        proof {
            let seen = body.subrange(0, i - start);
            let next = body.subrange(0, i - start + 1);
            assert(next.drop_last() =~= seen);
            assert(next.last() == c);
            assert(d == digit_value(c));
        }
        acc = acc * 10 + d;
        if acc > cap {
            acc = cap;
        }
        i += 1;
    }
    assert(body.subrange(0, n - start) =~= body);
    if negative {
        if acc <= 2147483648 {
            Some((-acc) as i32)
        } else {
            None
        }
    } else {
        if acc <= 2147483647 {
            Some(acc as i32)
        } else {
            None
        }
    }
}

/// The character that writes the digit `d`.
pub open spec fn digit_char(d: int) -> char {
    ('0' as int + d) as char
}

/// The digits that write `n`, which is not negative, in base ten, without
/// leading zeros.
pub open spec fn digits_of(n: int) -> Seq<char>
    decreases n,
{
    if n < 10 {
        seq![digit_char(n)]
    } else {
        digits_of(n / 10).push(digit_char(n % 10))
    }
}

/// The decimal text of `n`: a minus sign if `n` is negative, then its digits.
pub open spec fn text_of_int(n: int) -> Seq<char> {
    if n < 0 {
        seq!['-'] + digits_of(-n)
    } else {
        digits_of(n)
    }
}

/// The digits of `m` that stand before those already taken off its end.
spec fn leading_digits(m: int) -> Seq<char> {
    if m == 0 {
        Seq::empty()
    } else {
        digits_of(m)
    }
}

proof fn lemma_take_digit(m: int)
    requires
        m > 0,
    ensures
        digits_of(m) == leading_digits(m / 10) + seq![digit_char(m % 10)],
{
    if m < 10 {
        assert(digits_of(m) =~= leading_digits(m / 10) + seq![digit_char(m % 10)]);
    } else {
        assert(digits_of(m) =~= leading_digits(m / 10) + seq![digit_char(m % 10)]);
    }
}

fn digit_to_char(d: u8) -> (c: char)
    requires
        d < 10,
    ensures
        c == digit_char(d as int),
{
    (48u8 + d) as char
}

/// Writes `value` in decimal.
pub fn int_text(value: i32) -> (text: String)
    ensures
        text@ == text_of_int(value as int),
{
    let magnitude: i64 = if value < 0 {
        -(value as i64)
    } else {
        value as i64
    };
    // The digits from the last to the first.
    let mut backwards: Vec<char> = Vec::new();
    backwards.push(digit_to_char((magnitude % 10) as u8));
    let mut m: i64 = magnitude / 10;
    let ghost mut tail: Seq<char> = seq![digit_char(magnitude as int % 10)];
    proof {
        if magnitude > 0 {
            lemma_take_digit(magnitude as int);
        } else {
            assert(digits_of(0) =~= leading_digits(0) + tail);
        }
    }
    while m > 0
        invariant
            0 <= m <= magnitude,
            backwards.len() == tail.len(),
            tail.len() > 0,
            forall|j: int| 0 <= j < tail.len() ==> backwards@[j] == tail[tail.len() - 1 - j],
            digits_of(magnitude as int) == leading_digits(m as int) + tail,
        decreases m,
    {
        let c = digit_to_char((m % 10) as u8);
        proof {
            lemma_take_digit(m as int);
            assert((leading_digits(m / 10) + seq![c]) + tail =~= leading_digits(m / 10) + (
            seq![c] + tail));
            tail = seq![c] + tail;
        }
        backwards.push(c);
        m = m / 10;
    }
    assert(digits_of(magnitude as int) =~= tail);
    let mut text = String::new();
    if value < 0 {
        text.push('-');
    }
    let ghost sign = text@;
    let len = backwards.len();
    let mut k: usize = 0;
    while k < len
        invariant
            len == backwards.len(),
            len == tail.len(),
            k <= len,
            forall|j: int| 0 <= j < tail.len() ==> backwards@[j] == tail[tail.len() - 1 - j],
            text@ == sign + tail.subrange(0, k as int),
        decreases len - k,
    {
        text.push(backwards[len - 1 - k]);
        assert(sign + tail.subrange(0, k + 1) =~= (sign + tail.subrange(0, k as int)).push(
            tail[k as int],
        ));
        k += 1;
    }
    assert(tail.subrange(0, len as int) =~= tail);
    assert(Seq::<char>::empty() + tail =~= tail);
    text
}

/// Whether `c` is the letter written `lower` in lower case and `upper` in
/// upper case.
pub open spec fn either(c: char, lower: char, upper: char) -> bool {
    c == lower || c == upper
}

/// Whether `s` spells `inf`, in any mixture of cases.
pub open spec fn is_inf(s: Seq<char>) -> bool {
    s.len() == 3 && either(s[0], 'i', 'I') && either(s[1], 'n', 'N') && either(s[2], 'f', 'F')
}

/// Whether `s` spells `infinity`, in any mixture of cases.
pub open spec fn is_infinity(s: Seq<char>) -> bool {
    s.len() == 8 && either(s[0], 'i', 'I') && either(s[1], 'n', 'N') && either(s[2], 'f', 'F')
        && either(s[3], 'i', 'I') && either(s[4], 'n', 'N') && either(s[5], 'i', 'I') && either(
        s[6],
        't',
        'T',
    ) && either(s[7], 'y', 'Y')
}

/// Whether `s` spells `nan`, in any mixture of cases.
pub open spec fn is_nan(s: Seq<char>) -> bool {
    s.len() == 3 && either(s[0], 'n', 'N') && either(s[1], 'a', 'A') && either(s[2], 'n', 'N')
}

/// The index of the first character of `s` at or behind `from` that is no
/// digit, or the length of `s` if only digits follow.
pub open spec fn digits_end(s: Seq<char>, from: int) -> int
    decreases s.len() - from,
{
    if 0 <= from < s.len() && is_digit(s[from]) {
        digits_end(s, from + 1)
    } else {
        from
    }
}

/// Whether an exponent begins at `at` and runs to the end of `s`: the letter
/// `e` in either case, an optional sign, then one or more digits.
pub open spec fn is_exponent_at(s: Seq<char>, at: int) -> bool {
    let signed = at + 1 < s.len() && (s[at + 1] == '+' || s[at + 1] == '-');
    let digits = if signed {
        at + 2
    } else {
        at + 1
    };
    0 <= at < s.len() && either(s[at], 'e', 'E') && digits < s.len() && digits_end(s, digits)
        == s.len()
}

/// Whether `s` is a decimal number without a sign: digits with at most one
/// point among them, before it or behind it or both, at least one digit in
/// all, and then an optional exponent.
pub open spec fn is_decimal_number(s: Seq<char>) -> bool {
    let whole_end = digits_end(s, 0);
    let pointed = whole_end < s.len() && s[whole_end] == '.';
    let mantissa_end = if pointed {
        digits_end(s, whole_end + 1)
    } else {
        whole_end
    };
    let digits = if pointed {
        mantissa_end - 1
    } else {
        mantissa_end
    };
    digits >= 1 && (mantissa_end == s.len() || is_exponent_at(s, mantissa_end))
}

/// Whether `s` writes a floating-point number: an optional sign, then `inf`,
/// `infinity` or `nan` in any mixture of cases, or a decimal number.
pub open spec fn is_float_text(s: Seq<char>) -> bool {
    let body = unsigned_part(s);
    is_inf(body) || is_infinity(body) || is_nan(body) || is_decimal_number(body)
}

fn is_either(c: char, lower: char, upper: char) -> (r: bool)
    ensures
        r == either(c, lower, upper),
{
    c == lower || c == upper
}

fn scan_digits(text: &Vec<char>, from: usize) -> (end: usize)
    requires
        from <= text.len(),
    ensures
        from <= end <= text.len(),
        end == digits_end(text@, from as int),
{
    let mut i: usize = from;
    while i < text.len() && text[i] >= '0' && text[i] <= '9'
        invariant
            from <= i <= text.len(),
            digits_end(text@, i as int) == digits_end(text@, from as int),
        decreases text.len() - i,
    {
        i += 1;
    }
    i
}

/// The characters of `text` from `from` on.
fn rest_of(text: &Vec<char>, from: usize) -> (rest: Vec<char>)
    requires
        from <= text.len(),
    ensures
        rest@ == text@.subrange(from as int, text.len() as int),
{
    let mut rest: Vec<char> = Vec::new();
    let mut i: usize = from;
    while i < text.len()
        invariant
            from <= i <= text.len(),
            rest@ == text@.subrange(from as int, i as int),
        decreases text.len() - i,
    {
        rest.push(text[i]);
        assert(text@.subrange(from as int, i + 1) =~= text@.subrange(from as int, i as int).push(
            text@[i as int],
        ));
        i += 1;
    }
    rest
}

fn spells_special(s: &Vec<char>) -> (r: bool)
    ensures
        r == (is_inf(s@) || is_infinity(s@) || is_nan(s@)),
{
    if s.len() == 3 {
        (is_either(s[0], 'i', 'I') && is_either(s[1], 'n', 'N') && is_either(s[2], 'f', 'F')) || (
        is_either(s[0], 'n', 'N') && is_either(s[1], 'a', 'A') && is_either(s[2], 'n', 'N'))
    } else if s.len() == 8 {
        is_either(s[0], 'i', 'I') && is_either(s[1], 'n', 'N') && is_either(s[2], 'f', 'F')
            && is_either(s[3], 'i', 'I') && is_either(s[4], 'n', 'N') && is_either(s[5], 'i', 'I')
            && is_either(s[6], 't', 'T') && is_either(s[7], 'y', 'Y')
    } else {
        false
    }
}

fn exponent_at(s: &Vec<char>, at: usize) -> (r: bool)
    requires
        at < s.len(),
    ensures
        r == is_exponent_at(s@, at as int),
{
    if !is_either(s[at], 'e', 'E') {
        return false;
    }
    let signed = at + 1 < s.len() && (s[at + 1] == '+' || s[at + 1] == '-');
    let digits: usize = if signed {
        at + 2
    } else {
        at + 1
    };
    if digits >= s.len() {
        return false;
    }
    scan_digits(s, digits) == s.len()
}

fn decimal_number(s: &Vec<char>) -> (r: bool)
    ensures
        r == is_decimal_number(s@),
{
    let whole_end = scan_digits(s, 0);
    let pointed = whole_end < s.len() && s[whole_end] == '.';
    let mantissa_end = if pointed {
        scan_digits(s, whole_end + 1)
    } else {
        whole_end
    };
    let digits = if pointed {
        mantissa_end - 1
    } else {
        mantissa_end
    };
    if digits < 1 {
        return false;
    }
    mantissa_end == s.len() || exponent_at(s, mantissa_end)
}

/// Whether `text` writes a floating-point number.
pub fn is_float(text: &Vec<char>) -> (r: bool)
    ensures
        r == is_float_text(text@),
{
    let signed = text.len() > 0 && (text[0] == '+' || text[0] == '-');
    let body = rest_of(
        text,
        if signed {
            1
        } else {
            0
        },
    );
    assert(body@ =~= unsigned_part(text@));
    spells_special(&body) || decimal_number(&body)
}

} // verus!
