use vstd::prelude::*;
use vstd::string::StringExecFns;

verus! {

/// `String::push` of std: the character is appended to the end of the string.
pub assume_specification[ std::string::String::push ](s: &mut std::string::String, ch: char)
    ensures
        final(s)@ == old(s)@.push(ch),
;

/// `String::clear` of std: the string is left empty.
pub assume_specification[ std::string::String::clear ](s: &mut std::string::String)
    ensures
        final(s)@ == Seq::<char>::empty(),
;

/// `String::with_capacity` of std: an empty string, with room for `capacity`
/// bytes. Capacities that no allocation can have are left out.
pub assume_specification[ std::string::String::with_capacity ](capacity: usize) -> (s:
    std::string::String)
    requires
        capacity <= isize::MAX,
    ensures
        s@ == Seq::<char>::empty(),
;

/// The characters of `s`, in order.
#[verifier::loop_isolation(false)]
pub fn chars_of(s: &str) -> (v: Vec<char>)
    ensures
        v@ == s@,
{
    let mut v: Vec<char> = Vec::new();
    for c in it: s.chars()
        invariant
            v@ == s@.subrange(0, it.index() as int),
    {
        v.push(c);
    }
    v
}

/// The string of the characters of `chars` from `from` up to `to`.
pub fn string_from(chars: &Vec<char>, from: usize, to: usize) -> (s: String)
    requires
        from <= to <= chars.len(),
    ensures
        s@ == chars@.subrange(from as int, to as int),
{
    let mut s = String::new();
    let mut i: usize = from;
    while i < to
        invariant
            from <= i <= to <= chars.len(),
            s@ == chars@.subrange(from as int, i as int),
        decreases to - i,
    {
        s.push(chars[i]);
        assert(chars@.subrange(from as int, i + 1) =~= chars@.subrange(from as int, i as int).push(
            chars@[i as int],
        ));
        i += 1;
    }
    s
}

/// `text` between two double quotes.
pub open spec fn quoted(text: Seq<char>) -> Seq<char> {
    seq!['"'] + text + seq!['"']
}

/// `text` between two double quotes.
pub fn quote(text: &str) -> (s: String)
    ensures
        s@ == quoted(text@),
{
    let mut s = String::new();
    s.push('"');
    s.append(text);
    s.push('"');
    assert(s@ =~= quoted(text@));
    s
}

} // verus!
