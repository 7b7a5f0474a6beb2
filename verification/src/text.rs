//! Character classes and string building.
use vstd::prelude::*;

verus! {

/// Whether `c` is a Unicode white space character (the characters that
/// `char::is_whitespace` accepts).
pub open spec fn is_ws(c: char) -> bool {
    let u = c as u32;
    (0x09 <= u <= 0x0d) || u == 0x20 || u == 0x85 || u == 0xa0 || u == 0x1680 || (0x2000 <= u
        <= 0x200a) || u == 0x2028 || u == 0x2029 || u == 0x202f || u == 0x205f || u == 0x3000
}

/// Whether `c` is an ASCII decimal digit.
pub open spec fn is_digit(c: char) -> bool {
    '0' <= c && c <= '9'
}

/// The value of an ASCII decimal digit.
pub open spec fn digit_value(c: char) -> nat {
    (c as u32 - '0' as u32) as nat
}

/// Whether `c` is a white space character.
pub fn is_whitespace(c: char) -> (r: bool)
    ensures
        r == is_ws(c),
{
    let u = c as u32;
    (0x09 <= u && u <= 0x0d) || u == 0x20 || u == 0x85 || u == 0xa0 || u == 0x1680 || (0x2000
        <= u && u <= 0x200a) || u == 0x2028 || u == 0x2029 || u == 0x202f || u == 0x205f || u
        == 0x3000
}

/// The index of the first character of `s` at or after `i` that is not
/// white space.
pub open spec fn skip_ws(s: Seq<char>, i: int) -> int
    decreases s.len() - i,
{
    if 0 <= i < s.len() && is_ws(s[i]) {
        skip_ws(s, i + 1)
    } else {
        i
    }
}

/// The index just after the last character of `s` before `j` that is not
/// white space (or `i` if there is none from `i`).
pub open spec fn skip_ws_back(s: Seq<char>, i: int, j: int) -> int
    decreases j - i,
{
    if i < j && is_ws(s[j - 1]) {
        skip_ws_back(s, i, j - 1)
    } else {
        j
    }
}

/// `s` without leading and trailing white space.
pub open spec fn trim(s: Seq<char>) -> Seq<char> {
    let start = skip_ws(s, 0);
    let end = skip_ws_back(s, start, s.len() as int);
    s.subrange(start, end)
}

/// The characters of a string.
pub fn chars_of(s: &str) -> (v: Vec<char>)
    ensures
        v@ == s@,
{
    broadcast use vstd::string::group_string_axioms;

    let mut v: Vec<char> = Vec::new();
    for c in it: s.chars()
        invariant
            v@ == it.seq().take(it.index() as int),
            it.seq() == s@,
    {
        v.push(c);
    }
    v
}

/// A string made of the characters `v[i..j]`.
pub fn string_of(v: &Vec<char>, i: usize, j: usize) -> (s: String)
    requires
        i <= j <= v.len(),
    ensures
        s@ == v@.subrange(i as int, j as int),
{
    let mut s = String::new();
    let mut k = i;
    while k < j
        invariant
            i <= k <= j <= v.len(),
            s@ == v@.subrange(i as int, k as int),
        decreases j - k,
    {
        push_char(&mut s, v[k]);
        assert(v@.subrange(i as int, k + 1) == v@.subrange(i as int, k as int).push(v@[k as int]));
        k = k + 1;
    }
    s
}

/// Index of the first character at or after `i` that is not white space.
pub fn skip_whitespace(v: &Vec<char>, i: usize) -> (r: usize)
    requires
        i <= v.len(),
    ensures
        r == skip_ws(v@, i as int),
        i <= r <= v.len(),
{
    let mut k = i;
    while k < v.len() && is_whitespace(v[k])
        invariant
            i <= k <= v.len(),
            skip_ws(v@, i as int) == skip_ws(v@, k as int),
        decreases v.len() - k,
    {
        k = k + 1;
    }
    k
}

/// `s` without leading and trailing white space.
pub fn trim_text(s: &str) -> (r: String)
    ensures
        r@ == trim(s@),
{
    let v = chars_of(s);
    let start = skip_whitespace(&v, 0);
    let mut end = v.len();
    while start < end && is_whitespace(v[end - 1])
        invariant
            start <= end <= v.len(),
            start == skip_ws(v@, 0),
            skip_ws_back(v@, start as int, v.len() as int) == skip_ws_back(
                v@,
                start as int,
                end as int,
            ),
        decreases end,
    {
        end = end - 1;
    }
    string_of(&v, start, end)
}

/// Appends a character to a string.
///
/// Trusted: `String::push` appends exactly the one character.
#[verifier::external_body]
pub fn push_char(s: &mut String, c: char)
    ensures
        final(s)@ == old(s)@.push(c),
{
    s.push(c);
}

} // verus!
