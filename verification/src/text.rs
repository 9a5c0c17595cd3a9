//! Small text helpers shared by the modules that read strings.
use vstd::prelude::*;

verus! {

/// Whether `char::is_whitespace` holds of `c` (the Unicode `White_Space` property).
pub uninterp spec fn char_is_whitespace(c: char) -> bool;

/// `char::is_whitespace`; among ASCII characters, exactly the space and
/// the controls from tab to carriage return are whitespace.
#[verifier::external_body]
pub(crate) fn is_whitespace(c: char) -> (res: bool)
    ensures
        res == char_is_whitespace(c),
        (c as u32) < 128 ==> res == (c == ' ' || ('\t' <= c <= '\r')),
{
    c.is_whitespace()
}

/// Whether `c` is whitespace: among ASCII characters exactly the space and
/// the controls from tab to carriage return, beyond them as
/// `char::is_whitespace` decides.
pub open spec fn whitespace(c: char) -> bool {
    if (c as u32) < 128 {
        c == ' ' || ('\t' <= c <= '\r')
    } else {
        char_is_whitespace(c)
    }
}

/// The first character of the upper case of `c`: for an ASCII character,
/// `a`–`z` become `A`–`Z` and others are kept; beyond them as
/// `char::to_uppercase` gives it.
pub open spec fn upper(c: char) -> char {
    if (c as u32) < 128 {
        if 'a' <= c <= 'z' {
            ((c as u32) - 32) as char
        } else {
            c
        }
    } else {
        upper_first(c)
    }
}

/// The first character of `char::to_uppercase` of `c`.
pub uninterp spec fn upper_first(c: char) -> char;

/// `char::to_uppercase`, of which the first character is taken; the iterator
/// that std returns always yields at least one character. An ASCII letter
/// `a`–`z` becomes `A`–`Z`; every other ASCII character is kept.
#[verifier::external_body]
pub(crate) fn to_upper_first(c: char) -> (res: char)
    ensures
        res == upper_first(c),
        (c as u32) < 128 ==> res == if 'a' <= c <= 'z' {
            ((c as u32) - 32) as char
        } else {
            c
        },
{
    c.to_uppercase().next().unwrap()
}

/// The characters of `s`, in order.
pub fn chars_of(s: &str) -> (res: Vec<char>)
    ensures
        res@ == s@,
{
    let mut chars: Vec<char> = Vec::new();
    for c in iter: s.chars()
        invariant
            chars@ == iter.seq().take(iter.index()),
    {
        chars.push(c);
        proof {
            assert(iter.seq().take(iter.index() + 1) =~= iter.seq().take(iter.index()).push(c));
        }
    }
    proof {
        assert(chars@ =~= s@);
    }
    chars
}

} // verus!
