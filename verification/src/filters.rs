//! Template filters on text.
use vstd::prelude::*;

use crate::lexer::push_char;
use crate::text::{chars_of, to_upper_first, upper};

verus! {

/// Why a filter could not be applied.
#[derive(Debug, Clone, Copy, PartialEq, Eq, Structural)]
pub enum FilterError {
    /// The filter needs a keyword or an argument that is not there.
    NotEnoughArguments,
}

/// The last keyword of a dotted name (the color format of `colors.<name>.<scheme>.<format>`).
pub fn last_keyword<'a>(keywords: &'a [&'a str]) -> (res: Result<&'a str, FilterError>)
    ensures
        match res {
            Ok(k) => keywords@.len() > 0 && k == keywords@.last(),
            Err(e) => keywords@.len() == 0 && e == FilterError::NotEnoughArguments,
        },
{
    if keywords.len() == 0 {
        Err(FilterError::NotEnoughArguments)
    } else {
        Ok(keywords[keywords.len() - 1])
    }
}

/// Reading `s` from the start: the text written so far and whether the next
/// character is upper-cased. Underscores are dropped, and the first character
/// after underscores is replaced by the first character of its upper case.
pub open spec fn camel_state(s: Seq<char>) -> (Seq<char>, bool)
    decreases s.len(),
{
    if s.len() == 0 {
        (Seq::empty(), false)
    } else {
        let (out, capitalize) = camel_state(s.drop_last());
        let c = s.last();
        if c == '_' {
            (out, true)
        } else if capitalize {
            (out.push(upper(c)), false)
        } else {
            (out.push(c), false)
        }
    }
}

/// `s` in camelCase: `snake_case_name` becomes `snakeCaseName`.
pub fn camel_case(value: &str) -> (res: String)
    ensures
        res@ == camel_state(value@).0,
{
    let cs = chars_of(value);
    let mut result = String::new();
    let mut capitalize_next = false;
    let mut i: usize = 0;
    while i < cs.len()
        invariant
            cs@ == value@,
            i <= cs@.len(),
            (result@, capitalize_next) == camel_state(value@.take(i as int)),
        decreases cs@.len() - i,
    {
        let c = cs[i];
        proof {
            let t = value@.take(i as int + 1);
            assert(t.drop_last() =~= value@.take(i as int));
            assert(t.last() == c);
        }
        if c == '_' {
            capitalize_next = true;
        } else {
            if capitalize_next {
                push_char(&mut result, to_upper_first(c));
                capitalize_next = false;
            } else {
                push_char(&mut result, c);
            }
        }
        i = i + 1;
    }
    proof {
        assert(value@.take(cs@.len() as int) =~= value@);
    }
    result
}

/// A text without underscores is already in camelCase: it is kept as it is.
pub proof fn lemma_camel_case_without_underscore(s: Seq<char>)
    requires
        forall|i: int| 0 <= i < s.len() ==> #[trigger] s[i] != '_',
    ensures
        camel_state(s) == (s, false),
    decreases s.len(),
{
    if s.len() > 0 {
        lemma_camel_case_without_underscore(s.drop_last());
        assert(s.drop_last().push(s.last()) =~= s);
    }
}

} // verus!
