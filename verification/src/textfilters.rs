//! The filters that apply to text: `replace`, the case conversions and
//! upper and lower case.
use vstd::prelude::*;
use vstd::string::StringExecFns;

use convert_case::{Case, Casing};

use crate::lexer::push_char;
use crate::template::ArgValue;
use crate::text::chars_of;

verus! {

/// `true` when `a` and `b` hold the same characters.
pub fn same_text(a: &str, b: &str) -> (res: bool)
    ensures
        res == (a@ == b@),
{
    let x = chars_of(a);
    let y = chars_of(b);
    if x.len() != y.len() {
        return false;
    }
    let mut i: usize = 0;
    while i < x.len()
        invariant
            x@ == a@,
            y@ == b@,
            x@.len() == y@.len(),
            i <= x@.len(),
            forall|k: int| 0 <= k < i ==> x@[k] == y@[k],
        decreases x@.len() - i,
    {
        if x[i] != y[i] {
            return false;
        }
        i = i + 1;
    }
    proof {
        assert(a@ =~= b@);
    }
    true
}

/// `f` occurs in `s` at position `i`.
pub open spec fn occurs_at(s: Seq<char>, i: int, f: Seq<char>) -> bool {
    0 <= i && i + f.len() <= s.len() && s.subrange(i, i + f.len()) == f
}

/// `s` from position `i` with every occurrence of `f` replaced by `w`, as
/// `str::replace` does: occurrences are taken from the left and do not
/// overlap; an empty `f` occurs before each character and at the end.
pub open spec fn replaced_from(s: Seq<char>, i: int, f: Seq<char>, w: Seq<char>) -> Seq<char>
    decreases s.len() - i, if f.len() == 0 { 1int } else { 0int },
{
    if i < 0 || i > s.len() {
        Seq::empty()
    } else if f.len() == 0 {
        if i == s.len() {
            w
        } else {
            w + seq![s[i]] + replaced_from(s, i + 1, f, w)
        }
    } else if i == s.len() {
        Seq::empty()
    } else if occurs_at(s, i, f) {
        w + replaced_from(s, i + f.len(), f, w)
    } else {
        seq![s[i]] + replaced_from(s, i + 1, f, w)
    }
}

/// `s` with every occurrence of `f` replaced by `w`.
pub open spec fn replaced(s: Seq<char>, f: Seq<char>, w: Seq<char>) -> Seq<char> {
    replaced_from(s, 0, f, w)
}

fn occurs_at_exec(s: &Vec<char>, i: usize, f: &Vec<char>) -> (res: bool)
    requires
        i <= s@.len(),
    ensures
        res == occurs_at(s@, i as int, f@),
{
    if f.len() > s.len() - i {
        return false;
    }
    let mut k: usize = 0;
    while k < f.len()
        invariant
            i + f@.len() <= s@.len(),
            s@.len() <= usize::MAX,
            k <= f@.len(),
            forall|j: int| 0 <= j < k ==> s@[i + j] == f@[j],
        decreases f@.len() - k,
    {
        if s[i + k] != f[k] {
            proof {
                assert(s@.subrange(i as int, i + f@.len())[k as int] != f@[k as int]);
            }
            return false;
        }
        k = k + 1;
    }
    proof {
        assert(s@.subrange(i as int, i + f@.len()) =~= f@);
    }
    true
}

fn push_all(out: &mut String, cs: &Vec<char>)
    ensures
        final(out)@ == old(out)@ + cs@,
{
    let mut i: usize = 0;
    while i < cs.len()
        invariant
            i <= cs@.len(),
            out@ == old(out)@ + cs@.take(i as int),
        decreases cs@.len() - i,
    {
        push_char(out, cs[i]);
        proof {
            assert(cs@.take(i + 1) =~= cs@.take(i as int).push(cs@[i as int]));
        }
        i = i + 1;
    }
    proof {
        assert(cs@.take(cs@.len() as int) =~= cs@);
    }
}

/// `s` with every occurrence of `find` replaced by `with`, as `replaced` says.
pub fn replace_all(s: &str, find: &str, with: &str) -> (res: String)
    ensures
        res@ == replaced(s@, find@, with@),
{
    let cs = chars_of(s);
    let f = chars_of(find);
    let w = chars_of(with);
    let mut out = String::new();
    let mut i: usize = 0;
    proof {
        assert(Seq::<char>::empty() + replaced_from(cs@, 0, f@, w@) =~= replaced_from(cs@, 0, f@, w@));
    }
    while i < cs.len()
        invariant
            cs@ == s@,
            f@ == find@,
            w@ == with@,
            i <= cs@.len(),
            out@ + replaced_from(cs@, i as int, f@, w@) == replaced_from(cs@, 0, f@, w@),
        decreases cs@.len() - i,
    {
        if f.len() == 0 {
            let ghost before = out@;
            push_all(&mut out, &w);
            push_char(&mut out, cs[i]);
            proof {
                assert(out@ + replaced_from(cs@, i + 1, f@, w@) =~= before + replaced_from(cs@, i as int, f@, w@));
            }
            i = i + 1;
        } else if occurs_at_exec(&cs, i, &f) {
            let ghost before = out@;
            push_all(&mut out, &w);
            proof {
                assert(out@ + replaced_from(cs@, i + f@.len(), f@, w@) =~= before + replaced_from(
                    cs@,
                    i as int,
                    f@,
                    w@,
                ));
            }
            i = i + f.len();
        } else {
            let ghost before = out@;
            push_char(&mut out, cs[i]);
            proof {
                assert(out@ + replaced_from(cs@, i + 1, f@, w@) =~= before + replaced_from(cs@, i as int, f@, w@));
            }
            i = i + 1;
        }
    }
    if f.len() == 0 {
        let ghost before = out@;
        push_all(&mut out, &w);
        proof {
            assert(out@ =~= before + replaced_from(cs@, i as int, f@, w@));
        }
    } else {
        proof {
            assert(out@ =~= out@ + replaced_from(cs@, i as int, f@, w@));
        }
    }
    out
}

/// The case conversions of `convert_case`.
#[derive(Debug, Clone, Copy, PartialEq, Eq, Structural)]
pub enum TextCase {
    Lower,
    Snake,
    Camel,
    Pascal,
    Kebab,
}

/// What `convert_case`'s `Casing::to_case` gives for `s` in `case`.
pub uninterp spec fn case_converted(s: Seq<char>, case: TextCase) -> Seq<char>;

/// `convert_case::Casing::to_case`: splits `s` into words at the default
/// boundaries and joins them in the pattern and with the delimiter of the case.
#[verifier::external_body]
fn convert_to_case(s: &str, case: TextCase) -> (res: String)
    ensures
        res@ == case_converted(s@, case),
{
    let c = match case {
        TextCase::Lower => Case::Lower,
        TextCase::Snake => Case::Snake,
        TextCase::Camel => Case::Camel,
        TextCase::Pascal => Case::Pascal,
        TextCase::Kebab => Case::Kebab,
    };
    s.to_case(c)
}

/// The upper case of an ASCII character; other characters are kept.
pub open spec fn ascii_upper(c: char) -> char {
    if 'a' <= c <= 'z' {
        ((c as u32) - 32) as char
    } else {
        c
    }
}

/// The lower case of an ASCII character; other characters are kept.
pub open spec fn ascii_lower(c: char) -> char {
    if 'A' <= c <= 'Z' {
        ((c as u32) + 32) as char
    } else {
        c
    }
}

/// Every character of `s` is ASCII.
pub open spec fn all_ascii(s: Seq<char>) -> bool {
    forall|i: int| 0 <= i < s.len() ==> (#[trigger] s[i] as u32) < 128
}

/// What `str::to_uppercase` gives for `s`.
pub uninterp spec fn uppercased(s: Seq<char>) -> Seq<char>;

/// What `str::to_lowercase` gives for `s`.
pub uninterp spec fn lowercased(s: Seq<char>) -> Seq<char>;

/// `str::to_uppercase`: the Unicode upper case of `s`; on ASCII text, each
/// letter `a`–`z` becomes `A`–`Z` and every other character is kept.
#[verifier::external_body]
fn to_uppercase_text(s: &str) -> (res: String)
    ensures
        res@ == uppercased(s@),
        all_ascii(s@) ==> res@ == s@.map_values(|c: char| ascii_upper(c)),
{
    s.to_uppercase()
}

/// `str::to_lowercase`: the Unicode lower case of `s`; on ASCII text, each
/// letter `A`–`Z` becomes `a`–`z` and every other character is kept.
#[verifier::external_body]
fn to_lowercase_text(s: &str) -> (res: String)
    ensures
        res@ == lowercased(s@),
        all_ascii(s@) ==> res@ == s@.map_values(|c: char| ascii_lower(c)),
{
    s.to_lowercase()
}

/// Why a text filter could not be applied.
#[derive(Debug, Clone, Copy, PartialEq, Eq, Structural)]
pub enum TextFilterError {
    /// No text filter has that name.
    NotATextFilter,
    /// The filter's arguments are not the ones it takes.
    BadArguments,
}

/// The text of an argument.
pub open spec fn arg_text(a: ArgValue) -> Seq<char> {
    match a {
        ArgValue::Ident(s) => s@,
        ArgValue::Int(s) => s@,
        ArgValue::Float(s) => s@,
    }
}

/// The case conversion a filter name stands for.
pub open spec fn case_of(name: Seq<char>) -> Option<TextCase> {
    if name == "lower_case"@ {
        Some(TextCase::Lower)
    } else if name == "snake_case"@ {
        Some(TextCase::Snake)
    } else if name == "camel_case"@ {
        Some(TextCase::Camel)
    } else if name == "pascal_case"@ {
        Some(TextCase::Pascal)
    } else if name == "kebab_case"@ {
        Some(TextCase::Kebab)
    } else {
        None
    }
}

/// Applying the filter `name` with `args` to the text `t`: `replace` takes
/// two names, what to find and what to put in its place; `to_upper` and
/// `to_lower` change the case of each letter; `lower_case`, `snake_case`,
/// `camel_case`, `pascal_case` and `kebab_case` convert the words; the
/// last four take no arguments and ignore any given.
pub open spec fn text_filter(t: Seq<char>, name: Seq<char>, args: Seq<ArgValue>) -> Result<Seq<char>, TextFilterError> {
    if name == "replace"@ {
        if args.len() == 2 && args[0] is Ident && args[1] is Ident {
            Ok(replaced(t, arg_text(args[0]), arg_text(args[1])))
        } else {
            Err(TextFilterError::BadArguments)
        }
    } else if name == "to_upper"@ {
        Ok(uppercased(t))
    } else if name == "to_lower"@ {
        Ok(lowercased(t))
    } else {
        match case_of(name) {
            Some(c) => Ok(case_converted(t, c)),
            None => Err(TextFilterError::NotATextFilter),
        }
    }
}

fn case_of_exec(name: &str) -> (res: Option<TextCase>)
    ensures
        res == case_of(name@),
{
    if same_text(name, "lower_case") {
        Some(TextCase::Lower)
    } else if same_text(name, "snake_case") {
        Some(TextCase::Snake)
    } else if same_text(name, "camel_case") {
        Some(TextCase::Camel)
    } else if same_text(name, "pascal_case") {
        Some(TextCase::Pascal)
    } else if same_text(name, "kebab_case") {
        Some(TextCase::Kebab)
    } else {
        None
    }
}

/// Applies the filter `name` with `args` to `t`, as `text_filter` says.
pub fn apply_text_filter(t: &str, name: &str, args: &Vec<ArgValue>) -> (res: Result<String, TextFilterError>)
    ensures
        match text_filter(t@, name@, args@) {
            Ok(r) => res matches Ok(s) && s@ == r,
            Err(e) => res matches Err(x) && x == e,
        },
{
    if same_text(name, "replace") {
        if args.len() == 2 {
            match (&args[0], &args[1]) {
                (ArgValue::Ident(f), ArgValue::Ident(w)) => {
                    return Ok(replace_all(t, f.as_str(), w.as_str()));
                },
                _ => {},
            }
        }
        return Err(TextFilterError::BadArguments);
    }
    if same_text(name, "to_upper") {
        return Ok(to_uppercase_text(t));
    }
    if same_text(name, "to_lower") {
        return Ok(to_lowercase_text(t));
    }
    match case_of_exec(name) {
        Some(c) => Ok(convert_to_case(t, c)),
        None => Err(TextFilterError::NotATextFilter),
    }
}

} // verus!
