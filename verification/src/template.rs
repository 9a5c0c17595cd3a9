//! The template grammar: raw text, `{{ a.b | filter: x, 1, 2.5 }}`
//! expressions and `<* for k, v in a.b *> ... <* endfor *>` loops, read
//! from a text into spanned expressions.
//!
//! Whitespace, identifier and digit characters follow `chumsky::text`:
//! padding skips whitespace, an identifier is a start character then
//! continue characters (Unicode XID, with `_` as a start), and an integer
//! is `0` or a non-zero digit followed by ASCII digits.
use vstd::prelude::*;
use chumsky::text::Char;

use crate::helpers::EngineSyntax;
use crate::lexer::{char_len_utf8, lemma_utf8_len_prefix, lemma_utf8_len_take, push_char, utf8_len};
use crate::color::trimmed_len;
use crate::lexer::lemma_utf8_len_encoding;
use crate::text::{chars_of, is_whitespace, whitespace};
use vstd::string::StringSliceAdditionalSpecFns;

verus! {

/// Whether chumsky's `Char::is_whitespace` holds of `c`.
pub uninterp spec fn is_pad_char(c: char) -> bool;

/// Whether chumsky's `Char::is_ident_start` holds of `c`.
pub uninterp spec fn is_ident_start_char(c: char) -> bool;

/// Whether chumsky's `Char::is_ident_continue` holds of `c`.
pub uninterp spec fn is_ident_continue_char(c: char) -> bool;

/// Padding: among ASCII characters exactly the space and the controls from
/// tab to carriage return, beyond them as chumsky's `is_whitespace` decides.
pub open spec fn pad(c: char) -> bool {
    if (c as u32) < 128 {
        c == ' ' || ('\t' <= c <= '\r')
    } else {
        is_pad_char(c)
    }
}

/// The start of an identifier: among ASCII characters exactly the letters
/// and `_`, beyond them as chumsky's `is_ident_start` decides.
pub open spec fn ident_start(c: char) -> bool {
    if (c as u32) < 128 {
        ('a' <= c <= 'z') || ('A' <= c <= 'Z') || c == '_'
    } else {
        is_ident_start_char(c)
    }
}

/// The rest of an identifier: among ASCII characters exactly the letters,
/// the digits and `_`, beyond them as chumsky's `is_ident_continue` decides.
pub open spec fn ident_continue(c: char) -> bool {
    if (c as u32) < 128 {
        ('a' <= c <= 'z') || ('A' <= c <= 'Z') || ('0' <= c <= '9') || c == '_'
    } else {
        is_ident_continue_char(c)
    }
}

/// `chumsky::text::Char::is_whitespace` on a `char`: Unicode whitespace
/// other than the bidirectional controls; among ASCII characters, exactly
/// the space and the controls from tab to carriage return.
#[verifier::external_body]
fn pad_char(c: char) -> (res: bool)
    ensures
        res == is_pad_char(c),
        (c as u32) < 128 ==> res == (c == ' ' || ('\t' <= c <= '\r')),
{
    Char::is_whitespace(&c)
}

/// `chumsky::text::Char::is_ident_start` on a `char`: XID start, or `_`;
/// among ASCII characters, exactly the letters and `_`.
#[verifier::external_body]
fn ident_start_char(c: char) -> (res: bool)
    ensures
        res == is_ident_start_char(c),
        (c as u32) < 128 ==> res == (('a' <= c <= 'z') || ('A' <= c <= 'Z') || c == '_'),
{
    Char::is_ident_start(&c)
}

/// `chumsky::text::Char::is_ident_continue` on a `char`: XID continue;
/// among ASCII characters, exactly the letters, the digits and `_`.
#[verifier::external_body]
fn ident_continue_char(c: char) -> (res: bool)
    ensures
        res == is_ident_continue_char(c),
        (c as u32) < 128 ==> res == (('a' <= c <= 'z') || ('A' <= c <= 'Z') || ('0' <= c <= '9') || c == '_'),
{
    Char::is_ident_continue(&c)
}

/// An ASCII decimal digit.
pub open spec fn is_digit(c: char) -> bool {
    '0' <= c <= '9'
}

/// The end of the whitespace that starts at `i`.
pub open spec fn pad_end(cs: Seq<char>, i: int) -> int
    decreases cs.len() - i,
{
    if 0 <= i < cs.len() && pad(cs[i]) {
        pad_end(cs, i + 1)
    } else {
        i
    }
}

/// `l` stands in `cs` at `i`.
pub open spec fn has_lit(cs: Seq<char>, i: int, l: Seq<char>) -> bool {
    0 <= i && i + l.len() <= cs.len() && cs.subrange(i, i + l.len()) == l
}

/// The end of the run of identifier continue characters that starts at `i`.
pub open spec fn ident_rest_end(cs: Seq<char>, i: int) -> int
    decreases cs.len() - i,
{
    if 0 <= i < cs.len() && ident_continue(cs[i]) {
        ident_rest_end(cs, i + 1)
    } else {
        i
    }
}

/// The end of the identifier at `i`, if one starts there.
pub open spec fn ident_end(cs: Seq<char>, i: int) -> Option<int> {
    if 0 <= i < cs.len() && ident_start(cs[i]) {
        Some(ident_rest_end(cs, i + 1))
    } else {
        None
    }
}

/// The end of the run of digits that starts at `i`.
pub open spec fn digits_end(cs: Seq<char>, i: int) -> int
    decreases cs.len() - i,
{
    if 0 <= i < cs.len() && is_digit(cs[i]) {
        digits_end(cs, i + 1)
    } else {
        i
    }
}

/// The end of the integer at `i`: `0`, or a non-zero digit and any digits.
pub open spec fn int_end(cs: Seq<char>, i: int) -> Option<int> {
    if 0 <= i < cs.len() && '1' <= cs[i] <= '9' {
        Some(digits_end(cs, i + 1))
    } else if 0 <= i < cs.len() && cs[i] == '0' {
        Some(i + 1)
    } else {
        None
    }
}

/// The end of the decimal number at `i`: an integer, `.` and an integer.
pub open spec fn float_end(cs: Seq<char>, i: int) -> Option<int> {
    match int_end(cs, i) {
        Some(a) => if 0 <= a < cs.len() && cs[a] == '.' {
            int_end(cs, a + 1)
        } else {
            None
        },
        None => None,
    }
}

/// What a filter argument is written as.
#[derive(Debug, Clone, Copy, PartialEq, Eq, Structural)]
pub enum ArgKind {
    Ident,
    Int,
    Float,
}

/// A filter argument read from the text: its kind and span (character positions).
pub struct GArg {
    pub kind: ArgKind,
    pub start: int,
    pub end: int,
}

/// The argument at `i`: a decimal number, else an integer, else an identifier.
pub open spec fn arg_at(cs: Seq<char>, i: int) -> Option<(ArgKind, int)> {
    match float_end(cs, i) {
        Some(e) => Some((ArgKind::Float, e)),
        None => match int_end(cs, i) {
            Some(e) => Some((ArgKind::Int, e)),
            None => match ident_end(cs, i) {
                Some(e) => Some((ArgKind::Ident, e)),
                None => None,
            },
        },
    }
}

pub proof fn lemma_pad_end(cs: Seq<char>, i: int)
    requires
        0 <= i <= cs.len(),
    ensures
        i <= pad_end(cs, i) <= cs.len(),
        pad_end(cs, pad_end(cs, i)) == pad_end(cs, i),
    decreases cs.len() - i,
{
    if i < cs.len() && pad(cs[i]) {
        lemma_pad_end(cs, i + 1);
    }
}

pub proof fn lemma_ident_rest_end(cs: Seq<char>, i: int)
    requires
        0 <= i <= cs.len(),
    ensures
        i <= ident_rest_end(cs, i) <= cs.len(),
    decreases cs.len() - i,
{
    if i < cs.len() && ident_continue(cs[i]) {
        lemma_ident_rest_end(cs, i + 1);
    }
}

pub proof fn lemma_digits_end(cs: Seq<char>, i: int)
    requires
        0 <= i <= cs.len(),
    ensures
        i <= digits_end(cs, i) <= cs.len(),
    decreases cs.len() - i,
{
    if i < cs.len() && is_digit(cs[i]) {
        lemma_digits_end(cs, i + 1);
    }
}

/// Whatever is read at `i` ends after `i` and within the text.
pub proof fn lemma_arg_at(cs: Seq<char>, i: int)
    requires
        0 <= i <= cs.len(),
    ensures
        ident_end(cs, i) matches Some(e) ==> i < e <= cs.len(),
        int_end(cs, i) matches Some(e) ==> i < e <= cs.len(),
        float_end(cs, i) matches Some(e) ==> i < e <= cs.len(),
        arg_at(cs, i) matches Some((_, e)) ==> i < e <= cs.len(),
{
    if i < cs.len() {
        lemma_ident_rest_end(cs, i + 1);
        lemma_digits_end(cs, i + 1);
        if let Some(a) = int_end(cs, i) {
            if a + 1 < cs.len() && cs[a] == '.' {
                lemma_digits_end(cs, a + 2);
            }
        }
    }
}

/// A filter read from the text: the span of its name, its arguments and its span.
pub struct GFilter {
    pub name: (int, int),
    pub args: Seq<GArg>,
    pub start: int,
    pub end: int,
}

/// An expression read from the text, by the character spans of its parts.
pub enum GExpr {
    /// A dotted name: the span of each name and of the whole.
    Keyword { words: Seq<(int, int)>, span: (int, int) },
    /// A dotted name with its filters.
    Filtered { words: Seq<(int, int)>, words_span: (int, int), filters: Seq<GFilter>, span: (int, int) },
    /// A loop: the loop variables, the dotted name it runs over and its body.
    For { vars: Seq<(int, int)>, words: Seq<(int, int)>, list_span: (int, int), body: Seq<GExpr>, span: (int, int) },
    /// Text outside expressions and loops.
    Raw { span: (int, int) },
}

/// The arguments after the one that ends at `p`: each is a `,`, padding and
/// an argument with padding; a `,` not followed by an argument is not read.
pub open spec fn more_args(cs: Seq<char>, p: int) -> (Seq<GArg>, int)
    decreases cs.len() - p,
{
    let q = pad_end(cs, p);
    if 0 <= p <= cs.len() && q < cs.len() && cs[q] == ',' {
        let r = pad_end(cs, q + 1);
        match arg_at(cs, r) {
            Some((k, e)) => {
                proof {
                    lemma_pad_end(cs, p);
                    lemma_pad_end(cs, q + 1);
                    lemma_arg_at(cs, r);
                    lemma_pad_end(cs, e);
                }
                let (rest, f) = more_args(cs, pad_end(cs, e));
                (seq![GArg { kind: k, start: r, end: e }] + rest, f)
            },
            None => (Seq::empty(), p),
        }
    } else {
        (Seq::empty(), p)
    }
}

/// The comma-separated padded arguments at `i`, possibly none.
pub open spec fn args_at(cs: Seq<char>, i: int) -> (Seq<GArg>, int) {
    let r = pad_end(cs, i);
    match arg_at(cs, r) {
        Some((k, e)) => {
            let (rest, f) = more_args(cs, pad_end(cs, e));
            (seq![GArg { kind: k, start: r, end: e }] + rest, f)
        },
        None => (Seq::empty(), i),
    }
}

/// The filter at `i`: a name, then optionally `:` (padded) and its arguments.
pub open spec fn filter_at(cs: Seq<char>, i: int) -> Option<(GFilter, int)> {
    match ident_end(cs, i) {
        Some(n) => {
            let q = pad_end(cs, n);
            if q < cs.len() && cs[q] == ':' {
                let (args, e) = args_at(cs, pad_end(cs, q + 1));
                Some((GFilter { name: (i, n), args, start: i, end: e }, e))
            } else {
                Some((GFilter { name: (i, n), args: Seq::empty(), start: i, end: n }, n))
            }
        },
        None => None,
    }
}

/// The filters from `p` on: each is a padded `|` and a padded filter.
pub open spec fn filters_at(cs: Seq<char>, p: int) -> (Seq<GFilter>, int)
    decreases cs.len() - p,
{
    let q = pad_end(cs, p);
    if 0 <= p <= cs.len() && q < cs.len() && cs[q] == '|' {
        let r = pad_end(cs, q + 1);
        match filter_at(cs, r) {
            Some((f, e)) => {
                proof {
                    lemma_filter_at(cs, r);
                    lemma_pad_end(cs, p);
                    lemma_pad_end(cs, q + 1);
                    lemma_pad_end(cs, e);
                }
                let (rest, g) = filters_at(cs, pad_end(cs, e));
                (seq![f] + rest, g)
            },
            None => (Seq::empty(), p),
        }
    } else {
        (Seq::empty(), p)
    }
}

/// The names after the one that ends at `p`: each is `.` and a name.
pub open spec fn dotted_from(cs: Seq<char>, p: int) -> (Seq<(int, int)>, int)
    decreases cs.len() - p,
{
    if 0 <= p < cs.len() && cs[p] == '.' {
        match ident_end(cs, p + 1) {
            Some(e) => {
                proof {
                    lemma_arg_at(cs, p + 1);
                }
                let (rest, f) = dotted_from(cs, e);
                (seq![(p + 1, e)] + rest, f)
            },
            None => (Seq::empty(), p),
        }
    } else {
        (Seq::empty(), p)
    }
}

/// The dotted name at `i`: at least one name, separated by `.`.
pub open spec fn dotted_at(cs: Seq<char>, i: int) -> Option<(Seq<(int, int)>, int)> {
    match ident_end(cs, i) {
        Some(e) => {
            let (rest, f) = dotted_from(cs, e);
            Some((seq![(i, e)] + rest, f))
        },
        None => None,
    }
}

/// A dotted name and its filters, at `i`.
pub open spec fn full_expr_at(cs: Seq<char>, i: int) -> Option<(GExpr, int)> {
    match dotted_at(cs, i) {
        Some((words, d)) => {
            let (fs, f) = filters_at(cs, d);
            if fs.len() == 0 {
                Some((GExpr::Keyword { words, span: (i, d) }, f))
            } else {
                Some((GExpr::Filtered { words, words_span: (i, d), filters: fs, span: (i, fs.last().end) }, f))
            }
        },
        None => None,
    }
}

/// An expression at `i` between the keyword delimiters, padded inside and
/// out; its span is the whole of it.
pub open spec fn keyword_at(cs: Seq<char>, syn: EngineSyntax, i: int) -> Option<(GExpr, int)> {
    let kl = syn.keyword_left@;
    let kr = syn.keyword_right@;
    let s1 = pad_end(cs, i);
    if has_lit(cs, s1, kl) {
        match full_expr_at(cs, pad_end(cs, s1 + kl.len())) {
            Some((x, b)) => {
                let s3 = pad_end(cs, b);
                if has_lit(cs, s3, kr) {
                    let c = s3 + kr.len();
                    Some((
                        match x {
                            GExpr::Keyword { words, span: _ } => GExpr::Keyword { words, span: (i, c) },
                            GExpr::Filtered { words, words_span, filters, span: _ } => GExpr::Filtered {
                                words,
                                words_span,
                                filters,
                                span: (i, c),
                            },
                            _ => x,
                        },
                        c,
                    ))
                } else {
                    None
                }
            },
            None => None,
        }
    } else {
        None
    }
}

/// A character raw text stops at: the first character of the keyword or
/// of the block opening delimiter.
pub open spec fn is_raw_stop(syn: EngineSyntax, c: char) -> bool {
    (syn.keyword_left@.len() > 0 && c == syn.keyword_left@[0]) || (syn.block_left@.len() > 0 && c
        == syn.block_left@[0])
}

/// The end of the raw text that starts at `i`.
pub open spec fn raw_end(cs: Seq<char>, syn: EngineSyntax, i: int) -> int
    decreases cs.len() - i,
{
    if 0 <= i < cs.len() && !is_raw_stop(syn, cs[i]) {
        raw_end(cs, syn, i + 1)
    } else {
        i
    }
}

/// Raw text at `i`: at least one character, up to a stop character.
pub open spec fn raw_at(cs: Seq<char>, syn: EngineSyntax, i: int) -> Option<(GExpr, int)> {
    let j = raw_end(cs, syn, i);
    if j > i {
        Some((GExpr::Raw { span: (i, j) }, j))
    } else {
        None
    }
}

/// The loop variables after the one that ends at `p` (padding included):
/// each is `,`, padding, a name and padding.
pub open spec fn more_vars(cs: Seq<char>, p: int) -> (Seq<(int, int)>, int)
    decreases cs.len() - p,
{
    if 0 <= p < cs.len() && cs[p] == ',' {
        let r = pad_end(cs, p + 1);
        match ident_end(cs, r) {
            Some(e) => {
                proof {
                    lemma_pad_end(cs, p + 1);
                    lemma_arg_at(cs, r);
                    lemma_pad_end(cs, e);
                }
                let (rest, f) = more_vars(cs, pad_end(cs, e));
                (seq![(r, e)] + rest, f)
            },
            None => (Seq::empty(), p),
        }
    } else {
        (Seq::empty(), p)
    }
}

/// The loop variables at `i`: padded names separated by `,`, at least one.
pub open spec fn vars_at(cs: Seq<char>, i: int) -> Option<(Seq<(int, int)>, int)> {
    let r = pad_end(cs, i);
    match ident_end(cs, r) {
        Some(e) => {
            let (rest, f) = more_vars(cs, pad_end(cs, e));
            Some((seq![(r, e)] + rest, f))
        },
        None => None,
    }
}

/// The end of a loop's closing `<* endfor *>` at `i`.
pub open spec fn for_end_at(cs: Seq<char>, syn: EngineSyntax, i: int) -> Option<int> {
    let bl = syn.block_left@;
    let br = syn.block_right@;
    if has_lit(cs, i, bl) {
        let s = pad_end(cs, i + bl.len());
        if has_lit(cs, s, seq!['e', 'n', 'd', 'f', 'o', 'r']) {
            let t = pad_end(cs, s + 6);
            if has_lit(cs, t, br) {
                Some(t + br.len())
            } else {
                None
            }
        } else {
            None
        }
    } else {
        None
    }
}

pub proof fn lemma_filter_at(cs: Seq<char>, i: int)
    requires
        0 <= i <= cs.len(),
    ensures
        filter_at(cs, i) matches Some((_, e)) ==> i < e <= cs.len(),
{
    lemma_arg_at(cs, i);
    if let Some(n) = ident_end(cs, i) {
        lemma_pad_end(cs, n);
        let q = pad_end(cs, n);
        if q < cs.len() && cs[q] == ':' {
            lemma_pad_end(cs, q + 1);
            lemma_args_at(cs, pad_end(cs, q + 1));
        }
    }
}

pub proof fn lemma_more_args(cs: Seq<char>, p: int)
    requires
        0 <= p <= cs.len(),
    ensures
        p <= more_args(cs, p).1 <= cs.len(),
    decreases cs.len() - p,
{
    let q = pad_end(cs, p);
    lemma_pad_end(cs, p);
    if q < cs.len() && cs[q] == ',' {
        let r = pad_end(cs, q + 1);
        lemma_pad_end(cs, q + 1);
        lemma_arg_at(cs, r);
        if let Some((k, e)) = arg_at(cs, r) {
            lemma_pad_end(cs, e);
            lemma_more_args(cs, pad_end(cs, e));
        }
    }
}

pub proof fn lemma_args_at(cs: Seq<char>, i: int)
    requires
        0 <= i <= cs.len(),
    ensures
        i <= args_at(cs, i).1 <= cs.len(),
{
    let r = pad_end(cs, i);
    lemma_pad_end(cs, i);
    lemma_arg_at(cs, r);
    if let Some((k, e)) = arg_at(cs, r) {
        lemma_pad_end(cs, e);
        lemma_more_args(cs, pad_end(cs, e));
    }
}

pub proof fn lemma_dotted_at(cs: Seq<char>, i: int)
    requires
        0 <= i <= cs.len(),
    ensures
        dotted_at(cs, i) matches Some((_, d)) ==> i < d <= cs.len(),
{
    lemma_arg_at(cs, i);
    if let Some(e) = ident_end(cs, i) {
        lemma_dotted_from(cs, e);
    }
}

pub proof fn lemma_dotted_from(cs: Seq<char>, p: int)
    requires
        0 <= p <= cs.len(),
    ensures
        p <= dotted_from(cs, p).1 <= cs.len(),
    decreases cs.len() - p,
{
    if p < cs.len() && cs[p] == '.' {
        lemma_arg_at(cs, p + 1);
        if let Some(e) = ident_end(cs, p + 1) {
            lemma_dotted_from(cs, e);
        }
    }
}

pub proof fn lemma_more_vars(cs: Seq<char>, p: int)
    requires
        0 <= p <= cs.len(),
    ensures
        p <= more_vars(cs, p).1 <= cs.len(),
    decreases cs.len() - p,
{
    if p < cs.len() && cs[p] == ',' {
        lemma_pad_end(cs, p + 1);
        let r = pad_end(cs, p + 1);
        lemma_arg_at(cs, r);
        if let Some(e) = ident_end(cs, r) {
            lemma_pad_end(cs, e);
            lemma_more_vars(cs, pad_end(cs, e));
        }
    }
}

pub proof fn lemma_vars_at(cs: Seq<char>, i: int)
    requires
        0 <= i <= cs.len(),
    ensures
        vars_at(cs, i) matches Some((_, v)) ==> i < v <= cs.len(),
{
    lemma_pad_end(cs, i);
    let r = pad_end(cs, i);
    lemma_arg_at(cs, r);
    if let Some(e) = ident_end(cs, r) {
        lemma_pad_end(cs, e);
        lemma_more_vars(cs, pad_end(cs, e));
    }
}

/// The loop at `i`: the opening block `<* for vars in a.b *>`, padded, its
/// body and its closing `<* endfor *>`.
pub open spec fn for_at(cs: Seq<char>, syn: EngineSyntax, i: int) -> Option<(GExpr, int)>
    decreases cs.len() - i, 0int,
{
    let bl = syn.block_left@;
    let br = syn.block_right@;
    let s0 = pad_end(cs, i);
    if 0 <= i <= cs.len() && has_lit(cs, s0, bl) {
        let a1 = pad_end(cs, s0 + bl.len());
        if has_lit(cs, a1, seq!['f', 'o', 'r']) {
            match vars_at(cs, a1 + 3) {
                Some((vars, v)) => {
                    let c0 = pad_end(cs, v);
                    if has_lit(cs, c0, seq!['i', 'n']) {
                        let c1 = pad_end(cs, c0 + 2);
                        match dotted_at(cs, c1) {
                            Some((words, d)) => {
                                let d1 = pad_end(cs, d);
                                if has_lit(cs, d1, br) {
                                    let e1 = pad_end(cs, d1 + br.len());
                                    proof {
                                        lemma_pad_end(cs, i);
                                        lemma_pad_end(cs, s0 + bl.len());
                                        lemma_vars_at(cs, a1 + 3);
                                        lemma_pad_end(cs, v);
                                        lemma_pad_end(cs, c0 + 2);
                                        lemma_dotted_at(cs, c1);
                                        lemma_pad_end(cs, d);
                                        lemma_pad_end(cs, d1 + br.len());
                                    }
                                    let (body, f) = items_at(cs, syn, e1);
                                    match for_end_at(cs, syn, f) {
                                        Some(g) => Some((
                                            GExpr::For { vars, words, list_span: (c1, d), body, span: (i, g) },
                                            g,
                                        )),
                                        None => None,
                                    }
                                } else {
                                    None
                                }
                            },
                            None => None,
                        }
                    } else {
                        None
                    }
                },
                None => None,
            }
        } else {
            None
        }
    } else {
        None
    }
}

/// One item at `i`: raw text, else an expression, else a loop.
pub open spec fn item_at(cs: Seq<char>, syn: EngineSyntax, i: int) -> Option<(GExpr, int)>
    decreases cs.len() - i, 1int,
{
    match raw_at(cs, syn, i) {
        Some(r) => Some(r),
        None => match keyword_at(cs, syn, i) {
            Some(k) => Some(k),
            None => for_at(cs, syn, i),
        },
    }
}

/// The items from `i` on, as many as can be read.
pub open spec fn items_at(cs: Seq<char>, syn: EngineSyntax, i: int) -> (Seq<GExpr>, int)
    decreases cs.len() - i, 2int,
{
    match item_at(cs, syn, i) {
        Some((x, j)) => if i < j <= cs.len() {
            let (rest, k) = items_at(cs, syn, j);
            (seq![x] + rest, k)
        } else {
            (Seq::empty(), i)
        },
        None => (Seq::empty(), i),
    }
}

/// The items that the whole of `cs` reads as, if it reads as items to its end.
pub open spec fn template_items(cs: Seq<char>, syn: EngineSyntax) -> Option<Seq<GExpr>> {
    let (xs, e) = items_at(cs, syn, 0);
    if e == cs.len() {
        Some(xs)
    } else {
        None
    }
}

/// A span of the text, by byte offsets.
#[derive(Debug, Clone, Copy, PartialEq, Eq, Structural)]
pub struct Span {
    pub start: usize,
    pub end: usize,
}

/// A filter argument, by its text: a name, the digits of an integer, or a
/// decimal number as `digits.digits`.
#[derive(Debug)]
pub enum ArgValue {
    Ident(String),
    Int(String),
    Float(String),
}

/// A value and the span it was read from.
#[derive(Debug)]
pub struct SpannedValue {
    pub value: ArgValue,
    pub span: Span,
}

/// A template expression.
#[derive(Debug)]
pub enum Expression {
    /// A dotted name, `a.b.c`.
    Keyword { keywords: Vec<String> },
    /// A filter and its arguments, `name: x, 1, 2.5`.
    Filter { name: String, args: Vec<SpannedValue> },
    /// A dotted name and the filters applied to it.
    KeywordWithFilters { keyword: Box<SpannedExpr>, filters: Vec<SpannedExpr> },
    /// A loop: its variables, the dotted name it runs over and its body.
    ForLoop { var: Vec<SpannedValue>, list: Box<SpannedExpr>, body: Vec<SpannedExpr> },
    /// Text outside expressions and loops.
    Raw { value: String },
}

/// An expression and the span it was read from.
#[derive(Debug)]
pub struct SpannedExpr {
    pub expr: Expression,
    pub span: Span,
}

/// The byte offset of the character position `i` of `cs`.
pub open spec fn byte_at(cs: Seq<char>, i: int) -> int {
    utf8_len(cs.take(i))
}

/// `sp` covers the characters from `s` to `e` of `cs`.
pub open spec fn span_is(sp: Span, cs: Seq<char>, s: int, e: int) -> bool {
    sp.start == byte_at(cs, s) && sp.end == byte_at(cs, e)
}

/// `v` is the argument `g` of `cs`: same kind, its text, its span.
pub open spec fn arg_matches(v: SpannedValue, g: GArg, cs: Seq<char>) -> bool {
    &&& span_is(v.span, cs, g.start, g.end)
    &&& match (v.value, g.kind) {
        (ArgValue::Ident(t), ArgKind::Ident) => t@ == cs.subrange(g.start, g.end),
        (ArgValue::Int(t), ArgKind::Int) => t@ == cs.subrange(g.start, g.end),
        (ArgValue::Float(t), ArgKind::Float) => t@ == cs.subrange(g.start, g.end),
        _ => false,
    }
}

/// `ws` are the texts of the spans `g` of `cs`.
pub open spec fn words_match(ws: Seq<String>, g: Seq<(int, int)>, cs: Seq<char>) -> bool {
    &&& ws.len() == g.len()
    &&& forall|k: int| 0 <= k < ws.len() ==> #[trigger] ws[k]@ == cs.subrange(g[k].0, g[k].1)
}

/// `vs` are the names at the spans `g` of `cs`.
pub open spec fn idents_match(vs: Seq<SpannedValue>, g: Seq<(int, int)>, cs: Seq<char>) -> bool {
    &&& vs.len() == g.len()
    &&& forall|k: int|
        0 <= k < vs.len() ==> {
            &&& (#[trigger] vs[k]).value matches ArgValue::Ident(t) && t@ == cs.subrange(g[k].0, g[k].1)
            &&& span_is(vs[k].span, cs, g[k].0, g[k].1)
        }
}

/// `x` is the filter `g` of `cs`.
pub open spec fn filter_matches(x: SpannedExpr, g: GFilter, cs: Seq<char>) -> bool {
    &&& span_is(x.span, cs, g.start, g.end)
    &&& x.expr matches Expression::Filter { name, args } && {
        &&& name@ == cs.subrange(g.name.0, g.name.1)
        &&& args@.len() == g.args.len()
        &&& forall|k: int| 0 <= k < args@.len() ==> #[trigger] arg_matches(args@[k], g.args[k], cs)
    }
}

/// `x` is the dotted name with the spans `words` of `cs`, spanning `s` to `e`.
pub open spec fn keyword_matches(x: SpannedExpr, words: Seq<(int, int)>, s: int, e: int, cs: Seq<char>) -> bool {
    &&& span_is(x.span, cs, s, e)
    &&& x.expr matches Expression::Keyword { keywords } && words_match(keywords@, words, cs)
}

/// `x` is the expression `g` of `cs`.
pub open spec fn expr_matches(x: SpannedExpr, g: GExpr, cs: Seq<char>) -> bool
    decreases g,
{
    match g {
        GExpr::Keyword { words, span } => keyword_matches(x, words, span.0, span.1, cs),
        GExpr::Filtered { words, words_span, filters, span } => {
            &&& span_is(x.span, cs, span.0, span.1)
            &&& x.expr matches Expression::KeywordWithFilters { keyword, filters: fs } && {
                &&& keyword_matches(*keyword, words, words_span.0, words_span.1, cs)
                &&& fs@.len() == filters.len()
                &&& forall|k: int| 0 <= k < fs@.len() ==> #[trigger] filter_matches(fs@[k], filters[k], cs)
            }
        },
        GExpr::For { vars, words, list_span, body, span } => {
            &&& span_is(x.span, cs, span.0, span.1)
            &&& x.expr matches Expression::ForLoop { var, list, body: b } && {
                &&& idents_match(var@, vars, cs)
                &&& keyword_matches(*list, words, list_span.0, list_span.1, cs)
                &&& b@.len() == body.len()
                &&& forall|k: int| #![trigger b@[k]] 0 <= k < b@.len() ==> expr_matches(b@[k], body[k], cs)
            }
        },
        GExpr::Raw { span } => {
            &&& span_is(x.span, cs, span.0, span.1)
            &&& x.expr matches Expression::Raw { value } && value@ == cs.subrange(span.0, span.1)
        },
    }
}

/// `xs` are the expressions `gs` of `cs`, in order.
pub open spec fn exprs_match(xs: Seq<SpannedExpr>, gs: Seq<GExpr>, cs: Seq<char>) -> bool {
    &&& xs.len() == gs.len()
    &&& forall|k: int| #![trigger xs[k]] 0 <= k < xs.len() ==> expr_matches(xs[k], gs[k], cs)
}

/// The characters of the text and the byte offset of each position.
pub struct Text {
    pub cs: Vec<char>,
    pub offs: Vec<usize>,
}

impl Text {
    pub open spec fn wf(&self) -> bool {
        &&& self.offs@.len() == self.cs@.len() + 1
        &&& self.cs@.len() < usize::MAX
        &&& forall|i: int| 0 <= i <= self.cs@.len() ==> #[trigger] self.offs@[i] == byte_at(self.cs@, i)
    }

    /// The characters `cs` with the byte offset of each position.
    pub fn new(cs: Vec<char>) -> (res: Text)
        requires
            utf8_len(cs@) <= usize::MAX,
        ensures
            res.wf(),
            res.cs@ == cs@,
    {
        let ghost t = cs@;
        let mut offs: Vec<usize> = Vec::new();
        offs.push(0);
        let mut total: usize = 0;
        let mut i: usize = 0;
        proof {
            assert(cs@.take(0) =~= Seq::<char>::empty());
        }
        while i < cs.len()
            invariant
                cs@ == t,
                utf8_len(t) <= usize::MAX,
                i <= cs@.len(),
                offs@.len() == i + 1,
                total == byte_at(cs@, i as int),
                forall|j: int| 0 <= j <= i ==> #[trigger] offs@[j] == byte_at(cs@, j),
            decreases cs@.len() - i,
        {
            proof {
                lemma_utf8_len_take(cs@, i as int);
                lemma_utf8_len_prefix(cs@, i as int + 1);
                assert(cs@.take(cs@.len() as int) =~= cs@);
            }
            total = total + char_len_utf8(cs[i]);
            offs.push(total);
            i = i + 1;
        }
        let n_offs = offs.len();
        assert(n_offs == cs@.len() + 1);
        Text { cs, offs }
    }

    fn offset(&self, i: usize) -> (res: usize)
        requires
            self.wf(),
            i <= self.cs@.len(),
        ensures
            res == byte_at(self.cs@, i as int),
    {
        self.offs[i]
    }

    fn span(&self, s: usize, e: usize) -> (res: Span)
        requires
            self.wf(),
            s <= self.cs@.len(),
            e <= self.cs@.len(),
        ensures
            span_is(res, self.cs@, s as int, e as int),
    {
        Span { start: self.offset(s), end: self.offset(e) }
    }

    /// The characters from `s` to `e`.
    fn slice(&self, s: usize, e: usize) -> (res: String)
        requires
            s <= e <= self.cs@.len(),
        ensures
            res@ == self.cs@.subrange(s as int, e as int),
    {
        let mut out = String::new();
        let mut k = s;
        while k < e
            invariant
                s <= k <= e <= self.cs@.len(),
                out@ == self.cs@.subrange(s as int, k as int),
            decreases e - k,
        {
            push_char(&mut out, self.cs[k]);
            proof {
                assert(self.cs@.subrange(s as int, k + 1) =~= self.cs@.subrange(s as int, k as int).push(self.cs@[k as int]));
            }
            k = k + 1;
        }
        out
    }

    fn pad_end(&self, i: usize) -> (res: usize)
        requires
            i <= self.cs@.len(),
        ensures
            res == pad_end(self.cs@, i as int),
    {
        let mut j = i;
        while j < self.cs.len() && pad_char(self.cs[j])
            invariant
                i <= j <= self.cs@.len(),
                pad_end(self.cs@, j as int) == pad_end(self.cs@, i as int),
            decreases self.cs@.len() - j,
        {
            j = j + 1;
        }
        j
    }

    fn has_lit(&self, i: usize, l: &Vec<char>) -> (res: bool)
        requires
            i <= self.cs@.len(),
        ensures
            res == has_lit(self.cs@, i as int, l@),
    {
        let n = self.cs.len();
        if l.len() > n - i {
            return false;
        }
        let mut k: usize = 0;
        while k < l.len()
            invariant
                n == self.cs@.len(),
                i + l@.len() <= self.cs@.len(),
                k <= l@.len(),
                forall|m: int| 0 <= m < k ==> self.cs@[i + m] == l@[m],
            decreases l@.len() - k,
        {
            if self.cs[i + k] != l[k] {
                proof {
                    assert(self.cs@.subrange(i as int, i + l@.len())[k as int] != l@[k as int]);
                }
                return false;
            }
            k = k + 1;
        }
        proof {
            assert(self.cs@.subrange(i as int, i + l@.len()) =~= l@);
        }
        true
    }

    fn ident_end(&self, i: usize) -> (res: Option<usize>)
        requires
            i <= self.cs@.len(),
        ensures
            res matches Some(e) ==> ident_end(self.cs@, i as int) == Some(e as int),
            res is None ==> ident_end(self.cs@, i as int) is None,
    {
        if i >= self.cs.len() || !ident_start_char(self.cs[i]) {
            return None;
        }
        let mut j = i + 1;
        while j < self.cs.len() && ident_continue_char(self.cs[j])
            invariant
                i < j <= self.cs@.len(),
                ident_rest_end(self.cs@, j as int) == ident_rest_end(self.cs@, i + 1),
            decreases self.cs@.len() - j,
        {
            j = j + 1;
        }
        Some(j)
    }

    fn digits_end(&self, i: usize) -> (res: usize)
        requires
            i <= self.cs@.len(),
        ensures
            res == digits_end(self.cs@, i as int),
    {
        let mut j = i;
        while j < self.cs.len() && '0' <= self.cs[j] && self.cs[j] <= '9'
            invariant
                i <= j <= self.cs@.len(),
                digits_end(self.cs@, j as int) == digits_end(self.cs@, i as int),
            decreases self.cs@.len() - j,
        {
            j = j + 1;
        }
        j
    }

    fn int_end(&self, i: usize) -> (res: Option<usize>)
        requires
            i <= self.cs@.len(),
        ensures
            res matches Some(e) ==> int_end(self.cs@, i as int) == Some(e as int),
            res is None ==> int_end(self.cs@, i as int) is None,
    {
        if i < self.cs.len() && '1' <= self.cs[i] && self.cs[i] <= '9' {
            Some(self.digits_end(i + 1))
        } else if i < self.cs.len() && self.cs[i] == '0' {
            Some(i + 1)
        } else {
            None
        }
    }

    fn float_end(&self, i: usize) -> (res: Option<usize>)
        requires
            i <= self.cs@.len(),
        ensures
            res matches Some(e) ==> float_end(self.cs@, i as int) == Some(e as int),
            res is None ==> float_end(self.cs@, i as int) is None,
    {
        proof {
            lemma_arg_at(self.cs@, i as int);
        }
        match self.int_end(i) {
            Some(a) => if a < self.cs.len() && self.cs[a] == '.' {
                self.int_end(a + 1)
            } else {
                None
            },
            None => None,
        }
    }

    /// The padded argument at `i`, and where its padding ends.
    fn arg(&self, i: usize) -> (res: Option<(SpannedValue, usize)>)
        requires
            self.wf(),
            i <= self.cs@.len(),
        ensures
            match arg_at(self.cs@, i as int) {
                Some((k, e)) => res matches Some((v, f)) && arg_matches(v, GArg { kind: k, start: i as int, end: e }, self.cs@)
                    && f == pad_end(self.cs@, e),
                None => res is None,
            },
    {
        proof {
            lemma_arg_at(self.cs@, i as int);
        }
        let (kind, e) = match self.float_end(i) {
            Some(e) => (ArgKind::Float, e),
            None => match self.int_end(i) {
                Some(e) => (ArgKind::Int, e),
                None => match self.ident_end(i) {
                    Some(e) => (ArgKind::Ident, e),
                    None => {
                        return None;
                    },
                },
            },
        };
        let text = self.slice(i, e);
        let value = match kind {
            ArgKind::Float => ArgValue::Float(text),
            ArgKind::Int => ArgValue::Int(text),
            ArgKind::Ident => ArgValue::Ident(text),
        };
        Some((SpannedValue { value, span: self.span(i, e) }, self.pad_end(e)))
    }
}

/// The characters of the four delimiters.
pub struct Delims {
    pub kl: Vec<char>,
    pub kr: Vec<char>,
    pub bl: Vec<char>,
    pub br: Vec<char>,
}

impl Delims {
    pub open spec fn of(&self, syn: &EngineSyntax) -> bool {
        &&& self.kl@ == syn.keyword_left@
        &&& self.kr@ == syn.keyword_right@
        &&& self.bl@ == syn.block_left@
        &&& self.br@ == syn.block_right@
    }

    pub fn new(syn: &EngineSyntax) -> (res: Delims)
        ensures
            res.of(syn),
    {
        Delims {
            kl: chars_of(syn.keyword_left.as_str()),
            kr: chars_of(syn.keyword_right.as_str()),
            bl: chars_of(syn.block_left.as_str()),
            br: chars_of(syn.block_right.as_str()),
        }
    }
}

impl Text {
    /// The padded arguments at `i`, separated by padded commas.
    fn args(&self, i: usize) -> (res: (Vec<SpannedValue>, usize))
        requires
            self.wf(),
            i <= self.cs@.len(),
        ensures
            res.0@.len() == args_at(self.cs@, i as int).0.len(),
            forall|k: int|
                0 <= k < res.0@.len() ==> #[trigger] arg_matches(res.0@[k], args_at(self.cs@, i as int).0[k], self.cs@),
            res.1 == args_at(self.cs@, i as int).1,
    {
        let ghost cs = self.cs@;
        let mut out: Vec<SpannedValue> = Vec::new();
        let r = self.pad_end(i);
        proof {
            lemma_pad_end(cs, i as int);
            lemma_arg_at(cs, r as int);
        }
        let mut p = match self.arg(r) {
            None => {
                return (out, i);
            },
            Some((v, p)) => {
                out.push(v);
                p
            },
        };
        let ghost (k0, e0) = arg_at(cs, r as int)->0;
        let ghost mut done = seq![GArg { kind: k0, start: r as int, end: e0 }];
        proof {
            lemma_pad_end(cs, e0);
            assert(args_at(cs, i as int) == (done + more_args(cs, p as int).0, more_args(cs, p as int).1));
        }
        loop
            invariant
                self.wf(),
                cs == self.cs@,
                p <= cs.len(),
                out@.len() == done.len(),
                forall|k: int| 0 <= k < out@.len() ==> #[trigger] arg_matches(out@[k], done[k], cs),
                args_at(cs, i as int) == (done + more_args(cs, p as int).0, more_args(cs, p as int).1),
            decreases cs.len() - p,
        {
            let q = self.pad_end(p);
            proof {
                lemma_pad_end(cs, p as int);
            }
            if q < self.cs.len() && self.cs[q] == ',' {
                let r2 = self.pad_end(q + 1);
                proof {
                    lemma_pad_end(cs, q + 1);
                    lemma_arg_at(cs, r2 as int);
                }
                match self.arg(r2) {
                    Some((v, p2)) => {
                        let ghost (k2, e2) = arg_at(cs, r2 as int)->0;
                        proof {
                            lemma_pad_end(cs, e2);
                            let g = GArg { kind: k2, start: r2 as int, end: e2 };
                            let rest = more_args(cs, p2 as int);
                            assert(more_args(cs, p as int) == (seq![g] + rest.0, rest.1));
                            assert(done + (seq![g] + rest.0) =~= done.push(g) + rest.0);
                            done = done.push(g);
                        }
                        out.push(v);
                        p = p2;
                    },
                    None => {
                        proof {
                            assert(done + Seq::<GArg>::empty() =~= done);
                        }
                        return (out, p);
                    },
                }
            } else {
                proof {
                    assert(done + Seq::<GArg>::empty() =~= done);
                }
                return (out, p);
            }
        }
    }
}

impl Text {
    /// The filter at `i`.
    fn filter(&self, i: usize) -> (res: Option<(SpannedExpr, usize)>)
        requires
            self.wf(),
            i <= self.cs@.len(),
        ensures
            match filter_at(self.cs@, i as int) {
                Some((g, e)) => res matches Some((x, f)) && filter_matches(x, g, self.cs@) && f == e,
                None => res is None,
            },
    {
        let ghost cs = self.cs@;
        proof {
            lemma_arg_at(cs, i as int);
        }
        let n = match self.ident_end(i) {
            Some(n) => n,
            None => {
                return None;
            },
        };
        let name = self.slice(i, n);
        let q = self.pad_end(n);
        proof {
            lemma_pad_end(cs, n as int);
        }
        if q < self.cs.len() && self.cs[q] == ':' {
            let j = self.pad_end(q + 1);
            proof {
                lemma_pad_end(cs, q + 1);
            }
            let (args, e) = self.args(j);
            proof {
                lemma_args_at(cs, j as int);
            }
            Some((SpannedExpr { expr: Expression::Filter { name, args }, span: self.span(i, e) }, e))
        } else {
            Some((SpannedExpr { expr: Expression::Filter { name, args: Vec::new() }, span: self.span(i, n) }, n))
        }
    }

    /// The filters from `p` on, each after a padded `|`.
    fn filters(&self, p0: usize) -> (res: (Vec<SpannedExpr>, usize))
        requires
            self.wf(),
            p0 <= self.cs@.len(),
        ensures
            res.0@.len() == filters_at(self.cs@, p0 as int).0.len(),
            forall|k: int|
                0 <= k < res.0@.len() ==> #[trigger] filter_matches(res.0@[k], filters_at(self.cs@, p0 as int).0[k], self.cs@),
            res.1 == filters_at(self.cs@, p0 as int).1,
    {
        let ghost cs = self.cs@;
        let mut out: Vec<SpannedExpr> = Vec::new();
        let ghost mut done: Seq<GFilter> = Seq::empty();
        let mut p = p0;
        proof {
            assert(done + filters_at(cs, p as int).0 =~= filters_at(cs, p as int).0);
        }
        loop
            invariant
                self.wf(),
                cs == self.cs@,
                p <= cs.len(),
                out@.len() == done.len(),
                forall|k: int| 0 <= k < out@.len() ==> #[trigger] filter_matches(out@[k], done[k], cs),
                filters_at(cs, p0 as int) == (done + filters_at(cs, p as int).0, filters_at(cs, p as int).1),
            decreases cs.len() - p,
        {
            let q = self.pad_end(p);
            proof {
                lemma_pad_end(cs, p as int);
            }
            if q < self.cs.len() && self.cs[q] == '|' {
                let r = self.pad_end(q + 1);
                proof {
                    lemma_pad_end(cs, q + 1);
                    lemma_filter_at(cs, r as int);
                }
                match self.filter(r) {
                    Some((x, e)) => {
                        let p2 = self.pad_end(e);
                        proof {
                            lemma_pad_end(cs, e as int);
                            let (g, _) = filter_at(cs, r as int)->0;
                            let rest = filters_at(cs, p2 as int);
                            assert(filters_at(cs, p as int) == (seq![g] + rest.0, rest.1));
                            assert(done + (seq![g] + rest.0) =~= done.push(g) + rest.0);
                            done = done.push(g);
                        }
                        out.push(x);
                        p = p2;
                    },
                    None => {
                        proof {
                            assert(done + Seq::<GFilter>::empty() =~= done);
                        }
                        return (out, p);
                    },
                }
            } else {
                proof {
                    assert(done + Seq::<GFilter>::empty() =~= done);
                }
                return (out, p);
            }
        }
    }

    /// The dotted name at `i`.
    fn dotted(&self, i: usize) -> (res: Option<(Vec<String>, usize)>)
        requires
            self.wf(),
            i <= self.cs@.len(),
        ensures
            match dotted_at(self.cs@, i as int) {
                Some((w, d)) => res matches Some((ws, e)) && words_match(ws@, w, self.cs@) && e == d,
                None => res is None,
            },
    {
        let ghost cs = self.cs@;
        proof {
            lemma_arg_at(cs, i as int);
        }
        let e0 = match self.ident_end(i) {
            Some(e) => e,
            None => {
                return None;
            },
        };
        let mut out: Vec<String> = Vec::new();
        out.push(self.slice(i, e0));
        let ghost mut done: Seq<(int, int)> = seq![(i as int, e0 as int)];
        let mut p = e0;
        loop
            invariant
                self.wf(),
                cs == self.cs@,
                p <= cs.len(),
                words_match(out@, done, cs),
                dotted_at(cs, i as int) == Some((done + dotted_from(cs, p as int).0, dotted_from(cs, p as int).1)),
            decreases cs.len() - p,
        {
            if p < self.cs.len() && self.cs[p] == '.' {
                proof {
                    lemma_arg_at(cs, p + 1);
                }
                match self.ident_end(p + 1) {
                    Some(e) => {
                        let w = self.slice(p + 1, e);
                        proof {
                            let rest = dotted_from(cs, e as int);
                            assert(dotted_from(cs, p as int) == (seq![(p + 1, e as int)] + rest.0, rest.1));
                            assert(done + (seq![(p + 1, e as int)] + rest.0) =~= done.push((p + 1, e as int)) + rest.0);
                            done = done.push((p + 1, e as int));
                        }
                        out.push(w);
                        p = e;
                    },
                    None => {
                        proof {
                            assert(done + Seq::<(int, int)>::empty() =~= done);
                        }
                        return Some((out, p));
                    },
                }
            } else {
                proof {
                    assert(done + Seq::<(int, int)>::empty() =~= done);
                }
                return Some((out, p));
            }
        }
    }
}

pub proof fn lemma_filters_at(cs: Seq<char>, p: int)
    requires
        0 <= p <= cs.len(),
    ensures
        p <= filters_at(cs, p).1 <= cs.len(),
    decreases cs.len() - p,
{
    let q = pad_end(cs, p);
    lemma_pad_end(cs, p);
    if q < cs.len() && cs[q] == '|' {
        lemma_pad_end(cs, q + 1);
        let r = pad_end(cs, q + 1);
        lemma_filter_at(cs, r);
        if let Some((f, e)) = filter_at(cs, r) {
            lemma_pad_end(cs, e);
            lemma_filters_at(cs, pad_end(cs, e));
        }
    }
}

pub proof fn lemma_raw_end(cs: Seq<char>, syn: EngineSyntax, i: int)
    requires
        0 <= i <= cs.len(),
    ensures
        i <= raw_end(cs, syn, i) <= cs.len(),
    decreases cs.len() - i,
{
    if i < cs.len() && !is_raw_stop(syn, cs[i]) {
        lemma_raw_end(cs, syn, i + 1);
    }
}

pub proof fn lemma_keyword_at(cs: Seq<char>, syn: EngineSyntax, i: int)
    requires
        0 <= i <= cs.len(),
    ensures
        keyword_at(cs, syn, i) matches Some((_, c)) ==> i < c <= cs.len(),
{
    let kl = syn.keyword_left@;
    lemma_pad_end(cs, i);
    let s1 = pad_end(cs, i);
    if has_lit(cs, s1, kl) {
        lemma_pad_end(cs, s1 + kl.len());
        let s2 = pad_end(cs, s1 + kl.len());
        lemma_dotted_at(cs, s2);
        if let Some((words, d)) = dotted_at(cs, s2) {
            lemma_filters_at(cs, d);
            let b = filters_at(cs, d).1;
            lemma_pad_end(cs, b);
        }
    }
}

pub proof fn lemma_for_close(cs: Seq<char>, syn: EngineSyntax, f: int)
    requires
        0 <= f <= cs.len(),
    ensures
        for_end_at(cs, syn, f) matches Some(g) ==> f < g <= cs.len(),
{
    let bl = syn.block_left@;
    if has_lit(cs, f, bl) {
        lemma_pad_end(cs, f + bl.len());
        let s = pad_end(cs, f + bl.len());
        if has_lit(cs, s, seq!['e', 'n', 'd', 'f', 'o', 'r']) {
            lemma_pad_end(cs, s + 6);
        }
    }
}

/// An item ends after it starts, within the text; so do a loop and a run of items.
pub proof fn lemma_item_end(cs: Seq<char>, syn: EngineSyntax, i: int)
    requires
        0 <= i <= cs.len(),
    ensures
        item_at(cs, syn, i) matches Some((_, j)) ==> i < j <= cs.len(),
    decreases cs.len() - i, 1int,
{
    lemma_raw_end(cs, syn, i);
    lemma_keyword_at(cs, syn, i);
    lemma_for_end(cs, syn, i);
}

pub proof fn lemma_for_end(cs: Seq<char>, syn: EngineSyntax, i: int)
    requires
        0 <= i <= cs.len(),
    ensures
        for_at(cs, syn, i) matches Some((_, g)) ==> i < g <= cs.len(),
    decreases cs.len() - i, 0int,
{
    let bl = syn.block_left@;
    let br = syn.block_right@;
    let s0 = pad_end(cs, i);
    lemma_pad_end(cs, i);
    if has_lit(cs, s0, bl) {
        let a1 = pad_end(cs, s0 + bl.len());
        lemma_pad_end(cs, s0 + bl.len());
        if has_lit(cs, a1, seq!['f', 'o', 'r']) {
            lemma_vars_at(cs, a1 + 3);
            if let Some((vars, v)) = vars_at(cs, a1 + 3) {
                let c0 = pad_end(cs, v);
                lemma_pad_end(cs, v);
                if has_lit(cs, c0, seq!['i', 'n']) {
                    let c1 = pad_end(cs, c0 + 2);
                    lemma_pad_end(cs, c0 + 2);
                    lemma_dotted_at(cs, c1);
                    if let Some((words, d)) = dotted_at(cs, c1) {
                        let d1 = pad_end(cs, d);
                        lemma_pad_end(cs, d);
                        if has_lit(cs, d1, br) {
                            let e1 = pad_end(cs, d1 + br.len());
                            lemma_pad_end(cs, d1 + br.len());
                            lemma_items_end(cs, syn, e1);
                            lemma_for_close(cs, syn, items_at(cs, syn, e1).1);
                        }
                    }
                }
            }
        }
    }
}

pub proof fn lemma_items_end(cs: Seq<char>, syn: EngineSyntax, i: int)
    requires
        0 <= i <= cs.len(),
    ensures
        i <= items_at(cs, syn, i).1 <= cs.len(),
    decreases cs.len() - i, 2int,
{
    lemma_item_end(cs, syn, i);
    if let Some((x, j)) = item_at(cs, syn, i) {
        lemma_items_end(cs, syn, j);
    }
}

impl Text {
    /// The expression between the keyword delimiters at `i`.
    fn keyword(&self, syn: &EngineSyntax, d: &Delims, i: usize) -> (res: Option<(SpannedExpr, usize)>)
        requires
            self.wf(),
            d.of(syn),
            i <= self.cs@.len(),
        ensures
            match keyword_at(self.cs@, *syn, i as int) {
                Some((g, c)) => res matches Some((x, f)) && expr_matches(x, g, self.cs@) && f == c,
                None => res is None,
            },
    {
        let ghost cs = self.cs@;
        let s1 = self.pad_end(i);
        proof {
            lemma_pad_end(cs, i as int);
        }
        if !self.has_lit(s1, &d.kl) {
            return None;
        }
        let s2 = self.pad_end(s1 + d.kl.len());
        proof {
            lemma_pad_end(cs, s1 + d.kl@.len());
            lemma_dotted_at(cs, s2 as int);
        }
        let (words, dend) = match self.dotted(s2) {
            Some(r) => r,
            None => {
                return None;
            },
        };
        let (fs, f) = self.filters(dend);
        proof {
            lemma_filters_at(cs, dend as int);
            lemma_pad_end(cs, f as int);
        }
        let s3 = self.pad_end(f);
        if !self.has_lit(s3, &d.kr) {
            return None;
        }
        let c = s3 + d.kr.len();
        let span = self.span(i, c);
        if fs.len() == 0 {
            Some((SpannedExpr { expr: Expression::Keyword { keywords: words }, span }, c))
        } else {
            let keyword = SpannedExpr { expr: Expression::Keyword { keywords: words }, span: self.span(s2, dend) };
            Some((SpannedExpr { expr: Expression::KeywordWithFilters { keyword: Box::new(keyword), filters: fs }, span }, c))
        }
    }

    /// The raw text at `i`.
    fn raw(&self, syn: &EngineSyntax, d: &Delims, i: usize) -> (res: Option<(SpannedExpr, usize)>)
        requires
            self.wf(),
            d.of(syn),
            i <= self.cs@.len(),
        ensures
            match raw_at(self.cs@, *syn, i as int) {
                Some((g, c)) => res matches Some((x, f)) && expr_matches(x, g, self.cs@) && f == c,
                None => res is None,
            },
    {
        let mut j = i;
        while j < self.cs.len() && !((d.kl.len() > 0 && self.cs[j] == d.kl[0]) || (d.bl.len() > 0 && self.cs[j] == d.bl[0]))
            invariant
                i <= j <= self.cs@.len(),
                d.of(syn),
                raw_end(self.cs@, *syn, j as int) == raw_end(self.cs@, *syn, i as int),
            decreases self.cs@.len() - j,
        {
            j = j + 1;
        }
        if j > i {
            Some((SpannedExpr { expr: Expression::Raw { value: self.slice(i, j) }, span: self.span(i, j) }, j))
        } else {
            None
        }
    }

    /// The loop variables at `i`.
    fn vars(&self, i: usize) -> (res: Option<(Vec<SpannedValue>, usize)>)
        requires
            self.wf(),
            i <= self.cs@.len(),
        ensures
            match vars_at(self.cs@, i as int) {
                Some((g, v)) => res matches Some((xs, f)) && idents_match(xs@, g, self.cs@) && f == v,
                None => res is None,
            },
    {
        let ghost cs = self.cs@;
        let r = self.pad_end(i);
        proof {
            lemma_pad_end(cs, i as int);
            lemma_arg_at(cs, r as int);
        }
        let e = match self.ident_end(r) {
            Some(e) => e,
            None => {
                return None;
            },
        };
        let mut out: Vec<SpannedValue> = Vec::new();
        out.push(SpannedValue { value: ArgValue::Ident(self.slice(r, e)), span: self.span(r, e) });
        let ghost mut done: Seq<(int, int)> = seq![(r as int, e as int)];
        let mut p = self.pad_end(e);
        proof {
            lemma_pad_end(cs, e as int);
        }
        loop
            invariant
                self.wf(),
                cs == self.cs@,
                p <= cs.len(),
                idents_match(out@, done, cs),
                vars_at(cs, i as int) == Some((done + more_vars(cs, p as int).0, more_vars(cs, p as int).1)),
            decreases cs.len() - p,
        {
            if p < self.cs.len() && self.cs[p] == ',' {
                let r2 = self.pad_end(p + 1);
                proof {
                    lemma_pad_end(cs, p + 1);
                    lemma_arg_at(cs, r2 as int);
                }
                match self.ident_end(r2) {
                    Some(e2) => {
                        let v = SpannedValue { value: ArgValue::Ident(self.slice(r2, e2)), span: self.span(r2, e2) };
                        let p2 = self.pad_end(e2);
                        proof {
                            lemma_pad_end(cs, e2 as int);
                            let rest = more_vars(cs, p2 as int);
                            assert(more_vars(cs, p as int) == (seq![(r2 as int, e2 as int)] + rest.0, rest.1));
                            assert(done + (seq![(r2 as int, e2 as int)] + rest.0) =~= done.push((r2 as int, e2 as int))
                                + rest.0);
                            done = done.push((r2 as int, e2 as int));
                        }
                        out.push(v);
                        p = p2;
                    },
                    None => {
                        proof {
                            assert(done + Seq::<(int, int)>::empty() =~= done);
                        }
                        return Some((out, p));
                    },
                }
            } else {
                proof {
                    assert(done + Seq::<(int, int)>::empty() =~= done);
                }
                return Some((out, p));
            }
        }
    }

    /// The end of the closing block `<* endfor *>` at `i`.
    fn for_close(&self, syn: &EngineSyntax, d: &Delims, i: usize) -> (res: Option<usize>)
        requires
            self.wf(),
            d.of(syn),
            i <= self.cs@.len(),
        ensures
            match for_end_at(self.cs@, *syn, i as int) {
                Some(g) => res == Some(g as usize),
                None => res is None,
            },
    {
        let ghost cs = self.cs@;
        if !self.has_lit(i, &d.bl) {
            return None;
        }
        let s = self.pad_end(i + d.bl.len());
        proof {
            lemma_pad_end(cs, i + d.bl@.len());
        }
        let endfor = vec!['e', 'n', 'd', 'f', 'o', 'r'];
        if !self.has_lit(s, &endfor) {
            return None;
        }
        let t = self.pad_end(s + 6);
        proof {
            lemma_pad_end(cs, s + 6);
        }
        if !self.has_lit(t, &d.br) {
            return None;
        }
        Some(t + d.br.len())
    }
}

impl Text {
    /// The loop at `i`.
    fn for_loop(&self, syn: &EngineSyntax, d: &Delims, i: usize) -> (res: Option<(SpannedExpr, usize)>)
        requires
            self.wf(),
            d.of(syn),
            i <= self.cs@.len(),
        ensures
            match for_at(self.cs@, *syn, i as int) {
                Some((g, c)) => res matches Some((x, f)) && expr_matches(x, g, self.cs@) && f == c,
                None => res is None,
            },
        decreases self.cs@.len() - i, 0int,
    {
        let ghost cs = self.cs@;
        let s0 = self.pad_end(i);
        proof {
            lemma_pad_end(cs, i as int);
        }
        if !self.has_lit(s0, &d.bl) {
            return None;
        }
        let a1 = self.pad_end(s0 + d.bl.len());
        proof {
            lemma_pad_end(cs, s0 + d.bl@.len());
        }
        let for_word = vec!['f', 'o', 'r'];
        if !self.has_lit(a1, &for_word) {
            return None;
        }
        proof {
            lemma_vars_at(cs, a1 + 3);
        }
        let (var, v) = match self.vars(a1 + 3) {
            Some(r) => r,
            None => {
                return None;
            },
        };
        let c0 = self.pad_end(v);
        proof {
            lemma_pad_end(cs, v as int);
        }
        let in_word = vec!['i', 'n'];
        if !self.has_lit(c0, &in_word) {
            return None;
        }
        let c1 = self.pad_end(c0 + 2);
        proof {
            lemma_pad_end(cs, c0 + 2);
            lemma_dotted_at(cs, c1 as int);
        }
        let (words, dend) = match self.dotted(c1) {
            Some(r) => r,
            None => {
                return None;
            },
        };
        let d1 = self.pad_end(dend);
        proof {
            lemma_pad_end(cs, dend as int);
        }
        if !self.has_lit(d1, &d.br) {
            return None;
        }
        let e1 = self.pad_end(d1 + d.br.len());
        proof {
            lemma_pad_end(cs, d1 + d.br@.len());
            lemma_items_end(cs, *syn, e1 as int);
        }
        let (body, f) = self.items(syn, d, e1);
        let g = match self.for_close(syn, d, f) {
            Some(g) => g,
            None => {
                return None;
            },
        };
        let list = SpannedExpr { expr: Expression::Keyword { keywords: words }, span: self.span(c1, dend) };
        proof {
            lemma_for_close(cs, *syn, f as int);
        }
        Some((SpannedExpr { expr: Expression::ForLoop { var, list: Box::new(list), body }, span: self.span(i, g) }, g))
    }

    /// The item at `i`: raw text, else an expression, else a loop.
    fn item(&self, syn: &EngineSyntax, d: &Delims, i: usize) -> (res: Option<(SpannedExpr, usize)>)
        requires
            self.wf(),
            d.of(syn),
            i <= self.cs@.len(),
        ensures
            match item_at(self.cs@, *syn, i as int) {
                Some((g, c)) => res matches Some((x, f)) && expr_matches(x, g, self.cs@) && f == c,
                None => res is None,
            },
        decreases self.cs@.len() - i, 1int,
    {
        if let Some(r) = self.raw(syn, d, i) {
            return Some(r);
        }
        if let Some(k) = self.keyword(syn, d, i) {
            return Some(k);
        }
        self.for_loop(syn, d, i)
    }

    /// The items from `i` on, as many as can be read, and where they end.
    fn items(&self, syn: &EngineSyntax, d: &Delims, i: usize) -> (res: (Vec<SpannedExpr>, usize))
        requires
            self.wf(),
            d.of(syn),
            i <= self.cs@.len(),
        ensures
            exprs_match(res.0@, items_at(self.cs@, *syn, i as int).0, self.cs@),
            res.1 == items_at(self.cs@, *syn, i as int).1,
        decreases self.cs@.len() - i, 2int,
    {
        let ghost cs = self.cs@;
        let mut out: Vec<SpannedExpr> = Vec::new();
        let ghost mut done: Seq<GExpr> = Seq::empty();
        let mut p = i;
        proof {
            assert(done + items_at(cs, *syn, p as int).0 =~= items_at(cs, *syn, p as int).0);
        }
        loop
            invariant
                self.wf(),
                d.of(syn),
                cs == self.cs@,
                i <= p <= cs.len(),
                exprs_match(out@, done, cs),
                items_at(cs, *syn, i as int) == (done + items_at(cs, *syn, p as int).0, items_at(cs, *syn, p as int).1),
            decreases cs.len() - p,
        {
            proof {
                lemma_item_end(cs, *syn, p as int);
            }
            match self.item(syn, d, p) {
                Some((x, j)) => {
                    proof {
                        let (g, _) = item_at(cs, *syn, p as int)->0;
                        let rest = items_at(cs, *syn, j as int);
                        assert(items_at(cs, *syn, p as int) == (seq![g] + rest.0, rest.1));
                        assert(done + (seq![g] + rest.0) =~= done.push(g) + rest.0);
                        done = done.push(g);
                    }
                    out.push(x);
                    p = j;
                },
                None => {
                    proof {
                        assert(done + Seq::<GExpr>::empty() =~= done);
                    }
                    return (out, p);
                },
            }
        }
    }
}

/// The end of the whitespace (`char::is_whitespace`) that starts at `i`.
pub open spec fn leading_ws_end(s: Seq<char>, i: int) -> int
    decreases s.len() - i,
{
    if 0 <= i < s.len() && whitespace(s[i]) {
        leading_ws_end(s, i + 1)
    } else {
        i
    }
}

/// `s` without its leading and trailing whitespace, as `str::trim` gives it.
pub open spec fn trimmed(s: Seq<char>) -> Seq<char> {
    let a = leading_ws_end(s, 0);
    let b = trimmed_len(s, s.len() as int);
    if a <= b {
        s.subrange(a, b)
    } else {
        Seq::empty()
    }
}

proof fn lemma_utf8_len_concat(a: Seq<char>, b: Seq<char>)
    ensures
        utf8_len(a + b) == utf8_len(a) + utf8_len(b),
    decreases b.len(),
{
    if b.len() > 0 {
        lemma_utf8_len_concat(a, b.drop_last());
        assert((a + b).drop_last() =~= a + b.drop_last());
        assert((a + b).last() == b.last());
    } else {
        assert(a + b =~= a);
    }
}

proof fn lemma_utf8_len_nonneg(s: Seq<char>)
    ensures
        utf8_len(s) >= 0,
    decreases s.len(),
{
    if s.len() > 0 {
        lemma_utf8_len_nonneg(s.drop_last());
    }
}

/// Reads a template: the text, trimmed, as raw text, `{{ ... }}` expressions
/// and `<* for ... *> ... <* endfor *>` loops to its end, with the
/// delimiters of `syntax`. Nothing is returned where the text does not read
/// so to its end. Spans are byte offsets into the trimmed text.
pub fn parse_template(src: &str, syntax: &EngineSyntax) -> (res: Option<Vec<SpannedExpr>>)
    requires
        src.spec_bytes().len() <= usize::MAX,
    ensures
        match template_items(trimmed(src@), *syntax) {
            Some(gs) => res matches Some(xs) && exprs_match(xs@, gs, trimmed(src@)),
            None => res is None,
        },
{
    let all = chars_of(src);
    let n = all.len();
    let mut a: usize = 0;
    while a < n && is_whitespace(all[a])
        invariant
            all@ == src@,
            n == all@.len(),
            a <= n,
            leading_ws_end(src@, a as int) == leading_ws_end(src@, 0),
        decreases n - a,
    {
        a = a + 1;
    }
    let mut b: usize = n;
    while b > 0 && is_whitespace(all[b - 1])
        invariant
            all@ == src@,
            n == all@.len(),
            b <= n,
            trimmed_len(src@, b as int) == trimmed_len(src@, n as int),
        decreases b,
    {
        b = b - 1;
    }
    let mut cs: Vec<char> = Vec::new();
    if a <= b {
        let mut k = a;
        while k < b
            invariant
                all@ == src@,
                a <= k <= b <= n,
                n == all@.len(),
                cs@ == src@.subrange(a as int, k as int),
            decreases b - k,
        {
            cs.push(all[k]);
            proof {
                assert(src@.subrange(a as int, k + 1) =~= src@.subrange(a as int, k as int).push(src@[k as int]));
            }
            k = k + 1;
        }
    }
    proof {
        assert(cs@ =~= trimmed(src@));
        lemma_utf8_len_encoding(src@);
        if a <= b {
            let s = src@;
            assert(s =~= s.subrange(0, a as int) + s.subrange(a as int, b as int) + s.subrange(b as int, n as int));
            lemma_utf8_len_concat(s.subrange(0, a as int) + s.subrange(a as int, b as int), s.subrange(b as int, n as int));
            lemma_utf8_len_concat(s.subrange(0, a as int), s.subrange(a as int, b as int));
            lemma_utf8_len_nonneg(s.subrange(0, a as int));
            lemma_utf8_len_nonneg(s.subrange(b as int, n as int));
        } else {
            assert(cs@.len() == 0);
        }
    }
    let text = Text::new(cs);
    let syn_chars = Delims::new(syntax);
    let (items, end) = text.items(syntax, &syn_chars, 0);
    if end == text.cs.len() {
        Some(items)
    } else {
        None
    }
}

proof fn lemma_raw_end_plain(cs: Seq<char>, syn: EngineSyntax, i: int)
    requires
        0 <= i <= cs.len(),
        forall|k: int| 0 <= k < cs.len() ==> !is_raw_stop(syn, #[trigger] cs[k]),
    ensures
        raw_end(cs, syn, i) == cs.len(),
    decreases cs.len() - i,
{
    if i < cs.len() {
        lemma_raw_end_plain(cs, syn, i + 1);
    }
}

/// A text in which no delimiter starts reads as one piece of raw text: the whole of it.
pub proof fn lemma_plain_text_is_raw(cs: Seq<char>, syn: EngineSyntax)
    requires
        cs.len() > 0,
        forall|k: int| 0 <= k < cs.len() ==> !is_raw_stop(syn, #[trigger] cs[k]),
    ensures
        template_items(cs, syn) == Some(seq![GExpr::Raw { span: (0, cs.len() as int) }]),
{
    let n = cs.len() as int;
    lemma_raw_end_plain(cs, syn, 0);
    lemma_raw_end_plain(cs, syn, n);
    assert(raw_at(cs, syn, n) is None);
    assert(keyword_at(cs, syn, n) is None);
    assert(for_at(cs, syn, n) is None);
    assert(item_at(cs, syn, n) is None);
    assert(items_at(cs, syn, n) == (Seq::<GExpr>::empty(), n));
    assert(item_at(cs, syn, 0) == Some((GExpr::Raw { span: (0, n) }, n)));
    assert(items_at(cs, syn, 0).0 =~= seq![GExpr::Raw { span: (0, n) }]);
}

} // verus!
