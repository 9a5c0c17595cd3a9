//! The text a parse error is shown with.
use vstd::prelude::*;
use vstd::string::StringExecFns;

use crate::lexer::{char_len, char_len_utf8, lemma_utf8_len_take, push_char, utf8_len, Kind, Token, TokenValue};
use crate::parser::{ParseError, ParseErrorTypes};
use crate::text::chars_of;

verus! {

/// The description of each kind of parse error.
pub open spec fn error_description(t: ParseErrorTypes) -> Seq<char> {
    match t {
        ParseErrorTypes::UnexpectedFilterArgumentToken => "Unexpected character in filter argument"@,
        ParseErrorTypes::UnclosedBracket => "Unclosed bracket"@,
        ParseErrorTypes::DoubleDot => "Double dot"@,
        ParseErrorTypes::DoubleString => "Double string"@,
        ParseErrorTypes::DoubleComma => "Double comma"@,
        ParseErrorTypes::FilterArgumentNotSeparated => "Filter argument not separated by a comma"@,
        ParseErrorTypes::NoFilterArgument => "No filter argument"@,
    }
}

impl ParseErrorTypes {
    /// What the error is, in words.
    pub fn description(&self) -> (res: &'static str)
        ensures
            res@ == error_description(*self),
    {
        match self {
            ParseErrorTypes::UnexpectedFilterArgumentToken => "Unexpected character in filter argument",
            ParseErrorTypes::UnclosedBracket => "Unclosed bracket",
            ParseErrorTypes::DoubleDot => "Double dot",
            ParseErrorTypes::DoubleString => "Double string",
            ParseErrorTypes::DoubleComma => "Double comma",
            ParseErrorTypes::FilterArgumentNotSeparated => "Filter argument not separated by a comma",
            ParseErrorTypes::NoFilterArgument => "No filter argument",
        }
    }
}

/// The decimal digit `d`.
pub open spec fn decimal_digit(d: int) -> char {
    (48 + d) as char
}

/// `n` written in decimal, without leading zeros.
pub open spec fn decimal(n: nat) -> Seq<char>
    decreases n,
{
    if n < 10 {
        seq![decimal_digit(n as int)]
    } else {
        decimal(n / 10).push(decimal_digit((n % 10) as int))
    }
}

/// Appends `n` in decimal to `out`.
fn push_decimal(out: &mut String, n: u64)
    ensures
        final(out)@ == old(out)@ + decimal(n as nat),
    decreases n,
{
    if n >= 10 {
        push_decimal(out, n / 10);
    }
    let d: u8 = (n % 10) as u8;
    push_char(out, (48 + d) as char);
    proof {
        assert(final(out)@ =~= old(out)@ + decimal(n as nat));
    }
}

/// The character position of `cs`, at or after `i`, whose prefix is `k`
/// bytes long in UTF-8: the character that starts at byte `k`, or the end
/// of the text when `k` is its length; none when no character starts there.
pub open spec fn char_at_byte(cs: Seq<char>, i: int, k: int) -> Option<int>
    decreases cs.len() - i,
{
    if i < 0 || i > cs.len() || utf8_len(cs.take(i)) > k {
        None
    } else if utf8_len(cs.take(i)) == k {
        Some(i)
    } else if i == cs.len() {
        None
    } else {
        char_at_byte(cs, i + 1, k)
    }
}

/// The text between the byte offsets `start` and `end` of `cs`, as
/// `str::get(start..end)` gives it; empty where that gives nothing (an offset
/// out of the text or inside a character, or `start` after `end`).
pub open spec fn byte_span(cs: Seq<char>, start: int, end: int) -> Seq<char> {
    match (char_at_byte(cs, 0, start), char_at_byte(cs, 0, end)) {
        (Some(i), Some(j)) => if i <= j {
            cs.subrange(i, j)
        } else {
            Seq::empty()
        },
        _ => Seq::empty(),
    }
}

/// The position of the first `\n` of `cs` at or after `i`, or the end.
pub open spec fn newline_from(cs: Seq<char>, i: int) -> int
    decreases cs.len() - i,
{
    if i < 0 || i >= cs.len() || cs[i] == '\n' {
        i
    } else {
        newline_from(cs, i + 1)
    }
}

/// The line of `cs` from `i` to the line break at `j`: without the `\r` of a
/// `\r\n`; a last line without a line break is kept as it is.
pub open spec fn line_text(cs: Seq<char>, i: int, j: int) -> Seq<char> {
    if j < cs.len() && j > i && cs[j - 1] == '\r' {
        cs.subrange(i, j - 1)
    } else {
        cs.subrange(i, j)
    }
}

/// The lines of `cs` from position `i`, as `str::lines` splits them, each
/// written as `num`, a bar and the line, and a line break.
pub open spec fn numbered_lines(cs: Seq<char>, i: int, num: Seq<char>) -> Seq<char>
    decreases cs.len() - i,
{
    if i < 0 || i >= cs.len() {
        Seq::empty()
    } else {
        let j = newline_from(cs, i);
        let line = num + " \x1b[94m|\x1b[0m "@ + line_text(cs, i, j) + "\n"@;
        if j < cs.len() {
            proof {
                lemma_newline_from(cs, i);
            }
            line + numbered_lines(cs, j + 1, num)
        } else {
            line
        }
    }
}

pub proof fn lemma_newline_from(cs: Seq<char>, i: int)
    requires
        0 <= i <= cs.len(),
    ensures
        i <= newline_from(cs, i) <= cs.len(),
        newline_from(cs, i) < cs.len() ==> cs[newline_from(cs, i)] == '\n',
    decreases cs.len() - i,
{
    if i < cs.len() && cs[i] != '\n' {
        lemma_newline_from(cs, i + 1);
    }
}

/// The text a parse error is shown with: its description, the file name and
/// byte span, the lines of the span numbered with the error's line, and
/// `token_text`, the text of the token the error was found at.
pub open spec fn report_text(e: ParseError, token_text: Seq<char>) -> Seq<char> {
    "\n\u{1b}[2;30;41m ERROR \u{1b}[0m\u{1b}[2;30;47m "@ + error_description(e.err_type) + " \u{1b}[0m\n\x1b[94m-->\x1b[0m "@
        + e.filename@ + ":"@ + decimal(e.start as nat) + ":"@ + decimal(e.end as nat) + "\n"@ + numbered_lines(
        byte_span(e.source@, e.start as int, e.end as int),
        0,
        decimal(e.line_number as nat),
    ) + "\n"@ + token_text + "\n"@
}

/// The character position of `cs` that starts at byte `k`, as `char_at_byte` says.
fn char_index(cs: &Vec<char>, k: usize) -> (res: Option<usize>)
    ensures
        res matches Some(i) ==> i <= cs@.len() && char_at_byte(cs@, 0, k as int) == Some(i as int),
        res is None ==> char_at_byte(cs@, 0, k as int) is None,
{
    let mut off: usize = 0;
    let mut i: usize = 0;
    proof {
        assert(cs@.take(0) =~= Seq::<char>::empty());
    }
    while i < cs.len() && off < k
        invariant
            i <= cs@.len(),
            off <= k,
            off == utf8_len(cs@.take(i as int)),
            char_at_byte(cs@, i as int, k as int) == char_at_byte(cs@, 0, k as int),
        decreases cs@.len() - i,
    {
        let clen = char_len_utf8(cs[i]);
        proof {
            lemma_utf8_len_take(cs@, i as int);
        }
        if clen > k - off {
            proof {
                assert(char_at_byte(cs@, i as int + 1, k as int) is None);
            }
            return None;
        }
        off = off + clen;
        i = i + 1;
    }
    if off == k {
        Some(i)
    } else {
        None
    }
}

/// Appends the lines of `cs` from `i`, numbered with `num`, to `out`.
fn push_numbered_lines(out: &mut String, cs: &Vec<char>, i: usize, num: &str)
    requires
        i <= cs@.len(),
    ensures
        final(out)@ == old(out)@ + numbered_lines(cs@, i as int, num@),
    decreases cs@.len() - i,
{
    if i >= cs.len() {
        proof {
            assert(old(out)@ + Seq::<char>::empty() =~= old(out)@);
        }
        return;
    }
    let mut j: usize = i;
    while j < cs.len() && cs[j] != '\n'
        invariant
            i <= j <= cs@.len(),
            newline_from(cs@, j as int) == newline_from(cs@, i as int),
        decreases cs@.len() - j,
    {
        j = j + 1;
    }
    let mut k: usize = j;
    if j < cs.len() && j > i && cs[j - 1] == '\r' {
        k = j - 1;
    }
    let ghost before = out@;
    out.append(num);
    out.append(" \x1b[94m|\x1b[0m ");
    let mut p: usize = i;
    while p < k
        invariant
            i <= p <= k <= cs@.len(),
            out@ == before + num@ + " \x1b[94m|\x1b[0m "@ + cs@.subrange(i as int, p as int),
        decreases k - p,
    {
        push_char(out, cs[p]);
        proof {
            assert(cs@.subrange(i as int, p + 1) =~= cs@.subrange(i as int, p as int).push(cs@[p as int]));
        }
        p = p + 1;
    }
    out.append("\n");
    proof {
        assert(cs@.subrange(i as int, k as int) =~= line_text(cs@, i as int, j as int));
    }
    if j < cs.len() {
        push_numbered_lines(out, cs, j + 1, num);
        proof {
            assert(out@ =~= old(out)@ + numbered_lines(cs@, i as int, num@));
        }
    } else {
        proof {
            assert(out@ =~= old(out)@ + numbered_lines(cs@, i as int, num@));
        }
    }
}

/// The name of a token kind.
pub open spec fn kind_name(k: Kind) -> Seq<char> {
    match k {
        Kind::String => "String"@,
        Kind::Number => "Number"@,
        Kind::Float => "Float"@,
        Kind::Space => "Space"@,
        Kind::Colon => "Colon"@,
        Kind::NewLine => "NewLine"@,
        Kind::Eof => "Eof"@,
        Kind::Sof => "Sof"@,
        Kind::Identifier => "Identifier"@,
        Kind::LBracket => "LBracket"@,
        Kind::RBracket => "RBracket"@,
        Kind::LessThan => "LessThan"@,
        Kind::GreaterThan => "GreaterThan"@,
        Kind::Asterisk => "Asterisk"@,
        Kind::Bar => "Bar"@,
        Kind::Dot => "Dot"@,
        Kind::Comma => "Comma"@,
    }
}

fn kind_name_of(k: Kind) -> (res: &'static str)
    ensures
        res@ == kind_name(k),
{
    match k {
        Kind::String => "String",
        Kind::Number => "Number",
        Kind::Float => "Float",
        Kind::Space => "Space",
        Kind::Colon => "Colon",
        Kind::NewLine => "NewLine",
        Kind::Eof => "Eof",
        Kind::Sof => "Sof",
        Kind::Identifier => "Identifier",
        Kind::LBracket => "LBracket",
        Kind::RBracket => "RBracket",
        Kind::LessThan => "LessThan",
        Kind::GreaterThan => "GreaterThan",
        Kind::Asterisk => "Asterisk",
        Kind::Bar => "Bar",
        Kind::Dot => "Dot",
        Kind::Comma => "Comma",
    }
}

/// `n` in decimal, with a `-` when it is negative.
pub open spec fn signed_decimal(n: int) -> Seq<char> {
    if n < 0 {
        "-"@ + decimal((-n) as nat)
    } else {
        decimal(n as nat)
    }
}

/// The text of a token value: `None`, `Number(n)`, `String("text")` or
/// `Float(text)`.
pub open spec fn value_shown(v: TokenValue) -> Seq<char> {
    match v {
        TokenValue::NoValue => "None"@,
        TokenValue::Number(n) => "Number("@ + signed_decimal(n as int) + ")"@,
        TokenValue::String(s) => "String(\""@ + s@ + "\")"@,
        TokenValue::Float(s) => "Float("@ + s@ + ")"@,
    }
}

/// The text of a token: `Token { kind: K, start: S, end: E, value: V }`.
pub open spec fn token_shown(t: Token) -> Seq<char> {
    "Token { kind: "@ + kind_name(t.kind) + ", start: "@ + decimal(t.start as nat) + ", end: "@ + decimal(t.end as nat)
        + ", value: "@ + value_shown(t.value) + " }"@
}

/// Writes a token as `token_shown` describes.
pub fn show_token(t: &Token) -> (res: String)
    ensures
        res@ == token_shown(*t),
{
    let mut s = String::new();
    s.append("Token { kind: ");
    s.append(kind_name_of(t.kind));
    s.append(", start: ");
    push_decimal(&mut s, t.start as u64);
    s.append(", end: ");
    push_decimal(&mut s, t.end as u64);
    s.append(", value: ");
    match &t.value {
        TokenValue::NoValue => {
            s.append("None");
        },
        TokenValue::Number(n) => {
            s.append("Number(");
            if *n < 0 {
                s.append("-");
                let m: i64 = -(*n as i64);
                push_decimal(&mut s, m as u64);
            } else {
                push_decimal(&mut s, *n as u64);
            }
            s.append(")");
        },
        TokenValue::String(v) => {
            s.append("String(\"");
            s.append(v.as_str());
            s.append("\")");
        },
        TokenValue::Float(v) => {
            s.append("Float(");
            s.append(v.as_str());
            s.append(")");
        },
    }
    s.append(" }");
    proof {
        assert(s@ =~= token_shown(*t));
    }
    s
}

impl<'a> ParseError<'a> {
    /// The text the error is shown with, the token written as `token_text`.
    pub fn report(&self, token_text: &str) -> (res: String)
        ensures
            res@ == report_text(*self, token_text@),
    {
        let mut s = String::new();
        s.append("\n\u{1b}[2;30;41m ERROR \u{1b}[0m\u{1b}[2;30;47m ");
        s.append(self.err_type.description());
        s.append(" \u{1b}[0m\n\x1b[94m-->\x1b[0m ");
        s.append(self.filename);
        s.append(":");
        push_decimal(&mut s, self.start as u64);
        s.append(":");
        push_decimal(&mut s, self.end as u64);
        s.append("\n");
        let cs = chars_of(self.source);
        let ci = char_index(&cs, self.start);
        let cj = char_index(&cs, self.end);
        let ghost want = byte_span(self.source@, self.start as int, self.end as int);
        let mut span: Vec<char> = Vec::new();
        if let (Some(i), Some(j)) = (ci, cj) {
            if i <= j {
                let mut p: usize = i;
                proof {
                    assert(span@ =~= cs@.subrange(i as int, i as int));
                }
                while p < j
                    invariant
                        i <= p <= j <= cs@.len(),
                        span@ == cs@.subrange(i as int, p as int),
                    decreases j - p,
                {
                    span.push(cs[p]);
                    proof {
                        assert(cs@.subrange(i as int, p + 1) =~= cs@.subrange(i as int, p as int).push(cs@[p as int]));
                    }
                    p = p + 1;
                }
                proof {
                    assert(span@ =~= want);
                }
            } else {
                proof {
                    assert(span@ =~= want);
                }
            }
        } else {
            proof {
                assert(span@ =~= want);
            }
        }
        let mut num = String::new();
        push_decimal(&mut num, self.line_number);
        proof {
            assert(num@ =~= decimal(self.line_number as nat));
        }
        push_numbered_lines(&mut s, &span, 0, num.as_str());
        s.append("\n");
        s.append(token_text);
        s.append("\n");
        proof {
            assert(s@ =~= report_text(*self, token_text@));
        }
        s
    }

    /// The text the error is shown with, the token written as `token_shown` says.
    pub fn to_string(&self) -> (res: String)
        ensures
            res@ == report_text(*self, token_shown(self.cur_token)),
    {
        let t = show_token(&self.cur_token);
        self.report(t.as_str())
    }
}

} // verus!
