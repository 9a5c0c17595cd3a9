//! The tokenizer of the template parser.
use vstd::prelude::*;
use vstd::string::StringSliceAdditionalSpecFns;

verus! {

/// The kind of a token.
#[derive(Debug, PartialEq, Eq, Clone, Copy, Structural)]
pub enum Kind {
    String,
    Number,
    Float,
    Space,
    Colon,
    NewLine,
    Eof,
    Sof,
    Identifier,
    // SPECIAL TOKENS
    LBracket,
    RBracket,
    LessThan,
    GreaterThan,
    Asterisk,
    Bar,
    Dot,
    /// A comma between filter arguments; the lexer reads `,` as an
    /// identifier, so it never yields this kind.
    Comma,
}

/// The value a token carries.
#[derive(Debug)]
pub enum TokenValue {
    NoValue,
    /// The value of a run of digits.
    Number(i32),
    /// The text of a word or of a single other character.
    String(String),
    /// The text of a run of digits and dots, such as `1.5`.
    Float(String),
}

impl Clone for TokenValue {
    fn clone(&self) -> (res: Self)
        ensures
            res == *self,
    {
        match self {
            TokenValue::NoValue => TokenValue::NoValue,
            TokenValue::Number(n) => TokenValue::Number(*n),
            TokenValue::String(s) => TokenValue::String(s.clone()),
            TokenValue::Float(s) => TokenValue::Float(s.clone()),
        }
    }
}

/// A token: its kind, its byte range in the source, and its value.
#[derive(Debug)]
pub struct Token {
    pub kind: Kind,
    pub start: usize,
    pub end: usize,
    pub value: TokenValue,
}

impl Clone for Token {
    fn clone(&self) -> (res: Self)
        ensures
            res == *self,
    {
        Token { kind: self.kind, start: self.start, end: self.end, value: self.value.clone() }
    }
}

/// Whether `c` is alphanumeric, as `char::is_alphanumeric` decides it (the
/// Unicode Alphabetic property or a numeric general category).
pub uninterp spec fn char_is_alphanumeric(c: char) -> bool;

/// An ASCII letter or digit.
pub open spec fn is_ascii_alphanumeric(c: char) -> bool {
    ('a' <= c <= 'z') || ('A' <= c <= 'Z') || ('0' <= c <= '9')
}

/// Whether `c` is alphanumeric: among ASCII characters exactly the letters
/// and the digits, beyond them as `char::is_alphanumeric` decides.
pub open spec fn alphanumeric(c: char) -> bool {
    if (c as u32) < 128 {
        is_ascii_alphanumeric(c)
    } else {
        char_is_alphanumeric(c)
    }
}

/// `char::is_alphanumeric`; among ASCII characters, exactly the letters and
/// the digits are alphanumeric.
#[verifier::external_body]
fn is_alphanumeric(c: char) -> (res: bool)
    ensures
        res == char_is_alphanumeric(c),
        (c as u32) < 128 ==> res == is_ascii_alphanumeric(c),
{
    c.is_alphanumeric()
}

/// `String::push`: appends one character.
#[verifier::external_body]
pub(crate) fn push_char(s: &mut String, c: char)
    ensures
        final(s)@ == old(s)@.push(c),
{
    s.push(c)
}

/// Number of bytes of the UTF-8 encoding of `c`.
pub open spec fn char_len(c: char) -> int {
    let u = c as u32;
    if u < 0x80 {
        1
    } else if u < 0x800 {
        2
    } else if u < 0x10000 {
        3
    } else {
        4
    }
}

/// Number of bytes of the UTF-8 encoding of `s`.
pub open spec fn utf8_len(s: Seq<char>) -> int
    decreases s.len(),
{
    if s.len() == 0 {
        0
    } else {
        utf8_len(s.drop_last()) + char_len(s.last())
    }
}

pub open spec fn is_ascii_digit(c: char) -> bool {
    '0' <= c <= '9'
}

/// Characters that continue a word.
pub open spec fn is_word_char(c: char) -> bool {
    alphanumeric(c) || c == '_'
}

/// End of the run of digits and dots that starts at `q`.
pub open spec fn numeral_end(cs: Seq<char>, q: int) -> int
    decreases cs.len() - q,
{
    if 0 <= q < cs.len() && (is_ascii_digit(cs[q]) || cs[q] == '.') {
        numeral_end(cs, q + 1)
    } else {
        q
    }
}

/// End of the run of word characters that starts at `q`.
pub open spec fn word_end(cs: Seq<char>, q: int) -> int
    decreases cs.len() - q,
{
    if 0 <= q < cs.len() && is_word_char(cs[q]) {
        word_end(cs, q + 1)
    } else {
        q
    }
}

/// Number of dots in `s`.
pub open spec fn count_dots(s: Seq<char>) -> int
    decreases s.len(),
{
    if s.len() == 0 {
        0
    } else {
        count_dots(s.drop_last()) + if s.last() == '.' {
            1int
        } else {
            0
        }
    }
}

/// The decimal value of a run of ASCII digits.
pub open spec fn digits_value(s: Seq<char>) -> int
    decreases s.len(),
{
    if s.len() == 0 {
        0
    } else {
        digits_value(s.drop_last()) * 10 + (s.last() as int - '0' as int)
    }
}

/// The character at `p` starts a line break: a line feed, or a carriage
/// return followed by a line feed (the carriage return alone is the break
/// token, the line feed then makes another).
pub open spec fn newline_at(cs: Seq<char>, p: int) -> bool {
    cs[p] == '\n' || (cs[p] == '\r' && p + 1 < cs.len() && cs[p + 1] == '\n')
}

/// The kind of the token that starts at `p`.
pub open spec fn token_kind(cs: Seq<char>, p: int) -> Kind {
    if p >= cs.len() {
        Kind::Eof
    } else {
        let c = cs[p];
        if c == '{' {
            Kind::LBracket
        } else if c == '}' {
            Kind::RBracket
        } else if c == ':' {
            Kind::Colon
        } else if c == '<' {
            Kind::LessThan
        } else if c == '>' {
            Kind::GreaterThan
        } else if c == '*' {
            Kind::Asterisk
        } else if c == '|' {
            Kind::Bar
        } else if c == '.' {
            Kind::Dot
        } else if c == ' ' {
            Kind::Space
        } else if is_ascii_digit(c) {
            if count_dots(cs.subrange(p, numeral_end(cs, p + 1))) > 0 {
                Kind::Float
            } else {
                Kind::Number
            }
        } else if newline_at(cs, p) {
            Kind::NewLine
        } else if !alphanumeric(c) || c == '_' {
            Kind::Identifier
        } else {
            Kind::String
        }
    }
}

/// The position just after the token that starts at `p`.
pub open spec fn token_end(cs: Seq<char>, p: int) -> int {
    if p >= cs.len() {
        p
    } else {
        match token_kind(cs, p) {
            Kind::Number => numeral_end(cs, p + 1),
            Kind::Float => numeral_end(cs, p + 1),
            Kind::String => word_end(cs, p + 1),
            _ => p + 1,
        }
    }
}

/// The token at `p` is read without a failure: a float has a single dot, a
/// whole number fits an `i32`, a word starts with a one-byte character, and a
/// line break leaves the line counter in range.
pub open spec fn lexes_at(cs: Seq<char>, p: int, line: u64) -> bool {
    let text = cs.subrange(p, token_end(cs, p));
    match token_kind(cs, p) {
        Kind::Float => count_dots(text) == 1,
        Kind::Number => digits_value(text) <= i32::MAX,
        Kind::String => char_len(cs[p]) == 1,
        Kind::NewLine => line < u64::MAX,
        _ => true,
    }
}

/// The value of a token of kind `kind` whose text is `text`.
pub open spec fn value_of(v: TokenValue, kind: Kind, text: Seq<char>) -> bool {
    match kind {
        Kind::Number => v == TokenValue::Number(digits_value(text) as i32),
        Kind::Float => v matches TokenValue::Float(s) && s@ == text,
        Kind::String => v matches TokenValue::String(s) && s@ == text,
        Kind::Identifier => v matches TokenValue::String(s) && s@ == text,
        _ => v == TokenValue::NoValue,
    }
}

proof fn lemma_numeral_end_bounds(cs: Seq<char>, q: int)
    requires
        0 <= q <= cs.len(),
    ensures
        q <= numeral_end(cs, q) <= cs.len(),
    decreases cs.len() - q,
{
    if q < cs.len() && (is_ascii_digit(cs[q]) || cs[q] == '.') {
        lemma_numeral_end_bounds(cs, q + 1);
    }
}

proof fn lemma_word_end_bounds(cs: Seq<char>, q: int)
    requires
        0 <= q <= cs.len(),
    ensures
        q <= word_end(cs, q) <= cs.len(),
    decreases cs.len() - q,
{
    if q < cs.len() && is_word_char(cs[q]) {
        lemma_word_end_bounds(cs, q + 1);
    }
}

/// Every token before the end of the source is made of at least one character
/// and ends within the source; at the end every token is the empty `Eof`.
pub proof fn lemma_token_progress(cs: Seq<char>, p: int)
    requires
        0 <= p,
    ensures
        p < cs.len() ==> p < token_end(cs, p) <= cs.len() && token_kind(cs, p) != Kind::Eof,
        p >= cs.len() ==> token_end(cs, p) == p && token_kind(cs, p) == Kind::Eof,
{
    if p < cs.len() {
        lemma_numeral_end_bounds(cs, p + 1);
        lemma_word_end_bounds(cs, p + 1);
    }
}

/// The byte span of a token is the UTF-8 length of its text.
pub proof fn lemma_token_span(cs: Seq<char>, p: int, q: int)
    requires
        0 <= p <= q <= cs.len(),
    ensures
        utf8_len(cs.take(q)) - utf8_len(cs.take(p)) == utf8_len(cs.subrange(p, q)),
    decreases q - p,
{
    if q > p {
        lemma_token_span(cs, p, q - 1);
        lemma_utf8_len_take(cs, q - 1);
        assert(cs.subrange(p, q) =~= cs.subrange(p, q - 1).push(cs[q - 1]));
        lemma_utf8_len_push(cs.subrange(p, q - 1), cs[q - 1]);
    } else {
        assert(cs.subrange(p, q) =~= Seq::<char>::empty());
    }
}

/// The line count after reading the token at `p` with the count at `line`.
pub open spec fn line_after(cs: Seq<char>, p: int, line: u64) -> u64 {
    if token_kind(cs, p) == Kind::NewLine {
        (line + 1) as u64
    } else {
        line
    }
}

/// Every token from `p` to the end of the source is read without a failure.
pub open spec fn lexes_from(cs: Seq<char>, p: int, line: u64) -> bool
    decreases cs.len() - p,
{
    if p < 0 || p >= cs.len() {
        true
    } else {
        proof {
            lemma_token_progress(cs, p);
        }
        lexes_at(cs, p, line) && lexes_from(cs, token_end(cs, p), line_after(cs, p, line))
    }
}

/// A tokenizer over a source text; it reads one token at a time.
#[derive(Debug)]
pub struct Lexer {
    chars: Vec<char>,
    pos: usize,
    offset: usize,
    pub cur_line: u64,
}

impl Lexer {
    /// The characters of the source.
    pub closed spec fn source(&self) -> Seq<char> {
        self.chars@
    }

    /// How many characters have been read.
    pub closed spec fn position(&self) -> int {
        self.pos as int
    }

    /// A consistent lexer has read no further than the end of its source.
    pub proof fn lemma_position_in_source(&self)
        requires
            self.wf(),
        ensures
            0 <= self.position() <= self.source().len(),
    {
    }

    pub closed spec fn wf(&self) -> bool {
        &&& self.pos <= self.chars@.len()
        &&& self.offset == utf8_len(self.chars@.take(self.pos as int))
        &&& utf8_len(self.chars@) <= usize::MAX
    }

    /// The line counter.
    pub closed spec fn line(&self) -> u64 {
        self.cur_line
    }

    /// The line counter, read from executable code.
    pub fn current_line(&self) -> (res: u64)
        ensures
            res == self.line(),
    {
        self.cur_line
    }

    /// The token at the current position is read without a failure.
    pub open spec fn can_read(&self) -> bool {
        lexes_at(self.source(), self.position(), self.line())
    }

    /// Every token from the current position to the end is read without a failure.
    pub open spec fn reads_cleanly(&self) -> bool {
        lexes_from(self.source(), self.position(), self.line())
    }
}


proof fn lemma_utf8_len_push(s: Seq<char>, c: char)
    ensures
        utf8_len(s.push(c)) == utf8_len(s) + char_len(c),
{
    assert(s.push(c).drop_last() =~= s);
}

pub proof fn lemma_utf8_len_take(cs: Seq<char>, k: int)
    requires
        0 <= k < cs.len(),
    ensures
        utf8_len(cs.take(k + 1)) == utf8_len(cs.take(k)) + char_len(cs[k]),
{
    assert(cs.take(k + 1) =~= cs.take(k).push(cs[k]));
    lemma_utf8_len_push(cs.take(k), cs[k]);
}

pub proof fn lemma_utf8_len_prefix(cs: Seq<char>, k: int)
    requires
        0 <= k <= cs.len(),
    ensures
        0 <= utf8_len(cs.take(k)) <= utf8_len(cs),
    decreases cs.len(),
{
    if k < cs.len() {
        lemma_utf8_len_prefix(cs.drop_last(), k);
        assert(cs.drop_last().take(k) =~= cs.take(k));
    } else {
        assert(cs.take(k) =~= cs);
        lemma_utf8_len_nonneg(cs);
    }
}

proof fn lemma_utf8_len_nonneg(cs: Seq<char>)
    ensures
        0 <= utf8_len(cs),
    decreases cs.len(),
{
    if cs.len() > 0 {
        lemma_utf8_len_nonneg(cs.drop_last());
    }
}

proof fn lemma_char_len_encoding(c: char)
    ensures
        vstd::utf8::encode_scalar(c as u32).len() == char_len(c),
{
    broadcast use vstd::utf8::char_is_scalar;
    assert(vstd::utf8::is_scalar(c as u32));
}

proof fn lemma_utf8_len_first(cs: Seq<char>)
    requires
        cs.len() > 0,
    ensures
        utf8_len(cs) == char_len(cs[0]) + utf8_len(cs.drop_first()),
    decreases cs.len(),
{
    if cs.len() > 1 {
        lemma_utf8_len_first(cs.drop_last());
        assert(cs.drop_last().drop_first() =~= cs.drop_first().drop_last());
        assert(cs.drop_last()[0] == cs[0]);
        assert(cs.drop_first().last() == cs.last());
        assert(utf8_len(cs.drop_first()) == utf8_len(cs.drop_first().drop_last()) + char_len(cs.drop_first().last()));
        assert(utf8_len(cs) == utf8_len(cs.drop_last()) + char_len(cs.last()));
    } else {
        assert(cs.drop_first() =~= Seq::<char>::empty());
        assert(cs.drop_last() =~= Seq::<char>::empty());
        assert(utf8_len(cs) == utf8_len(cs.drop_last()) + char_len(cs.last()));
    }
}

/// The UTF-8 encoding of `cs` has `utf8_len(cs)` bytes.
pub proof fn lemma_utf8_len_encoding(cs: Seq<char>)
    ensures
        vstd::utf8::encode_utf8(cs).len() == utf8_len(cs),
    decreases cs.len(),
{
    if cs.len() > 0 {
        lemma_utf8_len_encoding(cs.drop_first());
        lemma_utf8_len_first(cs);
        lemma_char_len_encoding(cs[0]);
    }
}

proof fn lemma_count_dots_nonneg(s: Seq<char>)
    ensures
        0 <= count_dots(s),
    decreases s.len(),
{
    if s.len() > 0 {
        lemma_count_dots_nonneg(s.drop_last());
    }
}

proof fn lemma_no_dots(s: Seq<char>)
    requires
        count_dots(s) == 0,
    ensures
        forall|i: int| 0 <= i < s.len() ==> #[trigger] s[i] != '.',
    decreases s.len(),
{
    if s.len() > 0 {
        lemma_count_dots_nonneg(s.drop_last());
        lemma_no_dots(s.drop_last());
        assert forall|i: int| 0 <= i < s.len() implies #[trigger] s[i] != '.' by {
            if i < s.len() - 1 {
                assert(s.drop_last()[i] == s[i]);
            }
        }
    }
}

proof fn lemma_digits_prefix(s: Seq<char>, k: int)
    requires
        0 <= k <= s.len(),
        forall|i: int| 0 <= i < s.len() ==> #[trigger] is_ascii_digit(s[i]),
    ensures
        0 <= digits_value(s.take(k)) <= digits_value(s),
    decreases s.len(),
{
    if k < s.len() {
        lemma_digits_prefix(s.drop_last(), k);
        assert(s.drop_last().take(k) =~= s.take(k));
        assert(is_ascii_digit(s.last()));
    } else {
        assert(s.take(k) =~= s);
        if s.len() > 0 {
            lemma_digits_prefix(s.drop_last(), s.len() - 1);
            assert(s.drop_last().take(s.len() - 1) =~= s.drop_last());
            assert(is_ascii_digit(s.last()));
        }
    }
}

impl Lexer {
    /// A lexer at the start of `input`, on line zero.
    pub fn new(input: &str) -> (res: Self)
        requires
            input.spec_bytes().len() <= usize::MAX,
        ensures
            res.wf(),
            res.source() == input@,
            res.position() == 0,
            res.line() == 0,
    {
        let mut chars: Vec<char> = Vec::new();
        for c in iter: input.chars()
            invariant
                chars@ == iter.seq().take(iter.index()),
        {
            chars.push(c);
            proof {
                assert(iter.seq().take(iter.index() + 1) =~= iter.seq().take(iter.index()).push(c));
            }
        }
        proof {
            assert(chars@ =~= input@);
            lemma_utf8_len_encoding(input@);
            assert(chars@.take(0) =~= Seq::<char>::empty());
        }
        Lexer { chars, pos: 0, offset: 0, cur_line: 0 }
    }

    /// Number of bytes of the source read so far.
    fn offset(&self) -> (res: usize)
        requires
            self.wf(),
        ensures
            res == utf8_len(self.source().take(self.position())),
    {
        self.offset
    }

    /// The token that stands before the first token of the source.
    pub fn start(&self) -> (res: Token)
        ensures
            res.kind == Kind::Sof,
            res.start == 0,
            res.end == 0,
            res.value == TokenValue::NoValue,
    {
        Token { kind: Kind::Sof, start: 0, end: 0, value: TokenValue::NoValue }
    }

    /// The next character, without reading it.
    pub fn peek(&self) -> (res: Option<char>)
        requires
            self.wf(),
        ensures
            res == if self.position() < self.source().len() {
                Some(self.source()[self.position()])
            } else {
                None::<char>
            },
    {
        if self.pos < self.chars.len() {
            Some(self.chars[self.pos])
        } else {
            None
        }
    }

    /// Reads one character.
    fn bump_char(&mut self) -> (c: char)
        requires
            old(self).wf(),
            old(self).position() < old(self).source().len(),
        ensures
            final(self).wf(),
            c == old(self).source()[old(self).position()],
            final(self).source() == old(self).source(),
            final(self).position() == old(self).position() + 1,
            final(self).line() == old(self).line(),
    {
        let n = self.chars.len();
        let c = self.chars[self.pos];
        proof {
            lemma_utf8_len_take(self.chars@, self.pos as int);
            lemma_utf8_len_prefix(self.chars@, self.pos + 1);
        }
        self.offset = self.offset + char_len_utf8(c);
        self.pos = self.pos + 1;
        c
    }

    /// Reads the next token.
    pub fn next_token(&mut self) -> (token: Token)
        requires
            old(self).wf(),
            old(self).can_read(),
        ensures
            final(self).wf(),
            final(self).source() == old(self).source(),
            final(self).position() == token_end(old(self).source(), old(self).position()),
            token.kind == token_kind(old(self).source(), old(self).position()),
            token.start == utf8_len(old(self).source().take(old(self).position())),
            token.end == utf8_len(old(self).source().take(final(self).position())),
            value_of(
                token.value,
                token.kind,
                old(self).source().subrange(old(self).position(), final(self).position()),
            ),
            final(self).line() == if token.kind == Kind::NewLine {
                old(self).line() + 1
            } else {
                old(self).line() as int
            },
            old(self).reads_cleanly() ==> final(self).reads_cleanly(),
    {
        proof {
            lemma_token_progress(self.chars@, self.pos as int);
        }
        let start = self.offset();
        let (kind, value) = self.read_next_kind();
        let end = self.offset();
        Token { kind, start, end, value }
    }

    fn read_next_kind(&mut self) -> (res: (Kind, TokenValue))
        requires
            old(self).wf(),
            old(self).can_read(),
        ensures
            final(self).wf(),
            final(self).source() == old(self).source(),
            final(self).position() == token_end(old(self).source(), old(self).position()),
            res.0 == token_kind(old(self).source(), old(self).position()),
            value_of(
                res.1,
                res.0,
                old(self).source().subrange(old(self).position(), final(self).position()),
            ),
            final(self).line() == if res.0 == Kind::NewLine {
                old(self).line() + 1
            } else {
                old(self).line() as int
            },
    {
        let ghost cs = self.chars@;
        let ghost p = self.pos as int;
        if self.pos >= self.chars.len() {
            return (Kind::Eof, TokenValue::NoValue);
        }
        let first = self.pos;
        let c = self.bump_char();
        if c == '{' {
            (Kind::LBracket, TokenValue::NoValue)
        } else if c == '}' {
            (Kind::RBracket, TokenValue::NoValue)
        } else if c == ':' {
            (Kind::Colon, TokenValue::NoValue)
        } else if c == '<' {
            (Kind::LessThan, TokenValue::NoValue)
        } else if c == '>' {
            (Kind::GreaterThan, TokenValue::NoValue)
        } else if c == '*' {
            (Kind::Asterisk, TokenValue::NoValue)
        } else if c == '|' {
            (Kind::Bar, TokenValue::NoValue)
        } else if c == '.' {
            (Kind::Dot, TokenValue::NoValue)
        } else if c == ' ' {
            (Kind::Space, TokenValue::NoValue)
        } else if '0' <= c && c <= '9' {
            let mut text = String::new();
            push_char(&mut text, c);
            let mut is_float = false;
            proof {
                assert(cs.subrange(p, p + 1) =~= seq![c]);
                assert(count_dots(seq![c]) == count_dots(Seq::<char>::empty()) + 0) by {
                    assert(seq![c].drop_last() =~= Seq::<char>::empty());
                }
            }
            while self.pos < self.chars.len()
                invariant_except_break
                    self.wf(),
                    self.chars@ == cs,
                    self.line() == old(self).line(),
                    0 <= p,
                    p + 1 <= self.pos <= cs.len(),
                    numeral_end(cs, self.pos as int) == numeral_end(cs, p + 1),
                    text@ == cs.subrange(p, self.pos as int),
                    is_float == (count_dots(cs.subrange(p, self.pos as int)) > 0),
                    forall|i: int| p <= i < self.pos ==> #[trigger] is_ascii_digit(cs[i]) || cs[i] == '.',
                ensures
                    self.wf(),
                    self.chars@ == cs,
                    self.line() == old(self).line(),
                    0 <= p,
                    p + 1 <= self.pos <= cs.len(),
                    self.pos == numeral_end(cs, p + 1),
                    text@ == cs.subrange(p, self.pos as int),
                    is_float == (count_dots(cs.subrange(p, self.pos as int)) > 0),
                    forall|i: int| p <= i < self.pos ==> #[trigger] is_ascii_digit(cs[i]) || cs[i] == '.',
                decreases cs.len() - self.pos,
            {
                let next = self.chars[self.pos];
                if next == '.' || ('0' <= next && next <= '9') {
                    let ghost q = self.pos as int;
                    proof {
                        assert(next == cs[q]);
                        assert(cs.subrange(p, q + 1) =~= cs.subrange(p, q).push(next));
                        assert(cs.subrange(p, q + 1).drop_last() =~= cs.subrange(p, q));
                        assert(count_dots(cs.subrange(p, q + 1)) == count_dots(cs.subrange(p, q)) + if next == '.' {
                            1int
                        } else {
                            0
                        });
                        lemma_count_dots_nonneg(cs.subrange(p, q));
                    }
                    if next == '.' {
                        is_float = true;
                    }
                    push_char(&mut text, next);
                    self.bump_char();
                } else {
                    break;
                }
            }
            let ghost q = self.pos as int;
            let ghost lexeme = cs.subrange(p, q);
            if is_float {
                (Kind::Float, TokenValue::Float(text))
            } else {
                proof {
                    lemma_count_dots_nonneg(lexeme);
                    lemma_no_dots(lexeme);
                    assert forall|i: int| first <= i < self.pos implies #[trigger] is_ascii_digit(self.source()[i]) by {
                        assert(lexeme[i - p] == cs[i]);
                    }
                }
                let value = self.digits_value_between(first, self.pos);
                (Kind::Number, TokenValue::Number(value))
            }
        } else if (c == '\r' && self.peek() == Some('\n')) || c == '\n' {
            self.cur_line = self.cur_line + 1;
            (Kind::NewLine, TokenValue::NoValue)
        } else if !is_alphanumeric(c) || c == '_' {
            let mut text = String::new();
            push_char(&mut text, c);
            proof {
                assert(cs.subrange(p, p + 1) =~= seq![c]);
                assert(text@ =~= seq![c]);
            }
            (Kind::Identifier, TokenValue::String(text))
        } else {
            let mut text = String::new();
            push_char(&mut text, c);
            proof {
                assert(cs.subrange(p, p + 1) =~= Seq::<char>::empty().push(c));
            }
            while self.pos < self.chars.len()
                invariant_except_break
                    self.wf(),
                    self.chars@ == cs,
                    self.line() == old(self).line(),
                    0 <= p,
                    p + 1 <= self.pos <= cs.len(),
                    word_end(cs, self.pos as int) == word_end(cs, p + 1),
                    text@ == cs.subrange(p, self.pos as int),
                ensures
                    self.wf(),
                    self.chars@ == cs,
                    self.line() == old(self).line(),
                    0 <= p,
                    p + 1 <= self.pos <= cs.len(),
                    self.pos == word_end(cs, p + 1),
                    text@ == cs.subrange(p, self.pos as int),
                decreases cs.len() - self.pos,
            {
                let next = self.chars[self.pos];
                if is_alphanumeric(next) || next == '_' {
                    let ghost q = self.pos as int;
                    proof {
                        assert(next == cs[q]);
                        assert(cs.subrange(p, q + 1) =~= cs.subrange(p, q).push(next));
                    }
                    push_char(&mut text, next);
                    self.bump_char();
                } else {
                    break;
                }
            }
            (Kind::String, TokenValue::String(text))
        }
    }

    /// The decimal value of the digits between `from` and `to`.
    fn digits_value_between(&self, from: usize, to: usize) -> (res: i32)
        requires
            self.wf(),
            from <= to <= self.source().len(),
            forall|i: int| from <= i < to ==> #[trigger] is_ascii_digit(self.source()[i]),
            digits_value(self.source().subrange(from as int, to as int)) <= i32::MAX,
        ensures
            res == digits_value(self.source().subrange(from as int, to as int)),
    {
        let ghost all = self.chars@.subrange(from as int, to as int);
        let mut value: i32 = 0;
        let mut i: usize = from;
        proof {
            assert(all.take(0) =~= Seq::<char>::empty());
        }
        while i < to
            invariant
                from <= i <= to,
                to <= self.chars@.len(),
                all == self.chars@.subrange(from as int, to as int),
                forall|j: int| 0 <= j < all.len() ==> #[trigger] is_ascii_digit(all[j]),
                digits_value(all) <= i32::MAX,
                value == digits_value(all.take(i - from)),
            decreases to - i,
        {
            let c = self.chars[i];
            proof {
                assert(all[i - from] == c);
                assert(is_ascii_digit(all[i - from]));
                lemma_digits_prefix(all, i - from + 1);
                assert(all.take(i - from + 1).drop_last() =~= all.take(i - from));
                assert(all.take(i - from + 1).last() == c);
            }
            let d = ((c as u32) - ('0' as u32)) as i32;
            value = value * 10 + d;
            i = i + 1;
        }
        proof {
            assert(all.take(to - from) =~= all);
        }
        value
    }
}

/// Number of bytes of the UTF-8 encoding of `c` (as `char::len_utf8`).
pub(crate) fn char_len_utf8(c: char) -> (res: usize)
    ensures
        res == char_len(c),
{
    let u = c as u32;
    if u < 0x80 {
        1
    } else if u < 0x800 {
        2
    } else if u < 0x10000 {
        3
    } else {
        4
    }
}

/// The start positions of the tokens read from `p` to the end of the source.
pub open spec fn token_starts(cs: Seq<char>, p: int) -> Seq<int>
    decreases cs.len() - p,
{
    if p < 0 || p >= cs.len() {
        Seq::empty()
    } else {
        proof {
            lemma_token_progress(cs, p);
        }
        seq![p] + token_starts(cs, token_end(cs, p))
    }
}

/// Reading tokens from `p` covers the rest of the source: the first token
/// starts at `p`, each next one starts where the one before ends, each is
/// at least one character long and is not the end, and the last ends at the
/// end of the source, after at most as many tokens as characters. At the
/// end of the source, the token is the empty end token, again and again.
pub proof fn lemma_tokens_cover(cs: Seq<char>, p: int)
    requires
        0 <= p <= cs.len(),
    ensures
        token_starts(cs, p).len() <= cs.len() - p,
        token_starts(cs, p).len() == 0 <==> p == cs.len(),
        token_starts(cs, p).len() > 0 ==> token_starts(cs, p)[0] == p,
        forall|i: int|
            0 <= i < token_starts(cs, p).len() ==> p <= #[trigger] token_starts(cs, p)[i] < token_end(
                cs,
                token_starts(cs, p)[i],
            ) <= cs.len() && token_kind(cs, token_starts(cs, p)[i]) != Kind::Eof,
        forall|i: int|
            0 <= i < token_starts(cs, p).len() - 1 ==> #[trigger] token_starts(cs, p)[i + 1] == token_end(
                cs,
                token_starts(cs, p)[i],
            ),
        token_starts(cs, p).len() > 0 ==> token_end(cs, token_starts(cs, p).last()) == cs.len(),
        token_kind(cs, cs.len() as int) == Kind::Eof,
        token_end(cs, cs.len() as int) == cs.len(),
    decreases cs.len() - p,
{
    lemma_token_progress(cs, p);
    lemma_token_progress(cs, cs.len() as int);
    if p < cs.len() {
        let e = token_end(cs, p);
        lemma_tokens_cover(cs, e);
        let ts = token_starts(cs, p);
        let rest = token_starts(cs, e);
        assert(ts == seq![p] + rest);
        assert forall|i: int| 0 <= i < ts.len() implies p <= #[trigger] ts[i] < token_end(cs, ts[i]) <= cs.len()
            && token_kind(cs, ts[i]) != Kind::Eof by {
            if i > 0 {
                assert(ts[i] == rest[i - 1]);
            }
        }
        assert forall|i: int| 0 <= i < ts.len() - 1 implies #[trigger] ts[i + 1] == token_end(cs, ts[i]) by {
            assert(ts[i + 1] == rest[i]);
            if i > 0 {
                assert(ts[i] == rest[i - 1]);
                assert(rest[(i - 1) + 1] == token_end(cs, rest[i - 1]));
            }
        }
        if rest.len() > 0 {
            assert(ts.last() == rest.last());
        }
    }
}

/// The number of line-break tokens read from `p` to the end of the source:
/// the amount the lexer's line count goes up by.
pub open spec fn newline_tokens(cs: Seq<char>, p: int) -> int
    decreases cs.len() - p,
{
    if p < 0 || p >= cs.len() {
        0
    } else {
        proof {
            lemma_token_progress(cs, p);
        }
        (if token_kind(cs, p) == Kind::NewLine {
            1int
        } else {
            0int
        }) + newline_tokens(cs, token_end(cs, p))
    }
}

/// The number of times `c` occurs in `s`.
pub open spec fn count_char(s: Seq<char>, c: char) -> int
    decreases s.len(),
{
    if s.len() == 0 {
        0
    } else {
        (if s[0] == c {
            1int
        } else {
            0int
        }) + count_char(s.drop_first(), c)
    }
}

proof fn lemma_count_char_concat(a: Seq<char>, b: Seq<char>, c: char)
    ensures
        count_char(a + b, c) == count_char(a, c) + count_char(b, c),
    decreases a.len(),
{
    if a.len() > 0 {
        assert((a + b).drop_first() =~= a.drop_first() + b);
        lemma_count_char_concat(a.drop_first(), b, c);
    } else {
        assert(a + b =~= b);
    }
}

proof fn lemma_count_char_none(s: Seq<char>, c: char)
    requires
        forall|i: int| 0 <= i < s.len() ==> s[i] != c,
    ensures
        count_char(s, c) == 0,
    decreases s.len(),
{
    if s.len() > 0 {
        lemma_count_char_none(s.drop_first(), c);
    }
}

proof fn lemma_numeral_chars(cs: Seq<char>, q: int)
    requires
        0 <= q <= cs.len(),
    ensures
        forall|k: int| q <= k < numeral_end(cs, q) ==> is_ascii_digit(#[trigger] cs[k]) || cs[k] == '.',
    decreases cs.len() - q,
{
    if q < cs.len() && (is_ascii_digit(cs[q]) || cs[q] == '.') {
        lemma_numeral_chars(cs, q + 1);
    }
}

proof fn lemma_word_chars(cs: Seq<char>, q: int)
    requires
        0 <= q <= cs.len(),
    ensures
        forall|k: int| q <= k < word_end(cs, q) ==> is_word_char(#[trigger] cs[k]),
    decreases cs.len() - q,
{
    if q < cs.len() && is_word_char(cs[q]) {
        lemma_word_chars(cs, q + 1);
    }
}

/// In a source without carriage returns, the lexer reads one line-break
/// token for each `\n`: its line count goes up by the number of `\n`.
pub proof fn lemma_newline_tokens(cs: Seq<char>, p: int)
    requires
        0 <= p <= cs.len(),
        forall|i: int| 0 <= i < cs.len() ==> cs[i] != '\r',
    ensures
        newline_tokens(cs, p) == count_char(cs.subrange(p, cs.len() as int), '\n'),
    decreases cs.len() - p,
{
    if p >= cs.len() {
        assert(cs.subrange(p, cs.len() as int) =~= Seq::<char>::empty());
    } else {
        lemma_token_progress(cs, p);
        lemma_numeral_end_bounds(cs, p + 1);
        lemma_word_end_bounds(cs, p + 1);
        let e = token_end(cs, p);
        lemma_newline_tokens(cs, e);
        assert(cs.subrange(p, cs.len() as int) =~= cs.subrange(p, e) + cs.subrange(e, cs.len() as int));
        lemma_count_char_concat(cs.subrange(p, e), cs.subrange(e, cs.len() as int), '\n');
        let t = cs.subrange(p, e);
        assert(t.drop_first() =~= cs.subrange(p + 1, e));
        assert(count_char(t, '\n') == (if t[0] == '\n' { 1int } else { 0int }) + count_char(t.drop_first(), '\n'));
        if cs[p] == '\n' {
            assert(token_kind(cs, p) == Kind::NewLine);
            assert(e == p + 1);
            assert(cs.subrange(p + 1, e) =~= Seq::<char>::empty());
            assert(t[0] == '\n');
        } else {
            lemma_numeral_chars(cs, p + 1);
            lemma_word_chars(cs, p + 1);
            let mid = cs.subrange(p + 1, e);
            let k = token_kind(cs, p);
            assert(k != Kind::NewLine);
            assert forall|i: int| 0 <= i < mid.len() implies #[trigger] mid[i] != '\n' by {
                assert(mid[i] == cs[p + 1 + i]);
                if k == Kind::Number || k == Kind::Float {
                    assert(is_ascii_digit(cs[p + 1 + i]) || cs[p + 1 + i] == '.');
                } else if k == Kind::String {
                    assert(is_word_char(cs[p + 1 + i]));
                } else {
                    assert(e == p + 1);
                }
            }
            lemma_count_char_none(mid, '\n');
            assert(t[0] == cs[p]);
        }
    }
}

} // verus!
