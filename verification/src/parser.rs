//! The parser's cursor over the token stream, its syntax settings, nodes and errors.
use vstd::prelude::*;
use vstd::string::StringSliceAdditionalSpecFns;

use crate::lexer::{
    Kind, Lexer, Token, TokenValue, line_after, lexes_from, lemma_token_progress, token_end,
    token_kind, utf8_len, value_of,
};

verus! {

/// A span of the source, by byte offsets.
#[derive(Debug, Default, Clone, Copy, PartialEq, Eq)]
pub struct Node {
    /// Start offset in source
    pub start: usize,
    /// End offset in source
    pub end: usize,
}

impl Node {
    pub fn new(start: usize, end: usize) -> (res: Self)
        ensures
            res.start == start,
            res.end == end,
    {
        Self { start, end }
    }
}

/// A pair of token kinds that opens or closes a construct.
pub type Delimeter = [Kind; 2];

/// The delimiters of keywords and of functions.
#[derive(Debug)]
pub struct SyntaxSettings {
    pub keyword_opening: Delimeter,
    pub keyword_closing: Delimeter,
    pub function_opening: Delimeter,
    pub function_closing: Delimeter,
}

/// The token kind a delimiter character stands for.
pub open spec fn kind_of_char(c: char) -> Kind {
    if c == '{' {
        Kind::LBracket
    } else if c == '}' {
        Kind::RBracket
    } else if c == '.' {
        Kind::Dot
    } else if c == '|' {
        Kind::Bar
    } else if c == '<' {
        Kind::LessThan
    } else if c == '>' {
        Kind::GreaterThan
    } else if c == '*' {
        Kind::Asterisk
    } else {
        Kind::String
    }
}

impl Kind {
    /// The token kind a delimiter character stands for.
    pub fn from_char(c: &char) -> (res: Kind)
        ensures
            res == kind_of_char(*c),
    {
        match c {
            '{' => Kind::LBracket,
            '}' => Kind::RBracket,
            '.' => Kind::Dot,
            '|' => Kind::Bar,
            '<' => Kind::LessThan,
            '>' => Kind::GreaterThan,
            '*' => Kind::Asterisk,
            _ => Kind::String,
        }
    }

    /// The token kinds of a pair of delimiter characters.
    pub fn from_char_arr(arr: [char; 2]) -> (res: Delimeter)
        ensures
            res[0] == kind_of_char(arr[0]),
            res[1] == kind_of_char(arr[1]),
    {
        [Kind::from_char(&arr[0]), Kind::from_char(&arr[1])]
    }
}

impl SyntaxSettings {
    pub fn new(
        keyword_opening: [char; 2],
        keyword_closing: [char; 2],
        function_opening: [char; 2],
        function_closing: [char; 2],
    ) -> (res: SyntaxSettings)
        ensures
            res.keyword_opening[0] == kind_of_char(keyword_opening[0]),
            res.keyword_opening[1] == kind_of_char(keyword_opening[1]),
            res.keyword_closing[0] == kind_of_char(keyword_closing[0]),
            res.keyword_closing[1] == kind_of_char(keyword_closing[1]),
            res.function_opening[0] == kind_of_char(function_opening[0]),
            res.function_opening[1] == kind_of_char(function_opening[1]),
            res.function_closing[0] == kind_of_char(function_closing[0]),
            res.function_closing[1] == kind_of_char(function_closing[1]),
    {
        SyntaxSettings {
            keyword_opening: Kind::from_char_arr(keyword_opening),
            keyword_closing: Kind::from_char_arr(keyword_closing),
            function_opening: Kind::from_char_arr(function_opening),
            function_closing: Kind::from_char_arr(function_closing),
        }
    }
}

impl Default for SyntaxSettings {
    /// Keywords between `{{` and `}}`, functions between `<*` and `*>`.
    fn default() -> (res: SyntaxSettings)
        ensures
            res.keyword_opening == [Kind::LBracket, Kind::LBracket],
            res.keyword_closing == [Kind::RBracket, Kind::RBracket],
            res.function_opening == [Kind::LessThan, Kind::Asterisk],
            res.function_closing == [Kind::Asterisk, Kind::GreaterThan],
    {
        SyntaxSettings {
            keyword_opening: Kind::from_char_arr(['{', '{']),
            keyword_closing: Kind::from_char_arr(['}', '}']),
            function_opening: Kind::from_char_arr(['<', '*']),
            function_closing: Kind::from_char_arr(['*', '>']),
        }
    }
}

/// `t` is the token that starts at the character position `q` of `cs`.
pub open spec fn token_at(t: Token, cs: Seq<char>, q: int) -> bool {
    &&& t.kind == token_kind(cs, q)
    &&& t.start == utf8_len(cs.take(q))
    &&& t.end == utf8_len(cs.take(token_end(cs, q)))
    &&& value_of(t.value, t.kind, cs.subrange(q, token_end(cs, q)))
}

/// Reading tokens from `q` with the line count `line`, the position of the
/// first token whose kind equals `kind` (if `until_equal`) or differs from
/// `kind` (otherwise), or of the end of the source; with the line count there.
pub open spec fn skip_tokens(cs: Seq<char>, q: int, line: u64, kind: Kind, until_equal: bool) -> (int, u64)
    decreases cs.len() - q,
{
    if q < 0 || q >= cs.len() || (token_kind(cs, q) == kind) == until_equal {
        (q, line)
    } else {
        proof {
            lemma_token_progress(cs, q);
        }
        skip_tokens(cs, token_end(cs, q), line_after(cs, q, line), kind, until_equal)
    }
}

/// The lexer with the token it read last and the end of the token before it.
pub struct LexerState {
    pub lexer: Lexer,
    pub cur_token: Token,
    pub prev_token_end: usize,
    /// The character position the current token starts at.
    pub at: Ghost<int>,
}

/// The token cursor: the current token's kind and start, where the lexer
/// stands and its line count.
pub struct Cursor {
    pub kind: Kind,
    pub at: int,
    pub pos: int,
    pub line: u64,
}

/// The cursor after reading the next token.
pub open spec fn next_cursor(cs: Seq<char>, c: Cursor) -> Cursor {
    Cursor { kind: token_kind(cs, c.pos), at: c.pos, pos: token_end(cs, c.pos), line: line_after(cs, c.pos, c.line) }
}

/// The cursor after skipping tokens while their kind equals `kind` (if not
/// `until_equal`) or until it does (if `until_equal`), stopping at the end.
pub open spec fn skip_cursor(cs: Seq<char>, c: Cursor, kind: Kind, until_equal: bool) -> Cursor {
    if (c.kind == kind) == until_equal || c.kind == Kind::Eof {
        c
    } else {
        let (s, line) = skip_tokens(cs, c.pos, c.line, kind, until_equal);
        Cursor { kind: token_kind(cs, s), at: s, pos: token_end(cs, s), line: line_after(cs, s, line) }
    }
}

impl LexerState {
    /// The lexer is consistent and every token left is read without a failure;
    /// the current token is the start-of-file token or the token at `at`.
    pub open spec fn ready(&self) -> bool {
        &&& self.lexer.wf()
        &&& self.lexer.reads_cleanly()
        &&& 0 <= self.lexer.position() <= self.lexer.source().len()
        &&& self.cur_token.end == utf8_len(self.lexer.source().take(self.lexer.position()))
        &&& 0 <= self.at@ <= self.lexer.position()
        &&& self.prev_token_end == utf8_len(self.lexer.source().take(self.at@))
        &&& self.cur_token.kind == Kind::Sof ==> self.at@ == 0 && self.lexer.position() == 0 && self.cur_token.start == 0
        &&& self.cur_token.kind != Kind::Sof ==> {
            &&& token_at(self.cur_token, self.lexer.source(), self.at@)
            &&& self.lexer.position() == token_end(self.lexer.source(), self.at@)
        }
    }

    /// Where the cursor stands.
    pub open spec fn cursor(&self) -> Cursor {
        Cursor { kind: self.cur_token.kind, at: self.at@, pos: self.lexer.position(), line: self.lexer.line() }
    }

    pub fn cur_token(&self) -> (res: &Token)
        ensures
            *res == self.cur_token,
    {
        &self.cur_token
    }

    pub fn cur_kind(&self) -> (res: &Kind)
        ensures
            *res == self.cur_token.kind,
    {
        &self.cur_token.kind
    }

    pub fn cur_val(&self) -> (res: &TokenValue)
        ensures
            *res == self.cur_token.value,
    {
        &self.cur_token.value
    }

    /// The current token has kind `kind`.
    pub fn at(&self, kind: &Kind) -> (res: bool)
        ensures
            res == (self.cur_token.kind == *kind),
    {
        self.cur_kind() == kind
    }

    /// Moves to the next token.
    pub fn advance(&mut self)
        requires
            old(self).ready(),
        ensures
            final(self).ready(),
            final(self).lexer.source() == old(self).lexer.source(),
            token_at(final(self).cur_token, old(self).lexer.source(), old(self).lexer.position()),
            final(self).lexer.position() == token_end(old(self).lexer.source(), old(self).lexer.position()),
            final(self).lexer.line() == line_after(old(self).lexer.source(), old(self).lexer.position(), old(self).lexer.line()),
            final(self).prev_token_end == old(self).cur_token.end,
            final(self).cursor() == next_cursor(old(self).lexer.source(), old(self).cursor()),
    {
        proof {
            lemma_token_progress(self.lexer.source(), self.lexer.position());
            self.lexer.lemma_position_in_source();
        }
        let ghost p = self.lexer.position();
        let token = self.lexer.next_token();
        self.prev_token_end = self.cur_token.end;
        self.cur_token = token;
        self.at = Ghost(p);
        proof {
            lemma_token_progress(self.lexer.source(), p);
        }
    }

    /// Moves to the next token if the current one has kind `kind`.
    pub fn bump(&mut self, kind: &Kind)
        requires
            old(self).ready(),
        ensures
            final(self).ready(),
            final(self).lexer.source() == old(self).lexer.source(),
            old(self).cur_token.kind == *kind ==> {
                &&& token_at(final(self).cur_token, old(self).lexer.source(), old(self).lexer.position())
                &&& final(self).lexer.position() == token_end(old(self).lexer.source(), old(self).lexer.position())
                &&& final(self).prev_token_end == old(self).cur_token.end
            },
            old(self).cur_token.kind != *kind ==> *final(self) == *old(self),
            final(self).cursor() == if old(self).cur_token.kind == *kind {
                next_cursor(old(self).lexer.source(), old(self).cursor())
            } else {
                old(self).cursor()
            },
    {
        if self.at(kind) {
            self.advance();
        }
    }

    /// Moves to the next token.
    pub fn bump_any(&mut self)
        requires
            old(self).ready(),
        ensures
            final(self).ready(),
            final(self).lexer.source() == old(self).lexer.source(),
            token_at(final(self).cur_token, old(self).lexer.source(), old(self).lexer.position()),
            final(self).lexer.position() == token_end(old(self).lexer.source(), old(self).lexer.position()),
            final(self).prev_token_end == old(self).cur_token.end,
            final(self).cursor() == next_cursor(old(self).lexer.source(), old(self).cursor()),
    {
        self.advance();
    }

    /// Moves to the next token and says so if the current one has kind `kind`.
    pub fn eat(&mut self, kind: &Kind) -> (res: bool)
        requires
            old(self).ready(),
        ensures
            res == (old(self).cur_token.kind == *kind),
            final(self).ready(),
            final(self).lexer.source() == old(self).lexer.source(),
            res ==> {
                &&& token_at(final(self).cur_token, old(self).lexer.source(), old(self).lexer.position())
                &&& final(self).lexer.position() == token_end(old(self).lexer.source(), old(self).lexer.position())
                &&& final(self).prev_token_end == old(self).cur_token.end
            },
            !res ==> *final(self) == *old(self),
            final(self).cursor() == if res {
                next_cursor(old(self).lexer.source(), old(self).cursor())
            } else {
                old(self).cursor()
            },
    {
        if self.at(kind) {
            self.advance();
            return true;
        }
        false
    }

    /// Skips tokens while they have kind `kind` (and the end is not reached).
    pub fn bump_until_not_at(&mut self, kind: &Kind)
        requires
            old(self).ready(),
        ensures
            final(self).ready(),
            final(self).lexer.source() == old(self).lexer.source(),
            old(self).cur_token.kind != *kind || old(self).cur_token.kind == Kind::Eof ==> *final(self) == *old(self),
            old(self).cur_token.kind == *kind && old(self).cur_token.kind != Kind::Eof ==> {
                let (s, line) = skip_tokens(old(self).lexer.source(), old(self).lexer.position(), old(self).lexer.line(), *kind, false);
                &&& token_at(final(self).cur_token, old(self).lexer.source(), s)
                &&& final(self).lexer.position() == token_end(old(self).lexer.source(), s)
                &&& final(self).lexer.line() == line_after(old(self).lexer.source(), s, line)
                &&& final(self).prev_token_end == utf8_len(old(self).lexer.source().take(s))
            },
            final(self).cursor() == skip_cursor(old(self).lexer.source(), old(self).cursor(), *kind, false),
    {
        self.skip(kind, false);
    }

    /// Skips tokens until one has kind `kind` (or the end is reached).
    pub fn bump_while_not(&mut self, kind: &Kind)
        requires
            old(self).ready(),
        ensures
            final(self).ready(),
            final(self).lexer.source() == old(self).lexer.source(),
            old(self).cur_token.kind == *kind || old(self).cur_token.kind == Kind::Eof ==> *final(self) == *old(self),
            old(self).cur_token.kind != *kind && old(self).cur_token.kind != Kind::Eof ==> {
                let (s, line) = skip_tokens(old(self).lexer.source(), old(self).lexer.position(), old(self).lexer.line(), *kind, true);
                &&& token_at(final(self).cur_token, old(self).lexer.source(), s)
                &&& final(self).lexer.position() == token_end(old(self).lexer.source(), s)
                &&& final(self).lexer.line() == line_after(old(self).lexer.source(), s, line)
                &&& final(self).prev_token_end == utf8_len(old(self).lexer.source().take(s))
            },
            final(self).cursor() == skip_cursor(old(self).lexer.source(), old(self).cursor(), *kind, true),
    {
        self.skip(kind, true);
    }

    /// Moves on while the current token's kind equals `kind` exactly when
    /// `until_equal` is false, stopping at the end.
    fn skip(&mut self, kind: &Kind, until_equal: bool)
        requires
            old(self).ready(),
        ensures
            final(self).ready(),
            final(self).lexer.source() == old(self).lexer.source(),
            (old(self).cur_token.kind == *kind) == until_equal || old(self).cur_token.kind == Kind::Eof ==> *final(self) == *old(self),
            (old(self).cur_token.kind == *kind) != until_equal && old(self).cur_token.kind != Kind::Eof ==> {
                let (s, line) = skip_tokens(old(self).lexer.source(), old(self).lexer.position(), old(self).lexer.line(), *kind, until_equal);
                &&& token_at(final(self).cur_token, old(self).lexer.source(), s)
                &&& final(self).lexer.position() == token_end(old(self).lexer.source(), s)
                &&& final(self).lexer.line() == line_after(old(self).lexer.source(), s, line)
                &&& final(self).prev_token_end == utf8_len(old(self).lexer.source().take(s))
            },
            final(self).cursor() == skip_cursor(old(self).lexer.source(), old(self).cursor(), *kind, until_equal),
    {
        let ghost cs = self.lexer.source();
        let ghost p0 = self.lexer.position();
        let ghost line0 = self.lexer.line();
        if (self.at(kind) == until_equal) || self.at(&Kind::Eof) {
            return;
        }
        let ghost target = skip_tokens(cs, p0, line0, *kind, until_equal);
        let ghost mut q: int = p0;
        let ghost mut line_q: u64 = line0;
        self.advance();
        proof {
            lemma_token_progress(cs, p0);
        }
        while !(self.at(kind) == until_equal) && !self.at(&Kind::Eof)
            invariant
                self.ready(),
                self.lexer.source() == cs,
                0 <= q <= cs.len(),
                skip_tokens(cs, q, line_q, *kind, until_equal) == target,
                token_at(self.cur_token, cs, q),
                self.lexer.position() == token_end(cs, q),
                self.lexer.line() == line_after(cs, q, line_q),
                self.prev_token_end == utf8_len(cs.take(q)),
                self.at@ == q,
            decreases cs.len() - q,
        {
            proof {
                lemma_token_progress(cs, q);
                lemma_token_progress(cs, token_end(cs, q));
            }
            let ghost next_q = token_end(cs, q);
            let ghost next_line = line_after(cs, q, line_q);
            self.advance();
            proof {
                q = next_q;
                line_q = next_line;
            }
        }
        proof {
            lemma_token_progress(cs, q);
        }
    }

    /// Skips spaces, then moves on and says so if the current token has kind `kind`.
    pub fn eat_ignore_spaces(&mut self, kind: &Kind) -> (res: bool)
        requires
            old(self).ready(),
        ensures
            final(self).ready(),
            final(self).lexer.source() == old(self).lexer.source(),
            ({
                let c1 = skip_cursor(old(self).lexer.source(), old(self).cursor(), Kind::Space, false);
                &&& res == (c1.kind == *kind)
                &&& final(self).cursor() == if res {
                    next_cursor(old(self).lexer.source(), c1)
                } else {
                    c1
                }
            }),
    {
        self.bump_until_not_at(&Kind::Space);
        if self.at(kind) {
            self.advance();
            return true;
        }
        false
    }
}

} // verus!

verus! {

/// A parser over a source file: the token cursor and the state of the
/// construct being read.
pub struct Parser<'a> {
    pub source: &'a str,
    pub filename: &'a str,
    pub lexer_state: LexerState,
    pub opened: bool,
    pub closed: bool,
    pub seen_dot: bool,
    pub seen_comma: bool,
    pub last_bracket_start: usize,
    pub syntax: &'a SyntaxSettings,
    /// The errors that were reported while parsing went on, in order.
    pub errors: Vec<ParseError<'a>>,
}

impl<'a> Parser<'a> {
    /// A parser at the start of `source`, its current token the start-of-file token.
    pub fn new(source: &'a str, filename: &'a str, syntax: &'a SyntaxSettings) -> (res: Parser<'a>)
        requires
            source.spec_bytes().len() <= usize::MAX,
        ensures
            res.source == source,
            res.filename == filename,
            res.syntax == syntax,
            res.lexer_state.lexer.source() == source@,
            res.lexer_state.lexer.position() == 0,
            res.lexer_state.lexer.line() == 0,
            res.lexer_state.cur_token.kind == Kind::Sof,
            res.lexer_state.cur_token.start == 0,
            res.lexer_state.cur_token.end == 0,
            res.lexer_state.prev_token_end == 0,
            !res.opened && !res.closed && !res.seen_dot && !res.seen_comma,
            res.errors@.len() == 0,
            res.last_bracket_start == 0,
            lexes_from(source@, 0, 0) ==> res.lexer_state.ready(),
    {
        let lexer = Lexer::new(source);
        proof {
            assert(source@.take(0) =~= Seq::<char>::empty());
        }
        Parser {
            source,
            filename,
            lexer_state: LexerState { cur_token: lexer.start(), prev_token_end: 0, lexer, at: Ghost(0) },
            opened: false,
            closed: false,
            seen_dot: false,
            seen_comma: false,
            last_bracket_start: 0,
            syntax,
            errors: Vec::new(),
        }
    }

    /// A node that starts at the current token.
    pub fn start_node(&mut self) -> (res: Node)
        ensures
            res.start == old(self).lexer_state.cur_token.start,
            res.end == 0,
            *final(self) == *old(self),
    {
        let token = self.lexer_state.cur_token();
        Node::new(token.start, 0)
    }

    /// The node `node` closed at the end of the token before the current one.
    pub fn finish_node(&self, node: Node) -> (res: Node)
        ensures
            res.start == node.start,
            res.end == self.lexer_state.prev_token_end,
    {
        Node::new(node.start, self.lexer_state.prev_token_end)
    }
}

/// The kinds of parse errors.
#[derive(Debug, Clone, Copy, PartialEq, Eq, Structural)]
pub enum ParseErrorTypes {
    UnclosedBracket,
    DoubleDot,
    DoubleString,
    DoubleComma,
    FilterArgumentNotSeparated,
    UnexpectedFilterArgumentToken,
    NoFilterArgument,
}

/// A parse error: its kind, the byte span it covers, the source and file
/// name, the line and the token where it was found.
#[derive(Debug)]
pub struct ParseError<'a> {
    pub err_type: ParseErrorTypes,
    pub start: usize,
    pub end: usize,
    pub source: &'a str,
    pub filename: &'a str,
    pub line_number: u64,
    pub cur_token: Token,
}

impl<'a> ParseError<'a> {
    pub fn new(
        err_type: ParseErrorTypes,
        start: usize,
        end: usize,
        source: &'a str,
        filename: &'a str,
        line_number: u64,
        cur_token: Token,
    ) -> (res: ParseError<'a>)
        ensures
            res.err_type == err_type,
            res.start == start,
            res.end == end,
            res.source == source,
            res.filename == filename,
            res.line_number == line_number,
            res.cur_token == cur_token,
    {
        ParseError { err_type, start, end, source, filename, line_number, cur_token }
    }

    /// An error at the parser's position: from the start of the last bracket to
    /// the end of the previous token, on the lexer's line, at the current token.
    pub fn new_from_parser(err_type: ParseErrorTypes, parser: &Parser<'a>) -> (res: ParseError<'a>)
        ensures
            res.err_type == err_type,
            res.start == parser.last_bracket_start,
            res.end == parser.lexer_state.prev_token_end,
            res.source == parser.source,
            res.filename == parser.filename,
            res.line_number == parser.lexer_state.lexer.line(),
            res.cur_token == parser.lexer_state.cur_token,
    {
        ParseError {
            err_type,
            start: parser.last_bracket_start,
            end: parser.lexer_state.prev_token_end,
            source: parser.source,
            filename: parser.filename,
            line_number: parser.lexer_state.lexer.current_line(),
            cur_token: parser.lexer_state.cur_token.clone(),
        }
    }
}

/// Closing at cursor `c`: the next token is read, and closes when it has the
/// kind `close0`, which is then passed over too.
pub open spec fn closing_run(cs: Seq<char>, c: Cursor, close0: Kind) -> (Cursor, bool) {
    let c1 = next_cursor(cs, c);
    if c1.kind == close0 {
        (next_cursor(cs, c1), true)
    } else {
        (c1, false)
    }
}

impl<'a> Parser<'a> {
    /// Moves past the current token and closes the construct if the next
    /// token is the first closing delimiter; otherwise an unclosed-bracket
    /// error at the parser's position.
    pub fn get_closing(&mut self) -> (res: Result<(), ParseError<'a>>)
        requires
            old(self).lexer_state.ready(),
        ensures
            final(self).lexer_state.ready(),
            final(self).lexer_state.lexer.source() == old(self).lexer_state.lexer.source(),
            final(self).source == old(self).source,
            final(self).filename == old(self).filename,
            final(self).syntax == old(self).syntax,
            final(self).last_bracket_start == old(self).last_bracket_start,
            final(self).seen_dot == old(self).seen_dot,
            final(self).seen_comma == old(self).seen_comma,
            final(self).errors@ == old(self).errors@,
            ({
                let cs = old(self).lexer_state.lexer.source();
                let q = old(self).lexer_state.lexer.position();
                let q1 = token_end(cs, q);
                &&& (final(self).lexer_state.cursor(), res is Ok) == closing_run(cs, old(self).lexer_state.cursor(), old(self).syntax.keyword_closing[0])
                &&& (res is Ok) == (token_kind(cs, q) == old(self).syntax.keyword_closing[0])
                &&& res is Ok ==> {
                    &&& final(self).closed
                    &&& !final(self).opened
                    &&& token_at(final(self).lexer_state.cur_token, cs, q1)
                    &&& final(self).lexer_state.lexer.position() == token_end(cs, q1)
                    &&& final(self).lexer_state.prev_token_end == utf8_len(cs.take(q1))
                }
                &&& res is Err ==> {
                    &&& final(self).closed == old(self).closed
                    &&& final(self).opened == old(self).opened
                    &&& token_at(final(self).lexer_state.cur_token, cs, q)
                    &&& final(self).lexer_state.lexer.position() == q1
                    &&& final(self).lexer_state.prev_token_end == old(self).lexer_state.cur_token.end
                    &&& res->Err_0.err_type == ParseErrorTypes::UnclosedBracket
                    &&& res->Err_0.start == old(self).last_bracket_start
                    &&& res->Err_0.end == final(self).lexer_state.prev_token_end
                    &&& res->Err_0.source == old(self).source
                    &&& res->Err_0.filename == old(self).filename
                    &&& res->Err_0.line_number == final(self).lexer_state.lexer.line()
                    &&& res->Err_0.cur_token == final(self).lexer_state.cur_token
                }
            }),
    {
        let ghost cs = self.lexer_state.lexer.source();
        let ghost q = self.lexer_state.lexer.position();
        proof {
            lemma_token_progress(cs, q);
        }
        self.lexer_state.bump_any();
        let closing = self.syntax.keyword_closing[0];
        proof {
            let q1 = token_end(cs, q);
            assert(self.lexer_state.cur_token.end == utf8_len(cs.take(q1)));
        }
        if self.lexer_state.eat(&closing) {
            self.closed = true;
            self.opened = false;
            Ok(())
        } else {
            Err(ParseError::new_from_parser(ParseErrorTypes::UnclosedBracket, self))
        }
    }
}

/// The error of a result, to be reported; nothing for a success.
pub fn handle_error<'a, T>(f: Result<T, ParseError<'a>>) -> (res: Option<ParseError<'a>>)
    ensures
        match f {
            Ok(_) => res is None,
            Err(e) => res == Some(e),
        },
{
    match f {
        Ok(_) => None,
        Err(e) => Some(e),
    }
}

/// Stops on a parse error; the caller must hand over a successful result.
pub fn handle_error_panic<T>(f: Result<T, ParseError<'_>>)
    requires
        f is Ok,
{
}

} // verus!
