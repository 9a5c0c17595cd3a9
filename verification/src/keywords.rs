//! Reading keywords, filters and filter arguments from the token stream.
use vstd::prelude::*;
use vstd::string::StringSliceAdditionalSpecFns;

use crate::lexer::{lemma_token_progress, line_after, token_end, token_kind, utf8_len, value_of, Kind, TokenValue};
use crate::parser::{
    closing_run, handle_error, next_cursor, skip_cursor, skip_tokens, token_at, Cursor, LexerState, Node,
    ParseError, ParseErrorTypes, Parser, SyntaxSettings,
};

verus! {

/// The cursor stands on the token that starts at `at`.
pub open spec fn on_token(cs: Seq<char>, c: Cursor) -> bool {
    &&& 0 <= c.at <= cs.len()
    &&& c.kind == token_kind(cs, c.at)
    &&& c.pos == token_end(cs, c.at)
}

pub proof fn lemma_skip_tokens(cs: Seq<char>, q: int, line: u64, kind: Kind, until_equal: bool)
    requires
        0 <= q <= cs.len(),
    ensures
        q <= skip_tokens(cs, q, line, kind, until_equal).0 <= cs.len(),
    decreases cs.len() - q,
{
    if q < cs.len() && (token_kind(cs, q) == kind) != until_equal {
        lemma_token_progress(cs, q);
        lemma_skip_tokens(cs, token_end(cs, q), line_after(cs, q, line), kind, until_equal);
    }
}

/// Moving the cursor keeps it on a token, and a move goes forward.
pub proof fn lemma_cursor_moves(cs: Seq<char>, c: Cursor, kind: Kind, until_equal: bool)
    requires
        on_token(cs, c),
    ensures
        on_token(cs, next_cursor(cs, c)),
        c.kind != Kind::Eof ==> next_cursor(cs, c).at > c.at,
        on_token(cs, skip_cursor(cs, c, kind, until_equal)),
        skip_cursor(cs, c, kind, until_equal).at >= c.at,
        !((c.kind == kind) == until_equal || c.kind == Kind::Eof) ==> skip_cursor(cs, c, kind, until_equal).at
            > c.at,
{
    lemma_token_progress(cs, c.at);
    lemma_token_progress(cs, c.pos);
    if !((c.kind == kind) == until_equal || c.kind == Kind::Eof) {
        lemma_skip_tokens(cs, c.pos, c.line, kind, until_equal);
        let s = skip_tokens(cs, c.pos, c.line, kind, until_equal).0;
        lemma_token_progress(cs, s);
    }
}

/// How reading filter arguments ends.
#[derive(Debug, Clone, Copy, PartialEq, Eq, Structural)]
pub enum ArgsEnd {
    /// At the closing delimiter, or without a `:` after the filter name.
    Done,
    /// An argument that does not follow a comma.
    NotSeparated,
    /// Two commas in a row.
    DoubleComma,
    /// A token that has no place among the arguments.
    Unexpected,
}

/// Reading filter arguments from the cursor `c`: spaces are skipped, a
/// string, number or decimal number is taken when it is the first argument
/// or follows a comma, and reading stops at the second closing delimiter.
/// The result: how it ends, the positions of the arguments taken, the
/// cursor after and whether a comma was seen last.
pub open spec fn filter_args_loop(
    cs: Seq<char>,
    c: Cursor,
    seen_comma: bool,
    first: bool,
    close0: Kind,
    close1: Kind,
) -> (ArgsEnd, Seq<int>, Cursor, bool)
    decreases cs.len() - c.at,
{
    if !on_token(cs, c) {
        (ArgsEnd::Done, Seq::empty(), c, seen_comma)
    } else if c.kind == Kind::Space {
        let c2 = skip_cursor(cs, c, Kind::Space, false);
        proof {
            lemma_cursor_moves(cs, c, Kind::Space, false);
        }
        filter_args_loop(cs, c2, seen_comma, first, close0, close1)
    } else if c.kind == Kind::String || c.kind == Kind::Number || c.kind == Kind::Float {
        if seen_comma || first {
            let c2 = next_cursor(cs, c);
            proof {
                lemma_cursor_moves(cs, c, Kind::Space, false);
            }
            let (end, rest, cf, sc) = filter_args_loop(cs, c2, false, false, close0, close1);
            (end, seq![c.at] + rest, cf, sc)
        } else {
            (ArgsEnd::NotSeparated, Seq::empty(), skip_cursor(cs, c, close0, true), seen_comma)
        }
    } else if c.kind == close1 {
        (ArgsEnd::Done, Seq::empty(), c, seen_comma)
    } else if c.kind == Kind::Comma {
        if seen_comma {
            (ArgsEnd::DoubleComma, Seq::empty(), next_cursor(cs, c), false)
        } else {
            proof {
                lemma_cursor_moves(cs, c, Kind::Space, false);
            }
            filter_args_loop(cs, next_cursor(cs, c), true, first, close0, close1)
        }
    } else {
        (ArgsEnd::Unexpected, Seq::empty(), next_cursor(cs, c), seen_comma)
    }
}

/// Reading a filter's arguments from the cursor `c`: the filter name is
/// passed over, then a `:` (after spaces) opens the arguments; without it,
/// the cursor goes on to the first closing delimiter.
pub open spec fn filter_args_run(cs: Seq<char>, c: Cursor, seen_comma: bool, close0: Kind, close1: Kind) -> (
    ArgsEnd,
    Seq<int>,
    Cursor,
    bool,
) {
    let c1 = if c.kind == Kind::String {
        next_cursor(cs, c)
    } else {
        c
    };
    let c2 = skip_cursor(cs, c1, Kind::Space, false);
    if c2.kind == Kind::Colon {
        filter_args_loop(cs, next_cursor(cs, c2), seen_comma, true, close0, close1)
    } else {
        (ArgsEnd::Done, Seq::empty(), skip_cursor(cs, c2, close0, true), seen_comma)
    }
}

/// The value of the token at `p` of `cs`.
pub open spec fn token_value_at(v: TokenValue, cs: Seq<char>, p: int) -> bool {
    value_of(v, token_kind(cs, p), cs.subrange(p, token_end(cs, p)))
}

/// `e` is an error of kind `kind` at the parser's position.
pub open spec fn error_at(e: ParseError, p: Parser, kind: ParseErrorTypes) -> bool {
    &&& e.err_type == kind
    &&& e.start == p.last_bracket_start
    &&& e.end == p.lexer_state.prev_token_end
    &&& e.source == p.source
    &&& e.filename == p.filename
    &&& e.line_number == p.lexer_state.lexer.line()
    &&& e.cur_token == p.lexer_state.cur_token
}

/// The parser's fields that reading tokens leaves alone.
pub open spec fn same_setup(a: Parser, b: Parser) -> bool {
    &&& a.source == b.source
    &&& a.filename == b.filename
    &&& a.syntax == b.syntax
    &&& a.last_bracket_start == b.last_bracket_start
    &&& a.lexer_state.lexer.source() == b.lexer_state.lexer.source()
}

/// Reads filter arguments from the cursor of `ls` into `arguments`, as
/// `filter_args_loop` describes.
fn read_filter_args(
    ls: &mut LexerState,
    seen_comma: &mut bool,
    first: bool,
    arguments: &mut Vec<TokenValue>,
    close0: Kind,
    close1: Kind,
) -> (end: ArgsEnd)
    requires
        old(ls).ready(),
        old(ls).cur_token.kind != Kind::Sof,
    ensures
        final(ls).ready(),
        final(ls).lexer.source() == old(ls).lexer.source(),
        ({
            let cs = old(ls).lexer.source();
            let (e, p, cf, sc) = filter_args_loop(cs, old(ls).cursor(), *old(seen_comma), first, close0, close1);
            let n = old(arguments)@.len();
            &&& end == e
            &&& final(ls).cursor() == cf
            &&& *final(seen_comma) == sc
            &&& final(arguments)@.len() == n + p.len()
            &&& final(arguments)@.take(n as int) == old(arguments)@
            &&& forall|k: int| 0 <= k < p.len() ==> #[trigger] token_value_at(final(arguments)@[n + k], cs, p[k])
        }),
    decreases old(ls).lexer.source().len() - old(ls).at@,
{
    let ghost cs = ls.lexer.source();
    let ghost c = ls.cursor();
    let ghost a0 = arguments@;
    proof {
        lemma_cursor_moves(cs, c, Kind::Space, false);
        lemma_cursor_moves(cs, c, close0, true);
        assert(arguments@.take(a0.len() as int) =~= a0);
    }
    let kind = *ls.cur_kind();
    match kind {
        Kind::Space => {
            ls.bump_until_not_at(&Kind::Space);
            read_filter_args(ls, seen_comma, first, arguments, close0, close1)
        },
        Kind::String | Kind::Number | Kind::Float => {
            if *seen_comma || first {
                let v = ls.cur_token.clone().value;
                arguments.push(v);
                ls.bump(&kind);
                *seen_comma = false;
                let ghost a1 = arguments@;
                let end = read_filter_args(ls, seen_comma, false, arguments, close0, close1);
                proof {
                    let rest = filter_args_loop(cs, next_cursor(cs, c), false, false, close0, close1);
                    assert(arguments@.take(a1.len() as int) == a1);
                    assert(arguments@.take(a0.len() as int) =~= a0) by {
                        assert(a1.take(a0.len() as int) =~= a0);
                        assert(arguments@.take(a0.len() as int) =~= arguments@.take(a1.len() as int).take(a0.len() as int));
                    }
                    assert forall|k: int| 0 <= k < 1 + rest.1.len() implies #[trigger] token_value_at(
                        arguments@[a0.len() + k],
                        cs,
                        (seq![c.at] + rest.1)[k],
                    ) by {
                        if k == 0 {
                            assert(arguments@[a0.len() as int] == a1[a0.len() as int]);
                        } else {
                            assert(token_value_at(arguments@[a1.len() + (k - 1)], cs, rest.1[k - 1]));
                        }
                    }
                }
                end
            } else {
                ls.bump_while_not(&close0);
                ArgsEnd::NotSeparated
            }
        },
        k if k == close1 => ArgsEnd::Done,
        Kind::Comma => {
            if *seen_comma && ls.eat(&Kind::Comma) {
                *seen_comma = false;
                ArgsEnd::DoubleComma
            } else {
                *seen_comma = true;
                ls.bump(&Kind::Comma);
                read_filter_args(ls, seen_comma, first, arguments, close0, close1)
            }
        },
        _ => {
            ls.bump_any();
            ArgsEnd::Unexpected
        },
    }
}

impl<'a> Parser<'a> {
    /// Reads the arguments of the filter at the cursor into `arguments`: the
    /// filter name is passed over, and after a `:` the strings, numbers and
    /// decimal numbers are taken, each first or after a comma, up to the
    /// second closing delimiter. Errors: an argument that does not follow a
    /// comma, two commas, or any other token. On success, all the arguments
    /// collected so far are returned.
    pub fn collect_filter_args(&mut self, arguments: &mut Vec<TokenValue>) -> (res: Result<
        Vec<TokenValue>,
        ParseError<'a>,
    >)
        requires
            old(self).lexer_state.ready(),
        ensures
            final(self).lexer_state.ready(),
            same_setup(*final(self), *old(self)),
            final(self).opened == old(self).opened,
            final(self).closed == old(self).closed,
            final(self).seen_dot == old(self).seen_dot,
            final(self).errors@ == old(self).errors@,
            ({
                let cs = old(self).lexer_state.lexer.source();
                let (end, pushed, cf, sc) = filter_args_run(
                    cs,
                    old(self).lexer_state.cursor(),
                    old(self).seen_comma,
                    old(self).syntax.keyword_closing[0],
                    old(self).syntax.keyword_closing[1],
                );
                let n = old(arguments)@.len();
                &&& final(self).lexer_state.cursor() == cf
                &&& final(self).seen_comma == sc
                &&& final(arguments)@.len() == n + pushed.len()
                &&& final(arguments)@.take(n as int) == old(arguments)@
                &&& forall|k: int| 0 <= k < pushed.len() ==> #[trigger] token_value_at(final(arguments)@[n + k], cs, pushed[k])
                &&& match end {
                    ArgsEnd::Done => res matches Ok(v) && v@ == final(arguments)@,
                    ArgsEnd::NotSeparated => res matches Err(e) && error_at(e, *final(self), ParseErrorTypes::FilterArgumentNotSeparated),
                    ArgsEnd::DoubleComma => res matches Err(e) && error_at(e, *final(self), ParseErrorTypes::DoubleComma),
                    ArgsEnd::Unexpected => res matches Err(e) && error_at(e, *final(self), ParseErrorTypes::UnexpectedFilterArgumentToken),
                }
            }),
    {
        let ghost a0 = arguments@;
        let close0 = self.syntax.keyword_closing[0];
        let close1 = self.syntax.keyword_closing[1];
        self.lexer_state.eat(&Kind::String);
        if !self.lexer_state.eat_ignore_spaces(&Kind::Colon) {
            self.lexer_state.bump_while_not(&close0);
            proof {
                assert(arguments@.take(a0.len() as int) =~= a0);
            }
            return Ok(arguments.clone());
        }
        let end = read_filter_args(&mut self.lexer_state, &mut self.seen_comma, true, arguments, close0, close1);
        match end {
            ArgsEnd::Done => Ok(arguments.clone()),
            ArgsEnd::NotSeparated => Err(ParseError::new_from_parser(ParseErrorTypes::FilterArgumentNotSeparated, self)),
            ArgsEnd::DoubleComma => Err(ParseError::new_from_parser(ParseErrorTypes::DoubleComma, self)),
            ArgsEnd::Unexpected => Err(
                ParseError::new_from_parser(ParseErrorTypes::UnexpectedFilterArgumentToken, self),
            ),
        }
    }
}

pub proof fn lemma_filter_args_loop_cursor(cs: Seq<char>, c: Cursor, seen_comma: bool, first: bool, close0: Kind, close1: Kind)
    requires
        on_token(cs, c),
    ensures
        on_token(cs, filter_args_loop(cs, c, seen_comma, first, close0, close1).2),
        filter_args_loop(cs, c, seen_comma, first, close0, close1).2.at >= c.at,
    decreases cs.len() - c.at,
{
    lemma_cursor_moves(cs, c, Kind::Space, false);
    lemma_cursor_moves(cs, c, close0, true);
    if c.kind == Kind::Space {
        lemma_filter_args_loop_cursor(cs, skip_cursor(cs, c, Kind::Space, false), seen_comma, first, close0, close1);
    } else if c.kind == Kind::String || c.kind == Kind::Number || c.kind == Kind::Float {
        if seen_comma || first {
            lemma_filter_args_loop_cursor(cs, next_cursor(cs, c), false, false, close0, close1);
        }
    } else if c.kind == close1 {
    } else if c.kind == Kind::Comma {
        if !seen_comma {
            lemma_filter_args_loop_cursor(cs, next_cursor(cs, c), true, first, close0, close1);
        }
    }
}

pub proof fn lemma_filter_args_run_cursor(cs: Seq<char>, c: Cursor, seen_comma: bool, close0: Kind, close1: Kind)
    requires
        on_token(cs, c),
    ensures
        on_token(cs, filter_args_run(cs, c, seen_comma, close0, close1).2),
        filter_args_run(cs, c, seen_comma, close0, close1).2.at >= c.at,
{
    lemma_cursor_moves(cs, c, Kind::Space, false);
    let c1 = if c.kind == Kind::String {
        next_cursor(cs, c)
    } else {
        c
    };
    lemma_cursor_moves(cs, c1, Kind::Space, false);
    let c2 = skip_cursor(cs, c1, Kind::Space, false);
    lemma_cursor_moves(cs, c2, close0, true);
    if c2.kind == Kind::Colon {
        lemma_filter_args_loop_cursor(cs, next_cursor(cs, c2), seen_comma, true, close0, close1);
    }
}

/// A filter of a keyword: the span it was read from, its name and its arguments.
#[derive(Debug)]
pub struct FilterDefinition {
    pub node: Node,
    pub filter_name: TokenValue,
    pub arguments: Vec<TokenValue>,
}

/// A filter read from the tokens: its span (character positions), the
/// position of its name and of each argument.
pub struct FilterSpec {
    pub start: int,
    pub end: int,
    pub name_at: int,
    pub args: Seq<int>,
}

/// The error kind a way of ending the arguments is reported as.
pub open spec fn args_error(e: ArgsEnd) -> ParseErrorTypes {
    match e {
        ArgsEnd::NotSeparated => ParseErrorTypes::FilterArgumentNotSeparated,
        ArgsEnd::DoubleComma => ParseErrorTypes::DoubleComma,
        _ => ParseErrorTypes::UnexpectedFilterArgumentToken,
    }
}

/// Reading a filter at cursor `c`: on to its name, its arguments, and the
/// closing of the keyword when the first closing delimiter follows. The
/// result: the filter, the cursor after, whether a comma was seen last,
/// whether the keyword was closed, and the errors reported, with the cursor
/// at each.
pub open spec fn filter_run(cs: Seq<char>, c: Cursor, seen_comma: bool, close0: Kind, close1: Kind, lbs: int) -> (
    FilterSpec,
    Cursor,
    bool,
    bool,
    Seq<ErrSpec>,
) {
    let c1 = skip_cursor(cs, c, Kind::String, true);
    let (aend, args, c2, sc) = filter_args_run(cs, c1, seen_comma, close0, close1);
    let errs1 = if aend == ArgsEnd::Done {
        Seq::empty()
    } else {
        seq![ErrSpec { kind: args_error(aend), cur: c2, start: lbs }]
    };
    if c2.kind == close0 {
        let (c3, ok) = closing_run(cs, c2, close0);
        let errs2 = if ok {
            Seq::empty()
        } else {
            seq![ErrSpec { kind: ParseErrorTypes::UnclosedBracket, cur: c3, start: lbs }]
        };
        (FilterSpec { start: c.at, end: c3.at, name_at: c1.at, args }, c3, sc, ok, errs1 + errs2)
    } else {
        (FilterSpec { start: c.at, end: c2.at, name_at: c1.at, args }, c2, sc, false, errs1)
    }
}

/// An error reported while reading: its kind, the cursor it was reported
/// at and the start of the keyword being read.
pub struct ErrSpec {
    pub kind: ParseErrorTypes,
    pub cur: Cursor,
    pub start: int,
}

/// `e` is the error `s` of the parser `p` over `cs`.
pub open spec fn error_matches(e: ParseError, s: ErrSpec, p: Parser, cs: Seq<char>) -> bool {
    &&& e.err_type == s.kind
    &&& e.start == s.start
    &&& e.end == utf8_len(cs.take(s.cur.at))
    &&& e.source == p.source
    &&& e.filename == p.filename
    &&& e.line_number == s.cur.line
    &&& token_at(e.cur_token, cs, s.cur.at)
}

/// `es` are the errors `specs` of the parser `p`, in order.
pub open spec fn errors_match(es: Seq<ParseError>, specs: Seq<ErrSpec>, p: Parser, cs: Seq<char>) -> bool {
    &&& es.len() == specs.len()
    &&& forall|i: int| 0 <= i < es.len() ==> #[trigger] error_matches(es[i], specs[i], p, cs)
}

/// `fd` is the filter `f` of `cs`.
pub open spec fn filter_matches(fd: FilterDefinition, f: FilterSpec, cs: Seq<char>) -> bool {
    &&& fd.node.start == utf8_len(cs.take(f.start))
    &&& fd.node.end == utf8_len(cs.take(f.end))
    &&& token_value_at(fd.filter_name, cs, f.name_at)
    &&& fd.arguments@.len() == f.args.len()
    &&& forall|k: int| 0 <= k < f.args.len() ==> #[trigger] token_value_at(fd.arguments@[k], cs, f.args[k])
}

pub proof fn lemma_token_kind_not_sof(cs: Seq<char>, p: int)
    ensures
        token_kind(cs, p) != Kind::Sof,
{
}

/// An error reported at the parser's position is reported at its cursor.
proof fn lemma_error_at_cursor(e: ParseError, p: Parser, k: ParseErrorTypes)
    requires
        p.lexer_state.ready(),
        p.lexer_state.cur_token.kind != Kind::Sof,
        error_at(e, p, k),
    ensures
        error_matches(
            e,
            ErrSpec { kind: k, cur: p.lexer_state.cursor(), start: p.last_bracket_start as int },
            p,
            p.lexer_state.lexer.source(),
        ),
{
}

impl<'a> Parser<'a> {
    /// Reads the filter at the cursor (a `|`): its name, its arguments and,
    /// when the first closing delimiter follows, the closing of the keyword.
    /// Errors on the way are reported, and a filter is always returned.
    #[verifier::rlimit(60)]
    #[verifier::spinoff_prover]
    pub fn get_filter(&mut self) -> (res: Result<Option<FilterDefinition>, ParseError<'a>>)
        requires
            old(self).lexer_state.ready(),
            old(self).lexer_state.cur_token.kind != Kind::Sof,
        ensures
            final(self).lexer_state.ready(),
            same_setup(*final(self), *old(self)),
            final(self).seen_dot == old(self).seen_dot,
            ({
                let cs = old(self).lexer_state.lexer.source();
                let (f, cf, sc, closed, errs) = filter_run(
                    cs,
                    old(self).lexer_state.cursor(),
                    old(self).seen_comma,
                    old(self).syntax.keyword_closing[0],
                    old(self).syntax.keyword_closing[1],
                    old(self).last_bracket_start as int,
                );
                let n = old(self).errors@.len();
                &&& res matches Ok(Some(fd)) && filter_matches(fd, f, cs)
                &&& final(self).lexer_state.cursor() == cf
                &&& final(self).seen_comma == sc
                &&& final(self).closed == (closed || old(self).closed)
                &&& final(self).opened == (!closed && old(self).opened)
                &&& final(self).errors@.len() >= n
                &&& final(self).errors@.take(n as int) == old(self).errors@
                &&& errors_match(final(self).errors@.skip(n as int), errs, *old(self), cs)
            }),
    {
        let ghost cs = self.lexer_state.lexer.source();
        let ghost p0 = *self;
        let ghost close0_s = self.syntax.keyword_closing[0];
        let ghost close1_s = self.syntax.keyword_closing[1];
        let start = self.start_node();
        self.lexer_state.bump_while_not(&Kind::String);
        proof {
            lemma_cursor_moves(cs, p0.lexer_state.cursor(), Kind::String, true);
        }
        let name = self.lexer_state.cur_token().clone().value;
        let mut filter_args: Vec<TokenValue> = Vec::new();
        let ghost p1 = *self;
        let r = self.collect_filter_args(&mut filter_args);
        let ghost p2 = *self;
        proof {
            lemma_filter_args_run_cursor(cs, p1.lexer_state.cursor(), p1.seen_comma, close0_s, close1_s);
            lemma_token_kind_not_sof(cs, p2.lexer_state.cursor().at);
            if r is Err {
                lemma_error_at_cursor(r->Err_0, p2, r->Err_0.err_type);
            }
        }
        if let Some(e) = handle_error(r) {
            self.errors.push(e);
        }
        let close0 = self.syntax.keyword_closing[0];
        let ghost n = p0.errors@.len();
        if self.lexer_state.at(&close0) {
            let ghost p3 = *self;
            let r2 = self.get_closing();
            proof {
                if r2 is Err {
                    lemma_token_kind_not_sof(cs, self.lexer_state.cursor().at);
                }
            }
            if let Some(e) = handle_error(r2) {
                self.errors.push(e);
            }
            let node = self.finish_node(start);
            proof {
                assert(self.errors@.take(n as int) =~= p0.errors@);
                let (f, cf, sc, closed, errs) = filter_run(cs, p0.lexer_state.cursor(), p0.seen_comma, close0_s, close1_s, p0.last_bracket_start as int);
                assert forall|k: int| 0 <= k < f.args.len() implies #[trigger] token_value_at(filter_args@[k], cs, f.args[k]) by {
                    assert(token_value_at(filter_args@[0 + k], cs, f.args[k]));
                }
                let (aend, args, c2, sc2) = filter_args_run(cs, p1.lexer_state.cursor(), p1.seen_comma, close0_s, close1_s);
                let lbs = p0.last_bracket_start as int;
                let errs1 = if aend == ArgsEnd::Done {
                    Seq::<ErrSpec>::empty()
                } else {
                    seq![ErrSpec { kind: args_error(aend), cur: c2, start: lbs }]
                };
                assert(p3.errors@.skip(n as int) =~= p2.errors@.skip(n as int) + (if aend == ArgsEnd::Done {
                    Seq::<ParseError>::empty()
                } else {
                    seq![r->Err_0]
                }));
                assert(errors_match(p3.errors@.skip(n as int), errs1, p0, cs));
                let (c3, ok) = closing_run(cs, c2, close0_s);
                if !ok {
                    assert(error_matches(r2->Err_0, ErrSpec { kind: ParseErrorTypes::UnclosedBracket, cur: c3, start: lbs }, p0, cs));
                    assert(self.errors@.skip(n as int) =~= p3.errors@.skip(n as int).push(r2->Err_0));
                } else {
                    assert(self.errors@.skip(n as int) =~= p3.errors@.skip(n as int));
                }
                assert(errors_match(self.errors@.skip(n as int), errs, p0, cs));
            }
            return Ok(Some(FilterDefinition { node, filter_name: name, arguments: filter_args }));
        }
        let node = self.finish_node(start);
        proof {
            assert(self.errors@.take(n as int) =~= p0.errors@);
            let (f, cf, sc, closed, errs) = filter_run(cs, p0.lexer_state.cursor(), p0.seen_comma, close0_s, close1_s, p0.last_bracket_start as int);
            let c1 = skip_cursor(cs, p0.lexer_state.cursor(), Kind::String, true);
            assert(p1.lexer_state.cursor() == c1);
            assert(f.name_at == c1.at);
            assert(token_value_at(name, cs, f.name_at));
            assert(node.start == utf8_len(cs.take(f.start)));
            assert(node.end == utf8_len(cs.take(f.end)));
            assert(filter_args@.len() == f.args.len());
            assert forall|k: int| 0 <= k < f.args.len() implies #[trigger] token_value_at(filter_args@[k], cs, f.args[k]) by {
                assert(token_value_at(filter_args@[0 + k], cs, f.args[k]));
            }
            assert(self.lexer_state.cursor() == cf);
            assert(self.seen_comma == sc);
            assert(!closed);
            assert(errors_match(self.errors@.skip(n as int), errs, p0, cs));
        }
        Ok(Some(FilterDefinition { node, filter_name: name, arguments: filter_args }))
    }
}

pub proof fn lemma_filter_run_cursor(cs: Seq<char>, c: Cursor, seen_comma: bool, close0: Kind, close1: Kind, lbs: int)
    requires
        on_token(cs, c),
        c.kind != Kind::String,
        c.kind != Kind::Eof,
    ensures
        on_token(cs, filter_run(cs, c, seen_comma, close0, close1, lbs).1),
        filter_run(cs, c, seen_comma, close0, close1, lbs).1.at > c.at,
{
    lemma_cursor_moves(cs, c, Kind::String, true);
    let c1 = skip_cursor(cs, c, Kind::String, true);
    lemma_filter_args_run_cursor(cs, c1, seen_comma, close0, close1);
    let c2 = filter_args_run(cs, c1, seen_comma, close0, close1).2;
    lemma_cursor_moves(cs, c2, close0, true);
    lemma_cursor_moves(cs, next_cursor(cs, c2), close0, true);
}

/// How reading the names of a keyword ends.
#[derive(Debug, Clone, Copy, PartialEq, Eq, Structural)]
pub enum StringsEnd {
    /// The keyword was closed by a filter, or the text ended.
    Done,
    /// Two dots in a row.
    DoubleDot,
    /// A name that does not follow a dot.
    DoubleString,
    /// The keyword was closed at its closing delimiter.
    Closed,
    /// The first closing delimiter was not followed by the second.
    Unclosed,
}

/// What reading the names of a keyword gives: how it ends, the positions of
/// the names, the filters, the errors reported on the way, the cursor after,
/// and the parser's flags after.
pub struct StringsRun {
    pub end: StringsEnd,
    pub strings: Seq<int>,
    pub filters: Seq<FilterSpec>,
    pub errors: Seq<ErrSpec>,
    pub cur: Cursor,
    pub seen_dot: bool,
    pub seen_comma: bool,
    pub closed: bool,
    pub opened: bool,
}

/// Reading the rest of a keyword from cursor `c` while it is not closed and
/// the text has not ended: a dot (an error after a dot), a name after a dot
/// (an error otherwise), a filter after `|`, the closing, or spaces, line
/// breaks and other single characters, which are passed over. Any other
/// token stops the reading for good: nothing is returned then.
pub open spec fn strings_loop(
    cs: Seq<char>,
    close0: Kind,
    close1: Kind,
    lbs: int,
    c: Cursor,
    seen_dot: bool,
    seen_comma: bool,
    closed: bool,
    opened: bool,
) -> Option<StringsRun>
    decreases cs.len() - c.at,
{
    let stop = |end: StringsEnd, cur: Cursor, seen_dot: bool, closed: bool, opened: bool|
        StringsRun {
            end,
            strings: Seq::empty(),
            filters: Seq::empty(),
            errors: Seq::empty(),
            cur,
            seen_dot,
            seen_comma,
            closed,
            opened,
        };
    if !on_token(cs, c) {
        None
    } else if closed || c.kind == Kind::Eof {
        Some(stop(StringsEnd::Done, c, seen_dot, closed, opened))
    } else if c.kind == Kind::Dot {
        if seen_dot {
            Some(stop(StringsEnd::DoubleDot, next_cursor(cs, c), false, closed, opened))
        } else {
            proof {
                lemma_cursor_moves(cs, c, Kind::Dot, true);
            }
            strings_loop(cs, close0, close1, lbs, next_cursor(cs, c), true, seen_comma, closed, opened)
        }
    } else if c.kind == Kind::String {
        if seen_dot {
            proof {
                lemma_cursor_moves(cs, c, Kind::Dot, true);
            }
            match strings_loop(cs, close0, close1, lbs, next_cursor(cs, c), false, seen_comma, closed, opened) {
                Some(r) => Some(StringsRun {
                    end: r.end,
                    strings: seq![c.at] + r.strings,
                    filters: r.filters,
                    errors: r.errors,
                    cur: r.cur,
                    seen_dot: r.seen_dot,
                    seen_comma: r.seen_comma,
                    closed: r.closed,
                    opened: r.opened,
                }),
                None => None,
            }
        } else {
            Some(stop(StringsEnd::DoubleString, skip_cursor(cs, c, close0, true), seen_dot, closed, opened))
        }
    } else if c.kind == Kind::Bar {
        let (f, cf, sc, cl, errs) = filter_run(cs, c, seen_comma, close0, close1, lbs);
        proof {
            lemma_filter_run_cursor(cs, c, seen_comma, close0, close1, lbs);
        }
        match strings_loop(cs, close0, close1, lbs, cf, seen_dot, sc, cl || closed, !cl && opened) {
            Some(r) => Some(StringsRun {
                end: r.end,
                strings: r.strings,
                filters: seq![f] + r.filters,
                errors: errs + r.errors,
                cur: r.cur,
                seen_dot: r.seen_dot,
                seen_comma: r.seen_comma,
                closed: r.closed,
                opened: r.opened,
            }),
            None => None,
        }
    } else if c.kind == close0 {
        let (c3, ok) = closing_run(cs, c, close0);
        Some(
            stop(
                if ok {
                    StringsEnd::Closed
                } else {
                    StringsEnd::Unclosed
                },
                c3,
                seen_dot,
                ok || closed,
                !ok && opened,
            ),
        )
    } else if c.kind == Kind::Space || c.kind == Kind::NewLine || c.kind == Kind::Identifier {
        proof {
            lemma_cursor_moves(cs, c, Kind::Dot, true);
        }
        strings_loop(cs, close0, close1, lbs, next_cursor(cs, c), seen_dot, seen_comma, closed, opened)
    } else {
        None
    }
}


/// `vs` are the values of the tokens at the positions `ps` of `cs`, in order.
pub open spec fn values_match(vs: Seq<TokenValue>, ps: Seq<int>, cs: Seq<char>) -> bool {
    &&& vs.len() == ps.len()
    &&& forall|k: int| 0 <= k < vs.len() ==> #[trigger] token_value_at(vs[k], cs, ps[k])
}

/// `fs` are the filters `specs` of `cs`, in order.
pub open spec fn filters_match(fs: Seq<FilterDefinition>, specs: Seq<FilterSpec>, cs: Seq<char>) -> bool {
    &&& fs.len() == specs.len()
    &&& forall|k: int| 0 <= k < fs.len() ==> #[trigger] filter_matches(fs[k], specs[k], cs)
}

/// `s1` is `s0` with more items after it.
pub open spec fn extends<A>(s1: Seq<A>, s0: Seq<A>) -> bool {
    s1.len() >= s0.len() && s1.take(s0.len() as int) == s0
}

proof fn lemma_extends_chain<A>(s0: Seq<A>, s1: Seq<A>, s2: Seq<A>)
    requires
        extends(s1, s0),
        extends(s2, s1),
    ensures
        extends(s2, s0),
        s2.skip(s0.len() as int) == s1.skip(s0.len() as int) + s2.skip(s1.len() as int),
{
    assert(s2.take(s0.len() as int) =~= s2.take(s1.len() as int).take(s0.len() as int));
    assert(s2.skip(s0.len() as int) =~= s1.skip(s0.len() as int) + s2.skip(s1.len() as int)) by {
        assert forall|i: int| 0 <= i < s2.len() - s0.len() implies s2.skip(s0.len() as int)[i] == (s1.skip(
            s0.len() as int,
        ) + s2.skip(s1.len() as int))[i] by {
            if i < s1.len() - s0.len() {
                assert(s2[s0.len() + i] == s2.take(s1.len() as int)[s0.len() + i]);
            }
        }
    }
}

proof fn lemma_extends_same<A>(s: Seq<A>)
    ensures
        extends(s, s),
        s.skip(s.len() as int) == Seq::<A>::empty(),
{
    assert(s.take(s.len() as int) =~= s);
    assert(s.skip(s.len() as int) =~= Seq::<A>::empty());
}

proof fn lemma_extends_push<A>(s: Seq<A>, x: A)
    ensures
        extends(s.push(x), s),
        s.push(x).skip(s.len() as int) == seq![x],
{
    assert(s.push(x).take(s.len() as int) =~= s);
    assert(s.push(x).skip(s.len() as int) =~= seq![x]);
}

proof fn lemma_values_match_concat(a: Seq<TokenValue>, pa: Seq<int>, b: Seq<TokenValue>, pb: Seq<int>, cs: Seq<char>)
    requires
        values_match(a, pa, cs),
        values_match(b, pb, cs),
    ensures
        values_match(a + b, pa + pb, cs),
{
    assert forall|k: int| 0 <= k < (a + b).len() implies #[trigger] token_value_at((a + b)[k], cs, (pa + pb)[k]) by {
        if k >= a.len() {
            assert(token_value_at(b[k - a.len()], cs, pb[k - a.len()]));
        }
    }
}

proof fn lemma_filters_match_concat(a: Seq<FilterDefinition>, pa: Seq<FilterSpec>, b: Seq<FilterDefinition>, pb: Seq<FilterSpec>, cs: Seq<char>)
    requires
        filters_match(a, pa, cs),
        filters_match(b, pb, cs),
    ensures
        filters_match(a + b, pa + pb, cs),
{
    assert forall|k: int| 0 <= k < (a + b).len() implies #[trigger] filter_matches((a + b)[k], (pa + pb)[k], cs) by {
        if k >= a.len() {
            assert(filter_matches(b[k - a.len()], pb[k - a.len()], cs));
        }
    }
}

/// Errors that match for one parser match for another with the same
/// source and file name.
proof fn lemma_errors_match_concat(a: Seq<ParseError>, pa: Seq<ErrSpec>, b: Seq<ParseError>, pb: Seq<ErrSpec>, p: Parser, q: Parser, cs: Seq<char>)
    requires
        errors_match(a, pa, p, cs),
        errors_match(b, pb, q, cs),
        p.source == q.source,
        p.filename == q.filename,
    ensures
        errors_match(a + b, pa + pb, p, cs),
{
    assert forall|k: int| 0 <= k < (a + b).len() implies #[trigger] error_matches((a + b)[k], (pa + pb)[k], p, cs) by {
        if k >= a.len() {
            assert(error_matches(b[k - a.len()], pb[k - a.len()], q, cs));
        }
    }
}

proof fn lemma_errors_match_setup(es: Seq<ParseError>, specs: Seq<ErrSpec>, p: Parser, q: Parser, cs: Seq<char>)
    requires
        errors_match(es, specs, q, cs),
        p.source == q.source,
        p.filename == q.filename,
    ensures
        errors_match(es, specs, p, cs),
{
    assert forall|k: int| 0 <= k < es.len() implies #[trigger] error_matches(es[k], specs[k], p, cs) by {
        assert(error_matches(es[k], specs[k], q, cs));
    }
}

/// The effect of reading the names of a keyword as `r` describes: from the
/// parser `p0` to `p1`, the names from `s0` to `s1` and the filters from
/// `f0` to `f1`.
pub open spec fn strings_applied(
    p0: Parser,
    p1: Parser,
    s0: Seq<TokenValue>,
    s1: Seq<TokenValue>,
    f0: Seq<FilterDefinition>,
    f1: Seq<FilterDefinition>,
    r: StringsRun,
) -> bool {
    let cs = p0.lexer_state.lexer.source();
    &&& p1.lexer_state.cursor() == r.cur
    &&& p1.seen_dot == r.seen_dot
    &&& p1.seen_comma == r.seen_comma
    &&& p1.closed == r.closed
    &&& p1.opened == r.opened
    &&& extends(s1, s0)
    &&& values_match(s1.skip(s0.len() as int), r.strings, cs)
    &&& extends(f1, f0)
    &&& filters_match(f1.skip(f0.len() as int), r.filters, cs)
    &&& extends(p1.errors@, p0.errors@)
    &&& errors_match(p1.errors@.skip(p0.errors@.len() as int), r.errors, p0, cs)
}

/// What reading the names of a keyword returns when it ends with `end`.
pub open spec fn strings_result(res: Result<(), ParseError>, p1: Parser, end: StringsEnd) -> bool {
    match end {
        StringsEnd::Done => res is Ok,
        StringsEnd::Closed => res is Ok,
        StringsEnd::DoubleDot => res matches Err(e) && error_at(e, p1, ParseErrorTypes::DoubleDot),
        StringsEnd::DoubleString => res matches Err(e) && error_at(e, p1, ParseErrorTypes::DoubleString),
        StringsEnd::Unclosed => res matches Err(e) && error_at(e, p1, ParseErrorTypes::UnclosedBracket),
    }
}

/// Reading the names of a keyword from the parser `p`, as `strings_loop` describes.
pub open spec fn strings_loop_of(p: Parser) -> Option<StringsRun> {
    strings_loop(
        p.lexer_state.lexer.source(),
        p.syntax.keyword_closing[0],
        p.syntax.keyword_closing[1],
        p.last_bracket_start as int,
        p.lexer_state.cursor(),
        p.seen_dot,
        p.seen_comma,
        p.closed,
        p.opened,
    )
}

impl<'a> Parser<'a> {
    /// Reads the rest of a keyword, as `strings_loop` describes.
    fn read_strings(&mut self, strings: &mut Vec<TokenValue>, filters: &mut Vec<FilterDefinition>) -> (res: Result<
        (),
        ParseError<'a>,
    >)
        requires
            old(self).lexer_state.ready(),
            old(self).lexer_state.cur_token.kind != Kind::Sof,
            strings_loop_of(*old(self)) is Some,
        ensures
            final(self).lexer_state.ready(),
            same_setup(*final(self), *old(self)),
            strings_applied(
                *old(self),
                *final(self),
                old(strings)@,
                final(strings)@,
                old(filters)@,
                final(filters)@,
                strings_loop_of(*old(self))->Some_0,
            ),
            strings_result(res, *final(self), (strings_loop_of(*old(self))->Some_0).end),
        decreases old(self).lexer_state.lexer.source().len() - old(self).lexer_state.at@, 1int,
    {
        let ghost cs = self.lexer_state.lexer.source();
        let ghost p0 = *self;
        let ghost c = self.lexer_state.cursor();
        let ghost s0 = strings@;
        let ghost f0 = filters@;
        let close0 = self.syntax.keyword_closing[0];
        proof {
            lemma_cursor_moves(cs, c, Kind::Dot, true);
            lemma_cursor_moves(cs, c, close0, true);
            lemma_extends_same(s0);
            lemma_extends_same(f0);
            lemma_extends_same(p0.errors@);
        }
        if self.closed || self.lexer_state.at(&Kind::Eof) {
            return Ok(());
        }
        let kind = *self.lexer_state.cur_kind();
        match kind {
            Kind::Dot => self.strings_at_dot(strings, filters),
            Kind::String => self.strings_at_name(strings, filters),
            Kind::Bar => self.strings_at_filter(strings, filters),
            k if k == close0 => self.get_closing(),
            Kind::Space | Kind::NewLine | Kind::Identifier => self.strings_pass(strings, filters),
            _ => {
                proof {
                    assert(false);
                }
                Ok(())
            },
        }
    }

    /// A dot in a keyword: an error after another dot.
    fn strings_at_dot(&mut self, strings: &mut Vec<TokenValue>, filters: &mut Vec<FilterDefinition>) -> (res: Result<
        (),
        ParseError<'a>,
    >)
        requires
            old(self).lexer_state.ready(),
            old(self).lexer_state.cur_token.kind != Kind::Sof,
            strings_loop_of(*old(self)) is Some,
            old(self).lexer_state.cur_token.kind != Kind::Eof,
            !old(self).closed,
            old(self).lexer_state.cur_token.kind == Kind::Dot,
        ensures
            final(self).lexer_state.ready(),
            same_setup(*final(self), *old(self)),
            strings_applied(
                *old(self),
                *final(self),
                old(strings)@,
                final(strings)@,
                old(filters)@,
                final(filters)@,
                strings_loop_of(*old(self))->Some_0,
            ),
            strings_result(res, *final(self), (strings_loop_of(*old(self))->Some_0).end),
        decreases old(self).lexer_state.lexer.source().len() - old(self).lexer_state.at@, 0int,
    {
        let ghost cs = self.lexer_state.lexer.source();
        let ghost p0 = *self;
        let ghost c = self.lexer_state.cursor();
        let ghost s0 = strings@;
        let ghost f0 = filters@;
        let close0 = self.syntax.keyword_closing[0];
        proof {
            lemma_cursor_moves(cs, c, Kind::Dot, true);
            lemma_cursor_moves(cs, c, close0, true);
            lemma_extends_same(s0);
            lemma_extends_same(f0);
            lemma_extends_same(p0.errors@);
        }
        if self.seen_dot && self.lexer_state.eat(&Kind::Dot) {
            self.seen_dot = false;
            return Err(ParseError::new_from_parser(ParseErrorTypes::DoubleDot, self));
        }
        self.seen_dot = true;
        self.lexer_state.bump(&Kind::Dot);
        let ghost p1 = *self;
        let r = self.read_strings(strings, filters);
        proof {
                lemma_extends_chain(s0, s0, strings@);
                lemma_extends_chain(f0, f0, filters@);
                lemma_extends_chain(p0.errors@, p1.errors@, self.errors@);
                lemma_errors_match_setup(
                    self.errors@.skip(p0.errors@.len() as int),
                    (strings_loop_of(p1)->Some_0).errors,
                    p0,
                    p1,
                    cs,
                );
        }
        r
    }

    /// A name in a keyword: taken after a dot, an error otherwise.
    fn strings_at_name(&mut self, strings: &mut Vec<TokenValue>, filters: &mut Vec<FilterDefinition>) -> (res: Result<
        (),
        ParseError<'a>,
    >)
        requires
            old(self).lexer_state.ready(),
            old(self).lexer_state.cur_token.kind != Kind::Sof,
            strings_loop_of(*old(self)) is Some,
            old(self).lexer_state.cur_token.kind != Kind::Eof,
            !old(self).closed,
            old(self).lexer_state.cur_token.kind == Kind::String,
        ensures
            final(self).lexer_state.ready(),
            same_setup(*final(self), *old(self)),
            strings_applied(
                *old(self),
                *final(self),
                old(strings)@,
                final(strings)@,
                old(filters)@,
                final(filters)@,
                strings_loop_of(*old(self))->Some_0,
            ),
            strings_result(res, *final(self), (strings_loop_of(*old(self))->Some_0).end),
        decreases old(self).lexer_state.lexer.source().len() - old(self).lexer_state.at@, 0int,
    {
        let ghost cs = self.lexer_state.lexer.source();
        let ghost p0 = *self;
        let ghost c = self.lexer_state.cursor();
        let ghost s0 = strings@;
        let ghost f0 = filters@;
        let close0 = self.syntax.keyword_closing[0];
        proof {
            lemma_cursor_moves(cs, c, Kind::Dot, true);
            lemma_cursor_moves(cs, c, close0, true);
            lemma_extends_same(s0);
            lemma_extends_same(f0);
            lemma_extends_same(p0.errors@);
        }
        if !self.seen_dot {
            self.lexer_state.bump_while_not(&close0);
            return Err(ParseError::new_from_parser(ParseErrorTypes::DoubleString, self));
        }
        let v = self.lexer_state.cur_token.clone().value;
        strings.push(v);
        self.lexer_state.bump(&Kind::String);
        self.seen_dot = false;
        let ghost p1 = *self;
        let ghost s1 = strings@;
        let r = self.read_strings(strings, filters);
        proof {
            lemma_extends_push(s0, v);
            lemma_extends_chain(s0, s1, strings@);
            let rest = strings_loop_of(p1)->Some_0;
            assert(values_match(seq![v], seq![c.at], cs));
            lemma_values_match_concat(seq![v], seq![c.at], strings@.skip(s1.len() as int), rest.strings, cs);
            lemma_extends_chain(f0, f0, filters@);
            lemma_extends_chain(p0.errors@, p1.errors@, self.errors@);
            lemma_errors_match_setup(self.errors@.skip(p0.errors@.len() as int), rest.errors, p0, p1, cs);
        }
        r
    }

    /// A filter in a keyword, after `|`.
    fn strings_at_filter(&mut self, strings: &mut Vec<TokenValue>, filters: &mut Vec<FilterDefinition>) -> (res: Result<
        (),
        ParseError<'a>,
    >)
        requires
            old(self).lexer_state.ready(),
            old(self).lexer_state.cur_token.kind != Kind::Sof,
            strings_loop_of(*old(self)) is Some,
            old(self).lexer_state.cur_token.kind != Kind::Eof,
            !old(self).closed,
            old(self).lexer_state.cur_token.kind == Kind::Bar,
        ensures
            final(self).lexer_state.ready(),
            same_setup(*final(self), *old(self)),
            strings_applied(
                *old(self),
                *final(self),
                old(strings)@,
                final(strings)@,
                old(filters)@,
                final(filters)@,
                strings_loop_of(*old(self))->Some_0,
            ),
            strings_result(res, *final(self), (strings_loop_of(*old(self))->Some_0).end),
        decreases old(self).lexer_state.lexer.source().len() - old(self).lexer_state.at@, 0int,
    {
        let ghost cs = self.lexer_state.lexer.source();
        let ghost p0 = *self;
        let ghost c = self.lexer_state.cursor();
        let ghost s0 = strings@;
        let ghost f0 = filters@;
        let close0 = self.syntax.keyword_closing[0];
        proof {
            lemma_cursor_moves(cs, c, Kind::Dot, true);
            lemma_cursor_moves(cs, c, close0, true);
            lemma_extends_same(s0);
            lemma_extends_same(f0);
            lemma_extends_same(p0.errors@);
        }
        let res = self.get_filter();
        let ghost p1 = *self;
        let ghost fd = res->Ok_0->Some_0;
        if let Ok(Some(def)) = res {
            filters.push(def);
        }
        let ghost f1 = filters@;
        proof {
            let close1 = p0.syntax.keyword_closing[1];
            let lbs = p0.last_bracket_start as int;
            lemma_filter_run_cursor(cs, c, p0.seen_comma, close0, close1, lbs);
            lemma_token_kind_not_sof(cs, self.lexer_state.at@);
        }
        let r = self.read_strings(strings, filters);
        proof {
            let close1 = p0.syntax.keyword_closing[1];
            let lbs = p0.last_bracket_start as int;
            let (f, cf, sc, cl, errs) = filter_run(cs, c, p0.seen_comma, close0, close1, lbs);
            let rest = strings_loop_of(p1)->Some_0;
            lemma_extends_chain(s0, s0, strings@);
            lemma_extends_push(f0, fd);
            lemma_extends_chain(f0, f1, filters@);
            assert(filters_match(seq![fd], seq![f], cs));
            lemma_filters_match_concat(seq![fd], seq![f], filters@.skip(f1.len() as int), rest.filters, cs);
            lemma_extends_chain(p0.errors@, p1.errors@, self.errors@);
            lemma_errors_match_concat(
                p1.errors@.skip(p0.errors@.len() as int),
                errs,
                self.errors@.skip(p1.errors@.len() as int),
                rest.errors,
                p0,
                p1,
                cs,
            );
        }
        r
    }

    /// A space, line break or other single character in a keyword is passed over.
    fn strings_pass(&mut self, strings: &mut Vec<TokenValue>, filters: &mut Vec<FilterDefinition>) -> (res: Result<
        (),
        ParseError<'a>,
    >)
        requires
            old(self).lexer_state.ready(),
            old(self).lexer_state.cur_token.kind != Kind::Sof,
            strings_loop_of(*old(self)) is Some,
            old(self).lexer_state.cur_token.kind != Kind::Eof,
            !old(self).closed,
            old(self).lexer_state.cur_token.kind == Kind::Space || old(self).lexer_state.cur_token.kind == Kind::NewLine
                || old(self).lexer_state.cur_token.kind == Kind::Identifier,
            old(self).lexer_state.cur_token.kind != old(self).syntax.keyword_closing[0],
        ensures
            final(self).lexer_state.ready(),
            same_setup(*final(self), *old(self)),
            strings_applied(
                *old(self),
                *final(self),
                old(strings)@,
                final(strings)@,
                old(filters)@,
                final(filters)@,
                strings_loop_of(*old(self))->Some_0,
            ),
            strings_result(res, *final(self), (strings_loop_of(*old(self))->Some_0).end),
        decreases old(self).lexer_state.lexer.source().len() - old(self).lexer_state.at@, 0int,
    {
        let ghost cs = self.lexer_state.lexer.source();
        let ghost p0 = *self;
        let ghost c = self.lexer_state.cursor();
        let ghost s0 = strings@;
        let ghost f0 = filters@;
        let close0 = self.syntax.keyword_closing[0];
        proof {
            lemma_cursor_moves(cs, c, Kind::Dot, true);
            lemma_cursor_moves(cs, c, close0, true);
            lemma_extends_same(s0);
            lemma_extends_same(f0);
            lemma_extends_same(p0.errors@);
        }
        let kind = *self.lexer_state.cur_kind();
        self.lexer_state.bump(&kind);
        let ghost p1 = *self;
        let r = self.read_strings(strings, filters);
        proof {
                lemma_extends_chain(s0, s0, strings@);
                lemma_extends_chain(f0, f0, filters@);
                lemma_extends_chain(p0.errors@, p1.errors@, self.errors@);
                lemma_errors_match_setup(
                    self.errors@.skip(p0.errors@.len() as int),
                    (strings_loop_of(p1)->Some_0).errors,
                    p0,
                    p1,
                    cs,
                );
        }
        r
    }
}

/// Reading the names of a keyword from cursor `c`: on to the first name,
/// which is always taken, then the rest as `strings_loop` describes.
#[verifier::opaque]
pub open spec fn strings_run(
    cs: Seq<char>,
    close0: Kind,
    close1: Kind,
    lbs: int,
    c: Cursor,
    seen_dot: bool,
    seen_comma: bool,
    closed: bool,
    opened: bool,
) -> Option<StringsRun> {
    let c1 = skip_cursor(cs, c, Kind::String, true);
    let c2 = next_cursor(cs, c1);
    match strings_loop(cs, close0, close1, lbs, c2, seen_dot, seen_comma, closed, opened) {
        Some(r) => Some(
            StringsRun {
                end: r.end,
                strings: seq![c1.at] + r.strings,
                filters: r.filters,
                errors: r.errors,
                cur: r.cur,
                seen_dot: r.seen_dot,
                seen_comma: r.seen_comma,
                closed: r.closed,
                opened: r.opened,
            },
        ),
        None => None,
    }
}

/// Reading the names of a keyword from the parser `p`.
pub open spec fn strings_run_of(p: Parser) -> Option<StringsRun> {
    strings_run(
        p.lexer_state.lexer.source(),
        p.syntax.keyword_closing[0],
        p.syntax.keyword_closing[1],
        p.last_bracket_start as int,
        p.lexer_state.cursor(),
        p.seen_dot,
        p.seen_comma,
        p.closed,
        p.opened,
    )
}

impl<'a> Parser<'a> {
    /// Reads the names of a keyword into `strings` and its filters into
    /// `filters`: the first name, then names after dots and filters after
    /// `|`, up to the closing of the keyword or the end of the text. Errors:
    /// two dots in a row, a name that does not follow a dot, or a first
    /// closing delimiter without the second.
    fn collect_strings(&mut self, strings: &mut Vec<TokenValue>, filters: &mut Vec<FilterDefinition>) -> (res: Result<
        (),
        ParseError<'a>,
    >)
        requires
            old(self).lexer_state.ready(),
            old(self).lexer_state.cur_token.kind != Kind::Sof,
            strings_run_of(*old(self)) is Some,
        ensures
            final(self).lexer_state.ready(),
            same_setup(*final(self), *old(self)),
            strings_applied(
                *old(self),
                *final(self),
                old(strings)@,
                final(strings)@,
                old(filters)@,
                final(filters)@,
                strings_run_of(*old(self))->Some_0,
            ),
            strings_result(res, *final(self), (strings_run_of(*old(self))->Some_0).end),
    {
        proof {
            reveal(strings_run);
        }
        let ghost cs = self.lexer_state.lexer.source();
        let ghost p0 = *self;
        let ghost c = self.lexer_state.cursor();
        let ghost s0 = strings@;
        proof {
            lemma_cursor_moves(cs, c, Kind::String, true);
        }
        self.lexer_state.bump_while_not(&Kind::String);
        let ghost c1 = self.lexer_state.cursor();
        proof {
            lemma_token_kind_not_sof(cs, c1.at);
        }
        let v = self.lexer_state.cur_val().clone();
        strings.push(v);
        self.lexer_state.bump_any();
        proof {
            lemma_cursor_moves(cs, c1, Kind::String, true);
            lemma_token_kind_not_sof(cs, self.lexer_state.at@);
        }
        let ghost p1 = *self;
        let ghost s1 = strings@;
        let r = self.read_strings(strings, filters);
        proof {
            lemma_extends_push(s0, v);
            lemma_extends_chain(s0, s1, strings@);
            let rest = strings_loop_of(p1)->Some_0;
            assert(values_match(seq![v], seq![c1.at], cs));
            lemma_values_match_concat(seq![v], seq![c1.at], strings@.skip(s1.len() as int), rest.strings, cs);
            lemma_errors_match_setup(self.errors@.skip(p0.errors@.len() as int), rest.errors, p0, p1, cs);
        }
        r
    }
}

/// Looking for the opening of a keyword from cursor `c`: at the first
/// opening delimiter, the cursor goes on to the second, and the search ends
/// found; at the end of the text it ends not found; otherwise it goes on to
/// the next second opening delimiter and looks again. Standing on a second
/// opening delimiter that is not a first, the search never ends: nothing is
/// returned then.
pub open spec fn opening_loop(cs: Seq<char>, c: Cursor, open0: Kind, open1: Kind) -> Option<(Cursor, bool)>
    decreases cs.len() - c.at,
{
    if !on_token(cs, c) {
        None
    } else if c.kind == open0 {
        Some((skip_cursor(cs, next_cursor(cs, c), open1, true), true))
    } else if c.kind == Kind::Eof {
        Some((next_cursor(cs, c), false))
    } else if c.kind == open1 {
        None
    } else {
        proof {
            lemma_cursor_moves(cs, c, open1, true);
        }
        opening_loop(cs, skip_cursor(cs, c, open1, true), open0, open1)
    }
}

/// The cursor stands on a token, or on the start of the text before any.
pub open spec fn cursor_ok(cs: Seq<char>, c: Cursor) -> bool {
    on_token(cs, c) || (c.kind == Kind::Sof && c.at == 0 && c.pos == 0)
}

/// Looking for the opening of a keyword from the parser's cursor `c`, after
/// moving past the current token: when a keyword is already open, it is
/// found at once, at the token that was current. The result: the cursor
/// after and the character position where the keyword starts, if found.
#[verifier::opaque]
pub open spec fn opening_run(cs: Seq<char>, c: Cursor, opened: bool, open0: Kind, open1: Kind) -> Option<
    (Cursor, Option<int>),
> {
    let c1 = next_cursor(cs, c);
    if opened {
        Some((c1, Some(c.at)))
    } else {
        match opening_loop(cs, c1, open0, open1) {
            Some((cf, found)) => Some((
                cf,
                if found {
                    Some(cf.at)
                } else {
                    None
                },
            )),
            None => None,
        }
    }
}

/// Looking for the opening of a keyword from the parser `p`.
pub open spec fn opening_of(p: Parser) -> Option<(Cursor, Option<int>)> {
    opening_run(
        p.lexer_state.lexer.source(),
        p.lexer_state.cursor(),
        p.opened,
        p.syntax.keyword_opening[0],
        p.syntax.keyword_opening[1],
    )
}

impl<'a> Parser<'a> {
    /// Moves past the current token and looks for the opening of a keyword,
    /// as `opening_run` describes; returns the byte offset where it starts.
    /// A keyword found is marked open and not closed.
    fn get_opening(&mut self) -> (res: Option<usize>)
        requires
            old(self).lexer_state.ready(),
            opening_of(*old(self)) is Some,
        ensures
            final(self).lexer_state.ready(),
            same_setup(*final(self), *old(self)),
            final(self).seen_dot == old(self).seen_dot,
            final(self).seen_comma == old(self).seen_comma,
            final(self).errors@ == old(self).errors@,
            ({
                let cs = old(self).lexer_state.lexer.source();
                let (cf, start) = opening_of(*old(self))->Some_0;
                &&& final(self).lexer_state.cursor() == cf
                &&& final(self).lexer_state.cur_token.kind != Kind::Sof
                &&& match start {
                    Some(q) => {
                        &&& res is Some
                        &&& res->Some_0 == utf8_len(cs.take(q))
                        &&& final(self).opened
                        &&& final(self).closed == (old(self).opened && old(self).closed)
                    },
                    None => res is None && final(self).opened == old(self).opened && final(self).closed
                        == old(self).closed,
                }
            }),
    {
        proof {
            reveal(opening_run);
        }
        let ghost cs = self.lexer_state.lexer.source();
        let ghost p0 = *self;
        let ghost c0 = self.lexer_state.cursor();
        let open0 = self.syntax.keyword_opening[0];
        let open1 = self.syntax.keyword_opening[1];
        let start0 = self.lexer_state.cur_token().start;
        proof {
            lemma_token_progress(cs, c0.pos);
        }
        self.lexer_state.bump_any();
        proof {
            lemma_token_kind_not_sof(cs, self.lexer_state.at@);
        }
        if self.opened {
            return Some(start0);
        }
        let ghost target = opening_loop(cs, self.lexer_state.cursor(), open0, open1);
        loop
            invariant
                self.lexer_state.ready(),
                p0 == *old(self),
                c0 == p0.lexer_state.cursor(),
                same_setup(*self, p0),
                self.seen_dot == p0.seen_dot,
                self.seen_comma == p0.seen_comma,
                self.errors@ == p0.errors@,
                !self.opened,
                !p0.opened,
                self.closed == p0.closed,
                self.lexer_state.cur_token.kind != Kind::Sof,
                open0 == p0.syntax.keyword_opening[0],
                open1 == p0.syntax.keyword_opening[1],
                cs == p0.lexer_state.lexer.source(),
                target == opening_loop(cs, next_cursor(cs, c0), open0, open1),
                target is Some,
                opening_loop(cs, self.lexer_state.cursor(), open0, open1) == target,
            decreases cs.len() - self.lexer_state.at@,
        {
            let ghost c = self.lexer_state.cursor();
            proof {
                reveal(opening_run);
                lemma_cursor_moves(cs, c, open1, true);
                lemma_cursor_moves(cs, next_cursor(cs, c), open1, true);
            }
            if self.lexer_state.eat(&open0) {
                self.opened = true;
                self.closed = false;
                self.lexer_state.bump_while_not(&open1);
                proof {
                    lemma_token_kind_not_sof(cs, self.lexer_state.at@);
                }
                return Some(self.lexer_state.cur_token().start);
            } else if self.lexer_state.eat(&Kind::Eof) {
                proof {
                    lemma_token_kind_not_sof(cs, self.lexer_state.at@);
                }
                return None;
            }
            self.lexer_state.bump_while_not(&open1);
        }
    }
}

#[verifier::rlimit(50)]
#[verifier::spinoff_prover]
pub proof fn lemma_strings_loop_cursor(
    cs: Seq<char>,
    close0: Kind,
    close1: Kind,
    lbs: int,
    c: Cursor,
    seen_dot: bool,
    seen_comma: bool,
    closed: bool,
    opened: bool,
)
    requires
        strings_loop(cs, close0, close1, lbs, c, seen_dot, seen_comma, closed, opened) is Some,
    ensures
        on_token(cs, c),
        on_token(cs, (strings_loop(cs, close0, close1, lbs, c, seen_dot, seen_comma, closed, opened)->Some_0).cur),
        (strings_loop(cs, close0, close1, lbs, c, seen_dot, seen_comma, closed, opened)->Some_0).cur.at >= c.at,
        c.kind == Kind::Eof ==> (strings_loop(cs, close0, close1, lbs, c, seen_dot, seen_comma, closed, opened)->Some_0).cur
            == c,
    decreases cs.len() - c.at,
{
    lemma_cursor_moves(cs, c, Kind::Dot, true);
    lemma_cursor_moves(cs, c, close0, true);
    if closed || c.kind == Kind::Eof {
    } else if c.kind == Kind::Dot {
        if !seen_dot {
            lemma_strings_loop_cursor(cs, close0, close1, lbs, next_cursor(cs, c), true, seen_comma, closed, opened);
        }
    } else if c.kind == Kind::String {
        if seen_dot {
            lemma_strings_loop_cursor(cs, close0, close1, lbs, next_cursor(cs, c), false, seen_comma, closed, opened);
        }
    } else if c.kind == Kind::Bar {
        let (f, cf, sc, cl, errs) = filter_run(cs, c, seen_comma, close0, close1, lbs);
        lemma_filter_run_cursor(cs, c, seen_comma, close0, close1, lbs);
        lemma_strings_loop_cursor(cs, close0, close1, lbs, cf, seen_dot, sc, cl || closed, !cl && opened);
    } else if c.kind == close0 {
        lemma_cursor_moves(cs, next_cursor(cs, c), close0, true);
    } else {
        lemma_strings_loop_cursor(cs, close0, close1, lbs, next_cursor(cs, c), seen_dot, seen_comma, closed, opened);
    }
}

pub proof fn lemma_strings_run_cursor(
    cs: Seq<char>,
    close0: Kind,
    close1: Kind,
    lbs: int,
    c: Cursor,
    seen_dot: bool,
    seen_comma: bool,
    closed: bool,
    opened: bool,
)
    requires
        on_token(cs, c),
        strings_run(cs, close0, close1, lbs, c, seen_dot, seen_comma, closed, opened) is Some,
    ensures
        on_token(cs, (strings_run(cs, close0, close1, lbs, c, seen_dot, seen_comma, closed, opened)->Some_0).cur),
        (strings_run(cs, close0, close1, lbs, c, seen_dot, seen_comma, closed, opened)->Some_0).cur.at >= c.at,
        (strings_run(cs, close0, close1, lbs, c, seen_dot, seen_comma, closed, opened)->Some_0).cur.kind != Kind::Eof
            ==> (strings_run(cs, close0, close1, lbs, c, seen_dot, seen_comma, closed, opened)->Some_0).cur.at > c.at,
{
    reveal(strings_run);
    lemma_cursor_moves(cs, c, Kind::String, true);
    let c1 = skip_cursor(cs, c, Kind::String, true);
    lemma_cursor_moves(cs, c1, Kind::String, true);
    let c2 = next_cursor(cs, c1);
    lemma_strings_loop_cursor(cs, close0, close1, lbs, c2, seen_dot, seen_comma, closed, opened);
    lemma_token_progress(cs, c1.at);
    lemma_token_progress(cs, c1.pos);
}

pub proof fn lemma_opening_loop_cursor(cs: Seq<char>, c: Cursor, open0: Kind, open1: Kind)
    requires
        opening_loop(cs, c, open0, open1) is Some,
    ensures
        on_token(cs, c),
        on_token(cs, (opening_loop(cs, c, open0, open1)->Some_0).0),
        (opening_loop(cs, c, open0, open1)->Some_0).0.at >= c.at,
    decreases cs.len() - c.at,
{
    lemma_cursor_moves(cs, c, open1, true);
    if c.kind == open0 {
        lemma_cursor_moves(cs, next_cursor(cs, c), open1, true);
    } else if c.kind == Kind::Eof {
    } else if c.kind != open1 {
        lemma_opening_loop_cursor(cs, skip_cursor(cs, c, open1, true), open0, open1);
    }
}

pub proof fn lemma_opening_run_cursor(cs: Seq<char>, c: Cursor, opened: bool, open0: Kind, open1: Kind)
    requires
        cursor_ok(cs, c),
        opening_run(cs, c, opened, open0, open1) is Some,
    ensures
        on_token(cs, (opening_run(cs, c, opened, open0, open1)->Some_0).0),
        (opening_run(cs, c, opened, open0, open1)->Some_0).0.at >= c.at,
{
    reveal(opening_run);
    lemma_token_progress(cs, c.at);
    lemma_token_progress(cs, c.pos);
    if on_token(cs, c) {
        lemma_cursor_moves(cs, c, open1, true);
    }
    if !opened {
        lemma_opening_loop_cursor(cs, next_cursor(cs, c), open0, open1);
    }
}

/// A keyword read from the tokens: its span (character positions, from the
/// token after its opening to the token after it), the positions of its
/// names and its filters.
pub struct KeywordSpec {
    pub start: int,
    pub end: int,
    pub strings: Seq<int>,
    pub filters: Seq<FilterSpec>,
}

/// What reading the keywords gives: the keywords, the errors reported on the
/// way, the cursor after, and the parser's flags and last bracket start after.
pub struct KeywordsRun {
    pub keywords: Seq<KeywordSpec>,
    pub errors: Seq<ErrSpec>,
    pub cur: Cursor,
    pub seen_dot: bool,
    pub seen_comma: bool,
    pub closed: bool,
    pub opened: bool,
    pub lbs: int,
}

/// The error that reading the names of a keyword ends with, if any.
pub open spec fn strings_errors(end: StringsEnd, cur: Cursor, lbs: int) -> Seq<ErrSpec> {
    match end {
        StringsEnd::DoubleDot => seq![ErrSpec { kind: ParseErrorTypes::DoubleDot, cur, start: lbs }],
        StringsEnd::DoubleString => seq![ErrSpec { kind: ParseErrorTypes::DoubleString, cur, start: lbs }],
        StringsEnd::Unclosed => seq![ErrSpec { kind: ParseErrorTypes::UnclosedBracket, cur, start: lbs }],
        _ => Seq::empty(),
    }
}

/// A measure of what is left to read from cursor `c`.
pub open spec fn left_to_read(cs: Seq<char>, c: Cursor) -> int {
    cs.len() - c.at + if c.kind == Kind::Sof {
        1int
    } else {
        0int
    }
}

/// Reading one keyword from cursor `c`: the keyword if an opening was found,
/// the errors reported, the cursor after, and the parser's flags and last
/// bracket start after.
pub struct StepRun {
    pub keyword: Option<KeywordSpec>,
    pub errors: Seq<ErrSpec>,
    pub cur: Cursor,
    pub seen_dot: bool,
    pub seen_comma: bool,
    pub closed: bool,
    pub opened: bool,
    pub lbs: int,
}

/// Reading one keyword from cursor `c`: look for an opening; if none is
/// found, nothing is read; else the keyword's last bracket start is the byte
/// before where it starts (a keyword at the very start of the text has none:
/// nothing is returned then), and its names and filters are read. Nothing is
/// returned where the reading never ends.
#[verifier::opaque]
pub open spec fn keyword_step(
    cs: Seq<char>,
    syntax: SyntaxSettings,
    c: Cursor,
    seen_dot: bool,
    seen_comma: bool,
    closed: bool,
    opened: bool,
    lbs: int,
) -> Option<StepRun> {
    match opening_run(cs, c, opened, syntax.keyword_opening[0], syntax.keyword_opening[1]) {
        None => None,
        Some((cf, None)) => Some(
            StepRun { keyword: None, errors: Seq::empty(), cur: cf, seen_dot, seen_comma, closed, opened, lbs },
        ),
        Some((cf, Some(q))) => {
            let start = utf8_len(cs.take(q));
            if start == 0 {
                None
            } else {
                let lbs2 = start - 1;
                match strings_run(
                    cs,
                    syntax.keyword_closing[0],
                    syntax.keyword_closing[1],
                    lbs2,
                    cf,
                    seen_dot,
                    seen_comma,
                    opened && closed,
                    true,
                ) {
                    None => None,
                    Some(r) => Some(
                        StepRun {
                            keyword: Some(
                                KeywordSpec { start: cf.at, end: r.cur.at, strings: r.strings, filters: r.filters },
                            ),
                            errors: r.errors + strings_errors(r.end, r.cur, lbs2),
                            cur: r.cur,
                            seen_dot: r.seen_dot,
                            seen_comma: r.seen_comma,
                            closed: r.closed,
                            opened: r.opened,
                            lbs: lbs2,
                        },
                    ),
                }
            }
        },
    }
}

/// A keyword read moves the cursor on.
pub proof fn lemma_keyword_step_progress(
    cs: Seq<char>,
    syntax: SyntaxSettings,
    c: Cursor,
    seen_dot: bool,
    seen_comma: bool,
    closed: bool,
    opened: bool,
    lbs: int,
)
    requires
        cursor_ok(cs, c),
        c.kind != Kind::Eof,
        keyword_step(cs, syntax, c, seen_dot, seen_comma, closed, opened, lbs) is Some,
    ensures
        on_token(cs, (keyword_step(cs, syntax, c, seen_dot, seen_comma, closed, opened, lbs)->Some_0).cur),
        (keyword_step(cs, syntax, c, seen_dot, seen_comma, closed, opened, lbs)->Some_0).keyword is Some ==> left_to_read(
            cs,
            (keyword_step(cs, syntax, c, seen_dot, seen_comma, closed, opened, lbs)->Some_0).cur,
        ) < left_to_read(cs, c),
{
    reveal(keyword_step);
    lemma_opening_run_cursor(cs, c, opened, syntax.keyword_opening[0], syntax.keyword_opening[1]);
    lemma_token_progress(cs, c.at);
    let (cf, q) = opening_run(cs, c, opened, syntax.keyword_opening[0], syntax.keyword_opening[1])->Some_0;
    if q is Some {
        let lbs2 = utf8_len(cs.take(q->Some_0)) - 1;
        lemma_strings_run_cursor(
            cs,
            syntax.keyword_closing[0],
            syntax.keyword_closing[1],
            lbs2,
            cf,
            seen_dot,
            seen_comma,
            opened && closed,
            true,
        );
        let r = strings_run(
            cs,
            syntax.keyword_closing[0],
            syntax.keyword_closing[1],
            lbs2,
            cf,
            seen_dot,
            seen_comma,
            opened && closed,
            true,
        )->Some_0;
        lemma_token_progress(cs, r.cur.at);
    }
}

/// Reading keywords from cursor `c` until the end of the text, one after
/// the other as `keyword_step` describes, stopping where no opening is
/// found. Nothing is returned where the reading never ends or fails.
#[verifier::opaque]
pub open spec fn keywords_loop(
    cs: Seq<char>,
    syntax: SyntaxSettings,
    c: Cursor,
    seen_dot: bool,
    seen_comma: bool,
    closed: bool,
    opened: bool,
    lbs: int,
) -> Option<KeywordsRun>
    decreases left_to_read(cs, c),
{
    if !cursor_ok(cs, c) {
        None
    } else if c.kind == Kind::Eof {
        Some(
            KeywordsRun {
                keywords: Seq::empty(),
                errors: Seq::empty(),
                cur: c,
                seen_dot,
                seen_comma,
                closed,
                opened,
                lbs,
            },
        )
    } else {
        match keyword_step(cs, syntax, c, seen_dot, seen_comma, closed, opened, lbs) {
            None => None,
            Some(st) => match st.keyword {
                None => Some(
                    KeywordsRun {
                        keywords: Seq::empty(),
                        errors: st.errors,
                        cur: st.cur,
                        seen_dot: st.seen_dot,
                        seen_comma: st.seen_comma,
                        closed: st.closed,
                        opened: st.opened,
                        lbs: st.lbs,
                    },
                ),
                Some(kw) => {
                    proof {
                        lemma_keyword_step_progress(cs, syntax, c, seen_dot, seen_comma, closed, opened, lbs);
                    }
                    match keywords_loop(cs, syntax, st.cur, st.seen_dot, st.seen_comma, st.closed, st.opened, st.lbs) {
                        Some(k) => Some(
                            KeywordsRun {
                                keywords: seq![kw] + k.keywords,
                                errors: st.errors + k.errors,
                                cur: k.cur,
                                seen_dot: k.seen_dot,
                                seen_comma: k.seen_comma,
                                closed: k.closed,
                                opened: k.opened,
                                lbs: k.lbs,
                            },
                        ),
                        None => None,
                    }
                },
            },
        }
    }
}

/// Reading keywords: at the end of the text nothing is read; otherwise one
/// keyword step, then the rest when a keyword was read.
pub proof fn lemma_keywords_loop_unfold(
    cs: Seq<char>,
    syntax: SyntaxSettings,
    c: Cursor,
    seen_dot: bool,
    seen_comma: bool,
    closed: bool,
    opened: bool,
    lbs: int,
)
    requires
        keywords_loop(cs, syntax, c, seen_dot, seen_comma, closed, opened, lbs) is Some,
    ensures
        cursor_ok(cs, c),
        ({
            let k = keywords_loop(cs, syntax, c, seen_dot, seen_comma, closed, opened, lbs)->Some_0;
            c.kind == Kind::Eof ==> k == KeywordsRun {
                keywords: Seq::empty(),
                errors: Seq::empty(),
                cur: c,
                seen_dot,
                seen_comma,
                closed,
                opened,
                lbs,
            }
        }),
        c.kind != Kind::Eof ==> keyword_step(cs, syntax, c, seen_dot, seen_comma, closed, opened, lbs) is Some,
        ({
            let k = keywords_loop(cs, syntax, c, seen_dot, seen_comma, closed, opened, lbs)->Some_0;
            let st = keyword_step(cs, syntax, c, seen_dot, seen_comma, closed, opened, lbs)->Some_0;
            c.kind != Kind::Eof && st.keyword is None ==> {
                &&& k.keywords == Seq::<KeywordSpec>::empty()
                &&& k.errors == st.errors
                &&& k.cur == st.cur
                &&& k.seen_dot == st.seen_dot
                &&& k.seen_comma == st.seen_comma
                &&& k.closed == st.closed
                &&& k.opened == st.opened
                &&& k.lbs == st.lbs
            }
        }),
        ({
            let k = keywords_loop(cs, syntax, c, seen_dot, seen_comma, closed, opened, lbs)->Some_0;
            let st = keyword_step(cs, syntax, c, seen_dot, seen_comma, closed, opened, lbs)->Some_0;
            let rest = keywords_loop(cs, syntax, st.cur, st.seen_dot, st.seen_comma, st.closed, st.opened, st.lbs);
            c.kind != Kind::Eof && st.keyword is Some ==> {
                &&& rest is Some
                &&& k.keywords == seq![st.keyword->Some_0] + rest->Some_0.keywords
                &&& k.errors == st.errors + rest->Some_0.errors
                &&& k.cur == rest->Some_0.cur
                &&& k.seen_dot == rest->Some_0.seen_dot
                &&& k.seen_comma == rest->Some_0.seen_comma
                &&& k.closed == rest->Some_0.closed
                &&& k.opened == rest->Some_0.opened
                &&& k.lbs == rest->Some_0.lbs
            }
        }),
{
    reveal_with_fuel(keywords_loop, 1);
}

/// Reading one keyword from the parser `p`, as `keyword_step` describes.
pub open spec fn keyword_step_of(p: Parser) -> Option<StepRun> {
    keyword_step(
        p.lexer_state.lexer.source(),
        *p.syntax,
        p.lexer_state.cursor(),
        p.seen_dot,
        p.seen_comma,
        p.closed,
        p.opened,
        p.last_bracket_start as int,
    )
}

/// Reading keywords from the parser `p`, as `keywords_loop` describes.
pub open spec fn keywords_of(p: Parser) -> Option<KeywordsRun> {
    keywords_loop(
        p.lexer_state.lexer.source(),
        *p.syntax,
        p.lexer_state.cursor(),
        p.seen_dot,
        p.seen_comma,
        p.closed,
        p.opened,
        p.last_bracket_start as int,
    )
}

/// A keyword: the span it was read from, its names and its filters (none
/// when it has no filter).
#[derive(Debug)]
pub struct KeywordDefinition {
    pub node: Node,
    pub keywords: Vec<TokenValue>,
    pub filters: Option<Vec<FilterDefinition>>,
}

/// A statement of a template.
#[derive(Debug)]
pub enum Statement {
    KeywordDefinition(Box<KeywordDefinition>),
}

/// A parsed template: its span and its statements.
#[derive(Debug)]
pub struct Program {
    pub node: Node,
    pub body: Vec<Statement>,
}

/// `st` is the keyword `k` of `cs`.
pub open spec fn keyword_matches(st: Statement, k: KeywordSpec, cs: Seq<char>) -> bool {
    match st {
        Statement::KeywordDefinition(kd) => {
            &&& kd.node.start == utf8_len(cs.take(k.start))
            &&& kd.node.end == utf8_len(cs.take(k.end))
            &&& values_match(kd.keywords@, k.strings, cs)
            &&& match kd.filters {
                Some(fs) => fs@.len() > 0 && filters_match(fs@, k.filters, cs),
                None => k.filters.len() == 0,
            }
        },
    }
}

/// `v` are the keywords `ks` of `cs`, in order.
pub open spec fn keywords_match(v: Seq<Statement>, ks: Seq<KeywordSpec>, cs: Seq<char>) -> bool {
    &&& v.len() == ks.len()
    &&& forall|i: int| 0 <= i < v.len() ==> #[trigger] keyword_matches(v[i], ks[i], cs)
}

/// The parser's fields that reading keywords leaves alone.
pub open spec fn same_source(a: Parser, b: Parser) -> bool {
    &&& a.source == b.source
    &&& a.filename == b.filename
    &&& a.syntax == b.syntax
    &&& a.lexer_state.lexer.source() == b.lexer_state.lexer.source()
}

/// The effect of reading keywords as `r` describes, from the parser `p0` to
/// `p1`, with the keywords `v` returned.
pub open spec fn keywords_applied(p0: Parser, p1: Parser, v: Seq<Statement>, r: KeywordsRun) -> bool {
    let cs = p0.lexer_state.lexer.source();
    &&& keywords_match(v, r.keywords, cs)
    &&& p1.lexer_state.cursor() == r.cur
    &&& p1.seen_dot == r.seen_dot
    &&& p1.seen_comma == r.seen_comma
    &&& p1.closed == r.closed
    &&& p1.opened == r.opened
    &&& p1.last_bracket_start == r.lbs
    &&& extends(p1.errors@, p0.errors@)
    &&& errors_match(p1.errors@.skip(p0.errors@.len() as int), r.errors, p0, cs)
}

proof fn lemma_keywords_concat(a: Seq<Statement>, ka: Seq<KeywordSpec>, b: Seq<Statement>, kb: Seq<KeywordSpec>, cs: Seq<char>)
    requires
        keywords_match(a, ka, cs),
        keywords_match(b, kb, cs),
    ensures
        keywords_match(a + b, ka + kb, cs),
{
    assert forall|i: int| 0 <= i < (a + b).len() implies #[trigger] keyword_matches((a + b)[i], (ka + kb)[i], cs) by {
        if i >= a.len() {
            assert(keyword_matches(b[i - a.len()], kb[i - a.len()], cs));
        }
    }
}

proof fn lemma_skip_zero<A>(s: Seq<A>)
    ensures
        s.skip(0) == s,
{
    assert(s.skip(0) =~= s);
}

/// The effect of reading one keyword as `st` describes, from the parser `p0`
/// to `p1`, with `res` returned.
pub open spec fn step_applied(p0: Parser, p1: Parser, res: Option<Statement>, st: StepRun) -> bool {
    let cs = p0.lexer_state.lexer.source();
    &&& p1.lexer_state.cursor() == st.cur
    &&& p1.seen_dot == st.seen_dot
    &&& p1.seen_comma == st.seen_comma
    &&& p1.closed == st.closed
    &&& p1.opened == st.opened
    &&& p1.last_bracket_start == st.lbs
    &&& extends(p1.errors@, p0.errors@)
    &&& errors_match(p1.errors@.skip(p0.errors@.len() as int), st.errors, p0, cs)
    &&& match st.keyword {
        None => res is None,
        Some(kw) => res matches Some(s) && keyword_matches(s, kw, cs),
    }
}

impl<'a> Parser<'a> {
    /// Reads one keyword, as `keyword_step` describes. An error in the
    /// keyword is reported and the keyword is returned all the same.
    #[verifier::rlimit(40)]
    #[verifier::spinoff_prover]
    fn read_keyword(&mut self) -> (res: Option<Statement>)
        requires
            old(self).lexer_state.ready(),
            old(self).lexer_state.cur_token.kind != Kind::Eof,
            keyword_step_of(*old(self)) is Some,
        ensures
            final(self).lexer_state.ready(),
            same_source(*final(self), *old(self)),
            step_applied(*old(self), *final(self), res, keyword_step_of(*old(self))->Some_0),
    {
        proof {
            reveal(keyword_step);
        }
        let ghost cs = self.lexer_state.lexer.source();
        let ghost p0 = *self;
        let open0 = self.syntax.keyword_opening[0];
        if !self.lexer_state.at(&open0) {
            self.lexer_state.bump_until_not_at(&open0);
        }
        let opening = self.get_opening();
        let ghost p1 = *self;
        proof {
            lemma_extends_same(p0.errors@);
        }
        if opening.is_none() {
            return None;
        }
        let o = opening.unwrap();
        self.last_bracket_start = o - 1;
        let start = self.start_node();
        let mut strings: Vec<TokenValue> = Vec::new();
        let mut filters: Vec<FilterDefinition> = Vec::new();
        let ghost p2 = *self;
        let r = self.collect_strings(&mut strings, &mut filters);
        let ghost p3 = *self;
        let ghost run = strings_run_of(p2)->Some_0;
        proof {
            lemma_strings_run_cursor(
                cs,
                p2.syntax.keyword_closing[0],
                p2.syntax.keyword_closing[1],
                p2.last_bracket_start as int,
                p2.lexer_state.cursor(),
                p2.seen_dot,
                p2.seen_comma,
                p2.closed,
                p2.opened,
            );
            lemma_token_kind_not_sof(cs, p3.lexer_state.at@);
            if r is Err {
                lemma_error_at_cursor(r->Err_0, p3, r->Err_0.err_type);
            }
        }
        if let Some(e) = handle_error(r) {
            self.errors.push(e);
        }
        let node = self.finish_node(start);
        let filters = if filters.len() >= 1 {
            Some(filters)
        } else {
            None
        };
        let st = Statement::KeywordDefinition(Box::new(KeywordDefinition { node, keywords: strings, filters }));
        proof {
            let lbs2 = p2.last_bracket_start as int;
            lemma_skip_zero(strings@);
            if filters is Some {
                lemma_skip_zero(filters->Some_0@);
            }
            let e_end = if r is Err {
                seq![r->Err_0]
            } else {
                Seq::<ParseError>::empty()
            };
            assert(errors_match(e_end, strings_errors(run.end, run.cur, lbs2), p3, cs));
            assert(self.errors@ =~= p3.errors@ + e_end);
            assert(extends(self.errors@, p3.errors@)) by {
                assert(self.errors@.take(p3.errors@.len() as int) =~= p3.errors@);
            }
            assert(self.errors@.skip(p3.errors@.len() as int) =~= e_end);
            lemma_extends_chain(p0.errors@, p3.errors@, self.errors@);
            lemma_errors_match_setup(p3.errors@.skip(p0.errors@.len() as int), run.errors, p0, p2, cs);
            lemma_errors_match_concat(
                p3.errors@.skip(p0.errors@.len() as int),
                run.errors,
                e_end,
                strings_errors(run.end, run.cur, lbs2),
                p0,
                p3,
                cs,
            );
        }
        Some(st)
    }

    /// Reads keywords into `vec`, as `keywords_loop` describes.
    #[verifier::rlimit(40)]
    #[verifier::spinoff_prover]
    fn read_keywords(&mut self, vec: &mut Vec<Statement>)
        requires
            old(self).lexer_state.ready(),
            keywords_of(*old(self)) is Some,
        ensures
            final(self).lexer_state.ready(),
            same_source(*final(self), *old(self)),
            extends(final(vec)@, old(vec)@),
            keywords_applied(
                *old(self),
                *final(self),
                final(vec)@.skip(old(vec)@.len() as int),
                keywords_of(*old(self))->Some_0,
            ),
        decreases left_to_read(old(self).lexer_state.lexer.source(), old(self).lexer_state.cursor()),
    {
        let ghost cs = self.lexer_state.lexer.source();
        let ghost p0 = *self;
        let ghost v0 = vec@;
        proof {
            lemma_keywords_loop_unfold(
                cs,
                *p0.syntax,
                p0.lexer_state.cursor(),
                p0.seen_dot,
                p0.seen_comma,
                p0.closed,
                p0.opened,
                p0.last_bracket_start as int,
            );
            lemma_extends_same(v0);
            lemma_extends_same(p0.errors@);
        }
        if self.lexer_state.at(&Kind::Eof) {
            return;
        }
        proof {
            lemma_keyword_step_progress(
                cs,
                *p0.syntax,
                p0.lexer_state.cursor(),
                p0.seen_dot,
                p0.seen_comma,
                p0.closed,
                p0.opened,
                p0.last_bracket_start as int,
            );
        }
        let ghost st_run = keyword_step_of(p0)->Some_0;
        let next = self.read_keyword();
        match next {
            None => {
                proof {
                    assert(vec@.skip(v0.len() as int) =~= Seq::<Statement>::empty());
                }
            },
            Some(st) => {
                vec.push(st);
                let ghost p1 = *self;
                let ghost v1 = vec@;
                self.read_keywords(vec);
                proof {
                    let kw = st_run.keyword->Some_0;
                    let tail = keywords_of(p1)->Some_0;
                    lemma_extends_push(v0, st);
                    lemma_extends_chain(v0, v1, vec@);
                    assert(keywords_match(seq![st], seq![kw], cs)) by {
                        assert(keyword_matches(seq![st][0], seq![kw][0], cs));
                    }
                    lemma_keywords_concat(seq![st], seq![kw], vec@.skip(v1.len() as int), tail.keywords, cs);
                    lemma_extends_chain(p0.errors@, p1.errors@, self.errors@);
                    lemma_errors_match_concat(
                        p1.errors@.skip(p0.errors@.len() as int),
                        st_run.errors,
                        self.errors@.skip(p1.errors@.len() as int),
                        tail.errors,
                        p0,
                        p1,
                        cs,
                    );
                }
            },
        }
    }

    /// Reads the keywords of the text, as `keywords_loop` describes, one
    /// after the other until the end of the text or until no opening is found.
    pub fn get_keywords(&mut self) -> (res: Vec<Statement>)
        requires
            old(self).lexer_state.ready(),
            keywords_of(*old(self)) is Some,
        ensures
            final(self).lexer_state.ready(),
            same_source(*final(self), *old(self)),
            keywords_applied(*old(self), *final(self), res@, keywords_of(*old(self))->Some_0),
    {
        let mut vec: Vec<Statement> = Vec::new();
        self.read_keywords(&mut vec);
        proof {
            lemma_skip_zero(vec@);
        }
        vec
    }

    /// Parses the text: its keywords, as `get_keywords` reads them, over the
    /// whole source.
    pub fn parse(&mut self) -> (res: Program)
        requires
            old(self).lexer_state.ready(),
            keywords_of(*old(self)) is Some,
        ensures
            res.node.start == 0,
            res.node.end == old(self).source.len(),
            final(self).lexer_state.ready(),
            same_source(*final(self), *old(self)),
            keywords_applied(*old(self), *final(self), res.body@, keywords_of(*old(self))->Some_0),
    {
        let end = self.source.len();
        let body = self.get_keywords();
        Program { node: Node { start: 0, end }, body }
    }
}

} // verus!
