//! Command-line helpers: the log level and the template syntax.
use vstd::prelude::*;
use vstd::string::StringExecFns;

verus! {

/// How much is logged, from nothing to everything.
#[derive(Debug, Clone, Copy, PartialEq, Eq, Structural)]
pub enum LogLevel {
    Off,
    Error,
    Warn,
    Info,
    Debug,
    Trace,
}

/// The log level the flags ask for: `verbose` wins over `quiet`, which wins
/// over `debug`; with none of them set, warnings are shown.
pub fn get_log_level(verbose: Option<bool>, quiet: Option<bool>, debug: Option<bool>) -> (res: LogLevel)
    ensures
        res == if verbose == Some(true) {
            LogLevel::Info
        } else if quiet == Some(true) {
            LogLevel::Off
        } else if debug == Some(true) {
            LogLevel::Debug
        } else {
            LogLevel::Warn
        },
{
    if verbose == Some(true) {
        LogLevel::Info
    } else if quiet == Some(true) {
        LogLevel::Off
    } else if debug == Some(true) {
        LogLevel::Debug
    } else {
        LogLevel::Warn
    }
}

/// The delimiters of template expressions and of template blocks.
#[derive(Debug, Clone)]
pub struct EngineSyntax {
    pub keyword_left: String,
    pub keyword_right: String,
    pub block_left: String,
    pub block_right: String,
}

impl Default for EngineSyntax {
    /// Expressions between `{{` and `}}`, blocks between `<*` and `*>`.
    fn default() -> (res: Self)
        ensures
            res.keyword_left@ == seq!['{', '{'],
            res.keyword_right@ == seq!['}', '}'],
            res.block_left@ == seq!['<', '*'],
            res.block_right@ == seq!['*', '>'],
    {
        proof {
            reveal_strlit("{{");
            reveal_strlit("}}");
            reveal_strlit("<*");
            reveal_strlit("*>");
        }
        EngineSyntax {
            keyword_left: String::from_str("{{"),
            keyword_right: String::from_str("}}"),
            block_left: String::from_str("<*"),
            block_right: String::from_str("*>"),
        }
    }
}

/// The delimiter `given`, or `default` where none is given.
pub open spec fn delimiter_or(given: Option<&String>, default: Seq<char>) -> Seq<char> {
    match given {
        Some(s) => s@,
        None => default,
    }
}

/// The template syntax: the default delimiters, each replaced by the one given.
pub fn get_syntax(
    bprefix: Option<&String>,
    bpostfix: Option<&String>,
    eprefix: Option<&String>,
    epostfix: Option<&String>,
) -> (res: EngineSyntax)
    ensures
        res.block_left@ == delimiter_or(bprefix, seq!['<', '*']),
        res.block_right@ == delimiter_or(bpostfix, seq!['*', '>']),
        res.keyword_left@ == delimiter_or(eprefix, seq!['{', '{']),
        res.keyword_right@ == delimiter_or(epostfix, seq!['}', '}']),
{
    let mut syntax = EngineSyntax::default();
    if let Some(bprefix) = bprefix {
        syntax.block_left = bprefix.clone();
    }
    if let Some(bpostfix) = bpostfix {
        syntax.block_right = bpostfix.clone();
    }
    if let Some(eprefix) = eprefix {
        syntax.keyword_left = eprefix.clone();
    }
    if let Some(epostfix) = epostfix {
        syntax.keyword_right = epostfix.clone();
    }
    syntax
}

} // verus!
