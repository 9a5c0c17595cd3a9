//! Rendering parsed template items against a JSON context: raw text is
//! passed through, a dotted name becomes the text at its path (or a color
//! with its format and filters), and a loop renders its body once for each
//! entry or item of what it runs over, with its variables bound.
//!
//! A color is a string of the form `#RRGGBBAA` reached by all but the last
//! name of a path: `colors.primary.dark.hex` reads the color at
//! `colors.primary.dark` and asks for the format `hex`. Formatting colors and
//! applying filters is left to the caller, which gets the color, the format
//! and the filters in order.
use vstd::prelude::*;
use vstd::string::StringExecFns;
use vstd::string::StringSliceAdditionalSpecFns;
use vstd::string::StrSliceExecFns;
use vstd::utf8::encode_utf8;

use crate::cache::{argb_from_hex, is_continuation, pairs_on_char_boundaries, ArgbHelper};
use crate::json::{key_pos, JsonValue};
use crate::template::{ArgValue, Expression, SpannedExpr, SpannedValue};
use crate::textfilters::{apply_text_filter, text_filter, TextFilterError};

verus! {

/// A filter to apply: its name and its arguments.
#[derive(Debug)]
pub struct FilterCall {
    pub name: String,
    pub args: Vec<ArgValue>,
}

/// A piece of rendered output.
#[derive(Debug)]
pub enum Piece {
    /// Text, as it is.
    Text(String),
    /// A color to write in `format`, after the filters, in order; `source`
    /// is the dotted name that led to it, without the format.
    Color { color: ArgbHelper, format: String, filters: Vec<FilterCall>, source: Vec<String> },
}

/// Why a template could not be rendered.
#[derive(Debug, Clone, Copy, PartialEq, Eq, Structural)]
pub enum RenderError {
    /// A dotted name leads to nothing.
    MissingPath,
    /// A dotted name leads to a value that cannot be written as text.
    NotText,
    /// A text filter that could not be applied to a text value.
    TextFilter(TextFilterError),
    /// A loop over something that is neither a map nor a list.
    NotIterable,
    /// A loop with a number of variables it cannot bind.
    LoopVariables,
    /// A loop or filtered expression whose name part is not a dotted name.
    NotAName,
}

/// A piece, by its values.
pub enum PieceView {
    Text(Seq<char>),
    Color {
        color: ArgbHelper,
        format: Seq<char>,
        filters: Seq<(Seq<char>, Seq<ArgValue>)>,
        source: Seq<Seq<char>>,
    },
}

pub open spec fn piece_view(p: Piece) -> PieceView {
    match p {
        Piece::Text(s) => PieceView::Text(s@),
        Piece::Color { color, format, filters, source } => PieceView::Color {
            color,
            format: format@,
            filters: filters@.map_values(|f: FilterCall| (f.name@, f.args@)),
            source: path_of(source@),
        },
    }
}

pub open spec fn pieces_view(ps: Seq<Piece>) -> Seq<PieceView> {
    ps.map_values(|p: Piece| piece_view(p))
}

/// The color a text stands for when it is `#` and four pairs of
/// hexadecimal digits (red, green, blue, alpha).
pub open spec fn hex_color_of(s: Seq<char>) -> Option<ArgbHelper> {
    let b = encode_utf8(s);
    if pairs_on_char_boundaries(b) && argb_from_hex(b) is Ok {
        Some(argb_from_hex(b)->Ok_0)
    } else {
        None
    }
}

/// What a dotted name leads to.
pub enum Found {
    Value(JsonValue),
    Color(ArgbHelper, Seq<char>),
}

/// The value bound to `name`, the innermost binding first.
pub open spec fn lookup(scope: Seq<(Seq<char>, JsonValue)>, name: Seq<char>) -> Option<JsonValue>
    decreases scope.len(),
{
    if scope.len() == 0 {
        None
    } else if scope.last().0 == name {
        Some(scope.last().1)
    } else {
        lookup(scope.drop_last(), name)
    }
}

/// The value a path starts from: a binding of the name, else the entry of
/// the context with that key.
pub open spec fn base_value(scope: Seq<(Seq<char>, JsonValue)>, data: JsonValue, name: Seq<char>) -> Option<JsonValue> {
    match lookup(scope, name) {
        Some(v) => Some(v),
        None => match data {
            JsonValue::Object(es) => if key_pos(es@, name, 0) < es@.len() {
                Some(es@[key_pos(es@, name, 0)].1)
            } else {
                None
            },
            _ => None,
        },
    }
}

/// Following the names of `path` from `i` into `v`: an object goes on to
/// the entry with the name; a color text followed by the last name is the
/// color in that format.
pub open spec fn walk(v: JsonValue, path: Seq<Seq<char>>, i: int) -> Option<Found>
    decreases path.len() - i,
{
    if i >= path.len() {
        Some(Found::Value(v))
    } else {
        match v {
            JsonValue::Object(es) => if key_pos(es@, path[i], 0) < es@.len() {
                walk(es@[key_pos(es@, path[i], 0)].1, path, i + 1)
            } else {
                None
            },
            JsonValue::String(s) => if i == path.len() - 1 && hex_color_of(s@) is Some {
                Some(Found::Color(hex_color_of(s@)->0, path[i]))
            } else {
                None
            },
            _ => None,
        }
    }
}

/// What the dotted name `path` leads to.
pub open spec fn resolve(path: Seq<Seq<char>>, scope: Seq<(Seq<char>, JsonValue)>, data: JsonValue) -> Option<Found> {
    if path.len() == 0 {
        None
    } else {
        match base_value(scope, data, path[0]) {
            Some(v) => walk(v, path, 1),
            None => None,
        }
    }
}

/// The names of a dotted name.
pub open spec fn path_of(ks: Seq<String>) -> Seq<Seq<char>> {
    ks.map_values(|s: String| s@)
}

/// A value as text: a string, the text of a number, `true` or `false`.
pub open spec fn text_of(v: JsonValue) -> Option<Seq<char>> {
    match v {
        JsonValue::String(s) => Some(s@),
        JsonValue::Number(t) => Some(t@),
        JsonValue::Bool(b) => Some(
            if b {
                "true"@
            } else {
                "false"@
            },
        ),
        _ => None,
    }
}

/// The name of a loop variable.
pub open spec fn var_name(a: ArgValue) -> Seq<char> {
    match a {
        ArgValue::Ident(s) => s@,
        ArgValue::Int(s) => s@,
        ArgValue::Float(s) => s@,
    }
}

/// The filters among `fs` from `i`, by name and arguments; other items are passed over.
pub open spec fn filter_calls(fs: Seq<SpannedExpr>, i: int) -> Seq<(Seq<char>, Seq<ArgValue>)>
    decreases fs.len() - i,
{
    if i < 0 || i >= fs.len() {
        Seq::empty()
    } else {
        match fs[i].expr {
            Expression::Filter { name, args } => seq![(name@, args@.map_values(|a: SpannedValue| a.value))]
                + filter_calls(fs, i + 1),
            _ => filter_calls(fs, i + 1),
        }
    }
}

/// The text filters `fs` from `i` applied in turn to `t`.
pub open spec fn apply_text_filters(t: Seq<char>, fs: Seq<(Seq<char>, Seq<ArgValue>)>, i: int) -> Result<
    Seq<char>,
    RenderError,
>
    decreases fs.len() - i,
{
    if i < 0 || i >= fs.len() {
        Ok(t)
    } else {
        match text_filter(t, fs[i].0, fs[i].1) {
            Ok(t2) => apply_text_filters(t2, fs, i + 1),
            Err(e) => Err(RenderError::TextFilter(e)),
        }
    }
}

/// The pieces of the dotted name `path`, alone or with filters: a color
/// carries its filters to be applied by the caller; a text value has its
/// filters applied in order.
pub open spec fn name_pieces(
    path: Seq<Seq<char>>,
    found: Option<Found>,
    filters: Option<Seq<(Seq<char>, Seq<ArgValue>)>>,
) -> Result<Seq<PieceView>, RenderError> {
    match found {
        None => Err(RenderError::MissingPath),
        Some(Found::Color(c, f)) => Ok(
            seq![
                PieceView::Color {
                    color: c,
                    format: f,
                    filters: match filters {
                        Some(fs) => fs,
                        None => Seq::empty(),
                    },
                    source: path.take(path.len() - 1),
                },
            ],
        ),
        Some(Found::Value(v)) => match text_of(v) {
            None => Err(RenderError::NotText),
            Some(t) => match filters {
                None => Ok(seq![PieceView::Text(t)]),
                Some(fs) => match apply_text_filters(t, fs, 0) {
                    Ok(r) => Ok(seq![PieceView::Text(r)]),
                    Err(e) => Err(e),
                },
            },
        },
    }
}

/// Joins the pieces of one part with those of the rest; the first error wins.
pub open spec fn then(a: Result<Seq<PieceView>, RenderError>, b: Result<Seq<PieceView>, RenderError>) -> Result<
    Seq<PieceView>,
    RenderError,
> {
    match a {
        Err(e) => Err(e),
        Ok(x) => match b {
            Err(e) => Err(e),
            Ok(y) => Ok(x + y),
        },
    }
}

/// Rendering the items from `i`, in order.
pub open spec fn items_from(items: Seq<SpannedExpr>, i: int, scope: Seq<(Seq<char>, JsonValue)>, data: JsonValue) -> Result<
    Seq<PieceView>,
    RenderError,
>
    decreases items, 1int, items.len() - i,
{
    if i < 0 || i >= items.len() {
        Ok(Seq::empty())
    } else {
        then(expr_pieces(items[i], scope, data), items_from(items, i + 1, scope, data))
    }
}

/// Rendering one item.
pub open spec fn expr_pieces(e: SpannedExpr, scope: Seq<(Seq<char>, JsonValue)>, data: JsonValue) -> Result<
    Seq<PieceView>,
    RenderError,
>
    decreases e, 0int, 0int,
{
    match e.expr {
        Expression::Raw { value } => Ok(seq![PieceView::Text(value@)]),
        Expression::Keyword { keywords } => name_pieces(path_of(keywords@), resolve(path_of(keywords@), scope, data), None),
        Expression::KeywordWithFilters { keyword, filters } => match keyword.expr {
            Expression::Keyword { keywords } => name_pieces(
                path_of(keywords@),
                resolve(path_of(keywords@), scope, data),
                Some(filter_calls(filters@, 0)),
            ),
            _ => Err(RenderError::NotAName),
        },
        Expression::ForLoop { var, list, body } => match list.expr {
            Expression::Keyword { keywords } => match resolve(path_of(keywords@), scope, data) {
                None => Err(RenderError::MissingPath),
                Some(Found::Value(JsonValue::Object(es))) => entries_pieces(es@, 0, var@, body@, scope, data),
                Some(Found::Value(JsonValue::Array(xs))) => array_pieces(xs@, 0, var@, body@, scope, data),
                Some(_) => Err(RenderError::NotIterable),
            },
            _ => Err(RenderError::NotAName),
        },
        Expression::Filter { .. } => Ok(Seq::empty()),
    }
}

/// Rendering a loop body once for each entry of a map from `k`, in order:
/// one variable is bound to the key, two to the key and the value.
pub open spec fn entries_pieces(
    es: Seq<(String, JsonValue)>,
    k: int,
    vars: Seq<SpannedValue>,
    body: Seq<SpannedExpr>,
    scope: Seq<(Seq<char>, JsonValue)>,
    data: JsonValue,
) -> Result<Seq<PieceView>, RenderError>
    decreases body, 2int, es.len() - k,
{
    if k < 0 || k >= es.len() {
        Ok(Seq::empty())
    } else if vars.len() == 1 {
        then(
            items_from(body, 0, scope.push((var_name(vars[0].value), JsonValue::String(es[k].0))), data),
            entries_pieces(es, k + 1, vars, body, scope, data),
        )
    } else if vars.len() == 2 {
        then(
            items_from(
                body,
                0,
                scope.push((var_name(vars[0].value), JsonValue::String(es[k].0))).push(
                    (var_name(vars[1].value), es[k].1),
                ),
                data,
            ),
            entries_pieces(es, k + 1, vars, body, scope, data),
        )
    } else {
        Err(RenderError::LoopVariables)
    }
}

/// Rendering a loop body once for each item of a list from `k`, in order,
/// its one variable bound to the item.
pub open spec fn array_pieces(
    xs: Seq<JsonValue>,
    k: int,
    vars: Seq<SpannedValue>,
    body: Seq<SpannedExpr>,
    scope: Seq<(Seq<char>, JsonValue)>,
    data: JsonValue,
) -> Result<Seq<PieceView>, RenderError>
    decreases body, 2int, xs.len() - k,
{
    if k < 0 || k >= xs.len() {
        Ok(Seq::empty())
    } else if vars.len() == 1 {
        then(
            items_from(body, 0, scope.push((var_name(vars[0].value), xs[k])), data),
            array_pieces(xs, k + 1, vars, body, scope, data),
        )
    } else {
        Err(RenderError::LoopVariables)
    }
}

/// Rendering `items` against the context `data`.
pub open spec fn spec_render(items: Seq<SpannedExpr>, data: JsonValue) -> Result<Seq<PieceView>, RenderError> {
    items_from(items, 0, Seq::empty(), data)
}

/// A value bound to a loop variable: a key of a map, or a value of the context.
#[derive(Clone, Copy)]
pub enum Bound<'a> {
    Key(&'a String),
    Value(&'a JsonValue),
}

pub open spec fn bound_value(b: Bound) -> JsonValue {
    match b {
        Bound::Key(s) => JsonValue::String(*s),
        Bound::Value(v) => *v,
    }
}

pub open spec fn scope_view(sc: Seq<(&String, Bound)>) -> Seq<(Seq<char>, JsonValue)> {
    sc.map_values(|p: (&String, Bound)| (p.0@, bound_value(p.1)))
}

/// What a dotted name leads to, by reference.
pub enum FoundRef<'a> {
    Value(Bound<'a>),
    Color(ArgbHelper, &'a String),
}

pub open spec fn found_view(f: FoundRef) -> Found {
    match f {
        FoundRef::Value(b) => Found::Value(bound_value(b)),
        FoundRef::Color(c, n) => Found::Color(c, n@),
    }
}

/// How rendering into `o1` from `o0` went, against what `spec` says.
pub open spec fn rendered(spec: Result<Seq<PieceView>, RenderError>, o0: Seq<Piece>, o1: Seq<Piece>, res: Result<(), RenderError>) -> bool {
    match spec {
        Ok(ps) => res is Ok && pieces_view(o1) == pieces_view(o0) + ps,
        Err(e) => res == Err::<(), RenderError>(e),
    }
}

pub fn hex_color_exec(s: &String) -> (res: Option<ArgbHelper>)
    ensures
        res == hex_color_of(s@),
{
    let b = s.as_str().as_bytes();
    if b.len() == 9 && b[0] == 35 && ((0x80 <= b[3] && b[3] < 0xC0) || (0x80 <= b[5] && b[5] < 0xC0) || (0x80 <= b[7]
        && b[7] < 0xC0)) {
        return None;
    }
    match ArgbHelper::from_hex(s.as_str()) {
        Ok(c) => Some(c),
        Err(_) => None,
    }
}

fn find_key(es: &Vec<(String, JsonValue)>, k: &String) -> (res: usize)
    ensures
        res == key_pos(es@, k@, 0),
{
    let mut i: usize = 0;
    while i < es.len() && !es[i].0.eq(k)
        invariant
            i <= es@.len(),
            key_pos(es@, k@, i as int) == key_pos(es@, k@, 0),
        decreases es@.len() - i,
    {
        i = i + 1;
    }
    i
}

fn lookup_exec<'a>(scope: &Vec<(&'a String, Bound<'a>)>, name: &String) -> (res: Option<Bound<'a>>)
    ensures
        match lookup(scope_view(scope@), name@) {
            Some(v) => res matches Some(b) && bound_value(b) == v,
            None => res is None,
        },
{
    let mut i: usize = scope.len();
    proof {
        assert(scope@.take(i as int) =~= scope@);
    }
    while i > 0
        invariant
            i <= scope@.len(),
            lookup(scope_view(scope@.take(i as int)), name@) == lookup(scope_view(scope@), name@),
        decreases i,
    {
        proof {
            assert(scope_view(scope@.take(i as int)).drop_last() =~= scope_view(scope@.take(i - 1)));
            assert(scope_view(scope@.take(i as int)).last() == (scope@[i - 1].0@, bound_value(scope@[i - 1].1)));
        }
        if scope[i - 1].0.eq(name) {
            return Some(scope[i - 1].1);
        }
        i = i - 1;
    }
    proof {
        assert(scope_view(scope@.take(0)) =~= Seq::<(Seq<char>, JsonValue)>::empty());
    }
    None
}

fn walk_exec<'a>(b: Bound<'a>, path: &'a Vec<String>, i: usize) -> (res: Option<FoundRef<'a>>)
    requires
        i <= path@.len(),
    ensures
        match walk(bound_value(b), path_of(path@), i as int) {
            Some(f) => res matches Some(r) && found_view(r) == f,
            None => res is None,
        },
    decreases path@.len() - i,
{
    if i >= path.len() {
        return Some(FoundRef::Value(b));
    }
    let s: &'a String = match b {
        Bound::Key(s) => s,
        Bound::Value(v) => match v {
            JsonValue::Object(es) => {
                let p = find_key(es, &path[i]);
                if p < es.len() {
                    return walk_exec(Bound::Value(&es[p].1), path, i + 1);
                }
                return None;
            },
            JsonValue::String(s) => s,
            _ => {
                return None;
            },
        },
    };
    if i == path.len() - 1 {
        match hex_color_exec(s) {
            Some(c) => Some(FoundRef::Color(c, &path[i])),
            None => None,
        }
    } else {
        None
    }
}

fn resolve_exec<'a>(path: &'a Vec<String>, scope: &Vec<(&'a String, Bound<'a>)>, data: &'a JsonValue) -> (res: Option<
    FoundRef<'a>,
>)
    ensures
        match resolve(path_of(path@), scope_view(scope@), *data) {
            Some(f) => res matches Some(r) && found_view(r) == f,
            None => res is None,
        },
{
    if path.len() == 0 {
        return None;
    }
    let base = match lookup_exec(scope, &path[0]) {
        Some(b) => b,
        None => match data {
            JsonValue::Object(es) => {
                let p = find_key(es, &path[0]);
                if p < es.len() {
                    Bound::Value(&es[p].1)
                } else {
                    return None;
                }
            },
            _ => {
                return None;
            },
        },
    };
    walk_exec(base, path, 1)
}

fn copy_arg(a: &ArgValue) -> (res: ArgValue)
    ensures
        res == *a,
{
    match a {
        ArgValue::Ident(s) => ArgValue::Ident(s.clone()),
        ArgValue::Int(s) => ArgValue::Int(s.clone()),
        ArgValue::Float(s) => ArgValue::Float(s.clone()),
    }
}

fn var_text(a: &ArgValue) -> (res: &String)
    ensures
        res@ == var_name(*a),
{
    match a {
        ArgValue::Ident(s) => s,
        ArgValue::Int(s) => s,
        ArgValue::Float(s) => s,
    }
}

fn filter_calls_exec(fs: &Vec<SpannedExpr>) -> (res: Vec<FilterCall>)
    ensures
        res@.map_values(|f: FilterCall| (f.name@, f.args@)) == filter_calls(fs@, 0),
{
    let mut out: Vec<FilterCall> = Vec::new();
    let mut i: usize = fs.len();
    let ghost full = filter_calls(fs@, 0);
    // Built from the back, so that each step prepends one call.
    let mut rev: Vec<FilterCall> = Vec::new();
    while i > 0
        invariant
            i <= fs@.len(),
            rev@.reverse().map_values(|f: FilterCall| (f.name@, f.args@)) == filter_calls(fs@, i as int),
        decreases i,
    {
        i = i - 1;
        match &fs[i].expr {
            Expression::Filter { name, args } => {
                let mut copied: Vec<ArgValue> = Vec::new();
                let mut j: usize = 0;
                while j < args.len()
                    invariant
                        j <= args@.len(),
                        copied@ == args@.take(j as int).map_values(|a: SpannedValue| a.value),
                    decreases args@.len() - j,
                {
                    let a = copy_arg(&args[j].value);
                    copied.push(a);
                    proof {
                        assert(args@.take(j + 1).map_values(|a: SpannedValue| a.value) =~= args@.take(
                            j as int,
                        ).map_values(|a: SpannedValue| a.value).push(a));
                    }
                    j = j + 1;
                }
                proof {
                    assert(args@.take(args@.len() as int) =~= args@);
                }
                let ghost before = rev@;
                rev.push(FilterCall { name: name.clone(), args: copied });
                proof {
                    assert(rev@.reverse() =~= seq![rev@.last()] + before.reverse());
                    assert(rev@.reverse().map_values(|f: FilterCall| (f.name@, f.args@)) =~= seq![
                        (name@, args@.map_values(|a: SpannedValue| a.value)),
                    ] + before.reverse().map_values(|f: FilterCall| (f.name@, f.args@)));
                }
            },
            _ => {},
        }
    }
    while rev.len() > 0
        invariant
            (out@ + rev@.reverse()).map_values(|f: FilterCall| (f.name@, f.args@)) == full,
            full == filter_calls(fs@, 0),
        decreases rev@.len(),
    {
        let ghost before_out = out@;
        let ghost before_rev = rev@;
        let f = rev.pop().unwrap();
        out.push(f);
        proof {
            assert(before_rev.reverse() =~= seq![f] + rev@.reverse());
            assert(out@ + rev@.reverse() =~= before_out + before_rev.reverse());
        }
    }
    proof {
        assert(out@ + rev@.reverse() =~= out@);
    }
    out
}

proof fn lemma_pieces_push(o: Seq<Piece>, p: Piece)
    ensures
        pieces_view(o.push(p)) == pieces_view(o) + seq![piece_view(p)],
{
    assert(pieces_view(o.push(p)) =~= pieces_view(o) + seq![piece_view(p)]);
}

fn items_exec<'a>(
    items: &'a Vec<SpannedExpr>,
    i: usize,
    scope: &mut Vec<(&'a String, Bound<'a>)>,
    data: &'a JsonValue,
    out: &mut Vec<Piece>,
) -> (res: Result<(), RenderError>)
    requires
        i <= items@.len(),
    ensures
        final(scope)@ == old(scope)@,
        rendered(items_from(items@, i as int, scope_view(old(scope)@), *data), old(out)@, final(out)@, res),
    decreases items@, 1int, items@.len() - i,
{
    if i >= items.len() {
        proof {
            assert(pieces_view(out@) + Seq::<PieceView>::empty() =~= pieces_view(out@));
        }
        return Ok(());
    }
    let ghost o0 = out@;
    let r = expr_exec(&items[i], scope, data, out);
    match r {
        Err(e) => Err(e),
        Ok(()) => {
            let ghost o1 = out@;
            let r2 = items_exec(items, i + 1, scope, data, out);
            proof {
                if r2 is Ok {
                    let a = expr_pieces(items@[i as int], scope_view(scope@), *data)->Ok_0;
                    let b = items_from(items@, i + 1, scope_view(scope@), *data)->Ok_0;
                    assert(pieces_view(out@) =~= pieces_view(o0) + (a + b));
                }
            }
            r2
        },
    }
}

fn name_exec<'a>(
    keywords: &'a Vec<String>,
    filters: Option<&'a Vec<SpannedExpr>>,
    scope: &Vec<(&'a String, Bound<'a>)>,
    data: &'a JsonValue,
    out: &mut Vec<Piece>,
) -> (res: Result<(), RenderError>)
    ensures
        rendered(
            name_pieces(
                path_of(keywords@),
                resolve(path_of(keywords@), scope_view(scope@), *data),
                match filters {
                    Some(fs) => Some(filter_calls(fs@, 0)),
                    None => None,
                },
            ),
            old(out)@,
            final(out)@,
            res,
        ),
{
    match resolve_exec(keywords, scope, data) {
        None => Err(RenderError::MissingPath),
        Some(FoundRef::Color(c, f)) => {
            let fs = match filters {
                Some(fs) => filter_calls_exec(fs),
                None => Vec::new(),
            };
            let mut source: Vec<String> = Vec::new();
            let mut k: usize = 0;
            let n = keywords.len() - 1;
            while k < n
                invariant
                    n == keywords@.len() - 1,
                    k <= n,
                    source@ == keywords@.take(k as int),
                decreases keywords@.len() - k,
            {
                source.push(keywords[k].clone());
                proof {
                    assert(keywords@.take(k + 1) =~= keywords@.take(k as int).push(keywords@[k as int]));
                }
                k = k + 1;
            }
            proof {
                assert(keywords@.take(k as int) =~= keywords@.take(keywords@.len() - 1));
                assert(path_of(source@) =~= path_of(keywords@).take(path_of(keywords@).len() - 1));
            }
            let p = Piece::Color { color: c, format: f.clone(), filters: fs, source };
            proof {
                lemma_pieces_push(out@, p);
                assert(fs@.map_values(|f: FilterCall| (f.name@, f.args@)) == match filters {
                    Some(fs) => filter_calls(fs@, 0),
                    None => Seq::<(Seq<char>, Seq<ArgValue>)>::empty(),
                });
            }
            out.push(p);
            Ok(())
        },
        Some(FoundRef::Value(b)) => {
            let text: String = match b {
                Bound::Key(s) => s.clone(),
                Bound::Value(v) => match v {
                    JsonValue::String(s) => s.clone(),
                    JsonValue::Number(t) => t.clone(),
                    JsonValue::Bool(x) => {
                        if *x {
                            String::from_str("true")
                        } else {
                            String::from_str("false")
                        }
                    },
                    _ => {
                        return Err(RenderError::NotText);
                    },
                },
            };
            let text = match filters {
                None => text,
                Some(fs) => {
                    let calls = filter_calls_exec(fs);
                    let ghost fv = calls@.map_values(|f: FilterCall| (f.name@, f.args@));
                    let ghost t0 = text@;
                    let mut cur = text;
                    let mut failed: Option<TextFilterError> = None;
                    let mut i: usize = 0;
                    while i < calls.len() && failed.is_none()
                        invariant
                            i <= calls@.len(),
                            fv == calls@.map_values(|f: FilterCall| (f.name@, f.args@)),
                            failed is None ==> apply_text_filters(cur@, fv, i as int) == apply_text_filters(t0, fv, 0),
                            failed matches Some(e) ==> apply_text_filters(t0, fv, 0) == Err::<Seq<char>, RenderError>(
                                RenderError::TextFilter(e),
                            ),
                        decreases calls@.len() - i,
                    {
                        match apply_text_filter(cur.as_str(), calls[i].name.as_str(), &calls[i].args) {
                            Ok(next) => {
                                cur = next;
                            },
                            Err(e) => {
                                failed = Some(e);
                            },
                        }
                        i = i + 1;
                    }
                    if let Some(e) = failed {
                        return Err(RenderError::TextFilter(e));
                    }
                    cur
                },
            };
            let p = Piece::Text(text);
            proof {
                lemma_pieces_push(out@, p);
            }
            out.push(p);
            Ok(())
        },
    }
}

fn expr_exec<'a>(
    e: &'a SpannedExpr,
    scope: &mut Vec<(&'a String, Bound<'a>)>,
    data: &'a JsonValue,
    out: &mut Vec<Piece>,
) -> (res: Result<(), RenderError>)
    ensures
        final(scope)@ == old(scope)@,
        rendered(expr_pieces(*e, scope_view(old(scope)@), *data), old(out)@, final(out)@, res),
    decreases *e, 0int, 0int,
{
    match &e.expr {
        Expression::Raw { value } => {
            let p = Piece::Text(value.clone());
            proof {
                lemma_pieces_push(out@, p);
            }
            out.push(p);
            Ok(())
        },
        Expression::Keyword { keywords } => name_exec(keywords, None, scope, data, out),
        Expression::KeywordWithFilters { keyword, filters } => match &keyword.expr {
            Expression::Keyword { keywords } => name_exec(keywords, Some(filters), scope, data, out),
            _ => Err(RenderError::NotAName),
        },
        Expression::ForLoop { var, list, body } => match &list.expr {
            Expression::Keyword { keywords } => match resolve_exec(keywords, scope, data) {
                None => Err(RenderError::MissingPath),
                Some(FoundRef::Value(Bound::Value(JsonValue::Object(es)))) => entries_exec(
                    es,
                    0,
                    var,
                    body,
                    scope,
                    data,
                    out,
                ),
                Some(FoundRef::Value(Bound::Value(JsonValue::Array(xs)))) => array_exec(xs, 0, var, body, scope, data, out),
                Some(_) => Err(RenderError::NotIterable),
            },
            _ => Err(RenderError::NotAName),
        },
        Expression::Filter { .. } => {
            proof {
                assert(pieces_view(out@) + Seq::<PieceView>::empty() =~= pieces_view(out@));
            }
            Ok(())
        },
    }
}

fn entries_exec<'a>(
    es: &'a Vec<(String, JsonValue)>,
    k: usize,
    vars: &'a Vec<SpannedValue>,
    body: &'a Vec<SpannedExpr>,
    scope: &mut Vec<(&'a String, Bound<'a>)>,
    data: &'a JsonValue,
    out: &mut Vec<Piece>,
) -> (res: Result<(), RenderError>)
    requires
        k <= es@.len(),
    ensures
        final(scope)@ == old(scope)@,
        rendered(entries_pieces(es@, k as int, vars@, body@, scope_view(old(scope)@), *data), old(out)@, final(out)@, res),
    decreases body@, 2int, es@.len() - k,
{
    if k >= es.len() {
        proof {
            assert(pieces_view(out@) + Seq::<PieceView>::empty() =~= pieces_view(out@));
        }
        return Ok(());
    }
    let ghost sc0 = scope@;
    let ghost o0 = out@;
    let n = vars.len();
    if n == 1 {
        scope.push((var_text(&vars[0].value), Bound::Key(&es[k].0)));
    } else if n == 2 {
        scope.push((var_text(&vars[0].value), Bound::Key(&es[k].0)));
        scope.push((var_text(&vars[1].value), Bound::Value(&es[k].1)));
    } else {
        proof {
            assert(entries_pieces(es@, k as int, vars@, body@, scope_view(sc0), *data) == Err::<Seq<PieceView>, RenderError>(
                RenderError::LoopVariables,
            ));
        }
        return Err(RenderError::LoopVariables);
    }
    proof {
        if n == 1 {
            assert(scope_view(scope@) =~= scope_view(sc0).push((var_name(vars@[0].value), JsonValue::String(es@[k as int].0))));
        } else {
            assert(scope_view(scope@) =~= scope_view(sc0).push((var_name(vars@[0].value), JsonValue::String(es@[k as int].0))).push(
                (var_name(vars@[1].value), es@[k as int].1),
            ));
        }
    }
    let ghost sc1 = scope@;
    let r = items_exec(body, 0, scope, data, out);
    scope.pop();
    if n == 2 {
        scope.pop();
    }
    proof {
        assert(scope@ =~= sc0);
    }
    match r {
        Err(e) => {
            proof {
                assert(entries_pieces(es@, k as int, vars@, body@, scope_view(sc0), *data) == Err::<Seq<PieceView>, RenderError>(e));
            }
            Err(e)
        },
        Ok(()) => {
            let ghost o1 = out@;
            let r2 = entries_exec(es, k + 1, vars, body, scope, data, out);
            proof {
                if r2 is Ok {
                    let a = items_from(body@, 0, scope_view(sc1), *data)->Ok_0;
                    let b = entries_pieces(es@, k + 1, vars@, body@, scope_view(sc0), *data)->Ok_0;
                    assert(pieces_view(out@) =~= pieces_view(o0) + (a + b));
                }
            }
            r2
        },
    }
}

fn array_exec<'a>(
    xs: &'a Vec<JsonValue>,
    k: usize,
    vars: &'a Vec<SpannedValue>,
    body: &'a Vec<SpannedExpr>,
    scope: &mut Vec<(&'a String, Bound<'a>)>,
    data: &'a JsonValue,
    out: &mut Vec<Piece>,
) -> (res: Result<(), RenderError>)
    requires
        k <= xs@.len(),
    ensures
        final(scope)@ == old(scope)@,
        rendered(array_pieces(xs@, k as int, vars@, body@, scope_view(old(scope)@), *data), old(out)@, final(out)@, res),
    decreases body@, 2int, xs@.len() - k,
{
    if k >= xs.len() {
        proof {
            assert(pieces_view(out@) + Seq::<PieceView>::empty() =~= pieces_view(out@));
        }
        return Ok(());
    }
    let ghost sc0 = scope@;
    let ghost o0 = out@;
    if vars.len() != 1 {
        proof {
            assert(array_pieces(xs@, k as int, vars@, body@, scope_view(sc0), *data) == Err::<Seq<PieceView>, RenderError>(
                RenderError::LoopVariables,
            ));
        }
        return Err(RenderError::LoopVariables);
    }
    scope.push((var_text(&vars[0].value), Bound::Value(&xs[k])));
    proof {
        assert(scope_view(scope@) =~= scope_view(sc0).push((var_name(vars@[0].value), xs@[k as int])));
    }
    let ghost sc1 = scope@;
    let r = items_exec(body, 0, scope, data, out);
    scope.pop();
    proof {
        assert(scope@ =~= sc0);
    }
    match r {
        Err(e) => {
            proof {
                assert(array_pieces(xs@, k as int, vars@, body@, scope_view(sc0), *data) == Err::<Seq<PieceView>, RenderError>(e));
            }
            Err(e)
        },
        Ok(()) => {
            let ghost o1 = out@;
            let r2 = array_exec(xs, k + 1, vars, body, scope, data, out);
            proof {
                if r2 is Ok {
                    let a = items_from(body@, 0, scope_view(sc1), *data)->Ok_0;
                    let b = array_pieces(xs@, k + 1, vars@, body@, scope_view(sc0), *data)->Ok_0;
                    assert(pieces_view(out@) =~= pieces_view(o0) + (a + b));
                }
            }
            r2
        },
    }
}

/// Renders `items` against the context `data`, as `spec_render` describes.
pub fn render(items: &Vec<SpannedExpr>, data: &JsonValue) -> (res: Result<Vec<Piece>, RenderError>)
    ensures
        match spec_render(items@, *data) {
            Ok(ps) => res matches Ok(v) && pieces_view(v@) == ps,
            Err(e) => res matches Err(x) && x == e,
        },
{
    let mut scope: Vec<(&String, Bound)> = Vec::new();
    let mut out: Vec<Piece> = Vec::new();
    proof {
        assert(scope_view(scope@) =~= Seq::<(Seq<char>, JsonValue)>::empty());
        assert(pieces_view(out@) =~= Seq::<PieceView>::empty());
    }
    match items_exec(items, 0, &mut scope, data, &mut out) {
        Ok(()) => {
            proof {
                assert(Seq::<PieceView>::empty() + spec_render(items@, *data)->Ok_0 =~= spec_render(items@, *data)->Ok_0);
            }
            Ok(out)
        },
        Err(e) => Err(e),
    }
}

/// `e` is the dotted name made of the one name `n`.
pub open spec fn is_name(e: SpannedExpr, n: Seq<char>) -> bool {
    match e.expr {
        Expression::Keyword { keywords } => path_of(keywords@) == seq![n],
        _ => false,
    }
}

/// One variable, or two with different names.
pub open spec fn key_binding_vars(vars: Seq<SpannedValue>) -> bool {
    vars.len() == 1 || (vars.len() == 2 && var_name(vars[1].value) != var_name(vars[0].value))
}

/// The texts of the keys of `es`, from `k`, in order.
pub open spec fn key_texts(es: Seq<(String, JsonValue)>, k: int) -> Seq<PieceView> {
    Seq::new((es.len() - k) as nat, |i: int| PieceView::Text(es[k + i].0@))
}

proof fn lemma_entries_print_keys(
    es: Seq<(String, JsonValue)>,
    k: int,
    vars: Seq<SpannedValue>,
    body: Seq<SpannedExpr>,
    scope: Seq<(Seq<char>, JsonValue)>,
    data: JsonValue,
)
    requires
        0 <= k <= es.len(),
        key_binding_vars(vars),
        body.len() == 1,
        is_name(body[0], var_name(vars[0].value)),
    ensures
        entries_pieces(es, k, vars, body, scope, data) == Ok::<Seq<PieceView>, RenderError>(key_texts(es, k)),
    decreases es.len() - k,
{
    if k < es.len() {
        lemma_entries_print_keys(es, k + 1, vars, body, scope, data);
        let n = var_name(vars[0].value);
        let key = JsonValue::String(es[k].0);
        let sc = if vars.len() == 1 {
            scope.push((n, key))
        } else {
            scope.push((n, key)).push((var_name(vars[1].value), es[k].1))
        };
        if vars.len() == 2 {
            assert(sc.last().0 != n);
            assert(sc.drop_last() =~= scope.push((n, key)));
            assert(lookup(sc.drop_last(), n) == Some(key));
        } else {
            assert(sc.last() == (n, key));
        }
        assert(lookup(sc, n) == Some(key));
        assert(base_value(sc, data, n) == Some(key));
        let path = seq![n];
        assert(walk(key, path, 1) == Some(Found::Value(key)));
        assert(resolve(path, sc, data) == Some(Found::Value(key)));
        assert(expr_pieces(body[0], sc, data) == Ok::<Seq<PieceView>, RenderError>(seq![PieceView::Text(es[k].0@)]));
        assert(items_from(body, 1, sc, data) == Ok::<Seq<PieceView>, RenderError>(Seq::empty()));
        assert(items_from(body, 0, sc, data) == Ok::<Seq<PieceView>, RenderError>(seq![PieceView::Text(es[k].0@)] + Seq::empty()));
        assert(seq![PieceView::Text(es[k].0@)] + key_texts(es, k + 1) =~= key_texts(es, k));
        assert(seq![PieceView::Text(es[k].0@)] + Seq::<PieceView>::empty() =~= seq![PieceView::Text(es[k].0@)]);
    } else {
        assert(key_texts(es, k) =~= Seq::<PieceView>::empty());
    }
}

/// A loop over a map binds its one variable, or the first of two, to each
/// key in turn: a template made of such a loop whose body prints that
/// variable renders to the keys of the map, in order, whatever the values.
pub proof fn lemma_map_loop_prints_keys(
    e: SpannedExpr,
    var: Vec<SpannedValue>,
    list: Box<SpannedExpr>,
    body: Vec<SpannedExpr>,
    data: JsonValue,
    es: Vec<(String, JsonValue)>,
)
    requires
        e.expr == (Expression::ForLoop { var, list, body }),
        key_binding_vars(var@),
        body@.len() == 1,
        is_name(body@[0], var_name(var@[0].value)),
        list.expr matches Expression::Keyword { keywords } && resolve(path_of(keywords@), Seq::empty(), data)
            == Some(Found::Value(JsonValue::Object(es))),
    ensures
        spec_render(seq![e], data) == Ok::<Seq<PieceView>, RenderError>(
            Seq::new(es@.len(), |i: int| PieceView::Text(es@[i].0@)),
        ),
{
    lemma_entries_print_keys(es@, 0, var@, body@, Seq::empty(), data);
    assert(key_texts(es@, 0) =~= Seq::new(es@.len(), |i: int| PieceView::Text(es@[i].0@)));
    let items = seq![e];
    assert(expr_pieces(e, Seq::empty(), data) == entries_pieces(es@, 0, var@, body@, Seq::empty(), data));
    assert(items[0] == e);
    assert(items_from(items, 1, Seq::empty(), data) == Ok::<Seq<PieceView>, RenderError>(Seq::empty()));
    assert(key_texts(es@, 0) + Seq::<PieceView>::empty() =~= key_texts(es@, 0));
}

} // verus!
