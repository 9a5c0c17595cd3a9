//! The colors that filters have modified, by scheme and name: a filtered
//! `colors.<name>.<scheme>` starts from the color an earlier filter chain
//! left for that scheme and name, else from the scheme's own color.
use vstd::prelude::*;
use vstd::string::StringExecFns;

use crate::cache::ArgbHelper;
use crate::json::{key_pos, JsonValue};
use crate::render::{hex_color_exec, hex_color_of};
use crate::textfilters::same_text;

verus! {

/// The colors filters have left, for the dark and the light scheme, by name.
#[derive(Debug)]
pub struct ColorCache {
    pub dark: Vec<(String, ArgbHelper)>,
    pub light: Vec<(String, ArgbHelper)>,
}

/// The first position at or after `i` of an entry named `n`, or the length.
pub open spec fn entry_index(list: Seq<(String, ArgbHelper)>, n: Seq<char>, i: int) -> int
    decreases list.len() - i,
{
    if i < 0 || i >= list.len() || list[i].0@ == n {
        i
    } else {
        entry_index(list, n, i + 1)
    }
}

/// The color kept for the name `n`, if any.
pub open spec fn cached(list: Seq<(String, ArgbHelper)>, n: Seq<char>) -> Option<ArgbHelper> {
    if entry_index(list, n, 0) < list.len() {
        Some(list[entry_index(list, n, 0)].1)
    } else {
        None
    }
}

/// Whether a scheme name stands for the dark scheme (`true`) or the light one
/// (`false`); `default` stands for the default scheme; any other name for none.
pub open spec fn scheme_side(scheme: Seq<char>, default_dark: bool) -> Option<bool> {
    if scheme == "dark"@ {
        Some(true)
    } else if scheme == "light"@ {
        Some(false)
    } else if scheme == "default"@ {
        Some(default_dark)
    } else {
        None
    }
}

/// The color of `name` in the scheme `side` of the context's colors: the
/// entry `name`, then `dark` or `light`, as a color text.
pub open spec fn scheme_color(colors: JsonValue, name: Seq<char>, dark: bool) -> Option<ArgbHelper> {
    let side = if dark {
        "dark"@
    } else {
        "light"@
    };
    match colors {
        JsonValue::Object(es) => if key_pos(es@, name, 0) < es@.len() {
            match es@[key_pos(es@, name, 0)].1 {
                JsonValue::Object(ss) => if key_pos(ss@, side, 0) < ss@.len() {
                    match ss@[key_pos(ss@, side, 0)].1 {
                        JsonValue::String(t) => hex_color_of(t@),
                        _ => None,
                    }
                } else {
                    None
                },
                _ => None,
            }
        } else {
            None
        },
        _ => None,
    }
}

/// The color a filter chain on `name` in `scheme` starts from: the one kept
/// for that scheme and name, else the scheme's own color.
pub open spec fn spec_filter_start(
    cache: ColorCache,
    colors: JsonValue,
    name: Seq<char>,
    scheme: Seq<char>,
    default_dark: bool,
) -> Option<ArgbHelper> {
    match scheme_side(scheme, default_dark) {
        None => None,
        Some(dark) => match cached(if dark { cache.dark@ } else { cache.light@ }, name) {
            Some(c) => Some(c),
            None => scheme_color(colors, name, dark),
        },
    }
}

fn scheme_side_exec(scheme: &str, default_dark: bool) -> (res: Option<bool>)
    ensures
        res == scheme_side(scheme@, default_dark),
{
    if same_text(scheme, "dark") {
        Some(true)
    } else if same_text(scheme, "light") {
        Some(false)
    } else if same_text(scheme, "default") {
        Some(default_dark)
    } else {
        None
    }
}

fn find_entry(list: &Vec<(String, ArgbHelper)>, n: &str) -> (res: usize)
    ensures
        res == entry_index(list@, n@, 0),
{
    let mut i: usize = 0;
    while i < list.len() && !same_text(list[i].0.as_str(), n)
        invariant
            i <= list@.len(),
            entry_index(list@, n@, i as int) == entry_index(list@, n@, 0),
        decreases list@.len() - i,
    {
        i = i + 1;
    }
    i
}

fn find_json_key(es: &Vec<(String, JsonValue)>, k: &str) -> (res: usize)
    ensures
        res == key_pos(es@, k@, 0),
{
    let mut i: usize = 0;
    while i < es.len() && !same_text(es[i].0.as_str(), k)
        invariant
            i <= es@.len(),
            key_pos(es@, k@, i as int) == key_pos(es@, k@, 0),
        decreases es@.len() - i,
    {
        i = i + 1;
    }
    i
}

fn scheme_color_exec(colors: &JsonValue, name: &str, dark: bool) -> (res: Option<ArgbHelper>)
    ensures
        res == scheme_color(*colors, name@, dark),
{
    let side = if dark {
        "dark"
    } else {
        "light"
    };
    match colors {
        JsonValue::Object(es) => {
            let p = find_json_key(es, name);
            if p >= es.len() {
                return None;
            }
            match &es[p].1 {
                JsonValue::Object(ss) => {
                    let q = find_json_key(ss, side);
                    if q >= ss.len() {
                        return None;
                    }
                    match &ss[q].1 {
                        JsonValue::String(t) => hex_color_exec(t),
                        _ => None,
                    }
                },
                _ => None,
            }
        },
        _ => None,
    }
}

/// The color a filter chain on `name` in `scheme` starts from, as
/// `spec_filter_start` says.
pub fn filter_start(cache: &ColorCache, colors: &JsonValue, name: &str, scheme: &str, default_dark: bool) -> (res: Option<
    ArgbHelper,
>)
    ensures
        res == spec_filter_start(*cache, *colors, name@, scheme@, default_dark),
{
    match scheme_side_exec(scheme, default_dark) {
        None => None,
        Some(dark) => {
            let list = if dark {
                &cache.dark
            } else {
                &cache.light
            };
            let p = find_entry(list, name);
            if p < list.len() {
                Some(list[p].1)
            } else {
                scheme_color_exec(colors, name, dark)
            }
        },
    }
}

proof fn lemma_same_keys(l1: Seq<(String, ArgbHelper)>, l2: Seq<(String, ArgbHelper)>, n: Seq<char>, i: int)
    requires
        l1.len() == l2.len(),
        forall|j: int| 0 <= j < l1.len() ==> (#[trigger] l1[j]).0@ == l2[j].0@,
    ensures
        entry_index(l1, n, i) == entry_index(l2, n, i),
    decreases l1.len() - i,
{
    if 0 <= i < l1.len() && l1[i].0@ != n {
        lemma_same_keys(l1, l2, n, i + 1);
    }
}

proof fn lemma_push_fresh(l: Seq<(String, ArgbHelper)>, e: (String, ArgbHelper), n: Seq<char>, i: int)
    requires
        0 <= i <= l.len(),
    ensures
        entry_index(l, n, i) < l.len() ==> entry_index(l.push(e), n, i) == entry_index(l, n, i),
        entry_index(l, n, i) >= l.len() ==> entry_index(l.push(e), n, i) == if e.0@ == n {
            l.len() as int
        } else {
            l.len() + 1int
        },
    decreases l.len() - i,
{
    if i < l.len() && l[i].0@ != n {
        lemma_push_fresh(l, e, n, i + 1);
        assert(l.push(e)[i] == l[i]);
    } else if i < l.len() {
        assert(l.push(e)[i] == l[i]);
    } else {
        assert(l.push(e)[i] == e);
        if e.0@ != n {
            assert(entry_index(l.push(e), n, i + 1) == i + 1);
        }
    }
}

proof fn lemma_index_bound(l: Seq<(String, ArgbHelper)>, n: Seq<char>, i: int)
    requires
        0 <= i <= l.len(),
    ensures
        i <= entry_index(l, n, i) <= l.len(),
        entry_index(l, n, i) < l.len() ==> l[entry_index(l, n, i)].0@ == n,
        forall|j: int| i <= j < entry_index(l, n, i) ==> (#[trigger] l[j]).0@ != n,
    decreases l.len() - i,
{
    if i < l.len() && l[i].0@ != n {
        lemma_index_bound(l, n, i + 1);
    }
}

/// `l1` keeps `c` for `n` and the same as `l0` for every other name.
pub open spec fn kept_for(l0: Seq<(String, ArgbHelper)>, l1: Seq<(String, ArgbHelper)>, n: Seq<char>, c: ArgbHelper) -> bool {
    &&& cached(l1, n) == Some(c)
    &&& forall|m: Seq<char>| m != n ==> #[trigger] cached(l1, m) == cached(l0, m)
}

fn keep(list: &mut Vec<(String, ArgbHelper)>, n: &str, c: ArgbHelper)
    ensures
        kept_for(old(list)@, final(list)@, n@, c),
{
    let ghost l0 = list@;
    let p = find_entry(list, n);
    proof {
        lemma_index_bound(l0, n@, 0);
    }
    if p < list.len() {
        list.set(p, (String::from_str(n), c));
        proof {
            assert forall|m: Seq<char>| m != n@ implies #[trigger] cached(list@, m) == cached(l0, m) by {
                lemma_same_keys(list@, l0, m, 0);
                lemma_index_bound(l0, m, 0);
            }
            lemma_same_keys(list@, l0, n@, 0);
        }
    } else {
        let e = (String::from_str(n), c);
        list.push(e);
        proof {
            lemma_push_fresh(l0, e, n@, 0);
            assert forall|m: Seq<char>| m != n@ implies #[trigger] cached(list@, m) == cached(l0, m) by {
                lemma_push_fresh(l0, e, m, 0);
                lemma_index_bound(l0, m, 0);
            }
        }
    }
}

/// Records `c` as the color a filter chain left for `name` in `scheme`:
/// afterwards that scheme keeps `c` for `name` and what it kept for every
/// other name, and the other scheme is unchanged. Nothing changes for a
/// scheme name other than `dark`, `light` and `default`.
pub fn record_modified(cache: &mut ColorCache, name: &str, scheme: &str, default_dark: bool, c: ArgbHelper)
    ensures
        match scheme_side(scheme@, default_dark) {
            Some(true) => kept_for(old(cache).dark@, final(cache).dark@, name@, c) && final(cache).light@ == old(
                cache,
            ).light@,
            Some(false) => kept_for(old(cache).light@, final(cache).light@, name@, c) && final(cache).dark@ == old(
                cache,
            ).dark@,
            None => final(cache).dark@ == old(cache).dark@ && final(cache).light@ == old(cache).light@,
        },
{
    match scheme_side_exec(scheme, default_dark) {
        Some(true) => keep(&mut cache.dark, name, c),
        Some(false) => keep(&mut cache.light, name, c),
        None => {},
    }
}

/// A filter chain starts from the color recorded last for its scheme and
/// name: once `c` is kept for `name` in the scheme that `scheme` names (as
/// `record_modified` keeps it), a chain on `name` in `scheme` starts from
/// `c`, whatever the scheme's own color, for the light scheme as for the
/// dark one; and a chain on another name starts where it did before.
pub proof fn lemma_start_after_record(
    before: ColorCache,
    after: ColorCache,
    colors: JsonValue,
    name: Seq<char>,
    other: Seq<char>,
    scheme: Seq<char>,
    default_dark: bool,
    c: ArgbHelper,
)
    requires
        scheme_side(scheme, default_dark) is Some,
        scheme_side(scheme, default_dark) == Some(true) ==> kept_for(before.dark@, after.dark@, name, c)
            && after.light@ == before.light@,
        scheme_side(scheme, default_dark) == Some(false) ==> kept_for(before.light@, after.light@, name, c)
            && after.dark@ == before.dark@,
        other != name,
    ensures
        spec_filter_start(after, colors, name, scheme, default_dark) == Some(c),
        spec_filter_start(after, colors, other, scheme, default_dark) == spec_filter_start(
            before,
            colors,
            other,
            scheme,
            default_dark,
        ),
{
    assert(cached(after.dark@, other) == cached(before.dark@, other) || scheme_side(scheme, default_dark) != Some(true));
    assert(cached(after.light@, other) == cached(before.light@, other) || scheme_side(scheme, default_dark) != Some(false));
}

} // verus!
