//! JSON values, and merging one into another.
use vstd::pervasive::VecAdditionalExecFns;
use vstd::prelude::*;
use vstd::string::StringExecFns;

verus! {

/// A JSON value. A number keeps its JSON text; an object keeps its entries
/// in order.
#[derive(Debug)]
pub enum JsonValue {
    Null,
    Bool(bool),
    Number(String),
    String(String),
    Array(Vec<JsonValue>),
    Object(Vec<(String, JsonValue)>),
}

/// The first position at or after `i` of an entry with key `k`, or `es.len()`.
pub open spec fn key_pos(es: Seq<(String, JsonValue)>, k: Seq<char>, i: int) -> int
    decreases es.len() - i,
{
    if i < 0 || i >= es.len() || es[i].0@ == k {
        i
    } else {
        key_pos(es, k, i + 1)
    }
}

/// No two entries of an object have the same key, at any depth.
pub open spec fn json_wf(v: JsonValue) -> bool
    decreases v,
{
    match v {
        JsonValue::Array(items) => forall|i: int|
            #![trigger items@[i]]
            0 <= i < items@.len() ==> json_wf(items@[i]),
        JsonValue::Object(es) => {
            &&& forall|i: int, j: int|
                0 <= i < j < es@.len() ==> (#[trigger] es@[i]).0@ != (#[trigger] es@[j]).0@
            &&& forall|i: int| #![trigger es@[i]] 0 <= i < es@.len() ==> json_wf(es@[i].1)
        },
        _ => true,
    }
}

/// The entries of `be` whose keys no entry of `ae` has, in order.
pub open spec fn fresh_entries(ae: Seq<(String, JsonValue)>, be: Seq<(String, JsonValue)>) -> Seq<(String, JsonValue)>
    decreases be.len(),
{
    if be.len() == 0 {
        Seq::empty()
    } else {
        let rest = fresh_entries(ae, be.drop_last());
        if key_pos(ae, be.last().0@, 0) == ae.len() {
            rest.push(be.last())
        } else {
            rest
        }
    }
}

/// `r` is `b` merged into `a`: two objects merge key by key (a key of both
/// merges the two values, a key of `b` alone is added after `a`'s keys, a key
/// of `a` alone keeps its value), two arrays are concatenated, and otherwise
/// `b` replaces `a`.
pub open spec fn merged(a: JsonValue, b: JsonValue, r: JsonValue) -> bool
    decreases b,
{
    match (a, b) {
        (JsonValue::Object(ae), JsonValue::Object(be)) => match r {
            JsonValue::Object(re) => {
                let fresh = fresh_entries(ae@, be@);
                &&& re@.len() == ae@.len() + fresh.len()
                &&& forall|m: int|
                    #![trigger re@[m]]
                    0 <= m < ae@.len() ==> {
                        let j = key_pos(be@, ae@[m].0@, 0);
                        &&& re@[m].0@ == ae@[m].0@
                        &&& if 0 <= j < be@.len() {
                            merged(ae@[m].1, be@[j].1, re@[m].1)
                        } else {
                            re@[m].1 == ae@[m].1
                        }
                    }
                &&& forall|t: int| 0 <= t < fresh.len() ==> re@[ae@.len() + t] == fresh[t]
            },
            _ => false,
        },
        (JsonValue::Array(aa), JsonValue::Array(ba)) => match r {
            JsonValue::Array(ra) => ra@ == aa@ + ba@,
            _ => false,
        },
        _ => r == b,
    }
}

proof fn lemma_key_pos_bounds(es: Seq<(String, JsonValue)>, k: Seq<char>, i: int)
    requires
        0 <= i <= es.len(),
    ensures
        i <= key_pos(es, k, i) <= es.len(),
        key_pos(es, k, i) < es.len() ==> es[key_pos(es, k, i)].0@ == k,
        forall|j: int| i <= j < key_pos(es, k, i) ==> es[j].0@ != k,
    decreases es.len() - i,
{
    if i < es.len() && es[i].0@ != k {
        lemma_key_pos_bounds(es, k, i + 1);
    }
}

/// The first entry with key `k` is at `p` when no entry before `p` has key `k`
/// and the entry at `p` has it (or `p` is the end).
proof fn lemma_key_pos_is(es: Seq<(String, JsonValue)>, k: Seq<char>, i: int, p: int)
    requires
        0 <= i <= p <= es.len(),
        forall|j: int| i <= j < p ==> es[j].0@ != k,
        p < es.len() ==> es[p].0@ == k,
    ensures
        key_pos(es, k, i) == p,
    decreases p - i,
{
    if i < p {
        lemma_key_pos_is(es, k, i + 1, p);
    }
}

proof fn lemma_key_pos_push(s: Seq<(String, JsonValue)>, e: (String, JsonValue), k: Seq<char>)
    ensures
        key_pos(s.push(e), k, 0) == if key_pos(s, k, 0) < s.len() {
            key_pos(s, k, 0)
        } else if e.0@ == k {
            s.len() as int
        } else {
            (s.len() + 1) as int
        },
{
    let t = s.push(e);
    lemma_key_pos_bounds(s, k, 0);
    let p = key_pos(s, k, 0);
    if p < s.len() {
        lemma_key_pos_is(t, k, 0, p);
    } else if e.0@ == k {
        lemma_key_pos_is(t, k, 0, s.len() as int);
    } else {
        lemma_key_pos_is(t, k, 0, t.len() as int);
    }
}

/// Every entry of `fresh_entries(ae, s)` is an entry of `s`.
proof fn lemma_fresh_from(ae: Seq<(String, JsonValue)>, s: Seq<(String, JsonValue)>, t: int)
    requires
        0 <= t < fresh_entries(ae, s).len(),
    ensures
        exists|j: int| 0 <= j < s.len() && fresh_entries(ae, s)[t] == s[j],
    decreases s.len(),
{
    let rest = fresh_entries(ae, s.drop_last());
    if t < rest.len() {
        lemma_fresh_from(ae, s.drop_last(), t);
        let j = choose|j: int| 0 <= j < s.drop_last().len() && rest[t] == s.drop_last()[j];
        assert(fresh_entries(ae, s)[t] == s[j]);
    } else {
        assert(fresh_entries(ae, s)[t] == s[s.len() - 1]);
    }
}

proof fn lemma_fresh_len(ae: Seq<(String, JsonValue)>, s: Seq<(String, JsonValue)>)
    ensures
        fresh_entries(ae, s).len() <= s.len(),
    decreases s.len(),
{
    if s.len() > 0 {
        lemma_fresh_len(ae, s.drop_last());
    }
}

proof fn lemma_wf_object(v: JsonValue)
    requires
        json_wf(v),
        v is Object,
    ensures
        forall|i: int| 0 <= i < v->Object_0@.len() ==> json_wf(#[trigger] v->Object_0@[i].1),
        forall|i: int, j: int|
            0 <= i < j < v->Object_0@.len() ==> (#[trigger] v->Object_0@[i]).0@ != (
            #[trigger] v->Object_0@[j]).0@,
{
}

/// Merges `b` into `a`: objects key by key, arrays by concatenation; any
/// other `b` replaces `a`.
pub fn merge_json(a: &mut JsonValue, b: JsonValue)
    requires
        json_wf(*old(a)),
        json_wf(b),
    ensures
        merged(*old(a), b, *final(a)),
    decreases b,
{
    let ghost a0 = *a;
    let ghost b0 = b;
    let mut cur_a = JsonValue::Null;
    std::mem::swap(a, &mut cur_a);
    if !(matches!(cur_a, JsonValue::Object(_)) && matches!(b, JsonValue::Object(_))) {
        match (cur_a, b) {
            (JsonValue::Array(mut aa), JsonValue::Array(mut ba)) => {
                aa.append(&mut ba);
                *a = JsonValue::Array(aa);
            },
            (_, b_val) => {
                *a = b_val;
            },
        }
        return;
    }
    match (cur_a, b) {
        (JsonValue::Object(ae), JsonValue::Object(mut be)) => {
            let ghost ae0 = ae@;
            let ghost be0 = be@;
            let ae_len = ae.len();
            let n = be.len();
            let mut cur = ae;
            let mut i: usize = 0;
            proof {
                assert(be0.take(0) =~= Seq::<(String, JsonValue)>::empty());
                assert(cur@.take(ae_len as int) =~= ae0);
            }
            while i < n
                invariant
                    a0 matches JsonValue::Object(x) && x@ == ae0,
                    b0 matches JsonValue::Object(y) && y@ == be0,
                    b == b0,
                    json_wf(a0),
                    json_wf(b0),
                    ae_len == ae0.len(),
                    n == be0.len(),
                    be@.len() == n,
                    i <= n,
                    forall|j: int| i <= j < n ==> be@[j] == be0[j],
                    cur@.len() == ae0.len() + fresh_entries(ae0, be0.take(i as int)).len(),
                    forall|m: int|
                        #![trigger cur@[m]]
                        0 <= m < ae0.len() ==> {
                            let j = key_pos(be0.take(i as int), ae0[m].0@, 0);
                            &&& cur@[m].0@ == ae0[m].0@
                            &&& if 0 <= j < i {
                                merged(ae0[m].1, be0[j].1, cur@[m].1)
                            } else {
                                cur@[m].1 == ae0[m].1
                            }
                        },
                    forall|t: int|
                        0 <= t < fresh_entries(ae0, be0.take(i as int)).len() ==> cur@[ae0.len() + t]
                            == fresh_entries(ae0, be0.take(i as int))[t],
                decreases n - i,
            {
                let ghost prev = cur@;
                let ghost pre = be0.take(i as int);
                proof {
                    lemma_wf_object(a0);
                    lemma_wf_object(b0);
                }
                let mut entry = (String::new(), JsonValue::Null);
                be.set_and_swap(i, &mut entry);
                let (k, v) = entry;
                proof {
                    assert(be0.take(i as int + 1) =~= pre.push(be0[i as int]));
                    assert(pre.push(be0[i as int]).drop_last() =~= pre);
                    assert(k == be0[i as int].0 && v == be0[i as int].1);
                    lemma_fresh_len(ae0, pre);
                    // no processed entry of `b` has this key
                    assert forall|j: int| 0 <= j < i implies pre[j].0@ != k@ by {
                        assert(pre[j] == be0[j]);
                    }
                    assert forall|t: int| 0 <= t < fresh_entries(ae0, pre).len() implies
                        (#[trigger] prev[ae0.len() + t]).0@ != k@ by {
                        lemma_fresh_from(ae0, pre, t);
                    }
                }
                // find the entry of the merged object with key `k`
                let mut p: usize = 0;
                while p < cur.len() && cur[p].0 != k
                    invariant
                        cur@ == prev,
                        p <= prev.len(),
                        forall|j: int| 0 <= j < p ==> prev[j].0@ != k@,
                    decreases prev.len() - p,
                {
                    p = p + 1;
                }
                proof {
                    lemma_key_pos_is(prev, k@, 0, p as int);
                    lemma_key_pos_bounds(ae0, k@, 0);
                    if p < ae_len {
                        lemma_key_pos_is(ae0, k@, 0, p as int);
                    } else {
                        assert forall|j: int| 0 <= j < ae0.len() implies ae0[j].0@ != k@ by {
                            assert(prev[j].0@ == ae0[j].0@);
                        }
                        lemma_key_pos_is(ae0, k@, 0, ae0.len() as int);
                        assert(p == prev.len()) by {
                            if p < prev.len() {
                                let t = p - ae0.len();
                                assert(prev[ae0.len() + t].0@ != k@);
                            }
                        }
                    }
                    assert forall|m: int| 0 <= m < ae0.len() implies
                        #[trigger] key_pos(be0.take(i as int + 1), ae0[m].0@, 0) == if ae0[m].0@ == k@ {
                            i as int
                        } else if key_pos(pre, ae0[m].0@, 0) < i {
                            key_pos(pre, ae0[m].0@, 0)
                        } else {
                            i + 1
                        } by {
                        lemma_key_pos_push(pre, be0[i as int], ae0[m].0@);
                        lemma_key_pos_bounds(pre, ae0[m].0@, 0);
                        if ae0[m].0@ == k@ {
                            lemma_key_pos_is(pre, k@, 0, i as int);
                        }
                    }
                }
                if p < cur.len() {
                    let mut slot = (String::new(), JsonValue::Null);
                    cur.set_and_swap(p, &mut slot);
                    let (key, mut value) = slot;
                    proof {
                        assert(p < ae_len);
                        lemma_key_pos_is(pre, k@, 0, i as int);
                        assert(prev[p as int].0@ == ae0[p as int].0@);
                        assert(value == ae0[p as int].1);
                        assert(json_wf(ae0[p as int].1));
                        assert(json_wf(be0[i as int].1));
                        let bv = b0->Object_0;
                        assert(decreases_to!(b0 => bv));
                        assert(decreases_to!(bv => bv@));
                        assert(decreases_to!(bv@ => bv@[i as int]));
                        assert(decreases_to!(bv@[i as int] => bv@[i as int].1));
                        assert(decreases_to!(b => v));
                    }
                    merge_json(&mut value, v);
                    cur.set(p, (key, value));
                    proof {
                        assert(fresh_entries(ae0, be0.take(i as int + 1)) =~= fresh_entries(ae0, pre));
                    }
                } else {
                    cur.push((k, v));
                    proof {
                        assert(fresh_entries(ae0, be0.take(i as int + 1)) =~= fresh_entries(ae0, pre).push(be0[i as int]));
                    }
                }
                i = i + 1;
            }
            proof {
                assert(be0.take(n as int) =~= be0);
            }
            *a = JsonValue::Object(cur);
        },
        _ => {},
    }
}

/// The object `{"color": hex}`.
pub fn color_entry(hex: String) -> (res: JsonValue)
    ensures
        res matches JsonValue::Object(es) && es@.len() == 1 && es@[0].0@ == seq!['c', 'o', 'l', 'o', 'r']
            && es@[0].1 == JsonValue::String(hex),
{
    proof {
        reveal_strlit("color");
    }
    let mut m: Vec<(String, JsonValue)> = Vec::new();
    m.push((String::from_str("color"), JsonValue::String(hex)));
    JsonValue::Object(m)
}

/// Some entry of `es` has the key `k`.
pub open spec fn has_key(es: Seq<(String, JsonValue)>, k: Seq<char>) -> bool {
    exists|m: int| 0 <= m < es.len() && (#[trigger] es[m]).0@ == k
}

proof fn lemma_key_pos_finds(es: Seq<(String, JsonValue)>, k: Seq<char>)
    ensures
        0 <= key_pos(es, k, 0) <= es.len(),
        (key_pos(es, k, 0) < es.len()) == has_key(es, k),
{
    lemma_key_pos_bounds(es, k, 0);
    if has_key(es, k) {
        let m = choose|m: int| 0 <= m < es.len() && (#[trigger] es[m]).0@ == k;
        assert(!(m < key_pos(es, k, 0)));
    }
}

proof fn lemma_fresh_keys(ae: Seq<(String, JsonValue)>, be: Seq<(String, JsonValue)>, k: Seq<char>)
    ensures
        has_key(fresh_entries(ae, be), k) == (has_key(be, k) && !has_key(ae, k)),
    decreases be.len(),
{
    if be.len() > 0 {
        let init = be.drop_last();
        let rest = fresh_entries(ae, init);
        lemma_fresh_keys(ae, init, k);
        lemma_key_pos_finds(ae, be.last().0@);
        assert(has_key(be, k) == (has_key(init, k) || be.last().0@ == k)) by {
            if has_key(be, k) {
                let m = choose|m: int| 0 <= m < be.len() && (#[trigger] be[m]).0@ == k;
                if m < be.len() - 1 {
                    assert(init[m] == be[m]);
                }
            }
            if has_key(init, k) {
                let m = choose|m: int| 0 <= m < init.len() && (#[trigger] init[m]).0@ == k;
                assert(be[m] == init[m]);
            }
        }
        let f = fresh_entries(ae, be);
        if key_pos(ae, be.last().0@, 0) == ae.len() {
            assert(f == rest.push(be.last()));
            assert(has_key(f, k) == (has_key(rest, k) || be.last().0@ == k)) by {
                if has_key(f, k) {
                    let m = choose|m: int| 0 <= m < f.len() && (#[trigger] f[m]).0@ == k;
                    if m < rest.len() {
                        assert(rest[m] == f[m]);
                    }
                }
                if has_key(rest, k) {
                    let m = choose|m: int| 0 <= m < rest.len() && (#[trigger] rest[m]).0@ == k;
                    assert(f[m] == rest[m]);
                }
                if be.last().0@ == k {
                    assert(f[rest.len() as int] == be.last());
                }
            }
            if be.last().0@ == k {
                assert(has_key(be, k));
                assert(has_key(f, k));
                assert(!has_key(ae, k));
            } else {
                assert(has_key(be, k) == has_key(init, k));
            }
            assert(has_key(f, k) == (has_key(be, k) && !has_key(ae, k)));
        } else {
            assert(f == rest);
            if be.last().0@ == k {
                assert(has_key(ae, k));
            } else {
                assert(has_key(be, k) == has_key(init, k));
            }
            assert(has_key(f, k) == (has_key(be, k) && !has_key(ae, k)));
        }
    } else {
        assert(!has_key(be, k));
        assert(!has_key(fresh_entries(ae, be), k));
    }
}

/// Merging an object into an object keeps every key of both and adds no
/// other: a key is in the result exactly when it is in one of the two.
pub proof fn lemma_merge_keys(a: JsonValue, b: JsonValue, r: JsonValue, k: Seq<char>)
    requires
        a is Object,
        b is Object,
        merged(a, b, r),
    ensures
        r is Object,
        has_key(r->Object_0@, k) == (has_key(a->Object_0@, k) || has_key(b->Object_0@, k)),
{
    let ae = a->Object_0@;
    let be = b->Object_0@;
    let re = r->Object_0@;
    let fresh = fresh_entries(ae, be);
    lemma_fresh_keys(ae, be, k);
    if has_key(re, k) {
        let m = choose|m: int| 0 <= m < re.len() && (#[trigger] re[m]).0@ == k;
        if m < ae.len() {
            assert(ae[m].0@ == k);
        } else {
            let t = m - ae.len();
            assert(re[ae.len() + t] == fresh[t]);
            assert(fresh[t].0@ == k);
        }
    }
    if has_key(ae, k) {
        let m = choose|m: int| 0 <= m < ae.len() && (#[trigger] ae[m]).0@ == k;
        assert(re[m].0@ == ae[m].0@);
    }
    if has_key(fresh, k) {
        let t = choose|t: int| 0 <= t < fresh.len() && (#[trigger] fresh[t]).0@ == k;
        assert(re[ae.len() + t] == fresh[t]);
    }
}

/// Merging an object without entries into an object leaves its entries as they were.
pub proof fn lemma_merge_empty_object(a: JsonValue, b: JsonValue, r: JsonValue)
    requires
        a is Object,
        b is Object,
        b->Object_0@.len() == 0,
        merged(a, b, r),
    ensures
        r is Object,
        r->Object_0@.len() == a->Object_0@.len(),
        forall|m: int|
            0 <= m < a->Object_0@.len() ==> (#[trigger] r->Object_0@[m]).0@ == a->Object_0@[m].0@
                && r->Object_0@[m].1 == a->Object_0@[m].1,
{
    let ae = a->Object_0@;
    let be = b->Object_0@;
    assert(fresh_entries(ae, be).len() == 0);
    assert forall|m: int| 0 <= m < ae.len() implies key_pos(be, #[trigger] ae[m].0@, 0) == 0 by {
    }
}

} // verus!
