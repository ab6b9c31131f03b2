//! What holds of every merge: the key-by-key meaning of an object merge, the
//! preservation of well-formedness, that a merge without clobbering keeps
//! every existing value, that a `null` in a patch only ever deletes (no
//! `null` object entry is left where there was none), and that merging the
//! same patch twice changes nothing more than merging it once.
use vstd::prelude::*;
use crate::merge::{
    ArrayStrategy, MergeConfigView, merge_value, merge_entries, merge_existing, apply_entry,
    child_path, union_items, combine_arrays, strategy_for, strip_nulls, strip_entries,
};
use crate::value::{
    JValue, keys_sorted, obj_get, obj_map, obj_index, jwf, lemma_insert_sorted, lemma_remove_sorted, lemma_map_drop_first,
    lemma_sorted_map_unique, lemma_obj_index, key_lt, lemma_sorted_unique_index, has_item, same_value,
    lemma_same_value_refl,
};

verus! {

/// What the entry `k` of an object merge holds: a `null` patch entry deletes
/// the key (only when clobbering), a non-null patch entry is merged into the
/// existing value or added without its `null` object entries, and keys the patch does not name stay as they were.
pub open spec fn merged_entry(
    b: Seq<(Seq<char>, JValue)>,
    q: Seq<(Seq<char>, JValue)>,
    k: Seq<char>,
    cfg: MergeConfigView,
    path: Seq<char>,
) -> Option<JValue> {
    match obj_get(q, k) {
        Some(pv) => if pv is Null {
            if cfg.clobber {
                None
            } else {
                obj_get(b, k)
            }
        } else {
            match obj_get(b, k) {
                Some(bv) => Some(merge_existing(bv, pv, cfg, child_path(path, k))),
                None => Some(strip_nulls(pv)),
            }
        },
        None => obj_get(b, k),
    }
}

proof fn lemma_get_via_map(es: Seq<(Seq<char>, JValue)>, k: Seq<char>)
    ensures
        obj_map(es).dom().contains(k) == (obj_get(es, k) is Some),
        obj_map(es).dom().contains(k) ==> obj_get(es, k) == Some(obj_map(es)[k]),
{
}

/// Object merge, key by key (RFC 7396): for sorted objects the result is
/// sorted and each of its entries is the one [`merged_entry`] describes.
pub proof fn lemma_merge_entries_keys(
    b: Seq<(Seq<char>, JValue)>,
    q: Seq<(Seq<char>, JValue)>,
    cfg: MergeConfigView,
    path: Seq<char>,
)
    requires
        keys_sorted(b),
        keys_sorted(q),
    ensures
        keys_sorted(merge_entries(b, q, cfg, path)),
        forall|k: Seq<char>| #[trigger]
            obj_get(merge_entries(b, q, cfg, path), k) == merged_entry(b, q, k, cfg, path),
    decreases q.len(),
{
    if q.len() == 0 {
        assert forall|k: Seq<char>| #[trigger]
            obj_get(merge_entries(b, q, cfg, path), k) == merged_entry(b, q, k, cfg, path) by {
            lemma_obj_index(q, k);
        }
    } else {
        let k0 = q[0].0;
        let pv = q[0].1;
        let merged = match obj_get(b, k0) {
            Some(bv) => if pv is Null {
                bv
            } else {
                merge_existing(bv, pv, cfg, child_path(path, k0))
            },
            None => strip_nulls(pv),
        };
        let b1 = apply_entry(b, k0, pv, merged, cfg);
        let q1 = q.subrange(1, q.len() as int);
        assert(q1 =~= q.drop_first());
        lemma_map_drop_first(q);
        if pv is Null {
            if cfg.clobber {
                lemma_remove_sorted(b, k0);
            }
        } else {
            lemma_insert_sorted(b, k0, merged);
        }
        lemma_merge_entries_keys(b1, q1, cfg, path);
        assert forall|k: Seq<char>| #[trigger]
            obj_get(merge_entries(b, q, cfg, path), k) == merged_entry(b, q, k, cfg, path) by {
            assert(obj_get(merge_entries(b1, q1, cfg, path), k) == merged_entry(b1, q1, k, cfg, path));
            lemma_get_via_map(b, k);
            lemma_get_via_map(b1, k);
            lemma_get_via_map(q, k);
            lemma_get_via_map(q1, k);
            lemma_get_via_map(b, k0);
            lemma_get_via_map(q, k0);
            lemma_obj_index(q, k0);
            if k == k0 {
                assert(obj_get(q, k0) == Some(pv));
                assert(obj_get(q1, k) is None);
            } else {
                assert(obj_get(q1, k) == obj_get(q, k));
                assert(obj_get(b1, k) == obj_get(b, k));
            }
        }
    }
}


/// Items of a union come from one side or the other; every item of either
/// side has the same value in it, and the existing items come first, in
/// order.
pub proof fn lemma_union_items(b: Seq<JValue>, p: Seq<JValue>)
    ensures
        forall|x: JValue| #[trigger] union_items(b, p).contains(x) ==> b.contains(x) || p.contains(x),
        forall|x: JValue| b.contains(x) || p.contains(x) ==> #[trigger] has_item(union_items(b, p), x),
        union_items(b, p).len() >= b.len(),
        union_items(b, p).subrange(0, b.len() as int) == b,
    decreases p.len(),
{
    if p.len() > 0 {
        let p1 = p.drop_last();
        let last = p[p.len() - 1];
        assert(p.last() == last);
        lemma_union_items(b, p1);
        let r = union_items(b, p1);
        let u = union_items(b, p);
        if !has_item(r, last) {
            assert(u == r.push(last));
            assert(r.push(last).subrange(0, b.len() as int) =~= r.subrange(0, b.len() as int));
        } else {
            assert(u == r);
        }
        assert forall|i: int| 0 <= i < r.len() implies #[trigger] u[i] == r[i] by {}
        assert forall|x: JValue| #[trigger] u.contains(x) implies b.contains(x) || p.contains(x) by {
            let k = choose|k: int| 0 <= k < u.len() && u[k] == x;
            if k < r.len() {
                assert(r[k] == x);
                assert(r.contains(x));
                if p1.contains(x) {
                    let j = choose|j: int| 0 <= j < p1.len() && p1[j] == x;
                    assert(p[j] == x);
                }
            } else {
                assert(x == last);
                assert(p[p.len() - 1] == x);
            }
        }
        assert forall|x: JValue| b.contains(x) || p.contains(x) implies #[trigger] has_item(u, x) by {
            lemma_same_value_refl(x);
            if b.contains(x) {
                let j = choose|j: int| 0 <= j < b.len() && b[j] == x;
                assert(r.subrange(0, b.len() as int)[j] == r[j]);
                assert(u[j] == x);
            } else {
                let j = choose|j: int| 0 <= j < p.len() && p[j] == x;
                if j < p.len() - 1 {
                    assert(p1[j] == x);
                    assert(p1.contains(x));
                    assert(has_item(r, x));
                    let k = choose|k: int| 0 <= k < r.len() && same_value(#[trigger] r[k], x);
                    assert(u[k] == r[k]);
                } else {
                    assert(x == last);
                    if has_item(r, last) {
                        let k = choose|k: int| 0 <= k < r.len() && same_value(#[trigger] r[k], last);
                        assert(u[k] == r[k]);
                    } else {
                        assert(u[r.len() as int] == x);
                    }
                }
            }
        }
    } else {
        assert forall|x: JValue| b.contains(x) || p.contains(x) implies #[trigger] has_item(union_items(b, p), x) by {
            lemma_same_value_refl(x);
            let j = choose|j: int| 0 <= j < b.len() && b[j] == x;
        }
        assert(b.subrange(0, b.len() as int) =~= b);
    }
}

pub proof fn lemma_jwf_object(es: Seq<(Seq<char>, JValue)>)
    requires
        jwf(JValue::Object(es)),
    ensures
        keys_sorted(es),
        forall|i: int| 0 <= i < es.len() ==> jwf(#[trigger] es[i].1),
{
    assert forall|i: int| 0 <= i < es.len() implies jwf(#[trigger] es[i].1) by {

    }
}

pub proof fn lemma_jwf_array(a: Seq<JValue>)
    requires
        jwf(JValue::Array(a)),
    ensures
        forall|i: int| 0 <= i < a.len() ==> jwf(#[trigger] a[i]),
{
    assert forall|i: int| 0 <= i < a.len() implies jwf(#[trigger] a[i]) by {
        let v = JValue::Array(a);
        assert(v->Array_0 == a);
        assert(jwf(v));
        assert(jwf(v->Array_0[i]));
    }
}

pub proof fn lemma_jwf_object_intro(es: Seq<(Seq<char>, JValue)>)
    requires
        keys_sorted(es),
        forall|i: int| 0 <= i < es.len() ==> jwf(#[trigger] es[i].1),
    ensures
        jwf(JValue::Object(es)),
{

}

pub proof fn lemma_jwf_array_intro(a: Seq<JValue>)
    requires
        forall|i: int| 0 <= i < a.len() ==> jwf(#[trigger] a[i]),
    ensures
        jwf(JValue::Array(a)),
{

}

/// The value found under a key of a well-formed object is well-formed.
pub proof fn lemma_jwf_get(es: Seq<(Seq<char>, JValue)>, k: Seq<char>)
    requires
        jwf(JValue::Object(es)),
    ensures
        obj_get(es, k) matches Some(v) ==> jwf(v),
{
    lemma_jwf_object(es);
    lemma_obj_index(es, k);
}

/// In a sorted entry sequence, entry `i` is what its key finds.
pub proof fn lemma_sorted_entry_get(es: Seq<(Seq<char>, JValue)>, i: int)
    requires
        keys_sorted(es),
        0 <= i < es.len(),
    ensures
        obj_get(es, es[i].0) == Some(es[i].1),
{
    crate::value::lemma_sorted_unique_index(es, es[i].0);
}

/// Merging well-formed values gives a well-formed value.
pub proof fn lemma_merge_wf(e: JValue, p: JValue, cfg: MergeConfigView, path: Seq<char>)
    requires
        jwf(e),
        jwf(p),
    ensures
        jwf(merge_value(e, p, cfg, path)),
    decreases p, 1int,
{
    match (e, p) {
        (JValue::Object(b), JValue::Object(q)) => {
            lemma_jwf_object(b);
            lemma_jwf_object(q);
            lemma_merge_entries_keys(b, q, cfg, path);
            let r = merge_entries(b, q, cfg, path);
            assert forall|i: int| 0 <= i < r.len() implies jwf(#[trigger] r[i].1) by {
                let k = r[i].0;
                lemma_sorted_entry_get(r, i);
                lemma_jwf_get(b, k);
                lemma_jwf_get(q, k);
                lemma_obj_index(q, k);
                match obj_get(q, k) {
                    Some(pv) => {
                        if !(pv is Null) {
                            match obj_get(b, k) {
                                Some(bv) => {
                                    let j = obj_index(q, k)->0;
                                    assert(decreases_to!(p => q));
                                    assert(decreases_to!(p => q[j]));
                                    assert(decreases_to!(p => q[j].1));
                                    lemma_existing_wf(bv, pv, cfg, child_path(path, k));
                                },
                                None => {
                                    lemma_strip_nulls(pv);
                                },
                            }
                        }
                    },
                    None => {},
                }
            }
            lemma_jwf_object_intro(r);
        },
        (JValue::Array(b), JValue::Array(q)) => {
            lemma_jwf_array(b);
            lemma_jwf_array(q);
            if cfg.clobber {
                let r = combine_arrays(strategy_for(cfg, path), b, q);
                lemma_union_items(b, q);
                assert forall|i: int| 0 <= i < r.len() implies jwf(#[trigger] r[i]) by {
                    match strategy_for(cfg, path) {
                        ArrayStrategy::Replace => {},
                        ArrayStrategy::Append => {
                            if i >= b.len() {
                                assert(r[i] == q[i - b.len()]);
                            }
                        },
                        ArrayStrategy::Prepend => {
                            if i >= q.len() {
                                assert(r[i] == b[i - q.len()]);
                            }
                        },
                        ArrayStrategy::Union => {
                            assert(r.contains(r[i]));
                            if b.contains(r[i]) {
                                let j = choose|j: int| 0 <= j < b.len() && b[j] == r[i];
                            } else {
                                let j = choose|j: int| 0 <= j < q.len() && q[j] == r[i];
                            }
                        },
                    }
                }
                lemma_jwf_array_intro(r);
            }
        },
        (_, JValue::Null) => {},
        _ => {
            lemma_strip_nulls(p);
        },
    }
}

/// What an existing entry becomes is well-formed when both sides are.
pub proof fn lemma_existing_wf(bv: JValue, pv: JValue, cfg: MergeConfigView, child: Seq<char>)
    requires
        jwf(bv),
        jwf(pv),
    ensures
        jwf(merge_existing(bv, pv, cfg, child)),
    decreases pv, 2int,
{
    if bv is Object && pv is Object {
        lemma_merge_wf(bv, pv, cfg, child);
    } else if cfg.clobber && bv is Array && pv is Array {
        lemma_merge_wf(bv, pv, cfg, child);
    } else {
        lemma_strip_nulls(pv);
    }
}


/// `r` keeps everything `e` holds: every key of an object is still there and
/// keeps what it held (objects may gain keys), and anything else is unchanged.
pub open spec fn keeps(r: JValue, e: JValue) -> bool
    decreases e,
{
    match e {
        JValue::Object(b) => r is Object && forall|i: int|
            0 <= i < b.len() ==> (obj_get(r->Object_0, #[trigger] b[i].0) matches Some(rv) && keeps(
                rv,
                b[i].1,
            )),
        _ => r == e,
    }
}

/// Every well-formed value keeps itself.
pub proof fn lemma_keeps_reflexive(x: JValue)
    requires
        jwf(x),
    ensures
        keeps(x, x),
    decreases x,
{
    match x {
        JValue::Object(b) => {
            lemma_jwf_object(b);
            assert forall|i: int| 0 <= i < b.len() implies (obj_get(
                x->Object_0,
                #[trigger] b[i].0,
            ) matches Some(rv) && keeps(rv, b[i].1)) by {
                lemma_sorted_entry_get(b, i);
                assert(decreases_to!(x => x->Object_0));
                assert(decreases_to!(x => x->Object_0[i]));
                assert(decreases_to!(x => x->Object_0[i].1));
                lemma_keeps_reflexive(b[i].1);
            }
        },
        _ => {},
    }
}

/// Without clobbering, a merge keeps every existing value: keys are only
/// added, and no existing scalar or array is replaced.
pub proof fn lemma_no_clobber_keeps_existing(
    e: JValue,
    p: JValue,
    cfg: MergeConfigView,
    path: Seq<char>,
)
    requires
        !cfg.clobber,
        jwf(e),
        jwf(p),
    ensures
        keeps(merge_value(e, p, cfg, path), e),
    decreases p,
{
    lemma_keeps_reflexive(e);
    match (e, p) {
        (JValue::Object(b), JValue::Object(q)) => {
            lemma_jwf_object(b);
            lemma_jwf_object(q);
            lemma_merge_entries_keys(b, q, cfg, path);
            let r = merge_entries(b, q, cfg, path);
            assert forall|i: int| 0 <= i < b.len() implies (obj_get(r, #[trigger] b[i].0) matches Some(
                rv,
            ) && keeps(rv, b[i].1)) by {
                let k = b[i].0;
                lemma_sorted_entry_get(b, i);
                lemma_keeps_reflexive(b[i].1);
                lemma_obj_index(q, k);
                match obj_get(q, k) {
                    Some(pv) => {
                        if !(pv is Null) && b[i].1 is Object && pv is Object {
                            let j = obj_index(q, k)->0;
                            assert(decreases_to!(p => q));
                            assert(decreases_to!(p => q[j]));
                            assert(decreases_to!(p => q[j].1));
                            lemma_no_clobber_keeps_existing(b[i].1, pv, cfg, child_path(path, k));
                        }
                    },
                    None => {},
                }
            }
        },
        _ => {},
    }
}


/// No object inside `v` (nor `v` itself) has an entry whose value is `null`.
pub open spec fn no_null_entries(v: JValue) -> bool
    decreases v,
{
    match v {
        JValue::Object(es) => forall|i: int|
            0 <= i < es.len() ==> !((#[trigger] es[i]).1 is Null) && no_null_entries(es[i].1),
        _ => true,
    }
}

/// Whether combining the patch arrays of `p` a second time changes nothing:
/// every non-empty array that `p` holds (reached through objects) sits at a
/// path whose strategy is `Replace` or `Union`.
pub open spec fn arrays_repeat_safe(p: JValue, cfg: MergeConfigView, path: Seq<char>) -> bool
    decreases p,
{
    match p {
        JValue::Array(q) => q.len() == 0 || strategy_for(cfg, path) == ArrayStrategy::Replace
            || strategy_for(cfg, path) == ArrayStrategy::Union,
        JValue::Object(q) => forall|i: int|
            0 <= i < q.len() ==> arrays_repeat_safe(
                #[trigger] q[i].1,
                cfg,
                child_path(path, q[i].0),
            ),
        _ => true,
    }
}

/// Adding items that all have the same value present already changes
/// nothing.
pub proof fn lemma_union_present(b: Seq<JValue>, p: Seq<JValue>)
    requires
        forall|x: JValue| p.contains(x) ==> #[trigger] has_item(b, x),
    ensures
        union_items(b, p) == b,
    decreases p.len(),
{
    if p.len() > 0 {
        let p1 = p.drop_last();
        assert forall|x: JValue| p1.contains(x) implies #[trigger] has_item(b, x) by {
            let j = choose|j: int| 0 <= j < p1.len() && p1[j] == x;
            assert(p[j] == x);
            assert(p.contains(x));
        }
        lemma_union_present(b, p1);
        assert(p[p.len() - 1] == p.last());
        assert(p.contains(p.last()));
    }
}

/// Combining again with the same items changes nothing under `Replace` and
/// `Union`, and nothing at all when there are no items.
pub proof fn lemma_combine_twice(s: ArrayStrategy, b: Seq<JValue>, p: Seq<JValue>)
    requires
        p.len() == 0 || s == ArrayStrategy::Replace || s == ArrayStrategy::Union,
    ensures
        combine_arrays(s, combine_arrays(s, b, p), p) == combine_arrays(s, b, p),
        combine_arrays(s, p, p) == p,
{
    lemma_union_items(b, p);
    lemma_union_present(union_items(b, p), p);
    assert forall|x: JValue| p.contains(x) implies #[trigger] has_item(p, x) by {
        let j = choose|j: int| 0 <= j < p.len() && p[j] == x;
        lemma_same_value_refl(x);
    }
    lemma_union_present(p, p);
    if p.len() == 0 {
        assert(b + p =~= b);
        assert(p + b =~= b);
        assert(combine_arrays(s, b, p) + p =~= combine_arrays(s, b, p));
        assert(p + combine_arrays(s, b, p) =~= combine_arrays(s, b, p));
        assert(p + p =~= p);
    }
}

proof fn lemma_maps_equal(r: Seq<(Seq<char>, JValue)>, b: Seq<(Seq<char>, JValue)>)
    requires
        forall|k: Seq<char>| #[trigger] obj_get(r, k) == obj_get(b, k),
    ensures
        obj_map(r) == obj_map(b),
{
    assert forall|k: Seq<char>| #[trigger] obj_map(r).dom().contains(k) == obj_map(b).dom().contains(k)
        && (obj_map(r).dom().contains(k) ==> obj_map(r)[k] == obj_map(b)[k]) by {
        assert(obj_get(r, k) == obj_get(b, k));
    }
    assert(obj_map(r) =~= obj_map(b));
}

/// Entry `i` of `s` is entry `j` of `q`, which is not `null`, stripped.
pub open spec fn kept_at(
    q: Seq<(Seq<char>, JValue)>,
    s: Seq<(Seq<char>, JValue)>,
    i: int,
    j: int,
) -> bool {
    &&& 0 <= i < s.len()
    &&& 0 <= j < q.len()
    &&& !(q[j].1 is Null)
    &&& s[i] == (q[j].0, strip_nulls(q[j].1))
}

/// Entry `i` of `s` is a non-null entry of `q`, stripped.
pub open spec fn kept_from(q: Seq<(Seq<char>, JValue)>, s: Seq<(Seq<char>, JValue)>, i: int) -> bool {
    exists|j: int| #[trigger] kept_at(q, s, i, j)
}

/// What stripping keeps of an entry sequence: each entry it keeps is a
/// non-null entry of `q`, stripped, and every non-null entry of `q` is kept.
pub proof fn lemma_strip_kept(q: Seq<(Seq<char>, JValue)>)
    ensures
        forall|i: int| 0 <= i < strip_entries(q).len() ==> #[trigger] kept_from(q, strip_entries(q), i),
        forall|j: int|
            0 <= j < q.len() && !(q[j].1 is Null) ==> exists|i: int| #[trigger] kept_at(q, strip_entries(q), i, j),
    decreases q.len(),
{
    if q.len() > 0 {
        let n = q.len() - 1;
        let q1 = q.drop_last();
        let last = q[n];
        let s = strip_entries(q);
        let s1 = strip_entries(q1);
        lemma_strip_kept(q1);
        assert forall|j: int| 0 <= j < n implies #[trigger] q1[j] == q[j] by {}
        if !(last.1 is Null) {
            assert(s == s1.push((last.0, strip_nulls(last.1))));
            assert(kept_at(q, s, s1.len() as int, n));
        } else {
            assert(s == s1);
        }
        assert forall|i: int| 0 <= i < s1.len() implies #[trigger] s[i] == s1[i] by {}
        assert forall|i: int| 0 <= i < s.len() implies #[trigger] kept_from(q, s, i) by {
            if i < s1.len() {
                assert(s[i] == s1[i]);
                assert(kept_from(q1, s1, i));
                let j = choose|j: int| #[trigger] kept_at(q1, s1, i, j);
                assert(q1[j] == q[j]);
                assert(kept_at(q, s, i, j));
            } else {
                assert(kept_at(q, s, i, n));
            }
        }
        assert forall|j: int| 0 <= j < q.len() && !(q[j].1 is Null) implies exists|i: int| #[trigger] kept_at(q, s, i, j) by {
            if j < n {
                assert(q1[j] == q[j]);
                let i = choose|i: int| #[trigger] kept_at(q1, s1, i, j);
                assert(s[i] == s1[i]);
                assert(kept_at(q, s, i, j));
            } else {
                assert(kept_at(q, s, s1.len() as int, n));
            }
        }
    } else {
        assert(strip_entries(q).len() == 0);
    }
}

/// No value that stripping keeps is `null` or holds a `null` entry, and
/// well-formed values stay well-formed.
pub proof fn lemma_strip_entries(q: Seq<(Seq<char>, JValue)>)
    ensures
        forall|i: int|
            0 <= i < strip_entries(q).len() ==> !(#[trigger] strip_entries(q)[i].1 is Null)
                && no_null_entries(strip_entries(q)[i].1),
        (forall|j: int| 0 <= j < q.len() ==> jwf(#[trigger] q[j].1)) ==> forall|i: int|
            0 <= i < strip_entries(q).len() ==> jwf(#[trigger] strip_entries(q)[i].1),
    decreases q, 0int,
{
    if q.len() > 0 {
        let n = q.len() - 1;
        let q1 = q.drop_last();
        let last = q[n];
        let s = strip_entries(q);
        let s1 = strip_entries(q1);
        lemma_strip_entries(q1);
        if !(last.1 is Null) {
            assert(decreases_to!(q => q[n]));
            assert(decreases_to!(q => q[n].1));
            lemma_strip_nulls(last.1);
            assert(s == s1.push((last.0, strip_nulls(last.1))));
        } else {
            assert(s == s1);
        }
        assert forall|i: int| 0 <= i < s.len() implies !(#[trigger] s[i].1 is Null) && no_null_entries(s[i].1) by {
            if i < s1.len() {
                assert(s[i] == s1[i]);
            }
        }
        if forall|j: int| 0 <= j < q.len() ==> jwf(#[trigger] q[j].1) {
            assert forall|j: int| 0 <= j < q1.len() implies jwf(#[trigger] q1[j].1) by {
                assert(q1[j] == q[j]);
            }
            assert forall|i: int| 0 <= i < s.len() implies jwf(#[trigger] s[i].1) by {
                if i < s1.len() {
                    assert(s[i] == s1[i]);
                } else {
                    assert(jwf(q[n].1));
                }
            }
        }
    }
}

/// Stripping keeps the keys of a sorted entry sequence sorted.
pub proof fn lemma_strip_sorted(q: Seq<(Seq<char>, JValue)>)
    requires
        keys_sorted(q),
    ensures
        keys_sorted(strip_entries(q)),
    decreases q.len(),
{
    if q.len() > 0 {
        let n = q.len() - 1;
        let q1 = q.drop_last();
        let s = strip_entries(q);
        let s1 = strip_entries(q1);
        assert forall|a: int, b: int| 0 <= a < b < q1.len() implies key_lt(#[trigger] q1[a].0, #[trigger] q1[b].0) by {
            assert(q1[a] == q[a]);
            assert(q1[b] == q[b]);
        }
        lemma_strip_sorted(q1);
        lemma_strip_kept(q1);
        if !(q[n].1 is Null) {
            assert(s == s1.push((q[n].0, strip_nulls(q[n].1))));
            assert forall|a: int, b: int| 0 <= a < b < s.len() implies key_lt(#[trigger] s[a].0, #[trigger] s[b].0) by {
                assert(s[a] == s1[a]);
                if b < s1.len() {
                    assert(s[b] == s1[b]);
                } else {
                    assert(kept_from(q1, s1, a));
                    let j = choose|j: int| #[trigger] kept_at(q1, s1, a, j);
                    assert(q1[j] == q[j]);
                    assert(key_lt(q[j].0, q[n].0));
                }
            }
        } else {
            assert(s == s1);
        }
    }
}

/// Stripping keeps a value's kind (a `null` stays `null`, an object stays an
/// object, anything else is unchanged), leaves no `null` object entry, and
/// keeps a well-formed value well-formed.
pub proof fn lemma_strip_nulls(x: JValue)
    ensures
        (strip_nulls(x) is Null) == (x is Null),
        (strip_nulls(x) is Object) == (x is Object),
        !(x is Object) ==> strip_nulls(x) == x,
        no_null_entries(strip_nulls(x)),
        jwf(x) ==> jwf(strip_nulls(x)),
    decreases x, 1int,
{
    match x {
        JValue::Object(q) => {
            lemma_strip_entries(q);
            if jwf(x) {
                lemma_jwf_object(q);
                lemma_strip_sorted(q);
                lemma_jwf_object_intro(strip_entries(q));
            }
        },
        _ => {},
    }
}

/// In a sorted object, stripping drops the `null` entries and strips the
/// others in place.
pub proof fn lemma_strip_get(q: Seq<(Seq<char>, JValue)>, k: Seq<char>)
    requires
        keys_sorted(q),
    ensures
        obj_get(strip_entries(q), k) == match obj_get(q, k) {
            Some(v) => if v is Null {
                None
            } else {
                Some(strip_nulls(v))
            },
            None => None,
        },
{
    let s = strip_entries(q);
    lemma_strip_kept(q);
    lemma_strip_sorted(q);
    lemma_obj_index(q, k);
    lemma_obj_index(s, k);
    lemma_sorted_unique_index(q, k);
    lemma_sorted_unique_index(s, k);
    match obj_index(s, k) {
        Some(i) => {
            assert(kept_from(q, s, i));
            let j = choose|j: int| #[trigger] kept_at(q, s, i, j);
            assert(q[j].0 == k);
        },
        None => {
            match obj_index(q, k) {
                Some(j) => {
                    if !(q[j].1 is Null) {
                        let i = choose|i: int| #[trigger] kept_at(q, s, i, j);
                        assert(s[i].0 == k);
                    }
                },
                None => {},
            }
        },
    }
}

/// Merging a patch into its own stripped form changes nothing (when
/// clobbering: if its arrays may be combined again).
pub proof fn lemma_merge_stripped(x: JValue, cfg: MergeConfigView, path: Seq<char>)
    requires
        jwf(x),
        cfg.clobber ==> arrays_repeat_safe(x, cfg, path),
    ensures
        merge_value(strip_nulls(x), x, cfg, path) == strip_nulls(x),
    decreases x, 1int,
{
    match x {
        JValue::Object(q) => {
            lemma_jwf_object(q);
            lemma_strip_sorted(q);
            let s = strip_entries(q);
            lemma_merge_entries_keys(s, q, cfg, path);
            let r = merge_entries(s, q, cfg, path);
            assert forall|k: Seq<char>| #[trigger] obj_get(r, k) == obj_get(s, k) by {
                assert(obj_get(r, k) == merged_entry(s, q, k, cfg, path));
                lemma_strip_get(q, k);
                lemma_obj_index(q, k);
                lemma_jwf_get(q, k);
                match obj_get(q, k) {
                    Some(v) => {
                        if !(v is Null) {
                            let j = obj_index(q, k)->0;
                            assert(q[j].1 == v);
                            assert(q[j].0 == k);
                            assert(decreases_to!(x => x->Object_0));
                            assert(decreases_to!(x => x->Object_0[j]));
                            assert(decreases_to!(x => x->Object_0[j].1));
                            lemma_existing_stripped(v, cfg, child_path(path, k));
                        }
                    },
                    None => {},
                }
            }
            lemma_maps_equal(r, s);
            lemma_sorted_map_unique(r, s);
        },
        JValue::Array(a) => {
            if cfg.clobber {
                lemma_combine_twice(strategy_for(cfg, path), a, a);
            }
        },
        _ => {},
    }
}

/// What the stripped form of a non-null patch value becomes under that
/// patch value again: itself.
pub proof fn lemma_existing_stripped(v: JValue, cfg: MergeConfigView, child: Seq<char>)
    requires
        jwf(v),
        !(v is Null),
        cfg.clobber ==> arrays_repeat_safe(v, cfg, child),
    ensures
        merge_existing(strip_nulls(v), v, cfg, child) == strip_nulls(v),
    decreases v, 2int,
{
    lemma_strip_nulls(v);
    if v is Object || (cfg.clobber && v is Array) {
        lemma_merge_stripped(v, cfg, child);
    }
}

/// Merging the same patch a second time changes nothing (when clobbering:
/// if the patch's arrays may be combined again, as with `Replace` and
/// `Union`).
pub proof fn lemma_merge_idempotent(e: JValue, p: JValue, cfg: MergeConfigView, path: Seq<char>)
    requires
        jwf(e),
        jwf(p),
        cfg.clobber ==> arrays_repeat_safe(p, cfg, path),
    ensures
        merge_value(merge_value(e, p, cfg, path), p, cfg, path) == merge_value(e, p, cfg, path),
    decreases p, 1int,
{
    match (e, p) {
        (JValue::Object(b), JValue::Object(q)) => {
            lemma_jwf_object(b);
            lemma_jwf_object(q);
            lemma_merge_entries_keys(b, q, cfg, path);
            let r = merge_entries(b, q, cfg, path);
            lemma_merge_entries_keys(r, q, cfg, path);
            let r2 = merge_entries(r, q, cfg, path);
            assert forall|k: Seq<char>| #[trigger] obj_get(r2, k) == obj_get(r, k) by {
                assert(obj_get(r2, k) == merged_entry(r, q, k, cfg, path));
                assert(obj_get(r, k) == merged_entry(b, q, k, cfg, path));
                lemma_obj_index(q, k);
                lemma_jwf_get(b, k);
                match obj_get(q, k) {
                    Some(pv) => {
                        if !(pv is Null) {
                            let j = obj_index(q, k)->0;
                            assert(q[j].1 == pv);
                            assert(q[j].0 == k);
                            assert(decreases_to!(p => p->Object_0));
                            assert(decreases_to!(p => p->Object_0[j]));
                            assert(decreases_to!(p => p->Object_0[j].1));
                            lemma_existing_twice(obj_get(b, k), pv, cfg, child_path(path, k));
                        }
                    },
                    None => {},
                }
            }
            lemma_maps_equal(r2, r);
            lemma_sorted_map_unique(r2, r);
        },
        (JValue::Array(b), JValue::Array(q)) => {
            if cfg.clobber {
                lemma_combine_twice(strategy_for(cfg, path), b, q);
            }
        },
        (_, JValue::Null) => {},
        _ => {
            if cfg.clobber {
                lemma_merge_stripped(p, cfg, path);
            }
        },
    }
}

/// The entry for a non-null patch value is unchanged by applying that patch
/// value again.
proof fn lemma_existing_twice(bk: Option<JValue>, pv: JValue, cfg: MergeConfigView, child: Seq<char>)
    requires
        bk matches Some(x) ==> jwf(x),
        jwf(pv),
        !(pv is Null),
        cfg.clobber ==> arrays_repeat_safe(pv, cfg, child),
    ensures
        ({
            let y = match bk {
                Some(x) => merge_existing(x, pv, cfg, child),
                None => strip_nulls(pv),
            };
            merge_existing(y, pv, cfg, child) == y
        }),
    decreases pv, 2int,
{
    match bk {
        Some(x) => {
            if x is Object && pv is Object {
                lemma_merge_idempotent(x, pv, cfg, child);
            } else if cfg.clobber && x is Array && pv is Array {
                lemma_combine_twice(strategy_for(cfg, child), x->Array_0, pv->Array_0);
            } else if cfg.clobber {
                lemma_existing_stripped(pv, cfg, child);
            }
        },
        None => {
            lemma_existing_stripped(pv, cfg, child);
        },
    }
}

/// A merge leaves no `null` object entry where there was none: a `null` in
/// the patch only ever deletes.
pub proof fn lemma_merge_no_null_entries(e: JValue, p: JValue, cfg: MergeConfigView, path: Seq<char>)
    requires
        jwf(e),
        jwf(p),
        no_null_entries(e),
    ensures
        no_null_entries(merge_value(e, p, cfg, path)),
    decreases p, 1int,
{
    match (e, p) {
        (JValue::Object(b), JValue::Object(q)) => {
            lemma_jwf_object(b);
            lemma_jwf_object(q);
            lemma_merge_entries_keys(b, q, cfg, path);
            let r = merge_entries(b, q, cfg, path);
            assert forall|i: int| 0 <= i < r.len() implies !((#[trigger] r[i]).1 is Null)
                && no_null_entries(r[i].1) by {
                let k = r[i].0;
                lemma_sorted_entry_get(r, i);
                assert(obj_get(r, k) == merged_entry(b, q, k, cfg, path));
                lemma_obj_index(q, k);
                lemma_obj_index(b, k);
                lemma_jwf_get(b, k);
                lemma_jwf_get(q, k);
                match obj_index(b, k) {
                    Some(jb) => {
                        assert(b[jb].0 == k);
                    },
                    None => {},
                }
                match obj_get(q, k) {
                    Some(pv) => {
                        if !(pv is Null) {
                            match obj_get(b, k) {
                                Some(bv) => {
                                    let j = obj_index(q, k)->0;
                                    assert(decreases_to!(p => q));
                                    assert(decreases_to!(p => q[j]));
                                    assert(decreases_to!(p => q[j].1));
                                    lemma_existing_no_null(bv, pv, cfg, child_path(path, k));
                                },
                                None => {
                                    lemma_strip_nulls(pv);
                                },
                            }
                        }
                    },
                    None => {},
                }
            }
        },
        (JValue::Array(b), JValue::Array(q)) => {},
        (_, JValue::Null) => {},
        _ => {
            lemma_strip_nulls(p);
        },
    }
}

/// What an existing non-null entry becomes under a non-null patch value is
/// not `null` and holds no `null` entry, when the existing value holds none.
proof fn lemma_existing_no_null(bv: JValue, pv: JValue, cfg: MergeConfigView, child: Seq<char>)
    requires
        jwf(bv),
        jwf(pv),
        !(bv is Null),
        !(pv is Null),
        no_null_entries(bv),
    ensures
        !(merge_existing(bv, pv, cfg, child) is Null),
        no_null_entries(merge_existing(bv, pv, cfg, child)),
    decreases pv, 2int,
{
    if bv is Object && pv is Object {
        lemma_merge_no_null_entries(bv, pv, cfg, child);
    } else if cfg.clobber && !(bv is Array && pv is Array) {
        lemma_strip_nulls(pv);
    }
}

/// A `null` patch changes nothing: merging it gives the existing value back.
pub proof fn lemma_null_patch_keeps(e: JValue, cfg: MergeConfigView, path: Seq<char>)
    ensures
        merge_value(e, JValue::Null, cfg, path) == e,
{
}

/// No two items of `a` have the same value.
pub open spec fn distinct_items(a: Seq<JValue>) -> bool {
    forall|i: int, j: int| 0 <= i < j < a.len() ==> !same_value(#[trigger] a[i], #[trigger] a[j])
}

/// A union is deduplicated: each patch item is added only where no item of
/// the result so far has its value, so a union of a duplicate-free array
/// with any patch has no two items of the same value.
pub proof fn lemma_union_distinct(b: Seq<JValue>, p: Seq<JValue>)
    requires
        distinct_items(b),
    ensures
        distinct_items(union_items(b, p)),
    decreases p.len(),
{
    if p.len() > 0 {
        let last = p[p.len() - 1];
        assert(p.last() == last);
        lemma_union_distinct(b, p.drop_last());
        let r = union_items(b, p.drop_last());
        if !has_item(r, last) {
            let u = r.push(last);
            assert(union_items(b, p) == u);
            assert forall|i: int, j: int| 0 <= i < j < u.len() implies !same_value(#[trigger] u[i], #[trigger] u[j]) by {
                if j < r.len() {
                    assert(u[i] == r[i] && u[j] == r[j]);
                } else {
                    assert(u[i] == r[i] && u[j] == last);
                    if same_value(r[i], last) {
                        assert(has_item(r, last));
                    }
                }
            }
        }
    }
}

/// Merging two arrays under `Union` (when clobbering) keeps the existing
/// items in order and adds the patch items whose value is not there yet, once
/// each: the result has no two items of the same value when the existing
/// array has none, and every item of either array has its value in it.
pub proof fn lemma_merge_union_dedup(b: Seq<JValue>, q: Seq<JValue>, cfg: MergeConfigView, path: Seq<char>)
    requires
        cfg.clobber,
        strategy_for(cfg, path) == ArrayStrategy::Union,
    ensures
        merge_value(JValue::Array(b), JValue::Array(q), cfg, path) matches JValue::Array(u) && {
            &&& distinct_items(b) ==> distinct_items(u)
            &&& u.subrange(0, b.len() as int) == b
            &&& forall|x: JValue| b.contains(x) || q.contains(x) ==> #[trigger] has_item(u, x)
            &&& forall|x: JValue| #[trigger] u.contains(x) ==> b.contains(x) || q.contains(x)
        },
{
    lemma_union_items(b, q);
    if distinct_items(b) {
        lemma_union_distinct(b, q);
    }
}

} // verus!
