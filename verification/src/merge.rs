//! Deep merge of a patch into an existing value (RFC 7396 semantics) with
//! configurable array strategies.
use vstd::prelude::*;
use crate::text::text_eq;
use crate::value::{
    JValue, Value, Object, obj_get, obj_insert, obj_remove, lemma_obj_index, values_view,
    lemma_array_view, lemma_values_view_add, lemma_values_view_push, contains_value, has_item,
    same_value,
};

verus! {

/// How two arrays found at the same place are combined.
#[derive(Clone, Copy, Debug, PartialEq, Eq, Structural)]
pub enum ArrayStrategy {
    Replace,
    Append,
    Prepend,
    Union,
}

/// Settings of a merge.
pub struct MergeConfig {
    /// The strategy for arrays whose path has no entry of its own.
    pub default_array: ArrayStrategy,
    /// Per-path strategies (dot-separated paths); a later entry for the same
    /// path takes precedence over an earlier one.
    pub path_strategies: Vec<(String, ArrayStrategy)>,
    /// When false, existing values are preserved — the patch only fills in
    /// missing keys.
    pub clobber: bool,
}

/// The mathematical view of a [`MergeConfig`].
pub struct MergeConfigView {
    pub default_array: ArrayStrategy,
    pub path_strategies: Seq<(Seq<char>, ArrayStrategy)>,
    pub clobber: bool,
}

impl MergeConfig {
    pub open spec fn view(&self) -> MergeConfigView {
        MergeConfigView {
            default_array: self.default_array,
            path_strategies: Seq::new(
                self.path_strategies@.len(),
                |i: int| (self.path_strategies@[i].0@, self.path_strategies@[i].1),
            ),
            clobber: self.clobber,
        }
    }
}

/// The strategy of the last entry of `ps` whose path is `key`.
pub open spec fn strategy_lookup(ps: Seq<(Seq<char>, ArrayStrategy)>, key: Seq<char>) -> Option<
    ArrayStrategy,
>
    decreases ps.len(),
{
    if ps.len() == 0 {
        None
    } else if ps.last().0 == key {
        Some(ps.last().1)
    } else {
        strategy_lookup(ps.drop_last(), key)
    }
}

/// `path` without one leading dot.
pub open spec fn normalized_path(path: Seq<char>) -> Seq<char> {
    if path.len() > 0 && path[0] == '.' {
        path.drop_first()
    } else {
        path
    }
}

/// The strategy that applies to arrays at `path`: that of the last per-path
/// entry for `path` itself, else of the last one for `path` without one
/// leading dot, else the default.
pub open spec fn strategy_for(cfg: MergeConfigView, path: Seq<char>) -> ArrayStrategy {
    match strategy_lookup(cfg.path_strategies, path) {
        Some(s) => s,
        None => match strategy_lookup(cfg.path_strategies, normalized_path(path)) {
            Some(s) => s,
            None => cfg.default_array,
        },
    }
}

/// The path of the entry `key` below `path`.
pub open spec fn child_path(path: Seq<char>, key: Seq<char>) -> Seq<char> {
    if path.len() == 0 {
        key
    } else {
        path + seq!['.'] + key
    }
}

/// `b` followed by each item of `p` that is not already present (as the
/// same JSON value, see [`same_value`]).
pub open spec fn union_items(b: Seq<JValue>, p: Seq<JValue>) -> Seq<JValue>
    decreases p.len(),
{
    if p.len() == 0 {
        b
    } else {
        let r = union_items(b, p.drop_last());
        if has_item(r, p.last()) {
            r
        } else {
            r.push(p.last())
        }
    }
}

/// Two arrays combined by `s`.
pub open spec fn combine_arrays(s: ArrayStrategy, b: Seq<JValue>, p: Seq<JValue>) -> Seq<JValue> {
    match s {
        ArrayStrategy::Replace => p,
        ArrayStrategy::Append => b + p,
        ArrayStrategy::Prepend => p + b,
        ArrayStrategy::Union => union_items(b, p),
    }
}

/// `v` with every `null` entry removed from its objects, recursively through
/// objects (arrays are values and are kept as they are): what a patch value
/// becomes where it is inserted, since a `null` in it can only delete.
pub open spec fn strip_nulls(v: JValue) -> JValue
    decreases v, 1int,
{
    match v {
        JValue::Object(es) => JValue::Object(strip_entries(es)),
        _ => v,
    }
}

/// The entries `es` without those whose value is `null`, the others stripped.
pub open spec fn strip_entries(es: Seq<(Seq<char>, JValue)>) -> Seq<(Seq<char>, JValue)>
    decreases es, 0int,
{
    if es.len() == 0 {
        es
    } else {
        let last = es[es.len() - 1];
        let rest = strip_entries(es.drop_last());
        if last.1 is Null {
            rest
        } else {
            rest.push((last.0, strip_nulls(last.1)))
        }
    }
}

/// The result of merging patch `p` into existing value `e` at `path`.
pub open spec fn merge_value(e: JValue, p: JValue, cfg: MergeConfigView, path: Seq<char>) -> JValue
    decreases p, 1int,
{
    match (e, p) {
        (JValue::Object(b), JValue::Object(q)) => JValue::Object(merge_entries(b, q, cfg, path)),
        (JValue::Array(b), JValue::Array(q)) => if !cfg.clobber {
            JValue::Array(b)
        } else {
            JValue::Array(combine_arrays(strategy_for(cfg, path), b, q))
        },
        (_, JValue::Null) => e,
        _ => if cfg.clobber {
            strip_nulls(p)
        } else {
            e
        },
    }
}

/// What an existing entry value `bv` becomes under the non-null patch value `pv`.
pub open spec fn merge_existing(bv: JValue, pv: JValue, cfg: MergeConfigView, child: Seq<char>) -> JValue
    decreases pv, 2int,
{
    if bv is Object && pv is Object {
        merge_value(bv, pv, cfg, child)
    } else if cfg.clobber {
        if bv is Array && pv is Array {
            merge_value(bv, pv, cfg, child)
        } else {
            strip_nulls(pv)
        }
    } else {
        bv
    }
}

/// The entries `b` after applying the patch entry `(k, pv)`.
pub open spec fn apply_entry(
    b: Seq<(Seq<char>, JValue)>,
    k: Seq<char>,
    pv: JValue,
    merged: JValue,
    cfg: MergeConfigView,
) -> Seq<(Seq<char>, JValue)> {
    if pv is Null {
        if cfg.clobber {
            obj_remove(b, k)
        } else {
            b
        }
    } else {
        obj_insert(b, k, merged)
    }
}

/// The entries `b` after applying the patch entries `q`, first to last.
pub open spec fn merge_entries(
    b: Seq<(Seq<char>, JValue)>,
    q: Seq<(Seq<char>, JValue)>,
    cfg: MergeConfigView,
    path: Seq<char>,
) -> Seq<(Seq<char>, JValue)>
    decreases q, 0int,
{
    if q.len() == 0 {
        b
    } else {
        let k = q[0].0;
        let pv = q[0].1;
        let merged = match obj_get(b, k) {
            Some(bv) => if pv is Null {
                bv
            } else {
                merge_existing(bv, pv, cfg, child_path(path, k))
            },
            None => strip_nulls(pv),
        };
        merge_entries(apply_entry(b, k, pv, merged, cfg), q.subrange(1, q.len() as int), cfg, path)
    }
}


impl MergeConfig {
    /// The strategy of the last per-path entry whose path is `key`.
    fn lookup_strategy(&self, key: &str) -> (r: Option<ArrayStrategy>)
        ensures
            r == strategy_lookup(self.view().path_strategies, key@),
    {
        let ghost ps = self.view().path_strategies;
        let mut i = self.path_strategies.len();
        assert(ps.take(i as int) =~= ps);
        while i > 0
            invariant
                i <= self.path_strategies@.len(),
                ps == self.view().path_strategies,
                strategy_lookup(ps, key@) == strategy_lookup(ps.take(i as int), key@),
            decreases i,
        {
            i = i - 1;
            assert(ps.take(i + 1).last() == ps[i as int]);
            assert(ps.take(i + 1).drop_last() =~= ps.take(i as int));
            if text_eq(self.path_strategies[i].0.as_str(), key) {
                return Some(self.path_strategies[i].1);
            }
        }
        None
    }

    /// The strategy for arrays at `path`: that of the last per-path entry for
    /// `path` itself, else of the last one for `path` without one leading
    /// dot, else the default.
    pub fn array_strategy_for(&self, path: &str) -> (r: ArrayStrategy)
        ensures
            r == strategy_for(self.view(), path@),
    {
        if let Some(s) = self.lookup_strategy(path) {
            return s;
        }
        let len = path.unicode_len();
        let normalized: &str = if len > 0 && path.get_char(0) == '.' {
            path.substring_char(1, len)
        } else {
            path
        };
        assert(normalized@ == normalized_path(path@));
        match self.lookup_strategy(normalized) {
            Some(s) => s,
            None => self.default_array,
        }
    }
}

/// The path of entry `key` below `path`.
fn child_path_of(path: &str, key: &String) -> (r: String)
    ensures
        r@ == child_path(path@, key@),
{
    if path.is_empty() {
        key.clone()
    } else {
        let mut s = String::from_str(path);
        proof {
            reveal_strlit(".");
        }
        s.append(".");
        s.append(key.as_str());
        s
    }
}

/// Combines two arrays by the configured strategy for `path`.
fn merge_arrays(b: Vec<Value>, q: Vec<Value>, config: &MergeConfig, path: &str) -> (r: Vec<Value>)
    ensures
        values_view(r@) == combine_arrays(
            strategy_for(config.view(), path@),
            values_view(b@),
            values_view(q@),
        ),
{
    let strategy = config.array_strategy_for(path);
    match strategy {
        ArrayStrategy::Replace => q,
        ArrayStrategy::Append => {
            let mut result = b;
            let mut rest = q;
            let ghost b0 = result@;
            let ghost q0 = rest@;
            result.append(&mut rest);
            proof {
                lemma_values_view_add(b0, q0);
            }
            result
        },
        ArrayStrategy::Prepend => {
            let mut result = q;
            let mut rest = b;
            let ghost q0 = result@;
            let ghost b0 = rest@;
            result.append(&mut rest);
            proof {
                lemma_values_view_add(q0, b0);
            }
            result
        },
        ArrayStrategy::Union => {
            let mut result = b;
            let ghost qv = values_view(q@);
            let ghost bv = values_view(result@);
            assert(qv.take(0) =~= Seq::<JValue>::empty());
            for item in it: q
                invariant
                    qv == values_view(it.seq()),
                    values_view(result@) == union_items(bv, qv.take(it.index() as int)),
            {
                assert(qv[it.index() as int] == item.view());
                assert(qv.take(it.index() + 1).drop_last() =~= qv.take(it.index() as int));
                assert(qv.take(it.index() + 1).last() == item.view());
                if !contains_value(&result, &item) {
                    proof {
                        lemma_values_view_push(result@, item);
                    }
                    result.push(item);
                }
            }
            assert(qv.take(qv.len() as int) =~= qv);
            result
        },
    }
}

/// `v` with every `null` entry removed from its objects, recursively.
fn strip_nulls_value(v: Value) -> (r: Value)
    ensures
        r.view() == strip_nulls(v.view()),
    decreases v.view(), 1int,
{
    let ghost v0 = v.view();
    match v {
        Value::Object(o) => Value::Object(strip_object(o, Ghost(v0))),
        other => other,
    }
}

/// The entries of `o` without those whose value is `null`, the others stripped.
fn strip_object(o: Object, Ghost(v0): Ghost<JValue>) -> (r: Object)
    requires
        v0 == JValue::Object(o.view()),
    ensures
        r.view() == strip_entries(o.view()),
    decreases v0, 0int,
{
    let ghost q = o.view();
    proof {
        o.lemma_view();
    }
    let mut res = Object::new();
    assert(q.take(0) =~= Seq::<(Seq<char>, JValue)>::empty());
    let entries = o.entries;
    for entry in it: entries
        invariant
            v0 == JValue::Object(q),
            q.len() == it.seq().len(),
            forall|j: int| 0 <= j < q.len() ==> #[trigger] q[j] == (it.seq()[j].0@, it.seq()[j].1.view()),
            res.view() == strip_entries(q.take(it.index() as int)),
    {
        let (key, val) = entry;
        let ghost i = it.index() as int;
        assert(q[i] == (key@, val.view()));
        assert(q.take(i + 1).drop_last() =~= q.take(i));
        assert(q.take(i + 1)[i] == q[i]);
        if !val.is_null() {
            assert(decreases_to!(v0 => v0->Object_0));
            assert(decreases_to!(v0 => v0->Object_0[i]));
            assert(decreases_to!(v0 => v0->Object_0[i].1));
            let sv = strip_nulls_value(val);
            let ghost before = res.view();
            proof {
                res.lemma_view();
            }
            res.entries.push((key, sv));
            proof {
                res.lemma_view();
            }
            assert(res.view() =~= before.push((q[i].0, strip_nulls(q[i].1))));
        }
    }
    assert(q.take(q.len() as int) =~= q);
    res
}

/// Deep merges `patch` into `existing` (RFC 7396): objects are merged key by
/// key, a `null` patch entry deletes the key, arrays are combined by the
/// strategy configured for their path, and any other conflict is decided by
/// `config.clobber` (the patch wins when set, the existing value otherwise).
/// A patch value that is added or that replaces is taken without its `null`
/// object entries, which have nothing to delete there.
pub fn merge(existing: Value, patch: Value, config: &MergeConfig, path: &str) -> (r: Value)
    ensures
        r.view() == merge_value(existing.view(), patch.view(), config.view(), path@),
    decreases patch.view(), 1int,
{
    let ghost ev = existing.view();
    let ghost pv0 = patch.view();
    match existing {
        Value::Object(base) => match patch {
            Value::Object(p) => {
                let entries = merge_object(base, p, config, path, Ghost(pv0));
                Value::Object(entries)
            },
            Value::Null => Value::Object(base),
            other => if config.clobber {
                other
            } else {
                Value::Object(base)
            },
        },
        Value::Array(b) => match patch {
            Value::Array(q) => {
                proof {
                    lemma_array_view(b);
                    lemma_array_view(q);
                }
                if !config.clobber {
                    Value::Array(b)
                } else {
                    let r = merge_arrays(b, q, config, path);
                    proof {
                        lemma_array_view(r);
                    }
                    Value::Array(r)
                }
            },
            Value::Null => Value::Array(b),
            other => if config.clobber {
                strip_nulls_value(other)
            } else {
                Value::Array(b)
            },
        },
        e => match patch {
            Value::Null => e,
            other => if config.clobber {
                strip_nulls_value(other)
            } else {
                e
            },
        },
    }
}

/// Merges the entries of object patch `p` into `base`.
fn merge_object(base: Object, p: Object, config: &MergeConfig, path: &str, Ghost(pv0): Ghost<JValue>) -> (r: Object)
    requires
        pv0 == JValue::Object(p.view()),
    ensures
        r.view() == merge_entries(base.view(), p.view(), config.view(), path@),
    decreases pv0, 0int,
{
    let mut base = base;
    let ghost b0 = base.view();
    let ghost q = p.view();
    proof {
        p.lemma_view();
    }
    assert(q.skip(0) =~= q);
    let entries = p.entries;
    for entry in it: entries
        invariant
            q == p.view(),
            pv0 == JValue::Object(q),
            q.len() == it.seq().len(),
            forall|j: int| 0 <= j < q.len() ==> #[trigger] q[j] == (it.seq()[j].0@, it.seq()[j].1.view()),
            merge_entries(base.view(), q.skip(it.index() as int), config.view(), path@)
                == merge_entries(b0, q, config.view(), path@),
    {
        let (key, pv) = entry;
        let ghost i = it.index() as int;
        let ghost rest = q.skip(i);
        let ghost bview = base.view();
        assert(rest[0] == (key@, pv.view()));
        assert(rest.subrange(1, rest.len() as int) =~= q.skip(i + 1));
        assert(decreases_to!(pv0 => pv0->Object_0));
        assert(decreases_to!(pv0 => pv0->Object_0[i]));
        assert(decreases_to!(pv0 => pv0->Object_0[i].1));
        proof {
            base.lemma_view();
            lemma_obj_index(bview, key@);
        }
        let ghost pvv = pv.view();
        let ghost merged = match obj_get(bview, key@) {
            Some(bvx) => if pvv is Null {
                bvx
            } else {
                merge_existing(bvx, pvv, config.view(), child_path(path@, key@))
            },
            None => strip_nulls(pvv),
        };
        let ghost kv = key@;
        if pv.is_null() {
            if config.clobber {
                base.remove(key.as_str());
            }
        } else {
            match base.find(key.as_str()) {
                Some(idx) => {
                    let (bk, bv) = base.entries.remove(idx);
                    let ghost bvv = bv.view();
                    assert(bvv == bview[idx as int].1);
                    let child = child_path_of(path, &key);
                    let combined = if bv.is_object() && pv.is_object() {
                        merge(bv, pv, config, child.as_str())
                    } else if config.clobber {
                        if bv.is_array() && pv.is_array() {
                            merge(bv, pv, config, child.as_str())
                        } else {
                            strip_nulls_value(pv)
                        }
                    } else {
                        bv
                    };
                    base.entries.insert(idx, (bk, combined));
                    proof {
                        base.lemma_view();
                    }
                    assert(base.view() =~= bview.update(idx as int, (key@, combined.view())));
                },
                None => {
                    base.insert(key, strip_nulls_value(pv));
                },
            }
        }
        assert(base.view() == apply_entry(bview, kv, pvv, merged, config.view()));
        assert(merge_entries(bview, rest, config.view(), path@) == merge_entries(
            base.view(),
            q.skip(i + 1),
            config.view(),
            path@,
        ));
    }
    assert(q.skip(q.len() as int) =~= Seq::<(Seq<char>, JValue)>::empty());
    base
}

} // verus!
