//! Applying a patch file to a configuration file: the per-path array
//! strategy option, the preparation of the patch, and the merge itself.
use vstd::prelude::*;
use crate::formats::Format;
use crate::merge::{ArrayStrategy, MergeConfig, merge, merge_value};
use crate::text::{chars_of, string_of, slice_of, find_char_in, find_char, concat3, lemma_find_char};
use crate::value::{JValue, Value, Object, obj_get, obj_remove};

verus! {

// ───────────────────────────── array strategy option ─────────────────────────────

/// The code of `c` with ASCII upper-case letters made lower-case.
pub open spec fn ascii_lower(c: char) -> u32 {
    if 'A' <= c <= 'Z' {
        (c as u32 + 32) as u32
    } else {
        c as u32
    }
}

/// Whether `a` and `b` are equal up to ASCII case.
pub open spec fn eq_ignore_ascii_case(a: Seq<char>, b: Seq<char>) -> bool {
    a.len() == b.len() && forall|i: int| 0 <= i < a.len() ==> ascii_lower(a[i]) == ascii_lower(b[i])
}

/// The strategy that `name` names, ignoring ASCII case.
pub open spec fn strategy_named(name: Seq<char>) -> Option<ArrayStrategy> {
    if eq_ignore_ascii_case(name, "replace"@) {
        Some(ArrayStrategy::Replace)
    } else if eq_ignore_ascii_case(name, "append"@) {
        Some(ArrayStrategy::Append)
    } else if eq_ignore_ascii_case(name, "prepend"@) {
        Some(ArrayStrategy::Prepend)
    } else if eq_ignore_ascii_case(name, "union"@) {
        Some(ArrayStrategy::Union)
    } else {
        None
    }
}

/// What `path=strategy` gives: the text before the first `=` and the
/// strategy named after it; `None` without a `=` or with an unknown name.
pub open spec fn path_strategy_of(s: Seq<char>) -> Option<(Seq<char>, ArrayStrategy)> {
    match find_char(s, '=') {
        Some(i) => match strategy_named(s.skip(i + 1)) {
            Some(st) => Some((s.take(i), st)),
            None => None,
        },
        None => None,
    }
}

fn lower_code(c: char) -> (r: u32)
    ensures
        r == ascii_lower(c),
{
    if 'A' <= c && c <= 'Z' {
        (c as u32) + 32
    } else {
        c as u32
    }
}

fn same_ignoring_case(a: &Vec<char>, b: &str) -> (r: bool)
    ensures
        r == eq_ignore_ascii_case(a@, b@),
{
    let bc = chars_of(b);
    if a.len() != bc.len() {
        return false;
    }
    let n = a.len();
    for i in 0..n
        invariant
            n == a@.len(),
            n == bc@.len(),
            bc@ == b@,
            forall|j: int| 0 <= j < i ==> ascii_lower(a@[j]) == ascii_lower(bc@[j]),
    {
        if lower_code(a[i]) != lower_code(bc[i]) {
            return false;
        }
    }
    true
}

fn strategy_from_name(name: &Vec<char>) -> (r: Option<ArrayStrategy>)
    ensures
        r == strategy_named(name@),
{
    if same_ignoring_case(name, "replace") {
        Some(ArrayStrategy::Replace)
    } else if same_ignoring_case(name, "append") {
        Some(ArrayStrategy::Append)
    } else if same_ignoring_case(name, "prepend") {
        Some(ArrayStrategy::Prepend)
    } else if same_ignoring_case(name, "union") {
        Some(ArrayStrategy::Union)
    } else {
        None
    }
}

/// Reads a per-path array strategy written `path=strategy` (e.g.
/// `plugins=append`). The path is everything before the first `=`; the
/// strategy name is matched ignoring ASCII case.
pub fn parse_path_strategy(s: &str) -> (r: Result<(String, ArrayStrategy), String>)
    ensures
        match path_strategy_of(s@) {
            Some((p, st)) => r matches Ok((q, x)) && q@ == p && x == st,
            None => r is Err,
        },
        r matches Err(e) ==> match find_char(s@, '=') {
            None => e@ == "expected 'path=strategy', got '"@ + s@ + "'"@,
            Some(i) => e@ == "unknown strategy '"@ + s@.skip(i + 1)
                + "'; valid values: replace, append, prepend, union"@,
        },
{
    let chars = chars_of(s);
    match find_char_in(&chars, '=') {
        None => Err(concat3("expected 'path=strategy', got '", s, "'")),
        Some(i) => {
            proof {
                lemma_find_char(s@, '=');
            }
            let path = slice_of(&chars, 0, i);
            let name = slice_of(&chars, i + 1, chars.len());
            assert(path@ =~= s@.take(i as int));
            assert(name@ =~= s@.skip(i + 1));
            match strategy_from_name(&name) {
                Some(st) => Ok((string_of(&path), st)),
                None => {
                    let name_text = string_of(&name);
                    Err(concat3(
                        "unknown strategy '",
                        name_text.as_str(),
                        "'; valid values: replace, append, prepend, union",
                    ))
                },
            }
        },
    }
}

// ───────────────────────────── patch preparation ─────────────────────────────

/// Whether `es` holds a string under `key`.
pub open spec fn has_string(es: Seq<(Seq<char>, JValue)>, key: Seq<char>) -> bool {
    obj_get(es, key) matches Some(JValue::Str(_))
}

/// A registry key without its file timestamps: `__mtime__` and `__time__`
/// are dropped where they hold strings. Registry values are objects, and
/// stay.
pub open spec fn strip_key_times(v: JValue) -> JValue {
    match v {
        JValue::Object(es) => {
            let es1 = if has_string(es, "__mtime__"@) {
                obj_remove(es, "__mtime__"@)
            } else {
                es
            };
            let es2 = if has_string(es1, "__time__"@) {
                obj_remove(es1, "__time__"@)
            } else {
                es1
            };
            JValue::Object(es2)
        },
        _ => v,
    }
}

/// A registry patch without the file metadata that a parsed registry file
/// carries: `__header__` and `__preamble__` at the top, and the timestamps
/// of each key.
pub open spec fn strip_reg_metadata(v: JValue) -> JValue {
    match v {
        JValue::Object(es) => {
            let es1 = obj_remove(obj_remove(es, "__header__"@), "__preamble__"@);
            JValue::Object(Seq::new(es1.len(), |i: int| (es1[i].0, strip_key_times(es1[i].1))))
        },
        _ => v,
    }
}

/// The patch as it is applied: a registry patch loses its file metadata.
pub open spec fn prepared_patch(patch: JValue, format: Format) -> JValue {
    if format == Format::Reg {
        strip_reg_metadata(patch)
    } else {
        patch
    }
}

fn strip_times_exec(v: Value) -> (r: Value)
    ensures
        r.view() == strip_key_times(v.view()),
{
    match v {
        Value::Object(mut es) => {
            proof {
                reveal_strlit("__mtime__");
                reveal_strlit("__time__");
            }
            if matches!(es.get("__mtime__"), Some(Value::String(_))) {
                es.remove("__mtime__");
            }
            if matches!(es.get("__time__"), Some(Value::String(_))) {
                es.remove("__time__");
            }
            Value::Object(es)
        },
        other => other,
    }
}

fn strip_metadata_exec(v: Value) -> (r: Value)
    ensures
        r.view() == strip_reg_metadata(v.view()),
{
    match v {
        Value::Object(mut root) => {
            root.remove("__header__");
            root.remove("__preamble__");
            let ghost es1 = root.view();
            proof {
                root.lemma_view();
            }
            let n = root.entries.len();
            for i in 0..n
                invariant
                    n == root.entries@.len(),
                    es1.len() == n,
                    root.view().len() == n,
                    forall|j: int|
                        0 <= j < n ==> #[trigger] root.view()[j] == (
                            root.entries@[j].0@,
                            root.entries@[j].1.view(),
                        ),
                    forall|j: int| 0 <= j < i ==> #[trigger] root.view()[j] == (es1[j].0, strip_key_times(es1[j].1)),
                    forall|j: int| i <= j < n ==> #[trigger] root.view()[j] == es1[j],
            {
                let ghost e0 = root.entries@;
                let ghost v0 = root.view();
                assert(v0[i as int] == es1[i as int]);
                assert(v0[i as int] == (e0[i as int].0@, e0[i as int].1.view()));
                let (k, section) = root.entries.remove(i);
                assert(k == e0[i as int].0 && section == e0[i as int].1);
                let stripped = strip_times_exec(section);
                let ghost sv = stripped.view();
                root.entries.insert(i, (k, stripped));
                assert(root.entries@ =~= e0.update(i as int, (k, stripped)));
                proof {
                    root.lemma_view();
                    assert(root.view()[i as int] == (es1[i as int].0, strip_key_times(es1[i as int].1)));
                    assert forall|j: int| 0 <= j < n && j != i implies #[trigger] root.view()[j] == v0[j] by {
                        assert(root.entries@[j] == e0[j]);
                    }
                }
            }
            assert(root.view() =~= Seq::new(es1.len(), |j: int| (es1[j].0, strip_key_times(es1[j].1))));
            Value::Object(root)
        },
        other => other,
    }
}


/// The patch as it is applied, or `None` where there is nothing to merge
/// (the patch is `null`). A registry patch loses the file metadata that a
/// parsed registry file carries; in other formats those keys are data.
pub fn prepare_patch(patch: Value, format: Format) -> (r: Option<Value>)
    ensures
        match prepared_patch(patch.view(), format) {
            JValue::Null => r is None,
            p => r matches Some(v) && v.view() == p,
        },
{
    let p = if format == Format::Reg {
        strip_metadata_exec(patch)
    } else {
        patch
    };
    if p.is_null() {
        None
    } else {
        Some(p)
    }
}

/// The existing document a patch is merged into: the parsed file, or an
/// empty object where the file is missing or empty.
pub open spec fn base_document(existing: Option<JValue>) -> JValue {
    match existing {
        Some(v) => v,
        None => JValue::Object(Seq::empty()),
    }
}

/// Merges a patch read in `patch_format` into the existing document
/// (`None`: the file is missing or empty). `None` where the patch is `null`
/// and there is nothing to merge; otherwise the merged document.
pub fn merge_documents(existing: Option<Value>, patch: Value, patch_format: Format, config: &MergeConfig) -> (r: Option<Value>)
    ensures
        match prepared_patch(patch.view(), patch_format) {
            JValue::Null => r is None,
            p => r matches Some(v) && v.view() == merge_value(
                base_document(
                    match existing {
                        Some(e) => Some(e.view()),
                        None => None,
                    },
                ),
                p,
                config.view(),
                Seq::empty(),
            ),
        },
{
    let base = match existing {
        Some(e) => e,
        None => Value::Object(Object::new()),
    };
    match prepare_patch(patch, patch_format) {
        None => None,
        Some(p) => {
            proof {
                reveal_strlit("");
            }
            assert(""@ =~= Seq::<char>::empty());
            Some(merge(base, p, config, ""))
        },
    }
}

} // verus!
