use patchix::merge::{merge, ArrayStrategy, MergeConfig};
use patchix::value::{Number, Object, Value};

fn obj(entries: Vec<(&str, Value)>) -> Value {
    let mut o = Object::new();
    for (k, v) in entries {
        o.insert(k.to_string(), v);
    }
    Value::Object(o)
}

fn num(n: i64) -> Value {
    if n >= 0 {
        Value::Number(Number::PosInt(n as u64))
    } else {
        Value::Number(Number::NegInt(n))
    }
}

fn s(t: &str) -> Value {
    Value::String(t.to_string())
}

fn arr(items: Vec<Value>) -> Value {
    Value::Array(items)
}

fn config(default_array: ArrayStrategy, clobber: bool) -> MergeConfig {
    MergeConfig { default_array, path_strategies: Vec::new(), clobber }
}

fn default_config() -> MergeConfig {
    config(ArrayStrategy::Replace, true)
}

fn no_clobber_config() -> MergeConfig {
    config(ArrayStrategy::Replace, false)
}

#[test]
fn deep_merge_objects() {
    let existing = obj(vec![("a", obj(vec![("b", num(1)), ("c", num(2))])), ("d", num(3))]);
    let patch = obj(vec![("a", obj(vec![("b", num(10)), ("e", num(5))]))]);
    let result = merge(existing, patch, &default_config(), "");
    assert_eq!(
        result,
        obj(vec![("a", obj(vec![("b", num(10)), ("c", num(2)), ("e", num(5))])), ("d", num(3))])
    );
}

#[test]
fn null_deletes_key() {
    let existing = obj(vec![("a", num(1)), ("b", num(2)), ("c", num(3))]);
    let patch = obj(vec![("b", Value::Null)]);
    let result = merge(existing, patch, &default_config(), "");
    assert_eq!(result, obj(vec![("a", num(1)), ("c", num(3))]));
}

#[test]
fn array_replace() {
    let existing = obj(vec![("items", arr(vec![num(1), num(2), num(3)]))]);
    let patch = obj(vec![("items", arr(vec![num(4), num(5)]))]);
    let result = merge(existing, patch, &default_config(), "");
    assert_eq!(result, obj(vec![("items", arr(vec![num(4), num(5)]))]));
}

#[test]
fn array_append() {
    let existing = obj(vec![("items", arr(vec![num(1), num(2), num(3)]))]);
    let patch = obj(vec![("items", arr(vec![num(4), num(5)]))]);
    let result = merge(existing, patch, &config(ArrayStrategy::Append, true), "");
    assert_eq!(result, obj(vec![("items", arr(vec![num(1), num(2), num(3), num(4), num(5)]))]));
}

#[test]
fn array_prepend() {
    let existing = obj(vec![("items", arr(vec![num(1), num(2), num(3)]))]);
    let patch = obj(vec![("items", arr(vec![num(4), num(5)]))]);
    let result = merge(existing, patch, &config(ArrayStrategy::Prepend, true), "");
    assert_eq!(result, obj(vec![("items", arr(vec![num(4), num(5), num(1), num(2), num(3)]))]));
}

#[test]
fn array_union() {
    let existing = obj(vec![("items", arr(vec![num(1), num(2), num(3)]))]);
    let patch = obj(vec![("items", arr(vec![num(2), num(3), num(4)]))]);
    let result = merge(existing, patch, &config(ArrayStrategy::Union, true), "");
    assert_eq!(result, obj(vec![("items", arr(vec![num(1), num(2), num(3), num(4)]))]));
}

#[test]
fn per_path_strategy() {
    let existing = obj(vec![
        ("plugins", arr(vec![s("a"), s("b")])),
        ("keybinds", arr(vec![s("ctrl+a"), s("ctrl+b")])),
    ]);
    let patch = obj(vec![("plugins", arr(vec![s("c")])), ("keybinds", arr(vec![s("ctrl+c")]))]);
    let config = MergeConfig {
        default_array: ArrayStrategy::Replace,
        path_strategies: vec![("plugins".to_string(), ArrayStrategy::Append)],
        clobber: true,
    };
    let result = merge(existing, patch, &config, "");
    assert_eq!(
        result,
        obj(vec![
            ("plugins", arr(vec![s("a"), s("b"), s("c")])),
            ("keybinds", arr(vec![s("ctrl+c")])),
        ])
    );
}

#[test]
fn nested_path_strategy() {
    let existing = obj(vec![("editor", obj(vec![("formatters", arr(vec![s("rustfmt")]))]))]);
    let patch = obj(vec![("editor", obj(vec![("formatters", arr(vec![s("prettier")]))]))]);
    let config = MergeConfig {
        default_array: ArrayStrategy::Replace,
        path_strategies: vec![("editor.formatters".to_string(), ArrayStrategy::Append)],
        clobber: true,
    };
    let result = merge(existing, patch, &config, "");
    assert_eq!(
        result,
        obj(vec![("editor", obj(vec![("formatters", arr(vec![s("rustfmt"), s("prettier")]))]))])
    );
}

#[test]
fn patch_adds_new_keys() {
    let existing = obj(vec![("a", num(1))]);
    let patch = obj(vec![("b", num(2))]);
    let result = merge(existing, patch, &default_config(), "");
    assert_eq!(result, obj(vec![("a", num(1)), ("b", num(2))]));
}

#[test]
fn scalar_overwrite() {
    let existing = obj(vec![("theme", s("light"))]);
    let patch = obj(vec![("theme", s("dark"))]);
    let result = merge(existing, patch, &default_config(), "");
    assert_eq!(result, obj(vec![("theme", s("dark"))]));
}

#[test]
fn type_change_patch_wins() {
    let existing = obj(vec![("val", s("string"))]);
    let patch = obj(vec![("val", obj(vec![("nested", Value::Bool(true))]))]);
    let result = merge(existing, patch, &default_config(), "");
    assert_eq!(result, obj(vec![("val", obj(vec![("nested", Value::Bool(true))]))]));
}

#[test]
fn top_level_null_patch_is_noop() {
    let existing = obj(vec![("a", num(1))]);
    let result = merge(existing, Value::Null, &default_config(), "");
    assert_eq!(result, obj(vec![("a", num(1))]));
}

#[test]
fn empty_existing() {
    let existing = obj(vec![]);
    let patch = obj(vec![("a", num(1)), ("b", obj(vec![("c", num(2))]))]);
    let result = merge(existing, patch, &default_config(), "");
    assert_eq!(result, obj(vec![("a", num(1)), ("b", obj(vec![("c", num(2))]))]));
}

#[test]
fn no_clobber_preserves_existing_scalars() {
    let existing = obj(vec![("theme", s("light")), ("fontSize", num(12))]);
    let patch = obj(vec![("theme", s("dark")), ("fontSize", num(14))]);
    let result = merge(existing, patch, &no_clobber_config(), "");
    assert_eq!(result, obj(vec![("theme", s("light")), ("fontSize", num(12))]));
}

#[test]
fn no_clobber_adds_missing_keys() {
    let existing = obj(vec![("theme", s("light"))]);
    let patch = obj(vec![("theme", s("dark")), ("newKey", s("value"))]);
    let result = merge(existing, patch, &no_clobber_config(), "");
    assert_eq!(result, obj(vec![("theme", s("light")), ("newKey", s("value"))]));
}

#[test]
fn no_clobber_recurses_into_objects() {
    let existing = obj(vec![("editor", obj(vec![("fontSize", num(12))]))]);
    let patch = obj(vec![("editor", obj(vec![("fontSize", num(14)), ("tabSize", num(2))]))]);
    let result = merge(existing, patch, &no_clobber_config(), "");
    assert_eq!(result, obj(vec![("editor", obj(vec![("fontSize", num(12)), ("tabSize", num(2))]))]));
}

#[test]
fn no_clobber_preserves_existing_arrays() {
    let existing = obj(vec![("plugins", arr(vec![s("a"), s("b")]))]);
    let patch = obj(vec![("plugins", arr(vec![s("c")]))]);
    let result = merge(existing, patch, &no_clobber_config(), "");
    assert_eq!(result, obj(vec![("plugins", arr(vec![s("a"), s("b")]))]));
}

#[test]
fn no_clobber_plugin_toggle_scenario() {
    let existing = obj(vec![
        ("enabledPlugins", obj(vec![("audio-notify", Value::Bool(false)), ("gh", Value::Bool(true))])),
        ("runtimeKey", s("preserved")),
    ]);
    let patch = obj(vec![
        (
            "enabledPlugins",
            obj(vec![
                ("audio-notify", Value::Bool(true)),
                ("gh", Value::Bool(true)),
                ("new-plugin", Value::Bool(true)),
            ]),
        ),
        ("model", s("opus")),
    ]);
    let result = merge(existing, patch, &no_clobber_config(), "");
    assert_eq!(
        result,
        obj(vec![
            (
                "enabledPlugins",
                obj(vec![
                    ("audio-notify", Value::Bool(false)),
                    ("gh", Value::Bool(true)),
                    ("new-plugin", Value::Bool(true)),
                ]),
            ),
            ("runtimeKey", s("preserved")),
            ("model", s("opus")),
        ])
    );
}

#[test]
fn no_clobber_protects_against_null_deletion() {
    let existing = obj(vec![("a", num(1)), ("b", num(2))]);
    let patch = obj(vec![("b", Value::Null)]);
    let result = merge(existing, patch, &no_clobber_config(), "");
    assert_eq!(result, obj(vec![("a", num(1)), ("b", num(2))]));
}

// Laws on concrete values.

#[test]
fn merging_twice_changes_nothing_more() {
    let existing = obj(vec![("a", num(1)), ("b", obj(vec![("c", arr(vec![num(1)]))]))]);
    let patch = obj(vec![("b", obj(vec![("c", arr(vec![num(2)])), ("d", s("x"))])), ("e", Value::Null)]);
    let patch2 = obj(vec![("b", obj(vec![("c", arr(vec![num(2)])), ("d", s("x"))])), ("e", Value::Null)]);
    let once = merge(existing, patch, &default_config(), "");
    let expected = obj(vec![("a", num(1)), ("b", obj(vec![("c", arr(vec![num(2)])), ("d", s("x"))]))]);
    assert_eq!(once, expected);
    let twice = merge(once, patch2, &default_config(), "");
    assert_eq!(twice, expected);
}

#[test]
fn union_merge_twice_is_stable() {
    let existing = obj(vec![("xs", arr(vec![num(1), num(2)]))]);
    let once = merge(existing, obj(vec![("xs", arr(vec![num(2), num(3)]))]), &config(ArrayStrategy::Union, true), "");
    let twice = merge(once, obj(vec![("xs", arr(vec![num(2), num(3)]))]), &config(ArrayStrategy::Union, true), "");
    assert_eq!(twice, obj(vec![("xs", arr(vec![num(1), num(2), num(3)]))]));
}

#[test]
fn append_twice_repeats_items() {
    let existing = obj(vec![("xs", arr(vec![num(1)]))]);
    let once = merge(existing, obj(vec![("xs", arr(vec![num(2)]))]), &config(ArrayStrategy::Append, true), "");
    let twice = merge(once, obj(vec![("xs", arr(vec![num(2)]))]), &config(ArrayStrategy::Append, true), "");
    assert_eq!(twice, obj(vec![("xs", arr(vec![num(1), num(2), num(2)]))]));
}

#[test]
fn later_path_strategy_entry_wins() {
    let config = MergeConfig {
        default_array: ArrayStrategy::Replace,
        path_strategies: vec![
            ("xs".to_string(), ArrayStrategy::Append),
            ("xs".to_string(), ArrayStrategy::Prepend),
        ],
        clobber: true,
    };
    assert_eq!(config.array_strategy_for("xs"), ArrayStrategy::Prepend);
    assert_eq!(config.array_strategy_for(".xs"), ArrayStrategy::Prepend);
    assert_eq!(config.array_strategy_for("ys"), ArrayStrategy::Replace);
    let existing = obj(vec![("xs", arr(vec![num(1)]))]);
    let result = merge(existing, obj(vec![("xs", arr(vec![num(2)]))]), &config, "");
    assert_eq!(result, obj(vec![("xs", arr(vec![num(2), num(1)]))]));
}

#[test]
fn no_clobber_keeps_scalar_against_object_patch() {
    let existing = obj(vec![("a", num(1))]);
    let patch = obj(vec![("a", obj(vec![("b", num(2))]))]);
    let result = merge(existing, patch, &no_clobber_config(), "");
    assert_eq!(result, obj(vec![("a", num(1))]));
}

#[test]
fn scalar_root_patch_replaces_object() {
    let existing = obj(vec![("a", num(1))]);
    assert_eq!(merge(existing, num(5), &default_config(), ""), num(5));
    let existing = obj(vec![("a", num(1))]);
    assert_eq!(merge(existing, num(5), &no_clobber_config(), ""), obj(vec![("a", num(1))]));
}

#[test]
fn keys_stay_sorted_after_insert() {
    let v = obj(vec![("b", num(2)), ("a", num(1)), ("c", num(3))]);
    match v {
        Value::Object(o) => {
            let keys: Vec<&str> = o.entries.iter().map(|(k, _)| k.as_str()).collect();
            assert_eq!(keys, vec!["a", "b", "c"]);
        }
        _ => panic!("not an object"),
    }
}

#[test]
fn inserted_object_drops_null_entries() {
    let existing = obj(vec![]);
    let patch = obj(vec![("a", obj(vec![("b", Value::Null), ("c", num(1))]))]);
    let result = merge(existing, patch, &default_config(), "");
    assert_eq!(result, obj(vec![("a", obj(vec![("c", num(1))]))]));
}

#[test]
fn inserted_object_with_null_is_stable_on_reapply() {
    let patch = || obj(vec![("a", obj(vec![("b", Value::Null)]))]);
    let once = merge(obj(vec![]), patch(), &default_config(), "");
    assert_eq!(once, obj(vec![("a", obj(vec![]))]));
    let twice = merge(merge(obj(vec![]), patch(), &default_config(), ""), patch(), &default_config(), "");
    assert_eq!(twice, once);
}

#[test]
fn replacing_scalar_with_object_drops_nulls_but_keeps_array_items() {
    let existing = obj(vec![("a", num(1))]);
    let patch = obj(vec![("a", obj(vec![("x", Value::Null), ("y", arr(vec![Value::Null]))]))]);
    let result = merge(existing, patch, &default_config(), "");
    assert_eq!(result, obj(vec![("a", obj(vec![("y", arr(vec![Value::Null]))]))]));
}

#[test]
fn no_clobber_insert_drops_nulls_too() {
    let existing = obj(vec![("k", num(1))]);
    let patch = obj(vec![("n", obj(vec![("z", Value::Null), ("w", s("v"))]))]);
    let result = merge(existing, patch, &no_clobber_config(), "");
    assert_eq!(result, obj(vec![("k", num(1)), ("n", obj(vec![("w", s("v"))]))]));
}

#[test]
fn union_treats_zero_and_negative_zero_as_one_item() {
    let f = |t: &str| Value::Number(Number::Float(t.to_string()));
    let existing = obj(vec![("xs", arr(vec![f("0.0"), f("1.5")]))]);
    let patch = obj(vec![("xs", arr(vec![f("-0.0"), f("2.5"), num(0)]))]);
    let result = merge(existing, patch, &config(ArrayStrategy::Union, true), "");
    assert_eq!(result, obj(vec![("xs", arr(vec![f("0.0"), f("1.5"), f("2.5"), num(0)]))]));
}

#[test]
fn union_compares_nested_values_deeply() {
    let f = |t: &str| Value::Number(Number::Float(t.to_string()));
    let existing = obj(vec![("xs", arr(vec![obj(vec![("z", f("-0.0"))])]))]);
    let patch = obj(vec![("xs", arr(vec![obj(vec![("z", f("0.0"))]), obj(vec![("z", f("0.5"))])]))]);
    let result = merge(existing, patch, &config(ArrayStrategy::Union, true), "");
    assert_eq!(
        result,
        obj(vec![("xs", arr(vec![obj(vec![("z", f("-0.0"))]), obj(vec![("z", f("0.5"))])]))])
    );
}

#[test]
fn path_strategy_exact_match_before_dot_stripped() {
    let mut c = config(ArrayStrategy::Replace, true);
    c.path_strategies.push((".x".to_string(), ArrayStrategy::Append));
    assert_eq!(c.array_strategy_for(".x"), ArrayStrategy::Append);
    assert_eq!(c.array_strategy_for("x"), ArrayStrategy::Replace);
    c.path_strategies.push(("x".to_string(), ArrayStrategy::Union));
    assert_eq!(c.array_strategy_for(".x"), ArrayStrategy::Append);
    assert_eq!(c.array_strategy_for("x"), ArrayStrategy::Union);
    assert_eq!(c.array_strategy_for(".y"), ArrayStrategy::Replace);
    c.path_strategies.push(("y".to_string(), ArrayStrategy::Prepend));
    assert_eq!(c.array_strategy_for(".y"), ArrayStrategy::Prepend);
}
