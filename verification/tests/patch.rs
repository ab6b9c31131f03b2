use patchix::formats::Format;
use patchix::formats::reg::{parse, serialize};
use patchix::merge::{ArrayStrategy, MergeConfig};
use patchix::patch::{merge_documents, parse_path_strategy, prepare_patch};
use patchix::value::{Number, Object, Value};

fn obj(entries: Vec<(&str, Value)>) -> Value {
    let mut o = Object::new();
    for (k, v) in entries {
        o.insert(k.to_string(), v);
    }
    Value::Object(o)
}

fn s(t: &str) -> Value {
    Value::String(t.to_string())
}

fn num(n: u64) -> Value {
    Value::Number(Number::PosInt(n))
}

fn config(clobber: bool) -> MergeConfig {
    MergeConfig { default_array: ArrayStrategy::Replace, path_strategies: Vec::new(), clobber }
}

#[test]
fn path_strategy_option() {
    assert_eq!(parse_path_strategy("plugins=append"), Ok(("plugins".to_string(), ArrayStrategy::Append)));
    assert_eq!(parse_path_strategy("a.b=UNION"), Ok(("a.b".to_string(), ArrayStrategy::Union)));
    assert_eq!(parse_path_strategy("x=Prepend"), Ok(("x".to_string(), ArrayStrategy::Prepend)));
    assert_eq!(parse_path_strategy("=replace"), Ok(("".to_string(), ArrayStrategy::Replace)));
    assert_eq!(
        parse_path_strategy("a=b=append"),
        Err("unknown strategy 'b=append'; valid values: replace, append, prepend, union".to_string())
    );
    assert_eq!(
        parse_path_strategy("plugins"),
        Err("expected 'path=strategy', got 'plugins'".to_string())
    );
    assert_eq!(
        parse_path_strategy("plugins=merge"),
        Err("unknown strategy 'merge'; valid values: replace, append, prepend, union".to_string())
    );
}

fn reg_patch() -> Value {
    obj(vec![
        ("__header__", s("Windows Registry Editor Version 5.00")),
        ("__preamble__", s("; comment")),
        (
            "HKCU\\Test",
            obj(vec![
                ("__mtime__", s("1700000000")),
                ("__time__", obj(vec![("type", s("sz")), ("value", s("kept"))])),
                ("v", obj(vec![("type", s("sz")), ("value", s("x"))])),
            ]),
        ),
    ])
}

#[test]
fn registry_patch_loses_file_metadata() {
    let p = prepare_patch(reg_patch(), Format::Reg).unwrap();
    assert_eq!(
        p,
        obj(vec![(
            "HKCU\\Test",
            obj(vec![
                ("__time__", obj(vec![("type", s("sz")), ("value", s("kept"))])),
                ("v", obj(vec![("type", s("sz")), ("value", s("x"))])),
            ]),
        )])
    );
}

#[test]
fn other_formats_keep_metadata_names() {
    assert_eq!(prepare_patch(reg_patch(), Format::Json), Some(reg_patch()));
}

#[test]
fn null_patch_is_nothing_to_merge() {
    assert_eq!(prepare_patch(Value::Null, Format::Json), None);
    assert_eq!(merge_documents(None, Value::Null, Format::Yaml, &config(true)), None);
}

#[test]
fn missing_file_merges_into_empty_object() {
    let merged = merge_documents(None, obj(vec![("a", num(1))]), Format::Json, &config(true)).unwrap();
    assert_eq!(merged, obj(vec![("a", num(1))]));
}

#[test]
fn existing_document_is_merged() {
    let existing = obj(vec![("a", num(1)), ("b", num(2))]);
    let merged = merge_documents(Some(existing), obj(vec![("b", num(3))]), Format::Toml, &config(false)).unwrap();
    assert_eq!(merged, obj(vec![("a", num(1)), ("b", num(2))]));
}

#[test]
fn reg_wine_header_preserved_after_merge() {
    let existing = parse("WINE REGISTRY Version 2\n\n[Software\\\\Wine]\n\"Version\"=\"6.0\"\n").unwrap();
    let patch = parse("WINE REGISTRY Version 2\n\n[Software\\\\Wine\\\\Direct3D]\n\"UseGLSL\"=\"enabled\"\n").unwrap();
    let merged = merge_documents(Some(existing), patch, Format::Reg, &config(true)).unwrap();
    let content = serialize(&merged).unwrap();
    assert!(content.starts_with("WINE REGISTRY Version 2"), "got: {content}");
    assert!(!content.contains("__header__"));
    assert!(content.contains("\"Version\"=\"6.0\""));
    assert!(content.contains("\"UseGLSL\"=\"enabled\""));
}

#[test]
fn reg_document_without_header_is_written_as_version_5() {
    let doc = obj(vec![("HKEY_CURRENT_USER\\T", obj(vec![]))]);
    let content = serialize(&doc).unwrap();
    assert!(content.starts_with("Windows Registry Editor Version 5.00\r\n"));
    let odd = obj(vec![("__header__", s("not a header")), ("K", obj(vec![]))]);
    let content = serialize(&odd).unwrap();
    assert_eq!(content, "Windows Registry Editor Version 5.00\r\n\r\n[K]\r\n");
}

#[test]
fn reg_patch_header_does_not_replace_existing_header() {
    let existing = parse("Windows Registry Editor Version 5.00\r\n\r\n[HKEY_CURRENT_USER\\Software\\Test]\r\n\"Old\"=\"value\"\r\n").unwrap();
    let patch = parse("REGEDIT4\r\n\r\n[HKEY_CURRENT_USER\\Software\\Test]\r\n\"New\"=\"value\"\r\n").unwrap();
    let merged = merge_documents(Some(existing), patch, Format::Reg, &config(true)).unwrap();
    let content = serialize(&merged).unwrap();
    assert!(content.starts_with("Windows Registry Editor Version 5.00\r\n"), "got: {content}");
    assert!(!content.contains("__header__"));
    assert!(content.contains("\"New\"=\"value\""));
    assert!(content.contains("\"Old\"=\"value\""));
}
