use patchix::formats::ini;
use patchix::formats::reg::{
    decode_utf16le_hex, encode_utf16le_hex, escape_reg_string, extract_quoted, fold_hex,
    parse_hex_bytes, parse_outcome, parse_value_name, quote_value_name, split_name_data,
    strip_bom, Step,
};
use patchix::formats::toml::{check_toml_values, toml_integer};
use patchix::formats::yaml::{check_single_document, finish_output};
use patchix::formats::{detect_format, format_for_extension, Format};
use patchix::value::{Number, Object, Value};

fn obj(entries: Vec<(&str, Value)>) -> Value {
    let mut o = Object::new();
    for (k, v) in entries {
        o.insert(k.to_string(), v);
    }
    Value::Object(o)
}

fn s(t: &str) -> Value {
    Value::String(t.to_string())
}

// ── INI ──────────────────────────────────────────────────────────────────────

#[test]
fn ini_parse_sections_and_global() {
    let v = ini::parse("g=1\n[s]\nk=v\n").unwrap();
    assert_eq!(v, obj(vec![("__global__", obj(vec![("g", s("1"))])), ("s", obj(vec![("k", s("v"))]))]));
}

#[test]
fn ini_parse_always_has_global_section() {
    let v = ini::parse("[a]\nx=1\n").unwrap();
    assert_eq!(v, obj(vec![("__global__", obj(vec![])), ("a", obj(vec![("x", s("1"))]))]));
}

#[test]
fn ini_parse_merges_repeated_sections() {
    let v = ini::parse("[a]\nx=1\n[a]\ny=2\n").unwrap();
    assert_eq!(v, obj(vec![("__global__", obj(vec![])), ("a", obj(vec![("x", s("1")), ("y", s("2"))]))]));
}

#[test]
fn ini_serialize_global_first_and_skips_null() {
    let v = obj(vec![
        ("__global__", obj(vec![("g", s("1"))])),
        (
            "s",
            obj(vec![
                ("k", s("v")),
                ("n", Value::Null),
                ("b", Value::Bool(true)),
                ("i", Value::Number(Number::NegInt(-5))),
            ]),
        ),
    ]);
    let out = ini::serialize(&v).unwrap();
    assert_eq!(out, "g=1\n\n[s]\nb=true\ni=-5\nk=v\n");
}

#[test]
fn ini_serialize_errors() {
    assert!(ini::serialize(&s("x")).is_err());
    assert!(ini::serialize(&obj(vec![("s", s("x"))])).is_err());
    assert!(ini::serialize(&obj(vec![("__global__", s("x"))])).is_err());
    let nested = obj(vec![("s", obj(vec![("k", obj(vec![]))]))]);
    let e = ini::serialize(&nested).unwrap_err();
    assert_eq!(e, "INI values must be scalars, got nested structure at [s].k");
}

#[test]
fn ini_number_text() {
    assert_eq!(ini::number_to_string(&Number::PosInt(42)), "42");
    assert_eq!(ini::number_to_string(&Number::NegInt(i64::MIN)), "-9223372036854775808");
    assert_eq!(ini::number_to_string(&Number::Float("0.85".to_string())), "0.85");
}

// ── YAML ─────────────────────────────────────────────────────────────────────

#[test]
fn yaml_single_document_accepted() {
    assert!(check_single_document("a: 1\nb: 2\n").is_ok());
    assert!(check_single_document("---\na: 1\n").is_ok());
    assert!(check_single_document("  \n---\na: |\n  ---\n").is_ok());
}

#[test]
fn yaml_second_document_refused() {
    assert!(check_single_document("a: 1\n---\nb: 2\n").is_err());
    assert!(check_single_document("---\na: 1\n---   \nb: 2\n").is_err());
    assert!(check_single_document("a: 1\n\t---\n").is_ok());
}

#[test]
fn yaml_output_framing() {
    assert_eq!(finish_output("---\na: 1\n"), "a: 1\n");
    assert_eq!(finish_output("---\r\na: 1"), "a: 1\n");
    assert_eq!(finish_output("a: 1"), "a: 1\n");
    assert_eq!(finish_output(""), "\n");
}

// ── TOML ─────────────────────────────────────────────────────────────────────

#[test]
fn toml_refuses_null_anywhere() {
    assert!(check_toml_values(&obj(vec![("a", s("x"))])).is_ok());
    assert!(check_toml_values(&obj(vec![("a", obj(vec![("b", Value::Null)]))])).is_err());
    assert!(check_toml_values(&Value::Array(vec![s("x"), Value::Null])).is_err());
    assert_eq!(check_toml_values(&Value::Null).unwrap_err(), "TOML does not support null values");
}

#[test]
fn toml_integer_range() {
    assert_eq!(toml_integer(&Number::PosInt(7)), Some(7));
    assert_eq!(toml_integer(&Number::PosInt(i64::MAX as u64)), Some(i64::MAX));
    assert_eq!(toml_integer(&Number::PosInt(i64::MAX as u64 + 1)), None);
    assert_eq!(toml_integer(&Number::NegInt(-3)), Some(-3));
    assert_eq!(toml_integer(&Number::Float("1.5".to_string())), None);
}

// ── format detection ─────────────────────────────────────────────────────────

#[test]
fn format_from_extension() {
    assert_eq!(format_for_extension(Some("json")), Ok(Format::Json));
    assert_eq!(format_for_extension(Some("toml")), Ok(Format::Toml));
    assert_eq!(format_for_extension(Some("yml")), Ok(Format::Yaml));
    assert_eq!(format_for_extension(Some("yaml")), Ok(Format::Yaml));
    assert_eq!(format_for_extension(Some("conf")), Ok(Format::Ini));
    assert_eq!(format_for_extension(Some("cfg")), Ok(Format::Ini));
    assert_eq!(format_for_extension(Some("ini")), Ok(Format::Ini));
    assert_eq!(format_for_extension(Some("reg")), Ok(Format::Reg));
    assert_eq!(
        format_for_extension(Some("txt")),
        Err("unknown file extension '.txt', use --format to specify".to_string())
    );
    assert_eq!(format_for_extension(None), Err("no file extension, use --format to specify".to_string()));
}

#[test]
fn format_from_path() {
    assert_eq!(detect_format("/home/u/.config/app/settings.json"), Ok(Format::Json));
    assert_eq!(detect_format("user.reg"), Ok(Format::Reg));
    assert_eq!(detect_format("dir.toml/config"), Err("no file extension, use --format to specify".to_string()));
    assert!(detect_format(".bashrc").is_err());
    assert!(detect_format("notes.md").is_err());
}

// ── .reg helpers ─────────────────────────────────────────────────────────────

#[test]
fn reg_string_escaping() {
    assert_eq!(escape_reg_string("C:\\a \"b\""), "C:\\\\a \\\"b\\\"");
    assert_eq!(quote_value_name("(default)"), "@");
    assert_eq!(quote_value_name("x\\y"), "\"x\\\\y\"");
    assert_eq!(strip_bom("\u{FEFF}abc"), "abc");
    assert_eq!(strip_bom("abc"), "abc");
}

#[test]
fn reg_quoted_names() {
    assert_eq!(extract_quoted("\"a\\\"b\"=rest"), Ok(("a\"b".to_string(), "=rest")));
    assert!(extract_quoted("\"open").is_err());
    assert_eq!(parse_value_name("@"), Ok("(default)".to_string()));
    assert_eq!(parse_value_name("\"n\""), Ok("n".to_string()));
    assert!(parse_value_name("bare").is_err());
    assert_eq!(split_name_data("\"k\"=dword:00000001"), Ok(("k".to_string(), "dword:00000001")));
    assert_eq!(split_name_data("@=\"x\""), Ok(("(default)".to_string(), "\"x\"")));
    assert!(split_name_data("\"k\" dword").is_err());
}

#[test]
fn reg_hex_bytes() {
    assert_eq!(parse_hex_bytes("01, ab ,ff"), Ok(vec![1, 0xab, 0xff]));
    assert_eq!(parse_hex_bytes(""), Ok(vec![]));
    assert!(parse_hex_bytes("zz").is_err());
    assert_eq!(encode_utf16le_hex("A\u{e9}"), "41,00,e9,00");
    assert_eq!(decode_utf16le_hex("41,00,e9,00"), Ok("A\u{e9}".to_string()));
    assert_eq!(encode_utf16le_hex("\u{1F600}"), "3d,d8,00,de");
    assert_eq!(decode_utf16le_hex("3d,d8,00,de"), Ok("\u{1F600}".to_string()));
}

#[test]
fn reg_hex_folding() {
    let short = "01,02,03";
    assert_eq!(fold_hex(short), short);
    let parts: Vec<String> = (0..30).map(|i| format!("{:02x}", i)).collect();
    let long = parts.join(",");
    let folded = fold_hex(&long);
    let first: Vec<String> = parts[..25].to_vec();
    let rest: Vec<String> = parts[25..].to_vec();
    assert_eq!(folded, format!("{},\\\r\n  {}", first.join(","), rest.join(",")));
}

#[test]
fn reg_parse_outcome_reports_refusal() {
    match parse_outcome("bogus\r\n") {
        Step::Failed(e) => assert_eq!(e, "unrecognised .reg header: 'bogus'"),
        _ => panic!("expected a refusal"),
    }
}

#[test]
fn detect_format_reads_the_last_component_of_a_path() {
    let none = || Err("no file extension, use --format to specify".to_string());
    assert_eq!(detect_format("dir/config.json"), Ok(Format::Json));
    assert_eq!(detect_format("a//b.toml/"), Ok(Format::Toml));
    assert_eq!(detect_format("a/./c.yml/."), Ok(Format::Yaml));
    assert_eq!(detect_format("./x.ini"), Ok(Format::Ini));
    assert_eq!(detect_format("a/b.reg/.."), none());
    assert_eq!(detect_format("/x/.bashrc"), none());
    assert_eq!(detect_format("dir.d/file"), none());
    assert_eq!(detect_format("/"), none());
    assert_eq!(detect_format("x/y.tar.gz"), Err("unknown file extension '.gz', use --format to specify".to_string()));
    assert_eq!(detect_format("x/y."), Err("unknown file extension '.', use --format to specify".to_string()));
}
