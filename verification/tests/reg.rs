use patchix::formats::reg::{encode_utf16le_hex, parse, parse_data, parse_value_name, quote_value_name, serialize, Step};
use patchix::merge::{merge, ArrayStrategy, MergeConfig};
use patchix::value::{Number, Object, Value};

fn obj(entries: Vec<(&str, Value)>) -> Value {
    let mut o = Object::new();
    for (k, v) in entries {
        o.insert(k.to_string(), v);
    }
    Value::Object(o)
}

fn s(t: &str) -> Value {
    Value::String(t.to_string())
}

fn uint(n: u64) -> Value {
    Value::Number(Number::PosInt(n))
}

fn at<'a>(v: &'a Value, k: &str) -> &'a Value {
    v.get(k).unwrap_or_else(|| panic!("no entry {k}"))
}

fn round_trip(reg: &str) -> Result<Value, String> {
    let parsed = parse(reg)?;
    let serialised = serialize(&parsed)?;
    let reparsed = parse(&serialised)?;
    assert_eq!(parsed, reparsed, "round-trip mismatch");
    Ok(parsed)
}

fn make_sz(v: &str) -> Value {
    obj(vec![("type", s("sz")), ("value", s(v))])
}

fn make_dword(v: u32) -> Value {
    obj(vec![("type", s("dword")), ("value", uint(v as u64))])
}

fn make_hex(v: &str) -> Value {
    obj(vec![("type", s("hex")), ("value", s(v))])
}

fn make_multi(v: Vec<&str>) -> Value {
    obj(vec![("type", s("multi_sz")), ("value", Value::Array(v.into_iter().map(s).collect()))])
}

fn typed(tag: &str, v: Value) -> Value {
    obj(vec![("type", s(tag)), ("value", v)])
}

#[test]
fn accepts_v5_header() {
    let reg = "Windows Registry Editor Version 5.00\r\n\r\n[HKEY_CURRENT_USER\\Test]\r\n";
    let v = parse(reg).unwrap();
    assert!(at(&v, "HKEY_CURRENT_USER\\Test").is_object());
}

#[test]
fn accepts_regedit4_header() {
    let reg = "REGEDIT4\r\n\r\n[HKEY_CURRENT_USER\\Test]\r\n";
    let v = parse(reg).unwrap();
    assert!(at(&v, "HKEY_CURRENT_USER\\Test").is_object());
}

#[test]
fn rejects_unknown_header() {
    let reg = "Some Random Header\r\n\r\n[HKEY_CURRENT_USER\\Test]\r\n";
    assert!(parse(reg).is_err());
}

#[test]
fn rejects_empty_file() {
    assert!(parse("").is_err());
    assert!(parse("   \r\n  ").is_err());
}

#[test]
fn parses_sz_value() {
    let reg = "Windows Registry Editor Version 5.00\r\n\r\n\
               [HKEY_CURRENT_USER\\Wine]\r\n\
               \"UseGLSL\"=\"enabled\"\r\n";
    let v = parse(reg).unwrap();
    assert_eq!(at(at(&v, "HKEY_CURRENT_USER\\Wine"), "UseGLSL"), &make_sz("enabled"));
}

#[test]
fn parses_sz_with_escaped_backslash() {
    let reg = "Windows Registry Editor Version 5.00\r\n\r\n\
               [HKEY_CURRENT_USER\\Test]\r\n\
               \"Path\"=\"C:\\\\Windows\\\\System32\"\r\n";
    let v = parse(reg).unwrap();
    assert_eq!(at(at(&v, "HKEY_CURRENT_USER\\Test"), "Path"), &make_sz("C:\\Windows\\System32"));
}

#[test]
fn parses_sz_with_escaped_quote() {
    let reg = "Windows Registry Editor Version 5.00\r\n\r\n\
               [HKEY_CURRENT_USER\\Test]\r\n\
               \"Msg\"=\"say \\\"hello\\\"\"\r\n";
    let v = parse(reg).unwrap();
    assert_eq!(at(at(&v, "HKEY_CURRENT_USER\\Test"), "Msg"), &make_sz("say \"hello\""));
}

#[test]
fn parses_empty_sz() {
    let reg = "Windows Registry Editor Version 5.00\r\n\r\n\
               [HKEY_CURRENT_USER\\Test]\r\n\
               \"Empty\"=\"\"\r\n";
    let v = parse(reg).unwrap();
    assert_eq!(at(at(&v, "HKEY_CURRENT_USER\\Test"), "Empty"), &make_sz(""));
}

#[test]
fn parses_default_value() {
    let reg = "Windows Registry Editor Version 5.00\r\n\r\n\
               [HKEY_CURRENT_USER\\Test]\r\n\
               @=\"default string\"\r\n";
    let v = parse(reg).unwrap();
    assert_eq!(at(at(&v, "HKEY_CURRENT_USER\\Test"), "(default)"), &make_sz("default string"));
}

#[test]
fn parses_dword() {
    let reg = "Windows Registry Editor Version 5.00\r\n\r\n\
               [HKEY_CURRENT_USER\\Test]\r\n\
               \"Version\"=dword:00000001\r\n";
    let v = parse(reg).unwrap();
    assert_eq!(at(at(&v, "HKEY_CURRENT_USER\\Test"), "Version"), &make_dword(1));
}

#[test]
fn parses_dword_max() {
    let reg = "Windows Registry Editor Version 5.00\r\n\r\n\
               [HKEY_CURRENT_USER\\Test]\r\n\
               \"Max\"=dword:ffffffff\r\n";
    let v = parse(reg).unwrap();
    assert_eq!(at(at(&v, "HKEY_CURRENT_USER\\Test"), "Max"), &make_dword(0xFFFF_FFFF));
}

#[test]
fn parses_dword_zero() {
    let reg = "Windows Registry Editor Version 5.00\r\n\r\n\
               [HKEY_CURRENT_USER\\Test]\r\n\
               \"Flag\"=dword:00000000\r\n";
    let v = parse(reg).unwrap();
    assert_eq!(at(at(&v, "HKEY_CURRENT_USER\\Test"), "Flag"), &make_dword(0));
}

#[test]
fn serializes_dword_zero_padded() {
    let v = obj(vec![("HKEY_CURRENT_USER\\Test", obj(vec![("Flag", typed("dword", uint(255)))]))]);
    let s = serialize(&v).unwrap();
    assert!(s.contains("\"Flag\"=dword:000000ff"), "got: {s}");
}

#[test]
fn parses_hex_binary() {
    let reg = "Windows Registry Editor Version 5.00\r\n\r\n\
               [HKEY_CURRENT_USER\\Test]\r\n\
               \"Data\"=hex:01,02,03,ff\r\n";
    let v = parse(reg).unwrap();
    assert_eq!(at(at(&v, "HKEY_CURRENT_USER\\Test"), "Data"), &make_hex("01,02,03,ff"));
}

#[test]
fn parses_hex_empty() {
    let reg = "Windows Registry Editor Version 5.00\r\n\r\n\
               [HKEY_CURRENT_USER\\Test]\r\n\
               \"Empty\"=hex:\r\n";
    let v = parse(reg).unwrap();
    assert_eq!(at(at(&v, "HKEY_CURRENT_USER\\Test"), "Empty"), &make_hex(""));
}

#[test]
fn parses_expand_sz() {
    let s = "%SystemRoot%\\foo";
    let hex = encode_utf16le_hex(&format!("{s}\0"));
    let reg = format!(
        "Windows Registry Editor Version 5.00\r\n\r\n\
         [HKEY_CURRENT_USER\\Test]\r\n\
         \"ExpandPath\"=hex(2):{hex}\r\n"
    );
    let v = parse(&reg).unwrap();
    let parsed_val = match at(at(at(&v, "HKEY_CURRENT_USER\\Test"), "ExpandPath"), "value") {
        Value::String(t) => t.clone(),
        other => panic!("not a string: {other:?}"),
    };
    assert!(parsed_val.contains(s), "got: {parsed_val:?}");
}

#[test]
fn round_trips_expand_sz_via_serialize() {
    let v = obj(vec![("HKEY_CURRENT_USER\\Test", obj(vec![("EP", typed("expand_sz", s("%TEMP%\\wine")))]))]);
    let out = serialize(&v).unwrap();
    assert!(out.contains("hex(2):"), "expected hex(2) in output: {out}");
    let reparsed = parse(&out).unwrap();
    assert_eq!(at(at(at(&reparsed, "HKEY_CURRENT_USER\\Test"), "EP"), "value"), &s("%TEMP%\\wine"));
}

#[test]
fn round_trips_multi_sz() {
    let v = obj(vec![(
        "HKEY_CURRENT_USER\\Test",
        obj(vec![("Fonts", make_multi(vec!["Arial", "Times New Roman", "Courier"]))]),
    )]);
    let out = serialize(&v).unwrap();
    assert!(out.contains("hex(7):"), "expected hex(7) in output: {out}");
    let reparsed = parse(&out).unwrap();
    assert_eq!(
        at(at(&reparsed, "HKEY_CURRENT_USER\\Test"), "Fonts"),
        &make_multi(vec!["Arial", "Times New Roman", "Courier"])
    );
}

#[test]
fn round_trips_multi_sz_empty() {
    let v = obj(vec![("HKEY_CURRENT_USER\\Test", obj(vec![("Empty", make_multi(vec![]))]))]);
    let out = serialize(&v).unwrap();
    let reparsed = parse(&out).unwrap();
    assert_eq!(at(at(at(&reparsed, "HKEY_CURRENT_USER\\Test"), "Empty"), "value"), &Value::Array(vec![]));
}

#[test]
fn round_trips_qword_integer() {
    let v = obj(vec![("HKEY_CURRENT_USER\\Test", obj(vec![("Big", typed("qword", uint(0x0102030405060708u64)))]))]);
    let out = serialize(&v).unwrap();
    assert!(out.contains("hex(b):"), "expected hex(b): {out}");
    let reparsed = parse(&out).unwrap();
    let hex_str = match at(at(at(&reparsed, "HKEY_CURRENT_USER\\Test"), "Big"), "value") {
        Value::String(t) => t.clone(),
        other => panic!("not a string: {other:?}"),
    };
    assert!(hex_str.contains("08"), "LE byte check: {hex_str}");
}

#[test]
fn round_trips_qword_string() {
    let v = obj(vec![("HKEY_CURRENT_USER\\Test", obj(vec![("Q", typed("qword", s("08,07,06,05,04,03,02,01")))]))]);
    let out = serialize(&v).unwrap();
    let reparsed = parse(&out).unwrap();
    assert_eq!(at(at(at(&reparsed, "HKEY_CURRENT_USER\\Test"), "Q"), "value"), &s("08,07,06,05,04,03,02,01"));
}

#[test]
fn parses_value_deletion() {
    let reg = "Windows Registry Editor Version 5.00\r\n\r\n\
               [HKEY_CURRENT_USER\\Test]\r\n\
               -\"OldValue\"\r\n";
    let v = parse(reg).unwrap();
    assert_eq!(at(at(&v, "HKEY_CURRENT_USER\\Test"), "OldValue"), &Value::Null);
}

#[test]
fn parses_key_deletion() {
    let reg = "Windows Registry Editor Version 5.00\r\n\r\n\
               [-HKEY_CURRENT_USER\\ObsoleteKey]\r\n";
    let v = parse(reg).unwrap();
    assert_eq!(at(&v, "HKEY_CURRENT_USER\\ObsoleteKey"), &Value::Null);
}

#[test]
fn serializes_value_deletion() {
    let v = obj(vec![("HKEY_CURRENT_USER\\Test", obj(vec![("OldValue", Value::Null)]))]);
    let out = serialize(&v).unwrap();
    assert!(out.contains("-\"OldValue\""), "got: {out}");
}

#[test]
fn serializes_key_deletion() {
    let v = obj(vec![("HKEY_CURRENT_USER\\ObsoleteKey", Value::Null)]);
    let out = serialize(&v).unwrap();
    assert!(out.contains("[-HKEY_CURRENT_USER\\ObsoleteKey]"), "got: {out}");
}

#[test]
fn parses_multiple_sections() {
    let reg = "Windows Registry Editor Version 5.00\r\n\r\n\
               [HKCU\\A]\r\n\
               \"x\"=\"1\"\r\n\
               \r\n\
               [HKCU\\B]\r\n\
               \"y\"=dword:00000002\r\n";
    let v = parse(reg).unwrap();
    assert_eq!(at(at(&v, "HKCU\\A"), "x"), &make_sz("1"));
    assert_eq!(at(at(&v, "HKCU\\B"), "y"), &make_dword(2));
}

#[test]
fn parses_multiple_values_in_section() {
    let reg = "Windows Registry Editor Version 5.00\r\n\r\n\
               [HKCU\\Test]\r\n\
               \"a\"=\"alpha\"\r\n\
               \"b\"=dword:0000000a\r\n\
               \"c\"=hex:de,ad,be,ef\r\n";
    let v = parse(reg).unwrap();
    assert_eq!(at(at(&v, "HKCU\\Test"), "a"), &make_sz("alpha"));
    assert_eq!(at(at(&v, "HKCU\\Test"), "b"), &make_dword(10));
    assert_eq!(at(at(&v, "HKCU\\Test"), "c"), &make_hex("de,ad,be,ef"));
}

#[test]
fn parses_hex_with_line_continuation() {
    let reg = "Windows Registry Editor Version 5.00\r\n\r\n\
               [HKCU\\Test]\r\n\
               \"Long\"=hex:01,02,03,\\\r\n  04,05,06\r\n";
    let v = parse(reg).unwrap();
    assert_eq!(at(at(&v, "HKCU\\Test"), "Long"), &make_hex("01,02,03,04,05,06"));
}

#[test]
fn ignores_comments() {
    let reg = "Windows Registry Editor Version 5.00\r\n\
               ; This is a comment\r\n\
               \r\n\
               [HKCU\\Test]\r\n\
               ; another comment\r\n\
               \"val\"=\"ok\"\r\n";
    let v = parse(reg).unwrap();
    assert_eq!(at(at(&v, "HKCU\\Test"), "val"), &make_sz("ok"));
}

#[test]
fn strips_utf8_bom() {
    let reg = "\u{FEFF}Windows Registry Editor Version 5.00\r\n\r\n\
               [HKCU\\Test]\r\n\
               \"x\"=\"1\"\r\n";
    let v = parse(reg).unwrap();
    assert_eq!(at(at(&v, "HKCU\\Test"), "x"), &make_sz("1"));
}

#[test]
fn round_trip_sz() {
    let reg = "Windows Registry Editor Version 5.00\r\n\r\n\
               [HKCU\\Test]\r\n\
               \"Hello\"=\"world\"\r\n";
    round_trip(reg).unwrap();
}

#[test]
fn round_trip_dword() {
    let reg = "Windows Registry Editor Version 5.00\r\n\r\n\
               [HKCU\\Test]\r\n\
               \"Num\"=dword:0000002a\r\n";
    round_trip(reg).unwrap();
}

#[test]
fn round_trip_hex() {
    let reg = "Windows Registry Editor Version 5.00\r\n\r\n\
               [HKCU\\Test]\r\n\
               \"Bin\"=hex:ca,fe,ba,be\r\n";
    round_trip(reg).unwrap();
}

#[test]
fn round_trip_deletions() {
    let reg = "Windows Registry Editor Version 5.00\r\n\r\n\
               [HKCU\\Test]\r\n\
               -\"Dead\"\r\n\
               \"Alive\"=\"yes\"\r\n";
    round_trip(reg).unwrap();
}

#[test]
fn round_trip_key_deletion() {
    let reg = "Windows Registry Editor Version 5.00\r\n\r\n\
               [-HKCU\\Gone]\r\n";
    round_trip(reg).unwrap();
}

#[test]
fn wine_direct3d_section() {
    let reg = "Windows Registry Editor Version 5.00\r\n\r\n\
               [HKEY_CURRENT_USER\\Software\\Wine\\Direct3D]\r\n\
               \"MaxVersionGL\"=\"opengl32,3.3\"\r\n\
               \"UseGLSL\"=\"enabled\"\r\n\
               \"VideoMemorySize\"=\"512\"\r\n";
    let v = parse(reg).unwrap();
    let sec = at(&v, "HKEY_CURRENT_USER\\Software\\Wine\\Direct3D");
    assert_eq!(at(sec, "MaxVersionGL"), &make_sz("opengl32,3.3"));
    assert_eq!(at(sec, "UseGLSL"), &make_sz("enabled"));
    assert_eq!(at(sec, "VideoMemorySize"), &make_sz("512"));
}

#[test]
fn wine_drives_section_with_dword() {
    let reg = "Windows Registry Editor Version 5.00\r\n\r\n\
               [HKEY_LOCAL_MACHINE\\System\\CurrentControlSet\\Services\\WineD3D]\r\n\
               \"Version\"=dword:00000001\r\n\
               \"Flags\"=dword:00000003\r\n";
    let v = parse(reg).unwrap();
    let sec = at(&v, "HKEY_LOCAL_MACHINE\\System\\CurrentControlSet\\Services\\WineD3D");
    assert_eq!(at(sec, "Version"), &make_dword(1));
    assert_eq!(at(sec, "Flags"), &make_dword(3));
}

#[test]
fn wine_font_substitutes() {
    let reg = "Windows Registry Editor Version 5.00\r\n\r\n\
               [HKEY_LOCAL_MACHINE\\Software\\Microsoft\\Windows NT\\CurrentVersion\\FontSubstitutes]\r\n\
               \"MS Shell Dlg\"=\"Tahoma\"\r\n\
               \"MS Shell Dlg 2\"=\"Tahoma\"\r\n";
    let v = parse(reg).unwrap();
    let sec = at(&v, "HKEY_LOCAL_MACHINE\\Software\\Microsoft\\Windows NT\\CurrentVersion\\FontSubstitutes");
    assert_eq!(at(sec, "MS Shell Dlg"), &make_sz("Tahoma"));
    assert_eq!(at(sec, "MS Shell Dlg 2"), &make_sz("Tahoma"));
}

#[test]
fn wine_full_patch_scenario() {
    let existing_reg = "Windows Registry Editor Version 5.00\r\n\r\n\
                        [HKEY_CURRENT_USER\\Software\\Wine]\r\n\
                        \"Version\"=\"6.0\"\r\n";
    let patch_reg = "Windows Registry Editor Version 5.00\r\n\r\n\
                     [HKEY_CURRENT_USER\\Software\\Wine\\Direct3D]\r\n\
                     \"UseGLSL\"=\"enabled\"\r\n\
                     \"MaxVersionGL\"=\"opengl32,4.6\"\r\n";
    let existing_val = parse(existing_reg).unwrap();
    let patch_val = parse(patch_reg).unwrap();
    let config = MergeConfig { default_array: ArrayStrategy::Replace, path_strategies: Vec::new(), clobber: true };
    let merged = merge(existing_val, patch_val, &config, "");
    let output = serialize(&merged).unwrap();
    let reparsed = parse(&output).unwrap();
    assert_eq!(at(at(&reparsed, "HKEY_CURRENT_USER\\Software\\Wine"), "Version"), &make_sz("6.0"));
    assert_eq!(at(at(&reparsed, "HKEY_CURRENT_USER\\Software\\Wine\\Direct3D"), "UseGLSL"), &make_sz("enabled"));
    assert_eq!(
        at(at(&reparsed, "HKEY_CURRENT_USER\\Software\\Wine\\Direct3D"), "MaxVersionGL"),
        &make_sz("opengl32,4.6")
    );
}

#[test]
fn wine_no_clobber_preserves_user_override() {
    let existing_reg = "Windows Registry Editor Version 5.00\r\n\r\n\
                        [HKEY_CURRENT_USER\\Software\\Wine\\Direct3D]\r\n\
                        \"UseGLSL\"=\"disabled\"\r\n";
    let patch_reg = "Windows Registry Editor Version 5.00\r\n\r\n\
                     [HKEY_CURRENT_USER\\Software\\Wine\\Direct3D]\r\n\
                     \"UseGLSL\"=\"enabled\"\r\n\
                     \"NewSetting\"=\"value\"\r\n";
    let existing_val = parse(existing_reg).unwrap();
    let patch_val = parse(patch_reg).unwrap();
    let config = MergeConfig { default_array: ArrayStrategy::Replace, path_strategies: Vec::new(), clobber: false };
    let merged = merge(existing_val, patch_val, &config, "");
    let output = serialize(&merged).unwrap();
    let reparsed = parse(&output).unwrap();
    assert_eq!(at(at(&reparsed, "HKEY_CURRENT_USER\\Software\\Wine\\Direct3D"), "UseGLSL"), &make_sz("disabled"));
    assert_eq!(at(at(&reparsed, "HKEY_CURRENT_USER\\Software\\Wine\\Direct3D"), "NewSetting"), &make_sz("value"));
}

#[test]
fn rejects_malformed_dword() {
    let reg = "Windows Registry Editor Version 5.00\r\n\r\n\
               [HKCU\\Test]\r\n\
               \"Bad\"=dword:ZZZZZZZZ\r\n";
    assert!(parse(reg).is_err());
}

#[test]
fn hex_stored_as_raw_passthrough() {
    let reg = "Windows Registry Editor Version 5.00\r\n\r\n\
               [HKCU\\Test]\r\n\
               \"Good\"=hex:01,ab,ff\r\n";
    let v = parse(reg).unwrap();
    assert_eq!(at(at(&v, "HKCU\\Test"), "Good"), &make_hex("01,ab,ff"));
}

#[test]
fn rejects_dword_out_of_range_on_serialize() {
    let v = obj(vec![("HKCU\\Test", obj(vec![("Bad", typed("dword", uint(0x1_0000_0000u64)))]))]);
    assert!(serialize(&v).is_err());
}

#[test]
fn rejects_non_object_root_on_serialize() {
    assert!(serialize(&Value::String("nope".into())).is_err());
}

#[test]
fn rejects_non_object_section_on_serialize() {
    let v = obj(vec![("HKCU\\Test", s("not an object"))]);
    assert!(serialize(&v).is_err());
}

#[test]
fn rejects_missing_type_field() {
    let v = obj(vec![("HKCU\\Test", obj(vec![("val", obj(vec![("value", s("x"))]))]))]);
    assert!(serialize(&v).is_err());
}

#[test]
fn rejects_missing_value_field() {
    let v = obj(vec![("HKCU\\Test", obj(vec![("val", obj(vec![("type", s("sz"))]))]))]);
    assert!(serialize(&v).is_err());
}

#[test]
fn rejects_unknown_value_type() {
    let v = obj(vec![("HKCU\\Test", obj(vec![("val", obj(vec![("type", s("bogus")), ("value", s("x"))]))]))]);
    assert!(serialize(&v).is_err());
}

#[test]
fn empty_section_serializes_and_reparses() {
    let v = obj(vec![("HKCU\\Empty", obj(vec![]))]);
    let out = serialize(&v).unwrap();
    assert!(out.contains("[HKCU\\Empty]"), "got: {out}");
    let reparsed = parse(&out).unwrap();
    assert_eq!(at(&reparsed, "HKCU\\Empty"), &obj(vec![]));
}

#[test]
fn value_name_with_spaces_and_backslash() {
    let v = obj(vec![("HKCU\\Test", obj(vec![("My Value\\Path", make_sz("test"))]))]);
    let out = serialize(&v).unwrap();
    let reparsed = parse(&out).unwrap();
    assert_eq!(at(at(&reparsed, "HKCU\\Test"), "My Value\\Path"), &make_sz("test"));
}

#[test]
fn value_with_unicode_string() {
    let v = obj(vec![("HKCU\\Test", obj(vec![("Unicode", make_sz("日本語テスト"))]))]);
    let out = serialize(&v).unwrap();
    let reparsed = parse(&out).unwrap();
    assert_eq!(at(at(&reparsed, "HKCU\\Test"), "Unicode"), &make_sz("日本語テスト"));
}

#[test]
fn lf_only_line_endings_accepted() {
    let reg = "Windows Registry Editor Version 5.00\n\n[HKCU\\Test]\n\"x\"=\"ok\"\n";
    let v = parse(reg).unwrap();
    assert_eq!(at(at(&v, "HKCU\\Test"), "x"), &make_sz("ok"));
}

#[test]
fn hex_passthrough_type() {
    let reg = "Windows Registry Editor Version 5.00\r\n\r\n\
               [HKCU\\Test]\r\n\
               \"Custom\"=hex(3):01,02\r\n";
    let v = parse(reg).unwrap();
    assert_eq!(at(at(at(&v, "HKCU\\Test"), "Custom"), "type"), &s("hex(3)"));
    assert_eq!(at(at(at(&v, "HKCU\\Test"), "Custom"), "value"), &s("01,02"));
    let out = serialize(&v).unwrap();
    let reparsed = parse(&out).unwrap();
    assert_eq!(at(at(at(&reparsed, "HKCU\\Test"), "Custom"), "type"), &s("hex(3)"));
}

#[test]
fn reread_gives_the_first_reading() {
    let reg = "\u{FEFF}REGEDIT4\r\n; note\r\n[HKCU\\B]\r\n\"n\"=dword:0000ffff\r\n\"m\"=hex(7):41,00,00,00,42,00,00,00,00,00\r\n\
               [-HKCU\\Gone]\r\n[HKCU\\A]\r\n@=\"d\\\\e\"\r\n\"q\"=qword:01,02\r\n\"x\"=hex(4):0a,0b\r\n-\"old\"\r\n";
    let first = parse(reg).unwrap();
    let written = serialize(&first).unwrap();
    assert_eq!(parse(&written).unwrap(), first);
    assert_eq!(at(at(&first, "HKCU\\B"), "m"), &make_multi(vec!["A", "B"]));
    assert_eq!(at(at(&first, "HKCU\\A"), "(default)"), &make_sz("d\\e"));
}

#[test]
fn long_byte_lists_fold_and_read_back() {
    let parts: Vec<String> = (0..60).map(|i| format!("{:02x}", i)).collect();
    let v = obj(vec![("HKCU\\T", obj(vec![("b", make_hex(&parts.join(",")))]))]);
    let out = serialize(&v).unwrap();
    assert!(out.contains(",\\\r\n  "), "got: {out}");
    let with_header = obj(vec![
        ("HKCU\\T", obj(vec![("b", make_hex(&parts.join(",")))])),
        ("__header__", s("Windows Registry Editor Version 5.00")),
    ]);
    assert_eq!(parse(&out).unwrap(), with_header);
}

#[test]
fn raw_value_ending_in_backslash_is_joined_on_rereading() {
    let reg = "REGEDIT4\r\n[k]\r\n\"a\"=hex:01\\\r\n; c\r\n\"b\"=\"x\"\r\n";
    let first = parse(reg).unwrap();
    assert_eq!(at(at(&first, "k"), "a"), &make_hex("01\\"));
    let again = parse(&serialize(&first).unwrap()).unwrap();
    assert_eq!(
        again,
        obj(vec![("__header__", s("REGEDIT4")), ("k", obj(vec![("a", make_hex("01\"b\"=\"x\""))]))])
    );
}

#[test]
fn raw_value_ending_in_backslash_last_in_key_reads_back() {
    let v = obj(vec![
        ("k", obj(vec![("a", make_sz("x")), ("b", make_hex("01\\"))])),
        ("l", obj(vec![("c", make_sz("y"))])),
        ("__header__", s("Windows Registry Editor Version 5.00")),
    ]);
    let out = serialize(&v).unwrap();
    assert_eq!(parse(&out).unwrap(), v);
}

#[test]
fn expand_sz_drops_one_trailing_nul() {
    let reg = "Windows Registry Editor Version 5.00\r\n\r\n\
               [HKEY_CURRENT_USER\\Test]\r\n\
               \"E\"=hex(2):61,00,62,00,00,00\r\n\
               \"F\"=hex(2):61,00,00,00,00,00\r\n\
               \"G\"=hex(2):61,00\r\n";
    let v = parse(reg).unwrap();
    let sec = at(&v, "HKEY_CURRENT_USER\\Test");
    assert_eq!(at(sec, "E"), &typed("expand_sz", s("ab")));
    assert_eq!(at(sec, "F"), &typed("expand_sz", s("a\0")));
    assert_eq!(at(sec, "G"), &typed("expand_sz", s("a")));
}

#[test]
fn wine_str7_splits_at_escaped_nuls() {
    let reg = "WINE REGISTRY Version 2\n\n\
               [Software]\n\
               \"M\"=str(7):\"a\\0b\\0\"\n\
               \"N\"=str(7):\"one\"\n";
    let v = parse(reg).unwrap();
    let sec = at(&v, "Software");
    assert_eq!(at(sec, "M"), &make_multi(vec!["a", "b"]));
    assert_eq!(at(sec, "N"), &make_multi(vec!["one"]));
}

#[test]
fn reg_error_texts_name_the_fault() {
    let bad_default = "Windows Registry Editor Version 5.00\r\n\r\n[K]\r\n@\"x\"\r\n";
    let e = parse(bad_default).unwrap_err();
    assert!(e.contains("expected '=' after '@'"), "got: {e}");
    match parse_data("hex(2):61,00,zz") {
        Step::Failed(e) => assert!(e.contains("invalid hex byte #2: 'zz'"), "got: {e}"),
        _ => panic!("expected a failure"),
    }
    match parse_data("hex(2):61,00,62") {
        Step::Failed(e) => assert!(e.contains("UTF-16LE hex byte count must be even, got 3"), "got: {e}"),
        _ => panic!("expected a failure"),
    }
}

#[test]
fn value_names_round_trip_through_quoting() {
    use_names(&["plain", "(default)", "with \"quotes\"", "back\\slash", "line\nbreak", " padded ", "", "@"]);
}

fn use_names(names: &[&str]) {
    for n in names {
        let q = quote_value_name(n);
        assert_eq!(parse_value_name(&q), Ok(n.to_string()), "name {n:?} quoted as {q:?}");
    }
    assert_eq!(quote_value_name("(default)"), "@");
}
