//! INI format: sections map to top-level keys; keys before any `[section]`
//! are grouped under `__global__`. Values are strings.
use vstd::prelude::*;
use crate::value::{
    JValue, JNumber, Value, Number, Object, obj_get, obj_insert, obj_entry_or_insert, lemma_obj_index,
    keys_sorted, obj_map, lemma_insert_sorted,
};
use crate::text::{string_of, concat2, concat3, text_eq};
use crate::num::{decimal, decimal_digits, hex_fixed};

verus! {

/// The reserved key under which sectionless keys are kept.
pub open spec fn global_section() -> Seq<char> {
    "__global__"@
}

/// The sections of an INI document as `rust-ini` reads them: each with its
/// name (`None` for the sectionless part) and its key/value pairs in order.
pub type Sections = Vec<(Option<String>, Vec<(String, String)>)>;

/// The view of [`Sections`].
pub open spec fn sections_view(
    s: Seq<(Option<String>, Vec<(String, String)>)>,
) -> Seq<(Option<Seq<char>>, Seq<(Seq<char>, Seq<char>)>)> {
    Seq::new(
        s.len(),
        |i: int|
            (
                match s[i].0 {
                    Some(n) => Some(n@),
                    None => None,
                },
                props_view(s[i].1@),
            ),
    )
}

/// The view of a list of properties.
pub open spec fn props_view(p: Seq<(String, String)>) -> Seq<(Seq<char>, Seq<char>)> {
    Seq::new(p.len(), |j: int| (p[j].0@, p[j].1@))
}

/// The sections that `rust-ini` reads from `input`, or `None` where it
/// reports a parse error.
pub uninterp spec fn ini_document(input: Seq<char>) -> Option<
    Seq<(Option<Seq<char>>, Seq<(Seq<char>, Seq<char>)>)>,
>;

/// Reads `input` with `rust-ini`.
///
/// Calls `ini::Ini::load_from_str`. The contract names what it reads
/// (`ini_document`) and claims no more of it.
#[verifier::external_body]
fn ini_load(input: &str) -> (r: Result<ini::Ini, String>)
    ensures
        match r {
            Ok(doc) => ini_document(input@) == Some(ini_sections(doc)),
            Err(_) => ini_document(input@) is None,
        },
{
    ini::Ini::load_from_str(input).map_err(|e| e.to_string())
}

/// The sections of `doc`, each with its properties, in order.
///
/// Walks `Ini::iter` and, for each section, `Properties::iter`, copying
/// names, keys and values into strings.
#[verifier::external_body]
fn ini_section_list(doc: &ini::Ini) -> (r: Sections)
    ensures
        sections_view(r@) == ini_sections(*doc),
{
    doc.iter()
        .map(|(name, props)| (name.map(|n| n.to_string()), props.iter().map(|(k, v)| (k.to_string(), v.to_string())).collect()))
        .collect()
}

/// The properties `props` added, as strings, to the entries `es`.
pub open spec fn add_props(es: Seq<(Seq<char>, JValue)>, props: Seq<(Seq<char>, Seq<char>)>) -> Seq<
    (Seq<char>, JValue),
>
    decreases props.len(),
{
    if props.len() == 0 {
        es
    } else {
        obj_insert(add_props(es, props.drop_last()), props.last().0, JValue::Str(props.last().1))
    }
}

/// The object entries after adding one section: sections of the same name
/// are merged; the sectionless part goes under `__global__`.
pub open spec fn add_section(
    root: Seq<(Seq<char>, JValue)>,
    name: Option<Seq<char>>,
    props: Seq<(Seq<char>, Seq<char>)>,
) -> Seq<(Seq<char>, JValue)> {
    add_section_at(
        root,
        match name {
            Some(n) => n,
            None => global_section(),
        },
        props,
    )
}

/// The object entries after adding the properties `props` under `key`.
pub open spec fn add_section_at(
    root: Seq<(Seq<char>, JValue)>,
    key: Seq<char>,
    props: Seq<(Seq<char>, Seq<char>)>,
) -> Seq<(Seq<char>, JValue)> {
    let root1 = obj_entry_or_insert(root, key, JValue::Object(Seq::empty()));
    match obj_get(root1, key) {
        Some(JValue::Object(es)) => obj_insert(root1, key, JValue::Object(add_props(es, props))),
        _ => root1,
    }
}

/// The object entries that the sections of a document give.
pub open spec fn ini_root(doc: Seq<(Option<Seq<char>>, Seq<(Seq<char>, Seq<char>)>)>) -> Seq<
    (Seq<char>, JValue),
>
    decreases doc.len(),
{
    if doc.len() == 0 {
        Seq::empty()
    } else {
        add_section(ini_root(doc.drop_last()), doc.last().0, doc.last().1)
    }
}

fn global_name() -> (r: String)
    ensures
        r@ == global_section(),
{
    String::from_str("__global__")
}

/// The object that the sections of an INI document give:
/// `{ "section": { "key": "value" }, "__global__": { "key": "value" } }`.
pub fn sections_to_value(doc: &Sections) -> (r: Value)
    ensures
        r.view() == JValue::Object(ini_root(sections_view(doc@))),
{
    let mut root = Object::new();
    let ghost dv = sections_view(doc@);
    let n = doc.len();
    assert(dv.take(0) =~= Seq::<(Option<Seq<char>>, Seq<(Seq<char>, Seq<char>)>)>::empty());
    for i in 0..n
        invariant
            n == doc@.len(),
            dv == sections_view(doc@),
            root.view() == ini_root(dv.take(i as int)),
    {
        assert(dv.take(i + 1).drop_last() =~= dv.take(i as int));
        let ghost sec = dv[i as int];
        assert(dv.take(i + 1).last() == sec);
        let key = match &doc[i].0 {
            Some(n) => n.clone(),
            None => global_name(),
        };
        assert(key@ == match sec.0 {
            Some(n) => n,
            None => global_section(),
        });
        add_section_exec(&mut root, key, &doc[i].1);
    }
    assert(dv.take(n as int) =~= dv);
    Value::Object(root)
}


fn add_section_exec(root: &mut Object, key: String, props: &Vec<(String, String)>)
    ensures
        final(root).view() == add_section_at(old(root).view(), key@, props_view(props@)),
{
    let ghost root0 = root.view();
    if root.find(key.as_str()).is_none() {
        root.insert(key.clone(), Value::Object(Object::new()));
    }
    proof {
        lemma_obj_index(root0, key@);
    }
    let ghost root1 = root.view();
    assert(root1 == obj_entry_or_insert(root0, key@, JValue::Object(Seq::empty())));
    let idx = match root.find(key.as_str()) {
        Some(i) => i,
        None => {
            proof {
                lemma_obj_index(root1, key@);
                crate::value::lemma_obj_lower(root0, key@);
                let p = crate::value::obj_lower(root0, key@);
                assert(root1[p].0 == key@);
            }
            return;
        },
    };
    proof {
        root.lemma_view();
        lemma_obj_index(root1, key@);
    }
    let (k, section) = root.entries.remove(idx);
    match section {
        Value::Object(mut es) => {
            let m = props.len();
            let ghost pv = props_view(props@);
            let ghost es0 = es.view();
            assert(pv.take(0) =~= Seq::<(Seq<char>, Seq<char>)>::empty());
            for j in 0..m
                invariant
                    m == props@.len(),
                    pv.len() == m,
                    forall|t: int| 0 <= t < m ==> #[trigger] pv[t] == (props@[t].0@, props@[t].1@),
                    es.view() == add_props(es0, pv.take(j as int)),
            {
                assert(pv.take(j + 1).drop_last() =~= pv.take(j as int));
                assert(pv.take(j + 1).last() == pv[j as int]);
                assert(pv[j as int] == (props@[j as int].0@, props@[j as int].1@));
                es.insert(props[j].0.clone(), Value::String(props[j].1.clone()));
            }
            assert(pv.take(m as int) =~= pv);
            let ghost esv = es.view();
            root.entries.insert(idx, (k, Value::Object(es)));
            proof {
                root.lemma_view();
            }
            assert(root.view() =~= root1.update(idx as int, (key@, JValue::Object(esv))));
        },
        other => {
            root.entries.insert(idx, (k, other));
            proof {
                root.lemma_view();
            }
            assert(root.view() =~= root1);
        },
    }
}


/// Reads `input` as an INI document.
pub fn parse(input: &str) -> (r: Result<Value, String>)
    ensures
        match ini_document(input@) {
            Some(doc) => r matches Ok(v) && v.view() == JValue::Object(ini_root(doc)),
            None => r is Err,
        },
{
    match ini_load(input) {
        Ok(doc) => {
            let sections = ini_section_list(&doc);
            Ok(sections_to_value(&sections))
        },
        Err(e) => Err(concat2("invalid INI: ", e.as_str())),
    }
}

// ───────────────────────────── writing ─────────────────────────────

/// The decimal text of a number (a float keeps its own text).
pub open spec fn number_text(n: JNumber) -> Seq<char> {
    match n {
        JNumber::PosInt(v) => decimal(v as nat),
        JNumber::NegInt(v) => if v < 0 {
            seq!['-'] + decimal((-v) as nat)
        } else {
            decimal(v as nat)
        },
        JNumber::Float(t) => t,
    }
}

/// How an INI value is written: `Some(Some(text))` for a scalar,
/// `Some(None)` for `null` (left out), `None` for an array or object.
pub open spec fn ini_scalar(v: JValue) -> Option<Option<Seq<char>>> {
    match v {
        JValue::Str(s) => Some(Some(s)),
        JValue::Number(n) => Some(Some(number_text(n))),
        JValue::Bool(b) => Some(Some(if b { "true"@ } else { "false"@ })),
        JValue::Null => Some(None),
        _ => None,
    }
}

/// An INI line to write: its section (`None` for sectionless), key, value.
pub type IniEntries = Vec<(Option<String>, String, String)>;

/// The view of [`IniEntries`].
pub open spec fn ini_entries_view(e: Seq<(Option<String>, String, String)>) -> Seq<
    (Option<Seq<char>>, Seq<char>, Seq<char>),
> {
    Seq::new(
        e.len(),
        |i: int|
            (
                match e[i].0 {
                    Some(n) => Some(n@),
                    None => None,
                },
                e[i].1@,
                e[i].2@,
            ),
    )
}

/// The lines for the properties of one section; `None` if one is not a scalar.
pub open spec fn props_lines(section: Option<Seq<char>>, props: Seq<(Seq<char>, JValue)>) -> Option<
    Seq<(Option<Seq<char>>, Seq<char>, Seq<char>)>,
>
    decreases props.len(),
{
    if props.len() == 0 {
        Some(Seq::empty())
    } else {
        match (props_lines(section, props.drop_last()), ini_scalar(props.last().1)) {
            (Some(ls), Some(Some(t))) => Some(ls.push((section, props.last().0, t))),
            (Some(ls), Some(None)) => Some(ls),
            _ => None,
        }
    }
}

/// The lines for the named sections (all keys but `__global__`), in order.
pub open spec fn sections_lines(root: Seq<(Seq<char>, JValue)>) -> Option<
    Seq<(Option<Seq<char>>, Seq<char>, Seq<char>)>,
>
    decreases root.len(),
{
    if root.len() == 0 {
        Some(Seq::empty())
    } else {
        let (k, v) = root.last();
        match sections_lines(root.drop_last()) {
            Some(ls) => if k == global_section() {
                Some(ls)
            } else {
                match v {
                    JValue::Object(props) => match props_lines(Some(k), props) {
                        Some(more) => Some(ls + more),
                        None => None,
                    },
                    _ => None,
                }
            },
            None => None,
        }
    }
}

/// The lines to write for `v`: the sectionless keys first, then each
/// section; `None` unless `v` is an object of objects of scalars.
pub open spec fn ini_lines(v: JValue) -> Option<Seq<(Option<Seq<char>>, Seq<char>, Seq<char>)>> {
    match v {
        JValue::Object(root) => match (global_lines(root), sections_lines(root)) {
            (Some(gl), Some(sl)) => Some(gl + sl),
            _ => None,
        },
        _ => None,
    }
}

/// The lines for the sectionless keys kept under `__global__`; `None` if
/// that entry is not an object of scalars.
pub open spec fn global_lines(root: Seq<(Seq<char>, JValue)>) -> Option<
    Seq<(Option<Seq<char>>, Seq<char>, Seq<char>)>,
> {
    match obj_get(root, global_section()) {
        Some(JValue::Object(p)) => props_lines(None, p),
        Some(_) => None,
        None => Some(Seq::empty()),
    }
}

#[verifier::external_type_specification]
#[verifier::external_body]
pub struct ExIni(ini::Ini);

/// What an `ini::Ini` holds: its sections in order, each with its name
/// (`None` for the general section) and its properties in order.
pub uninterp spec fn ini_sections(doc: ini::Ini) -> Seq<(Option<Seq<char>>, Seq<(Seq<char>, Seq<char>)>)>;

/// The first section named `name`.
pub open spec fn section_index(secs: Seq<(Option<Seq<char>>, Seq<(Seq<char>, Seq<char>)>)>, name: Option<Seq<char>>) -> Option<int>
    decreases secs.len(),
{
    if secs.len() == 0 {
        None
    } else if secs[0].0 == name {
        Some(0)
    } else {
        match section_index(secs.drop_first(), name) {
            Some(i) => Some(i + 1),
            None => None,
        }
    }
}

/// The properties with `key` set to `value`: earlier values of `key` are
/// dropped and the pair goes last.
pub open spec fn props_set(props: Seq<(Seq<char>, Seq<char>)>, key: Seq<char>, value: Seq<char>) -> Seq<(Seq<char>, Seq<char>)> {
    props.filter(|p: (Seq<char>, Seq<char>)| p.0 != key).push((key, value))
}

/// The sections with `key` set to `value` in the first section named
/// `name`, which is added last when there is none.
pub open spec fn sections_set(
    secs: Seq<(Option<Seq<char>>, Seq<(Seq<char>, Seq<char>)>)>,
    name: Option<Seq<char>>,
    key: Seq<char>,
    value: Seq<char>,
) -> Seq<(Option<Seq<char>>, Seq<(Seq<char>, Seq<char>)>)> {
    match section_index(secs, name) {
        Some(i) => secs.update(i, (name, props_set(secs[i].1, key, value))),
        None => secs.push((name, seq![(key, value)])),
    }
}

/// A new `ini::Ini`.
///
/// Calls `ini::Ini::new`, whose default value holds one general section
/// with no properties.
#[verifier::external_body]
fn ini_new() -> (r: ini::Ini)
    ensures
        ini_sections(r) == seq![(None::<Seq<char>>, Seq::<(Seq<char>, Seq<char>)>::empty())],
{
    ini::Ini::new()
}

/// Sets `key` to `value` in `section`.
///
/// Calls `Ini::with_section(section).set(key, value)`, which finds the
/// section (adding it last when absent) and inserts the pair into its
/// property list: the list drops the key's earlier values and yields the
/// new pair last.
#[verifier::external_body]
fn ini_set(doc: &mut ini::Ini, section: &Option<String>, key: &str, value: &str)
    ensures
        ini_sections(*final(doc)) == sections_set(
            ini_sections(*old(doc)),
            match section {
                Some(n) => Some(n@),
                None => None,
            },
            key@,
            value@,
        ),
{
    doc.with_section(section.as_deref()).set(key, value);
}

/// How `rust-ini` escapes one character when writing (its default policy
/// escapes the backslash and the ASCII control characters).
pub open spec fn ini_escape_char(c: char) -> Seq<char> {
    if c == '\\' {
        seq!['\\', '\\']
    } else if c == '\0' {
        seq!['\\', '0']
    } else if c == '\x07' {
        seq!['\\', 'a']
    } else if c == '\x08' {
        seq!['\\', 'b']
    } else if c == '\x0c' {
        seq!['\\', 'f']
    } else if c == '\x0b' {
        seq!['\\', 'v']
    } else if c == '\n' {
        seq!['\\', 'n']
    } else if c == '\t' {
        seq!['\\', 't']
    } else if c == '\r' {
        seq!['\\', 'r']
    } else if ('\x01' <= c <= '\x1f') || c == '\x7f' {
        seq!['\\', 'x'] + hex_fixed(c as nat, 4)
    } else {
        seq![c]
    }
}

/// `s` escaped as `rust-ini` writes it.
pub open spec fn ini_escape(s: Seq<char>) -> Seq<char>
    decreases s.len(),
{
    if s.len() == 0 {
        Seq::empty()
    } else {
        ini_escape(s.drop_last()) + ini_escape_char(s.last())
    }
}

/// The lines written for the properties `props`, each ended by `sep`.
pub open spec fn ini_props_text(props: Seq<(Seq<char>, Seq<char>)>, sep: Seq<char>) -> Seq<char>
    decreases props.len(),
{
    if props.len() == 0 {
        Seq::empty()
    } else {
        ini_props_text(props.drop_last(), sep) + ini_escape(props.last().0) + seq!['='] + ini_escape(
            props.last().1,
        ) + sep
    }
}

/// Whether a section of `secs` has properties.
pub open spec fn any_props(secs: Seq<(Option<Seq<char>>, Seq<(Seq<char>, Seq<char>)>)>) -> bool {
    exists|i: int| 0 <= i < secs.len() && #[trigger] secs[i].1.len() > 0
}

/// The text `rust-ini` writes for `secs` with line separator `sep`: each
/// section with properties but the first is preceded by an empty line, a
/// named section starts with its `[name]` line, and each property is a
/// `key=value` line.
pub open spec fn ini_text(secs: Seq<(Option<Seq<char>>, Seq<(Seq<char>, Seq<char>)>)>, sep: Seq<char>) -> Seq<char>
    decreases secs.len(),
{
    if secs.len() == 0 {
        Seq::empty()
    } else {
        let (name, props) = secs.last();
        let gap = if props.len() > 0 && any_props(secs.drop_last()) {
            sep
        } else {
            Seq::empty()
        };
        let header = match name {
            Some(n) => seq!['['] + ini_escape(n) + seq![']'] + sep,
            None => Seq::empty(),
        };
        ini_text(secs.drop_last(), sep) + gap + header + ini_props_text(props, sep)
    }
}

/// Whether `sep` is a line separator that `rust-ini` may use by default
/// (`"\n"`, or `"\r\n"` on Windows).
pub open spec fn line_separator(sep: Seq<char>) -> bool {
    sep == seq!['\n'] || sep == seq!['\r', '\n']
}

/// The text of `doc`.
///
/// Calls `Ini::write_to` with a byte buffer and reads the buffer back as
/// UTF-8 text. `write_to` writes each section as [`ini_text`] states, with
/// the platform's line separator; it writes only `&str` text, through
/// `write!` and `write_all`, into a `Vec<u8>`, whose `Write` impl appends and
/// does not fail, so the buffer always holds UTF-8 and the result is `Ok`.
#[verifier::external_body]
fn ini_write(doc: &ini::Ini) -> (r: Result<String, String>)
    ensures
        r is Ok,
        r matches Ok(s) ==> exists|sep: Seq<char>| line_separator(sep) && s@ == ini_text(ini_sections(*doc), sep),
{
    let mut buf = Vec::new();
    doc.write_to(&mut buf).map_err(|e| e.to_string())?;
    String::from_utf8(buf).map_err(|e| e.to_string())
}

/// The sections that setting `entries` in turn gives, from those of a new
/// document.
pub open spec fn ini_built(entries: Seq<(Option<Seq<char>>, Seq<char>, Seq<char>)>) -> Seq<
    (Option<Seq<char>>, Seq<(Seq<char>, Seq<char>)>),
>
    decreases entries.len(),
{
    if entries.len() == 0 {
        seq![(None::<Seq<char>>, Seq::<(Seq<char>, Seq<char>)>::empty())]
    } else {
        let (section, key, value) = entries.last();
        sections_set(ini_built(entries.drop_last()), section, key, value)
    }
}

/// Builds a document by setting `entries` in turn and writes it.
fn ini_render(entries: &IniEntries) -> (r: Result<String, String>)
    ensures
        r is Ok,
        r matches Ok(s) ==> exists|sep: Seq<char>| line_separator(sep) && s@ == ini_text(
            ini_built(ini_entries_view(entries@)),
            sep,
        ),
{
    let mut doc = ini_new();
    let ghost ev = ini_entries_view(entries@);
    let n = entries.len();
    assert(ev.take(0) =~= Seq::<(Option<Seq<char>>, Seq<char>, Seq<char>)>::empty());
    for i in 0..n
        invariant
            n == entries@.len(),
            ev == ini_entries_view(entries@),
            ini_sections(doc) == ini_built(ev.take(i as int)),
    {
        assert(ev.take(i + 1).drop_last() =~= ev.take(i as int));
        assert(ev.take(i + 1).last() == ev[i as int]);
        let (section, key, value) = &entries[i];
        ini_set(&mut doc, section, key.as_str(), value.as_str());
    }
    assert(ev.take(n as int) =~= ev);
    ini_write(&doc)
}

/// The decimal text of a number.
pub fn number_to_string(n: &Number) -> (r: String)
    ensures
        r@ == number_text(n.view()),
{
    match n {
        Number::PosInt(v) => string_of(&decimal_digits(*v)),
        Number::NegInt(v) => {
            if *v < 0 {
                let m: u64 = ((-(*v + 1)) as u64) + 1;
                let mut out: Vec<char> = Vec::new();
                out.push('-');
                crate::text::extend_chars(&mut out, &decimal_digits(m));
                assert(out@ =~= seq!['-'] + decimal((-*v) as nat));
                string_of(&out)
            } else {
                string_of(&decimal_digits(*v as u64))
            }
        },
        Number::Float(t) => t.clone(),
    }
}

fn scalar_string(v: &Value) -> (r: Result<Option<String>, ()>)
    ensures
        match ini_scalar(v.view()) {
            Some(Some(t)) => r matches Ok(Some(s)) && s@ == t,
            Some(None) => r matches Ok(None),
            None => r is Err,
        },
{
    match v {
        Value::String(s) => Ok(Some(s.clone())),
        Value::Number(n) => Ok(Some(number_to_string(n))),
        Value::Bool(b) => Ok(Some(if *b { String::from_str("true") } else { String::from_str("false") })),
        Value::Null => Ok(None),
        _ => Err(()),
    }
}

fn push_props(out: &mut IniEntries, section: &Option<String>, props: &Object) -> (r: Result<(), String>)
    ensures
        match props_lines(
            match section {
                Some(n) => Some(n@),
                None => None,
            },
            props.view(),
        ) {
            Some(ls) => r is Ok && ini_entries_view(final(out)@) == ini_entries_view(old(out)@) + ls,
            None => r is Err,
        },
{
    let ghost sv = match section {
        Some(n) => Some(n@),
        None => None,
    };
    let ghost pv = props.view();
    let ghost out0 = ini_entries_view(out@);
    proof {
        props.lemma_view();
    }
    let n = props.entries.len();
    assert(pv.take(0) =~= Seq::<(Seq<char>, JValue)>::empty());
    assert(out0 + Seq::<(Option<Seq<char>>, Seq<char>, Seq<char>)>::empty() =~= out0);
    for i in 0..n
        invariant
            n == props.entries@.len(),
            pv == props.view(),
            pv.len() == n,
            forall|j: int|
                0 <= j < n ==> #[trigger] pv[j] == (props.entries@[j].0@, props.entries@[j].1.view()),
            sv == match section {
                Some(n) => Some(n@),
                None => None,
            },
            props_lines(sv, pv.take(i as int)) matches Some(ls) && ini_entries_view(out@) == out0 + ls,
    {
        assert(pv.take(i + 1).drop_last() =~= pv.take(i as int));
        assert(pv.take(i + 1).last() == pv[i as int]);
        assert(pv[i as int] == (props.entries@[i as int].0@, props.entries@[i as int].1.view()));
        match scalar_string(&props.entries[i].1) {
            Ok(Some(t)) => {
                let ghost before = out@;
                let ghost tv = t@;
                out.push((section.clone(), props.entries[i].0.clone(), t));
                assert(ini_entries_view(out@) =~= ini_entries_view(before).push((sv, pv[i as int].0, tv)));
            },
            Ok(None) => {},
            Err(()) => {
                proof {
                    lemma_props_lines_none(sv, pv, i + 1);
                }
                return Err(props.entries[i].0.clone());
            },
        }
    }
    assert(pv.take(n as int) =~= pv);
    Ok(())
}

proof fn lemma_props_lines_none(sv: Option<Seq<char>>, pv: Seq<(Seq<char>, JValue)>, k: int)
    requires
        0 <= k <= pv.len(),
        props_lines(sv, pv.take(k)) is None,
    ensures
        props_lines(sv, pv) is None,
    decreases pv.len() - k,
{
    if k < pv.len() {
        assert(pv.take(k + 1).drop_last() =~= pv.take(k));
        lemma_props_lines_none(sv, pv, k + 1);
    } else {
        assert(pv.take(k) =~= pv);
    }
}

proof fn lemma_sections_lines_none(rv: Seq<(Seq<char>, JValue)>, k: int)
    requires
        0 <= k <= rv.len(),
        sections_lines(rv.take(k)) is None,
    ensures
        sections_lines(rv) is None,
    decreases rv.len() - k,
{
    if k < rv.len() {
        assert(rv.take(k + 1).drop_last() =~= rv.take(k));
        lemma_sections_lines_none(rv, k + 1);
    } else {
        assert(rv.take(k) =~= rv);
    }
}

/// The lines to write for `value`: the `__global__` keys first, then each
/// section in key order; `null` values are left out.
pub fn ini_entries(value: &Value) -> (r: Result<IniEntries, String>)
    ensures
        match ini_lines(value.view()) {
            Some(ls) => r matches Ok(e) && ini_entries_view(e@) == ls,
            None => r is Err,
        },
{
    let root = match value {
        Value::Object(m) => m,
        _ => {
            return Err(String::from_str("INI root must be an object"));
        },
    };
    let mut out: IniEntries = Vec::new();
    assert(ini_entries_view(out@) =~= Seq::<(Option<Seq<char>>, Seq<char>, Seq<char>)>::empty());
    let global = global_name();
    match root.get(global.as_str()) {
        Some(Value::Object(props)) => {
            if let Err(key) = push_props(&mut out, &None, props) {
                return Err(concat2("INI values must be scalars, got nested structure at [__global__].", key.as_str()));
            }
        },
        Some(_) => {
            return Err(String::from_str("INI section '__global__' must be an object"));
        },
        None => {},
    }
    let ghost gl = ini_entries_view(out@);
    let ghost rv = root.view();
    proof {
        root.lemma_view();
    }
    let n = root.entries.len();
    assert(rv.take(0) =~= Seq::<(Seq<char>, JValue)>::empty());
    assert(gl + Seq::<(Option<Seq<char>>, Seq<char>, Seq<char>)>::empty() =~= gl);
    for i in 0..n
        invariant
            n == root.entries@.len(),
            rv == root.view(),
            rv.len() == n,
            forall|j: int|
                0 <= j < n ==> #[trigger] rv[j] == (root.entries@[j].0@, root.entries@[j].1.view()),
            global@ == global_section(),
            value.view() == JValue::Object(rv),
            global_lines(rv) == Some(gl),
            sections_lines(rv.take(i as int)) matches Some(sl) && ini_entries_view(out@) == gl + sl,
    {
        assert(rv.take(i + 1).drop_last() =~= rv.take(i as int));
        assert(rv.take(i + 1).last() == rv[i as int]);
        assert(rv[i as int] == (root.entries@[i as int].0@, root.entries@[i as int].1.view()));
        let name = &root.entries[i].0;
        if !text_eq(name.as_str(), global.as_str()) {
            match &root.entries[i].1 {
                Value::Object(props) => {
                    let ghost before = ini_entries_view(out@);
                    let sec = Some(name.clone());
                    if let Err(key) = push_props(&mut out, &sec, props) {
                        proof {
                            assert(sections_lines(rv.take(i + 1)) is None);
                            lemma_sections_lines_none(rv, i + 1);
                        }
                        let head = concat3("INI values must be scalars, got nested structure at [", name.as_str(), "].");
                        return Err(concat2(head.as_str(), key.as_str()));
                    }
                    assert(ini_entries_view(out@) =~= gl + (sections_lines(rv.take(i as int))->0 + props_lines(Some(name@), props.view())->0));
                },
                _ => {
                    proof {
                        assert(sections_lines(rv.take(i + 1)) is None);
                        lemma_sections_lines_none(rv, i + 1);
                    }
                    return Err(concat3("INI section '", name.as_str(), "' must be an object"));
                },
            }
        }
    }
    assert(rv.take(n as int) =~= rv);
    Ok(out)
}

/// Writes `value` as an INI document: the `__global__` keys as sectionless
/// keys first, then each section in key order, `null` values left out.
pub fn serialize(value: &Value) -> (r: Result<String, String>)
    ensures
        ini_lines(value.view()) is None <==> r is Err,
        r matches Ok(s) ==> exists|sep: Seq<char>| line_separator(sep) && s@ == ini_text(
            ini_built(ini_lines(value.view())->0),
            sep,
        ),
{
    let entries = ini_entries(value)?;
    ini_render(&entries)
}

// ───────────────────────────── laws ─────────────────────────────

proof fn lemma_get_after_insert(es: Seq<(Seq<char>, JValue)>, k: Seq<char>, v: JValue, x: Seq<char>)
    requires
        keys_sorted(es),
    ensures
        keys_sorted(obj_insert(es, k, v)),
        obj_get(obj_insert(es, k, v), x) == if x == k {
            Some(v)
        } else {
            obj_get(es, x)
        },
{
    lemma_insert_sorted(es, k, v);
    let r = obj_insert(es, k, v);
    assert(obj_map(r).dom().contains(x) == (obj_get(r, x) is Some));
    assert(obj_map(es).dom().contains(x) == (obj_get(es, x) is Some));
    if obj_get(r, x) is Some {
        assert(obj_map(r)[x] == obj_get(r, x)->0);
    }
    if obj_get(es, x) is Some {
        assert(obj_map(es)[x] == obj_get(es, x)->0);
    }
}

/// Reading a section's properties into entries, a key holds the value of its
/// last occurrence (a later `key=value` overrides an earlier one), and a key
/// that does not occur keeps what it held.
pub proof fn lemma_add_props_last_wins(
    es: Seq<(Seq<char>, JValue)>,
    props: Seq<(Seq<char>, Seq<char>)>,
    k: Seq<char>,
)
    requires
        keys_sorted(es),
    ensures
        keys_sorted(add_props(es, props)),
        forall|j: int|
            0 <= j < props.len() && (#[trigger] props[j]).0 == k && (forall|t: int|
                j < t < props.len() ==> props[t].0 != k) ==> obj_get(add_props(es, props), k) == Some(
                JValue::Str(props[j].1),
            ),
        (forall|t: int| 0 <= t < props.len() ==> props[t].0 != k) ==> obj_get(add_props(es, props), k)
            == obj_get(es, k),
    decreases props.len(),
{
    if props.len() > 0 {
        let n = props.len() - 1;
        let init = props.drop_last();
        let last = props[n];
        assert(props.last() == last);
        lemma_add_props_last_wins(es, init, k);
        let r1 = add_props(es, init);
        lemma_get_after_insert(r1, last.0, JValue::Str(last.1), k);
        assert forall|j: int|
            0 <= j < props.len() && (#[trigger] props[j]).0 == k && (forall|t: int|
                j < t < props.len() ==> props[t].0 != k) implies obj_get(add_props(es, props), k) == Some(
                JValue::Str(props[j].1),
            ) by {
            if j < n {
                assert(props[n].0 != k);
                assert(init[j] == props[j]);
                assert forall|t: int| j < t < init.len() implies init[t].0 != k by {
                    assert(init[t] == props[t]);
                }
            }
        }
        if forall|t: int| 0 <= t < props.len() ==> props[t].0 != k {
            assert(props[n].0 != k);
            assert forall|t: int| 0 <= t < init.len() implies init[t].0 != k by {
                assert(init[t] == props[t]);
            }
        }
    }
}

/// A boolean is written as its own text: `enabled=false` for `false` and
/// `enabled=true` for `true`, under any section and key.
pub proof fn lemma_ini_bool_written(section: Seq<char>, key: Seq<char>, b: bool)
    requires
        section != global_section(),
    ensures
        ini_lines(
            JValue::Object(seq![(section, JValue::Object(seq![(key, JValue::Bool(b))]))]),
        ) == Some(seq![(Some(section), key, if b { "true"@ } else { "false"@ })]),
{
    let props = seq![(key, JValue::Bool(b))];
    let root = seq![(section, JValue::Object(props))];
    lemma_obj_index(root, global_section());
    assert(global_lines(root) == Some(Seq::<(Option<Seq<char>>, Seq<char>, Seq<char>)>::empty()));
    assert(props.drop_last() =~= Seq::<(Seq<char>, JValue)>::empty());
    assert(props_lines(Some(section), props.drop_last()) == Some(Seq::<(Option<Seq<char>>, Seq<char>, Seq<char>)>::empty()));
    assert(props.last() == (key, JValue::Bool(b)));
    assert(ini_scalar(JValue::Bool(b)) == Some(Some(if b { "true"@ } else { "false"@ })));
    assert(props_lines(Some(section), props) == Some(
        Seq::<(Option<Seq<char>>, Seq<char>, Seq<char>)>::empty().push(
            (Some(section), key, if b { "true"@ } else { "false"@ }),
        ),
    ));
    assert(root.drop_last() =~= Seq::<(Seq<char>, JValue)>::empty());
    assert(sections_lines(root.drop_last()) == Some(Seq::<(Option<Seq<char>>, Seq<char>, Seq<char>)>::empty()));
    assert(root.last() == (section, JValue::Object(props)));
    assert(sections_lines(root) == Some(
        Seq::<(Option<Seq<char>>, Seq<char>, Seq<char>)>::empty() + props_lines(Some(section), props)->0,
    ));
    assert(Seq::<(Option<Seq<char>>, Seq<char>, Seq<char>)>::empty() + (Seq::<(Option<Seq<char>>, Seq<char>, Seq<char>)>::empty()
        + seq![(Some(section), key, if b { "true"@ } else { "false"@ })]) =~= seq![(Some(section), key, if b { "true"@ } else { "false"@ })]);
}

/// The key under which a section is kept: its name, or `__global__` for the
/// sectionless part.
pub open spec fn section_key(name: Option<Seq<char>>) -> Seq<char> {
    match name {
        Some(n) => n,
        None => global_section(),
    }
}

/// Whether property `j` of section `i` of `doc` sets key `k` of a section
/// kept under `key`.
pub open spec fn occurs(
    doc: Seq<(Option<Seq<char>>, Seq<(Seq<char>, Seq<char>)>)>,
    key: Seq<char>,
    k: Seq<char>,
    i: int,
    j: int,
) -> bool {
    &&& 0 <= i < doc.len()
    &&& section_key(doc[i].0) == key
    &&& 0 <= j < doc[i].1.len()
    &&& doc[i].1[j].0 == k
}

/// Whether position `(i2, j2)` of a document comes after `(i, j)`.
pub open spec fn comes_after(i: int, j: int, i2: int, j2: int) -> bool {
    i < i2 || (i == i2 && j < j2)
}

/// Whether every section of `root` is an object with sorted keys.
pub open spec fn sections_ok(root: Seq<(Seq<char>, JValue)>) -> bool {
    &&& keys_sorted(root)
    &&& forall|x: Seq<char>|
        #[trigger] obj_get(root, x) matches Some(v) ==> (v matches JValue::Object(es) && keys_sorted(es))
}

proof fn lemma_add_section_at(
    root: Seq<(Seq<char>, JValue)>,
    key: Seq<char>,
    props: Seq<(Seq<char>, Seq<char>)>,
    x: Seq<char>,
    k: Seq<char>,
)
    requires
        sections_ok(root),
    ensures
        sections_ok(add_section_at(root, key, props)),
        x != key ==> obj_get(add_section_at(root, key, props), x) == obj_get(root, x),
        ({
            let base = match obj_get(root, key) {
                Some(JValue::Object(es)) => es,
                _ => Seq::<(Seq<char>, JValue)>::empty(),
            };
            &&& keys_sorted(base)
            &&& obj_get(add_section_at(root, key, props), key) == Some(JValue::Object(add_props(base, props)))
        }),
{
    let e = JValue::Object(Seq::<(Seq<char>, JValue)>::empty());
    let root1 = obj_entry_or_insert(root, key, e);
    let base = match obj_get(root, key) {
        Some(JValue::Object(es)) => es,
        _ => Seq::<(Seq<char>, JValue)>::empty(),
    };
    lemma_obj_index(root, key);
    if obj_get(root, key) is None {
        assert(root1 == obj_insert(root, key, e));
        assert forall|y: Seq<char>| #[trigger] obj_get(root1, y) == if y == key { Some(e) } else { obj_get(root, y) } by {
            lemma_get_after_insert(root, key, e, y);
        }
        lemma_get_after_insert(root, key, e, key);
    } else {
        assert(root1 == root);
        assert(obj_get(root, key) matches Some(v) && v matches JValue::Object(es) && keys_sorted(es));
    }
    assert(keys_sorted(root1));
    assert(obj_get(root1, key) == Some(JValue::Object(base)));
    assert(keys_sorted(base));
    lemma_add_props_last_wins(base, props, k);
    let sec = JValue::Object(add_props(base, props));
    let r = obj_insert(root1, key, sec);
    assert(add_section_at(root, key, props) == r);
    assert forall|y: Seq<char>| #[trigger] obj_get(r, y) == if y == key { Some(sec) } else { obj_get(root1, y) } by {
        lemma_get_after_insert(root1, key, sec, y);
    }
    lemma_get_after_insert(root1, key, sec, x);
    assert forall|y: Seq<char>| (#[trigger] obj_get(r, y) matches Some(v) ==> (v matches JValue::Object(es) && keys_sorted(es))) by {
        if y == key {
            lemma_add_props_last_wins(base, props, y);
        } else {
            assert(obj_get(r, y) == obj_get(root1, y));
            if obj_get(root, key) is None {
                assert(obj_get(root1, y) == obj_get(root, y));
            }
        }
    }
}

/// In the document read from an INI file, a key of a section holds the value
/// of its last occurrence: later properties override earlier ones, also
/// across sections of the same name, which are merged; a key that occurs in
/// no section of that name is absent.
pub proof fn lemma_ini_root_last_wins(
    doc: Seq<(Option<Seq<char>>, Seq<(Seq<char>, Seq<char>)>)>,
    key: Seq<char>,
    k: Seq<char>,
)
    ensures
        sections_ok(ini_root(doc)),
        forall|i: int, j: int|
            #[trigger] occurs(doc, key, k, i, j) && (forall|i2: int, j2: int|
                #[trigger] occurs(doc, key, k, i2, j2) ==> !comes_after(i, j, i2, j2)) ==> (obj_get(
                ini_root(doc),
                key,
            ) matches Some(JValue::Object(es)) && obj_get(es, k) == Some(JValue::Str(doc[i].1[j].1))),
        (forall|i: int, j: int| !#[trigger] occurs(doc, key, k, i, j)) ==> (obj_get(ini_root(doc), key) matches Some(
            JValue::Object(es),
        ) ==> obj_get(es, k) is None),
    decreases doc.len(),
{
    if doc.len() == 0 {
        lemma_obj_index(Seq::<(Seq<char>, JValue)>::empty(), key);
        assert forall|x: Seq<char>| #[trigger] obj_get(Seq::<(Seq<char>, JValue)>::empty(), x) is None by {
            lemma_obj_index(Seq::<(Seq<char>, JValue)>::empty(), x);
        }
    } else {
        let n = doc.len() - 1;
        let init = doc.drop_last();
        let (name, props) = doc[n];
        assert(doc.last() == doc[n]);
        let key0 = section_key(name);
        let rt = ini_root(init);
        lemma_ini_root_last_wins(init, key, k);
        assert(ini_root(doc) == add_section_at(rt, key0, props));
        lemma_add_section_at(rt, key0, props, key, k);
        lemma_add_props_last_wins(
            match obj_get(rt, key0) {
                Some(JValue::Object(es)) => es,
                _ => Seq::<(Seq<char>, JValue)>::empty(),
            },
            props,
            k,
        );
        assert forall|i: int, j: int| occurs(init, key, k, i, j) <==> (i < n && #[trigger] occurs(doc, key, k, i, j)) by {
            if 0 <= i < n {
                assert(init[i] == doc[i]);
            }
        }
        assert forall|i: int, j: int|
            #[trigger] occurs(doc, key, k, i, j) && (forall|i2: int, j2: int|
                #[trigger] occurs(doc, key, k, i2, j2) ==> !comes_after(i, j, i2, j2)) implies (obj_get(
                ini_root(doc),
                key,
            ) matches Some(JValue::Object(es)) && obj_get(es, k) == Some(JValue::Str(doc[i].1[j].1))) by {
            if i == n {
                assert forall|t: int| j < t < props.len() implies props[t].0 != k by {
                    if props[t].0 == k {
                        assert(occurs(doc, key, k, n, t));
                    }
                }
            } else {
                assert(occurs(init, key, k, i, j));
                assert forall|i2: int, j2: int| #[trigger] occurs(init, key, k, i2, j2) implies !comes_after(i, j, i2, j2) by {
                    assert(occurs(doc, key, k, i2, j2));
                }
                assert(init[i] == doc[i]);
                if key == key0 {
                    assert forall|t: int| 0 <= t < props.len() implies props[t].0 != k by {
                        if props[t].0 == k {
                            assert(occurs(doc, key, k, n, t));
                        }
                    }
                }
            }
        }
        if forall|i: int, j: int| !#[trigger] occurs(doc, key, k, i, j) {
            assert forall|i: int, j: int| !#[trigger] occurs(init, key, k, i, j) by {
                if occurs(init, key, k, i, j) {
                    assert(init[i] == doc[i]);
                    assert(occurs(doc, key, k, i, j));
                }
            }
            if key == key0 {
                assert forall|t: int| 0 <= t < props.len() implies props[t].0 != k by {
                    if props[t].0 == k {
                        assert(occurs(doc, key, k, n, t));
                    }
                }
            }
        }
    }
}

} // verus!
