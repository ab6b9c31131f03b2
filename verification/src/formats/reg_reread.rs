//! What `parse` reads from any `.reg` file is a document that `serialize`
//! writes back faithfully, as long as its raw byte lists survive folding;
//! so reading, writing and reading again gives what the first read gave.
use vstd::prelude::*;
use crate::text::{find_char, lemma_find_char, lines, strip_cr, split, trim, trim_start, trim_end};
use crate::value::{JValue, JNumber, obj_map, obj_insert, obj_entry_or_insert, obj_get, obj_index, keys_sorted, lemma_obj_index, lemma_insert_sorted};
use crate::formats::reg::{
    RegState, Outcome, line_step, read_lines, flush, reg_parse, reg_text, value_line, name_and_data,
    value_name, data_entry, unquote, entry, multi_items, str_entry, default_name, without_bom,
    first_content_line, known_header,
};
use crate::formats::reg_laws::{
    lacks, no_newline, raw_ok, multi_ok, entry_ok, section_ok, typed_ok, raw_tag, reg_document,
    lemma_reg_round_trip, lemma_literals, entry_ends_in_backslash,
};

verus! {

// ───────────────────────────── characters that stay out ─────────────────────────────

proof fn lemma_trim_start_lacks(x: Seq<char>, c: char)
    requires
        lacks(x, c),
    ensures
        lacks(trim_start(x), c),
    decreases x.len(),
{
    if x.len() > 0 && crate::text::is_ws(x[0]) {
        assert forall|i: int| 0 <= i < x.drop_first().len() implies x.drop_first()[i] != c by {
            assert(x.drop_first()[i] == x[i + 1]);
        }
        lemma_trim_start_lacks(x.drop_first(), c);
    }
}

proof fn lemma_trim_end_lacks(x: Seq<char>, c: char)
    requires
        lacks(x, c),
    ensures
        lacks(trim_end(x), c),
    decreases x.len(),
{
    if x.len() > 0 && crate::text::is_ws(x.last()) {
        lemma_trim_end_lacks(x.drop_last(), c);
    }
}

/// Trimming keeps out what was out.
pub proof fn lemma_trim_lacks(x: Seq<char>, c: char)
    requires
        lacks(x, c),
    ensures
        lacks(trim(x), c),
        lacks(trim_start(x), c),
        lacks(trim_end(x), c),
{
    lemma_trim_start_lacks(x, c);
    lemma_trim_end_lacks(x, c);
    lemma_trim_end_lacks(trim_start(x), c);
}

/// Unquoting keeps out what was out (but backslashes, which it may keep).
pub proof fn lemma_unquote_lacks(t: Seq<char>, c: char)
    requires
        lacks(t, c),
        c != '\\',
    ensures
        unquote(t) matches Some((a, b)) ==> lacks(a, c) && lacks(b, c),
    decreases t.len(),
{
    if t.len() > 0 {
        if t[0] == '\\' {
            if t.len() >= 2 {
                assert forall|i: int| 0 <= i < t.skip(2).len() implies t.skip(2)[i] != c by {
                    assert(t.skip(2)[i] == t[i + 2]);
                }
                lemma_unquote_lacks(t.skip(2), c);
                assert(t[1] != c);
            }
        } else if t[0] == '"' {
            assert forall|i: int| 0 <= i < t.drop_first().len() implies t.drop_first()[i] != c by {
                assert(t.drop_first()[i] == t[i + 1]);
            }
        } else {
            assert forall|i: int| 0 <= i < t.drop_first().len() implies t.drop_first()[i] != c by {
                assert(t.drop_first()[i] == t[i + 1]);
            }
            lemma_unquote_lacks(t.drop_first(), c);
        }
    }
}

/// The pieces of a split lack the separator, and whatever the text lacks.
pub proof fn lemma_split_pieces(x: Seq<char>, sep: char, c: char)
    requires
        lacks(x, c),
    ensures
        forall|i: int| 0 <= i < split(x, sep).len() ==> lacks(#[trigger] split(x, sep)[i], c) && lacks(
            split(x, sep)[i],
            sep,
        ),
    decreases x.len(),
{
    lemma_find_char(x, sep);
    match find_char(x, sep) {
        None => {},
        Some(i) => {
            let rest = x.skip(i + 1);
            assert forall|j: int| 0 <= j < rest.len() implies rest[j] != c by {
                assert(rest[j] == x[j + i + 1]);
            }
            lemma_split_pieces(x.skip(i + 1), sep, c);
            let ps = split(x, sep);
            assert forall|k: int| 0 <= k < ps.len() implies lacks(#[trigger] ps[k], c) && lacks(ps[k], sep) by {
                if k == 0 {
                    assert(ps[0] == x.take(i));
                } else {
                    assert(ps[k] == split(x.skip(i + 1), sep)[k - 1]);
                }
            }
        },
    }
}

/// The items of a `multi_sz` value read from pieces that lack NULs.
pub proof fn lemma_multi_items_ok(ps: Seq<Seq<char>>)
    requires
        forall|i: int| 0 <= i < ps.len() ==> lacks(#[trigger] ps[i], '\0'),
    ensures
        multi_ok(multi_items(ps)),
    decreases ps.len(),
{
    if ps.len() > 0 {
        assert forall|i: int| 0 <= i < ps.drop_last().len() implies lacks(#[trigger] ps.drop_last()[i], '\0') by {
            assert(ps.drop_last()[i] == ps[i]);
        }
        lemma_multi_items_ok(ps.drop_last());
        assert(lacks(ps[ps.len() - 1], '\0'));
    }
}

/// The lines of any text hold no line feed.
pub proof fn lemma_lines_no_newline(s: Seq<char>)
    ensures
        forall|i: int| 0 <= i < lines(s).len() ==> no_newline(#[trigger] lines(s)[i]),
    decreases s.len(),
{
    if s.len() > 0 {
        lemma_find_char(s, '\n');
        match find_char(s, '\n') {
            None => {},
            Some(i) => {
                lemma_lines_no_newline(s.skip(i + 1));
                let first = strip_cr(s.take(i));
                assert forall|j: int| 0 <= j < first.len() implies first[j] != '\n' by {
                    assert(first[j] == s[j]);
                }
                let ls = lines(s);
                assert forall|k: int| 0 <= k < ls.len() implies no_newline(#[trigger] ls[k]) by {
                    if k == 0 {
                        assert(ls[0] == first);
                    } else {
                        assert(ls[k] == lines(s.skip(i + 1))[k - 1]);
                    }
                }
            },
        }
    }
}

// ───────────────────────────── entry lists ─────────────────────────────

/// Setting an entry keeps a property that every entry, the new one
/// included, has.
pub proof fn lemma_insert_all(
    es: Seq<(Seq<char>, JValue)>,
    k: Seq<char>,
    v: JValue,
    f: spec_fn(Seq<char>, JValue) -> bool,
)
    requires
        forall|j: int| 0 <= j < es.len() ==> f(#[trigger] es[j].0, es[j].1),
        f(k, v),
    ensures
        forall|j: int| 0 <= j < obj_insert(es, k, v).len() ==> f(
            #[trigger] obj_insert(es, k, v)[j].0,
            obj_insert(es, k, v)[j].1,
        ),
        forall|j: int|
            0 <= j < obj_entry_or_insert(es, k, v).len() ==> f(
                #[trigger] obj_entry_or_insert(es, k, v)[j].0,
                obj_entry_or_insert(es, k, v)[j].1,
            ),
{
    lemma_obj_index(es, k);
    crate::value::lemma_obj_lower(es, k);
    let r = obj_insert(es, k, v);
    assert forall|j: int| 0 <= j < r.len() implies f(#[trigger] r[j].0, r[j].1) by {
        match obj_index(es, k) {
            Some(i) => {
                if j != i {
                    assert(r[j] == es[j]);
                }
            },
            None => {
                let p = crate::value::obj_lower(es, k);
                if j < p {
                    assert(r[j] == es[j]);
                } else if j > p {
                    assert(r[j] == es[j - 1]);
                }
            },
        }
    }
    let r2 = obj_entry_or_insert(es, k, v);
    assert forall|j: int| 0 <= j < r2.len() implies f(#[trigger] r2[j].0, r2[j].1) by {
        match obj_index(es, k) {
            Some(i) => {},
            None => {
                assert(r2 == r);
            },
        }
    }
}

/// Adding an entry when absent keeps the keys in order.
pub proof fn lemma_entry_or_insert_sorted(es: Seq<(Seq<char>, JValue)>, k: Seq<char>, v: JValue)
    requires
        keys_sorted(es),
    ensures
        keys_sorted(obj_entry_or_insert(es, k, v)),
{
    lemma_insert_sorted(es, k, v);
    match obj_index(es, k) {
        Some(i) => {},
        None => {
            assert(obj_entry_or_insert(es, k, v) == obj_insert(es, k, v));
        },
    }
}


proof fn lemma_split_sep(x: Seq<char>, sep: char)
    ensures
        forall|i: int| 0 <= i < split(x, sep).len() ==> lacks(#[trigger] split(x, sep)[i], sep),
    decreases x.len(),
{
    lemma_find_char(x, sep);
    match find_char(x, sep) {
        None => {},
        Some(i) => {
            lemma_split_sep(x.skip(i + 1), sep);
            let ps = split(x, sep);
            assert forall|k: int| 0 <= k < ps.len() implies lacks(#[trigger] ps[k], sep) by {
                if k == 0 {
                    assert(ps[0] == x.take(i));
                } else {
                    assert(ps[k] == split(x.skip(i + 1), sep)[k - 1]);
                }
            }
        },
    }
}

// ───────────────────────────── what a data part reads as ─────────────────────────────

/// Whether `tag` is a type that the generic `hex…:` reading gives.
pub open spec fn hex_like(tag: Seq<char>) -> bool {
    &&& "hex"@.is_prefix_of(tag)
    &&& lacks(tag, ':')
    &&& no_newline(tag)
    &&& tag != "hex(b)"@ && tag != "hex(2)"@ && tag != "hex(7)"@
}

/// The typed values that reading a data part gives.
pub open spec fn typed_read(tag: Seq<char>, val: JValue) -> bool {
    ||| tag == "sz"@ && (val matches JValue::Str(s) && no_newline(s))
    ||| tag == "expand_sz"@ && val is Str
    ||| tag == "multi_sz"@ && (val matches JValue::Array(items) && multi_ok(items))
    ||| tag == "dword"@ && (val matches JValue::Number(JNumber::PosInt(n)) && n <= 0xffff_ffff)
    ||| tag == "qword"@ && (val matches JValue::Str(s) && no_newline(s))
    ||| hex_like(tag) && (val matches JValue::Str(s) && no_newline(s))
}

/// Whether `e` is an entry that reading a data part gives.
pub open spec fn entry_value_read(e: JValue) -> bool {
    e matches JValue::Object(fs) && fs.len() == 2 && fs[0].0 == "type"@ && fs[1].0 == "value"@ && (
    fs[0].1 matches JValue::Str(tag) && typed_read(tag, fs[1].1))
}

proof fn lemma_entry_read(tag: Seq<char>, val: JValue)
    requires
        typed_read(tag, val),
    ensures
        entry_value_read(entry(tag, val)),
{
}

proof fn lemma_str_entry_read(n: nat, s: Seq<char>)
    requires
        no_newline(s),
    ensures
        entry_value_read(str_entry(n, s)),
{
    lemma_literals();
    if n == 7 {
        let t = crate::formats::reg::nul_escapes(s);
        lemma_split_sep(t, '\0');
        lemma_multi_items_ok(split(t, '\0'));
        lemma_entry_read("multi_sz"@, JValue::Array(multi_items(split(t, '\0'))));
    } else if n == 2 {
        lemma_entry_read("expand_sz"@, JValue::Str(s));
    } else {
        lemma_entry_read("sz"@, JValue::Str(s));
    }
}

/// Whatever a data part on one line reads as is an entry of a type that
/// reading gives.
pub proof fn lemma_data_entry_read(data: Seq<char>)
    requires
        no_newline(data),
    ensures
        data_entry(data) matches Outcome::Done(e) ==> entry_value_read(e),
{
    lemma_literals();
    let d = trim(data);
    lemma_trim_lacks(data, '\n');
    assert forall|k: int, j: int| 0 <= k <= d.len() && 0 <= j < d.skip(k).len() implies #[trigger] d.skip(k)[j] != '\n' by {
        assert(d.skip(k)[j] == d[j + k]);
    }
    if d.len() > 0 && d[0] == '"' {
        assert forall|j: int| 0 <= j < d.drop_first().len() implies d.drop_first()[j] != '\n' by {
            assert(d.drop_first()[j] == d[j + 1]);
        }
        lemma_unquote_lacks(d.drop_first(), '\n');
        if let Some((s, _)) = unquote(d.drop_first()) {
            lemma_entry_read("sz"@, JValue::Str(s));
        }
    } else if "dword:"@.is_prefix_of(d) {
        match crate::num::parse_unsigned(trim(d.skip(6)), 16, 0xffff_ffff) {
            Some(n) => {
                assert(((n as u64) as nat) == n);
                lemma_entry_read("dword"@, JValue::Number(JNumber::PosInt(n as u64)));
            },
            None => {},
        }
    } else if "qword:"@.is_prefix_of(d) {
        lemma_trim_lacks(d.skip(6), '\n');
        lemma_entry_read("qword"@, JValue::Str(trim(d.skip(6))));
    } else if "hex(b):"@.is_prefix_of(d) {
        lemma_trim_lacks(d.skip(7), '\n');
        lemma_entry_read("qword"@, JValue::Str(trim(d.skip(7))));
    } else if "hex(2):"@.is_prefix_of(d) {
        if let Some(s) = crate::formats::reg::utf16le_text(trim(d.skip(7))) {
            lemma_entry_read("expand_sz"@, JValue::Str(crate::formats::reg::without_terminator(s)));
        }
    } else if "hex(7):"@.is_prefix_of(d) {
        if let Some(s) = crate::formats::reg::utf16le_text(trim(d.skip(7))) {
            lemma_split_sep(s, '\0');
            lemma_multi_items_ok(split(s, '\0'));
            lemma_entry_read("multi_sz"@, JValue::Array(multi_items(split(s, '\0'))));
        }
    } else if "hex"@.is_prefix_of(d) {
        lemma_find_char(d, ':');
        if let Some(c) = find_char(d, ':') {
            let tag = d.take(c);
            assert(d[0] == 'h' && d[1] == 'e' && d[2] == 'x');
            assert(c >= 3);
            assert("hex"@.is_prefix_of(tag));
            assert(lacks(tag, ':'));
            assert(no_newline(tag));
            assert(tag != "hex(b)"@ && tag != "hex(2)"@ && tag != "hex(7)"@) by {
                if tag == "hex(b)"@ || tag == "hex(2)"@ || tag == "hex(7)"@ {
                    assert(c == 6);
                    assert(d[6] == ':');
                    assert(d.take(7) =~= tag.push(':'));
                }
            }
            lemma_trim_lacks(d.skip(c + 1), '\n');
            lemma_entry_read(tag, JValue::Str(trim(d.skip(c + 1))));
        }
    } else if "str("@.is_prefix_of(d) {
        let rest = d.skip(4);
        match crate::text::find_seq(rest, "):"@) {
            Some(close) => match crate::num::parse_unsigned(rest.take(close), 10, 0xffff_ffff) {
                Some(n) => {
                    crate::text::lemma_find_seq(rest, "):"@);
                    reveal_strlit("):");
                    let q = rest.skip(close + 2);
                    assert forall|j: int| 0 <= j < q.len() implies q[j] != '\n' by {
                        assert(q[j] == d[j + close + 6]);
                    }
                    if q.len() > 0 && q[0] == '"' {
                        assert forall|j: int| 0 <= j < q.drop_first().len() implies q.drop_first()[j] != '\n' by {
                            assert(q.drop_first()[j] == q[j + 1]);
                        }
                        lemma_unquote_lacks(q.drop_first(), '\n');
                        if let Some((s, _)) = unquote(q.drop_first()) {
                            lemma_str_entry_read(n, s);
                        }
                    }
                },
                None => {},
            },
            None => {},
        }
    }
}


// ───────────────────────────── what reading keeps ─────────────────────────────

/// Whether entry `name` is one that reading gives.
pub open spec fn entry_read(name: Seq<char>, e: JValue) -> bool {
    no_newline(name) && (e is Null || entry_value_read(e))
}

/// Whether key `k` holding `sv` is one that reading gives.
pub open spec fn section_read(k: Seq<char>, sv: JValue) -> bool {
    &&& no_newline(k)
    &&& lacks(k, ']')
    &&& match sv {
        JValue::Null => true,
        JValue::Object(es) => !(k.len() > 0 && k[0] == '-') && keys_sorted(es) && forall|j: int|
            0 <= j < es.len() ==> entry_read(#[trigger] es[j].0, es[j].1),
        _ => false,
    }
}

/// What holds of every state of reading a `.reg` file.
pub open spec fn read_inv(st: RegState) -> bool {
    &&& keys_sorted(st.root)
    &&& forall|i: int| 0 <= i < st.root.len() ==> section_read(#[trigger] st.root[i].0, st.root[i].1)
    &&& match st.cur {
        Some(k) => no_newline(k) && lacks(k, ']') && !(k.len() > 0 && k[0] == '-'),
        None => true,
    }
    &&& no_newline(st.logical)
}

proof fn lemma_value_name_read(s: Seq<char>)
    requires
        no_newline(s),
    ensures
        value_name(s) matches Some(n) ==> no_newline(n),
{
    let t = trim(s);
    lemma_trim_lacks(s, '\n');
    if t.len() > 0 && t[0] == '"' && t != seq!['@'] {
        assert forall|j: int| 0 <= j < t.drop_first().len() implies t.drop_first()[j] != '\n' by {
            assert(t.drop_first()[j] == t[j + 1]);
        }
        lemma_unquote_lacks(t.drop_first(), '\n');
    }
}

proof fn lemma_name_and_data_read(line: Seq<char>)
    requires
        no_newline(line),
    ensures
        name_and_data(line) matches Some((n, d)) ==> no_newline(n) && no_newline(d),
{
    let l = trim(line);
    lemma_trim_lacks(line, '\n');
    if l.len() > 0 && l[0] == '@' {
        let rest = l.drop_first();
        assert forall|j: int| 0 <= j < rest.len() implies rest[j] != '\n' by {
            assert(rest[j] == l[j + 1]);
        }
        if rest.len() > 0 && rest[0] == '=' {
            assert forall|j: int| 0 <= j < rest.drop_first().len() implies rest.drop_first()[j] != '\n' by {
                assert(rest.drop_first()[j] == rest[j + 1]);
            }
            lemma_trim_lacks(rest.drop_first(), '\n');
        }
    } else if l.len() > 0 && l[0] == '"' {
        assert forall|j: int| 0 <= j < l.drop_first().len() implies l.drop_first()[j] != '\n' by {
            assert(l.drop_first()[j] == l[j + 1]);
        }
        lemma_unquote_lacks(l.drop_first(), '\n');
        if let Some((name, rest)) = unquote(l.drop_first()) {
            lemma_trim_lacks(rest, '\n');
            let r2 = trim_start(rest);
            if r2.len() > 0 && r2[0] == '=' {
                assert forall|j: int| 0 <= j < r2.drop_first().len() implies r2.drop_first()[j] != '\n' by {
                    assert(r2.drop_first()[j] == r2[j + 1]);
                }
                lemma_trim_lacks(r2.drop_first(), '\n');
            }
        }
    }
}

/// Reading a value line into entries that reading gave gives such entries.
pub proof fn lemma_value_line_read(line: Seq<char>, es: Seq<(Seq<char>, JValue)>)
    requires
        no_newline(line),
        keys_sorted(es),
        forall|j: int| 0 <= j < es.len() ==> entry_read(#[trigger] es[j].0, es[j].1),
    ensures
        value_line(line, es) matches Outcome::Done(es2) ==> keys_sorted(es2) && forall|j: int|
            0 <= j < es2.len() ==> entry_read(#[trigger] es2[j].0, es2[j].1),
{
    let f = |n: Seq<char>, e: JValue| entry_read(n, e);
    assert forall|j: int| 0 <= j < es.len() implies f(#[trigger] es[j].0, es[j].1) by {}
    if line.len() > 0 && line[0] == '-' {
        assert forall|j: int| 0 <= j < line.drop_first().len() implies line.drop_first()[j] != '\n' by {
            assert(line.drop_first()[j] == line[j + 1]);
        }
        lemma_value_name_read(line.drop_first());
        if let Some(name) = value_name(line.drop_first()) {
            assert(f(name, JValue::Null));
            lemma_insert_all(es, name, JValue::Null, f);
            lemma_insert_sorted(es, name, JValue::Null);
            let es2 = obj_insert(es, name, JValue::Null);
            assert forall|j: int| 0 <= j < es2.len() implies entry_read(#[trigger] es2[j].0, es2[j].1) by {
                assert(f(es2[j].0, es2[j].1));
            }
        }
    } else {
        lemma_name_and_data_read(line);
        if let Some((name, data)) = name_and_data(line) {
            lemma_data_entry_read(data);
            if let Outcome::Done(v) = data_entry(data) {
                assert(f(name, v));
                lemma_insert_all(es, name, v, f);
                lemma_insert_sorted(es, name, v);
                let es2 = obj_insert(es, name, v);
                assert forall|j: int| 0 <= j < es2.len() implies entry_read(#[trigger] es2[j].0, es2[j].1) by {
                    assert(f(es2[j].0, es2[j].1));
                }
            }
        }
    }
}

proof fn lemma_root_insert(root: Seq<(Seq<char>, JValue)>, k: Seq<char>, v: JValue)
    requires
        keys_sorted(root),
        forall|i: int| 0 <= i < root.len() ==> section_read(#[trigger] root[i].0, root[i].1),
        section_read(k, v),
    ensures
        keys_sorted(obj_insert(root, k, v)),
        forall|i: int|
            0 <= i < obj_insert(root, k, v).len() ==> section_read(
                #[trigger] obj_insert(root, k, v)[i].0,
                obj_insert(root, k, v)[i].1,
            ),
        keys_sorted(obj_entry_or_insert(root, k, v)),
        forall|i: int|
            0 <= i < obj_entry_or_insert(root, k, v).len() ==> section_read(
                #[trigger] obj_entry_or_insert(root, k, v)[i].0,
                obj_entry_or_insert(root, k, v)[i].1,
            ),
{
    let f = |n: Seq<char>, e: JValue| section_read(n, e);
    assert forall|j: int| 0 <= j < root.len() implies f(#[trigger] root[j].0, root[j].1) by {}
    lemma_insert_all(root, k, v, f);
    lemma_insert_sorted(root, k, v);
    lemma_entry_or_insert_sorted(root, k, v);
    let r = obj_insert(root, k, v);
    assert forall|i: int| 0 <= i < r.len() implies section_read(#[trigger] r[i].0, r[i].1) by {
        assert(f(r[i].0, r[i].1));
    }
    let r2 = obj_entry_or_insert(root, k, v);
    assert forall|i: int| 0 <= i < r2.len() implies section_read(#[trigger] r2[i].0, r2[i].1) by {
        assert(f(r2[i].0, r2[i].1));
    }
}

proof fn lemma_first_content_bound(ls: Seq<Seq<char>>)
    ensures
        first_content_line(ls) matches Some(h) ==> 0 <= h < ls.len(),
    decreases ls.len(),
{
    if ls.len() > 0 {
        lemma_first_content_bound(ls.drop_first());
    }
}

/// Ending the pending line keeps what holds of every state.
pub proof fn lemma_flush_read(st: RegState)
    requires
        read_inv(st),
    ensures
        flush(st) matches Outcome::Done(s) ==> read_inv(s),
{
    let t = trim(st.logical);
    lemma_trim_lacks(st.logical, '\n');
    if t.len() > 0 {
        if let Some(k) = st.cur {
            lemma_root_insert(st.root, k, JValue::Object(Seq::empty()));
            let root1 = obj_entry_or_insert(st.root, k, JValue::Object(Seq::empty()));
            lemma_obj_index(root1, k);
            match obj_get(root1, k) {
                Some(JValue::Object(es)) => {
                    let i = obj_index(root1, k)->0;
                    assert(section_read(root1[i].0, root1[i].1));
                    lemma_value_line_read(t, es);
                    if let Outcome::Done(es2) = value_line(t, es) {
                        lemma_root_insert(root1, k, JValue::Object(es2));
                    }
                },
                _ => {},
            }
        }
    }
}

/// Reading one line keeps what holds of every state.
pub proof fn lemma_step_read(st: RegState, raw: Seq<char>)
    requires
        read_inv(st),
        no_newline(raw),
    ensures
        line_step(st, raw) matches Outcome::Done(s) ==> read_inv(s),
{
    reveal(line_step);
    lemma_flush_read(st);
    let line = trim_end(raw);
    lemma_trim_lacks(raw, '\n');
    lemma_trim_lacks(line, '\n');
    let ts = trim_start(line);
    if ts.len() > 0 && (ts[0] == ';' || ts[0] == '#') {
    } else if trim(line).len() == 0 {
    } else if st.logical.len() > 0 && st.logical.last() == '\\' {
        let l2 = st.logical.drop_last() + ts;
        assert forall|j: int| 0 <= j < l2.len() implies l2[j] != '\n' by {
            if j < st.logical.len() - 1 {
                assert(l2[j] == st.logical[j]);
            } else {
                assert(l2[j] == ts[j - (st.logical.len() - 1)]);
            }
        }
    } else {
        if let Outcome::Done(s1) = flush(st) {
            let t = trim(line);
            if t[0] == '[' {
                lemma_find_char(t, ']');
                if let Some(close) = find_char(t, ']') {
                    let inner = t.subrange(1, close);
                    assert forall|j: int| 0 <= j < inner.len() implies inner[j] != ']' && inner[j] != '\n' by {
                        assert(inner[j] == t[j + 1]);
                    }
                    if inner.len() > 0 && inner[0] == '-' {
                        let k = inner.drop_first();
                        assert forall|j: int| 0 <= j < k.len() implies k[j] != ']' && k[j] != '\n' by {
                            assert(k[j] == inner[j + 1]);
                        }
                        lemma_root_insert(s1.root, k, JValue::Null);
                    } else {
                        lemma_root_insert(s1.root, inner, JValue::Object(Seq::empty()));
                    }
                }
            } else {
                let l2 = s1.logical + t;
                assert forall|j: int| 0 <= j < l2.len() implies l2[j] != '\n' by {
                    if j < s1.logical.len() {
                        assert(l2[j] == s1.logical[j]);
                    } else {
                        assert(l2[j] == t[j - s1.logical.len()]);
                    }
                }
            }
        }
    }
}

/// Reading lines keeps what holds of every state.
pub proof fn lemma_read_lines_read(st: RegState, ls: Seq<Seq<char>>)
    requires
        read_inv(st),
        forall|i: int| 0 <= i < ls.len() ==> no_newline(#[trigger] ls[i]),
    ensures
        read_lines(st, ls) matches Outcome::Done(s) ==> read_inv(s),
    decreases ls.len(),
{
    if ls.len() > 0 {
        lemma_step_read(st, ls[0]);
        if let Outcome::Done(s1) = line_step(st, ls[0]) {
            assert forall|i: int| 0 <= i < ls.drop_first().len() implies no_newline(#[trigger] ls.drop_first()[i]) by {
                assert(ls.drop_first()[i] == ls[i + 1]);
            }
            lemma_read_lines_read(s1, ls.drop_first());
        }
    }
}

/// Whether the raw byte lists of `v` are written in a form that reads back:
/// each entry typed `qword` or `hex…` holds text that survives folding, a
/// `hex…` type other than `hex` has the form `hex(..)`, and only the last
/// entry of a key may hold one that ends in a backslash.
pub open spec fn raw_values_ok(v: JValue) -> bool {
    &&& forall|i: int, j: int|
        #![trigger v->Object_0[i].1->Object_0[j]]
        0 <= i < v->Object_0.len() && v->Object_0[i].1 is Object && 0 <= j < v->Object_0[i].1->Object_0.len()
            ==> raw_entry_ok(v->Object_0[i].1->Object_0[j].1)
    &&& forall|i: int, j: int|
        #![trigger v->Object_0[i].1->Object_0[j]]
        0 <= i < v->Object_0.len() && v->Object_0[i].1 is Object && 0 <= j < v->Object_0[i].1->Object_0.len() - 1
            ==> !entry_ends_in_backslash(v->Object_0[i].1->Object_0[j].1)
}

/// Whether the entry `e`, if it holds a raw byte list, is written in a form
/// that reads back, and, if it holds an expandable string, that string does
/// not end in a NUL (which the next reading would take for its terminator).
pub open spec fn raw_entry_ok(e: JValue) -> bool {
    &&& (e matches JValue::Object(fs) && fs.len() == 2 && fs[0].1 == JValue::Str("expand_sz"@)) ==> (
    e->Object_0[1].1 matches JValue::Str(s) && crate::formats::reg::without_terminator(s) == s)
    &&& (e matches JValue::Object(fs) && fs.len() == 2 && (fs[0].1 matches JValue::Str(tag) && (tag
        == "qword"@ || "hex"@.is_prefix_of(tag)))) ==> ({
        let tag = e->Object_0[0].1->Str_0;
        &&& tag == "qword"@ || tag == "hex"@ || "hex("@.is_prefix_of(tag)
        &&& e->Object_0[1].1 matches JValue::Str(s) && raw_ok(s)
    })
}

/// What any `.reg` file reads as: an object of keys in order, each key but
/// `__header__` `null` or holding entries of the types that reading gives,
/// and the header line, one of the known ones, under `__header__`.
pub proof fn lemma_parse_read(input: Seq<char>)
    ensures
        reg_parse(input) matches Outcome::Done(v) ==> (v matches JValue::Object(root) && keys_sorted(root)
            && (forall|i: int| 0 <= i < root.len() && root[i].0 != "__header__"@ ==> section_read(#[trigger] root[i].0, root[i].1))
            && (obj_get(root, "__header__"@) matches Some(x) && (x matches JValue::Str(h) && known_header(h)))),
{
    let ls = lines(without_bom(input));
    lemma_lines_no_newline(without_bom(input));
    lemma_first_content_bound(ls);
    if let Some(h) = first_content_line(ls) {
        let init = RegState { root: Seq::empty(), cur: None, logical: Seq::empty() };
        assert(read_inv(init));
        let rest = ls.skip(h + 1);
        assert forall|i: int| 0 <= i < rest.len() implies no_newline(#[trigger] rest[i]) by {
            assert(rest[i] == ls[i + h + 1]);
        }
        lemma_read_lines_read(init, rest);
        if let Outcome::Done(st) = read_lines(init, rest) {
            lemma_flush_read(st);
            if let Outcome::Done(st2) = flush(st) {
                let hk = "__header__"@;
                let x = JValue::Str(trim(ls[h]));
                let r1 = st2.root;
                let root = obj_insert(r1, hk, x);
                lemma_insert_sorted(r1, hk, x);
                lemma_obj_index(root, hk);
                crate::value::lemma_sorted_unique_index(root, hk);
                assert forall|i: int| 0 <= i < root.len() && root[i].0 != hk implies section_read(#[trigger] root[i].0, root[i].1) by {
                    let k = root[i].0;
                    crate::merge_laws::lemma_sorted_entry_get(root, i);
                    assert(obj_map(root).dom().contains(k));
                    assert(obj_map(r1).dom().contains(k));
                    lemma_obj_index(r1, k);
                    let j = obj_index(r1, k)->0;
                    assert(obj_map(r1)[k] == r1[j].1);
                    assert(obj_map(root)[k] == root[i].1);
                    assert(r1[j].0 == k);
                }
                assert(obj_get(root, hk) == Some(x)) by {
                    assert(obj_map(root).dom().contains(hk));
                    assert(obj_map(root)[hk] == x);
                }
            }
        }
    }
}

proof fn lemma_entry_ok_from_read(n: Seq<char>, e: JValue)
    requires
        entry_read(n, e),
        raw_entry_ok(e),
    ensures
        entry_ok(n, e),
{
    lemma_literals();
    if let JValue::Object(fs) = e {
        let tag = fs[0].1->Str_0;
        let val = fs[1].1;
        assert(typed_read(tag, val));
        if hex_like(tag) && tag != "hex"@ {
            assert("hex("@.is_prefix_of(tag));
            assert(raw_tag(tag));
        }
        assert(typed_ok(tag, val));
    }
}

/// Reading a `.reg` file, writing what was read and reading that again
/// gives what the first reading gave, when the raw byte lists read survive
/// folding and no expandable string read ends in a NUL.
pub proof fn lemma_reread(input: Seq<char>)
    requires
        reg_parse(input) matches Outcome::Done(v) && raw_values_ok(v),
    ensures
        reg_parse(input) matches Outcome::Done(v) && (reg_text(v) matches Some(t) && reg_parse(t)
            == Outcome::Done(v)),
{
    lemma_parse_read(input);
    let v = reg_parse(input)->Done_0;
    let root = v->Object_0;
    assert forall|i: int| 0 <= i < root.len() && root[i].0 != "__header__"@ implies section_ok(#[trigger] root[i].0, root[i].1) by {
        assert(section_read(root[i].0, root[i].1));
        if let JValue::Object(es) = root[i].1 {
            assert forall|j: int| 0 <= j < es.len() implies entry_ok(#[trigger] es[j].0, es[j].1) by {
                assert(entry_read(es[j].0, es[j].1));
                assert(raw_entry_ok(v->Object_0[i].1->Object_0[j].1));
                lemma_entry_ok_from_read(es[j].0, es[j].1);
            }
            assert forall|j: int| 0 <= j < es.len() - 1 implies !entry_ends_in_backslash(#[trigger] es[j].1) by {
                assert(!entry_ends_in_backslash(v->Object_0[i].1->Object_0[j].1));
            }
        }
    }
    assert(reg_document(v));
    lemma_reg_round_trip(v);
}

} // verus!
