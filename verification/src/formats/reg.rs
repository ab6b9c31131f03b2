//! Wine/Windows Registry (`.reg`) format.
//!
//! A `.reg` file is read as an object whose keys are registry key paths and
//! whose values are objects of typed entries:
//! `{"type": "sz" | "expand_sz" | "multi_sz" | "dword" | "qword" | "hex" | "hex(N)", "value": …}`.
//! A `null` entry means "delete this value" (`-"Name"`), a `null` key means
//! "delete this key" (`[-KEY]`). The header line read is kept under
//! `__header__` and written back.
use vstd::prelude::*;
use crate::value::{
    JValue, JNumber, Value, Number, Object, obj_get, obj_insert, obj_entry_or_insert, lemma_obj_index,
};
use crate::text::{
    chars_of, string_of, concat2, concat3, extend_chars, extend_str, slice_of,
    trim, trim_start, trim_chars, trim_start_chars, ws_skip, ws_back, split, split_on, views, join,
    join_chars, chunks, pieces, starts_with_str, find_char, find_char_in, find_seq, find_seq_in,
    trim_end, trim_end_chars, lines, lines_of, eq_str, text_eq,
};
use crate::num::{
    parse_unsigned, parse_unsigned_chars, hex_fixed, hex_digits, decode_utf16, encode_utf16,
    le_bytes, le_units, decode_utf16_units, encode_utf16_chars, le_bytes_of, le_units_of, decimal_digits,
};

verus! {

// ───────────────────────────── quoting ─────────────────────────────

/// The escape of one character inside `"…"`.
pub open spec fn escape_char(c: char) -> Seq<char> {
    if c == '\\' {
        seq!['\\', '\\']
    } else if c == '"' {
        seq!['\\', '"']
    } else {
        seq![c]
    }
}

/// `s` with `\` and `"` escaped by a backslash.
pub open spec fn escaped(s: Seq<char>) -> Seq<char>
    decreases s.len(),
{
    if s.len() == 0 {
        Seq::empty()
    } else {
        escaped(s.drop_last()) + escape_char(s.last())
    }
}

/// Escape a string for emission inside `"…"` in a .reg file.
pub fn escape_reg_string(s: &str) -> (r: String)
    ensures
        r@ == escaped(s@),
{
    let cs = chars_of(s);
    let mut out: Vec<char> = Vec::new();
    let n = cs.len();
    for i in 0..n
        invariant
            n == cs@.len(),
            cs@ == s@,
            out@ == escaped(s@.take(i as int)),
    {
        let c = cs[i];
        if c == '\\' {
            out.push('\\');
            out.push('\\');
        } else if c == '"' {
            out.push('\\');
            out.push('"');
        } else {
            out.push(c);
        }
        assert(s@.take(i + 1).drop_last() =~= s@.take(i as int));
        assert(out@ =~= escaped(s@.take(i as int)) + escape_char(c));
    }
    assert(s@.take(n as int) =~= s@);
    string_of(&out)
}

/// `s` without a leading byte order mark.
pub open spec fn without_bom(s: Seq<char>) -> Seq<char> {
    if s.len() > 0 && s[0] == '\u{FEFF}' {
        s.drop_first()
    } else {
        s
    }
}

/// Strip a BOM (U+FEFF) from the front of a string if present.
pub fn strip_bom(s: &str) -> (r: &str)
    ensures
        r@ == without_bom(s@),
{
    let n = s.unicode_len();
    if n > 0 && s.get_char(0) == '\u{FEFF}' {
        s.substring_char(1, n)
    } else {
        s
    }
}

/// The name `@` stands for.
pub open spec fn default_name() -> Seq<char> {
    seq!['(', 'd', 'e', 'f', 'a', 'u', 'l', 't', ')']
}

/// How a value name is written: `@` for the default value, else quoted.
pub open spec fn quoted_name(name: Seq<char>) -> Seq<char> {
    if name == default_name() {
        seq!['@']
    } else {
        seq!['"'] + escaped(name) + seq!['"']
    }
}

fn default_name_string() -> (r: String)
    ensures
        r@ == default_name(),
{
    proof {
        reveal_strlit("(default)");
    }
    String::from_str("(default)")
}

/// Quote a value name: `@` for `(default)`, otherwise `"…"` with escapes.
pub fn quote_value_name(name: &str) -> (r: String)
    ensures
        r@ == quoted_name(name@),
{
    let d = default_name_string();
    if crate::text::text_eq(name, d.as_str()) {
        proof {
            reveal_strlit("@");
        }
        return String::from_str("@");
    }
    let e = escape_reg_string(name);
    proof {
        reveal_strlit("\"");
    }
    concat3("\"", e.as_str(), "\"")
}

/// What a backslash followed by `c` stands for inside quotes.
pub open spec fn unescape_pair(c: char) -> Seq<char> {
    if c == '\\' {
        seq!['\\']
    } else if c == '"' {
        seq!['"']
    } else {
        seq!['\\', c]
    }
}

/// The content of a quoted string whose opening quote has been consumed, and
/// what follows its closing quote; `None` when it is not terminated.
pub open spec fn unquote(t: Seq<char>) -> Option<(Seq<char>, Seq<char>)>
    decreases t.len(),
{
    if t.len() == 0 {
        None
    } else if t[0] == '\\' {
        if t.len() < 2 {
            None
        } else {
            match unquote(t.skip(2)) {
                Some((c, r)) => Some((unescape_pair(t[1]) + c, r)),
                None => None,
            }
        }
    } else if t[0] == '"' {
        Some((Seq::empty(), t.drop_first()))
    } else {
        match unquote(t.drop_first()) {
            Some((c, r)) => Some((seq![t[0]] + c, r)),
            None => None,
        }
    }
}

/// Unquotes `t[i..j]` (the opening quote already consumed), giving the
/// content and the index after the closing quote.
fn unquote_range(t: &Vec<char>, i: usize, j: usize) -> (r: Option<(Vec<char>, usize)>)
    requires
        i <= j <= t@.len(),
    ensures
        match unquote(t@.subrange(i as int, j as int)) {
            Some((c, rest)) => r matches Some((c2, e)) && c2@ == c && i <= e <= j && t@.subrange(
                e as int,
                j as int,
            ) == rest,
            None => r is None,
        },
{
    let mut out: Vec<char> = Vec::new();
    let mut k = i;
    assert(out@ + Seq::<char>::empty() =~= out@);
    while k < j
        invariant
            i <= k <= j <= t@.len(),
            match unquote(t@.subrange(k as int, j as int)) {
                Some((c, rest)) => unquote(t@.subrange(i as int, j as int)) == Some((out@ + c, rest)),
                None => unquote(t@.subrange(i as int, j as int)) is None,
            },
        decreases j - k,
    {
        let ghost tk = t@.subrange(k as int, j as int);
        assert(tk[0] == t@[k as int]);
        if t[k] == '\\' {
            if k + 1 >= j {
                assert(tk.len() < 2);
                return None;
            }
            let c = t[k + 1];
            assert(tk[1] == c);
            assert(tk.skip(2) =~= t@.subrange(k + 2, j as int));
            let ghost before = out@;
            if c == '\\' {
                out.push('\\');
            } else if c == '"' {
                out.push('"');
            } else {
                out.push('\\');
                out.push(c);
            }
            assert(out@ =~= before + unescape_pair(c));
            proof {
                match unquote(t@.subrange(k + 2, j as int)) {
                    Some((c2, rest)) => {
                        assert(before + (unescape_pair(c) + c2) =~= out@ + c2);
                    },
                    None => {},
                }
            }
            k = k + 2;
        } else if t[k] == '"' {
            assert(tk.drop_first() =~= t@.subrange(k + 1, j as int));
            return Some((out, k + 1));
        } else {
            let c = t[k];
            assert(tk.drop_first() =~= t@.subrange(k + 1, j as int));
            let ghost before = out@;
            out.push(c);
            proof {
                match unquote(t@.subrange(k + 1, j as int)) {
                    Some((c2, rest)) => {
                        assert(before + (seq![c] + c2) =~= out@ + c2);
                    },
                    None => {},
                }
            }
            k = k + 1;
        }
    }
    assert(t@.subrange(k as int, j as int).len() == 0);
    None
}

/// Extract a `"…"`-quoted string from the start of `s`, returning the
/// unescaped content and the remainder after the closing quote.
pub fn extract_quoted(s: &str) -> (r: Result<(String, &str), String>)
    requires
        s@.len() > 0,
        s@[0] == '"',
    ensures
        match unquote(s@.drop_first()) {
            Some((c, rest)) => r matches Ok((c2, r2)) && c2@ == c && r2@ == rest,
            None => r is Err,
        },
{
    let cs = chars_of(s);
    let n = cs.len();
    assert(cs@.subrange(1, n as int) =~= s@.drop_first());
    match unquote_range(&cs, 1, n) {
        Some((content, e)) => {
            let rest = s.substring_char(e, n);
            Ok((string_of(&content), rest))
        },
        None => Err(unterminated_message()),
    }
}

fn unterminated_message() -> (r: String)
    ensures
        r@ == "unterminated quoted string"@,
{
    String::from_str("unterminated quoted string")
}

/// The name a value-deletion line names: `@` (the default value) or a
/// quoted name.
pub open spec fn value_name(s: Seq<char>) -> Option<Seq<char>> {
    let t = trim(s);
    if t == seq!['@'] {
        Some(default_name())
    } else if t.len() > 0 && t[0] == '"' {
        match unquote(t.drop_first()) {
            Some((c, _)) => Some(c),
            None => None,
        }
    } else {
        None
    }
}

/// Extract the value name from a quoted string (or `@` for default).
pub fn parse_value_name(s: &str) -> (r: Result<String, String>)
    ensures
        match value_name(s@) {
            Some(name) => r matches Ok(n) && n@ == name,
            None => r is Err,
        },
{
    let cs = chars_of(s);
    let n = cs.len();
    let a = ws_skip(&cs, 0, n);
    let b = ws_back(&cs, a, n);
    assert(cs@.subrange(0, n as int) =~= s@);
    assert(trim(s@) == cs@.subrange(a as int, b as int));
    if b > a && b - a == 1 && cs[a] == '@' {
        assert(cs@.subrange(a as int, b as int) =~= seq!['@']);
        return Ok(default_name_string());
    }
    if b > a && cs[a] == '"' {
        assert(cs@.subrange(a as int, b as int).drop_first() =~= cs@.subrange(a + 1, b as int));
        assert(cs@.subrange(a as int, b as int)[0] == '"');
        assert(cs@.subrange(a as int, b as int) != seq!['@']) by {
            if cs@.subrange(a as int, b as int) == seq!['@'] {
                assert(seq!['@'][0] == '@');
            }
        }
        match unquote_range(&cs, a + 1, b) {
            Some((content, _)) => {
                return Ok(string_of(&content));
            },
            None => {
                return Err(unterminated_message());
            },
        }
    }
    proof {
        let t = cs@.subrange(a as int, b as int);
        if t == seq!['@'] {
            assert(seq!['@'].len() == 1);
            assert(seq!['@'][0] == '@');
            assert(t[0] == cs@[a as int]);
        }
        if t.len() > 0 {
            assert(t[0] == cs@[a as int]);
        }
    }
    Err(concat3("value name must be quoted or '@', got: '", s, "'"))
}

/// A value line split into its name and its data.
pub open spec fn name_and_data(line: Seq<char>) -> Option<(Seq<char>, Seq<char>)> {
    let l = trim(line);
    if l.len() > 0 && l[0] == '@' {
        let rest = l.drop_first();
        if rest.len() > 0 && rest[0] == '=' {
            Some((default_name(), trim_start(rest.drop_first())))
        } else {
            None
        }
    } else if l.len() > 0 && l[0] == '"' {
        match unquote(l.drop_first()) {
            Some((name, rest)) => {
                let r2 = trim_start(rest);
                if r2.len() > 0 && r2[0] == '=' {
                    Some((name, trim_start(r2.drop_first())))
                } else {
                    None
                }
            },
            None => None,
        }
    } else {
        None
    }
}

/// Split `"ValueName"=data` → `(name, data)`.
pub fn split_name_data(line: &str) -> (r: Result<(String, &str), String>)
    ensures
        match name_and_data(line@) {
            Some((name, data)) => r matches Ok((n, d)) && n@ == name && d@ == data,
            None => r is Err,
        },
{
    let cs = chars_of(line);
    let n = cs.len();
    let a = ws_skip(&cs, 0, n);
    let b = ws_back(&cs, a, n);
    assert(cs@.subrange(0, n as int) =~= line@);
    let ghost l = cs@.subrange(a as int, b as int);
    assert(trim(line@) == l);
    if b > a && cs[a] == '@' {
        if b > a + 1 && cs[a + 1] == '=' {
            let d = ws_skip(&cs, a + 2, b);
            assert(l.drop_first().drop_first() =~= cs@.subrange(a + 2, b as int));
            let data = line.substring_char(d, b);
            return Ok((default_name_string(), data));
        }
        return Err(String::from_str("expected '=' after '@'"));
    }
    if b > a && cs[a] == '"' {
        assert(l.drop_first() =~= cs@.subrange(a + 1, b as int));
        match unquote_range(&cs, a + 1, b) {
            Some((name, e)) => {
                let f = ws_skip(&cs, e, b);
                if f < b && cs[f] == '=' {
                    let d = ws_skip(&cs, f + 1, b);
                    assert(cs@.subrange(f as int, b as int).drop_first() =~= cs@.subrange(
                        f + 1,
                        b as int,
                    ));
                    let data = line.substring_char(d, b);
                    return Ok((string_of(&name), data));
                }
                return Err(expected_eq_message());
            },
            None => {
                return Err(unterminated_message());
            },
        }
    }
    Err(String::from_str("expected quoted value name or '@'"))
}

fn expected_eq_message() -> (r: String)
    ensures
        r@ == "expected '=' after value name"@,
{
    String::from_str("expected '=' after value name")
}


// ───────────────────────────── hex byte lists ─────────────────────────────

/// The trimmed pieces that are not empty.
pub open spec fn trimmed_nonempty(parts: Seq<Seq<char>>) -> Seq<Seq<char>>
    decreases parts.len(),
{
    if parts.len() == 0 {
        Seq::empty()
    } else {
        let r = trimmed_nonempty(parts.drop_last());
        let t = trim(parts.last());
        if t.len() > 0 {
            r.push(t)
        } else {
            r
        }
    }
}

/// Each piece read as a hexadecimal byte; `None` if one is not.
pub open spec fn parse_byte_list(parts: Seq<Seq<char>>) -> Option<Seq<u8>>
    decreases parts.len(),
{
    if parts.len() == 0 {
        Some(Seq::empty())
    } else {
        match (parse_byte_list(parts.drop_last()), parse_unsigned(parts.last(), 16, 255)) {
            (Some(bs), Some(v)) => Some(bs.push(v as u8)),
            _ => None,
        }
    }
}

/// The bytes of a comma-separated hex byte list (whitespace around a byte and
/// empty pieces are ignored).
pub open spec fn hex_bytes(hex: Seq<char>) -> Option<Seq<u8>> {
    parse_byte_list(trimmed_nonempty(split(hex, ',')))
}

/// Parse a comma-separated hex byte string (with optional line-continuation whitespace).
pub fn parse_hex_bytes(hex: &str) -> (r: Result<Vec<u8>, String>)
    ensures
        match hex_bytes(hex@) {
            Some(bs) => r matches Ok(v) && v@ == bs,
            None => r is Err,
        },
{
    let cs = chars_of(hex);
    let parts = split_on(&cs, ',');
    let ghost ps = views(parts@);
    let mut out: Vec<u8> = Vec::new();
    let n = parts.len();
    for i in 0..n
        invariant
            n == parts@.len(),
            ps == views(parts@),
            ps == split(hex@, ','),
            parse_byte_list(trimmed_nonempty(ps.take(i as int))) == Some(out@),
    {
        let t = trim_chars(&parts[i]);
        assert(ps.take(i + 1).drop_last() =~= ps.take(i as int));
        assert(ps.take(i + 1).last() == parts@[i as int]@);
        let ghost tn = trimmed_nonempty(ps.take(i as int));
        if t.len() > 0 {
            assert(trimmed_nonempty(ps.take(i + 1)) == tn.push(t@));
            assert(tn.push(t@).drop_last() =~= tn);
            assert(tn.push(t@).last() == t@);
            match parse_unsigned_chars(&t, 16, 255) {
                Some(b) => {
                    out.push(b as u8);
                },
                None => {
                    proof {
                        lemma_byte_list_none(trimmed_nonempty(ps), trimmed_nonempty(ps.take(i + 1)).len() as int, ps, i + 1);
                    }
                    let mut m = String::from_str("invalid hex byte #");
                    m.append(string_of(&decimal_digits(out.len() as u64)).as_str());
                    m.append(": '");
                    m.append(string_of(&t).as_str());
                    m.append("'");
                    return Err(m);
                },
            }
        }
    }
    assert(ps.take(n as int) =~= ps);
    Ok(out)
}

proof fn lemma_trimmed_prefix(ps: Seq<Seq<char>>, i: int)
    requires
        0 <= i <= ps.len(),
    ensures
        trimmed_nonempty(ps.take(i)).is_prefix_of(trimmed_nonempty(ps)),
    decreases ps.len() - i,
{
    if i < ps.len() {
        lemma_trimmed_prefix(ps, i + 1);
        assert(ps.take(i + 1).drop_last() =~= ps.take(i));
    } else {
        assert(ps.take(i) =~= ps);
    }
}

proof fn lemma_byte_list_prefix_none(a: Seq<Seq<char>>, k: int)
    requires
        0 <= k <= a.len(),
        parse_byte_list(a.take(k)) is None,
    ensures
        parse_byte_list(a) is None,
    decreases a.len() - k,
{
    if k < a.len() {
        assert(a.take(k + 1).drop_last() =~= a.take(k));
        lemma_byte_list_prefix_none(a, k + 1);
    } else {
        assert(a.take(k) =~= a);
    }
}

proof fn lemma_byte_list_none(full: Seq<Seq<char>>, k: int, ps: Seq<Seq<char>>, i: int)
    requires
        0 <= i <= ps.len(),
        full == trimmed_nonempty(ps),
        k == trimmed_nonempty(ps.take(i)).len(),
        parse_byte_list(trimmed_nonempty(ps.take(i))) is None,
    ensures
        parse_byte_list(full) is None,
{
    lemma_trimmed_prefix(ps, i);
    assert(full.take(k) =~= trimmed_nonempty(ps.take(i)));
    lemma_byte_list_prefix_none(full, k);
}

// ───────────────────────────── UTF-16LE hex ─────────────────────────────

/// The two-digit hex text of each byte.
pub open spec fn hex_pairs(bs: Seq<u8>) -> Seq<Seq<char>> {
    Seq::new(bs.len(), |i: int| hex_fixed(bs[i] as nat, 2))
}

/// The text that a UTF-16LE hex byte list encodes.
pub open spec fn utf16le_text(hex: Seq<char>) -> Option<Seq<char>> {
    match hex_bytes(hex) {
        Some(bs) => if bs.len() % 2 != 0 {
            None
        } else {
            decode_utf16(le_units(bs))
        },
        None => None,
    }
}

/// `s` as a comma-separated list of its UTF-16LE bytes in hex.
pub open spec fn utf16le_hex(s: Seq<char>) -> Seq<char> {
    join(hex_pairs(le_bytes(encode_utf16(s))), seq![','])
}

/// Decode a hex string like `"68,00,65,00,6c,00,6c,00,6f,00,00,00"` as UTF-16LE.
pub fn decode_utf16le_hex(hex: &str) -> (r: Result<String, String>)
    ensures
        match utf16le_text(hex@) {
            Some(s) => r matches Ok(t) && t@ == s,
            None => r is Err,
        },
{
    let bytes = parse_hex_bytes(hex)?;
    if bytes.len() % 2 != 0 {
        let mut m = String::from_str("UTF-16LE hex byte count must be even, got ");
        m.append(string_of(&decimal_digits(bytes.len() as u64)).as_str());
        return Err(m);
    }
    let units = le_units_of(&bytes);
    match decode_utf16_units(&units) {
        Some(cs) => Ok(string_of(&cs)),
        None => Err(String::from_str("invalid UTF-16LE sequence")),
    }
}

fn hex_pairs_of(bs: &Vec<u8>) -> (r: Vec<Vec<char>>)
    ensures
        views(r@) == hex_pairs(bs@),
{
    let mut r: Vec<Vec<char>> = Vec::new();
    let n = bs.len();
    for i in 0..n
        invariant
            n == bs@.len(),
            views(r@) == hex_pairs(bs@).take(i as int),
    {
        let h = hex_digits(bs[i] as u64, 2);
        let ghost before = r@;
        r.push(h);
        assert(views(r@) =~= views(before).push(h@));
        assert(views(r@) =~= hex_pairs(bs@).take(i + 1));
    }
    assert(hex_pairs(bs@).take(n as int) =~= hex_pairs(bs@));
    r
}

fn comma() -> (r: Vec<char>)
    ensures
        r@ == seq![','],
{
    let mut r = Vec::new();
    r.push(',');
    assert(r@ =~= seq![',']);
    r
}

fn encode_utf16le_hex_chars(s: &Vec<char>) -> (r: Vec<char>)
    ensures
        r@ == utf16le_hex(s@),
{
    let units = encode_utf16_chars(s);
    let bytes = le_bytes_of(&units);
    let pairs = hex_pairs_of(&bytes);
    join_chars(&pairs, &comma())
}

/// Encode a string as a UTF-16LE comma-separated hex byte string.
pub fn encode_utf16le_hex(s: &str) -> (r: String)
    ensures
        r@ == utf16le_hex(s@),
{
    let cs = chars_of(s);
    string_of(&encode_utf16le_hex_chars(&cs))
}

// ───────────────────────────── folding ─────────────────────────────

/// How many bytes a folded hex line holds.
pub open spec fn bytes_per_line() -> nat {
    25
}

/// What separates two folded hex lines: a comma, a continuation backslash,
/// a line break and an indent.
pub open spec fn fold_break() -> Seq<char> {
    seq![',', '\\', '\r', '\n', ' ', ' ']
}

/// A hex byte list folded into lines of at most 25 bytes.
pub open spec fn folded(hex: Seq<char>) -> Seq<char> {
    if hex.len() == 0 {
        Seq::empty()
    } else {
        let lines = chunks(split(hex, ','), bytes_per_line()).map_values(
            |c: Seq<Seq<char>>| join(c, seq![',']),
        );
        if lines.len() == 1 {
            lines[0]
        } else {
            join(lines, fold_break())
        }
    }
}

fn fold_hex_chars(hex: &Vec<char>) -> (r: Vec<char>)
    ensures
        r@ == folded(hex@),
{
    if hex.len() == 0 {
        return Vec::new();
    }
    let parts = split_on(hex, ',');
    let ghost ps = views(parts@);
    let ghost cs = chunks(ps, bytes_per_line());
    let ghost lines_spec = cs.map_values(|c: Seq<Seq<char>>| join(c, seq![',']));
    let mut lines: Vec<Vec<char>> = Vec::new();
    let n = parts.len();
    let mut start: usize = 0;
    let sep = comma();
    assert(ps.skip(0) =~= ps);
    while start < n
        invariant
            n == parts@.len(),
            ps == views(parts@),
            start <= n,
            sep@ == seq![','],
            views(lines@) + chunks(ps.skip(start as int), bytes_per_line()).map_values(
                |c: Seq<Seq<char>>| join(c, seq![',']),
            ) == lines_spec,
            lines_spec == chunks(ps, bytes_per_line()).map_values(
                |c: Seq<Seq<char>>| join(c, seq![',']),
            ),
        decreases n - start,
    {
        let ghost rest = ps.skip(start as int);
        let end = if n - start <= 25 { n } else { start + 25 };
        let chunk = pieces(&parts, start, end);
        let line = join_chars(&chunk, &sep);
        proof {
            if rest.len() <= 25 {
                assert(chunks(rest, bytes_per_line()) == seq![rest]);
                assert(views(chunk@) =~= rest);
            } else {
                assert(chunks(rest, bytes_per_line()) == seq![rest.take(25)] + chunks(
                    rest.skip(25),
                    bytes_per_line(),
                ));
                assert(views(chunk@) =~= rest.take(25));
                assert(rest.skip(25) =~= ps.skip(end as int));
            }
        }
        let ghost before = lines@;
        lines.push(line);
        assert(views(lines@) =~= views(before).push(line@));
        proof {
            if rest.len() <= 25 {
                assert(ps.skip(end as int) =~= Seq::<Seq<char>>::empty());
                assert(chunks(ps.skip(end as int), bytes_per_line()) =~= Seq::<Seq<Seq<char>>>::empty());
            }
            let f = |c: Seq<Seq<char>>| join(c, seq![',']);
            assert(chunks(rest, bytes_per_line()).map_values(f) =~= seq![line@] + chunks(
                ps.skip(end as int),
                bytes_per_line(),
            ).map_values(f));
            assert(views(lines@) + chunks(ps.skip(end as int), bytes_per_line()).map_values(f)
                =~= views(before) + chunks(rest, bytes_per_line()).map_values(f));
        }
        start = end;
    }
    assert(ps.skip(n as int) =~= Seq::<Seq<char>>::empty());
    assert(views(lines@) =~= lines_spec);
    if lines.len() == 1 {
        let only = slice_of(&lines[0], 0, lines[0].len());
        assert(only@ =~= lines@[0]@);
        return only;
    }
    let mut brk: Vec<char> = Vec::new();
    brk.push(',');
    brk.push('\\');
    brk.push('\r');
    brk.push('\n');
    brk.push(' ');
    brk.push(' ');
    assert(brk@ =~= fold_break());
    join_chars(&lines, &brk)
}

/// Fold a long hex string to lines of at most 25 bytes (regedit style); lines
/// beyond the first are indented with two spaces.
pub fn fold_hex(hex: &str) -> (r: String)
    ensures
        r@ == folded(hex@),
{
    let cs = chars_of(hex);
    string_of(&fold_hex_chars(&cs))
}


// ───────────────────────────── reading data ─────────────────────────────

/// How far a parse got: a result, a refusal of the input, or the failure of
/// the precondition of unquoting (data written `str(N):` not followed by a
/// quote), where the reading stops with a panic.
pub enum Outcome<A> {
    Done(A),
    Failed,
    Aborted,
}

/// The executable counterpart of [`Outcome`], with a message on refusal.
pub enum Step<T> {
    Done(T),
    Failed(String),
    Aborted,
}

/// A typed registry entry: `{"type": tag, "value": v}`.
pub open spec fn entry(tag: Seq<char>, v: JValue) -> JValue {
    JValue::Object(seq![("type"@, JValue::Str(tag)), ("value"@, v)])
}

/// The non-empty pieces, as strings.
pub open spec fn multi_items(pieces: Seq<Seq<char>>) -> Seq<JValue>
    decreases pieces.len(),
{
    if pieces.len() == 0 {
        Seq::empty()
    } else {
        let r = multi_items(pieces.drop_last());
        if pieces.last().len() > 0 {
            r.push(JValue::Str(pieces.last()))
        } else {
            r
        }
    }
}

/// `s` without one trailing NUL: the terminator of a decoded `REG_EXPAND_SZ`.
pub open spec fn without_terminator(s: Seq<char>) -> Seq<char> {
    if s.len() > 0 && s[s.len() - 1] == '\0' {
        s.take(s.len() - 1)
    } else {
        s
    }
}

/// `s` with each escaped NUL (a backslash followed by `0`, as Wine writes the
/// separators of a multi-string in `str(7):"…"`) turned into a NUL, read from
/// left to right.
pub open spec fn nul_escapes(s: Seq<char>) -> Seq<char>
    decreases s.len(),
{
    if s.len() == 0 {
        s
    } else if s.len() >= 2 && s[0] == '\\' && s[1] == '0' {
        seq!['\0'] + nul_escapes(s.skip(2))
    } else {
        seq![s[0]] + nul_escapes(s.drop_first())
    }
}

/// The entry a `str(N):"…"` value gives.
pub open spec fn str_entry(n: nat, s: Seq<char>) -> JValue {
    if n == 7 {
        entry("multi_sz"@, JValue::Array(multi_items(split(nul_escapes(s), '\0'))))
    } else if n == 2 {
        entry("expand_sz"@, JValue::Str(s))
    } else {
        entry("sz"@, JValue::Str(s))
    }
}

/// The entry that the data part of a value assignment denotes.
pub open spec fn data_entry(data: Seq<char>) -> Outcome<JValue> {
    let d = trim(data);
    if d.len() > 0 && d[0] == '"' {
        match unquote(d.drop_first()) {
            Some((s, _)) => Outcome::Done(entry("sz"@, JValue::Str(s))),
            None => Outcome::Failed,
        }
    } else if "dword:"@.is_prefix_of(d) {
        match parse_unsigned(trim(d.skip("dword:"@.len() as int)), 16, 0xffff_ffff) {
            Some(n) => Outcome::Done(entry("dword"@, JValue::Number(JNumber::PosInt(n as u64)))),
            None => Outcome::Failed,
        }
    } else if "qword:"@.is_prefix_of(d) {
        Outcome::Done(entry("qword"@, JValue::Str(trim(d.skip("qword:"@.len() as int)))))
    } else if "hex(b):"@.is_prefix_of(d) {
        Outcome::Done(entry("qword"@, JValue::Str(trim(d.skip("hex(b):"@.len() as int)))))
    } else if "hex(2):"@.is_prefix_of(d) {
        match utf16le_text(trim(d.skip("hex(2):"@.len() as int))) {
            Some(s) => Outcome::Done(entry("expand_sz"@, JValue::Str(without_terminator(s)))),
            None => Outcome::Failed,
        }
    } else if "hex(7):"@.is_prefix_of(d) {
        match utf16le_text(trim(d.skip("hex(7):"@.len() as int))) {
            Some(s) => Outcome::Done(entry("multi_sz"@, JValue::Array(multi_items(split(s, '\0'))))),
            None => Outcome::Failed,
        }
    } else if "hex"@.is_prefix_of(d) {
        match find_char(d, ':') {
            Some(c) => Outcome::Done(entry(d.take(c), JValue::Str(trim(d.skip(c + 1))))),
            None => Outcome::Failed,
        }
    } else if "str("@.is_prefix_of(d) {
        let rest = d.skip("str("@.len() as int);
        match find_seq(rest, "):"@) {
            Some(close) => match parse_unsigned(rest.take(close), 10, 0xffff_ffff) {
                Some(n) => {
                    let q = rest.skip(close + "):"@.len());
                    if !(q.len() > 0 && q[0] == '"') {
                        Outcome::Aborted
                    } else {
                        match unquote(q.drop_first()) {
                            Some((s, _)) => Outcome::Done(str_entry(n, s)),
                            None => Outcome::Failed,
                        }
                    }
                },
                None => Outcome::Failed,
            },
            None => Outcome::Failed,
        }
    } else {
        Outcome::Failed
    }
}

fn text(s: &str) -> (r: String)
    ensures
        r@ == s@,
{
    String::from_str(s)
}

/// The typed entry `{"type": tag, "value": v}`.
fn make_entry(tag: String, v: Value) -> (r: Value)
    ensures
        r.view() == entry(tag@, v.view()),
{
    let ghost tv = tag@;
    let ghost vv = v.view();
    let mut entries: Vec<(String, Value)> = Vec::new();
    entries.push((text("type"), Value::String(tag)));
    entries.push((text("value"), v));
    let m = Object { entries };
    proof {
        m.lemma_view();
    }
    assert(m.view() =~= seq![("type"@, JValue::Str(tv)), ("value"@, vv)]);
    Value::Object(m)
}

fn multi_values(s: &Vec<char>) -> (r: Vec<Value>)
    ensures
        crate::value::values_view(r@) == multi_items(split(s@, '\0')),
{
    let parts = split_on(s, '\0');
    let ghost ps = views(parts@);
    let mut r: Vec<Value> = Vec::new();
    let n = parts.len();
    for i in 0..n
        invariant
            n == parts@.len(),
            ps == views(parts@),
            ps == split(s@, '\0'),
            crate::value::values_view(r@) == multi_items(ps.take(i as int)),
    {
        assert(ps.take(i + 1).drop_last() =~= ps.take(i as int));
        assert(ps.take(i + 1).last() == parts@[i as int]@);
        if parts[i].len() > 0 {
            let item = Value::String(string_of(&parts[i]));
            proof {
                crate::value::lemma_values_view_push(r@, item);
            }
            r.push(item);
        }
    }
    assert(ps.take(n as int) =~= ps);
    r
}

fn multi_entry(s: &Vec<char>) -> (r: Value)
    ensures
        r.view() == entry("multi_sz"@, JValue::Array(multi_items(split(s@, '\0')))),
{
    let items = multi_values(s);
    proof {
        crate::value::lemma_array_view(items);
    }
    make_entry(text("multi_sz"), Value::Array(items))
}

/// `s` without one trailing NUL.
fn drop_terminator(s: String) -> (r: String)
    ensures
        r@ == without_terminator(s@),
{
    let cs = chars_of(s.as_str());
    let n = cs.len();
    if n > 0 && cs[n - 1] == '\0' {
        let t = slice_of(&cs, 0, n - 1);
        assert(t@ =~= s@.take(n - 1));
        string_of(&t)
    } else {
        s
    }
}

/// `s` with each escaped NUL (backslash, `0`) turned into a NUL.
fn unescape_nuls(s: &Vec<char>) -> (r: Vec<char>)
    ensures
        r@ == nul_escapes(s@),
{
    let mut out: Vec<char> = Vec::new();
    let n = s.len();
    let mut i: usize = 0;
    assert(s@.skip(0) =~= s@);
    while i < n
        invariant
            n == s@.len(),
            i <= n,
            out@ + nul_escapes(s@.skip(i as int)) == nul_escapes(s@),
        decreases n - i,
    {
        let ghost rest = s@.skip(i as int);
        if i + 1 < n && s[i] == '\\' && s[i + 1] == '0' {
            assert(rest[0] == s@[i as int] && rest[1] == s@[i + 1]);
            assert(rest.skip(2) =~= s@.skip(i + 2));
            let ghost before = out@;
            out.push('\0');
            assert(out@ + nul_escapes(s@.skip(i + 2)) =~= before + nul_escapes(rest));
            i = i + 2;
        } else {
            assert(rest[0] == s@[i as int]);
            if i + 1 < n {
                assert(rest[1] == s@[i + 1]);
            }
            assert(rest.drop_first() =~= s@.skip(i + 1));
            let ghost before = out@;
            out.push(s[i]);
            assert(out@ + nul_escapes(s@.skip(i + 1)) =~= before + nul_escapes(rest));
            i = i + 1;
        }
    }
    assert(s@.skip(n as int) =~= Seq::<char>::empty());
    assert(out@ + Seq::<char>::empty() =~= out@);
    out
}

/// Parse the data portion of a value assignment (everything after `=`).
pub fn parse_data(data: &str) -> (r: Step<Value>)
    ensures
        match data_entry(data@) {
            Outcome::Done(v) => r matches Step::Done(x) && x.view() == v,
            Outcome::Failed => r is Failed,
            Outcome::Aborted => r is Aborted,
        },
{
    let raw = chars_of(data);
    let d = trim_chars(&raw);
    let n = d.len();
    if n > 0 && d[0] == '"' {
        assert(d@.drop_first() =~= d@.subrange(1, n as int));
        return match unquote_range(&d, 1, n) {
            Some((s, _)) => Step::Done(make_entry(text("sz"), Value::String(string_of(&s)))),
            None => Step::Failed(unterminated_message()),
        };
    }
    if starts_with_str(&d, "dword:") {
        let k = chars_of("dword:").len();
        let h = trim_chars(&slice_of(&d, k, n));
        assert(d@.skip(k as int) =~= d@.subrange(k as int, n as int));
        return match parse_unsigned_chars(&h, 16, 0xffff_ffff) {
            Some(v) => Step::Done(make_entry(text("dword"), Value::Number(Number::PosInt(v as u64)))),
            None => Step::Failed(concat3("invalid dword value: '", string_of(&h).as_str(), "'")),
        };
    }
    if starts_with_str(&d, "qword:") {
        let k = chars_of("qword:").len();
        let h = trim_chars(&slice_of(&d, k, n));
        assert(d@.skip(k as int) =~= d@.subrange(k as int, n as int));
        return Step::Done(make_entry(text("qword"), Value::String(string_of(&h))));
    }
    if starts_with_str(&d, "hex(b):") {
        let k = chars_of("hex(b):").len();
        let h = trim_chars(&slice_of(&d, k, n));
        assert(d@.skip(k as int) =~= d@.subrange(k as int, n as int));
        return Step::Done(make_entry(text("qword"), Value::String(string_of(&h))));
    }
    if starts_with_str(&d, "hex(2):") {
        let k = chars_of("hex(2):").len();
        let h = trim_chars(&slice_of(&d, k, n));
        assert(d@.skip(k as int) =~= d@.subrange(k as int, n as int));
        return match decode_utf16le_hex(string_of(&h).as_str()) {
            Ok(s) => Step::Done(make_entry(text("expand_sz"), Value::String(drop_terminator(s)))),
            Err(e) => Step::Failed(concat2("decoding REG_EXPAND_SZ (hex(2)): ", e.as_str())),
        };
    }
    if starts_with_str(&d, "hex(7):") {
        let k = chars_of("hex(7):").len();
        let h = trim_chars(&slice_of(&d, k, n));
        assert(d@.skip(k as int) =~= d@.subrange(k as int, n as int));
        return match decode_utf16le_hex(string_of(&h).as_str()) {
            Ok(s) => {
                let sc = chars_of(s.as_str());
                Step::Done(multi_entry(&sc))
            },
            Err(e) => Step::Failed(concat2("decoding REG_MULTI_SZ (hex(7)): ", e.as_str())),
        };
    }
    if starts_with_str(&d, "hex") {
        return match find_char_in(&d, ':') {
            Some(c) => {
                proof {
                    crate::text::lemma_find_char(d@, ':');
                }
                let tag = slice_of(&d, 0, c);
                let h = trim_chars(&slice_of(&d, c + 1, n));
                assert(d@.take(c as int) =~= d@.subrange(0, c as int));
                assert(d@.skip(c + 1) =~= d@.subrange(c + 1, n as int));
                Step::Done(make_entry(string_of(&tag), Value::String(string_of(&h))))
            },
            None => Step::Failed(text("expected ':' after hex type")),
        };
    }
    if starts_with_str(&d, "str(") {
        let k = chars_of("str(").len();
        let rest = slice_of(&d, k, n);
        assert(d@.skip(k as int) =~= rest@);
        let close_lit = chars_of("):");
        match find_seq_in(&rest, &close_lit) {
            Some(close) => {
                proof {
                    crate::text::lemma_find_seq(rest@, close_lit@);
                }
                let num = slice_of(&rest, 0, close);
                assert(rest@.take(close as int) =~= num@);
                match parse_unsigned_chars(&num, 10, 0xffff_ffff) {
                    Some(v) => {
                        let q0 = close + close_lit.len();
                        assert(close_lit@.is_prefix_of(rest@.skip(close as int)));
                        let q = slice_of(&rest, q0, rest.len());
                        assert(rest@.skip(q0 as int) =~= q@);
                        if !(q.len() > 0 && q[0] == '"') {
                            return Step::Aborted;
                        }
                        let m = q.len();
                        assert(q@.drop_first() =~= q@.subrange(1, m as int));
                        return match unquote_range(&q, 1, m) {
                            Some((sv, _)) => {
                                if v == 7 {
                                    Step::Done(multi_entry(&unescape_nuls(&sv)))
                                } else if v == 2 {
                                    Step::Done(make_entry(text("expand_sz"), Value::String(string_of(&sv))))
                                } else {
                                    Step::Done(make_entry(text("sz"), Value::String(string_of(&sv))))
                                }
                            },
                            None => Step::Failed(text("malformed str(N) value")),
                        };
                    },
                    None => {
                        return Step::Failed(text("invalid str(N) type"));
                    },
                }
            },
            None => {},
        }
    }
    Step::Failed(concat3("unrecognised data format: '", string_of(&d).as_str(), "'"))
}


// ───────────────────────────── reading lines ─────────────────────────────

/// The state of reading a `.reg` file line by line: the keys read so far,
/// the key whose values are being read, and the logical line being joined.
pub struct RegState {
    pub root: Seq<(Seq<char>, JValue)>,
    pub cur: Option<Seq<char>>,
    pub logical: Seq<char>,
}

/// The entries `es` of a key after reading one (joined, trimmed) value line.
pub open spec fn value_line(line: Seq<char>, es: Seq<(Seq<char>, JValue)>) -> Outcome<
    Seq<(Seq<char>, JValue)>,
> {
    if line.len() > 0 && line[0] == '-' {
        match value_name(line.drop_first()) {
            Some(name) => Outcome::Done(obj_insert(es, name, JValue::Null)),
            None => Outcome::Failed,
        }
    } else {
        match name_and_data(line) {
            Some((name, data)) => match data_entry(data) {
                Outcome::Done(v) => Outcome::Done(obj_insert(es, name, v)),
                Outcome::Failed => Outcome::Failed,
                Outcome::Aborted => Outcome::Aborted,
            },
            None => Outcome::Failed,
        }
    }
}

/// The state after the pending logical line is read into the current key
/// (a line before any key is dropped).
pub open spec fn flush(st: RegState) -> Outcome<RegState> {
    let t = trim(st.logical);
    let st0 = RegState { root: st.root, cur: st.cur, logical: Seq::empty() };
    if t.len() == 0 {
        Outcome::Done(st0)
    } else {
        match st.cur {
            None => Outcome::Done(st0),
            Some(k) => {
                let root1 = obj_entry_or_insert(st.root, k, JValue::Object(Seq::empty()));
                match obj_get(root1, k) {
                    Some(JValue::Object(es)) => match value_line(t, es) {
                        Outcome::Done(es2) => Outcome::Done(
                            RegState {
                                root: obj_insert(root1, k, JValue::Object(es2)),
                                cur: st.cur,
                                logical: Seq::empty(),
                            },
                        ),
                        Outcome::Failed => Outcome::Failed,
                        Outcome::Aborted => Outcome::Aborted,
                    },
                    _ => Outcome::Failed,
                }
            },
        }
    }
}

/// The state after reading one raw line: comments and blank lines end the
/// pending logical line, a pending line ending in `\` is continued, a
/// `[KEY]` header starts a key (`[-KEY]` deletes it), anything else starts
/// a new logical line.
#[verifier::opaque]
pub open spec fn line_step(st: RegState, raw: Seq<char>) -> Outcome<RegState> {
    let line = trim_end(raw);
    let ts = trim_start(line);
    if ts.len() > 0 && (ts[0] == ';' || ts[0] == '#') {
        flush(st)
    } else if trim(line).len() == 0 {
        flush(st)
    } else if st.logical.len() > 0 && st.logical.last() == '\\' {
        Outcome::Done(RegState { root: st.root, cur: st.cur, logical: st.logical.drop_last() + ts })
    } else {
        match flush(st) {
            Outcome::Done(s1) => {
                let t = trim(line);
                if t[0] == '[' {
                    match find_char(t, ']') {
                        Some(close) => {
                            let inner = t.subrange(1, close);
                            if inner.len() > 0 && inner[0] == '-' {
                                Outcome::Done(
                                    RegState {
                                        root: obj_insert(s1.root, inner.drop_first(), JValue::Null),
                                        cur: None,
                                        logical: s1.logical,
                                    },
                                )
                            } else {
                                Outcome::Done(
                                    RegState {
                                        root: obj_entry_or_insert(
                                            s1.root,
                                            inner,
                                            JValue::Object(Seq::empty()),
                                        ),
                                        cur: Some(inner),
                                        logical: s1.logical,
                                    },
                                )
                            }
                        },
                        None => Outcome::Failed,
                    }
                } else {
                    Outcome::Done(RegState { root: s1.root, cur: s1.cur, logical: s1.logical + t })
                }
            },
            other => other,
        }
    }
}

/// The state after reading `ls` in order from `st`.
pub open spec fn read_lines(st: RegState, ls: Seq<Seq<char>>) -> Outcome<RegState>
    decreases ls.len(),
{
    if ls.len() == 0 {
        Outcome::Done(st)
    } else {
        match line_step(st, ls[0]) {
            Outcome::Done(s1) => read_lines(s1, ls.drop_first()),
            other => other,
        }
    }
}

/// Index of the first line that is not blank.
pub open spec fn first_content_line(ls: Seq<Seq<char>>) -> Option<int>
    decreases ls.len(),
{
    if ls.len() == 0 {
        None
    } else if trim(ls[0]).len() > 0 {
        Some(0)
    } else {
        match first_content_line(ls.drop_first()) {
            Some(i) => Some(i + 1),
            None => None,
        }
    }
}

/// The headers a `.reg` file may start with.
pub open spec fn known_header(h: Seq<char>) -> bool {
    h == "Windows Registry Editor Version 5.00"@ || h == "REGEDIT4"@ || h
        == "WINE REGISTRY Version 2"@
}

/// What reading `input` as a `.reg` file gives: its keys, and its header
/// line under `__header__` (which a key of that name gives way to).
pub open spec fn reg_parse(input: Seq<char>) -> Outcome<JValue> {
    let ls = lines(without_bom(input));
    match first_content_line(ls) {
        None => Outcome::Failed,
        Some(h) => if !known_header(trim(ls[h])) {
            Outcome::Failed
        } else {
            match read_lines(
                RegState { root: Seq::empty(), cur: None, logical: Seq::empty() },
                ls.skip(h + 1),
            ) {
                Outcome::Done(st) => match flush(st) {
                    Outcome::Done(st2) => Outcome::Done(
                        JValue::Object(obj_insert(st2.root, "__header__"@, JValue::Str(trim(ls[h])))),
                    ),
                    Outcome::Failed => Outcome::Failed,
                    Outcome::Aborted => Outcome::Aborted,
                },
                Outcome::Failed => Outcome::Failed,
                Outcome::Aborted => Outcome::Aborted,
            }
        },
    }
}

/// The reading state.
struct Reader {
    root: Object,
    cur: Option<String>,
    logical: Vec<char>,
}

impl Reader {
    spec fn view(&self) -> RegState {
        RegState {
            root: self.root.view(),
            cur: match self.cur {
                Some(k) => Some(k@),
                None => None,
            },
            logical: self.logical@,
        }
    }
}

/// Reads one joined value line into the entries `es`.
fn read_value_line(line: &Vec<char>, es: Object) -> (r: Step<Object>)
    ensures
        match value_line(line@, es.view()) {
            Outcome::Done(es2) => r matches Step::Done(o) && o.view() == es2,
            Outcome::Failed => r is Failed,
            Outcome::Aborted => r is Aborted,
        },
{
    let mut es = es;
    let n = line.len();
    if n > 0 && line[0] == '-' {
        let rest = string_of(&slice_of(line, 1, n));
        assert(line@.drop_first() =~= line@.subrange(1, n as int));
        return match parse_value_name(rest.as_str()) {
            Ok(name) => {
                es.insert(name, Value::Null);
                Step::Done(es)
            },
            Err(e) => Step::Failed(concat2("malformed value deletion: ", e.as_str())),
        };
    }
    let ls = string_of(line);
    match split_name_data(ls.as_str()) {
        Ok((name, data)) => match parse_data(data) {
            Step::Done(v) => {
                es.insert(name, v);
                Step::Done(es)
            },
            Step::Failed(e) => Step::Failed(concat3("malformed data for value: '", data, "'")),
            Step::Aborted => Step::Aborted,
        },
        Err(e) => Step::Failed(concat2("malformed value line: ", e.as_str())),
    }
}

/// Reads the pending logical line into the current key.
fn flush_reader(rd: &mut Reader) -> (r: Step<()>)
    ensures
        match flush(old(rd).view()) {
            Outcome::Done(st) => r is Done && final(rd).view() == st,
            Outcome::Failed => r is Failed,
            Outcome::Aborted => r is Aborted,
        },
{
    let t = trim_chars(&rd.logical);
    rd.logical = Vec::new();
    if t.len() == 0 {
        return Step::Done(());
    }
    let key = match &rd.cur {
        None => {
            return Step::Done(());
        },
        Some(k) => k.clone(),
    };
    let ghost root0 = rd.root.view();
    if rd.root.find(key.as_str()).is_none() {
        rd.root.insert(key.clone(), Value::Object(Object::new()));
    }
    let ghost root1 = rd.root.view();
    assert(root1 == obj_entry_or_insert(root0, key@, JValue::Object(Seq::empty()))) by {
        lemma_obj_index(root0, key@);
    }
    let idx = match rd.root.find(key.as_str()) {
        Some(i) => i,
        None => {
            proof {
                lemma_obj_index(root0, key@);
                lemma_obj_index(root1, key@);
                crate::value::lemma_obj_lower(root0, key@);
                let p = crate::value::obj_lower(root0, key@);
                assert(root1[p].0 == key@);
            }
            return Step::Failed(text("section must be an object"));
        },
    };
    proof {
        rd.root.lemma_view();
        lemma_obj_index(root1, key@);
    }
    let (k, section) = rd.root.entries.remove(idx);
    match section {
        Value::Object(es) => {
            match read_value_line(&t, es) {
                Step::Done(es2) => {
                    let ghost es2v = es2.view();
                    rd.root.entries.insert(idx, (k, Value::Object(es2)));
                    proof {
                        rd.root.lemma_view();
                    }
                    assert(rd.root.view() =~= root1.update(idx as int, (key@, JValue::Object(es2v))));
                    Step::Done(())
                },
                Step::Failed(e) => Step::Failed(e),
                Step::Aborted => Step::Aborted,
            }
        },
        _ => Step::Failed(text("section must be an object")),
    }
}


/// Reads one raw line.
fn read_line(rd: &mut Reader, raw: &Vec<char>) -> (r: Step<()>)
    ensures
        match line_step(old(rd).view(), raw@) {
            Outcome::Done(st) => r is Done && final(rd).view() == st,
            Outcome::Failed => r is Failed,
            Outcome::Aborted => r is Aborted,
        },
{
    proof {
        reveal(line_step);
    }
    let line = trim_end_chars(raw);
    let ts = trim_start_chars(&line);
    if ts.len() > 0 && (ts[0] == ';' || ts[0] == '#') {
        return flush_reader(rd);
    }
    let t = trim_chars(&line);
    if t.len() == 0 {
        return flush_reader(rd);
    }
    let ln = rd.logical.len();
    if ln > 0 && rd.logical[ln - 1] == '\\' {
        let ghost before = rd.logical@;
        rd.logical.pop();
        extend_chars(&mut rd.logical, &ts);
        assert(before.drop_last() =~= before.subrange(0, ln - 1));
        return Step::Done(());
    }
    match flush_reader(rd) {
        Step::Done(()) => {},
        Step::Failed(e) => {
            return Step::Failed(e);
        },
        Step::Aborted => {
            return Step::Aborted;
        },
    }
    if t[0] == '[' {
        match find_char_in(&t, ']') {
            Some(close) => {
                proof {
                    crate::text::lemma_find_char(t@, ']');
                }
                let inner = slice_of(&t, 1, close);
                if inner.len() > 0 && inner[0] == '-' {
                    let key = slice_of(&inner, 1, inner.len());
                    assert(inner@.drop_first() =~= key@);
                    rd.root.insert(string_of(&key), Value::Null);
                    rd.cur = None;
                } else {
                    let key = string_of(&inner);
                    if rd.root.find(key.as_str()).is_none() {
                        rd.root.insert(key.clone(), Value::Object(Object::new()));
                    }
                    proof {
                        lemma_obj_index(old(rd).root.view(), key@);
                    }
                    rd.cur = Some(key);
                }
                Step::Done(())
            },
            None => Step::Failed(concat3("malformed section header: '", string_of(&t).as_str(), "'")),
        }
    } else {
        extend_chars(&mut rd.logical, &t);
        Step::Done(())
    }
}

/// The index of the first line that is not blank.
fn first_content(ls: &Vec<Vec<char>>) -> (r: Option<usize>)
    ensures
        match first_content_line(views(ls@)) {
            Some(i) => r == Some(i as usize),
            None => r is None,
        },
{
    let n = ls.len();
    let ghost vs = views(ls@);
    let mut i: usize = 0;
    assert(vs.skip(0) =~= vs);
    while i < n
        invariant
            i <= n,
            n == ls@.len(),
            vs == views(ls@),
            match first_content_line(vs.skip(i as int)) {
                Some(j) => first_content_line(vs) == Some(j + i),
                None => first_content_line(vs) is None,
            },
        decreases n - i,
    {
        let t = trim_chars(&ls[i]);
        assert(vs.skip(i as int)[0] == ls@[i as int]@);
        assert(vs.skip(i as int).drop_first() =~= vs.skip(i + 1));
        if t.len() > 0 {
            return Some(i);
        }
        i = i + 1;
    }
    None
}

/// Reads `input` as a `.reg` file; `Aborted` where reading would panic.
pub fn parse_outcome(input: &str) -> (r: Step<Value>)
    ensures
        match reg_parse(input@) {
            Outcome::Done(v) => r matches Step::Done(x) && x.view() == v,
            Outcome::Failed => r is Failed,
            Outcome::Aborted => r is Aborted,
        },
{
    let body = strip_bom(input);
    let cs = chars_of(body);
    let ls = lines_of(&cs);
    let ghost vs = views(ls@);
    let h = match first_content(&ls) {
        Some(h) => h,
        None => {
            return Step::Failed(text("empty .reg file"));
        },
    };
    proof {
        lemma_first_content(vs);
    }
    let header = trim_chars(&ls[h]);
    assert(header@ == trim(vs[h as int]));
    if !(eq_str(&header, "Windows Registry Editor Version 5.00") || eq_str(&header, "REGEDIT4")
        || eq_str(&header, "WINE REGISTRY Version 2")) {
        return Step::Failed(concat3("unrecognised .reg header: '", string_of(&header).as_str(), "'"));
    }
    let mut rd = Reader { root: Object::new(), cur: None, logical: Vec::new() };
    assert(rd.view() == RegState { root: Seq::empty(), cur: None, logical: Seq::empty() }) by {
        assert(rd.logical@ =~= Seq::<char>::empty());
    }
    let ghost init = rd.view();
    let n = ls.len();
    let mut i = h + 1;
    assert(vs.skip(h + 1).skip(0) =~= vs.skip(h + 1));
    while i < n
        invariant
            h + 1 <= i <= n,
            n == ls@.len(),
            vs == views(ls@),
            vs == lines(without_bom(input@)),
            first_content_line(vs) == Some(h as int),
            h < vs.len(),
            known_header(trim(vs[h as int])),
            init == (RegState { root: Seq::empty(), cur: None, logical: Seq::empty() }),
            read_lines(init, vs.skip(h + 1)) == read_lines(rd.view(), vs.skip(i as int)),
        decreases n - i,
    {
        assert(vs.skip(i as int)[0] == ls@[i as int]@);
        assert(vs.skip(i as int).drop_first() =~= vs.skip(i + 1));
        match read_line(&mut rd, &ls[i]) {
            Step::Done(()) => {},
            Step::Failed(e) => {
                return Step::Failed(e);
            },
            Step::Aborted => {
                return Step::Aborted;
            },
        }
        i = i + 1;
    }
    assert(vs.skip(n as int) =~= Seq::<Seq<char>>::empty());
    match flush_reader(&mut rd) {
        Step::Done(()) => {
            let mut root = rd.root;
            root.insert(text("__header__"), Value::String(string_of(&header)));
            Step::Done(Value::Object(root))
        },
        Step::Failed(e) => Step::Failed(e),
        Step::Aborted => Step::Aborted,
    }
}

proof fn lemma_first_content(vs: Seq<Seq<char>>)
    ensures
        first_content_line(vs) matches Some(h) ==> 0 <= h < vs.len(),
    decreases vs.len(),
{
    if vs.len() > 0 {
        lemma_first_content(vs.drop_first());
    }
}

/// Reads `input` as a `.reg` file.
pub fn parse(input: &str) -> (r: Result<Value, String>)
    requires
        !(reg_parse(input@) is Aborted),
    ensures
        match reg_parse(input@) {
            Outcome::Done(v) => r matches Ok(x) && x.view() == v,
            _ => r is Err,
        },
{
    match parse_outcome(input) {
        Step::Done(v) => Ok(v),
        Step::Failed(e) => Err(e),
        Step::Aborted => Err(text("malformed str(N) value")),
    }
}


// ───────────────────────────── writing ─────────────────────────────

/// The strings of `items` each followed by a NUL; `None` if one is not a string.
pub open spec fn nul_terminated(items: Seq<JValue>) -> Option<Seq<char>>
    decreases items.len(),
{
    if items.len() == 0 {
        Some(Seq::empty())
    } else {
        match (nul_terminated(items.drop_last()), items.last()) {
            (Some(c), JValue::Str(s)) => Some(c + s + seq!['\0']),
            _ => None,
        }
    }
}

/// The `k` low bytes of `n`, least significant first.
pub open spec fn low_bytes(n: nat, k: nat) -> Seq<u8>
    decreases k,
{
    if k == 0 {
        Seq::empty()
    } else {
        seq![(n % 256) as u8] + low_bytes(n / 256, (k - 1) as nat)
    }
}

/// How the value `val` of type `tag` is written after `=`.
pub open spec fn data_text(tag: Seq<char>, val: JValue) -> Option<Seq<char>> {
    if tag == "sz"@ {
        match val {
            JValue::Str(s) => Some(seq!['"'] + escaped(s) + seq!['"']),
            _ => None,
        }
    } else if tag == "expand_sz"@ {
        match val {
            JValue::Str(s) => Some("hex(2):"@ + folded(utf16le_hex(s))),
            _ => None,
        }
    } else if tag == "multi_sz"@ {
        match val {
            JValue::Array(items) => match nul_terminated(items) {
                Some(c) => Some("hex(7):"@ + folded(utf16le_hex(c + seq!['\0']))),
                None => None,
            },
            _ => None,
        }
    } else if tag == "dword"@ {
        match val {
            JValue::Number(JNumber::PosInt(n)) => if n <= 0xffff_ffff {
                Some("dword:"@ + hex_fixed(n as nat, 8))
            } else {
                None
            },
            _ => None,
        }
    } else if tag == "qword"@ {
        match val {
            JValue::Str(s) => Some("hex(b):"@ + folded(s)),
            JValue::Number(JNumber::PosInt(n)) => Some(
                "hex(b):"@ + folded(join(hex_pairs(low_bytes(n as nat, 8)), seq![','])),
            ),
            _ => None,
        }
    } else if tag == "hex"@ {
        match val {
            JValue::Str(s) => Some("hex:"@ + folded(s)),
            _ => None,
        }
    } else if "hex("@.is_prefix_of(tag) {
        match val {
            JValue::Str(s) => Some(tag + seq![':'] + folded(s)),
            _ => None,
        }
    } else {
        None
    }
}

/// The line written for the entry `name` (a deletion when it is `null`).
pub open spec fn entry_text(name: Seq<char>, e: JValue) -> Option<Seq<char>> {
    match e {
        JValue::Null => Some(seq!['-'] + quoted_name(name) + seq!['\r', '\n']),
        JValue::Object(es) => match obj_get(es, "type"@) {
            Some(JValue::Str(tag)) => match obj_get(es, "value"@) {
                Some(val) => match data_text(tag, val) {
                    Some(d) => Some(quoted_name(name) + seq!['='] + d + seq!['\r', '\n']),
                    None => None,
                },
                None => None,
            },
            _ => None,
        },
        _ => None,
    }
}

/// The lines written for the entries of a key.
pub open spec fn entries_text(props: Seq<(Seq<char>, JValue)>) -> Option<Seq<char>>
    decreases props.len(),
{
    if props.len() == 0 {
        Some(Seq::empty())
    } else {
        match (entries_text(props.drop_last()), entry_text(props.last().0, props.last().1)) {
            (Some(a), Some(b)) => Some(a + b),
            _ => None,
        }
    }
}

/// What is written for key `section` holding `sv` (a deletion when `null`).
pub open spec fn section_text(section: Seq<char>, sv: JValue) -> Option<Seq<char>> {
    match sv {
        JValue::Null => Some(seq!['\r', '\n', '[', '-'] + section + seq![']', '\r', '\n']),
        JValue::Object(props) => match entries_text(props) {
            Some(body) => Some(seq!['\r', '\n', '['] + section + seq![']', '\r', '\n'] + body),
            None => None,
        },
        _ => None,
    }
}

/// What is written for all keys.
pub open spec fn sections_text(root: Seq<(Seq<char>, JValue)>) -> Option<Seq<char>>
    decreases root.len(),
{
    if root.len() == 0 {
        Some(Seq::empty())
    } else if root.last().0 == "__header__"@ {
        sections_text(root.drop_last())
    } else {
        match (sections_text(root.drop_last()), section_text(root.last().0, root.last().1)) {
            (Some(a), Some(b)) => Some(a + b),
            _ => None,
        }
    }
}

/// The header line written for the document `root`: its `__header__` entry
/// when that is one of the known headers, else the one of version 5.
pub open spec fn doc_header(root: Seq<(Seq<char>, JValue)>) -> Seq<char> {
    match obj_get(root, "__header__"@) {
        Some(JValue::Str(h)) => if known_header(h) {
            h
        } else {
            "Windows Registry Editor Version 5.00"@
        },
        _ => "Windows Registry Editor Version 5.00"@,
    }
}

/// The `.reg` text of `v`: its header line, then its keys but `__header__`;
/// `None` when `v` is not an object of keys holding typed entries.
pub open spec fn reg_text(v: JValue) -> Option<Seq<char>> {
    match v {
        JValue::Object(root) => match sections_text(root) {
            Some(body) => {
                let out = doc_header(root) + seq!['\r', '\n'] + body;
                if seq!['\r', '\n'].is_suffix_of(out) {
                    Some(out)
                } else {
                    Some(out + seq!['\r', '\n'])
                }
            },
            None => None,
        },
        _ => None,
    }
}

fn low_bytes_of(n: u64) -> (r: Vec<u8>)
    ensures
        r@ == low_bytes(n as nat, 8),
{
    let mut r: Vec<u8> = Vec::new();
    let mut v = n;
    let mut k: usize = 0;
    while k < 8
        invariant
            k <= 8,
            r@ + low_bytes(v as nat, (8 - k) as nat) == low_bytes(n as nat, 8),
        decreases 8 - k,
    {
        let ghost before = r@;
        r.push((v % 256) as u8);
        assert(before + low_bytes(v as nat, (8 - k) as nat) =~= r@ + low_bytes(
            (v / 256) as nat,
            (8 - k - 1) as nat,
        ));
        v = v / 256;
        k = k + 1;
    }
    assert(low_bytes(v as nat, 0) =~= Seq::<u8>::empty());
    assert(r@ + Seq::<u8>::empty() =~= r@);
    r
}

fn crlf() -> (r: Vec<char>)
    ensures
        r@ == seq!['\r', '\n'],
{
    let mut r = Vec::new();
    r.push('\r');
    r.push('\n');
    assert(r@ =~= seq!['\r', '\n']);
    r
}

fn prefixed(prefix: &str, body: &Vec<char>) -> (r: Vec<char>)
    ensures
        r@ == prefix@ + body@,
{
    let mut r = chars_of(prefix);
    extend_chars(&mut r, body);
    r
}

/// Writes the value `val` of type `tag`.
fn serialize_data(tag: &str, val: &Value) -> (r: Result<Vec<char>, String>)
    ensures
        match data_text(tag@, val.view()) {
            Some(t) => r matches Ok(v) && v@ == t,
            None => r is Err,
        },
{
    let tc = chars_of(tag);
    if eq_str(&tc, "sz") {
        return match val {
            Value::String(s) => {
                let e = escape_reg_string(s.as_str());
                let mut out: Vec<char> = Vec::new();
                out.push('"');
                extend_str(&mut out, e.as_str());
                out.push('"');
                assert(out@ =~= seq!['"'] + escaped(s@) + seq!['"']);
                Ok(out)
            },
            _ => Err(text("sz value must be a string")),
        };
    }
    if eq_str(&tc, "expand_sz") {
        return match val {
            Value::String(s) => {
                let sc = chars_of(s.as_str());
                let h = encode_utf16le_hex_chars(&sc);
                Ok(prefixed("hex(2):", &fold_hex_chars(&h)))
            },
            _ => Err(text("expand_sz value must be a string")),
        };
    }
    if eq_str(&tc, "multi_sz") {
        return match val {
            Value::Array(items) => {
                let mut combined: Vec<char> = Vec::new();
                let n = items.len();
                proof {
                    crate::value::lemma_array_view(*items);
                }
                let ghost iv = crate::value::values_view(items@);
                assert(iv.take(0) =~= Seq::<JValue>::empty());
                for i in 0..n
                    invariant
                        n == items@.len(),
                        iv == crate::value::values_view(items@),
                        val.view() == JValue::Array(iv),
                        tag@ == "multi_sz"@,
                        tag@ != "sz"@,
                        tag@ != "expand_sz"@,
                        nul_terminated(iv.take(i as int)) == Some(combined@),
                {
                    assert(iv.take(i + 1).drop_last() =~= iv.take(i as int));
                    assert(iv.take(i + 1).last() == items@[i as int].view());
                    match &items[i] {
                        Value::String(s) => {
                            let ghost before = combined@;
                            extend_str(&mut combined, s.as_str());
                            combined.push('\0');
                            assert(combined@ =~= before + s@ + seq!['\0']);
                        },
                        _ => {
                            assert(!(items@[i as int].view() is Str));
                            assert(nul_terminated(iv.take(i + 1)) is None);
                            proof {
                                lemma_nul_prefix_none(iv, i + 1);
                            }
                            return Err(text("multi_sz items must be strings"));
                        },
                    }
                }
                assert(iv.take(n as int) =~= iv);
                let ghost c0 = combined@;
                combined.push('\0');
                assert(combined@ =~= c0 + seq!['\0']);
                let h = encode_utf16le_hex_chars(&combined);
                Ok(prefixed("hex(7):", &fold_hex_chars(&h)))
            },
            _ => Err(text("multi_sz value must be an array")),
        };
    }
    if eq_str(&tc, "dword") {
        return match val {
            Value::Number(Number::PosInt(n)) => {
                if *n > 0xffff_ffff {
                    Err(text("dword value is out of range"))
                } else {
                    Ok(prefixed("dword:", &hex_digits(*n, 8)))
                }
            },
            _ => Err(text("dword value must be an integer")),
        };
    }
    if eq_str(&tc, "qword") {
        return match val {
            Value::String(s) => {
                let sc = chars_of(s.as_str());
                Ok(prefixed("hex(b):", &fold_hex_chars(&sc)))
            },
            Value::Number(Number::PosInt(n)) => {
                let bytes = low_bytes_of(*n);
                let pairs = hex_pairs_of(&bytes);
                let h = join_chars(&pairs, &comma());
                Ok(prefixed("hex(b):", &fold_hex_chars(&h)))
            },
            Value::Number(_) => Err(text("qword value must fit in u64")),
            _ => Err(text("qword value must be a string or number")),
        };
    }
    if eq_str(&tc, "hex") {
        return match val {
            Value::String(s) => {
                let sc = chars_of(s.as_str());
                Ok(prefixed("hex:", &fold_hex_chars(&sc)))
            },
            _ => Err(text("hex value must be a string")),
        };
    }
    if starts_with_str(&tc, "hex(") {
        return match val {
            Value::String(s) => {
                let sc = chars_of(s.as_str());
                let mut out = slice_of(&tc, 0, tc.len());
                assert(out@ =~= tc@);
                out.push(':');
                let ghost o = out@;
                extend_chars(&mut out, &fold_hex_chars(&sc));
                assert(out@ =~= tag@ + seq![':'] + folded(s@));
                Ok(out)
            },
            _ => Err(concat2(tag, " value must be a string")),
        };
    }
    Err(concat3("unknown value type '", tag, "'"))
}

proof fn lemma_nul_prefix_none(iv: Seq<JValue>, k: int)
    requires
        0 <= k <= iv.len(),
        nul_terminated(iv.take(k)) is None,
    ensures
        nul_terminated(iv) is None,
    decreases iv.len() - k,
{
    if k < iv.len() {
        assert(iv.take(k + 1).drop_last() =~= iv.take(k));
        lemma_nul_prefix_none(iv, k + 1);
    } else {
        assert(iv.take(k) =~= iv);
    }
}


fn quoted_name_chars(name: &str) -> (r: Vec<char>)
    ensures
        r@ == quoted_name(name@),
{
    let q = quote_value_name(name);
    chars_of(q.as_str())
}

/// Writes the line for entry `name`.
fn write_entry(name: &String, e: &Value) -> (r: Result<Vec<char>, String>)
    ensures
        match entry_text(name@, e.view()) {
            Some(t) => r matches Ok(v) && v@ == t,
            None => r is Err,
        },
{
    match e {
        Value::Null => {
            let mut out: Vec<char> = Vec::new();
            out.push('-');
            extend_chars(&mut out, &quoted_name_chars(name.as_str()));
            extend_chars(&mut out, &crlf());
            assert(out@ =~= seq!['-'] + quoted_name(name@) + seq!['\r', '\n']);
            Ok(out)
        },
        Value::Object(es) => {
            let tag = match es.get("type") {
                Some(Value::String(t)) => t,
                _ => {
                    return Err(concat3("entry '", name.as_str(), "' missing 'type' field"));
                },
            };
            let val = match es.get("value") {
                Some(v) => v,
                None => {
                    return Err(concat3("entry '", name.as_str(), "' missing 'value' field"));
                },
            };
            let d = match serialize_data(tag.as_str(), val) {
                Ok(d) => d,
                Err(m) => {
                    return Err(concat3("serialising entry '", name.as_str(), "'"));
                },
            };
            let mut out = quoted_name_chars(name.as_str());
            out.push('=');
            extend_chars(&mut out, &d);
            extend_chars(&mut out, &crlf());
            assert(out@ =~= quoted_name(name@) + seq!['='] + d@ + seq!['\r', '\n']);
            Ok(out)
        },
        _ => Err(concat3("entry '", name.as_str(), "' must be an object {type, value} or null")),
    }
}

/// Writes key `section` and its entries.
fn write_section(section: &String, sv: &Value) -> (r: Result<Vec<char>, String>)
    ensures
        match section_text(section@, sv.view()) {
            Some(t) => r matches Ok(v) && v@ == t,
            None => r is Err,
        },
{
    match sv {
        Value::Null => {
            let mut out: Vec<char> = Vec::new();
            out.push('\r');
            out.push('\n');
            out.push('[');
            out.push('-');
            extend_str(&mut out, section.as_str());
            out.push(']');
            out.push('\r');
            out.push('\n');
            assert(out@ =~= seq!['\r', '\n', '[', '-'] + section@ + seq![']', '\r', '\n']);
            Ok(out)
        },
        Value::Object(props) => {
            let mut out: Vec<char> = Vec::new();
            out.push('\r');
            out.push('\n');
            out.push('[');
            extend_str(&mut out, section.as_str());
            out.push(']');
            out.push('\r');
            out.push('\n');
            let ghost head = out@;
            assert(head =~= seq!['\r', '\n', '['] + section@ + seq![']', '\r', '\n']);
            let ghost pv = props.view();
            proof {
                props.lemma_view();
            }
            let n = props.entries.len();
            assert(pv.take(0) =~= Seq::<(Seq<char>, JValue)>::empty());
            assert(head + Seq::<char>::empty() =~= head);
            for i in 0..n
                invariant
                    n == props.entries@.len(),
                    pv == props.view(),
                    pv.len() == n,
                    forall|j: int|
                        0 <= j < n ==> #[trigger] pv[j] == (
                            props.entries@[j].0@,
                            props.entries@[j].1.view(),
                        ),
                    sv.view() == JValue::Object(pv),
                    head == seq!['\r', '\n', '['] + section@ + seq![']', '\r', '\n'],
                    entries_text(pv.take(i as int)) matches Some(b) && out@ == head + b,
            {
                assert(pv.take(i + 1).drop_last() =~= pv.take(i as int));
                assert(pv.take(i + 1).last() == pv[i as int]);
                assert(pv[i as int] == (props.entries@[i as int].0@, props.entries@[i as int].1.view()));
                let line = write_entry(&props.entries[i].0, &props.entries[i].1);
                match line {
                    Ok(l) => {
                        let ghost before = out@;
                        extend_chars(&mut out, &l);
                        assert(out@ =~= head + (entries_text(pv.take(i as int))->0 + l@));
                    },
                    Err(m) => {
                        proof {
                            lemma_entries_prefix_none(pv, i + 1);
                        }
                        return Err(m);
                    },
                }
            }
            assert(pv.take(n as int) =~= pv);
            Ok(out)
        },
        _ => Err(concat3("REG section '", section.as_str(), "' must be an object or null")),
    }
}

proof fn lemma_entries_prefix_none(pv: Seq<(Seq<char>, JValue)>, k: int)
    requires
        0 <= k <= pv.len(),
        entries_text(pv.take(k)) is None,
    ensures
        entries_text(pv) is None,
    decreases pv.len() - k,
{
    if k < pv.len() {
        assert(pv.take(k + 1).drop_last() =~= pv.take(k));
        lemma_entries_prefix_none(pv, k + 1);
    } else {
        assert(pv.take(k) =~= pv);
    }
}

proof fn lemma_sections_prefix_none(pv: Seq<(Seq<char>, JValue)>, k: int)
    requires
        0 <= k <= pv.len(),
        sections_text(pv.take(k)) is None,
    ensures
        sections_text(pv) is None,
    decreases pv.len() - k,
{
    if k < pv.len() {
        assert(pv.take(k + 1).drop_last() =~= pv.take(k));
        lemma_sections_prefix_none(pv, k + 1);
    } else {
        assert(pv.take(k) =~= pv);
    }
}

/// The header line for the document `root`.
fn header_line(root: &Object) -> (r: Vec<char>)
    ensures
        r@ == doc_header(root.view()),
{
    let v5 = "Windows Registry Editor Version 5.00";
    match root.get("__header__") {
        Some(Value::String(h)) => {
            let hc = chars_of(h.as_str());
            if eq_str(&hc, "Windows Registry Editor Version 5.00") || eq_str(&hc, "REGEDIT4")
                || eq_str(&hc, "WINE REGISTRY Version 2") {
                hc
            } else {
                chars_of(v5)
            }
        },
        _ => chars_of(v5),
    }
}

/// Writes `value` as a `.reg` file: the header line it keeps under
/// `__header__` (version 5 by default), then its keys.
pub fn serialize(value: &Value) -> (r: Result<String, String>)
    ensures
        match reg_text(value.view()) {
            Some(t) => r matches Ok(s) && s@ == t,
            None => r is Err,
        },
{
    let root = match value {
        Value::Object(m) => m,
        _ => {
            return Err(text("REG root must be an object"));
        },
    };
    let mut out = header_line(root);
    out.push('\r');
    out.push('\n');
    let ghost head = out@;
    let ghost rv = root.view();
    proof {
        root.lemma_view();
    }
    let n = root.entries.len();
    assert(rv.take(0) =~= Seq::<(Seq<char>, JValue)>::empty());
    assert(head + Seq::<char>::empty() =~= head);
    for i in 0..n
        invariant
            n == root.entries@.len(),
            rv == root.view(),
            rv.len() == n,
            forall|j: int|
                0 <= j < n ==> #[trigger] rv[j] == (root.entries@[j].0@, root.entries@[j].1.view()),
            value.view() == JValue::Object(rv),
            head == doc_header(rv) + seq!['\r', '\n'],
            sections_text(rv.take(i as int)) matches Some(b) && out@ == head + b,
    {
        assert(rv.take(i + 1).drop_last() =~= rv.take(i as int));
        assert(rv.take(i + 1).last() == rv[i as int]);
        assert(rv[i as int] == (root.entries@[i as int].0@, root.entries@[i as int].1.view()));
        if !text_eq(root.entries[i].0.as_str(), "__header__") {
            match write_section(&root.entries[i].0, &root.entries[i].1) {
                Ok(sec) => {
                    extend_chars(&mut out, &sec);
                    assert(out@ =~= head + (sections_text(rv.take(i as int))->0 + sec@));
                },
                Err(m) => {
                    proof {
                        lemma_sections_prefix_none(rv, i + 1);
                    }
                    return Err(m);
                },
            }
        }
    }
    assert(rv.take(n as int) =~= rv);
    let end = crlf();
    let k = out.len();
    let ends = k >= 2 && out[k - 2] == '\r' && out[k - 1] == '\n';
    proof {
        if k >= 2 {
            assert(out@.subrange(k - 2, k as int) =~= seq![out@[k - 2], out@[k - 1]]);
        }
        if ends {
            assert(seq!['\r', '\n'] =~= out@.subrange(k - 2, k as int));
        } else if k >= 2 {
            if seq!['\r', '\n'].is_suffix_of(out@) {
                assert(out@.subrange(k - 2, k as int)[0] == '\r');
            }
        }
    }
    if !ends {
        extend_chars(&mut out, &end);
    }
    Ok(string_of(&out))
}

} // verus!
