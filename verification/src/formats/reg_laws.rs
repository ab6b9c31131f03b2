//! What a `.reg` file written by `serialize` reads back as: the document it
//! was written from, with the header line it was written with. The lemmas follow the text from characters up to
//! lines, keys and the whole file.
use vstd::prelude::*;
use crate::value::{JValue, JNumber, obj_map, obj_insert, obj_entry_or_insert, obj_get, obj_index, obj_lower, keys_sorted, key_lt, lemma_obj_index, lemma_obj_lower, lemma_key_lt_irreflexive};
use crate::text::{find_char, lemma_find_char, lines, strip_cr, split, join, chunks, trim, trim_start, trim_end, is_ws, lemma_trim_start, lemma_trim_end};
use crate::num::{digit_value, digits_value, parse_unsigned, hex_digit, hex_fixed, utf16_units, encode_utf16, decode_utf16, le_bytes, le_units};
use crate::formats::reg::{reg_text, reg_parse, sections_text, section_text, entries_text, without_bom, first_content_line, known_header, entry, data_entry, data_text, entry_text, value_line, name_and_data, value_name, quoted_name, default_name, nul_terminated, multi_items, RegState, Outcome, line_step, read_lines, flush, folded, fold_break, bytes_per_line, escape_char, escaped, unescape_pair, unquote, hex_pairs, hex_bytes, trimmed_nonempty, parse_byte_list, utf16le_hex, utf16le_text, without_terminator, doc_header, low_bytes};

verus! {

// ───────────────────────────── characters ─────────────────────────────

/// Whether `s` holds no line feed.
pub open spec fn no_newline(s: Seq<char>) -> bool {
    forall|i: int| 0 <= i < s.len() ==> s[i] != '\n'
}

/// Whether `s` holds no occurrence of `c`.
pub open spec fn lacks(s: Seq<char>, c: char) -> bool {
    forall|i: int| 0 <= i < s.len() ==> s[i] != c
}

proof fn lemma_find_char_at(s: Seq<char>, c: char, i: int)
    requires
        0 <= i < s.len(),
        s[i] == c,
        forall|j: int| 0 <= j < i ==> s[j] != c,
    ensures
        find_char(s, c) == Some(i),
{
    lemma_find_char(s, c);
}

proof fn lemma_find_char_none(s: Seq<char>, c: char)
    requires
        lacks(s, c),
    ensures
        find_char(s, c) is None,
{
    lemma_find_char(s, c);
}

// ───────────────────────────── lines ─────────────────────────────

/// Each line followed by `"\r\n"`.
pub open spec fn unlines(ls: Seq<Seq<char>>) -> Seq<char>
    decreases ls.len(),
{
    if ls.len() == 0 {
        Seq::empty()
    } else {
        ls[0] + seq!['\r', '\n'] + unlines(ls.drop_first())
    }
}

proof fn lemma_lines_cons(l: Seq<char>, rest: Seq<char>)
    requires
        no_newline(l),
    ensures
        lines(l + seq!['\r', '\n'] + rest) == seq![l] + lines(rest),
{
    let s = l + seq!['\r', '\n'] + rest;
    let i = l.len() as int + 1;
    assert(s[i] == '\n');
    assert forall|j: int| 0 <= j < i implies s[j] != '\n' by {
        if j < l.len() {
            assert(s[j] == l[j]);
        }
    }
    lemma_find_char_at(s, '\n', i);
    assert(s.take(i) =~= l.push('\r'));
    assert(strip_cr(l.push('\r')) =~= l);
    assert(s.skip(i + 1) =~= rest);
}

pub proof fn lemma_lines_unlines(ls: Seq<Seq<char>>)
    requires
        forall|i: int| 0 <= i < ls.len() ==> no_newline(#[trigger] ls[i]),
    ensures
        lines(unlines(ls)) == ls,
    decreases ls.len(),
{
    if ls.len() > 0 {
        lemma_lines_unlines(ls.drop_first());
        lemma_lines_cons(ls[0], unlines(ls.drop_first()));
        assert(seq![ls[0]] + ls.drop_first() =~= ls);
    }
}

proof fn lemma_unlines_one(l: Seq<char>)
    ensures
        unlines(seq![l]) == l + seq!['\r', '\n'],
{
    assert(seq![l].drop_first() =~= Seq::<Seq<char>>::empty());
    assert(unlines(seq![l].drop_first()) =~= Seq::<char>::empty());
    assert(unlines(seq![l]) =~= l + seq!['\r', '\n']);
}

pub proof fn lemma_unlines_add(a: Seq<Seq<char>>, b: Seq<Seq<char>>)
    ensures
        unlines(a + b) == unlines(a) + unlines(b),
    decreases a.len(),
{
    if a.len() == 0 {
        assert(a + b =~= b);
    } else {
        lemma_unlines_add(a.drop_first(), b);
        assert((a + b).drop_first() =~= a.drop_first() + b);
        assert(unlines(a + b) =~= unlines(a) + unlines(b));
    }
}

// ───────────────────────────── quoting ─────────────────────────────

proof fn lemma_escaped_front(s: Seq<char>)
    requires
        s.len() > 0,
    ensures
        escaped(s) == escape_char(s[0]) + escaped(s.drop_first()),
    decreases s.len(),
{
    if s.len() == 1 {
        assert(s.drop_last() =~= Seq::<char>::empty());
        assert(s.drop_first() =~= Seq::<char>::empty());
        assert(escaped(s.drop_last()) =~= Seq::<char>::empty());
        assert(escaped(s.drop_first()) =~= Seq::<char>::empty());
        assert(s.last() == s[0]);
        assert(escaped(s) =~= escape_char(s[0]));
    } else {
        lemma_escaped_front(s.drop_last());
        assert(s.drop_last().drop_first() =~= s.drop_first().drop_last());
        assert(s.drop_first().last() == s.last());
        assert(escaped(s) =~= escape_char(s[0]) + escaped(s.drop_first()));
    }
}

/// Unquoting undoes quoting: the escaped text of `s` followed by a quote
/// reads back as `s`, with what follows the quote left over.
pub proof fn lemma_unquote_escaped(s: Seq<char>, rest: Seq<char>)
    ensures
        unquote(escaped(s) + seq!['"'] + rest) == Some((s, rest)),
    decreases s.len(),
{
    let t = escaped(s) + seq!['"'] + rest;
    if s.len() == 0 {
        assert(escaped(s) =~= Seq::<char>::empty());
        assert(t[0] == '"');
        assert(t.drop_first() =~= rest);
    } else {
        lemma_escaped_front(s);
        lemma_unquote_escaped(s.drop_first(), rest);
        let c = s[0];
        let tail = escaped(s.drop_first()) + seq!['"'] + rest;
        if c == '\\' || c == '"' {
            assert(t =~= seq!['\\', c] + tail);
            assert(t.skip(2) =~= tail);
            assert(unescape_pair(c) =~= seq![c]);
        } else {
            assert(t =~= seq![c] + tail);
            assert(t.drop_first() =~= tail);
        }
        assert(seq![c] + s.drop_first() =~= s);
    }
}

// ───────────────────────────── hexadecimal numbers ─────────────────────────────

/// `16` to the power `w`.
pub open spec fn pow16(w: nat) -> nat
    decreases w,
{
    if w == 0 {
        1
    } else {
        16 * pow16((w - 1) as nat)
    }
}

proof fn lemma_hex_digit_value(d: nat)
    requires
        d < 16,
    ensures
        digit_value(hex_digit(d), 16) == Some(d),
        !is_ws(hex_digit(d)),
        hex_digit(d) != ',' && hex_digit(d) != '+' && hex_digit(d) != '-' && hex_digit(d) != '\\',
        hex_digit(d) != ';' && hex_digit(d) != '#' && hex_digit(d) != '\n',
{
    if d < 10 {
        assert((((48 + d) as char) as u32) == 48 + d);
    } else {
        assert((((87 + d) as char) as u32) == 87 + d);
    }
}

proof fn lemma_hex_fixed_digits(n: nat, w: nat)
    requires
        n < pow16(w),
    ensures
        digits_value(hex_fixed(n, w), 16) == Some(n),
        hex_fixed(n, w).len() == w,
        forall|i: int|
            0 <= i < w ==> !is_ws(#[trigger] hex_fixed(n, w)[i]) && hex_fixed(n, w)[i] != ','
                && hex_fixed(n, w)[i] != '+' && hex_fixed(n, w)[i] != '-' && hex_fixed(n, w)[i]
                != '\\' && hex_fixed(n, w)[i] != ';' && hex_fixed(n, w)[i] != '#'
                && hex_fixed(n, w)[i] != '\n',
    decreases w,
{
    if w == 0 {
        assert(n == 0);
    } else {
        let h = hex_fixed(n, w);
        assert(n / 16 < pow16((w - 1) as nat));
        lemma_hex_fixed_digits(n / 16, (w - 1) as nat);
        lemma_hex_digit_value(n % 16);
        assert(h.drop_last() =~= hex_fixed(n / 16, (w - 1) as nat));
        assert((n / 16) * 16 + n % 16 == n);
        assert forall|i: int| 0 <= i < w implies !is_ws(#[trigger] h[i]) && h[i] != ',' && h[i] != '+'
            && h[i] != '-' && h[i] != '\\' && h[i] != ';' && h[i] != '#' && h[i] != '\n' by {
            if i < w - 1 {
                assert(h[i] == hex_fixed(n / 16, (w - 1) as nat)[i]);
            } else {
                assert(h[i] == hex_digit(n % 16));
            }
        }
    }
}

/// A number written as `w` hexadecimal digits reads back as itself.
pub proof fn lemma_parse_hex_fixed(n: nat, w: nat, max: nat)
    requires
        w > 0,
        n < pow16(w),
        n <= max,
    ensures
        parse_unsigned(hex_fixed(n, w), 16, max) == Some(n),
        trim(hex_fixed(n, w)) == hex_fixed(n, w),
{
    lemma_hex_fixed_digits(n, w);
    let h = hex_fixed(n, w);
    assert(h[0] != '+' && h[0] != '-' && !is_ws(h[0]));
    lemma_trim_start(h, 0);
    assert(h.skip(0) =~= h);
    assert(!is_ws(h[h.len() - 1]));
    lemma_trim_end(h, h.len() as int);
    assert(h.take(h.len() as int) =~= h);
}


// ───────────────────────────── UTF-16 ─────────────────────────────

proof fn lemma_encode_front(s: Seq<char>)
    requires
        s.len() > 0,
    ensures
        encode_utf16(s) == utf16_units(s[0]) + encode_utf16(s.drop_first()),
    decreases s.len(),
{
    if s.len() == 1 {
        assert(s.drop_last() =~= Seq::<char>::empty());
        assert(s.drop_first() =~= Seq::<char>::empty());
        assert(encode_utf16(s.drop_last()) =~= Seq::<u16>::empty());
        assert(encode_utf16(s.drop_first()) =~= Seq::<u16>::empty());
        assert(s.last() == s[0]);
        assert(encode_utf16(s) =~= utf16_units(s[0]));
    } else {
        lemma_encode_front(s.drop_last());
        assert(s.drop_last().drop_first() =~= s.drop_first().drop_last());
        assert(s.drop_first().last() == s.last());
        assert(encode_utf16(s) =~= utf16_units(s[0]) + encode_utf16(s.drop_first()));
    }
}

proof fn lemma_decode_units(c: char, rest: Seq<u16>)
    ensures
        decode_utf16(utf16_units(c) + rest) == match decode_utf16(rest) {
            Some(r) => Some(seq![c] + r),
            None => None::<Seq<char>>,
        },
{
    let n = c as u32;
    let us = utf16_units(c) + rest;
    if n < 0x10000 {
        assert(us[0] == n as u16);
        assert(us.drop_first() =~= rest);
        assert((us[0] as u32) == n);
        assert(n < 0xD800 || n > 0xDFFF);
        assert(((n as u32) as char) == c);
    } else {
        let m = (n - 0x10000) as nat;
        assert(n <= 0x10FFFF);
        assert(m / 1024 < 1024);
        let hi = (0xD800 + m / 1024) as u16;
        let lo = (0xDC00 + m % 1024) as u16;
        assert(us[0] == hi && us[1] == lo);
        assert(us.skip(2) =~= rest);
        let u = hi as u32;
        assert(0xD800 <= u <= 0xDBFF);
        assert(0xDC00 <= lo <= 0xDFFF);
        assert((m / 1024) * 1024 + m % 1024 == m);
        assert(0x10000 + (u - 0xD800) * 1024 + (lo - 0xDC00) == n);
        assert(((0x10000 + (u - 0xD800) * 1024 + (lo - 0xDC00)) as u32 as char) == c);
    }
}

/// Decoding UTF-16 undoes encoding.
pub proof fn lemma_decode_encode(s: Seq<char>)
    ensures
        decode_utf16(encode_utf16(s)) == Some(s),
    decreases s.len(),
{
    if s.len() == 0 {
        assert(encode_utf16(s) =~= Seq::<u16>::empty());
    } else {
        lemma_encode_front(s);
        lemma_decode_encode(s.drop_first());
        lemma_decode_units(s[0], encode_utf16(s.drop_first()));
        assert(seq![s[0]] + s.drop_first() =~= s);
    }
}

proof fn lemma_le_bytes_front(us: Seq<u16>)
    requires
        us.len() > 0,
    ensures
        le_bytes(us) == seq![(us[0] % 256) as u8, (us[0] / 256) as u8] + le_bytes(us.drop_first()),
    decreases us.len(),
{
    if us.len() == 1 {
        assert(us.drop_last() =~= Seq::<u16>::empty());
        assert(us.drop_first() =~= Seq::<u16>::empty());
        assert(le_bytes(us.drop_last()) =~= Seq::<u8>::empty());
        assert(le_bytes(us.drop_first()) =~= Seq::<u8>::empty());
        assert(us.last() == us[0]);
        assert(le_bytes(us) =~= seq![(us[0] % 256) as u8, (us[0] / 256) as u8]);
    } else {
        lemma_le_bytes_front(us.drop_last());
        assert(us.drop_last().drop_first() =~= us.drop_first().drop_last());
        assert(us.drop_first().last() == us.last());
        assert(le_bytes(us) =~= seq![(us[0] % 256) as u8, (us[0] / 256) as u8] + le_bytes(
            us.drop_first(),
        ));
    }
}

/// Pairing little-endian bytes undoes splitting units into them.
pub proof fn lemma_le_units_bytes(us: Seq<u16>)
    ensures
        le_units(le_bytes(us)) == us,
        le_bytes(us).len() == 2 * us.len(),
    decreases us.len(),
{
    if us.len() == 0 {
        assert(le_bytes(us) =~= Seq::<u8>::empty());
    } else {
        lemma_le_bytes_front(us);
        lemma_le_units_bytes(us.drop_first());
        let bs = le_bytes(us);
        let u = us[0];
        assert(bs[0] == (u % 256) as u8 && bs[1] == (u / 256) as u8);
        assert((u % 256) + 256 * (u / 256) == u);
        assert(bs.skip(2) =~= le_bytes(us.drop_first()));
        assert(seq![u] + us.drop_first() =~= us);
    }
}

// ───────────────────────────── byte lists ─────────────────────────────

proof fn lemma_join_front(parts: Seq<Seq<char>>, sep: Seq<char>)
    requires
        parts.len() >= 2,
    ensures
        join(parts, sep) == parts[0] + sep + join(parts.drop_first(), sep),
    decreases parts.len(),
{
    if parts.len() == 2 {
        assert(parts.drop_first().len() == 1);
        assert(parts.drop_last().len() == 1);
        assert(parts.drop_last()[0] == parts[0]);
        assert(join(parts.drop_last(), sep) == parts[0]);
        assert(parts.drop_first()[0] == parts[1]);
        assert(join(parts.drop_first(), sep) == parts[1]);
        assert(join(parts, sep) =~= parts[0] + sep + parts[1]);
    } else {
        lemma_join_front(parts.drop_last(), sep);
        assert(parts.drop_last().drop_first() =~= parts.drop_first().drop_last());
        assert(parts.drop_first().last() == parts.last());
        assert(join(parts, sep) =~= parts[0] + sep + join(parts.drop_first(), sep));
    }
}

proof fn lemma_split_cons(p: Seq<char>, c: char, rest: Seq<char>)
    requires
        lacks(p, c),
    ensures
        split(p + seq![c] + rest, c) == seq![p] + split(rest, c),
{
    let s = p + seq![c] + rest;
    let i = p.len() as int;
    assert forall|j: int| 0 <= j < i implies s[j] != c by {
        assert(s[j] == p[j]);
    }
    lemma_find_char_at(s, c, i);
    assert(s.take(i) =~= p);
    assert(s.skip(i + 1) =~= rest);
}

/// Splitting at `c` undoes joining pieces that hold no `c`.
pub proof fn lemma_split_join(parts: Seq<Seq<char>>, c: char)
    requires
        parts.len() > 0,
        forall|i: int| 0 <= i < parts.len() ==> lacks(#[trigger] parts[i], c),
    ensures
        split(join(parts, seq![c]), c) == parts,
    decreases parts.len(),
{
    if parts.len() == 1 {
        lemma_find_char_none(parts[0], c);
        assert(seq![parts[0]] =~= parts);
    } else {
        lemma_join_front(parts, seq![c]);
        assert(lacks(parts[0], c));
        lemma_split_cons(parts[0], c, join(parts.drop_first(), seq![c]));
        assert forall|i: int| 0 <= i < parts.drop_first().len() implies lacks(
            #[trigger] parts.drop_first()[i],
            c,
        ) by {
            assert(parts.drop_first()[i] == parts[i + 1]);
        }
        lemma_split_join(parts.drop_first(), c);
        assert(seq![parts[0]] + parts.drop_first() =~= parts);
    }
}

proof fn lemma_hex_pair_facts(b: u8)
    ensures
        hex_fixed(b as nat, 2).len() == 2,
        parse_unsigned(hex_fixed(b as nat, 2), 16, 255) == Some(b as nat),
        trim(hex_fixed(b as nat, 2)) == hex_fixed(b as nat, 2),
        lacks(hex_fixed(b as nat, 2), ','),
        forall|i: int|
            0 <= i < 2 ==> !is_ws(#[trigger] hex_fixed(b as nat, 2)[i]) && hex_fixed(b as nat, 2)[i]
                != '\\' && hex_fixed(b as nat, 2)[i] != ';' && hex_fixed(b as nat, 2)[i] != '#'
                && hex_fixed(b as nat, 2)[i] != '\n',
{
    assert(pow16(2) == 256) by {
        assert(pow16(0) == 1);
        assert(pow16(1) == 16);
    }
    lemma_hex_fixed_digits(b as nat, 2);
    lemma_parse_hex_fixed(b as nat, 2, 255);
}

proof fn lemma_hex_pairs_drop_last(bs: Seq<u8>)
    requires
        bs.len() > 0,
    ensures
        hex_pairs(bs).drop_last() == hex_pairs(bs.drop_last()),
        hex_pairs(bs).last() == hex_fixed(bs.last() as nat, 2),
{
    assert(hex_pairs(bs).drop_last() =~= hex_pairs(bs.drop_last()));
}

proof fn lemma_byte_list_pairs(bs: Seq<u8>)
    ensures
        trimmed_nonempty(hex_pairs(bs)) == hex_pairs(bs),
        parse_byte_list(hex_pairs(bs)) == Some(bs),
    decreases bs.len(),
{
    if bs.len() == 0 {
        assert(hex_pairs(bs) =~= Seq::<Seq<char>>::empty());
    } else {
        lemma_hex_pairs_drop_last(bs);
        lemma_byte_list_pairs(bs.drop_last());
        lemma_hex_pair_facts(bs.last());
        assert(hex_pairs(bs).drop_last().push(hex_pairs(bs).last()) =~= hex_pairs(bs));
        assert(bs.drop_last().push(bs.last()) =~= bs);
    }
}

/// The byte list written for `bs` reads back as `bs`.
pub proof fn lemma_hex_bytes_pairs(bs: Seq<u8>)
    ensures
        hex_bytes(join(hex_pairs(bs), seq![','])) == Some(bs),
{
    lemma_byte_list_pairs(bs);
    if bs.len() == 0 {
        assert(hex_pairs(bs) =~= Seq::<Seq<char>>::empty());
        let e = Seq::<char>::empty();
        lemma_find_char_none(e, ',');
        assert(split(e, ',') == seq![e]);
        assert(trimmed_nonempty(seq![e]).len() == 0) by {
            assert(seq![e].drop_last() =~= Seq::<Seq<char>>::empty());
            assert(trim(e) =~= e);
        }
        assert(trimmed_nonempty(seq![e]) =~= Seq::<Seq<char>>::empty());
    } else {
        assert forall|i: int| 0 <= i < hex_pairs(bs).len() implies lacks(#[trigger] hex_pairs(bs)[i], ',') by {
            lemma_hex_pair_facts(bs[i]);
        }
        lemma_split_join(hex_pairs(bs), ',');
    }
}

/// Text written as UTF-16LE hex bytes reads back as itself.
pub proof fn lemma_utf16le_round_trip(s: Seq<char>)
    ensures
        utf16le_text(utf16le_hex(s)) == Some(s),
{
    let us = encode_utf16(s);
    let bs = le_bytes(us);
    lemma_hex_bytes_pairs(bs);
    lemma_le_units_bytes(us);
    lemma_decode_encode(s);
    assert(bs.len() % 2 == 0);
}


// ───────────────────────────── folding ─────────────────────────────

/// The lines that `folded` cuts a byte list into, before they are joined.
pub open spec fn fold_pieces(x: Seq<char>) -> Seq<Seq<char>> {
    chunks(split(x, ','), bytes_per_line()).map_values(|c: Seq<Seq<char>>| join(c, seq![',']))
}

proof fn lemma_split_nonempty(x: Seq<char>, c: char)
    ensures
        split(x, c).len() >= 1,
    decreases x.len(),
{
    lemma_find_char(x, c);
    if let Some(i) = find_char(x, c) {
        lemma_split_nonempty(x.skip(i + 1), c);
    }
}

/// Joining the pieces of a split puts the text back together.
pub proof fn lemma_join_split(x: Seq<char>, c: char)
    ensures
        join(split(x, c), seq![c]) == x,
    decreases x.len(),
{
    lemma_find_char(x, c);
    match find_char(x, c) {
        None => {},
        Some(i) => {
            lemma_join_split(x.skip(i + 1), c);
            lemma_split_nonempty(x.skip(i + 1), c);
            let ps = split(x, c);
            assert(ps == seq![x.take(i)] + split(x.skip(i + 1), c));
            lemma_join_front(ps, seq![c]);
            assert(ps.drop_first() =~= split(x.skip(i + 1), c));
            assert(x.take(i) + seq![c] + x.skip(i + 1) =~= x);
        },
    }
}

proof fn lemma_join_add(a: Seq<Seq<char>>, b: Seq<Seq<char>>, sep: Seq<char>)
    requires
        a.len() > 0,
        b.len() > 0,
    ensures
        join(a + b, sep) == join(a, sep) + sep + join(b, sep),
    decreases b.len(),
{
    if b.len() == 1 {
        assert((a + b).drop_last() =~= a);
        assert((a + b).last() == b[0]);
    } else {
        lemma_join_add(a, b.drop_last(), sep);
        assert((a + b).drop_last() =~= a + b.drop_last());
        assert((a + b).last() == b.last());
    }
}

proof fn lemma_chunks_nonempty(p: Seq<Seq<char>>, n: nat)
    requires
        p.len() > 0,
        n > 0,
    ensures
        chunks(p, n).len() >= 1,
        forall|k: int| 0 <= k < chunks(p, n).len() ==> (#[trigger] chunks(p, n)[k]).len() > 0,
    decreases p.len(),
{
    if p.len() > n {
        lemma_chunks_nonempty(p.skip(n as int), n);
        assert forall|k: int| 0 <= k < chunks(p, n).len() implies (#[trigger] chunks(p, n)[k]).len() > 0 by {
            if k > 0 {
                assert(chunks(p, n)[k] == chunks(p.skip(n as int), n)[k - 1]);
            }
        }
    }
}

proof fn lemma_join_chunks(p: Seq<Seq<char>>, n: nat)
    requires
        p.len() > 0,
        n > 0,
    ensures
        join(chunks(p, n).map_values(|c: Seq<Seq<char>>| join(c, seq![','])), seq![',']) == join(
            p,
            seq![','],
        ),
    decreases p.len(),
{
    let f = |c: Seq<Seq<char>>| join(c, seq![',']);
    if p.len() <= n {
        assert(chunks(p, n).map_values(f) =~= seq![join(p, seq![','])]);
    } else {
        let rest = p.skip(n as int);
        lemma_join_chunks(rest, n);
        lemma_chunks_nonempty(rest, n);
        let m = chunks(p, n).map_values(f);
        assert(m =~= seq![join(p.take(n as int), seq![','])] + chunks(rest, n).map_values(f));
        assert(m.len() >= 2);
        lemma_join_front(m, seq![',']);
        assert(m.drop_first() =~= chunks(rest, n).map_values(f));
        lemma_join_add(p.take(n as int), rest, seq![',']);
        assert(p.take(n as int) + rest =~= p);
    }
}

/// The folded lines of `x`, joined by commas, are `x` again.
pub proof fn lemma_fold_pieces_join(x: Seq<char>)
    ensures
        join(fold_pieces(x), seq![',']) == x,
        fold_pieces(x).len() >= 1,
{
    lemma_split_nonempty(x, ',');
    lemma_join_chunks(split(x, ','), bytes_per_line());
    lemma_chunks_nonempty(split(x, ','), bytes_per_line());
    lemma_join_split(x, ',');
}

/// The physical lines after the first of a folded byte list: each indented
/// by two spaces and, but for the last, ended by `,\`.
pub open spec fn cont_lines(ls: Seq<Seq<char>>) -> Seq<Seq<char>>
    decreases ls.len(),
{
    if ls.len() <= 1 {
        Seq::new(ls.len(), |k: int| seq![' ', ' '] + ls[k])
    } else {
        seq![seq![' ', ' '] + ls[0] + seq![',', '\\']] + cont_lines(ls.drop_first())
    }
}

/// The physical lines that an entry line whose text is `prefix` followed by
/// the folded byte list `x` is written as.
pub open spec fn fold_lines(prefix: Seq<char>, x: Seq<char>) -> Seq<Seq<char>> {
    let ls = fold_pieces(x);
    if ls.len() <= 1 {
        seq![prefix + folded(x)]
    } else {
        seq![prefix + ls[0] + seq![',', '\\']] + cont_lines(ls.drop_first())
    }
}

proof fn lemma_unlines_cont(ls: Seq<Seq<char>>)
    requires
        ls.len() >= 1,
    ensures
        unlines(cont_lines(ls)) == seq![' ', ' '] + join(ls, fold_break()) + seq!['\r', '\n'],
    decreases ls.len(),
{
    if ls.len() == 1 {
        assert(cont_lines(ls) =~= seq![seq![' ', ' '] + ls[0]]);
        lemma_unlines_one(seq![' ', ' '] + ls[0]);
        assert(join(ls, fold_break()) == ls[0]);
    } else {
        lemma_unlines_cont(ls.drop_first());
        lemma_join_front(ls, fold_break());
        let c = cont_lines(ls);
        assert(c[0] == seq![' ', ' '] + ls[0] + seq![',', '\\']);
        assert(c.drop_first() == cont_lines(ls.drop_first()));
        assert(unlines(c) =~= seq![' ', ' '] + join(ls, fold_break()) + seq!['\r', '\n']);
    }
}

/// The physical lines of a folded entry line, each ended by `"\r\n"`, are
/// the entry line's text.
pub proof fn lemma_unlines_fold(prefix: Seq<char>, x: Seq<char>)
    ensures
        unlines(fold_lines(prefix, x)) == prefix + folded(x) + seq!['\r', '\n'],
{
    let ls = fold_pieces(x);
    lemma_fold_pieces_join(x);
    if ls.len() <= 1 {
        lemma_unlines_one(prefix + folded(x));
    } else {
        assert(x.len() > 0) by {
            if x.len() == 0 {
                lemma_find_char_none(x, ',');
                assert(split(x, ',') == seq![x]);
                assert(chunks(seq![x], bytes_per_line()) == seq![seq![x]]);
            }
        }
        lemma_unlines_cont(ls.drop_first());
        lemma_join_front(ls, fold_break());
        let fl = fold_lines(prefix, x);
        assert(fl.drop_first() == cont_lines(ls.drop_first()));
        assert(unlines(fl) =~= prefix + folded(x) + seq!['\r', '\n']);
    }
}


// ───────────────────────────── reading lines ─────────────────────────────

/// Whether a pending logical line asks for the next line to be joined to it.
pub open spec fn ends_in_backslash(l: Seq<char>) -> bool {
    l.len() > 0 && l.last() == '\\'
}

/// Whether a folded line after the first reads back unchanged: it does not
/// start with whitespace or a comment character.
pub open spec fn piece_ok(l: Seq<char>) -> bool {
    l.len() == 0 || (!is_ws(l[0]) && l[0] != ';' && l[0] != '#')
}

/// Whether a raw byte list written after a type prefix reads back as
/// itself: it is trimmed, on one line, and its folded continuation lines
/// start with neither whitespace nor a comment character, the last of them
/// not empty. (One that ends in a backslash also asks that no entry line
/// follow it in its key: see [`entry_ends_in_backslash`].)
pub open spec fn raw_ok(x: Seq<char>) -> bool {
    &&& x.len() == 0 || (!is_ws(x[0]) && !is_ws(x.last()))
    &&& no_newline(x)
    &&& {
        let ls = fold_pieces(x);
        ls.len() <= 1 || ((forall|k: int| 1 <= k < ls.len() ==> piece_ok(#[trigger] ls[k]))
            && ls.last().len() > 0)
    }
}

/// The state after a `[..]` line naming `inner` has started a key.
pub open spec fn header_state(s1: RegState, inner: Seq<char>) -> RegState {
    if inner.len() > 0 && inner[0] == '-' {
        RegState { root: obj_insert(s1.root, inner.drop_first(), JValue::Null), cur: None, logical: s1.logical }
    } else {
        RegState {
            root: obj_entry_or_insert(s1.root, inner, JValue::Object(Seq::empty())),
            cur: Some(inner),
            logical: s1.logical,
        }
    }
}

pub proof fn lemma_read_lines_add(st: RegState, a: Seq<Seq<char>>, b: Seq<Seq<char>>)
    ensures
        read_lines(st, a + b) == match read_lines(st, a) {
            Outcome::Done(s) => read_lines(s, b),
            o => o,
        },
    decreases a.len(),
{
    if a.len() == 0 {
        assert(a + b =~= b);
    } else {
        assert((a + b)[0] == a[0]);
        assert((a + b).drop_first() =~= a.drop_first() + b);
        match line_step(st, a[0]) {
            Outcome::Done(s1) => {
                lemma_read_lines_add(s1, a.drop_first(), b);
            },
            _ => {},
        }
    }
}

proof fn lemma_trimmed(l: Seq<char>)
    requires
        l.len() > 0,
        !is_ws(l[0]),
        !is_ws(l.last()),
    ensures
        trim_start(l) == l,
        trim_end(l) == l,
        trim(l) == l,
{
    lemma_trim_start(l, 0);
    assert(l.skip(0) =~= l);
    lemma_trim_end(l, l.len() as int);
    assert(l.take(l.len() as int) =~= l);
}

/// A blank line ends the pending logical line.
pub proof fn lemma_step_blank(st: RegState)
    ensures
        line_step(st, Seq::empty()) == flush(st),
{
    reveal(line_step);
    let e = Seq::<char>::empty();
    assert(trim_end(e) =~= e);
    assert(trim_start(e) =~= e);
    assert(trim(e) =~= e);
}

/// A `[inner]` line ends the pending logical line and starts a key.
pub proof fn lemma_step_header(st: RegState, inner: Seq<char>)
    requires
        lacks(inner, ']'),
        !ends_in_backslash(st.logical),
    ensures
        line_step(st, seq!['['] + inner + seq![']']) == match flush(st) {
            Outcome::Done(s1) => Outcome::Done(header_state(s1, inner)),
            o => o,
        },
{
    reveal(line_step);
    let raw = seq!['['] + inner + seq![']'];
    assert(raw[0] == '[');
    assert(raw.last() == ']');
    lemma_trimmed(raw);
    let close = inner.len() as int + 1;
    assert(raw[close] == ']');
    assert forall|j: int| 0 <= j < close implies raw[j] != ']' by {
        if j > 0 {
            assert(raw[j] == inner[j - 1]);
        }
    }
    lemma_find_char_at(raw, ']', close);
    assert(raw.subrange(1, close) =~= inner);
}

/// A line that starts an entry ends the pending logical line and becomes
/// the new one.
pub proof fn lemma_step_start(st: RegState, raw: Seq<char>)
    requires
        raw.len() > 0,
        !is_ws(raw[0]),
        !is_ws(raw.last()),
        raw[0] != ';' && raw[0] != '#' && raw[0] != '[',
        !ends_in_backslash(st.logical),
    ensures
        line_step(st, raw) == match flush(st) {
            Outcome::Done(s1) => Outcome::Done(
                RegState { root: s1.root, cur: s1.cur, logical: s1.logical + raw },
            ),
            o => o,
        },
{
    reveal(line_step);
    lemma_trimmed(raw);
}

/// An indented line continues a pending logical line that ends in `\`.
pub proof fn lemma_step_cont(st: RegState, body: Seq<char>)
    requires
        ends_in_backslash(st.logical),
        body.len() > 0,
        !is_ws(body[0]),
        !is_ws(body.last()),
        body[0] != ';' && body[0] != '#',
    ensures
        line_step(st, seq![' ', ' '] + body) == Outcome::Done(
            RegState { root: st.root, cur: st.cur, logical: st.logical.drop_last() + body },
        ),
{
    reveal(line_step);
    let raw = seq![' ', ' '] + body;
    assert(raw.last() == body.last());
    lemma_trim_end(raw, raw.len() as int);
    assert(raw.take(raw.len() as int) =~= raw);
    assert(is_ws(raw[0]) && is_ws(raw[1]));
    assert(raw[2] == body[0]);
    lemma_trim_start(raw, 2);
    assert(raw.skip(2) =~= body);
    lemma_trimmed(body);
}

proof fn lemma_read_cont(st: RegState, acc: Seq<char>, ls: Seq<Seq<char>>)
    requires
        st.logical == acc + seq![',', '\\'],
        ls.len() >= 1,
        forall|k: int| 0 <= k < ls.len() ==> piece_ok(#[trigger] ls[k]),
        ls.last().len() > 0,
        !is_ws(ls.last().last()),
    ensures
        read_lines(st, cont_lines(ls)) == Outcome::Done(
            RegState { root: st.root, cur: st.cur, logical: acc + seq![','] + join(ls, seq![',']) },
        ),
    decreases ls.len(),
{
    let c = cont_lines(ls);
    assert(st.logical.drop_last() =~= acc + seq![',']);
    if ls.len() == 1 {
        assert(c =~= seq![seq![' ', ' '] + ls[0]]);
        assert(ls.last() == ls[0]);
        assert(piece_ok(ls[0]));
        lemma_step_cont(st, ls[0]);
        let s1 = RegState { root: st.root, cur: st.cur, logical: acc + seq![','] + ls[0] };
        assert(st.logical.drop_last() + ls[0] =~= acc + seq![','] + ls[0]);
        assert(c.drop_first() =~= Seq::<Seq<char>>::empty());
        assert(read_lines(s1, c.drop_first()) == Outcome::Done(s1));
    } else {
        let body = ls[0] + seq![',', '\\'];
        assert(piece_ok(ls[0]));
        assert(body[0] == if ls[0].len() > 0 { ls[0][0] } else { ',' });
        assert(body.last() == '\\');
        lemma_step_cont(st, body);
        let acc2 = acc + seq![','] + ls[0];
        let s1 = RegState { root: st.root, cur: st.cur, logical: acc2 + seq![',', '\\'] };
        assert(st.logical.drop_last() + body =~= acc2 + seq![',', '\\']);
        assert(c[0] == seq![' ', ' '] + body);
        assert(c.drop_first() == cont_lines(ls.drop_first()));
        assert forall|k: int| 0 <= k < ls.drop_first().len() implies piece_ok(#[trigger] ls.drop_first()[k]) by {
            assert(ls.drop_first()[k] == ls[k + 1]);
        }
        lemma_read_cont(s1, acc2, ls.drop_first());
        lemma_join_front(ls, seq![',']);
        assert(acc2 + seq![','] + join(ls.drop_first(), seq![',']) =~= acc + seq![','] + join(
            ls,
            seq![','],
        ));
    }
}

/// Reading the physical lines of an entry line written with a folded byte
/// list: the pending line is ended, and the entry line, unfolded, becomes
/// the new pending line.
pub proof fn lemma_read_fold(st: RegState, prefix: Seq<char>, x: Seq<char>)
    requires
        !ends_in_backslash(st.logical),
        prefix.len() > 0,
        !is_ws(prefix[0]),
        prefix[0] != ';' && prefix[0] != '#' && prefix[0] != '[',
        !is_ws(prefix.last()),
        !ends_in_backslash(prefix),
        raw_ok(x),
    ensures
        read_lines(st, fold_lines(prefix, x)) == match flush(st) {
            Outcome::Done(s1) => Outcome::Done(
                RegState { root: s1.root, cur: s1.cur, logical: s1.logical + prefix + x },
            ),
            o => o,
        },
        (prefix + x).len() > 0 && !is_ws((prefix + x).last()),
{
    let ls = fold_pieces(x);
    lemma_fold_pieces_join(x);
    let fl = fold_lines(prefix, x);
    assert((prefix + x)[0] == prefix[0]);
    if x.len() > 0 {
        assert((prefix + x).last() == x.last());
    } else {
        assert(prefix + x =~= prefix);
    }
    if ls.len() <= 1 {
        assert(folded(x) =~= x) by {
            if x.len() > 0 {
                assert(ls.len() == 1);
                assert(join(ls, seq![',']) == ls[0]);
            }
        }
        let raw = prefix + x;
        lemma_step_start(st, raw);
        lemma_read_lines_add(st, seq![raw], Seq::empty());
        assert(seq![raw] + Seq::<Seq<char>>::empty() =~= seq![raw]);
        assert(fl == seq![raw]);
        match flush(st) {
            Outcome::Done(s1) => {
                let s2 = RegState { root: s1.root, cur: s1.cur, logical: s1.logical + raw };
                assert(seq![raw].drop_first() =~= Seq::<Seq<char>>::empty());
                assert(read_lines(s2, seq![raw].drop_first()) == Outcome::Done(s2));
                assert(s1.logical + raw =~= s1.logical + prefix + x);
            },
            _ => {},
        }
    } else {
        let first = prefix + ls[0] + seq![',', '\\'];
        assert(first[0] == prefix[0]);
        assert(first.last() == '\\');
        lemma_step_start(st, first);
        assert(fl =~= seq![first] + cont_lines(ls.drop_first()));
        lemma_read_lines_add(st, seq![first], cont_lines(ls.drop_first()));
        match flush(st) {
            Outcome::Done(s1) => {
                let s2 = RegState { root: s1.root, cur: s1.cur, logical: s1.logical + first };
                assert(seq![first].drop_first() =~= Seq::<Seq<char>>::empty());
                assert(read_lines(s2, seq![first].drop_first()) == Outcome::Done(s2));
                assert(read_lines(st, seq![first]) == Outcome::Done(s2));
                assert(s1.logical + first =~= (s1.logical + prefix + ls[0]) + seq![',', '\\']);
                assert forall|k: int| 0 <= k < ls.drop_first().len() implies piece_ok(
                    #[trigger] ls.drop_first()[k],
                ) by {
                    assert(ls.drop_first()[k] == ls[k + 1]);
                }
                assert(ls.drop_first().last() == ls.last());
                lemma_join_front(ls, seq![',']);
                assert(x.last() == ls.last().last()) by {
                    let rest = join(ls.drop_first(), seq![',']);
                    lemma_join_last(ls.drop_first());
                }
                lemma_read_cont(s2, s1.logical + prefix + ls[0], ls.drop_first());
                assert(s1.logical + prefix + ls[0] + seq![','] + join(ls.drop_first(), seq![','])
                    =~= s1.logical + prefix + x);
            },
            _ => {},
        }
    }
}

proof fn lemma_join_last(ls: Seq<Seq<char>>)
    requires
        ls.len() >= 1,
        ls.last().len() > 0,
    ensures
        join(ls, seq![',']).len() > 0,
        join(ls, seq![',']).last() == ls.last().last(),
{
    if ls.len() == 1 {
        assert(ls.last() == ls[0]);
    }
}


// ───────────────────────────── pieces of byte lists ─────────────────────────────

proof fn lemma_split_lacks(x: Seq<char>, c: char, d: char)
    requires
        lacks(x, d),
    ensures
        forall|i: int| 0 <= i < split(x, c).len() ==> lacks(#[trigger] split(x, c)[i], d),
    decreases x.len(),
{
    lemma_find_char(x, c);
    match find_char(x, c) {
        None => {},
        Some(i) => {
            lemma_split_lacks(x.skip(i + 1), c, d);
            let ps = split(x, c);
            assert forall|k: int| 0 <= k < ps.len() implies lacks(#[trigger] ps[k], d) by {
                if k == 0 {
                    assert(ps[0] == x.take(i));
                } else {
                    assert(ps[k] == split(x.skip(i + 1), c)[k - 1]);
                }
            }
        },
    }
}

proof fn lemma_join_lacks(parts: Seq<Seq<char>>, sep: Seq<char>, d: char)
    requires
        forall|i: int| 0 <= i < parts.len() ==> lacks(#[trigger] parts[i], d),
        lacks(sep, d),
    ensures
        lacks(join(parts, sep), d),
    decreases parts.len(),
{
    if parts.len() > 1 {
        lemma_join_lacks(parts.drop_last(), sep, d);
        assert(lacks(parts.last(), d));
    } else if parts.len() == 1 {
        assert(lacks(parts[0], d));
    }
}

proof fn lemma_join_first(parts: Seq<Seq<char>>, sep: Seq<char>)
    requires
        parts.len() >= 1,
        parts[0].len() > 0,
    ensures
        join(parts, sep).len() > 0,
        join(parts, sep)[0] == parts[0][0],
    decreases parts.len(),
{
    if parts.len() > 1 {
        lemma_join_first(parts.drop_last(), sep);
    }
}

proof fn lemma_chunks_all(p: Seq<Seq<char>>, n: nat, f: spec_fn(Seq<char>) -> bool)
    requires
        n > 0,
        forall|i: int| 0 <= i < p.len() ==> f(#[trigger] p[i]),
    ensures
        forall|k: int, j: int|
            0 <= k < chunks(p, n).len() && 0 <= j < chunks(p, n)[k].len() ==> f(
                #[trigger] chunks(p, n)[k][j],
            ),
    decreases p.len(),
{
    if p.len() > n {
        let rest = p.skip(n as int);
        lemma_chunks_all(rest, n, f);
        assert forall|k: int, j: int|
            0 <= k < chunks(p, n).len() && 0 <= j < chunks(p, n)[k].len() implies f(
            #[trigger] chunks(p, n)[k][j],
        ) by {
            if k == 0 {
                assert(chunks(p, n)[0] == p.take(n as int));
                assert(p.take(n as int)[j] == p[j]);
            } else {
                assert(chunks(p, n)[k] == chunks(rest, n)[k - 1]);
            }
        }
    } else if p.len() > 0 {
        assert(chunks(p, n) == seq![p]);
    }
}

/// Every folded line of `x` lacks a character that `x` lacks (but commas).
pub proof fn lemma_fold_pieces_lack(x: Seq<char>, d: char)
    requires
        lacks(x, d),
        d != ',',
    ensures
        forall|k: int| 0 <= k < fold_pieces(x).len() ==> lacks(#[trigger] fold_pieces(x)[k], d),
{
    let ps = split(x, ',');
    lemma_split_lacks(x, ',', d);
    let f = |l: Seq<char>| lacks(l, d);
    lemma_chunks_all(ps, bytes_per_line(), f);
    let cs = chunks(ps, bytes_per_line());
    assert forall|k: int| 0 <= k < fold_pieces(x).len() implies lacks(#[trigger] fold_pieces(x)[k], d) by {
        assert(fold_pieces(x)[k] == join(cs[k], seq![',']));
        assert forall|j: int| 0 <= j < cs[k].len() implies lacks(#[trigger] cs[k][j], d) by {
            assert(f(cs[k][j]));
        }
        lemma_join_lacks(cs[k], seq![','], d);
    }
}

/// Whether `l` is two hexadecimal digits.
pub open spec fn hex_pair_text(l: Seq<char>) -> bool {
    l.len() == 2 && forall|i: int|
        0 <= i < 2 ==> !is_ws(#[trigger] l[i]) && l[i] != ',' && l[i] != '\\' && l[i] != ';'
            && l[i] != '#' && l[i] != '\n'
}

proof fn lemma_join_chars(parts: Seq<Seq<char>>, f: spec_fn(char) -> bool)
    requires
        forall|i: int, j: int| 0 <= i < parts.len() && 0 <= j < parts[i].len() ==> f(#[trigger] parts[i][j]),
        f(','),
    ensures
        forall|j: int| 0 <= j < join(parts, seq![',']).len() ==> f(#[trigger] join(parts, seq![','])[j]),
    decreases parts.len(),
{
    if parts.len() == 1 {
        assert forall|j: int| 0 <= j < join(parts, seq![',']).len() implies f(#[trigger] join(parts, seq![','])[j]) by {
            assert(join(parts, seq![','])[j] == parts[0][j]);
        }
    } else if parts.len() > 1 {
        lemma_join_chars(parts.drop_last(), f);
        let a = join(parts.drop_last(), seq![',']);
        let l = parts.last();
        assert forall|j: int| 0 <= j < join(parts, seq![',']).len() implies f(#[trigger] join(parts, seq![','])[j]) by {
            let t = join(parts, seq![',']);
            assert(t == a + seq![','] + l);
            if j < a.len() {
                assert(t[j] == a[j]);
            } else if j > a.len() {
                assert(t[j] == l[j - a.len() - 1]);
                assert(parts[parts.len() - 1] == l);
            }
        }
    }
}

/// A comma-separated list of two-digit hexadecimal bytes reads back
/// unchanged after a type prefix, folded or not.
pub proof fn lemma_hex_list_raw_ok(bs: Seq<u8>)
    ensures
        raw_ok(join(hex_pairs(bs), seq![','])),
{
    let ps = hex_pairs(bs);
    let x = join(ps, seq![',']);
    assert forall|i: int| 0 <= i < ps.len() implies hex_pair_text(#[trigger] ps[i]) by {
        lemma_hex_pair_facts(bs[i]);
    }
    let g = |c: char| !is_ws(c) && c != '\\' && c != ';' && c != '#' && c != '\n';
    assert forall|i: int, j: int| 0 <= i < ps.len() && 0 <= j < ps[i].len() implies g(#[trigger] ps[i][j]) by {
        assert(hex_pair_text(ps[i]));
    }
    assert(g(','));
    lemma_join_chars(ps, g);
    assert forall|j: int| 0 <= j < x.len() implies x[j] != '\n' by {
        assert(g(x[j]));
    }
    if bs.len() > 0 {
        assert(x.len() > 0) by {
            assert(hex_pair_text(ps[0]));
            lemma_join_first(ps, seq![',']);
        }
        assert(g(x[0]));
        assert(g(x[x.len() - 1]));
        assert forall|i: int| 0 <= i < ps.len() implies lacks(#[trigger] ps[i], ',') by {
            assert(hex_pair_text(ps[i]));
        }
        lemma_split_join(ps, ',');
        let cs = chunks(ps, bytes_per_line());
        lemma_chunks_nonempty(ps, bytes_per_line());
        let hp = |l: Seq<char>| hex_pair_text(l);
        lemma_chunks_all(ps, bytes_per_line(), hp);
        let ls = fold_pieces(x);
        assert forall|k: int| 0 <= k < ls.len() implies piece_ok(#[trigger] ls[k]) && ls[k].len() > 0 by {
            assert(ls[k] == join(cs[k], seq![',']));
            assert(cs[k].len() > 0);
            assert(hp(cs[k][0]));
            lemma_join_first(cs[k], seq![',']);
        }
        assert(ls.len() >= 1) by {
            lemma_fold_pieces_join(x);
        }
        assert(ls.last() == ls[ls.len() - 1]);
    } else {
        assert(ps =~= Seq::<Seq<char>>::empty());
        assert(x.len() == 0);
    }
}


// ───────────────────────────── typed entries ─────────────────────────────

/// Whether `tag` names a raw `hex(N)` type that is written and read back
/// as such (the ones read as `qword`, `expand_sz` and `multi_sz` are not).
pub open spec fn raw_tag(tag: Seq<char>) -> bool {
    &&& "hex("@.is_prefix_of(tag)
    &&& tag != "hex(b)"@ && tag != "hex(2)"@ && tag != "hex(7)"@
    &&& lacks(tag, ':')
    &&& no_newline(tag)
}

/// Whether `items` are strings that a `multi_sz` value keeps apart: none
/// empty, none holding a NUL.
pub open spec fn multi_ok(items: Seq<JValue>) -> bool {
    forall|i: int|
        0 <= i < items.len() ==> (#[trigger] items[i] matches JValue::Str(x) && x.len() > 0 && lacks(
            x,
            '\0',
        ))
}

/// Whether a value of type `tag` is written in a form that reads back as
/// the same type and value.
pub open spec fn typed_ok(tag: Seq<char>, val: JValue) -> bool {
    ||| tag == "sz"@ && (val matches JValue::Str(s) && no_newline(s))
    ||| tag == "expand_sz"@ && (val matches JValue::Str(s) && without_terminator(s) == s)
    ||| tag == "multi_sz"@ && (val matches JValue::Array(items) && multi_ok(items))
    ||| tag == "dword"@ && (val matches JValue::Number(JNumber::PosInt(n)) && n <= 0xffff_ffff)
    ||| tag == "qword"@ && (val matches JValue::Str(s) && raw_ok(s))
    ||| tag == "hex"@ && (val matches JValue::Str(s) && raw_ok(s))
    ||| raw_tag(tag) && (val matches JValue::Str(s) && raw_ok(s))
}

/// The written data of a typed value as a prefix and a byte list that is
/// folded after it (empty where the data is one short piece).
pub open spec fn data_form(tag: Seq<char>, val: JValue) -> (Seq<char>, Seq<char>) {
    if tag == "sz"@ {
        (seq!['"'] + escaped(val->Str_0) + seq!['"'], Seq::empty())
    } else if tag == "expand_sz"@ {
        ("hex(2):"@, utf16le_hex(val->Str_0))
    } else if tag == "multi_sz"@ {
        ("hex(7):"@, utf16le_hex(nul_terminated(val->Array_0)->0 + seq!['\0']))
    } else if tag == "dword"@ {
        ("dword:"@ + hex_fixed(val->Number_0->PosInt_0 as nat, 8), Seq::empty())
    } else if tag == "qword"@ {
        ("hex(b):"@, val->Str_0)
    } else if tag == "hex"@ {
        ("hex:"@, val->Str_0)
    } else {
        (tag + seq![':'], val->Str_0)
    }
}

proof fn lemma_nul_split(items: Seq<JValue>, rest: Seq<char>)
    requires
        multi_ok(items),
    ensures
        nul_terminated(items) is Some,
        split(nul_terminated(items)->0 + rest, '\0') == Seq::new(items.len(), |i: int| items[i]->Str_0)
            + split(rest, '\0'),
    decreases items.len(),
{
    let strs = Seq::new(items.len(), |i: int| items[i]->Str_0);
    if items.len() == 0 {
        assert(nul_terminated(items)->0 + rest =~= rest);
        assert(strs + split(rest, '\0') =~= split(rest, '\0'));
    } else {
        let init = items.drop_last();
        assert(multi_ok(init)) by {
            assert forall|i: int| 0 <= i < init.len() implies (#[trigger] init[i] matches JValue::Str(x)
                && x.len() > 0 && lacks(x, '\0')) by {
                assert(init[i] == items[i]);
            }
        }
        assert(items.last() == items[items.len() - 1]);
        let x = items.last()->Str_0;
        let tail = x + seq!['\0'] + rest;
        lemma_nul_split(init, tail);
        let c0 = nul_terminated(init)->0;
        assert(nul_terminated(items)->0 + rest =~= c0 + tail);
        lemma_split_cons(x, '\0', rest);
        assert(strs =~= Seq::new(init.len(), |i: int| init[i]->Str_0).push(x));
    }
}

proof fn lemma_multi_items_strs(items: Seq<JValue>)
    requires
        multi_ok(items),
    ensures
        multi_items(Seq::new(items.len(), |i: int| items[i]->Str_0)) == items,
    decreases items.len(),
{
    let strs = Seq::new(items.len(), |i: int| items[i]->Str_0);
    if items.len() > 0 {
        let init = items.drop_last();
        assert(multi_ok(init)) by {
            assert forall|i: int| 0 <= i < init.len() implies (#[trigger] init[i] matches JValue::Str(x)
                && x.len() > 0 && lacks(x, '\0')) by {
                assert(init[i] == items[i]);
            }
        }
        lemma_multi_items_strs(init);
        assert(strs.drop_last() =~= Seq::new(init.len(), |i: int| init[i]->Str_0));
        assert(items[items.len() - 1] matches JValue::Str(_));
        assert(init.push(items.last()) =~= items);
    }
}

/// The NUL-terminated strings of a `multi_sz` value, with the final NUL,
/// split back into the same strings.
pub proof fn lemma_multi_round_trip(items: Seq<JValue>)
    requires
        multi_ok(items),
    ensures
        nul_terminated(items) is Some,
        multi_items(split(nul_terminated(items)->0 + seq!['\0'], '\0')) == items,
{
    lemma_nul_split(items, seq!['\0']);
    let strs = Seq::new(items.len(), |i: int| items[i]->Str_0);
    let z = seq!['\0'];
    let e = Seq::<char>::empty();
    lemma_find_char_at(z, '\0', 0);
    assert(z.take(0) =~= e);
    assert(z.skip(1) =~= e);
    lemma_find_char_none(e, '\0');
    assert(split(e, '\0') == seq![e]);
    assert(split(z, '\0') == seq![z.take(0)] + split(z.skip(1), '\0'));
    assert(split(z, '\0') =~= seq![e, e]);
    let all = strs + seq![e, e];
    assert(all.drop_last() =~= strs.push(e));
    assert(all.drop_last().drop_last() =~= strs);
    assert(all.last() == e);
    assert(all.drop_last().last() == e);
    assert(multi_items(all) == multi_items(all.drop_last()));
    assert(multi_items(all.drop_last()) == multi_items(strs));
    lemma_multi_items_strs(items);
}

proof fn lemma_not_tagged(tag: Seq<char>, x: Seq<char>, k: char)
    requires
        raw_tag(tag),
        k == 'b' || k == '2' || k == '7',
        tag != seq!['h', 'e', 'x', '(', k, ')'],
    ensures
        !seq!['h', 'e', 'x', '(', k, ')', ':'].is_prefix_of(tag + seq![':'] + x),
{
    let d = tag + seq![':'] + x;
    let lit = seq!['h', 'e', 'x', '(', k, ')', ':'];
    reveal_strlit("hex(");
    assert(tag.len() >= 4);
    if lit.is_prefix_of(d) {
        if tag.len() >= 7 {
            assert(d[6] == tag[6]);
            assert(lit[6] == ':');
        } else if tag.len() == 6 {
            assert forall|i: int| 0 <= i < 6 implies tag[i] == lit[i] by {
                assert(d[i] == tag[i]);
            }
            assert(tag =~= seq!['h', 'e', 'x', '(', k, ')']);
        } else {
            assert(d[tag.len() as int] == ':');
            assert(lit[tag.len() as int] != ':');
        }
    }
}


// ───────────────────────────── typed data, written and read ─────────────────────────────

/// What the data of a typed value needs, to be written after `name=` and
/// read back: its prefix is non-empty, starts and ends with a visible
/// character, is on one line, and the data reads back as the entry.
pub open spec fn data_reads_back(tag: Seq<char>, val: JValue) -> bool {
    let (p, x) = data_form(tag, val);
    &&& data_text(tag, val) == Some(p + folded(x))
    &&& raw_ok(x)
    &&& p.len() > 0 && !is_ws(p[0]) && !is_ws(p.last()) && !ends_in_backslash(p)
    &&& p[0] != ';' && p[0] != '#' && p[0] != '[' && p[0] != '-'
    &&& no_newline(p)
    &&& data_entry(p + x) == Outcome::Done(entry(tag, val))
}

proof fn lemma_escaped_lacks(s: Seq<char>, d: char)
    requires
        lacks(s, d),
        d != '\\',
    ensures
        lacks(escaped(s), d),
    decreases s.len(),
{
    if s.len() > 0 {
        lemma_escaped_lacks(s.drop_last(), d);
        assert(s.last() == s[s.len() - 1]);
    }
}

proof fn lemma_trim_joined(p: Seq<char>, x: Seq<char>)
    requires
        p.len() > 0,
        !is_ws(p[0]),
        !is_ws(p.last()),
        x.len() == 0 || (!is_ws(x[0]) && !is_ws(x.last())),
    ensures
        trim(p + x) == p + x,
        trim(x) == x,
{
    let d = p + x;
    assert(d[0] == p[0]);
    if x.len() > 0 {
        assert(d.last() == x.last());
        lemma_trimmed(x);
    } else {
        assert(d =~= p);
        assert(trim_start(x) =~= x);
        assert(trim_end(x) =~= x);
    }
    lemma_trimmed(d);
}

pub proof fn lemma_literals()
    ensures
        "sz"@ =~= seq!['s', 'z'],
        "expand_sz"@ =~= seq!['e', 'x', 'p', 'a', 'n', 'd', '_', 's', 'z'],
        "multi_sz"@ =~= seq!['m', 'u', 'l', 't', 'i', '_', 's', 'z'],
        "dword"@ =~= seq!['d', 'w', 'o', 'r', 'd'],
        "qword"@ =~= seq!['q', 'w', 'o', 'r', 'd'],
        "hex"@ =~= seq!['h', 'e', 'x'],
        "hex("@ =~= seq!['h', 'e', 'x', '('],
        "dword:"@ =~= seq!['d', 'w', 'o', 'r', 'd', ':'],
        "qword:"@ =~= seq!['q', 'w', 'o', 'r', 'd', ':'],
        "hex(b):"@ =~= seq!['h', 'e', 'x', '(', 'b', ')', ':'],
        "hex(2):"@ =~= seq!['h', 'e', 'x', '(', '2', ')', ':'],
        "hex(7):"@ =~= seq!['h', 'e', 'x', '(', '7', ')', ':'],
        "hex(b)"@ =~= seq!['h', 'e', 'x', '(', 'b', ')'],
        "hex(2)"@ =~= seq!['h', 'e', 'x', '(', '2', ')'],
        "hex(7)"@ =~= seq!['h', 'e', 'x', '(', '7', ')'],
        "hex:"@ =~= seq!['h', 'e', 'x', ':'],
        "str("@ =~= seq!['s', 't', 'r', '('],
{
    reveal_strlit("sz");
    reveal_strlit("expand_sz");
    reveal_strlit("multi_sz");
    reveal_strlit("dword");
    reveal_strlit("qword");
    reveal_strlit("hex");
    reveal_strlit("hex(");
    reveal_strlit("dword:");
    reveal_strlit("qword:");
    reveal_strlit("hex(b):");
    reveal_strlit("hex(2):");
    reveal_strlit("hex(7):");
    reveal_strlit("hex(b)");
    reveal_strlit("hex(2)");
    reveal_strlit("hex(7)");
    reveal_strlit("hex:");
    reveal_strlit("str(");
}

proof fn lemma_sz_data(s: Seq<char>)
    requires
        no_newline(s),
    ensures
        data_reads_back("sz"@, JValue::Str(s)),
{
    lemma_literals();
    let p = seq!['"'] + escaped(s) + seq!['"'];
    let e = Seq::<char>::empty();
    assert(data_form("sz"@, JValue::Str(s)) == (p, e));
    assert(folded(e) =~= e);
    assert(p + folded(e) =~= p);
    assert(p + e =~= p);
    assert(raw_ok(e)) by {
        assert(fold_pieces(e).len() <= 1) by {
            lemma_find_char_none(e, ',');
            assert(split(e, ',') == seq![e]);
        }
    }
    lemma_escaped_lacks(s, '\n');
    assert forall|i: int| 0 <= i < p.len() implies p[i] != '\n' by {
        if 0 < i < p.len() - 1 {
            assert(p[i] == escaped(s)[i - 1]);
        }
    }
    lemma_trimmed(p);
    assert(p.drop_first() =~= escaped(s) + seq!['"'] + e);
    lemma_unquote_escaped(s, e);
}

proof fn lemma_dword_data(n: u64)
    requires
        n <= 0xffff_ffff,
    ensures
        data_reads_back("dword"@, JValue::Number(JNumber::PosInt(n))),
{
    lemma_literals();
    assert(pow16(8) == 0x1_0000_0000) by {
        reveal_with_fuel(pow16, 9);
    }
    let h = hex_fixed(n as nat, 8);
    lemma_parse_hex_fixed(n as nat, 8, 0xffff_ffff);
    lemma_hex_fixed_digits(n as nat, 8);
    let p = "dword:"@ + h;
    let e = Seq::<char>::empty();
    assert(data_form("dword"@, JValue::Number(JNumber::PosInt(n))) == (p, e));
    assert(folded(e) =~= e);
    assert(p + folded(e) =~= p);
    assert(p + e =~= p);
    assert(raw_ok(e)) by {
        assert(fold_pieces(e).len() <= 1) by {
            lemma_find_char_none(e, ',');
            assert(split(e, ',') == seq![e]);
        }
    }
    assert(p.last() == h[7]);
    assert forall|i: int| 0 <= i < p.len() implies p[i] != '\n' by {
        if i >= 6 {
            assert(p[i] == h[i - 6]);
        }
    }
    lemma_trimmed(p);
    assert(p.skip(6) =~= h);
    assert(((n as nat) as u64) == n);
}

proof fn lemma_raw_data_common(p: Seq<char>, x: Seq<char>)
    requires
        raw_ok(x),
        p.len() > 0,
        !is_ws(p[0]),
        !is_ws(p.last()),
    ensures
        trim(p + x) == p + x,
        trim(x) == x,
{
    lemma_trim_joined(p, x);
}

proof fn lemma_qword_data(s: Seq<char>)
    requires
        raw_ok(s),
    ensures
        data_reads_back("qword"@, JValue::Str(s)),
{
    lemma_literals();
    let p = "hex(b):"@;
    assert(data_form("qword"@, JValue::Str(s)) == (p, s));
    lemma_raw_data_common(p, s);
    let d = p + s;
    assert(d.skip(7) =~= s);
    assert(d[0] == 'h');
    assert(p.is_prefix_of(d));
}

proof fn lemma_hex_data(s: Seq<char>)
    requires
        raw_ok(s),
    ensures
        data_reads_back("hex"@, JValue::Str(s)),
{
    lemma_literals();
    let p = "hex:"@;
    assert(data_form("hex"@, JValue::Str(s)) == (p, s));
    lemma_raw_data_common(p, s);
    let d = p + s;
    assert(d[0] == 'h' && d[1] == 'e' && d[2] == 'x' && d[3] == ':');
    assert(!"hex(b):"@.is_prefix_of(d));
    assert(!"hex(2):"@.is_prefix_of(d));
    assert(!"hex(7):"@.is_prefix_of(d));
    assert("hex"@.is_prefix_of(d));
    lemma_find_char_at(d, ':', 3);
    assert(d.take(3) =~= "hex"@);
    assert(d.skip(4) =~= s);
}

proof fn lemma_raw_tag_data(tag: Seq<char>, s: Seq<char>)
    requires
        raw_tag(tag),
        raw_ok(s),
    ensures
        data_reads_back(tag, JValue::Str(s)),
{
    lemma_literals();
    assert(tag.len() >= 4 && tag[0] == 'h' && tag[1] == 'e' && tag[2] == 'x' && tag[3] == '(');
    assert(tag != "sz"@ && tag != "expand_sz"@ && tag != "multi_sz"@ && tag != "dword"@ && tag
        != "qword"@ && tag != "hex"@);
    let p = tag + seq![':'];
    assert(data_form(tag, JValue::Str(s)) == (p, s));
    assert(p[0] == 'h');
    lemma_raw_data_common(p, s);
    let d = p + s;
    assert(d =~= tag + seq![':'] + s);
    lemma_not_tagged(tag, s, 'b');
    lemma_not_tagged(tag, s, '2');
    lemma_not_tagged(tag, s, '7');
    assert(d[0] == 'h' && d[1] == 'e' && d[2] == 'x');
    assert("hex"@.is_prefix_of(d));
    assert(d[tag.len() as int] == ':');
    assert forall|j: int| 0 <= j < tag.len() implies d[j] != ':' by {
        assert(d[j] == tag[j]);
    }
    lemma_find_char_at(d, ':', tag.len() as int);
    assert(d.take(tag.len() as int) =~= tag);
    assert(d.skip(tag.len() as int + 1) =~= s);
    assert forall|i: int| 0 <= i < p.len() implies p[i] != '\n' by {
        if i < tag.len() {
            assert(p[i] == tag[i]);
        }
    }
    assert("hex("@.is_prefix_of(tag));
}

proof fn lemma_expand_data(s: Seq<char>)
    requires
        without_terminator(s) == s,
    ensures
        data_reads_back("expand_sz"@, JValue::Str(s)),
{
    lemma_literals();
    let p = "hex(2):"@;
    let u = utf16le_hex(s);
    assert(data_form("expand_sz"@, JValue::Str(s)) == (p, u));
    lemma_hex_list_raw_ok(le_bytes(encode_utf16(s)));
    lemma_raw_data_common(p, u);
    lemma_utf16le_round_trip(s);
    let d = p + u;
    assert(d.skip(7) =~= u);
    assert(d[0] == 'h' && d[4] == '2');
    assert(!"hex(b):"@.is_prefix_of(d));
    assert(p.is_prefix_of(d));
}

proof fn lemma_multi_data(items: Seq<JValue>)
    requires
        multi_ok(items),
    ensures
        data_reads_back("multi_sz"@, JValue::Array(items)),
{
    lemma_literals();
    lemma_multi_round_trip(items);
    let c = nul_terminated(items)->0 + seq!['\0'];
    let p = "hex(7):"@;
    let u = utf16le_hex(c);
    assert(data_form("multi_sz"@, JValue::Array(items)) == (p, u));
    lemma_hex_list_raw_ok(le_bytes(encode_utf16(c)));
    lemma_raw_data_common(p, u);
    lemma_utf16le_round_trip(c);
    let d = p + u;
    assert(d.skip(7) =~= u);
    assert(d[0] == 'h' && d[4] == '7');
    assert(!"hex(b):"@.is_prefix_of(d));
    assert(!"hex(2):"@.is_prefix_of(d));
    assert(p.is_prefix_of(d));
}

/// Every value that `typed_ok` admits is written in a form that reads back
/// as the same entry.
pub proof fn lemma_data_round_trip(tag: Seq<char>, val: JValue)
    requires
        typed_ok(tag, val),
    ensures
        data_reads_back(tag, val),
{
    lemma_literals();
    if tag == "sz"@ {
        lemma_sz_data(val->Str_0);
    } else if tag == "expand_sz"@ {
        lemma_expand_data(val->Str_0);
    } else if tag == "multi_sz"@ {
        lemma_multi_data(val->Array_0);
    } else if tag == "dword"@ {
        lemma_dword_data(val->Number_0->PosInt_0);
    } else if tag == "qword"@ {
        lemma_qword_data(val->Str_0);
    } else if tag == "hex"@ {
        lemma_hex_data(val->Str_0);
    } else {
        assert(raw_tag(tag));
        lemma_raw_tag_data(tag, val->Str_0);
    }
}


// ───────────────────────────── entries ─────────────────────────────

/// Whether the entry `name` of a key is written in a form that reads back
/// as itself: a deletion (`null`), or exactly `{"type": tag, "value": v}`
/// with a value its type admits.
pub open spec fn entry_ok(name: Seq<char>, e: JValue) -> bool {
    &&& no_newline(name)
    &&& match e {
        JValue::Null => true,
        JValue::Object(fs) => fs.len() == 2 && fs[0].0 == "type"@ && fs[1].0 == "value"@ && (
        fs[0].1 matches JValue::Str(tag) && typed_ok(tag, fs[1].1)),
        _ => false,
    }
}

/// Whether the entry line written for `e` ends in a backslash (its raw
/// byte list does), so that a following line would be joined to it.
pub open spec fn entry_ends_in_backslash(e: JValue) -> bool {
    match e {
        JValue::Object(fs) => ends_in_backslash(data_form(fs[0].1->Str_0, fs[1].1).1),
        _ => false,
    }
}

/// The physical lines that the entry `name` is written as.
pub open spec fn entry_lines(name: Seq<char>, e: JValue) -> Seq<Seq<char>> {
    match e {
        JValue::Object(fs) => {
            let (p, x) = data_form(fs[0].1->Str_0, fs[1].1);
            fold_lines(quoted_name(name) + seq!['='] + p, x)
        },
        _ => seq![seq!['-'] + quoted_name(name)],
    }
}

/// The logical line that the entry `name` reads back as.
pub open spec fn entry_line(name: Seq<char>, e: JValue) -> Seq<char> {
    match e {
        JValue::Object(fs) => {
            let (p, x) = data_form(fs[0].1->Str_0, fs[1].1);
            quoted_name(name) + seq!['='] + p + x
        },
        _ => seq!['-'] + quoted_name(name),
    }
}

/// Any value name written by `quote_value_name` reads back, by
/// `parse_value_name`, as itself; the default name `(default)` goes through
/// `@` and back.
pub proof fn lemma_value_name_round_trip(name: Seq<char>)
    ensures
        value_name(quoted_name(name)) == Some(name),
{
    let q = quoted_name(name);
    if name == default_name() {
        assert(q == seq!['@']);
        lemma_trimmed(q);
    } else {
        assert(q[0] == '"' && q.last() == '"');
        lemma_trimmed(q);
        assert(q != seq!['@']) by {
            assert(q[0] == '"');
        }
        assert(q.drop_first() =~= escaped(name) + seq!['"'] + Seq::<char>::empty());
        lemma_unquote_escaped(name, Seq::<char>::empty());
    }
}

proof fn lemma_quoted_name(name: Seq<char>)
    requires
        no_newline(name),
    ensures
        quoted_name(name).len() > 0,
        quoted_name(name)[0] == '@' || quoted_name(name)[0] == '"',
        quoted_name(name).last() == '@' || quoted_name(name).last() == '"',
        no_newline(quoted_name(name)),
        trim(quoted_name(name)) == quoted_name(name),
        value_name(quoted_name(name)) == Some(name),
        quoted_name(name)[0] == '@' <==> name == default_name(),
        quoted_name(name)[0] == '@' ==> quoted_name(name) == seq!['@'],
        quoted_name(name)[0] == '"' ==> quoted_name(name).drop_first() == escaped(name) + seq!['"'],
{
    let q = quoted_name(name);
    if name == default_name() {
        assert(q == seq!['@']);
        lemma_trimmed(q);
    } else {
        lemma_escaped_lacks(name, '\n');
        assert forall|i: int| 0 <= i < q.len() implies q[i] != '\n' by {
            if 0 < i < q.len() - 1 {
                assert(q[i] == escaped(name)[i - 1]);
            }
        }
        lemma_trimmed(q);
        assert(q != seq!['@']) by {
            assert(q[0] == '"');
        }
        assert(q.drop_first() =~= escaped(name) + seq!['"'] + Seq::<char>::empty());
        lemma_unquote_escaped(name, Seq::<char>::empty());
    }
}

proof fn lemma_name_and_data(name: Seq<char>, d: Seq<char>)
    requires
        no_newline(name),
        d.len() > 0,
        !is_ws(d[0]),
        !is_ws(d.last()),
    ensures
        name_and_data(quoted_name(name) + seq!['='] + d) == Some((name, d)),
        trim(quoted_name(name) + seq!['='] + d) == quoted_name(name) + seq!['='] + d,
{
    lemma_quoted_name(name);
    let q = quoted_name(name);
    let l = q + seq!['='] + d;
    assert(l[0] == q[0]);
    assert(l.last() == d.last());
    lemma_trimmed(l);
    lemma_trimmed(d);
    if q[0] == '@' {
        assert(l.drop_first() =~= seq!['='] + d);
        assert(l.drop_first().drop_first() =~= d);
    } else {
        assert(l.drop_first() =~= escaped(name) + seq!['"'] + (seq!['='] + d));
        lemma_unquote_escaped(name, seq!['='] + d);
        let r = seq!['='] + d;
        assert(!is_ws(r[0]));
        lemma_trim_start(r, 0);
        assert(r.skip(0) =~= r);
        assert(r.drop_first() =~= d);
    }
}

proof fn lemma_entry_fields(tag: Seq<char>, val: JValue)
    ensures
        entry(tag, val) matches JValue::Object(fs) && obj_get(fs, "type"@) == Some(JValue::Str(tag))
            && obj_get(fs, "value"@) == Some(val),
{
    reveal_strlit("type");
    reveal_strlit("value");
    let fs = seq![("type"@, JValue::Str(tag)), ("value"@, val)];
    assert("type"@ != "value"@) by {
        assert("type"@[0] != "value"@[0]);
    }
    assert(fs.drop_first() =~= seq![("value"@, val)]);
    assert(obj_index(fs.drop_first(), "value"@) == Some(0int));
    assert(obj_index(fs, "value"@) == Some(1int));
}

proof fn lemma_head(name: Seq<char>, p: Seq<char>)
    requires
        no_newline(name),
        no_newline(p),
        p.len() > 0,
    ensures
        (quoted_name(name) + seq!['='] + p)[0] == quoted_name(name)[0],
        (quoted_name(name) + seq!['='] + p).last() == p.last(),
        no_newline(quoted_name(name) + seq!['='] + p),
{
    lemma_quoted_name(name);
    let q = quoted_name(name);
    let head = q + seq!['='] + p;
    assert forall|i: int| 0 <= i < head.len() implies head[i] != '\n' by {
        if i < q.len() {
            assert(head[i] == q[i]);
        } else if i > q.len() {
            assert(head[i] == p[i - q.len() - 1]);
        }
    }
}

proof fn lemma_typed_entry_text(name: Seq<char>, tag: Seq<char>, val: JValue)
    requires
        no_newline(name),
        data_reads_back(tag, val),
    ensures
        entry_text(name, entry(tag, val)) == Some(
            unlines(fold_lines(quoted_name(name) + seq!['='] + data_form(tag, val).0, data_form(tag, val).1)),
        ),
{
    lemma_entry_fields(tag, val);
    let (p, x) = data_form(tag, val);
    let head = quoted_name(name) + seq!['='] + p;
    lemma_unlines_fold(head, x);
    assert(quoted_name(name) + seq!['='] + (p + folded(x)) + seq!['\r', '\n'] =~= head + folded(x) + seq!['\r', '\n']);
}

proof fn lemma_typed_entry_lines(name: Seq<char>, tag: Seq<char>, val: JValue)
    requires
        no_newline(name),
        data_reads_back(tag, val),
    ensures
        forall|i: int|
            0 <= i < fold_lines(quoted_name(name) + seq!['='] + data_form(tag, val).0, data_form(tag, val).1).len()
                ==> no_newline(
                #[trigger] fold_lines(quoted_name(name) + seq!['='] + data_form(tag, val).0, data_form(tag, val).1)[i],
            ),
{
    let (p, x) = data_form(tag, val);
    let head = quoted_name(name) + seq!['='] + p;
    lemma_head(name, p);
    assert(lacks(x, '\n'));
    lemma_fold_pieces_lack(x, '\n');
    let fl = fold_lines(head, x);
    assert forall|i: int| 0 <= i < fl.len() implies no_newline(#[trigger] fl[i]) by {
        lemma_fold_lines_lack(head, x, i);
    }
}

proof fn lemma_typed_entry_line(name: Seq<char>, tag: Seq<char>, val: JValue, es: Seq<(Seq<char>, JValue)>)
    requires
        no_newline(name),
        data_reads_back(tag, val),
    ensures
        ({
            let j = quoted_name(name) + seq!['='] + data_form(tag, val).0 + data_form(tag, val).1;
            &&& j.len() > 0
            &&& (j[0] == '@' || j[0] == '"')
            &&& !is_ws(j.last())
            &&& (!ends_in_backslash(data_form(tag, val).1) ==> !ends_in_backslash(j))
            &&& trim(j) == j
            &&& value_line(j, es) == Outcome::Done(obj_insert(es, name, entry(tag, val)))
        }),
{
    lemma_quoted_name(name);
    let q = quoted_name(name);
    let (p, x) = data_form(tag, val);
    let j = q + seq!['='] + p + x;
    let d = p + x;
    assert(j =~= q + seq!['='] + d);
    lemma_trim_joined(p, x);
    assert(d[0] == p[0]);
    if x.len() > 0 {
        assert(d.last() == x.last());
    } else {
        assert(d =~= p);
    }
    assert(j.last() == d.last());
    lemma_name_and_data(name, d);
    assert(j[0] == q[0]);
}

/// An entry is written as lines that read back, once the line is ended,
/// as the same entry.
pub proof fn lemma_entry_round_trip(name: Seq<char>, e: JValue, es: Seq<(Seq<char>, JValue)>)
    requires
        entry_ok(name, e),
    ensures
        entry_text(name, e) == Some(unlines(entry_lines(name, e))),
        forall|i: int| 0 <= i < entry_lines(name, e).len() ==> no_newline(#[trigger] entry_lines(name, e)[i]),
        entry_line(name, e).len() > 0,
        !is_ws(entry_line(name, e)[0]),
        !is_ws(entry_line(name, e).last()),
        !entry_ends_in_backslash(e) ==> !ends_in_backslash(entry_line(name, e)),
        entry_line(name, e)[0] != ';' && entry_line(name, e)[0] != '#' && entry_line(name, e)[0] != '[',
        trim(entry_line(name, e)) == entry_line(name, e),
        value_line(entry_line(name, e), es) == Outcome::Done(obj_insert(es, name, e)),
{
    lemma_quoted_name(name);
    let q = quoted_name(name);
    match e {
        JValue::Object(fs) => {
            let tag = fs[0].1->Str_0;
            let val = fs[1].1;
            assert(e == entry(tag, val)) by {
                assert(fs =~= seq![("type"@, JValue::Str(tag)), ("value"@, val)]);
            }
            lemma_data_round_trip(tag, val);
            lemma_typed_entry_text(name, tag, val);
            lemma_typed_entry_lines(name, tag, val);
            lemma_typed_entry_line(name, tag, val, es);
        },
        _ => {
            let j = seq!['-'] + q;
            assert(j.last() == q.last());
            lemma_trimmed(j);
            assert(j.drop_first() =~= q);
            assert forall|i: int| 0 <= i < j.len() implies j[i] != '\n' by {
                if i > 0 {
                    assert(j[i] == q[i - 1]);
                }
            }
            lemma_unlines_one(j);
            assert(entry_lines(name, e) == seq![j]);
        },
    }
}

proof fn lemma_fold_lines_lack(prefix: Seq<char>, x: Seq<char>, i: int)
    requires
        no_newline(prefix),
        no_newline(x),
        forall|k: int| 0 <= k < fold_pieces(x).len() ==> lacks(#[trigger] fold_pieces(x)[k], '\n'),
        0 <= i < fold_lines(prefix, x).len(),
    ensures
        no_newline(fold_lines(prefix, x)[i]),
{
    let ls = fold_pieces(x);
    lemma_fold_pieces_join(x);
    if ls.len() <= 1 {
        let l = prefix + folded(x);
        assert(folded(x) =~= x) by {
            if x.len() > 0 {
                assert(join(ls, seq![',']) == ls[0]);
            }
        }
        assert forall|j: int| 0 <= j < l.len() implies l[j] != '\n' by {
            if j >= prefix.len() {
                assert(l[j] == x[j - prefix.len()]);
            }
        }
    } else if i == 0 {
        let l = prefix + ls[0] + seq![',', '\\'];
        assert(lacks(ls[0], '\n'));
        assert forall|j: int| 0 <= j < l.len() implies l[j] != '\n' by {
            if j >= prefix.len() && j < prefix.len() + ls[0].len() {
                assert(l[j] == ls[0][j - prefix.len()]);
            }
        }
    } else {
        lemma_cont_lines_lack(ls.drop_first(), i - 1);
    }
}

proof fn lemma_cont_lines_lack(ls: Seq<Seq<char>>, i: int)
    requires
        forall|k: int| 0 <= k < ls.len() ==> lacks(#[trigger] ls[k], '\n'),
        0 <= i < cont_lines(ls).len(),
    ensures
        no_newline(cont_lines(ls)[i]),
    decreases ls.len(),
{
    if ls.len() <= 1 {
        let l = seq![' ', ' '] + ls[i];
        assert(lacks(ls[i], '\n'));
        assert forall|j: int| 0 <= j < l.len() implies l[j] != '\n' by {
            if j >= 2 {
                assert(l[j] == ls[i][j - 2]);
            }
        }
    } else if i == 0 {
        let l = seq![' ', ' '] + ls[0] + seq![',', '\\'];
        assert(lacks(ls[0], '\n'));
        assert forall|j: int| 0 <= j < l.len() implies l[j] != '\n' by {
            if j >= 2 && j < 2 + ls[0].len() {
                assert(l[j] == ls[0][j - 2]);
            }
        }
    } else {
        assert forall|k: int| 0 <= k < ls.drop_first().len() implies lacks(#[trigger] ls.drop_first()[k], '\n') by {
            assert(ls.drop_first()[k] == ls[k + 1]);
        }
        lemma_cont_lines_lack(ls.drop_first(), i - 1);
    }
}


// ───────────────────────────── reading entries ─────────────────────────────

proof fn lemma_flush_logical(st: RegState)
    ensures
        flush(st) matches Outcome::Done(s) ==> s.logical == Seq::<char>::empty(),
{
}

proof fn lemma_flush_idle(st: RegState)
    requires
        st.logical == Seq::<char>::empty(),
    ensures
        flush(st) == Outcome::Done(st),
{
    assert(trim(st.logical) =~= Seq::<char>::empty()) by {
        assert(trim_start(st.logical) =~= st.logical);
        assert(trim_end(st.logical) =~= st.logical);
    }
}

/// Reading the lines of an entry ends the pending line and makes the
/// entry's logical line the pending one.
pub proof fn lemma_read_entry(st: RegState, name: Seq<char>, e: JValue)
    requires
        entry_ok(name, e),
        !ends_in_backslash(st.logical),
    ensures
        read_lines(st, entry_lines(name, e)) == match flush(st) {
            Outcome::Done(s1) => Outcome::Done(
                RegState { root: s1.root, cur: s1.cur, logical: entry_line(name, e) },
            ),
            o => o,
        },
{
    lemma_quoted_name(name);
    lemma_flush_logical(st);
    let q = quoted_name(name);
    match e {
        JValue::Object(fs) => {
            let tag = fs[0].1->Str_0;
            let val = fs[1].1;
            lemma_data_round_trip(tag, val);
            let (p, x) = data_form(tag, val);
            let head = q + seq!['='] + p;
            lemma_head(name, p);
            assert(!ends_in_backslash(head));
            lemma_read_fold(st, head, x);
            match flush(st) {
                Outcome::Done(s1) => {
                    assert(s1.logical + head + x =~= entry_line(name, e));
                },
                _ => {},
            }
        },
        _ => {
            let j = seq!['-'] + q;
            assert(j.last() == q.last());
            lemma_step_start(st, j);
            assert(entry_lines(name, e) == seq![j]);
            match flush(st) {
                Outcome::Done(s1) => {
                    let s2 = RegState { root: s1.root, cur: s1.cur, logical: s1.logical + j };
                    assert(s1.logical + j =~= j);
                    assert(seq![j].drop_first() =~= Seq::<Seq<char>>::empty());
                    assert(read_lines(s2, seq![j].drop_first()) == Outcome::Done(s2));
                },
                _ => {},
            }
        },
    }
}

/// `es` with a larger key added at the end.
proof fn lemma_push_larger(es: Seq<(Seq<char>, JValue)>, k: Seq<char>, v: JValue)
    requires
        forall|i: int| 0 <= i < es.len() ==> key_lt(#[trigger] es[i].0, k),
    ensures
        obj_index(es, k) is None,
        obj_insert(es, k, v) == es.push((k, v)),
        obj_entry_or_insert(es, k, v) == es.push((k, v)),
        obj_index(es.push((k, v)), k) == Some(es.len() as int),
        obj_get(es.push((k, v)), k) == Some(v),
{
    lemma_obj_index(es, k);
    lemma_obj_lower(es, k);
    lemma_key_lt_irreflexive(k);
    assert forall|i: int| 0 <= i < es.len() implies es[i].0 != k by {
        assert(key_lt(es[i].0, k));
    }
    if obj_lower(es, k) < es.len() {
        assert(key_lt(es[obj_lower(es, k)].0, k));
    }
    assert(es.insert(es.len() as int, (k, v)) =~= es.push((k, v)));
    let t = es.push((k, v));
    lemma_obj_index(t, k);
    assert forall|i: int| 0 <= i < es.len() implies t[i].0 != k by {
        assert(t[i] == es[i]);
    }
    assert(t[es.len() as int].0 == k);
    match obj_index(t, k) {
        Some(i) => {
            if i < es.len() {
                assert(t[i].0 != k);
            } else if i > es.len() {
                assert(t[es.len() as int].0 != k);
            }
        },
        None => {
            assert(t[es.len() as int].0 != k);
        },
    }
}

/// The last entry of `es + [(k, v0)]` set to `v1`.
proof fn lemma_update_last(es: Seq<(Seq<char>, JValue)>, k: Seq<char>, v0: JValue, v1: JValue)
    requires
        forall|i: int| 0 <= i < es.len() ==> key_lt(#[trigger] es[i].0, k),
    ensures
        obj_entry_or_insert(es.push((k, v0)), k, v1) == es.push((k, v0)),
        obj_insert(es.push((k, v0)), k, v1) == es.push((k, v1)),
        obj_get(es.push((k, v0)), k) == Some(v0),
{
    lemma_push_larger(es, k, v0);
    assert(es.push((k, v0)).update(es.len() as int, (k, v1)) =~= es.push((k, v1)));
}

/// Whether a key holding `sv` is written in a form that reads back as
/// itself: a deletion (`null`), or an object of entries that do.
pub open spec fn section_ok(k: Seq<char>, sv: JValue) -> bool {
    &&& no_newline(k)
    &&& lacks(k, ']')
    &&& match sv {
        JValue::Null => true,
        JValue::Object(es) => !(k.len() > 0 && k[0] == '-') && keys_sorted(es) && (forall|j: int|
            0 <= j < es.len() ==> entry_ok(#[trigger] es[j].0, es[j].1)) && (forall|j: int|
            0 <= j < es.len() - 1 ==> !entry_ends_in_backslash(#[trigger] es[j].1)),
        _ => false,
    }
}

/// The physical lines of the entries `es`, in order.
pub open spec fn entries_lines(es: Seq<(Seq<char>, JValue)>) -> Seq<Seq<char>>
    decreases es.len(),
{
    if es.len() == 0 {
        Seq::empty()
    } else {
        entries_lines(es.drop_last()) + entry_lines(es.last().0, es.last().1)
    }
}

proof fn lemma_entries_prefix_ok(es: Seq<(Seq<char>, JValue)>)
    requires
        keys_sorted(es),
        forall|j: int| 0 <= j < es.len() ==> entry_ok(#[trigger] es[j].0, es[j].1),
        es.len() > 0,
    ensures
        keys_sorted(es.drop_last()),
        forall|j: int| 0 <= j < es.drop_last().len() ==> entry_ok(#[trigger] es.drop_last()[j].0, es.drop_last()[j].1),
        forall|i: int| 0 <= i < es.drop_last().len() ==> key_lt(#[trigger] es.drop_last()[i].0, es.last().0),
        entry_ok(es.last().0, es.last().1),
{
    let init = es.drop_last();
    assert forall|j: int| 0 <= j < init.len() implies entry_ok(#[trigger] init[j].0, init[j].1) by {
        assert(init[j] == es[j]);
    }
    assert forall|i: int| 0 <= i < init.len() implies key_lt(#[trigger] init[i].0, es.last().0) by {
        assert(init[i] == es[i]);
        assert(es.last() == es[es.len() - 1]);
    }
    assert forall|i: int, j: int| 0 <= i < j < init.len() implies key_lt(#[trigger] init[i].0, #[trigger] init[j].0) by {
        assert(init[i] == es[i] && init[j] == es[j]);
    }
    assert(es.last() == es[es.len() - 1]);
}

/// Reading the lines of the entries of key `k`, started after `R`: the
/// key ends up holding exactly those entries.
pub proof fn lemma_read_entries(
    st: RegState,
    r: Seq<(Seq<char>, JValue)>,
    k: Seq<char>,
    es: Seq<(Seq<char>, JValue)>,
)
    requires
        forall|i: int| 0 <= i < r.len() ==> key_lt(#[trigger] r[i].0, k),
        keys_sorted(es),
        forall|j: int| 0 <= j < es.len() ==> entry_ok(#[trigger] es[j].0, es[j].1),
        forall|j: int| 0 <= j < es.len() - 1 ==> !entry_ends_in_backslash(#[trigger] es[j].1),
        !ends_in_backslash(st.logical),
        flush(st) == Outcome::Done(
            RegState { root: r.push((k, JValue::Object(Seq::empty()))), cur: Some(k), logical: Seq::empty() },
        ),
    ensures
        read_lines(st, entries_lines(es)) matches Outcome::Done(s2) && (!ends_in_backslash(s2.logical)
            || (es.len() > 0 && entry_ends_in_backslash(es.last().1))) && flush(s2) == Outcome::Done(
            RegState { root: r.push((k, JValue::Object(es))), cur: Some(k), logical: Seq::empty() },
        ),
    decreases es.len(),
{
    if es.len() == 0 {
        assert(entries_lines(es) =~= Seq::<Seq<char>>::empty());
        assert(es =~= Seq::<(Seq<char>, JValue)>::empty());
    } else {
        let init = es.drop_last();
        let (n, e) = es.last();
        lemma_entries_prefix_ok(es);
        assert forall|j: int| 0 <= j < init.len() - 1 implies !entry_ends_in_backslash(#[trigger] init[j].1) by {
            assert(init[j] == es[j]);
        }
        lemma_read_entries(st, r, k, init);
        let s2 = read_lines(st, entries_lines(init))->Done_0;
        if init.len() > 0 {
            assert(init.last() == es[es.len() - 2]);
            assert(!entry_ends_in_backslash(es[es.len() - 2].1));
        }
        lemma_read_lines_add(st, entries_lines(init), entry_lines(n, e));
        lemma_read_entry(s2, n, e);
        let s1 = RegState { root: r.push((k, JValue::Object(init))), cur: Some(k), logical: Seq::empty() };
        let s3 = RegState { root: s1.root, cur: s1.cur, logical: entry_line(n, e) };
        assert(read_lines(st, entries_lines(es)) == Outcome::Done(s3));
        lemma_entry_round_trip(n, e, init);
        lemma_update_last(r, k, JValue::Object(init), JValue::Object(obj_insert(init, n, e)));
        lemma_push_larger(init, n, e);
        assert(init.push((n, e)) =~= es);
        assert(flush(s3) == Outcome::Done(
            RegState { root: r.push((k, JValue::Object(es))), cur: Some(k), logical: Seq::empty() },
        ));
    }
}


// ───────────────────────────── keys and the whole file ─────────────────────────────

/// The physical lines written for key `k` holding `sv`: a blank line, the
/// `[..]` header, and the entries.
pub open spec fn section_lines(k: Seq<char>, sv: JValue) -> Seq<Seq<char>> {
    match sv {
        JValue::Null => seq![Seq::<char>::empty(), seq!['[', '-'] + k + seq![']']],
        _ => seq![Seq::<char>::empty(), seq!['['] + k + seq![']']] + entries_lines(sv->Object_0),
    }
}

/// The physical lines written for all keys, in order.
pub open spec fn doc_lines(root: Seq<(Seq<char>, JValue)>) -> Seq<Seq<char>>
    decreases root.len(),
{
    if root.len() == 0 {
        Seq::empty()
    } else {
        doc_lines(root.drop_last()) + section_lines(root.last().0, root.last().1)
    }
}

proof fn lemma_lines_add_ok(a: Seq<Seq<char>>, b: Seq<Seq<char>>)
    requires
        forall|i: int| 0 <= i < a.len() ==> no_newline(#[trigger] a[i]),
        forall|i: int| 0 <= i < b.len() ==> no_newline(#[trigger] b[i]),
    ensures
        forall|i: int| 0 <= i < (a + b).len() ==> no_newline(#[trigger] (a + b)[i]),
{
    assert forall|i: int| 0 <= i < (a + b).len() implies no_newline(#[trigger] (a + b)[i]) by {
        if i < a.len() {
            assert((a + b)[i] == a[i]);
        } else {
            assert((a + b)[i] == b[i - a.len()]);
        }
    }
}

proof fn lemma_entries_text(es: Seq<(Seq<char>, JValue)>)
    requires
        forall|j: int| 0 <= j < es.len() ==> entry_ok(#[trigger] es[j].0, es[j].1),
    ensures
        entries_text(es) == Some(unlines(entries_lines(es))),
        forall|i: int| 0 <= i < entries_lines(es).len() ==> no_newline(#[trigger] entries_lines(es)[i]),
    decreases es.len(),
{
    if es.len() == 0 {
        assert(entries_lines(es) =~= Seq::<Seq<char>>::empty());
    } else {
        let init = es.drop_last();
        assert forall|j: int| 0 <= j < init.len() implies entry_ok(#[trigger] init[j].0, init[j].1) by {
            assert(init[j] == es[j]);
        }
        lemma_entries_text(init);
        assert(es.last() == es[es.len() - 1]);
        lemma_entry_round_trip(es.last().0, es.last().1, Seq::empty());
        lemma_unlines_add(entries_lines(init), entry_lines(es.last().0, es.last().1));
        lemma_lines_add_ok(entries_lines(init), entry_lines(es.last().0, es.last().1));
    }
}

proof fn lemma_section_text(k: Seq<char>, sv: JValue)
    requires
        section_ok(k, sv),
    ensures
        section_text(k, sv) == Some(unlines(section_lines(k, sv))),
        forall|i: int| 0 <= i < section_lines(k, sv).len() ==> no_newline(#[trigger] section_lines(k, sv)[i]),
{
    let e = Seq::<char>::empty();
    match sv {
        JValue::Null => {
            let h = seq!['[', '-'] + k + seq![']'];
            let ls = seq![e, h];
            assert(ls.drop_first() =~= seq![h]);
            lemma_unlines_one(h);
            assert(unlines(ls) =~= seq!['\r', '\n'] + h + seq!['\r', '\n']);
            assert(seq!['\r', '\n', '[', '-'] + k + seq![']', '\r', '\n'] =~= seq!['\r', '\n'] + h + seq!['\r', '\n']);
            assert forall|i: int| 0 <= i < h.len() implies h[i] != '\n' by {
                if 2 <= i < h.len() - 1 {
                    assert(h[i] == k[i - 2]);
                }
            }
        },
        _ => {
            let es = sv->Object_0;
            let h = seq!['['] + k + seq![']'];
            lemma_entries_text(es);
            let ls = seq![e, h];
            assert(ls.drop_first() =~= seq![h]);
            lemma_unlines_one(h);
            assert(unlines(ls) =~= seq!['\r', '\n'] + h + seq!['\r', '\n']);
            lemma_unlines_add(ls, entries_lines(es));
            assert(seq!['\r', '\n', '['] + k + seq![']', '\r', '\n'] + unlines(entries_lines(es))
                =~= unlines(ls) + unlines(entries_lines(es)));
            assert forall|i: int| 0 <= i < h.len() implies h[i] != '\n' by {
                if 1 <= i < h.len() - 1 {
                    assert(h[i] == k[i - 1]);
                }
            }
            assert forall|i: int| 0 <= i < ls.len() implies no_newline(#[trigger] ls[i]) by {
                if i == 1 {
                    assert(ls[1] == h);
                }
            }
            lemma_lines_add_ok(ls, entries_lines(es));
        },
    }
}

/// Reading the lines of key `k`, started after the keys `r`: the key ends
/// up holding `sv`.
pub proof fn lemma_read_section(st: RegState, r: Seq<(Seq<char>, JValue)>, k: Seq<char>, sv: JValue)
    requires
        forall|i: int| 0 <= i < r.len() ==> key_lt(#[trigger] r[i].0, k),
        section_ok(k, sv),
        flush(st) matches Outcome::Done(s) && s.root == r,
    ensures
        read_lines(st, section_lines(k, sv)) matches Outcome::Done(s2) && (flush(s2) matches Outcome::Done(
            s3,
        ) && s3.root == r.push((k, sv))),
{
    let e = Seq::<char>::empty();
    let s1 = flush(st)->Done_0;
    lemma_flush_logical(st);
    lemma_step_blank(st);
    lemma_flush_idle(s1);
    let head_lines = match sv {
        JValue::Null => seq![e, seq!['[', '-'] + k + seq![']']],
        _ => seq![e, seq!['['] + k + seq![']']],
    };
    let inner = match sv {
        JValue::Null => seq!['-'] + k,
        _ => k,
    };
    assert(head_lines[1] =~= seq!['['] + inner + seq![']']);
    assert(lacks(inner, ']')) by {
        assert forall|i: int| 0 <= i < inner.len() implies inner[i] != ']' by {
            if sv is Null && i > 0 {
                assert(inner[i] == k[i - 1]);
            }
        }
    }
    assert(!ends_in_backslash(s1.logical));
    lemma_step_header(s1, inner);
    let sh = header_state(s1, inner);
    assert(read_lines(st, head_lines) == Outcome::Done(sh)) by {
        assert(head_lines[0] == e);
        assert(line_step(st, head_lines[0]) == Outcome::Done(s1));
        assert(line_step(s1, head_lines[1]) == Outcome::Done(sh));
        let rest = head_lines.drop_first();
        assert(rest =~= seq![head_lines[1]]);
        assert(rest[0] == head_lines[1]);
        assert(rest.drop_first() =~= Seq::<Seq<char>>::empty());
        assert(read_lines(sh, rest.drop_first()) == Outcome::Done(sh));
        assert(read_lines(s1, rest) == Outcome::Done(sh));
    }
    lemma_push_larger(r, k, sv);
    lemma_push_larger(r, k, JValue::Object(Seq::empty()));
    match sv {
        JValue::Null => {
            assert(inner.drop_first() =~= k);
            assert(section_lines(k, sv) == head_lines);
            lemma_flush_idle(sh);
        },
        _ => {
            let es = sv->Object_0;
            assert(section_lines(k, sv) == head_lines + entries_lines(es));
            lemma_read_lines_add(st, head_lines, entries_lines(es));
            lemma_flush_idle(sh);
            lemma_read_entries(sh, r, k, es);
        },
    }
}

/// Whether `v` is a registry document that `serialize` writes in a form
/// that reads back: an object of keys in order, each key but `__header__`
/// holding `null` or entries that do, and `__header__`, where present, one
/// of the known header lines.
pub open spec fn reg_document(v: JValue) -> bool {
    &&& v matches JValue::Object(root)
    &&& keys_sorted(v->Object_0)
    &&& forall|i: int|
        0 <= i < v->Object_0.len() && v->Object_0[i].0 != "__header__"@ ==> section_ok(
            #[trigger] v->Object_0[i].0,
            v->Object_0[i].1,
        )
    &&& obj_get(v->Object_0, "__header__"@) matches Some(x) ==> (x matches JValue::Str(h) && known_header(h))
}

/// `v` with the header line it is written with kept under `__header__`:
/// what reading the written text gives.
pub open spec fn with_header(v: JValue) -> JValue {
    match v {
        JValue::Object(root) => JValue::Object(obj_insert(root, "__header__"@, JValue::Str(doc_header(root)))),
        _ => v,
    }
}

proof fn lemma_root_prefix_ok(root: Seq<(Seq<char>, JValue)>)
    requires
        keys_sorted(root),
        forall|i: int| 0 <= i < root.len() ==> section_ok(#[trigger] root[i].0, root[i].1),
        root.len() > 0,
    ensures
        keys_sorted(root.drop_last()),
        forall|i: int| 0 <= i < root.drop_last().len() ==> section_ok(#[trigger] root.drop_last()[i].0, root.drop_last()[i].1),
        forall|i: int| 0 <= i < root.drop_last().len() ==> key_lt(#[trigger] root.drop_last()[i].0, root.last().0),
        section_ok(root.last().0, root.last().1),
{
    let init = root.drop_last();
    assert forall|j: int| 0 <= j < init.len() implies section_ok(#[trigger] init[j].0, init[j].1) by {
        assert(init[j] == root[j]);
    }
    assert forall|i: int| 0 <= i < init.len() implies key_lt(#[trigger] init[i].0, root.last().0) by {
        assert(init[i] == root[i]);
        assert(root.last() == root[root.len() - 1]);
    }
    assert forall|i: int, j: int| 0 <= i < j < init.len() implies key_lt(#[trigger] init[i].0, #[trigger] init[j].0) by {
        assert(init[i] == root[i] && init[j] == root[j]);
    }
    assert(root.last() == root[root.len() - 1]);
}

proof fn lemma_doc_text(root: Seq<(Seq<char>, JValue)>)
    requires
        keys_sorted(root),
        forall|i: int| 0 <= i < root.len() ==> section_ok(#[trigger] root[i].0, root[i].1),
        forall|i: int| 0 <= i < root.len() ==> (#[trigger] root[i]).0 != "__header__"@,
    ensures
        sections_text(root) == Some(unlines(doc_lines(root))),
        forall|i: int| 0 <= i < doc_lines(root).len() ==> no_newline(#[trigger] doc_lines(root)[i]),
    decreases root.len(),
{
    if root.len() == 0 {
        assert(doc_lines(root) =~= Seq::<Seq<char>>::empty());
    } else {
        lemma_root_prefix_ok(root);
        assert(root.last() == root[root.len() - 1]);
        assert forall|i: int| 0 <= i < root.drop_last().len() implies (#[trigger] root.drop_last()[i]).0 != "__header__"@ by {
            assert(root.drop_last()[i] == root[i]);
        }
        lemma_doc_text(root.drop_last());
        lemma_section_text(root.last().0, root.last().1);
        lemma_unlines_add(doc_lines(root.drop_last()), section_lines(root.last().0, root.last().1));
        lemma_lines_add_ok(doc_lines(root.drop_last()), section_lines(root.last().0, root.last().1));
    }
}

proof fn lemma_read_doc(root: Seq<(Seq<char>, JValue)>)
    requires
        keys_sorted(root),
        forall|i: int| 0 <= i < root.len() ==> section_ok(#[trigger] root[i].0, root[i].1),
    ensures
        read_lines(RegState { root: Seq::empty(), cur: None, logical: Seq::empty() }, doc_lines(root))
            matches Outcome::Done(s) && (flush(s) matches Outcome::Done(s3) && s3.root == root),
    decreases root.len(),
{
    let init = RegState { root: Seq::empty(), cur: None, logical: Seq::empty() };
    if root.len() == 0 {
        assert(doc_lines(root) =~= Seq::<Seq<char>>::empty());
        lemma_flush_idle(init);
        assert(root =~= Seq::<(Seq<char>, JValue)>::empty());
    } else {
        lemma_root_prefix_ok(root);
        let r = root.drop_last();
        lemma_read_doc(r);
        let s = read_lines(init, doc_lines(r))->Done_0;
        lemma_read_lines_add(init, doc_lines(r), section_lines(root.last().0, root.last().1));
        lemma_read_section(s, r, root.last().0, root.last().1);
        assert(r.push(root.last()) =~= root);
    }
}

/// Facts of the known header lines: one non-empty trimmed line, starting
/// with a letter.
proof fn lemma_known_header(h: Seq<char>)
    requires
        known_header(h),
    ensures
        no_newline(h),
        trim(h) == h,
        h.len() > 0,
        h[0] == 'W' || h[0] == 'R',
{
    reveal_strlit("Windows Registry Editor Version 5.00");
    reveal_strlit("REGEDIT4");
    reveal_strlit("WINE REGISTRY Version 2");
    lemma_trimmed(h);
}

/// The text written for a sequence of keys does not depend on an entry
/// `__header__`.
proof fn lemma_sections_skip(r: Seq<(Seq<char>, JValue)>, i: int)
    requires
        0 <= i < r.len(),
        r[i].0 == "__header__"@,
    ensures
        sections_text(r) == sections_text(r.remove(i)),
    decreases r.len(),
{
    let r2 = r.remove(i);
    if i == r.len() - 1 {
        assert(r2 =~= r.drop_last());
        assert(r.last() == r[i]);
    } else {
        lemma_sections_skip(r.drop_last(), i);
        assert(r.drop_last().remove(i) =~= r2.drop_last());
        assert(r2.last() == r.last());
    }
}

/// A registry document written by `serialize` reads back, by `parse`, as the
/// same document, with the header line it was written with under
/// `__header__`: exactly the same document where it holds its header.
pub proof fn lemma_reg_round_trip(v: JValue)
    requires
        reg_document(v),
    ensures
        reg_text(v) matches Some(t) && reg_parse(t) == Outcome::Done(with_header(v)),
        obj_get(v->Object_0, "__header__"@) is Some ==> with_header(v) == v,
{
    let root = v->Object_0;
    let hk = "__header__"@;
    let r0 = crate::value::obj_remove(root, hk);
    crate::value::lemma_remove_sorted(root, hk);
    lemma_obj_index(root, hk);
    crate::value::lemma_sorted_unique_index(root, hk);
    match obj_index(root, hk) {
        Some(idx) => {
            assert(r0 == root.remove(idx));
            assert forall|i: int| 0 <= i < r0.len() implies (#[trigger] r0[i]).0 != hk && section_ok(r0[i].0, r0[i].1) by {
                if i < idx {
                    assert(r0[i] == root[i]);
                } else {
                    assert(r0[i] == root[i + 1]);
                }
            }
            lemma_sections_skip(root, idx);
        },
        None => {
            assert(r0 == root);
            assert forall|i: int| 0 <= i < r0.len() implies (#[trigger] r0[i]).0 != hk && section_ok(r0[i].0, r0[i].1) by {
                assert(r0[i] == root[i]);
            }
        },
    }
    assert forall|i: int| 0 <= i < r0.len() implies section_ok(#[trigger] r0[i].0, r0[i].1) by {
        assert(r0[i].0 != hk);
    }
    lemma_doc_text(r0);
    let h = doc_header(root);
    reveal_strlit("Windows Registry Editor Version 5.00");
    assert(known_header(h));
    lemma_known_header(h);
    let body = unlines(doc_lines(r0));
    let all = seq![h] + doc_lines(r0);
    assert(all.drop_first() =~= doc_lines(r0));
    assert(unlines(all) =~= h + seq!['\r', '\n'] + body);
    let out = h + seq!['\r', '\n'] + body;
    assert(out =~= unlines(all));
    assert(seq!['\r', '\n'].is_suffix_of(out)) by {
        if body.len() == 0 {
            assert(out =~= h + seq!['\r', '\n']);
        } else {
            lemma_unlines_ends(doc_lines(r0));
        }
        assert(out[out.len() - 2] == '\r' && out[out.len() - 1] == '\n');
        assert(out.subrange(out.len() - 2, out.len() as int) =~= seq!['\r', '\n']);
    }
    assert(reg_text(v) == Some(out));
    assert forall|i: int| 0 <= i < all.len() implies no_newline(#[trigger] all[i]) by {
        if i == 0 {
            assert(all[0] == h);
        } else {
            assert(all[i] == doc_lines(r0)[i - 1]);
        }
    }
    lemma_lines_unlines(all);
    assert(out[0] == h[0]);
    assert(without_bom(out) == out);
    let ls = lines(out);
    assert(ls == all);
    assert(ls[0] == h);
    assert(first_content_line(ls) == Some(0int));
    assert(known_header(trim(ls[0])));
    assert(ls.skip(1) =~= doc_lines(r0));
    lemma_read_doc(r0);
    let x = JValue::Str(h);
    crate::value::lemma_insert_sorted(r0, hk, x);
    crate::value::lemma_insert_sorted(root, hk, x);
    assert(obj_map(r0).insert(hk, x) =~= obj_map(root).insert(hk, x));
    crate::value::lemma_sorted_map_unique(obj_insert(r0, hk, x), obj_insert(root, hk, x));
    assert(reg_parse(out) == Outcome::Done(with_header(v)));
    if obj_get(root, hk) is Some {
        let idx = obj_index(root, hk)->0;
        assert(root[idx] == (hk, x));
        assert(obj_insert(root, hk, x) =~= root);
    }
}

proof fn lemma_unlines_ends(ls: Seq<Seq<char>>)
    requires
        ls.len() > 0,
    ensures
        unlines(ls).len() >= 2,
        unlines(ls)[unlines(ls).len() - 2] == '\r',
        unlines(ls)[unlines(ls).len() - 1] == '\n',
    decreases ls.len(),
{
    if ls.len() == 1 {
        lemma_unlines_one(ls[0]);
        assert(ls =~= seq![ls[0]]);
    } else {
        lemma_unlines_ends(ls.drop_first());
    }
}

// ───────────────────────────── Wine str(N) data ─────────────────────────────

/// The data part `str(N):"…"` with code digit `c` around the escaped text `s`.
pub open spec fn wine_str_data(c: char, s: Seq<char>) -> Seq<char> {
    seq!['s', 't', 'r', '(', c, ')', ':', '"'] + escaped(s) + seq!['"']
}

proof fn lemma_wine_str_read(c: char, n: nat, s: Seq<char>)
    requires
        (c == '1' && n == 1) || (c == '2' && n == 2) || (c == '7' && n == 7),
    ensures
        data_entry(wine_str_data(c, s)) == Outcome::Done(crate::formats::reg::str_entry(n, s)),
{
    lemma_literals();
    reveal_strlit("):");
    let d = wine_str_data(c, s);
    assert(d[0] == 's' && d.last() == '"');
    lemma_trimmed(d);
    assert(!"dword:"@.is_prefix_of(d));
    assert(!"qword:"@.is_prefix_of(d));
    assert(!"hex(b):"@.is_prefix_of(d));
    assert(!"hex(2):"@.is_prefix_of(d));
    assert(!"hex(7):"@.is_prefix_of(d));
    assert(!"hex"@.is_prefix_of(d));
    assert("str("@.is_prefix_of(d));
    let rest = d.skip(4);
    let tail = seq!['"'] + escaped(s) + seq!['"'];
    assert(rest =~= seq![c, ')', ':'] + tail);
    let lit = "):"@;
    assert(lit =~= seq![')', ':']);
    assert(!lit.is_prefix_of(rest));
    assert(rest.drop_first() =~= seq![')', ':'] + tail);
    assert(lit.is_prefix_of(rest.drop_first()));
    assert(crate::text::find_seq(rest.drop_first(), lit) == Some(0int));
    assert(crate::text::find_seq(rest, lit) == Some(1int));
    assert(rest.take(1) =~= seq![c]);
    assert(seq![c].drop_last() =~= Seq::<char>::empty());
    assert(digits_value(Seq::<char>::empty(), 10) == Some(0nat));
    assert(seq![c].last() == c);
    assert(('1' as u32) == 49 && ('2' as u32) == 50 && ('7' as u32) == 55);
    assert(c as u32 == 48 + n);
    assert(digit_value(c, 10) == Some(n));
    assert(digits_value(seq![c], 10) == Some(n));
    assert(parse_unsigned(seq![c], 10, 0xffff_ffff) == Some(n));
    let q = rest.skip(1 + lit.len() as int);
    assert(q =~= tail);
    assert(q.drop_first() =~= escaped(s) + seq!['"'] + Seq::<char>::empty());
    lemma_unquote_escaped(s, Seq::<char>::empty());
}

/// Wine's `str(N):"…"` data reads as the type its code names, with the text
/// between the quotes unescaped: code 1 is `sz`, code 2 is `expand_sz`
/// (REG_EXPAND_SZ), code 7 is `multi_sz` (the text split at its NULs, empty
/// pieces left out).
pub proof fn lemma_wine_str_types(s: Seq<char>)
    ensures
        data_entry(wine_str_data('1', s)) == Outcome::Done(entry("sz"@, JValue::Str(s))),
        data_entry(wine_str_data('2', s)) == Outcome::Done(entry("expand_sz"@, JValue::Str(s))),
        data_entry(wine_str_data('7', s)) == Outcome::Done(
            entry("multi_sz"@, JValue::Array(multi_items(split(crate::formats::reg::nul_escapes(s), '\0')))),
        ),
{
    lemma_wine_str_read('1', 1, s);
    lemma_wine_str_read('2', 2, s);
    lemma_wine_str_read('7', 7, s);
}

// ───────────────────────────── qword bytes ─────────────────────────────

/// The number that the bytes `bs` denote, least significant first.
pub open spec fn le_value(bs: Seq<u8>) -> nat
    decreases bs.len(),
{
    if bs.len() == 0 {
        0
    } else {
        bs[0] as nat + 256 * le_value(bs.drop_first())
    }
}

/// `256` to the power `k`.
pub open spec fn pow256(k: nat) -> nat
    decreases k,
{
    if k == 0 {
        1
    } else {
        256 * pow256((k - 1) as nat)
    }
}

proof fn lemma_low_bytes_value(n: nat, k: nat)
    requires
        n < pow256(k),
    ensures
        low_bytes(n, k).len() == k,
        le_value(low_bytes(n, k)) == n,
    decreases k,
{
    if k > 0 {
        let p = pow256((k - 1) as nat);
        assert(n / 256 < p) by (nonlinear_arith)
            requires
                n < 256 * p,
        ;
        lemma_low_bytes_value(n / 256, (k - 1) as nat);
        let bs = low_bytes(n, k);
        assert(bs.drop_first() =~= low_bytes(n / 256, (k - 1) as nat));
        assert(bs[0] as nat == n % 256);
        assert(n % 256 + 256 * (n / 256) == n) by (nonlinear_arith);
    }
}

/// A qword given as an integer is written as the eight bytes that denote it
/// least significant first (little-endian), as a byte list that reads back
/// as those bytes.
pub proof fn lemma_qword_little_endian(n: u64)
    ensures
        exists|bs: Seq<u8>|
            {
                &&& bs.len() == 8
                &&& le_value(bs) == n
                &&& hex_bytes(join(hex_pairs(bs), seq![','])) == Some(bs)
                &&& data_text("qword"@, JValue::Number(JNumber::PosInt(n))) == Some(
                    "hex(b):"@ + folded(join(hex_pairs(bs), seq![','])),
                )
            },
{
    lemma_literals();
    reveal_with_fuel(pow256, 9);
    assert(pow256(8) == 0x1_0000_0000_0000_0000nat);
    let bs = low_bytes(n as nat, 8);
    lemma_low_bytes_value(n as nat, 8);
    lemma_hex_bytes_pairs(bs);
    assert(data_text("qword"@, JValue::Number(JNumber::PosInt(n))) == Some(
        "hex(b):"@ + folded(join(hex_pairs(bs), seq![','])),
    ));
}

} // verus!
