//! Numbers written as text, and text written as UTF-16.
use vstd::prelude::*;
use vstd::utf8::is_scalar;

verus! {

// ───────────────────────────── reading integers ─────────────────────────────

/// The value of digit `c` in base `radix` (at most 36), as `char::to_digit` gives it.
pub open spec fn digit_value(c: char, radix: nat) -> Option<nat> {
    let n = c as u32;
    let d: int = if 48 <= n <= 57 {
        n - 48
    } else if 97 <= n <= 122 {
        n - 97 + 10
    } else if 65 <= n <= 90 {
        n - 65 + 10
    } else {
        radix as int
    };
    if 0 <= d < radix {
        Some(d as nat)
    } else {
        None
    }
}

/// The value of the digits `ds` in base `radix`.
pub open spec fn digits_value(ds: Seq<char>, radix: nat) -> Option<nat>
    decreases ds.len(),
{
    if ds.len() == 0 {
        Some(0)
    } else {
        match (digits_value(ds.drop_last(), radix), digit_value(ds.last(), radix)) {
            (Some(v), Some(d)) => Some(v * radix + d),
            _ => None,
        }
    }
}

/// What `from_str_radix` gives for an unsigned type whose largest value is
/// `max`: an optional `+`, then one or more digits, with a value at most `max`.
pub open spec fn parse_unsigned(s: Seq<char>, radix: nat, max: nat) -> Option<nat> {
    if s.len() == 0 {
        None
    } else if s[0] == '+' && s.len() == 1 {
        None
    } else if s[0] == '-' && s.len() == 1 {
        None
    } else {
        let ds = if s[0] == '+' {
            s.drop_first()
        } else {
            s
        };
        match digits_value(ds, radix) {
            Some(v) => if v <= max {
                Some(v)
            } else {
                None
            },
            None => None,
        }
    }
}

proof fn lemma_digits_grow(ds: Seq<char>, i: int, radix: nat)
    requires
        0 <= i <= ds.len(),
        radix >= 1,
        digits_value(ds.take(i), radix) is Some,
    ensures
        digits_value(ds, radix) matches Some(w) ==> w >= digits_value(ds.take(i), radix)->0,
    decreases ds.len() - i,
{
    if i < ds.len() {
        let t = ds.take(i + 1);
        assert(t.drop_last() =~= ds.take(i));
        if digits_value(t, radix) is Some {
            let v = digits_value(ds.take(i), radix)->0;
            let d = digit_value(t.last(), radix)->0;
            assert(v * radix + d >= v) by (nonlinear_arith)
                requires
                    radix >= 1,
                    d >= 0,
                    v >= 0,
            ;
            lemma_digits_grow(ds, i + 1, radix);
        } else {
            lemma_digits_none(ds, i + 1, radix);
        }
    } else {
        assert(ds.take(i) =~= ds);
    }
}

proof fn lemma_digits_none(ds: Seq<char>, i: int, radix: nat)
    requires
        0 <= i <= ds.len(),
        digits_value(ds.take(i), radix) is None,
    ensures
        digits_value(ds, radix) is None,
    decreases ds.len() - i,
{
    if i < ds.len() {
        assert(ds.take(i + 1).drop_last() =~= ds.take(i));
        lemma_digits_none(ds, i + 1, radix);
    } else {
        assert(ds.take(i) =~= ds);
    }
}

/// `from_str_radix` for an unsigned type whose largest value is `max`.
pub fn parse_unsigned_chars(s: &Vec<char>, radix: u32, max: u32) -> (r: Option<u32>)
    requires
        2 <= radix <= 36,
    ensures
        match parse_unsigned(s@, radix as nat, max as nat) {
            Some(v) => r == Some(v as u32),
            None => r is None,
        },
{
    let n = s.len();
    if n == 0 {
        return None;
    }
    if n == 1 && (s[0] == '+' || s[0] == '-') {
        return None;
    }
    let start: usize = if s[0] == '+' { 1 } else { 0 };
    let ghost ds = if s@[0] == '+' { s@.drop_first() } else { s@ };
    assert(ds =~= s@.subrange(start as int, n as int));
    let mut v: u64 = 0;
    let mut i = start;
    assert(ds.take(0) =~= Seq::<char>::empty());
    while i < n
        invariant
            start <= i <= n,
            n == s@.len(),
            2 <= radix <= 36,
            ds == s@.subrange(start as int, n as int),
            n >= 1,
            ds == (if s@[0] == '+' { s@.drop_first() } else { s@ }),
            !(n == 1 && (s@[0] == '+' || s@[0] == '-')),
            digits_value(ds.take(i - start), radix as nat) == Some(v as nat),
            v <= max,
        decreases n - i,
    {
        let c = s[i];
        let cn = c as u32;
        assert(cn == c as u32);
        let d: u32 = if 48 <= cn && cn <= 57 {
            cn - 48
        } else if 97 <= cn && cn <= 122 {
            cn - 97 + 10
        } else if 65 <= cn && cn <= 90 {
            cn - 65 + 10
        } else {
            radix
        };
        let ghost t = ds.take(i - start + 1);
        assert(t.drop_last() =~= ds.take(i - start));
        assert(t.last() == c);
        if d >= radix {
            proof {
                lemma_digits_none(ds, i - start + 1, radix as nat);
            }
            return None;
        }
        assert(v * (radix as u64) <= 0xffff_ffffu64 * 36) by (nonlinear_arith)
            requires
                v <= 0xffff_ffff,
                radix <= 36,
        ;
        let w = v * (radix as u64) + (d as u64);
        if w > max as u64 {
            proof {
                lemma_digits_grow(ds, i - start + 1, radix as nat);
            }
            return None;
        }
        v = w;
        i = i + 1;
    }
    assert(ds.take(n - start) =~= ds);
    Some(v as u32)
}

// ───────────────────────────── writing integers ─────────────────────────────

/// The lowercase hexadecimal digit for `d < 16`.
pub open spec fn hex_digit(d: nat) -> char {
    if d < 10 {
        (48 + d) as char
    } else {
        (87 + d) as char
    }
}

/// The last `width` hexadecimal digits of `n`, most significant first.
pub open spec fn hex_fixed(n: nat, width: nat) -> Seq<char>
    decreases width,
{
    if width == 0 {
        Seq::empty()
    } else {
        hex_fixed(n / 16, (width - 1) as nat).push(hex_digit(n % 16))
    }
}

/// The decimal digits of `n`.
pub open spec fn decimal(n: nat) -> Seq<char>
    decreases n,
{
    if n < 10 {
        seq![(48 + n) as char]
    } else {
        decimal(n / 10).push((48 + n % 10) as char)
    }
}

fn hex_digit_char(d: u64) -> (r: char)
    requires
        d < 16,
    ensures
        r == hex_digit(d as nat),
{
    if d < 10 {
        ((48 + d) as u8) as char
    } else {
        ((87 + d) as u8) as char
    }
}

/// The last `width` hexadecimal digits of `n`.
pub fn hex_digits(n: u64, width: usize) -> (r: Vec<char>)
    ensures
        r@ == hex_fixed(n as nat, width as nat),
    decreases width,
{
    if width == 0 {
        Vec::new()
    } else {
        let mut r = hex_digits(n / 16, width - 1);
        r.push(hex_digit_char(n % 16));
        r
    }
}

/// The decimal digits of `n`.
pub fn decimal_digits(n: u64) -> (r: Vec<char>)
    ensures
        r@ == decimal(n as nat),
    decreases n,
{
    if n < 10 {
        let mut r = Vec::new();
        r.push(((48 + n) as u8) as char);
        r
    } else {
        let mut r = decimal_digits(n / 10);
        r.push(((48 + n % 10) as u8) as char);
        r
    }
}


// ───────────────────────────── UTF-16 ─────────────────────────────

/// The UTF-16 code units of `c`.
pub open spec fn utf16_units(c: char) -> Seq<u16> {
    let n = c as u32;
    if n < 0x10000 {
        seq![n as u16]
    } else {
        let m = (n - 0x10000) as nat;
        seq![(0xD800 + m / 1024) as u16, (0xDC00 + m % 1024) as u16]
    }
}

/// The UTF-16 code units of `s`.
pub open spec fn encode_utf16(s: Seq<char>) -> Seq<u16>
    decreases s.len(),
{
    if s.len() == 0 {
        Seq::empty()
    } else {
        encode_utf16(s.drop_last()) + utf16_units(s.last())
    }
}

/// The characters that UTF-16 code units `us` encode; `None` when a
/// surrogate is unpaired.
pub open spec fn decode_utf16(us: Seq<u16>) -> Option<Seq<char>>
    decreases us.len(),
{
    if us.len() == 0 {
        Some(Seq::empty())
    } else {
        let u = us[0] as u32;
        if u < 0xD800 || u > 0xDFFF {
            match decode_utf16(us.drop_first()) {
                Some(r) => Some(seq![u as char] + r),
                None => None,
            }
        } else if u <= 0xDBFF && us.len() >= 2 && 0xDC00 <= us[1] <= 0xDFFF {
            let c = (0x10000 + (u - 0xD800) * 1024 + (us[1] - 0xDC00)) as u32 as char;
            match decode_utf16(us.skip(2)) {
                Some(r) => Some(seq![c] + r),
                None => None,
            }
        } else {
            None
        }
    }
}

/// The bytes of `us`, each unit little-endian.
pub open spec fn le_bytes(us: Seq<u16>) -> Seq<u8>
    decreases us.len(),
{
    if us.len() == 0 {
        Seq::empty()
    } else {
        le_bytes(us.drop_last()) + seq![(us.last() % 256) as u8, (us.last() / 256) as u8]
    }
}

/// The units that little-endian byte pairs `bs` hold.
pub open spec fn le_units(bs: Seq<u8>) -> Seq<u16>
    decreases bs.len(),
{
    if bs.len() < 2 {
        Seq::empty()
    } else {
        seq![(bs[0] + 256 * bs[1]) as u16] + le_units(bs.skip(2))
    }
}

/// `char::from_u32`: the character with scalar value `u`.
///
/// Calls `char::from_u32`, which std documents as returning `None` exactly
/// when `u` is not a Unicode scalar value, and otherwise the `char` whose
/// value is `u`.
#[verifier::external_body]
fn char_from_scalar(u: u32) -> (r: Option<char>)
    ensures
        match r {
            Some(c) => is_scalar(u) && c as u32 == u,
            None => !is_scalar(u),
        },
{
    char::from_u32(u)
}

/// Decodes UTF-16 code units (`String::from_utf16`).
pub fn decode_utf16_units(us: &Vec<u16>) -> (r: Option<Vec<char>>)
    ensures
        match decode_utf16(us@) {
            Some(cs) => r matches Some(v) && v@ == cs,
            None => r is None,
        },
{
    let mut out: Vec<char> = Vec::new();
    let n = us.len();
    let mut i: usize = 0;
    assert(us@.skip(0) =~= us@);
    while i < n
        invariant
            i <= n,
            n == us@.len(),
            match decode_utf16(us@.skip(i as int)) {
                Some(r) => decode_utf16(us@) == Some(out@ + r),
                None => decode_utf16(us@) is None,
            },
        decreases n - i,
    {
        let ghost rest = us@.skip(i as int);
        assert(rest[0] == us@[i as int]);
        let u = us[i] as u32;
        let ghost before = out@;
        if u < 0xD800 || u > 0xDFFF {
            assert(rest.drop_first() =~= us@.skip(i + 1));
            match char_from_scalar(u) {
                Some(c) => {
                    proof {
                        vstd::utf8::char_u32_cast(c, u);
                    }
                    out.push(c);
                    proof {
                        match decode_utf16(us@.skip(i + 1)) {
                            Some(r) => {
                                assert(before + (seq![c] + r) =~= out@ + r);
                            },
                            None => {},
                        }
                    }
                },
                None => {
                    return None;
                },
            }
            i = i + 1;
        } else if u <= 0xDBFF && i + 1 < n && 0xDC00 <= us[i + 1] && us[i + 1] <= 0xDFFF {
            let lo = us[i + 1] as u32;
            assert(rest[1] == us@[i + 1]);
            assert(rest.skip(2) =~= us@.skip(i + 2));
            let code = 0x10000 + (u - 0xD800) * 1024 + (lo - 0xDC00);
            match char_from_scalar(code) {
                Some(c) => {
                    proof {
                        vstd::utf8::char_u32_cast(c, code);
                    }
                    out.push(c);
                    proof {
                        match decode_utf16(us@.skip(i + 2)) {
                            Some(r) => {
                                assert(before + (seq![c] + r) =~= out@ + r);
                            },
                            None => {},
                        }
                    }
                },
                None => {
                    return None;
                },
            }
            i = i + 2;
        } else {
            return None;
        }
    }
    assert(us@.skip(i as int) =~= Seq::<u16>::empty());
    assert(out@ + Seq::<char>::empty() =~= out@);
    Some(out)
}

/// The UTF-16 code units of `s`.
pub fn encode_utf16_chars(s: &Vec<char>) -> (r: Vec<u16>)
    ensures
        r@ == encode_utf16(s@),
{
    let mut r: Vec<u16> = Vec::new();
    let n = s.len();
    for i in 0..n
        invariant
            n == s@.len(),
            r@ == encode_utf16(s@.take(i as int)),
    {
        let c = s[i];
        proof {
            vstd::utf8::char_is_scalar(c);
        }
        let u = c as u32;
        let ghost before = r@;
        if u < 0x10000 {
            r.push(u as u16);
        } else {
            let m = u - 0x10000;
            r.push((0xD800 + m / 1024) as u16);
            r.push((0xDC00 + m % 1024) as u16);
        }
        assert(s@.take(i + 1).drop_last() =~= s@.take(i as int));
        assert(s@.take(i + 1).last() == c);
        assert(r@ =~= before + utf16_units(c));
    }
    assert(s@.take(n as int) =~= s@);
    r
}

/// The little-endian bytes of `us`.
pub fn le_bytes_of(us: &Vec<u16>) -> (r: Vec<u8>)
    ensures
        r@ == le_bytes(us@),
{
    let mut r: Vec<u8> = Vec::new();
    let n = us.len();
    for i in 0..n
        invariant
            n == us@.len(),
            r@ == le_bytes(us@.take(i as int)),
    {
        let u = us[i];
        let ghost before = r@;
        r.push((u % 256) as u8);
        r.push((u / 256) as u8);
        assert(us@.take(i + 1).drop_last() =~= us@.take(i as int));
        assert(us@.take(i + 1).last() == u);
        assert(r@ =~= before + seq![(u % 256) as u8, (u / 256) as u8]);
    }
    assert(us@.take(n as int) =~= us@);
    r
}

/// The units that the little-endian byte pairs of `bs` hold.
pub fn le_units_of(bs: &Vec<u8>) -> (r: Vec<u16>)
    ensures
        r@ == le_units(bs@),
{
    let mut r: Vec<u16> = Vec::new();
    let n = bs.len();
    let mut i: usize = 0;
    assert(bs@.skip(0) =~= bs@);
    assert(r@ + le_units(bs@.skip(0)) =~= le_units(bs@));
    while i < n && n - i >= 2
        invariant
            i <= n,
            n == bs@.len(),
            r@ + le_units(bs@.skip(i as int)) == le_units(bs@),
        decreases n - i,
    {
        let ghost rest = bs@.skip(i as int);
        assert(rest[0] == bs@[i as int]);
        assert(rest[1] == bs@[i + 1]);
        assert(rest.skip(2) =~= bs@.skip(i + 2));
        let u = (bs[i] as u16) + 256 * (bs[i + 1] as u16);
        let ghost before = r@;
        r.push(u);
        assert(before + (seq![u] + le_units(bs@.skip(i + 2))) =~= r@ + le_units(bs@.skip(i + 2)));
        i = i + 2;
    }
    assert(bs@.skip(i as int).len() < 2);
    assert(r@ + Seq::<u16>::empty() =~= r@);
    r
}

} // verus!
