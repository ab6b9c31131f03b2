//! Character-level text operations, each with its specification.
use vstd::prelude::*;
use crate::value::key_lt;

verus! {

/// The characters of `s`, in order.
pub fn chars_of(s: &str) -> (r: Vec<char>)
    ensures
        r@ == s@,
{
    let mut r: Vec<char> = Vec::new();
    for c in it: s.chars()
        invariant
            r@ == it.seq().take(it.index() as int),
    {
        r.push(c);
    }
    r
}


/// Appends `c` to `s`.
///
/// Calls `String::push`, which std documents as appending the character to
/// the end of the string.
#[verifier::external_body]
fn push_char(s: &mut String, c: char)
    ensures
        final(s)@ == old(s)@.push(c),
{
    s.push(c);
}

/// The string made of the characters of `v`.
pub fn string_of(v: &Vec<char>) -> (r: String)
    ensures
        r@ == v@,
{
    let mut r = String::new();
    let n = v.len();
    for i in 0..n
        invariant
            n == v@.len(),
            r@ == v@.take(i as int),
    {
        push_char(&mut r, v[i]);
        assert(v@.take(i + 1) == v@.take(i as int).push(v@[i as int]));
    }
    assert(v@.take(n as int) == v@);
    r
}


/// Whether `a` and `b` hold the same characters.
pub fn text_eq(a: &str, b: &str) -> (r: bool)
    ensures
        r == (a@ == b@),
{
    let x = chars_of(a);
    let y = chars_of(b);
    chars_eq(&x, &y)
}

/// Whether two character vectors are equal.
pub fn chars_eq(x: &Vec<char>, y: &Vec<char>) -> (r: bool)
    ensures
        r == (x@ == y@),
{
    if x.len() != y.len() {
        return false;
    }
    let n = x.len();
    for i in 0..n
        invariant
            n == x@.len(),
            n == y@.len(),
            forall|j: int| 0 <= j < i ==> x@[j] == y@[j],
    {
        if x[i] != y[i] {
            return false;
        }
    }
    assert(x@ =~= y@);
    true
}

proof fn lemma_key_lt_skip(a: Seq<char>, b: Seq<char>, i: int)
    requires
        0 <= i <= a.len(),
        i <= b.len(),
        a.take(i) == b.take(i),
    ensures
        key_lt(a, b) == key_lt(a.skip(i), b.skip(i)),
    decreases i,
{
    if i > 0 {
        assert(a[0] == a.take(i)[0]);
        assert(b[0] == b.take(i)[0]);
        assert(a.drop_first().take(i - 1) =~= a.take(i).drop_first());
        assert(b.drop_first().take(i - 1) =~= b.take(i).drop_first());
        lemma_key_lt_skip(a.drop_first(), b.drop_first(), i - 1);
        assert(a.drop_first().skip(i - 1) =~= a.skip(i));
        assert(b.drop_first().skip(i - 1) =~= b.skip(i));
    } else {
        assert(a.skip(0) =~= a);
        assert(b.skip(0) =~= b);
    }
}

/// Whether `a` sorts strictly before `b` (code point order).
pub fn key_less(a: &str, b: &str) -> (r: bool)
    ensures
        r == key_lt(a@, b@),
{
    let x = chars_of(a);
    let y = chars_of(b);
    let mut i: usize = 0;
    while i < x.len() && i < y.len()
        invariant
            i <= x@.len(),
            i <= y@.len(),
            x@ == a@,
            y@ == b@,
            x@.take(i as int) == y@.take(i as int),
        decreases x@.len() - i,
    {
        if x[i] != y[i] {
            proof {
                lemma_key_lt_skip(x@, y@, i as int);
                assert(x@.skip(i as int)[0] == x@[i as int]);
                assert(y@.skip(i as int)[0] == y@[i as int]);
            }
            return x[i] < y[i];
        }
        assert(x@.take(i + 1) =~= x@.take(i as int).push(x@[i as int]));
        assert(y@.take(i + 1) =~= y@.take(i as int).push(y@[i as int]));
        i = i + 1;
    }
    proof {
        lemma_key_lt_skip(x@, y@, i as int);
    }
    i == x.len() && i < y.len()
}


// ───────────────────────────── specifications ─────────────────────────────

/// Unicode `White_Space`, as `char::is_whitespace` defines it.
pub open spec fn is_ws(c: char) -> bool {
    let n = c as u32;
    (0x9 <= n <= 0xd) || n == 0x20 || n == 0x85 || n == 0xa0 || n == 0x1680 || (0x2000 <= n
        <= 0x200a) || n == 0x2028 || n == 0x2029 || n == 0x202f || n == 0x205f || n == 0x3000
}

/// `s` without leading whitespace.
pub open spec fn trim_start(s: Seq<char>) -> Seq<char>
    decreases s.len(),
{
    if s.len() > 0 && is_ws(s[0]) {
        trim_start(s.drop_first())
    } else {
        s
    }
}

/// `s` without trailing whitespace.
pub open spec fn trim_end(s: Seq<char>) -> Seq<char>
    decreases s.len(),
{
    if s.len() > 0 && is_ws(s.last()) {
        trim_end(s.drop_last())
    } else {
        s
    }
}

/// `s` without leading and trailing whitespace.
pub open spec fn trim(s: Seq<char>) -> Seq<char> {
    trim_end(trim_start(s))
}

/// Index of the first `c` in `s`.
pub open spec fn find_char(s: Seq<char>, c: char) -> Option<int>
    decreases s.len(),
{
    if s.len() == 0 {
        None
    } else if s[0] == c {
        Some(0)
    } else {
        match find_char(s.drop_first(), c) {
            Some(i) => Some(i + 1),
            None => None,
        }
    }
}

/// Index of the first occurrence of `p` in `s`.
pub open spec fn find_seq(s: Seq<char>, p: Seq<char>) -> Option<int>
    decreases s.len(),
{
    if p.is_prefix_of(s) {
        Some(0)
    } else if s.len() == 0 {
        None
    } else {
        match find_seq(s.drop_first(), p) {
            Some(i) => Some(i + 1),
            None => None,
        }
    }
}

/// A line without its line ending: a final `'\r'` is dropped.
pub open spec fn strip_cr(l: Seq<char>) -> Seq<char> {
    if l.len() > 0 && l.last() == '\r' {
        l.drop_last()
    } else {
        l
    }
}

/// The lines of `s` as `str::lines` gives them: split after each `'\n'`,
/// without the `"\n"` or `"\r\n"` ending; no line after a final `'\n'`.
pub open spec fn lines(s: Seq<char>) -> Seq<Seq<char>>
    decreases s.len(),
{
    if s.len() == 0 {
        Seq::empty()
    } else {
        match find_char(s, '\n') {
            None => seq![s],
            Some(i) => {
                proof {
                    lemma_find_char(s, '\n');
                }
                seq![strip_cr(s.take(i))] + lines(s.skip(i + 1))
            },
        }
    }
}

/// The pieces of `s` between occurrences of `c`, as `str::split` gives them.
pub open spec fn split(s: Seq<char>, c: char) -> Seq<Seq<char>>
    decreases s.len(),
{
    match find_char(s, c) {
        None => seq![s],
        Some(i) => {
            proof {
                lemma_find_char(s, c);
            }
            seq![s.take(i)] + split(s.skip(i + 1), c)
        },
    }
}

/// The views of a sequence of character vectors.
pub open spec fn views(v: Seq<Vec<char>>) -> Seq<Seq<char>> {
    Seq::new(v.len(), |i: int| v[i]@)
}

// ───────────────────────────── lemmas ─────────────────────────────

pub proof fn lemma_find_char(s: Seq<char>, c: char)
    ensures
        match find_char(s, c) {
            Some(i) => 0 <= i < s.len() && s[i] == c && forall|j: int| 0 <= j < i ==> s[j] != c,
            None => forall|j: int| 0 <= j < s.len() ==> s[j] != c,
        },
    decreases s.len(),
{
    if s.len() > 0 {
        lemma_find_char(s.drop_first(), c);
        if s[0] != c {
            assert forall|j: int| 1 <= j < s.len() implies s[j] == s.drop_first()[j - 1] by {}
        }
    }
}

pub proof fn lemma_find_seq(s: Seq<char>, p: Seq<char>)
    ensures
        match find_seq(s, p) {
            Some(i) => 0 <= i <= s.len() && p.is_prefix_of(s.skip(i)) && forall|j: int|
                0 <= j < i ==> !p.is_prefix_of(#[trigger] s.skip(j)),
            None => forall|j: int| 0 <= j <= s.len() ==> !p.is_prefix_of(#[trigger] s.skip(j)),
        },
    decreases s.len(),
{
    assert(s.skip(0) =~= s);
    if !p.is_prefix_of(s) && s.len() > 0 {
        lemma_find_seq(s.drop_first(), p);
        assert forall|j: int| 1 <= j <= s.len() implies s.skip(j) =~= s.drop_first().skip(j - 1) by {}
        match find_seq(s.drop_first(), p) {
            Some(i) => {
                assert(s.skip(i + 1) =~= s.drop_first().skip(i));
                assert forall|j: int| 0 <= j < i + 1 implies !p.is_prefix_of(#[trigger] s.skip(j)) by {
                    if j > 0 {
                        assert(s.skip(j) =~= s.drop_first().skip(j - 1));
                    }
                }
            },
            None => {
                assert forall|j: int| 0 <= j <= s.len() implies !p.is_prefix_of(#[trigger] s.skip(j)) by {
                    if j > 0 {
                        assert(s.skip(j) =~= s.drop_first().skip(j - 1));
                    }
                }
            },
        }
    }
}

pub proof fn lemma_trim_start(s: Seq<char>, i: int)
    requires
        0 <= i <= s.len(),
        forall|j: int| 0 <= j < i ==> is_ws(s[j]),
        i == s.len() || !is_ws(s[i]),
    ensures
        trim_start(s) == s.skip(i),
    decreases i,
{
    if i > 0 {
        assert forall|j: int| 0 <= j < i - 1 implies is_ws(s.drop_first()[j]) by {
            assert(s.drop_first()[j] == s[j + 1]);
        }
        if i < s.len() {
            assert(s.drop_first()[i - 1] == s[i]);
        }
        lemma_trim_start(s.drop_first(), i - 1);
        assert(s.drop_first().skip(i - 1) =~= s.skip(i));
    } else {
        assert(s.skip(0) =~= s);
    }
}

pub proof fn lemma_trim_end(s: Seq<char>, i: int)
    requires
        0 <= i <= s.len(),
        forall|j: int| i <= j < s.len() ==> is_ws(s[j]),
        i == 0 || !is_ws(s[i - 1]),
    ensures
        trim_end(s) == s.take(i),
    decreases s.len() - i,
{
    if i < s.len() {
        assert forall|j: int| i <= j < s.len() - 1 implies is_ws(s.drop_last()[j]) by {}
        lemma_trim_end(s.drop_last(), i);
        assert(s.drop_last().take(i) =~= s.take(i));
    } else {
        assert(s.take(i) =~= s);
    }
}

// ───────────────────────────── executable operations ─────────────────────────────

/// `char::is_whitespace`.
pub fn is_whitespace(c: char) -> (r: bool)
    ensures
        r == is_ws(c),
{
    let n = c as u32;
    (0x9 <= n && n <= 0xd) || n == 0x20 || n == 0x85 || n == 0xa0 || n == 0x1680 || (0x2000 <= n
        && n <= 0x200a) || n == 0x2028 || n == 0x2029 || n == 0x202f || n == 0x205f || n == 0x3000
}

/// The characters `s[i..j]`.
pub fn slice_of(s: &Vec<char>, i: usize, j: usize) -> (r: Vec<char>)
    requires
        i <= j <= s@.len(),
    ensures
        r@ == s@.subrange(i as int, j as int),
{
    let mut r: Vec<char> = Vec::new();
    let mut k = i;
    while k < j
        invariant
            i <= k <= j <= s@.len(),
            r@ == s@.subrange(i as int, k as int),
        decreases j - k,
    {
        r.push(s[k]);
        assert(s@.subrange(i as int, k + 1) =~= s@.subrange(i as int, k as int).push(s@[k as int]));
        k = k + 1;
    }
    r
}

/// `s` without leading whitespace.
pub fn trim_start_chars(s: &Vec<char>) -> (r: Vec<char>)
    ensures
        r@ == trim_start(s@),
{
    let mut i: usize = 0;
    while i < s.len() && is_whitespace(s[i])
        invariant
            i <= s@.len(),
            forall|j: int| 0 <= j < i ==> is_ws(s@[j]),
        decreases s@.len() - i,
    {
        i = i + 1;
    }
    proof {
        lemma_trim_start(s@, i as int);
    }
    assert(s@.skip(i as int) =~= s@.subrange(i as int, s@.len() as int));
    slice_of(s, i, s.len())
}

/// `s` without trailing whitespace.
pub fn trim_end_chars(s: &Vec<char>) -> (r: Vec<char>)
    ensures
        r@ == trim_end(s@),
{
    let mut i: usize = s.len();
    while i > 0 && is_whitespace(s[i - 1])
        invariant
            i <= s@.len(),
            forall|j: int| i <= j < s@.len() ==> is_ws(s@[j]),
        decreases i,
    {
        i = i - 1;
    }
    proof {
        lemma_trim_end(s@, i as int);
    }
    assert(s@.take(i as int) =~= s@.subrange(0, i as int));
    slice_of(s, 0, i)
}

/// `s` without leading and trailing whitespace.
pub fn trim_chars(s: &Vec<char>) -> (r: Vec<char>)
    ensures
        r@ == trim(s@),
{
    let t = trim_start_chars(s);
    trim_end_chars(&t)
}

/// Whether `s` begins with `p`.
pub fn starts_with(s: &Vec<char>, p: &Vec<char>) -> (r: bool)
    ensures
        r == p@.is_prefix_of(s@),
{
    if p.len() > s.len() {
        return false;
    }
    let n = p.len();
    for i in 0..n
        invariant
            n == p@.len(),
            n <= s@.len(),
            forall|j: int| 0 <= j < i ==> p@[j] == s@[j],
    {
        if p[i] != s[i] {
            return false;
        }
    }
    assert(p@ =~= s@.subrange(0, n as int));
    true
}

/// Whether `s` begins with the characters of `p`.
pub fn starts_with_str(s: &Vec<char>, p: &str) -> (r: bool)
    ensures
        r == p@.is_prefix_of(s@),
{
    let pc = chars_of(p);
    starts_with(s, &pc)
}

/// Whether `s` holds exactly the characters of `p`.
pub fn eq_str(s: &Vec<char>, p: &str) -> (r: bool)
    ensures
        r == (s@ == p@),
{
    let pc = chars_of(p);
    chars_eq(s, &pc)
}

/// Index of the first `c` in `s`.
pub fn find_char_in(s: &Vec<char>, c: char) -> (r: Option<usize>)
    ensures
        match find_char(s@, c) {
            Some(i) => r == Some(i as usize),
            None => r is None,
        },
{
    proof {
        lemma_find_char(s@, c);
    }
    let n = s.len();
    for i in 0..n
        invariant
            n == s@.len(),
            forall|j: int| 0 <= j < i ==> s@[j] != c,
            match find_char(s@, c) {
                Some(i) => 0 <= i < s@.len() && s@[i] == c && forall|j: int|
                    0 <= j < i ==> s@[j] != c,
                None => forall|j: int| 0 <= j < s@.len() ==> s@[j] != c,
            },
    {
        if s[i] == c {
            return Some(i);
        }
    }
    None
}

/// Index of the first occurrence of `p` in `s`.
pub fn find_seq_in(s: &Vec<char>, p: &Vec<char>) -> (r: Option<usize>)
    ensures
        match find_seq(s@, p@) {
            Some(i) => r == Some(i as usize),
            None => r is None,
        },
{
    proof {
        lemma_find_seq(s@, p@);
    }
    let n = s.len();
    let mut i: usize = 0;
    while i <= n
        invariant
            n == s@.len(),
            forall|j: int| 0 <= j < i ==> !p@.is_prefix_of(#[trigger] s@.skip(j)),
            match find_seq(s@, p@) {
                Some(i) => 0 <= i <= s@.len() && p@.is_prefix_of(s@.skip(i)) && forall|j: int|
                    0 <= j < i ==> !p@.is_prefix_of(#[trigger] s@.skip(j)),
                None => forall|j: int| 0 <= j <= s@.len() ==> !p@.is_prefix_of(#[trigger] s@.skip(j)),
            },
        decreases n + 1 - i,
    {
        let rest = slice_of(s, i, n);
        assert(rest@ =~= s@.skip(i as int));
        if starts_with(&rest, p) {
            return Some(i);
        }
        if i == n {
            return None;
        }
        i = i + 1;
    }
    None
}

/// `s[i..]` without a final `'\r'`.
fn line_at(s: &Vec<char>, i: usize, j: usize) -> (r: Vec<char>)
    requires
        i <= j <= s@.len(),
    ensures
        r@ == strip_cr(s@.subrange(i as int, j as int)),
{
    if j > i && s[j - 1] == '\r' {
        assert(s@.subrange(i as int, j as int).drop_last() =~= s@.subrange(i as int, j - 1));
        slice_of(s, i, j - 1)
    } else {
        slice_of(s, i, j)
    }
}

/// The lines of `s`, as `str::lines` gives them.
pub fn lines_of(s: &Vec<char>) -> (r: Vec<Vec<char>>)
    ensures
        views(r@) == lines(s@),
{
    let mut r: Vec<Vec<char>> = Vec::new();
    let mut start: usize = 0;
    let n = s.len();
    assert(s@.skip(0) =~= s@);
    while start < n
        invariant
            n == s@.len(),
            start <= n,
            views(r@) + lines(s@.skip(start as int)) == lines(s@),
        decreases n - start,
    {
        let ghost rest = s@.skip(start as int);
        let tail = slice_of(s, start, n);
        assert(tail@ =~= rest);
        match find_char_in(&tail, '\n') {
            None => {
                let l = slice_of(s, start, n);
                assert(lines(rest) == seq![rest]);
                assert(views(r@.push(l)) =~= views(r@).push(l@));
                r.push(l);
                assert(s@.skip(n as int) =~= Seq::<char>::empty());
                assert(views(r@) + lines(s@.skip(n as int)) =~= views(r@));
                assert(views(r@) =~= lines(s@));
                return r;
            },
            Some(k) => {
                proof {
                    lemma_find_char(rest, '\n');
                }
                let l = line_at(s, start, start + k);
                assert(s@.subrange(start as int, start + k) =~= rest.take(k as int));
                assert(rest.skip(k + 1) =~= s@.skip(start + k + 1));
                assert(lines(rest) == seq![strip_cr(rest.take(k as int))] + lines(rest.skip(k + 1)));
                assert(views(r@.push(l)) =~= views(r@).push(l@));
                r.push(l);
                assert(views(r@) + lines(s@.skip(start + k + 1)) =~= views(r@.drop_last()) + (seq![l@] + lines(s@.skip(start + k + 1))));
                start = start + k + 1;
            },
        }
    }
    assert(s@.skip(start as int) =~= Seq::<char>::empty());
    assert(views(r@) + lines(s@.skip(start as int)) =~= views(r@));
    r
}

/// The pieces of `s` between occurrences of `c`.
pub fn split_on(s: &Vec<char>, c: char) -> (r: Vec<Vec<char>>)
    ensures
        views(r@) == split(s@, c),
{
    let mut r: Vec<Vec<char>> = Vec::new();
    let mut start: usize = 0;
    let n = s.len();
    assert(s@.skip(0) =~= s@);
    loop
        invariant
            n == s@.len(),
            start <= n,
            views(r@) + split(s@.skip(start as int), c) == split(s@, c),
        decreases n - start,
    {
        let ghost rest = s@.skip(start as int);
        let tail = slice_of(s, start, n);
        assert(tail@ =~= rest);
        match find_char_in(&tail, c) {
            None => {
                assert(split(rest, c) == seq![rest]);
                assert(views(r@.push(tail)) =~= views(r@).push(tail@));
                r.push(tail);
                assert(views(r@) =~= split(s@, c));
                return r;
            },
            Some(k) => {
                proof {
                    lemma_find_char(rest, c);
                }
                let piece = slice_of(s, start, start + k);
                assert(piece@ =~= rest.take(k as int));
                assert(rest.skip(k + 1) =~= s@.skip(start + k + 1));
                assert(views(r@.push(piece)) =~= views(r@).push(piece@));
                r.push(piece);
                assert(views(r@) + split(s@.skip(start + k + 1), c) =~= views(r@.drop_last()) + (seq![piece@] + split(s@.skip(start + k + 1), c)));
                start = start + k + 1;
            },
        }
    }
}


/// The string `a` followed by `b`.
pub fn concat2(a: &str, b: &str) -> (r: String)
    ensures
        r@ == a@ + b@,
{
    let mut r = String::from_str(a);
    r.append(b);
    r
}

/// The string `a`, `b`, `c` in turn.
pub fn concat3(a: &str, b: &str, c: &str) -> (r: String)
    ensures
        r@ == a@ + b@ + c@,
{
    let mut r = String::from_str(a);
    r.append(b);
    r.append(c);
    r
}

/// Appends the characters of `v` to `s`.
pub fn extend_chars(s: &mut Vec<char>, v: &Vec<char>)
    ensures
        final(s)@ == old(s)@ + v@,
{
    let n = v.len();
    for i in 0..n
        invariant
            n == v@.len(),
            s@ == old(s)@ + v@.take(i as int),
    {
        s.push(v[i]);
        assert(v@.take(i + 1) =~= v@.take(i as int).push(v@[i as int]));
    }
    assert(v@.take(n as int) =~= v@);
}

/// Appends the characters of `t` to `s`.
pub fn extend_str(s: &mut Vec<char>, t: &str)
    ensures
        final(s)@ == old(s)@ + t@,
{
    let v = chars_of(t);
    extend_chars(s, &v);
}

/// Index of the first non-whitespace character of `v[i..j]` (or `j`).
pub fn ws_skip(v: &Vec<char>, i: usize, j: usize) -> (r: usize)
    requires
        i <= j <= v@.len(),
    ensures
        i <= r <= j,
        trim_start(v@.subrange(i as int, j as int)) == v@.subrange(r as int, j as int),
{
    let mut k = i;
    while k < j && is_whitespace(v[k])
        invariant
            i <= k <= j <= v@.len(),
            forall|m: int| i <= m < k ==> is_ws(v@[m]),
        decreases j - k,
    {
        k = k + 1;
    }
    proof {
        let s = v@.subrange(i as int, j as int);
        assert forall|m: int| 0 <= m < k - i implies is_ws(s[m]) by {
            assert(s[m] == v@[i + m]);
        }
        if k < j {
            assert(s[k - i] == v@[k as int]);
        }
        lemma_trim_start(s, k - i);
        assert(s.skip(k - i) =~= v@.subrange(k as int, j as int));
    }
    k
}

/// End of `v[i..j]` without trailing whitespace.
pub fn ws_back(v: &Vec<char>, i: usize, j: usize) -> (r: usize)
    requires
        i <= j <= v@.len(),
    ensures
        i <= r <= j,
        trim_end(v@.subrange(i as int, j as int)) == v@.subrange(i as int, r as int),
{
    let mut k = j;
    while k > i && is_whitespace(v[k - 1])
        invariant
            i <= k <= j <= v@.len(),
            forall|m: int| k <= m < j ==> is_ws(v@[m]),
        decreases k - i,
    {
        k = k - 1;
    }
    proof {
        let s = v@.subrange(i as int, j as int);
        assert forall|m: int| k - i <= m < s.len() implies is_ws(s[m]) by {
            assert(s[m] == v@[i + m]);
        }
        if k > i {
            assert(s[k - i - 1] == v@[k - 1]);
        }
        lemma_trim_end(s, k - i);
        assert(s.take(k - i) =~= v@.subrange(i as int, k as int));
    }
    k
}


/// The pieces `parts` with `sep` between each two.
pub open spec fn join(parts: Seq<Seq<char>>, sep: Seq<char>) -> Seq<char>
    decreases parts.len(),
{
    if parts.len() == 0 {
        Seq::empty()
    } else if parts.len() == 1 {
        parts[0]
    } else {
        join(parts.drop_last(), sep) + sep + parts.last()
    }
}

/// `parts` cut into runs of `n` pieces (the last run may be shorter).
pub open spec fn chunks(parts: Seq<Seq<char>>, n: nat) -> Seq<Seq<Seq<char>>>
    decreases parts.len(),
{
    if parts.len() == 0 || n == 0 {
        Seq::empty()
    } else if parts.len() <= n {
        seq![parts]
    } else {
        seq![parts.take(n as int)] + chunks(parts.skip(n as int), n)
    }
}

/// The pieces of `parts` joined by `sep`.
pub fn join_chars(parts: &Vec<Vec<char>>, sep: &Vec<char>) -> (r: Vec<char>)
    ensures
        r@ == join(views(parts@), sep@),
{
    let mut r: Vec<char> = Vec::new();
    let n = parts.len();
    for i in 0..n
        invariant
            n == parts@.len(),
            r@ == join(views(parts@).take(i as int), sep@),
    {
        let ghost before = r@;
        assert(views(parts@).take(i + 1).drop_last() =~= views(parts@).take(i as int));
        assert(views(parts@).take(i + 1).last() == parts@[i as int]@);
        if i > 0 {
            extend_chars(&mut r, sep);
        } else {
            assert(views(parts@).take(1) =~= seq![parts@[0]@]);
        }
        extend_chars(&mut r, &parts[i]);
    }
    assert(views(parts@).take(n as int) =~= views(parts@));
    r
}

/// The pieces `parts[i..j]`.
pub fn pieces(parts: &Vec<Vec<char>>, i: usize, j: usize) -> (r: Vec<Vec<char>>)
    requires
        i <= j <= parts@.len(),
    ensures
        views(r@) == views(parts@).subrange(i as int, j as int),
{
    let mut r: Vec<Vec<char>> = Vec::new();
    let mut k = i;
    while k < j
        invariant
            i <= k <= j <= parts@.len(),
            views(r@) == views(parts@).subrange(i as int, k as int),
        decreases j - k,
    {
        let p = slice_of(&parts[k], 0, parts[k].len());
        assert(p@ =~= parts@[k as int]@);
        let ghost before = r@;
        r.push(p);
        assert(views(r@) =~= views(before).push(p@));
        assert(views(parts@)[k as int] == parts@[k as int]@);
        assert(views(r@) =~= views(parts@).subrange(i as int, k + 1));
        k = k + 1;
    }
    r
}

} // verus!
