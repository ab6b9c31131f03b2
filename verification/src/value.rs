//! The JSON-shaped value tree that every configuration format is read into,
//! merged as, and written from.
//!
//! Objects keep their entries sorted by key, in the order of `String`'s `Ord`
//! (lexicographic on code points), so that iteration order is the order of a
//! `BTreeMap<String, _>`.
use vstd::prelude::*;
use crate::text::{key_less, text_eq};

verus! {

// ───────────────────────────── mathematical model ─────────────────────────────

/// The mathematical view of a [`Number`].
pub enum JNumber {
    PosInt(u64),
    NegInt(i64),
    Float(Seq<char>),
}

/// The mathematical view of a [`Value`]: objects are sequences of
/// `(key, value)` entries, in the order in which they are stored.
pub enum JValue {
    Null,
    Bool(bool),
    Number(JNumber),
    Str(Seq<char>),
    Array(Seq<JValue>),
    Object(Seq<(Seq<char>, JValue)>),
}

/// Strict lexicographic order on keys, comparing code points.
pub open spec fn key_lt(a: Seq<char>, b: Seq<char>) -> bool
    decreases a.len(),
{
    if a.len() == 0 {
        b.len() > 0
    } else if b.len() == 0 {
        false
    } else if (a[0] as int) < (b[0] as int) {
        true
    } else if a[0] == b[0] {
        key_lt(a.drop_first(), b.drop_first())
    } else {
        false
    }
}

/// The keys of `es` are strictly increasing.
pub open spec fn keys_sorted(es: Seq<(Seq<char>, JValue)>) -> bool {
    forall|i: int, j: int| 0 <= i < j < es.len() ==> key_lt(#[trigger] es[i].0, #[trigger] es[j].0)
}

/// Index of the first entry of `es` whose key is `k`.
pub open spec fn obj_index(es: Seq<(Seq<char>, JValue)>, k: Seq<char>) -> Option<int>
    decreases es.len(),
{
    if es.len() == 0 {
        None
    } else if es[0].0 == k {
        Some(0)
    } else {
        match obj_index(es.drop_first(), k) {
            Some(i) => Some(i + 1),
            None => None,
        }
    }
}

/// Index of the first entry whose key is not below `k` (or the length).
pub open spec fn obj_lower(es: Seq<(Seq<char>, JValue)>, k: Seq<char>) -> int
    decreases es.len(),
{
    if es.len() == 0 {
        0
    } else if !key_lt(es[0].0, k) {
        0
    } else {
        obj_lower(es.drop_first(), k) + 1
    }
}

/// The value stored under `k`.
pub open spec fn obj_get(es: Seq<(Seq<char>, JValue)>, k: Seq<char>) -> Option<JValue> {
    match obj_index(es, k) {
        Some(i) => Some(es[i].1),
        None => None,
    }
}

/// `es` with `k` set to `v`: an existing entry is updated in place, otherwise
/// the entry is inserted before the first key that is not below `k`.
pub open spec fn obj_insert(es: Seq<(Seq<char>, JValue)>, k: Seq<char>, v: JValue) -> Seq<
    (Seq<char>, JValue),
> {
    match obj_index(es, k) {
        Some(i) => es.update(i, (k, v)),
        None => es.insert(obj_lower(es, k), (k, v)),
    }
}

/// `es` without the entry for `k`.
pub open spec fn obj_remove(es: Seq<(Seq<char>, JValue)>, k: Seq<char>) -> Seq<
    (Seq<char>, JValue),
> {
    match obj_index(es, k) {
        Some(i) => es.remove(i),
        None => es,
    }
}

/// `es` with an empty object under `k` if `k` is absent.
pub open spec fn obj_entry_or_insert(es: Seq<(Seq<char>, JValue)>, k: Seq<char>, v: JValue) -> Seq<
    (Seq<char>, JValue),
> {
    match obj_index(es, k) {
        Some(i) => es,
        None => es.insert(obj_lower(es, k), (k, v)),
    }
}

/// The key/value map that an entry sequence denotes.
pub open spec fn obj_map(es: Seq<(Seq<char>, JValue)>) -> Map<Seq<char>, JValue> {
    Map::new(|k: Seq<char>| obj_index(es, k) is Some, |k: Seq<char>| obj_get(es, k)->0)
}

/// Every object inside `v` (and `v` itself) has strictly sorted keys.
pub open spec fn jwf(v: JValue) -> bool
    decreases v,
{
    match v {
        JValue::Array(a) => forall|i: int| 0 <= i < a.len() ==> jwf(#[trigger] a[i]),
        JValue::Object(es) => keys_sorted(es) && forall|i: int|
            0 <= i < es.len() ==> jwf(#[trigger] es[i].1),
        _ => true,
    }
}

// ───────────────────────────── executable values ─────────────────────────────

/// A JSON number: a non-negative integer, a negative integer, or a
/// floating-point number held as the decimal text that denotes it.
#[derive(Debug, PartialEq)]
pub enum Number {
    PosInt(u64),
    NegInt(i64),
    Float(String),
}

/// A JSON value.
#[derive(Debug, PartialEq)]
pub enum Value {
    Null,
    Bool(bool),
    Number(Number),
    String(String),
    Array(Vec<Value>),
    Object(Object),
}

/// A JSON object: entries kept in increasing key order.
#[derive(Debug, PartialEq)]
pub struct Object {
    pub entries: Vec<(String, Value)>,
}

impl Number {
    pub open spec fn view(&self) -> JNumber {
        match self {
            Number::PosInt(n) => JNumber::PosInt(*n),
            Number::NegInt(n) => JNumber::NegInt(*n),
            Number::Float(s) => JNumber::Float(s@),
        }
    }
}

impl Value {
    pub open spec fn view(&self) -> JValue
        decreases self,
    {
        match self {
            Value::Null => JValue::Null,
            Value::Bool(b) => JValue::Bool(*b),
            Value::Number(n) => JValue::Number(n.view()),
            Value::String(s) => JValue::Str(s@),
            Value::Array(a) => JValue::Array(
                Seq::new(
                    a@.len(),
                    |i: int|
                        if 0 <= i < a@.len() {
                            a@[i].view()
                        } else {
                            JValue::Null
                        },
                ),
            ),
            Value::Object(m) => JValue::Object(m.view()),
        }
    }
}

impl Object {
    /// The view of the entries.
    pub open spec fn view(&self) -> Seq<(Seq<char>, JValue)>
        decreases self,
    {
        Seq::new(
            self.entries@.len(),
            |i: int|
                if 0 <= i < self.entries@.len() {
                    (self.entries@[i].0@, self.entries@[i].1.view())
                } else {
                    (Seq::empty(), JValue::Null)
                },
        )
    }
}


impl Object {
    pub proof fn lemma_view(&self)
        ensures
            self.view().len() == self.entries@.len(),
            forall|i: int|
                0 <= i < self.entries@.len() ==> #[trigger] self.view()[i] == (
                    self.entries@[i].0@,
                    self.entries@[i].1.view(),
                ),
    {
    }

    /// An object with no entries.
    pub fn new() -> (r: Object)
        ensures
            r.view() == Seq::<(Seq<char>, JValue)>::empty(),
    {
        let r = Object { entries: Vec::new() };
        assert(r.view() =~= Seq::<(Seq<char>, JValue)>::empty());
        r
    }

    /// The number of entries.
    pub fn len(&self) -> (r: usize)
        ensures
            r == self.view().len(),
    {
        self.entries.len()
    }

    /// The position of the entry for `key`.
    pub fn find(&self, key: &str) -> (r: Option<usize>)
        ensures
            match obj_index(self.view(), key@) {
                Some(i) => r == Some(i as usize),
                None => r is None,
            },
            r matches Some(i) ==> i < self.view().len() && self.view()[i as int].0 == key@,
    {
        proof {
            self.lemma_view();
            lemma_obj_index(self.view(), key@);
        }
        let n = self.entries.len();
        for i in 0..n
            invariant
                n == self.entries@.len(),
                forall|j: int| 0 <= j < i ==> #[trigger] self.view()[j].0 != key@,
                match obj_index(self.view(), key@) {
                    Some(i) => 0 <= i < self.view().len() && self.view()[i].0 == key@ && forall|
                        j: int,
                    | 0 <= j < i ==> #[trigger] self.view()[j].0 != key@,
                    None => forall|j: int|
                        0 <= j < self.view().len() ==> #[trigger] self.view()[j].0 != key@,
                },
        {
            if text_eq(self.entries[i].0.as_str(), key) {
                assert(self.view()[i as int].0 == key@);
                return Some(i);
            }
        }
        None
    }

    /// The position of the first entry whose key is not below `key`.
    fn lower_bound(&self, key: &str) -> (r: usize)
        ensures
            r == obj_lower(self.view(), key@),
    {
        proof {
            self.lemma_view();
            lemma_obj_lower(self.view(), key@);
        }
        let n = self.entries.len();
        let mut i: usize = 0;
        while i < n
            invariant
                n == self.entries@.len(),
                i <= obj_lower(self.view(), key@),
                0 <= obj_lower(self.view(), key@) <= self.view().len(),
                forall|j: int|
                    0 <= j < obj_lower(self.view(), key@) ==> key_lt(
                        #[trigger] self.view()[j].0,
                        key@,
                    ),
                obj_lower(self.view(), key@) < self.view().len() ==> !key_lt(
                    self.view()[obj_lower(self.view(), key@)].0,
                    key@,
                ),
            decreases n - i,
        {
            if !key_less(self.entries[i].0.as_str(), key) {
                assert(!key_lt(self.view()[i as int].0, key@));
                return i;
            }
            assert(key_lt(self.view()[i as int].0, key@));
            i = i + 1;
        }
        i
    }

    /// The value stored under `key`.
    pub fn get(&self, key: &str) -> (r: Option<&Value>)
        ensures
            match r {
                Some(v) => obj_get(self.view(), key@) == Some(v.view()),
                None => obj_get(self.view(), key@) is None,
            },
    {
        proof {
            self.lemma_view();
            lemma_obj_index(self.view(), key@);
        }
        match self.find(key) {
            Some(i) => Some(&self.entries[i].1),
            None => None,
        }
    }

    /// Sets `key` to `value`, replacing the entry for `key` or inserting a new
    /// one at its place in key order.
    pub fn insert(&mut self, key: String, value: Value)
        ensures
            final(self).view() == obj_insert(old(self).view(), key@, value.view()),
    {
        let ghost kv = key@;
        let ghost vv = value.view();
        proof {
            old(self).lemma_view();
            lemma_obj_index(old(self).view(), kv);
        }
        match self.find(key.as_str()) {
            Some(i) => {
                let ghost before = self.view();
                self.entries.set(i, (key, value));
                proof {
                    self.lemma_view();
                }
                assert(self.view() =~= before.update(i as int, (kv, vv)));
            },
            None => {
                let p = self.lower_bound(key.as_str());
                let ghost before = self.view();
                proof {
                    lemma_obj_lower(before, kv);
                }
                self.entries.insert(p, (key, value));
                proof {
                    self.lemma_view();
                }
                assert(self.view() =~= before.insert(p as int, (kv, vv)));
            },
        }
    }

    /// Removes the entry for `key`, handing back its value.
    pub fn remove(&mut self, key: &str) -> (r: Option<Value>)
        ensures
            final(self).view() == obj_remove(old(self).view(), key@),
            match r {
                Some(v) => obj_get(old(self).view(), key@) == Some(v.view()),
                None => obj_get(old(self).view(), key@) is None,
            },
    {
        proof {
            old(self).lemma_view();
            lemma_obj_index(old(self).view(), key@);
        }
        match self.find(key) {
            Some(i) => {
                let ghost before = self.view();
                let (_, v) = self.entries.remove(i);
                proof {
                    self.lemma_view();
                }
                assert(self.view() =~= before.remove(i as int));
                Some(v)
            },
            None => None,
        }
    }
}

/// The views of a sequence of values.
pub open spec fn values_view(a: Seq<Value>) -> Seq<JValue> {
    Seq::new(a.len(), |i: int| a[i].view())
}

pub proof fn lemma_array_view(a: Vec<Value>)
    ensures
        Value::Array(a).view() == JValue::Array(values_view(a@)),
{
    assert(Value::Array(a).view()->Array_0 =~= values_view(a@));
}

pub proof fn lemma_values_view_add(a: Seq<Value>, b: Seq<Value>)
    ensures
        values_view(a + b) == values_view(a) + values_view(b),
{
    assert(values_view(a + b) =~= values_view(a) + values_view(b));
}

pub proof fn lemma_values_view_push(a: Seq<Value>, x: Value)
    ensures
        values_view(a.push(x)) == values_view(a).push(x.view()),
{
    assert(values_view(a.push(x)) =~= values_view(a).push(x.view()));
}

/// Whether the rest `s` of a decimal mantissa (with `seen` telling whether a
/// `0` came before) denotes zero: only `0` and `.` up to the end or to an
/// exponent (`e`, `E`), with at least one `0`.
pub open spec fn zero_mantissa(s: Seq<char>, seen: bool) -> bool
    decreases s.len(),
{
    if s.len() == 0 || s[0] == 'e' || s[0] == 'E' {
        seen
    } else if s[0] == '0' {
        zero_mantissa(s.drop_first(), true)
    } else if s[0] == '.' {
        zero_mantissa(s.drop_first(), seen)
    } else {
        false
    }
}

/// Whether the decimal text `t` denotes zero, of either sign.
pub open spec fn zero_text(t: Seq<char>) -> bool {
    if t.len() > 0 && (t[0] == '-' || t[0] == '+') {
        zero_mantissa(t.drop_first(), false)
    } else {
        zero_mantissa(t, false)
    }
}

/// Whether two values are equal as JSON values: of the same kind with equal
/// contents (objects entry by entry in order), where two floating-point
/// numbers are equal when their texts are, or when both denote zero (so
/// `0.0` equals `-0.0`).
pub open spec fn same_value(a: JValue, b: JValue) -> bool
    decreases a,
{
    match (a, b) {
        (JValue::Number(JNumber::Float(x)), JValue::Number(JNumber::Float(y))) => x == y || (zero_text(x)
            && zero_text(y)),
        (JValue::Array(xs), JValue::Array(ys)) => xs.len() == ys.len() && forall|i: int|
            0 <= i < xs.len() ==> same_value(#[trigger] xs[i], ys[i]),
        (JValue::Object(xs), JValue::Object(ys)) => xs.len() == ys.len() && forall|i: int|
            0 <= i < xs.len() ==> (#[trigger] xs[i]).0 == ys[i].0 && same_value(xs[i].1, ys[i].1),
        _ => a == b,
    }
}

/// Every value is the same as itself.
pub proof fn lemma_same_value_refl(x: JValue)
    ensures
        same_value(x, x),
    decreases x,
{
    match x {
        JValue::Array(xs) => {
            assert forall|i: int| 0 <= i < xs.len() implies same_value(#[trigger] xs[i], xs[i]) by {
                assert(decreases_to!(x => x->Array_0[i]));
                lemma_same_value_refl(xs[i]);
            }
        },
        JValue::Object(xs) => {
            assert forall|i: int| 0 <= i < xs.len() implies (#[trigger] xs[i]).0 == xs[i].0 && same_value(
                xs[i].1,
                xs[i].1,
            ) by {
                assert(decreases_to!(x => x->Object_0[i]));
                assert(decreases_to!(x => x->Object_0[i].1));
                lemma_same_value_refl(xs[i].1);
            }
        },
        _ => {},
    }
}

/// Whether `r` holds an item the same as `x`.
pub open spec fn has_item(r: Seq<JValue>, x: JValue) -> bool {
    exists|i: int| 0 <= i < r.len() && same_value(#[trigger] r[i], x)
}

/// Whether the decimal text `t` denotes zero.
fn is_zero_text(t: &str) -> (r: bool)
    ensures
        r == zero_text(t@),
{
    let cs = crate::text::chars_of(t);
    let n = cs.len();
    let mut i: usize = if n > 0 && (cs[0] == '-' || cs[0] == '+') { 1 } else { 0 };
    let mut seen = false;
    assert(i == 1 ==> cs@.skip(1) =~= cs@.drop_first());
    assert(cs@.skip(0) =~= cs@);
    while i < n && cs[i] != 'e' && cs[i] != 'E'
        invariant
            n == cs@.len(),
            i <= n,
            cs@ == t@,
            zero_text(t@) == zero_mantissa(cs@.skip(i as int), seen),
        decreases n - i,
    {
        assert(cs@.skip(i as int)[0] == cs@[i as int]);
        assert(cs@.skip(i as int).drop_first() =~= cs@.skip(i + 1));
        if cs[i] == '0' {
            seen = true;
        } else if cs[i] != '.' {
            return false;
        }
        i = i + 1;
    }
    if i < n {
        assert(cs@.skip(i as int)[0] == cs@[i as int]);
    }
    seen
}

/// Whether two numbers are equal as JSON numbers (floats by text, a zero of
/// either sign equal to a zero of the other).
pub fn numbers_equal(a: &Number, b: &Number) -> (r: bool)
    ensures
        r == same_value(JValue::Number(a.view()), JValue::Number(b.view())),
{
    match (a, b) {
        (Number::PosInt(x), Number::PosInt(y)) => *x == *y,
        (Number::NegInt(x), Number::NegInt(y)) => *x == *y,
        (Number::Float(x), Number::Float(y)) => text_eq(x.as_str(), y.as_str()) || (is_zero_text(x.as_str())
            && is_zero_text(y.as_str())),
        _ => false,
    }
}

/// Whether two values are equal as JSON values (see [`same_value`]).
pub fn values_equal(a: &Value, b: &Value) -> (r: bool)
    ensures
        r == same_value(a.view(), b.view()),
    decreases a.view(),
{
    match (a, b) {
        (Value::Null, Value::Null) => true,
        (Value::Bool(x), Value::Bool(y)) => *x == *y,
        (Value::Number(x), Value::Number(y)) => numbers_equal(x, y),
        (Value::String(x), Value::String(y)) => text_eq(x.as_str(), y.as_str()),
        (Value::Array(x), Value::Array(y)) => {
            proof {
                lemma_array_view(*x);
                lemma_array_view(*y);
            }
            if x.len() != y.len() {
                assert(values_view(x@).len() != values_view(y@).len());
                return false;
            }
            let n = x.len();
            for i in 0..n
                invariant
                    n == x@.len(),
                    n == y@.len(),
                    a.view() == JValue::Array(values_view(x@)),
                    b.view() == JValue::Array(values_view(y@)),
                    forall|j: int| 0 <= j < i ==> same_value(#[trigger] values_view(x@)[j], values_view(y@)[j]),
            {
                assert(values_view(x@)[i as int] == x@[i as int].view());
                assert(values_view(y@)[i as int] == y@[i as int].view());
                assert(decreases_to!(a.view() => a.view()->Array_0));
                assert(decreases_to!(a.view() => a.view()->Array_0[i as int]));
                if !values_equal(&x[i], &y[i]) {
                    return false;
                }
            }
            true
        },
        (Value::Object(x), Value::Object(y)) => {
            proof {
                x.lemma_view();
                y.lemma_view();
            }
            if x.entries.len() != y.entries.len() {
                return false;
            }
            let n = x.entries.len();
            for i in 0..n
                invariant
                    n == x.entries@.len(),
                    n == y.entries@.len(),
                    a.view() == JValue::Object(x.view()),
                    b.view() == JValue::Object(y.view()),
                    x.view().len() == n,
                    y.view().len() == n,
                    forall|j: int| 0 <= j < i ==> (#[trigger] x.view()[j]).0 == y.view()[j].0 && same_value(x.view()[j].1, y.view()[j].1),
                    forall|j: int|
                        0 <= j < n ==> #[trigger] x.view()[j] == (
                            x.entries@[j].0@,
                            x.entries@[j].1.view(),
                        ),
                    forall|j: int|
                        0 <= j < n ==> #[trigger] y.view()[j] == (
                            y.entries@[j].0@,
                            y.entries@[j].1.view(),
                        ),
            {
                assert(x.view()[i as int] == (x.entries@[i as int].0@, x.entries@[i as int].1.view()));
                assert(y.view()[i as int] == (y.entries@[i as int].0@, y.entries@[i as int].1.view()));
                if !text_eq(x.entries[i].0.as_str(), y.entries[i].0.as_str()) {
                    return false;
                }
                assert(decreases_to!(a.view() => a.view()->Object_0));
                assert(decreases_to!(a.view() => a.view()->Object_0[i as int]));
                assert(decreases_to!(a.view() => a.view()->Object_0[i as int].1));
                if !values_equal(&x.entries[i].1, &y.entries[i].1) {
                    return false;
                }
            }
            true
        },
        _ => false,
    }
}

/// Whether `v` holds an item equal to `x` (see [`same_value`]).
pub fn contains_value(v: &Vec<Value>, x: &Value) -> (r: bool)
    ensures
        r == has_item(values_view(v@), x.view()),
{
    let n = v.len();
    for i in 0..n
        invariant
            n == v@.len(),
            forall|j: int| 0 <= j < i ==> !same_value(#[trigger] values_view(v@)[j], x.view()),
    {
        assert(values_view(v@)[i as int] == v@[i as int].view());
        if values_equal(&v[i], x) {
            return true;
        }
    }
    false
}

impl Value {
    /// The value under `key` when `self` is an object.
    pub fn get(&self, key: &str) -> (r: Option<&Value>)
        ensures
            match self.view() {
                JValue::Object(es) => match r {
                    Some(v) => obj_get(es, key@) == Some(v.view()),
                    None => obj_get(es, key@) is None,
                },
                _ => r is None,
            },
    {
        match self {
            Value::Object(m) => m.get(key),
            _ => None,
        }
    }

    /// Whether `self` is `null`.
    pub fn is_null(&self) -> (r: bool)
        ensures
            r == (self.view() is Null),
    {
        match self {
            Value::Null => true,
            _ => false,
        }
    }

    /// Whether `self` is an object.
    pub fn is_object(&self) -> (r: bool)
        ensures
            r == (self.view() is Object),
    {
        match self {
            Value::Object(_) => true,
            _ => false,
        }
    }

    /// Whether `self` is an array.
    pub fn is_array(&self) -> (r: bool)
        ensures
            r == (self.view() is Array),
    {
        match self {
            Value::Array(_) => true,
            _ => false,
        }
    }
}

// ───────────────────────────── key order lemmas ─────────────────────────────

pub proof fn lemma_key_lt_irreflexive(a: Seq<char>)
    ensures
        !key_lt(a, a),
    decreases a.len(),
{
    if a.len() > 0 {
        lemma_key_lt_irreflexive(a.drop_first());
    }
}

pub proof fn lemma_key_lt_asymmetric(a: Seq<char>, b: Seq<char>)
    ensures
        key_lt(a, b) ==> !key_lt(b, a),
    decreases a.len(),
{
    if a.len() > 0 && b.len() > 0 && a[0] == b[0] {
        lemma_key_lt_asymmetric(a.drop_first(), b.drop_first());
    }
}

pub proof fn lemma_key_lt_transitive(a: Seq<char>, b: Seq<char>, c: Seq<char>)
    requires
        key_lt(a, b),
        key_lt(b, c),
    ensures
        key_lt(a, c),
    decreases a.len(),
{
    if a.len() > 0 && b.len() > 0 && c.len() > 0 && a[0] == b[0] && b[0] == c[0] {
        lemma_key_lt_transitive(a.drop_first(), b.drop_first(), c.drop_first());
    }
}

pub proof fn lemma_key_lt_total(a: Seq<char>, b: Seq<char>)
    ensures
        a != b ==> key_lt(a, b) || key_lt(b, a),
    decreases a.len(),
{
    if a.len() > 0 && b.len() > 0 && a[0] == b[0] {
        lemma_key_lt_total(a.drop_first(), b.drop_first());
        if a.drop_first() == b.drop_first() {
            assert(a == seq![a[0]] + a.drop_first());
            assert(b == seq![b[0]] + b.drop_first());
        }
    }
    if a.len() == 0 && b.len() == 0 {
        assert(a == b);
    }
}

// ───────────────────────────── entry sequence lemmas ─────────────────────────────

pub proof fn lemma_obj_index(es: Seq<(Seq<char>, JValue)>, k: Seq<char>)
    ensures
        match obj_index(es, k) {
            Some(i) => 0 <= i < es.len() && es[i].0 == k && forall|j: int|
                0 <= j < i ==> #[trigger] es[j].0 != k,
            None => forall|j: int| 0 <= j < es.len() ==> #[trigger] es[j].0 != k,
        },
    decreases es.len(),
{
    if es.len() > 0 {
        lemma_obj_index(es.drop_first(), k);
        if es[0].0 != k {
            match obj_index(es.drop_first(), k) {
                Some(i) => {
                    assert forall|j: int| 0 <= j < i + 1 implies #[trigger] es[j].0 != k by {
                        if j > 0 {
                            assert(es[j] == es.drop_first()[j - 1]);
                        }
                    }
                },
                None => {
                    assert forall|j: int| 0 <= j < es.len() implies #[trigger] es[j].0 != k by {
                        if j > 0 {
                            assert(es[j] == es.drop_first()[j - 1]);
                        }
                    }
                },
            }
        }
    }
}

pub proof fn lemma_obj_lower(es: Seq<(Seq<char>, JValue)>, k: Seq<char>)
    ensures
        0 <= obj_lower(es, k) <= es.len(),
        forall|j: int| 0 <= j < obj_lower(es, k) ==> key_lt(#[trigger] es[j].0, k),
        obj_lower(es, k) < es.len() ==> !key_lt(es[obj_lower(es, k)].0, k),
    decreases es.len(),
{
    if es.len() > 0 && key_lt(es[0].0, k) {
        lemma_obj_lower(es.drop_first(), k);
        assert forall|j: int| 0 <= j < obj_lower(es, k) implies key_lt(#[trigger] es[j].0, k) by {
            if j > 0 {
                assert(es[j] == es.drop_first()[j - 1]);
            }
        }
    }
}

/// In a sorted sequence the entry for `k`, if any, sits at the lower bound of `k`.
pub proof fn lemma_sorted_index_is_lower(es: Seq<(Seq<char>, JValue)>, k: Seq<char>)
    requires
        keys_sorted(es),
    ensures
        match obj_index(es, k) {
            Some(i) => i == obj_lower(es, k),
            None => obj_lower(es, k) == es.len() || key_lt(k, es[obj_lower(es, k)].0),
        },
{
    lemma_obj_index(es, k);
    lemma_obj_lower(es, k);
    let p = obj_lower(es, k);
    match obj_index(es, k) {
        Some(i) => {
            lemma_key_lt_irreflexive(k);
            if i > p {
                assert(key_lt(es[p].0, es[i].0));
                lemma_key_lt_total(es[p].0, k);
            }
        },
        None => {
            if p < es.len() {
                lemma_key_lt_total(es[p].0, k);
            }
        },
    }
}

pub proof fn lemma_insert_sorted(es: Seq<(Seq<char>, JValue)>, k: Seq<char>, v: JValue)
    requires
        keys_sorted(es),
    ensures
        keys_sorted(obj_insert(es, k, v)),
        obj_map(obj_insert(es, k, v)) == obj_map(es).insert(k, v),
{
    lemma_obj_index(es, k);
    lemma_obj_lower(es, k);
    lemma_sorted_index_is_lower(es, k);
    let r = obj_insert(es, k, v);
    let p = obj_lower(es, k);
    match obj_index(es, k) {
        Some(i) => {
            assert(keys_sorted(r));
        },
        None => {
            assert forall|a: int, b: int| 0 <= a < b < r.len() implies key_lt(
                #[trigger] r[a].0,
                #[trigger] r[b].0,
            ) by {
                if a < p && b == p {
                    assert(r[a] == es[a]);
                    assert(key_lt(es[a].0, k));
                } else if a == p && b > p {
                    assert(r[b] == es[b - 1]);
                    assert(key_lt(k, es[p].0));
                    if b - 1 > p {
                        assert(key_lt(es[p].0, es[b - 1].0));
                        lemma_key_lt_transitive(k, es[p].0, es[b - 1].0);
                    }
                } else if a < p && b > p {
                    assert(r[a] == es[a]);
                    assert(r[b] == es[b - 1]);
                    assert(key_lt(es[a].0, es[b - 1].0));
                } else if a > p {
                    assert(r[a] == es[a - 1]);
                    assert(r[b] == es[b - 1]);
                    assert(key_lt(es[a - 1].0, es[b - 1].0));
                } else {
                    assert(r[a] == es[a]);
                    assert(r[b] == es[b]);
                    assert(key_lt(es[a].0, es[b].0));
                }
            }
        },
    }
    lemma_obj_index(r, k);
    assert forall|q: Seq<char>| #[trigger] obj_map(r).dom().contains(q) == obj_map(es).insert(
        k,
        v,
    ).dom().contains(q) && (obj_map(r).dom().contains(q) ==> obj_map(r)[q] == obj_map(
        es,
    ).insert(k, v)[q]) by {
        lemma_obj_index(es, q);
        lemma_obj_index(r, q);
        lemma_sorted_unique_index(r, q);
        lemma_sorted_unique_index(es, q);
        if q != k {
            match obj_index(es, q) {
                Some(j) => {
                    let jr = if obj_index(es, k) is None && j >= p { j + 1 } else { j };
                    assert(r[jr] == es[j]);
                },
                None => {
                    match obj_index(r, q) {
                        Some(jr) => {
                            if obj_index(es, k) is None {
                                if jr > p {
                                    assert(r[jr] == es[jr - 1]);
                                } else if jr < p {
                                    assert(r[jr] == es[jr]);
                                }
                            } else {
                                assert(r[jr] == es[jr]);
                            }
                        },
                        None => {},
                    }
                },
            }
        } else {
            assert(r[p].0 == k);
        }
    }
    assert(obj_map(r) =~= obj_map(es).insert(k, v));
}

/// In a sorted sequence any entry with key `k` is the one `obj_index` finds.
pub proof fn lemma_sorted_unique_index(es: Seq<(Seq<char>, JValue)>, k: Seq<char>)
    requires
        keys_sorted(es),
    ensures
        forall|j: int| 0 <= j < es.len() && #[trigger] es[j].0 == k ==> obj_index(es, k) == Some(j),
{
    lemma_obj_index(es, k);
    assert forall|j: int| 0 <= j < es.len() && #[trigger] es[j].0 == k implies obj_index(es, k)
        == Some(j) by {
        match obj_index(es, k) {
            Some(i) => {
                if i < j {
                    assert(key_lt(es[i].0, es[j].0));
                    lemma_key_lt_irreflexive(k);
                }
            },
            None => {},
        }
    }
}

pub proof fn lemma_remove_sorted(es: Seq<(Seq<char>, JValue)>, k: Seq<char>)
    requires
        keys_sorted(es),
    ensures
        keys_sorted(obj_remove(es, k)),
        obj_map(obj_remove(es, k)) == obj_map(es).remove(k),
{
    lemma_obj_index(es, k);
    let r = obj_remove(es, k);
    match obj_index(es, k) {
        Some(i) => {
            assert forall|a: int, b: int| 0 <= a < b < r.len() implies key_lt(
                #[trigger] r[a].0,
                #[trigger] r[b].0,
            ) by {
                let a2 = if a < i { a } else { a + 1 };
                let b2 = if b < i { b } else { b + 1 };
                assert(r[a] == es[a2]);
                assert(r[b] == es[b2]);
                assert(key_lt(es[a2].0, es[b2].0));
            }
        },
        None => {},
    }
    assert forall|q: Seq<char>| #[trigger] obj_map(r).dom().contains(q) == obj_map(es).remove(
        k,
    ).dom().contains(q) && (obj_map(r).dom().contains(q) ==> obj_map(r)[q] == obj_map(
        es,
    ).remove(k)[q]) by {
        lemma_obj_index(es, q);
        lemma_obj_index(r, q);
        lemma_sorted_unique_index(es, q);
        match obj_index(es, k) {
            Some(i) => {
                match obj_index(r, q) {
                    Some(jr) => {
                        let j = if jr < i { jr } else { jr + 1 };
                        assert(r[jr] == es[j]);
                    },
                    None => {
                        match obj_index(es, q) {
                            Some(j) => {
                                if j != i {
                                    let jr = if j < i { j } else { j - 1 };
                                    assert(r[jr] == es[j]);
                                }
                            },
                            None => {},
                        }
                    },
                }
            },
            None => {},
        }
    }
    assert(obj_map(r) =~= obj_map(es).remove(k));
}

/// Dropping the first (smallest) entry of a sorted sequence removes its key.
pub proof fn lemma_map_drop_first(a: Seq<(Seq<char>, JValue)>)
    requires
        keys_sorted(a),
        a.len() > 0,
    ensures
        keys_sorted(a.drop_first()),
        obj_map(a.drop_first()) == obj_map(a).remove(a[0].0),
{
    let ta = a.drop_first();
    let ka = a[0].0;
    assert forall|i: int, j: int| 0 <= i < j < ta.len() implies key_lt(
        #[trigger] ta[i].0,
        #[trigger] ta[j].0,
    ) by {
        assert(ta[i] == a[i + 1]);
        assert(ta[j] == a[j + 1]);
        assert(key_lt(a[i + 1].0, a[j + 1].0));
    }
    assert forall|q: Seq<char>| #[trigger] obj_map(ta).dom().contains(q) == obj_map(a).remove(
        ka,
    ).dom().contains(q) && (obj_map(ta).dom().contains(q) ==> obj_map(ta)[q] == obj_map(
        a,
    ).remove(ka)[q]) by {
        lemma_obj_index(ta, q);
        if q == ka {
            lemma_key_lt_irreflexive(ka);
            match obj_index(ta, q) {
                Some(j) => {
                    assert(ta[j] == a[j + 1]);
                    assert(key_lt(a[0].0, a[j + 1].0));
                },
                None => {},
            }
        } else {
            match obj_index(ta, q) {
                Some(j) => {
                    assert(obj_index(a, q) == Some(j + 1));
                    assert(ta[j] == a[j + 1]);
                },
                None => {
                    assert(obj_index(a, q) is None);
                },
            }
        }
    }
    assert(obj_map(ta) =~= obj_map(a).remove(ka));
}

/// Two sorted entry sequences that denote the same map are the same sequence.
pub proof fn lemma_sorted_map_unique(a: Seq<(Seq<char>, JValue)>, b: Seq<(Seq<char>, JValue)>)
    requires
        keys_sorted(a),
        keys_sorted(b),
        obj_map(a) == obj_map(b),
    ensures
        a == b,
    decreases a.len() + b.len(),
{
    if a.len() == 0 && b.len() == 0 {
        assert(a =~= b);
    } else if a.len() == 0 {
        lemma_obj_index(a, b[0].0);
        lemma_obj_index(b, b[0].0);
        assert(obj_map(b).dom().contains(b[0].0));
    } else if b.len() == 0 {
        lemma_obj_index(a, a[0].0);
        lemma_obj_index(b, a[0].0);
        assert(obj_map(a).dom().contains(a[0].0));
    } else {
        // the smallest keys agree
        let ka = a[0].0;
        let kb = b[0].0;
        lemma_obj_index(a, kb);
        lemma_obj_index(b, ka);
        lemma_obj_index(a, ka);
        lemma_obj_index(b, kb);
        assert(obj_map(a).dom().contains(ka));
        assert(obj_map(b).dom().contains(kb));
        lemma_sorted_unique_index(a, kb);
        lemma_sorted_unique_index(b, ka);
        if ka != kb {
            let ib = obj_index(b, ka)->0;
            let ia = obj_index(a, kb)->0;
            lemma_key_lt_asymmetric(ka, kb);
            assert(ib > 0 ==> key_lt(kb, ka));
            assert(ia > 0 ==> key_lt(ka, kb));
        }
        assert(ka == kb);
        assert(obj_map(a).dom().contains(ka));
        assert(obj_map(a)[ka] == obj_get(a, ka)->0);
        assert(obj_map(b)[ka] == obj_get(b, ka)->0);
        assert(a[0].1 == b[0].1);
        assert(a[0] == b[0]);
        let ta = a.drop_first();
        let tb = b.drop_first();
        lemma_map_drop_first(a);
        lemma_map_drop_first(b);
        assert(obj_map(ta) == obj_map(tb));
        lemma_sorted_map_unique(ta, tb);
        assert(a =~= seq![a[0]] + ta);
        assert(b =~= seq![b[0]] + tb);
    }
}

} // verus!
