//! TOML format: the rules for carrying a value over to TOML. TOML has no
//! `null`, and a number becomes a TOML integer where it is an integer in the
//! range of `i64`, a TOML float otherwise.
use vstd::prelude::*;
use crate::value::{JValue, JNumber, Value, Number, lemma_array_view, values_view};

verus! {

/// Whether `null` occurs anywhere in `v`.
pub open spec fn has_null(v: JValue) -> bool
    decreases v,
{
    match v {
        JValue::Null => true,
        JValue::Array(a) => exists|i: int| 0 <= i < a.len() && has_null(#[trigger] a[i]),
        JValue::Object(es) => exists|i: int| 0 <= i < es.len() && has_null(#[trigger] es[i].1),
        _ => false,
    }
}

/// The TOML integer a number is written as, if it is one: an integer in the
/// range of `i64`. Every other number is written as a TOML float.
pub open spec fn toml_integer_of(n: JNumber) -> Option<i64> {
    match n {
        JNumber::PosInt(u) => if u <= i64::MAX {
            Some(u as i64)
        } else {
            None
        },
        JNumber::NegInt(i) => Some(i),
        JNumber::Float(_) => None,
    }
}

/// Checks that `v` can be written as TOML: `Err` exactly when a `null`
/// occurs in it.
pub fn check_toml_values(v: &Value) -> (r: Result<(), String>)
    ensures
        r is Ok <==> !has_null(v.view()),
        r matches Err(e) ==> e@ == "TOML does not support null values"@,
    decreases v.view(),
{
    match v {
        Value::Null => Err(String::from_str("TOML does not support null values")),
        Value::Array(a) => {
            proof {
                lemma_array_view(*a);
            }
            let n = a.len();
            for i in 0..n
                invariant
                    n == a@.len(),
                    v.view() == JValue::Array(values_view(a@)),
                    forall|j: int| 0 <= j < i ==> !has_null(#[trigger] values_view(a@)[j]),
            {
                assert(values_view(a@)[i as int] == a@[i as int].view());
                assert(decreases_to!(v.view() => v.view()->Array_0));
                assert(decreases_to!(v.view() => v.view()->Array_0[i as int]));
                let c = check_toml_values(&a[i]);
                if c.is_err() {
                    return c;
                }
            }
            Ok(())
        },
        Value::Object(m) => {
            proof {
                m.lemma_view();
            }
            let n = m.entries.len();
            for i in 0..n
                invariant
                    n == m.entries@.len(),
                    v.view() == JValue::Object(m.view()),
                    m.view().len() == n,
                    forall|j: int|
                        0 <= j < n ==> #[trigger] m.view()[j] == (
                            m.entries@[j].0@,
                            m.entries@[j].1.view(),
                        ),
                    forall|j: int| 0 <= j < i ==> !has_null(#[trigger] m.view()[j].1),
            {
                assert(m.view()[i as int] == (m.entries@[i as int].0@, m.entries@[i as int].1.view()));
                assert(decreases_to!(v.view() => v.view()->Object_0));
                assert(decreases_to!(v.view() => v.view()->Object_0[i as int]));
                assert(decreases_to!(v.view() => v.view()->Object_0[i as int].1));
                let c = check_toml_values(&m.entries[i].1);
                if c.is_err() {
                    return c;
                }
            }
            Ok(())
        },
        _ => Ok(()),
    }
}

/// The TOML integer that `n` is written as; `None` where it is written as
/// a TOML float.
pub fn toml_integer(n: &Number) -> (r: Option<i64>)
    ensures
        r == toml_integer_of(n.view()),
{
    match n {
        Number::PosInt(u) => if *u <= 0x7fff_ffff_ffff_ffffu64 {
            Some(*u as i64)
        } else {
            None
        },
        Number::NegInt(i) => Some(*i),
        Number::Float(_) => None,
    }
}

} // verus!
