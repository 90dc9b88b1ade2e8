//! A JSON document as plain values: what the graph's property bags and the
//! query results are made of.
use vstd::prelude::*;

use crate::text::{int_text, nat_text, u64_text, i64_text, text_eq};

verus! {

/// A JSON number. Integers that fit in `i64` are `Int`, larger non-negative
/// integers `UInt`; any other number keeps its decimal text.
#[derive(Debug)]
pub enum JsonNumber {
    Int(i64),
    UInt(u64),
    Float(String),
}

/// A JSON value. An object keeps its entries in order; a key is looked up at
/// its first entry.
#[derive(Debug)]
pub enum JsonValue {
    Null,
    Bool(bool),
    Number(JsonNumber),
    String(String),
    Array(Vec<JsonValue>),
    Object(Vec<(String, JsonValue)>),
}

/// A scalar of a query result, as the contracts speak of it.
pub enum Scalar {
    Null,
    Bool(bool),
    Int(i64),
    Text(Seq<char>),
}

/// The text of `true` or `false`.
pub open spec fn bool_text(b: bool) -> Seq<char> {
    if b {
        seq!['t', 'r', 'u', 'e']
    } else {
        seq!['f', 'a', 'l', 's', 'e']
    }
}

/// The text `null`.
pub open spec fn null_text() -> Seq<char> {
    seq!['n', 'u', 'l', 'l']
}

/// The value at the first entry of `entries` whose key is `key`.
pub open spec fn entry_lookup(entries: Seq<(String, JsonValue)>, key: Seq<char>) -> Option<
    JsonValue,
>
    decreases entries.len(),
{
    if entries.len() == 0 {
        None
    } else if entries[0].0@ == key {
        Some(entries[0].1)
    } else {
        entry_lookup(entries.drop_first(), key)
    }
}

impl JsonNumber {
    /// The decimal text of the number.
    pub open spec fn spec_text(&self) -> Seq<char> {
        match self {
            JsonNumber::Int(i) => int_text(*i as int),
            JsonNumber::UInt(u) => nat_text(*u as nat),
            JsonNumber::Float(t) => t@,
        }
    }

    /// The number as an `i64`, where it is an integer in range.
    pub open spec fn spec_as_i64(&self) -> Option<i64> {
        match self {
            JsonNumber::Int(i) => Some(*i),
            JsonNumber::UInt(u) => if *u <= i64::MAX as u64 {
                Some(*u as i64)
            } else {
                None
            },
            JsonNumber::Float(_) => None,
        }
    }

    pub fn to_text(&self) -> (r: String)
        ensures
            r@ == self.spec_text(),
    {
        match self {
            JsonNumber::Int(i) => i64_text(*i),
            JsonNumber::UInt(u) => u64_text(*u),
            JsonNumber::Float(t) => t.clone(),
        }
    }

    pub fn as_i64(&self) -> (r: Option<i64>)
        ensures
            r == self.spec_as_i64(),
    {
        match self {
            JsonNumber::Int(i) => Some(*i),
            JsonNumber::UInt(u) => if *u <= 9223372036854775807u64 {
                Some(*u as i64)
            } else {
                None
            },
            JsonNumber::Float(_) => None,
        }
    }
}

impl Clone for JsonNumber {
    fn clone(&self) -> (r: Self)
        ensures
            r == *self,
    {
        match self {
            JsonNumber::Int(i) => JsonNumber::Int(*i),
            JsonNumber::UInt(u) => JsonNumber::UInt(*u),
            JsonNumber::Float(t) => JsonNumber::Float(t.clone()),
        }
    }
}

impl JsonValue {
    /// The value under `key`, where this is an object that has it.
    pub open spec fn spec_get(&self, key: Seq<char>) -> Option<JsonValue> {
        match self {
            JsonValue::Object(entries) => entry_lookup(entries@, key),
            _ => None,
        }
    }

    /// This value is the scalar `s`.
    pub open spec fn spec_is(&self, s: Scalar) -> bool {
        match s {
            Scalar::Null => *self is Null,
            Scalar::Bool(b) => *self == JsonValue::Bool(b),
            Scalar::Int(i) => *self == JsonValue::Number(JsonNumber::Int(i)),
            Scalar::Text(t) => self matches JsonValue::String(x) && x@ == t,
        }
    }

    /// The text of a scalar: a string as it is, a number in decimal, a
    /// boolean as `true` or `false`. Null, arrays and objects have none.
    pub open spec fn spec_scalar_text(&self) -> Option<Seq<char>> {
        match self {
            JsonValue::String(s) => Some(s@),
            JsonValue::Number(n) => Some(n.spec_text()),
            JsonValue::Bool(b) => Some(bool_text(*b)),
            _ => None,
        }
    }

    /// An integer number in the range of `i64`.
    pub open spec fn spec_as_i64(&self) -> Option<i64> {
        match self {
            JsonValue::Number(n) => n.spec_as_i64(),
            _ => None,
        }
    }

    /// The value under `key`, where this is an object that has it.
    pub fn get(&self, key: &str) -> (r: Option<&JsonValue>)
        ensures
            r matches Some(v) ==> self.spec_get(key@) == Some(*v),
            r is None ==> self.spec_get(key@) is None,
    {
        match self {
            JsonValue::Object(entries) => {
                let mut i: usize = 0;
                proof {
                    assert(entries@.subrange(0, entries@.len() as int) == entries@);
                }
                while i < entries.len()
                    invariant
                        *self == JsonValue::Object(*entries),
                        i <= entries@.len(),
                        entry_lookup(entries@, key@) == entry_lookup(
                            entries@.subrange(i as int, entries@.len() as int),
                            key@,
                        ),
                    decreases entries.len() - i,
                {
                    let ghost rest = entries@.subrange(i as int, entries@.len() as int);
                    if text_eq(entries[i].0.as_str(), key) {
                        proof {
                            assert(rest[0] == entries@[i as int]);
                            assert(rest[0].0@ == key@);
                            assert(entry_lookup(rest, key@) == Some(rest[0].1));
                        }
                        return Some(&entries[i].1);
                    }
                    proof {
                        assert(rest.drop_first() == entries@.subrange(
                            i + 1,
                            entries@.len() as int,
                        ));
                    }
                    i = i + 1;
                }
                None
            },
            _ => None,
        }
    }

    pub fn as_i64(&self) -> (r: Option<i64>)
        ensures
            r == self.spec_as_i64(),
    {
        match self {
            JsonValue::Number(n) => n.as_i64(),
            _ => None,
        }
    }

    /// The string, where this is a string.
    pub fn as_str(&self) -> (r: Option<&String>)
        ensures
            r matches Some(s) ==> *self == JsonValue::String(*s),
            r is None ==> !(self is String),
    {
        match self {
            JsonValue::String(s) => Some(s),
            _ => None,
        }
    }

    /// The elements, where this is an array.
    pub fn as_array(&self) -> (r: Option<&Vec<JsonValue>>)
        ensures
            r matches Some(a) ==> *self == JsonValue::Array(*a),
            r is None ==> !(self is Array),
    {
        match self {
            JsonValue::Array(a) => Some(a),
            _ => None,
        }
    }

    pub fn is_array(&self) -> (r: bool)
        ensures
            r == self is Array,
    {
        match self {
            JsonValue::Array(_) => true,
            _ => false,
        }
    }

    pub fn is_object(&self) -> (r: bool)
        ensures
            r == self is Object,
    {
        match self {
            JsonValue::Object(_) => true,
            _ => false,
        }
    }

    pub fn is_null(&self) -> (r: bool)
        ensures
            r == self is Null,
    {
        match self {
            JsonValue::Null => true,
            _ => false,
        }
    }

    /// The text of a scalar, as `spec_scalar_text` gives it.
    pub fn scalar_text(&self) -> (r: Option<String>)
        ensures
            r matches Some(s) ==> self.spec_scalar_text() == Some(s@),
            r is None ==> self.spec_scalar_text() is None,
    {
        match self {
            JsonValue::String(s) => Some(s.clone()),
            JsonValue::Number(n) => Some(n.to_text()),
            JsonValue::Bool(b) => {
                proof {
                    reveal_strlit("true");
                    reveal_strlit("false");
                }
                if *b {
                    Some(String::from_str("true"))
                } else {
                    Some(String::from_str("false"))
                }
            },
            _ => None,
        }
    }
}

/// `a` and `b` are the same JSON value: equal scalars, and arrays and
/// objects whose elements and entries are the same in order.
pub open spec fn json_eq(a: JsonValue, b: JsonValue) -> bool
    decreases a,
{
    match a {
        JsonValue::Array(xs) => b matches JsonValue::Array(ys) && items_eq(xs@, ys@),
        JsonValue::Object(es) => b matches JsonValue::Object(fs) && entries_eq(es@, fs@),
        _ => a == b,
    }
}

/// The elements of two arrays are the same, in order.
pub open spec fn items_eq(xs: Seq<JsonValue>, ys: Seq<JsonValue>) -> bool
    decreases xs,
{
    xs.len() == ys.len() && (xs.len() == 0 || (items_eq(
        xs.subrange(0, xs.len() - 1),
        ys.subrange(0, ys.len() - 1),
    ) && json_eq(xs[xs.len() - 1], ys[ys.len() - 1])))
}

/// The entries of two objects are the same, in order.
pub open spec fn entries_eq(es: Seq<(String, JsonValue)>, fs: Seq<(String, JsonValue)>) -> bool
    decreases es,
{
    es.len() == fs.len() && (es.len() == 0 || (entries_eq(
        es.subrange(0, es.len() - 1),
        fs.subrange(0, fs.len() - 1),
    ) && es[es.len() - 1].0 == fs[fs.len() - 1].0 && json_eq(es[es.len() - 1].1, fs[fs.len() - 1].1)))
}

/// A copy of a JSON value, element by element.
pub fn copy_json(v: &JsonValue) -> (r: JsonValue)
    ensures
        json_eq(*v, r),
        !(v is Array) && !(v is Object) ==> r == *v,
        r is Array <==> v is Array,
        r is Object <==> v is Object,
    decreases v,
{
    match v {
        JsonValue::Null => JsonValue::Null,
        JsonValue::Bool(b) => JsonValue::Bool(*b),
        JsonValue::Number(n) => JsonValue::Number(n.clone()),
        JsonValue::String(s) => JsonValue::String(s.clone()),
        JsonValue::Array(items) => {
            let mut out: Vec<JsonValue> = Vec::new();
            let mut i: usize = 0;
            proof {
                assert(items@.subrange(0, 0) =~= Seq::<JsonValue>::empty());
            }
            while i < items.len()
                invariant
                    *v == JsonValue::Array(*items),
                    i <= items@.len(),
                    items_eq(items@.subrange(0, i as int), out@),
                decreases items.len() - i,
            {
                proof {
                    assert(decreases_to!(items => items[i as int]));
                    assert(decreases_to!(*v => v->Array_0));
                    assert(decreases_to!(*v => items[i as int]));
                }
                let x = copy_json(&items[i]);
                let ghost before = out@;
                out.push(x);
                i = i + 1;
                proof {
                    let pre = items@.subrange(0, i as int);
                    assert(pre.subrange(0, pre.len() - 1) =~= items@.subrange(0, i - 1));
                    assert(out@.subrange(0, out@.len() - 1) =~= before);
                    assert(pre[pre.len() - 1] == items@[i - 1]);
                    assert(items_eq(pre, out@));
                }
            }
            proof {
                assert(items@.subrange(0, i as int) =~= items@);
            }
            JsonValue::Array(out)
        },
        JsonValue::Object(entries) => {
            let mut out: Vec<(String, JsonValue)> = Vec::new();
            let mut i: usize = 0;
            proof {
                assert(entries@.subrange(0, 0) =~= Seq::<(String, JsonValue)>::empty());
            }
            while i < entries.len()
                invariant
                    *v == JsonValue::Object(*entries),
                    i <= entries@.len(),
                    entries_eq(entries@.subrange(0, i as int), out@),
                decreases entries.len() - i,
            {
                proof {
                    assert(decreases_to!(entries => entries[i as int]));
                    assert(decreases_to!(entries[i as int] => entries[i as int].1));
                    assert(decreases_to!(*v => v->Object_0));
                    assert(decreases_to!(*v => entries[i as int].1));
                }
                let key = entries[i].0.clone();
                let x = copy_json(&entries[i].1);
                let ghost before = out@;
                out.push((key, x));
                i = i + 1;
                proof {
                    let pre = entries@.subrange(0, i as int);
                    assert(pre.subrange(0, pre.len() - 1) =~= entries@.subrange(0, i - 1));
                    assert(out@.subrange(0, out@.len() - 1) =~= before);
                    assert(pre[pre.len() - 1] == entries@[i - 1]);
                    assert(entries_eq(pre, out@));
                }
            }
            proof {
                assert(entries@.subrange(0, i as int) =~= entries@);
            }
            JsonValue::Object(out)
        },
    }
}

impl Clone for JsonValue {
    fn clone(&self) -> (r: Self)
        ensures
            json_eq(*self, r),
            !(self is Array) && !(self is Object) ==> r == *self,
    {
        copy_json(self)
    }
}

} // verus!
