//! The value model: a tagged union for one parsed document node, together with
//! the spec-level notions of well-formedness, key lookup and deep equality.

use vstd::prelude::*;

verus! {

/// One node of a parsed document tree. Objects keep their fields in insertion
/// order; the order is irrelevant for comparison, but keys are expected to be
/// unique (see `obj_wf`).
#[derive(Debug, PartialEq)]
pub enum Value {
    Null,
    Bool(bool),
    Number(i64),
    Text(String),
    Array(Vec<Value>),
    Object(Vec<(String, Value)>),
}

/// The kind tag of a value, used by the type comparator.
#[derive(Debug, Clone, Copy, PartialEq, Eq, Structural)]
pub enum ValueType {
    Null,
    Boolean,
    Number,
    Text,
    Array,
    Object,
}

pub open spec fn spec_type_of(v: Value) -> ValueType {
    match v {
        Value::Null => ValueType::Null,
        Value::Bool(_) => ValueType::Boolean,
        Value::Number(_) => ValueType::Number,
        Value::Text(_) => ValueType::Text,
        Value::Array(_) => ValueType::Array,
        Value::Object(_) => ValueType::Object,
    }
}

/// The textual name of a kind, as it appears inside type-diff records.
pub open spec fn spec_kind_name(t: ValueType) -> Seq<char> {
    match t {
        ValueType::Null => "null"@,
        ValueType::Boolean => "bool"@,
        ValueType::Number => "number"@,
        ValueType::Text => "string"@,
        ValueType::Array => "array"@,
        ValueType::Object => "object"@,
    }
}

pub fn get_type(value: &Value) -> (t: ValueType)
    ensures
        t == spec_type_of(*value),
{
    match value {
        Value::Null => ValueType::Null,
        Value::Bool(_) => ValueType::Boolean,
        Value::Number(_) => ValueType::Number,
        Value::Text(_) => ValueType::Text,
        Value::Array(_) => ValueType::Array,
        Value::Object(_) => ValueType::Object,
    }
}

impl ValueType {
    /// The textual name of the kind: `null`, `bool`, `number`, `string`,
    /// `array` or `object`.
    pub fn kind_name(&self) -> (r: String)
        ensures
            r@ == spec_kind_name(*self),
    {
        match self {
            ValueType::Null => "null".to_owned(),
            ValueType::Boolean => "bool".to_owned(),
            ValueType::Number => "number".to_owned(),
            ValueType::Text => "string".to_owned(),
            ValueType::Array => "array".to_owned(),
            ValueType::Object => "object".to_owned(),
        }
    }
}

/// No two fields of one object share a key.
pub open spec fn keys_unique(fields: Seq<(String, Value)>) -> bool {
    forall|i: int, j: int| 0 <= i < j < fields.len() ==> fields[i].0@ != fields[j].0@
}

/// A well-formed value: every object in the tree has unique keys.
pub open spec fn value_wf(v: Value) -> bool
    decreases v,
{
    match v {
        Value::Array(items) => forall|i: int|
            0 <= i < items@.len() ==> value_wf(#[trigger] items@[i]),
        Value::Object(fields) => obj_wf(fields@),
        _ => true,
    }
}

/// A well-formed object body: unique keys, and every field value well-formed.
pub open spec fn obj_wf(fields: Seq<(String, Value)>) -> bool
    decreases fields,
{
    keys_unique(fields) && forall|i: int|
        0 <= i < fields.len() ==> value_wf(#[trigger] fields[i].1)
}

/// First-match lookup of a key among an object's fields.
pub open spec fn lookup(fields: Seq<(String, Value)>, key: Seq<char>) -> Option<Value>
    decreases fields.len(),
{
    if fields.len() == 0 {
        None
    } else if fields[0].0@ == key {
        Some(fields[0].1)
    } else {
        lookup(fields.drop_first(), key)
    }
}

pub open spec fn has_key(fields: Seq<(String, Value)>, key: Seq<char>) -> bool {
    lookup(fields, key) is Some
}

/// Relies on str's `PartialEq`: two string slices are equal exactly when
/// their character sequences are.
#[verifier::external_body]
pub(crate) fn str_eq(a: &str, b: &str) -> (r: bool)
    ensures
        r == (a@ == b@),
{
    a == b
}

proof fn lemma_lookup_skip(fields: Seq<(String, Value)>, key: Seq<char>, i: int)
    requires
        0 <= i <= fields.len(),
        forall|j: int| 0 <= j < i ==> fields[j].0@ != key,
    ensures
        lookup(fields, key) == lookup(fields.skip(i), key),
    decreases i,
{
    if i > 0 {
        lemma_lookup_skip(fields.drop_first(), key, i - 1);
        assert(fields.drop_first().skip(i - 1) =~= fields.skip(i));
    } else {
        assert(fields.skip(0) =~= fields);
    }
}

/// Finds the value stored under `key`, if the object has that key.
pub fn get_value<'a>(fields: &'a Vec<(String, Value)>, key: &str) -> (r: Option<&'a Value>)
    ensures
        match r {
            Some(v) => lookup(fields@, key@) == Some(*v),
            None => lookup(fields@, key@) is None,
        },
{
    let mut i: usize = 0;
    while i < fields.len()
        invariant
            0 <= i <= fields.len(),
            forall|j: int| 0 <= j < i ==> fields@[j].0@ != key@,
        decreases fields.len() - i,
    {
        if str_eq(fields[i].0.as_str(), key) {
            proof {
                lemma_lookup_skip(fields@, key@, i as int);
                assert(lookup(fields@.skip(i as int), key@) == Some(fields@[i as int].1));
            }
            return Some(&fields[i].1);
        }
        i += 1;
    }
    proof {
        lemma_lookup_skip(fields@, key@, fields@.len() as int);
    }
    None
}

/// In an object with unique keys, looking up the key of field `i` finds
/// exactly that field's value.
pub proof fn lemma_lookup_unique(fields: Seq<(String, Value)>, i: int)
    requires
        keys_unique(fields),
        0 <= i < fields.len(),
    ensures
        lookup(fields, fields[i].0@) == Some(fields[i].1),
    decreases i,
{
    if i == 0 {
    } else {
        assert(fields[0].0@ != fields[i].0@);
        assert(keys_unique(fields.drop_first())) by {
            assert(forall|p: int, q: int|
                0 <= p < q < fields.drop_first().len() ==> fields.drop_first()[p]
                    == fields[p + 1] && fields.drop_first()[q] == fields[q + 1]);
        }
        lemma_lookup_unique(fields.drop_first(), i - 1);
        assert(fields.drop_first()[i - 1] == fields[i]);
    }
}

/// Deep structural equality of two values. Arrays must match index by index;
/// objects must hold the same keys with equal values, in any field order.
pub open spec fn value_eq(a: Value, b: Value) -> bool
    decreases a, 1int,
{
    match (a, b) {
        (Value::Null, Value::Null) => true,
        (Value::Bool(x), Value::Bool(y)) => x == y,
        (Value::Number(x), Value::Number(y)) => x == y,
        (Value::Text(x), Value::Text(y)) => x@ == y@,
        (Value::Array(x), Value::Array(y)) => items_eq(x@, y@),
        (Value::Object(x), Value::Object(y)) => objs_eq(x@, y@),
        _ => false,
    }
}

pub open spec fn items_eq(x: Seq<Value>, y: Seq<Value>) -> bool
    decreases x, 0int,
{
    x.len() == y.len() && forall|i: int| 0 <= i < x.len() ==> value_eq(#[trigger] x[i], y[i])
}

/// One field of `x` has a counterpart in `y`: `y` holds its key, with an
/// equal value.
pub open spec fn field_matches(y: Seq<(String, Value)>, f: (String, Value)) -> bool
    decreases f, 0int,
{
    match lookup(y, f.0@) {
        Some(v) => value_eq(f.1, v),
        None => false,
    }
}

pub open spec fn objs_eq(x: Seq<(String, Value)>, y: Seq<(String, Value)>) -> bool
    decreases x, 0int,
{
    x.len() == y.len() && forall|i: int| 0 <= i < x.len() ==> field_matches(y, #[trigger] x[i])
}

/// Decides deep equality of two values.
pub fn values_equal(a: &Value, b: &Value) -> (r: bool)
    ensures
        r == value_eq(*a, *b),
    decreases *a, 1int,
{
    match (a, b) {
        (Value::Null, Value::Null) => true,
        (Value::Bool(x), Value::Bool(y)) => *x == *y,
        (Value::Number(x), Value::Number(y)) => *x == *y,
        (Value::Text(x), Value::Text(y)) => str_eq(x.as_str(), y.as_str()),
        (Value::Array(x), Value::Array(y)) => {
            proof {
                assert(decreases_to!(*a => a->Array_0));
                assert(decreases_to!(a->Array_0 => a->Array_0@));
                assert(decreases_to!(*a => x@));
            }
            arrays_equal(x, y)
        },
        (Value::Object(x), Value::Object(y)) => {
            proof {
                assert(decreases_to!(*a => a->Object_0));
                assert(decreases_to!(a->Object_0 => a->Object_0@));
                assert(decreases_to!(*a => x@));
            }
            objects_equal(x, y)
        },
        _ => false,
    }
}

#[verifier::loop_isolation(false)]
fn arrays_equal(x: &Vec<Value>, y: &Vec<Value>) -> (r: bool)
    ensures
        r == items_eq(x@, y@),
    decreases x@, 0int,
{
    if x.len() != y.len() {
        return false;
    }
    let mut i: usize = 0;
    while i < x.len()
        invariant
            x@.len() == y@.len(),
            0 <= i <= x@.len(),
            forall|j: int| 0 <= j < i ==> value_eq(#[trigger] x@[j], y@[j]),
        decreases x@.len() - i,
    {
        if !values_equal(&x[i], &y[i]) {
            assert(!value_eq(x@[i as int], y@[i as int]));
            return false;
        }
        i += 1;
    }
    true
}

#[verifier::loop_isolation(false)]
fn objects_equal(x: &Vec<(String, Value)>, y: &Vec<(String, Value)>) -> (r: bool)
    ensures
        r == objs_eq(x@, y@),
    decreases x@, 0int,
{
    if x.len() != y.len() {
        return false;
    }
    let mut i: usize = 0;
    while i < x.len()
        invariant
            x@.len() == y@.len(),
            0 <= i <= x@.len(),
            forall|j: int| 0 <= j < i ==> field_matches(y@, #[trigger] x@[j]),
        decreases x@.len() - i,
    {
        let found = get_value(y, x[i].0.as_str());
        match found {
            None => {
                assert(!field_matches(y@, x@[i as int]));
                return false;
            },
            Some(w) => {
                proof {
                    assert(decreases_to!(x@ => x@[i as int]));
                    assert(decreases_to!(x@[i as int] => x@[i as int].1));
                    assert(decreases_to!(x@ => x@[i as int].1));
                }
                if !values_equal(&x[i].1, w) {
                    assert(!field_matches(y@, x@[i as int]));
                    return false;
                }
            },
        }
        i += 1;
    }
    true
}

/// Deep equality is reflexive on well-formed values: every value equals
/// itself.
pub proof fn lemma_value_eq_refl(v: Value)
    requires
        value_wf(v),
    ensures
        value_eq(v, v),
    decreases v, 1int,
{
    match v {
        Value::Array(x) => {
            assert forall|i: int| 0 <= i < x@.len() implies value_eq(#[trigger] x@[i], x@[i]) by {
                lemma_value_eq_refl(x@[i]);
            }
        },
        Value::Object(x) => {
            assert(value_wf(v));
            assert(v == Value::Object(x));
            assert(obj_wf(x@));
            assert forall|i: int| 0 <= i < x@.len() implies field_matches(
                x@,
                #[trigger] x@[i],
            ) by {
                lemma_lookup_unique(x@, i);
                lemma_value_eq_refl(x@[i].1);
            }
        },
        _ => {},
    }
}

} // verus!
