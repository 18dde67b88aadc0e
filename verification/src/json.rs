//! A plain JSON value tree.
//!
//! Plugin options and schemas travel through the library as this type, so
//! that option validation is ordinary verified logic.  Numbers keep their
//! literal text: the validator only ever inspects a value's kind.

use vstd::prelude::*;
use crate::text::str_eq;

verus! {

/// A JSON value.  Object fields keep their original order.
#[derive(Debug)]
pub enum JsonValue {
    Null,
    Bool(bool),
    Number(String),
    Text(String),
    Array(Vec<JsonValue>),
    Object(Vec<(String, JsonValue)>),
}

/// First value bound to `key`, if any.
pub open spec fn obj_get_spec(fields: Seq<(String, JsonValue)>, key: Seq<char>) -> Option<
    JsonValue,
>
    decreases fields.len(),
{
    if fields.len() == 0 {
        None
    } else if fields[0].0@ == key {
        Some(fields[0].1)
    } else {
        obj_get_spec(fields.drop_first(), key)
    }
}

/// The JSON type name of a value, as option validation reports it.
pub open spec fn kind_name(v: JsonValue) -> Seq<char> {
    match v {
        JsonValue::Null => "null"@,
        JsonValue::Bool(_) => "boolean"@,
        JsonValue::Number(_) => "number"@,
        JsonValue::Text(_) => "string"@,
        JsonValue::Array(_) => "array"@,
        JsonValue::Object(_) => "object"@,
    }
}

impl JsonValue {
    /// The JSON type name of this value.
    pub fn kind_str(&self) -> (r: &'static str)
        ensures
            r@ == kind_name(*self),
    {
        match self {
            JsonValue::Null => "null",
            JsonValue::Bool(_) => "boolean",
            JsonValue::Number(_) => "number",
            JsonValue::Text(_) => "string",
            JsonValue::Array(_) => "array",
            JsonValue::Object(_) => "object",
        }
    }

}

/// Look up `key` among object fields, first binding wins.
pub fn obj_get<'a>(fields: &'a Vec<(String, JsonValue)>, key: &str) -> (r: Option<&'a JsonValue>)
    ensures
        match r {
            Some(v) => obj_get_spec(fields@, key@) == Some(*v),
            None => obj_get_spec(fields@, key@) is None,
        },
{
    let mut i: usize = 0;
    proof {
        assert(fields@.skip(0) =~= fields@);
    }
    while i < fields.len()
        invariant
            i <= fields@.len(),
            obj_get_spec(fields@, key@) == obj_get_spec(fields@.skip(i as int), key@),
        decreases fields@.len() - i,
    {
        proof {
            assert(fields@.skip(i as int)[0] == fields@[i as int]);
            assert(fields@.skip(i as int).drop_first() =~= fields@.skip(i + 1));
        }
        if str_eq(fields[i].0.as_str(), key) {
            return Some(&fields[i].1);
        }
        i = i + 1;
    }
    proof {
        assert(fields@.skip(fields@.len() as int).len() == 0);
    }
    None
}

/// Whether some object field is bound to `key`.
pub fn obj_has_key(fields: &Vec<(String, JsonValue)>, key: &str) -> (r: bool)
    ensures
        r == !(obj_get_spec(fields@, key@) is None),
{
    let g = obj_get(fields, key);
    g.is_some()
}

} // verus!
