//! JSON values, as far as the proxy reads and thins them.

use serde_json::Value;
use vstd::prelude::*;

verus! {

/// `serde_json::Value`, a JSON value.
#[verifier::external_type_specification]
#[verifier::external_body]
pub struct ExValue(Value);

/// The members of an object: their names, and their values as text. What is no object has
/// none.
pub uninterp spec fn json_members(value: Value) -> Option<Map<Seq<char>, Seq<char>>>;

/// A value as text, which `Display` writes.
pub uninterp spec fn json_text(value: Value) -> Seq<char>;

/// The value that the bytes are: its members, and its text. Nothing if they are no value.
pub uninterp spec fn json_parsed(bytes: Seq<u8>) -> Option<
    (Option<Map<Seq<char>, Seq<char>>>, Seq<char>),
>;

/// The characters of the string with a text. Nothing if the text is that of another value.
pub uninterp spec fn json_string(text: Seq<char>) -> Option<Seq<char>>;

/// The integer with a text. Nothing if the text is that of another value, or if the integer
/// has more than 64 bits.
pub uninterp spec fn json_integer(text: Seq<char>) -> Option<i64>;

/// The text of the object with these members.
pub uninterp spec fn json_object_text(members: Map<Seq<char>, Seq<char>>) -> Seq<char>;

/// What a value is.
#[derive(PartialEq, Eq, Structural, Debug, Clone, Copy)]
pub enum JsonKind {
    Null,
    Bool,
    Number,
    String,
    Array,
    Object,
}

/// What a value with a text is, which its first character tells.
pub open spec fn kind_of_text(text: Seq<char>) -> JsonKind {
    if text[0] == 'n' {
        JsonKind::Null
    } else if text[0] == 't' || text[0] == 'f' {
        JsonKind::Bool
    } else if text[0] == '"' {
        JsonKind::String
    } else if text[0] == '[' {
        JsonKind::Array
    } else if text[0] == '{' {
        JsonKind::Object
    } else {
        JsonKind::Number
    }
}

/// The members whose names are listed.
pub open spec fn only(members: Map<Seq<char>, Seq<char>>, names: Seq<String>) -> Map<
    Seq<char>,
    Seq<char>,
> {
    members.restrict(Set::new(|name: Seq<char>| crate::text::texts(names).contains(name)))
}

/// `serde_json::from_slice` reads a value.
#[verifier::external_body]
pub(crate) fn parse(bytes: &[u8]) -> (value: Option<Value>)
    ensures
        match value {
            Some(v) => json_parsed(bytes@) == Some((json_members(v), json_text(v))),
            None => json_parsed(bytes@) is None,
        },
{
    serde_json::from_slice(bytes).ok()
}

/// `Display` writes a value as text.
#[verifier::external_body]
pub(crate) fn to_text(value: &Value) -> (text: String)
    ensures
        text@ == json_text(*value),
{
    value.to_string()
}

/// The variants of `Value` tell what a value is, and so does the first character of its
/// text.
#[verifier::external_body]
pub(crate) fn kind(value: &Value) -> (kind: JsonKind)
    ensures
        kind == kind_of_text(json_text(*value)),
{
    match value {
        Value::Null => JsonKind::Null,
        Value::Bool(_) => JsonKind::Bool,
        Value::Number(_) => JsonKind::Number,
        Value::String(_) => JsonKind::String,
        Value::Array(_) => JsonKind::Array,
        Value::Object(_) => JsonKind::Object,
    }
}

/// `Value::get` finds a member of an object.
#[verifier::external_body]
pub(crate) fn member<'a>(value: &'a Value, name: &str) -> (r: Option<&'a Value>)
    ensures
        r is Some <==> (json_members(*value) matches Some(m) && m.contains_key(name@)),
        r matches Some(v) ==> json_text(*v) == json_members(*value)->Some_0[name@],
{
    value.get(name)
}

/// `Value::as_str` hands out the characters of a string.
#[verifier::external_body]
pub(crate) fn as_str(value: &Value) -> (r: Option<&str>)
    ensures
        match r {
            Some(s) => json_string(json_text(*value)) == Some(s@),
            None => json_string(json_text(*value)) is None,
        },
{
    value.as_str()
}

/// `Value::as_i64` hands out an integer that 64 bits hold.
#[verifier::external_body]
pub(crate) fn as_i64(value: &Value) -> (r: Option<i64>)
    ensures
        r == json_integer(json_text(*value)),
{
    value.as_i64()
}

/// `clone` makes the same value.
pub assume_specification[ <Value as Clone>::clone ](value: &Value) -> (r: Value)
    ensures
        r == *value,
;

/// `serde_json::Map::new` makes an object without members.
#[verifier::external_body]
pub(crate) fn new_object() -> (value: Value)
    ensures
        json_members(value) == Some((Map::<Seq<char>, Seq<char>>::empty())),
        json_text(value) == json_object_text((Map::<Seq<char>, Seq<char>>::empty())),
{
    Value::Object(serde_json::Map::new())
}

/// `serde_json::Map::retain` keeps the members that are listed. What is no object stays as
/// it is.
#[verifier::external_body]
pub(crate) fn retain(value: &mut Value, names: &Vec<String>)
    ensures
        match json_members(*old(value)) {
            Some(m) => json_members(*final(value)) == Some(only(m, names@)) && json_text(
                *final(value),
            ) == json_object_text(only(m, names@)),
            None => *final(value) == *old(value),
        },
{
    if let Value::Object(map) = value {
        map.retain(|name, _| is_listed(names, name));
    }
}

/// `serde_json::Map::remove` takes a member out of an object.
#[verifier::external_body]
pub(crate) fn remove(value: &mut Value, name: &str) -> (r: Option<Value>)
    ensures
        r is Some <==> (json_members(*old(value)) matches Some(m) && m.contains_key(name@)),
        match (json_members(*old(value)), r) {
            (Some(m), Some(v)) => json_text(v) == m[name@] && json_members(*final(value)) == Some(
                m.remove(name@),
            ) && json_text(*final(value)) == json_object_text(m.remove(name@)),
            _ => *final(value) == *old(value),
        },
{
    value.as_object_mut().and_then(|map| map.remove(name))
}

/// `serde_json::Map::insert` gives an object a member, in place of one with the same name.
#[verifier::external_body]
pub(crate) fn insert(value: &mut Value, name: &str, content: Value)
    ensures
        match json_members(*old(value)) {
            Some(m) => json_members(*final(value)) == Some(m.insert(name@, json_text(content)))
                && json_text(*final(value)) == json_object_text(
                m.insert(name@, json_text(content)),
            ),
            None => *final(value) == *old(value),
        },
{
    if let Value::Object(map) = value {
        map.insert(name.to_string(), content);
    }
}

/// Whether a name is listed.
pub fn is_listed(names: &Vec<String>, name: &String) -> (r: bool)
    ensures
        r <==> crate::text::texts(names@).contains(name@),
{
    let ghost list = crate::text::texts(names@);
    let mut i: usize = 0;
    while i < names.len()
        invariant
            i <= names@.len(),
            list == crate::text::texts(names@),
            forall|j: int| 0 <= j < i ==> #[trigger] list[j] != name@,
        decreases names@.len() - i,
    {
        if names[i] == *name {
            assert(list[i as int] == name@);
            return true;
        }
        i += 1;
    }
    false
}

/// The members that are left when an object is thinned, and its text. What is no object
/// stays as it is.
pub open spec fn thinned(
    value: (Option<Map<Seq<char>, Seq<char>>>, Seq<char>),
    names: Seq<String>,
) -> (Option<Map<Seq<char>, Seq<char>>>, Seq<char>) {
    match value.0 {
        Some(m) => (Some(only(m, names)), json_object_text(only(m, names))),
        None => value,
    }
}

/// Removes the members of an object that are not listed. With `reordering`, those left are
/// put back one by one in the order of the list.
pub fn filter_json_in_place(json: &mut Value, field_vec: &Vec<String>, reordering: bool)
    ensures
        (json_members(*final(json)), json_text(*final(json))) == thinned(
            (json_members(*old(json)), json_text(*old(json))),
            field_vec@,
        ),
{
    let ghost expected = thinned((json_members(*json), json_text(*json)), field_vec@);
    retain(json, field_vec);
    if reordering {
        let mut i: usize = 0;
        while i < field_vec.len()
            invariant
                i <= field_vec@.len(),
                (json_members(*json), json_text(*json)) == expected,
                expected.0 matches Some(m) ==> expected.1 == json_object_text(m),
            decreases field_vec@.len() - i,
        {
            let name = field_vec[i].as_str();
            if let Some(content) = remove(json, name) {
                insert(json, name, content);
                proof {
                    let m = expected.0->Some_0;
                    assert(m.remove(name@).insert(name@, m[name@]) =~= m);
                }
            }
            i += 1;
        }
    }
}

} // verus!
