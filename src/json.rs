//! JSON documents as plain values, and the lookups that read fields out of
//! them.
use vstd::prelude::*;
use crate::text::to_string;

verus! {

/// A JSON value. A number is kept as the `u64` it is, where it is one.
#[derive(Debug)]
pub enum Json {
    Null,
    Bool(bool),
    Number(Option<u64>),
    Str(String),
    Array(Vec<Json>),
    Object(Vec<(String, Json)>),
}

/// A JSON value, as serde_json parses it.
#[verifier::external_type_specification]
#[verifier::external_body]
pub struct ExJsonValue(serde_json::Value);

/// The document that `serde_json::from_str` reads from `body`, if `body` is
/// JSON.
pub uninterp spec fn json_of(body: Seq<char>) -> Option<Json>;

/// Relies on `serde_json::from_str`: parses `body` as one JSON document, a
/// function of the text alone, and gives it as a `Json`.
#[verifier::external_body]
pub(crate) fn parse_json_doc(body: &str) -> (r: Option<Json>)
    ensures
        r == json_of(body@),
{
    serde_json::from_str::<serde_json::Value>(body).ok().map(json_from_value)
}

/// Relies on `serde_json::Value`'s variants: converts a parsed value to a
/// `Json` case for case, objects in the order serde_json iterates them.
#[verifier::external_body]
fn json_from_value(v: serde_json::Value) -> Json {
    match v {
        serde_json::Value::Null => Json::Null,
        serde_json::Value::Bool(b) => Json::Bool(b),
        serde_json::Value::Number(n) => Json::Number(n.as_u64()),
        serde_json::Value::String(s) => Json::Str(s),
        serde_json::Value::Array(a) => Json::Array(a.into_iter().map(json_from_value).collect()),
        serde_json::Value::Object(m) => Json::Object(
            m.into_iter().map(|(k, v)| (k, json_from_value(v))).collect(),
        ),
    }
}

/// The value of the first member of `m` named `key`.
pub open spec fn lookup(m: Seq<(String, Json)>, key: Seq<char>) -> Option<Json>
    decreases m.len(),
{
    if m.len() == 0 {
        None
    } else if m[0].0@ == key {
        Some(m[0].1)
    } else {
        lookup(m.drop_first(), key)
    }
}

/// The member `key` of `o`, where `o` is an object that has one.
pub open spec fn field_of(o: Option<Json>, key: Seq<char>) -> Option<Json> {
    match o {
        Some(Json::Object(m)) => lookup(m@, key),
        _ => None,
    }
}

/// The text of `o`, where it is a string.
pub open spec fn text_of(o: Option<Json>) -> Option<Seq<char>> {
    match o {
        Some(Json::Str(s)) => Some(s@),
        _ => None,
    }
}

/// The number `o`, where it is one that fits a `u64`.
pub open spec fn count_of(o: Option<Json>) -> Option<u64> {
    match o {
        Some(Json::Number(Some(n))) => Some(n),
        _ => None,
    }
}

/// `o` is missing or `null`.
pub open spec fn absent(o: Option<Json>) -> bool {
    match o {
        None => true,
        Some(Json::Null) => true,
        _ => false,
    }
}

/// The value that a borrowed optional value holds.
pub open spec fn opt(o: Option<&Json>) -> Option<Json> {
    match o {
        Some(j) => Some(*j),
        None => None,
    }
}

/// The member `key` of `o`, where `o` is an object that has one.
pub fn field<'a>(o: Option<&'a Json>, key: &str) -> (r: Option<&'a Json>)
    ensures
        opt(r) == field_of(opt(o), key@),
{
    let m = match o {
        Some(Json::Object(m)) => m,
        _ => {
            return None;
        },
    };
    let k = to_string(key);
    let mut i: usize = 0;
    assert(m@.skip(0) =~= m@);
    while i < m.len()
        invariant
            i <= m@.len(),
            k@ == key@,
            field_of(opt(o), key@) == lookup(m@.skip(i as int), key@),
        decreases m@.len() - i,
    {
        assert(m@.skip(i as int).drop_first() =~= m@.skip(i + 1));
        assert(m@.skip(i as int)[0] == m@[i as int]);
        if m[i].0 == k {
            return Some(&m[i].1);
        }
        i = i + 1;
    }
    None
}

/// The text of `o`, where it is a string.
pub fn text(o: Option<&Json>) -> (r: Option<String>)
    ensures
        match text_of(opt(o)) {
            Some(t) => r matches Some(s) && s@ == t,
            None => r is None,
        },
{
    match o {
        Some(Json::Str(s)) => Some(s.clone()),
        _ => None,
    }
}

/// The number `o`, where it is one that fits a `u64`.
pub fn count(o: Option<&Json>) -> (r: Option<u64>)
    ensures
        r == count_of(opt(o)),
{
    match o {
        Some(Json::Number(Some(n))) => Some(*n),
        _ => None,
    }
}

/// Whether `o` is missing or `null`.
pub fn is_absent(o: Option<&Json>) -> (r: bool)
    ensures
        r == absent(opt(o)),
{
    match o {
        None => true,
        Some(Json::Null) => true,
        _ => false,
    }
}

} // verus!
