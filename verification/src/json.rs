//! A JSON document as plain values, read by serde_json.

use vstd::prelude::*;

use crate::text::{chars_eq, chars_of};

verus! {

/// A JSON value. An object keeps its members in the order serde_json lists
/// them, each key once.
#[derive(Debug)]
pub enum Json {
    Null,
    Bool(bool),
    /// A number, as serde_json prints it.
    Number(String),
    Str(String),
    Array(Vec<Json>),
    Object(Vec<(String, Json)>),
}

#[verifier::external_type_specification]
#[verifier::external_body]
pub struct ExJsonValue(serde_json::Value);

/// The JSON document that serde_json reads from `text`, or `None` where
/// serde_json refuses the text.
pub uninterp spec fn json_document(text: Seq<char>) -> Option<Json>;

/// Reads `text` with `serde_json::from_str::<serde_json::Value>`; the result
/// is `json_document(text)`. What serde_json accepts as JSON is not stated.
#[verifier::external_body]
pub fn parse_json(text: &str) -> (r: Option<Json>)
    ensures
        r == json_document(text@),
{
    serde_json::from_str::<serde_json::Value>(text).ok().map(|v| json_of_value(&v))
}

/// Converts a `serde_json::Value` into a `Json`, variant for variant, with
/// a number as its `Display` text and an object's members in `Map` order.
/// Called only by `parse_json`, whose contract covers the pair.
#[verifier::external_body]
fn json_of_value(v: &serde_json::Value) -> Json {
    match v {
        serde_json::Value::Null => Json::Null,
        serde_json::Value::Bool(b) => Json::Bool(*b),
        serde_json::Value::Number(n) => Json::Number(n.to_string()),
        serde_json::Value::String(s) => Json::Str(s.clone()),
        serde_json::Value::Array(a) => Json::Array(a.iter().map(json_of_value).collect()),
        serde_json::Value::Object(m) => Json::Object(
            m.iter().map(|(k, x)| (k.clone(), json_of_value(x))).collect(),
        ),
    }
}

/// The value of the first member named `key`.
pub open spec fn member(entries: Seq<(String, Json)>, key: Seq<char>) -> Option<Json>
    decreases entries.len(),
{
    if entries.len() == 0 {
        None
    } else if entries[0].0@ == key {
        Some(entries[0].1)
    } else {
        member(entries.drop_first(), key)
    }
}

/// serde_json's `value[key]`: the member of an object, else `Null`.
pub open spec fn get(j: Json, key: Seq<char>) -> Json {
    match j {
        Json::Object(entries) => match member(entries@, key) {
            Some(v) => v,
            None => Json::Null,
        },
        _ => Json::Null,
    }
}

/// serde_json's `Value::as_str`.
pub open spec fn as_str(j: Json) -> Option<String> {
    match j {
        Json::Str(s) => Some(s),
        _ => None,
    }
}

/// serde_json's `Value::as_array`.
pub open spec fn as_array(j: Json) -> Option<Seq<Json>> {
    match j {
        Json::Array(a) => Some(a@),
        _ => None,
    }
}

/// `value[key]`, or `None` where that is `Null` because nothing is there.
pub fn lookup<'a>(j: &'a Json, key: &str) -> (r: Option<&'a Json>)
    ensures
        match r {
            Some(v) => get(*j, key@) == *v,
            None => get(*j, key@) == Json::Null,
        },
{
    let k = chars_of(key);
    match j {
        Json::Object(entries) => {
            let mut i: usize = 0;
            assert(entries@.skip(0) =~= entries@);
            while i < entries.len()
                invariant
                    i <= entries@.len(),
                    k@ == key@,
                    member(entries@, key@) == member(entries@.skip(i as int), key@),
                    get(*j, key@) == match member(entries@, key@) {
                        Some(v) => v,
                        None => Json::Null,
                    },
                decreases entries@.len() - i,
            {
                let name = chars_of(entries[i].0.as_str());
                assert(entries@.skip(i as int)[0] == entries@[i as int]);
                if chars_eq(&name, &k) {
                    assert(entries@[i as int].0@ == key@);
                    assert(member(entries@.skip(i as int), key@) == Some(entries@[i as int].1));
                    assert(get(*j, key@) == entries@[i as int].1);
                    let r = &entries[i].1;
                    assert(*r == entries@[i as int].1);
                    return Some(r);
                }
                assert(entries@.skip(i as int).drop_first() =~= entries@.skip(i + 1));
                i += 1;
            }
            None
        },
        _ => None,
    }
}

/// `value[key].as_str()`.
pub fn lookup_str<'a>(j: &'a Json, key: &str) -> (r: Option<&'a String>)
    ensures
        match r {
            Some(s) => as_str(get(*j, key@)) == Some(*s),
            None => as_str(get(*j, key@)) is None,
        },
{
    match lookup(j, key) {
        Some(Json::Str(s)) => Some(s),
        _ => None,
    }
}

/// `value.as_str()` of an optional `value`, `Null` when absent.
pub fn opt_str<'a>(j: Option<&'a Json>) -> (r: Option<&'a String>)
    ensures
        match j {
            Some(v) => match r {
                Some(s) => as_str(*v) == Some(*s),
                None => as_str(*v) is None,
            },
            None => r is None,
        },
{
    match j {
        Some(Json::Str(s)) => Some(s),
        _ => None,
    }
}

} // verus!
