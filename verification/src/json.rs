//! JSON documents: the values that notifications and secrets are made of.

use vstd::prelude::*;

verus! {

/// A JSON value as a mathematical tree. A number is held as the text that
/// renders it; the members of an object are held in the order in which they
/// are walked.
pub enum JsonValue {
    Null,
    Bool(bool),
    Number(Seq<char>),
    Text(Seq<char>),
    Array(Seq<JsonValue>),
    Object(Seq<(Seq<char>, JsonValue)>),
}

/// A JSON value. A number is held as the text that renders it; the members
/// of an object are held in the order in which they are walked.
#[derive(Debug, PartialEq, Eq)]
pub enum Json {
    Null,
    Bool(bool),
    Number(String),
    Text(String),
    Array(Vec<Json>),
    Object(Vec<(String, Json)>),
}

/// The mathematical tree that `json` stands for.
pub open spec fn json_view(json: Json) -> JsonValue
    decreases json,
{
    match json {
        Json::Null => JsonValue::Null,
        Json::Bool(b) => JsonValue::Bool(b),
        Json::Number(text) => JsonValue::Number(text@),
        Json::Text(text) => JsonValue::Text(text@),
        Json::Array(items) => JsonValue::Array(
            Seq::new(
                items@.len(),
                |i: int|
                    if 0 <= i < items@.len() {
                        json_view(items@[i])
                    } else {
                        JsonValue::Null
                    },
            ),
        ),
        Json::Object(members) => JsonValue::Object(
            Seq::new(
                members@.len(),
                |i: int|
                    if 0 <= i < members@.len() {
                        (members@[i].0@, json_view(members@[i].1))
                    } else {
                        (Seq::<char>::empty(), JsonValue::Null)
                    },
            ),
        ),
    }
}

impl View for Json {
    type V = JsonValue;

    open spec fn view(&self) -> JsonValue {
        json_view(*self)
    }
}

/// The view of an object holds the keys of its members and the views of
/// their values, in order.
pub proof fn lemma_object_view(json: Json)
    requires
        json is Object,
    ensures
        json@ is Object,
        json@->Object_0.len() == json->Object_0@.len(),
        forall|i: int|
            0 <= i < json->Object_0@.len() ==> #[trigger] json@->Object_0[i] == (
                json->Object_0@[i].0@,
                json->Object_0@[i].1@,
            ),
{
}

/// The value of the first member with key `key` among the members from
/// index `from` on.
pub open spec fn member_from(
    members: Seq<(Seq<char>, JsonValue)>,
    key: Seq<char>,
    from: int,
) -> Option<JsonValue>
    decreases members.len() - from,
{
    if from < 0 || from >= members.len() {
        None
    } else if members[from].0 == key {
        Some(members[from].1)
    } else {
        member_from(members, key, from + 1)
    }
}

impl JsonValue {
    /// The value of the member `key` of an object: of its first member with
    /// that key. A value that is no object has no members.
    pub open spec fn get(self, key: Seq<char>) -> Option<JsonValue> {
        match self {
            JsonValue::Object(members) => member_from(members, key, 0),
            _ => None,
        }
    }
}

impl Json {
    /// The value of the member `key`, where this is an object that has one.
    pub fn get(&self, key: &str) -> (value: Option<&Json>)
        ensures
            match value {
                Some(json) => self@.get(key@) == Some(json@),
                None => self@.get(key@) is None,
            },
    {
        match self {
            Json::Object(members) => {
                proof {
                    lemma_object_view(*self);
                }
                let ghost model = self@->Object_0;
                let owned = key.to_owned();
                let mut i: usize = 0;
                while i < members.len()
                    invariant
                        i <= members.len(),
                        *self == Json::Object(*members),
                        self@ == JsonValue::Object(model),
                        model.len() == members@.len(),
                        forall|j: int|
                            0 <= j < members@.len() ==> #[trigger] model[j] == (
                                members@[j].0@,
                                members@[j].1@,
                            ),
                        owned@ == key@,
                        member_from(model, key@, 0) == member_from(model, key@, i as int),
                    decreases members.len() - i,
                {
                    assert(model[i as int] == (members@[i as int].0@, members@[i as int].1@));
                    if members[i].0 == owned {
                        return Some(&members[i].1);
                    }
                    i += 1;
                }
                None
            },
            _ => None,
        }
    }
}

/// `serde_json::Value`, a parsed document. Nothing is known of what is in
/// it but what `value_json` names.
#[verifier::external_type_specification]
#[verifier::external_body]
pub struct ExValue(serde_json::Value);

/// `serde_json::Error`, the reason why a text is not parsed.
#[verifier::external_type_specification]
#[verifier::external_body]
pub struct ExError(serde_json::Error);

/// The JSON value that a text is parsed to, where it is JSON text.
pub uninterp spec fn parsed_json(text: Seq<char>) -> Option<JsonValue>;

/// The JSON value that a parsed document holds.
pub uninterp spec fn value_json(value: serde_json::Value) -> JsonValue;

/// `serde_json::from_str` to a `serde_json::Value`. The contract claims that
/// the outcome depends on the text alone: the call succeeds exactly on the
/// texts that `parsed_json` has a value for, and the document then holds
/// that value.
#[verifier::external_body]
fn parse_value(text: &str) -> (parsed: Result<serde_json::Value, serde_json::Error>)
    ensures
        parsed is Ok <==> parsed_json(text@) is Some,
        parsed matches Ok(value) ==> parsed_json(text@) == Some(value_json(value)),
{
    serde_json::from_str::<serde_json::Value>(text)
}

/// Takes a `serde_json::Value` apart, variant by variant, down to its
/// leaves. A number becomes the text that `to_string` gives for the
/// `serde_json::Number`; the members of an object come in the order in which
/// `serde_json::Map::iter` walks them. The contract claims that the result
/// depends on the document alone: it is the value that `value_json` names.
#[verifier::external_body]
fn json_from_value(value: &serde_json::Value) -> (json: Json)
    ensures
        json@ == value_json(*value),
{
    match value {
        serde_json::Value::Null => Json::Null,
        serde_json::Value::Bool(b) => Json::Bool(*b),
        serde_json::Value::Number(n) => Json::Number(n.to_string()),
        serde_json::Value::String(s) => Json::Text(s.clone()),
        serde_json::Value::Array(items) => Json::Array(items.iter().map(json_from_value).collect()),
        serde_json::Value::Object(map) => Json::Object(
            map.iter().map(|(k, v)| (k.clone(), json_from_value(v))).collect(),
        ),
    }
}

/// Parses `text` as JSON. The result is the value that the text stands for,
/// or `None` where the text is not JSON.
pub fn parse_json(text: &str) -> (json: Option<Json>)
    ensures
        match json {
            Some(value) => parsed_json(text@) == Some(value@),
            None => parsed_json(text@) is None,
        },
{
    match parse_value(text) {
        Ok(value) => Some(json_from_value(&value)),
        Err(_) => None,
    }
}

} // verus!
