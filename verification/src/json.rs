//! JSON documents, as the `serde_json` crate reads them.
use vstd::prelude::*;

verus! {

/// A parsed JSON document.
#[verifier::external_type_specification]
#[verifier::external_body]
pub struct ExValue(serde_json::Value);

/// What a JSON document holds, as far as it is read here.
pub enum Json {
    /// A string.
    Text(Seq<char>),
    /// A number that is an integer of 64 bits without a sign.
    Unsigned(u64),
    /// An object, by its keys.
    Object(Map<Seq<char>, Json>),
    /// Anything else.
    Other,
}

/// What the parsed document holds.
pub uninterp spec fn json_of(value: serde_json::Value) -> Json;

/// What the text holds as a JSON document; `None` where it is not one.
pub uninterp spec fn json_parse(text: Seq<char>) -> Option<Json>;

impl Json {
    /// The member of an object under the key.
    pub open spec fn member(self, key: Seq<char>) -> Option<Json> {
        match self {
            Json::Object(members) => if members.contains_key(key) {
                Some(members[key])
            } else {
                None
            },
            _ => None,
        }
    }

    /// The string member of an object under the key.
    pub open spec fn text_member(self, key: Seq<char>) -> Option<Seq<char>> {
        match self.member(key) {
            Some(Json::Text(text)) => Some(text),
            _ => None,
        }
    }

    /// The unsigned member of an object under the key.
    pub open spec fn unsigned_member(self, key: Seq<char>) -> Option<u64> {
        match self.member(key) {
            Some(Json::Unsigned(n)) => Some(n),
            _ => None,
        }
    }
}

/// `serde_json::from_str`: whether and as what a text parses depends on the text alone. The
/// result is named; what JSON is, is not written out.
#[verifier::external_body]
pub(crate) fn parse_json(text: &str) -> (r: Option<serde_json::Value>)
    ensures
        match r {
            Some(value) => json_parse(text@) == Some(json_of(value)),
            None => json_parse(text@) is None,
        },
{
    serde_json::from_str(text).ok()
}

/// `serde_json::Value::get` with a string: the member of an object under the key; `None` for a
/// missing key and for a value that is no object.
#[verifier::external_body]
pub(crate) fn get_member<'a>(value: &'a serde_json::Value, key: &str) -> (r: Option<
    &'a serde_json::Value,
>)
    ensures
        match r {
            Some(found) => json_of(*value).member(key@) == Some(json_of(*found)),
            None => json_of(*value).member(key@) is None,
        },
{
    value.get(key)
}

/// `serde_json::Value::as_str`: the text of a string; `None` for any other value.
#[verifier::external_body]
pub(crate) fn as_text<'a>(value: &'a serde_json::Value) -> (r: Option<&'a str>)
    ensures
        match r {
            Some(text) => json_of(*value) == Json::Text(text@),
            None => !(json_of(*value) is Text),
        },
{
    value.as_str()
}

/// `serde_json::Value::as_u64`: the integer, where it is one that fits; `None` for any other value.
#[verifier::external_body]
pub(crate) fn as_unsigned(value: &serde_json::Value) -> (r: Option<u64>)
    ensures
        match r {
            Some(n) => json_of(*value) == Json::Unsigned(n),
            None => !(json_of(*value) is Unsigned),
        },
{
    value.as_u64()
}

/// The view of an optional string.
pub open spec fn optional_text(s: Option<String>) -> Option<Seq<char>> {
    match s {
        Some(text) => Some(text@),
        None => None,
    }
}

/// The string member of an object under the key.
pub(crate) fn text_member(value: &serde_json::Value, key: &str) -> (r: Option<String>)
    ensures
        optional_text(r) == json_of(*value).text_member(key@),
{
    match get_member(value, key) {
        Some(found) => match as_text(found) {
            Some(text) => Some(text.to_owned()),
            None => None,
        },
        None => None,
    }
}

/// The unsigned member of an object under the key.
pub(crate) fn unsigned_member(value: &serde_json::Value, key: &str) -> (r: Option<u64>)
    ensures
        r == json_of(*value).unsigned_member(key@),
{
    match get_member(value, key) {
        Some(found) => as_unsigned(found),
        None => None,
    }
}

/// Only an object has members, and each by its own key; a member is read as a string or a number
/// only where it is one.
pub proof fn law_members_are_read_by_key(
    members: Map<Seq<char>, Json>,
    key: Seq<char>,
    json: Json,
    text: Seq<char>,
    n: u64,
)
    ensures
        Json::Object(members).member(key) is Some <==> members.contains_key(key),
        members.contains_key(key) ==> Json::Object(members).member(key) == Some(members[key]),
        Json::Object(members).text_member(key) == Some(text) <==> members.contains_key(key)
            && members[key] == Json::Text(text),
        Json::Object(members).unsigned_member(key) == Some(n) <==> members.contains_key(key)
            && members[key] == Json::Unsigned(n),
        !(json is Object) ==> json.member(key) is None && json.text_member(key) is None
            && json.unsigned_member(key) is None,
{
}

} // verus!
