//! The settings file of the CLI, a JSON document.
use crate::json::{json_of, json_parse, parse_json, text_member, Json};
use vstd::prelude::*;

verus! {

/// The string setting under the key; empty where the document has none.
pub open spec fn setting_in(json: Json, key: Seq<char>) -> Seq<char> {
    match json.text_member(key) {
        Some(text) => text,
        None => seq![],
    }
}

/// The string setting under the key; empty where the file cannot be read, is no JSON document or
/// has no such setting.
pub open spec fn setting(content: Option<Seq<char>>, key: Seq<char>) -> Seq<char> {
    match content {
        Some(text) => match json_parse(text) {
            Some(json) => setting_in(json, key),
            None => seq![],
        },
        None => seq![],
    }
}

/// The view of an optional text.
pub open spec fn content_text(content: Option<&str>) -> Option<Seq<char>> {
    match content {
        Some(text) => Some(text@),
        None => None,
    }
}

/// The string setting under the key, in a parsed document.
fn read_setting_in(value: &serde_json::Value, key: &str) -> (r: String)
    ensures
        r@ == setting_in(json_of(*value), key@),
{
    match text_member(value, key) {
        Some(text) => text,
        None => String::new(),
    }
}

/// The string setting under the key.
fn read_setting(content: Option<&str>, key: &str) -> (r: String)
    ensures
        r@ == setting(content_text(content), key@),
{
    match content {
        Some(text) => match parse_json(text) {
            Some(value) => read_setting_in(&value, key),
            None => String::new(),
        },
        None => String::new(),
    }
}

/// The configured model, in a settings file of this content; `None` where it cannot be read.
pub fn read_model_from_settings(content: Option<&str>) -> (r: String)
    ensures
        content is None ==> r@.len() == 0,
        r@ == setting(content_text(content), "model"@),
{
    read_setting(content, "model")
}

/// The configured reasoning effort, in a settings file of this content; `None` where it cannot be
/// read.
pub fn read_effort_from_settings(content: Option<&str>) -> (r: String)
    ensures
        content is None ==> r@.len() == 0,
        r@ == setting(content_text(content), "effortLevel"@),
{
    read_setting(content, "effortLevel")
}

/// A setting is the string that the document holds under its key, and empty in every other case: no
/// file, no document, no object, no such key, no string.
pub proof fn law_setting_is_the_string_under_its_key(
    content: Option<Seq<char>>,
    text: Seq<char>,
    members: Map<Seq<char>, Json>,
    key: Seq<char>,
    value: Seq<char>,
)
    ensures
        json_parse(text) == Some(Json::Object(members)) && members.contains_key(key)
            && members[key] == Json::Text(value) ==> setting(Some(text), key) == value,
        setting(content, key).len() > 0 ==> {
            &&& content is Some
            &&& json_parse(content->0) matches Some(Json::Object(found)) && found.contains_key(key)
                && found[key] == Json::Text(setting(content, key))
        },
{
}

} // verus!
