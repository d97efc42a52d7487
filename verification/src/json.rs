//! JSON, as far as the rules read it and the manifests write it. The parser and the
//! printer are those of `serde_json`.
use vstd::prelude::*;

use crate::text::views;

verus! {

/// A JSON value of `serde_json`, opaque but for its text members.
#[verifier::external_type_specification]
#[verifier::external_body]
pub struct ExValue(serde_json::Value);

/// The members of a JSON object whose values are texts, by their keys; none where the
/// value is not an object.
pub uninterp spec fn text_members(v: serde_json::Value) -> Map<Seq<char>, Seq<char>>;

/// What `serde_json::from_str` makes of a document that should be an array: the text
/// members of its elements, or what the error says.
pub uninterp spec fn json_array(json: Seq<char>) -> Result<
    Seq<Map<Seq<char>, Seq<char>>>,
    Seq<char>,
>;

/// `serde_json::from_str`, asked for an array: its elements in order where the document
/// is one, else what the error says. Of an element only its text members are named.
#[verifier::external_body]
pub(crate) fn parse_array(json: &str) -> (r: Result<Vec<serde_json::Value>, String>)
    ensures
        match r {
            Ok(items) => json_array(json@) == Ok::<
                Seq<Map<Seq<char>, Seq<char>>>,
                Seq<char>,
            >(items@.map_values(|v: serde_json::Value| text_members(v))),
            Err(e) => json_array(json@) == Err::<Seq<Map<Seq<char>, Seq<char>>>, Seq<char>>(e@),
        },
{
    let parsed: Result<Vec<serde_json::Value>, serde_json::Error> = serde_json::from_str(json);
    match parsed {
        Ok(items) => Ok(items),
        Err(e) => Err(e.to_string()),
    }
}

/// `serde_json::Value::get` with a key, then `as_str`: the text that an object holds
/// under the key; none where it holds no text there, or the value is not an object.
#[verifier::external_body]
pub(crate) fn text_member(v: &serde_json::Value, key: &str) -> (r: Option<String>)
    ensures
        match r {
            Some(t) => text_members(*v).contains_key(key@) && text_members(*v)[key@] == t@,
            None => !text_members(*v).contains_key(key@),
        },
{
    match v.get(key) {
        Some(member) => match member.as_str() {
            Some(text) => Some(text.to_string()),
            None => None,
        },
        None => None,
    }
}

/// Texts by their keys, as mathematical values.
pub open spec fn pair_views(v: Seq<(String, String)>) -> Seq<(Seq<char>, Seq<char>)> {
    v.map_values(|p: (String, String)| (p.0@, p.1@))
}

/// What `serde_json::to_string_pretty` prints of an object that holds the given texts
/// and, under `list_key`, an array of the texts of `list`.
pub uninterp spec fn pretty_object(
    texts: Seq<(Seq<char>, Seq<char>)>,
    list_key: Seq<char>,
    list: Seq<Seq<char>>,
) -> Option<Seq<char>>;

/// `serde_json::to_string_pretty` of an object made of the given texts and one array of
/// texts; none where it fails.
#[verifier::external_body]
pub(crate) fn print_object(
    texts: &Vec<(String, String)>,
    list_key: &str,
    list: &Vec<String>,
) -> (r: Option<String>)
    ensures
        match r {
            Some(t) => pretty_object(pair_views(texts@), list_key@, views(list@)) == Some(t@),
            None => pretty_object(pair_views(texts@), list_key@, views(list@)) is None,
        },
{
    let mut object = serde_json::Map::new();
    for (key, text) in texts.iter() {
        object.insert(key.clone(), serde_json::Value::from(text.clone()));
    }
    object.insert(list_key.to_string(), serde_json::Value::from(list.clone()));
    serde_json::to_string_pretty(&serde_json::Value::Object(object)).ok()
}

} // verus!
