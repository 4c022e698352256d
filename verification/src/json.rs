//! JSON values as plain data, read by the `serde_json` crate.
//!
//! The parser is not proved: `parse` states under which name the library
//! speaks of its result. What the library does with a parsed value is
//! verified against that name.
use crate::ordered::same_text;
use vstd::prelude::*;

verus! {

/// Why a text could not be read as the expected data.
#[derive(Clone, Copy, Debug, PartialEq, Eq, Structural)]
pub enum JsonError {
    /// The text is no well-formed JSON document.
    Syntax,
    /// The document is well-formed but lacks a member that is needed, or
    /// holds a value of another kind in its place.
    Shape,
}

/// A JSON value. An object lists its members in the order in which
/// `serde_json` holds them, each key once; a number is kept as its decimal
/// text.
pub enum Json {
    Null,
    Bool(bool),
    Number(String),
    Text(String),
    Array(Vec<Json>),
    Object(Vec<(String, Json)>),
}

/// A JSON value of the `serde_json` crate. Opaque: the library converts it
/// to `Json` at once.
#[verifier::external_type_specification]
#[verifier::external_body]
pub struct ExValue(serde_json::Value);

/// What `serde_json::from_str` makes of `text`, read as a
/// `serde_json::Value`: the value that the text denotes, or nothing where
/// the text is no well-formed JSON document.
pub uninterp spec fn json_parse(text: Seq<char>) -> Option<Json>;

/// Trusted: turns a `serde_json::Value` into a `Json`, variant by variant.
/// Nothing is stated of it alone; `parse` states what the two do together.
#[verifier::external_body]
fn convert(value: &serde_json::Value) -> Json {
    match value {
        serde_json::Value::Null => Json::Null,
        serde_json::Value::Bool(b) => Json::Bool(*b),
        serde_json::Value::Number(n) => Json::Number(n.to_string()),
        serde_json::Value::String(s) => Json::Text(s.clone()),
        serde_json::Value::Array(items) => Json::Array(items.iter().map(convert).collect()),
        serde_json::Value::Object(members) => Json::Object(
            members.iter().map(|(k, v)| (k.clone(), convert(v))).collect(),
        ),
    }
}

/// Trusted: `serde_json::from_str` for `serde_json::Value`. Whether a text
/// parses, and to which value, depends on the text alone.
#[verifier::external_body]
pub(crate) fn parse(text: &str) -> (r: Option<Json>)
    ensures
        r == json_parse(text@),
{
    match serde_json::from_str::<serde_json::Value>(text) {
        Ok(value) => Some(convert(&value)),
        Err(_) => None,
    }
}

/// The value of the first of `members[from..]` whose key is `key`.
pub open spec fn member_from(members: Seq<(String, Json)>, key: Seq<char>, from: int) -> Option<
    Json,
>
    decreases members.len() - from,
{
    if from < 0 || from >= members.len() {
        None
    } else if members[from].0@ == key {
        Some(members[from].1)
    } else {
        member_from(members, key, from + 1)
    }
}

impl Json {
    /// The member `key` of an object; nothing for a missing member and for
    /// a value that is no object.
    pub open spec fn member(self, key: Seq<char>) -> Option<Json> {
        match self {
            Json::Object(members) => member_from(members@, key, 0),
            _ => None,
        }
    }

    /// The first member's value of an object; nothing for an empty object
    /// and for a value that is no object.
    pub open spec fn first_member(self) -> Option<Json> {
        match self {
            Json::Object(members) => if members@.len() > 0 {
                Some(members@[0].1)
            } else {
                None
            },
            _ => None,
        }
    }

    /// The first item of an array; nothing for an empty array and for a
    /// value that is no array.
    pub open spec fn first_item(self) -> Option<Json> {
        match self {
            Json::Array(items) => if items@.len() > 0 {
                Some(items@[0])
            } else {
                None
            },
            _ => None,
        }
    }

    /// The items of an array; nothing for a value that is no array.
    pub open spec fn items(self) -> Option<Seq<Json>> {
        match self {
            Json::Array(items) => Some(items@),
            _ => None,
        }
    }

    /// The text of a string value; nothing for any other value.
    pub open spec fn text(self) -> Option<Seq<char>> {
        match self {
            Json::Text(s) => Some(s@),
            _ => None,
        }
    }

    /// Looks up the member `key` of an object.
    pub fn get(&self, key: &str) -> (r: Option<&Json>)
        ensures
            match r {
                Some(j) => self.member(key@) == Some(*j),
                None => self.member(key@) is None,
            },
    {
        match self {
            Json::Object(members) => {
                let mut i: usize = 0;
                while i < members.len()
                    invariant
                        i <= members.len(),
                        self.member(key@) == member_from(members@, key@, i as int),
                    decreases members.len() - i,
                {
                    if same_text(members[i].0.as_str(), key) {
                        return Some(&members[i].1);
                    }
                    i = i + 1;
                }
                None
            },
            _ => None,
        }
    }

    /// The value of the first member of an object.
    pub fn first_value(&self) -> (r: Option<&Json>)
        ensures
            match r {
                Some(j) => self.first_member() == Some(*j),
                None => self.first_member() is None,
            },
    {
        match self {
            Json::Object(members) => {
                if members.len() > 0 {
                    Some(&members[0].1)
                } else {
                    None
                }
            },
            _ => None,
        }
    }

    /// The first item of an array.
    pub fn first(&self) -> (r: Option<&Json>)
        ensures
            match r {
                Some(j) => self.first_item() == Some(*j),
                None => self.first_item() is None,
            },
    {
        match self {
            Json::Array(items) => {
                if items.len() > 0 {
                    Some(&items[0])
                } else {
                    None
                }
            },
            _ => None,
        }
    }

    /// The items of an array.
    pub fn as_array(&self) -> (r: Option<&Vec<Json>>)
        ensures
            match r {
                Some(v) => self.items() == Some(v@),
                None => self.items() is None,
            },
    {
        match self {
            Json::Array(items) => Some(items),
            _ => None,
        }
    }

    /// The string of a string value.
    pub fn as_str(&self) -> (r: Option<&String>)
        ensures
            match r {
                Some(s) => self.text() == Some(s@),
                None => self.text() is None,
            },
    {
        match self {
            Json::Text(s) => Some(s),
            _ => None,
        }
    }
}

/// The text of the member `key` of `j`, where `j` is an object that has such
/// a member and the member is a string.
pub open spec fn text_member(j: Json, key: Seq<char>) -> Option<Seq<char>> {
    match j.member(key) {
        Some(m) => m.text(),
        None => None,
    }
}

/// A copy of the string member `key` of `j`.
pub fn text_of_member(j: &Json, key: &str) -> (r: Option<String>)
    ensures
        match r {
            Some(s) => text_member(*j, key@) == Some(s@),
            None => text_member(*j, key@) is None,
        },
{
    match j.get(key) {
        Some(m) => match m.as_str() {
            Some(s) => Some(s.clone()),
            None => None,
        },
        None => None,
    }
}

} // verus!
