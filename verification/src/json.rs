//! JSON documents, read and quoted by `serde_json`.

use crate::double::Double;
use crate::text;
use vstd::prelude::*;
use vstd::string::*;

verus! {

/// A parsed document of `serde_json`.
#[verifier::external_type_specification]
#[verifier::external_body]
pub struct ExJsonValue(serde_json::Value);

/// The error of a document that is no JSON.
#[verifier::external_type_specification]
#[verifier::external_body]
pub struct ExJsonError(serde_json::Error);

/// What a JSON document holds.
pub enum Json {
    Null,
    Bool(bool),
    /// A number: as a signed integer where it is written as one that fits, and as binary64.
    Number { integer: Option<i64>, double: Double },
    Text(Seq<char>),
    List(Seq<Json>),
    Object(Map<Seq<char>, Json>),
}

impl Json {
    /// The member of an object under a key.
    pub open spec fn at(self, key: Seq<char>) -> Option<Json> {
        match self {
            Json::Object(members) => if members.contains_key(key) {
                Some(members[key])
            } else {
                None
            },
            _ => None,
        }
    }

    /// The element of a list at a position.
    pub open spec fn nth(self, i: int) -> Option<Json> {
        match self {
            Json::List(elements) => if 0 <= i < elements.len() {
                Some(elements[i])
            } else {
                None
            },
            _ => None,
        }
    }

    pub open spec fn text(self) -> Option<Seq<char>> {
        match self {
            Json::Text(s) => Some(s),
            _ => None,
        }
    }

    pub open spec fn boolean(self) -> Option<bool> {
        match self {
            Json::Bool(b) => Some(b),
            _ => None,
        }
    }

    pub open spec fn integer(self) -> Option<i64> {
        match self {
            Json::Number { integer, double } => integer,
            _ => None,
        }
    }

    pub open spec fn double(self) -> Option<Double> {
        match self {
            Json::Number { integer, double } => Some(double),
            _ => None,
        }
    }

    /// The text of the member under a key.
    pub open spec fn text_at(self, key: Seq<char>) -> Option<Seq<char>> {
        match self.at(key) {
            Some(v) => v.text(),
            None => None,
        }
    }
}

/// What a parsed document holds.
pub uninterp spec fn json_tree(v: serde_json::Value) -> Json;

/// What `serde_json::from_str` makes of a text; nothing where the text is no JSON document.
pub uninterp spec fn json_of_text(text: Seq<char>) -> Option<Json>;

/// `serde_json::from_str` for documents: it succeeds or fails by the text alone, and so does what
/// the document holds depend on the text alone. Nothing is said of the error.
#[verifier::external_body]
pub(crate) fn parse_json(text: &str) -> (r: Result<serde_json::Value, serde_json::Error>)
    ensures
        match r {
            Ok(v) => json_of_text(text@) == Some(json_tree(v)),
            Err(_) => json_of_text(text@) is None,
        },
{
    serde_json::from_str(text)
}

/// `serde_json::Value::get` with a key: the member of an object under that key, nothing where
/// there is none or the document is no object.
#[verifier::external_body]
pub(crate) fn member<'a>(v: &'a serde_json::Value, key: &str) -> (r: Option<&'a serde_json::Value>)
    ensures
        match r {
            Some(m) => json_tree(*v).at(key@) == Some(json_tree(*m)),
            None => json_tree(*v).at(key@) is None,
        },
{
    v.get(key)
}

/// `serde_json::Value::as_array`: the elements of a list, nothing for any other document.
#[verifier::external_body]
pub(crate) fn elements(v: &serde_json::Value) -> (r: Option<&Vec<serde_json::Value>>)
    ensures
        match r {
            Some(list) => json_tree(*v) == Json::List(
                list@.map_values(|x: serde_json::Value| json_tree(x)),
            ),
            None => !(json_tree(*v) is List),
        },
{
    v.as_array()
}

/// `serde_json::Value::as_str`: the text of a string, nothing for any other document.
#[verifier::external_body]
pub(crate) fn as_text(v: &serde_json::Value) -> (r: Option<&str>)
    ensures
        match r {
            Some(s) => json_tree(*v).text() == Some(s@),
            None => json_tree(*v).text() is None,
        },
{
    v.as_str()
}

/// `serde_json::Value::as_bool`: the value of a boolean, nothing for any other document.
#[verifier::external_body]
pub(crate) fn as_boolean(v: &serde_json::Value) -> (r: Option<bool>)
    ensures
        r == json_tree(*v).boolean(),
{
    v.as_bool()
}

/// `serde_json::Value::as_i64`: a number that is a signed integer of 64 bits, nothing for any
/// other document.
#[verifier::external_body]
pub(crate) fn as_integer(v: &serde_json::Value) -> (r: Option<i64>)
    ensures
        r == json_tree(*v).integer(),
{
    v.as_i64()
}

/// `serde_json::Value::as_f64`: a number as binary64, nothing for any other document.
#[verifier::external_body]
pub(crate) fn as_double(v: &serde_json::Value) -> (r: Option<Double>)
    ensures
        r == json_tree(*v).double(),
{
    v.as_f64().map(|x| Double { bits: x.to_bits() })
}

/// A character within a JSON string: quotes, backslashes and control characters are escaped, those
/// without a short form by their number.
pub open spec fn json_escaped(c: char) -> Seq<char> {
    if c == '"' || c == '\\' {
        seq!['\\', c]
    } else if c == '\u{8}' {
        seq!['\\', 'b']
    } else if c == '\t' {
        seq!['\\', 't']
    } else if c == '\n' {
        seq!['\\', 'n']
    } else if c == '\u{c}' {
        seq!['\\', 'f']
    } else if c == '\r' {
        seq!['\\', 'r']
    } else if (c as int) < 32 {
        seq!['\\', 'u', '0', '0', text::hex_digit(c as int / 16), text::hex_digit(c as int % 16)]
    } else {
        seq![c]
    }
}

/// A text within a JSON string.
pub open spec fn json_escapes(text: Seq<char>) -> Seq<char>
    decreases text.len(),
{
    if text.len() == 0 {
        Seq::empty()
    } else {
        json_escapes(text.drop_last()) + json_escaped(text.last())
    }
}

/// A text as a JSON string.
pub open spec fn json_quoted(text: Seq<char>) -> Seq<char> {
    seq!['"'] + json_escapes(text) + seq!['"']
}

/// `serde_json::to_string` for a text: the text between quotes, with quotes, backslashes and control
/// characters escaped. It is written to memory, which does not fail.
#[verifier::external_body]
pub(crate) fn quote(text: &str) -> (r: Result<String, serde_json::Error>)
    ensures
        r is Ok,
        r->Ok_0@ == json_quoted(text@),
{
    serde_json::to_string(text)
}

/// A text as a JSON string.
pub fn quoted(text: &str) -> (r: String)
    ensures
        r@ == json_quoted(text@),
{
    match quote(text) {
        Ok(s) => s,
        Err(_) => String::new(),
    }
}

/// The text of the member under a key.
pub(crate) fn text_member<'a>(v: &'a serde_json::Value, key: &str) -> (r: Option<&'a str>)
    ensures
        match r {
            Some(s) => json_tree(*v).text_at(key@) == Some(s@),
            None => json_tree(*v).text_at(key@) is None,
        },
{
    match member(v, key) {
        Some(m) => as_text(m),
        None => None,
    }
}

} // verus!
