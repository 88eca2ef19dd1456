//! A plain model of parsed JSON records.
//!
//! Rollout lines and configuration files are parsed by `serde_json`; the
//! parsed value is carried into this module's own plain type so that the
//! interpretation of records and configuration can be stated and proved. The
//! accessors follow the usual JSON value API: looking up a key of an object,
//! and reading a string, an integer, an array or an object.

use vstd::prelude::*;

use crate::decimal::{parse_i64, parse_u64, parsed_i64, parsed_u64};
use crate::text::str_equal;

verus! {

/// A parsed JSON value. An object's entries have distinct keys; a parsed
/// object lists them in the order of `serde_json`'s map. A number is kept as the text `serde_json` prints for it: the decimal
/// digits of an integer, with a leading `-` when it is negative, and for any
/// other number a text with a `.` or an exponent.
#[derive(Debug)]
pub enum JsonValue {
    Null,
    Bool(bool),
    Number(String),
    String(String),
    Array(Vec<JsonValue>),
    Object(Vec<(String, JsonValue)>),
}

#[verifier::external_type_specification]
#[verifier::external_body]
pub struct ExSerdeValue(serde_json::Value);

#[verifier::external_type_specification]
#[verifier::external_body]
pub struct ExSerdeError(serde_json::Error);

/// What `serde_json::from_str` makes of a text: the value it reads, or `None`
/// where it refuses the text.
pub uninterp spec fn json_of_text(text: Seq<char>) -> Option<JsonValue>;

/// What `serde_json::from_slice` makes of a sequence of bytes: the value it
/// reads, or `None` where it refuses the bytes.
pub uninterp spec fn json_of_bytes(bytes: Seq<u8>) -> Option<JsonValue>;

/// The plain value of a parsed `serde_json::Value`, one variant for one.
/// Object members come in the order of `serde_json`'s map.
#[verifier::external_body]
fn plain_json(value: serde_json::Value) -> JsonValue {
    match value {
        serde_json::Value::Null => JsonValue::Null,
        serde_json::Value::Bool(b) => JsonValue::Bool(b),
        serde_json::Value::Number(n) => JsonValue::Number(n.to_string()),
        serde_json::Value::String(s) => JsonValue::String(s),
        serde_json::Value::Array(items) => JsonValue::Array(items.into_iter().map(plain_json).collect()),
        serde_json::Value::Object(map) => JsonValue::Object(
            map.into_iter().map(|(key, value)| (key, plain_json(value))).collect(),
        ),
    }
}

/// Parses a JSON text with `serde_json::from_str`. Trusted: the result is
/// the value `json_of_text` names for the text, and an error exactly where it
/// names none.
#[verifier::external_body]
pub(crate) fn parse_json_text(text: &str) -> (result: Result<JsonValue, serde_json::Error>)
    ensures
        match result {
            Ok(value) => json_of_text(text@) == Some(value),
            Err(_) => json_of_text(text@) is None,
        },
{
    match serde_json::from_str::<serde_json::Value>(text) {
        Ok(value) => Ok(plain_json(value)),
        Err(error) => Err(error),
    }
}

/// Parses a JSON text given as bytes with `serde_json::from_slice`. Trusted:
/// the result is the value `json_of_bytes` names for the bytes, and an error
/// exactly where it names none.
#[verifier::external_body]
pub(crate) fn parse_json_bytes(bytes: &[u8]) -> (result: Result<JsonValue, serde_json::Error>)
    ensures
        match result {
            Ok(value) => json_of_bytes(bytes@) == Some(value),
            Err(_) => json_of_bytes(bytes@) is None,
        },
{
    match serde_json::from_slice::<serde_json::Value>(bytes) {
        Ok(value) => Ok(plain_json(value)),
        Err(error) => Err(error),
    }
}

/// The description `serde_json` gives of a parse error (its `Display`).
/// Trusted, with nothing stated of the text.
#[verifier::external_body]
pub(crate) fn json_error_message(error: &serde_json::Error) -> String {
    error.to_string()
}

/// The value of the first entry named `key`, if any.
pub open spec fn entry_value(entries: Seq<(String, JsonValue)>, key: Seq<char>) -> Option<
    JsonValue,
>
    decreases entries.len(),
{
    if entries.len() == 0 {
        None
    } else if entries[0].0@ == key {
        Some(entries[0].1)
    } else {
        entry_value(entries.drop_first(), key)
    }
}

/// Relates an optional reference to an optional value.
pub open spec fn same_option<T>(found: Option<&T>, expected: Option<T>) -> bool {
    match found {
        Some(v) => expected == Some(*v),
        None => expected is None,
    }
}

impl JsonValue {
    /// The member named `key` of an object; `None` for anything else.
    pub open spec fn member(self, key: Seq<char>) -> Option<JsonValue> {
        match self {
            JsonValue::Object(entries) => entry_value(entries@, key),
            _ => None,
        }
    }

    /// The characters of a string value.
    pub open spec fn text(self) -> Option<Seq<char>> {
        match self {
            JsonValue::String(s) => Some(s@),
            _ => None,
        }
    }

    /// A number that is an integer representable as `i64`.
    pub open spec fn integer(self) -> Option<i64> {
        match self {
            JsonValue::Number(n) => parsed_i64(n@),
            _ => None,
        }
    }

    /// A number that is a non-negative integer representable as `u64`.
    pub open spec fn unsigned(self) -> Option<u64> {
        match self {
            JsonValue::Number(n) => parsed_u64(n@),
            _ => None,
        }
    }

    /// The characters of the string member named `key`.
    pub open spec fn text_member(self, key: Seq<char>) -> Option<Seq<char>> {
        match self.member(key) {
            Some(v) => v.text(),
            None => None,
        }
    }

    /// Whether the member `key` is the string `expected`.
    pub open spec fn member_is(self, key: Seq<char>, expected: Seq<char>) -> bool {
        self.text_member(key) == Some(expected)
    }

    pub fn get(&self, key: &str) -> (found: Option<&JsonValue>)
        ensures
            same_option(found, self.member(key@)),
    {
        match self {
            JsonValue::Object(entries) => {
                let mut index: usize = 0;
                assert(entries@.skip(0) =~= entries@);
                while index < entries.len()
                    invariant
                        index <= entries@.len(),
                        self.member(key@) == entry_value(entries@, key@),
                        entry_value(entries@, key@) == entry_value(
                            entries@.skip(index as int),
                            key@,
                        ),
                    decreases entries.len() - index,
                {
                    proof {
                        assert(entries@.skip(index as int).drop_first() =~= entries@.skip(
                            index + 1,
                        ));
                    }
                    if str_equal(entries[index].0.as_str(), key) {
                        assert(entries@.skip(index as int)[0] == entries@[index as int]);
                        assert(entries@.skip(index as int).len() > 0);
                        assert(entry_value(entries@.skip(index as int), key@) == Some(
                            entries@[index as int].1,
                        ));
                        let found = &entries[index].1;
                        return Some(found);
                    }
                    index = index + 1;
                }
                None
            },
            _ => None,
        }
    }

    pub fn as_str(&self) -> (s: Option<&str>)
        ensures
            match s {
                Some(t) => self.text() == Some(t@),
                None => self.text() is None,
            },
    {
        match self {
            JsonValue::String(s) => Some(s.as_str()),
            _ => None,
        }
    }

    pub fn as_i64(&self) -> (n: Option<i64>)
        ensures
            n == self.integer(),
    {
        match self {
            JsonValue::Number(n) => parse_i64(n.as_str()),
            _ => None,
        }
    }

    pub fn as_u64(&self) -> (n: Option<u64>)
        ensures
            n == self.unsigned(),
    {
        match self {
            JsonValue::Number(n) => parse_u64(n.as_str()),
            _ => None,
        }
    }

    /// The elements of an array value.
    pub open spec fn elements(self) -> Option<Seq<JsonValue>> {
        match self {
            JsonValue::Array(items) => Some(items@),
            _ => None,
        }
    }

    pub fn as_array(&self) -> (items: Option<&Vec<JsonValue>>)
        ensures
            match items {
                Some(v) => self.elements() == Some(v@),
                None => self.elements() is None,
            },
    {
        match self {
            JsonValue::Array(items) => Some(items),
            _ => None,
        }
    }

    /// The string member named `key`.
    pub fn str_member(&self, key: &str) -> (s: Option<&str>)
        ensures
            match s {
                Some(t) => self.text_member(key@) == Some(t@),
                None => self.text_member(key@) is None,
            },
    {
        match self.get(key) {
            Some(v) => v.as_str(),
            None => None,
        }
    }

    /// Whether the member `key` is the string `expected`.
    pub fn member_equals(&self, key: &str, expected: &str) -> (equal: bool)
        ensures
            equal == self.member_is(key@, expected@),
    {
        match self.str_member(key) {
            Some(s) => str_equal(s, expected),
            None => false,
        }
    }
}

} // verus!
