//! Reading JSON text into a value.

use crate::error::EncodingError;
use crate::number::{text_fits, FloatNumber};
use crate::value::{Json, JsonEntry, JsonMember, JsonNumber, JsonValue};
use vstd::prelude::*;

verus! {

/// A number as it was read: a double comes by its IEEE-754 bits and its
/// shortest decimal text.
#[derive(Debug)]
pub enum ParsedNumber {
    PosInt(u64),
    NegInt(i64),
    Float { bits: u64, text: String },
}

/// A member of an object as it was read.
#[derive(Debug)]
pub struct ParsedMember {
    pub key: String,
    pub value: ParsedValue,
}

/// A value as it was read, before the text of its doubles is checked.
#[derive(Debug)]
pub enum ParsedValue {
    Null,
    Bool(bool),
    Number(ParsedNumber),
    String(String),
    Array(Vec<ParsedValue>),
    Object(Vec<ParsedMember>),
}

impl ParsedNumber {
    /// The number as a mathematical value.
    pub open spec fn model(&self) -> Json {
        match self {
            ParsedNumber::PosInt(n) => Json::PosInt(*n),
            ParsedNumber::NegInt(n) => Json::NegInt(*n),
            ParsedNumber::Float { bits, text } => Json::Float { bits: *bits, text: text@ },
        }
    }

    /// The number with the text of a double checked: `None` where that text
    /// is longer than the scratch buffer.
    pub fn checked(&self) -> (r: Option<JsonNumber>)
        ensures
            r is Some <==> texts_fit(self.model()),
            r matches Some(number) ==> number.model() == self.model(),
    {
        match self {
            ParsedNumber::PosInt(n) => Some(JsonNumber::PosInt(*n)),
            ParsedNumber::NegInt(n) => Some(JsonNumber::NegInt(*n)),
            ParsedNumber::Float { bits, text } => match FloatNumber::new(*bits, text.as_str()) {
                Some(number) => Some(JsonNumber::Float(number)),
                None => None,
            },
        }
    }
}

impl ParsedValue {
    /// The value as a mathematical tree.
    pub open spec fn model(&self) -> Json
        decreases self,
    {
        match self {
            ParsedValue::Null => Json::Null,
            ParsedValue::Bool(b) => Json::Bool(*b),
            ParsedValue::Number(number) => number.model(),
            ParsedValue::String(text) => Json::String(text@),
            ParsedValue::Array(items) => Json::Array(
                Seq::new(
                    items@.len(),
                    |i: int|
                        if 0 <= i < items@.len() {
                            items@[i].model()
                        } else {
                            Json::Null
                        },
                ),
            ),
            ParsedValue::Object(members) => Json::Object(
                Seq::new(
                    members@.len(),
                    |i: int|
                        if 0 <= i < members@.len() {
                            JsonEntry { key: members@[i].key@, value: members@[i].value.model() }
                        } else {
                            JsonEntry { key: Seq::empty(), value: Json::Null }
                        },
                ),
            ),
        }
    }

    /// The value with the text of every double checked: the same value, or
    /// `None` where the text of a double in it is longer than the scratch
    /// buffer.
    pub fn checked(&self) -> (r: Option<JsonValue>)
        ensures
            r is Some <==> texts_fit(self.model()),
            r matches Some(value) ==> value.model() == self.model(),
        decreases self,
    {
        match self {
            ParsedValue::Null => Some(JsonValue::Null),
            ParsedValue::Bool(b) => Some(JsonValue::Bool(*b)),
            ParsedValue::Number(number) => match number.checked() {
                Some(number) => Some(JsonValue::Number(number)),
                None => None,
            },
            ParsedValue::String(text) => Some(JsonValue::String(text.clone())),
            ParsedValue::Array(items) => {
                let ghost model = self.model()->Array_0;
                let mut out: Vec<JsonValue> = Vec::new();
                let mut i: usize = 0;
                while i < items.len()
                    invariant
                        i <= items@.len(),
                        decreases_to!(self => items),
                        self.model() == Json::Array(model),
                        model.len() == items@.len(),
                        forall|j: int| 0 <= j < items@.len() ==> model[j] == items@[j].model(),
                        out@.len() == i,
                        forall|j: int| 0 <= j < i ==> (#[trigger] out@[j]).model() == model[j],
                        forall|j: int| 0 <= j < i ==> texts_fit(#[trigger] model[j]),
                    decreases items@.len() - i,
                {
                    match items[i].checked() {
                        Some(item) => {
                            out.push(item);
                        },
                        None => {
                            assert(!texts_fit(model[i as int]));
                            assert(Json::Array(model)->Array_0 == model);
                            return None;
                        },
                    }
                    i = i + 1;
                }
                let value = JsonValue::Array(out);
                assert(value.model()->Array_0 =~= model);
                Some(value)
            },
            ParsedValue::Object(members) => {
                let ghost model = self.model()->Object_0;
                let mut out: Vec<JsonMember> = Vec::new();
                let mut i: usize = 0;
                while i < members.len()
                    invariant
                        i <= members@.len(),
                        decreases_to!(self => members),
                        self.model() == Json::Object(model),
                        model.len() == members@.len(),
                        forall|j: int|
                            0 <= j < members@.len() ==> model[j] == (JsonEntry {
                                key: members@[j].key@,
                                value: members@[j].value.model(),
                            }),
                        out@.len() == i,
                        forall|j: int|
                            0 <= j < i ==> (JsonEntry {
                                key: (#[trigger] out@[j]).key@,
                                value: out@[j].value.model(),
                            }) == model[j],
                        forall|j: int| 0 <= j < i ==> texts_fit((#[trigger] model[j]).value),
                    decreases members@.len() - i,
                {
                    let member = &members[i];
                    match member.value.checked() {
                        Some(value) => {
                            out.push(JsonMember { key: member.key.clone(), value });
                        },
                        None => {
                            assert(!texts_fit(model[i as int].value));
                            assert(Json::Object(model)->Object_0 == model);
                            return None;
                        },
                    }
                    i = i + 1;
                }
                let value = JsonValue::Object(out);
                assert(value.model()->Object_0 =~= model);
                Some(value)
            },
        }
    }
}

/// Whether the text of every double in a value fits the scratch buffer, as
/// far as it is read.
pub open spec fn texts_fit(json: Json) -> bool
    decreases json,
{
    match json {
        Json::Float { bits, text } => text_fits(bits, text),
        Json::Array(items) => forall|i: int|
            #![trigger items[i]]
            0 <= i < items.len() ==> texts_fit(items[i]),
        Json::Object(members) => forall|i: int|
            #![trigger members[i]]
            0 <= i < members.len() ==> texts_fit(members[i].value),
        _ => true,
    }
}

/// `serde_json::Value`, of which nothing is known here: it is only handed
/// over.
#[verifier::external_type_specification]
#[verifier::external_body]
pub struct ExValue(serde_json::Value);

/// `serde_json::Number`, of which nothing is known here: it is only handed
/// over.
#[verifier::external_type_specification]
#[verifier::external_body]
pub struct ExNumber(serde_json::Number);

/// The value that `serde_json::from_str` reads from a text, each double in it
/// with the text that `ryu_js::Buffer::format_finite` prints for it, or
/// `None` where the text is rejected.
pub uninterp spec fn parsed_value(text: Seq<char>) -> Option<Json>;

/// Calls `serde_json::from_str` for a `serde_json::Value` and hands the value
/// over as a `ParsedValue`. The result is a function of the text alone, named
/// `parsed_value`; nothing more is claimed of it.
#[verifier::external_body]
fn parse_json(text: &str) -> (r: Option<ParsedValue>)
    ensures
        r matches Some(value) ==> parsed_value(text@) == Some(value.model()),
        r is None ==> parsed_value(text@) is None,
{
    match serde_json::from_str::<serde_json::Value>(text) {
        Ok(value) => import_value(value),
        Err(_) => None,
    }
}

/// Hands a `serde_json::Value` over as a `ParsedValue`, variant by variant;
/// the members of an object come in the order in which `serde_json::Map`
/// yields them.
#[verifier::external_body]
fn import_value(value: serde_json::Value) -> Option<ParsedValue> {
    let member = |(key, value)| Some(ParsedMember { key, value: import_value(value)? });
    Some(match value {
        serde_json::Value::Null => ParsedValue::Null,
        serde_json::Value::Bool(b) => ParsedValue::Bool(b),
        serde_json::Value::Number(n) => ParsedValue::Number(import_number(&n)?),
        serde_json::Value::String(text) => ParsedValue::String(text),
        serde_json::Value::Array(items) => {
            ParsedValue::Array(items.into_iter().map(import_value).collect::<Option<_>>()?)
        },
        serde_json::Value::Object(map) => {
            ParsedValue::Object(map.into_iter().map(member).collect::<Option<_>>()?)
        },
    })
}

/// Hands a `serde_json::Number` over as a `ParsedNumber`: an unsigned or a
/// signed integer as `as_u64` or `as_i64` gives it, else the double that
/// `as_f64` gives, by its bits and the text that
/// `ryu_js::Buffer::format_finite` prints for it.
#[verifier::external_body]
fn import_number(number: &serde_json::Number) -> Option<ParsedNumber> {
    if let Some(n) = number.as_u64() {
        Some(ParsedNumber::PosInt(n))
    } else if let Some(n) = number.as_i64() {
        Some(ParsedNumber::NegInt(n))
    } else {
        let value = number.as_f64()?;
        let text = ryu_js::Buffer::new().format_finite(value).to_owned();
        Some(ParsedNumber::Float { bits: value.to_bits(), text })
    }
}

/// Reads a JSON text. A text that is no JSON is refused, and so is one with
/// a double whose decimal text does not fit the scratch buffer.
pub fn parse(text: &str) -> (r: Result<JsonValue, EncodingError>)
    ensures
        r is Ok <==> (parsed_value(text@) matches Some(json) && texts_fit(json)),
        r matches Ok(value) ==> parsed_value(text@) == Some(value.model()),
        r matches Err(e) ==> e == EncodingError::MalformedRawFragment,
{
    match parse_json(text) {
        Some(parsed) => match parsed.checked() {
            Some(value) => Ok(value),
            None => Err(EncodingError::MalformedRawFragment),
        },
        None => Err(EncodingError::MalformedRawFragment),
    }
}

} // verus!
