//! JSON values, and the canonical text of each.

use crate::entry::{insert_member, members_text, MemberView};
use crate::escape::string_token;
use crate::number::{decimal_text, double_category, float_text, FloatNumber};
use vstd::prelude::*;

verus! {

/// A JSON value as a mathematical tree.
pub enum Json {
    Null,
    Bool(bool),
    /// A number that was given as an unsigned integer.
    PosInt(u64),
    /// A number that was given as a signed integer.
    NegInt(i64),
    /// A number that was given as a double: its IEEE-754 bits and its
    /// shortest decimal text.
    Float { bits: u64, text: Seq<char> },
    String(Seq<char>),
    Array(Seq<Json>),
    /// The members of an object in the order in which they were given; a key
    /// may occur more than once.
    Object(Seq<JsonEntry>),
}

/// A member of an object as it was given.
pub struct JsonEntry {
    pub key: Seq<char>,
    pub value: Json,
}

/// A JSON number.
#[derive(Debug)]
pub enum JsonNumber {
    PosInt(u64),
    NegInt(i64),
    Float(FloatNumber),
}

/// A member of an object.
#[derive(Debug)]
pub struct JsonMember {
    pub key: String,
    pub value: JsonValue,
}

/// A JSON value.
#[derive(Debug)]
pub enum JsonValue {
    Null,
    Bool(bool),
    Number(JsonNumber),
    String(String),
    Array(Vec<JsonValue>),
    /// The members in any order; of two members with the same key the later
    /// one counts.
    Object(Vec<JsonMember>),
}

impl JsonNumber {
    /// The number as a mathematical value.
    pub open spec fn model(&self) -> Json {
        match self {
            JsonNumber::PosInt(n) => Json::PosInt(*n),
            JsonNumber::NegInt(n) => Json::NegInt(*n),
            JsonNumber::Float(number) => Json::Float { bits: number.bits(), text: number.text() },
        }
    }
}

impl JsonValue {
    /// The value as a mathematical tree.
    pub open spec fn model(&self) -> Json
        decreases self,
    {
        match self {
            JsonValue::Null => Json::Null,
            JsonValue::Bool(b) => Json::Bool(*b),
            JsonValue::Number(number) => number.model(),
            JsonValue::String(text) => Json::String(text@),
            JsonValue::Array(items) => Json::Array(
                Seq::new(
                    items@.len(),
                    |i: int|
                        if 0 <= i < items@.len() {
                            items@[i].model()
                        } else {
                            Json::Null
                        },
                ),
            ),
            JsonValue::Object(members) => Json::Object(
                Seq::new(
                    members@.len(),
                    |i: int|
                        if 0 <= i < members@.len() {
                            JsonEntry { key: members@[i].key@, value: members@[i].value.model() }
                        } else {
                            JsonEntry { key: Seq::empty(), value: Json::Null }
                        },
                ),
            ),
        }
    }
}

/// `null`
pub open spec fn null_text() -> Seq<u8> {
    seq![0x6eu8, 0x75u8, 0x6cu8, 0x6cu8]
}

/// `true` or `false`
pub open spec fn bool_text(value: bool) -> Seq<u8> {
    if value {
        seq![0x74u8, 0x72u8, 0x75u8, 0x65u8]
    } else {
        seq![0x66u8, 0x61u8, 0x6cu8, 0x73u8, 0x65u8]
    }
}

/// What stands before an element of an array or a member of an object:
/// nothing before the first, `,` before the others.
pub open spec fn separator_text(first: bool) -> Seq<u8> {
    if first {
        Seq::empty()
    } else {
        seq![0x2cu8]
    }
}

/// Whether a value has a canonical text: it has one unless a double in it is
/// NaN or infinite.
pub open spec fn encodable(json: Json) -> bool
    decreases json,
{
    match json {
        Json::Float { bits, text } => double_category(bits).is_finite(),
        Json::Array(items) => forall|i: int|
            #![trigger items[i]]
            0 <= i < items.len() ==> encodable(items[i]),
        Json::Object(members) => forall|i: int|
            #![trigger members[i]]
            0 <= i < members.len() ==> encodable(members[i].value),
        _ => true,
    }
}

/// The canonical text of a value: no whitespace, strings with the fixed
/// escapes, integers in base 10, doubles in their shortest form, the elements
/// of an array in the order given, and the members of an object sorted by the
/// UTF-16 code units of their keys, the last one given for each key.
pub open spec fn canonical(json: Json) -> Seq<u8>
    decreases json, 0nat,
{
    match json {
        Json::Null => null_text(),
        Json::Bool(b) => bool_text(b),
        Json::PosInt(n) => decimal_text(n as int),
        Json::NegInt(n) => decimal_text(n as int),
        Json::Float { bits, text } => float_text(double_category(bits), text),
        Json::String(text) => string_token(text),
        Json::Array(items) => seq![0x5bu8] + canonical_items(items, items.len()) + seq![0x5du8],
        Json::Object(members) => seq![0x7bu8] + members_text(sorted_members(members, members.len()))
            + seq![0x7du8],
    }
}

/// The canonical texts of the first `count` elements of an array, separated
/// by commas.
pub open spec fn canonical_items(items: Seq<Json>, count: nat) -> Seq<u8>
    decreases items, count,
{
    if 0 < count <= items.len() {
        canonical_items(items, (count - 1) as nat) + separator_text(count == 1) + canonical(
            items[count - 1],
        )
    } else {
        Seq::empty()
    }
}

/// A member of an object as it is written: its key as a string token, and
/// the canonical text of its value.
pub open spec fn written_member(entry: JsonEntry) -> MemberView
    decreases entry, 0nat,
{
    MemberView { key: string_token(entry.key), value: canonical(entry.value) }
}

/// The first `count` members of an object as they are written, sorted by key,
/// each key once with the last value given for it.
pub open spec fn sorted_members(members: Seq<JsonEntry>, count: nat) -> Seq<MemberView>
    decreases members, count,
{
    if 0 < count <= members.len() {
        insert_member(
            sorted_members(members, (count - 1) as nat),
            written_member(members[count - 1]),
        )
    } else {
        Seq::empty()
    }
}

/// An array with an element that has no canonical text has none.
pub proof fn lemma_array_not_encodable(items: Seq<Json>, at: int)
    requires
        0 <= at < items.len(),
        !encodable(items[at]),
    ensures
        !encodable(Json::Array(items)),
{
    let array = Json::Array(items);
    assert(array->Array_0 == items);
}

/// An object with a member whose value has no canonical text has none.
pub proof fn lemma_object_not_encodable(members: Seq<JsonEntry>, at: int)
    requires
        0 <= at < members.len(),
        !encodable(members[at].value),
    ensures
        !encodable(Json::Object(members)),
{
}

} // verus!
