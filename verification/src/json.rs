//! JSON documents, read and written by the `serde_json` crate.
//!
//! A document is a `serde_json::Value`; [`json_tree`] names what it holds. The
//! functions here that make a call into that crate are trusted to do what their
//! contracts say.

use crate::binary64::{decoded, Binary64};
use crate::decimal::decimal;
use crate::rounding::{real_of, Real64};
use vstd::prelude::*;

verus! {

/// `serde_json::Value`.
#[verifier::external_type_specification]
#[verifier::external_body]
pub struct ExValue(serde_json::Value);

/// A number in a document: a natural number, a negative integer, or a binary64
/// number given by its bits.
pub ghost enum JsonNumber {
    PosInt(u64),
    NegInt(i64),
    Float(u64),
}

/// What a document holds.
pub ghost enum Json {
    Null,
    Bool(bool),
    Number(JsonNumber),
    Text(Seq<char>),
    Array(Seq<Json>),
    Object(Map<Seq<char>, Json>),
}

/// What a `serde_json::Value` holds.
pub uninterp spec fn json_tree(value: serde_json::Value) -> Json;

/// What `serde_json::from_str` reads from a text: a document, or the text of its
/// error.
pub uninterp spec fn parsed_text(text: Seq<char>) -> Result<Json, Seq<char>>;

/// What `serde_json::from_slice` reads from bytes: a document, if it reads one.
pub uninterp spec fn parsed_bytes(bytes: Seq<u8>) -> Option<Json>;

/// What `serde_json::to_vec` writes for a document, if it writes anything.
pub uninterp spec fn written_bytes(tree: Json) -> Option<Seq<u8>>;

/// What `serde_json::to_string` writes for a text.
pub uninterp spec fn written_text(text: Seq<char>) -> Seq<char>;

/// How `serde::de::Unexpected` words a text that stands where something else is
/// expected.
pub uninterp spec fn unexpected_text(text: Seq<char>) -> Seq<char>;

/// What `serde_json::Value::to_string` writes for a number that is no integer,
/// given by its bits.
pub uninterp spec fn float_text(bits: u64) -> Seq<char>;

/// Does a text hold no quotation mark, no backslash and no control character?
pub open spec fn unescaped(text: Seq<char>) -> bool {
    forall|i: int|
        0 <= i < text.len() ==> ' ' <= #[trigger] text[i] && text[i] != '"' && text[i] != '\\'
}

/// A text as a JSON string: in quotation marks as it is, where nothing in it has
/// to be escaped.
pub open spec fn quoted(text: Seq<char>) -> Seq<char> {
    if unescaped(text) {
        "\""@ + text + "\""@
    } else {
        written_text(text)
    }
}

impl JsonNumber {
    /// The nearest binary64 number.
    pub open spec fn value(self) -> Real64 {
        match self {
            JsonNumber::PosInt(n) => real_of(n as nat),
            JsonNumber::NegInt(n) => if n < 0 {
                real_of((-n) as nat).neg()
            } else {
                real_of(n as nat)
            },
            JsonNumber::Float(bits) => decoded(bits),
        }
    }

    /// The number as text.
    pub open spec fn text(self) -> Seq<char> {
        match self {
            JsonNumber::PosInt(n) => decimal(n as nat),
            JsonNumber::NegInt(n) => if n < 0 {
                "-"@ + decimal((-n) as nat)
            } else {
                decimal(n as nat)
            },
            JsonNumber::Float(bits) => float_text(bits),
        }
    }
}

impl Json {
    /// The member of an object with the given name, if there is one.
    pub open spec fn member(self, key: Seq<char>) -> Option<Json> {
        match self {
            Json::Object(members) => if members.dom().contains(key) {
                Some(members[key])
            } else {
                None
            },
            _ => None,
        }
    }

    /// The elements of an array.
    pub open spec fn elements(self) -> Option<Seq<Json>> {
        match self {
            Json::Array(items) => Some(items),
            _ => None,
        }
    }

    /// The value of a number.
    pub open spec fn number(self) -> Option<Real64> {
        match self {
            Json::Number(n) => Some(n.value()),
            _ => None,
        }
    }

    /// A truth value.
    pub open spec fn truth(self) -> Option<bool> {
        match self {
            Json::Bool(b) => Some(b),
            _ => None,
        }
    }

    /// An object with a member set to a document.
    pub open spec fn with_member(self, key: Seq<char>, item: Json) -> Json {
        match self {
            Json::Object(members) => Json::Object(members.insert(key, item)),
            _ => self,
        }
    }
}

/// What a sequence of `serde_json::Value`s holds.
pub open spec fn json_trees(values: Seq<serde_json::Value>) -> Seq<Json> {
    values.map_values(|v: serde_json::Value| json_tree(v))
}

/// Calls `serde_json::from_str`. The result, and the text of the error, depend
/// on the text alone.
#[verifier::external_body]
pub(crate) fn parse_text(text: &str) -> (r: Result<serde_json::Value, String>)
    ensures
        match r {
            Ok(value) => parsed_text(text@) == Ok::<Json, Seq<char>>(json_tree(value)),
            Err(message) => parsed_text(text@) == Err::<Json, Seq<char>>(message@),
        },
{
    serde_json::from_str::<serde_json::Value>(text).map_err(|e| e.to_string())
}

/// Calls `serde_json::from_slice`. The result depends on the bytes alone.
#[verifier::external_body]
pub(crate) fn parse_bytes(bytes: &[u8]) -> (r: Option<serde_json::Value>)
    ensures
        match r {
            Some(value) => parsed_bytes(bytes@) == Some(json_tree(value)),
            None => parsed_bytes(bytes@) is None,
        },
{
    serde_json::from_slice::<serde_json::Value>(bytes).ok()
}

/// Calls `serde_json::to_vec`. What is written depends on what the document
/// holds alone: the members of an object come in the order of their names.
#[verifier::external_body]
pub(crate) fn write_bytes(value: &serde_json::Value) -> (r: Option<Vec<u8>>)
    ensures
        match r {
            Some(bytes) => written_bytes(json_tree(*value)) == Some(bytes@),
            None => written_bytes(json_tree(*value)) is None,
        },
{
    serde_json::to_vec(value).ok()
}

/// Calls `serde_json::to_string` with a text. What is written depends on the text
/// alone, and is the text in quotation marks where nothing in it has to be
/// escaped.
#[verifier::external_body]
pub(crate) fn write_text(text: &str) -> (r: String)
    ensures
        unescaped(text@) ==> r@ == "\""@ + text@ + "\""@,
        !unescaped(text@) ==> r@ == written_text(text@),
{
    serde_json::to_string(text).unwrap()
}

/// Calls `serde_json::Value::get` with a name: the member of that name, where
/// the value is an object that has one.
#[verifier::external_body]
pub(crate) fn member<'a>(value: &'a serde_json::Value, key: &str) -> (r: Option<
    &'a serde_json::Value,
>)
    ensures
        match r {
            Some(item) => json_tree(*value).member(key@) == Some(json_tree(*item)),
            None => json_tree(*value).member(key@) is None,
        },
{
    value.get(key)
}

/// Calls `serde_json::Value::as_array`: the elements, where the value is an
/// array.
#[verifier::external_body]
pub(crate) fn elements(value: &serde_json::Value) -> (r: Option<&Vec<serde_json::Value>>)
    ensures
        match r {
            Some(items) => json_tree(*value).elements() == Some(json_trees(items@)),
            None => json_tree(*value).elements() is None,
        },
{
    value.as_array()
}

/// Calls `serde_json::Value::as_f64`, and takes the bits of what it returns: the
/// nearest binary64 number, where the value is a number.
#[verifier::external_body]
fn number_bits(value: &serde_json::Value) -> (r: Option<u64>)
    ensures
        match r {
            Some(bits) => json_tree(*value).number() == Some(decoded(bits)),
            None => json_tree(*value).number() is None,
        },
{
    value.as_f64().map(|x| x.to_bits())
}

/// Calls `serde_json::Value::as_bool`: the truth value, where the value is one.
#[verifier::external_body]
pub(crate) fn truth(value: &serde_json::Value) -> (r: Option<bool>)
    ensures
        r == json_tree(*value).truth(),
{
    value.as_bool()
}

/// Calls `serde_json::Value::as_str`: the text, where the value is one.
#[verifier::external_body]
pub(crate) fn text_in(value: &serde_json::Value) -> (r: Option<&str>)
    ensures
        match r {
            Some(text) => json_tree(*value) == Json::Text(text@),
            None => !(json_tree(*value) is Text),
        },
{
    value.as_str()
}

/// Calls `serde_json::Value::is_f64`: is the value a number that is no integer?
#[verifier::external_body]
pub(crate) fn is_float(value: &serde_json::Value) -> (r: bool)
    ensures
        r == (json_tree(*value) is Number && json_tree(*value)->Number_0 is Float),
{
    value.is_f64()
}

/// Calls `serde_json::Value::to_string` on a number. An integer is written in
/// decimal; what is written for another number depends on its bits alone.
#[verifier::external_body]
pub(crate) fn number_display(value: &serde_json::Value) -> (r: String)
    requires
        json_tree(*value) is Number,
    ensures
        !(json_tree(*value)->Number_0 is Float) ==> r@ == json_tree(*value)->Number_0.text(),
        json_tree(*value)->Number_0 is Float ==> r@ == float_text(
            json_tree(*value)->Number_0->Float_0,
        ),
{
    value.to_string()
}

/// Calls `to_string` on a `serde::de::Unexpected::Str`. What is written depends
/// on the text alone.
#[verifier::external_body]
pub(crate) fn unexpected_string(text: &str) -> (r: String)
    ensures
        r@ == unexpected_text(text@),
{
    serde::de::Unexpected::Str(text).to_string()
}

/// Calls `serde_json::Value::is_object`.
#[verifier::external_body]
pub(crate) fn is_object(value: &serde_json::Value) -> (r: bool)
    ensures
        r == json_tree(*value) is Object,
{
    value.is_object()
}

/// Makes a `serde_json::Value::Bool`.
#[verifier::external_body]
pub(crate) fn truth_value(b: bool) -> (r: serde_json::Value)
    ensures
        json_tree(r) == Json::Bool(b),
{
    serde_json::Value::Bool(b)
}

/// Calls `serde_json::Map::new`, for an object without members.
#[verifier::external_body]
pub(crate) fn empty_object() -> (r: serde_json::Value)
    ensures
        json_tree(r) == Json::Object(Map::empty()),
{
    serde_json::Value::Object(serde_json::Map::new())
}

/// Calls `serde_json::Map::insert` on an object: its member of that name is the
/// given value afterwards, whether or not it had one, and its other members are
/// what they were.
#[verifier::external_body]
pub(crate) fn set_member(value: &mut serde_json::Value, key: &str, item: serde_json::Value)
    requires
        json_tree(*old(value)) is Object,
    ensures
        json_tree(*final(value)) == json_tree(*old(value)).with_member(key@, json_tree(item)),
{
    if let serde_json::Value::Object(members) = value {
        members.insert(key.to_string(), item);
    }
}

/// Calls `serde_json::Map::remove` on an object: hands out its member of that
/// name, if it has one. Its other members are what they were.
#[verifier::external_body]
pub(crate) fn take_member(value: &mut serde_json::Value, key: &str) -> (r: Option<
    serde_json::Value,
>)
    requires
        json_tree(*old(value)) is Object,
    ensures
        match r {
            Some(item) => json_tree(*old(value)).member(key@) == Some(json_tree(item)),
            None => json_tree(*old(value)).member(key@) is None,
        },
        json_tree(*final(value)) == Json::Object(
            json_tree(*old(value))->Object_0.remove(key@),
        ),
{
    match value {
        serde_json::Value::Object(members) => members.remove(key),
        _ => None,
    }
}

/// The number that a value is, if it is one.
pub(crate) fn number(value: &serde_json::Value) -> (r: Option<Binary64>)
    ensures
        match r {
            Some(x) => json_tree(*value).number() == Some(x@),
            None => json_tree(*value).number() is None,
        },
{
    match number_bits(value) {
        Some(bits) => Some(Binary64::from_bits(bits)),
        None => None,
    }
}

} // verus!
