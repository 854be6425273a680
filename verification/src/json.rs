//! JSON documents.

use vstd::prelude::*;
use crate::text::same_text;

verus! {

/// A number of a document.
#[derive(Debug)]
pub struct JsonNumber {
    /// The number, if it is a whole number that fits a `u64`.
    pub whole: Option<u64>,
    /// The pattern of the number as a 64-bit floating-point value.
    pub bits: Option<u64>,
    /// That value in decimal.
    pub text: Option<String>,
}

/// A JSON value. The keys of an object are distinct.
#[derive(Debug)]
pub enum Json {
    Null,
    Bool(bool),
    Number(JsonNumber),
    Text(String),
    Array(Vec<Json>),
    Object(Vec<(String, Json)>),
}

/// The mathematical content of a [`JsonNumber`].
pub struct NumberModel {
    pub whole: Option<u64>,
    pub bits: Option<u64>,
    pub text: Option<Seq<char>>,
}

impl View for JsonNumber {
    type V = NumberModel;

    open spec fn view(&self) -> NumberModel {
        NumberModel {
            whole: self.whole,
            bits: self.bits,
            text: match self.text {
                Some(t) => Some(t@),
                None => None,
            },
        }
    }
}

/// The mathematical content of a [`Json`].
pub enum JsonModel {
    Null,
    Bool(bool),
    Number(NumberModel),
    Text(Seq<char>),
    Array(Seq<JsonModel>),
    Object(Seq<(Seq<char>, JsonModel)>),
}

impl Json {
    /// The mathematical content.
    pub open spec fn model(self) -> JsonModel
        decreases self,
    {
        match self {
            Json::Null => JsonModel::Null,
            Json::Bool(b) => JsonModel::Bool(b),
            Json::Number(n) => JsonModel::Number(n@),
            Json::Text(s) => JsonModel::Text(s@),
            Json::Array(v) => JsonModel::Array(
                Seq::new(
                    v@.len(),
                    |i: int|
                        if 0 <= i < v@.len() {
                            v@[i].model()
                        } else {
                            JsonModel::Null
                        },
                ),
            ),
            Json::Object(v) => JsonModel::Object(
                Seq::new(
                    v@.len(),
                    |i: int|
                        if 0 <= i < v@.len() {
                            (v@[i].0@, v@[i].1.model())
                        } else {
                            (Seq::empty(), JsonModel::Null)
                        },
                ),
            ),
        }
    }
}

impl View for Json {
    type V = JsonModel;

    open spec fn view(&self) -> JsonModel {
        self.model()
    }
}

/// A JSON value of `serde_json`.
#[verifier::external_type_specification]
#[verifier::external_body]
pub struct ExValue(serde_json::Value);

/// The document that a text holds, or the message of what is wrong with it.
pub uninterp spec fn json_document(text: Seq<char>) -> Result<JsonModel, Seq<char>>;

/// Takes a `serde_json::Value` apart, variant by variant: whole numbers by `Number::as_u64`, the
/// value of a number by `Number::as_f64`. Nothing is claimed of it alone; [`parse_json`] names
/// the document.
#[verifier::external_body]
fn own_value(v: serde_json::Value) -> (r: Json) {
    match v {
        serde_json::Value::Null => Json::Null,
        serde_json::Value::Bool(b) => Json::Bool(b),
        serde_json::Value::Number(n) => {
            let (bits, text) = (n.as_f64().map(|x| x.to_bits()), n.as_f64().map(|x| x.to_string()));
            Json::Number(JsonNumber { whole: n.as_u64(), bits, text })
        },
        serde_json::Value::String(s) => Json::Text(s),
        serde_json::Value::Array(a) => Json::Array(a.into_iter().map(own_value).collect()),
        serde_json::Value::Object(m) => Json::Object(
            m.into_iter().map(|(k, x)| (k, own_value(x))).collect(),
        ),
    }
}

/// Parses a JSON document, by `serde_json::from_str`.
#[verifier::external_body]
pub(crate) fn parse_json(text: &str) -> (r: Result<Json, String>)
    ensures
        match r {
            Ok(j) => json_document(text@) == Ok::<JsonModel, Seq<char>>(j@),
            Err(e) => json_document(text@) == Err::<JsonModel, Seq<char>>(e@),
        },
{
    serde_json::from_str::<serde_json::Value>(text).map(own_value).map_err(|e| e.to_string())
}

/// A whole number as a number of a document.
pub uninterp spec fn whole_number(n: u64) -> NumberModel;

/// A whole number as a number of a document, by `serde_json::Number::from` and
/// `Number::as_f64`.
#[verifier::external_body]
pub(crate) fn number_from(n: u64) -> (r: JsonNumber)
    ensures
        r@ == whole_number(n),
        r.whole == Some(n),
{
    let v = serde_json::Number::from(n);
    let (bits, text) = (v.as_f64().map(|x| x.to_bits()), v.as_f64().map(|x| x.to_string()));
    JsonNumber { whole: v.as_u64(), bits, text }
}

impl JsonModel {
    /// The member `key` of an object; null where there is none.
    pub open spec fn member(self, key: Seq<char>) -> JsonModel {
        match self {
            JsonModel::Object(fields) => field_value(fields, key),
            _ => JsonModel::Null,
        }
    }

    /// Whether an object has a member `key`.
    pub open spec fn has_member(self, key: Seq<char>) -> bool {
        match self {
            JsonModel::Object(fields) => has_field(fields, key),
            _ => false,
        }
    }

    /// The truth value, if this is one.
    pub open spec fn flag(self) -> Option<bool> {
        match self {
            JsonModel::Bool(b) => Some(b),
            _ => None,
        }
    }

    /// Element `i` of an array; null where there is none.
    pub open spec fn element(self, i: int) -> JsonModel {
        match self {
            JsonModel::Array(items) => if 0 <= i < items.len() {
                items[i]
            } else {
                JsonModel::Null
            },
            _ => JsonModel::Null,
        }
    }

    /// The text, if this is one.
    pub open spec fn text(self) -> Option<Seq<char>> {
        match self {
            JsonModel::Text(s) => Some(s),
            _ => None,
        }
    }

    /// The whole number, if this is one that fits a `u64`.
    pub open spec fn whole(self) -> Option<u64> {
        match self {
            JsonModel::Number(n) => n.whole,
            _ => None,
        }
    }

    /// The number in decimal, if this is one.
    pub open spec fn float_text(self) -> Option<Seq<char>> {
        match self {
            JsonModel::Number(n) => n.text,
            _ => None,
        }
    }
}

/// The value of the first field with the name `key`; null where there is none.
pub open spec fn field_value(fields: Seq<(Seq<char>, JsonModel)>, key: Seq<char>) -> JsonModel
    decreases fields.len(),
{
    if fields.len() == 0 {
        JsonModel::Null
    } else if fields[0].0 == key {
        fields[0].1
    } else {
        field_value(fields.subrange(1, fields.len() as int), key)
    }
}

/// Whether a field has the name `key`.
pub open spec fn has_field(fields: Seq<(Seq<char>, JsonModel)>, key: Seq<char>) -> bool
    decreases fields.len(),
{
    fields.len() > 0 && (fields[0].0 == key || has_field(
        fields.subrange(1, fields.len() as int),
        key,
    ))
}

/// The value that a member which is not there stands for.
pub open spec fn or_null(j: Option<&Json>) -> JsonModel {
    match j {
        Some(x) => x@,
        None => JsonModel::Null,
    }
}

impl Json {
    /// The member `key`; `None` where there is none.
    pub fn get(&self, key: &str) -> (r: Option<&Json>)
        ensures
            or_null(r) == self@.member(key@),
            r is Some <==> self@.has_member(key@),
    {
        match self {
            Json::Object(fields) => {
                let ghost all = self@->Object_0;
                let mut i: usize = 0;
                assert(all.subrange(0, all.len() as int) =~= all);
                while i < fields.len()
                    invariant
                        self is Object && *fields == self->Object_0,
                        all == self@->Object_0,
                        i <= fields@.len() == all.len(),
                        field_value(all.subrange(i as int, all.len() as int), key@) == field_value(
                            all,
                            key@,
                        ),
                        has_field(all.subrange(i as int, all.len() as int), key@) == has_field(
                            all,
                            key@,
                        ),
                    decreases fields@.len() - i,
                {
                    let ghost rest = all.subrange(i as int, all.len() as int);
                    assert(rest[0] == (fields@[i as int].0@, fields@[i as int].1@));
                    if same_text(fields[i].0.as_str(), key) {
                        return Some(&fields[i].1);
                    }
                    assert(rest.subrange(1, rest.len() as int) =~= all.subrange(
                        i + 1,
                        all.len() as int,
                    ));
                    i = i + 1;
                }
                None
            },
            _ => None,
        }
    }

    /// Element `i`; `None` where there is none.
    pub fn at(&self, i: usize) -> (r: Option<&Json>)
        ensures
            or_null(r) == self@.element(i as int),
    {
        match self {
            Json::Array(items) => {
                if i < items.len() {
                    Some(&items[i])
                } else {
                    None
                }
            },
            _ => None,
        }
    }

    /// The text, if this is one.
    pub fn as_str(&self) -> (r: Option<&str>)
        ensures
            match r {
                Some(s) => self@.text() == Some(s@),
                None => self@.text() is None,
            },
    {
        match self {
            Json::Text(s) => Some(s.as_str()),
            _ => None,
        }
    }

    /// The whole number, if this is one that fits a `u64`.
    pub fn as_u64(&self) -> (r: Option<u64>)
        ensures
            r == self@.whole(),
    {
        match self {
            Json::Number(n) => n.whole,
            _ => None,
        }
    }

    /// The truth value that the member `key` is.
    pub fn member_bool(&self, key: &str) -> (r: Option<bool>)
        ensures
            r == self@.member(key@).flag(),
    {
        match self.get(key) {
            Some(v) => match v {
                Json::Bool(b) => Some(*b),
                _ => None,
            },
            None => None,
        }
    }

    /// The whole number that the member `key` is.
    pub fn member_u64(&self, key: &str) -> (r: Option<u64>)
        ensures
            r == self@.member(key@).whole(),
    {
        match self.get(key) {
            Some(v) => v.as_u64(),
            None => None,
        }
    }

    /// The text that the member `key` is.
    pub fn member_str(&self, key: &str) -> (r: Option<&str>)
        ensures
            match r {
                Some(s) => self@.member(key@).text() == Some(s@),
                None => self@.member(key@).text() is None,
            },
    {
        match self.get(key) {
            Some(v) => v.as_str(),
            None => None,
        }
    }

    /// The number that the member `key` is, in decimal.
    pub fn member_float_text(&self, key: &str) -> (r: Option<String>)
        ensures
            match r {
                Some(s) => self@.member(key@).float_text() == Some(s@),
                None => self@.member(key@).float_text() is None,
            },
    {
        match self.get(key) {
            Some(v) => match v {
                Json::Number(n) => match &n.text {
                    Some(t) => Some(t.clone()),
                    None => None,
                },
                _ => None,
            },
            None => None,
        }
    }
}

} // verus!
