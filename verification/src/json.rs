//! What the toolkit reads of a JSON text through `serde_json`.
use vstd::prelude::*;

use crate::analysis::string_views;

verus! {

/// The kind of a JSON text: an object with its keys, another JSON value, or not JSON.
#[derive(Debug)]
pub enum JsonShape {
    Object(Vec<String>),
    Other,
    Invalid,
}

pub enum JsonShapeModel {
    Object(Seq<Seq<char>>),
    Other,
    Invalid,
}

impl JsonShape {
    pub open spec fn model(self) -> JsonShapeModel {
        match self {
            JsonShape::Object(keys) => JsonShapeModel::Object(string_views(keys@)),
            JsonShape::Other => JsonShapeModel::Other,
            JsonShape::Invalid => JsonShapeModel::Invalid,
        }
    }
}

/// What `serde_json::from_str::<Value>` makes of `text`: the keys of an object, another
/// value, or an error.
pub uninterp spec fn json_shape_of(text: Seq<char>) -> JsonShapeModel;

/// Parses `text` with `serde_json::from_str::<Value>` and reports its shape, named by
/// [`json_shape_of`].
#[verifier::external_body]
pub fn json_shape(text: &str) -> (r: JsonShape)
    ensures
        r.model() == json_shape_of(text@),
{
    match serde_json::from_str::<serde_json::Value>(text) {
        Ok(serde_json::Value::Object(map)) => JsonShape::Object(map.keys().cloned().collect()),
        Ok(_) => JsonShape::Other,
        Err(_) => JsonShape::Invalid,
    }
}

/// The value under one key of a JSON object, as far as a search compares it: a string, a
/// number in its JSON notation, a boolean, any other value, no such value, or no JSON at all.
#[derive(Debug)]
pub enum JsonField {
    Text(String),
    Number(String),
    Bool(bool),
    Other,
    Missing,
    Invalid,
}

pub enum JsonFieldModel {
    Text(Seq<char>),
    Number(Seq<char>),
    Bool(bool),
    Other,
    Missing,
    Invalid,
}

impl JsonField {
    pub open spec fn model(self) -> JsonFieldModel {
        match self {
            JsonField::Text(s) => JsonFieldModel::Text(s@),
            JsonField::Number(s) => JsonFieldModel::Number(s@),
            JsonField::Bool(b) => JsonFieldModel::Bool(b),
            JsonField::Other => JsonFieldModel::Other,
            JsonField::Missing => JsonFieldModel::Missing,
            JsonField::Invalid => JsonFieldModel::Invalid,
        }
    }
}

/// What `Value::get(key)` gives on the value that `serde_json::from_str::<Value>` parses from
/// `text`, numbers written as `Number`'s `Display` writes them.
pub uninterp spec fn json_field_of(text: Seq<char>, key: Seq<char>) -> JsonFieldModel;

/// Parses `text` with `serde_json::from_str::<Value>` and looks up `key` with `Value::get`;
/// the result is named by [`json_field_of`].
#[verifier::external_body]
pub fn json_field(text: &str, key: &str) -> (r: JsonField)
    ensures
        r.model() == json_field_of(text@, key@),
{
    match serde_json::from_str::<serde_json::Value>(text) {
        Ok(value) => match value.get(key) {
            Some(serde_json::Value::String(s)) => JsonField::Text(s.clone()),
            Some(serde_json::Value::Number(n)) => JsonField::Number(n.to_string()),
            Some(serde_json::Value::Bool(b)) => JsonField::Bool(*b),
            Some(_) => JsonField::Other,
            None => JsonField::Missing,
        },
        Err(_) => JsonField::Invalid,
    }
}

} // verus!
