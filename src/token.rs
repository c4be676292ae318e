//! Lexical events of a JSON document and the leaf values decoded from them.

use std::str::FromStr;
use vstd::prelude::*;

verus! {

/// One lexical event delivered by a JSON token source.
#[derive(Debug, Clone, PartialEq, Eq)]
pub enum StackElement {
    /// The start of an object, `{`.
    StartObject,
    /// The end of an object, `}`.
    EndObject,
    /// The start of an array, `[`.
    StartArray,
    /// The end of an array, `]`.
    EndArray,
    /// The literal `null`.
    JsNull,
    /// `true` or `false`.
    JsBoolean(bool),
    /// A number, kept as its unparsed literal, e.g. `-123.456e-7`.
    JsNumber(String),
    /// A string in value position.
    JsString(String),
    /// A string in key position of an object member.
    JsKey(String),
}

/// The value carried by one emitted leaf.
#[derive(Debug, Clone, PartialEq, Eq)]
pub enum LeafValue {
    Null,
    Bool(bool),
    /// A number, as the literal it was written with.
    Number(String),
    Str(String),
    /// An array that closed without any element.
    EmptyArray,
}

/// Whether serde_json accepts `literal`, as a whole, as a JSON number.
pub uninterp spec fn decodes_as_number(literal: Seq<char>) -> bool;

/// Relies on `serde_json::Number::from_str`: whether the whole literal parses
/// as a number (it fails on empty input, trailing text, or a value out of range).
#[verifier::external_body]
fn number_decodes(literal: &String) -> (r: bool)
    ensures
        r == decodes_as_number(literal@),
        literal@.len() == 0 ==> !r,
{
    serde_json::Number::from_str(literal.as_str()).is_ok()
}

impl StackElement {
    /// Scalar tokens: those that form a complete value on their own.
    pub open spec fn is_scalar(&self) -> bool {
        ||| *self is JsNull
        ||| *self is JsBoolean
        ||| *self is JsNumber
        ||| *self is JsString
    }

    /// The leaf value a scalar token stands for, with a number kept as its literal.
    pub open spec fn leaf(&self) -> Option<LeafValue> {
        match *self {
            StackElement::JsNull => Some(LeafValue::Null),
            StackElement::JsBoolean(b) => Some(LeafValue::Bool(b)),
            StackElement::JsNumber(n) => Some(LeafValue::Number(n)),
            StackElement::JsString(s) => Some(LeafValue::Str(s)),
            _ => None,
        }
    }

    /// The decoded value, given whether a number literal decodes.
    pub open spec fn decoded_leaf(&self, number_ok: bool) -> Option<LeafValue> {
        if *self is JsNumber && !number_ok {
            None
        } else {
            self.leaf()
        }
    }

    /// Whether the number literal of this token, if it is a number, decodes.
    pub open spec fn number_ok(&self) -> bool {
        match *self {
            StackElement::JsNumber(n) => decodes_as_number(n@),
            _ => true,
        }
    }

    /// Tokens that close a container.
    pub fn is_pop_token(&self) -> (r: bool)
        ensures
            r == (*self is EndObject || *self is EndArray),
    {
        match self {
            StackElement::EndObject => true,
            StackElement::EndArray => true,
            _ => false,
        }
    }

    /// Tokens that carry a scalar value.
    pub fn is_value(&self) -> (r: bool)
        ensures
            r == self.is_scalar(),
    {
        match self {
            StackElement::JsNull => true,
            StackElement::JsBoolean(_) => true,
            StackElement::JsNumber(_) => true,
            StackElement::JsString(_) => true,
            _ => false,
        }
    }

    /// The value of a scalar token, where `number_ok` tells whether a number
    /// literal decodes; `None` for structural tokens and undecodable numbers.
    pub fn to_leaf(&self, number_ok: bool) -> (r: Option<LeafValue>)
        ensures
            r == self.decoded_leaf(number_ok),
    {
        match self {
            StackElement::JsNull => Some(LeafValue::Null),
            StackElement::JsBoolean(b) => Some(LeafValue::Bool(*b)),
            StackElement::JsNumber(n) => {
                if number_ok {
                    Some(LeafValue::Number(n.clone()))
                } else {
                    None
                }
            },
            StackElement::JsString(s) => Some(LeafValue::Str(s.clone())),
            _ => None,
        }
    }

    /// The value of a scalar token; `None` for structural tokens and for a
    /// number literal that does not decode.
    pub fn as_value(&self) -> (r: Option<LeafValue>)
        ensures
            r == self.decoded_leaf(self.number_ok()),
    {
        let number_ok = match self {
            StackElement::JsNumber(n) => number_decodes(n),
            _ => true,
        };
        self.to_leaf(number_ok)
    }
}

} // verus!
