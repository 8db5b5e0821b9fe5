//! JSON numbers, held as `serde_json` holds them, so that a number read is written back as
//! `serde_json` would write it.
use vstd::prelude::*;
use serde_json::Value;
use crate::json::Json;
use crate::json_text::serde_value_model;
use crate::digits::decimal;

verus! {

/// `serde_json::Number::from(u64)` in a `Value::Number`: written as the decimal digits.
#[verifier::external_body]
fn serde_from_u64(n: u64) -> (v: Value)
    ensures
        serde_value_model(v) == Json::Number(decimal(n as nat)),
{
    Value::Number(serde_json::Number::from(n))
}

/// `serde_json::Number::from(i64)` in a `Value::Number`, for a negative integer: written as a
/// minus sign and the decimal digits.
#[verifier::external_body]
fn serde_from_negative(n: i64) -> (v: Value)
    requires
        n < 0,
    ensures
        serde_value_model(v) == Json::Number(seq!['-'] + decimal((-n) as nat)),
{
    Value::Number(serde_json::Number::from(n))
}

/// `Clone` for `serde_json::Value`: an equal value, with the same model.
#[verifier::external_body]
pub(crate) fn serde_clone(v: &Value) -> (r: Value)
    ensures
        serde_value_model(r) == serde_value_model(*v),
{
    v.clone()
}

/// The text (`Display`) of the number a `Value::Number` holds.
#[verifier::external_body]
fn serde_number_text(v: &Value) -> (s: String)
    requires
        serde_value_model(*v) is Number,
    ensures
        Json::Number(s@) == serde_value_model(*v),
{
    match v {
        Value::Number(n) => n.to_string(),
        _ => String::new(),
    }
}

/// A JSON number: a `serde_json::Value::Number`, kept as read, so that an integer or a float is
/// written back exactly as `serde_json` holds it.
#[derive(Debug, PartialEq, Eq)]
pub struct JsonNumber {
    value: Value,
}

impl JsonNumber {
    /// The value held is a number.
    #[verifier::type_invariant]
    spec fn holds_number(self) -> bool {
        serde_value_model(self.value) is Number
    }

    /// The number's text, as `serde_json` writes it.
    pub closed spec fn text(self) -> Seq<char> {
        serde_value_model(self.value)->Number_0
    }

    /// The number held by a `Value::Number`.
    pub(crate) fn from_serde(v: Value) -> (n: JsonNumber)
        requires
            serde_value_model(v) is Number,
        ensures
            Json::Number(n.text()) == serde_value_model(v),
    {
        JsonNumber { value: v }
    }

    /// The number `n`, written in decimal.
    pub fn from_u64(n: u64) -> (r: JsonNumber)
        ensures
            r.text() == decimal(n as nat),
    {
        JsonNumber { value: serde_from_u64(n) }
    }

    /// The integer `n`, written in decimal, after a minus sign where it is negative.
    pub fn from_i64(n: i64) -> (r: JsonNumber)
        ensures
            n >= 0 ==> r.text() == decimal(n as nat),
            n < 0 ==> r.text() == seq!['-'] + decimal((-n) as nat),
    {
        if n < 0 {
            JsonNumber { value: serde_from_negative(n) }
        } else {
            JsonNumber { value: serde_from_u64(n as u64) }
        }
    }

    /// The number's text, as `serde_json` writes it.
    pub fn to_text(&self) -> (s: String)
        ensures
            s@ == self.text(),
    {
        proof {
            use_type_invariant(self);
        }
        serde_number_text(&self.value)
    }

    /// A copy of the number.
    pub fn duplicate(&self) -> (r: JsonNumber)
        ensures
            r.text() == self.text(),
    {
        proof {
            use_type_invariant(self);
        }
        JsonNumber { value: serde_clone(&self.value) }
    }

    /// The `serde_json` value for the number.
    pub(crate) fn to_serde(&self) -> (v: Value)
        ensures
            serde_value_model(v) == Json::Number(self.text()),
    {
        proof {
            use_type_invariant(self);
        }
        serde_clone(&self.value)
    }
}

} // verus!
