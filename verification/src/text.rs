use vstd::prelude::*;
use crate::json::Json;
use crate::json::JsonModel;
use crate::json::wf_model;
use crate::json::depth_at_most;
use byteorder::ByteOrder;
use serde_json::Value;

verus! {

#[verifier::external_type_specification]
#[verifier::external_body]
pub struct ExValue(serde_json::Value);

#[verifier::external_type_specification]
#[verifier::external_body]
pub struct ExError(serde_json::Error);

/// The document held by a `serde_json::Value`, as this library's model.
pub uninterp spec fn value_model(v: serde_json::Value) -> JsonModel;

/// What `serde_json::from_str::<serde_json::Value>` yields on a text:
/// the parsed document, or `None` exactly when the text is not JSON.
pub uninterp spec fn doc_of(s: Seq<char>) -> Option<JsonModel>;

/// The text `serde_json::to_string` yields on a `Value` holding the
/// document `d`. Serialization walks the value's structure alone, so the
/// text is a function of the document.
pub uninterp spec fn text_of(d: JsonModel) -> Seq<char>;

/// Relies on `serde_json::from_str::<Value>`: parsing depends on the text
/// alone and fails exactly on malformed JSON. A parsed value is well
/// formed in this library's sense: its objects keep member names strictly
/// sorted (serde_json's map is a B-tree map keyed by `String`), negative
/// integers sit in the number type's negative variant, and floats are
/// finite (the parser rejects out-of-range numbers). The parser errors on
/// the 128th nested container, so what it accepts nests at most 127 deep.
#[verifier::external_body]
pub(crate) fn parse_value(s: &str) -> (r: Result<serde_json::Value, serde_json::Error>)
    ensures
        match r {
            Ok(v) => doc_of(s@) == Some(value_model(v)) && wf_model(value_model(v))
                && depth_at_most(value_model(v), 127),
            Err(_) => doc_of(s@) is None,
        },
{
    serde_json::from_str::<serde_json::Value>(s)
}

/// Relies on `serde_json::Value`'s shape: `Null`, `Bool`, `Number` (one of
/// a non-negative integer, a negative integer, or a finite float, told
/// apart by `as_u64` / `as_i64` / `as_f64`), `String`, `Array`, `Object`
/// (iterated in sorted name order). Each member is moved over one to one.
#[verifier::external_body]
pub(crate) fn json_of_value(v: &serde_json::Value) -> (r: Json)
    ensures
        r@ == value_model(*v),
{
    match v {
        Value::Null => Json::Null,
        Value::Bool(b) => Json::Bool(*b),
        Value::Number(n) => match (n.as_u64(), n.as_i64()) {
            (Some(u), _) => Json::UInt(u),
            (None, Some(i)) => Json::NegInt(i),
            _ => Json::Float(n.as_f64().unwrap().to_bits()),
        },
        Value::String(s) => Json::Text(s.clone()),
        Value::Array(a) => Json::Arr(a.iter().map(json_of_value).collect()),
        Value::Object(m) => Json::Obj(m.iter().map(|(k, x)| (k.clone(), json_of_value(x))).collect()),
    }
}

/// Relies on `Value::from`: it keeps a `u64` and a negative
/// `i64` as the same integer and a finite float's bits (the bit pattern is
/// rebuilt by `byteorder::LittleEndian::read_f64`; a non-finite float
/// would become `Null`, which the well-formedness premise rules out), and
/// on a map collected from members with strictly sorted, distinct names
/// holding exactly those members.
#[verifier::external_body]
pub(crate) fn value_of_json(j: &Json) -> (r: serde_json::Value)
    requires
        wf_model(j@),
    ensures
        value_model(r) == j@,
{
    match j {
        Json::Null => Value::Null,
        Json::Bool(b) => Value::Bool(*b),
        Json::UInt(u) => Value::from(*u),
        Json::NegInt(i) => Value::from(*i),
        Json::Float(bits) => Value::from(byteorder::LittleEndian::read_f64(&bits.to_le_bytes())),
        Json::Text(s) => Value::from(s.as_str()),
        Json::Arr(v) => Value::Array(v.iter().map(value_of_json).collect()),
        Json::Obj(v) => Value::Object(v.iter().map(|(k, x)| (k.clone(), value_of_json(x))).collect()),
    }
}

/// Relies on `serde_json::to_string`: serializing a `Value` cannot fail,
/// its output depends on the value's structure alone, and
/// `serde_json::from_str` parses the text it yields back to an equal
/// `Value`. Integers are printed exactly; floats are printed in the
/// shortest form that reads back to the same bits, and the
/// `float_roundtrip` feature makes the parse correctly rounded; a `Value`
/// can hold no non-finite float and no duplicate member name. The
/// read-back claim needs the depth premise: the parser errors on the
/// 128th nested container.
#[verifier::external_body]
pub(crate) fn text_of_value(v: &serde_json::Value) -> (r: String)
    requires
        depth_at_most(value_model(*v), 127),
    ensures
        r@ == text_of(value_model(*v)),
        doc_of(r@) == Some(value_model(*v)),
{
    serde_json::to_string(v).unwrap()
}

} // verus!
