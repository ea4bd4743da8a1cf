//! The JSON format: a concrete encoder/decoder behind the abstract value
//! model, provided by serde_json through trusted bridges. A tagged variant
//! is lowered to a JSON object whose first entry, under the caller's tag
//! key, names the tag; JSON objects parse back as mappings, which the
//! structural mapper's union decoding accepts.

use vstd::prelude::*;

use crate::error::{derr_of, DecodeError};
use crate::value::{val_of, Val};
use crate::value::IrValue;
use serde_json::Value as Jv;

verus! {

#[verifier::external_type_specification]
#[verifier::external_body]
pub struct ExJsonValue(serde_json::Value);

#[verifier::external_type_specification]
#[verifier::external_body]
#[verifier::reject_recursive_types(K)]
#[verifier::reject_recursive_types(V)]
pub struct ExJsonMap<K, V>(serde_json::Map<K, V>);

/// A model value that holds no tagged variant anywhere: the shape concrete
/// text formats deal in.
pub open spec fn variant_free(v: Val) -> bool
    decreases v, 0int,
{
    match v {
        Val::Sequence(vs) => variant_free_list(vs),
        Val::Mapping(ps) => variant_free_pairs(ps),
        Val::Variant(_, _) => false,
        _ => true,
    }
}

pub open spec fn variant_free_list(vs: Seq<Val>) -> bool
    decreases vs, 1int,
{
    if vs.len() == 0 {
        true
    } else {
        variant_free(vs[0]) && variant_free_list(vs.subrange(1, vs.len() as int))
    }
}

pub open spec fn variant_free_pairs(ps: Seq<(Seq<char>, Val)>) -> bool
    decreases ps, 1int,
{
    if ps.len() == 0 {
        true
    } else {
        variant_free(ps[0].1) && variant_free_pairs(ps.subrange(1, ps.len() as int))
    }
}

/// The JSON text of a value tree, with variants lowered under `tag_key`.
/// The result depends on the tree and the tag key alone: serde_json keeps
/// object entries in insertion order here.
pub uninterp spec fn json_text_of(v: Val, tag_key: Seq<char>) -> Seq<char>;

/// Converts the value tree into serde_json's tree, one node for one node,
/// lowering each variant under `tag_key`; only `json_encode` calls it.
#[verifier::external_body]
fn jv_from(v: &IrValue, tag_key: &str) -> Jv {
    match v {
        IrValue::Null => Jv::Null,
        IrValue::Bool(b) => Jv::Bool(*b),
        IrValue::Int(i) => Jv::Number((*i).into()),
        IrValue::Text(s) => Jv::String(s.clone()),
        IrValue::Sequence(vs) => Jv::Array(vs.iter().map(|x| jv_from(x, tag_key)).collect()),
        IrValue::Mapping(ps) => Jv::Object(ps.iter().map(|(k, x)| (k.clone(), jv_from(x, tag_key))).collect()),
        IrValue::Variant(t, ps) => jv_variant(t, ps, tag_key),
    }
}

/// Converts one variant node into serde_json's tree: the tag entry under
/// `tag_key` first, then the fields; only `jv_from` calls it.
#[verifier::external_body]
fn jv_variant(tag: &String, ps: &Vec<(String, IrValue)>, tag_key: &str) -> Jv {
    let head = core::iter::once((tag_key.to_owned(), Jv::String(tag.clone())));
    Jv::Object(head.chain(ps.iter().map(|(k, x)| (k.clone(), jv_from(x, tag_key)))).collect())
}

/// Relies on serde_json's `to_string`: it prints the JSON text of the tree,
/// a function of the tree alone, and cannot fail on object trees with
/// string keys.
#[verifier::external_body]
pub fn json_encode(v: &IrValue, tag_key: &str) -> (r: String)
    ensures
        r@ == json_text_of(val_of(*v), tag_key@),
{
    serde_json::to_string(&jv_from(v, tag_key)).unwrap_or_default()
}

/// Converts serde_json's tree into the value model, one node for one node;
/// a number that is not a 64-bit integer has no place in the model and is
/// a parse error. Only `json_decode` calls it.
#[verifier::external_body]
fn value_from_jv(jv: &Jv) -> Result<IrValue, DecodeError> {
    match jv {
        Jv::Null => Ok(IrValue::Null),
        Jv::Bool(b) => Ok(IrValue::Bool(*b)),
        Jv::Number(n) => n.as_i64().map(IrValue::Int).ok_or_else(|| DecodeError::Parse("number does not fit a 64-bit integer".to_owned())),
        Jv::String(s) => Ok(IrValue::Text(s.clone())),
        Jv::Array(xs) => vals_from_jv(xs),
        Jv::Object(m) => pairs_from_jv(m),
    }
}

/// Converts a parsed JSON array element for element; only `value_from_jv`
/// calls it.
#[verifier::external_body]
fn vals_from_jv(xs: &Vec<Jv>) -> Result<IrValue, DecodeError> {
    xs.iter().map(value_from_jv).collect::<Result<Vec<_>, _>>().map(IrValue::Sequence)
}

/// Converts a parsed JSON object entry for entry; only `value_from_jv`
/// calls it.
#[verifier::external_body]
fn pairs_from_jv(m: &serde_json::Map<String, Jv>) -> Result<IrValue, DecodeError> {
    m.iter().map(|(k, x)| value_from_jv(x).map(|d| (k.clone(), d))).collect::<Result<Vec<_>, _>>().map(IrValue::Mapping)
}

/// Relies on serde_json's `from_str`: malformed text is a parse error and
/// never a panic; a parsed tree converts node for node, so the result holds
/// no variant.
#[verifier::external_body]
pub fn json_decode(s: &str) -> (r: Result<IrValue, DecodeError>)
    ensures
        r matches Ok(v) ==> variant_free(val_of(v)),
        r matches Err(e) ==> derr_of(e) is Parse,
{
    match serde_json::from_str::<serde_json::Value>(s) {
        Ok(jv) => value_from_jv(&jv),
        Err(e) => Err(DecodeError::Parse(e.to_string())),
    }
}

} // verus!
