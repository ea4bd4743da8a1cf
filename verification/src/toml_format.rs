//! The TOML format: a concrete encoder/decoder behind the abstract value
//! model, provided by the toml crate through trusted bridges. TOML carries
//! no null, so a tree holding one is unrepresentable; a tagged variant is
//! lowered to a table under the caller's tag key, as in the JSON format.

use vstd::prelude::*;

use crate::error::{derr_of, DecodeError, EncodeError};
use crate::json::variant_free;
use crate::value::{val_of, IrValue};
use toml::Value as Tv;

verus! {

#[verifier::external_type_specification]
#[verifier::external_body]
pub struct ExTomlValue(toml::Value);

#[verifier::external_type_specification]
#[verifier::external_body]
#[verifier::reject_recursive_types(K)]
#[verifier::reject_recursive_types(V)]
pub struct ExTomlMap<K, V>(toml::map::Map<K, V>);

/// The TOML text of a representable value tree, with variants lowered under
/// `tag_key`. The result depends on the tree and the tag key alone: the
/// toml crate keeps its tables sorted by key.
pub uninterp spec fn toml_text_of(v: crate::value::Val, tag_key: Seq<char>) -> Seq<char>;

/// Converts the value tree into toml's tree, one node for one node, lowering
/// each variant under `tag_key`; a null has no TOML form. Only `toml_encode`
/// calls it.
#[verifier::external_body]
fn tv_from(v: &IrValue, tag_key: &str) -> Option<Tv> {
    match v {
        IrValue::Null => None,
        IrValue::Bool(b) => Some(Tv::Boolean(*b)),
        IrValue::Int(i) => Some(Tv::Integer(*i)),
        IrValue::Text(s) => Some(Tv::String(s.clone())),
        IrValue::Sequence(vs) => tv_list(vs, tag_key),
        IrValue::Mapping(ps) => tv_table(ps, tag_key),
        IrValue::Variant(t, ps) => tv_variant(t, ps, tag_key),
    }
}

/// Converts a sequence node into toml's tree, element for element; only
/// `tv_from` calls it.
#[verifier::external_body]
fn tv_list(vs: &Vec<IrValue>, tag_key: &str) -> Option<Tv> {
    vs.iter().map(|x| tv_from(x, tag_key)).collect::<Option<Vec<_>>>().map(Tv::Array)
}

/// Converts a mapping node into toml's tree, entry for entry; only `tv_from`
/// calls it.
#[verifier::external_body]
fn tv_table(ps: &Vec<(String, IrValue)>, tag_key: &str) -> Option<Tv> {
    ps.iter().map(|(k, x)| tv_from(x, tag_key).map(|t| (k.clone(), t))).collect::<Option<toml::Table>>().map(Tv::Table)
}

/// Converts one variant node into toml's tree: the tag entry under `tag_key`
/// first, then the fields; only `tv_from` calls it.
#[verifier::external_body]
fn tv_variant(tag: &String, ps: &Vec<(String, IrValue)>, tag_key: &str) -> Option<Tv> {
    let head = core::iter::once(Some((tag_key.to_owned(), Tv::String(tag.clone()))));
    head.chain(ps.iter().map(|(k, x)| tv_from(x, tag_key).map(|w| (k.clone(), w)))).collect::<Option<toml::Table>>().map(Tv::Table)
}

/// Relies on toml's `to_string`: it prints the TOML document of the tree, a
/// function of the tree alone, and fails on trees TOML cannot carry (a null
/// anywhere, or a top level that is not a table).
#[verifier::external_body]
pub fn toml_encode(v: &IrValue, tag_key: &str) -> (r: Result<String, EncodeError>)
    ensures
        r matches Ok(t) ==> t@ == toml_text_of(val_of(*v), tag_key@),
{
    match tv_from(v, tag_key) {
        Some(tv) => toml::to_string(&tv).map_err(|_| EncodeError::Unrepresentable),
        None => Err(EncodeError::Unrepresentable),
    }
}

/// Converts toml's tree into the value model, one node for one node; a float
/// or a datetime has no place in the model and is a parse error. Only
/// `toml_decode` calls it.
#[verifier::external_body]
fn value_from_tv(tv: &Tv) -> Result<IrValue, DecodeError> {
    match tv {
        Tv::Boolean(b) => Ok(IrValue::Bool(*b)),
        Tv::Integer(i) => Ok(IrValue::Int(*i)),
        Tv::Float(_) => Err(DecodeError::Parse("float has no model form".to_owned())),
        Tv::Datetime(_) => Err(DecodeError::Parse("datetime has no model form".to_owned())),
        Tv::String(s) => Ok(IrValue::Text(s.clone())),
        Tv::Array(xs) => vals_from_tv(xs),
        Tv::Table(m) => pairs_from_tv(m),
    }
}

/// Converts a parsed TOML array element for element; only `value_from_tv`
/// calls it.
#[verifier::external_body]
fn vals_from_tv(xs: &Vec<Tv>) -> Result<IrValue, DecodeError> {
    xs.iter().map(value_from_tv).collect::<Result<Vec<_>, _>>().map(IrValue::Sequence)
}

/// Converts a parsed TOML table entry for entry; only `value_from_tv` calls
/// it.
#[verifier::external_body]
fn pairs_from_tv(m: &toml::map::Map<String, Tv>) -> Result<IrValue, DecodeError> {
    m.iter().map(|(k, x)| value_from_tv(x).map(|d| (k.clone(), d))).collect::<Result<Vec<_>, _>>().map(IrValue::Mapping)
}

/// Relies on toml's `from_str`: malformed text is a parse error and never a
/// panic; a parsed document converts node for node, so the result holds no
/// variant.
#[verifier::external_body]
pub fn toml_decode(s: &str) -> (r: Result<IrValue, DecodeError>)
    ensures
        r matches Ok(v) ==> variant_free(val_of(v)),
        r matches Err(e) ==> derr_of(e) is Parse,
{
    match toml::from_str::<toml::Value>(s) {
        Ok(tv) => value_from_tv(&tv),
        Err(e) => Err(DecodeError::Parse(e.to_string())),
    }
}

} // verus!
