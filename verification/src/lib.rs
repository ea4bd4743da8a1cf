//! A format-agnostic serialization core: an intermediate value model, a
//! structural mapper driven by explicit schemas, custom codecs with a
//! registry, and trusted bridges to concrete text formats.

pub mod codec;
pub mod convention;
pub mod domain;
pub mod error;
pub mod json;
pub mod mapper;
pub mod registry;
pub mod schema;
pub mod toml_format;
pub mod value;
