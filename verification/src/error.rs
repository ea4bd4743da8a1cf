//! Error taxonomy: shape errors (the wrong kind of value was met) are kept
//! apart from semantic errors (a well-shaped value broke a codec's own rule).

use vstd::prelude::*;

verus! {

/// The shape of an `IrValue`, used to report what a decoder expected and found.
#[derive(Clone, Copy, PartialEq, Eq, Structural, Debug)]
pub enum ValueKind {
    Null,
    Bool,
    Int,
    Text,
    Sequence,
    Mapping,
    Variant,
}

/// An error raised while decoding an `IrValue` into a domain value.
#[derive(Debug, PartialEq, Eq, Clone)]
pub enum DecodeError {
    /// A decode handler met a value of the wrong shape.
    UnexpectedShape { expected: ValueKind, found: ValueKind },
    /// A well-shaped value broke a codec's domain rule.
    SemanticValidation(String),
    /// A tagged-union decode met a tag that no declared variant carries.
    UnknownVariant(String),
    /// A typed accessor of `IrValue` was used on the wrong variant.
    TypeMismatch { expected: ValueKind, found: ValueKind },
    /// A required record field had no entry in the mapping.
    MissingField(String),
    /// A numeric value lay outside the representable range of its target.
    OutOfRange,
    /// A concrete text format could not be parsed into an `IrValue`.
    Parse(String),
}

/// Mathematical model of `DecodeError`, with text as character sequences.
pub enum DErr {
    UnexpectedShape { expected: ValueKind, found: ValueKind },
    SemanticValidation(Seq<char>),
    UnknownVariant(Seq<char>),
    TypeMismatch { expected: ValueKind, found: ValueKind },
    MissingField(Seq<char>),
    OutOfRange,
    Parse(Seq<char>),
}

pub open spec fn derr_of(e: DecodeError) -> DErr {
    match e {
        DecodeError::UnexpectedShape { expected, found } => DErr::UnexpectedShape {
            expected,
            found,
        },
        DecodeError::SemanticValidation(m) => DErr::SemanticValidation(m@),
        DecodeError::UnknownVariant(t) => DErr::UnknownVariant(t@),
        DecodeError::TypeMismatch { expected, found } => DErr::TypeMismatch { expected, found },
        DecodeError::MissingField(n) => DErr::MissingField(n@),
        DecodeError::OutOfRange => DErr::OutOfRange,
        DecodeError::Parse(m) => DErr::Parse(m@),
    }
}

/// An error raised while encoding a domain value.
#[derive(Clone, Copy, PartialEq, Eq, Structural, Debug)]
pub enum EncodeError {
    /// The domain value does not have the shape the schema describes.
    SchemaMismatch,
    /// The target text format cannot represent the value.
    Unrepresentable,
}

/// An error raised while registering a custom codec.
#[derive(Clone, Copy, PartialEq, Eq, Structural, Debug)]
pub enum RegistryError {
    /// A codec was already registered for the same type identity.
    DuplicateCodec,
}

} // verus!
