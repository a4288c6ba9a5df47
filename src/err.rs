//! Error types.
use vstd::prelude::*;

verus! {

/// Errors raised while encoding or decoding a record.
#[derive(Debug, Clone, PartialEq, Eq)]
pub enum SerdeErr {
    /// A message passed through from elsewhere.
    Message(String),
    /// The input window is shorter than required.
    Eof,
    /// The output buffer is smaller than required.
    NotEnoughSpace,
    /// The requested path is not supported.
    NotSupported,
    /// A value is invalid for its type.
    ParseFailed,
}

/// Errors raised while compiling a record or enumeration schema.
#[derive(Debug, Clone, PartialEq, Eq)]
pub enum DeriveErr {
    /// Neither end of the unread fields can be read: the fields at the
    /// front and at the back, by position.
    AmbigiousDeserialize(usize, usize),
    /// The variant at this position has no discriminant.
    MissingDiscriminant(usize),
    /// The variant at this position has the wire value of an earlier one.
    DuplicateDiscriminant(usize),
    /// The field at this position refers to a field that cannot serve it,
    /// or its element type is malformed.
    InvalidField(usize),
    /// The record-length anchor is not a readable integer field, or its
    /// unit counts elements.
    InvalidStructLen,
    /// A message from the front-end that reads declarations.
    Message(String),
}

} // verus!
