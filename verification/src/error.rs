//! The errors of the library, and their mathematical view.

use vstd::prelude::*;

verus! {

/// Why an operation failed.
#[derive(Debug, Clone, PartialEq, Eq)]
pub enum ImprintError {
    /// The first byte of a record is not the magic byte.
    InvalidMagic(u8),
    /// The version byte of a record is not the supported version.
    UnsupportedVersion(u8),
    /// A byte that should be a type code is none of the ten codes.
    InvalidFieldType(u8),
    /// A varint runs past five bytes, or does not fit in 32 bits.
    InvalidVarInt,
    /// A field was asked for that the record does not hold.
    FieldNotFound(u32),
    /// The bytes of a string are not UTF-8.
    InvalidUtf8String,
    /// Fewer bytes are left than the next item needs.
    BufferUnderflow { needed: usize, available: usize },
    /// The data breaks a rule of the format; the text says which.
    SchemaError(String),
}

/// An [`ImprintError`] as a plain value: the text of a schema error is a
/// sequence of characters.
pub enum ErrorView {
    InvalidMagic(u8),
    UnsupportedVersion(u8),
    InvalidFieldType(u8),
    InvalidVarInt,
    FieldNotFound(u32),
    InvalidUtf8String,
    BufferUnderflow { needed: usize, available: usize },
    SchemaError(Seq<char>),
}

impl View for ImprintError {
    type V = ErrorView;

    open spec fn view(&self) -> ErrorView {
        match self {
            ImprintError::InvalidMagic(b) => ErrorView::InvalidMagic(*b),
            ImprintError::UnsupportedVersion(b) => ErrorView::UnsupportedVersion(*b),
            ImprintError::InvalidFieldType(b) => ErrorView::InvalidFieldType(*b),
            ImprintError::InvalidVarInt => ErrorView::InvalidVarInt,
            ImprintError::FieldNotFound(id) => ErrorView::FieldNotFound(*id),
            ImprintError::InvalidUtf8String => ErrorView::InvalidUtf8String,
            ImprintError::BufferUnderflow { needed, available } => ErrorView::BufferUnderflow {
                needed: *needed,
                available: *available,
            },
            ImprintError::SchemaError(text) => ErrorView::SchemaError(text@),
        }
    }
}

/// A result with its error taken by its view.
pub open spec fn outcome<T>(r: Result<T, ImprintError>) -> Result<T, ErrorView> {
    match r {
        Ok(t) => Ok(t),
        Err(e) => Err(e@),
    }
}

/// A schema error with the given text.
pub(crate) fn schema_error(text: &str) -> (e: ImprintError)
    ensures
        e@ == ErrorView::SchemaError(text@),
{
    ImprintError::SchemaError(text.to_string())
}

} // verus!
