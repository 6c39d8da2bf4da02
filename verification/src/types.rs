//! The plain types of the format: flags, type codes, schema ids, headers and
//! directory entries.

use crate::error::ImprintError;
use vstd::prelude::*;
use vstd::std_specs::convert::TryFromSpecImpl;

verus! {

/// The byte that starts every record (ASCII 'I').
pub const MAGIC: u8 = 0x49;

/// The version of the format that this library reads and writes.
pub const VERSION: u8 = 0x01;

/// The flags byte of a header.
#[derive(Debug, Clone, Copy, PartialEq, Eq, Structural)]
pub struct Flags(pub u8);

impl Flags {
    /// Whether a field directory is present in the record.
    pub const FIELD_DIRECTORY: u8 = 0x01;

    /// Whether bit 0 is set.
    pub open spec fn directory_flag(self) -> bool {
        self.0 % 2 == 1
    }

    /// The flags with the bits of `flags`.
    pub fn new(flags: u8) -> (r: Self)
        ensures
            r == Flags(flags),
    {
        Flags(flags)
    }

    /// The flags as a byte.
    pub fn bits(&self) -> (r: u8)
        ensures
            r == self.0,
    {
        self.0
    }

    /// Whether the flags say that a directory follows the header.
    pub fn has_field_directory(&self) -> (r: bool)
        ensures
            r == self.directory_flag(),
    {
        let bits = self.0;
        assert((bits & 0x01 != 0) == (bits % 2 == 1)) by (bit_vector);
        bits & Self::FIELD_DIRECTORY != 0
    }
}

/// The kind of a value. The codes on the wire are 0 to 9, in this order.
#[derive(Debug, Clone, Copy, PartialEq, Eq, Structural)]
pub enum TypeCode {
    Null,
    Bool,
    Int32,
    Int64,
    Float32,
    Float64,
    Bytes,
    String,
    Array,
    Row,
}

/// The type code that the byte `b` stands for, if any.
pub open spec fn type_code_of(b: u8) -> Option<TypeCode> {
    if b == 0 {
        Some(TypeCode::Null)
    } else if b == 1 {
        Some(TypeCode::Bool)
    } else if b == 2 {
        Some(TypeCode::Int32)
    } else if b == 3 {
        Some(TypeCode::Int64)
    } else if b == 4 {
        Some(TypeCode::Float32)
    } else if b == 5 {
        Some(TypeCode::Float64)
    } else if b == 6 {
        Some(TypeCode::Bytes)
    } else if b == 7 {
        Some(TypeCode::String)
    } else if b == 8 {
        Some(TypeCode::Array)
    } else if b == 9 {
        Some(TypeCode::Row)
    } else {
        None
    }
}

impl TypeCode {
    /// The byte that stands for the type code on the wire.
    pub open spec fn wire_code(self) -> u8 {
        match self {
            TypeCode::Null => 0,
            TypeCode::Bool => 1,
            TypeCode::Int32 => 2,
            TypeCode::Int64 => 3,
            TypeCode::Float32 => 4,
            TypeCode::Float64 => 5,
            TypeCode::Bytes => 6,
            TypeCode::String => 7,
            TypeCode::Array => 8,
            TypeCode::Row => 9,
        }
    }

    /// The width of the wire form, for the kinds whose width is fixed and
    /// not zero.
    pub open spec fn width(self) -> Option<usize> {
        match self {
            TypeCode::Bool => Some(1usize),
            TypeCode::Int32 | TypeCode::Float32 => Some(4usize),
            TypeCode::Int64 | TypeCode::Float64 => Some(8usize),
            _ => None,
        }
    }

    /// The width of the wire form, for the kinds whose width is fixed and
    /// not zero.
    pub fn fixed_width(&self) -> (r: Option<usize>)
        ensures
            r == self.width(),
    {
        match self {
            Self::Bool => Some(1),
            Self::Int32 | Self::Float32 => Some(4),
            Self::Int64 | Self::Float64 => Some(8),
            _ => None,
        }
    }

    /// The byte that stands for the type code on the wire.
    pub fn code(&self) -> (r: u8)
        ensures
            r == self.wire_code(),
            type_code_of(r) == Some(*self),
    {
        match self {
            TypeCode::Null => 0,
            TypeCode::Bool => 1,
            TypeCode::Int32 => 2,
            TypeCode::Int64 => 3,
            TypeCode::Float32 => 4,
            TypeCode::Float64 => 5,
            TypeCode::Bytes => 6,
            TypeCode::String => 7,
            TypeCode::Array => 8,
            TypeCode::Row => 9,
        }
    }
}

impl TryFrom<u8> for TypeCode {
    type Error = ImprintError;

    fn try_from(value: u8) -> (r: Result<Self, Self::Error>) {
        match value {
            0x0 => Ok(Self::Null),
            0x1 => Ok(Self::Bool),
            0x2 => Ok(Self::Int32),
            0x3 => Ok(Self::Int64),
            0x4 => Ok(Self::Float32),
            0x5 => Ok(Self::Float64),
            0x6 => Ok(Self::Bytes),
            0x7 => Ok(Self::String),
            0x8 => Ok(Self::Array),
            0x9 => Ok(Self::Row),
            _ => Err(ImprintError::InvalidFieldType(value)),
        }
    }
}

impl TryFromSpecImpl<u8> for TypeCode {
    open spec fn obeys_try_from_spec() -> bool {
        true
    }

    open spec fn try_from_spec(value: u8) -> Result<Self, ImprintError> {
        match type_code_of(value) {
            Some(code) => Ok(code),
            None => Err(ImprintError::InvalidFieldType(value)),
        }
    }
}

/// Every type code is the code of its own wire byte, and every byte that
/// stands for a type code is that code's wire byte.
pub proof fn lemma_type_code_bytes(code: TypeCode, b: u8)
    ensures
        type_code_of(code.wire_code()) == Some(code),
        type_code_of(b) matches Some(c) ==> c.wire_code() == b,
        type_code_of(b) is Some <==> b <= 9,
{
}

/// A schema identifier: a fieldspace and the hash of a schema in it. The
/// library copies both and reads neither.
#[derive(Debug, Clone, Copy, PartialEq, Eq, Structural)]
pub struct SchemaId {
    pub fieldspace_id: u32,
    pub schema_hash: u32,
}

/// The header of a record. On the wire it takes eleven bytes.
#[derive(Debug, Clone, Copy, PartialEq, Eq, Structural)]
pub struct Header {
    pub flags: Flags,
    pub schema_id: SchemaId,
}

/// One entry of a record's directory. On the wire it takes nine bytes.
#[derive(Debug, Clone, Copy, PartialEq, Eq, Structural)]
pub struct DirectoryEntry {
    /// The id of the field within its fieldspace.
    pub id: u32,
    /// The kind of the field's value.
    pub type_code: TypeCode,
    /// Where the value starts, counted from the start of the payload.
    pub offset: u32,
}

} // verus!
