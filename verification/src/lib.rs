//! Imprint: a binary record format whose fields are addressed by numeric id,
//! and a library to build, write, read, project and merge such records.
//!
//! A record is a header, a directory sorted by field id, and a payload that
//! holds the bytes of the fields. Any field can be read without reading the
//! others, and `project` and `merge` make new records by splicing the bytes of
//! the fields as they are.
//!
//! The library is verified: every function states what it returns, over the
//! mathematical models of [`record`] and [`wire`], and is proved to do so and
//! not to panic. The laws that relate the operations to each other are in
//! [`laws`]. What is assumed of the `bytes` crate and of the standard library
//! is in [`buffer`] and [`stdlib`].

pub mod buffer;
pub mod codec;
pub mod error;
pub mod laws;
pub mod ops;
pub mod record;
pub mod stdlib;
pub mod types;
pub mod value;
pub mod varint;
pub mod wire;
pub mod writer;

pub use codec::{Read, ValueRead, Write};
pub use error::{ErrorView, ImprintError};
pub use ops::{Merge, MergeOptions, Project};
pub use record::{Field, ImprintRecord, RecordView};
pub use types::{DirectoryEntry, Flags, Header, SchemaId, TypeCode, MAGIC, VERSION};
pub use value::{MapKey, Value, ValueView};
pub use varint::{decode as decode_varint, encode as encode_varint};
pub use writer::ImprintWriter;
