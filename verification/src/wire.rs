//! The wire format as mathematics: the bytes that stand for each header,
//! directory entry, record and value, and what reading bytes gives.
//!
//! ```text
//! record    := header directory? payload
//! header    := MAGIC(0x49) VERSION(0x01) flags(u8) schema_id
//! schema_id := fieldspace_id(u32 LE) schema_hash(u32 LE)
//! directory := count(varint) entry*
//! entry     := id(u32 LE) type_code(u8) offset(u32 LE)
//! payload   := the fields' bytes, in directory order
//! ```
//!
//! A value of a fixed-width kind is its bytes, little-endian; bytes and
//! strings follow their length as a varint; an array is the type code of its
//! items, their number as a varint and the items; a row is a whole record.

use crate::buffer::{buffer_limit, le_bytes, le_value, lemma_le_round_trip, pattern_of, signed_of};
use crate::error::ErrorView;
use crate::record::RecordView;
use crate::types::{type_code_of, DirectoryEntry, Flags, Header, SchemaId, TypeCode, MAGIC, VERSION};
use crate::value::ValueView;
use crate::varint::{lemma_varint_minimal, parse_varint, varint};
use vstd::prelude::*;
use vstd::utf8::{decode_utf8, encode_utf8, valid_utf8};

verus! {

/// The bytes of a header on the wire.
pub const HEADER_BYTES: usize = 11;

/// The bytes of a directory entry on the wire.
pub const DIR_ENTRY_BYTES: usize = 9;

/// How deep arrays may be nested in what is read.
pub const MAX_DEPTH: usize = 64;

/// The wire form of a schema id: both numbers, little-endian.
pub open spec fn schema_id_wire(id: SchemaId) -> Seq<u8> {
    le_bytes(id.fieldspace_id as nat, 4) + le_bytes(id.schema_hash as nat, 4)
}

/// The wire form of a header.
pub open spec fn header_wire(h: Header) -> Seq<u8> {
    seq![MAGIC, VERSION, h.flags.0] + schema_id_wire(h.schema_id)
}

/// The wire form of a directory entry.
pub open spec fn entry_wire(e: DirectoryEntry) -> Seq<u8> {
    le_bytes(e.id as nat, 4) + seq![e.type_code.wire_code()] + le_bytes(e.offset as nat, 4)
}

/// The wire forms of the entries of a directory, one after the other.
pub open spec fn directory_wire(d: Seq<DirectoryEntry>) -> Seq<u8>
    decreases d.len(),
{
    if d.len() == 0 {
        Seq::empty()
    } else {
        directory_wire(d.drop_last()) + entry_wire(d.last())
    }
}

/// What stands between the header and the payload: with the directory flag
/// set, the number of entries and the entries; else nothing.
pub open spec fn directory_section(r: RecordView) -> Seq<u8> {
    if r.header.flags.directory_flag() {
        varint(r.directory.len()) + directory_wire(r.directory)
    } else {
        Seq::empty()
    }
}

/// The wire form of a record.
pub open spec fn record_wire(r: RecordView) -> Seq<u8> {
    header_wire(r.header) + directory_section(r) + r.payload
}

/// The wire form of a value.
pub open spec fn value_wire(v: ValueView) -> Seq<u8>
    decreases v,
{
    match v {
        ValueView::Null => Seq::empty(),
        ValueView::Bool(b) => seq![if b { 1u8 } else { 0u8 }],
        ValueView::Int32(n) => le_bytes(pattern_of(n as int, 0x1_0000_0000), 4),
        ValueView::Int64(n) => le_bytes(pattern_of(n as int, 0x1_0000_0000_0000_0000), 8),
        ValueView::Float32(bits) => le_bytes(bits as nat, 4),
        ValueView::Float64(bits) => le_bytes(bits as nat, 8),
        ValueView::Bytes(b) => varint(b.len()) + b,
        ValueView::String(s) => varint(encode_utf8(s).len()) + encode_utf8(s),
        ValueView::Array(items) => if items.len() == 0 {
            Seq::empty()
        } else {
            seq![items[0].type_code().wire_code()] + varint(items.len()) + items_wire(
                items,
                items.len(),
            )
        },
        ValueView::Row(r) => record_wire(r),
    }
}

/// The wire forms of the first `n` of `items`, one after the other.
pub open spec fn items_wire(items: Seq<ValueView>, n: nat) -> Seq<u8>
    decreases items, n,
{
    if n == 0 || n > items.len() {
        Seq::empty()
    } else {
        items_wire(items, (n - 1) as nat) + value_wire(items[n - 1])
    }
}

/// Whether a value has a wire form: a length fits in 32 bits, an array is
/// not empty and its items are of one kind and have a wire form themselves.
pub open spec fn encodable(v: ValueView) -> bool
    decreases v,
{
    match v {
        ValueView::Bytes(b) => b.len() <= u32::MAX,
        ValueView::String(s) => encode_utf8(s).len() <= u32::MAX,
        ValueView::Array(items) => {
            &&& 1 <= items.len() <= u32::MAX
            &&& items_encodable(items, items.len())
        },
        ValueView::Row(r) => r.header.flags.directory_flag() ==> r.directory.len() <= u32::MAX,
        _ => true,
    }
}

/// Whether each of the first `n` of `items` is of the kind of the first item
/// and has a wire form.
pub open spec fn items_encodable(items: Seq<ValueView>, n: nat) -> bool
    decreases items, n,
{
    if n == 0 || n > items.len() {
        true
    } else {
        &&& items_encodable(items, (n - 1) as nat)
        &&& items[n - 1].type_code() == items[0].type_code()
        &&& encodable(items[n - 1])
    }
}

/// The error of a write that finds the buffer full.
pub open spec fn no_room() -> ErrorView {
    ErrorView::SchemaError("buffer cannot hold the encoded data"@)
}

/// The error of writing an empty array.
pub open spec fn empty_array() -> ErrorView {
    ErrorView::SchemaError("empty array not allowed"@)
}

/// The error of writing an array whose items are of more than one kind.
pub open spec fn mixed_array() -> ErrorView {
    ErrorView::SchemaError("array elements must have same type"@)
}

/// The error with which writing `r` into a buffer with `room` free bytes
/// fails, if it does.
pub open spec fn record_fault(r: RecordView, room: int) -> Option<ErrorView> {
    if header_wire(r.header).len() > room {
        Some(no_room())
    } else if r.header.flags.directory_flag() && r.directory.len() > u32::MAX {
        Some(ErrorView::InvalidVarInt)
    } else if record_wire(r).len() > room {
        Some(no_room())
    } else {
        None
    }
}

/// The error with which writing `v` into a buffer with `room` free bytes
/// fails, if it does: the first that the write comes upon, going through
/// the value from its head.
pub open spec fn value_fault(v: ValueView, room: int) -> Option<ErrorView>
    decreases v,
{
    match v {
        ValueView::Bytes(b) => if b.len() > u32::MAX {
            Some(ErrorView::InvalidVarInt)
        } else if value_wire(v).len() > room {
            Some(no_room())
        } else {
            None
        },
        ValueView::String(s) => if encode_utf8(s).len() > u32::MAX {
            Some(ErrorView::InvalidVarInt)
        } else if value_wire(v).len() > room {
            Some(no_room())
        } else {
            None
        },
        ValueView::Array(items) => if items.len() == 0 {
            Some(empty_array())
        } else if items.len() > u32::MAX {
            Some(ErrorView::InvalidVarInt)
        } else if 1 + varint(items.len()).len() > room {
            Some(no_room())
        } else {
            items_fault(items, items.len(), room - 1 - varint(items.len()).len())
        },
        ValueView::Row(r) => record_fault(r, room),
        ValueView::Null => None,
        _ => if value_wire(v).len() > room {
            Some(no_room())
        } else {
            None
        },
    }
}

/// The first error among the writes of the first `n` of `items` into `room`
/// free bytes, if there is one.
pub open spec fn items_fault(items: Seq<ValueView>, n: nat, room: int) -> Option<ErrorView>
    decreases items, n,
{
    if n == 0 || n > items.len() {
        None
    } else {
        match items_fault(items, (n - 1) as nat, room) {
            Some(e) => Some(e),
            None => if items[n - 1].type_code() != items[0].type_code() {
                Some(mixed_array())
            } else {
                value_fault(items[n - 1], room - items_wire(items, (n - 1) as nat).len())
            },
        }
    }
}

/// The error of reading where fewer bytes are left than are needed.
pub open spec fn underflow(needed: int, available: int) -> ErrorView {
    ErrorView::BufferUnderflow { needed: needed as usize, available: available as usize }
}

/// The error of reading a record whose directory or size breaks the
/// invariant of records.
pub open spec fn malformed() -> ErrorView {
    ErrorView::SchemaError("record is not well formed"@)
}

/// The error of reading arrays nested more than [`MAX_DEPTH`] deep.
pub open spec fn too_deep() -> ErrorView {
    ErrorView::SchemaError("arrays are nested too deeply"@)
}

/// The error of reading a boolean that is neither 0 nor 1.
pub open spec fn bad_bool() -> ErrorView {
    ErrorView::SchemaError("invalid boolean value"@)
}

/// What reading a schema id at the head of `s` gives.
pub open spec fn parse_schema_id(s: Seq<u8>) -> Result<(SchemaId, usize), ErrorView> {
    if s.len() < 8 {
        Err(underflow(8, s.len() as int))
    } else {
        Ok(
            (
                SchemaId {
                    fieldspace_id: le_value(s.subrange(0, 4)) as u32,
                    schema_hash: le_value(s.subrange(4, 8)) as u32,
                },
                8,
            ),
        )
    }
}

/// What reading a header at the head of `s` gives.
pub open spec fn parse_header(s: Seq<u8>) -> Result<(Header, usize), ErrorView> {
    if s.len() < 11 {
        Err(underflow(11, s.len() as int))
    } else if s[0] != MAGIC {
        Err(ErrorView::InvalidMagic(s[0]))
    } else if s[1] != VERSION {
        Err(ErrorView::UnsupportedVersion(s[1]))
    } else {
        Ok(
            (
                Header {
                    flags: Flags(s[2]),
                    schema_id: SchemaId {
                        fieldspace_id: le_value(s.subrange(3, 7)) as u32,
                        schema_hash: le_value(s.subrange(7, 11)) as u32,
                    },
                },
                11,
            ),
        )
    }
}

/// What reading a directory entry at the head of `s` gives.
pub open spec fn parse_entry(s: Seq<u8>) -> Result<(DirectoryEntry, usize), ErrorView> {
    if s.len() < 9 {
        Err(underflow(9, s.len() as int))
    } else {
        match type_code_of(s[4]) {
            None => Err(ErrorView::InvalidFieldType(s[4])),
            Some(type_code) => Ok(
                (
                    DirectoryEntry {
                        id: le_value(s.subrange(0, 4)) as u32,
                        type_code,
                        offset: le_value(s.subrange(5, 9)) as u32,
                    },
                    9,
                ),
            ),
        }
    }
}

/// What reading `count` directory entries at the head of `s` gives: the
/// entries, or the error of the first entry that cannot be read.
pub open spec fn parse_directory(s: Seq<u8>, count: nat) -> Result<Seq<DirectoryEntry>, ErrorView>
    decreases count,
{
    if count == 0 {
        Ok(Seq::empty())
    } else {
        match parse_directory(s, (count - 1) as nat) {
            Err(e) => Err(e),
            Ok(d) => match parse_entry(s.skip(9 * (count - 1))) {
                Err(e) => Err(e),
                Ok((entry, _)) => Ok(d.push(entry)),
            },
        }
    }
}

/// A record of the given parts read from `total` bytes, if the parts meet
/// the invariant of records.
pub open spec fn checked_record(
    header: Header,
    directory: Seq<DirectoryEntry>,
    payload: Seq<u8>,
    total: nat,
) -> Result<(RecordView, usize), ErrorView> {
    let r = RecordView { header, directory, payload };
    if r.wf() {
        Ok((r, total as usize))
    } else {
        Err(malformed())
    }
}

/// What reading a record from `s` gives: the header, the directory if the
/// header's flag announces one, and all the rest as payload. A record takes
/// all of `s`.
pub open spec fn parse_record(s: Seq<u8>) -> Result<(RecordView, usize), ErrorView> {
    match parse_header(s) {
        Err(e) => Err(e),
        Ok((header, _)) => {
            let body = s.skip(11);
            if header.flags.directory_flag() {
                match parse_varint(body) {
                    Err(e) => Err(e),
                    Ok((count, n)) => match parse_directory(body.skip(n as int), count as nat) {
                        Err(e) => Err(e),
                        Ok(directory) => checked_record(
                            header,
                            directory,
                            body.skip(n as int).skip(9 * count),
                            s.len(),
                        ),
                    },
                }
            } else {
                checked_record(header, Seq::empty(), body, s.len())
            }
        },
    }
}

/// What reading a length and that many bytes at the head of `s` gives.
pub open spec fn parse_prefixed(s: Seq<u8>) -> Result<(Seq<u8>, usize), ErrorView> {
    match parse_varint(s) {
        Err(e) => Err(e),
        Ok((len, n)) => if s.len() - n < len {
            Err(underflow(len as int, s.len() - n))
        } else {
            Ok((s.subrange(n as int, n + len), (n + len) as usize))
        },
    }
}

/// What reading a value of the kind `type_code` at the head of `s` gives,
/// when arrays may be nested `depth` deep: the value and the bytes it took,
/// or the first error that the read comes upon.
pub open spec fn parse_value(type_code: TypeCode, s: Seq<u8>, depth: nat) -> Result<
    (ValueView, usize),
    ErrorView,
>
    decreases depth, 0nat,
{
    match type_code {
        TypeCode::Null => Ok((ValueView::Null, 0)),
        TypeCode::Bool => if s.len() < 1 {
            Err(underflow(1, 0))
        } else if s[0] == 0 {
            Ok((ValueView::Bool(false), 1))
        } else if s[0] == 1 {
            Ok((ValueView::Bool(true), 1))
        } else {
            Err(bad_bool())
        },
        TypeCode::Int32 => if s.len() < 4 {
            Err(underflow(4, s.len() as int))
        } else {
            Ok((ValueView::Int32(signed_of(le_value(s.take(4)), 0x1_0000_0000) as i32), 4))
        },
        TypeCode::Int64 => if s.len() < 8 {
            Err(underflow(8, s.len() as int))
        } else {
            Ok(
                (
                    ValueView::Int64(
                        signed_of(le_value(s.take(8)), 0x1_0000_0000_0000_0000) as i64,
                    ),
                    8,
                ),
            )
        },
        TypeCode::Float32 => if s.len() < 4 {
            Err(underflow(4, s.len() as int))
        } else {
            Ok((ValueView::Float32(le_value(s.take(4)) as u32), 4))
        },
        TypeCode::Float64 => if s.len() < 8 {
            Err(underflow(8, s.len() as int))
        } else {
            Ok((ValueView::Float64(le_value(s.take(8)) as u64), 8))
        },
        TypeCode::Bytes => match parse_prefixed(s) {
            Err(e) => Err(e),
            Ok((b, n)) => Ok((ValueView::Bytes(b), n)),
        },
        TypeCode::String => match parse_prefixed(s) {
            Err(e) => Err(e),
            Ok((b, n)) => if valid_utf8(b) {
                Ok((ValueView::String(decode_utf8(b)), n))
            } else {
                Err(ErrorView::InvalidUtf8String)
            },
        },
        TypeCode::Array => if depth == 0 {
            Err(too_deep())
        } else if s.len() < 1 {
            Err(underflow(1, 0))
        } else {
            match type_code_of(s[0]) {
                None => Err(ErrorView::InvalidFieldType(s[0])),
                Some(item_type) => match parse_varint(s.skip(1)) {
                    Err(e) => Err(e),
                    Ok((count, n)) => match parse_items(
                        item_type,
                        s.skip(1 + n),
                        count as nat,
                        (depth - 1) as nat,
                    ) {
                        Err(e) => Err(e),
                        Ok((items, used)) => Ok((ValueView::Array(items), (1 + n + used) as usize)),
                    },
                },
            }
        },
        TypeCode::Row => match parse_record(s) {
            Err(e) => Err(e),
            Ok((r, n)) => Ok((ValueView::Row(r), n)),
        },
    }
}

/// What reading `count` values of the kind `type_code`, one after the
/// other, at the head of `s` gives: the values and the bytes they took, or
/// the error of the first that cannot be read.
pub open spec fn parse_items(type_code: TypeCode, s: Seq<u8>, count: nat, depth: nat) -> Result<
    (Seq<ValueView>, usize),
    ErrorView,
>
    decreases depth, count + 1,
{
    if count == 0 {
        Ok((Seq::empty(), 0))
    } else {
        match parse_items(type_code, s, (count - 1) as nat, depth) {
            Err(e) => Err(e),
            Ok((items, used)) => match parse_value(type_code, s.skip(used as int), depth) {
                Err(e) => Err(e),
                Ok((v, n)) => Ok((items.push(v), (used + n) as usize)),
            },
        }
    }
}

impl RecordView {
    /// The value of the field `id`: nothing where the record has no such
    /// field, else what reading a value of the field's kind from the field's
    /// bytes gives.
    pub open spec fn value_of(self, id: u32) -> Result<Option<ValueView>, ErrorView> {
        if !self.contains(id) {
            Ok(None)
        } else {
            match parse_value(self.type_code(id), self.raw(id), MAX_DEPTH as nat) {
                Ok((v, _)) => Ok(Some(v)),
                Err(e) => Err(e),
            }
        }
    }
}

/// A sequence is the head of itself with more appended.
pub proof fn lemma_prefix(a: Seq<u8>, b: Seq<u8>)
    ensures
        a.is_prefix_of(a + b),
        a.is_prefix_of(a),
{
    assert(a =~= (a + b).subrange(0, a.len() as int));
    assert(a =~= a.subrange(0, a.len() as int));
}

/// The lengths of the wire forms whose length is fixed.
pub proof fn lemma_fixed_lengths()
    ensures
        forall|x: nat, w: nat| (#[trigger] le_bytes(x, w)).len() == w,
        forall|id: SchemaId| (#[trigger] schema_id_wire(id)).len() == 8,
        forall|h: Header| (#[trigger] header_wire(h)).len() == 11,
        forall|e: DirectoryEntry| (#[trigger] entry_wire(e)).len() == 9,
{
    assert forall|x: nat, w: nat| (#[trigger] le_bytes(x, w)).len() == w by {
        lemma_le_round_trip(x, w);
    }
}

/// A directory of `n` entries takes `9 * n` bytes.
pub proof fn lemma_directory_wire_len(d: Seq<DirectoryEntry>)
    ensures
        directory_wire(d).len() == 9 * d.len(),
    decreases d.len(),
{
    lemma_fixed_lengths();
    if d.len() > 0 {
        lemma_directory_wire_len(d.drop_last());
    }
}

/// A directory with one more entry.
pub proof fn lemma_directory_wire_push(d: Seq<DirectoryEntry>, e: DirectoryEntry)
    ensures
        directory_wire(d.push(e)) == directory_wire(d) + entry_wire(e),
{
    assert(d.push(e).drop_last() =~= d);
}

/// Once a write of items has failed, the rest of the items does not change
/// the error.
pub proof fn lemma_fault_persists(items: Seq<ValueView>, n: nat, m: nat, room: int)
    requires
        n <= m <= items.len(),
        items_fault(items, n, room) is Some,
    ensures
        items_fault(items, m, room) == items_fault(items, n, room),
    decreases m,
{
    if n < m {
        lemma_fault_persists(items, n, (m - 1) as nat, room);
    }
}

/// A write fails for no other reason than that the value has no wire form
/// or the buffer is too small for it.
pub proof fn lemma_fault(v: ValueView, room: int)
    requires
        room >= 0,
    ensures
        value_fault(v, room) is None <==> encodable(v) && value_wire(v).len() <= room,
    decreases v,
{
    lemma_fixed_lengths();
    match v {
        ValueView::Array(items) => {
            if 1 <= items.len() <= u32::MAX {
                let head = 1 + varint(items.len()).len();
                if head <= room {
                    lemma_items_fault(items, items.len(), room - head);
                }
            }
        },
        ValueView::Row(r) => {
            lemma_directory_wire_len(r.directory);
        },
        _ => {},
    }
}

/// The writes of items fail for no other reason than that an item is of
/// another kind than the first, has no wire form, or finds the buffer too
/// small.
pub proof fn lemma_items_fault(items: Seq<ValueView>, n: nat, room: int)
    requires
        room >= 0,
        n <= items.len(),
    ensures
        items_fault(items, n, room) is None <==> items_encodable(items, n) && items_wire(
            items,
            n,
        ).len() <= room,
    decreases items, n,
{
    if n > 0 {
        lemma_items_fault(items, (n - 1) as nat, room);
        let used = items_wire(items, (n - 1) as nat).len();
        if used <= room {
            lemma_fault(items[n - 1], room - used);
        }
    }
}

/// Once an entry cannot be read, reading more entries fails in the same way.
pub proof fn lemma_directory_fails(s: Seq<u8>, n: nat, m: nat)
    requires
        n <= m,
        parse_directory(s, n) is Err,
    ensures
        parse_directory(s, m) == parse_directory(s, n),
    decreases m,
{
    if n < m {
        lemma_directory_fails(s, n, (m - 1) as nat);
    }
}

/// Once an item cannot be read, reading more items fails in the same way.
pub proof fn lemma_items_fail(type_code: TypeCode, s: Seq<u8>, n: nat, m: nat, depth: nat)
    requires
        n <= m,
        parse_items(type_code, s, n, depth) is Err,
    ensures
        parse_items(type_code, s, m, depth) == parse_items(type_code, s, n, depth),
    decreases m,
{
    if n < m {
        lemma_items_fail(type_code, s, n, (m - 1) as nat, depth);
    }
}

/// A directory of `count` entries that was read took `9 * count` bytes.
pub proof fn lemma_directory_len(s: Seq<u8>, count: nat)
    requires
        parse_directory(s, count) is Ok,
    ensures
        parse_directory(s, count)->Ok_0.len() == count,
        9 * count <= s.len(),
    decreases count,
{
    if count > 0 {
        lemma_directory_len(s, (count - 1) as nat);
    }
}

/// A record that was read took all the bytes.
pub proof fn lemma_record_takes_all(s: Seq<u8>)
    requires
        parse_record(s) is Ok,
        s.len() <= usize::MAX,
    ensures
        parse_record(s)->Ok_0.1 == s.len(),
        parse_record(s)->Ok_0.0.wf(),
        s.len() >= 11,
{
    let header = parse_header(s)->Ok_0.0;
    let body = s.skip(11);
    let r = parse_record(s)->Ok_0.0;
    assert(r.payload.len() <= buffer_limit());
    if header.flags.directory_flag() {
        let n = parse_varint(body)->Ok_0.1;
        lemma_varint_minimal(body);
        lemma_directory_len(body.skip(n as int), parse_varint(body)->Ok_0.0 as nat);
    }
}

} // verus!
