//! The codec: writing headers, directory entries, records and values to a
//! buffer, and reading them back. What is written and what a read gives is
//! defined in [`crate::wire`].

use crate::buffer::{
    advance, as_slice, buffer_limit, bytes_len, contents, copy_to_vec, get_i32_le, get_i64_le,
    get_u32_le, get_u64_le, get_u8, has_room, put_i32_le, put_i64_le, put_slice, put_u32_le,
    put_u64_le, put_u8, written,
};
use crate::error::{outcome, schema_error, ErrorView, ImprintError};
use crate::record::{ImprintRecord, RecordView};
use crate::stdlib::string_from_utf8;
use crate::types::{type_code_of, DirectoryEntry, Flags, Header, SchemaId, TypeCode, MAGIC, VERSION};
use crate::value::{lemma_array_view, views_of, Value, ValueView};
use crate::varint::{
    decode, encode, encoded_len, lemma_varint_minimal, parse_varint, try_encode, varint,
};
use crate::wire::{
    directory_section, directory_wire, entry_wire, header_wire, items_fault, items_wire,
    lemma_directory_fails, lemma_directory_wire_len, lemma_directory_wire_push,
    lemma_fault_persists, lemma_fixed_lengths, lemma_items_fail, lemma_prefix,
    lemma_record_takes_all, no_room, parse_directory, parse_entry, parse_header, parse_items,
    parse_prefixed, parse_record, parse_schema_id, parse_value, record_fault, record_wire,
    schema_id_wire, value_fault, value_wire, DIR_ENTRY_BYTES, HEADER_BYTES, MAX_DEPTH,
};
use bytes::{Bytes, BytesMut};
use vstd::prelude::*;

verus! {

/// A type that can be written to a buffer in the format.
pub trait Write {
    /// Appends the wire form to `buf`. On an error `buf` may hold part of
    /// it.
    fn write(&self, buf: &mut BytesMut) -> (r: Result<(), ImprintError>);
}

/// A type that can be read from bytes in the format.
pub trait Read: Sized {
    /// Reads a value from the head of `bytes`: the value, and how many bytes
    /// it took.
    fn read(bytes: Bytes) -> (r: Result<(Self, usize), ImprintError>);
}

/// A type that can be read from bytes when its kind is known.
pub trait ValueRead: Sized {
    /// Reads a value of the kind `type_code` from the head of `bytes`: the
    /// value, and how many bytes it took.
    fn read(type_code: TypeCode, bytes: Bytes) -> (r: Result<(Self, usize), ImprintError>);
}

/// The free bytes of a buffer.
pub open spec fn room_in(buf: BytesMut) -> int {
    buffer_limit() - written(buf).len()
}

/// Whether a write met its contract: where `fault` names an error the write
/// failed with it, and the buffer still starts with what it held; else it
/// succeeded and `wire` was appended.
pub open spec fn write_outcome(
    r: Result<(), ImprintError>,
    before: Seq<u8>,
    after: Seq<u8>,
    wire: Seq<u8>,
    fault: Option<ErrorView>,
) -> bool {
    match fault {
        None => r is Ok && after == before + wire,
        Some(e) => r is Err && r->Err_0@ == e && before.is_prefix_of(after),
    }
}

fn full() -> (e: ImprintError)
    ensures
        e@ == no_room(),
{
    schema_error("buffer cannot hold the encoded data")
}

impl Write for SchemaId {
    fn write(&self, buf: &mut BytesMut) -> (r: Result<(), ImprintError>)
        ensures
            write_outcome(
                r,
                written(*old(buf)),
                written(*final(buf)),
                schema_id_wire(*self),
                if room_in(*old(buf)) < 8 {
                    Some(no_room())
                } else {
                    None
                },
            ),
    {
        proof {
            lemma_fixed_lengths();
        }
        if !has_room(buf, 8) {
            return Err(full());
        }
        put_u32_le(buf, self.fieldspace_id);
        put_u32_le(buf, self.schema_hash);
        assert(written(*buf) =~= written(*old(buf)) + schema_id_wire(*self));
        Ok(())
    }
}

impl Write for Header {
    fn write(&self, buf: &mut BytesMut) -> (r: Result<(), ImprintError>)
        ensures
            write_outcome(
                r,
                written(*old(buf)),
                written(*final(buf)),
                header_wire(*self),
                if room_in(*old(buf)) < 11 {
                    Some(no_room())
                } else {
                    None
                },
            ),
    {
        proof {
            lemma_fixed_lengths();
        }
        if !has_room(buf, HEADER_BYTES) {
            return Err(full());
        }
        put_u8(buf, MAGIC);
        put_u8(buf, VERSION);
        put_u8(buf, self.flags.0);
        let ghost mid = written(*buf);
        let r = self.schema_id.write(buf);
        assert(mid =~= written(*old(buf)) + seq![MAGIC, VERSION, self.flags.0]);
        assert(written(*buf) =~= written(*old(buf)) + header_wire(*self));
        r
    }
}

impl Write for DirectoryEntry {
    fn write(&self, buf: &mut BytesMut) -> (r: Result<(), ImprintError>)
        ensures
            write_outcome(
                r,
                written(*old(buf)),
                written(*final(buf)),
                entry_wire(*self),
                if room_in(*old(buf)) < 9 {
                    Some(no_room())
                } else {
                    None
                },
            ),
    {
        proof {
            lemma_fixed_lengths();
        }
        if !has_room(buf, DIR_ENTRY_BYTES) {
            return Err(full());
        }
        put_u32_le(buf, self.id);
        put_u8(buf, self.type_code.code());
        put_u32_le(buf, self.offset);
        assert(written(*buf) =~= written(*old(buf)) + entry_wire(*self));
        Ok(())
    }
}

impl Write for ImprintRecord {
    fn write(&self, buf: &mut BytesMut) -> (r: Result<(), ImprintError>)
        ensures
            write_outcome(
                r,
                written(*old(buf)),
                written(*final(buf)),
                record_wire(self@),
                record_fault(self@, room_in(*old(buf))),
            ),
    {
        let ghost before = written(*buf);
        let ghost view = self@;
        let header = self.header();
        let directory = self.directory();
        let payload = self.payload();
        proof {
            lemma_fixed_lengths();
            lemma_directory_wire_len(view.directory);
            lemma_prefix(before, Seq::empty());
        }
        header.write(buf)?;
        proof {
            lemma_prefix(before, header_wire(view.header));
        }
        if header.flags.has_field_directory() {
            let count = directory.len() as u32;
            if !try_encode(count, buf) {
                return Err(full());
            }
            let ghost start = written(*buf);
            let mut i: usize = 0;
            while i < directory.len()
                invariant
                    i <= directory.len(),
                    directory@ == view.directory,
                    view == self@,
                    view.wf(),
                    view.header.flags.directory_flag(),
                    before == written(*old(buf)),
                    room_in(*old(buf)) >= 11,
                    start == before + header_wire(view.header) + varint(
                        view.directory.len() as nat,
                    ),
                    written(*buf) == start + directory_wire(view.directory.take(i as int)),
                    directory_wire(view.directory).len() == 9 * view.directory.len(),
                decreases directory.len() - i,
            {
                let ghost done = view.directory.take(i as int);
                proof {
                    lemma_fixed_lengths();
                    lemma_directory_wire_len(done);
                    lemma_directory_wire_push(done, view.directory[i as int]);
                    assert(view.directory.take(i + 1) =~= done.push(view.directory[i as int]));
                    lemma_prefix(
                        before,
                        header_wire(view.header) + varint(view.directory.len() as nat)
                            + directory_wire(done),
                    );
                    assert(written(*buf) =~= before + (header_wire(view.header) + varint(
                        view.directory.len() as nat,
                    ) + directory_wire(done)));
                }
                match directory[i].write(buf) {
                    Err(e) => {
                        assert(directory_section(view).len() >= varint(
                            view.directory.len() as nat,
                        ).len() + 9 * (i + 1));
                        return Err(e);
                    },
                    Ok(()) => {},
                }
                assert(written(*buf) =~= start + directory_wire(view.directory.take(i + 1)));
                i += 1;
            }
            assert(view.directory.take(i as int) =~= view.directory);
        }
        assert(written(*buf) =~= before + (header_wire(view.header) + directory_section(view)));
        proof {
            lemma_prefix(before, header_wire(view.header) + directory_section(view));
        }
        if !has_room(buf, bytes_len(payload)) {
            return Err(full());
        }
        put_slice(buf, as_slice(payload));
        assert(written(*buf) =~= before + record_wire(view));
        Ok(())
    }
}

impl Write for Value {
    fn write(&self, buf: &mut BytesMut) -> (r: Result<(), ImprintError>)
        ensures
            write_outcome(
                r,
                written(*old(buf)),
                written(*final(buf)),
                value_wire(self@),
                value_fault(self@, room_in(*old(buf))),
            ),
        decreases self,
    {
        let ghost before = written(*buf);
        proof {
            lemma_fixed_lengths();
            lemma_prefix(before, Seq::empty());
            assert(before + Seq::<u8>::empty() =~= before);
        }
        match self {
            Value::Null => Ok(()),
            Value::Bool(v) => {
                if !has_room(buf, 1) {
                    return Err(full());
                }
                put_u8(
                    buf,
                    if *v {
                        1
                    } else {
                        0
                    },
                );
                assert(written(*buf) =~= before + value_wire(self@));
                Ok(())
            },
            Value::Int32(v) => {
                if !has_room(buf, 4) {
                    return Err(full());
                }
                put_i32_le(buf, *v);
                Ok(())
            },
            Value::Int64(v) => {
                if !has_room(buf, 8) {
                    return Err(full());
                }
                put_i64_le(buf, *v);
                Ok(())
            },
            Value::Float32(bits) => {
                if !has_room(buf, 4) {
                    return Err(full());
                }
                put_u32_le(buf, *bits);
                Ok(())
            },
            Value::Float64(bits) => {
                if !has_room(buf, 8) {
                    return Err(full());
                }
                put_u64_le(buf, *bits);
                Ok(())
            },
            Value::Bytes(v) => write_prefixed(v.as_slice(), buf),
            Value::String(v) => write_prefixed(v.as_str().as_bytes(), buf),
            Value::Array(v) => {
                let ghost items = views_of(v@);
                proof {
                    lemma_array_view(*v);
                }
                if v.len() == 0 {
                    return Err(schema_error("empty array not allowed"));
                }
                if v.len() > u32::MAX as usize {
                    return Err(ImprintError::InvalidVarInt);
                }
                let count = v.len() as u32;
                let type_code = v[0].type_code();
                let n = encoded_len(count);
                if !has_room(buf, n + 1) {
                    return Err(full());
                }
                put_u8(buf, type_code.code());
                encode(count, buf);
                let ghost start = written(*buf);
                let ghost room = room_in(*old(buf)) - 1 - n;
                assert(start =~= before + (seq![type_code.wire_code()] + varint(count as nat)));
                let mut i: usize = 0;
                while i < v.len()
                    invariant
                        i <= v.len(),
                        *self == Value::Array(*v),
                        items == views_of(v@),
                        before == written(*old(buf)),
                        start == before + (seq![type_code.wire_code()] + varint(count as nat)),
                        written(*buf) == start + items_wire(items, i as nat),
                        room == buffer_limit() - start.len(),
                        items_fault(items, i as nat, room) is None,
                        type_code == items[0].type_code(),
                        value_fault(self@, room_in(*old(buf))) == items_fault(
                            items,
                            items.len(),
                            room,
                        ),
                    decreases v.len() - i,
                {
                    let ghost done = items_wire(items, i as nat);
                    proof {
                        lemma_prefix(
                            before,
                            seq![type_code.wire_code()] + varint(count as nat) + done,
                        );
                        assert(written(*buf) =~= before + (seq![type_code.wire_code()] + varint(
                            count as nat,
                        ) + done));
                        assert(items[i as int] == v@[i as int]@);
                    }
                    if v[i].type_code() != type_code {
                        proof {
                            lemma_fault_persists(items, (i + 1) as nat, items.len(), room);
                        }
                        return Err(schema_error("array elements must have same type"));
                    }
                    assert(self->Array_0 == *v);
                    assert(decreases_to!(*self => self->Array_0));
                    assert(decreases_to!(*v => v[i as int]));
                    match v[i].write(buf) {
                        Err(e) => {
                            proof {
                                lemma_fault_persists(items, (i + 1) as nat, items.len(), room);
                                assert(before.is_prefix_of(written(*buf))) by {
                                    assert(before =~= written(*buf).subrange(
                                        0,
                                        before.len() as int,
                                    ));
                                }
                            }
                            return Err(e);
                        },
                        Ok(()) => {},
                    }
                    assert(written(*buf) =~= start + items_wire(items, (i + 1) as nat));
                    i += 1;
                }
                assert(written(*buf) =~= before + value_wire(self@));
                Ok(())
            },
            Value::Row(v) => {
                let record: &ImprintRecord = &**v;
                record.write(buf)
            },
        }
    }
}

/// Appends the length of `bytes` as a varint, and then `bytes`.
fn write_prefixed(bytes: &[u8], buf: &mut BytesMut) -> (r: Result<(), ImprintError>)
    ensures
        write_outcome(
            r,
            written(*old(buf)),
            written(*final(buf)),
            varint(bytes@.len()) + bytes@,
            if bytes@.len() > u32::MAX {
                Some(ErrorView::InvalidVarInt)
            } else if (varint(bytes@.len()) + bytes@).len() > room_in(*old(buf)) {
                Some(no_room())
            } else {
                None
            },
        ),
{
    let ghost before = written(*buf);
    proof {
        lemma_prefix(before, Seq::empty());
        assert(before + Seq::<u8>::empty() =~= before);
    }
    if bytes.len() > u32::MAX as usize {
        return Err(ImprintError::InvalidVarInt);
    }
    let count = bytes.len() as u32;
    if !try_encode(count, buf) {
        return Err(full());
    }
    proof {
        lemma_prefix(before, varint(count as nat));
    }
    if !has_room(buf, bytes.len()) {
        return Err(full());
    }
    put_slice(buf, bytes);
    assert(written(*buf) =~= before + (varint(bytes@.len()) + bytes@));
    Ok(())
}

/// The result of reading a value, with the value and the error taken by
/// their views.
pub open spec fn value_outcome(r: Result<(Value, usize), ImprintError>) -> Result<
    (ValueView, usize),
    ErrorView,
> {
    match r {
        Ok((v, n)) => Ok((v@, n)),
        Err(e) => Err(e@),
    }
}

/// The result of reading a record, with the record and the error taken by
/// their views.
pub open spec fn record_outcome(r: Result<(ImprintRecord, usize), ImprintError>) -> Result<
    (RecordView, usize),
    ErrorView,
> {
    match r {
        Ok((v, n)) => Ok((v@, n)),
        Err(e) => Err(e@),
    }
}

impl Read for SchemaId {
    fn read(bytes: Bytes) -> (r: Result<(Self, usize), ImprintError>)
        ensures
            outcome(r) == parse_schema_id(contents(bytes)),
    {
        let ghost s = contents(bytes);
        let mut rest = bytes;
        let available = bytes_len(&rest);
        if available < 8 {
            return Err(ImprintError::BufferUnderflow { needed: 8, available });
        }
        let fieldspace_id = get_u32_le(&mut rest);
        let schema_hash = get_u32_le(&mut rest);
        assert(s.take(4) =~= s.subrange(0, 4));
        assert(s.skip(4).take(4) =~= s.subrange(4, 8));
        Ok((Self { fieldspace_id, schema_hash }, 8))
    }
}

impl Read for Header {
    fn read(bytes: Bytes) -> (r: Result<(Self, usize), ImprintError>)
        ensures
            outcome(r) == parse_header(contents(bytes)),
    {
        let ghost s = contents(bytes);
        let mut rest = bytes;
        let available = bytes_len(&rest);
        if available < 11 {
            return Err(ImprintError::BufferUnderflow { needed: 11, available });
        }
        let magic = get_u8(&mut rest);
        if magic != MAGIC {
            return Err(ImprintError::InvalidMagic(magic));
        }
        let version = get_u8(&mut rest);
        if version != VERSION {
            return Err(ImprintError::UnsupportedVersion(version));
        }
        let flags = Flags::new(get_u8(&mut rest));
        assert(contents(rest) =~= s.skip(3));
        let (schema_id, _) = SchemaId::read(rest)?;
        assert(s.skip(3).subrange(0, 4) =~= s.subrange(3, 7));
        assert(s.skip(3).subrange(4, 8) =~= s.subrange(7, 11));
        Ok((Self { flags, schema_id }, 11))
    }
}

impl Read for DirectoryEntry {
    fn read(bytes: Bytes) -> (r: Result<(Self, usize), ImprintError>)
        ensures
            outcome(r) == parse_entry(contents(bytes)),
    {
        let ghost s = contents(bytes);
        let mut rest = bytes;
        let available = bytes_len(&rest);
        if available < 9 {
            return Err(ImprintError::BufferUnderflow { needed: 9, available });
        }
        let id = get_u32_le(&mut rest);
        let code = get_u8(&mut rest);
        assert(code == s[4]);
        let type_code = TypeCode::try_from(code)?;
        assert(contents(rest) =~= s.skip(5));
        let offset = get_u32_le(&mut rest);
        assert(s.take(4) =~= s.subrange(0, 4));
        assert(s.skip(5).take(4) =~= s.subrange(5, 9));
        Ok((Self { id, type_code, offset }, 9))
    }
}

/// Whether a header, a directory and a payload meet the invariant of
/// records.
fn well_formed(header: Header, directory: &Vec<DirectoryEntry>, payload: &Bytes) -> (r: bool)
    ensures
        r == (RecordView { header, directory: directory@, payload: contents(*payload) }).wf(),
{
    let ghost view = RecordView { header, directory: directory@, payload: contents(*payload) };
    let len = bytes_len(payload);
    if directory.len() > u32::MAX as usize || len > isize::MAX as usize {
        return false;
    }
    let mut i: usize = 0;
    while i < directory.len()
        invariant
            i <= directory.len(),
            len == contents(*payload).len(),
            view == (RecordView { header, directory: directory@, payload: contents(*payload) }),
            forall|a: int, b: int| 0 <= a < b < i ==> directory@[a].id < directory@[b].id,
            forall|a: int, b: int| 0 <= a <= b < i ==> directory@[a].offset <= directory@[b].offset,
            forall|a: int| 0 <= a < i ==> directory@[a].offset <= len,
        decreases directory.len() - i,
    {
        let entry = &directory[i];
        if entry.offset as usize > len {
            return false;
        }
        if i > 0 {
            let before = &directory[i - 1];
            if before.id >= entry.id || before.offset > entry.offset {
                return false;
            }
        }
        i += 1;
    }
    true
}

impl Read for ImprintRecord {
    fn read(bytes: Bytes) -> (r: Result<(Self, usize), ImprintError>)
        ensures
            record_outcome(r) == parse_record(contents(bytes)),
    {
        let ghost s = contents(bytes);
        let total = bytes_len(&bytes);
        let mut rest = bytes.clone();
        let (header, _) = Header::read(bytes)?;
        advance(&mut rest, HEADER_BYTES);
        let ghost body = s.skip(11);
        let mut directory: Vec<DirectoryEntry> = Vec::new();
        if header.flags.has_field_directory() {
            let (count, count_size) = decode(rest.clone())?;
            proof {
                lemma_varint_minimal(body);
            }
            advance(&mut rest, count_size);
            let ghost entries = body.skip(count_size as int);
            let mut i: u32 = 0;
            while i < count
                invariant
                    i <= count,
                    s == contents(bytes),
                    parse_header(s) == Ok::<(Header, usize), ErrorView>((header, 11)),
                    header.flags.directory_flag(),
                    body == s.skip(11),
                    parse_varint(body) == Ok::<(u32, usize), ErrorView>((count, count_size)),
                    entries == body.skip(count_size as int),
                    parse_directory(entries, i as nat) == Ok::<Seq<DirectoryEntry>, ErrorView>(
                        directory@,
                    ),
                    9 * i <= entries.len(),
                    contents(rest) == entries.skip(9 * i),
                decreases count - i,
            {
                let entry = match DirectoryEntry::read(rest.clone()) {
                    Err(e) => {
                        proof {
                            lemma_directory_fails(entries, (i + 1) as nat, count as nat);
                        }
                        return Err(e);
                    },
                    Ok((entry, _)) => entry,
                };
                advance(&mut rest, DIR_ENTRY_BYTES);
                assert(contents(rest) =~= entries.skip(9 * (i + 1)));
                directory.push(entry);
                i += 1;
            }
            assert(contents(rest) =~= body.skip(count_size as int).skip(9 * count));
        }
        if !well_formed(header, &directory, &rest) {
            return Err(schema_error("record is not well formed"));
        }
        Ok((ImprintRecord::from_parts(header, directory, rest), total))
    }
}

/// Reads a varint and as many bytes as it says.
fn read_prefixed(bytes: Bytes) -> (r: Result<(Vec<u8>, usize), ImprintError>)
    ensures
        match parse_prefixed(contents(bytes)) {
            Ok((b, n)) => r matches Ok((v, m)) && v@ == b && m == n && n <= contents(bytes).len(),
            Err(e) => r matches Err(x) && x@ == e,
        },
{
    let ghost s = contents(bytes);
    let total = bytes_len(&bytes);
    let mut rest = bytes.clone();
    let (len, len_size) = decode(bytes)?;
    proof {
        lemma_varint_minimal(s);
    }
    advance(&mut rest, len_size);
    let available = bytes_len(&rest);
    if available < len as usize {
        return Err(ImprintError::BufferUnderflow { needed: len as usize, available });
    }
    let v = copy_to_vec(&mut rest, len as usize);
    assert(v@ =~= s.subrange(len_size as int, len_size + len));
    Ok((v, len_size + len as usize))
}

impl Value {
    /// Reads a value of the kind `type_code` from the head of `bytes`, with
    /// arrays nested at most `depth` deep.
    pub fn read_nested(type_code: TypeCode, bytes: Bytes, depth: usize) -> (r: Result<
        (Value, usize),
        ImprintError,
    >)
        ensures
            value_outcome(r) == parse_value(type_code, contents(bytes), depth as nat),
            r matches Ok((_, n)) ==> n <= contents(bytes).len(),
        decreases depth,
    {
        let ghost s = contents(bytes);
        let total = bytes_len(&bytes);
        let mut rest = bytes;
        match type_code {
            TypeCode::Null => Ok((Value::Null, 0)),
            TypeCode::Bool => {
                if bytes_len(&rest) == 0 {
                    return Err(ImprintError::BufferUnderflow { needed: 1, available: 0 });
                }
                let v = get_u8(&mut rest);
                if v == 0 {
                    Ok((Value::Bool(false), 1))
                } else if v == 1 {
                    Ok((Value::Bool(true), 1))
                } else {
                    Err(schema_error("invalid boolean value"))
                }
            },
            TypeCode::Int32 => {
                let available = bytes_len(&rest);
                if available < 4 {
                    return Err(ImprintError::BufferUnderflow { needed: 4, available });
                }
                let v = get_i32_le(&mut rest);
                Ok((Value::Int32(v), 4))
            },
            TypeCode::Int64 => {
                let available = bytes_len(&rest);
                if available < 8 {
                    return Err(ImprintError::BufferUnderflow { needed: 8, available });
                }
                let v = get_i64_le(&mut rest);
                Ok((Value::Int64(v), 8))
            },
            TypeCode::Float32 => {
                let available = bytes_len(&rest);
                if available < 4 {
                    return Err(ImprintError::BufferUnderflow { needed: 4, available });
                }
                let v = get_u32_le(&mut rest);
                Ok((Value::Float32(v), 4))
            },
            TypeCode::Float64 => {
                let available = bytes_len(&rest);
                if available < 8 {
                    return Err(ImprintError::BufferUnderflow { needed: 8, available });
                }
                let v = get_u64_le(&mut rest);
                Ok((Value::Float64(v), 8))
            },
            TypeCode::Bytes => {
                let (v, n) = read_prefixed(rest)?;
                Ok((Value::Bytes(v), n))
            },
            TypeCode::String => {
                let (v, n) = read_prefixed(rest)?;
                match string_from_utf8(v) {
                    None => Err(ImprintError::InvalidUtf8String),
                    Some(text) => {
                        proof {
                            vstd::utf8::encode_utf8_decode_utf8(text@);
                        }
                        Ok((Value::String(text), n))
                    },
                }
            },
            TypeCode::Array => {
                if depth == 0 {
                    return Err(schema_error("arrays are nested too deeply"));
                }
                if bytes_len(&rest) == 0 {
                    return Err(ImprintError::BufferUnderflow { needed: 1, available: 0 });
                }
                let code = get_u8(&mut rest);
                let item_type = TypeCode::try_from(code)?;
                let (count, count_size) = decode(rest.clone())?;
                proof {
                    lemma_varint_minimal(s.skip(1));
                }
                advance(&mut rest, count_size);
                let ghost tail = s.skip(1 + count_size);
                assert(contents(rest) =~= tail);
                let mut values: Vec<Value> = Vec::new();
                let mut used: usize = 0;
                let mut i: u32 = 0;
                assert(views_of(values@) =~= Seq::<ValueView>::empty());
                while i < count
                    invariant
                        i <= count,
                        depth > 0,
                        type_code == TypeCode::Array,
                        s == contents(bytes),
                        s.len() >= 1,
                        s.len() <= usize::MAX,
                        type_code_of(s[0]) == Some(item_type),
                        parse_varint(s.skip(1)) == Ok::<(u32, usize), ErrorView>(
                            (count, count_size),
                        ),
                        1 + count_size <= s.len(),
                        tail == s.skip(1 + count_size),
                        used <= tail.len(),
                        contents(rest) == tail.skip(used as int),
                        parse_items(item_type, tail, i as nat, (depth - 1) as nat) == Ok::<
                            (Seq<ValueView>, usize),
                            ErrorView,
                        >((views_of(values@), used)),
                    decreases count - i,
                {
                    let (value, size) = match Value::read_nested(
                        item_type,
                        rest.clone(),
                        depth - 1,
                    ) {
                        Err(e) => {
                            proof {
                                lemma_items_fail(
                                    item_type,
                                    tail,
                                    (i + 1) as nat,
                                    count as nat,
                                    (depth - 1) as nat,
                                );
                            }
                            return Err(e);
                        },
                        Ok(pair) => pair,
                    };
                    advance(&mut rest, size);
                    assert(contents(rest) =~= tail.skip(used + size));
                    assert(views_of(values@.push(value)) =~= views_of(values@).push(value@));
                    used += size;
                    values.push(value);
                    i += 1;
                }
                proof {
                    lemma_array_view(values);
                }
                Ok((Value::Array(values), 1 + count_size + used))
            },
            TypeCode::Row => {
                let (record, n) = ImprintRecord::read(rest)?;
                proof {
                    lemma_record_takes_all(s);
                }
                Ok((Value::Row(Box::new(record)), n))
            },
        }
    }
}

impl ValueRead for Value {
    fn read(type_code: TypeCode, bytes: Bytes) -> (r: Result<(Self, usize), ImprintError>)
        ensures
            value_outcome(r) == parse_value(type_code, contents(bytes), MAX_DEPTH as nat),
            r matches Ok((_, n)) ==> n <= contents(bytes).len(),
    {
        Value::read_nested(type_code, bytes, MAX_DEPTH)
    }
}

/// The result of looking a field up, with the value and the error taken by
/// their views.
pub open spec fn field_outcome(r: Result<Option<Value>, ImprintError>) -> Result<
    Option<ValueView>,
    ErrorView,
> {
    match r {
        Ok(Some(v)) => Ok(Some(v@)),
        Ok(None) => Ok(None),
        Err(e) => Err(e@),
    }
}

impl ImprintRecord {
    /// The value of the field `field_id`, read from the field's bytes;
    /// `None` when the record has no such field.
    pub fn get_value(&self, field_id: u32) -> (r: Result<Option<Value>, ImprintError>)
        ensures
            field_outcome(r) == self@.value_of(field_id),
    {
        match self.find(field_id) {
            None => Ok(None),
            Some(idx) => {
                let type_code = self.directory()[idx].type_code;
                let (value, _) = Value::read(type_code, self.field_bytes(idx))?;
                Ok(Some(value))
            },
        }
    }
}

} // verus!
