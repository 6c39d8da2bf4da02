//! What holds of the library as a whole: laws that relate several
//! operations, stated over the models of records and values and proved from
//! the definitions.
//!
//! In this order: what is written is read back unchanged (entries, headers,
//! records, values); what a builder builds; what a projection keeps; what a
//! merge keeps.

use crate::buffer::{le_bytes, le_value, lemma_le_round_trip, pattern_of};
use crate::error::ErrorView;
use crate::ops::{
    combined, field_of, has_id, lemma_field_of, lemma_fields_ascending, lemma_merged_ascending,
    lemma_project_fits, lemma_selected_ascending, merge_view, merged, project_view, selected,
};
use crate::record::{
    ascending, fits, lemma_layout_fields, lemma_layout_push, payload_of, Field, RecordView,
};
use crate::types::{lemma_type_code_bytes, DirectoryEntry, Header, SchemaId, TypeCode};
use crate::value::ValueView;
use crate::varint::{lemma_varint_round_trip, parse_varint, varint};
use crate::wire::{
    checked_record, directory_section, directory_wire, encodable, entry_wire, header_wire,
    items_encodable, items_wire, lemma_directory_wire_len, lemma_fixed_lengths, parse_directory,
    parse_entry, parse_header, parse_items, parse_prefixed, parse_record, parse_value, record_wire,
    value_wire, MAX_DEPTH,
};
use crate::writer::{built, lemma_field_list, lists};
use vstd::prelude::*;

verus! {

/// Four little-endian bytes of a 32-bit number give the number back.
pub proof fn lemma_le32(x: u32)
    ensures
        le_bytes(x as nat, 4).len() == 4,
        le_value(le_bytes(x as nat, 4)) == x,
{
    lemma_le_round_trip(x as nat, 4);
    reveal_with_fuel(vstd::arithmetic::power::pow, 5);
    assert(vstd::arithmetic::power::pow(256, 4) == 0x1_0000_0000);
}

/// Eight little-endian bytes of a 64-bit number give the number back.
pub proof fn lemma_le64(x: u64)
    ensures
        le_bytes(x as nat, 8).len() == 8,
        le_value(le_bytes(x as nat, 8)) == x,
{
    lemma_le_round_trip(x as nat, 8);
    reveal_with_fuel(vstd::arithmetic::power::pow, 9);
    assert(vstd::arithmetic::power::pow(256, 8) == 0x1_0000_0000_0000_0000);
}

/// A directory entry that is written and read again comes back unchanged,
/// whatever follows it.
pub proof fn lemma_entry_round_trip(e: DirectoryEntry, rest: Seq<u8>)
    ensures
        parse_entry(entry_wire(e) + rest) == Ok::<(DirectoryEntry, usize), ErrorView>((e, 9)),
{
    let s = entry_wire(e) + rest;
    lemma_le32(e.id);
    lemma_le32(e.offset);
    lemma_type_code_bytes(e.type_code, 0);
    assert(s.subrange(0, 4) =~= le_bytes(e.id as nat, 4));
    assert(s.subrange(5, 9) =~= le_bytes(e.offset as nat, 4));
    assert(s[4] == e.type_code.wire_code());
}

/// A header that is written and read again comes back unchanged, whatever
/// follows it.
pub proof fn lemma_header_round_trip(h: Header, rest: Seq<u8>)
    ensures
        parse_header(header_wire(h) + rest) == Ok::<(Header, usize), ErrorView>((h, 11)),
        header_wire(h).len() == 11,
{
    let s = header_wire(h) + rest;
    lemma_le32(h.schema_id.fieldspace_id);
    lemma_le32(h.schema_id.schema_hash);
    assert(s.subrange(3, 7) =~= le_bytes(h.schema_id.fieldspace_id as nat, 4));
    assert(s.subrange(7, 11) =~= le_bytes(h.schema_id.schema_hash as nat, 4));
    assert(s[0] == crate::types::MAGIC && s[1] == crate::types::VERSION && s[2] == h.flags.0);
}

/// The bytes of entry `i` within the wire form of a directory.
pub proof fn lemma_directory_wire_at(d: Seq<DirectoryEntry>, i: int)
    requires
        0 <= i < d.len(),
    ensures
        directory_wire(d).len() == 9 * d.len(),
        directory_wire(d).subrange(9 * i, 9 * i + 9) == entry_wire(d[i]),
    decreases d.len(),
{
    lemma_fixed_lengths();
    lemma_directory_wire_len(d);
    lemma_directory_wire_len(d.drop_last());
    if i < d.len() - 1 {
        lemma_directory_wire_at(d.drop_last(), i);
        assert(directory_wire(d).subrange(9 * i, 9 * i + 9) =~= directory_wire(
            d.drop_last(),
        ).subrange(9 * i, 9 * i + 9));
    } else {
        assert(directory_wire(d).subrange(9 * i, 9 * i + 9) =~= entry_wire(d.last()));
    }
}

/// The first `k` entries of a directory that was written are read back
/// unchanged, whatever follows the directory.
pub proof fn lemma_directory_round_trip(d: Seq<DirectoryEntry>, rest: Seq<u8>, k: nat)
    requires
        k <= d.len(),
    ensures
        parse_directory(directory_wire(d) + rest, k) == Ok::<Seq<DirectoryEntry>, ErrorView>(
            d.take(k as int),
        ),
    decreases k,
{
    let s = directory_wire(d) + rest;
    if k == 0 {
        assert(d.take(0) =~= Seq::<DirectoryEntry>::empty());
    } else {
        let i = (k - 1) as int;
        lemma_directory_round_trip(d, rest, (k - 1) as nat);
        lemma_directory_wire_at(d, i);
        lemma_fixed_lengths();
        let tail = s.skip(9 * i + 9);
        assert(s.skip(9 * i) =~= entry_wire(d[i]) + tail) by {
            assert(s.skip(9 * i).subrange(0, 9) =~= directory_wire(d).subrange(9 * i, 9 * i + 9));
        }
        lemma_entry_round_trip(d[i], tail);
        assert(d.take(k as int) =~= d.take(i).push(d[i]));
    }
}

/// A directory that is written after its length is read back unchanged, and
/// what follows it is left over.
pub proof fn lemma_section_round_trip(d: Seq<DirectoryEntry>, payload: Seq<u8>)
    requires
        d.len() <= u32::MAX,
    ensures
        ({
            let body = varint(d.len()) + directory_wire(d) + payload;
            let n = varint(d.len()).len() as int;
            &&& parse_varint(body) == Ok::<(u32, usize), ErrorView>((d.len() as u32, n as usize))
            &&& parse_directory(body.skip(n), d.len()) == Ok::<Seq<DirectoryEntry>, ErrorView>(d)
            &&& body.skip(n).skip(9 * d.len() as int) == payload
        }),
{
    let count = d.len() as u32;
    let after = directory_wire(d) + payload;
    let body = varint(d.len()) + directory_wire(d) + payload;
    let n = varint(d.len()).len() as int;
    assert(body =~= varint(count as nat) + after);
    lemma_varint_round_trip(count, after);
    assert(body.skip(n) =~= after);
    lemma_directory_round_trip(d, payload, d.len());
    assert(d.take(d.len() as int) =~= d);
    lemma_directory_wire_len(d);
    assert(after.skip(9 * d.len() as int) =~= payload);
}

/// A record that is written and read again comes back unchanged, and the
/// read takes all the bytes.
///
/// This holds of every well-formed record whose directory is announced by
/// its flags: a record with entries but without the directory flag is
/// written without its directory.
pub proof fn lemma_record_round_trip(r: RecordView)
    requires
        r.wf(),
        r.header.flags.directory_flag() || r.directory.len() == 0,
        record_wire(r).len() <= usize::MAX,
    ensures
        parse_record(record_wire(r)) == Ok::<(RecordView, usize), ErrorView>(
            (r, record_wire(r).len() as usize),
        ),
{
    let s = record_wire(r);
    let rest = directory_section(r) + r.payload;
    assert(s =~= header_wire(r.header) + rest);
    lemma_header_round_trip(r.header, rest);
    let body = s.skip(11);
    assert(body =~= rest);
    let total = s.len();
    assert(checked_record(r.header, r.directory, r.payload, total) == Ok::<
        (RecordView, usize),
        ErrorView,
    >((r, total as usize)));
    if r.header.flags.directory_flag() {
        lemma_section_round_trip(r.directory, r.payload);
        assert(body =~= varint(r.directory.len()) + directory_wire(r.directory) + r.payload);
    } else {
        assert(r.directory =~= Seq::<DirectoryEntry>::empty());
        assert(body =~= r.payload);
    }
}

/// No row is anywhere in the value.
pub open spec fn row_free(v: ValueView) -> bool
    decreases v,
{
    match v {
        ValueView::Row(_) => false,
        ValueView::Array(items) => items_row_free(items, items.len()),
        _ => true,
    }
}

/// No row is anywhere in the first `n` of `items`.
pub open spec fn items_row_free(items: Seq<ValueView>, n: nat) -> bool
    decreases items, n,
{
    if n == 0 || n > items.len() {
        true
    } else {
        items_row_free(items, (n - 1) as nat) && row_free(items[n - 1])
    }
}

/// Whether the arrays of the value are nested at most `depth` deep.
pub open spec fn nested_within(v: ValueView, depth: nat) -> bool
    decreases v,
{
    match v {
        ValueView::Array(items) => depth > 0 && items_nested_within(
            items,
            items.len(),
            (depth - 1) as nat,
        ),
        _ => true,
    }
}

/// Whether the arrays of each of the first `n` of `items` are nested at most
/// `depth` deep.
pub open spec fn items_nested_within(items: Seq<ValueView>, n: nat, depth: nat) -> bool
    decreases items, n,
{
    if n == 0 || n > items.len() {
        true
    } else {
        items_nested_within(items, (n - 1) as nat, depth) && nested_within(items[n - 1], depth)
    }
}

/// The items of an array that has a wire form have one too, are of the
/// kind of the first, and share what holds of all the items.
pub proof fn lemma_item(items: Seq<ValueView>, n: nat, depth: nat, i: int)
    requires
        0 <= i < n <= items.len(),
    ensures
        items_encodable(items, n) ==> encodable(items[i]) && items[i].type_code()
            == items[0].type_code(),
        items_row_free(items, n) ==> row_free(items[i]),
        items_nested_within(items, n, depth) ==> nested_within(items[i], depth),
    decreases n,
{
    if i < n - 1 {
        lemma_item(items, (n - 1) as nat, depth, i);
    }
}

/// The wire forms of the first `k` items are the head of the wire forms of
/// the first `n`.
pub proof fn lemma_items_wire_prefix(items: Seq<ValueView>, k: nat, n: nat)
    requires
        k <= n <= items.len(),
    ensures
        items_wire(items, k).len() <= items_wire(items, n).len(),
        items_wire(items, n).take(items_wire(items, k).len() as int) == items_wire(items, k),
    decreases n,
{
    if k < n {
        lemma_items_wire_prefix(items, k, (n - 1) as nat);
        let shorter = items_wire(items, (n - 1) as nat);
        assert(items_wire(items, n).take(items_wire(items, k).len() as int) =~= shorter.take(
            items_wire(items, k).len() as int,
        ));
    } else {
        assert(items_wire(items, n).take(items_wire(items, n).len() as int) =~= items_wire(
            items,
            n,
        ));
    }
}

/// Reading a value that holds no array does not depend on how deep arrays
/// may be nested.
pub proof fn lemma_flat_depth(kind: TypeCode, s: Seq<u8>, depth: nat)
    requires
        kind != TypeCode::Array,
    ensures
        parse_value(kind, s, depth) == parse_value(kind, s, 0),
{
}

/// A 32-bit number in two's complement that is written and read again
/// comes back unchanged.
pub proof fn lemma_int32_round_trip(n: i32, rest: Seq<u8>)
    ensures
        parse_value(TypeCode::Int32, value_wire(ValueView::Int32(n)) + rest, 0) == Ok::<
            (ValueView, usize),
            ErrorView,
        >((ValueView::Int32(n), 4)),
        value_wire(ValueView::Int32(n)).len() == 4,
{
    let s = value_wire(ValueView::Int32(n)) + rest;
    let p = pattern_of(n as int, 0x1_0000_0000);
    lemma_le32(p as u32);
    assert(s.take(4) =~= le_bytes(p, 4));
}

/// A 64-bit number in two's complement that is written and read again
/// comes back unchanged.
pub proof fn lemma_int64_round_trip(n: i64, rest: Seq<u8>)
    ensures
        parse_value(TypeCode::Int64, value_wire(ValueView::Int64(n)) + rest, 0) == Ok::<
            (ValueView, usize),
            ErrorView,
        >((ValueView::Int64(n), 8)),
        value_wire(ValueView::Int64(n)).len() == 8,
{
    let s = value_wire(ValueView::Int64(n)) + rest;
    let p = pattern_of(n as int, 0x1_0000_0000_0000_0000);
    lemma_le64(p as u64);
    assert(s.take(8) =~= le_bytes(p, 8));
}

/// The bit patterns of floating-point numbers that are written and read
/// again come back unchanged.
pub proof fn lemma_float_round_trip(narrow: u32, wide: u64, rest: Seq<u8>)
    ensures
        parse_value(TypeCode::Float32, value_wire(ValueView::Float32(narrow)) + rest, 0) == Ok::<
            (ValueView, usize),
            ErrorView,
        >((ValueView::Float32(narrow), 4)),
        parse_value(TypeCode::Float64, value_wire(ValueView::Float64(wide)) + rest, 0) == Ok::<
            (ValueView, usize),
            ErrorView,
        >((ValueView::Float64(wide), 8)),
        value_wire(ValueView::Float32(narrow)).len() == 4,
        value_wire(ValueView::Float64(wide)).len() == 8,
{
    lemma_le32(narrow);
    lemma_le64(wide);
    assert((value_wire(ValueView::Float32(narrow)) + rest).take(4) =~= le_bytes(narrow as nat, 4));
    assert((value_wire(ValueView::Float64(wide)) + rest).take(8) =~= le_bytes(wide as nat, 8));
}

/// Bytes that are written after their length are read back unchanged,
/// whatever follows them.
pub proof fn lemma_prefixed_round_trip(b: Seq<u8>, rest: Seq<u8>)
    requires
        b.len() <= u32::MAX,
        varint(b.len()).len() + b.len() + rest.len() <= usize::MAX,
    ensures
        parse_prefixed(varint(b.len()) + b + rest) == Ok::<(Seq<u8>, usize), ErrorView>(
            (b, (varint(b.len()).len() + b.len()) as usize),
        ),
        varint(b.len()).len() <= 5,
{
    let s = varint(b.len()) + b + rest;
    assert(s =~= varint(b.len()) + (b + rest));
    lemma_varint_round_trip(b.len() as u32, b + rest);
    let n = varint(b.len()).len() as int;
    assert(s.subrange(n, n + b.len()) =~= b);
}

/// A string that is written and read again comes back unchanged.
pub proof fn lemma_string_round_trip(chars: Seq<char>, rest: Seq<u8>)
    requires
        encodable(ValueView::String(chars)),
        value_wire(ValueView::String(chars)).len() + rest.len() <= usize::MAX,
    ensures
        parse_value(TypeCode::String, value_wire(ValueView::String(chars)) + rest, 0) == Ok::<
            (ValueView, usize),
            ErrorView,
        >((ValueView::String(chars), value_wire(ValueView::String(chars)).len() as usize)),
{
    let b = vstd::utf8::encode_utf8(chars);
    lemma_prefixed_round_trip(b, rest);
    vstd::utf8::encode_utf8_valid_utf8(chars);
    vstd::utf8::encode_utf8_decode_utf8(chars);
}

/// The first `k` items of an array without rows that are written and read
/// again come back unchanged, whatever follows the items.
pub proof fn lemma_items_round_trip(items: Seq<ValueView>, rest: Seq<u8>, k: nat, depth: nat)
    requires
        k <= items.len(),
        items.len() >= 1,
        items_encodable(items, items.len()),
        items_row_free(items, items.len()),
        items_nested_within(items, items.len(), depth),
        items_wire(items, items.len()).len() + rest.len() <= usize::MAX,
    ensures
        parse_items(items[0].type_code(), items_wire(items, items.len()) + rest, k, depth) == Ok::<
            (Seq<ValueView>, usize),
            ErrorView,
        >((items.take(k as int), items_wire(items, k).len() as usize)),
    decreases items, k,
{
    let n = items.len();
    let kind = items[0].type_code();
    let all = items_wire(items, n);
    let s = all + rest;
    if k == 0 {
        assert(items.take(0) =~= Seq::<ValueView>::empty());
    } else {
        let i = (k - 1) as int;
        lemma_items_round_trip(items, rest, (k - 1) as nat, depth);
        lemma_item(items, n, depth, i);
        lemma_items_wire_prefix(items, (k - 1) as nat, n);
        lemma_items_wire_prefix(items, k, n);
        let before = items_wire(items, (k - 1) as nat);
        let here = value_wire(items[i]);
        let through = items_wire(items, k);
        assert(through == before + here);
        let after = s.skip(through.len() as int);
        assert(s.skip(before.len() as int) =~= here + after) by {
            assert(all.take(through.len() as int) == through);
            assert(all.take(before.len() as int) == before);
            assert forall|j: int| 0 <= j < here.len() implies s[before.len() + j] == here[j] by {
                assert(all.take(through.len() as int)[before.len() + j] == through[before.len()
                    + j]);
            }
        }
        lemma_value_round_trip(items[i], after, depth);
        assert(items.take(k as int) =~= items.take(i).push(items[i]));
    }
}

/// An array without rows that is written and read again comes back
/// unchanged.
pub proof fn lemma_array_round_trip(items: Seq<ValueView>, rest: Seq<u8>, depth: nat)
    requires
        encodable(ValueView::Array(items)),
        row_free(ValueView::Array(items)),
        nested_within(ValueView::Array(items), depth),
        value_wire(ValueView::Array(items)).len() + rest.len() <= usize::MAX,
    ensures
        parse_value(TypeCode::Array, value_wire(ValueView::Array(items)) + rest, depth) == Ok::<
            (ValueView, usize),
            ErrorView,
        >((ValueView::Array(items), value_wire(ValueView::Array(items)).len() as usize)),
    decreases items, items.len() + 1,
{
    let s = value_wire(ValueView::Array(items)) + rest;
    let n = items.len();
    let kind = items[0].type_code();
    let tail = items_wire(items, n) + rest;
    let counted = varint(n) + tail;
    assert(s =~= seq![kind.wire_code()] + counted);
    assert(s[0] == kind.wire_code());
    lemma_type_code_bytes(kind, 0);
    assert(s.skip(1) =~= counted);
    lemma_varint_round_trip(n as u32, tail);
    let used = varint(n).len();
    assert(s.skip(1 + used as int) =~= tail);
    lemma_items_round_trip(items, rest, n, (depth - 1) as nat);
    assert(items.take(n as int) =~= items);
}

/// A value without rows that is written and read again comes back
/// unchanged, with the length of its wire form, whatever follows the wire
/// form.
pub proof fn lemma_value_round_trip(v: ValueView, rest: Seq<u8>, depth: nat)
    requires
        encodable(v),
        row_free(v),
        nested_within(v, depth),
        value_wire(v).len() + rest.len() <= usize::MAX,
    ensures
        parse_value(v.type_code(), value_wire(v) + rest, depth) == Ok::<
            (ValueView, usize),
            ErrorView,
        >((v, value_wire(v).len() as usize)),
    decreases v, 0nat,
{
    if !(v is Array) {
        lemma_flat_depth(v.type_code(), value_wire(v) + rest, depth);
    }
    match v {
        ValueView::Null => {},
        ValueView::Bool(b) => {
            assert((value_wire(v) + rest)[0] == value_wire(v)[0]);
        },
        ValueView::Int32(n) => {
            lemma_int32_round_trip(n, rest);
        },
        ValueView::Int64(n) => {
            lemma_int64_round_trip(n, rest);
        },
        ValueView::Float32(bits) => {
            lemma_float_round_trip(bits, 0, rest);
        },
        ValueView::Float64(bits) => {
            lemma_float_round_trip(0, bits, rest);
        },
        ValueView::Bytes(b) => {
            lemma_prefixed_round_trip(b, rest);
        },
        ValueView::String(chars) => {
            lemma_string_round_trip(chars, rest);
        },
        ValueView::Array(items) => {
            lemma_array_round_trip(items, rest, depth);
        },
        ValueView::Row(_) => {},
    }
}

/// Whether a value comes back unchanged when it is written to a field and
/// read again: it has a wire form whose arrays are nested no deeper than can
/// be read, and it is either without rows or itself a row that comes back
/// unchanged.
pub open spec fn readable(v: ValueView) -> bool {
    &&& encodable(v)
    &&& nested_within(v, MAX_DEPTH as nat)
    &&& value_wire(v).len() <= usize::MAX
    &&& match v {
        ValueView::Row(r) => r.wf() && (r.header.flags.directory_flag() || r.directory.len() == 0),
        _ => row_free(v),
    }
}

/// A field whose bytes are the wire form of a readable value has that
/// value.
pub proof fn lemma_readable_field(r: RecordView, id: u32, v: ValueView)
    requires
        r.contains(id),
        r.type_code(id) == v.type_code(),
        r.raw(id) == value_wire(v),
        readable(v),
    ensures
        r.value_of(id) == Ok::<Option<ValueView>, ErrorView>(Some(v)),
{
    assert(value_wire(v) + Seq::<u8>::empty() =~= value_wire(v));
    match v {
        ValueView::Row(inner) => {
            lemma_record_round_trip(inner);
        },
        _ => {
            lemma_value_round_trip(v, Seq::empty(), MAX_DEPTH as nat);
        },
    }
}

/// The value of a field whose bytes are the wire form of a value without
/// rows, and of the same field with more bytes after it: both are that
/// value.
pub proof fn lemma_field_value(r: RecordView, id: u32, v: ValueView, more: Seq<u8>)
    requires
        r.contains(id),
        r.type_code(id) == v.type_code(),
        r.raw(id) == value_wire(v) + more,
        encodable(v),
        row_free(v),
        nested_within(v, MAX_DEPTH as nat),
        r.raw(id).len() <= usize::MAX,
    ensures
        r.value_of(id) == Ok::<Option<ValueView>, ErrorView>(Some(v)),
{
    lemma_value_round_trip(v, more, MAX_DEPTH as nat);
}

/// Looking a field up in a well-formed record is looking it up among the
/// record's fields.
pub proof fn lemma_lookup(r: RecordView, id: u32)
    requires
        r.wf(),
    ensures
        r.contains(id) <==> has_id(r.fields(), id),
        r.contains(id) ==> r.raw(id) == field_of(r.fields(), id).bytes && r.type_code(id)
            == field_of(r.fields(), id).type_code && field_of(r.fields(), id).id == id,
{
    let fields = r.fields();
    lemma_fields_ascending(r);
    if r.contains(id) {
        let i = r.position(id);
        assert(fields[i].id == id);
        r.lemma_position(i);
        lemma_field_of(fields, i);
    }
    if has_id(fields, id) {
        let k = choose|k: int| 0 <= k < fields.len() && fields[k].id == id;
        assert(r.directory[k].id == id);
    }
}

/// What a builder builds from fields that fit in one record: a well-formed
/// record whose directory is strictly ascending by id and holds the ids
/// that were added; each entry has the kind of its value, and as offset the
/// length of the wire forms of the values before it; the bytes of each field
/// are the wire form of its value, and the payload holds the fields and
/// nothing else.
pub proof fn lemma_built(schema_id: SchemaId, m: Map<u32, ValueView>, fields: Seq<Field>, id: u32)
    requires
        lists(fields, m),
        fits(fields),
    ensures
        built(schema_id, m).wf(),
        built(schema_id, m).packed(),
        built(schema_id, m).header.flags.directory_flag(),
        built(schema_id, m).header.schema_id == schema_id,
        built(schema_id, m).fields() == fields,
        built(schema_id, m).contains(id) <==> m.contains_key(id),
        m.contains_key(id) ==> built(schema_id, m).type_code(id) == m[id].type_code() && built(
            schema_id,
            m,
        ).raw(id) == crate::wire::value_wire(m[id]),
{
    let r = built(schema_id, m);
    lemma_field_list(fields, m);
    lemma_layout_fields(r.header, fields);
    lemma_lookup(r, id);
    if has_id(fields, id) {
        let k = choose|k: int| 0 <= k < fields.len() && fields[k].id == id;
        lemma_field_of(fields, k);
    }
}

/// A record that was built gives back every readable value that was added
/// to it.
pub proof fn lemma_built_value(
    schema_id: SchemaId,
    m: Map<u32, ValueView>,
    fields: Seq<Field>,
    id: u32,
)
    requires
        lists(fields, m),
        fits(fields),
        m.contains_key(id),
        readable(m[id]),
    ensures
        built(schema_id, m).value_of(id) == Ok::<Option<ValueView>, ErrorView>(Some(m[id])),
{
    lemma_built(schema_id, m, fields, id);
    lemma_readable_field(built(schema_id, m), id, m[id]);
}

/// A selection holds the fields that are asked for, as they are.
pub proof fn lemma_selected_lookup(fields: Seq<Field>, ids: Set<u32>, id: u32)
    requires
        ascending(fields),
    ensures
        has_id(selected(fields, ids), id) <==> has_id(fields, id) && ids.contains(id),
        has_id(selected(fields, ids), id) ==> field_of(selected(fields, ids), id) == field_of(
            fields,
            id,
        ),
    decreases fields.len(),
{
    let sel = selected(fields, ids);
    lemma_selected_ascending(fields, ids);
    if fields.len() > 0 {
        let init = fields.drop_last();
        let last = fields.last();
        let n = fields.len() - 1;
        lemma_selected_lookup(init, ids, id);
        lemma_selected_ascending(init, ids);
        let sel0 = selected(init, ids);
        assert(fields[n] == last);
        if has_id(sel, id) {
            let k = choose|k: int| 0 <= k < sel.len() && sel[k].id == id;
            lemma_field_of(sel, k);
            if k < sel0.len() {
                assert(sel[k] == sel0[k]);
                assert(has_id(sel0, id));
                lemma_field_of(sel0, k);
                let w = choose|w: int| 0 <= w < init.len() && init[w].id == id;
                assert(fields[w] == init[w]);
                lemma_field_of(fields, w);
                lemma_field_of(init, w);
            } else {
                assert(sel[k] == last);
                lemma_field_of(fields, n);
            }
        }
        if has_id(fields, id) && ids.contains(id) {
            let w = choose|w: int| 0 <= w < fields.len() && fields[w].id == id;
            if w < n {
                assert(init[w].id == id);
                assert(has_id(init, id));
                let k = choose|k: int| 0 <= k < sel0.len() && sel0[k].id == id;
                assert(sel[k] == sel0[k]);
            } else {
                assert(sel == sel0.push(last));
                assert(sel[sel0.len() as int] == last);
            }
        }
    }
}

/// The directory of a projection holds the ids that are asked for and that
/// the record holds, in ascending order.
pub proof fn lemma_project_ids(r: RecordView, ids: Set<u32>, id: u32)
    requires
        r.wf(),
    ensures
        project_view(r, ids).wf(),
        project_view(r, ids).contains(id) <==> r.contains(id) && ids.contains(id),
{
    lemma_project_fits(r, ids);
    lemma_fields_ascending(r);
    lemma_selected_lookup(r.fields(), ids, id);
    lemma_lookup(r, id);
    lemma_lookup(project_view(r, ids), id);
}

/// A projection keeps the bytes and the kind of every field that it holds.
pub proof fn lemma_project_raw(r: RecordView, ids: Set<u32>, id: u32)
    requires
        r.wf(),
        r.contains(id),
        ids.contains(id),
    ensures
        project_view(r, ids).contains(id),
        project_view(r, ids).raw(id) == r.raw(id),
        project_view(r, ids).type_code(id) == r.type_code(id),
{
    lemma_project_fits(r, ids);
    lemma_fields_ascending(r);
    lemma_selected_lookup(r.fields(), ids, id);
    lemma_lookup(r, id);
    lemma_lookup(project_view(r, ids), id);
}

/// A projection gives the same value as the record for every id that is
/// asked for, and nothing for the others. So a projection onto all the ids
/// of a record gives the same value as the record for every id.
pub proof fn lemma_project_values(r: RecordView, ids: Set<u32>, id: u32)
    requires
        r.wf(),
    ensures
        ids.contains(id) || !r.contains(id) ==> project_view(r, ids).value_of(id) == r.value_of(
            id,
        ),
        !ids.contains(id) ==> project_view(r, ids).value_of(id) == Ok::<
            Option<ValueView>,
            ErrorView,
        >(None),
{
    lemma_project_ids(r, ids, id);
    if r.contains(id) && ids.contains(id) {
        lemma_project_raw(r, ids, id);
    }
}

/// What a sequence without its last field holds of an id.
pub proof fn lemma_drop_last_lookup(fields: Seq<Field>, id: u32)
    requires
        ascending(fields),
        fields.len() > 0,
    ensures
        has_id(fields, id) <==> has_id(fields.drop_last(), id) || fields.last().id == id,
        fields.last().id == id ==> field_of(fields, id) == fields.last() && !has_id(
            fields.drop_last(),
            id,
        ),
        has_id(fields.drop_last(), id) ==> field_of(fields, id) == field_of(
            fields.drop_last(),
            id,
        ),
{
    let init = fields.drop_last();
    let n = fields.len() - 1;
    assert(fields[n] == fields.last());
    if has_id(init, id) {
        let k = choose|k: int| 0 <= k < init.len() && init[k].id == id;
        assert(fields[k] == init[k]);
        assert(fields[k].id < fields[n].id);
        lemma_field_of(fields, k);
        lemma_field_of(init, k);
    }
    if fields.last().id == id {
        lemma_field_of(fields, n);
    }
    if has_id(fields, id) {
        let k = choose|k: int| 0 <= k < fields.len() && fields[k].id == id;
        if k < n {
            assert(init[k].id == id);
        }
    }
}

/// What an ascending sequence with one more field holds of an id.
pub proof fn lemma_push_lookup(fields: Seq<Field>, top: Field, id: u32)
    requires
        ascending(fields.push(top)),
    ensures
        has_id(fields.push(top), id) <==> has_id(fields, id) || top.id == id,
        top.id == id ==> field_of(fields.push(top), id) == top,
        has_id(fields, id) ==> field_of(fields.push(top), id) == field_of(fields, id),
{
    let all = fields.push(top);
    assert(all.drop_last() =~= fields);
    assert(all.last() == top);
    lemma_drop_last_lookup(all, id);
}

/// A merge holds a field for each id of the two sequences: where both hold
/// the id, the field of the first [`combined`] with that of the second;
/// else the field of the one that holds it.
pub proof fn lemma_merged_lookup(a: Seq<Field>, b: Seq<Field>, filter: bool, id: u32)
    requires
        ascending(a),
        ascending(b),
    ensures
        has_id(merged(a, b, filter), id) <==> has_id(a, id) || has_id(b, id),
        has_id(a, id) && has_id(b, id) ==> field_of(merged(a, b, filter), id) == combined(
            field_of(a, id),
            field_of(b, id),
            filter,
        ),
        has_id(a, id) && !has_id(b, id) ==> field_of(merged(a, b, filter), id) == field_of(a, id),
        !has_id(a, id) && has_id(b, id) ==> field_of(merged(a, b, filter), id) == field_of(b, id),
    decreases a.len() + b.len(),
{
    let m = merged(a, b, filter);
    lemma_merged_ascending(a, b, filter);
    if a.len() == 0 || b.len() == 0 {
        if a.len() == 0 && has_id(a, id) {
            let k = choose|k: int| 0 <= k < a.len() && a[k].id == id;
        }
        if b.len() == 0 && has_id(b, id) {
            let k = choose|k: int| 0 <= k < b.len() && b[k].id == id;
        }
    } else {
        let a0 = a.drop_last();
        let b0 = b.drop_last();
        let na = a.len() - 1;
        let nb = b.len() - 1;
        assert(a[na] == a.last() && b[nb] == b.last());
        let (ra, rb, top) = if a.last().id > b.last().id {
            (a0, b, a.last())
        } else if a.last().id < b.last().id {
            (a, b0, b.last())
        } else {
            (a0, b0, combined(a.last(), b.last(), filter))
        };
        let rest = merged(ra, rb, filter);
        assert(m == rest.push(top));
        lemma_merged_lookup(ra, rb, filter, id);
        lemma_merged_ascending(ra, rb, filter);
        // what the shortened sequences hold of `id`
        assert(has_id(a, id) <==> has_id(a0, id) || a.last().id == id) by {
            lemma_drop_last_lookup(a, id);
        }
        assert(has_id(b, id) <==> has_id(b0, id) || b.last().id == id) by {
            lemma_drop_last_lookup(b, id);
        }
        lemma_drop_last_lookup(a, id);
        lemma_drop_last_lookup(b, id);
        lemma_push_lookup(rest, top, id);
    }
}

/// The merge of two sequences that share no id has as many fields as both
/// together.
pub proof fn lemma_merged_disjoint(a: Seq<Field>, b: Seq<Field>, filter: bool)
    requires
        ascending(a),
        ascending(b),
        forall|id: u32| !(has_id(a, id) && has_id(b, id)),
    ensures
        merged(a, b, filter).len() == a.len() + b.len(),
    decreases a.len() + b.len(),
{
    if a.len() > 0 && b.len() > 0 {
        let na = a.len() - 1;
        let nb = b.len() - 1;
        assert(has_id(a, a[na].id) && has_id(b, b[nb].id));
        let (ra, rb) = if a.last().id > b.last().id {
            (a.drop_last(), b)
        } else {
            (a, b.drop_last())
        };
        assert forall|id: u32| !(has_id(ra, id) && has_id(rb, id)) by {
            if has_id(ra, id) && has_id(rb, id) {
                let x = choose|x: int| 0 <= x < ra.len() && ra[x].id == id;
                let y = choose|y: int| 0 <= y < rb.len() && rb[y].id == id;
                assert(a[x].id == id && b[y].id == id);
                assert(has_id(a, id) && has_id(b, id));
            }
        }
        lemma_merged_disjoint(ra, rb, filter);
    }
}

/// A merge that filters duplicates takes no more bytes than one that keeps
/// them.
pub proof fn lemma_merged_filtered_is_shorter(a: Seq<Field>, b: Seq<Field>)
    ensures
        payload_of(merged(a, b, true)).len() <= payload_of(merged(a, b, false)).len(),
        merged(a, b, true).len() == merged(a, b, false).len(),
    decreases a.len() + b.len(),
{
    if a.len() > 0 && b.len() > 0 {
        let (ra, rb) = if a.last().id > b.last().id {
            (a.drop_last(), b)
        } else if a.last().id < b.last().id {
            (a, b.drop_last())
        } else {
            (a.drop_last(), b.drop_last())
        };
        lemma_merged_filtered_is_shorter(ra, rb);
        let short = merged(ra, rb, true);
        let long = merged(ra, rb, false);
        lemma_layout_push(short, merged(a, b, true).last());
        lemma_layout_push(long, merged(a, b, false).last());
        assert(merged(a, b, true) =~= short.push(merged(a, b, true).last()));
        assert(merged(a, b, false) =~= long.push(merged(a, b, false).last()));
    }
}

/// All but the last field of a merge that filters duplicates take no more
/// bytes than all but the last field of the merge that keeps them.
pub proof fn lemma_merged_prefix_shorter(a: Seq<Field>, b: Seq<Field>)
    ensures
        merged(a, b, true).len() > 0 ==> payload_of(merged(a, b, true).drop_last()).len()
            <= payload_of(merged(a, b, false).drop_last()).len(),
{
    if a.len() > 0 && b.len() > 0 {
        let (ra, rb) = if a.last().id > b.last().id {
            (a.drop_last(), b)
        } else if a.last().id < b.last().id {
            (a, b.drop_last())
        } else {
            (a.drop_last(), b.drop_last())
        };
        lemma_merged_filtered_is_shorter(ra, rb);
        assert(merged(a, b, true).drop_last() =~= merged(ra, rb, true));
        assert(merged(a, b, false).drop_last() =~= merged(ra, rb, false));
    }
}

/// The merge of two well-formed records, where it fits in one record, is a
/// well-formed record under the header of the first, and so under its
/// schema id. Its directory holds the ids of both records; a field that
/// only one of them holds has the bytes and the kind that it has there; a
/// field that both hold has the kind and the bytes that it has in the
/// first, followed by the bytes that it has in the second unless
/// duplicates are filtered.
pub proof fn lemma_merge_fields(a: RecordView, b: RecordView, filter: bool, id: u32)
    requires
        a.wf(),
        b.wf(),
        fits(merged(a.fields(), b.fields(), filter)),
    ensures
        merge_view(a, b, filter).wf(),
        merge_view(a, b, filter).header == a.header,
        merge_view(a, b, filter).header.schema_id == a.header.schema_id,
        merge_view(a, b, filter).contains(id) <==> a.contains(id) || b.contains(id),
        a.contains(id) ==> merge_view(a, b, filter).type_code(id) == a.type_code(id),
        a.contains(id) && (filter || !b.contains(id)) ==> merge_view(a, b, filter).raw(id)
            == a.raw(id),
        a.contains(id) && b.contains(id) && !filter ==> merge_view(a, b, filter).raw(id) == a.raw(
            id,
        ) + b.raw(id),
        !a.contains(id) && b.contains(id) ==> merge_view(a, b, filter).raw(id) == b.raw(id)
            && merge_view(a, b, filter).type_code(id) == b.type_code(id),
{
    let m = merge_view(a, b, filter);
    let fields = merged(a.fields(), b.fields(), filter);
    lemma_fields_ascending(a);
    lemma_fields_ascending(b);
    lemma_merged_ascending(a.fields(), b.fields(), filter);
    lemma_layout_fields(a.header, fields);
    lemma_merged_lookup(a.fields(), b.fields(), filter, id);
    lemma_lookup(a, id);
    lemma_lookup(b, id);
    lemma_lookup(m, id);
}

/// Left wins: the merge gives the value of the first record for every id
/// that the first record holds, where the merge filters duplicates or the
/// second record does not hold the id.
///
/// Where duplicates are kept and the second record holds the id too, the
/// field's bytes are followed by those of the second record, and the value
/// is what is read from both together: see [`lemma_merge_fields`].
pub proof fn lemma_merge_left_wins(a: RecordView, b: RecordView, filter: bool, id: u32)
    requires
        a.wf(),
        b.wf(),
        fits(merged(a.fields(), b.fields(), filter)),
        a.contains(id),
        filter || !b.contains(id),
    ensures
        merge_view(a, b, filter).value_of(id) == a.value_of(id),
{
    lemma_merge_fields(a, b, filter, id);
}

/// Left wins where duplicates are kept too: for an id that both records
/// hold, the merge gives the value of the first record, where the first
/// record's field is the wire form of a value without rows.
///
/// A row has no end of its own: it takes whatever bytes its field has, so
/// the bytes that a merge keeps after a row are read as part of the row.
pub proof fn lemma_merge_left_wins_keeping(a: RecordView, b: RecordView, id: u32, v: ValueView)
    requires
        a.wf(),
        b.wf(),
        fits(merged(a.fields(), b.fields(), false)),
        a.contains(id),
        a.type_code(id) == v.type_code(),
        a.raw(id) == value_wire(v),
        encodable(v),
        row_free(v),
        nested_within(v, MAX_DEPTH as nat),
        merge_view(a, b, false).payload.len() <= usize::MAX,
    ensures
        merge_view(a, b, false).value_of(id) == a.value_of(id),
        a.value_of(id) == Ok::<Option<ValueView>, ErrorView>(Some(v)),
{
    let m = merge_view(a, b, false);
    lemma_merge_fields(a, b, false, id);
    let k = m.position(id);
    m.lemma_field_bounds(k);
    m.lemma_position(k);
    assert(a.raw(id) + Seq::<u8>::empty() =~= a.raw(id));
    let ka = a.position(id);
    a.lemma_field_bounds(ka);
    a.lemma_position(ka);
    lemma_field_value(a, id, v, Seq::empty());
    if b.contains(id) {
        lemma_field_value(m, id, v, b.raw(id));
    } else {
        lemma_field_value(m, id, v, Seq::empty());
    }
}

/// The merge of two well-formed records that share no id has an entry for
/// each entry of the two, and gives for each id the value of the record that
/// holds it.
pub proof fn lemma_merge_disjoint(a: RecordView, b: RecordView, filter: bool, id: u32)
    requires
        a.wf(),
        b.wf(),
        fits(merged(a.fields(), b.fields(), filter)),
        forall|x: u32| !(a.contains(x) && b.contains(x)),
    ensures
        merge_view(a, b, filter).directory.len() == a.directory.len() + b.directory.len(),
        a.contains(id) ==> merge_view(a, b, filter).value_of(id) == a.value_of(id),
        b.contains(id) ==> merge_view(a, b, filter).value_of(id) == b.value_of(id),
{
    lemma_merge_fields(a, b, filter, id);
    lemma_fields_ascending(a);
    lemma_fields_ascending(b);
    assert forall|x: u32| !(has_id(a.fields(), x) && has_id(b.fields(), x)) by {
        lemma_lookup(a, x);
        lemma_lookup(b, x);
    }
    lemma_merged_disjoint(a.fields(), b.fields(), filter);
    crate::record::lemma_layout(merged(a.fields(), b.fields(), filter));
}

/// The payload of a merge that filters duplicates is no longer than that of
/// the merge that keeps them.
pub proof fn lemma_merge_filtered_is_shorter(a: RecordView, b: RecordView)
    ensures
        merge_view(a, b, true).payload.len() <= merge_view(a, b, false).payload.len(),
        fits(merged(a.fields(), b.fields(), false)) ==> fits(
            merged(a.fields(), b.fields(), true),
        ),
{
    lemma_merged_filtered_is_shorter(a.fields(), b.fields());
    lemma_merged_prefix_shorter(a.fields(), b.fields());
}

} // verus!
