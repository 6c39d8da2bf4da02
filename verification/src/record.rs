//! Records: the mathematical model, and the record type itself.
//!
//! A record is a header, a directory and a payload. The directory is sorted
//! by field id; an entry's field runs from its offset to the offset of the
//! next entry, or to the end of the payload.

use crate::buffer::{buffer_limit, bytes_len, contents, slice};
use crate::types::{DirectoryEntry, Header, TypeCode};
use bytes::Bytes;
use vstd::prelude::*;

verus! {

/// One field of a record as a plain value: its id, its kind and the bytes
/// that the directory assigns to it.
pub struct Field {
    pub id: u32,
    pub type_code: TypeCode,
    pub bytes: Seq<u8>,
}

/// A record as a plain value.
pub struct RecordView {
    pub header: Header,
    pub directory: Seq<DirectoryEntry>,
    pub payload: Seq<u8>,
}

/// The ids of `fields` go strictly up.
pub open spec fn ascending(fields: Seq<Field>) -> bool {
    forall|i: int, j: int| 0 <= i < j < fields.len() ==> fields[i].id < fields[j].id
}

/// The bytes of `fields`, one field after the other.
pub open spec fn payload_of(fields: Seq<Field>) -> Seq<u8>
    decreases fields.len(),
{
    if fields.len() == 0 {
        Seq::empty()
    } else {
        payload_of(fields.drop_last()) + fields.last().bytes
    }
}

/// The directory of `fields` when their bytes are laid out one after the
/// other from offset 0: each entry's offset is the length of all the fields
/// before it.
pub open spec fn directory_of(fields: Seq<Field>) -> Seq<DirectoryEntry>
    decreases fields.len(),
{
    if fields.len() == 0 {
        Seq::empty()
    } else {
        directory_of(fields.drop_last()).push(
            DirectoryEntry {
                id: fields.last().id,
                type_code: fields.last().type_code,
                offset: payload_of(fields.drop_last()).len() as u32,
            },
        )
    }
}

/// Whether `fields` can be laid out in one record: their number fits in 32
/// bits, every offset fits in 32 bits, and the payload fits in a buffer.
pub open spec fn fits(fields: Seq<Field>) -> bool {
    &&& fields.len() <= u32::MAX
    &&& payload_of(fields).len() <= buffer_limit()
    &&& fields.len() > 0 ==> payload_of(fields.drop_last()).len() <= u32::MAX
}

impl RecordView {
    /// The invariant of every record that the library hands out: the
    /// directory is strictly ascending by id, its offsets never go down and
    /// none points past the payload, and the sizes fit the format.
    pub open spec fn wf(self) -> bool {
        &&& self.directory.len() <= u32::MAX
        &&& self.payload.len() <= buffer_limit()
        &&& forall|i: int, j: int|
            0 <= i < j < self.directory.len() ==> self.directory[i].id < self.directory[j].id
        &&& forall|i: int, j: int|
            0 <= i <= j < self.directory.len() ==> self.directory[i].offset
                <= self.directory[j].offset
        &&& forall|i: int|
            0 <= i < self.directory.len() ==> self.directory[i].offset <= self.payload.len()
    }

    /// Where the field of entry `i` ends.
    pub open spec fn field_end(self, i: int) -> int {
        if i + 1 < self.directory.len() {
            self.directory[i + 1].offset as int
        } else {
            self.payload.len() as int
        }
    }

    /// The bytes of the field of entry `i`.
    pub open spec fn raw_at(self, i: int) -> Seq<u8> {
        self.payload.subrange(self.directory[i].offset as int, self.field_end(i))
    }

    /// The field of entry `i`.
    pub open spec fn field_at(self, i: int) -> Field {
        Field {
            id: self.directory[i].id,
            type_code: self.directory[i].type_code,
            bytes: self.raw_at(i),
        }
    }

    /// The fields in directory order.
    pub open spec fn fields(self) -> Seq<Field> {
        Seq::new(self.directory.len(), |i: int| self.field_at(i))
    }

    /// Whether the directory has an entry for `id`.
    pub open spec fn contains(self, id: u32) -> bool {
        exists|i: int| 0 <= i < self.directory.len() && self.directory[i].id == id
    }

    /// The index of the entry for `id`.
    pub open spec fn position(self, id: u32) -> int {
        choose|i: int| 0 <= i < self.directory.len() && self.directory[i].id == id
    }

    /// The kind of the field `id`.
    pub open spec fn type_code(self, id: u32) -> TypeCode {
        self.directory[self.position(id)].type_code
    }

    /// The bytes of the field `id`.
    pub open spec fn raw(self, id: u32) -> Seq<u8> {
        self.raw_at(self.position(id))
    }

    /// The ids of the directory, in order.
    pub open spec fn ids(self) -> Seq<u32> {
        Seq::new(self.directory.len(), |i: int| self.directory[i].id)
    }

    /// The fields are laid out one after the other from offset 0, and
    /// nothing else is in the payload.
    pub open spec fn packed(self) -> bool {
        &&& self.directory == directory_of(self.fields())
        &&& self.payload == payload_of(self.fields())
    }

    /// In a well-formed record an id is found at one index only.
    pub proof fn lemma_position(self, i: int)
        requires
            self.wf(),
            0 <= i < self.directory.len(),
        ensures
            self.contains(self.directory[i].id),
            self.position(self.directory[i].id) == i,
            self.raw(self.directory[i].id) == self.raw_at(i),
            self.type_code(self.directory[i].id) == self.directory[i].type_code,
    {
        let id = self.directory[i].id;
        let p = self.position(id);
        assert(0 <= p < self.directory.len() && self.directory[p].id == id);
        if p < i {
            assert(self.directory[p].id < self.directory[i].id);
        } else if i < p {
            assert(self.directory[i].id < self.directory[p].id);
        }
    }

    /// In a well-formed record every field lies within the payload.
    pub proof fn lemma_field_bounds(self, i: int)
        requires
            self.wf(),
            0 <= i < self.directory.len(),
        ensures
            self.directory[i].offset <= self.field_end(i) <= self.payload.len(),
            self.raw_at(i).len() == self.field_end(i) - self.directory[i].offset,
    {
        if i + 1 < self.directory.len() {
            assert(self.directory[i].offset <= self.directory[i + 1].offset);
        }
    }
}

/// The layout of `fields.push(f)` extends the layout of `fields`.
pub proof fn lemma_layout_push(fields: Seq<Field>, f: Field)
    ensures
        payload_of(fields.push(f)) == payload_of(fields) + f.bytes,
        directory_of(fields.push(f)) == directory_of(fields).push(
            DirectoryEntry {
                id: f.id,
                type_code: f.type_code,
                offset: payload_of(fields).len() as u32,
            },
        ),
{
    assert(fields.push(f).drop_last() =~= fields);
}

/// The directory of a layout has one entry for each field, with the field's
/// id and kind and the length of the fields before it as offset.
pub proof fn lemma_layout(fields: Seq<Field>)
    ensures
        directory_of(fields).len() == fields.len(),
        forall|i: int|
            0 <= i < fields.len() ==> (#[trigger] directory_of(fields)[i]) == (DirectoryEntry {
                id: fields[i].id,
                type_code: fields[i].type_code,
                offset: payload_of(fields.take(i)).len() as u32,
            }),
    decreases fields.len(),
{
    if fields.len() > 0 {
        let init = fields.drop_last();
        let n = init.len() as int;
        lemma_layout(init);
        assert(fields.take(n) =~= init);
        assert forall|i: int| 0 <= i < fields.len() implies (#[trigger] directory_of(fields)[i])
            == (DirectoryEntry {
            id: fields[i].id,
            type_code: fields[i].type_code,
            offset: payload_of(fields.take(i)).len() as u32,
        }) by {
            if i < n {
                assert(directory_of(fields)[i] == directory_of(init)[i]);
                assert(fields.take(i) =~= init.take(i));
            }
        }
    }
}

/// The payload of the first `i + 1` fields is that of the first `i`,
/// followed by the bytes of field `i`.
pub proof fn lemma_payload_step(fields: Seq<Field>, i: int)
    requires
        0 <= i < fields.len(),
    ensures
        payload_of(fields.take(i + 1)) == payload_of(fields.take(i)) + fields[i].bytes,
{
    assert(fields.take(i + 1).drop_last() =~= fields.take(i));
}

/// The payloads of longer prefixes are longer.
pub proof fn lemma_payload_grows(fields: Seq<Field>, i: int, j: int)
    requires
        0 <= i <= j <= fields.len(),
    ensures
        payload_of(fields.take(i)).len() <= payload_of(fields.take(j)).len(),
{
    assert(fields.take(j).take(i) =~= fields.take(i));
    lemma_prefix_of_payload(fields.take(j), i);
}

/// A layout of fields with ascending ids that fits is a well-formed, packed
/// record, and its fields are the fields that were laid out.
pub proof fn lemma_layout_fields(header: Header, fields: Seq<Field>)
    requires
        ascending(fields),
        fits(fields),
    ensures
        (RecordView {
            header,
            directory: directory_of(fields),
            payload: payload_of(fields),
        }).wf(),
        (RecordView {
            header,
            directory: directory_of(fields),
            payload: payload_of(fields),
        }).fields() == fields,
        (RecordView {
            header,
            directory: directory_of(fields),
            payload: payload_of(fields),
        }).packed(),
{
    let r = RecordView { header, directory: directory_of(fields), payload: payload_of(fields) };
    lemma_layout(fields);
    let n = fields.len() as int;
    assert(fields.take(n) =~= fields);
    assert forall|i: int| 0 <= i < n implies (#[trigger] r.directory[i]).offset == payload_of(
        fields.take(i),
    ).len() && r.directory[i].id == fields[i].id && r.directory[i].type_code
        == fields[i].type_code by {
        assert(fields.take(n - 1) =~= fields.drop_last());
        lemma_payload_grows(fields, i, n - 1);
    }
    assert forall|i: int, j: int| 0 <= i <= j < n implies r.directory[i].offset
        <= r.directory[j].offset by {
        lemma_payload_grows(fields, i, j);
    }
    assert forall|i: int| 0 <= i < n implies r.directory[i].offset <= r.payload.len() by {
        lemma_payload_grows(fields, i, n);
    }
    assert forall|i: int| 0 <= i < n implies #[trigger] r.field_at(i) == fields[i] by {
        let start = payload_of(fields.take(i));
        let stop = payload_of(fields.take(i + 1));
        lemma_payload_step(fields, i);
        assert(stop == start + fields[i].bytes);
        assert(r.directory[i].offset == start.len());
        if i + 1 < n {
            assert(r.directory[i + 1].offset == stop.len());
        }
        assert(r.field_end(i) == stop.len());
        lemma_prefix_of_payload(fields, i + 1);
        assert(stop == r.payload.take(stop.len() as int));
        assert(r.raw_at(i) == r.payload.subrange(start.len() as int, stop.len() as int));
        assert(r.payload.subrange(start.len() as int, stop.len() as int) =~= stop.subrange(
            start.len() as int,
            stop.len() as int,
        ));
        assert(stop.subrange(start.len() as int, stop.len() as int) =~= fields[i].bytes);
    }
    assert(r.fields() =~= fields);
}

/// The payload of the first `i` fields is the head of the whole payload.
pub proof fn lemma_prefix_of_payload(fields: Seq<Field>, i: int)
    requires
        0 <= i <= fields.len(),
    ensures
        payload_of(fields.take(i)).len() <= payload_of(fields).len(),
        payload_of(fields.take(i)) == payload_of(fields).take(
            payload_of(fields.take(i)).len() as int,
        ),
    decreases fields.len() - i,
{
    if i == fields.len() {
        assert(fields.take(i) =~= fields);
        assert(payload_of(fields).take(payload_of(fields).len() as int) =~= payload_of(fields));
    } else {
        lemma_prefix_of_payload(fields, i + 1);
        assert(fields.take(i + 1).drop_last() =~= fields.take(i));
        let longer = payload_of(fields.take(i + 1));
        let shorter = payload_of(fields.take(i));
        assert(longer == shorter + fields[i].bytes);
        assert(shorter =~= longer.take(shorter.len() as int));
        assert(shorter =~= payload_of(fields).take(shorter.len() as int));
    }
}

/// A record: a header, a directory sorted by field id, and the payload that
/// holds the fields' bytes. A record is immutable; its invariant is
/// [`RecordView::wf`].
#[derive(Debug, PartialEq)]
pub struct ImprintRecord {
    pub(crate) header: Header,
    pub(crate) directory: Vec<DirectoryEntry>,
    pub(crate) payload: Bytes,
}

impl View for ImprintRecord {
    type V = RecordView;

    closed spec fn view(&self) -> RecordView {
        RecordView {
            header: self.header,
            directory: self.directory@,
            payload: contents(self.payload),
        }
    }
}

impl ImprintRecord {
    #[verifier::type_invariant]
    closed spec fn inv(&self) -> bool {
        self.view().wf()
    }

    /// Puts a record together from parts that meet the invariant.
    pub(crate) fn from_parts(
        header: Header,
        directory: Vec<DirectoryEntry>,
        payload: Bytes,
    ) -> (r: ImprintRecord)
        requires
            (RecordView { header, directory: directory@, payload: contents(payload) }).wf(),
        ensures
            r@ == (RecordView { header, directory: directory@, payload: contents(payload) }),
    {
        ImprintRecord { header, directory, payload }
    }

    /// The header.
    pub fn header(&self) -> (r: &Header)
        ensures
            *r == self@.header,
            self@.wf(),
    {
        proof {
            use_type_invariant(self);
        }
        &self.header
    }

    /// The directory: one entry for each field, ascending by id.
    pub fn directory(&self) -> (r: &Vec<DirectoryEntry>)
        ensures
            r@ == self@.directory,
            self@.wf(),
    {
        proof {
            use_type_invariant(self);
        }
        &self.directory
    }

    /// The payload.
    pub fn payload(&self) -> (r: &Bytes)
        ensures
            contents(*r) == self@.payload,
            self@.wf(),
    {
        proof {
            use_type_invariant(self);
        }
        &self.payload
    }

    /// The index of the entry for `field_id`, by binary search.
    pub(crate) fn find(&self, field_id: u32) -> (r: Option<usize>)
        ensures
            self@.wf(),
            r is Some <==> self@.contains(field_id),
            r matches Some(i) ==> i < self@.directory.len() && self@.directory[i as int].id
                == field_id && self@.position(field_id) == i,
    {
        proof {
            use_type_invariant(self);
        }
        let mut low: usize = 0;
        let mut high: usize = self.directory.len();
        while low < high
            invariant
                self@.wf(),
                self.directory@ == self@.directory,
                low <= high <= self.directory.len(),
                forall|i: int| 0 <= i < low ==> self.directory@[i].id < field_id,
                forall|i: int|
                    high <= i < self.directory.len() ==> self.directory@[i].id > field_id,
            decreases high - low,
        {
            let mid = low + (high - low) / 2;
            let id = self.directory[mid].id;
            if id == field_id {
                proof {
                    self@.lemma_position(mid as int);
                }
                return Some(mid);
            } else if id < field_id {
                low = mid + 1;
            } else {
                high = mid;
            }
        }
        None
    }

    /// The bytes of the field of entry `idx`.
    pub(crate) fn field_bytes(&self, idx: usize) -> (r: Bytes)
        requires
            idx < self@.directory.len(),
        ensures
            contents(r) == self@.raw_at(idx as int),
            self@.wf(),
    {
        proof {
            use_type_invariant(self);
            self@.lemma_field_bounds(idx as int);
        }
        let start = self.directory[idx].offset as usize;
        let end = if idx + 1 < self.directory.len() {
            self.directory[idx + 1].offset as usize
        } else {
            bytes_len(&self.payload)
        };
        slice(&self.payload, start, end)
    }

    /// The bytes of the field `field_id` as they stand in the payload, any
    /// length prefix included; `None` when the record has no such field.
    pub fn get_raw_bytes(&self, field_id: u32) -> (r: Option<Bytes>)
        ensures
            r is Some <==> self@.contains(field_id),
            r matches Some(b) ==> contents(b) == self@.raw(field_id),
    {
        proof {
            use_type_invariant(self);
        }
        match self.find(field_id) {
            None => None,
            Some(idx) => Some(self.field_bytes(idx)),
        }
    }
}

impl Clone for ImprintRecord {
    fn clone(&self) -> (r: Self)
        ensures
            r@ == self@,
    {
        proof {
            use_type_invariant(self);
        }
        let mut directory: Vec<DirectoryEntry> = Vec::with_capacity(self.directory.len());
        let mut i: usize = 0;
        while i < self.directory.len()
            invariant
                i <= self.directory.len(),
                directory@ == self.directory@.take(i as int),
            decreases self.directory.len() - i,
        {
            directory.push(self.directory[i]);
            assert(self.directory@.take(i + 1) =~= self.directory@.take(i as int).push(
                self.directory@[i as int],
            ));
            i += 1;
        }
        assert(directory@ =~= self.directory@);
        ImprintRecord { header: self.header, directory, payload: self.payload.clone() }
    }
}

} // verus!
