//! The operations on records: `project` takes a subset of the fields,
//! `merge` combines the fields of two records. Both splice the fields'
//! bytes as they are, without reading the values.

use crate::buffer::{
    as_slice, buffer_len, buffer_limit, bytes_len, freeze, has_room, new_buffer, put_slice, written,
};
use crate::error::{schema_error, ErrorView, ImprintError};
use crate::record::{
    ascending, directory_of, fits, lemma_layout_fields, lemma_layout_push, lemma_payload_grows,
    payload_of, Field, ImprintRecord, RecordView,
};
use crate::stdlib::{sort_unstable, sorted, strictly_sorted};
use crate::types::{DirectoryEntry, Header, SchemaId};
use vstd::prelude::*;

verus! {

/// The schema hash of a projected record. A projection holds other fields
/// than its source, so the source's hash does not describe it: this value
/// says that the hash is unknown and has to be computed by whoever keeps the
/// schemas.
pub const UNKNOWN_SCHEMA_HASH: u32 = 0xdeadbeef;

/// Those of `fields` whose id is in `ids`, in the order of `fields`.
pub open spec fn selected(fields: Seq<Field>, ids: Set<u32>) -> Seq<Field>
    decreases fields.len(),
{
    if fields.len() == 0 {
        Seq::empty()
    } else if ids.contains(fields.last().id) {
        selected(fields.drop_last(), ids).push(fields.last())
    } else {
        selected(fields.drop_last(), ids)
    }
}

/// The projection of `r` onto `ids`: the fields of `r` whose id is in
/// `ids`, laid out one after the other, under the flags and the fieldspace
/// of `r` and the schema hash [`UNKNOWN_SCHEMA_HASH`].
pub open spec fn project_view(r: RecordView, ids: Set<u32>) -> RecordView {
    RecordView {
        header: Header {
            flags: r.header.flags,
            schema_id: SchemaId {
                fieldspace_id: r.header.schema_id.fieldspace_id,
                schema_hash: UNKNOWN_SCHEMA_HASH,
            },
        },
        directory: directory_of(selected(r.fields(), ids)),
        payload: payload_of(selected(r.fields(), ids)),
    }
}

/// The field that a merge makes of a field `a` of the first record and the
/// field `b` of the same id of the second: `a`, followed by the bytes of `b`
/// unless duplicates are filtered.
pub open spec fn combined(a: Field, b: Field, filter: bool) -> Field {
    Field {
        id: a.id,
        type_code: a.type_code,
        bytes: if filter {
            a.bytes
        } else {
            a.bytes + b.bytes
        },
    }
}

/// The fields of two ascending sequences in one ascending sequence. Where an
/// id is in both, the field of `a` stands, [`combined`] with that of `b`.
pub open spec fn merged(a: Seq<Field>, b: Seq<Field>, filter: bool) -> Seq<Field>
    decreases a.len() + b.len(),
{
    if a.len() == 0 {
        b
    } else if b.len() == 0 {
        a
    } else if a.last().id > b.last().id {
        merged(a.drop_last(), b, filter).push(a.last())
    } else if a.last().id < b.last().id {
        merged(a, b.drop_last(), filter).push(b.last())
    } else {
        merged(a.drop_last(), b.drop_last(), filter).push(combined(a.last(), b.last(), filter))
    }
}

/// The merge of `a` and `b`: the [`merged`] fields laid out one after the
/// other, under the header of `a`.
pub open spec fn merge_view(a: RecordView, b: RecordView, filter: bool) -> RecordView {
    RecordView {
        header: a.header,
        directory: directory_of(merged(a.fields(), b.fields(), filter)),
        payload: payload_of(merged(a.fields(), b.fields(), filter)),
    }
}

/// The error of a merge whose result does not fit in one record.
pub open spec fn too_large() -> ErrorView {
    ErrorView::SchemaError("merged record is too large"@)
}

/// How a merge treats a field that both records hold.
#[derive(Debug, Clone, Copy)]
pub struct MergeOptions {
    /// If true, the bytes of the second record's field are left out of the
    /// payload. If false, they stay in the payload, after the bytes of the
    /// first record's field, and no directory entry points to them.
    pub filter_duplicate_payloads: bool,
}

impl Default for MergeOptions {
    fn default() -> (r: MergeOptions)
        ensures
            !r.filter_duplicate_payloads,
    {
        MergeOptions { filter_duplicate_payloads: false }
    }
}

/// Taking a subset of the fields of a record.
pub trait Project {
    /// The record of those fields whose id is in `field_ids`. The list may
    /// be in any order and may name an id twice or name ids that the record
    /// does not hold.
    fn project(&self, field_ids: &[u32]) -> (r: Result<ImprintRecord, ImprintError>);
}

/// Combining the fields of two records.
pub trait Merge {
    /// The record of the fields of both records, with the default options.
    fn merge(&self, other: &ImprintRecord) -> (r: Result<ImprintRecord, ImprintError>);

    /// The record of the fields of both records. Where both hold a field,
    /// the field of `self` stands.
    fn merge_with_opts(&self, other: &ImprintRecord, options: MergeOptions) -> (r: Result<
        ImprintRecord,
        ImprintError,
    >);
}

/// Selecting from one more field.
pub proof fn lemma_selected_step(fields: Seq<Field>, ids: Set<u32>, i: int)
    requires
        0 <= i < fields.len(),
    ensures
        selected(fields.take(i + 1), ids) == if ids.contains(fields[i].id) {
            selected(fields.take(i), ids).push(fields[i])
        } else {
            selected(fields.take(i), ids)
        },
{
    assert(fields.take(i + 1).drop_last() =~= fields.take(i));
}

/// Fields whose ids are not asked for add nothing to a selection.
pub proof fn lemma_selected_rest(fields: Seq<Field>, ids: Set<u32>, i: int)
    requires
        0 <= i <= fields.len(),
        forall|k: int| i <= k < fields.len() ==> !ids.contains(fields[k].id),
    ensures
        selected(fields, ids) == selected(fields.take(i), ids),
    decreases fields.len() - i,
{
    if i < fields.len() {
        lemma_selected_step(fields, ids, i);
        lemma_selected_rest(fields, ids, i + 1);
    } else {
        assert(fields.take(i) =~= fields);
    }
}

/// A selection of ascending fields is ascending, and each of its fields is
/// one of the fields selected from.
pub proof fn lemma_selected_ascending(fields: Seq<Field>, ids: Set<u32>)
    requires
        ascending(fields),
    ensures
        ascending(selected(fields, ids)),
        selected(fields, ids).len() <= fields.len(),
        forall|k: int|
            0 <= k < selected(fields, ids).len() ==> fields.contains(
                #[trigger] selected(fields, ids)[k],
            ) && ids.contains(selected(fields, ids)[k].id),
    decreases fields.len(),
{
    if fields.len() > 0 {
        let init = fields.drop_last();
        lemma_selected_ascending(init, ids);
        let sel = selected(init, ids);
        assert forall|k: int| 0 <= k < sel.len() implies fields.contains(#[trigger] sel[k])
            && sel[k].id < fields.last().id by {
            let w = choose|w: int| 0 <= w < init.len() && init[w] == sel[k];
            assert(fields[w] == sel[k]);
        }
        assert(fields[fields.len() - 1] == fields.last());
    }
}

/// What a sequence with one more number holds.
proof fn lemma_push_contains(s: Seq<u32>, x: u32, y: u32)
    ensures
        s.push(x).contains(y) <==> s.contains(y) || y == x,
{
    if s.contains(y) {
        let k = choose|k: int| 0 <= k < s.len() && s[k] == y;
        assert(s.push(x)[k] == y);
    }
    if y == x {
        assert(s.push(x)[s.len() as int] == y);
    }
}

/// The numbers of a sorted vector, each of them once.
fn dedup(v: &Vec<u32>) -> (out: Vec<u32>)
    requires
        sorted(v@),
    ensures
        strictly_sorted(out@),
        forall|x: u32| out@.contains(x) <==> v@.contains(x),
{
    let mut out: Vec<u32> = Vec::new();
    let mut i: usize = 0;
    while i < v.len()
        invariant
            i <= v.len(),
            sorted(v@),
            strictly_sorted(out@),
            forall|x: u32| out@.contains(x) <==> v@.take(i as int).contains(x),
            i == 0 ==> out@.len() == 0,
            i > 0 ==> out@.len() > 0 && out@.last() == v@[i - 1],
        decreases v.len() - i,
    {
        let x = v[i];
        let ghost before = out@;
        let ghost seen = v@.take(i as int);
        proof {
            assert(v@.take(i + 1) =~= seen.push(x));
        }
        if i == 0 || v[i - 1] != x {
            out.push(x);
            assert(out@ == before.push(x));
            assert forall|a: int, b: int| 0 <= a < b < out@.len() implies out@[a] < out@[b] by {
                if b == before.len() {
                    assert(before[a] <= before.last());
                    assert(v@[i - 1] <= v@[i as int]);
                }
            }
        } else {
            assert(before.contains(x)) by {
                assert(before[before.len() - 1] == x);
            }
        }
        assert forall|y: u32| out@.contains(y) <==> v@.take(i + 1).contains(y) by {
            lemma_push_contains(seen, x, y);
            lemma_push_contains(before, x, y);
            assert(before.contains(y) <==> seen.contains(y));
        }
        i += 1;
    }
    assert(v@.take(v.len() as int) =~= v@);
    out
}

impl Project for ImprintRecord {
    /// Never fails. The projection carries [`UNKNOWN_SCHEMA_HASH`] in place
    /// of the schema hash of `self`.
    fn project(&self, field_ids: &[u32]) -> (r: Result<ImprintRecord, ImprintError>)
        ensures
            r matches Ok(p) && p@ == project_view(self@, field_ids@.to_set()),
    {
        let mut sorted_field_ids = vstd::slice::slice_to_vec(field_ids);
        let ghost given = sorted_field_ids@;
        sort_unstable(&mut sorted_field_ids);
        let ghost in_order = sorted_field_ids@;
        let sorted_field_ids = dedup(&sorted_field_ids);
        let ghost ids = field_ids@.to_set();
        assert forall|x: u32| sorted_field_ids@.contains(x) <==> ids.contains(x) by {
            given.to_multiset_ensures();
            in_order.to_multiset_ensures();
            assert(given =~= field_ids@);
            assert(in_order.contains(x) <==> in_order.to_multiset().count(x) > 0);
            assert(given.contains(x) <==> given.to_multiset().count(x) > 0);
            assert(ids.contains(x) <==> field_ids@.contains(x));
        }
        let directory = self.directory();
        let ghost view = self@;
        let ghost fields = view.fields();
        let mut new_directory: Vec<DirectoryEntry> = Vec::new();
        let mut new_payload = new_buffer();
        let mut field_ids_idx: usize = 0;
        let mut directory_idx: usize = 0;
        let ghost mut out: Seq<Field> = Seq::empty();
        while directory_idx < directory.len() && field_ids_idx < sorted_field_ids.len()
            invariant
                view == self@,
                view.wf(),
                fields == view.fields(),
                directory@ == view.directory,
                directory_idx <= directory.len(),
                field_ids_idx <= sorted_field_ids.len(),
                strictly_sorted(sorted_field_ids@),
                forall|x: u32| sorted_field_ids@.contains(x) <==> ids.contains(x),
                forall|m: int|
                    0 <= m < field_ids_idx && directory_idx < directory.len()
                        ==> sorted_field_ids@[m] < directory@[directory_idx as int].id,
                out == selected(fields.take(directory_idx as int), ids),
                new_directory@ == directory_of(out),
                written(new_payload) == payload_of(out),
                out.len() <= directory_idx,
                written(new_payload).len() <= (if directory_idx < directory.len() {
                    directory@[directory_idx as int].offset as int
                } else {
                    view.payload.len() as int
                }),
            decreases (directory.len() - directory_idx) + (sorted_field_ids.len()
                - field_ids_idx),
        {
            let field = &directory[directory_idx];
            let wanted = sorted_field_ids[field_ids_idx];
            proof {
                view.lemma_field_bounds(directory_idx as int);
                lemma_selected_step(fields, ids, directory_idx as int);
                if directory_idx + 1 < directory.len() {
                    assert(directory@[directory_idx as int].id < directory@[directory_idx
                        + 1].id);
                }
            }
            if field.id == wanted {
                let raw = self.field_bytes(directory_idx);
                let current_offset = buffer_len(&new_payload);
                new_directory.push(
                    DirectoryEntry {
                        id: field.id,
                        type_code: field.type_code,
                        offset: current_offset as u32,
                    },
                );
                put_slice(&mut new_payload, as_slice(&raw));
                proof {
                    assert(sorted_field_ids@.contains(wanted));
                    lemma_layout_push(out, fields[directory_idx as int]);
                    out = out.push(fields[directory_idx as int]);
                }
                field_ids_idx += 1;
                directory_idx += 1;
            } else if field.id < wanted {
                proof {
                    assert(!ids.contains(field.id)) by {
                        if sorted_field_ids@.contains(field.id) {
                            let m = choose|m: int|
                                0 <= m < sorted_field_ids@.len() && sorted_field_ids@[m]
                                    == field.id;
                            if m > field_ids_idx {
                                assert(sorted_field_ids@[field_ids_idx as int]
                                    < sorted_field_ids@[m]);
                            }
                        }
                    }
                }
                directory_idx += 1;
            } else {
                field_ids_idx += 1;
            }
        }
        proof {
            assert forall|k: int| directory_idx <= k < fields.len() implies !ids.contains(
                fields[k].id,
            ) by {
                if sorted_field_ids@.contains(fields[k].id) {
                    let m = choose|m: int|
                        0 <= m < sorted_field_ids@.len() && sorted_field_ids@[m] == fields[k].id;
                    assert(sorted_field_ids@[m] < directory@[directory_idx as int].id);
                    if directory_idx < k {
                        assert(directory@[directory_idx as int].id < directory@[k].id);
                    }
                }
            }
            lemma_selected_rest(fields, ids, directory_idx as int);
            lemma_project_fits(view, ids);
        }
        let header = Header {
            flags: self.header().flags,
            schema_id: SchemaId {
                fieldspace_id: self.header().schema_id.fieldspace_id,
                schema_hash: UNKNOWN_SCHEMA_HASH,
            },
        };
        Ok(ImprintRecord::from_parts(header, new_directory, freeze(new_payload)))
    }
}

/// The fields of a well-formed record are ascending.
pub proof fn lemma_fields_ascending(r: RecordView)
    requires
        r.wf(),
    ensures
        ascending(r.fields()),
        r.fields().len() == r.directory.len(),
{
}

/// The first `i` fields of a well-formed record, laid out one after the
/// other, take no more bytes than the payload holds before field `i`.
pub proof fn lemma_fields_payload_bound(r: RecordView, i: int)
    requires
        r.wf(),
        0 <= i <= r.directory.len(),
    ensures
        payload_of(r.fields().take(i)).len() <= (if i < r.directory.len() {
            r.directory[i].offset as int
        } else {
            r.payload.len() as int
        }),
    decreases i,
{
    if i > 0 {
        lemma_fields_payload_bound(r, i - 1);
        r.lemma_field_bounds(i - 1);
        crate::record::lemma_payload_step(r.fields(), i - 1);
    }
}

/// A selection of fields takes no more bytes than the fields it is selected
/// from.
pub proof fn lemma_selected_payload(fields: Seq<Field>, ids: Set<u32>)
    ensures
        payload_of(selected(fields, ids)).len() <= payload_of(fields).len(),
        selected(fields, ids).len() <= fields.len(),
    decreases fields.len(),
{
    if fields.len() > 0 {
        lemma_selected_payload(fields.drop_last(), ids);
        if ids.contains(fields.last().id) {
            lemma_layout_push(selected(fields.drop_last(), ids), fields.last());
        }
    }
}

/// A projection of a well-formed record fits in one record.
pub proof fn lemma_project_fits(r: RecordView, ids: Set<u32>)
    requires
        r.wf(),
    ensures
        fits(selected(r.fields(), ids)),
        project_view(r, ids).wf(),
        project_view(r, ids).packed(),
        project_view(r, ids).fields() == selected(r.fields(), ids),
{
    let fields = r.fields();
    let sel = selected(fields, ids);
    lemma_fields_ascending(r);
    lemma_selected_ascending(fields, ids);
    lemma_selected_payload(fields, ids);
    lemma_fields_payload_bound(r, fields.len() as int);
    assert(fields.take(fields.len() as int) =~= fields);
    if sel.len() > 0 {
        let n = fields.len() as int;
        lemma_selected_payload(fields.drop_last(), ids);
        lemma_fields_payload_bound(r, n - 1);
        assert(fields.take(n - 1) =~= fields.drop_last());
        if ids.contains(fields.last().id) {
            assert(sel.drop_last() =~= selected(fields.drop_last(), ids));
        } else {
            assert(sel == selected(fields.drop_last(), ids));
            assert(sel.take(sel.len() - 1) =~= sel.drop_last());
            assert(sel.take(sel.len() as int) =~= sel);
            lemma_payload_grows(sel, sel.len() - 1, sel.len() as int);
        }
    }
    lemma_layout_fields(project_view(r, ids).header, sel);
}

/// Whether one of `fields` has the id `id`.
pub open spec fn has_id(fields: Seq<Field>, id: u32) -> bool {
    exists|k: int| 0 <= k < fields.len() && fields[k].id == id
}

/// The field of `fields` that has the id `id`.
pub open spec fn field_of(fields: Seq<Field>, id: u32) -> Field {
    fields[choose|k: int| 0 <= k < fields.len() && fields[k].id == id]
}

/// Among ascending fields an id is found at one index only.
pub proof fn lemma_field_of(fields: Seq<Field>, k: int)
    requires
        ascending(fields),
        0 <= k < fields.len(),
    ensures
        has_id(fields, fields[k].id),
        field_of(fields, fields[k].id) == fields[k],
{
    let id = fields[k].id;
    let w = choose|w: int| 0 <= w < fields.len() && fields[w].id == id;
    if w < k {
        assert(fields[w].id < fields[k].id);
    } else if k < w {
        assert(fields[k].id < fields[w].id);
    }
}

/// The state of a walk through two ascending sequences that has taken the
/// first `i` of `a` and the first `j` of `b`: every field taken from one
/// sequence has a smaller id than the next field of the other.
pub open spec fn frontier(a: Seq<Field>, b: Seq<Field>, i: int, j: int) -> bool {
    &&& 0 <= i <= a.len()
    &&& 0 <= j <= b.len()
    &&& i < a.len() && j > 0 ==> b[j - 1].id < a[i].id
    &&& j < b.len() && i > 0 ==> a[i - 1].id < b[j].id
}

/// The field that the walk takes next, and the state after it.
pub open spec fn next_step(a: Seq<Field>, b: Seq<Field>, i: int, j: int, filter: bool) -> (
    Field,
    int,
    int,
) {
    if i < a.len() && (j >= b.len() || a[i].id < b[j].id) {
        (a[i], i + 1, j)
    } else if i < a.len() && a[i].id == b[j].id {
        (combined(a[i], b[j], filter), i + 1, j + 1)
    } else {
        (b[j], i, j + 1)
    }
}

/// A step of the walk appends one field to what has been merged.
pub proof fn lemma_merge_step(a: Seq<Field>, b: Seq<Field>, i: int, j: int, filter: bool)
    requires
        ascending(a),
        ascending(b),
        frontier(a, b, i, j),
        i < a.len() || j < b.len(),
    ensures
        ({
            let (x, i2, j2) = next_step(a, b, i, j, filter);
            &&& merged(a.take(i2), b.take(j2), filter) == merged(
                a.take(i),
                b.take(j),
                filter,
            ).push(x)
            &&& frontier(a, b, i2, j2)
        }),
{
    let (x, i2, j2) = next_step(a, b, i, j, filter);
    let a1 = a.take(i);
    let b1 = b.take(j);
    let a2 = a.take(i2);
    let b2 = b.take(j2);
    if i2 > i {
        assert(a2.drop_last() =~= a1);
        assert(a2.last() == a[i]);
        if i + 1 < a.len() {
            assert(a[i].id < a[i + 1].id);
        }
    } else {
        assert(a2 == a1);
    }
    if j2 > j {
        assert(b2.drop_last() =~= b1);
        assert(b2.last() == b[j]);
        if j + 1 < b.len() {
            assert(b[j].id < b[j + 1].id);
        }
    } else {
        assert(b2 == b1);
    }
    if i2 > i && j2 == j {
        if j == 0 {
            assert(a2 =~= a1.push(a[i]));
            assert(merged(a1, b1, filter) =~= a1);
        } else {
            assert(b1.last() == b[j - 1]);
        }
    } else if i2 == i && j2 > j {
        if i == 0 {
            assert(b2 =~= b1.push(b[j]));
            assert(merged(a1, b1, filter) =~= b1);
        } else {
            assert(a1.last() == a[i - 1]);
        }
    }
}

/// What a walk has merged so far is the head of the whole merge.
pub proof fn lemma_merge_prefix(a: Seq<Field>, b: Seq<Field>, i: int, j: int, filter: bool)
    requires
        ascending(a),
        ascending(b),
        frontier(a, b, i, j),
    ensures
        merged(a.take(i), b.take(j), filter).is_prefix_of(merged(a, b, filter)),
    decreases a.len() - i + b.len() - j,
{
    let whole = merged(a, b, filter);
    let cur = merged(a.take(i), b.take(j), filter);
    if i < a.len() || j < b.len() {
        let (x, i2, j2) = next_step(a, b, i, j, filter);
        lemma_merge_step(a, b, i, j, filter);
        lemma_merge_prefix(a, b, i2, j2, filter);
        let next = merged(a.take(i2), b.take(j2), filter);
        assert(cur =~= next.subrange(0, cur.len() as int));
        assert(cur =~= whole.subrange(0, cur.len() as int));
    } else {
        assert(a.take(i) =~= a);
        assert(b.take(j) =~= b);
        assert(cur =~= whole.subrange(0, cur.len() as int));
    }
}

/// The head of a sequence of fields that fits in one record fits too.
pub proof fn lemma_prefix_fits(fields: Seq<Field>, k: int)
    requires
        fits(fields),
        0 <= k <= fields.len(),
    ensures
        fits(fields.take(k)),
{
    let n = fields.len() as int;
    lemma_payload_grows(fields, k, n);
    assert(fields.take(n) =~= fields);
    if k > 0 {
        assert(fields.take(k).drop_last() =~= fields.take(k - 1));
        assert(fields.drop_last() =~= fields.take(n - 1));
        lemma_payload_grows(fields, k - 1, n - 1);
    }
}

/// The merge of two ascending sequences is ascending, and each of its
/// fields has the id of a field of one of the two.
pub proof fn lemma_merged_ascending(a: Seq<Field>, b: Seq<Field>, filter: bool)
    requires
        ascending(a),
        ascending(b),
    ensures
        ascending(merged(a, b, filter)),
        merged(a, b, filter).len() <= a.len() + b.len(),
        forall|k: int|
            0 <= k < merged(a, b, filter).len() ==> has_id(a, #[trigger] merged(a, b, filter)[k].id)
                || has_id(b, merged(a, b, filter)[k].id),
    decreases a.len() + b.len(),
{
    let m = merged(a, b, filter);
    if a.len() == 0 {
        assert forall|k: int| 0 <= k < m.len() implies has_id(b, #[trigger] m[k].id) by {
            assert(b[k].id == m[k].id);
        }
    } else if b.len() == 0 {
        assert forall|k: int| 0 <= k < m.len() implies has_id(a, #[trigger] m[k].id) by {
            assert(a[k].id == m[k].id);
        }
    } else {
        let a0 = a.drop_last();
        let b0 = b.drop_last();
        let (ra, rb) = if a.last().id > b.last().id {
            (a0, b)
        } else if a.last().id < b.last().id {
            (a, b0)
        } else {
            (a0, b0)
        };
        let top = if a.last().id >= b.last().id {
            a.last().id
        } else {
            b.last().id
        };
        lemma_merged_ascending(ra, rb, filter);
        let rest = merged(ra, rb, filter);
        assert(m.drop_last() =~= rest);
        assert(m.last().id == top);
        assert forall|k: int| 0 <= k < rest.len() implies (#[trigger] rest[k]).id < top && (has_id(
            a,
            rest[k].id,
        ) || has_id(b, rest[k].id)) by {
            if has_id(ra, rest[k].id) {
                let w = choose|w: int| 0 <= w < ra.len() && ra[w].id == rest[k].id;
                assert(a[w].id == rest[k].id);
                if w < a.len() - 1 {
                    assert(a[w].id < a[a.len() - 1].id);
                }
            } else {
                let w = choose|w: int| 0 <= w < rb.len() && rb[w].id == rest[k].id;
                assert(b[w].id == rest[k].id);
                if w < b.len() - 1 {
                    assert(b[w].id < b[b.len() - 1].id);
                }
            }
        }
        assert(has_id(a, top) || has_id(b, top)) by {
            assert(a[a.len() - 1].id == a.last().id);
            assert(b[b.len() - 1].id == b.last().id);
        }
        assert forall|k: int| 0 <= k < m.len() implies has_id(a, #[trigger] m[k].id) || has_id(
            b,
            m[k].id,
        ) by {
            if k < rest.len() {
                assert(m[k] == rest[k]);
            }
        }
        assert forall|x: int, y: int| 0 <= x < y < m.len() implies m[x].id < m[y].id by {
            assert(m[x] == rest[x]);
            if y < rest.len() {
                assert(m[y] == rest[y]);
            }
        }
    }
}

/// Whether the fields `out` with one more field of `len` bytes fit in one
/// record.
pub open spec fn can_take(out: Seq<Field>, len: int) -> bool {
    &&& out.len() < u32::MAX
    &&& payload_of(out).len() <= u32::MAX
    &&& payload_of(out).len() + len <= buffer_limit()
}

/// What a step of the walk does to the merged fields and to their layout,
/// and when the result still fits in one record.
pub proof fn lemma_walk_step(
    a: Seq<Field>,
    b: Seq<Field>,
    i: int,
    j: int,
    filter: bool,
    out: Seq<Field>,
)
    requires
        ascending(a),
        ascending(b),
        frontier(a, b, i, j),
        i < a.len() || j < b.len(),
        out == merged(a.take(i), b.take(j), filter),
        fits(out),
    ensures
        ({
            let (x, i2, j2) = next_step(a, b, i, j, filter);
            let next = out.push(x);
            &&& merged(a.take(i2), b.take(j2), filter) == next
            &&& frontier(a, b, i2, j2)
            &&& payload_of(next) == payload_of(out) + x.bytes
            &&& directory_of(next) == directory_of(out).push(
                DirectoryEntry {
                    id: x.id,
                    type_code: x.type_code,
                    offset: payload_of(out).len() as u32,
                },
            )
            &&& fits(next) <==> can_take(out, x.bytes.len() as int)
            &&& fits(merged(a, b, filter)) ==> fits(next)
        }),
{
    let (x, i2, j2) = next_step(a, b, i, j, filter);
    let next = out.push(x);
    let whole = merged(a, b, filter);
    lemma_merge_step(a, b, i, j, filter);
    lemma_merge_prefix(a, b, i2, j2, filter);
    lemma_layout_push(out, x);
    assert(next.drop_last() =~= out);
    assert(next =~= whole.take(next.len() as int));
    if fits(whole) {
        lemma_prefix_fits(whole, next.len() as int);
    }
}

fn oversize() -> (e: ImprintError)
    ensures
        e@ == too_large(),
{
    schema_error("merged record is too large")
}

impl Merge for ImprintRecord {
    /// Keeps the bytes of the fields of `other` that `self` holds too.
    /// Fails where the merge does not fit in one record.
    fn merge(&self, other: &ImprintRecord) -> (r: Result<ImprintRecord, ImprintError>)
        ensures
            match r {
                Ok(m) => fits(merged(self@.fields(), other@.fields(), false)) && m@ == merge_view(
                    self@,
                    other@,
                    false,
                ),
                Err(e) => !fits(merged(self@.fields(), other@.fields(), false)) && e@
                    == too_large(),
            },
    {
        self.merge_with_opts(other, MergeOptions::default())
    }

    /// Fails where the merge does not fit in one record.
    fn merge_with_opts(&self, other: &ImprintRecord, options: MergeOptions) -> (r: Result<
        ImprintRecord,
        ImprintError,
    >)
        ensures
            match r {
                Ok(m) => fits(
                    merged(self@.fields(), other@.fields(), options.filter_duplicate_payloads),
                ) && m@ == merge_view(self@, other@, options.filter_duplicate_payloads),
                Err(e) => !fits(
                    merged(self@.fields(), other@.fields(), options.filter_duplicate_payloads),
                ) && e@ == too_large(),
            },
    {
        let filter = options.filter_duplicate_payloads;
        let a_dir = self.directory();
        let b_dir = other.directory();
        let ghost va = self@;
        let ghost vb = other@;
        let ghost fa = va.fields();
        let ghost fb = vb.fields();
        let ghost whole = merged(fa, fb, filter);
        let mut new_directory: Vec<DirectoryEntry> = Vec::new();
        let mut new_payload = new_buffer();
        let mut self_idx: usize = 0;
        let mut other_idx: usize = 0;
        let ghost mut out: Seq<Field> = Seq::empty();
        proof {
            lemma_fields_ascending(va);
            lemma_fields_ascending(vb);
            assert(fa.take(0) =~= Seq::<Field>::empty());
            assert(fb.take(0) =~= Seq::<Field>::empty());
        }
        while self_idx < a_dir.len() || other_idx < b_dir.len()
            invariant
                va == self@,
                vb == other@,
                fa == va.fields(),
                fb == vb.fields(),
                ascending(fa),
                ascending(fb),
                whole == merged(fa, fb, filter),
                a_dir@ == va.directory,
                b_dir@ == vb.directory,
                filter == options.filter_duplicate_payloads,
                frontier(fa, fb, self_idx as int, other_idx as int),
                out == merged(fa.take(self_idx as int), fb.take(other_idx as int), filter),
                fits(out),
                new_directory@ == directory_of(out),
                written(new_payload) == payload_of(out),
            decreases (a_dir.len() - self_idx) + (b_dir.len() - other_idx),
        {
            let ghost step = next_step(fa, fb, self_idx as int, other_idx as int, filter);
            let ghost start = payload_of(out);
            proof {
                lemma_walk_step(fa, fb, self_idx as int, other_idx as int, filter, out);
                crate::record::lemma_layout(out);
            }
            let offset = buffer_len(&new_payload);
            if offset > u32::MAX as usize || new_directory.len() >= u32::MAX as usize {
                return Err(oversize());
            }
            let from_self = self_idx < a_dir.len() && (other_idx >= b_dir.len()
                || a_dir[self_idx].id <= b_dir[other_idx].id);
            if from_self {
                let entry = &a_dir[self_idx];
                let duplicate = other_idx < b_dir.len() && entry.id == b_dir[other_idx].id;
                let current_payload = self.field_bytes(self_idx);
                assert(fa[self_idx as int] == va.field_at(self_idx as int));
                if !has_room(&new_payload, bytes_len(&current_payload)) {
                    return Err(oversize());
                }
                new_directory.push(
                    DirectoryEntry {
                        id: entry.id,
                        type_code: entry.type_code,
                        offset: offset as u32,
                    },
                );
                put_slice(&mut new_payload, as_slice(&current_payload));
                if duplicate {
                    assert(fb[other_idx as int] == vb.field_at(other_idx as int));
                    if !filter {
                        let duplicate_payload = other.field_bytes(other_idx);
                        if !has_room(&new_payload, bytes_len(&duplicate_payload)) {
                            return Err(oversize());
                        }
                        put_slice(&mut new_payload, as_slice(&duplicate_payload));
                        assert(written(new_payload) =~= start + step.0.bytes);
                    }
                    other_idx += 1;
                }
                self_idx += 1;
            } else {
                let entry = &b_dir[other_idx];
                let current_payload = other.field_bytes(other_idx);
                assert(fb[other_idx as int] == vb.field_at(other_idx as int));
                if !has_room(&new_payload, bytes_len(&current_payload)) {
                    return Err(oversize());
                }
                new_directory.push(
                    DirectoryEntry {
                        id: entry.id,
                        type_code: entry.type_code,
                        offset: offset as u32,
                    },
                );
                put_slice(&mut new_payload, as_slice(&current_payload));
                other_idx += 1;
            }
            proof {
                out = out.push(step.0);
            }
        }
        let header = *self.header();
        proof {
            assert(fa.take(self_idx as int) =~= fa);
            assert(fb.take(other_idx as int) =~= fb);
            lemma_merged_ascending(fa, fb, filter);
            lemma_layout_fields(header, whole);
        }
        Ok(ImprintRecord::from_parts(header, new_directory, freeze(new_payload)))
    }
}

} // verus!
