//! The builder: collects fields by id and lays them out in a record.

use crate::buffer::{buffer_len, buffer_limit, freeze, new_buffer, written};
use crate::codec::Write;
use crate::error::{schema_error, ErrorView, ImprintError};
use crate::ops::{has_id, lemma_prefix_fits};
use crate::record::{
    ascending, directory_of, fits, lemma_layout_fields, lemma_layout_push, payload_of, Field,
    ImprintRecord, RecordView,
};
use crate::stdlib::strictly_sorted;
use crate::types::{DirectoryEntry, Flags, Header, SchemaId};
use crate::value::{Value, ValueView};
use crate::wire::{encodable, lemma_fault, value_fault, value_wire};
use std::collections::BTreeMap;
use vstd::prelude::*;
use vstd::std_specs::btree::{axiom_spec_btree_map_iter, increasing_seq};
use vstd::std_specs::cmp::OrdSpec;
use vstd::std_specs::iter::IteratorSpec;

verus! {

/// The field that the value `v` makes under the id `id`.
pub open spec fn field_for(id: u32, v: ValueView) -> Field {
    Field { id, type_code: v.type_code(), bytes: value_wire(v) }
}

/// Whether `fields` are the fields of the map `m`: one field for each id of
/// the map, made of the id's value, in ascending order of the ids.
pub open spec fn lists(fields: Seq<Field>, m: Map<u32, ValueView>) -> bool {
    &&& ascending(fields)
    &&& forall|id: u32| has_id(fields, id) <==> m.contains_key(id)
    &&& forall|k: int|
        0 <= k < fields.len() ==> #[trigger] fields[k] == field_for(fields[k].id, m[fields[k].id])
}

/// The fields of the map `m` in ascending order of the ids.
pub open spec fn field_list(m: Map<u32, ValueView>) -> Seq<Field> {
    choose|fields: Seq<Field>| lists(fields, m)
}

/// Whether every value of the map has a wire form.
pub open spec fn all_encodable(m: Map<u32, ValueView>) -> bool {
    forall|id: u32| m.contains_key(id) ==> encodable(#[trigger] m[id])
}

/// The error with which building a record of the first `n` of `fields` fails,
/// if it does: the first that the build comes upon, going through the fields
/// in order. A field whose offset or number does not fit in 32 bits gives
/// [`too_big`]; else the field's value is written behind the fields before
/// it, and its error is that of the write.
pub open spec fn build_fault(fields: Seq<Field>, m: Map<u32, ValueView>, n: nat) -> Option<
    ErrorView,
>
    decreases n,
{
    if n == 0 || n > fields.len() {
        None
    } else {
        match build_fault(fields, m, (n - 1) as nat) {
            Some(e) => Some(e),
            None => {
                let before = payload_of(fields.take(n - 1)).len();
                if before > u32::MAX || n - 1 >= u32::MAX {
                    Some(too_big())
                } else {
                    value_fault(m[fields[n - 1].id], buffer_limit() - before)
                }
            },
        }
    }
}

/// The record that a builder with the schema id `schema_id` and the fields
/// `m` builds: the fields laid out one after the other in ascending order of
/// their ids, under a header with the directory flag.
pub open spec fn built(schema_id: SchemaId, m: Map<u32, ValueView>) -> RecordView {
    RecordView {
        header: Header { flags: Flags(Flags::FIELD_DIRECTORY), schema_id },
        directory: directory_of(field_list(m)),
        payload: payload_of(field_list(m)),
    }
}

/// Two ascending sequences of fields with the same ids have the same ids at
/// the same places.
pub proof fn lemma_same_ids(s: Seq<Field>, t: Seq<Field>)
    requires
        ascending(s),
        ascending(t),
        forall|id: u32| has_id(s, id) <==> has_id(t, id),
    ensures
        s.len() == t.len(),
        forall|k: int| 0 <= k < s.len() ==> s[k].id == t[k].id,
    decreases s.len(),
{
    if s.len() == 0 {
        if t.len() > 0 {
            assert(has_id(t, t[0].id));
        }
    } else {
        let n = s.len() - 1;
        assert(has_id(s, s[n].id));
        let w = choose|w: int| 0 <= w < t.len() && t[w].id == s[n].id;
        let m = t.len() - 1;
        assert(has_id(t, t[m].id));
        let v = choose|v: int| 0 <= v < s.len() && s[v].id == t[m].id;
        if v < n {
            assert(s[v].id < s[n].id);
        }
        if w < m {
            assert(t[w].id < t[m].id);
        }
        assert(w == m && v == n);
        let s0 = s.drop_last();
        let t0 = t.drop_last();
        assert forall|id: u32| has_id(s0, id) <==> has_id(t0, id) by {
            if has_id(s0, id) {
                let k = choose|k: int| 0 <= k < s0.len() && s0[k].id == id;
                assert(s[k].id == id && s[k].id < s[n].id);
                assert(has_id(s, id));
                let k2 = choose|k2: int| 0 <= k2 < t.len() && t[k2].id == id;
                assert(k2 < m);
                assert(t0[k2].id == id);
            }
            if has_id(t0, id) {
                let k = choose|k: int| 0 <= k < t0.len() && t0[k].id == id;
                assert(t[k].id == id && t[k].id < t[m].id);
                assert(has_id(t, id));
                let k2 = choose|k2: int| 0 <= k2 < s.len() && s[k2].id == id;
                assert(k2 < n);
                assert(s0[k2].id == id);
            }
        }
        lemma_same_ids(s0, t0);
        assert forall|k: int| 0 <= k < s.len() implies s[k].id == t[k].id by {
            if k < n {
                assert(s0[k].id == t0[k].id);
            }
        }
    }
}

/// A map has one list of fields only.
pub proof fn lemma_field_list(fields: Seq<Field>, m: Map<u32, ValueView>)
    requires
        lists(fields, m),
    ensures
        field_list(m) == fields,
{
    let chosen = field_list(m);
    assert(lists(chosen, m));
    lemma_same_ids(chosen, fields);
    assert(chosen =~= fields);
}

proof fn lemma_keys_ascend(keys: Seq<u32>)
    requires
        increasing_seq(keys),
    ensures
        strictly_sorted(keys),
{
    vstd::std_specs::btree::axiom_increasing_seq_meaning::<u32>(keys);
    assert forall|i: int, j: int| 0 <= i < j < keys.len() implies keys[i] < keys[j] by {
        assert(keys[i].cmp_spec(&keys[j]) is Less);
    }
}

/// The pairs that a walk through a map in key order yields make the list of
/// the map's fields.
proof fn lemma_walk_lists(
    map: Map<u32, Value>,
    m: Map<u32, ValueView>,
    all: Seq<(&u32, &Value)>,
    full: Seq<Field>,
)
    requires
        m == Map::new(|id: u32| map.contains_key(id), |id: u32| map[id]@),
        strictly_sorted(all.map_values(|kv: (&u32, &Value)| *kv.0)),
        forall|i: int|
            0 <= i < all.len() ==> map.contains_key(*(#[trigger] all[i]).0) && map[*all[i].0]
                == *all[i].1,
        forall|k: u32| #[trigger] map.contains_key(k) ==> all.contains((&k, &map[k])),
        full == Seq::new(all.len(), |k: int| field_for(*all[k].0, (*all[k].1)@)),
    ensures
        lists(full, m),
{
    let keys = all.map_values(|kv: (&u32, &Value)| *kv.0);
    assert forall|i: int, j: int| 0 <= i < j < full.len() implies full[i].id < full[j].id by {
        assert(keys[i] < keys[j]);
    }
    assert forall|id: u32| has_id(full, id) <==> m.contains_key(id) by {
        if has_id(full, id) {
            let k = choose|k: int| 0 <= k < full.len() && full[k].id == id;
            assert(map.contains_key(*all[k].0));
        }
        if m.contains_key(id) {
            assert(map.contains_key(id));
            let pair = (&id, &map[id]);
            assert(all.contains(pair));
            let k = choose|k: int| 0 <= k < all.len() && all[k] == pair;
            assert(full[k].id == id);
        }
    }
    assert forall|k: int| 0 <= k < full.len() implies #[trigger] full[k] == field_for(
        full[k].id,
        m[full[k].id],
    ) by {
        assert(map.contains_key(*all[k].0));
    }
}

/// [`lemma_walk_lists`] for a walk whose keys are known to be increasing.
proof fn lemma_ordered_walk(
    map: Map<u32, Value>,
    m: Map<u32, ValueView>,
    all: Seq<(&u32, &Value)>,
    full: Seq<Field>,
)
    requires
        m == Map::new(|id: u32| map.contains_key(id), |id: u32| map[id]@),
        forall|i: int|
            0 <= i < all.len() ==> map.contains_key(*(#[trigger] all[i]).0) && map[*all[i].0]
                == *all[i].1,
        forall|k: u32| #[trigger] map.contains_key(k) ==> all.contains((&k, &map[k])),
        full == Seq::new(all.len(), |k: int| field_for(*all[k].0, (*all[k].1)@)),
    ensures
        increasing_seq(all.map_values(|kv: (&u32, &Value)| *kv.0)) ==> lists(full, m)
            && field_list(m) == full,
{
    let keys = all.map_values(|kv: (&u32, &Value)| *kv.0);
    if increasing_seq(keys) {
        lemma_keys_ascend(keys);
        lemma_walk_lists(map, m, all, full);
        lemma_field_list(full, m);
    }
}

/// Once a field has failed, the rest of the fields does not change the
/// error.
pub proof fn lemma_build_persists(fields: Seq<Field>, m: Map<u32, ValueView>, n: nat, k: nat)
    requires
        n <= k <= fields.len(),
    ensures
        build_fault(fields, m, n) is Some ==> build_fault(fields, m, k) == build_fault(
            fields,
            m,
            n,
        ),
    decreases k,
{
    if n < k {
        lemma_build_persists(fields, m, n, (k - 1) as nat);
    }
}

/// A build fails for no other reason than that a value has no wire form or
/// the fields do not fit in one record.
pub proof fn lemma_build_fault(fields: Seq<Field>, m: Map<u32, ValueView>, n: nat)
    requires
        lists(fields, m),
        n <= fields.len(),
    ensures
        build_fault(fields, m, n) is None <==> fits(fields.take(n as int)) && forall|k: int|
            0 <= k < n ==> encodable(#[trigger] m[fields[k].id]),
    decreases n,
{
    if n > 0 {
        let i = (n - 1) as int;
        let done = fields.take(i);
        lemma_build_fault(fields, m, (n - 1) as nat);
        assert(fields.take(n as int).drop_last() =~= done);
        assert(fields.take(n as int) =~= done.push(fields[i]));
        lemma_layout_push(done, fields[i]);
        if fits(fields.take(n as int)) {
            lemma_prefix_fits(fields.take(n as int), i);
            assert(fields.take(n as int).take(i) =~= done);
        }
        if fits(done) {
            lemma_fault(m[fields[i].id], buffer_limit() - payload_of(done).len());
        }
    } else {
        assert(fields.take(0) =~= Seq::<Field>::empty());
    }
}

/// The error of building a record that would not fit the format.
pub open spec fn too_big() -> ErrorView {
    ErrorView::SchemaError("record is too large"@)
}

/// A builder of records: takes fields one by one, in any order, and lays
/// them out in ascending order of their ids.
pub struct ImprintWriter {
    schema_id: SchemaId,
    fields: BTreeMap<u32, Value>,
}

impl ImprintWriter {
    /// The schema id that the record will carry.
    pub closed spec fn schema_id(&self) -> SchemaId {
        self.schema_id
    }

    /// The fields that have been added: the value last added under each id.
    pub closed spec fn fields(&self) -> Map<u32, ValueView> {
        Map::new(|id: u32| self.fields@.contains_key(id), |id: u32| self.fields@[id]@)
    }

    /// A builder without fields.
    pub fn new(schema_id: SchemaId) -> (r: Result<Self, ImprintError>)
        ensures
            r matches Ok(w) && w.schema_id() == schema_id && w.fields() == Map::<
                u32,
                ValueView,
            >::empty(),
    {
        let w = ImprintWriter { schema_id, fields: BTreeMap::new() };
        assert(w.fields() =~= Map::<u32, ValueView>::empty());
        Ok(w)
    }

    /// Adds a field. A field that was added under the same id before is
    /// replaced.
    pub fn add_field(&mut self, id: u32, value: Value) -> (r: Result<(), ImprintError>)
        ensures
            r is Ok,
            final(self).fields() == old(self).fields().insert(id, value@),
            final(self).schema_id() == old(self).schema_id(),
    {
        self.fields.insert(id, value);
        assert(self.fields() =~= old(self).fields().insert(id, value@));
        Ok(())
    }

    /// Builds the record: the fields in ascending order of their ids, each
    /// with a directory entry that holds its id, its kind and the length of
    /// the fields before it.
    ///
    /// Fails when a value has no wire form or the record would not fit the
    /// format.
    pub fn build(self) -> (r: Result<ImprintRecord, ImprintError>)
        ensures
            r is Ok <==> all_encodable(self.fields()) && fits(field_list(self.fields())),
            r matches Ok(record) ==> {
                &&& record@ == built(self.schema_id(), self.fields())
                &&& record@.wf()
                &&& record@.packed()
                &&& lists(record@.fields(), self.fields())
            },
            r matches Err(e) ==> build_fault(
                field_list(self.fields()),
                self.fields(),
                field_list(self.fields()).len(),
            ) == Some(e@),
    {
        let ghost m = self.fields();
        let ghost all: Seq<(&u32, &Value)> = self.fields.iter().remaining();
        let ghost keys: Seq<u32> = all.map_values(|kv: (&u32, &Value)| *kv.0);
        let ghost full: Seq<Field> = Seq::new(
            all.len(),
            |k: int| field_for(*all[k].0, (*all[k].1)@),
        );
        let mut directory: Vec<DirectoryEntry> = Vec::new();
        let mut payload = new_buffer();
        proof {
            assert(full.take(0) =~= Seq::<Field>::empty());
            axiom_spec_btree_map_iter(&self.fields);
            assert forall|k: int| 0 <= k < all.len() implies m.contains_key(
                *(#[trigger] all[k]).0,
            ) && m[*all[k].0] == (*all[k].1)@ by {
                assert(self.fields@.contains_key(*all[k].0));
            }
            lemma_ordered_walk(self.fields@, m, all, full);
        }
        for kv in it: self.fields.iter()
            invariant
                it.seq() == all,
                m == self.fields(),
                keys == all.map_values(|kv: (&u32, &Value)| *kv.0),
                full == Seq::new(all.len(), |k: int| field_for(*all[k].0, (*all[k].1)@)),
                increasing_seq(keys),
                increasing_seq(keys) ==> lists(full, m) && field_list(m) == full,
                directory@ == directory_of(full.take(it.index() as int)),
                written(payload) == payload_of(full.take(it.index() as int)),
                fits(full.take(it.index() as int)),
                build_fault(full, m, it.index() as nat) is None,
                forall|k: int|
                    0 <= k < all.len() ==> m.contains_key(*(#[trigger] all[k]).0) && m[*all[k].0]
                        == (*all[k].1)@,
                forall|k: int| 0 <= k < it.index() ==> encodable((*(#[trigger] all[k]).1)@),
        {
            let (id, value) = kv;
            let ghost i = it.index() as int;
            let ghost done = full.take(i);
            let ghost field = full[i];
            proof {
                assert(kv == all[i]);
                assert(field == field_for(*id, value@));
                lemma_layout_push(done, field);
                crate::record::lemma_layout(done);
                assert(full.take(i + 1) =~= done.push(field));
                assert(full.take(i + 1).drop_last() =~= done);
                if fits(full) {
                    lemma_prefix_fits(full, i + 1);
                }
                assert(m.contains_key(*id) && m[*id] == value@);
                lemma_fault(value@, buffer_limit() - written(payload).len());
            }
            proof {
                lemma_build_persists(full, m, (i + 1) as nat, full.len());
            }
            let offset = buffer_len(&payload);
            if offset > u32::MAX as usize || directory.len() >= u32::MAX as usize {
                return Err(schema_error("record is too large"));
            }
            directory.push(
                DirectoryEntry { id: *id, type_code: value.type_code(), offset: offset as u32 },
            );
            value.write(&mut payload)?;
        }
        let header = Header {
            flags: Flags::new(Flags::FIELD_DIRECTORY),
            schema_id: self.schema_id,
        };
        proof {
            assert(full.take(all.len() as int) =~= full);
            lemma_field_list(full, m);
            lemma_layout_fields(header, full);
            assert forall|id: u32| m.contains_key(id) implies encodable(#[trigger] m[id]) by {
                assert(has_id(full, id));
                let k = choose|k: int| 0 <= k < full.len() && full[k].id == id;
                assert(encodable((*all[k].1)@));
            }
        }
        Ok(ImprintRecord::from_parts(header, directory, freeze(payload)))
    }
}

} // verus!
