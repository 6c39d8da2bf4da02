use bytes::BytesMut;
use imprint::{
    ImprintRecord, ImprintWriter, Merge, MergeOptions, Project, Read, SchemaId, Value, Write,
};

fn create_test_record() -> ImprintRecord {
    let mut writer = ImprintWriter::new(SchemaId {
        fieldspace_id: 1,
        schema_hash: 0xdeadbeef,
    })
    .unwrap();

    writer.add_field(1, 42.into()).unwrap();
    writer.add_field(3, "hello".into()).unwrap();
    writer.add_field(5, true.into()).unwrap();
    writer.add_field(7, vec![1, 2, 3].into()).unwrap();

    writer.build().unwrap()
}

fn create_overlapping_records() -> (ImprintRecord, ImprintRecord) {
    let mut writer1 = ImprintWriter::new(SchemaId {
        fieldspace_id: 1,
        schema_hash: 0xdeadbeef,
    })
    .unwrap();
    writer1.add_field(2, "first".into()).unwrap();
    writer1.add_field(3, 42.into()).unwrap();

    let mut writer2 = ImprintWriter::new(SchemaId {
        fieldspace_id: 1,
        schema_hash: 0xcafebabe,
    })
    .unwrap();
    writer2.add_field(1, true.into()).unwrap();
    writer2.add_field(2, "second".into()).unwrap();

    (writer1.build().unwrap(), writer2.build().unwrap())
}

#[test]
fn should_project_subset_of_fields() {
    let record = create_test_record();

    let projected = record.project(&[1, 5]).unwrap();

    assert_eq!(projected.directory().len(), 2);
    assert_eq!(projected.get_value(1).unwrap(), Some(42.into()));
    assert_eq!(projected.get_value(5).unwrap(), Some(true.into()));

    assert_eq!(projected.get_value(3).unwrap(), None);
    assert_eq!(projected.get_value(7).unwrap(), None);
}

#[test]
fn should_maintain_field_order_regardless_of_input() {
    let record = create_test_record();

    let projected = record.project(&[7, 1, 5, 3]).unwrap();

    assert_eq!(projected.directory().len(), 4);
    assert_eq!(projected.get_value(1).unwrap(), Some(42.into()));
    assert_eq!(projected.get_value(3).unwrap(), Some("hello".into()));
    assert_eq!(projected.get_value(5).unwrap(), Some(true.into()));
    assert_eq!(projected.get_value(7).unwrap(), Some(vec![1, 2, 3].into()));

    let dir_ids: Vec<u32> = projected.directory().iter().map(|e| e.id).collect();
    assert!(
        dir_ids.windows(2).all(|w| w[0] < w[1]),
        "directory entries should be sorted by field id"
    );
}

#[test]
fn should_handle_single_field_projection() {
    let record = create_test_record();

    let projected = record.project(&[3]).unwrap();

    assert_eq!(projected.directory().len(), 1);
    assert_eq!(projected.get_value(3).unwrap(), Some("hello".into()));
}

#[test]
fn should_preserve_all_fields_when_projecting_all() {
    let record = create_test_record();
    let all_fields: Vec<u32> = record.directory().iter().map(|e| e.id).collect();

    let projected = record.project(&all_fields).unwrap();

    assert_eq!(projected.directory().len(), record.directory().len());
    for entry in record.directory() {
        assert_eq!(
            projected.get_value(entry.id).unwrap(),
            record.get_value(entry.id).unwrap(),
            "field {} should have matching value",
            entry.id
        );
    }
}

#[test]
fn should_handle_empty_projection() {
    let record = create_test_record();

    let projected = record.project(&[]).unwrap();

    assert_eq!(projected.directory().len(), 0);
    assert!(projected.payload().is_empty());
}

#[test]
fn should_ignore_nonexistent_fields() {
    let record = create_test_record();

    let projected = record.project(&[1, 99, 100]).unwrap();

    assert_eq!(projected.directory().len(), 1);
    assert_eq!(projected.get_value(1).unwrap(), Some(42.into()));
    assert_eq!(projected.get_value(99).unwrap(), None);
    assert_eq!(projected.get_value(100).unwrap(), None);
}

#[test]
fn should_deduplicate_requested_fields() {
    let record = create_test_record();

    let projected = record.project(&[1, 1, 1]).unwrap();

    assert_eq!(projected.directory().len(), 1);
    assert_eq!(projected.get_value(1).unwrap(), Some(42.into()));
}

#[test]
fn should_handle_projection_from_empty_record() {
    let writer = ImprintWriter::new(SchemaId {
        fieldspace_id: 1,
        schema_hash: 0xdeadbeef,
    })
    .unwrap();
    let empty_record = writer.build().unwrap();

    let projected = empty_record.project(&[1, 2, 3]).unwrap();

    assert_eq!(projected.directory().len(), 0);
    assert!(projected.payload().is_empty());
}

#[test]
fn should_preserve_exact_byte_representation() {
    let record = create_test_record();
    let original_bytes = record.get_raw_bytes(3).unwrap();

    let projected = record.project(&[3]).unwrap();

    let projected_bytes = projected.get_raw_bytes(3).unwrap();
    assert_eq!(
        original_bytes, projected_bytes,
        "byte representation should be identical"
    );
}

#[test]
fn should_reduce_payload_size_when_projecting_subset() {
    let mut writer = ImprintWriter::new(SchemaId {
        fieldspace_id: 1,
        schema_hash: 0xdeadbeef,
    })
    .unwrap();

    writer.add_field(1, 42.into()).unwrap();
    writer.add_field(2, "a".repeat(1000).into()).unwrap();
    writer.add_field(3, 123i64.into()).unwrap();
    writer.add_field(4, vec![0; 500].into()).unwrap();
    let record = writer.build().unwrap();

    let original_payload_size = record.payload().len();

    let projected = record.project(&[1, 3]).unwrap();

    assert!(
        projected.payload().len() < original_payload_size,
        "projected payload size ({}) should be less than original ({})",
        projected.payload().len(),
        original_payload_size
    );

    let expected_size = 4 + 8;
    assert!(
        (projected.payload().len() as i64 - expected_size).abs() <= 2,
        "projected payload size ({}) should be close to expected size for int32 + int64 ({})",
        projected.payload().len(),
        expected_size
    );

    assert_eq!(projected.get_value(1).unwrap(), Some(42.into()));
    assert_eq!(projected.get_value(3).unwrap(), Some(123i64.into()));
}

#[test]
fn should_merge_records_with_distinct_fields() {
    let mut writer1 = ImprintWriter::new(SchemaId {
        fieldspace_id: 1,
        schema_hash: 0xdeadbeef,
    })
    .unwrap();
    writer1.add_field(1, 42.into()).unwrap();
    writer1.add_field(3, "hello".into()).unwrap();
    let record1 = writer1.build().unwrap();

    let mut writer2 = ImprintWriter::new(SchemaId {
        fieldspace_id: 1,
        schema_hash: 0xcafebabe,
    })
    .unwrap();
    writer2.add_field(2, true.into()).unwrap();
    writer2.add_field(4, 123i64.into()).unwrap();
    let record2 = writer2.build().unwrap();

    let merged = record1.merge(&record2).unwrap();

    assert_eq!(merged.directory().len(), 4);
    assert_eq!(merged.get_value(1).unwrap(), Some(42.into()));
    assert_eq!(merged.get_value(2).unwrap(), Some(true.into()));
    assert_eq!(merged.get_value(3).unwrap(), Some("hello".into()));
    assert_eq!(merged.get_value(4).unwrap(), Some(123i64.into()));
    let mut start = 0;
    let mut end = start + 32 / 8;
    assert_eq!(&merged.payload().slice(start..end)[..], 42u32.to_le_bytes());
    start = end;
    end = start + 1;
    assert_eq!(&merged.payload().slice(start..end)[..], 1u8.to_le_bytes());
    start = end + 1;
    end = start + "hello".len();
    assert_eq!(&merged.payload().slice(start..end)[..], "hello".as_bytes());
    start = end;
    end = start + 64 / 8;
    assert_eq!(
        &merged.payload().slice(start..end)[..],
        123i64.to_le_bytes()
    );
}

#[test]
fn should_merge_records_with_overlapping_fields_keeping_all_payloads() {
    let (record1, record2) = create_overlapping_records();

    let merged = record1.merge(&record2).unwrap();

    assert_eq!(merged.directory().len(), 3);
    assert_eq!(merged.get_value(1).unwrap(), Some(true.into()));
    assert_eq!(merged.get_value(2).unwrap(), Some("first".into()));
    assert_eq!(merged.get_value(3).unwrap(), Some(42.into()));
    let mut start = 0;
    let mut end = 1;
    assert_eq!(&merged.payload().slice(start..end)[..], 1u8.to_le_bytes());
    start = end + 1;
    end = start + "first".len();
    assert_eq!(&merged.payload().slice(start..end)[..], "first".as_bytes());
    start = end + 1;
    end = start + "second".len();
    assert_eq!(&merged.payload().slice(start..end)[..], "second".as_bytes());
    start = end;
    end = start + 32 / 8;
    assert_eq!(&merged.payload().slice(start..end)[..], 42u32.to_le_bytes());
}

#[test]
fn should_merge_records_with_overlapping_fields_filtering_overlapping_payloads() {
    let (record1, record2) = create_overlapping_records();

    let merged = record1
        .merge_with_opts(
            &record2,
            MergeOptions {
                filter_duplicate_payloads: true,
            },
        )
        .unwrap();

    assert_eq!(merged.directory().len(), 3);
    assert_eq!(merged.get_value(1).unwrap(), Some(true.into()));
    assert_eq!(merged.get_value(2).unwrap(), Some("first".into()));
    assert_eq!(merged.get_value(3).unwrap(), Some(42.into()));
    let mut start = 0;
    let mut end = 1;
    assert_eq!(&merged.payload().slice(start..end)[..], 1u8.to_le_bytes());
    start = end + 1;
    end = start + "first".len();
    assert_eq!(&merged.payload().slice(start..end)[..], "first".as_bytes());
    start = end;
    end = start + 32 / 8;
    assert_eq!(&merged.payload().slice(start..end)[..], 42u32.to_le_bytes());
}

#[test]
fn should_preserve_schema_id_from_first_record() {
    let schema1 = SchemaId {
        fieldspace_id: 1,
        schema_hash: 0xdeadbeef,
    };
    let mut writer1 = ImprintWriter::new(schema1).unwrap();
    writer1.add_field(1, 42.into()).unwrap();
    let record1 = writer1.build().unwrap();

    let schema2 = SchemaId {
        fieldspace_id: 1,
        schema_hash: 0xcafebabe,
    };
    let mut writer2 = ImprintWriter::new(schema2).unwrap();
    writer2.add_field(2, true.into()).unwrap();
    let record2 = writer2.build().unwrap();

    let merged = record1.merge(&record2).unwrap();

    assert_eq!(merged.header().schema_id, schema1);
}

fn ids_of(record: &ImprintRecord) -> Vec<u32> {
    record.directory().iter().map(|e| e.id).collect()
}

fn offsets_of(record: &ImprintRecord) -> Vec<u32> {
    record.directory().iter().map(|e| e.offset).collect()
}

fn record_of(hash: u32, fields: Vec<(u32, Value)>) -> ImprintRecord {
    let mut writer = ImprintWriter::new(SchemaId {
        fieldspace_id: 3,
        schema_hash: hash,
    })
    .unwrap();
    for (id, value) in fields {
        writer.add_field(id, value).unwrap();
    }
    writer.build().unwrap()
}

#[test]
fn project_takes_the_asked_ids_that_the_record_holds() {
    let record = create_test_record();
    let projected = record.project(&[5, 1]).unwrap();
    assert_eq!(ids_of(&projected), vec![1, 5]);
    assert_eq!(offsets_of(&projected), vec![0, 4]);
    assert_eq!(&projected.payload()[..], &[42, 0, 0, 0, 1]);
    assert_eq!(
        projected.get_raw_bytes(5).unwrap(),
        record.get_raw_bytes(5).unwrap()
    );
    assert_eq!(projected.header().flags, record.header().flags);
    assert_eq!(projected.header().schema_id.fieldspace_id, 1);
    assert_eq!(projected.header().schema_id.schema_hash, 0xdeadbeef);
}

#[test]
fn project_marks_the_schema_hash_as_unknown() {
    let record = record_of(0x12345678, vec![(1, Value::Int32(1))]);
    let projected = record.project(&[1]).unwrap();
    assert_eq!(projected.header().schema_id.fieldspace_id, 3);
    assert_eq!(projected.header().schema_id.schema_hash, 0xdeadbeef);
}

#[test]
fn project_finds_ids_that_follow_absent_smaller_ids() {
    let record = create_test_record();
    assert_eq!(ids_of(&record.project(&[0, 1]).unwrap()), vec![1]);
    assert_eq!(ids_of(&record.project(&[2, 3, 4, 7]).unwrap()), vec![3, 7]);
    assert_eq!(
        ids_of(&record.project(&[100, 6, 5, 0, 5]).unwrap()),
        vec![5]
    );
}

#[test]
fn project_with_repeated_and_absent_ids_yields_one_entry() {
    let record = create_test_record();
    let projected = record.project(&[1, 1, 99, 1]).unwrap();
    assert_eq!(ids_of(&projected), vec![1]);
    assert_eq!(&projected.payload()[..], &[42, 0, 0, 0]);
}

#[test]
fn project_with_disjoint_ids_is_empty() {
    let record = create_test_record();
    let projected = record.project(&[2, 4, 6, 8]).unwrap();
    assert!(projected.directory().is_empty());
    assert!(projected.payload().is_empty());
}

#[test]
fn project_of_each_single_field_keeps_its_bytes() {
    let record = create_test_record();
    for entry in record.directory() {
        let projected = record.project(&[entry.id]).unwrap();
        assert_eq!(ids_of(&projected), vec![entry.id]);
        assert_eq!(
            projected.get_raw_bytes(entry.id),
            record.get_raw_bytes(entry.id)
        );
        assert_eq!(projected.directory()[0].type_code, entry.type_code);
        assert_eq!(projected.directory()[0].offset, 0);
    }
}

#[test]
fn projection_round_trips() {
    let record = create_test_record();
    let projected = record.project(&[3, 7]).unwrap();
    let mut buf = BytesMut::new();
    projected.write(&mut buf).unwrap();
    let (read, _) = ImprintRecord::read(buf.freeze()).unwrap();
    assert_eq!(read, projected);
    assert_eq!(read.get_value(7).unwrap(), Some(Value::Bytes(vec![1, 2, 3])));
}

#[test]
fn merge_of_disjoint_records_has_all_entries() {
    let a = record_of(
        1,
        vec![(1, Value::Int32(42)), (3, Value::String("hello".to_string()))],
    );
    let b = record_of(2, vec![(2, Value::Bool(true)), (4, Value::Int64(123))]);
    let merged = a.merge(&b).unwrap();
    assert_eq!(ids_of(&merged), vec![1, 2, 3, 4]);
    assert_eq!(offsets_of(&merged), vec![0, 4, 5, 11]);
    assert_eq!(
        merged.directory().len(),
        a.directory().len() + b.directory().len()
    );
    assert_eq!(merged.payload().len(), a.payload().len() + b.payload().len());
    for id in [1, 3] {
        assert_eq!(merged.get_value(id).unwrap(), a.get_value(id).unwrap());
        assert_eq!(merged.get_raw_bytes(id), a.get_raw_bytes(id));
    }
    for id in [2, 4] {
        assert_eq!(merged.get_value(id).unwrap(), b.get_value(id).unwrap());
        assert_eq!(merged.get_raw_bytes(id), b.get_raw_bytes(id));
    }
    assert_eq!(*merged.header(), *a.header());
}

#[test]
fn merge_is_not_commutative() {
    let (a, b) = create_overlapping_records();
    let ab = a.merge(&b).unwrap();
    let ba = b.merge(&a).unwrap();
    assert_eq!(ab.get_value(2).unwrap(), Some("first".into()));
    assert_eq!(ba.get_value(2).unwrap(), Some("second".into()));
    assert_eq!(ab.header().schema_id.schema_hash, 0xdeadbeef);
    assert_eq!(ba.header().schema_id.schema_hash, 0xcafebabe);
}

#[test]
fn merge_keeps_the_values_of_the_first_record() {
    let (a, b) = create_overlapping_records();
    for filter in [false, true] {
        let merged = a
            .merge_with_opts(
                &b,
                MergeOptions {
                    filter_duplicate_payloads: filter,
                },
            )
            .unwrap();
        for entry in a.directory() {
            assert_eq!(
                merged.get_value(entry.id).unwrap(),
                a.get_value(entry.id).unwrap()
            );
        }
    }
}

#[test]
fn merge_keeps_losing_bytes_unless_filtered() {
    let (a, b) = create_overlapping_records();
    let kept = a.merge(&b).unwrap();
    let filtered = a
        .merge_with_opts(
            &b,
            MergeOptions {
                filter_duplicate_payloads: true,
            },
        )
        .unwrap();
    assert_eq!(ids_of(&kept), vec![1, 2, 3]);
    assert_eq!(ids_of(&filtered), vec![1, 2, 3]);
    assert_eq!(offsets_of(&kept), vec![0, 1, 14]);
    assert_eq!(offsets_of(&filtered), vec![0, 1, 7]);
    assert_eq!(kept.payload().len(), 18);
    assert_eq!(filtered.payload().len(), 11);
    assert!(filtered.payload().len() < kept.payload().len());
    assert_eq!(
        &kept.get_raw_bytes(2).unwrap()[..],
        &[5, b'f', b'i', b'r', b's', b't', 6, b's', b'e', b'c', b'o', b'n', b'd']
    );
    assert_eq!(
        &filtered.get_raw_bytes(2).unwrap()[..],
        &[5, b'f', b'i', b'r', b's', b't']
    );
}

#[test]
fn merge_without_overlap_is_the_same_with_and_without_filter() {
    let a = record_of(1, vec![(1, Value::Int32(1))]);
    let b = record_of(2, vec![(2, Value::Int32(2))]);
    let kept = a.merge(&b).unwrap();
    let filtered = a
        .merge_with_opts(
            &b,
            MergeOptions {
                filter_duplicate_payloads: true,
            },
        )
        .unwrap();
    assert_eq!(kept, filtered);
}

#[test]
fn zombie_bytes_survive_a_round_trip() {
    let (a, b) = create_overlapping_records();
    let merged = a.merge(&b).unwrap();
    let mut buf = BytesMut::new();
    merged.write(&mut buf).unwrap();
    let (read, _) = ImprintRecord::read(buf.freeze()).unwrap();
    assert_eq!(read, merged);
    assert_eq!(read.get_value(2).unwrap(), Some("first".into()));
    assert_eq!(read.payload().len(), 18);
}

#[test]
fn merge_with_an_empty_record_keeps_the_fields() {
    let a = create_test_record();
    let empty = record_of(9, vec![]);
    let left = a.merge(&empty).unwrap();
    assert_eq!(left, a);
    let right = empty.merge(&a).unwrap();
    assert_eq!(ids_of(&right), ids_of(&a));
    assert_eq!(right.payload(), a.payload());
    assert_eq!(right.header().schema_id.schema_hash, 9);
    let both = empty.merge(&empty).unwrap();
    assert!(both.directory().is_empty());
    assert!(both.payload().is_empty());
}

#[test]
fn merge_interleaves_many_fields() {
    let a = record_of(
        1,
        vec![
            (1, Value::Int32(1)),
            (4, Value::Int32(4)),
            (5, Value::Int32(5)),
            (9, Value::Int32(9)),
        ],
    );
    let b = record_of(
        2,
        vec![
            (0, Value::Bool(true)),
            (4, Value::Bool(false)),
            (6, Value::Bool(true)),
            (7, Value::Bool(false)),
            (10, Value::Bool(true)),
        ],
    );
    let merged = a
        .merge_with_opts(
            &b,
            MergeOptions {
                filter_duplicate_payloads: true,
            },
        )
        .unwrap();
    assert_eq!(ids_of(&merged), vec![0, 1, 4, 5, 6, 7, 9, 10]);
    assert_eq!(offsets_of(&merged), vec![0, 1, 5, 9, 13, 14, 15, 19]);
    assert_eq!(merged.get_value(4).unwrap(), Some(Value::Int32(4)));
    assert_eq!(merged.get_value(10).unwrap(), Some(Value::Bool(true)));
    assert_eq!(merged.payload().len(), 20);
}

#[test]
fn default_options_keep_duplicates() {
    assert!(!MergeOptions::default().filter_duplicate_payloads);
}
