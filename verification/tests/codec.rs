use bytes::{BufMut, Bytes, BytesMut};
use imprint::{
    DirectoryEntry, Flags, Header, ImprintError, ImprintRecord, ImprintWriter, Read, SchemaId,
    TypeCode, Value, ValueRead, Write, MAGIC, VERSION,
};

fn schema() -> SchemaId {
    SchemaId {
        fieldspace_id: 1,
        schema_hash: 0xdeadbeef,
    }
}

fn wire_of(value: &Value) -> Vec<u8> {
    let mut buf = BytesMut::new();
    value.write(&mut buf).unwrap();
    buf.to_vec()
}

fn read_back(value: &Value) -> (Value, usize) {
    let bytes = Bytes::from(wire_of(value));
    Value::read(value.type_code(), bytes).unwrap()
}

fn record_of(fields: Vec<(u32, Value)>) -> ImprintRecord {
    let mut writer = ImprintWriter::new(schema()).unwrap();
    for (id, value) in fields {
        writer.add_field(id, value).unwrap();
    }
    writer.build().unwrap()
}

fn is_schema_error(r: Result<(), ImprintError>) -> bool {
    matches!(r, Err(ImprintError::SchemaError(_)))
}

#[test]
fn should_handle_error_cases() {
    let mut buf = BytesMut::new();
    buf.put_u8(0x00);
    buf.put_u8(VERSION);
    buf.put_u8(0x00);
    buf.put_u64_le(0);

    assert!(matches!(
        ImprintRecord::read(buf.freeze()),
        Err(ImprintError::InvalidMagic(0x00))
    ));

    let mut buf = BytesMut::new();
    buf.put_u8(MAGIC);
    buf.put_u8(0xFF);
    buf.put_u8(0x00);
    buf.put_u64_le(0);

    assert!(matches!(
        ImprintRecord::read(buf.freeze()),
        Err(ImprintError::UnsupportedVersion(0xFF))
    ));

    let mut buf = BytesMut::new();
    buf.put_u8(MAGIC);
    buf.put_u8(VERSION);

    assert!(matches!(
        ImprintRecord::read(buf.freeze()),
        Err(ImprintError::BufferUnderflow { .. })
    ));
}

#[test]
fn test_roundtrip_nested_record() {
    let mut inner_writer = ImprintWriter::new(SchemaId {
        fieldspace_id: 2,
        schema_hash: 0xcafebabe,
    })
    .unwrap();
    inner_writer.add_field(1, Value::Int32(42)).unwrap();
    inner_writer
        .add_field(2, Value::String("nested".to_string()))
        .unwrap();
    let inner_record = inner_writer.build().unwrap();

    let mut outer_writer = ImprintWriter::new(SchemaId {
        fieldspace_id: 1,
        schema_hash: 0xdeadbeef,
    })
    .unwrap();
    outer_writer
        .add_field(1, Value::Row(Box::new(inner_record)))
        .unwrap();
    outer_writer.add_field(2, Value::Int64(123)).unwrap();
    let outer_record = outer_writer.build().unwrap();

    let mut buf = BytesMut::new();
    outer_record.write(&mut buf).unwrap();
    let (deserialized_record, _) = ImprintRecord::read(buf.freeze()).unwrap();

    assert_eq!(deserialized_record.header().schema_id.fieldspace_id, 1);
    assert_eq!(
        deserialized_record.header().schema_id.schema_hash,
        0xdeadbeef
    );
    assert_eq!(
        deserialized_record.header().flags.0,
        Flags::FIELD_DIRECTORY
    );
    assert_eq!(deserialized_record.directory().len(), 2);

    let got_row = deserialized_record.get_value(1).unwrap().unwrap();
    let got_int64 = deserialized_record.get_value(2).unwrap().unwrap();
    assert_eq!(got_int64, Value::Int64(123));

    if let Value::Row(inner) = got_row {
        assert_eq!(inner.header().schema_id.fieldspace_id, 2);
        assert_eq!(inner.header().schema_id.schema_hash, 0xcafebabe);
        assert_eq!(inner.header().flags.0, Flags::FIELD_DIRECTORY);
        assert_eq!(inner.directory().len(), 2);

        let got_inner_int = inner.get_value(1).unwrap().unwrap();
        let got_inner_str = inner.get_value(2).unwrap().unwrap();

        assert_eq!(got_inner_int, Value::Int32(42));
        assert_eq!(got_inner_str, Value::String("nested".to_string()));
    } else {
        panic!("Expected Row value");
    }
}

#[test]
fn test_duplicate_field_id() {
    let mut writer = ImprintWriter::new(SchemaId {
        fieldspace_id: 1,
        schema_hash: 0xdeadbeef,
    })
    .unwrap();

    writer.add_field(1, 42.into()).unwrap();
    writer.add_field(1, 43.into()).unwrap();

    let record = writer.build().unwrap();
    assert_eq!(record.directory().len(), 1);
    assert_eq!(record.get_value(1).unwrap(), Some(43.into()));
}

#[test]
fn primitive_record_round_trips() {
    let record = record_of(vec![
        (1, Value::Int32(42)),
        (2, Value::String("hello".to_string())),
    ]);
    let mut buf = BytesMut::new();
    record.write(&mut buf).unwrap();
    let total = buf.len();
    let (read, consumed) = ImprintRecord::read(buf.freeze()).unwrap();
    assert_eq!(consumed, total);
    assert_eq!(
        *read.header(),
        Header {
            flags: Flags::new(Flags::FIELD_DIRECTORY),
            schema_id: schema()
        }
    );
    assert_eq!(read.directory().len(), 2);
    assert_eq!(read.get_value(1).unwrap(), Some(Value::Int32(42)));
    assert_eq!(
        read.get_value(2).unwrap(),
        Some(Value::String("hello".to_string()))
    );
    assert_eq!(read.get_value(3).unwrap(), None);
    assert_eq!(read, record);
}

#[test]
fn record_has_known_bytes() {
    let record = record_of(vec![
        (1, Value::Int32(42)),
        (2, Value::String("hi".to_string())),
    ]);
    let mut buf = BytesMut::new();
    record.write(&mut buf).unwrap();
    let expected: Vec<u8> = vec![
        0x49, 0x01, 0x01, // magic, version, flags
        0x01, 0x00, 0x00, 0x00, // fieldspace
        0xef, 0xbe, 0xad, 0xde, // schema hash
        0x02, // two entries
        0x01, 0x00, 0x00, 0x00, 0x02, 0x00, 0x00, 0x00, 0x00, // id 1, Int32, offset 0
        0x02, 0x00, 0x00, 0x00, 0x07, 0x04, 0x00, 0x00, 0x00, // id 2, String, offset 4
        0x2a, 0x00, 0x00, 0x00, // 42
        0x02, 0x68, 0x69, // "hi"
    ];
    assert_eq!(buf.to_vec(), expected);
}

#[test]
fn builder_lays_fields_out_in_id_order() {
    let record = record_of(vec![
        (7, Value::Bytes(vec![1, 2, 3])),
        (1, Value::Int32(42)),
        (5, Value::Bool(true)),
        (3, Value::String("hello".to_string())),
        (4, Value::Null),
    ]);
    let expected = vec![
        DirectoryEntry {
            id: 1,
            type_code: TypeCode::Int32,
            offset: 0,
        },
        DirectoryEntry {
            id: 3,
            type_code: TypeCode::String,
            offset: 4,
        },
        DirectoryEntry {
            id: 4,
            type_code: TypeCode::Null,
            offset: 10,
        },
        DirectoryEntry {
            id: 5,
            type_code: TypeCode::Bool,
            offset: 10,
        },
        DirectoryEntry {
            id: 7,
            type_code: TypeCode::Bytes,
            offset: 11,
        },
    ];
    assert_eq!(*record.directory(), expected);
    assert_eq!(record.payload().len(), 15);
    assert_eq!(
        &record.payload()[..],
        &[42, 0, 0, 0, 5, b'h', b'e', b'l', b'l', b'o', 1, 3, 1, 2, 3]
    );
    assert!(record.header().flags.has_field_directory());
    assert_eq!(record.header().schema_id, schema());
}

#[test]
fn values_have_known_bytes() {
    assert_eq!(wire_of(&Value::Null), Vec::<u8>::new());
    assert_eq!(wire_of(&Value::Bool(false)), vec![0]);
    assert_eq!(wire_of(&Value::Bool(true)), vec![1]);
    assert_eq!(wire_of(&Value::Int32(-2)), vec![0xfe, 0xff, 0xff, 0xff]);
    assert_eq!(
        wire_of(&Value::Int32(0x01020304)),
        vec![0x04, 0x03, 0x02, 0x01]
    );
    assert_eq!(
        wire_of(&Value::Int64(-1)),
        vec![0xff, 0xff, 0xff, 0xff, 0xff, 0xff, 0xff, 0xff]
    );
    assert_eq!(
        wire_of(&Value::Int64(0x0102030405060708)),
        vec![0x08, 0x07, 0x06, 0x05, 0x04, 0x03, 0x02, 0x01]
    );
    assert_eq!(
        wire_of(&Value::Float32(1.0f32.to_bits())),
        1.0f32.to_le_bytes().to_vec()
    );
    assert_eq!(
        wire_of(&Value::Float32(1.0f32.to_bits())),
        vec![0x00, 0x00, 0x80, 0x3f]
    );
    assert_eq!(
        wire_of(&Value::Float64((-2.5f64).to_bits())),
        (-2.5f64).to_le_bytes().to_vec()
    );
    assert_eq!(wire_of(&Value::Bytes(vec![9, 8])), vec![2, 9, 8]);
    assert_eq!(
        wire_of(&Value::String("é".to_string())),
        vec![2, 0xc3, 0xa9]
    );
    assert_eq!(
        wire_of(&Value::Array(vec![Value::Int32(1), Value::Int32(2)])),
        vec![0x02, 0x02, 1, 0, 0, 0, 2, 0, 0, 0]
    );
}

#[test]
fn long_bytes_get_a_two_byte_length() {
    let wire = wire_of(&Value::Bytes(vec![7; 200]));
    assert_eq!(wire.len(), 202);
    assert_eq!(&wire[..2], &[0xc8, 0x01]);
}

#[test]
fn values_of_every_kind_round_trip() {
    let values = vec![
        Value::Null,
        Value::Bool(true),
        Value::Bool(false),
        Value::Int32(i32::MIN),
        Value::Int32(-1),
        Value::Int32(i32::MAX),
        Value::Int64(i64::MIN),
        Value::Int64(i64::MAX),
        Value::Float32(3.25f32.to_bits()),
        Value::Float32(f32::NAN.to_bits()),
        Value::Float64((-0.0f64).to_bits()),
        Value::Float64(f64::INFINITY.to_bits()),
        Value::Bytes(vec![]),
        Value::Bytes(vec![0, 255, 128]),
        Value::String(String::new()),
        Value::String("héllo, wörld ✓".to_string()),
    ];
    for value in values {
        let len = wire_of(&value).len();
        assert_eq!(read_back(&value), (value, len));
    }
}

#[test]
fn floats_come_back_as_the_same_number() {
    let (value, _) = read_back(&Value::Float64(6.02e23f64.to_bits()));
    match value {
        Value::Float64(bits) => assert_eq!(f64::from_bits(bits), 6.02e23),
        _ => panic!("expected a Float64"),
    }
    let (value, _) = read_back(&Value::Float32((-1.5f32).to_bits()));
    match value {
        Value::Float32(bits) => assert_eq!(f32::from_bits(bits), -1.5),
        _ => panic!("expected a Float32"),
    }
}

#[test]
fn array_of_length_one_round_trips() {
    let value = Value::Array(vec![Value::String("only".to_string())]);
    assert_eq!(read_back(&value), (value, 7));
}

#[test]
fn arrays_round_trip() {
    let value = Value::Array(vec![Value::Int64(1), Value::Int64(-2), Value::Int64(3)]);
    assert_eq!(read_back(&value), (value, 26));
    let nulls = Value::Array(vec![Value::Null, Value::Null, Value::Null]);
    assert_eq!(read_back(&nulls), (nulls, 2));
    let nested = Value::Array(vec![
        Value::Array(vec![Value::Bool(true)]),
        Value::Array(vec![Value::Int32(5), Value::Int32(6)]),
    ]);
    let len = wire_of(&nested).len();
    assert_eq!(read_back(&nested), (nested, len));
}

#[test]
fn empty_array_is_rejected_on_write() {
    let mut buf = BytesMut::new();
    let r = Value::Array(vec![]).write(&mut buf);
    assert_eq!(
        r,
        Err(ImprintError::SchemaError(
            "empty array not allowed".to_string()
        ))
    );
    assert!(buf.is_empty());
    let inner = Value::Array(vec![Value::Array(vec![])]);
    assert!(is_schema_error(inner.write(&mut BytesMut::new())));
}

#[test]
fn mixed_array_is_rejected_on_write() {
    let mut buf = BytesMut::new();
    let r = Value::Array(vec![Value::Int32(1), Value::Int64(2)]).write(&mut buf);
    assert_eq!(
        r,
        Err(ImprintError::SchemaError(
            "array elements must have same type".to_string()
        ))
    );
}

#[test]
fn builder_passes_on_the_error_of_a_value() {
    let mut writer = ImprintWriter::new(schema()).unwrap();
    writer.add_field(1, Value::Int32(1)).unwrap();
    writer.add_field(2, Value::Array(vec![])).unwrap();
    assert!(matches!(
        writer.build(),
        Err(ImprintError::SchemaError(_))
    ));
}

#[test]
fn empty_array_on_the_wire_reads_as_empty() {
    let bytes = Bytes::from(vec![0x02, 0x00]);
    assert_eq!(
        Value::read(TypeCode::Array, bytes).unwrap(),
        (Value::Array(vec![]), 2)
    );
}

#[test]
fn bool_other_than_zero_or_one_is_rejected() {
    let r = Value::read(TypeCode::Bool, Bytes::from(vec![2u8]));
    assert_eq!(
        r,
        Err(ImprintError::SchemaError(
            "invalid boolean value".to_string()
        ))
    );
    assert_eq!(
        Value::read(TypeCode::Bool, Bytes::new()),
        Err(ImprintError::BufferUnderflow {
            needed: 1,
            available: 0
        })
    );
}

#[test]
fn truncated_numbers_are_underflows() {
    assert_eq!(
        Value::read(TypeCode::Int32, Bytes::from(vec![1u8, 2, 3])),
        Err(ImprintError::BufferUnderflow {
            needed: 4,
            available: 3
        })
    );
    assert_eq!(
        Value::read(TypeCode::Int64, Bytes::from(vec![1u8; 7])),
        Err(ImprintError::BufferUnderflow {
            needed: 8,
            available: 7
        })
    );
    assert_eq!(
        Value::read(TypeCode::Float32, Bytes::new()),
        Err(ImprintError::BufferUnderflow {
            needed: 4,
            available: 0
        })
    );
    assert_eq!(
        Value::read(TypeCode::Float64, Bytes::from(vec![0u8; 2])),
        Err(ImprintError::BufferUnderflow {
            needed: 8,
            available: 2
        })
    );
}

#[test]
fn truncated_bytes_are_an_underflow() {
    assert_eq!(
        Value::read(TypeCode::Bytes, Bytes::from(vec![5u8, 1, 2])),
        Err(ImprintError::BufferUnderflow {
            needed: 5,
            available: 2
        })
    );
    assert_eq!(
        Value::read(TypeCode::String, Bytes::from(vec![0x80u8])),
        Err(ImprintError::BufferUnderflow {
            needed: 1,
            available: 0
        })
    );
}

#[test]
fn invalid_utf8_is_rejected() {
    assert_eq!(
        Value::read(TypeCode::String, Bytes::from(vec![2u8, 0xff, 0xfe])),
        Err(ImprintError::InvalidUtf8String)
    );
    assert_eq!(
        Value::read(TypeCode::String, Bytes::from(vec![1u8, 0xc3])),
        Err(ImprintError::InvalidUtf8String)
    );
}

#[test]
fn array_with_unknown_item_kind_is_rejected() {
    assert_eq!(
        Value::read(TypeCode::Array, Bytes::from(vec![0x0au8, 0x01, 0x00])),
        Err(ImprintError::InvalidFieldType(0x0a))
    );
    assert_eq!(
        Value::read(TypeCode::Array, Bytes::new()),
        Err(ImprintError::BufferUnderflow {
            needed: 1,
            available: 0
        })
    );
}

#[test]
fn array_with_a_missing_item_is_an_underflow() {
    assert_eq!(
        Value::read(TypeCode::Array, Bytes::from(vec![0x02u8, 0x02, 1, 0, 0, 0, 2])),
        Err(ImprintError::BufferUnderflow {
            needed: 4,
            available: 1
        })
    );
}

fn nested_arrays(depth: usize) -> Vec<u8> {
    let mut bytes = Vec::new();
    for _ in 0..depth - 1 {
        bytes.push(0x08);
        bytes.push(0x01);
    }
    bytes.push(0x00);
    bytes.push(0x01);
    bytes
}

#[test]
fn arrays_nested_to_the_limit_are_read() {
    let (value, used) = Value::read(TypeCode::Array, Bytes::from(nested_arrays(64))).unwrap();
    assert_eq!(used, 128);
    let mut depth = 0;
    let mut cur = &value;
    while let Value::Array(items) = cur {
        depth += 1;
        assert_eq!(items.len(), 1);
        cur = &items[0];
    }
    assert_eq!(depth, 64);
    assert_eq!(*cur, Value::Null);
}

#[test]
fn arrays_nested_past_the_limit_are_rejected() {
    assert!(matches!(
        Value::read(TypeCode::Array, Bytes::from(nested_arrays(65))),
        Err(ImprintError::SchemaError(_))
    ));
    assert!(matches!(
        Value::read_nested(TypeCode::Array, Bytes::from(nested_arrays(3)), 2),
        Err(ImprintError::SchemaError(_))
    ));
    assert!(Value::read_nested(TypeCode::Array, Bytes::from(nested_arrays(3)), 3).is_ok());
}

#[test]
fn header_round_trips() {
    let header = Header {
        flags: Flags::new(0x01),
        schema_id: SchemaId {
            fieldspace_id: 0x01020304,
            schema_hash: 0xa1b2c3d4,
        },
    };
    let mut buf = BytesMut::new();
    header.write(&mut buf).unwrap();
    assert_eq!(
        buf.to_vec(),
        vec![0x49, 0x01, 0x01, 0x04, 0x03, 0x02, 0x01, 0xd4, 0xc3, 0xb2, 0xa1]
    );
    assert_eq!(Header::read(buf.freeze()).unwrap(), (header, 11));
}

#[test]
fn header_of_ten_bytes_is_an_underflow() {
    assert_eq!(
        Header::read(Bytes::from(vec![0x49u8, 0x01, 0, 0, 0, 0, 0, 0, 0, 0])),
        Err(ImprintError::BufferUnderflow {
            needed: 11,
            available: 10
        })
    );
}

#[test]
fn schema_id_round_trips() {
    let id = SchemaId {
        fieldspace_id: 7,
        schema_hash: 0xcafebabe,
    };
    let mut buf = BytesMut::new();
    id.write(&mut buf).unwrap();
    assert_eq!(buf.to_vec(), vec![7, 0, 0, 0, 0xbe, 0xba, 0xfe, 0xca]);
    assert_eq!(SchemaId::read(buf.freeze()).unwrap(), (id, 8));
    assert_eq!(
        SchemaId::read(Bytes::from(vec![0u8; 7])),
        Err(ImprintError::BufferUnderflow {
            needed: 8,
            available: 7
        })
    );
}

#[test]
fn directory_entry_round_trips() {
    let entry = DirectoryEntry {
        id: 0x0a0b0c0d,
        type_code: TypeCode::Row,
        offset: 0x11223344,
    };
    let mut buf = BytesMut::new();
    entry.write(&mut buf).unwrap();
    assert_eq!(
        buf.to_vec(),
        vec![0x0d, 0x0c, 0x0b, 0x0a, 0x09, 0x44, 0x33, 0x22, 0x11]
    );
    assert_eq!(DirectoryEntry::read(buf.freeze()).unwrap(), (entry, 9));
}

#[test]
fn directory_entry_errors() {
    assert_eq!(
        DirectoryEntry::read(Bytes::from(vec![0u8; 8])),
        Err(ImprintError::BufferUnderflow {
            needed: 9,
            available: 8
        })
    );
    assert_eq!(
        DirectoryEntry::read(Bytes::from(vec![1u8, 0, 0, 0, 0x0b, 0, 0, 0, 0])),
        Err(ImprintError::InvalidFieldType(0x0b))
    );
}

fn raw_record(flags: u8, entries: &[(u32, u8, u32)], payload: &[u8]) -> Bytes {
    let mut buf = BytesMut::new();
    buf.put_u8(MAGIC);
    buf.put_u8(VERSION);
    buf.put_u8(flags);
    buf.put_u32_le(1);
    buf.put_u32_le(2);
    if flags & 1 != 0 {
        buf.put_u8(entries.len() as u8);
        for (id, code, offset) in entries {
            buf.put_u32_le(*id);
            buf.put_u8(*code);
            buf.put_u32_le(*offset);
        }
    }
    buf.put_slice(payload);
    buf.freeze()
}

#[test]
fn record_without_directory_is_a_blob() {
    let bytes = raw_record(0x00, &[], &[9, 9, 9]);
    let (record, used) = ImprintRecord::read(bytes).unwrap();
    assert_eq!(used, 14);
    assert!(record.directory().is_empty());
    assert_eq!(&record.payload()[..], &[9, 9, 9]);
    assert_eq!(record.get_value(1).unwrap(), None);
    assert!(record.get_raw_bytes(1).is_none());
    let mut buf = BytesMut::new();
    record.write(&mut buf).unwrap();
    assert_eq!(buf.len(), 14);
    assert_eq!(ImprintRecord::read(buf.freeze()).unwrap().0, record);
}

#[test]
fn record_read_takes_all_the_input() {
    let bytes = raw_record(0x01, &[(1, 2, 0), (2, 1, 4)], &[1, 0, 0, 0, 1, 77, 77]);
    let total = bytes.len();
    let (record, used) = ImprintRecord::read(bytes).unwrap();
    assert_eq!(used, total);
    assert_eq!(record.get_value(1).unwrap(), Some(Value::Int32(1)));
    assert_eq!(record.get_value(2).unwrap(), Some(Value::Bool(true)));
    assert_eq!(&record.get_raw_bytes(2).unwrap()[..], &[1, 77, 77]);
}

#[test]
fn record_with_a_missing_entry_is_an_underflow() {
    let mut bytes = raw_record(0x01, &[(1, 2, 0)], &[]).to_vec();
    bytes[11] = 2;
    assert_eq!(
        ImprintRecord::read(Bytes::from(bytes)).map(|_| ()),
        Err(ImprintError::BufferUnderflow {
            needed: 9,
            available: 0
        })
    );
    let cut = raw_record(0x01, &[], &[]).slice(..11);
    assert_eq!(
        ImprintRecord::read(cut).map(|_| ()),
        Err(ImprintError::BufferUnderflow {
            needed: 1,
            available: 0
        })
    );
}

#[test]
fn record_with_unknown_kind_in_directory_is_rejected() {
    let bytes = raw_record(0x01, &[(1, 12, 0)], &[]);
    assert_eq!(
        ImprintRecord::read(bytes).map(|_| ()),
        Err(ImprintError::InvalidFieldType(12))
    );
}

#[test]
fn record_with_directory_out_of_order_is_rejected() {
    let unsorted = raw_record(0x01, &[(2, 1, 0), (1, 1, 1)], &[1, 0]);
    assert!(matches!(
        ImprintRecord::read(unsorted),
        Err(ImprintError::SchemaError(_))
    ));
    let twice = raw_record(0x01, &[(1, 1, 0), (1, 1, 1)], &[1, 0]);
    assert!(matches!(
        ImprintRecord::read(twice),
        Err(ImprintError::SchemaError(_))
    ));
    let backwards = raw_record(0x01, &[(1, 1, 1), (2, 1, 0)], &[1, 0]);
    assert!(matches!(
        ImprintRecord::read(backwards),
        Err(ImprintError::SchemaError(_))
    ));
    let beyond = raw_record(0x01, &[(1, 1, 3)], &[1, 0]);
    assert!(matches!(
        ImprintRecord::read(beyond),
        Err(ImprintError::SchemaError(_))
    ));
}

#[test]
fn field_with_broken_bytes_fails_on_access_only() {
    let bytes = raw_record(0x01, &[(1, 2, 0), (2, 1, 2)], &[1, 0, 5]);
    let (record, _) = ImprintRecord::read(bytes).unwrap();
    assert_eq!(
        record.get_value(1),
        Err(ImprintError::BufferUnderflow {
            needed: 4,
            available: 2
        })
    );
    assert!(matches!(
        record.get_value(2),
        Err(ImprintError::SchemaError(_))
    ));
    assert_eq!(&record.get_raw_bytes(1).unwrap()[..], &[1, 0]);
}

#[test]
fn empty_record_round_trips() {
    let record = record_of(vec![]);
    assert!(record.directory().is_empty());
    assert!(record.payload().is_empty());
    let mut buf = BytesMut::new();
    record.write(&mut buf).unwrap();
    assert_eq!(
        buf.to_vec(),
        vec![0x49, 0x01, 0x01, 0x01, 0, 0, 0, 0xef, 0xbe, 0xad, 0xde, 0x00]
    );
    let (read, used) = ImprintRecord::read(buf.freeze()).unwrap();
    assert_eq!(used, 12);
    assert_eq!(read, record);
}

#[test]
fn nested_rows_of_depth_three_round_trip() {
    let innermost = record_of(vec![(1, Value::String("deep".to_string()))]);
    let middle = record_of(vec![
        (1, Value::Int32(7)),
        (2, Value::Row(Box::new(innermost.clone()))),
    ]);
    let outer = record_of(vec![
        (5, Value::Row(Box::new(middle.clone()))),
        (9, Value::Bool(true)),
    ]);
    let mut buf = BytesMut::new();
    outer.write(&mut buf).unwrap();
    let (read, _) = ImprintRecord::read(buf.freeze()).unwrap();
    assert_eq!(read, outer);
    assert_eq!(read.get_value(9).unwrap(), Some(Value::Bool(true)));
    let got_middle = match read.get_value(5).unwrap() {
        Some(Value::Row(r)) => r,
        _ => panic!("expected a row"),
    };
    assert_eq!(*got_middle, middle);
    assert_eq!(got_middle.get_value(1).unwrap(), Some(Value::Int32(7)));
    let got_innermost = match got_middle.get_value(2).unwrap() {
        Some(Value::Row(r)) => r,
        _ => panic!("expected a row"),
    };
    assert_eq!(*got_innermost, innermost);
    assert_eq!(
        got_innermost.get_value(1).unwrap(),
        Some(Value::String("deep".to_string()))
    );
}

#[test]
fn record_with_every_kind_round_trips() {
    let fields = vec![
        (1, Value::Null),
        (2, Value::Bool(true)),
        (3, Value::Int32(-123456)),
        (4, Value::Int64(1 << 40)),
        (5, Value::Float32(0.1f32.to_bits())),
        (6, Value::Float64(2.718281828f64.to_bits())),
        (7, Value::Bytes(vec![1, 2, 3, 4, 5])),
        (8, Value::String("text".to_string())),
        (9, Value::Array(vec![Value::Bool(true), Value::Bool(false)])),
    ];
    let record = record_of(fields.clone());
    let mut buf = BytesMut::new();
    record.write(&mut buf).unwrap();
    let (read, _) = ImprintRecord::read(buf.freeze()).unwrap();
    assert_eq!(read.directory().len(), 9);
    for (id, value) in fields {
        assert_eq!(read.get_value(id).unwrap(), Some(value));
    }
    assert_eq!(read.get_value(10).unwrap(), None);
}

#[test]
fn raw_bytes_hold_the_length_prefix() {
    let record = record_of(vec![
        (1, Value::Int32(42)),
        (3, Value::String("hello".to_string())),
    ]);
    assert_eq!(&record.get_raw_bytes(1).unwrap()[..], &[42, 0, 0, 0]);
    assert_eq!(
        &record.get_raw_bytes(3).unwrap()[..],
        &[5, b'h', b'e', b'l', b'l', b'o']
    );
    assert!(record.get_raw_bytes(2).is_none());
}

#[test]
fn write_appends_after_what_the_buffer_holds() {
    let mut buf = BytesMut::new();
    buf.put_u8(0xaa);
    Value::Int32(1).write(&mut buf).unwrap();
    Value::Bool(true).write(&mut buf).unwrap();
    assert_eq!(buf.to_vec(), vec![0xaa, 1, 0, 0, 0, 1]);
}

#[test]
fn a_clone_of_a_record_is_equal_to_it() {
    let record = record_of(vec![(1, Value::Int32(42)), (2, Value::Bool(false))]);
    let copy = record.clone();
    assert_eq!(copy, record);
    assert_eq!(copy.get_value(2).unwrap(), Some(Value::Bool(false)));
}
