use pcd_rs::{DataKind, DynRecord, Error, Field, FieldDef, Schema, TypeKind, ValueKind};

#[test]
fn schema_accessors() {
    let schema = Schema::new(vec![
        FieldDef { name: "x".to_string(), kind: ValueKind::F32, count: 1 },
        FieldDef { name: "y".to_string(), kind: ValueKind::U8, count: 3 },
    ]);
    assert!(!schema.is_empty());
    assert_eq!(schema.len(), 2);
    assert_eq!(schema.iter().len(), 2);
    assert_eq!(schema.iter()[1].name, "y");
    assert!(Schema::new(Vec::new()).is_empty());
}

#[test]
fn field_kind_and_count() {
    assert_eq!(Field::I8(vec![1, 2]).kind(), ValueKind::I8);
    assert_eq!(Field::I16(vec![1]).kind(), ValueKind::I16);
    assert_eq!(Field::I32(vec![]).kind(), ValueKind::I32);
    assert_eq!(Field::U8(vec![1]).kind(), ValueKind::U8);
    assert_eq!(Field::U16(vec![1]).kind(), ValueKind::U16);
    assert_eq!(Field::U32(vec![1]).kind(), ValueKind::U32);
    assert_eq!(Field::F32(vec![0]).kind(), ValueKind::F32);
    assert_eq!(Field::F64(vec![0]).kind(), ValueKind::F64);
    assert_eq!(Field::U8(vec![9, 9, 9]).count(), 3);
    assert_eq!(Field::F64(vec![]).count(), 0);
}

#[test]
fn value_kind_widths() {
    assert_eq!(ValueKind::U8.width(), 1);
    assert_eq!(ValueKind::U16.width(), 2);
    assert_eq!(ValueKind::U32.width(), 4);
    assert_eq!(ValueKind::I8.width(), 1);
    assert_eq!(ValueKind::I16.width(), 2);
    assert_eq!(ValueKind::I32.width(), 4);
    assert_eq!(ValueKind::F32.width(), 4);
    assert_eq!(ValueKind::F64.width(), 8);
    assert_eq!(ValueKind::F64.type_kind(), TypeKind::F);
    assert_eq!(ValueKind::I16.type_kind(), TypeKind::I);
    assert_eq!(ValueKind::U32.type_kind(), TypeKind::U);
}

#[test]
fn dyn_record_schema_consistency() {
    let schema = Schema::new(vec![
        FieldDef { name: "x".to_string(), kind: ValueKind::F32, count: 1 },
        FieldDef { name: "y".to_string(), kind: ValueKind::U8, count: 2 },
    ]);
    let good = DynRecord(vec![Field::F32(vec![0]), Field::U8(vec![1, 2])]);
    assert!(good.is_schema_consistent(&schema));

    let wrong_kind = DynRecord(vec![Field::F64(vec![0]), Field::U8(vec![1, 2])]);
    assert!(!wrong_kind.is_schema_consistent(&schema));

    let wrong_count = DynRecord(vec![Field::F32(vec![0]), Field::U8(vec![1])]);
    assert!(!wrong_count.is_schema_consistent(&schema));

    let wrong_len = DynRecord(vec![Field::F32(vec![0])]);
    assert!(!wrong_len.is_schema_consistent(&schema));
}

#[test]
fn error_constructors_and_messages() {
    let e = Error::new_parse_error(7, "bad line");
    assert_eq!(e.message(), "parsing error at line 7: bad line");

    let e = Error::new_text_token_mismatch_error(3, 2);
    assert_eq!(e.message(), "record has 3 fields, but the line has 2 tokens");

    let e = Error::new_field_size_mismatch_error("x", 4, 1);
    assert_eq!(
        e.message(),
        "field size mismatch, expect 4 elements in \"x\" field, but found 1 elements in record"
    );

    let e = Error::new_invalid_argument_error("nope");
    assert_eq!(e.message(), "Invalid argument: nope");

    let e = Error::new_invalid_writer_configuration_error("bad schema");
    assert_eq!(e.message(), "Invalid writer configuration: bad schema");

    let e = Error::new_io_error("eof");
    assert_eq!(e.message(), "I/O error: eof");

    let e = Error::new_parse_int_error("invalid digit");
    assert_eq!(e.message(), "invalid digit");

    let e = Error::new_parse_float_error("invalid float");
    assert_eq!(e.message(), "invalid float");

    let e = Error::new_reader_schema_mismatch_error(
        vec![(Some("x".to_string()), ValueKind::F32, Some(1))],
        vec![FieldDef { name: "y".to_string(), kind: ValueKind::U8, count: 1 }],
    );
    assert!(matches!(e, Error::ReaderSchemaMismatchError { .. }));

    let e = Error::new_writer_schema_mismatch_error(Vec::new(), Vec::new());
    assert!(matches!(e, Error::WriterSchemaMismatchError { .. }));
}

#[test]
fn data_kind_values() {
    assert_ne!(DataKind::Ascii, DataKind::Binary);
    assert_ne!(DataKind::Binary, DataKind::BinaryCompressed);
}

#[test]
fn reader_declared_layout_check() {
    let header = "VERSION .7\n\
                  FIELDS x y\n\
                  SIZE 4 1\n\
                  TYPE F U\n\
                  COUNT 1 3\n\
                  WIDTH 1\n\
                  HEIGHT 1\n\
                  VIEWPOINT 0 0 0 1 0 0 0\n\
                  POINTS 0\n\
                  DATA binary\n";
    let reader = pcd_rs::Reader::from_bytes(header.as_bytes().to_vec()).unwrap();

    // Kind checked always; name and count only where declared.
    let good = vec![
        (Some("x".to_string()), ValueKind::F32, Some(1)),
        (None, ValueKind::U8, None),
    ];
    assert!(reader.check_read_spec(&good).is_ok());

    let wrong_kind = vec![
        (None, ValueKind::F64, None),
        (None, ValueKind::U8, None),
    ];
    assert!(matches!(
        reader.check_read_spec(&wrong_kind),
        Err(Error::ReaderSchemaMismatchError { .. })
    ));

    let wrong_name = vec![
        (Some("z".to_string()), ValueKind::F32, None),
        (None, ValueKind::U8, None),
    ];
    assert!(reader.check_read_spec(&wrong_name).is_err());

    let wrong_count = vec![
        (None, ValueKind::F32, Some(2)),
        (None, ValueKind::U8, None),
    ];
    assert!(reader.check_read_spec(&wrong_count).is_err());

    let wrong_len = vec![(None, ValueKind::F32, None)];
    assert!(reader.check_read_spec(&wrong_len).is_err());
}

#[test]
fn reader_checked_construction_rejects_mismatch() {
    let header = "VERSION .7\n\
                  FIELDS x\n\
                  SIZE 4\n\
                  TYPE F\n\
                  COUNT 1\n\
                  WIDTH 1\n\
                  HEIGHT 1\n\
                  VIEWPOINT 0 0 0 1 0 0 0\n\
                  POINTS 0\n\
                  DATA binary\n";
    let good = vec![(Some("x".to_string()), ValueKind::F32, Some(1))];
    let bad = vec![(Some("x".to_string()), ValueKind::F64, Some(1))];
    assert!(pcd_rs::Reader::from_bytes_checked(header.as_bytes().to_vec(), &good).is_ok());
    assert!(matches!(
        pcd_rs::Reader::from_bytes_checked(header.as_bytes().to_vec(), &bad),
        Err(Error::ReaderSchemaMismatchError { .. })
    ));
}
