use pcd_rs::{
    DataKind, DynRecord, Error, Field, FieldDef, Reader, Schema, ValueKind, ViewPoint, WriterInit,
};

fn schema_of(fields: &[(&str, ValueKind, u64)]) -> Schema {
    let defs: Vec<FieldDef> = fields
        .iter()
        .map(|(name, kind, count)| FieldDef {
            name: name.to_string(),
            kind: *kind,
            count: *count,
        })
        .collect();
    Schema::new(defs)
}

fn f32field(vals: &[f32]) -> Field {
    Field::F32(vals.iter().map(|v| v.to_bits()).collect())
}

fn f64field(vals: &[f64]) -> Field {
    Field::F64(vals.iter().map(|v| v.to_bits()).collect())
}

fn write_all(points: &[DynRecord], schema: Schema, data_kind: DataKind, width: u64) -> Vec<u8> {
    let mut writer = WriterInit {
        width,
        height: 1,
        viewpoint: ViewPoint::default(),
        data_kind,
        schema: Some(schema),
    }
    .build_from_writer()
    .unwrap();
    for point in points {
        writer.push(point).unwrap();
    }
    writer.finish().unwrap()
}

fn read_all(bytes: Vec<u8>) -> (pcd_rs::PcdMeta, Vec<DynRecord>) {
    let mut reader = Reader::from_bytes(bytes).unwrap();
    let meta = reader.meta().clone();
    let mut points = Vec::new();
    while let Some(item) = reader.next_record() {
        points.push(item.unwrap());
    }
    (meta, points)
}

#[test]
fn test_write_read_compressed() {
    // Create test data
    let points = vec![
        DynRecord(vec![
            f32field(&[1.0]),
            f32field(&[2.0]),
            f32field(&[3.0]),
            Field::U8(vec![255]),
        ]),
        DynRecord(vec![
            f32field(&[4.0]),
            f32field(&[5.0]),
            f32field(&[6.0]),
            Field::U8(vec![128]),
        ]),
        DynRecord(vec![
            f32field(&[7.0]),
            f32field(&[8.0]),
            f32field(&[9.0]),
            Field::U8(vec![0]),
        ]),
    ];

    let schema = schema_of(&[
        ("x", ValueKind::F32, 1),
        ("y", ValueKind::F32, 1),
        ("z", ValueKind::F32, 1),
        ("intensity", ValueKind::U8, 1),
    ]);

    let buffer = write_all(&points, schema, DataKind::BinaryCompressed, points.len() as u64);
    let (meta, read_points) = read_all(buffer);

    assert_eq!(meta.data, DataKind::BinaryCompressed);
    assert_eq!(meta.num_points, points.len() as u64);
    assert_eq!(read_points.len(), points.len());

    for (original, read) in points.iter().zip(read_points.iter()) {
        assert_eq!(original.0.len(), read.0.len());
        for (orig_field, read_field) in original.0.iter().zip(read.0.iter()) {
            match (orig_field, read_field) {
                (Field::F32(o), Field::F32(r)) => assert_eq!(o, r),
                (Field::U8(o), Field::U8(r)) => assert_eq!(o, r),
                _ => panic!("Field type mismatch"),
            }
        }
    }
}

#[test]
fn test_compressed_large_data() {
    // A larger dataset to exercise the compressor
    let num_points = 1000;
    let mut points = Vec::new();

    for i in 0..num_points {
        let x = i as f32 * 0.1;
        let y = (i as f32 * 0.2).sin();
        let z = (i as f32 * 0.3).cos();

        points.push(DynRecord(vec![
            f32field(&[x]),
            f32field(&[y]),
            f32field(&[z]),
        ]));
    }

    let schema = schema_of(&[
        ("x", ValueKind::F32, 1),
        ("y", ValueKind::F32, 1),
        ("z", ValueKind::F32, 1),
    ]);

    let compressed_buffer = write_all(
        &points,
        schema.clone(),
        DataKind::BinaryCompressed,
        points.len() as u64,
    );
    let uncompressed_buffer = write_all(&points, schema, DataKind::Binary, points.len() as u64);

    println!("Uncompressed size: {} bytes", uncompressed_buffer.len());
    println!("Compressed size: {} bytes", compressed_buffer.len());

    let (_, read_points) = read_all(compressed_buffer);
    assert_eq!(read_points.len(), points.len());
    assert_eq!(points[0].0.len(), read_points[0].0.len());
    assert_eq!(
        points[num_points - 1].0.len(),
        read_points[num_points - 1].0.len()
    );
}

#[test]
fn test_compressed_with_arrays() {
    // Array fields (COUNT > 1)
    let points = vec![
        DynRecord(vec![
            f32field(&[1.0, 2.0, 3.0]),
            f32field(&[0.0, 1.0, 0.0]),
        ]),
        DynRecord(vec![
            f32field(&[4.0, 5.0, 6.0]),
            f32field(&[1.0, 0.0, 0.0]),
        ]),
    ];

    let schema = schema_of(&[
        ("position", ValueKind::F32, 3),
        ("normal", ValueKind::F32, 3),
    ]);

    let buffer = write_all(&points, schema, DataKind::BinaryCompressed, points.len() as u64);
    let (_, read_points) = read_all(buffer);

    assert_eq!(read_points.len(), points.len());
    for (original, read) in points.iter().zip(read_points.iter()) {
        for (orig_field, read_field) in original.0.iter().zip(read.0.iter()) {
            match (orig_field, read_field) {
                (Field::F32(o), Field::F32(r)) => {
                    assert_eq!(o.len(), r.len());
                    for (ov, rv) in o.iter().zip(r.iter()) {
                        assert_eq!(ov, rv);
                    }
                }
                _ => panic!("Unexpected field type"),
            }
        }
    }
}

#[test]
fn test_empty_point_cloud() {
    // Writing and reading an empty compressed point cloud
    let schema = schema_of(&[
        ("x", ValueKind::F32, 1),
        ("y", ValueKind::F32, 1),
        ("z", ValueKind::F32, 1),
    ]);

    let buffer = write_all(&[], schema, DataKind::BinaryCompressed, 0);
    let (meta, read_points) = read_all(buffer);
    assert_eq!(meta.num_points, 0);
    assert_eq!(read_points.len(), 0);
}

#[test]
fn test_single_point() {
    let points = vec![DynRecord(vec![
        f32field(&[1.0]),
        f32field(&[2.0]),
        f32field(&[3.0]),
    ])];

    let schema = schema_of(&[
        ("x", ValueKind::F32, 1),
        ("y", ValueKind::F32, 1),
        ("z", ValueKind::F32, 1),
    ]);

    let buffer = write_all(&points, schema, DataKind::BinaryCompressed, 1);
    let (_, read_points) = read_all(buffer);

    assert_eq!(read_points.len(), 1);
    match (&points[0].0[0], &read_points[0].0[0]) {
        (Field::F32(o), Field::F32(r)) => assert_eq!(o[0], r[0]),
        _ => panic!("Type mismatch"),
    }
}

#[test]
fn test_highly_compressible_data() {
    // Highly repetitive data should compress well
    let mut points = Vec::new();
    for _ in 0..1000 {
        points.push(DynRecord(vec![
            f32field(&[1.0]),
            f32field(&[1.0]),
            f32field(&[1.0]),
        ]));
    }

    let schema = schema_of(&[
        ("x", ValueKind::F32, 1),
        ("y", ValueKind::F32, 1),
        ("z", ValueKind::F32, 1),
    ]);

    let compressed = write_all(
        &points,
        schema.clone(),
        DataKind::BinaryCompressed,
        points.len() as u64,
    );
    let uncompressed = write_all(&points, schema, DataKind::Binary, points.len() as u64);

    // Should compress to less than 10% of original size for this repetitive data
    assert!(compressed.len() < uncompressed.len() / 10);

    let (_, read_points) = read_all(compressed);
    assert_eq!(read_points.len(), points.len());
}

#[test]
fn test_mixed_data_types() {
    let points = vec![
        DynRecord(vec![
            f32field(&[1.0]),
            f64field(&[2.0]),
            Field::U8(vec![255]),
            Field::I32(vec![-42]),
        ]),
        DynRecord(vec![
            f32field(&[3.14]),
            f64field(&[2.718]),
            Field::U8(vec![128]),
            Field::I32(vec![12345]),
        ]),
    ];

    let schema = schema_of(&[
        ("x", ValueKind::F32, 1),
        ("y", ValueKind::F64, 1),
        ("intensity", ValueKind::U8, 1),
        ("label", ValueKind::I32, 1),
    ]);

    let buffer = write_all(&points, schema, DataKind::BinaryCompressed, points.len() as u64);
    let (_, read_points) = read_all(buffer);

    assert_eq!(read_points.len(), points.len());
    for (orig, read) in points.iter().zip(read_points.iter()) {
        for (orig_field, read_field) in orig.0.iter().zip(read.0.iter()) {
            match (orig_field, read_field) {
                (Field::F32(o), Field::F32(r)) => assert_eq!(o[0], r[0]),
                (Field::F64(o), Field::F64(r)) => assert_eq!(o[0], r[0]),
                (Field::U8(o), Field::U8(r)) => assert_eq!(o[0], r[0]),
                (Field::I32(o), Field::I32(r)) => assert_eq!(o[0], r[0]),
                _ => panic!("Type mismatch"),
            }
        }
    }
}

#[test]
fn test_large_point_cloud() {
    // A larger point cloud (10,000 points)
    let mut points = Vec::new();
    for i in 0..10000 {
        let x = (i as f32) * 0.1;
        let y = ((i as f32) * 0.2).sin();
        let z = ((i as f32) * 0.3).cos();

        points.push(DynRecord(vec![
            f32field(&[x]),
            f32field(&[y]),
            f32field(&[z]),
        ]));
    }

    let schema = schema_of(&[
        ("x", ValueKind::F32, 1),
        ("y", ValueKind::F32, 1),
        ("z", ValueKind::F32, 1),
    ]);

    let buffer = write_all(&points, schema, DataKind::BinaryCompressed, points.len() as u64);
    let (_, read_points) = read_all(buffer);

    assert_eq!(read_points.len(), points.len());
    for i in [0usize, 1000, 5000, 9999] {
        match (&points[i].0[0], &read_points[i].0[0]) {
            (Field::F32(o), Field::F32(r)) => {
                let ov = f32::from_bits(o[0]);
                let rv = f32::from_bits(r[0]);
                assert!((ov - rv).abs() < 1e-6, "Mismatch at point {}", i);
            }
            _ => panic!("Type mismatch"),
        }
    }
}

#[test]
fn test_corrupt_compressed_file() {
    // A valid PCD header followed by corrupted compressed data
    let mut file = Vec::new();
    file.extend_from_slice(b"# .PCD v.7 - Point Cloud Data file format\n");
    file.extend_from_slice(b"VERSION .7\n");
    file.extend_from_slice(b"FIELDS x y z\n");
    file.extend_from_slice(b"SIZE 4 4 4\n");
    file.extend_from_slice(b"TYPE F F F\n");
    file.extend_from_slice(b"COUNT 1 1 1\n");
    file.extend_from_slice(b"WIDTH 3\n");
    file.extend_from_slice(b"HEIGHT 1\n");
    file.extend_from_slice(b"VIEWPOINT 0 0 0 1 0 0 0\n");
    file.extend_from_slice(b"POINTS 3\n");
    file.extend_from_slice(b"DATA binary_compressed\n");

    // Invalid compressed data (sizes don't match actual data)
    file.extend_from_slice(&100u32.to_le_bytes()); // compressed size
    file.extend_from_slice(&200u32.to_le_bytes()); // uncompressed size
    file.extend_from_slice(b"invalid data"); // Not enough data

    let result = Reader::from_bytes(file);
    assert!(result.is_err(), "Should fail to read corrupted compressed file");
}

#[test]
fn write_ascii_untyped() {
    let dump_points = vec![
        DynRecord(vec![
            f32field(&[3.14159]),
            Field::U8(vec![2, 1, 7]),
            Field::I32(vec![-5]),
        ]),
        DynRecord(vec![
            f32field(&[-0.0]),
            Field::U8(vec![254, 6, 98]),
            Field::I32(vec![7]),
        ]),
        DynRecord(vec![
            f32field(&[5.6]),
            Field::U8(vec![4, 0, 111]),
            Field::I32(vec![-100000]),
        ]),
    ];

    let schema = schema_of(&[
        ("x", ValueKind::F32, 1),
        ("y", ValueKind::U8, 3),
        ("z", ValueKind::I32, 1),
    ]);

    let buffer = write_all(&dump_points, schema, DataKind::Ascii, 300);
    let (_, load_points) = read_all(buffer);
    assert_eq!(dump_points, load_points);
}

#[test]
fn write_binary_untyped() {
    let dump_points = vec![
        DynRecord(vec![
            f32field(&[3.14159]),
            Field::U8(vec![2, 1, 7]),
            Field::I32(vec![-5]),
        ]),
        DynRecord(vec![
            f32field(&[-0.0]),
            Field::U8(vec![254, 6, 98]),
            Field::I32(vec![7]),
        ]),
        DynRecord(vec![
            f32field(&[5.6]),
            Field::U8(vec![4, 0, 111]),
            Field::I32(vec![-100000]),
        ]),
    ];

    let schema = schema_of(&[
        ("x", ValueKind::F32, 1),
        ("y", ValueKind::U8, 3),
        ("z", ValueKind::I32, 1),
    ]);

    let buffer = write_all(&dump_points, schema, DataKind::Binary, 300);
    let (_, load_points) = read_all(buffer);
    assert_eq!(dump_points, load_points);
}

#[test]
fn ascii_token_count_mismatch() {
    // An ASCII record with too few tokens against a three-column schema
    let header = "VERSION .7\n\
                  FIELDS x y z\n\
                  SIZE 4 4 4\n\
                  TYPE F F F\n\
                  COUNT 1 1 1\n\
                  WIDTH 1\n\
                  HEIGHT 1\n\
                  VIEWPOINT 0 0 0 1 0 0 0\n\
                  POINTS 1\n\
                  DATA ascii\n\
                  1.0 2.0\n";
    let mut reader = Reader::from_bytes(header.as_bytes().to_vec()).unwrap();
    let item = reader.next_record().unwrap();
    match item {
        Err(Error::TextTokenMismatchError { expect, found }) => {
            assert_eq!(expect, 3);
            assert_eq!(found, 2);
        }
        other => panic!("expected a token count mismatch, got {:?}", other),
    }
    // The reader is fused after the error.
    assert!(reader.next_record().is_none());
}

#[test]
fn writer_points_patch_matches_count() {
    // Three records written, then finish(): POINTS reads 3 whatever the
    // width argument was, and reading the file back yields 3 records.
    let schema = schema_of(&[("x", ValueKind::U32, 1)]);
    let points = vec![
        DynRecord(vec![Field::U32(vec![1])]),
        DynRecord(vec![Field::U32(vec![2])]),
        DynRecord(vec![Field::U32(vec![3])]),
    ];
    let buffer = write_all(&points, schema, DataKind::Ascii, 300);

    let text = String::from_utf8(buffer.clone()).unwrap();
    let points_line = text
        .lines()
        .find(|l| l.starts_with("POINTS"))
        .expect("POINTS line present");
    let mut it = points_line.split_ascii_whitespace();
    assert_eq!(it.next(), Some("POINTS"));
    assert_eq!(it.next(), Some("3"));

    let (meta, read_points) = read_all(buffer);
    assert_eq!(meta.num_points, 3);
    assert_eq!(read_points.len(), 3);
    assert_eq!(read_points, points);
}

#[test]
fn writer_rejects_bad_schemas() {
    let empty_name = Schema::new(vec![FieldDef {
        name: String::new(),
        kind: ValueKind::F32,
        count: 1,
    }]);
    let r = WriterInit {
        width: 1,
        height: 1,
        viewpoint: ViewPoint::default(),
        data_kind: DataKind::Ascii,
        schema: Some(empty_name),
    }
    .build_from_writer();
    assert!(matches!(r, Err(Error::InvalidWriterConfiguration { .. })));

    let zero_count = schema_of(&[("x", ValueKind::F32, 0)]);
    let r = WriterInit {
        width: 1,
        height: 1,
        viewpoint: ViewPoint::default(),
        data_kind: DataKind::Ascii,
        schema: Some(zero_count),
    }
    .build_from_writer();
    assert!(matches!(r, Err(Error::InvalidWriterConfiguration { .. })));

    let dup = schema_of(&[("x", ValueKind::F32, 1), ("x", ValueKind::F32, 1)]);
    let r = WriterInit {
        width: 1,
        height: 1,
        viewpoint: ViewPoint::default(),
        data_kind: DataKind::Ascii,
        schema: Some(dup),
    }
    .build_from_writer();
    assert!(matches!(r, Err(Error::InvalidWriterConfiguration { .. })));

    let r = WriterInit {
        width: 1,
        height: 1,
        viewpoint: ViewPoint::default(),
        data_kind: DataKind::Ascii,
        schema: None,
    }
    .build_from_writer();
    assert!(matches!(r, Err(Error::InvalidWriterConfiguration { .. })));
}

#[test]
fn push_rejects_mismatched_record() {
    let schema = schema_of(&[("x", ValueKind::F32, 1)]);
    let mut writer = WriterInit {
        width: 1,
        height: 1,
        viewpoint: ViewPoint::default(),
        data_kind: DataKind::Binary,
        schema: Some(schema),
    }
    .build_from_writer()
    .unwrap();
    // Wrong kind
    let r = writer.push(&DynRecord(vec![Field::U8(vec![1])]));
    assert!(matches!(r, Err(Error::WriterSchemaMismatchError { .. })));
    // Wrong count
    let r = writer.push(&DynRecord(vec![f32field(&[1.0, 2.0])]));
    assert!(matches!(r, Err(Error::WriterSchemaMismatchError { .. })));
    // Wrong length
    let r = writer.push(&DynRecord(vec![]));
    assert!(matches!(r, Err(Error::WriterSchemaMismatchError { .. })));
    writer.finish().unwrap();
}

#[test]
fn binary_truncated_payload_errors() {
    let header = "VERSION .7\n\
                  FIELDS x\n\
                  SIZE 4\n\
                  TYPE U\n\
                  COUNT 1\n\
                  WIDTH 2\n\
                  HEIGHT 1\n\
                  VIEWPOINT 0 0 0 1 0 0 0\n\
                  POINTS 2\n\
                  DATA binary\n";
    let mut bytes = header.as_bytes().to_vec();
    bytes.extend_from_slice(&[1, 0, 0, 0, 2, 0]); // second record truncated
    let mut reader = Reader::from_bytes(bytes).unwrap();
    let first = reader.next_record().unwrap();
    assert!(first.is_ok());
    let second = reader.next_record().unwrap();
    assert!(matches!(second, Err(Error::IoError { .. })));
    assert!(reader.next_record().is_none());
}

#[test]
fn ascii_numeric_parse_errors() {
    let header = "VERSION .7\n\
                  FIELDS i f\n\
                  SIZE 4 4\n\
                  TYPE I F\n\
                  COUNT 1 1\n\
                  WIDTH 1\n\
                  HEIGHT 1\n\
                  VIEWPOINT 0 0 0 1 0 0 0\n\
                  POINTS 1\n\
                  DATA ascii\n\
                  zzz 1.0\n";
    let mut reader = Reader::from_bytes(header.as_bytes().to_vec()).unwrap();
    let item = reader.next_record().unwrap();
    assert!(matches!(item, Err(Error::ParseIntError { .. })));

    let header2 = header.replace("zzz 1.0", "1 q");
    let mut reader2 = Reader::from_bytes(header2.as_bytes().to_vec()).unwrap();
    let item2 = reader2.next_record().unwrap();
    assert!(matches!(item2, Err(Error::ParseFloatError { .. })));
}

#[test]
fn ascii_integer_extremes_round_trip() {
    let schema = schema_of(&[
        ("a", ValueKind::I8, 2),
        ("b", ValueKind::I16, 2),
        ("c", ValueKind::I32, 2),
        ("d", ValueKind::U8, 1),
        ("e", ValueKind::U16, 1),
        ("f", ValueKind::U32, 1),
    ]);
    let points = vec![DynRecord(vec![
        Field::I8(vec![i8::MIN, i8::MAX]),
        Field::I16(vec![i16::MIN, i16::MAX]),
        Field::I32(vec![i32::MIN, i32::MAX]),
        Field::U8(vec![u8::MAX]),
        Field::U16(vec![u16::MAX]),
        Field::U32(vec![u32::MAX]),
    ])];
    let buffer = write_all(&points, schema.clone(), DataKind::Ascii, 1);
    let (_, read_points) = read_all(buffer);
    assert_eq!(read_points, points);

    let buffer = write_all(&points, schema, DataKind::Binary, 1);
    let (_, read_points) = read_all(buffer);
    assert_eq!(read_points, points);
}

#[test]
fn float_specials_round_trip_binary_and_ascii() {
    let schema = schema_of(&[("x", ValueKind::F32, 1), ("y", ValueKind::F64, 1)]);
    for (x, y) in [
        (f32::INFINITY, f64::NEG_INFINITY),
        (f32::MIN_POSITIVE, f64::MIN_POSITIVE),
        (-0.0f32, -0.0f64),
        (f32::MAX, f64::MAX),
    ] {
        let points = vec![DynRecord(vec![f32field(&[x]), f64field(&[y])])];
        let buffer = write_all(&points, schema.clone(), DataKind::Ascii, 1);
        let (_, read_points) = read_all(buffer);
        assert_eq!(read_points, points, "ascii round trip of ({x}, {y})");

        let buffer = write_all(&points, schema.clone(), DataKind::Binary, 1);
        let (_, read_points) = read_all(buffer);
        assert_eq!(read_points, points, "binary round trip of ({x}, {y})");
    }
}

#[test]
fn reader_is_fused_after_num_points() {
    // Extra payload bytes after the declared points are never read
    let header = "VERSION .7\n\
                  FIELDS x\n\
                  SIZE 1\n\
                  TYPE U\n\
                  COUNT 1\n\
                  WIDTH 1\n\
                  HEIGHT 1\n\
                  VIEWPOINT 0 0 0 1 0 0 0\n\
                  POINTS 1\n\
                  DATA binary\n";
    let mut bytes = header.as_bytes().to_vec();
    bytes.extend_from_slice(&[9, 8, 7]);
    let mut reader = Reader::from_bytes(bytes).unwrap();
    let first = reader.next_record().unwrap().unwrap();
    assert_eq!(first.0, vec![Field::U8(vec![9])]);
    assert!(reader.next_record().is_none());
    assert!(reader.next_record().is_none());
}
