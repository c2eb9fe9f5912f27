use pcd_rs::{DataKind, Error, Field, Reader, ValueKind};

fn file_bytes(header: &str, payload: &[u8]) -> Vec<u8> {
    let mut bytes = header.as_bytes().to_vec();
    bytes.extend_from_slice(payload);
    bytes
}

#[test]
fn test_read_pcd_v05_ascii() {
    // Test reading PCD version 0.5 with ASCII data
    let header = "VERSION .5\n\
                  FIELDS x y z\n\
                  SIZE 4 4 4\n\
                  TYPE F F F\n\
                  COUNT 1 1 1\n\
                  WIDTH 2\n\
                  HEIGHT 1\n\
                  POINTS 2\n\
                  DATA ascii\n\
                  1.0 2.0 3.0\n\
                  4.0 5.0 6.0\n";
    let mut reader = Reader::from_bytes(header.as_bytes().to_vec()).unwrap();
    let meta = reader.meta().clone();

    assert_eq!(meta.version, "0.5");
    assert_eq!(meta.data, DataKind::Ascii);
    assert_eq!(meta.num_points, 2);

    // Version 0.5 should have default viewpoint
    assert_eq!(f64::from_bits(meta.viewpoint.tx), 0.0);
    assert_eq!(f64::from_bits(meta.viewpoint.ty), 0.0);
    assert_eq!(f64::from_bits(meta.viewpoint.tz), 0.0);
    assert_eq!(f64::from_bits(meta.viewpoint.qw), 1.0);
    assert_eq!(f64::from_bits(meta.viewpoint.qx), 0.0);
    assert_eq!(f64::from_bits(meta.viewpoint.qy), 0.0);
    assert_eq!(f64::from_bits(meta.viewpoint.qz), 0.0);

    let mut points = Vec::new();
    while let Some(item) = reader.next_record() {
        points.push(item.unwrap());
    }
    assert_eq!(points.len(), 2);

    // Verify first point
    match (&points[0].0[0], &points[0].0[1], &points[0].0[2]) {
        (Field::F32(x), Field::F32(y), Field::F32(z)) => {
            assert_eq!(f32::from_bits(x[0]), 1.0);
            assert_eq!(f32::from_bits(y[0]), 2.0);
            assert_eq!(f32::from_bits(z[0]), 3.0);
        }
        _ => panic!("Unexpected field types"),
    }
}

#[test]
fn test_read_pcd_v06_binary() {
    // Test reading PCD version 0.6 with binary data
    let header = "VERSION .6\n\
                  FIELDS x y z intensity\n\
                  SIZE 4 4 4 1\n\
                  TYPE F F F U\n\
                  COUNT 1 1 1 1\n\
                  WIDTH 1\n\
                  HEIGHT 1\n\
                  POINTS 1\n\
                  DATA binary\n";
    // Binary data: x=1.5, y=2.5, z=3.5, intensity=100
    let mut payload = Vec::new();
    payload.extend_from_slice(&1.5f32.to_le_bytes());
    payload.extend_from_slice(&2.5f32.to_le_bytes());
    payload.extend_from_slice(&3.5f32.to_le_bytes());
    payload.extend_from_slice(&[100u8]);

    let mut reader = Reader::from_bytes(file_bytes(header, &payload)).unwrap();
    let meta = reader.meta().clone();

    assert_eq!(meta.version, "0.6");
    assert_eq!(meta.data, DataKind::Binary);
    assert_eq!(meta.num_points, 1);

    // Version 0.6 should have default viewpoint
    assert_eq!(f64::from_bits(meta.viewpoint.tx), 0.0);
    assert_eq!(f64::from_bits(meta.viewpoint.qw), 1.0);

    let mut points = Vec::new();
    while let Some(item) = reader.next_record() {
        points.push(item.unwrap());
    }
    assert_eq!(points.len(), 1);

    match (
        &points[0].0[0],
        &points[0].0[1],
        &points[0].0[2],
        &points[0].0[3],
    ) {
        (Field::F32(x), Field::F32(y), Field::F32(z), Field::U8(intensity)) => {
            assert_eq!(f32::from_bits(x[0]), 1.5);
            assert_eq!(f32::from_bits(y[0]), 2.5);
            assert_eq!(f32::from_bits(z[0]), 3.5);
            assert_eq!(intensity[0], 100);
        }
        _ => panic!("Unexpected field types"),
    }
}

#[test]
fn test_unsupported_version() {
    // Test that unsupported versions are rejected
    let header = "VERSION .4\n\
                  FIELDS x y z\n\
                  SIZE 4 4 4\n\
                  TYPE F F F\n\
                  COUNT 1 1 1\n\
                  WIDTH 1\n\
                  HEIGHT 1\n\
                  POINTS 1\n\
                  DATA ascii\n\
                  1.0 2.0 3.0\n";
    let result = Reader::from_bytes(header.as_bytes().to_vec());
    assert!(result.is_err());

    if let Err(e) = result {
        let error_msg = e.message();
        assert!(error_msg.contains("Unsupported version"));
        assert!(error_msg.contains("0.5, 0.6, 0.7"));
        assert_eq!(
            error_msg,
            "parsing error at line 1: Unsupported version \".4\". Supported versions are: 0.5, 0.6, 0.7"
        );
    }
}

#[test]
fn test_v05_v06_no_viewpoint_expected() {
    // Versions 0.5 and 0.6 don't expect a VIEWPOINT line
    let header = "VERSION .5\n\
                  FIELDS x\n\
                  SIZE 4\n\
                  TYPE F\n\
                  COUNT 1\n\
                  WIDTH 1\n\
                  HEIGHT 1\n\
                  POINTS 1\n\
                  DATA ascii\n\
                  42.0\n";
    let mut reader = Reader::from_bytes(header.as_bytes().to_vec()).unwrap();
    let meta = reader.meta().clone();

    assert_eq!(meta.version, "0.5");
    assert_eq!(f64::from_bits(meta.viewpoint.qw), 1.0); // Should use defaults

    let mut points = Vec::new();
    while let Some(item) = reader.next_record() {
        points.push(item.unwrap());
    }
    assert_eq!(points.len(), 1);
}

#[test]
fn test_legacy_versions_reject_binary_compressed() {
    // Versions 0.5 and 0.6 reject the binary_compressed format
    for version in &[".5", ".6"] {
        let header = format!(
            "VERSION {}\n\
             FIELDS x y z\n\
             SIZE 4 4 4\n\
             TYPE F F F\n\
             COUNT 1 1 1\n\
             WIDTH 1\n\
             HEIGHT 1\n\
             POINTS 1\n\
             DATA binary_compressed\n",
            version
        );
        let result = Reader::from_bytes(header.as_bytes().to_vec());
        assert!(result.is_err());

        if let Err(e) = result {
            let error_msg = e.message();
            assert!(
                error_msg.contains("binary_compressed format is only supported in PCD version 0.7")
            );
        }
    }
}

#[test]
fn test_legacy_mixed_data_types() {
    // Legacy versions with various data types; "0.6" spelled out, not ".6"
    let header = "VERSION 0.6\n\
                  FIELDS pos normal_x rgb label\n\
                  SIZE 4 4 2 4\n\
                  TYPE F F U I\n\
                  COUNT 1 1 1 1\n\
                  WIDTH 1\n\
                  HEIGHT 1\n\
                  POINTS 1\n\
                  DATA binary\n";
    // pos=10.5, normal_x=0.5, rgb=65535, label=-42
    let mut payload = Vec::new();
    payload.extend_from_slice(&10.5f32.to_le_bytes());
    payload.extend_from_slice(&0.5f32.to_le_bytes());
    payload.extend_from_slice(&65535u16.to_le_bytes());
    payload.extend_from_slice(&(-42i32).to_le_bytes());

    let mut reader = Reader::from_bytes(file_bytes(header, &payload)).unwrap();
    let meta = reader.meta().clone();

    assert_eq!(meta.version, "0.6");
    assert_eq!(meta.field_defs.len(), 4);

    let mut points = Vec::new();
    while let Some(item) = reader.next_record() {
        points.push(item.unwrap());
    }
    assert_eq!(points.len(), 1);

    match (
        &points[0].0[0],
        &points[0].0[1],
        &points[0].0[2],
        &points[0].0[3],
    ) {
        (Field::F32(pos), Field::F32(normal), Field::U16(rgb), Field::I32(label)) => {
            assert_eq!(f32::from_bits(pos[0]), 10.5);
            assert_eq!(f32::from_bits(normal[0]), 0.5);
            assert_eq!(rgb[0], 65535);
            assert_eq!(label[0], -42);
        }
        _ => panic!("Unexpected field types"),
    }
}

#[test]
fn header_duplicate_field_name_rejected() {
    let header = "VERSION .7\n\
                  FIELDS x x\n\
                  SIZE 4 4\n\
                  TYPE F F\n\
                  COUNT 1 1\n\
                  WIDTH 1\n\
                  HEIGHT 1\n\
                  VIEWPOINT 0 0 0 1 0 0 0\n\
                  POINTS 1\n\
                  DATA ascii\n\
                  1.0 2.0\n";
    let result = Reader::from_bytes(header.as_bytes().to_vec());
    match result {
        Err(Error::ParseError { desc, .. }) => {
            assert_eq!(desc, "field name is specified more than once");
        }
        Err(other) => panic!("expected a parse error, got {:?}", other),
        Ok(_) => panic!("expected a parse error, got a reader"),
    }
}

#[test]
fn header_comments_and_blank_lines_are_skipped() {
    let header = "# a leading comment\n\
                  \n\
                  VERSION .7   # trailing comment\n\
                  FIELDS x\n\
                  # in the middle\n\
                  SIZE 4\n\
                  TYPE U\n\
                  COUNT 1\n\
                  WIDTH 1\n\
                  HEIGHT 1\n\
                  VIEWPOINT 0 0 0 1 0 0 0\n\
                  POINTS 1\n\
                  DATA binary\n";
    let payload = [7u8, 0, 0, 0];
    let mut reader = Reader::from_bytes(file_bytes(header, &payload)).unwrap();
    assert_eq!(reader.meta().version, "0.7");
    let rec = reader.next_record().unwrap().unwrap();
    assert_eq!(rec.0, vec![Field::U32(vec![7])]);
}

#[test]
fn header_underscore_field_becomes_unknown_field() {
    let header = "VERSION .7\n\
                  FIELDS x _ z\n\
                  SIZE 4 4 4\n\
                  TYPE F F F\n\
                  COUNT 1 1 1\n\
                  WIDTH 1\n\
                  HEIGHT 1\n\
                  VIEWPOINT 0 0 0 1 0 0 0\n\
                  POINTS 0\n\
                  DATA ascii\n";
    let reader = Reader::from_bytes(header.as_bytes().to_vec()).unwrap();
    let names: Vec<String> = reader
        .meta()
        .field_defs
        .fields
        .iter()
        .map(|d| d.name.clone())
        .collect();
    assert_eq!(names, vec!["x", "unknown_field_1", "z"]);
}

#[test]
fn header_unsupported_type_size_pairing_rejected() {
    let header = "VERSION .7\n\
                  FIELDS x\n\
                  SIZE 8\n\
                  TYPE U\n\
                  COUNT 1\n\
                  WIDTH 1\n\
                  HEIGHT 1\n\
                  VIEWPOINT 0 0 0 1 0 0 0\n\
                  POINTS 0\n\
                  DATA ascii\n";
    let result = Reader::from_bytes(header.as_bytes().to_vec());
    assert!(matches!(result, Err(Error::ParseError { .. })));
}

#[test]
fn header_list_length_mismatch_rejected() {
    let header = "VERSION .7\n\
                  FIELDS x y\n\
                  SIZE 4\n\
                  TYPE F F\n\
                  COUNT 1 1\n\
                  WIDTH 1\n\
                  HEIGHT 1\n\
                  VIEWPOINT 0 0 0 1 0 0 0\n\
                  POINTS 0\n\
                  DATA ascii\n";
    let result = Reader::from_bytes(header.as_bytes().to_vec());
    assert!(result.is_err());
}

#[test]
fn header_resolves_every_kind() {
    let header = "VERSION .7\n\
                  FIELDS a b c d e f g h\n\
                  SIZE 1 2 4 1 2 4 4 8\n\
                  TYPE U U U I I I F F\n\
                  COUNT 1 1 1 1 1 1 1 1\n\
                  WIDTH 1\n\
                  HEIGHT 1\n\
                  VIEWPOINT 0 0 0 1 0 0 0\n\
                  POINTS 0\n\
                  DATA binary\n";
    let reader = Reader::from_bytes(header.as_bytes().to_vec()).unwrap();
    let kinds: Vec<ValueKind> = reader
        .meta()
        .field_defs
        .fields
        .iter()
        .map(|d| d.kind)
        .collect();
    assert_eq!(
        kinds,
        vec![
            ValueKind::U8,
            ValueKind::U16,
            ValueKind::U32,
            ValueKind::I8,
            ValueKind::I16,
            ValueKind::I32,
            ValueKind::F32,
            ValueKind::F64,
        ]
    );
}

#[test]
fn header_eof_while_awaiting_keyword() {
    let header = "VERSION .7\nFIELDS x\nSIZE 4\n";
    let result = Reader::from_bytes(header.as_bytes().to_vec());
    assert!(matches!(result, Err(Error::ParseError { .. })));
}
