use pcd_rs::lzf::{compress, decompress};

#[test]
fn test_compress_decompress() {
    let original = b"Hello, world! This is a test of LZF compression. Hello, world!";

    let compressed = compress(original).unwrap();
    assert!(compressed.len() < original.len());

    let decompressed = decompress(&compressed, original.len()).unwrap();
    assert_eq!(decompressed, original);
}

#[test]
fn test_empty_data() {
    let original = b"";
    let compressed = compress(original).unwrap();
    assert_eq!(compressed.len(), 0);
}

#[test]
fn test_incompressible_data() {
    // Random-like data that won't compress well
    let original: Vec<u8> = (0..100).map(|i| (i * 7 + 13) as u8).collect();

    let compressed = compress(&original).unwrap();
    let decompressed = decompress(&compressed, original.len()).unwrap();
    assert_eq!(decompressed, original);
}

#[test]
fn test_repetitive_data() {
    let original = vec![42u8; 1000];

    let compressed = compress(&original).unwrap();
    assert!(compressed.len() < original.len() / 10); // Should compress very well

    let decompressed = decompress(&compressed, original.len()).unwrap();
    assert_eq!(decompressed, original);
}

#[test]
fn test_short_patterns() {
    let original = b"aaabbbcccaaabbbccc";

    let compressed = compress(original).unwrap();
    let decompressed = decompress(&compressed, original.len()).unwrap();
    assert_eq!(decompressed, original);
}

#[test]
fn test_single_byte() {
    let original = b"x";
    let compressed = compress(original).unwrap();
    let decompressed = decompress(&compressed, original.len()).unwrap();
    assert_eq!(decompressed, original);
}

#[test]
fn test_max_literal_run() {
    // Test maximum literal run (32 bytes)
    let mut original = Vec::new();
    for i in 0..32 {
        original.push((i * 7) as u8);
    }

    let compressed = compress(&original).unwrap();
    let decompressed = decompress(&compressed, original.len()).unwrap();
    assert_eq!(decompressed, original);
}

#[test]
fn test_long_match() {
    // Create data that will trigger long matches (>= 7 byte matches)
    let mut original = Vec::new();
    let pattern = b"abcdefghijklmnop";
    original.extend_from_slice(pattern);
    original.extend_from_slice(b"xyz");
    original.extend_from_slice(pattern); // This should create a long match

    let compressed = compress(&original).unwrap();
    let decompressed = decompress(&compressed, original.len()).unwrap();
    assert_eq!(decompressed, original);
}

#[test]
fn test_overlapping_copy() {
    // Test case that requires overlapping copy during decompression
    let original = b"abcabcabcabcabc";

    let compressed = compress(original).unwrap();
    let decompressed = decompress(&compressed, original.len()).unwrap();
    assert_eq!(decompressed, original);
}

#[test]
fn test_binary_data() {
    // Test with actual binary float data (like PCD files)
    let original = vec![
        0x00, 0x00, 0x80, 0x3f, // 1.0f
        0x00, 0x00, 0x00, 0x40, // 2.0f
        0x00, 0x00, 0x40, 0x40, // 3.0f
        0x00, 0x00, 0x80, 0x3f, // 1.0f again
        0x00, 0x00, 0x00, 0x40, // 2.0f again
    ];

    let compressed = compress(&original).unwrap();
    let decompressed = decompress(&compressed, original.len()).unwrap();
    assert_eq!(decompressed, original);
}

#[test]
fn test_decompress_invalid_literal_run() {
    // Invalid compressed data - literal run exceeds input
    let invalid = vec![31, 1, 2]; // Says 32 bytes but only has 2
    let result = decompress(&invalid, 32);
    assert!(result.is_err());
}

#[test]
fn test_decompress_invalid_back_ref() {
    // Invalid compressed data - back reference beyond current position
    let invalid = vec![0x80, 0x10]; // Back reference with offset > position
    let result = decompress(&invalid, 10);
    assert!(result.is_err());
}

#[test]
fn test_large_data() {
    // Test with larger data (1KB)
    let mut original = Vec::with_capacity(1024);
    for i in 0..256 {
        original.extend_from_slice(&[i as u8; 4]);
    }

    let compressed = compress(&original).unwrap();
    // Note: May not compress if data is too random

    let decompressed = decompress(&compressed, original.len()).unwrap();
    assert_eq!(decompressed, original);
}
