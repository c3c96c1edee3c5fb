use apk_fixer::compression::CompressionMethod;
use apk_fixer::compression_detector::{accept_inflated_size, detect_real_compression};
use std::io::Write;

#[test]
fn test_valid_methods() {
    assert!(CompressionMethod::is_valid(0));
    assert!(CompressionMethod::is_valid(8));
    assert!(!CompressionMethod::is_valid(0x7777));
    assert!(!CompressionMethod::is_valid(65535));
}

#[test]
fn test_apk_common() {
    assert!(CompressionMethod::is_apk_common(0));
    assert!(CompressionMethod::is_apk_common(8));
    assert!(!CompressionMethod::is_apk_common(12));
}

#[test]
fn test_standard_compression_methods() {
    assert!(CompressionMethod::is_valid(0));
    assert!(CompressionMethod::is_valid(8));
    assert!(CompressionMethod::is_valid(12));
    assert!(CompressionMethod::is_valid(14));
    assert!(CompressionMethod::is_valid(93));

    assert!(!CompressionMethod::is_valid(0x7777));
    assert!(!CompressionMethod::is_valid(255));
    assert!(!CompressionMethod::is_valid(1000));
}

#[test]
fn test_apk_common_methods() {
    assert!(CompressionMethod::is_apk_common(0));
    assert!(CompressionMethod::is_apk_common(8));

    assert!(!CompressionMethod::is_apk_common(12));
    assert!(!CompressionMethod::is_apk_common(14));
}

#[test]
fn test_compression_method_names() {
    assert_eq!(CompressionMethod::name(0), "Store (无压缩)");
    assert_eq!(CompressionMethod::name(8), "Deflate (标准)");
    assert_eq!(CompressionMethod::name(93), "Zstandard");
    assert!(CompressionMethod::name(0x7777).contains("UNKNOWN"));
}

#[test]
fn test_recommended_fix() {
    assert_eq!(CompressionMethod::RECOMMENDED_FIX, 8);
    assert!(CompressionMethod::is_valid(CompressionMethod::RECOMMENDED_FIX));
    assert!(CompressionMethod::is_apk_common(CompressionMethod::RECOMMENDED_FIX));
}

#[test]
fn test_method_range_edges() {
    assert!(CompressionMethod::is_valid(19));
    assert!(!CompressionMethod::is_valid(20));
    assert!(!CompressionMethod::is_valid(92));
    assert!(CompressionMethod::is_valid(99));
    assert!(!CompressionMethod::is_valid(100));
    assert_eq!(CompressionMethod::name(7), "Reserved");
    assert_eq!(CompressionMethod::name(99), "AE-x 加密标记");
    assert_eq!(CompressionMethod::name(20), "UNKNOWN (非标准)");
}

#[test]
fn test_detect_axml() {
    let data = [
        0x03, 0x00, 0x08, 0x00, // magic: 0x00080003
        0x10, 0x00, 0x00, 0x00, // file_size: 16
        0x01, 0x02, 0x03, 0x04, 0x05, 0x06, 0x07, 0x08,
    ];
    assert_eq!(detect_real_compression(&data, 16), (0, 16));
}

#[test]
fn test_detect_dex() {
    let mut data = vec![0u8; 40];
    data[0..4].copy_from_slice(b"dex\n");
    data[32..36].copy_from_slice(&40u32.to_le_bytes());
    assert_eq!(detect_real_compression(&data, 40), (0, 40));
}

#[test]
fn test_detect_known_headers_are_stored() {
    assert_eq!(detect_real_compression(&[], 5), (0, 0));
    assert_eq!(detect_real_compression(&[0x89, b'P', b'N', b'G', 1, 2], 99), (0, 6));
    assert_eq!(detect_real_compression(&[0xFF, 0xD8, 0xFF, 0xE0], 7), (0, 4));
    assert_eq!(detect_real_compression(&[b'P', b'K', 3, 4, 0], 7), (0, 5));
}

fn deflate(data: &[u8]) -> Vec<u8> {
    let mut enc = flate2::write::DeflateEncoder::new(Vec::new(), flate2::Compression::default());
    enc.write_all(data).unwrap();
    enc.finish().unwrap()
}

#[test]
fn test_detect_real_deflate_stream() {
    let plain = vec![b'a'; 5000];
    let packed = deflate(&plain);
    assert!(packed.len() < plain.len());
    assert_eq!(detect_real_compression(&packed, 5000), (8, 5000));
    assert_eq!(detect_real_compression(&packed, 0), (8, 5000));
    // A declared size that does not match the decoded size: stored.
    assert_eq!(detect_real_compression(&packed, 4999), (0, packed.len() as u32));
}

#[test]
fn test_detect_garbage_is_stored() {
    let garbage = [0xFFu8, 0xFF, 0xFF, 0xFF, 0x12, 0x34];
    assert_eq!(detect_real_compression(&garbage, 100), (0, 6));
}

#[test]
fn test_accept_inflated_size() {
    assert_eq!(accept_inflated_size(None, 10), None);
    assert_eq!(accept_inflated_size(Some(0), 0), None);
    assert_eq!(accept_inflated_size(Some(10), 10), Some(10));
    assert_eq!(accept_inflated_size(Some(10), 0), Some(10));
    assert_eq!(accept_inflated_size(Some(10), 11), None);
}

#[test]
fn test_method_codes() {
    assert_eq!(CompressionMethod::Store.code(), 0);
    assert_eq!(CompressionMethod::Deflate.code(), 8);
    assert_eq!(CompressionMethod::Lz77.code(), 19);
    assert_eq!(CompressionMethod::Zstd.code(), 93);
    assert_eq!(CompressionMethod::Aex.code(), 99);
    assert!(CompressionMethod::is_valid(CompressionMethod::Xz.code()));
}

#[test]
fn test_detect_short_dex_like_data() {
    let mut data = vec![0u8; 20];
    data[0..4].copy_from_slice(b"dex\n");
    assert_eq!(detect_real_compression(&data, 20), (0, 20));
}
