use apk_fixer::axml_fixer::{
    detect_axml_issues, fix_axml, AxmlError, AxmlFixReport, AxmlProblem, AXML_MAGIC,
};

fn chunk(chunk_type: u32, body_len: usize) -> Vec<u8> {
    let mut c = Vec::new();
    c.extend_from_slice(&chunk_type.to_le_bytes());
    c.extend_from_slice(&((8 + body_len) as u32).to_le_bytes());
    c.extend(std::iter::repeat(0xABu8).take(body_len));
    c
}

fn axml(declared: u32, chunks: &[Vec<u8>]) -> Vec<u8> {
    let mut d = Vec::new();
    d.extend_from_slice(&AXML_MAGIC.to_le_bytes());
    d.extend_from_slice(&declared.to_le_bytes());
    for c in chunks {
        d.extend_from_slice(c);
    }
    d
}

#[test]
fn test_detect_invalid_magic() {
    let data = vec![0xFF, 0xFF, 0xFF, 0xFF, 0x08, 0x00, 0x00, 0x00];
    let issues = detect_axml_issues(&data).unwrap();
    assert!(issues.len() > 0);
    assert!(issues[0].message().contains("魔数"));
}

#[test]
fn test_fix_truncated_file() {
    let mut data = Vec::new();
    data.extend_from_slice(&AXML_MAGIC.to_le_bytes());
    data.extend_from_slice(&1024u32.to_le_bytes());
    data.resize(100, 0x00);

    let (fixed, report) = fix_axml(&data).unwrap();
    assert!(report.file_size_fixed);
    assert_eq!(fixed.len(), 8);
}

#[test]
fn test_fix_corrupted_magic() {
    let data = vec![0x99, 0x88, 0x77, 0x66, 0x08, 0x00, 0x00, 0x00];

    let (fixed, report) = fix_axml(&data).unwrap();
    assert!(report.magic_fixed);
    assert_eq!(&fixed[0..4], &AXML_MAGIC.to_le_bytes());
}

#[test]
fn test_too_small_file() {
    assert_eq!(fix_axml(&[3, 0, 8]).unwrap_err(), AxmlError::TooSmall(3));
    assert_eq!(AxmlError::TooSmall(3).message(), "文件过小 (3 bytes)，无法修复");
    let issues = detect_axml_issues(&[1, 2]).unwrap();
    assert_eq!(issues, vec![AxmlProblem::FileTooSmall { len: 2 }]);
    assert_eq!(issues[0].message(), "文件过小 (2 bytes)，无法包含有效的 AXML 头部");
}

#[test]
fn test_clean_file_has_no_issues_and_is_kept() {
    let data = axml(0, &[chunk(0x001C0001, 8), chunk(0x00100102, 4)]);
    let len = data.len() as u32;
    let data = axml(len, &[chunk(0x001C0001, 8), chunk(0x00100102, 4)]);
    assert!(detect_axml_issues(&data).unwrap().is_empty());
    let (fixed, report) = fix_axml(&data).unwrap();
    assert_eq!(fixed, data);
    assert!(!report.has_fixes());
    assert_eq!(report.original_size, data.len());
    assert_eq!(report.final_size, data.len());
}

#[test]
fn test_invalid_chunk_is_skipped() {
    // A valid chunk, 4 bytes of junk, another valid chunk.
    let mut junk = vec![0x11, 0x22, 0x33, 0x44];
    junk.extend_from_slice(&chunk(0x00100103, 4));
    let data = axml(999, &[chunk(0x001C0001, 4), junk]);
    let (fixed, report) = fix_axml(&data).unwrap();
    assert_eq!(report.invalid_chunks_fixed, 1);
    assert_eq!(report.truncated_chunks_removed, 0);
    assert!(report.file_size_fixed);
    let expected = axml(8 + 12 + 12, &[chunk(0x001C0001, 4), chunk(0x00100103, 4)]);
    assert_eq!(fixed, expected);
    assert_eq!(report.final_size, 32);
}

#[test]
fn test_chunk_running_past_end_is_dropped() {
    let mut bad = chunk(0x00100102, 4);
    bad[4] = 200; // claims 200 bytes
    let data = axml(0, &[chunk(0x001C0001, 0), bad]);
    let issues = detect_axml_issues(&data).unwrap();
    assert_eq!(
        issues,
        vec![
            AxmlProblem::SizeMismatch { declared: 0, actual: 28 },
            AxmlProblem::ChunkOutOfRange { index: 1, offset: 8, size: 200, remaining: 12 },
        ]
    );
    assert_eq!(issues[0].message(), "文件大小不匹配: 声明 0 bytes，实际 28 bytes (填充)");
    assert_eq!(
        issues[1].message(),
        "Chunk #1 超出文件范围: 偏移 0x8, 大小 200 bytes, 文件剩余 12 bytes"
    );
    let (fixed, report) = fix_axml(&data).unwrap();
    assert_eq!(report.truncated_chunks_removed, 1);
    assert_eq!(fixed, axml(16, &[chunk(0x001C0001, 0)]));
}

#[test]
fn test_problem_messages() {
    assert_eq!(
        AxmlProblem::InvalidMagic { found: 0xFFFFFFFF }.message(),
        "无效的 AXML 魔数: 0xffffffff (期望 0x00080003)"
    );
    assert_eq!(
        AxmlProblem::SizeMismatch { declared: 30, actual: 20 }.message(),
        "文件大小不匹配: 声明 30 bytes，实际 20 bytes (截断)"
    );
    assert_eq!(
        AxmlProblem::ChunkHeaderTruncated { index: 2, offset: 26, remaining: 3 }.message(),
        "Chunk #2 头部截断 (偏移 0x1a, 剩余 3 bytes)"
    );
    assert_eq!(
        AxmlProblem::InvalidChunkType { index: 0, chunk_type: 0x1234, offset: 0 }.message(),
        "Chunk #0 类型无效: 0x00001234 (偏移 0x0)"
    );
    assert_eq!(
        AxmlProblem::ChunkTooSmall { index: 5, size: 4 }.message(),
        "Chunk #5 大小异常: 4 bytes (最小 8 bytes)"
    );
}

#[test]
fn test_detect_reports_small_and_invalid_chunks() {
    let mut small = chunk(0x00100102, 0);
    small[4] = 4; // size 4
    let data = axml(0, &[chunk(0x12345678, 0), small]);
    let len = data.len();
    let issues = detect_axml_issues(&data).unwrap();
    assert_eq!(
        issues,
        vec![
            AxmlProblem::SizeMismatch { declared: 0, actual: len },
            AxmlProblem::InvalidChunkType { index: 0, chunk_type: 0x12345678, offset: 0 },
            AxmlProblem::ChunkTooSmall { index: 1, size: 4 },
        ]
    );
}

#[test]
fn test_truncated_chunk_header_is_reported() {
    let mut data = axml(19, &[chunk(0x001C0001, 0)]);
    data.extend_from_slice(&[1, 2, 3]);
    let issues = detect_axml_issues(&data).unwrap();
    assert_eq!(
        issues,
        vec![AxmlProblem::ChunkHeaderTruncated { index: 1, offset: 8, remaining: 3 }]
    );
    let (fixed, report) = fix_axml(&data).unwrap();
    assert_eq!(report.truncated_chunks_removed, 1);
    assert_eq!(fixed.len(), 16);
}

#[test]
fn test_fix_is_idempotent() {
    let mut junk = vec![0x11, 0x22, 0x33, 0x44, 0x55];
    junk.extend_from_slice(&chunk(0x00180001, 4));
    let mut data = axml(5, &[chunk(0x001C0001, 4), junk]);
    data[0] = 0x77;
    data.extend_from_slice(&[9, 9, 9]);
    let (once, report) = fix_axml(&data).unwrap();
    assert!(report.has_fixes());
    let (twice, report2) = fix_axml(&once).unwrap();
    assert_eq!(twice, once);
    assert!(!report2.has_fixes());
    assert!(detect_axml_issues(&once).unwrap().is_empty());
    assert!(once.len() <= data.len());
}

#[test]
fn test_whole_last_chunk_after_junk_is_kept() {
    // 4 bytes of junk, then one whole 8-byte chunk that ends the file.
    let mut junk = vec![0x11, 0x22, 0x33, 0x44];
    junk.extend_from_slice(&chunk(0x00100102, 0));
    let data = axml(20, &[junk]);
    let (fixed, report) = fix_axml(&data).unwrap();
    assert_eq!(report.invalid_chunks_fixed, 1);
    assert_eq!(fixed, axml(16, &[chunk(0x00100102, 0)]));
}

#[test]
fn test_default_axml_report() {
    let r = AxmlFixReport::default();
    assert!(!r.has_fixes());
    assert_eq!(r.original_size, 0);
    assert_eq!(r.final_size, 0);
}
