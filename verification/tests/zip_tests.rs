use apk_fixer::axml_fixer::AXML_MAGIC;
use apk_fixer::detector::{detect_issues, truncate_str, IssueReport};
use apk_fixer::fixer::{fix_all, FixReport};
use apk_fixer::zip_structures::{
    CentralDirectoryHeader, EndOfCentralDirectory, HeaderError, RatioThreshold, ZipError,
};

struct Entry {
    name: Vec<u8>,
    method: u16,
    flags: u16,
    data: Vec<u8>,
    compressed: u32,
    uncompressed: u32,
}

fn entry(name: &str, method: u16, flags: u16, data: &[u8], uncompressed: u32) -> Entry {
    Entry {
        name: name.as_bytes().to_vec(),
        method,
        flags,
        data: data.to_vec(),
        compressed: data.len() as u32,
        uncompressed,
    }
}

fn u16le(v: &mut Vec<u8>, x: u16) {
    v.extend_from_slice(&x.to_le_bytes());
}

fn u32le(v: &mut Vec<u8>, x: u32) {
    v.extend_from_slice(&x.to_le_bytes());
}

fn build(entries: &[Entry], comment: &[u8]) -> Vec<u8> {
    let mut out = Vec::new();
    let mut offsets = Vec::new();
    for e in entries {
        offsets.push(out.len() as u32);
        u32le(&mut out, 0x04034b50);
        u16le(&mut out, 20);
        u16le(&mut out, e.flags);
        u16le(&mut out, e.method);
        u16le(&mut out, 0);
        u16le(&mut out, 0);
        u32le(&mut out, 0x1234);
        u32le(&mut out, e.compressed);
        u32le(&mut out, e.uncompressed);
        u16le(&mut out, e.name.len() as u16);
        u16le(&mut out, 0);
        out.extend_from_slice(&e.name);
        out.extend_from_slice(&e.data);
    }
    let cd_start = out.len() as u32;
    for (e, off) in entries.iter().zip(offsets.iter()) {
        u32le(&mut out, 0x02014b50);
        u16le(&mut out, 20);
        u16le(&mut out, 20);
        u16le(&mut out, e.flags);
        u16le(&mut out, e.method);
        u16le(&mut out, 0);
        u16le(&mut out, 0);
        u32le(&mut out, 0x1234);
        u32le(&mut out, e.compressed);
        u32le(&mut out, e.uncompressed);
        u16le(&mut out, e.name.len() as u16);
        u16le(&mut out, 0);
        u16le(&mut out, 0);
        u16le(&mut out, 0);
        u16le(&mut out, 0);
        u32le(&mut out, 0);
        u32le(&mut out, *off);
        out.extend_from_slice(&e.name);
    }
    let cd_size = out.len() as u32 - cd_start;
    u32le(&mut out, 0x06054b50);
    u16le(&mut out, 0);
    u16le(&mut out, 0);
    u16le(&mut out, entries.len() as u16);
    u16le(&mut out, entries.len() as u16);
    u32le(&mut out, cd_size);
    u32le(&mut out, cd_start);
    u16le(&mut out, comment.len() as u16);
    out.extend_from_slice(comment);
    out
}

fn hundred() -> RatioThreshold {
    RatioThreshold { numerator: 100, denominator: 1 }
}

fn png() -> Vec<u8> {
    vec![0x89, b'P', b'N', b'G', 0x0D, 0x0A, 0x1A, 0x0A, 1, 2, 3, 4]
}

fn protected_archive() -> Vec<u8> {
    build(
        &[
            entry("classes.dex", 0, 0, &[7u8; 16], 16),
            entry("assets/a.png", 0x7777, 0x0001, &png(), 5),
            entry("bomb.bin", 8, 0, &[1u8; 10], 1_000_000),
        ],
        b"",
    )
}

fn read_entries(data: &[u8]) -> Vec<CentralDirectoryHeader> {
    let pos = EndOfCentralDirectory::find(data).unwrap();
    let (eocd, _) = EndOfCentralDirectory::parse(data, pos).unwrap();
    let mut at = eocd.cd_offset as usize;
    let mut v = Vec::new();
    for _ in 0..eocd.cd_records_total {
        let (h, end) = CentralDirectoryHeader::parse(data, at).unwrap();
        v.push(h);
        at = end;
    }
    v
}

#[test]
fn test_detect_protection_features() {
    let data = protected_archive();
    let report = detect_issues(&data, hundred()).unwrap();
    assert!(report.has_issues());
    assert_eq!(report.invalid_compression_methods.len(), 1);
    assert_eq!(report.invalid_compression_methods[0].index, 1);
    assert_eq!(report.invalid_compression_methods[0].filename, "assets/a.png");
    assert_eq!(report.invalid_compression_methods[0].method, 0x7777);
    assert_eq!(report.fake_encryption_flags.len(), 1);
    assert_eq!(report.fake_encryption_flags[0].index, 1);
    assert_eq!(report.fake_encryption_flags[0].flags, 1);
    assert_eq!(report.zipbomb_entries.len(), 1);
    assert_eq!(report.zipbomb_entries[0].filename, "bomb.bin");
    assert_eq!(report.zipbomb_entries[0].compressed_size, 10);
    assert_eq!(report.zipbomb_entries[0].uncompressed_size, 1_000_000);
    assert!(report.axml_issues.is_empty());
}

#[test]
fn test_clean_archive_has_no_issues() {
    let data = build(&[entry("a.txt", 0, 0, b"hello", 5)], b"");
    let report = detect_issues(&data, hundred()).unwrap();
    assert!(!report.has_issues());
}

#[test]
fn test_fix_all_removes_protection() {
    let data = protected_archive();
    let found = detect_issues(&data, hundred()).unwrap();
    let (fixed, report) = fix_all(&data, hundred()).unwrap();
    assert_eq!(report.zipbomb_removed, found.zipbomb_entries.len());
    assert!(report.compression_fixed <= found.invalid_compression_methods.len());
    assert!(report.encryption_fixed <= found.fake_encryption_flags.len());
    assert_eq!(report.compression_fixed, 1);
    assert_eq!(report.encryption_fixed, 1);
    assert_eq!(report.zipbomb_removed, 1);
    assert_eq!(report.lfh_signature_fixed, 0);
    assert_eq!(report.axml_fixed, 0);
    assert_eq!(report.original_entries, 3);
    assert_eq!(report.final_entries, 2);
    assert_eq!(report.original_size, data.len());
    assert_eq!(report.final_size, fixed.len());
    assert_eq!(report.final_entries + report.zipbomb_removed, report.original_entries);

    let after = detect_issues(&fixed, hundred()).unwrap();
    assert!(!after.has_issues());

    let entries = read_entries(&fixed);
    assert_eq!(entries.len(), 2);
    assert_eq!(entries[0].filename_str(), "classes.dex");
    assert_eq!(entries[1].filename_str(), "assets/a.png");
    assert_eq!(entries[1].compression_method, 0);
    assert_eq!(entries[1].flags, 0);
    assert_eq!(entries[1].uncompressed_size, png().len() as u32);
    // The rebuilt local header of the second entry carries the same values.
    let lfh = entries[1].local_header_offset as usize;
    assert_eq!(&fixed[lfh..lfh + 4], &0x04034b50u32.to_le_bytes());
    assert_eq!(&fixed[lfh + 6..lfh + 8], &0u16.to_le_bytes());
    assert_eq!(&fixed[lfh + 8..lfh + 10], &0u16.to_le_bytes());
    let data_start = lfh + 30 + "assets/a.png".len();
    assert_eq!(&fixed[data_start..data_start + png().len()], &png()[..]);
}

#[test]
fn test_fix_repairs_local_header_signature() {
    let mut data = build(&[entry("a.txt", 0, 0, b"hello", 5)], b"xy");
    data[0] = 0x00;
    let (fixed, report) = fix_all(&data, hundred()).unwrap();
    assert_eq!(report.lfh_signature_fixed, 1);
    assert_eq!(&fixed[0..4], &0x04034b50u32.to_le_bytes());
    assert_eq!(&fixed[fixed.len() - 2..], b"xy");
}

fn damaged_manifest() -> Vec<u8> {
    // Good header, one valid chunk, but a wrong size field and trailing junk.
    let mut x = Vec::new();
    x.extend_from_slice(&AXML_MAGIC.to_le_bytes());
    x.extend_from_slice(&500u32.to_le_bytes());
    x.extend_from_slice(&0x001C0001u32.to_le_bytes());
    x.extend_from_slice(&12u32.to_le_bytes());
    x.extend_from_slice(&[5, 6, 7, 8]);
    x.extend_from_slice(&[1, 2, 3]);
    x
}

#[test]
fn test_fix_repairs_manifest_and_checksum() {
    let manifest = damaged_manifest();
    let data = build(
        &[entry("AndroidManifest.xml", 0, 0, &manifest, manifest.len() as u32)],
        b"",
    );
    let report = detect_issues(&data, hundred()).unwrap();
    assert_eq!(report.axml_issues.len(), 1);
    assert_eq!(report.axml_issues[0].filename, "AndroidManifest.xml");

    let (fixed, report) = fix_all(&data, hundred()).unwrap();
    assert_eq!(report.axml_fixed, 1);
    assert_eq!(report.axml_reports.len(), 1);
    assert_eq!(report.axml_reports[0].0, "AndroidManifest.xml");
    assert!(report.axml_reports[0].1.file_size_fixed);
    assert_eq!(report.axml_reports[0].1.truncated_chunks_removed, 1);

    let (repaired, _) = apk_fixer::axml_fixer::fix_axml(&manifest).unwrap();
    assert_eq!(repaired.len(), 20);
    let entries = read_entries(&fixed);
    assert_eq!(entries[0].crc32, crc32fast::hash(&repaired));
    assert_ne!(entries[0].crc32, 0x1234);
    assert_eq!(entries[0].compressed_size, 20);
    assert_eq!(entries[0].uncompressed_size, 20);
    let data_start = 30 + "AndroidManifest.xml".len();
    assert_eq!(&fixed[14..18], &crc32fast::hash(&repaired).to_le_bytes());
    assert_eq!(&fixed[data_start..data_start + 20], &repaired[..]);

    let after = detect_issues(&fixed, hundred()).unwrap();
    assert!(!after.has_issues());
}

#[test]
fn test_missing_end_record() {
    let data = vec![0u8; 100];
    assert_eq!(EndOfCentralDirectory::find(&data), Err(ZipError::EocdNotFound));
    assert_eq!(detect_issues(&data, hundred()).unwrap_err(), ZipError::EocdNotFound);
    assert_eq!(fix_all(&data, hundred()).unwrap_err(), ZipError::EocdNotFound);
}

#[test]
fn test_end_record_with_truncated_comment() {
    let mut data = build(&[], b"");
    let n = data.len();
    data[n - 2] = 10; // claims a 10-byte comment that is not there
    assert_eq!(
        detect_issues(&data, hundred()).unwrap_err(),
        ZipError::Eocd(HeaderError::UnexpectedEof)
    );
}

#[test]
fn test_damaged_central_directory_entry() {
    let mut data = build(&[entry("a", 0, 0, b"x", 1), entry("b", 0, 0, b"y", 1)], b"");
    // Second central directory header: break its signature.
    let pos = EndOfCentralDirectory::find(&data).unwrap();
    let (eocd, _) = EndOfCentralDirectory::parse(&data, pos).unwrap();
    let second = eocd.cd_offset as usize + 47;
    data[second] = 0x00;
    match detect_issues(&data, hundred()).unwrap_err() {
        ZipError::Entry { index, error } => {
            assert_eq!(index, 1);
            assert!(matches!(error, HeaderError::InvalidSignature(_)));
        }
        other => panic!("unexpected error {:?}", other),
    }
}

#[test]
fn test_truncated_central_directory() {
    let mut data = build(&[entry("a", 0, 0, b"x", 1)], b"");
    let n = data.len();
    // Announce two entries where there is one: the second read runs into the end record.
    data[n - 22 + 8] = 2;
    data[n - 22 + 10] = 2;
    match fix_all(&data, hundred()).unwrap_err() {
        ZipError::Entry { index, error } => {
            assert_eq!(index, 1);
            assert!(matches!(error, HeaderError::InvalidSignature(0x06054b50)));
        }
        other => panic!("unexpected error {:?}", other),
    }
}

#[test]
fn test_header_roundtrip() {
    let data = build(&[entry("dir/file.bin", 8, 2, b"abcdef", 60)], b"note");
    let pos = EndOfCentralDirectory::find(&data).unwrap();
    let (eocd, end) = EndOfCentralDirectory::parse(&data, pos).unwrap();
    assert_eq!(end, data.len());
    assert_eq!(eocd.comment, b"note".to_vec());
    assert_eq!(eocd.serialize(), data[pos..].to_vec());
    let at = eocd.cd_offset as usize;
    let (cdh, cdh_end) = CentralDirectoryHeader::parse(&data, at).unwrap();
    assert_eq!(cdh.serialize(), data[at..cdh_end].to_vec());
    assert_eq!(cdh_end - at, 46 + "dir/file.bin".len());
    assert_eq!(cdh.compression_method, 8);
    assert_eq!(cdh.flags, 2);
    assert_eq!(cdh.uncompressed_size, 60);
    assert_eq!(
        EndOfCentralDirectory::parse(&data, 0).unwrap_err(),
        HeaderError::InvalidSignature(0x04034b50)
    );
    assert_eq!(
        EndOfCentralDirectory::parse(&data, pos + 1).unwrap_err(),
        HeaderError::InvalidSignature(u32::from_le_bytes([data[pos + 1], data[pos + 2], data[pos + 3], data[pos + 4]]))
    );
    assert_eq!(
        CentralDirectoryHeader::parse(&data, 0).unwrap_err(),
        HeaderError::InvalidSignature(0x04034b50)
    );
    assert_eq!(
        CentralDirectoryHeader::parse(&data, data.len() - 2).unwrap_err(),
        HeaderError::UnexpectedEof
    );
}

#[test]
fn test_filename_lossy_decoding() {
    let data = build(&[entry("a.txt", 0, 0, b"x", 1)], b"");
    let pos = EndOfCentralDirectory::find(&data).unwrap();
    let (eocd, _) = EndOfCentralDirectory::parse(&data, pos).unwrap();
    let (mut cdh, _) = CentralDirectoryHeader::parse(&data, eocd.cd_offset as usize).unwrap();
    cdh.filename = vec![b'a', 0xFF, b'b'];
    assert_eq!(cdh.filename_str(), "a\u{FFFD}b");
}

#[test]
fn test_ratio_threshold() {
    let data = build(&[entry("a", 0, 0, b"x", 1)], b"");
    let pos = EndOfCentralDirectory::find(&data).unwrap();
    let (eocd, _) = EndOfCentralDirectory::parse(&data, pos).unwrap();
    let (mut cdh, _) = CentralDirectoryHeader::parse(&data, eocd.cd_offset as usize).unwrap();
    cdh.compressed_size = 10;
    cdh.uncompressed_size = 1000;
    assert!(!cdh.exceeds_ratio(hundred()));
    cdh.uncompressed_size = 1001;
    assert!(cdh.exceeds_ratio(hundred()));
    assert!(cdh.exceeds_ratio(RatioThreshold { numerator: 201, denominator: 2 }) == false);
    assert!(!cdh.exceeds_ratio(RatioThreshold { numerator: 1, denominator: 0 }));
    cdh.compressed_size = 0;
    assert!(cdh.exceeds_ratio(hundred()));
    cdh.uncompressed_size = 0;
    assert!(!cdh.exceeds_ratio(hundred()));
}

#[test]
fn test_central_directory_offset_past_end() {
    let mut far = build(&[], b"");
    let n = far.len();
    far[n - 6] = 0xFF; // central directory offset beyond the data
    let offset = u32::from_le_bytes([far[n - 6], far[n - 5], far[n - 4], far[n - 3]]);
    assert!(offset as usize > far.len());
    assert_eq!(
        detect_issues(&far, hundred()).unwrap_err(),
        ZipError::CentralDirectoryOffset(offset)
    );
    assert_eq!(fix_all(&far, hundred()).unwrap_err(), ZipError::CentralDirectoryOffset(offset));
}

#[test]
fn test_short_dex_entry_is_repaired_as_stored() {
    let mut short_dex = vec![0u8; 20];
    short_dex[0..4].copy_from_slice(b"dex\n");
    let odd = build(&[entry("classes.dex", 0x7777, 0, &short_dex, 20)], b"");
    assert_eq!(detect_issues(&odd, hundred()).unwrap().invalid_compression_methods.len(), 1);
    let (out, report) = fix_all(&odd, hundred()).unwrap();
    assert_eq!(report.compression_fixed, 1);
    let entries = read_entries(&out);
    assert_eq!(entries[0].compression_method, 0);
    assert_eq!(entries[0].uncompressed_size, 20);
}

#[test]
fn test_end_record_needs_22_bytes() {
    let mut data = vec![0x50, 0x4b, 0x05, 0x06];
    assert_eq!(EndOfCentralDirectory::find(&data).unwrap_err(), ZipError::EocdNotFound);
    data.resize(21, 0);
    assert_eq!(EndOfCentralDirectory::find(&data).unwrap_err(), ZipError::EocdNotFound);
    assert_eq!(detect_issues(&data, hundred()).unwrap_err(), ZipError::EocdNotFound);
    data.resize(22, 0);
    assert_eq!(EndOfCentralDirectory::find(&data).unwrap(), 0);
}

#[test]
fn test_truncate_str() {
    assert_eq!(truncate_str("short.xml", 9), "short.xml");
    assert_eq!(truncate_str("res/layout/activity_main.xml", 10), "res/lay...");
    assert_eq!(truncate_str("abcdef", 2), "...");
    assert_eq!(truncate_str("", 0), "");
    assert_eq!(truncate_str("日本語ファイル", 9), "日本...");
    assert_eq!(truncate_str("日本語ファイル", 6), "日...");
}

#[test]
fn test_empty_reports() {
    let r = IssueReport::default();
    assert!(!r.has_issues());
    let f = FixReport::default();
    assert_eq!(f.compression_fixed + f.encryption_fixed + f.zipbomb_removed, 0);
    assert_eq!(f.original_size, 0);
    assert!(f.axml_reports.is_empty());
}

#[test]
fn test_negative_threshold_drops_every_entry() {
    let data = build(
        &[entry("a.txt", 0, 0, b"hello", 5), entry("empty", 0, 0, b"", 0)],
        b"",
    );
    let minus_one = RatioThreshold { numerator: -1, denominator: 1 };
    let found = detect_issues(&data, minus_one).unwrap();
    assert_eq!(found.zipbomb_entries.len(), 2);
    let (_, report) = fix_all(&data, minus_one).unwrap();
    assert_eq!(report.zipbomb_removed, 2);
    assert_eq!(report.final_entries, 0);
    // A zero threshold keeps the empty entry: its ratio is 0, not above 0.
    let zero = RatioThreshold { numerator: 0, denominator: 1 };
    assert_eq!(fix_all(&data, zero).unwrap().1.zipbomb_removed, 1);
}

#[test]
fn test_higher_threshold_drops_no_more() {
    let data = protected_archive();
    let low = fix_all(&data, RatioThreshold { numerator: 1, denominator: 2 }).unwrap().1;
    let high = fix_all(&data, hundred()).unwrap().1;
    let none = fix_all(&data, RatioThreshold { numerator: 0, denominator: 0 }).unwrap().1;
    assert!(high.zipbomb_removed <= low.zipbomb_removed);
    assert!(none.zipbomb_removed <= high.zipbomb_removed);
    assert_eq!(none.zipbomb_removed, 0);
}

#[test]
fn test_reported_methods_are_fixed_or_dropped() {
    let data = protected_archive();
    let found = detect_issues(&data, hundred()).unwrap();
    let (out, report) = fix_all(&data, hundred()).unwrap();
    assert!(report.compression_fixed <= found.invalid_compression_methods.len());
    let again = detect_issues(&out, hundred()).unwrap();
    assert!(again.invalid_compression_methods.is_empty());
    assert!(again.fake_encryption_flags.is_empty());
}

#[test]
fn test_filename_valid_utf8_kept() {
    let data = build(&[entry("res/日本.xml", 0, 0, b"x", 1)], b"");
    let entries = read_entries(&data);
    assert_eq!(entries[0].filename_str(), "res/日本.xml");
}
