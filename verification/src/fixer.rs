//! One-step repair of an archive: zip-bomb decoys are dropped, invalid
//! compression methods and forged encryption flags are corrected, damaged
//! binary XML resources are repaired, and the archive is written out again
//! with local headers rebuilt from the central directory.
use crate::axml_fixer::{spec_axml_problems, AxmlProblem, fix_axml, spec_fix_axml, spec_has_fixes, AxmlFixReport};
use crate::bytes::{le_u16, le_u32, lemma_le_u16_at, lemma_le_u32_at, push_all, push_u16_le, push_u32_le, read_u16_le, u16_le_bytes, read_u32_le, u32_le_bytes};
use crate::compression::{spec_is_valid_method, CompressionMethod};
use crate::compression_detector::{detect_real_compression, spec_detect_real_compression};
use crate::detector::{lemma_clean_entries_report, lemma_no_axml_entries_report, spec_entry_axml_problems, spec_detect_issues, entry_data_range, is_axml_resource_name, looks_like_axml};
use crate::zip_structures::{
    cdh_seq_bytes, cdh_well_formed, eocd_search_high, eocd_search_low, eocd_sig_at,
    eocd_well_formed, lemma_eocd_bytes_signature, lemma_eocd_parse_serialize, lemma_eocd_scan,
    lemma_eocd_scan_finds, lemma_eocd_serialize_parse, lemma_read_entries_serialized,
    lemma_read_entries_well_formed, spec_find_eocd,
    cdh_bytes, eocd_bytes, read_archive, spec_exceeds_ratio,
    spec_read_archive, lemma_read_entries_len, utf8_lossy, CdhModel, CentralDirectoryHeader, EndOfCentralDirectory,
    EocdModel, RatioThreshold, ZipError,
};
use std::collections::HashMap;
use vstd::prelude::*;

verus! {

/// The entry as it is written back: an invalid compression method is
/// replaced by the method the data turns out to use (Store, with the data's
/// own size as the uncompressed size, when the data cannot be located), and
/// the encryption flag (bit 0) is cleared.
pub open spec fn spec_repair_entry(s: Seq<u8>, m: CdhModel) -> CdhModel {
    let m1 = if !spec_is_valid_method(m.compression_method) {
        match entry_data_range(s, m) {
            Some((a, b)) => {
                let (method, size) = spec_detect_real_compression(
                    s.subrange(a, b),
                    m.uncompressed_size,
                );
                CdhModel {
                    compression_method: method,
                    uncompressed_size: if method == 0 {
                        size
                    } else {
                        m.uncompressed_size
                    },
                    ..m
                }
            },
            None => CdhModel { compression_method: 0, uncompressed_size: m.compressed_size, ..m },
        }
    } else {
        m
    };
    if m1.flags & 1u16 != 0 {
        CdhModel { flags: m1.flags & 0xFFFEu16, ..m1 }
    } else {
        m1
    }
}

/// The entries kept and repaired, with the numbers of zip-bomb decoys
/// removed, compression methods fixed and encryption flags cleared.
pub open spec fn spec_fix_entries(s: Seq<u8>, es: Seq<CdhModel>, t: RatioThreshold) -> (
    Seq<CdhModel>,
    nat,
    nat,
    nat,
)
    decreases es.len(),
{
    if es.len() == 0 {
        (Seq::empty(), 0, 0, 0)
    } else {
        let p = spec_fix_entries(s, es.drop_last(), t);
        let m = es.last();
        if spec_exceeds_ratio(m.compressed_size, m.uncompressed_size, t) {
            (p.0, p.1 + 1, p.2, p.3)
        } else {
            (
                p.0.push(spec_repair_entry(s, m)),
                p.1,
                p.2 + if !spec_is_valid_method(m.compression_method) {
                    1nat
                } else {
                    0nat
                },
                p.3 + if m.flags & 1u16 != 0 {
                    1nat
                } else {
                    0nat
                },
            )
        }
    }
}

/// Drops the zip-bomb decoys among `entries` and repairs the others.
fn fix_entries(data: &[u8], entries: &Vec<CentralDirectoryHeader>, t: RatioThreshold) -> (r: (
    Vec<CentralDirectoryHeader>,
    usize,
    usize,
    usize,
))
    ensures
        ({
            let spec = spec_fix_entries(data@, entries@.map_values(|h: CentralDirectoryHeader| h@), t);
            &&& r.0@.map_values(|h: CentralDirectoryHeader| h@) == spec.0
            &&& r.1 == spec.1
            &&& r.2 == spec.2
            &&& r.3 == spec.3
        }),
        r.0@.len() <= entries@.len(),
{
    let ghost es = entries@.map_values(|h: CentralDirectoryHeader| h@);
    let mut fixed: Vec<CentralDirectoryHeader> = Vec::new();
    let mut zipbomb_removed: usize = 0;
    let mut compression_fixed: usize = 0;
    let mut encryption_fixed: usize = 0;
    let n = entries.len();
    let mut i: usize = 0;
    assert(es.take(0) =~= Seq::<CdhModel>::empty());
    assert(fixed@.map_values(|h: CentralDirectoryHeader| h@) =~= Seq::<CdhModel>::empty());
    while i < n
        invariant
            n == entries@.len(),
            i <= n,
            es == entries@.map_values(|h: CentralDirectoryHeader| h@),
            fixed@.len() <= i,
            zipbomb_removed <= i,
            compression_fixed <= i,
            encryption_fixed <= i,
            ({
                let spec = spec_fix_entries(data@, es.take(i as int), t);
                &&& fixed@.map_values(|h: CentralDirectoryHeader| h@) == spec.0
                &&& zipbomb_removed == spec.1
                &&& compression_fixed == spec.2
                &&& encryption_fixed == spec.3
            }),
        decreases n - i,
    {
        let cdh = &entries[i];
        let ghost m = es[i as int];
        let ghost before = fixed@.map_values(|h: CentralDirectoryHeader| h@);
        assert(es.take(i + 1).drop_last() =~= es.take(i as int));
        assert(es.take(i + 1).last() == m);
        if cdh.exceeds_ratio(t) {
            zipbomb_removed = zipbomb_removed + 1;
        } else {
            let mut fixed_cdh = cdh.clone();
            if !CompressionMethod::is_valid(cdh.compression_method) {
                match crate::detector::entry_data(data, cdh) {
                    Some(actual) => {
                        let (real_method, actual_size) = detect_real_compression(
                            actual,
                            cdh.uncompressed_size,
                        );
                        fixed_cdh.compression_method = real_method;
                        if real_method == 0 {
                            fixed_cdh.uncompressed_size = actual_size;
                        }
                    },
                    None => {
                        fixed_cdh.compression_method = 0;
                        fixed_cdh.uncompressed_size = fixed_cdh.compressed_size;
                    },
                }
                compression_fixed = compression_fixed + 1;
            }
            if fixed_cdh.flags & 0x0001 != 0 {
                fixed_cdh.flags = fixed_cdh.flags & 0xFFFE;
                encryption_fixed = encryption_fixed + 1;
            }
            assert(fixed_cdh@ == spec_repair_entry(data@, m));
            fixed.push(fixed_cdh);
            assert(fixed@.map_values(|h: CentralDirectoryHeader| h@) =~= before.push(
                spec_repair_entry(data@, m),
            ));
        }
        i = i + 1;
    }
    assert(es.take(n as int) =~= es);
    (fixed, zipbomb_removed, compression_fixed, encryption_fixed)
}

/// One step of the bitwise CRC-32 register update: shift right by one,
/// folding in the reflected polynomial 0xEDB88320 when the bit shifted out
/// is 1.
pub open spec fn crc32_step(c: u32) -> u32 {
    if c & 1u32 == 1u32 {
        (c >> 1u32) ^ 0xEDB88320u32
    } else {
        c >> 1u32
    }
}

/// `n` register update steps.
pub open spec fn crc32_steps(c: u32, n: nat) -> u32
    decreases n,
{
    if n == 0 {
        c
    } else {
        crc32_steps(crc32_step(c), (n - 1) as nat)
    }
}

/// The CRC-32 register after the bytes of `data`, starting from 0xFFFFFFFF:
/// each byte is xored into the low bits, then eight steps are taken.
pub open spec fn crc32_register(data: Seq<u8>) -> u32
    decreases data.len(),
{
    if data.len() == 0 {
        0xFFFFFFFFu32
    } else {
        crc32_steps(crc32_register(data.drop_last()) ^ (data.last() as u32), 8)
    }
}

/// The CRC-32 checksum (IEEE 802.3, as ZIP uses it) of `data`: the final
/// register with every bit inverted.
pub open spec fn crc32_checksum(data: Seq<u8>) -> u32 {
    crc32_register(data) ^ 0xFFFFFFFFu32
}

/// crc32fast's `hash`: the CRC-32 (IEEE) checksum of `data`.
#[verifier::external_body]
fn crc32_of(data: &[u8]) -> (r: u32)
    ensures
        r == crc32_checksum(data@),
{
    crc32fast::hash(data)
}

/// A repaired binary XML resource: its new content, checksum and size.
pub struct FixedXml {
    pub data: Vec<u8>,
    pub crc32: u32,
    pub size: u32,
}

pub struct FixedXmlModel {
    pub data: Seq<u8>,
    pub crc32: u32,
    pub size: u32,
}

impl View for FixedXml {
    type V = FixedXmlModel;

    open spec fn view(&self) -> FixedXmlModel {
        FixedXmlModel { data: self.data@, crc32: self.crc32, size: self.size }
    }
}

/// The repaired content of entry `f` and the repair report, when `f` is a
/// binary XML resource of 8 bytes or more whose repair changes something.
pub open spec fn spec_axml_candidate(s: Seq<u8>, f: CdhModel) -> Option<(Seq<u8>, AxmlFixReport)> {
    if is_axml_resource_name(f.filename) {
        match entry_data_range(s, f) {
            Some((a, b)) => {
                let x = s.subrange(a, b);
                if x.len() >= 8 && looks_like_axml(x) {
                    let fixed = spec_fix_axml(x)->Ok_0;
                    if spec_has_fixes(fixed.1) {
                        Some(fixed)
                    } else {
                        None
                    }
                } else {
                    None
                }
            },
            None => None,
        }
    } else {
        None
    }
}

/// The repaired binary XML resources of `fixed`, by local header offset
/// (a later entry with the same offset replaces an earlier one), and the
/// reports, in entry order, with the names of the entries.
pub open spec fn spec_axml_repairs(s: Seq<u8>, fixed: Seq<CdhModel>) -> (
    Map<usize, FixedXmlModel>,
    Seq<(Seq<char>, AxmlFixReport)>,
)
    decreases fixed.len(),
{
    if fixed.len() == 0 {
        (Map::empty(), Seq::empty())
    } else {
        let p = spec_axml_repairs(s, fixed.drop_last());
        let f = fixed.last();
        match spec_axml_candidate(s, f) {
            Some((out, rep)) => (
                p.0.insert(
                    f.local_header_offset as usize,
                    FixedXmlModel { data: out, crc32: crc32_checksum(out), size: out.len() as u32 },
                ),
                p.1.push((utf8_lossy(f.filename), rep)),
            ),
            None => p,
        }
    }
}

/// The map holds, key for key, the repaired resources of `spec`.
pub open spec fn xml_map_matches(m: Map<usize, FixedXml>, spec: Map<usize, FixedXmlModel>) -> bool {
    &&& m.dom() == spec.dom()
    &&& forall|k: usize| #[trigger] m.contains_key(k) ==> m[k]@ == spec[k]
}

/// The view of a list of named repair reports.
pub open spec fn named_reports_view(v: Seq<(String, AxmlFixReport)>) -> Seq<(Seq<char>, AxmlFixReport)> {
    v.map_values(|p: (String, AxmlFixReport)| (p.0@, p.1))
}

/// Repairs the binary XML resources among `fixed`.
fn repair_axml_entries(data: &[u8], fixed: &Vec<CentralDirectoryHeader>) -> (r: (
    HashMap<usize, FixedXml>,
    Vec<(String, AxmlFixReport)>,
))
    ensures
        ({
            let spec = spec_axml_repairs(data@, fixed@.map_values(|h: CentralDirectoryHeader| h@));
            &&& xml_map_matches(r.0@, spec.0)
            &&& named_reports_view(r.1@) == spec.1
        }),
        r.1@.len() <= fixed@.len(),
{
    broadcast use vstd::std_specs::hash::group_hash_axioms;

    let ghost fs = fixed@.map_values(|h: CentralDirectoryHeader| h@);
    let mut map: HashMap<usize, FixedXml> = HashMap::new();
    let mut reports: Vec<(String, AxmlFixReport)> = Vec::new();
    let n = fixed.len();
    let mut i: usize = 0;
    assert(fs.take(0) =~= Seq::<CdhModel>::empty());
    assert(named_reports_view(reports@) =~= Seq::<(Seq<char>, AxmlFixReport)>::empty());
    while i < n
        invariant
            n == fixed@.len(),
            i <= n,
            fs == fixed@.map_values(|h: CentralDirectoryHeader| h@),
            reports@.len() <= i,
            xml_map_matches(map@, spec_axml_repairs(data@, fs.take(i as int)).0),
            named_reports_view(reports@) == spec_axml_repairs(data@, fs.take(i as int)).1,
        decreases n - i,
    {
        let cdh = &fixed[i];
        let ghost f = fs[i as int];
        let ghost before_reports = named_reports_view(reports@);
        let ghost before_map = spec_axml_repairs(data@, fs.take(i as int)).0;
        assert(fs.take(i + 1).drop_last() =~= fs.take(i as int));
        assert(fs.take(i + 1).last() == f);
        let filename = cdh.filename_str();
        let mut changed = false;
        if crate::detector::is_axml_resource(cdh.filename.as_slice()) {
            if let Some(xml_data) = crate::detector::entry_data(data, cdh) {
                if xml_data.len() >= 8 {
                    let magic = read_u32_le(xml_data, 0);
                    if magic == 0x00080003 || (magic & 0x0000FFFF) == 0x0003 {
                        match fix_axml(xml_data) {
                            Ok((fixed_xml, axml_report)) => {
                                if axml_report.has_fixes() {
                                    reports.push((filename, axml_report));
                                    let new_crc = crc32_of(fixed_xml.as_slice());
                                    let new_size = fixed_xml.len() as u32;
                                    let key = cdh.local_header_offset as usize;
                                    map.insert(
                                        key,
                                        FixedXml { data: fixed_xml, crc32: new_crc, size: new_size },
                                    );
                                    changed = true;
                                    assert(named_reports_view(reports@) =~= before_reports.push(
                                        (utf8_lossy(f.filename), axml_report),
                                    ));
                                }
                            },
                            Err(_) => {},
                        }
                    }
                }
            }
        }
        if !changed {
            assert(spec_axml_candidate(data@, f) is None);
        }
        i = i + 1;
        assert(xml_map_matches(map@, spec_axml_repairs(data@, fs.take(i as int)).0));
    }
    assert(fs.take(n as int) =~= fs);
    (map, reports)
}

/// The signature of a ZIP local file header.
pub const LFH_SIGNATURE: u32 = 0x04034b50;

/// The repaired resource recorded for entry `f`, if any.
pub open spec fn xml_for(map: Map<usize, FixedXmlModel>, f: CdhModel) -> Option<FixedXmlModel> {
    if map.contains_key(f.local_header_offset as usize) {
        Some(map[f.local_header_offset as usize])
    } else {
        None
    }
}

/// The rebuilt local header and data of entry `f`: the header is written
/// from the (repaired) central directory entry, keeping only the "version
/// needed" field of the incoming local header, and followed by the repaired
/// resource or else the entry's incoming data (when it lies within the
/// archive). An entry whose incoming local header does not fit in the
/// archive gets nothing.
pub open spec fn spec_local_record(s: Seq<u8>, f: CdhModel, map: Map<usize, FixedXmlModel>) -> Seq<u8> {
    spec_local_record_with(s, f, xml_for(map, f))
}

/// The rebuilt local header and data of entry `f`, given the repaired
/// resource `x` recorded for it, if any.
pub open spec fn spec_local_record_with(s: Seq<u8>, f: CdhModel, x: Option<FixedXmlModel>) -> Seq<u8> {
    let lfh = f.local_header_offset as int;
    if lfh + 30 > s.len() {
        Seq::empty()
    } else {
        lfh_bytes(
            le_u16(s, lfh + 4) as u16,
            f,
            match x {
                Some(v) => v.crc32,
                None => f.crc32,
            },
            match x {
                Some(v) => v.size,
                None => f.compressed_size,
            },
            match x {
                Some(v) => v.size,
                None => f.uncompressed_size,
            },
        ) + record_payload(s, f, x)
    }
}

/// The data written after the rebuilt local header of `f`: the repaired
/// resource, or else the entry's incoming data when it lies within the
/// archive (as its incoming local header places it).
pub open spec fn record_payload(s: Seq<u8>, f: CdhModel, x: Option<FixedXmlModel>) -> Seq<u8> {
    let lfh = f.local_header_offset as int;
    let data_offset = lfh + 30 + le_u16(s, lfh + 26) + le_u16(s, lfh + 28);
    let data_end = data_offset + f.compressed_size;
    match x {
        Some(v) => v.data,
        None => if data_end <= s.len() {
            s.subrange(data_offset, data_end)
        } else {
            Seq::empty()
        },
    }
}

/// A local file header for entry `f` with the given "version needed",
/// checksum and sizes, with the file name and extra field.
#[verifier::opaque]
pub open spec fn lfh_bytes(version: u16, f: CdhModel, crc: u32, compressed: u32, uncompressed: u32) -> Seq<u8> {
    u32_le_bytes(LFH_SIGNATURE) + u16_le_bytes(version) + u16_le_bytes(f.flags) + u16_le_bytes(
        f.compression_method,
    ) + u16_le_bytes(f.last_mod_time) + u16_le_bytes(f.last_mod_date) + u32_le_bytes(crc)
        + u32_le_bytes(compressed) + u32_le_bytes(uncompressed) + u16_le_bytes(f.filename_length)
        + u16_le_bytes(f.extra_field_length) + f.filename + f.extra_field
}

/// Appends a local file header for `cdh` to `out`.
fn write_lfh(out: &mut Vec<u8>, version: u16, cdh: &CentralDirectoryHeader, crc: u32, compressed: u32, uncompressed: u32)
    ensures
        final(out)@ == old(out)@ + lfh_bytes(version, cdh@, crc, compressed, uncompressed),
{
    let ghost start = out@;
    push_u32_le(out, LFH_SIGNATURE);
    push_u16_le(out, version);
    push_u16_le(out, cdh.flags);
    push_u16_le(out, cdh.compression_method);
    push_u16_le(out, cdh.last_mod_time);
    push_u16_le(out, cdh.last_mod_date);
    push_u32_le(out, crc);
    push_u32_le(out, compressed);
    push_u32_le(out, uncompressed);
    push_u16_le(out, cdh.filename_length);
    push_u16_le(out, cdh.extra_field_length);
    push_all(out, cdh.filename.as_slice());
    push_all(out, cdh.extra_field.as_slice());
    reveal(lfh_bytes);
    assert(final(out)@ =~= start + lfh_bytes(version, cdh@, crc, compressed, uncompressed));
}

/// Whether the incoming local header of `f` fits but has a wrong signature.
pub open spec fn spec_local_signature_fixed(s: Seq<u8>, f: CdhModel) -> bool {
    let lfh = f.local_header_offset as int;
    lfh + 30 <= s.len() && le_u32(s, lfh) != LFH_SIGNATURE
}

/// The rebuilt local area of entries `fixed`: its bytes, where each entry's
/// record starts in it (as written into a 32-bit field), and the number of
/// local header signatures repaired.
pub open spec fn spec_local_area(s: Seq<u8>, fixed: Seq<CdhModel>, map: Map<usize, FixedXmlModel>) -> (
    Seq<u8>,
    Seq<u32>,
    nat,
)
    decreases fixed.len(),
{
    if fixed.len() == 0 {
        (Seq::empty(), Seq::empty(), 0)
    } else {
        let p = spec_local_area(s, fixed.drop_last(), map);
        let f = fixed.last();
        (
            p.0 + spec_local_record(s, f, map),
            p.1.push(p.0.len() as u32),
            p.2 + if spec_local_signature_fixed(s, f) {
                1nat
            } else {
                0nat
            },
        )
    }
}

/// Appends the rebuilt local header and data of `cdh` to `out`; tells
/// whether the incoming local header had a wrong signature.
fn write_local_record(
    data: &[u8],
    cdh: &CentralDirectoryHeader,
    xml: Option<&FixedXml>,
    out: &mut Vec<u8>,
) -> (r: bool)
    ensures
        final(out)@ == old(out)@ + spec_local_record_with(
            data@,
            cdh@,
            match xml {
                Some(v) => Some(v@),
                None => None,
            },
        ),
        r == spec_local_signature_fixed(data@, cdh@),
{
    let len = data.len();
    let lfh_offset = cdh.local_header_offset as usize;
    if lfh_offset > len || len - lfh_offset < 30 {
        assert(final(out)@ =~= old(out)@ + Seq::<u8>::empty());
        return false;
    }
    let lfh_signature = read_u32_le(data, lfh_offset);
    let lfh_fname_len = read_u16_le(data, lfh_offset + 26) as usize;
    let lfh_extra_len = read_u16_le(data, lfh_offset + 28) as usize;
    let version = read_u16_le(data, lfh_offset + 4);
    let crc = match xml {
        Some(v) => v.crc32,
        None => cdh.crc32,
    };
    let compressed = match xml {
        Some(v) => v.size,
        None => cdh.compressed_size,
    };
    let uncompressed = match xml {
        Some(v) => v.size,
        None => cdh.uncompressed_size,
    };
    let ghost start = out@;
    write_lfh(out, version, cdh, crc, compressed, uncompressed);
    let ghost header = out@;
    match xml {
        Some(v) => {
            push_all(out, v.data.as_slice());
        },
        None => {
            let room = len - lfh_offset - 30;
            if lfh_fname_len <= room && lfh_extra_len <= room - lfh_fname_len {
                let data_offset = lfh_offset + 30 + lfh_fname_len + lfh_extra_len;
                let size = cdh.compressed_size as usize;
                if size <= len - data_offset {
                    push_all(out, &data[data_offset..data_offset + size]);
                }
            }
        },
    }
    assert(final(out)@ =~= start + spec_local_record_with(
        data@,
        cdh@,
        match xml {
            Some(v) => Some(v@),
            None => None,
        },
    ));
    lfh_signature != LFH_SIGNATURE
}

/// Rebuilds the local header and data of every entry of `fixed`.
fn write_local_records(
    data: &[u8],
    fixed: &Vec<CentralDirectoryHeader>,
    map: &HashMap<usize, FixedXml>,
    Ghost(spec_map): Ghost<Map<usize, FixedXmlModel>>,
) -> (r: (Vec<u8>, Vec<u32>, usize))
    requires
        xml_map_matches(map@, spec_map),
    ensures
        ({
            let spec = spec_local_area(data@, fixed@.map_values(|h: CentralDirectoryHeader| h@), spec_map);
            &&& r.0@ == spec.0
            &&& r.1@ == spec.1
            &&& r.2 == spec.2
        }),
{
    broadcast use vstd::std_specs::hash::group_hash_axioms;

    let ghost fs = fixed@.map_values(|h: CentralDirectoryHeader| h@);
    let mut new_data: Vec<u8> = Vec::new();
    let mut offsets: Vec<u32> = Vec::new();
    let mut signatures_fixed: usize = 0;
    let n = fixed.len();
    let len = data.len();
    let mut i: usize = 0;
    assert(fs.take(0) =~= Seq::<CdhModel>::empty());
    while i < n
        invariant
            n == fixed@.len(),
            len == data@.len(),
            i <= n,
            fs == fixed@.map_values(|h: CentralDirectoryHeader| h@),
            xml_map_matches(map@, spec_map),
            signatures_fixed <= i,
            ({
                let spec = spec_local_area(data@, fs.take(i as int), spec_map);
                &&& new_data@ == spec.0
                &&& offsets@ == spec.1
                &&& signatures_fixed == spec.2
            }),
        decreases n - i,
    {
        let cdh = &fixed[i];
        let ghost f = fs[i as int];
        let ghost before = new_data@;
        assert(fs.take(i + 1).drop_last() =~= fs.take(i as int));
        assert(fs.take(i + 1).last() == f);
        let lfh_offset = cdh.local_header_offset as usize;
        offsets.push(#[verifier::truncate] (new_data.len() as u32));
        let xml = map.get(&lfh_offset);
        let ghost x = xml_for(spec_map, f);
        assert(x matches Some(v) ==> xml matches Some(w) && w@ == v);
        assert(x is None ==> xml is None);
        if write_local_record(data, cdh, xml, &mut new_data) {
            signatures_fixed = signatures_fixed + 1;
        }
        i = i + 1;
    }
    assert(fs.take(n as int) =~= fs);
    (new_data, offsets, signatures_fixed)
}

/// Entry `f` as written into the new central directory: with its local
/// header at `offset`, and the checksum and sizes of its repaired resource
/// `x`, if any.
pub open spec fn spec_updated_cdh(f: CdhModel, offset: u32, x: Option<FixedXmlModel>) -> CdhModel {
    CdhModel {
        local_header_offset: offset,
        crc32: match x {
            Some(v) => v.crc32,
            None => f.crc32,
        },
        compressed_size: match x {
            Some(v) => v.size,
            None => f.compressed_size,
        },
        uncompressed_size: match x {
            Some(v) => v.size,
            None => f.uncompressed_size,
        },
        ..f
    }
}

/// The new central directory for entries `fixed`, whose local records start
/// at `offsets`.
pub open spec fn spec_cd_area(fixed: Seq<CdhModel>, offsets: Seq<u32>, map: Map<usize, FixedXmlModel>) -> Seq<u8>
    decreases fixed.len(),
{
    if fixed.len() == 0 {
        Seq::empty()
    } else {
        let f = fixed.last();
        spec_cd_area(fixed.drop_last(), offsets, map) + cdh_bytes(
            spec_updated_cdh(f, offsets[fixed.len() - 1], xml_for(map, f)),
        )
    }
}

/// Appends the new central directory for `fixed` to `out`.
fn write_central_directory(
    fixed: &Vec<CentralDirectoryHeader>,
    offsets: &Vec<u32>,
    map: &HashMap<usize, FixedXml>,
    Ghost(spec_map): Ghost<Map<usize, FixedXmlModel>>,
    out: &mut Vec<u8>,
)
    requires
        xml_map_matches(map@, spec_map),
        offsets@.len() == fixed@.len(),
    ensures
        final(out)@ == old(out)@ + spec_cd_area(
            fixed@.map_values(|h: CentralDirectoryHeader| h@),
            offsets@,
            spec_map,
        ),
{
    broadcast use vstd::std_specs::hash::group_hash_axioms;

    let ghost fs = fixed@.map_values(|h: CentralDirectoryHeader| h@);
    let ghost start = out@;
    let n = fixed.len();
    let mut idx: usize = 0;
    assert(fs.take(0) =~= Seq::<CdhModel>::empty());
    assert(out@ =~= start + Seq::<u8>::empty());
    while idx < n
        invariant
            n == fixed@.len(),
            n == offsets@.len(),
            idx <= n,
            fs == fixed@.map_values(|h: CentralDirectoryHeader| h@),
            xml_map_matches(map@, spec_map),
            start == old(out)@,
            out@ == start + spec_cd_area(fs.take(idx as int), offsets@, spec_map),
        decreases n - idx,
    {
        let cdh = &fixed[idx];
        let ghost f = fs[idx as int];
        let ghost before = out@;
        assert(fs.take(idx + 1).drop_last() =~= fs.take(idx as int));
        assert(fs.take(idx + 1).last() == f);
        let lfh_offset = cdh.local_header_offset as usize;
        let mut updated = cdh.clone();
        updated.local_header_offset = offsets[idx];
        let xml = map.get(&lfh_offset);
        let ghost x = xml_for(spec_map, f);
        assert(x matches Some(v) ==> xml matches Some(w) && w@ == v);
        assert(x is None ==> xml is None);
        match xml {
            Some(v) => {
                updated.crc32 = v.crc32;
                updated.compressed_size = v.size;
                updated.uncompressed_size = v.size;
            },
            None => {},
        }
        assert(updated@ == spec_updated_cdh(f, offsets@[idx as int], x));
        let serialized = updated.serialize();
        push_all(out, serialized.as_slice());
        idx = idx + 1;
        assert(out@ =~= start + spec_cd_area(fs.take(idx as int), offsets@, spec_map));
    }
    assert(fs.take(n as int) =~= fs);
}

/// What a repair did.
#[derive(Debug)]
pub struct FixReport {
    pub compression_fixed: usize,
    pub encryption_fixed: usize,
    pub zipbomb_removed: usize,
    pub lfh_signature_fixed: usize,
    pub axml_fixed: usize,
    pub axml_reports: Vec<(String, AxmlFixReport)>,
    pub original_entries: usize,
    pub final_entries: usize,
    pub original_size: usize,
    pub final_size: usize,
}

/// The mathematical value of a repair report.
pub struct FixReportModel {
    pub compression_fixed: nat,
    pub encryption_fixed: nat,
    pub zipbomb_removed: nat,
    pub lfh_signature_fixed: nat,
    pub axml_fixed: nat,
    pub axml_reports: Seq<(Seq<char>, AxmlFixReport)>,
    pub original_entries: nat,
    pub final_entries: nat,
    pub original_size: nat,
    pub final_size: nat,
}

impl View for FixReport {
    type V = FixReportModel;

    open spec fn view(&self) -> FixReportModel {
        FixReportModel {
            compression_fixed: self.compression_fixed as nat,
            encryption_fixed: self.encryption_fixed as nat,
            zipbomb_removed: self.zipbomb_removed as nat,
            lfh_signature_fixed: self.lfh_signature_fixed as nat,
            axml_fixed: self.axml_fixed as nat,
            axml_reports: named_reports_view(self.axml_reports@),
            original_entries: self.original_entries as nat,
            final_entries: self.final_entries as nat,
            original_size: self.original_size as nat,
            final_size: self.final_size as nat,
        }
    }
}

impl Default for FixReport {
    /// A report of no repair: every count and size 0, no binary XML report.
    fn default() -> (r: Self)
        ensures
            r.compression_fixed == 0,
            r.encryption_fixed == 0,
            r.zipbomb_removed == 0,
            r.lfh_signature_fixed == 0,
            r.axml_fixed == 0,
            r.axml_reports@.len() == 0,
            r.original_entries == 0,
            r.final_entries == 0,
            r.original_size == 0,
            r.final_size == 0,
    {
        FixReport {
            compression_fixed: 0,
            encryption_fixed: 0,
            zipbomb_removed: 0,
            lfh_signature_fixed: 0,
            axml_fixed: 0,
            axml_reports: Vec::new(),
            original_entries: 0,
            final_entries: 0,
            original_size: 0,
            final_size: 0,
        }
    }
}

/// The end-of-central-directory record of the repaired archive: the disk
/// numbers and comment of the incoming one, with the new entry count and
/// central directory position and size.
pub open spec fn spec_new_eocd(eocd: EocdModel, entries: nat, cd_size: nat, cd_offset: nat) -> EocdModel {
    EocdModel {
        signature: EndOfCentralDirectory::SIGNATURE,
        disk_number: eocd.disk_number,
        cd_start_disk: eocd.cd_start_disk,
        cd_records_on_disk: entries as u16,
        cd_records_total: entries as u16,
        cd_size: cd_size as u32,
        cd_offset: cd_offset as u32,
        comment_length: eocd.comment_length,
        comment: eocd.comment,
    }
}

/// The repaired archive and the report, given the archive's end record
/// `eocd` and its entries `es`.
pub open spec fn spec_fix_archive(s: Seq<u8>, eocd: EocdModel, es: Seq<CdhModel>, t: RatioThreshold) -> (
    Seq<u8>,
    FixReportModel,
) {
    let fe = spec_fix_entries(s, es, t);
    let ax = spec_axml_repairs(s, fe.0);
    let la = spec_local_area(s, fe.0, ax.0);
    let cd = spec_cd_area(fe.0, la.1, ax.0);
    let out = la.0 + cd + eocd_bytes(spec_new_eocd(eocd, fe.0.len(), cd.len(), la.0.len()));
    (
        out,
        FixReportModel {
            compression_fixed: fe.2,
            encryption_fixed: fe.3,
            zipbomb_removed: fe.1,
            lfh_signature_fixed: la.2,
            axml_fixed: ax.1.len(),
            axml_reports: ax.1,
            original_entries: eocd.cd_records_total as nat,
            final_entries: fe.0.len(),
            original_size: s.len(),
            final_size: out.len(),
        },
    )
}

/// Repairing the archive `s`.
pub open spec fn spec_fix_all(s: Seq<u8>, t: RatioThreshold) -> Result<(Seq<u8>, FixReportModel), ZipError> {
    match spec_read_archive(s) {
        Ok((eocd, es)) => Ok(spec_fix_archive(s, eocd, es, t)),
        Err(e) => Err(e),
    }
}

/// Repairs the archive `data` in one go: drops the entries whose declared
/// sizes exceed `ratio_threshold`, gives entries with an invalid compression
/// method their real one, clears forged encryption flags, repairs damaged
/// binary XML resources, and writes the archive out again with local headers
/// rebuilt from the central directory.
pub fn fix_all(data: &[u8], ratio_threshold: RatioThreshold) -> (r: Result<(Vec<u8>, FixReport), ZipError>)
    ensures
        match r {
            Ok((out, rep)) => spec_fix_all(data@, ratio_threshold) == Ok::<
                (Seq<u8>, FixReportModel),
                ZipError,
            >((out@, rep@)),
            Err(e) => spec_fix_all(data@, ratio_threshold) == Err::<(Seq<u8>, FixReportModel), ZipError>(
                e,
            ),
        },
{
    let (eocd, entries) = read_archive(data)?;
    let ghost es = entries@.map_values(|h: CentralDirectoryHeader| h@);
    let (fixed_entries, zipbomb_removed, compression_fixed, encryption_fixed) = fix_entries(
        data,
        &entries,
        ratio_threshold,
    );
    let ghost fe = spec_fix_entries(data@, es, ratio_threshold);
    let ghost fs = fixed_entries@.map_values(|h: CentralDirectoryHeader| h@);
    let (xml_map, axml_reports) = repair_axml_entries(data, &fixed_entries);
    let ghost ax = spec_axml_repairs(data@, fs);
    let (mut new_data, new_lfh_offsets, lfh_signature_fixed) = write_local_records(
        data,
        &fixed_entries,
        &xml_map,
        Ghost(ax.0),
    );
    let ghost la = spec_local_area(data@, fs, ax.0);
    proof {
        lemma_local_offsets_len(data@, fs, ax.0);
    }
    let new_cd_offset = new_data.len();
    write_central_directory(&fixed_entries, &new_lfh_offsets, &xml_map, Ghost(ax.0), &mut new_data);
    let new_cd_size = new_data.len() - new_cd_offset;
    let final_entries = fixed_entries.len();
    let new_eocd = EndOfCentralDirectory {
        signature: EndOfCentralDirectory::SIGNATURE,
        disk_number: eocd.disk_number,
        cd_start_disk: eocd.cd_start_disk,
        cd_records_on_disk: final_entries as u16,
        cd_records_total: final_entries as u16,
        cd_size: #[verifier::truncate] (new_cd_size as u32),
        cd_offset: #[verifier::truncate] (new_cd_offset as u32),
        comment_length: eocd.comment_length,
        comment: crate::bytes::copy_range(eocd.comment.as_slice(), 0, eocd.comment.len()),
    };
    assert(new_eocd.comment@ =~= eocd.comment@);
    let eocd_serialized = new_eocd.serialize();
    push_all(&mut new_data, eocd_serialized.as_slice());
    let report = FixReport {
        compression_fixed,
        encryption_fixed,
        zipbomb_removed,
        lfh_signature_fixed,
        axml_fixed: axml_reports.len(),
        axml_reports,
        original_entries: eocd.cd_records_total as usize,
        final_entries,
        original_size: data.len(),
        final_size: new_data.len(),
    };
    Ok((new_data, report))
}

/// One offset is recorded for each entry.
proof fn lemma_local_offsets_len(s: Seq<u8>, fixed: Seq<CdhModel>, map: Map<usize, FixedXmlModel>)
    ensures
        spec_local_area(s, fixed, map).1.len() == fixed.len(),
    decreases fixed.len(),
{
    if fixed.len() > 0 {
        lemma_local_offsets_len(s, fixed.drop_last(), map);
    }
}

/// Every entry is either kept or removed as a zip-bomb decoy, and the fixes
/// counted are fixes of kept entries.
pub proof fn lemma_fix_entries_counts(s: Seq<u8>, es: Seq<CdhModel>, t: RatioThreshold)
    ensures
        ({
            let fe = spec_fix_entries(s, es, t);
            &&& fe.0.len() + fe.1 == es.len()
            &&& fe.2 <= fe.0.len()
            &&& fe.3 <= fe.0.len()
        }),
    decreases es.len(),
{
    if es.len() > 0 {
        lemma_fix_entries_counts(s, es.drop_last(), t);
    }
}

/// Every entry that is kept has a compression method that the ZIP
/// specification defines and its encryption flag cleared; an entry whose
/// method had to be replaced now has Store or Deflate.
pub proof fn lemma_fixed_entries_clean(s: Seq<u8>, es: Seq<CdhModel>, t: RatioThreshold)
    ensures
        forall|i: int|
            0 <= i < spec_fix_entries(s, es, t).0.len() ==> {
                let f = #[trigger] spec_fix_entries(s, es, t).0[i];
                &&& spec_is_valid_method(f.compression_method)
                &&& f.flags & 1u16 == 0
            },
    decreases es.len(),
{
    if es.len() > 0 {
        lemma_fixed_entries_clean(s, es.drop_last(), t);
        let m = es.last();
        let r = spec_repair_entry(s, m);
        if !spec_is_valid_method(m.compression_method) {
            match entry_data_range(s, m) {
                Some((a, b)) => {
                    crate::compression_detector::lemma_detected_method_is_apk_common(
                        s.subrange(a, b),
                        m.uncompressed_size,
                        crate::compression_detector::deflate_decoded_len(s.subrange(a, b)),
                    );
                },
                None => {},
            }
        }
        assert(spec_is_valid_method(r.compression_method));
        let x = m.flags;
        assert((x & 0xFFFEu16) & 1u16 == 0) by (bit_vector);
        assert(r.flags & 1u16 == 0);
        let p = spec_fix_entries(s, es.drop_last(), t);
        let fe = spec_fix_entries(s, es, t);
        assert forall|i: int| 0 <= i < fe.0.len() implies {
            let f = #[trigger] fe.0[i];
            &&& spec_is_valid_method(f.compression_method)
            &&& f.flags & 1u16 == 0
        } by {
            if i < p.0.len() {
                assert(fe.0[i] == p.0[i]);
            }
        }
    }
}

/// The report of a successful repair: entries kept plus decoys removed make
/// up the entries read; every count of fixed entries is at most the
/// number of entries kept; and the reported sizes are those of the input
/// and the output.
pub proof fn lemma_fix_report_consistent(s: Seq<u8>, t: RatioThreshold)
    requires
        spec_fix_all(s, t) is Ok,
    ensures
        ({
            let (out, rep) = spec_fix_all(s, t)->Ok_0;
            &&& rep.final_entries + rep.zipbomb_removed == rep.original_entries
            &&& rep.compression_fixed <= rep.final_entries
            &&& rep.encryption_fixed <= rep.final_entries
            &&& rep.axml_fixed == rep.axml_reports.len()
            &&& rep.axml_fixed <= rep.final_entries
            &&& rep.original_size == s.len()
            &&& rep.final_size == out.len()
        }),
{
    let (eocd, es) = spec_read_archive(s)->Ok_0;
    lemma_read_entries_len(s, eocd.cd_offset as int, 0, eocd.cd_records_total as int);
    lemma_fix_entries_counts(s, es, t);
    lemma_axml_reports_len(s, spec_fix_entries(s, es, t).0);
}

proof fn lemma_axml_reports_len(s: Seq<u8>, fixed: Seq<CdhModel>)
    ensures
        spec_axml_repairs(s, fixed).1.len() <= fixed.len(),
    decreases fixed.len(),
{
    if fixed.len() > 0 {
        lemma_axml_reports_len(s, fixed.drop_last());
    }
}

/// The entries of the new central directory: the kept entries with their
/// new local header offsets and, where their resource was repaired, its
/// checksum and size.
pub open spec fn spec_updated_entries(fixed: Seq<CdhModel>, offsets: Seq<u32>, map: Map<usize, FixedXmlModel>) -> Seq<CdhModel> {
    Seq::new(fixed.len(), |i: int| spec_updated_cdh(fixed[i], offsets[i], xml_for(map, fixed[i])))
}

proof fn lemma_cd_area_is_updated_entries(fixed: Seq<CdhModel>, offsets: Seq<u32>, map: Map<usize, FixedXmlModel>)
    ensures
        spec_cd_area(fixed, offsets, map) == cdh_seq_bytes(spec_updated_entries(fixed, offsets, map)),
    decreases fixed.len(),
{
    if fixed.len() > 0 {
        lemma_cd_area_is_updated_entries(fixed.drop_last(), offsets, map);
        let u = spec_updated_entries(fixed, offsets, map);
        assert(u.drop_last() =~= spec_updated_entries(fixed.drop_last(), offsets, map));
    }
}

proof fn lemma_fix_entries_well_formed(s: Seq<u8>, es: Seq<CdhModel>, t: RatioThreshold)
    requires
        forall|k: int| 0 <= k < es.len() ==> cdh_well_formed(#[trigger] es[k]),
    ensures
        forall|k: int|
            0 <= k < spec_fix_entries(s, es, t).0.len() ==> cdh_well_formed(
                #[trigger] spec_fix_entries(s, es, t).0[k],
            ),
    decreases es.len(),
{
    if es.len() > 0 {
        assert forall|k: int| 0 <= k < es.drop_last().len() implies cdh_well_formed(
            #[trigger] es.drop_last()[k],
        ) by {
            assert(es.drop_last()[k] == es[k]);
        }
        lemma_fix_entries_well_formed(s, es.drop_last(), t);
        let p = spec_fix_entries(s, es.drop_last(), t);
        let fe = spec_fix_entries(s, es, t);
        assert(cdh_well_formed(es[es.len() - 1]));
        assert forall|k: int| 0 <= k < fe.0.len() implies cdh_well_formed(#[trigger] fe.0[k]) by {
            if k < p.0.len() {
                assert(fe.0[k] == p.0[k]);
            }
        }
    }
}

/// No end-of-central-directory signature starts after position `q` and at
/// most 22 bytes before the end of `out`.
pub open spec fn no_signature_after(out: Seq<u8>, q: int) -> bool {
    forall|j: int| q < j <= out.len() - 22 ==> !eocd_sig_at(out, j)
}

/// The end record and the central directory entries that the repair of an
/// archive with end record `eocd` and entries `es` writes.
pub open spec fn spec_fixed_directory(s: Seq<u8>, eocd: EocdModel, es: Seq<CdhModel>, t: RatioThreshold) -> (
    EocdModel,
    Seq<CdhModel>,
) {
    let fe = spec_fix_entries(s, es, t);
    let ax = spec_axml_repairs(s, fe.0);
    let la = spec_local_area(s, fe.0, ax.0);
    let cd = spec_cd_area(fe.0, la.1, ax.0);
    (spec_new_eocd(eocd, fe.0.len(), cd.len(), la.0.len()), spec_updated_entries(fe.0, la.1, ax.0))
}

/// The repaired archive is a well-formed ZIP directory: reading it back
/// finds the end record that was written and, in order, the entries that
/// were kept, as they were written. This holds for a result under 4 GiB
/// whose end-record comment does not itself hold an end-record signature.
pub proof fn lemma_fixed_archive_reads_back(s: Seq<u8>, t: RatioThreshold)
    requires
        spec_fix_all(s, t) is Ok,
        spec_fix_all(s, t)->Ok_0.0.len() <= u32::MAX,
        no_signature_after(
            spec_fix_all(s, t)->Ok_0.0,
            spec_fix_all(s, t)->Ok_0.0.len() - 22 - spec_read_archive(s)->Ok_0.0.comment.len(),
        ),
    ensures
        spec_read_archive(spec_fix_all(s, t)->Ok_0.0) == Ok::<(EocdModel, Seq<CdhModel>), ZipError>(
            spec_fixed_directory(s, spec_read_archive(s)->Ok_0.0, spec_read_archive(s)->Ok_0.1, t),
        ),
{
    let (eocd, es) = spec_read_archive(s)->Ok_0;
    let p = spec_find_eocd(s)->Some_0;
    lemma_eocd_scan(s, eocd_search_low(s), eocd_search_high(s));
    lemma_eocd_serialize_parse(s, p);
    lemma_read_entries_well_formed(s, eocd.cd_offset as int, 0, eocd.cd_records_total as int);
    lemma_read_entries_len(s, eocd.cd_offset as int, 0, eocd.cd_records_total as int);
    let fe = spec_fix_entries(s, es, t);
    lemma_fix_entries_counts(s, es, t);
    lemma_fix_entries_well_formed(s, es, t);
    let ax = spec_axml_repairs(s, fe.0);
    let la = spec_local_area(s, fe.0, ax.0);
    lemma_local_offsets_len(s, fe.0, ax.0);
    let cd = spec_cd_area(fe.0, la.1, ax.0);
    let upd = spec_updated_entries(fe.0, la.1, ax.0);
    lemma_cd_area_is_updated_entries(fe.0, la.1, ax.0);
    let ne = spec_new_eocd(eocd, fe.0.len(), cd.len(), la.0.len());
    let eb = eocd_bytes(ne);
    let out = la.0 + cd + eb;
    assert(out == spec_fix_all(s, t)->Ok_0.0);
    // the new end record
    assert(eocd_well_formed(ne));
    lemma_eocd_bytes_signature(ne);
    let q = (la.0.len() + cd.len()) as int;
    lemma_eocd_parse_serialize(la.0 + cd, ne, Seq::<u8>::empty());
    assert(la.0 + cd + eb + Seq::<u8>::empty() =~= out);
    assert(eocd_sig_at(out, q)) by {
        assert(out[q] == eb[0]);
        assert(out[q + 1] == eb[1]);
        assert(out[q + 2] == eb[2]);
        assert(out[q + 3] == eb[3]);
    }
    lemma_eocd_scan_finds(out, eocd_search_low(out), eocd_search_high(out), q);
    assert(spec_find_eocd(out) == Some(q));
    // the entries
    assert forall|k: int| 0 <= k < upd.len() implies cdh_well_formed(#[trigger] upd[k]) by {
        assert(cdh_well_formed(fe.0[k]));
    }
    lemma_read_entries_serialized(la.0, upd, eb, 0);
    assert(upd.take(0) =~= Seq::<CdhModel>::empty());
    assert(upd.skip(0) =~= upd);
    assert(cdh_seq_bytes(Seq::<CdhModel>::empty()) == Seq::<u8>::empty());
    assert(la.0 + cdh_seq_bytes(upd.take(0)) + cdh_seq_bytes(upd.skip(0)) + eb =~= out);
    assert(ne.cd_offset == la.0.len());
    assert(ne.cd_records_total == upd.len());
}

/// Equal sizes never exceed a threshold of at least 1.
proof fn lemma_equal_sizes_within_ratio(size: u32, t: RatioThreshold)
    requires
        t.denominator <= t.numerator,
    ensures
        !spec_exceeds_ratio(size, size, t),
{
    if size > 0 && t.denominator > 0 {
        assert(size * t.denominator <= t.numerator * size) by (nonlinear_arith)
            requires
                t.denominator <= t.numerator,
                size > 0,
        ;
    }
}

/// With a threshold of at least 1, no kept entry exceeds it after repair.
proof fn lemma_fixed_entries_within_ratio(s: Seq<u8>, es: Seq<CdhModel>, t: RatioThreshold)
    requires
        t.denominator <= t.numerator,
    ensures
        forall|k: int|
            0 <= k < spec_fix_entries(s, es, t).0.len() ==> {
                let f = #[trigger] spec_fix_entries(s, es, t).0[k];
                !spec_exceeds_ratio(f.compressed_size, f.uncompressed_size, t)
            },
    decreases es.len(),
{
    if es.len() > 0 {
        lemma_fixed_entries_within_ratio(s, es.drop_last(), t);
        let m = es.last();
        let r = spec_repair_entry(s, m);
        if !spec_is_valid_method(m.compression_method) {
            match entry_data_range(s, m) {
                Some((a, b)) => {
                    crate::compression_detector::lemma_detected_method_is_apk_common(
                        s.subrange(a, b),
                        m.uncompressed_size,
                        crate::compression_detector::deflate_decoded_len(s.subrange(a, b)),
                    );
                },
                None => {},
            }
        }
        lemma_equal_sizes_within_ratio(m.compressed_size, t);
        let p = spec_fix_entries(s, es.drop_last(), t);
        let fe = spec_fix_entries(s, es, t);
        assert forall|k: int| 0 <= k < fe.0.len() implies {
            let f = #[trigger] fe.0[k];
            !spec_exceeds_ratio(f.compressed_size, f.uncompressed_size, t)
        } by {
            if k < p.0.len() {
                assert(fe.0[k] == p.0[k]);
            }
        }
    }
}

/// The repaired archive, read back and scanned with a zip-bomb threshold of
/// at least 1, shows no invalid compression method, no encryption flag and
/// no zip-bomb decoy. (As for reading it back, the result must be under
/// 4 GiB and its end-record comment must not hold an end-record signature.)
pub proof fn lemma_fixed_archive_is_clean(s: Seq<u8>, t: RatioThreshold)
    requires
        spec_fix_all(s, t) is Ok,
        spec_fix_all(s, t)->Ok_0.0.len() <= u32::MAX,
        no_signature_after(
            spec_fix_all(s, t)->Ok_0.0,
            spec_fix_all(s, t)->Ok_0.0.len() - 22 - spec_read_archive(s)->Ok_0.0.comment.len(),
        ),
        t.denominator <= t.numerator,
    ensures
        ({
            let out = spec_fix_all(s, t)->Ok_0.0;
            &&& spec_detect_issues(out, t) is Ok
            &&& spec_detect_issues(out, t)->Ok_0.invalid_compression_methods.len() == 0
            &&& spec_detect_issues(out, t)->Ok_0.fake_encryption_flags.len() == 0
            &&& spec_detect_issues(out, t)->Ok_0.zipbomb_entries.len() == 0
        }),
{
    lemma_fixed_archive_reads_back(s, t);
    let (eocd, es) = spec_read_archive(s)->Ok_0;
    let out = spec_fix_all(s, t)->Ok_0.0;
    let fe = spec_fix_entries(s, es, t);
    let ax = spec_axml_repairs(s, fe.0);
    let la = spec_local_area(s, fe.0, ax.0);
    lemma_local_offsets_len(s, fe.0, ax.0);
    let upd = spec_updated_entries(fe.0, la.1, ax.0);
    lemma_fixed_entries_clean(s, es, t);
    lemma_fixed_entries_within_ratio(s, es, t);
    assert forall|k: int| 0 <= k < upd.len() implies {
        let m = #[trigger] upd[k];
        &&& spec_is_valid_method(m.compression_method)
        &&& m.flags & 1u16 == 0
        &&& !spec_exceeds_ratio(m.compressed_size, m.uncompressed_size, t)
    } by {
        let f = fe.0[k];
        match xml_for(ax.0, f) {
            Some(v) => {
                lemma_equal_sizes_within_ratio(v.size, t);
            },
            None => {},
        }
    }
    lemma_clean_entries_report(out, upd, t);
}

/// Repair drops exactly the entries that detection reports as zip-bomb
/// decoys, and fixes at most the methods and flags that detection reports,
/// all of them when there is no decoy.
pub proof fn lemma_fix_entries_match_report(s: Seq<u8>, es: Seq<CdhModel>, t: RatioThreshold)
    ensures
        ({
            let fe = spec_fix_entries(s, es, t);
            let rep = crate::detector::spec_issue_report(s, es, t);
            &&& fe.1 == rep.zipbomb_entries.len()
            &&& fe.2 <= rep.invalid_compression_methods.len()
            &&& fe.3 <= rep.fake_encryption_flags.len()
            &&& fe.1 == 0 ==> fe.2 == rep.invalid_compression_methods.len()
            &&& fe.1 == 0 ==> fe.3 == rep.fake_encryption_flags.len()
        }),
    decreases es.len(),
{
    if es.len() > 0 {
        lemma_fix_entries_match_report(s, es.drop_last(), t);
    }
}

/// What `fix_all` repairs is what `detect_issues` reports for the same
/// archive and threshold: the same number of zip-bomb decoys is removed as
/// is reported, and no more methods or flags are fixed than are reported
/// (exactly as many when there is no decoy).
pub proof fn lemma_fix_all_matches_detect_issues(s: Seq<u8>, t: RatioThreshold)
    requires
        spec_fix_all(s, t) is Ok,
    ensures
        spec_detect_issues(s, t) is Ok,
        ({
            let rep = spec_fix_all(s, t)->Ok_0.1;
            let found = spec_detect_issues(s, t)->Ok_0;
            &&& rep.zipbomb_removed == found.zipbomb_entries.len()
            &&& rep.compression_fixed <= found.invalid_compression_methods.len()
            &&& rep.encryption_fixed <= found.fake_encryption_flags.len()
            &&& rep.zipbomb_removed == 0 ==> rep.compression_fixed
                == found.invalid_compression_methods.len()
            &&& rep.zipbomb_removed == 0 ==> rep.encryption_fixed == found.fake_encryption_flags.len()
        }),
{
    let (eocd, es) = spec_read_archive(s)->Ok_0;
    lemma_fix_entries_match_report(s, es, t);
}

/// The entries of `es` dropped as zip-bomb decoys under `t` whose method
/// code is not a valid one.
pub open spec fn dropped_with_invalid_method(es: Seq<CdhModel>, t: RatioThreshold) -> nat
    decreases es.len(),
{
    if es.len() == 0 {
        0
    } else {
        let m = es.last();
        dropped_with_invalid_method(es.drop_last(), t) + if spec_exceeds_ratio(
            m.compressed_size,
            m.uncompressed_size,
            t,
        ) && !spec_is_valid_method(m.compression_method) {
            1nat
        } else {
            0nat
        }
    }
}

/// The entries of `es` dropped as zip-bomb decoys under `t` whose
/// encryption flag is set.
pub open spec fn dropped_with_encryption_flag(es: Seq<CdhModel>, t: RatioThreshold) -> nat
    decreases es.len(),
{
    if es.len() == 0 {
        0
    } else {
        let m = es.last();
        dropped_with_encryption_flag(es.drop_last(), t) + if spec_exceeds_ratio(
            m.compressed_size,
            m.uncompressed_size,
            t,
        ) && m.flags & 1u16 != 0 {
            1nat
        } else {
            0nat
        }
    }
}

/// Every invalid method and every forged flag that detection reports is
/// either fixed by repair or goes with an entry dropped as a decoy.
pub proof fn lemma_reported_fixed_or_dropped(s: Seq<u8>, es: Seq<CdhModel>, t: RatioThreshold)
    ensures
        ({
            let fe = spec_fix_entries(s, es, t);
            let rep = crate::detector::spec_issue_report(s, es, t);
            &&& fe.2 + dropped_with_invalid_method(es, t) == rep.invalid_compression_methods.len()
            &&& fe.3 + dropped_with_encryption_flag(es, t) == rep.fake_encryption_flags.len()
        }),
    decreases es.len(),
{
    if es.len() > 0 {
        lemma_reported_fixed_or_dropped(s, es.drop_last(), t);
    }
}

/// For a whole archive: the methods fixed plus the invalid methods of the
/// dropped decoys are the invalid methods that `detect_issues` reports, and
/// likewise for encryption flags.
pub proof fn lemma_fix_all_fixes_or_drops_reported(s: Seq<u8>, t: RatioThreshold)
    requires
        spec_fix_all(s, t) is Ok,
    ensures
        spec_detect_issues(s, t) is Ok,
        ({
            let es = spec_read_archive(s)->Ok_0.1;
            let rep = spec_fix_all(s, t)->Ok_0.1;
            let found = spec_detect_issues(s, t)->Ok_0;
            &&& rep.compression_fixed + dropped_with_invalid_method(es, t)
                == found.invalid_compression_methods.len()
            &&& rep.encryption_fixed + dropped_with_encryption_flag(es, t)
                == found.fake_encryption_flags.len()
        }),
{
    let (eocd, es) = spec_read_archive(s)->Ok_0;
    lemma_reported_fixed_or_dropped(s, es, t);
}

/// Threshold `t2` is at least `t1`; no limit (denominator 0) is above every
/// threshold.
pub open spec fn threshold_at_most(t1: RatioThreshold, t2: RatioThreshold) -> bool {
    t2.denominator == 0 || (t1.denominator > 0 && t1.numerator * t2.denominator
        <= t2.numerator * t1.denominator)
}

/// An entry above a threshold is above every lower one.
pub proof fn lemma_exceeds_ratio_monotone(c: u32, u: u32, t1: RatioThreshold, t2: RatioThreshold)
    requires
        threshold_at_most(t1, t2),
    ensures
        spec_exceeds_ratio(c, u, t2) ==> spec_exceeds_ratio(c, u, t1),
{
    if t2.denominator > 0 && spec_exceeds_ratio(c, u, t2) {
        let n1 = t1.numerator as int;
        let d1 = t1.denominator as int;
        let n2 = t2.numerator as int;
        let d2 = t2.denominator as int;
        if c == 0 {
            if n2 < 0 {
                assert(n1 < 0) by (nonlinear_arith)
                    requires
                        n1 * d2 <= n2 * d1,
                        n2 < 0,
                        d1 > 0,
                        d2 > 0,
                ;
            }
        } else {
            let ci = c as int;
            let ui = u as int;
            assert(ui * d1 > n1 * ci) by (nonlinear_arith)
                requires
                    ui * d2 > n2 * ci,
                    n1 * d2 <= n2 * d1,
                    ci > 0,
                    d1 > 0,
                    d2 > 0,
            {
                assert(ui * d2 * d1 > n2 * ci * d1);
                assert(n2 * d1 * ci >= n1 * d2 * ci);
                assert(d2 * (ui * d1) > d2 * (n1 * ci));
            }
        }
    }
}

/// Raising the threshold never drops more entries as decoys.
pub proof fn lemma_fix_entries_monotone(
    s: Seq<u8>,
    es: Seq<CdhModel>,
    t1: RatioThreshold,
    t2: RatioThreshold,
)
    requires
        threshold_at_most(t1, t2),
    ensures
        spec_fix_entries(s, es, t2).1 <= spec_fix_entries(s, es, t1).1,
        spec_fix_entries(s, es, t2).0.len() >= spec_fix_entries(s, es, t1).0.len(),
    decreases es.len(),
{
    if es.len() > 0 {
        lemma_fix_entries_monotone(s, es.drop_last(), t1, t2);
        let m = es.last();
        lemma_exceeds_ratio_monotone(m.compressed_size, m.uncompressed_size, t1, t2);
    }
    lemma_fix_entries_counts(s, es, t1);
    lemma_fix_entries_counts(s, es, t2);
}

/// `fix_all` is monotone in the threshold: whether it succeeds does not
/// depend on the threshold, and with a higher threshold it removes no more
/// decoys and keeps no fewer entries.
pub proof fn lemma_fix_all_monotone(s: Seq<u8>, t1: RatioThreshold, t2: RatioThreshold)
    requires
        threshold_at_most(t1, t2),
    ensures
        (spec_fix_all(s, t1) is Ok) == (spec_fix_all(s, t2) is Ok),
        spec_fix_all(s, t1) is Ok ==> {
            let r1 = spec_fix_all(s, t1)->Ok_0.1;
            let r2 = spec_fix_all(s, t2)->Ok_0.1;
            &&& r2.zipbomb_removed <= r1.zipbomb_removed
            &&& r2.final_entries >= r1.final_entries
        },
{
    if spec_read_archive(s) is Ok {
        let (eocd, es) = spec_read_archive(s)->Ok_0;
        lemma_fix_entries_monotone(s, es, t1, t2);
    }
}

/// A repaired binary XML resource (of less than 4 GiB) shows no problems.
pub open spec fn repaired_xml_clean(d: Seq<u8>) -> bool {
    d.len() <= u32::MAX ==> spec_axml_problems(d) == Seq::<AxmlProblem>::empty()
}

/// Every resource recorded as repaired is the output of a repair, records its
/// own size, and so shows no problems.
#[verifier::rlimit(80)]
#[verifier::spinoff_prover]
proof fn lemma_axml_map_clean(s: Seq<u8>, fixed: Seq<CdhModel>)
    requires
        s.len() <= usize::MAX,
    ensures
        forall|k: usize|
            #[trigger] spec_axml_repairs(s, fixed).0.contains_key(k) ==> {
                let v = spec_axml_repairs(s, fixed).0[k];
                &&& repaired_xml_clean(v.data)
                &&& v.size == v.data.len() as u32
            },
    decreases fixed.len(),
{
    if fixed.len() > 0 {
        lemma_axml_map_clean(s, fixed.drop_last());
        let f = fixed.last();
        match spec_axml_candidate(s, f) {
            Some((out, rep)) => {
                let (a, b) = entry_data_range(s, f)->Some_0;
                let x = s.subrange(a, b);
                assert(spec_fix_axml(x) is Ok);
                assert(out == spec_fix_axml(x)->Ok_0.0);
                if out.len() <= u32::MAX {
                    crate::axml_fixer::lemma_fix_axml_idempotent(x);
                }
                assert(repaired_xml_clean(out));
                let prev = spec_axml_repairs(s, fixed.drop_last()).0;
                let m = spec_axml_repairs(s, fixed).0;
                assert(m == prev.insert(
                    f.local_header_offset as usize,
                    FixedXmlModel { data: out, crc32: crc32_checksum(out), size: out.len() as u32 },
                ));
                assert forall|k: usize| #[trigger] m.contains_key(k) implies {
                    let v = m[k];
                    &&& repaired_xml_clean(v.data)
                    &&& v.size == v.data.len() as u32
                } by {
                    if k != f.local_header_offset as usize {
                        assert(prev.contains_key(k));
                    }
                }
            },
            None => {
                assert(spec_axml_repairs(s, fixed) == spec_axml_repairs(s, fixed.drop_last()));
            },
        }
    }
}

proof fn lemma_lfh_fields(version: u16, f: CdhModel, crc: u32, compressed: u32, uncompressed: u32)
    ensures
        ({
            let b = lfh_bytes(version, f, crc, compressed, uncompressed);
            &&& b.len() == 30 + f.filename.len() + f.extra_field.len()
            &&& b.subrange(26, 28) == u16_le_bytes(f.filename_length)
            &&& b.subrange(28, 30) == u16_le_bytes(f.extra_field_length)
        }),
{
    reveal(lfh_bytes);
    let b = lfh_bytes(version, f, crc, compressed, uncompressed);
    assert(b.subrange(26, 28) =~= u16_le_bytes(f.filename_length));
    assert(b.subrange(28, 30) =~= u16_le_bytes(f.extra_field_length));
}

/// Where the record of entry `k` stands in the rebuilt local area.
proof fn lemma_local_area_layout(s: Seq<u8>, fixed: Seq<CdhModel>, map: Map<usize, FixedXmlModel>, k: int)
    requires
        0 <= k < fixed.len(),
    ensures
        ({
            let la = spec_local_area(s, fixed, map);
            let pre = spec_local_area(s, fixed.take(k), map).0;
            let rec = spec_local_record(s, fixed[k], map);
            &&& la.1[k] == pre.len() as u32
            &&& pre.len() + rec.len() <= la.0.len()
            &&& la.0.subrange(pre.len() as int, (pre.len() + rec.len()) as int) == rec
        }),
    decreases fixed.len(),
{
    let n = fixed.len() as int;
    let d = fixed.drop_last();
    lemma_local_offsets_len(s, d, map);
    let prev = spec_local_area(s, d, map);
    let la = spec_local_area(s, fixed, map);
    if k == n - 1 {
        assert(d =~= fixed.take(k));
        assert(la.0.subrange(prev.0.len() as int, la.0.len() as int) =~= spec_local_record(
            s,
            fixed[k],
            map,
        ));
    } else {
        lemma_local_area_layout(s, d, map, k);
        assert(d.take(k) =~= fixed.take(k));
        assert(d[k] == fixed[k]);
        let pre = spec_local_area(s, fixed.take(k), map).0;
        let rec = spec_local_record(s, fixed[k], map);
        assert(la.0.subrange(pre.len() as int, (pre.len() + rec.len()) as int) =~= prev.0.subrange(
            pre.len() as int,
            (pre.len() + rec.len()) as int,
        ));
    }
}

/// An entry whose repair changes its resource has that resource recorded
/// under its local header offset.
proof fn lemma_candidates_recorded(s: Seq<u8>, fixed: Seq<CdhModel>, k: int)
    requires
        0 <= k < fixed.len(),
        spec_axml_candidate(s, fixed[k]) is Some,
    ensures
        spec_axml_repairs(s, fixed).0.contains_key(fixed[k].local_header_offset as usize),
    decreases fixed.len(),
{
    let d = fixed.drop_last();
    if k < fixed.len() - 1 {
        assert(d[k] == fixed[k]);
        lemma_candidates_recorded(s, d, k);
    }
}

/// The local headers and data of the kept entries lie within the archive,
/// and none of the kept binary XML resources that look like AXML is shorter
/// than 8 bytes.
pub open spec fn kept_entries_in_place(s: Seq<u8>, fixed: Seq<CdhModel>) -> bool {
    forall|k: int|
        0 <= k < fixed.len() ==> {
            let f = #[trigger] fixed[k];
            &&& entry_data_range(s, f) is Some
            &&& !(is_axml_resource_name(f.filename) && {
                let (a, b) = entry_data_range(s, f)->Some_0;
                4 <= b - a < 8 && looks_like_axml(s.subrange(a, b))
            })
        }
}

/// In the repaired archive, the data of kept entry `k`, as its new local
/// and central directory headers place it, is what was written for it.
#[verifier::rlimit(40)]
#[verifier::spinoff_prover]
proof fn lemma_updated_entry_data(s: Seq<u8>, fixed: Seq<CdhModel>, k: int, rest: Seq<u8>)
    requires
        0 <= k < fixed.len(),
        entry_data_range(s, fixed[k]) is Some,
        cdh_well_formed(fixed[k]),
        spec_local_area(s, fixed, spec_axml_repairs(s, fixed).0).0.len() + rest.len() <= u32::MAX,
        xml_for(spec_axml_repairs(s, fixed).0, fixed[k]) matches Some(v) ==> v.size == v.data.len() as u32,
    ensures
        ({
            let map = spec_axml_repairs(s, fixed).0;
            let la = spec_local_area(s, fixed, map);
            let upd = spec_updated_entries(fixed, la.1, map);
            let payload = record_payload(s, fixed[k], xml_for(map, fixed[k]));
            let out = la.0 + rest;
            &&& entry_data_range(out, upd[k]) is Some
            &&& out.subrange(
                entry_data_range(out, upd[k])->Some_0.0,
                entry_data_range(out, upd[k])->Some_0.1,
            ) == payload
        }),
{
    let map = spec_axml_repairs(s, fixed).0;
    let la = spec_local_area(s, fixed, map);
    lemma_local_offsets_len(s, fixed, map);
    let upd = spec_updated_entries(fixed, la.1, map);
    let out = la.0 + rest;
    let f = fixed[k];
    let u = upd[k];
    lemma_local_area_layout(s, fixed, map, k);
    let pre = spec_local_area(s, fixed.take(k), map).0;
    let rec = spec_local_record(s, f, map);
    let off = pre.len() as int;
    assert(u.local_header_offset == off);
    let x = xml_for(map, f);
    let lfh = f.local_header_offset as int;
    let crc = match x {
        Some(v) => v.crc32,
        None => f.crc32,
    };
    let compressed = match x {
        Some(v) => v.size,
        None => f.compressed_size,
    };
    let uncompressed = match x {
        Some(v) => v.size,
        None => f.uncompressed_size,
    };
    let header = lfh_bytes(le_u16(s, lfh + 4) as u16, f, crc, compressed, uncompressed);
    lemma_lfh_fields(le_u16(s, lfh + 4) as u16, f, crc, compressed, uncompressed);
    let payload = record_payload(s, f, x);
    assert(rec == header + payload);
    assert(out.subrange(off, off + rec.len()) =~= rec);
    assert(rec.subrange(26, 28) =~= header.subrange(26, 28));
    assert(rec.subrange(28, 30) =~= header.subrange(28, 30));
    let orec = out.subrange(off, off + rec.len());
    assert(out.subrange(off + 26, off + 28) =~= orec.subrange(26, 28));
    assert(out.subrange(off + 28, off + 30) =~= orec.subrange(28, 30));
    crate::bytes::lemma_le_u16_at(out, off + 26, f.filename_length);
    crate::bytes::lemma_le_u16_at(out, off + 28, f.extra_field_length);
    let start = off + 30 + f.filename.len() + f.extra_field.len();
    assert(payload.len() == u.compressed_size);
    assert(entry_data_range(out, u) == Some((start, start + payload.len())));
    assert(header.len() == 30 + f.filename.len() + f.extra_field.len());
    assert(rec.subrange(header.len() as int, rec.len() as int) =~= payload);
    assert(out.subrange(start, start + payload.len()) =~= orec.subrange(
        header.len() as int,
        rec.len() as int,
    ));
}

/// In the repaired archive, kept entry `k` has no binary XML problems.
#[verifier::rlimit(40)]
#[verifier::spinoff_prover]
proof fn lemma_updated_entry_axml_clean(s: Seq<u8>, fixed: Seq<CdhModel>, k: int, rest: Seq<u8>)
    requires
        s.len() <= usize::MAX,
        0 <= k < fixed.len(),
        kept_entries_in_place(s, fixed),
        cdh_well_formed(fixed[k]),
        spec_local_area(s, fixed, spec_axml_repairs(s, fixed).0).0.len() + rest.len() <= u32::MAX,
    ensures
        ({
            let map = spec_axml_repairs(s, fixed).0;
            let la = spec_local_area(s, fixed, map);
            let upd = spec_updated_entries(fixed, la.1, map);
            spec_entry_axml_problems(la.0 + rest, upd[k]) is None
        }),
{
    let map = spec_axml_repairs(s, fixed).0;
    let la = spec_local_area(s, fixed, map);
    let upd = spec_updated_entries(fixed, la.1, map);
    let out = la.0 + rest;
    let f = fixed[k];
    let u = upd[k];
    assert(entry_data_range(s, f) is Some);
    lemma_axml_map_clean(s, fixed);
    let x = xml_for(map, f);
    if let Some(v) = x {
        assert(map.contains_key(f.local_header_offset as usize));
    }
    lemma_updated_entry_data(s, fixed, k, rest);
    let payload = record_payload(s, f, x);
    assert(u.filename == f.filename);
    match x {
        Some(v) => {
            assert(map.contains_key(f.local_header_offset as usize));
            assert(repaired_xml_clean(v.data));
            lemma_local_area_layout(s, fixed, map, k);
            assert(payload.len() <= out.len());
        },
        None => {
            let (a, b) = entry_data_range(s, f)->Some_0;
            assert(payload == s.subrange(a, b));
            if is_axml_resource_name(f.filename) && payload.len() >= 4 && looks_like_axml(payload) {
                assert(payload.len() >= 8);
                if spec_axml_candidate(s, f) is Some {
                    lemma_candidates_recorded(s, fixed, k);
                }
                crate::axml_fixer::lemma_no_fixes_no_problems(payload);
            }
        },
    }
}
/// The repaired archive, read back and scanned, shows no damaged binary XML
/// resource: every resource that repair changed is clean, and every other
/// one needed no repair. This holds when, besides the conditions for reading
/// it back, the local header and data of every kept entry lie within the
/// incoming archive and no kept resource that looks like binary XML is
/// shorter than 8 bytes (such a resource is reported but not repaired).
pub proof fn lemma_fixed_archive_has_no_axml_issues(s: Seq<u8>, t: RatioThreshold)
    requires
        s.len() <= usize::MAX,
        spec_fix_all(s, t) is Ok,
        spec_fix_all(s, t)->Ok_0.0.len() <= u32::MAX,
        no_signature_after(
            spec_fix_all(s, t)->Ok_0.0,
            spec_fix_all(s, t)->Ok_0.0.len() - 22 - spec_read_archive(s)->Ok_0.0.comment.len(),
        ),
        kept_entries_in_place(s, spec_fix_entries(s, spec_read_archive(s)->Ok_0.1, t).0),
    ensures
        spec_detect_issues(spec_fix_all(s, t)->Ok_0.0, t) is Ok,
        spec_detect_issues(spec_fix_all(s, t)->Ok_0.0, t)->Ok_0.axml_issues.len() == 0,
{
    lemma_fixed_archive_reads_back(s, t);
    let (eocd, es) = spec_read_archive(s)->Ok_0;
    let out = spec_fix_all(s, t)->Ok_0.0;
    let fe = spec_fix_entries(s, es, t);
    let ax = spec_axml_repairs(s, fe.0);
    let la = spec_local_area(s, fe.0, ax.0);
    lemma_local_offsets_len(s, fe.0, ax.0);
    let cd = spec_cd_area(fe.0, la.1, ax.0);
    let ne = spec_new_eocd(eocd, fe.0.len(), cd.len(), la.0.len());
    let rest = cd + eocd_bytes(ne);
    assert(out =~= la.0 + rest);
    let upd = spec_updated_entries(fe.0, la.1, ax.0);
    let p = spec_find_eocd(s)->Some_0;
    lemma_eocd_scan(s, eocd_search_low(s), eocd_search_high(s));
    lemma_read_entries_well_formed(s, eocd.cd_offset as int, 0, eocd.cd_records_total as int);
    lemma_fix_entries_well_formed(s, es, t);
    assert forall|k: int| 0 <= k < upd.len() implies (#[trigger] spec_entry_axml_problems(
        out,
        upd[k],
    )) is None by {
        lemma_updated_entry_axml_clean(s, fe.0, k, rest);
    }
    lemma_no_axml_entries_report(out, upd, t);
}

/// The layout of a local file header: the signature, then "version
/// needed", flags, method, time, date, checksum, compressed size,
/// uncompressed size, name length and extra-field length at their fixed
/// offsets, little endian, followed by the file name and the extra field.
pub proof fn lemma_lfh_layout(version: u16, f: CdhModel, crc: u32, compressed: u32, uncompressed: u32)
    ensures
        ({
            let b = lfh_bytes(version, f, crc, compressed, uncompressed);
            &&& b.len() == 30 + f.filename.len() + f.extra_field.len()
            &&& le_u32(b, 0) == LFH_SIGNATURE
            &&& le_u16(b, 4) == version
            &&& le_u16(b, 6) == f.flags
            &&& le_u16(b, 8) == f.compression_method
            &&& le_u16(b, 10) == f.last_mod_time
            &&& le_u16(b, 12) == f.last_mod_date
            &&& le_u32(b, 14) == crc
            &&& le_u32(b, 18) == compressed
            &&& le_u32(b, 22) == uncompressed
            &&& le_u16(b, 26) == f.filename_length
            &&& le_u16(b, 28) == f.extra_field_length
            &&& b.subrange(30, (30 + f.filename.len()) as int) == f.filename
            &&& b.subrange((30 + f.filename.len()) as int, b.len() as int) == f.extra_field
        }),
{
    reveal(lfh_bytes);
    let b = lfh_bytes(version, f, crc, compressed, uncompressed);
    assert(b.subrange(0, 4) =~= u32_le_bytes(LFH_SIGNATURE));
    lemma_le_u32_at(b, 0, LFH_SIGNATURE);
    assert(b.subrange(4, 6) =~= u16_le_bytes(version));
    lemma_le_u16_at(b, 4, version);
    assert(b.subrange(6, 8) =~= u16_le_bytes(f.flags));
    lemma_le_u16_at(b, 6, f.flags);
    assert(b.subrange(8, 10) =~= u16_le_bytes(f.compression_method));
    lemma_le_u16_at(b, 8, f.compression_method);
    assert(b.subrange(10, 12) =~= u16_le_bytes(f.last_mod_time));
    lemma_le_u16_at(b, 10, f.last_mod_time);
    assert(b.subrange(12, 14) =~= u16_le_bytes(f.last_mod_date));
    lemma_le_u16_at(b, 12, f.last_mod_date);
    assert(b.subrange(14, 18) =~= u32_le_bytes(crc));
    lemma_le_u32_at(b, 14, crc);
    assert(b.subrange(18, 22) =~= u32_le_bytes(compressed));
    lemma_le_u32_at(b, 18, compressed);
    assert(b.subrange(22, 26) =~= u32_le_bytes(uncompressed));
    lemma_le_u32_at(b, 22, uncompressed);
    assert(b.subrange(26, 28) =~= u16_le_bytes(f.filename_length));
    lemma_le_u16_at(b, 26, f.filename_length);
    assert(b.subrange(28, 30) =~= u16_le_bytes(f.extra_field_length));
    lemma_le_u16_at(b, 28, f.extra_field_length);
    assert(b.subrange(30, (30 + f.filename.len()) as int) =~= f.filename);
    assert(b.subrange((30 + f.filename.len()) as int, b.len() as int) =~= f.extra_field);
}

/// Values read from `b` are read the same from `out` where `b` stands in
/// `out` at `off`.
proof fn lemma_le_within(out: Seq<u8>, off: int, b: Seq<u8>, i: int)
    requires
        0 <= off,
        off + b.len() <= out.len(),
        out.subrange(off, off + b.len()) == b,
        0 <= i,
    ensures
        i + 2 <= b.len() ==> le_u16(out, off + i) == le_u16(b, i),
        i + 4 <= b.len() ==> le_u32(out, off + i) == le_u32(b, i),
{
    if i + 2 <= b.len() {
        assert(out[off + i] == b[i]);
        assert(out[off + i + 1] == b[i + 1]);
    }
    if i + 4 <= b.len() {
        assert(out[off + i + 2] == b[i + 2]);
        assert(out[off + i + 3] == b[i + 3]);
    }
}

/// In the repaired archive (under 4 GiB), the rebuilt local file header of
/// every kept entry whose incoming local header lies within the archive
/// stands where the entry's new central directory header places it, and
/// carries the same flags, method, time, date, checksum, compressed size,
/// uncompressed size, name and extra-field lengths and name as that
/// central directory header.
#[verifier::rlimit(60)]
#[verifier::spinoff_prover]
pub proof fn lemma_fixed_local_headers_match_directory(s: Seq<u8>, t: RatioThreshold, k: int)
    requires
        spec_fix_all(s, t) is Ok,
        spec_fix_all(s, t)->Ok_0.0.len() <= u32::MAX,
        0 <= k < spec_fix_entries(s, spec_read_archive(s)->Ok_0.1, t).0.len(),
        spec_fix_entries(s, spec_read_archive(s)->Ok_0.1, t).0[k].local_header_offset + 30 <= s.len(),
    ensures
        ({
            let (eocd, es) = spec_read_archive(s)->Ok_0;
            let out = spec_fix_all(s, t)->Ok_0.0;
            let entries = spec_fixed_directory(s, eocd, es, t).1;
            let u = entries[k];
            let off = u.local_header_offset as int;
            &&& k < entries.len()
            &&& off + 30 + u.filename.len() <= out.len()
            &&& le_u32(out, off) == LFH_SIGNATURE
            &&& le_u16(out, off + 6) == u.flags
            &&& le_u16(out, off + 8) == u.compression_method
            &&& le_u16(out, off + 10) == u.last_mod_time
            &&& le_u16(out, off + 12) == u.last_mod_date
            &&& le_u32(out, off + 14) == u.crc32
            &&& le_u32(out, off + 18) == u.compressed_size
            &&& le_u32(out, off + 22) == u.uncompressed_size
            &&& le_u16(out, off + 26) == u.filename_length
            &&& le_u16(out, off + 28) == u.extra_field_length
            &&& out.subrange(off + 30, off + 30 + u.filename.len()) == u.filename
        }),
{
    let (eocd, es) = spec_read_archive(s)->Ok_0;
    let fe = spec_fix_entries(s, es, t);
    let fixed = fe.0;
    let map = spec_axml_repairs(s, fixed).0;
    let la = spec_local_area(s, fixed, map);
    lemma_local_offsets_len(s, fixed, map);
    let cd = spec_cd_area(fixed, la.1, map);
    let ne = spec_new_eocd(eocd, fixed.len(), cd.len(), la.0.len());
    let out = la.0 + cd + eocd_bytes(ne);
    assert(out == spec_fix_all(s, t)->Ok_0.0);
    let entries = spec_updated_entries(fixed, la.1, map);
    assert(entries == spec_fixed_directory(s, eocd, es, t).1);
    let f = fixed[k];
    let u = entries[k];
    lemma_local_area_layout(s, fixed, map, k);
    let pre = spec_local_area(s, fixed.take(k), map).0;
    let rec = spec_local_record(s, f, map);
    let off = pre.len() as int;
    assert(u.local_header_offset == off);
    let x = xml_for(map, f);
    let lfh = f.local_header_offset as int;
    let crc = match x {
        Some(v) => v.crc32,
        None => f.crc32,
    };
    let compressed = match x {
        Some(v) => v.size,
        None => f.compressed_size,
    };
    let uncompressed = match x {
        Some(v) => v.size,
        None => f.uncompressed_size,
    };
    let header = lfh_bytes(le_u16(s, lfh + 4) as u16, f, crc, compressed, uncompressed);
    lemma_lfh_layout(le_u16(s, lfh + 4) as u16, f, crc, compressed, uncompressed);
    assert(rec == header + record_payload(s, f, x));
    assert(out.subrange(off, off + rec.len()) =~= rec);
    assert(out.subrange(off, off + header.len()) =~= header);
    lemma_le_within(out, off, header, 0);
    lemma_le_within(out, off, header, 6);
    lemma_le_within(out, off, header, 8);
    lemma_le_within(out, off, header, 10);
    lemma_le_within(out, off, header, 12);
    lemma_le_within(out, off, header, 14);
    lemma_le_within(out, off, header, 18);
    lemma_le_within(out, off, header, 22);
    lemma_le_within(out, off, header, 26);
    lemma_le_within(out, off, header, 28);
    assert(out.subrange(off + 30, off + 30 + u.filename.len()) =~= header.subrange(
        30,
        (30 + f.filename.len()) as int,
    ));
}

} // verus!
