//! Scanning an archive for the protection features this library removes.
use crate::axml_fixer::{detect_axml_issues, spec_axml_problems, AxmlProblem};
use crate::bytes::{le_u16, le_u32, read_u16_le, read_u32_le};
use crate::compression::{spec_is_valid_method, CompressionMethod};
use crate::zip_structures::{
    read_archive, spec_exceeds_ratio, spec_read_archive, utf8_lossy,
    CdhModel, CentralDirectoryHeader, RatioThreshold, ZipError,
};
use vstd::prelude::*;
use vstd::string::is_ascii;
use vstd::string::StringSliceAdditionalSpecFns;
use vstd::utf8::{decode_utf8, encode_utf8, is_char_boundary};

verus! {

/// An entry whose compression method code is not a valid one.
#[derive(Debug, Clone)]
pub struct CompressionIssue {
    pub index: usize,
    pub filename: String,
    pub method: u16,
}

/// An entry with the "encrypted" flag (bit 0) set.
#[derive(Debug, Clone)]
pub struct EncryptionIssue {
    pub index: usize,
    pub filename: String,
    pub flags: u16,
}

/// An entry whose declared sizes make it a zip-bomb decoy.
#[derive(Debug, Clone)]
pub struct ZipBombIssue {
    pub filename: String,
    pub compressed_size: u32,
    pub uncompressed_size: u32,
}

/// A binary XML resource with problems.
#[derive(Debug, Clone)]
pub struct AxmlIssue {
    pub filename: String,
    pub problems: Vec<AxmlProblem>,
}

/// Everything found in an archive.
#[derive(Debug, Clone)]
pub struct IssueReport {
    pub invalid_compression_methods: Vec<CompressionIssue>,
    pub fake_encryption_flags: Vec<EncryptionIssue>,
    pub zipbomb_entries: Vec<ZipBombIssue>,
    pub axml_issues: Vec<AxmlIssue>,
}

pub struct CompressionIssueModel {
    pub index: usize,
    pub filename: Seq<char>,
    pub method: u16,
}

pub struct EncryptionIssueModel {
    pub index: usize,
    pub filename: Seq<char>,
    pub flags: u16,
}

pub struct ZipBombIssueModel {
    pub filename: Seq<char>,
    pub compressed_size: u32,
    pub uncompressed_size: u32,
}

pub struct AxmlIssueModel {
    pub filename: Seq<char>,
    pub problems: Seq<AxmlProblem>,
}

/// The mathematical value of an issue report.
pub struct IssueReportModel {
    pub invalid_compression_methods: Seq<CompressionIssueModel>,
    pub fake_encryption_flags: Seq<EncryptionIssueModel>,
    pub zipbomb_entries: Seq<ZipBombIssueModel>,
    pub axml_issues: Seq<AxmlIssueModel>,
}

impl View for CompressionIssue {
    type V = CompressionIssueModel;

    open spec fn view(&self) -> CompressionIssueModel {
        CompressionIssueModel { index: self.index, filename: self.filename@, method: self.method }
    }
}

impl View for EncryptionIssue {
    type V = EncryptionIssueModel;

    open spec fn view(&self) -> EncryptionIssueModel {
        EncryptionIssueModel { index: self.index, filename: self.filename@, flags: self.flags }
    }
}

impl View for ZipBombIssue {
    type V = ZipBombIssueModel;

    open spec fn view(&self) -> ZipBombIssueModel {
        ZipBombIssueModel {
            filename: self.filename@,
            compressed_size: self.compressed_size,
            uncompressed_size: self.uncompressed_size,
        }
    }
}

impl View for AxmlIssue {
    type V = AxmlIssueModel;

    open spec fn view(&self) -> AxmlIssueModel {
        AxmlIssueModel { filename: self.filename@, problems: self.problems@ }
    }
}

impl View for IssueReport {
    type V = IssueReportModel;

    open spec fn view(&self) -> IssueReportModel {
        IssueReportModel {
            invalid_compression_methods: self.invalid_compression_methods@.map_values(
                |c: CompressionIssue| c@,
            ),
            fake_encryption_flags: self.fake_encryption_flags@.map_values(|c: EncryptionIssue| c@),
            zipbomb_entries: self.zipbomb_entries@.map_values(|c: ZipBombIssue| c@),
            axml_issues: self.axml_issues@.map_values(|c: AxmlIssue| c@),
        }
    }
}

impl Default for IssueReport {
    /// A report that lists nothing.
    fn default() -> (r: Self)
        ensures
            r@.invalid_compression_methods.len() == 0,
            r@.fake_encryption_flags.len() == 0,
            r@.zipbomb_entries.len() == 0,
            r@.axml_issues.len() == 0,
    {
        IssueReport {
            invalid_compression_methods: Vec::new(),
            fake_encryption_flags: Vec::new(),
            zipbomb_entries: Vec::new(),
            axml_issues: Vec::new(),
        }
    }
}

/// Whether the report lists anything.
pub open spec fn report_has_issues(m: IssueReportModel) -> bool {
    m.invalid_compression_methods.len() > 0 || m.fake_encryption_flags.len() > 0
        || m.zipbomb_entries.len() > 0 || m.axml_issues.len() > 0
}

impl IssueReport {
    /// Whether anything was found.
    pub fn has_issues(&self) -> (r: bool)
        ensures
            r == report_has_issues(self@),
            r == (self.invalid_compression_methods@.len() > 0 || self.fake_encryption_flags@.len() > 0
                || self.zipbomb_entries@.len() > 0 || self.axml_issues@.len() > 0),
    {
        self.invalid_compression_methods.len() > 0 || self.fake_encryption_flags.len() > 0
            || self.zipbomb_entries.len() > 0 || self.axml_issues.len() > 0
    }
}

/// The bytes of `text`.
pub open spec fn ascii(text: Seq<char>) -> Seq<u8> {
    text.map_values(|c: char| c as u8)
}

/// Whether the file name (as bytes) is `AndroidManifest.xml`, or starts with
/// `res/` and ends with `.xml`: the binary XML resources of an APK.
///
/// The names are ASCII, so this test on the raw bytes gives the same answer
/// as the same test on the name decoded with replacement of invalid UTF-8.
pub open spec fn is_axml_resource_name(name: Seq<u8>) -> bool {
    name == ascii("AndroidManifest.xml"@) || (name.len() >= 4 && name.subrange(0, 4) == ascii(
        "res/"@,
    ) && name.subrange(name.len() - 4, name.len() as int) == ascii(".xml"@))
}

/// Where the data of the entry lies, going by the file-name and extra-field
/// lengths of its local header and the compressed size of its central
/// directory header; `None` when the local header or the data does not fit.
pub open spec fn entry_data_range(s: Seq<u8>, m: CdhModel) -> Option<(int, int)> {
    let lfh = m.local_header_offset as int;
    if lfh + 30 <= s.len() {
        let start = lfh + 30 + le_u16(s, lfh + 26) + le_u16(s, lfh + 28);
        let end = start + m.compressed_size;
        if end <= s.len() {
            Some((start, end))
        } else {
            None
        }
    } else {
        None
    }
}

/// Data whose first two bytes (little endian) are 3: Android binary XML, or
/// what is left of it.
pub open spec fn looks_like_axml(x: Seq<u8>) -> bool {
    let magic = le_u32(x, 0) as u32;
    magic == 0x00080003u32 || (magic & 0x0000FFFFu32) == 3u32
}

/// The problems found in entry `m`'s binary XML data, when it has some.
pub open spec fn spec_entry_axml_problems(s: Seq<u8>, m: CdhModel) -> Option<Seq<AxmlProblem>> {
    if is_axml_resource_name(m.filename) {
        match entry_data_range(s, m) {
            Some((start, end)) => {
                let x = s.subrange(start, end);
                if x.len() >= 4 && looks_like_axml(x) && spec_axml_problems(x).len() > 0 {
                    Some(spec_axml_problems(x))
                } else {
                    None
                }
            },
            None => None,
        }
    } else {
        None
    }
}

/// The report on entries `es` of the archive `s`.
pub open spec fn spec_issue_report(s: Seq<u8>, es: Seq<CdhModel>, t: RatioThreshold) -> IssueReportModel
    decreases es.len(),
{
    if es.len() == 0 {
        IssueReportModel {
            invalid_compression_methods: Seq::empty(),
            fake_encryption_flags: Seq::empty(),
            zipbomb_entries: Seq::empty(),
            axml_issues: Seq::empty(),
        }
    } else {
        let prev = spec_issue_report(s, es.drop_last(), t);
        let m = es.last();
        let i = (es.len() - 1) as usize;
        let name = utf8_lossy(m.filename);
        IssueReportModel {
            invalid_compression_methods: if !spec_is_valid_method(m.compression_method) {
                prev.invalid_compression_methods.push(
                    CompressionIssueModel { index: i, filename: name, method: m.compression_method },
                )
            } else {
                prev.invalid_compression_methods
            },
            fake_encryption_flags: if m.flags & 1u16 != 0 {
                prev.fake_encryption_flags.push(
                    EncryptionIssueModel { index: i, filename: name, flags: m.flags },
                )
            } else {
                prev.fake_encryption_flags
            },
            zipbomb_entries: if spec_exceeds_ratio(m.compressed_size, m.uncompressed_size, t) {
                prev.zipbomb_entries.push(
                    ZipBombIssueModel {
                        filename: name,
                        compressed_size: m.compressed_size,
                        uncompressed_size: m.uncompressed_size,
                    },
                )
            } else {
                prev.zipbomb_entries
            },
            axml_issues: match spec_entry_axml_problems(s, m) {
                Some(ps) => prev.axml_issues.push(AxmlIssueModel { filename: name, problems: ps }),
                None => prev.axml_issues,
            },
        }
    }
}

/// What scanning the archive `s` gives.
pub open spec fn spec_detect_issues(s: Seq<u8>, t: RatioThreshold) -> Result<IssueReportModel, ZipError> {
    match spec_read_archive(s) {
        Ok((_, es)) => Ok(spec_issue_report(s, es, t)),
        Err(e) => Err(e),
    }
}

/// Whether `a` and `b` hold the same bytes.
fn bytes_eq(a: &[u8], b: &[u8]) -> (r: bool)
    ensures
        r == (a@ == b@),
{
    if a.len() != b.len() {
        return false;
    }
    let mut i: usize = 0;
    while i < a.len()
        invariant
            a@.len() == b@.len(),
            i <= a@.len(),
            forall|k: int| 0 <= k < i ==> a@[k] == b@[k],
        decreases a@.len() - i,
    {
        if a[i] != b[i] {
            return false;
        }
        i = i + 1;
    }
    assert(a@ =~= b@);
    true
}

/// The bytes of an ASCII string literal.
fn ascii_bytes(text: &str) -> (r: &[u8])
    requires
        is_ascii(text),
    ensures
        r@ == ascii(text@),
{
    proof {
        broadcast use vstd::string::group_string_axioms;
    }
    let r = text.as_bytes();
    assert(r@ =~= ascii(text@));
    r
}

/// Whether the file name (as bytes) names a binary XML resource of an APK.
pub(crate) fn is_axml_resource(name: &[u8]) -> (r: bool)
    ensures
        r == is_axml_resource_name(name@),
{
    proof {
        reveal_strlit("AndroidManifest.xml");
        reveal_strlit("res/");
        reveal_strlit(".xml");
    }
    if bytes_eq(name, ascii_bytes("AndroidManifest.xml")) {
        return true;
    }
    let n = name.len();
    if n < 4 {
        return false;
    }
    let head = &name[0..4];
    let tail = &name[n - 4..n];
    bytes_eq(head, ascii_bytes("res/")) && bytes_eq(tail, ascii_bytes(".xml"))
}

/// The bytes of entry `h`'s data in `data`, as `entry_data_range` places them.
pub(crate) fn entry_data<'a>(data: &'a [u8], h: &CentralDirectoryHeader) -> (r: Option<&'a [u8]>)
    ensures
        match entry_data_range(data@, h@) {
            Some((start, end)) => r matches Some(x) && x@ == data@.subrange(start, end),
            None => r is None,
        },
{
    let lfh = h.local_header_offset as usize;
    if lfh > data.len() || data.len() - lfh < 30 {
        return None;
    }
    let fname_len = read_u16_le(data, lfh + 26) as usize;
    let extra_len = read_u16_le(data, lfh + 28) as usize;
    let room = data.len() - lfh - 30;
    if fname_len > room || extra_len > room - fname_len {
        return None;
    }
    let start = lfh + 30 + fname_len + extra_len;
    let size = h.compressed_size as usize;
    if size > data.len() - start {
        return None;
    }
    Some(&data[start..start + size])
}

/// Scans the archive `data` for non-standard compression methods, forged
/// encryption flags, zip-bomb decoys (entries whose declared sizes exceed
/// `ratio_threshold`) and damaged binary XML resources.
pub fn detect_issues(data: &[u8], ratio_threshold: RatioThreshold) -> (r: Result<IssueReport, ZipError>)
    ensures
        match r {
            Ok(rep) => spec_detect_issues(data@, ratio_threshold) == Ok::<IssueReportModel, ZipError>(
                rep@,
            ),
            Err(e) => spec_detect_issues(data@, ratio_threshold) == Err::<IssueReportModel, ZipError>(e),
        },
{
    let (_eocd, entries) = read_archive(data)?;
    let ghost es = entries@.map_values(|h: CentralDirectoryHeader| h@);
    let mut report = IssueReport {
        invalid_compression_methods: Vec::new(),
        fake_encryption_flags: Vec::new(),
        zipbomb_entries: Vec::new(),
        axml_issues: Vec::new(),
    };
    let n = entries.len();
    let mut i: usize = 0;
    assert(es.take(0) =~= Seq::<CdhModel>::empty());
    assert(report@ == spec_issue_report(data@, es.take(0), ratio_threshold)) by {
        assert(report@.invalid_compression_methods =~= Seq::<CompressionIssueModel>::empty());
        assert(report@.fake_encryption_flags =~= Seq::<EncryptionIssueModel>::empty());
        assert(report@.zipbomb_entries =~= Seq::<ZipBombIssueModel>::empty());
        assert(report@.axml_issues =~= Seq::<AxmlIssueModel>::empty());
    }
    while i < n
        invariant
            n == entries@.len(),
            i <= n,
            es == entries@.map_values(|h: CentralDirectoryHeader| h@),
            report@ == spec_issue_report(data@, es.take(i as int), ratio_threshold),
        decreases n - i,
    {
        let cdh = &entries[i];
        let ghost prev = report@;
        let ghost m = es[i as int];
        assert(es.take(i + 1).drop_last() =~= es.take(i as int));
        assert(es.take(i + 1).last() == m);
        let filename = cdh.filename_str();
        if !CompressionMethod::is_valid(cdh.compression_method) {
            report.invalid_compression_methods.push(
                CompressionIssue {
                    index: i,
                    filename: filename.clone(),
                    method: cdh.compression_method,
                },
            );
        }
        if cdh.flags & 0x0001 != 0 {
            report.fake_encryption_flags.push(
                EncryptionIssue { index: i, filename: filename.clone(), flags: cdh.flags },
            );
        }
        if cdh.exceeds_ratio(ratio_threshold) {
            report.zipbomb_entries.push(
                ZipBombIssue {
                    filename: filename.clone(),
                    compressed_size: cdh.compressed_size,
                    uncompressed_size: cdh.uncompressed_size,
                },
            );
        }
        if is_axml_resource(cdh.filename.as_slice()) {
            if let Some(xml_data) = entry_data(data, cdh) {
                if xml_data.len() >= 4 {
                    let magic = read_u32_le(xml_data, 0);
                    if magic == 0x00080003 || (magic & 0x0000FFFF) == 0x0003 {
                        match detect_axml_issues(xml_data) {
                            Ok(issues) => {
                                if issues.len() > 0 {
                                    report.axml_issues.push(
                                        AxmlIssue { filename: filename.clone(), problems: issues },
                                    );
                                }
                            },
                            Err(_) => {},
                        }
                    }
                }
            }
        }
        i = i + 1;
        assert(report@.invalid_compression_methods =~= spec_issue_report(data@, es.take(i as int), ratio_threshold).invalid_compression_methods);
        assert(report@.fake_encryption_flags =~= spec_issue_report(data@, es.take(i as int), ratio_threshold).fake_encryption_flags);
        assert(report@.zipbomb_entries =~= spec_issue_report(data@, es.take(i as int), ratio_threshold).zipbomb_entries);
        assert(report@.axml_issues =~= spec_issue_report(data@, es.take(i as int), ratio_threshold).axml_issues);
    }
    assert(es.take(n as int) =~= es);
    Ok(report)
}

/// Entries that all have valid methods, clear encryption flags and sizes
/// within the threshold give a report with none of those three issues.
pub proof fn lemma_clean_entries_report(s: Seq<u8>, es: Seq<CdhModel>, t: RatioThreshold)
    requires
        forall|k: int|
            0 <= k < es.len() ==> {
                let m = #[trigger] es[k];
                &&& spec_is_valid_method(m.compression_method)
                &&& m.flags & 1u16 == 0
                &&& !spec_exceeds_ratio(m.compressed_size, m.uncompressed_size, t)
            },
    ensures
        spec_issue_report(s, es, t).invalid_compression_methods.len() == 0,
        spec_issue_report(s, es, t).fake_encryption_flags.len() == 0,
        spec_issue_report(s, es, t).zipbomb_entries.len() == 0,
    decreases es.len(),
{
    if es.len() > 0 {
        let d = es.drop_last();
        assert forall|k: int| 0 <= k < d.len() implies {
            let m = #[trigger] d[k];
            &&& spec_is_valid_method(m.compression_method)
            &&& m.flags & 1u16 == 0
            &&& !spec_exceeds_ratio(m.compressed_size, m.uncompressed_size, t)
        } by {
            assert(d[k] == es[k]);
        }
        lemma_clean_entries_report(s, d, t);
        assert(es.last() == es[es.len() - 1]);
    }
}

/// Entries none of which has binary XML problems give a report without
/// binary XML issues.
pub proof fn lemma_no_axml_entries_report(s: Seq<u8>, es: Seq<CdhModel>, t: RatioThreshold)
    requires
        forall|k: int| 0 <= k < es.len() ==> (#[trigger] spec_entry_axml_problems(s, es[k])) is None,
    ensures
        spec_issue_report(s, es, t).axml_issues.len() == 0,
    decreases es.len(),
{
    if es.len() > 0 {
        let d = es.drop_last();
        assert forall|k: int| 0 <= k < d.len() implies (#[trigger] spec_entry_axml_problems(s, d[k])) is None by {
            assert(d[k] == es[k]);
        }
        lemma_no_axml_entries_report(s, d, t);
        assert(spec_entry_axml_problems(s, es[es.len() - 1]) is None);
    }
}

/// Where `truncate_str` cuts a text longer than `max_len` bytes: 3 bytes
/// short of `max_len`, leaving room for "...", or at 0.
pub open spec fn truncation_cut(max_len: usize) -> int {
    if max_len < 3 {
        0
    } else {
        max_len - 3
    }
}

/// The text `chars` shortened to `max_len` bytes: unchanged when its UTF-8
/// encoding is that short, else the text of its first `truncation_cut`
/// bytes followed by "...".
pub open spec fn spec_truncate(chars: Seq<char>, max_len: usize) -> Seq<char> {
    let b = encode_utf8(chars);
    if b.len() <= max_len {
        chars
    } else {
        decode_utf8(b.subrange(0, truncation_cut(max_len))) + "..."@
    }
}

/// Shortens `s` for display in a column of `max_len` bytes. The cut must
/// fall between two characters.
pub fn truncate_str(s: &str, max_len: usize) -> (r: String)
    requires
        s.spec_bytes().len() > max_len ==> is_char_boundary(
            s.spec_bytes(),
            truncation_cut(max_len),
        ),
    ensures
        r@ == spec_truncate(s@, max_len),
{
    if s.as_bytes().len() <= max_len {
        return String::from_str(s);
    }
    let cut: usize = if max_len < 3 {
        0
    } else {
        max_len - 3
    };
    let (head, _) = s.split_at(cut);
    proof {
        vstd::utf8::encode_utf8_decode_utf8(head@);
    }
    let mut out = String::from_str(head);
    out.append("...");
    out
}

/// A report has issues exactly when one of its four lists, the binary XML
/// issues included, is not empty.
pub proof fn lemma_report_has_issues(m: IssueReportModel)
    ensures
        report_has_issues(m) <==> (m.invalid_compression_methods.len() > 0
            || m.fake_encryption_flags.len() > 0 || m.zipbomb_entries.len() > 0
            || m.axml_issues.len() > 0),
{
}

/// The binary XML resources of an APK are the entry named
/// `AndroidManifest.xml` and every entry whose name starts with `res/` and
/// ends with `.xml`, and nothing else.
pub proof fn lemma_axml_resource_names(name: Seq<u8>)
    ensures
        is_axml_resource_name(name) <==> (name == seq![
            0x41u8, 0x6eu8, 0x64u8, 0x72u8, 0x6fu8, 0x69u8, 0x64u8, 0x4du8, 0x61u8, 0x6eu8,
            0x69u8, 0x66u8, 0x65u8, 0x73u8, 0x74u8, 0x2eu8, 0x78u8, 0x6du8, 0x6cu8,
        ] || (name.len() >= 4 && name[0] == 0x72u8 && name[1] == 0x65u8 && name[2] == 0x73u8
            && name[3] == 0x2fu8 && name[name.len() - 4] == 0x2eu8 && name[name.len() - 3] == 0x78u8
            && name[name.len() - 2] == 0x6du8 && name[name.len() - 1] == 0x6cu8)),
{
    reveal_strlit("AndroidManifest.xml");
    reveal_strlit("res/");
    reveal_strlit(".xml");
    let manifest = seq![
        0x41u8, 0x6eu8, 0x64u8, 0x72u8, 0x6fu8, 0x69u8, 0x64u8, 0x4du8, 0x61u8, 0x6eu8,
        0x69u8, 0x66u8, 0x65u8, 0x73u8, 0x74u8, 0x2eu8, 0x78u8, 0x6du8, 0x6cu8,
    ];
    assert(ascii("AndroidManifest.xml"@) =~= manifest);
    assert(ascii("res/"@) =~= seq![0x72u8, 0x65u8, 0x73u8, 0x2fu8]);
    assert(ascii(".xml"@) =~= seq![0x2eu8, 0x78u8, 0x6du8, 0x6cu8]);
    if name.len() >= 4 {
        let head = name.subrange(0, 4);
        let tail = name.subrange(name.len() - 4, name.len() as int);
        if name[0] == 0x72u8 && name[1] == 0x65u8 && name[2] == 0x73u8 && name[3] == 0x2fu8 {
            assert(head =~= seq![0x72u8, 0x65u8, 0x73u8, 0x2fu8]);
        }
        if name[name.len() - 4] == 0x2eu8 && name[name.len() - 3] == 0x78u8
            && name[name.len() - 2] == 0x6du8 && name[name.len() - 1] == 0x6cu8 {
            assert(tail =~= seq![0x2eu8, 0x78u8, 0x6du8, 0x6cu8]);
        }
        if head == seq![0x72u8, 0x65u8, 0x73u8, 0x2fu8] {
            assert(name[0] == head[0] && name[1] == head[1] && name[2] == head[2] && name[3] == head[3]);
        }
        if tail == seq![0x2eu8, 0x78u8, 0x6du8, 0x6cu8] {
            assert(name[name.len() - 4] == tail[0] && name[name.len() - 3] == tail[1]
                && name[name.len() - 2] == tail[2] && name[name.len() - 1] == tail[3]);
        }
    }
}

/// Entry `k` of `es` whose name is that of a binary XML resource, whose data
/// lies in the archive, is at least 4 bytes long, starts like binary XML and
/// has problems, is listed among the binary XML issues of the report, under
/// its name and with those problems; and the report has issues.
pub proof fn lemma_damaged_resource_reported(s: Seq<u8>, es: Seq<CdhModel>, t: RatioThreshold, k: int)
    requires
        0 <= k < es.len(),
        is_axml_resource_name(es[k].filename),
        entry_data_range(s, es[k]) is Some,
        ({
            let (a, b) = entry_data_range(s, es[k])->Some_0;
            &&& b - a >= 4
            &&& looks_like_axml(s.subrange(a, b))
            &&& spec_axml_problems(s.subrange(a, b)).len() > 0
        }),
    ensures
        ({
            let (a, b) = entry_data_range(s, es[k])->Some_0;
            spec_issue_report(s, es, t).axml_issues.contains(
                AxmlIssueModel {
                    filename: utf8_lossy(es[k].filename),
                    problems: spec_axml_problems(s.subrange(a, b)),
                },
            )
        }),
        report_has_issues(spec_issue_report(s, es, t)),
    decreases es.len(),
{
    let (a, b) = entry_data_range(s, es[k])->Some_0;
    let issue = AxmlIssueModel {
        filename: utf8_lossy(es[k].filename),
        problems: spec_axml_problems(s.subrange(a, b)),
    };
    let rep = spec_issue_report(s, es, t);
    let d = es.drop_last();
    let prev = spec_issue_report(s, d, t);
    if k == es.len() - 1 {
        assert(spec_entry_axml_problems(s, es.last()) == Some(spec_axml_problems(s.subrange(a, b))));
        assert(rep.axml_issues == prev.axml_issues.push(issue));
        assert(rep.axml_issues[rep.axml_issues.len() - 1] == issue);
    } else {
        assert(d[k] == es[k]);
        lemma_damaged_resource_reported(s, d, t, k);
        let j = choose|j: int| 0 <= j < prev.axml_issues.len() && prev.axml_issues[j] == issue;
        match spec_entry_axml_problems(s, es.last()) {
            Some(ps) => {
                assert(rep.axml_issues[j] == issue);
            },
            None => {},
        }
    }
}

/// For a whole archive: a damaged binary XML resource among its entries is
/// reported by `detect_issues`, which then finds issues.
pub proof fn lemma_detect_reports_damaged_resource(s: Seq<u8>, t: RatioThreshold, k: int)
    requires
        spec_read_archive(s) is Ok,
        0 <= k < spec_read_archive(s)->Ok_0.1.len(),
        is_axml_resource_name(spec_read_archive(s)->Ok_0.1[k].filename),
        entry_data_range(s, spec_read_archive(s)->Ok_0.1[k]) is Some,
        ({
            let (a, b) = entry_data_range(s, spec_read_archive(s)->Ok_0.1[k])->Some_0;
            &&& b - a >= 4
            &&& looks_like_axml(s.subrange(a, b))
            &&& spec_axml_problems(s.subrange(a, b)).len() > 0
        }),
    ensures
        spec_detect_issues(s, t) is Ok,
        ({
            let m = spec_read_archive(s)->Ok_0.1[k];
            let (a, b) = entry_data_range(s, m)->Some_0;
            spec_detect_issues(s, t)->Ok_0.axml_issues.contains(
                AxmlIssueModel { filename: utf8_lossy(m.filename), problems: spec_axml_problems(s.subrange(a, b)) },
            )
        }),
        report_has_issues(spec_detect_issues(s, t)->Ok_0),
{
    let es = spec_read_archive(s)->Ok_0.1;
    lemma_damaged_resource_reported(s, es, t, k);
}

} // verus!
