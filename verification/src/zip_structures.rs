//! The two ZIP records this library rewrites: the central directory header
//! (one per entry) and the end-of-central-directory record.
use crate::bytes::{
    copy_range, le_u16, le_u32, push_all, push_u16_le, push_u32_le, read_u16_le, read_u32_le,
    u16_le_bytes, u32_le_bytes, lemma_le_u16_at, lemma_le_u16_bytes, lemma_le_u32_at,
    lemma_le_u32_bytes,
};
use vstd::prelude::*;
use vstd::utf8::{decode_utf8, valid_utf8};

verus! {

/// Why a record could not be read.
#[derive(Debug, Clone, Copy, PartialEq, Eq)]
pub enum HeaderError {
    /// The data ends inside the record.
    UnexpectedEof,
    /// The record does not start with its signature; this is what it starts with.
    InvalidSignature(u32),
}

/// Why an archive could not be read.
#[derive(Debug, Clone, Copy, PartialEq, Eq)]
pub enum ZipError {
    /// No end-of-central-directory signature in the last 65557 bytes with
    /// room for the 22-byte record after it.
    EocdNotFound,
    /// The end-of-central-directory record is damaged.
    Eocd(HeaderError),
    /// The end-of-central-directory record places the central directory at
    /// this offset, past the end of the data.
    CentralDirectoryOffset(u32),
    /// Central directory entry number `index` (from 0) is damaged.
    Entry { index: u16, error: HeaderError },
}

/// A ZIP central directory header (APPNOTE 4.3.12).
#[derive(Debug)]
pub struct CentralDirectoryHeader {
    pub signature: u32,
    pub version_made_by: u16,
    pub version_needed: u16,
    pub flags: u16,
    pub compression_method: u16,
    pub last_mod_time: u16,
    pub last_mod_date: u16,
    pub crc32: u32,
    pub compressed_size: u32,
    pub uncompressed_size: u32,
    pub filename_length: u16,
    pub extra_field_length: u16,
    pub comment_length: u16,
    pub disk_number_start: u16,
    pub internal_attrs: u16,
    pub external_attrs: u32,
    pub local_header_offset: u32,
    pub filename: Vec<u8>,
    pub extra_field: Vec<u8>,
    pub comment: Vec<u8>,
}

impl Clone for CentralDirectoryHeader {
    fn clone(&self) -> (r: Self)
        ensures
            r@ == self@,
    {
        let filename = copy_range(self.filename.as_slice(), 0, self.filename.len());
        let extra_field = copy_range(self.extra_field.as_slice(), 0, self.extra_field.len());
        let comment = copy_range(self.comment.as_slice(), 0, self.comment.len());
        assert(filename@ =~= self.filename@);
        assert(extra_field@ =~= self.extra_field@);
        assert(comment@ =~= self.comment@);
        CentralDirectoryHeader {
            signature: self.signature,
            version_made_by: self.version_made_by,
            version_needed: self.version_needed,
            flags: self.flags,
            compression_method: self.compression_method,
            last_mod_time: self.last_mod_time,
            last_mod_date: self.last_mod_date,
            crc32: self.crc32,
            compressed_size: self.compressed_size,
            uncompressed_size: self.uncompressed_size,
            filename_length: self.filename_length,
            extra_field_length: self.extra_field_length,
            comment_length: self.comment_length,
            disk_number_start: self.disk_number_start,
            internal_attrs: self.internal_attrs,
            external_attrs: self.external_attrs,
            local_header_offset: self.local_header_offset,
            filename,
            extra_field,
            comment,
        }
    }
}

/// The mathematical value of a central directory header.
pub struct CdhModel {
    pub signature: u32,
    pub version_made_by: u16,
    pub version_needed: u16,
    pub flags: u16,
    pub compression_method: u16,
    pub last_mod_time: u16,
    pub last_mod_date: u16,
    pub crc32: u32,
    pub compressed_size: u32,
    pub uncompressed_size: u32,
    pub filename_length: u16,
    pub extra_field_length: u16,
    pub comment_length: u16,
    pub disk_number_start: u16,
    pub internal_attrs: u16,
    pub external_attrs: u32,
    pub local_header_offset: u32,
    pub filename: Seq<u8>,
    pub extra_field: Seq<u8>,
    pub comment: Seq<u8>,
}

impl View for CentralDirectoryHeader {
    type V = CdhModel;

    open spec fn view(&self) -> CdhModel {
        CdhModel {
            signature: self.signature,
            version_made_by: self.version_made_by,
            version_needed: self.version_needed,
            flags: self.flags,
            compression_method: self.compression_method,
            last_mod_time: self.last_mod_time,
            last_mod_date: self.last_mod_date,
            crc32: self.crc32,
            compressed_size: self.compressed_size,
            uncompressed_size: self.uncompressed_size,
            filename_length: self.filename_length,
            extra_field_length: self.extra_field_length,
            comment_length: self.comment_length,
            disk_number_start: self.disk_number_start,
            internal_attrs: self.internal_attrs,
            external_attrs: self.external_attrs,
            local_header_offset: self.local_header_offset,
            filename: self.filename@,
            extra_field: self.extra_field@,
            comment: self.comment@,
        }
    }
}

/// The file-name length field of the header at `p`.
pub open spec fn cdh_filename_len(s: Seq<u8>, p: int) -> int {
    le_u16(s, p + 28)
}

/// The extra-field length field of the header at `p`.
pub open spec fn cdh_extra_len(s: Seq<u8>, p: int) -> int {
    le_u16(s, p + 30)
}

/// The comment length field of the header at `p`.
pub open spec fn cdh_comment_len(s: Seq<u8>, p: int) -> int {
    le_u16(s, p + 32)
}

/// Where the header at `p` ends: its fixed part and its three variable fields.
pub open spec fn cdh_end(s: Seq<u8>, p: int) -> int {
    p + 46 + cdh_filename_len(s, p) + cdh_extra_len(s, p) + cdh_comment_len(s, p)
}

/// The header whose bytes start at `p`, field by field.
#[verifier::opaque]
pub open spec fn cdh_model_at(s: Seq<u8>, p: int) -> CdhModel {
    let f = p + 46;
    let e = f + cdh_filename_len(s, p);
    let c = e + cdh_extra_len(s, p);
    CdhModel {
        signature: le_u32(s, p) as u32,
        version_made_by: le_u16(s, p + 4) as u16,
        version_needed: le_u16(s, p + 6) as u16,
        flags: le_u16(s, p + 8) as u16,
        compression_method: le_u16(s, p + 10) as u16,
        last_mod_time: le_u16(s, p + 12) as u16,
        last_mod_date: le_u16(s, p + 14) as u16,
        crc32: le_u32(s, p + 16) as u32,
        compressed_size: le_u32(s, p + 20) as u32,
        uncompressed_size: le_u32(s, p + 24) as u32,
        filename_length: le_u16(s, p + 28) as u16,
        extra_field_length: le_u16(s, p + 30) as u16,
        comment_length: le_u16(s, p + 32) as u16,
        disk_number_start: le_u16(s, p + 34) as u16,
        internal_attrs: le_u16(s, p + 36) as u16,
        external_attrs: le_u32(s, p + 38) as u32,
        local_header_offset: le_u32(s, p + 42) as u32,
        filename: s.subrange(f, e),
        extra_field: s.subrange(e, c),
        comment: s.subrange(c, cdh_end(s, p)),
    }
}

/// Reading a central directory header from `s` at `p`: the header and the
/// position after it, or why it cannot be read.
pub open spec fn spec_parse_cdh(s: Seq<u8>, p: int) -> Result<(CdhModel, int), HeaderError> {
    if p + 4 > s.len() {
        Err(HeaderError::UnexpectedEof)
    } else if le_u32(s, p) != CentralDirectoryHeader::SIGNATURE {
        Err(HeaderError::InvalidSignature(le_u32(s, p) as u32))
    } else if p + 46 > s.len() || cdh_end(s, p) > s.len() {
        Err(HeaderError::UnexpectedEof)
    } else {
        Ok((cdh_model_at(s, p), cdh_end(s, p)))
    }
}

/// The 46 bytes of the fixed part of a central directory header.
#[verifier::opaque]
pub open spec fn cdh_fixed_bytes(m: CdhModel) -> Seq<u8> {
    (u32_le_bytes(m.signature) + u16_le_bytes(m.version_made_by) + u16_le_bytes(m.version_needed)
        + u16_le_bytes(m.flags) + u16_le_bytes(m.compression_method)) + (u16_le_bytes(
        m.last_mod_time,
    ) + u16_le_bytes(m.last_mod_date) + u32_le_bytes(m.crc32) + u32_le_bytes(m.compressed_size)
        + u32_le_bytes(m.uncompressed_size)) + (u16_le_bytes(m.filename_length) + u16_le_bytes(
        m.extra_field_length,
    ) + u16_le_bytes(m.comment_length) + u16_le_bytes(m.disk_number_start) + u16_le_bytes(
        m.internal_attrs,
    ) + u32_le_bytes(m.external_attrs) + u32_le_bytes(m.local_header_offset))
}

/// The bytes of a central directory header, in file order.
pub open spec fn cdh_bytes(m: CdhModel) -> Seq<u8> {
    cdh_fixed_bytes(m) + m.filename + m.extra_field + m.comment
}

/// A header that reads back as itself: it carries the signature, and each
/// length field matches the field it measures.
pub open spec fn cdh_well_formed(m: CdhModel) -> bool {
    &&& m.signature == CentralDirectoryHeader::SIGNATURE
    &&& m.filename_length == m.filename.len()
    &&& m.extra_field_length == m.extra_field.len()
    &&& m.comment_length == m.comment.len()
}

proof fn lemma_cdh_fixed_fields(m: CdhModel, f: Seq<u8>)
    requires
        f == cdh_fixed_bytes(m),
    ensures
        f.len() == 46,
        f.subrange(0, 4) == u32_le_bytes(m.signature),
        f.subrange(4, 6) == u16_le_bytes(m.version_made_by),
        f.subrange(6, 8) == u16_le_bytes(m.version_needed),
        f.subrange(8, 10) == u16_le_bytes(m.flags),
        f.subrange(10, 12) == u16_le_bytes(m.compression_method),
        f.subrange(12, 14) == u16_le_bytes(m.last_mod_time),
        f.subrange(14, 16) == u16_le_bytes(m.last_mod_date),
        f.subrange(16, 20) == u32_le_bytes(m.crc32),
        f.subrange(20, 24) == u32_le_bytes(m.compressed_size),
        f.subrange(24, 28) == u32_le_bytes(m.uncompressed_size),
        f.subrange(28, 30) == u16_le_bytes(m.filename_length),
        f.subrange(30, 32) == u16_le_bytes(m.extra_field_length),
        f.subrange(32, 34) == u16_le_bytes(m.comment_length),
        f.subrange(34, 36) == u16_le_bytes(m.disk_number_start),
        f.subrange(36, 38) == u16_le_bytes(m.internal_attrs),
        f.subrange(38, 42) == u32_le_bytes(m.external_attrs),
        f.subrange(42, 46) == u32_le_bytes(m.local_header_offset),
{
    reveal(cdh_fixed_bytes);
    assert(f.subrange(0, 4) =~= u32_le_bytes(m.signature));
    assert(f.subrange(4, 6) =~= u16_le_bytes(m.version_made_by));
    assert(f.subrange(6, 8) =~= u16_le_bytes(m.version_needed));
    assert(f.subrange(8, 10) =~= u16_le_bytes(m.flags));
    assert(f.subrange(10, 12) =~= u16_le_bytes(m.compression_method));
    assert(f.subrange(12, 14) =~= u16_le_bytes(m.last_mod_time));
    assert(f.subrange(14, 16) =~= u16_le_bytes(m.last_mod_date));
    assert(f.subrange(16, 20) =~= u32_le_bytes(m.crc32));
    assert(f.subrange(20, 24) =~= u32_le_bytes(m.compressed_size));
    assert(f.subrange(24, 28) =~= u32_le_bytes(m.uncompressed_size));
    assert(f.subrange(28, 30) =~= u16_le_bytes(m.filename_length));
    assert(f.subrange(30, 32) =~= u16_le_bytes(m.extra_field_length));
    assert(f.subrange(32, 34) =~= u16_le_bytes(m.comment_length));
    assert(f.subrange(34, 36) =~= u16_le_bytes(m.disk_number_start));
    assert(f.subrange(36, 38) =~= u16_le_bytes(m.internal_attrs));
    assert(f.subrange(38, 42) =~= u32_le_bytes(m.external_attrs));
    assert(f.subrange(42, 46) =~= u32_le_bytes(m.local_header_offset));
}

proof fn lemma_cdh_read_fields(s: Seq<u8>, p: int, m: CdhModel)
    requires
        0 <= p,
        p + 46 <= s.len(),
        s.subrange(p, p + 46) == cdh_fixed_bytes(m),
    ensures
        le_u32(s, p + 0) == m.signature,
        le_u16(s, p + 4) == m.version_made_by,
        le_u16(s, p + 6) == m.version_needed,
        le_u16(s, p + 8) == m.flags,
        le_u16(s, p + 10) == m.compression_method,
        le_u16(s, p + 12) == m.last_mod_time,
        le_u16(s, p + 14) == m.last_mod_date,
        le_u32(s, p + 16) == m.crc32,
        le_u32(s, p + 20) == m.compressed_size,
        le_u32(s, p + 24) == m.uncompressed_size,
        le_u16(s, p + 28) == m.filename_length,
        le_u16(s, p + 30) == m.extra_field_length,
        le_u16(s, p + 32) == m.comment_length,
        le_u16(s, p + 34) == m.disk_number_start,
        le_u16(s, p + 36) == m.internal_attrs,
        le_u32(s, p + 38) == m.external_attrs,
        le_u32(s, p + 42) == m.local_header_offset,
{
    let f = cdh_fixed_bytes(m);
    lemma_cdh_fixed_fields(m, f);
    assert(s.subrange(p + 0, p + 4) =~= f.subrange(0, 4));
    lemma_le_u32_at(s, p + 0, m.signature);
    assert(s.subrange(p + 4, p + 6) =~= f.subrange(4, 6));
    lemma_le_u16_at(s, p + 4, m.version_made_by);
    assert(s.subrange(p + 6, p + 8) =~= f.subrange(6, 8));
    lemma_le_u16_at(s, p + 6, m.version_needed);
    assert(s.subrange(p + 8, p + 10) =~= f.subrange(8, 10));
    lemma_le_u16_at(s, p + 8, m.flags);
    assert(s.subrange(p + 10, p + 12) =~= f.subrange(10, 12));
    lemma_le_u16_at(s, p + 10, m.compression_method);
    assert(s.subrange(p + 12, p + 14) =~= f.subrange(12, 14));
    lemma_le_u16_at(s, p + 12, m.last_mod_time);
    assert(s.subrange(p + 14, p + 16) =~= f.subrange(14, 16));
    lemma_le_u16_at(s, p + 14, m.last_mod_date);
    assert(s.subrange(p + 16, p + 20) =~= f.subrange(16, 20));
    lemma_le_u32_at(s, p + 16, m.crc32);
    assert(s.subrange(p + 20, p + 24) =~= f.subrange(20, 24));
    lemma_le_u32_at(s, p + 20, m.compressed_size);
    assert(s.subrange(p + 24, p + 28) =~= f.subrange(24, 28));
    lemma_le_u32_at(s, p + 24, m.uncompressed_size);
    assert(s.subrange(p + 28, p + 30) =~= f.subrange(28, 30));
    lemma_le_u16_at(s, p + 28, m.filename_length);
    assert(s.subrange(p + 30, p + 32) =~= f.subrange(30, 32));
    lemma_le_u16_at(s, p + 30, m.extra_field_length);
    assert(s.subrange(p + 32, p + 34) =~= f.subrange(32, 34));
    lemma_le_u16_at(s, p + 32, m.comment_length);
    assert(s.subrange(p + 34, p + 36) =~= f.subrange(34, 36));
    lemma_le_u16_at(s, p + 34, m.disk_number_start);
    assert(s.subrange(p + 36, p + 38) =~= f.subrange(36, 38));
    lemma_le_u16_at(s, p + 36, m.internal_attrs);
    assert(s.subrange(p + 38, p + 42) =~= f.subrange(38, 42));
    lemma_le_u32_at(s, p + 38, m.external_attrs);
    assert(s.subrange(p + 42, p + 46) =~= f.subrange(42, 46));
    lemma_le_u32_at(s, p + 42, m.local_header_offset);
}

proof fn lemma_fixed_part_eq(a: Seq<u8>, b: Seq<u8>)
    requires
        a.len() == 46,
        b.len() == 46,
        a.subrange(0, 4) == b.subrange(0, 4),
        a.subrange(4, 6) == b.subrange(4, 6),
        a.subrange(6, 8) == b.subrange(6, 8),
        a.subrange(8, 10) == b.subrange(8, 10),
        a.subrange(10, 12) == b.subrange(10, 12),
        a.subrange(12, 14) == b.subrange(12, 14),
        a.subrange(14, 16) == b.subrange(14, 16),
        a.subrange(16, 20) == b.subrange(16, 20),
        a.subrange(20, 24) == b.subrange(20, 24),
        a.subrange(24, 28) == b.subrange(24, 28),
        a.subrange(28, 30) == b.subrange(28, 30),
        a.subrange(30, 32) == b.subrange(30, 32),
        a.subrange(32, 34) == b.subrange(32, 34),
        a.subrange(34, 36) == b.subrange(34, 36),
        a.subrange(36, 38) == b.subrange(36, 38),
        a.subrange(38, 42) == b.subrange(38, 42),
        a.subrange(42, 46) == b.subrange(42, 46),
    ensures
        a == b,
{
    assert forall|k: int| 0 <= k < 46 implies a[k] == b[k] by {
        if k < 4 {
            assert(a.subrange(0, 4)[k - 0] == a[k]);
            assert(b.subrange(0, 4)[k - 0] == b[k]);
        } else if k < 6 {
            assert(a.subrange(4, 6)[k - 4] == a[k]);
            assert(b.subrange(4, 6)[k - 4] == b[k]);
        } else if k < 8 {
            assert(a.subrange(6, 8)[k - 6] == a[k]);
            assert(b.subrange(6, 8)[k - 6] == b[k]);
        } else if k < 10 {
            assert(a.subrange(8, 10)[k - 8] == a[k]);
            assert(b.subrange(8, 10)[k - 8] == b[k]);
        } else if k < 12 {
            assert(a.subrange(10, 12)[k - 10] == a[k]);
            assert(b.subrange(10, 12)[k - 10] == b[k]);
        } else if k < 14 {
            assert(a.subrange(12, 14)[k - 12] == a[k]);
            assert(b.subrange(12, 14)[k - 12] == b[k]);
        } else if k < 16 {
            assert(a.subrange(14, 16)[k - 14] == a[k]);
            assert(b.subrange(14, 16)[k - 14] == b[k]);
        } else if k < 20 {
            assert(a.subrange(16, 20)[k - 16] == a[k]);
            assert(b.subrange(16, 20)[k - 16] == b[k]);
        } else if k < 24 {
            assert(a.subrange(20, 24)[k - 20] == a[k]);
            assert(b.subrange(20, 24)[k - 20] == b[k]);
        } else if k < 28 {
            assert(a.subrange(24, 28)[k - 24] == a[k]);
            assert(b.subrange(24, 28)[k - 24] == b[k]);
        } else if k < 30 {
            assert(a.subrange(28, 30)[k - 28] == a[k]);
            assert(b.subrange(28, 30)[k - 28] == b[k]);
        } else if k < 32 {
            assert(a.subrange(30, 32)[k - 30] == a[k]);
            assert(b.subrange(30, 32)[k - 30] == b[k]);
        } else if k < 34 {
            assert(a.subrange(32, 34)[k - 32] == a[k]);
            assert(b.subrange(32, 34)[k - 32] == b[k]);
        } else if k < 36 {
            assert(a.subrange(34, 36)[k - 34] == a[k]);
            assert(b.subrange(34, 36)[k - 34] == b[k]);
        } else if k < 38 {
            assert(a.subrange(36, 38)[k - 36] == a[k]);
            assert(b.subrange(36, 38)[k - 36] == b[k]);
        } else if k < 42 {
            assert(a.subrange(38, 42)[k - 38] == a[k]);
            assert(b.subrange(38, 42)[k - 38] == b[k]);
        } else {
            assert(a.subrange(42, 46)[k - 42] == a[k]);
            assert(b.subrange(42, 46)[k - 42] == b[k]);
        }
    }
    assert(a =~= b);
}

/// Reading back a well-formed header, wherever it stands, gives the header
/// and the position just after its bytes.
#[verifier::rlimit(50)]
#[verifier::spinoff_prover]
pub proof fn lemma_cdh_parse_serialize(pre: Seq<u8>, m: CdhModel, post: Seq<u8>)
    requires
        cdh_well_formed(m),
    ensures
        spec_parse_cdh(pre + cdh_bytes(m) + post, pre.len() as int) == Ok::<
            (CdhModel, int),
            HeaderError,
        >((m, (pre.len() + cdh_bytes(m).len()) as int)),
{
    let h = cdh_bytes(m);
    let s = pre + h + post;
    let p = pre.len() as int;
    let f = cdh_fixed_bytes(m);
    lemma_cdh_fixed_fields(m, f);
    assert(s.subrange(p, p + 46) =~= f);
    lemma_cdh_read_fields(s, p, m);
    let fs = p + 46;
    let e = fs + m.filename.len();
    let c = e + m.extra_field.len();
    assert(s.subrange(fs, e) =~= m.filename);
    assert(s.subrange(e, c) =~= m.extra_field);
    assert(s.subrange(c, c + m.comment.len()) =~= m.comment);
    reveal(cdh_model_at);
    assert(cdh_model_at(s, p) == m);
}

/// The header read from `s` at `p` is well formed, and writing it out gives
/// back exactly the bytes it was read from.
#[verifier::rlimit(50)]
#[verifier::spinoff_prover]
pub proof fn lemma_cdh_serialize_parse(s: Seq<u8>, p: int)
    requires
        0 <= p,
        spec_parse_cdh(s, p) is Ok,
    ensures
        cdh_well_formed(spec_parse_cdh(s, p)->Ok_0.0),
        cdh_bytes(spec_parse_cdh(s, p)->Ok_0.0) =~= s.subrange(p, spec_parse_cdh(s, p)->Ok_0.1),
{
    reveal(cdh_model_at);
    let m = cdh_model_at(s, p);
    lemma_le_u32_bytes(s, p + 0);
    lemma_le_u16_bytes(s, p + 4);
    lemma_le_u16_bytes(s, p + 6);
    lemma_le_u16_bytes(s, p + 8);
    lemma_le_u16_bytes(s, p + 10);
    lemma_le_u16_bytes(s, p + 12);
    lemma_le_u16_bytes(s, p + 14);
    lemma_le_u32_bytes(s, p + 16);
    lemma_le_u32_bytes(s, p + 20);
    lemma_le_u32_bytes(s, p + 24);
    lemma_le_u16_bytes(s, p + 28);
    lemma_le_u16_bytes(s, p + 30);
    lemma_le_u16_bytes(s, p + 32);
    lemma_le_u16_bytes(s, p + 34);
    lemma_le_u16_bytes(s, p + 36);
    lemma_le_u32_bytes(s, p + 38);
    lemma_le_u32_bytes(s, p + 42);
    let f = cdh_fixed_bytes(m);
    lemma_cdh_fixed_fields(m, f);
    assert(s.subrange(p, p + 46).subrange(0, 4) =~= s.subrange(p + 0, p + 4));
    assert(s.subrange(p, p + 46).subrange(4, 6) =~= s.subrange(p + 4, p + 6));
    assert(s.subrange(p, p + 46).subrange(6, 8) =~= s.subrange(p + 6, p + 8));
    assert(s.subrange(p, p + 46).subrange(8, 10) =~= s.subrange(p + 8, p + 10));
    assert(s.subrange(p, p + 46).subrange(10, 12) =~= s.subrange(p + 10, p + 12));
    assert(s.subrange(p, p + 46).subrange(12, 14) =~= s.subrange(p + 12, p + 14));
    assert(s.subrange(p, p + 46).subrange(14, 16) =~= s.subrange(p + 14, p + 16));
    assert(s.subrange(p, p + 46).subrange(16, 20) =~= s.subrange(p + 16, p + 20));
    assert(s.subrange(p, p + 46).subrange(20, 24) =~= s.subrange(p + 20, p + 24));
    assert(s.subrange(p, p + 46).subrange(24, 28) =~= s.subrange(p + 24, p + 28));
    assert(s.subrange(p, p + 46).subrange(28, 30) =~= s.subrange(p + 28, p + 30));
    assert(s.subrange(p, p + 46).subrange(30, 32) =~= s.subrange(p + 30, p + 32));
    assert(s.subrange(p, p + 46).subrange(32, 34) =~= s.subrange(p + 32, p + 34));
    assert(s.subrange(p, p + 46).subrange(34, 36) =~= s.subrange(p + 34, p + 36));
    assert(s.subrange(p, p + 46).subrange(36, 38) =~= s.subrange(p + 36, p + 38));
    assert(s.subrange(p, p + 46).subrange(38, 42) =~= s.subrange(p + 38, p + 42));
    assert(s.subrange(p, p + 46).subrange(42, 46) =~= s.subrange(p + 42, p + 46));
    lemma_fixed_part_eq(f, s.subrange(p, p + 46));
    let e = cdh_end(s, p);
    assert(cdh_bytes(m) =~= s.subrange(p, e));
}

/// What `String::from_utf8_lossy` makes of `bytes`: the text they encode,
/// with each invalid sequence replaced by U+FFFD.
pub uninterp spec fn utf8_lossy(bytes: Seq<u8>) -> Seq<char>;

/// `String::from_utf8_lossy` (std), made an owned `String`. Bytes that are
/// valid UTF-8 come out as the text they encode; what replaces invalid
/// sequences is only named.
#[verifier::external_body]
fn decode_utf8_lossy(bytes: &[u8]) -> (r: String)
    ensures
        r@ == utf8_lossy(bytes@),
        valid_utf8(bytes@) ==> r@ == decode_utf8(bytes@),
{
    String::from_utf8_lossy(bytes).to_string()
}

/// A limit on the ratio of an entry's declared uncompressed size to its
/// compressed size: `numerator / denominator`, which may be negative. A
/// denominator of 0 stands for no limit.
#[derive(Debug, Clone, Copy, PartialEq, Eq)]
pub struct RatioThreshold {
    pub numerator: i64,
    pub denominator: u64,
}

/// Whether `uncompressed / compressed` is above the threshold. An entry that
/// claims content but has no compressed bytes has an infinite ratio; one with
/// neither has ratio 0, above only a negative threshold.
pub open spec fn spec_exceeds_ratio(compressed: u32, uncompressed: u32, t: RatioThreshold) -> bool {
    if t.denominator == 0 {
        false
    } else if compressed == 0 {
        uncompressed > 0 || t.numerator < 0
    } else {
        uncompressed * t.denominator > t.numerator * compressed
    }
}

impl CentralDirectoryHeader {
    pub const SIGNATURE: u32 = 0x02014b50;

    pub const FIXED_SIZE: usize = 46;

    /// Reads the header that starts at `pos` in `data`; on success also gives
    /// the position just after it.
    pub fn parse(data: &[u8], pos: usize) -> (r: Result<(Self, usize), HeaderError>)
        ensures
            match r {
                Ok((h, end)) => spec_parse_cdh(data@, pos as int) == Ok::<
                    (CdhModel, int),
                    HeaderError,
                >((h@, end as int)),
                Err(e) => spec_parse_cdh(data@, pos as int) == Err::<(CdhModel, int), HeaderError>(
                    e,
                ),
            },
    {
        let len = data.len();
        if pos > len || len - pos < 4 {
            return Err(HeaderError::UnexpectedEof);
        }
        let signature = read_u32_le(data, pos);
        if signature != Self::SIGNATURE {
            return Err(HeaderError::InvalidSignature(signature));
        }
        if len - pos < 46 {
            return Err(HeaderError::UnexpectedEof);
        }
        let version_made_by = read_u16_le(data, pos + 4);
        let version_needed = read_u16_le(data, pos + 6);
        let flags = read_u16_le(data, pos + 8);
        let compression_method = read_u16_le(data, pos + 10);
        let last_mod_time = read_u16_le(data, pos + 12);
        let last_mod_date = read_u16_le(data, pos + 14);
        let crc32 = read_u32_le(data, pos + 16);
        let compressed_size = read_u32_le(data, pos + 20);
        let uncompressed_size = read_u32_le(data, pos + 24);
        let filename_length = read_u16_le(data, pos + 28);
        let extra_field_length = read_u16_le(data, pos + 30);
        let comment_length = read_u16_le(data, pos + 32);
        let disk_number_start = read_u16_le(data, pos + 34);
        let internal_attrs = read_u16_le(data, pos + 36);
        let external_attrs = read_u32_le(data, pos + 38);
        let local_header_offset = read_u32_le(data, pos + 42);
        let f = pos + 46;
        let rest = len - f;
        let fl = filename_length as usize;
        let el = extra_field_length as usize;
        let cl = comment_length as usize;
        if rest < fl || rest - fl < el || rest - fl - el < cl {
            return Err(HeaderError::UnexpectedEof);
        }
        let e = f + fl;
        let c = e + el;
        let end = c + cl;
        let filename = copy_range(data, f, e);
        let extra_field = copy_range(data, e, c);
        let comment = copy_range(data, c, end);
        let h = CentralDirectoryHeader {
            signature,
            version_made_by,
            version_needed,
            flags,
            compression_method,
            last_mod_time,
            last_mod_date,
            crc32,
            compressed_size,
            uncompressed_size,
            filename_length,
            extra_field_length,
            comment_length,
            disk_number_start,
            internal_attrs,
            external_attrs,
            local_header_offset,
            filename,
            extra_field,
            comment,
        };
        reveal(cdh_model_at);
        assert(h@ == cdh_model_at(data@, pos as int));
        Ok((h, end))
    }

    /// The file name, decoded as UTF-8 with invalid sequences replaced.
    pub fn filename_str(&self) -> (r: String)
        ensures
            r@ == utf8_lossy(self.filename@),
            valid_utf8(self.filename@) ==> r@ == decode_utf8(self.filename@),
    {
        decode_utf8_lossy(self.filename.as_slice())
    }

    /// Whether the entry's declared uncompressed size is more than
    /// `threshold` times its compressed size (the zip-bomb test).
    pub fn exceeds_ratio(&self, threshold: RatioThreshold) -> (r: bool)
        ensures
            r == spec_exceeds_ratio(self.compressed_size, self.uncompressed_size, threshold),
    {
        if threshold.denominator == 0 {
            false
        } else if self.compressed_size == 0 {
            self.uncompressed_size > 0 || threshold.numerator < 0
        } else {
            let u = self.uncompressed_size as i128;
            let c = self.compressed_size as i128;
            let n = threshold.numerator as i128;
            let d = threshold.denominator as i128;
            assert(0 <= u * d <= 0xffff_ffffi128 * 0xffff_ffff_ffff_ffffi128) by (nonlinear_arith)
                requires
                    0 <= u <= 0xffff_ffff,
                    0 <= d <= 0xffff_ffff_ffff_ffff,
            ;
            assert(-0x8000_0000_0000_0000i128 * 0xffff_ffffi128 <= n * c <= 0x7fff_ffff_ffff_ffffi128
                * 0xffff_ffffi128) by (nonlinear_arith)
                requires
                    0 <= c <= 0xffff_ffff,
                    -0x8000_0000_0000_0000 <= n <= 0x7fff_ffff_ffff_ffff,
            ;
            u * d > n * c
        }
    }

    /// The bytes of this header, in file order.
    pub fn serialize(&self) -> (r: Vec<u8>)
        ensures
            r@ == cdh_bytes(self@),
    {
        let mut buf: Vec<u8> = Vec::new();
        push_u32_le(&mut buf, self.signature);
        push_u16_le(&mut buf, self.version_made_by);
        push_u16_le(&mut buf, self.version_needed);
        push_u16_le(&mut buf, self.flags);
        push_u16_le(&mut buf, self.compression_method);
        push_u16_le(&mut buf, self.last_mod_time);
        push_u16_le(&mut buf, self.last_mod_date);
        push_u32_le(&mut buf, self.crc32);
        push_u32_le(&mut buf, self.compressed_size);
        push_u32_le(&mut buf, self.uncompressed_size);
        push_u16_le(&mut buf, self.filename_length);
        push_u16_le(&mut buf, self.extra_field_length);
        push_u16_le(&mut buf, self.comment_length);
        push_u16_le(&mut buf, self.disk_number_start);
        push_u16_le(&mut buf, self.internal_attrs);
        push_u32_le(&mut buf, self.external_attrs);
        push_u32_le(&mut buf, self.local_header_offset);
        push_all(&mut buf, self.filename.as_slice());
        push_all(&mut buf, self.extra_field.as_slice());
        push_all(&mut buf, self.comment.as_slice());
        reveal(cdh_fixed_bytes);
        assert(buf@ =~= cdh_bytes(self@));
        buf
    }
}

/// A ZIP end-of-central-directory record (APPNOTE 4.3.16).
#[derive(Debug, Clone)]
pub struct EndOfCentralDirectory {
    pub signature: u32,
    pub disk_number: u16,
    pub cd_start_disk: u16,
    pub cd_records_on_disk: u16,
    pub cd_records_total: u16,
    pub cd_size: u32,
    pub cd_offset: u32,
    pub comment_length: u16,
    pub comment: Vec<u8>,
}

/// The mathematical value of an end-of-central-directory record.
pub struct EocdModel {
    pub signature: u32,
    pub disk_number: u16,
    pub cd_start_disk: u16,
    pub cd_records_on_disk: u16,
    pub cd_records_total: u16,
    pub cd_size: u32,
    pub cd_offset: u32,
    pub comment_length: u16,
    pub comment: Seq<u8>,
}

impl View for EndOfCentralDirectory {
    type V = EocdModel;

    open spec fn view(&self) -> EocdModel {
        EocdModel {
            signature: self.signature,
            disk_number: self.disk_number,
            cd_start_disk: self.cd_start_disk,
            cd_records_on_disk: self.cd_records_on_disk,
            cd_records_total: self.cd_records_total,
            cd_size: self.cd_size,
            cd_offset: self.cd_offset,
            comment_length: self.comment_length,
            comment: self.comment@,
        }
    }
}

/// The record whose bytes start at `p`, field by field.
pub open spec fn eocd_model_at(s: Seq<u8>, p: int) -> EocdModel {
    EocdModel {
        signature: le_u32(s, p + 0) as u32,
        disk_number: le_u16(s, p + 4) as u16,
        cd_start_disk: le_u16(s, p + 6) as u16,
        cd_records_on_disk: le_u16(s, p + 8) as u16,
        cd_records_total: le_u16(s, p + 10) as u16,
        cd_size: le_u32(s, p + 12) as u32,
        cd_offset: le_u32(s, p + 16) as u32,
        comment_length: le_u16(s, p + 20) as u16,
        comment: s.subrange(p + 22, p + 22 + le_u16(s, p + 20)),
    }
}

/// Reading an end-of-central-directory record from `s` at `p`.
pub open spec fn spec_parse_eocd(s: Seq<u8>, p: int) -> Result<(EocdModel, int), HeaderError> {
    if p + 4 > s.len() {
        Err(HeaderError::UnexpectedEof)
    } else if le_u32(s, p) != EndOfCentralDirectory::SIGNATURE {
        Err(HeaderError::InvalidSignature(le_u32(s, p) as u32))
    } else if p + 22 > s.len() || p + 22 + le_u16(s, p + 20) > s.len() {
        Err(HeaderError::UnexpectedEof)
    } else {
        Ok((eocd_model_at(s, p), p + 22 + le_u16(s, p + 20)))
    }
}

/// The 22 bytes of the fixed part of an end-of-central-directory record.
#[verifier::opaque]
pub open spec fn eocd_fixed_bytes(m: EocdModel) -> Seq<u8> {
    u32_le_bytes(m.signature) + u16_le_bytes(m.disk_number) + u16_le_bytes(m.cd_start_disk) + u16_le_bytes(m.cd_records_on_disk) + u16_le_bytes(m.cd_records_total) + u32_le_bytes(m.cd_size) + u32_le_bytes(m.cd_offset) + u16_le_bytes(m.comment_length)
}

/// The bytes of an end-of-central-directory record, in file order.
pub open spec fn eocd_bytes(m: EocdModel) -> Seq<u8> {
    eocd_fixed_bytes(m) + m.comment
}

/// A record that reads back as itself.
pub open spec fn eocd_well_formed(m: EocdModel) -> bool {
    &&& m.signature == EndOfCentralDirectory::SIGNATURE
    &&& m.comment_length == m.comment.len()
}

/// Whether the end-of-central-directory signature `50 4b 05 06` starts at `i`.
pub open spec fn eocd_sig_at(s: Seq<u8>, i: int) -> bool {
    &&& 0 <= i
    &&& i + 4 <= s.len()
    &&& s[i] == 0x50u8
    &&& s[i + 1] == 0x4bu8
    &&& s[i + 2] == 0x05u8
    &&& s[i + 3] == 0x06u8
}

/// The lowest position searched: the record is at most 22 + 65535 bytes
/// from the end.
pub open spec fn eocd_search_low(s: Seq<u8>) -> int {
    if s.len() <= 65557 {
        0
    } else {
        s.len() - 65557
    }
}

/// The highest position searched: 22 bytes before the end, the size of a
/// record without comment.
pub open spec fn eocd_search_high(s: Seq<u8>) -> int {
    s.len() - 22
}

/// The highest position from `i` down to `low` where the signature starts.
pub open spec fn eocd_scan(s: Seq<u8>, low: int, i: int) -> Option<int>
    decreases i - low + 1,
{
    if i < low {
        None
    } else if eocd_sig_at(s, i) {
        Some(i)
    } else {
        eocd_scan(s, low, i - 1)
    }
}

/// Where the end-of-central-directory record is taken to start: the last
/// signature within the searched window; none in data shorter than a record.
pub open spec fn spec_find_eocd(s: Seq<u8>) -> Option<int> {
    if s.len() < 22 {
        None
    } else {
        eocd_scan(s, eocd_search_low(s), eocd_search_high(s))
    }
}

/// The scan finds the highest signature position in the range, and finds
/// nothing exactly when there is none.
pub proof fn lemma_eocd_scan(s: Seq<u8>, low: int, i: int)
    ensures
        eocd_scan(s, low, i) matches Some(p) ==> low <= p <= i && eocd_sig_at(s, p) && forall|
            j: int,
        |
            p < j <= i ==> !eocd_sig_at(s, j),
        eocd_scan(s, low, i) is None ==> forall|j: int| low <= j <= i ==> !eocd_sig_at(s, j),
    decreases i - low + 1,
{
    if i >= low && !eocd_sig_at(s, i) {
        lemma_eocd_scan(s, low, i - 1);
    }
}

proof fn lemma_eocd_fixed_fields(m: EocdModel, f: Seq<u8>)
    requires
        f == eocd_fixed_bytes(m),
    ensures
        f.len() == 22,
        f.subrange(0, 4) == u32_le_bytes(m.signature),
        f.subrange(4, 6) == u16_le_bytes(m.disk_number),
        f.subrange(6, 8) == u16_le_bytes(m.cd_start_disk),
        f.subrange(8, 10) == u16_le_bytes(m.cd_records_on_disk),
        f.subrange(10, 12) == u16_le_bytes(m.cd_records_total),
        f.subrange(12, 16) == u32_le_bytes(m.cd_size),
        f.subrange(16, 20) == u32_le_bytes(m.cd_offset),
        f.subrange(20, 22) == u16_le_bytes(m.comment_length),
{
    reveal(eocd_fixed_bytes);
    assert(f.subrange(0, 4) =~= u32_le_bytes(m.signature));
    assert(f.subrange(4, 6) =~= u16_le_bytes(m.disk_number));
    assert(f.subrange(6, 8) =~= u16_le_bytes(m.cd_start_disk));
    assert(f.subrange(8, 10) =~= u16_le_bytes(m.cd_records_on_disk));
    assert(f.subrange(10, 12) =~= u16_le_bytes(m.cd_records_total));
    assert(f.subrange(12, 16) =~= u32_le_bytes(m.cd_size));
    assert(f.subrange(16, 20) =~= u32_le_bytes(m.cd_offset));
    assert(f.subrange(20, 22) =~= u16_le_bytes(m.comment_length));
}

proof fn lemma_eocd_read_fields(s: Seq<u8>, p: int, m: EocdModel)
    requires
        0 <= p,
        p + 22 <= s.len(),
        s.subrange(p, p + 22) == eocd_fixed_bytes(m),
    ensures
        le_u32(s, p + 0) == m.signature,
        le_u16(s, p + 4) == m.disk_number,
        le_u16(s, p + 6) == m.cd_start_disk,
        le_u16(s, p + 8) == m.cd_records_on_disk,
        le_u16(s, p + 10) == m.cd_records_total,
        le_u32(s, p + 12) == m.cd_size,
        le_u32(s, p + 16) == m.cd_offset,
        le_u16(s, p + 20) == m.comment_length,
{
    let f = eocd_fixed_bytes(m);
    lemma_eocd_fixed_fields(m, f);
    assert(s.subrange(p + 0, p + 4) =~= f.subrange(0, 4));
    lemma_le_u32_at(s, p + 0, m.signature);
    assert(s.subrange(p + 4, p + 6) =~= f.subrange(4, 6));
    lemma_le_u16_at(s, p + 4, m.disk_number);
    assert(s.subrange(p + 6, p + 8) =~= f.subrange(6, 8));
    lemma_le_u16_at(s, p + 6, m.cd_start_disk);
    assert(s.subrange(p + 8, p + 10) =~= f.subrange(8, 10));
    lemma_le_u16_at(s, p + 8, m.cd_records_on_disk);
    assert(s.subrange(p + 10, p + 12) =~= f.subrange(10, 12));
    lemma_le_u16_at(s, p + 10, m.cd_records_total);
    assert(s.subrange(p + 12, p + 16) =~= f.subrange(12, 16));
    lemma_le_u32_at(s, p + 12, m.cd_size);
    assert(s.subrange(p + 16, p + 20) =~= f.subrange(16, 20));
    lemma_le_u32_at(s, p + 16, m.cd_offset);
    assert(s.subrange(p + 20, p + 22) =~= f.subrange(20, 22));
    lemma_le_u16_at(s, p + 20, m.comment_length);
}

proof fn lemma_eocd_fixed_part_eq(a: Seq<u8>, b: Seq<u8>)
    requires
        a.len() == 22,
        b.len() == 22,
        a.subrange(0, 4) == b.subrange(0, 4),
        a.subrange(4, 6) == b.subrange(4, 6),
        a.subrange(6, 8) == b.subrange(6, 8),
        a.subrange(8, 10) == b.subrange(8, 10),
        a.subrange(10, 12) == b.subrange(10, 12),
        a.subrange(12, 16) == b.subrange(12, 16),
        a.subrange(16, 20) == b.subrange(16, 20),
        a.subrange(20, 22) == b.subrange(20, 22),
    ensures
        a == b,
{
    assert forall|k: int| 0 <= k < 22 implies a[k] == b[k] by {
        if k < 4 {
            assert(a.subrange(0, 4)[k - 0] == a[k]);
            assert(b.subrange(0, 4)[k - 0] == b[k]);
        } else if k < 6 {
            assert(a.subrange(4, 6)[k - 4] == a[k]);
            assert(b.subrange(4, 6)[k - 4] == b[k]);
        } else if k < 8 {
            assert(a.subrange(6, 8)[k - 6] == a[k]);
            assert(b.subrange(6, 8)[k - 6] == b[k]);
        } else if k < 10 {
            assert(a.subrange(8, 10)[k - 8] == a[k]);
            assert(b.subrange(8, 10)[k - 8] == b[k]);
        } else if k < 12 {
            assert(a.subrange(10, 12)[k - 10] == a[k]);
            assert(b.subrange(10, 12)[k - 10] == b[k]);
        } else if k < 16 {
            assert(a.subrange(12, 16)[k - 12] == a[k]);
            assert(b.subrange(12, 16)[k - 12] == b[k]);
        } else if k < 20 {
            assert(a.subrange(16, 20)[k - 16] == a[k]);
            assert(b.subrange(16, 20)[k - 16] == b[k]);
        } else {
            assert(a.subrange(20, 22)[k - 20] == a[k]);
            assert(b.subrange(20, 22)[k - 20] == b[k]);
        }
    }
    assert(a =~= b);
}

/// Reading back a well-formed record, wherever it stands, gives the record
/// and the position just after it.
#[verifier::rlimit(50)]
#[verifier::spinoff_prover]
pub proof fn lemma_eocd_parse_serialize(pre: Seq<u8>, m: EocdModel, post: Seq<u8>)
    requires
        eocd_well_formed(m),
    ensures
        spec_parse_eocd(pre + eocd_bytes(m) + post, pre.len() as int) == Ok::<
            (EocdModel, int),
            HeaderError,
        >((m, (pre.len() + eocd_bytes(m).len()) as int)),
{
    let h = eocd_bytes(m);
    let s = pre + h + post;
    let p = pre.len() as int;
    let f = eocd_fixed_bytes(m);
    lemma_eocd_fixed_fields(m, f);
    assert(s.subrange(p, p + 22) =~= f);
    lemma_eocd_read_fields(s, p, m);
    assert(s.subrange(p + 22, p + 22 + m.comment.len()) =~= m.comment);
    assert(eocd_model_at(s, p) == m);
}

/// The record read from `s` at `p` is well formed, and writing it out gives
/// back exactly the bytes it was read from.
#[verifier::rlimit(50)]
#[verifier::spinoff_prover]
pub proof fn lemma_eocd_serialize_parse(s: Seq<u8>, p: int)
    requires
        0 <= p,
        spec_parse_eocd(s, p) is Ok,
    ensures
        eocd_well_formed(spec_parse_eocd(s, p)->Ok_0.0),
        eocd_bytes(spec_parse_eocd(s, p)->Ok_0.0) =~= s.subrange(p, spec_parse_eocd(s, p)->Ok_0.1),
{
    let m = eocd_model_at(s, p);
    lemma_le_u32_bytes(s, p + 0);
    lemma_le_u16_bytes(s, p + 4);
    lemma_le_u16_bytes(s, p + 6);
    lemma_le_u16_bytes(s, p + 8);
    lemma_le_u16_bytes(s, p + 10);
    lemma_le_u32_bytes(s, p + 12);
    lemma_le_u32_bytes(s, p + 16);
    lemma_le_u16_bytes(s, p + 20);
    let f = eocd_fixed_bytes(m);
    lemma_eocd_fixed_fields(m, f);
    assert(s.subrange(p, p + 22).subrange(0, 4) =~= s.subrange(p + 0, p + 4));
    assert(s.subrange(p, p + 22).subrange(4, 6) =~= s.subrange(p + 4, p + 6));
    assert(s.subrange(p, p + 22).subrange(6, 8) =~= s.subrange(p + 6, p + 8));
    assert(s.subrange(p, p + 22).subrange(8, 10) =~= s.subrange(p + 8, p + 10));
    assert(s.subrange(p, p + 22).subrange(10, 12) =~= s.subrange(p + 10, p + 12));
    assert(s.subrange(p, p + 22).subrange(12, 16) =~= s.subrange(p + 12, p + 16));
    assert(s.subrange(p, p + 22).subrange(16, 20) =~= s.subrange(p + 16, p + 20));
    assert(s.subrange(p, p + 22).subrange(20, 22) =~= s.subrange(p + 20, p + 22));
    lemma_eocd_fixed_part_eq(f, s.subrange(p, p + 22));
    assert(eocd_bytes(m) =~= s.subrange(p, p + 22 + le_u16(s, p + 20)));
}

impl EndOfCentralDirectory {
    pub const SIGNATURE: u32 = 0x06054b50;

    pub const FIXED_SIZE: usize = 22;

    /// Finds the end-of-central-directory record: the last place in the
    /// final 65557 bytes, and at least 22 bytes before the end, where its
    /// signature starts. Data shorter than 22 bytes holds no record.
    pub fn find(data: &[u8]) -> (r: Result<usize, ZipError>)
        ensures
            match r {
                Ok(p) => spec_find_eocd(data@) == Some(p as int),
                Err(e) => e == ZipError::EocdNotFound && spec_find_eocd(data@) is None,
            },
    {
        let len = data.len();
        if len < 22 {
            return Err(ZipError::EocdNotFound);
        }
        let search_len = if len < 65557 {
            len
        } else {
            65557
        };
        let search_start = len - search_len;
        let high = len - 22;
        let mut i: usize = high;
        loop
            invariant
                search_start <= i,
                i <= high,
                search_start == eocd_search_low(data@),
                high == eocd_search_high(data@),
                len == data@.len(),
                eocd_scan(data@, search_start as int, i as int) == spec_find_eocd(data@),
            decreases i + 1 - search_start,
        {
            if i + 4 <= len && data[i] == 0x50u8 && data[i + 1] == 0x4bu8 && data[i + 2] == 0x05u8
                && data[i + 3] == 0x06u8 {
                return Ok(i);
            }
            if i == search_start {
                assert(eocd_scan(data@, search_start as int, i - 1) is None);
                return Err(ZipError::EocdNotFound);
            }
            i = i - 1;
        }
    }

    /// Reads the record that starts at `pos` in `data`; on success also gives
    /// the position just after it.
    pub fn parse(data: &[u8], pos: usize) -> (r: Result<(Self, usize), HeaderError>)
        ensures
            match r {
                Ok((h, end)) => spec_parse_eocd(data@, pos as int) == Ok::<
                    (EocdModel, int),
                    HeaderError,
                >((h@, end as int)),
                Err(e) => spec_parse_eocd(data@, pos as int) == Err::<(EocdModel, int), HeaderError>(
                    e,
                ),
            },
    {
        let len = data.len();
        if pos > len || len - pos < 4 {
            return Err(HeaderError::UnexpectedEof);
        }
        let signature = read_u32_le(data, pos);
        if signature != Self::SIGNATURE {
            return Err(HeaderError::InvalidSignature(signature));
        }
        if len - pos < 22 {
            return Err(HeaderError::UnexpectedEof);
        }
        let disk_number = read_u16_le(data, pos + 4);
        let cd_start_disk = read_u16_le(data, pos + 6);
        let cd_records_on_disk = read_u16_le(data, pos + 8);
        let cd_records_total = read_u16_le(data, pos + 10);
        let cd_size = read_u32_le(data, pos + 12);
        let cd_offset = read_u32_le(data, pos + 16);
        let comment_length = read_u16_le(data, pos + 20);
        if len - pos - 22 < comment_length as usize {
            return Err(HeaderError::UnexpectedEof);
        }
        let end = pos + 22 + comment_length as usize;
        let comment = copy_range(data, pos + 22, end);
        let h = EndOfCentralDirectory {
            signature,
            disk_number,
            cd_start_disk,
            cd_records_on_disk,
            cd_records_total,
            cd_size,
            cd_offset,
            comment_length,
            comment,
        };
        assert(h@ == eocd_model_at(data@, pos as int));
        Ok((h, end))
    }

    /// The bytes of this record, in file order.
    pub fn serialize(&self) -> (r: Vec<u8>)
        ensures
            r@ == eocd_bytes(self@),
    {
        let mut buf: Vec<u8> = Vec::new();
        push_u32_le(&mut buf, self.signature);
        push_u16_le(&mut buf, self.disk_number);
        push_u16_le(&mut buf, self.cd_start_disk);
        push_u16_le(&mut buf, self.cd_records_on_disk);
        push_u16_le(&mut buf, self.cd_records_total);
        push_u32_le(&mut buf, self.cd_size);
        push_u32_le(&mut buf, self.cd_offset);
        push_u16_le(&mut buf, self.comment_length);
        push_all(&mut buf, self.comment.as_slice());
        reveal(eocd_fixed_bytes);
        assert(buf@ =~= eocd_bytes(self@));
        buf
    }
}

/// Reading `total - i` central directory headers one after the other from
/// `p`, the first being entry number `i`.
pub open spec fn spec_read_entries(s: Seq<u8>, p: int, i: int, total: int) -> Result<
    Seq<CdhModel>,
    ZipError,
>
    decreases total - i,
{
    if i >= total {
        Ok(Seq::empty())
    } else {
        match spec_parse_cdh(s, p) {
            Err(e) => Err(ZipError::Entry { index: i as u16, error: e }),
            Ok((m, end)) => match spec_read_entries(s, end, i + 1, total) {
                Ok(rest) => Ok(seq![m] + rest),
                Err(e) => Err(e),
            },
        }
    }
}

/// `acc` followed by the entries of `r`, or the error of `r`.
pub open spec fn prepend_entries(acc: Seq<CdhModel>, r: Result<Seq<CdhModel>, ZipError>) -> Result<
    Seq<CdhModel>,
    ZipError,
> {
    match r {
        Ok(v) => Ok(acc + v),
        Err(e) => Err(e),
    }
}

/// The end-of-central-directory record of `s` and the central directory
/// entries it announces, in order.
pub open spec fn spec_read_archive(s: Seq<u8>) -> Result<(EocdModel, Seq<CdhModel>), ZipError> {
    match spec_find_eocd(s) {
        None => Err(ZipError::EocdNotFound),
        Some(p) => match spec_parse_eocd(s, p) {
            Err(e) => Err(ZipError::Eocd(e)),
            Ok((eocd, _)) => if eocd.cd_offset > s.len() {
                Err(ZipError::CentralDirectoryOffset(eocd.cd_offset))
            } else {
                match spec_read_entries(s, eocd.cd_offset as int, 0, eocd.cd_records_total as int) {
                    Ok(es) => Ok((eocd, es)),
                    Err(e) => Err(e),
                }
            },
        },
    }
}

/// Reads the end-of-central-directory record of `data` and the central
/// directory entries it announces.
pub(crate) fn read_archive(data: &[u8]) -> (r: Result<
    (EndOfCentralDirectory, Vec<CentralDirectoryHeader>),
    ZipError,
>)
    ensures
        match r {
            Ok((eocd, es)) => spec_read_archive(data@) == Ok::<
                (EocdModel, Seq<CdhModel>),
                ZipError,
            >((eocd@, es@.map_values(|h: CentralDirectoryHeader| h@))),
            Err(e) => spec_read_archive(data@) == Err::<(EocdModel, Seq<CdhModel>), ZipError>(e),
        },
{
    let eocd_pos = EndOfCentralDirectory::find(data)?;
    let eocd = match EndOfCentralDirectory::parse(data, eocd_pos) {
        Ok((e, _)) => e,
        Err(e) => {
            return Err(ZipError::Eocd(e));
        },
    };
    if eocd.cd_offset as usize > data.len() {
        return Err(ZipError::CentralDirectoryOffset(eocd.cd_offset));
    }
    let total = eocd.cd_records_total;
    let mut pos: usize = eocd.cd_offset as usize;
    let mut entries: Vec<CentralDirectoryHeader> = Vec::new();
    let mut i: u16 = 0;
    assert(entries@.map_values(|h: CentralDirectoryHeader| h@) =~= Seq::<CdhModel>::empty());
    while i < total
        invariant
            i <= total,
            total == eocd@.cd_records_total,
            spec_find_eocd(data@) == Some(eocd_pos as int),
            spec_parse_eocd(data@, eocd_pos as int) is Ok,
            spec_parse_eocd(data@, eocd_pos as int)->Ok_0.0 == eocd@,
            eocd@.cd_offset <= data@.len(),
            spec_read_entries(data@, eocd@.cd_offset as int, 0, total as int) == prepend_entries(
                entries@.map_values(|h: CentralDirectoryHeader| h@),
                spec_read_entries(data@, pos as int, i as int, total as int),
            ),
        decreases total - i,
    {
        let ghost before = entries@.map_values(|h: CentralDirectoryHeader| h@);
        match CentralDirectoryHeader::parse(data, pos) {
            Ok((h, end)) => {
                let ghost hm = h@;
                entries.push(h);
                pos = end;
                i = i + 1;
                assert(entries@.map_values(|h: CentralDirectoryHeader| h@) =~= before.push(hm));
                assert(before + (seq![hm] + spec_read_entries(data@, pos as int, i as int, total as int)->Ok_0)
                    =~= before.push(hm) + spec_read_entries(data@, pos as int, i as int, total as int)->Ok_0);
            },
            Err(e) => {
                return Err(ZipError::Entry { index: i, error: e });
            },
        }
    }
    assert(entries@.map_values(|h: CentralDirectoryHeader| h@) + Seq::<CdhModel>::empty()
        =~= entries@.map_values(|h: CentralDirectoryHeader| h@));
    Ok((eocd, entries))
}

/// Reading entries gives as many as asked for.
pub proof fn lemma_read_entries_len(s: Seq<u8>, p: int, i: int, total: int)
    ensures
        spec_read_entries(s, p, i, total) matches Ok(v) ==> v.len() == if i >= total {
            0
        } else {
            total - i
        },
    decreases total - i,
{
    if i < total {
        match spec_parse_cdh(s, p) {
            Ok((m, end)) => lemma_read_entries_len(s, end, i + 1, total),
            Err(_) => {},
        }
    }
}

/// Every entry read is well formed.
pub proof fn lemma_read_entries_well_formed(s: Seq<u8>, p: int, i: int, total: int)
    requires
        0 <= p,
    ensures
        spec_read_entries(s, p, i, total) matches Ok(v) ==> forall|k: int|
            0 <= k < v.len() ==> cdh_well_formed(#[trigger] v[k]),
    decreases total - i,
{
    if i < total {
        match spec_parse_cdh(s, p) {
            Ok((m, end)) => {
                lemma_cdh_serialize_parse(s, p);
                lemma_read_entries_well_formed(s, end, i + 1, total);
                match spec_read_entries(s, end, i + 1, total) {
                    Ok(rest) => {
                        let v = seq![m] + rest;
                        assert forall|k: int| 0 <= k < v.len() implies cdh_well_formed(
                            #[trigger] v[k],
                        ) by {
                            if k > 0 {
                                assert(v[k] == rest[k - 1]);
                            }
                        }
                    },
                    Err(_) => {},
                }
            },
            Err(_) => {},
        }
    }
}

/// Central directory headers written one after another, followed by
/// anything, read back as themselves.
pub proof fn lemma_read_entries_serialized(
    pre: Seq<u8>,
    hs: Seq<CdhModel>,
    post: Seq<u8>,
    i: int,
)
    requires
        0 <= i <= hs.len(),
        forall|k: int| 0 <= k < hs.len() ==> cdh_well_formed(#[trigger] hs[k]),
    ensures
        spec_read_entries(
            pre + cdh_seq_bytes(hs.take(i)) + cdh_seq_bytes(hs.skip(i)) + post,
            (pre.len() + cdh_seq_bytes(hs.take(i)).len()) as int,
            i,
            hs.len() as int,
        ) == Ok::<Seq<CdhModel>, ZipError>(hs.skip(i)),
    decreases hs.len() - i,
{
    let s = pre + cdh_seq_bytes(hs.take(i)) + cdh_seq_bytes(hs.skip(i)) + post;
    if i < hs.len() {
        lemma_cdh_seq_bytes_split(hs, i);
        let b = cdh_bytes(hs[i]);
        let a = pre + cdh_seq_bytes(hs.take(i));
        let c = cdh_seq_bytes(hs.skip(i + 1)) + post;
        assert(s =~= a + b + c);
        lemma_cdh_parse_serialize(a, hs[i], c);
        lemma_read_entries_serialized(pre, hs, post, i + 1);
        assert(pre + cdh_seq_bytes(hs.take(i + 1)) + cdh_seq_bytes(hs.skip(i + 1)) + post =~= s);
        assert(seq![hs[i]] + hs.skip(i + 1) =~= hs.skip(i));
    } else {
        assert(hs.skip(i) =~= Seq::<CdhModel>::empty());
    }
}

/// The bytes of headers `hs` written one after another.
pub open spec fn cdh_seq_bytes(hs: Seq<CdhModel>) -> Seq<u8>
    decreases hs.len(),
{
    if hs.len() == 0 {
        Seq::empty()
    } else {
        cdh_seq_bytes(hs.drop_last()) + cdh_bytes(hs.last())
    }
}

/// Writing the first `i` headers and then the rest writes all of them.
pub proof fn lemma_cdh_seq_bytes_split(hs: Seq<CdhModel>, i: int)
    requires
        0 <= i < hs.len(),
    ensures
        cdh_seq_bytes(hs.take(i)) + cdh_seq_bytes(hs.skip(i)) == cdh_seq_bytes(hs),
        cdh_seq_bytes(hs.skip(i)) == cdh_bytes(hs[i]) + cdh_seq_bytes(hs.skip(i + 1)),
        cdh_seq_bytes(hs.take(i + 1)) == cdh_seq_bytes(hs.take(i)) + cdh_bytes(hs[i]),
    decreases hs.len(),
{
    lemma_cdh_seq_bytes_cons(hs.skip(i));
    assert(hs.skip(i).drop_first() =~= hs.skip(i + 1));
    assert(hs.take(i + 1).drop_last() =~= hs.take(i));
    lemma_cdh_seq_bytes_append(hs.take(i), hs.skip(i));
    assert(hs.take(i) + hs.skip(i) =~= hs);
}

/// Writing `a` then `b` writes `a + b`.
pub proof fn lemma_cdh_seq_bytes_append(a: Seq<CdhModel>, b: Seq<CdhModel>)
    ensures
        cdh_seq_bytes(a) + cdh_seq_bytes(b) == cdh_seq_bytes(a + b),
    decreases b.len(),
{
    if b.len() == 0 {
        assert(a + b =~= a);
        assert(cdh_seq_bytes(a) + Seq::<u8>::empty() =~= cdh_seq_bytes(a));
    } else {
        lemma_cdh_seq_bytes_append(a, b.drop_last());
        assert((a + b).drop_last() =~= a + b.drop_last());
        assert((a + b).last() == b.last());
        assert(cdh_seq_bytes(a) + (cdh_seq_bytes(b.drop_last()) + cdh_bytes(b.last())) =~= (
        cdh_seq_bytes(a) + cdh_seq_bytes(b.drop_last())) + cdh_bytes(b.last()));
    }
}

/// Writing a non-empty list writes its first header, then the rest.
pub proof fn lemma_cdh_seq_bytes_cons(hs: Seq<CdhModel>)
    requires
        hs.len() > 0,
    ensures
        cdh_seq_bytes(hs) == cdh_bytes(hs[0]) + cdh_seq_bytes(hs.drop_first()),
{
    lemma_cdh_seq_bytes_append(seq![hs[0]], hs.drop_first());
    assert(seq![hs[0]] + hs.drop_first() =~= hs);
    let one = seq![hs[0]];
    assert(one.drop_last() =~= Seq::<CdhModel>::empty());
    assert(cdh_seq_bytes(Seq::<CdhModel>::empty()) == Seq::<u8>::empty());
    assert(cdh_seq_bytes(one) == cdh_seq_bytes(one.drop_last()) + cdh_bytes(one.last()));
    assert(Seq::<u8>::empty() + cdh_bytes(hs[0]) =~= cdh_bytes(hs[0]));
}

/// A well-formed record starts with the end-of-central-directory signature
/// and is 22 bytes plus its comment long.
pub proof fn lemma_eocd_bytes_signature(m: EocdModel)
    requires
        eocd_well_formed(m),
    ensures
        eocd_bytes(m).len() == 22 + m.comment.len(),
        eocd_sig_at(eocd_bytes(m), 0),
{
    let f = eocd_fixed_bytes(m);
    lemma_eocd_fixed_fields(m, f);
    let b = eocd_bytes(m);
    assert(b.subrange(0, 4) =~= f.subrange(0, 4));
    assert(b[0] == b.subrange(0, 4)[0]);
    assert(b[1] == b.subrange(0, 4)[1]);
    assert(b[2] == b.subrange(0, 4)[2]);
    assert(b[3] == b.subrange(0, 4)[3]);
}

/// When the signature is at `q` and at no higher position up to `i`, the
/// scan from `i` down to `low <= q` finds `q`.
pub proof fn lemma_eocd_scan_finds(s: Seq<u8>, low: int, i: int, q: int)
    requires
        low <= q <= i,
        eocd_sig_at(s, q),
        forall|j: int| q < j <= i ==> !eocd_sig_at(s, j),
    ensures
        eocd_scan(s, low, i) == Some(q),
    decreases i - q,
{
    if i > q {
        lemma_eocd_scan_finds(s, low, i - 1, q);
    }
}

} // verus!
