//! Repair of Android binary XML (AXML) resources that decompilers choke on:
//! a wrong magic number, a file-size field that does not match the data, and
//! chunk chains broken by invalid or truncated chunks.
use crate::bytes::{le_u32, lemma_le_u32_at, push_all, push_u32_le, read_u32_le, u32_le_bytes, write_u32_le};
use crate::text::{decimal, hex, hex8, push_decimal, push_hex, push_hex8};
use vstd::prelude::*;
use vstd::string::StringExecFns;

verus! {

/// The magic number every Android binary XML file starts with.
pub const AXML_MAGIC: u32 = 0x00080003;

/// The chunk types an AXML document is made of.
#[derive(Debug, Clone, Copy, PartialEq, Eq)]
enum ChunkType {
    StringPool,
    ResourceMap,
    StartNamespace,
    EndNamespace,
    StartTag,
    EndTag,
    Text,
}

/// Whether `v` is the type code of one of the AXML chunk types.
pub open spec fn spec_valid_chunk_type(v: u32) -> bool {
    v == 0x001C0001u32 || v == 0x00180001u32 || (0x00100100u32 <= v && v <= 0x00100104u32)
}

impl ChunkType {
    fn from_u32(val: u32) -> (r: Option<Self>)
        ensures
            r is Some <==> spec_valid_chunk_type(val),
    {
        match val {
            0x001C0001 => Some(Self::StringPool),
            0x00180001 => Some(Self::ResourceMap),
            0x00100100 => Some(Self::StartNamespace),
            0x00100101 => Some(Self::EndNamespace),
            0x00100102 => Some(Self::StartTag),
            0x00100103 => Some(Self::EndTag),
            0x00100104 => Some(Self::Text),
            _ => None,
        }
    }

    fn is_valid(val: u32) -> (r: bool)
        ensures
            r == spec_valid_chunk_type(val),
    {
        Self::from_u32(val).is_some()
    }
}

/// What was wrong with an AXML file and what the repair did about it.
#[derive(Debug, Clone, Copy, PartialEq, Eq)]
pub struct AxmlFixReport {
    pub magic_fixed: bool,
    pub file_size_fixed: bool,
    pub truncated_chunks_removed: usize,
    pub invalid_chunks_fixed: usize,
    pub original_size: usize,
    pub final_size: usize,
}

impl Default for AxmlFixReport {
    /// A report of no repair on an empty file.
    fn default() -> (r: Self)
        ensures
            r == (AxmlFixReport {
                magic_fixed: false,
                file_size_fixed: false,
                truncated_chunks_removed: 0,
                invalid_chunks_fixed: 0,
                original_size: 0,
                final_size: 0,
            }),
    {
        AxmlFixReport {
            magic_fixed: false,
            file_size_fixed: false,
            truncated_chunks_removed: 0,
            invalid_chunks_fixed: 0,
            original_size: 0,
            final_size: 0,
        }
    }
}

/// Whether the repair changed anything.
pub open spec fn spec_has_fixes(r: AxmlFixReport) -> bool {
    r.magic_fixed || r.file_size_fixed || r.truncated_chunks_removed > 0 || r.invalid_chunks_fixed > 0
}

impl AxmlFixReport {
    /// Whether the repair changed anything.
    pub fn has_fixes(&self) -> (r: bool)
        ensures
            r == spec_has_fixes(*self),
    {
        self.magic_fixed || self.file_size_fixed || self.truncated_chunks_removed > 0
            || self.invalid_chunks_fixed > 0
    }
}

/// Why an AXML file cannot be repaired.
#[derive(Debug, Clone, Copy, PartialEq, Eq)]
pub enum AxmlError {
    /// Fewer than the 8 header bytes; the length is given.
    TooSmall(usize),
}

/// One problem found in an AXML file. Chunk offsets count from the end of
/// the 8-byte file header; chunks are numbered from 0.
#[derive(Debug, Clone, Copy, PartialEq, Eq)]
pub enum AxmlProblem {
    /// Fewer than 8 bytes in all.
    FileTooSmall { len: usize },
    /// The file does not start with the AXML magic number.
    InvalidMagic { found: u32 },
    /// The size field does not match the data; larger means truncated data.
    SizeMismatch { declared: usize, actual: usize },
    /// Fewer than 8 bytes are left for a chunk header.
    ChunkHeaderTruncated { index: usize, offset: usize, remaining: usize },
    /// A chunk has an unknown type code.
    InvalidChunkType { index: usize, chunk_type: u32, offset: usize },
    /// A chunk declares a size below 8.
    ChunkTooSmall { index: usize, size: usize },
    /// A chunk extends past the end of the data.
    ChunkOutOfRange { index: usize, offset: usize, size: usize, remaining: usize },
}

/// A chunk starts at `i` in `s`: a known type and a size of at least 8 that
/// stays within `s`.
pub open spec fn chunk_fits_at(s: Seq<u8>, i: int) -> bool {
    &&& 0 <= i
    &&& i + 8 <= s.len()
    &&& spec_valid_chunk_type(le_u32(s, i) as u32)
    &&& le_u32(s, i + 4) >= 8
    &&& i + le_u32(s, i + 4) <= s.len()
}

/// The first position from `i` on where a chunk fits.
pub open spec fn spec_next_valid_chunk_from(s: Seq<u8>, i: int) -> Option<int>
    decreases s.len() - i,
{
    if i < 0 || i + 8 > s.len() {
        None
    } else if chunk_fits_at(s, i) {
        Some(i)
    } else {
        spec_next_valid_chunk_from(s, i + 1)
    }
}

/// The first position where a chunk fits.
pub open spec fn spec_next_valid_chunk(s: Seq<u8>) -> Option<int> {
    spec_next_valid_chunk_from(s, 0)
}

/// The position found lies at or after `i` and a chunk fits there; no chunk
/// fits between `i` and it, and none from `i` on when nothing is found.
pub proof fn lemma_next_valid_chunk_from(s: Seq<u8>, i: int)
    requires
        0 <= i,
    ensures
        spec_next_valid_chunk_from(s, i) matches Some(n) ==> i <= n && n + 8 <= s.len()
            && chunk_fits_at(s, n) && forall|j: int| i <= j < n ==> !chunk_fits_at(s, j),
        spec_next_valid_chunk_from(s, i) is None ==> forall|j: int| i <= j ==> !chunk_fits_at(s, j),
    decreases s.len() - i,
{
    if !(i + 8 > s.len()) && !chunk_fits_at(s, i) {
        lemma_next_valid_chunk_from(s, i + 1);
    }
}

/// Repair of a chunk chain `c`: the chunks kept, in order, the number of
/// truncated chunks dropped at the end (0 or 1), and the number of invalid
/// chunk headers skipped over. A chunk with an unknown type is skipped by
/// resuming at the next place, 4 or more bytes on, where a chunk fits; a
/// chunk that is too short or too long ends the chain.
pub open spec fn spec_repair_chunks(c: Seq<u8>) -> (Seq<u8>, nat, nat)
    decreases c.len(),
{
    if c.len() == 0 {
        (Seq::empty(), 0, 0)
    } else if c.len() < 8 {
        (Seq::empty(), 1, 0)
    } else if !spec_valid_chunk_type(le_u32(c, 0) as u32) {
        let rest = c.subrange(4, c.len() as int);
        proof {
            lemma_next_valid_chunk_from(rest, 0);
        }
        match spec_next_valid_chunk(rest) {
            Some(n) => {
                let r = spec_repair_chunks(c.subrange(4 + n, c.len() as int));
                (r.0, r.1, r.2 + 1)
            },
            None => (Seq::empty(), 0, 1),
        }
    } else if le_u32(c, 4) < 8 || le_u32(c, 4) > c.len() {
        (Seq::empty(), 1, 0)
    } else {
        let z = le_u32(c, 4);
        let r = spec_repair_chunks(c.subrange(z, c.len() as int));
        (c.subrange(0, z) + r.0, r.1, r.2)
    }
}

/// Repairing the AXML file `s`: the repaired bytes and the report.
pub open spec fn spec_fix_axml(s: Seq<u8>) -> Result<(Seq<u8>, AxmlFixReport), AxmlError> {
    if s.len() < 8 {
        Err(AxmlError::TooSmall(s.len() as usize))
    } else {
        let r = spec_repair_chunks(s.subrange(8, s.len() as int));
        let n = 8 + r.0.len();
        Ok(
            (
                u32_le_bytes(AXML_MAGIC) + u32_le_bytes(n as u32) + r.0,
                AxmlFixReport {
                    magic_fixed: le_u32(s, 0) != AXML_MAGIC,
                    file_size_fixed: n != le_u32(s, 4),
                    truncated_chunks_removed: r.1 as usize,
                    invalid_chunks_fixed: r.2 as usize,
                    original_size: s.len() as usize,
                    final_size: n as usize,
                },
            ),
        )
    }
}

/// The problems of the chunk chain `c`, which starts `base` bytes into the
/// chunk area and whose first chunk has number `count`.
pub open spec fn spec_chunk_problems(c: Seq<u8>, base: int, count: int) -> Seq<AxmlProblem>
    decreases c.len(),
{
    if c.len() == 0 {
        Seq::empty()
    } else if c.len() < 8 {
        seq![
            AxmlProblem::ChunkHeaderTruncated {
                index: count as usize,
                offset: base as usize,
                remaining: c.len() as usize,
            },
        ]
    } else {
        let t = le_u32(c, 0) as u32;
        let z = le_u32(c, 4);
        let first = if !spec_valid_chunk_type(t) {
            seq![AxmlProblem::InvalidChunkType { index: count as usize, chunk_type: t, offset: base as usize }]
        } else {
            Seq::empty()
        };
        if z < 8 {
            first.push(AxmlProblem::ChunkTooSmall { index: count as usize, size: z as usize })
        } else if z > c.len() {
            first.push(
                AxmlProblem::ChunkOutOfRange {
                    index: count as usize,
                    offset: base as usize,
                    size: z as usize,
                    remaining: c.len() as usize,
                },
            )
        } else {
            first + spec_chunk_problems(c.subrange(z, c.len() as int), base + z, count + 1)
        }
    }
}

/// The problems found in the AXML file `s`, in the order they are reported.
pub open spec fn spec_axml_problems(s: Seq<u8>) -> Seq<AxmlProblem> {
    if s.len() < 8 {
        seq![AxmlProblem::FileTooSmall { len: s.len() as usize }]
    } else {
        let m = le_u32(s, 0);
        let d = le_u32(s, 4);
        let p1 = if m != AXML_MAGIC {
            seq![AxmlProblem::InvalidMagic { found: m as u32 }]
        } else {
            Seq::empty()
        };
        let p2 = if d != s.len() {
            seq![AxmlProblem::SizeMismatch { declared: d as usize, actual: s.len() as usize }]
        } else {
            Seq::empty()
        };
        let p3 = if m == AXML_MAGIC {
            spec_chunk_problems(s.subrange(8, s.len() as int), 0, 0)
        } else {
            Seq::empty()
        };
        p1 + p2 + p3
    }
}

/// Lists what is wrong with the AXML file `data`: its size, magic number,
/// size field, and (when the magic number is right) its chunk chain.
pub fn detect_axml_issues(data: &[u8]) -> (r: Result<Vec<AxmlProblem>, AxmlError>)
    ensures
        r matches Ok(v) && v@ == spec_axml_problems(data@),
        data@.len() >= 8 ==> (r matches Ok(v) && (v@.contains(
            AxmlProblem::SizeMismatch { declared: le_u32(data@, 4) as usize, actual: data@.len() as usize },
        ) <==> le_u32(data@, 4) != data@.len())),
{
    let total_len = data.len();
    proof {
        if total_len >= 8 {
            lemma_size_mismatch_reported(data@);
        }
    }
    let mut issues: Vec<AxmlProblem> = Vec::new();
    if data.len() < 8 {
        issues.push(AxmlProblem::FileTooSmall { len: data.len() });
        return Ok(issues);
    }
    let magic = read_u32_le(data, 0);
    if magic != AXML_MAGIC {
        issues.push(AxmlProblem::InvalidMagic { found: magic });
    }
    let declared_size = read_u32_le(data, 4) as usize;
    if declared_size != data.len() {
        issues.push(AxmlProblem::SizeMismatch { declared: declared_size, actual: data.len() });
    }
    if magic == AXML_MAGIC {
        let body = slice_from(data, 8);
        validate_chunks(body, &mut issues);
    }
    assert(issues@ =~= spec_axml_problems(data@));
    Ok(issues)
}

/// The bytes of `data` from `start` on.
fn slice_from(data: &[u8], start: usize) -> (r: &[u8])
    requires
        start <= data@.len(),
    ensures
        r@ == data@.subrange(start as int, data@.len() as int),
{
    &data[start..data.len()]
}

/// Appends the problems of the chunk chain `data` to `issues`.
fn validate_chunks(data: &[u8], issues: &mut Vec<AxmlProblem>)
    ensures
        final(issues)@ == old(issues)@ + spec_chunk_problems(data@, 0, 0),
{
    let ghost start = issues@;
    let len = data.len();
    let mut pos: usize = 0;
    let mut chunk_count: usize = 0;
    assert(data@.subrange(0, len as int) =~= data@);
    while pos < len
        invariant
            start == old(issues)@,
            len == data@.len(),
            pos <= len,
            chunk_count <= pos,
            start + spec_chunk_problems(data@, 0, 0) == issues@ + spec_chunk_problems(
                data@.subrange(pos as int, len as int),
                pos as int,
                chunk_count as int,
            ),
        decreases len - pos,
    {
        let ghost c = data@.subrange(pos as int, len as int);
        let ghost tail = spec_chunk_problems(c, pos as int, chunk_count as int);
        assert(c.len() == len - pos);
        let chunk_start = pos;
        if len - chunk_start < 8 {
            issues.push(
                AxmlProblem::ChunkHeaderTruncated {
                    index: chunk_count,
                    offset: chunk_start,
                    remaining: len - chunk_start,
                },
            );
            assert(tail =~= seq![
                AxmlProblem::ChunkHeaderTruncated {
                    index: chunk_count,
                    offset: chunk_start,
                    remaining: (len - chunk_start) as usize,
                },
            ]);
            assert(start + spec_chunk_problems(data@, 0, 0) =~= issues@);
            return;
        }
        let chunk_type = read_u32_le(data, chunk_start);
        let chunk_size = read_u32_le(data, chunk_start + 4) as usize;
        assert(le_u32(c, 0) == chunk_type && le_u32(c, 4) == chunk_size);
        let ghost before = issues@;
        if !ChunkType::is_valid(chunk_type) {
            issues.push(
                AxmlProblem::InvalidChunkType {
                    index: chunk_count,
                    chunk_type: chunk_type,
                    offset: chunk_start,
                },
            );
        }
        if chunk_size < 8 {
            issues.push(AxmlProblem::ChunkTooSmall { index: chunk_count, size: chunk_size });
            assert(start + spec_chunk_problems(data@, 0, 0) =~= issues@);
            return;
        }
        if chunk_size > len - chunk_start {
            issues.push(
                AxmlProblem::ChunkOutOfRange {
                    index: chunk_count,
                    offset: chunk_start,
                    size: chunk_size,
                    remaining: len - chunk_start,
                },
            );
            assert(start + spec_chunk_problems(data@, 0, 0) =~= issues@);
            return;
        }
        pos = chunk_start + chunk_size;
        chunk_count = chunk_count + 1;
        assert(c.subrange(chunk_size as int, c.len() as int) =~= data@.subrange(
            pos as int,
            len as int,
        ));
        assert(start + spec_chunk_problems(data@, 0, 0) =~= issues@ + spec_chunk_problems(
            data@.subrange(pos as int, len as int),
            pos as int,
            chunk_count as int,
        ));
    }
    assert(data@.subrange(pos as int, len as int) =~= Seq::<u8>::empty());
    assert(start + spec_chunk_problems(data@, 0, 0) =~= issues@);
}

/// Repairs the AXML file `data`, keeping as much of it as possible: the
/// magic number is set right, chunks with an unknown type are skipped up to
/// the next place where a whole chunk fits, the chain is cut at the first
/// chunk that is too short or runs past the end, and the size field is set
/// to the size of the result.
pub fn fix_axml(data: &[u8]) -> (r: Result<(Vec<u8>, AxmlFixReport), AxmlError>)
    ensures
        match r {
            Ok((v, rep)) => spec_fix_axml(data@) == Ok::<(Seq<u8>, AxmlFixReport), AxmlError>(
                (v@, rep),
            ),
            Err(e) => spec_fix_axml(data@) == Err::<(Seq<u8>, AxmlFixReport), AxmlError>(e),
        },
        r is Ok <==> data@.len() >= 8,
        r matches Ok((v, rep)) ==> rep.original_size == data@.len() && rep.final_size == v@.len(),
{
    let total_len = data.len();
    proof {
        lemma_fix_axml_report_sizes(data@);
    }
    if data.len() < 8 {
        return Err(AxmlError::TooSmall(data.len()));
    }
    let magic = read_u32_le(data, 0);
    let declared_size = read_u32_le(data, 4) as usize;
    let mut fixed: Vec<u8> = Vec::new();
    push_u32_le(&mut fixed, AXML_MAGIC);
    let magic_fixed = magic != AXML_MAGIC;
    push_u32_le(&mut fixed, 0);
    let chunks = slice_from(data, 8);
    let clen = chunks.len();
    let ghost whole = spec_repair_chunks(chunks@);
    let mut pos: usize = 0;
    let mut truncated: usize = 0;
    let mut invalid: usize = 0;
    assert(chunks@.subrange(0, clen as int) =~= chunks@);
    assert(fixed@.subrange(8, fixed@.len() as int) =~= Seq::<u8>::empty());
    while pos < clen
        invariant
            clen == chunks@.len(),
            pos <= clen,
            fixed@.len() >= 8,
            fixed@.subrange(0, 4) == u32_le_bytes(AXML_MAGIC),
            fixed@.len() <= 8 + pos,
            truncated <= 1,
            pos < clen ==> truncated == 0,
            invalid <= pos,
            whole == spec_repair_chunks(chunks@),
            whole.0 == fixed@.subrange(8, fixed@.len() as int) + spec_repair_chunks(
                chunks@.subrange(pos as int, clen as int),
            ).0,
            whole.1 == truncated + spec_repair_chunks(chunks@.subrange(pos as int, clen as int)).1,
            whole.2 == invalid + spec_repair_chunks(chunks@.subrange(pos as int, clen as int)).2,
        decreases clen - pos,
    {
        let ghost c = chunks@.subrange(pos as int, clen as int);
        let ghost fixed_before = fixed@;
        assert(c.len() == clen - pos);
        let chunk_start = pos;
        if clen - chunk_start < 8 {
            truncated = truncated + 1;
            pos = clen;
            assert(chunks@.subrange(pos as int, clen as int) =~= Seq::<u8>::empty());
            continue ;
        }
        let chunk_type = read_u32_le(chunks, chunk_start);
        let chunk_size = read_u32_le(chunks, chunk_start + 4) as usize;
        assert(le_u32(c, 0) == chunk_type && le_u32(c, 4) == chunk_size);
        if !ChunkType::is_valid(chunk_type) {
            invalid = invalid + 1;
            let search_start = chunk_start + 4;
            let rest = slice_from(chunks, search_start);
            assert(rest@ =~= c.subrange(4, c.len() as int));
            match find_next_valid_chunk(rest) {
                Some(next_valid) => {
                    proof {
                        lemma_next_valid_chunk_from(rest@, 0);
                    }
                    pos = search_start + next_valid;
                    assert(c.subrange(4 + next_valid, c.len() as int) =~= chunks@.subrange(
                        pos as int,
                        clen as int,
                    ));
                    continue ;
                },
                None => {
                    pos = clen;
                    assert(chunks@.subrange(pos as int, clen as int) =~= Seq::<u8>::empty());
                    continue ;
                },
            }
        }
        if chunk_size < 8 || chunk_size > clen - chunk_start {
            truncated = truncated + 1;
            pos = clen;
            assert(chunks@.subrange(pos as int, clen as int) =~= Seq::<u8>::empty());
            continue ;
        }
        let piece = slice_range(chunks, chunk_start, chunk_start + chunk_size);
        push_all(&mut fixed, piece);
        pos = chunk_start + chunk_size;
        assert(c.subrange(0, chunk_size as int) =~= piece@);
        assert(c.subrange(chunk_size as int, c.len() as int) =~= chunks@.subrange(
            pos as int,
            clen as int,
        ));
        assert(fixed@.subrange(8, fixed@.len() as int) =~= fixed_before.subrange(
            8,
            fixed_before.len() as int,
        ) + piece@);
        assert(fixed@.subrange(0, 4) =~= fixed_before.subrange(0, 4));
    }
    let actual_size = fixed.len();
    let file_size_fixed = actual_size != declared_size;
    let size_bytes = write_u32_le(#[verifier::truncate] (actual_size as u32));
    let ghost before_patch = fixed@;
    fixed.set(4, size_bytes[0]);
    fixed.set(5, size_bytes[1]);
    fixed.set(6, size_bytes[2]);
    fixed.set(7, size_bytes[3]);
    let report = AxmlFixReport {
        magic_fixed,
        file_size_fixed,
        truncated_chunks_removed: truncated,
        invalid_chunks_fixed: invalid,
        original_size: data.len(),
        final_size: actual_size,
    };
    proof {
        assert(chunks@ == data@.subrange(8, data@.len() as int));
        assert(fixed@ =~= u32_le_bytes(AXML_MAGIC) + u32_le_bytes(#[verifier::truncate] (actual_size as u32))
            + before_patch.subrange(8, before_patch.len() as int));
    }
    Ok((fixed, report))
}

/// The bytes of `data` from `start` up to `end`.
fn slice_range(data: &[u8], start: usize, end: usize) -> (r: &[u8])
    requires
        start <= end <= data@.len(),
    ensures
        r@ == data@.subrange(start as int, end as int),
{
    &data[start..end]
}

/// The first position in `data` where a whole chunk of a known type fits.
fn find_next_valid_chunk(data: &[u8]) -> (r: Option<usize>)
    ensures
        match r {
            Some(i) => spec_next_valid_chunk(data@) == Some(i as int),
            None => spec_next_valid_chunk(data@) is None,
        },
{
    let len = data.len();
    if len < 8 {
        return None;
    }
    let mut i: usize = 0;
    while i <= len - 8
        invariant
            len == data@.len(),
            8 <= len,
            i <= len - 7,
            spec_next_valid_chunk(data@) == spec_next_valid_chunk_from(data@, i as int),
        decreases len - 7 - i,
    {
        let chunk_type = read_u32_le(data, i);
        if ChunkType::is_valid(chunk_type) {
            let chunk_size = read_u32_le(data, i + 4) as usize;
            if chunk_size >= 8 && chunk_size <= len - i {
                return Some(i);
            }
        }
        i = i + 1;
    }
    None
}

/// A chain made only of whole chunks of known types, each at least 8 bytes
/// long, that ends exactly at the end of `c`.
pub open spec fn chunks_well_formed(c: Seq<u8>) -> bool
    decreases c.len(),
{
    if c.len() == 0 {
        true
    } else if c.len() < 8 || !spec_valid_chunk_type(le_u32(c, 0) as u32) || le_u32(c, 4) < 8
        || le_u32(c, 4) > c.len() {
        false
    } else {
        chunks_well_formed(c.subrange(le_u32(c, 4), c.len() as int))
    }
}

/// The repaired chain is well formed and no longer than the input chain.
pub proof fn lemma_repair_well_formed(c: Seq<u8>)
    ensures
        chunks_well_formed(spec_repair_chunks(c).0),
        spec_repair_chunks(c).0.len() <= c.len(),
    decreases c.len(),
{
    if c.len() == 0 || c.len() < 8 {
    } else if !spec_valid_chunk_type(le_u32(c, 0) as u32) {
        let rest = c.subrange(4, c.len() as int);
        lemma_next_valid_chunk_from(rest, 0);
        match spec_next_valid_chunk(rest) {
            Some(n) => {
                lemma_repair_well_formed(c.subrange(4 + n, c.len() as int));
            },
            None => {},
        }
    } else if le_u32(c, 4) < 8 || le_u32(c, 4) > c.len() {
    } else {
        let z = le_u32(c, 4);
        let tail = c.subrange(z, c.len() as int);
        lemma_repair_well_formed(tail);
        let r = spec_repair_chunks(tail);
        let x = c.subrange(0, z) + r.0;
        assert(x[0] == c[0] && x[1] == c[1] && x[2] == c[2] && x[3] == c[3]);
        assert(x[4] == c[4] && x[5] == c[5] && x[6] == c[6] && x[7] == c[7]);
        assert(x.subrange(z, x.len() as int) =~= r.0);
    }
}

/// A well-formed chain is left as it is.
pub proof fn lemma_repair_keeps_well_formed(c: Seq<u8>)
    requires
        chunks_well_formed(c),
    ensures
        spec_repair_chunks(c) == (c, 0nat, 0nat),
    decreases c.len(),
{
    if c.len() > 0 {
        let z = le_u32(c, 4);
        lemma_repair_keeps_well_formed(c.subrange(z, c.len() as int));
        assert(c.subrange(0, z) + c.subrange(z, c.len() as int) =~= c);
    }
}

/// A well-formed chain has no problems.
pub proof fn lemma_well_formed_has_no_problems(c: Seq<u8>, base: int, count: int)
    requires
        chunks_well_formed(c),
    ensures
        spec_chunk_problems(c, base, count) == Seq::<AxmlProblem>::empty(),
    decreases c.len(),
{
    if c.len() > 0 {
        let z = le_u32(c, 4);
        lemma_well_formed_has_no_problems(c.subrange(z, c.len() as int), base + z, count + 1);
        assert(Seq::<AxmlProblem>::empty() + Seq::<AxmlProblem>::empty() =~= Seq::<
            AxmlProblem,
        >::empty());
    }
}

/// Repair only ever removes data: the result is never longer than the input.
pub proof fn lemma_fix_axml_never_grows(s: Seq<u8>)
    requires
        s.len() <= usize::MAX,
        spec_fix_axml(s) is Ok,
    ensures
        spec_fix_axml(s)->Ok_0.0.len() <= s.len(),
        spec_fix_axml(s)->Ok_0.1.final_size == spec_fix_axml(s)->Ok_0.0.len(),
{
    lemma_repair_well_formed(s.subrange(8, s.len() as int));
}

/// Repair succeeds exactly on files of at least 8 bytes, and its report
/// gives the size of the incoming file and that of the repaired one.
pub proof fn lemma_fix_axml_report_sizes(s: Seq<u8>)
    requires
        s.len() <= usize::MAX,
    ensures
        (spec_fix_axml(s) is Ok) == (s.len() >= 8),
        spec_fix_axml(s) is Err ==> spec_fix_axml(s)->Err_0 == AxmlError::TooSmall(s.len() as usize),
        spec_fix_axml(s) is Ok ==> {
            let (out, rep) = spec_fix_axml(s)->Ok_0;
            &&& rep.original_size == s.len()
            &&& rep.final_size == out.len()
            &&& out.len() <= s.len()
        },
{
    if s.len() >= 8 {
        lemma_fix_axml_never_grows(s);
    }
}

/// A chunk chain's problems never concern the size field of the file.
proof fn lemma_chunk_problems_no_size_mismatch(c: Seq<u8>, base: int, count: int)
    ensures
        forall|i: int|
            0 <= i < spec_chunk_problems(c, base, count).len() ==> !(#[trigger] spec_chunk_problems(
                c,
                base,
                count,
            )[i] is SizeMismatch),
    decreases c.len(),
{
    if c.len() >= 8 {
        let z = le_u32(c, 4);
        if 8 <= z && z <= c.len() {
            lemma_chunk_problems_no_size_mismatch(c.subrange(z, c.len() as int), base + z, count + 1);
        }
    }
}

/// For a file of at least 8 bytes, a size mismatch is reported exactly when
/// the size field differs from the length of the data, whether larger
/// (truncated data) or smaller (padded data), and it reports the field and
/// the length.
pub proof fn lemma_size_mismatch_reported(s: Seq<u8>)
    requires
        8 <= s.len() <= usize::MAX,
    ensures
        le_u32(s, 4) != s.len() ==> spec_axml_problems(s).contains(
            AxmlProblem::SizeMismatch { declared: le_u32(s, 4) as usize, actual: s.len() as usize },
        ),
        forall|i: int|
            0 <= i < spec_axml_problems(s).len() && (#[trigger] spec_axml_problems(s)[i] is SizeMismatch)
                ==> le_u32(s, 4) != s.len() && spec_axml_problems(s)[i] == (AxmlProblem::SizeMismatch {
                declared: le_u32(s, 4) as usize,
                actual: s.len() as usize,
            }),
{
    let m = le_u32(s, 0);
    let d = le_u32(s, 4);
    let p = spec_axml_problems(s);
    let p1 = if m != AXML_MAGIC {
        seq![AxmlProblem::InvalidMagic { found: m as u32 }]
    } else {
        Seq::empty()
    };
    let p2 = if d != s.len() {
        seq![AxmlProblem::SizeMismatch { declared: d as usize, actual: s.len() as usize }]
    } else {
        Seq::empty()
    };
    let p3 = if m == AXML_MAGIC {
        spec_chunk_problems(s.subrange(8, s.len() as int), 0, 0)
    } else {
        Seq::empty()
    };
    assert(p == p1 + p2 + p3);
    lemma_chunk_problems_no_size_mismatch(s.subrange(8, s.len() as int), 0, 0);
    if d != s.len() {
        assert(p[p1.len() as int] == AxmlProblem::SizeMismatch { declared: d as usize, actual: s.len() as usize });
    }
    assert forall|i: int| 0 <= i < p.len() && (#[trigger] p[i] is SizeMismatch) implies d != s.len() && p[i]
        == (AxmlProblem::SizeMismatch { declared: d as usize, actual: s.len() as usize }) by {
        if i < p1.len() {
            assert(p[i] == p1[i]);
        } else if i < p1.len() + p2.len() {
            assert(p[i] == p2[i - p1.len()]);
        } else {
            assert(p[i] == p3[i - p1.len() - p2.len()]);
        }
    }
}

/// Repair is idempotent: a repaired file (of less than 4 GiB) is repaired
/// into itself with nothing to report, and shows no problems.
pub proof fn lemma_fix_axml_idempotent(s: Seq<u8>)
    requires
        spec_fix_axml(s) is Ok,
        spec_fix_axml(s)->Ok_0.0.len() <= u32::MAX,
    ensures
        ({
            let out = spec_fix_axml(s)->Ok_0.0;
            &&& spec_fix_axml(out) is Ok
            &&& spec_fix_axml(out)->Ok_0.0 == out
            &&& !spec_fix_axml(out)->Ok_0.1.magic_fixed
            &&& !spec_fix_axml(out)->Ok_0.1.file_size_fixed
            &&& spec_fix_axml(out)->Ok_0.1.truncated_chunks_removed == 0
            &&& spec_fix_axml(out)->Ok_0.1.invalid_chunks_fixed == 0
            &&& spec_axml_problems(out) == Seq::<AxmlProblem>::empty()
        }),
{
    let body = spec_repair_chunks(s.subrange(8, s.len() as int)).0;
    lemma_repair_well_formed(s.subrange(8, s.len() as int));
    let n = 8 + body.len();
    let out = u32_le_bytes(AXML_MAGIC) + u32_le_bytes(n as u32) + body;
    assert(out == spec_fix_axml(s)->Ok_0.0);
    assert(out.subrange(8, out.len() as int) =~= body);
    assert(out.subrange(0, 4) =~= u32_le_bytes(AXML_MAGIC));
    assert(out.subrange(4, 8) =~= u32_le_bytes(n as u32));
    lemma_le_u32_at(out, 0, AXML_MAGIC);
    lemma_le_u32_at(out, 4, n as u32);
    lemma_repair_keeps_well_formed(body);
    lemma_well_formed_has_no_problems(body, 0, 0);
    assert(out.len() == n);
    assert(u32_le_bytes(AXML_MAGIC) + u32_le_bytes(n as u32) + body =~= out);
    assert(Seq::<AxmlProblem>::empty() + Seq::<AxmlProblem>::empty() + Seq::<AxmlProblem>::empty()
        =~= Seq::<AxmlProblem>::empty());
}

/// The text of a problem, as it is shown to the user.
pub open spec fn spec_problem_message(p: AxmlProblem) -> Seq<char> {
    match p {
        AxmlProblem::FileTooSmall { len } => "文件过小 ("@ + decimal(len as nat)
            + " bytes)，无法包含有效的 AXML 头部"@,
        AxmlProblem::InvalidMagic { found } => "无效的 AXML 魔数: 0x"@ + hex8(found as nat)
            + " (期望 0x"@ + hex8(AXML_MAGIC as nat) + ")"@,
        AxmlProblem::SizeMismatch { declared, actual } => "文件大小不匹配: 声明 "@ + decimal(
            declared as nat,
        ) + " bytes，实际 "@ + decimal(actual as nat) + " bytes ("@ + (if declared > actual {
            "截断"@
        } else {
            "填充"@
        }) + ")"@,
        AxmlProblem::ChunkHeaderTruncated { index, offset, remaining } => "Chunk #"@ + decimal(
            index as nat,
        ) + " 头部截断 (偏移 0x"@ + hex(offset as nat) + ", 剩余 "@ + decimal(remaining as nat)
            + " bytes)"@,
        AxmlProblem::InvalidChunkType { index, chunk_type, offset } => "Chunk #"@ + decimal(
            index as nat,
        ) + " 类型无效: 0x"@ + hex8(chunk_type as nat) + " (偏移 0x"@ + hex(offset as nat) + ")"@,
        AxmlProblem::ChunkTooSmall { index, size } => "Chunk #"@ + decimal(index as nat)
            + " 大小异常: "@ + decimal(size as nat) + " bytes (最小 8 bytes)"@,
        AxmlProblem::ChunkOutOfRange { index, offset, size, remaining } => "Chunk #"@ + decimal(
            index as nat,
        ) + " 超出文件范围: 偏移 0x"@ + hex(offset as nat) + ", 大小 "@ + decimal(size as nat)
            + " bytes, 文件剩余 "@ + decimal(remaining as nat) + " bytes"@,
    }
}

impl AxmlProblem {
    /// The text of the problem, as it is shown to the user.
    pub fn message(&self) -> (r: String)
        ensures
            r@ == spec_problem_message(*self),
    {
        let mut m = String::new();
        match *self {
            AxmlProblem::FileTooSmall { len } => {
                m.append("文件过小 (");
                push_decimal(&mut m, len as u64);
                m.append(" bytes)，无法包含有效的 AXML 头部");
            },
            AxmlProblem::InvalidMagic { found } => {
                m.append("无效的 AXML 魔数: 0x");
                push_hex8(&mut m, found as u64);
                m.append(" (期望 0x");
                push_hex8(&mut m, AXML_MAGIC as u64);
                m.append(")");
            },
            AxmlProblem::SizeMismatch { declared, actual } => {
                m.append("文件大小不匹配: 声明 ");
                push_decimal(&mut m, declared as u64);
                m.append(" bytes，实际 ");
                push_decimal(&mut m, actual as u64);
                m.append(" bytes (");
                if declared > actual {
                    m.append("截断");
                } else {
                    m.append("填充");
                }
                m.append(")");
            },
            AxmlProblem::ChunkHeaderTruncated { index, offset, remaining } => {
                m.append("Chunk #");
                push_decimal(&mut m, index as u64);
                m.append(" 头部截断 (偏移 0x");
                push_hex(&mut m, offset as u64);
                m.append(", 剩余 ");
                push_decimal(&mut m, remaining as u64);
                m.append(" bytes)");
            },
            AxmlProblem::InvalidChunkType { index, chunk_type, offset } => {
                m.append("Chunk #");
                push_decimal(&mut m, index as u64);
                m.append(" 类型无效: 0x");
                push_hex8(&mut m, chunk_type as u64);
                m.append(" (偏移 0x");
                push_hex(&mut m, offset as u64);
                m.append(")");
            },
            AxmlProblem::ChunkTooSmall { index, size } => {
                m.append("Chunk #");
                push_decimal(&mut m, index as u64);
                m.append(" 大小异常: ");
                push_decimal(&mut m, size as u64);
                m.append(" bytes (最小 8 bytes)");
            },
            AxmlProblem::ChunkOutOfRange { index, offset, size, remaining } => {
                m.append("Chunk #");
                push_decimal(&mut m, index as u64);
                m.append(" 超出文件范围: 偏移 0x");
                push_hex(&mut m, offset as u64);
                m.append(", 大小 ");
                push_decimal(&mut m, size as u64);
                m.append(" bytes, 文件剩余 ");
                push_decimal(&mut m, remaining as u64);
                m.append(" bytes");
            },
        }
        assert(m@ =~= spec_problem_message(*self));
        m
    }
}

/// The text of a repair failure, as it is shown to the user.
pub open spec fn spec_axml_error_message(e: AxmlError) -> Seq<char> {
    match e {
        AxmlError::TooSmall(len) => "文件过小 ("@ + decimal(len as nat) + " bytes)，无法修复"@,
    }
}

impl AxmlError {
    /// The text of the failure, as it is shown to the user.
    pub fn message(&self) -> (r: String)
        ensures
            r@ == spec_axml_error_message(*self),
    {
        let mut m = String::new();
        match *self {
            AxmlError::TooSmall(len) => {
                m.append("文件过小 (");
                push_decimal(&mut m, len as u64);
                m.append(" bytes)，无法修复");
            },
        }
        assert(m@ =~= spec_axml_error_message(*self));
        m
    }
}

/// A chain whose repair drops and skips nothing is well formed and left as
/// it is.
pub proof fn lemma_repair_without_losses(c: Seq<u8>)
    requires
        spec_repair_chunks(c).1 == 0,
        spec_repair_chunks(c).2 == 0,
    ensures
        spec_repair_chunks(c).0 == c,
        chunks_well_formed(c),
    decreases c.len(),
{
    if c.len() == 0 {
        assert(c =~= Seq::<u8>::empty());
    } else if c.len() < 8 {
    } else if !spec_valid_chunk_type(le_u32(c, 0) as u32) {
        let rest = c.subrange(4, c.len() as int);
        lemma_next_valid_chunk_from(rest, 0);
    } else if le_u32(c, 4) < 8 || le_u32(c, 4) > c.len() {
    } else {
        let z = le_u32(c, 4);
        lemma_repair_without_losses(c.subrange(z, c.len() as int));
        assert(c.subrange(0, z) + c.subrange(z, c.len() as int) =~= c);
    }
}

/// At most one truncated chunk is dropped, and no more invalid headers are
/// skipped than there are bytes.
pub proof fn lemma_repair_counts_bounded(c: Seq<u8>)
    ensures
        spec_repair_chunks(c).1 <= 1,
        spec_repair_chunks(c).2 <= c.len(),
    decreases c.len(),
{
    if c.len() >= 8 {
        if !spec_valid_chunk_type(le_u32(c, 0) as u32) {
            let rest = c.subrange(4, c.len() as int);
            lemma_next_valid_chunk_from(rest, 0);
            match spec_next_valid_chunk(rest) {
                Some(n) => lemma_repair_counts_bounded(c.subrange(4 + n, c.len() as int)),
                None => {},
            }
        } else if !(le_u32(c, 4) < 8 || le_u32(c, 4) > c.len()) {
            lemma_repair_counts_bounded(c.subrange(le_u32(c, 4), c.len() as int));
        }
    }
}

/// A file whose repair changes nothing shows no problems.
#[verifier::rlimit(40)]
pub proof fn lemma_no_fixes_no_problems(s: Seq<u8>)
    requires
        s.len() <= usize::MAX,
        spec_fix_axml(s) is Ok,
        !spec_has_fixes(spec_fix_axml(s)->Ok_0.1),
    ensures
        spec_axml_problems(s) == Seq::<AxmlProblem>::empty(),
{
    let c = s.subrange(8, s.len() as int);
    let r = spec_repair_chunks(c);
    let rep = spec_fix_axml(s)->Ok_0.1;
    assert(s.len() >= 8);
    lemma_repair_counts_bounded(c);
    assert(r.1 == 0 && r.2 == 0);
    lemma_repair_without_losses(c);
    assert(r.0.len() == s.len() - 8);
    assert(le_u32(s, 4) == s.len());
    assert(le_u32(s, 0) == AXML_MAGIC);
    lemma_well_formed_has_no_problems(c, 0, 0);
    assert(Seq::<AxmlProblem>::empty() + Seq::<AxmlProblem>::empty() + Seq::<AxmlProblem>::empty()
        =~= Seq::<AxmlProblem>::empty());
}

} // verus!
