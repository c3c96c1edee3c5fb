//! Recovering the real compression method of an entry whose declared method
//! code is not a valid one.
use crate::axml_fixer::AXML_MAGIC;
use crate::bytes::{le_u32, read_u32_le};
use flate2::read::DeflateDecoder;
use std::io::Read;
use vstd::prelude::*;

verus! {

/// What flate2's `DeflateDecoder`, read to the end, makes of `data` taken as
/// a raw DEFLATE stream: the number of bytes it decodes to, or `None` when
/// decoding fails.
pub uninterp spec fn deflate_decoded_len(data: Seq<u8>) -> Option<usize>;

/// flate2's `DeflateDecoder` over `data`, read to the end with
/// `Read::read_to_end`: the count that call returns, or `None` for its error.
#[verifier::external_body]
fn deflate_decoded_length(data: &[u8]) -> (r: Option<usize>)
    ensures
        r == deflate_decoded_len(data@),
{
    let mut out: Vec<u8> = Vec::new();
    DeflateDecoder::new(data).read_to_end(&mut out).ok()
}

/// Whether `s` starts with `dex\n`.
pub open spec fn starts_with_dex(s: Seq<u8>) -> bool {
    s.len() >= 4 && s[0] == 0x64u8 && s[1] == 0x65u8 && s[2] == 0x78u8 && s[3] == 0x0au8
}

/// Whether the bytes look stored rather than compressed: empty data; an
/// Android binary XML file whose size field matches the data or the declared
/// size; a DEX file whose size field (offset 32) matches the data, data too
/// short to hold that field not counting as one; or a PNG, JPEG or ZIP
/// header.
pub open spec fn spec_is_likely_uncompressed(s: Seq<u8>, declared: u32) -> bool {
    if s.len() == 0 {
        true
    } else if s.len() >= 8 && le_u32(s, 0) == AXML_MAGIC && (le_u32(s, 4) == s.len()
        || le_u32(s, 4) == declared) {
        true
    } else if s.len() >= 36 && starts_with_dex(s) && le_u32(s, 32) == s.len() {
        true
    } else if s.len() >= 4 && ((s[0] == 0x89u8 && s[1] == 0x50u8 && s[2] == 0x4eu8 && s[3] == 0x47u8)
        || (s[0] == 0xffu8 && s[1] == 0xd8u8 && s[2] == 0xffu8) || (s[0] == 0x50u8 && s[1]
        == 0x4bu8 && s[2] == 0x03u8 && s[3] == 0x04u8)) {
        true
    } else {
        false
    }
}

/// The decoded size that counts as a successful DEFLATE decoding: a
/// non-empty result that matches the declared size, or any non-empty result
/// when the declared size is 0.
pub open spec fn spec_accept_inflated(decoded: Option<usize>, declared: u32) -> Option<u32> {
    match decoded {
        Some(n) => if n > 0 && (n == declared || declared == 0) {
            Some(n as u32)
        } else {
            None
        },
        None => None,
    }
}

/// The method and size that `detect_real_compression` gives, for a given
/// outcome of decoding the data as DEFLATE.
pub open spec fn spec_classify(s: Seq<u8>, declared: u32, decoded: Option<usize>) -> (u16, u32) {
    if spec_is_likely_uncompressed(s, declared) {
        (0, s.len() as u32)
    } else {
        match spec_accept_inflated(if s.len() == 0 { None } else { decoded }, declared) {
            Some(n) => (8, n),
            None => (0, s.len() as u32),
        }
    }
}

/// The real method of the entry data `s` (0 Store or 8 Deflate), and the
/// uncompressed size to record for it.
pub open spec fn spec_detect_real_compression(s: Seq<u8>, declared: u32) -> (u16, u32) {
    spec_classify(s, declared, deflate_decoded_len(s))
}

/// Works out the real compression method of entry data whose declared method
/// is not usable: Store (0) with the data's own size when it looks stored,
/// Deflate (8) with the decoded size when it decodes as DEFLATE to a fitting
/// size, and Store otherwise.
pub fn detect_real_compression(data: &[u8], declared_uncompressed_size: u32) -> (r: (u16, u32))
    ensures
        r == spec_detect_real_compression(data@, declared_uncompressed_size),
{
    if is_likely_uncompressed(data, declared_uncompressed_size) {
        return (0, data.len() as u32);
    }
    if let Some(size) = can_deflate_decompress(data, declared_uncompressed_size) {
        return (8, size);
    }
    (0, data.len() as u32)
}

fn is_likely_uncompressed(data: &[u8], declared_uncompressed_size: u32) -> (r: bool)
    ensures
        r == spec_is_likely_uncompressed(data@, declared_uncompressed_size),
{
    if data.len() == 0 {
        return true;
    }
    if data.len() >= 8 {
        let magic = read_u32_le(data, 0);
        let file_size = read_u32_le(data, 4);
        if magic == AXML_MAGIC {
            if file_size as usize == data.len() || file_size == declared_uncompressed_size {
                return true;
            }
        }
    }
    if data.len() >= 36 {
        if data[0] == 0x64u8 && data[1] == 0x65u8 && data[2] == 0x78u8 && data[3] == 0x0au8 {
            let file_size = read_u32_le(data, 32);
            if file_size as usize == data.len() {
                return true;
            }
        }
    }
    if data.len() >= 4 {
        if (data[0] == 0x89u8 && data[1] == 0x50u8 && data[2] == 0x4eu8 && data[3] == 0x47u8) || (
        data[0] == 0xffu8 && data[1] == 0xd8u8 && data[2] == 0xffu8) || (data[0] == 0x50u8
            && data[1] == 0x4bu8 && data[2] == 0x03u8 && data[3] == 0x04u8) {
            return true;
        }
    }
    false
}

/// Whether a DEFLATE decoding of `decoded` bytes counts as success for an
/// entry that declares `declared` uncompressed bytes; the size if so.
pub fn accept_inflated_size(decoded: Option<usize>, declared: u32) -> (r: Option<u32>)
    ensures
        r == spec_accept_inflated(decoded, declared),
{
    match decoded {
        Some(size) => {
            if size > 0 && (size == declared as usize || declared == 0) {
                Some(size as u32)
            } else {
                None
            }
        },
        None => None,
    }
}

fn can_deflate_decompress(data: &[u8], declared_uncompressed_size: u32) -> (r: Option<u32>)
    ensures
        r == spec_accept_inflated(
            if data@.len() == 0 {
                None
            } else {
                deflate_decoded_len(data@)
            },
            declared_uncompressed_size,
        ),
{
    if data.len() == 0 {
        return None;
    }
    accept_inflated_size(deflate_decoded_length(data), declared_uncompressed_size)
}

/// Whatever the data, the method found is Store or Deflate, both usual in
/// APK files; Store comes with the data's own size.
pub proof fn lemma_detected_method_is_apk_common(s: Seq<u8>, declared: u32, decoded: Option<usize>)
    ensures
        crate::compression::spec_is_apk_common(spec_classify(s, declared, decoded).0),
        spec_classify(s, declared, decoded).0 == 0 ==> spec_classify(s, declared, decoded).1 == s.len() as u32,
{
}

} // verus!
