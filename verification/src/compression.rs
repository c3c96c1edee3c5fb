//! ZIP compression method codes (PKWARE APPNOTE, section 4.4.5).
use vstd::prelude::*;

verus! {

/// The compression methods that the ZIP specification defines.
#[derive(Debug, Clone, Copy, PartialEq, Eq)]
pub enum CompressionMethod {
    Store,
    Shrunk,
    Reduced1,
    Reduced2,
    Reduced3,
    Reduced4,
    Imploded,
    Reserved,
    Deflate,
    Deflate64,
    PKWARE,
    Reserved2,
    Bzip2,
    Reserved3,
    Lzma,
    Reserved4,
    Cmpsc,
    Reserved5,
    Terse,
    Lz77,
    Zstd,
    Mp3,
    Xz,
    Jpeg,
    WavPack,
    Ppmd,
    Aex,
}

/// The method code that the ZIP specification assigns to `m`.
pub open spec fn spec_method_code(m: CompressionMethod) -> u16 {
    match m {
        CompressionMethod::Store => 0,
        CompressionMethod::Shrunk => 1,
        CompressionMethod::Reduced1 => 2,
        CompressionMethod::Reduced2 => 3,
        CompressionMethod::Reduced3 => 4,
        CompressionMethod::Reduced4 => 5,
        CompressionMethod::Imploded => 6,
        CompressionMethod::Reserved => 7,
        CompressionMethod::Deflate => 8,
        CompressionMethod::Deflate64 => 9,
        CompressionMethod::PKWARE => 10,
        CompressionMethod::Reserved2 => 11,
        CompressionMethod::Bzip2 => 12,
        CompressionMethod::Reserved3 => 13,
        CompressionMethod::Lzma => 14,
        CompressionMethod::Reserved4 => 15,
        CompressionMethod::Cmpsc => 16,
        CompressionMethod::Reserved5 => 17,
        CompressionMethod::Terse => 18,
        CompressionMethod::Lz77 => 19,
        CompressionMethod::Zstd => 93,
        CompressionMethod::Mp3 => 94,
        CompressionMethod::Xz => 95,
        CompressionMethod::Jpeg => 96,
        CompressionMethod::WavPack => 97,
        CompressionMethod::Ppmd => 98,
        CompressionMethod::Aex => 99,
    }
}

/// A code the ZIP specification assigns: 0 to 19 and 93 to 99.
pub open spec fn spec_is_valid_method(value: u16) -> bool {
    value <= 19 || (93 <= value && value <= 99)
}

/// Store (0) or Deflate (8), the two methods APK files use.
pub open spec fn spec_is_apk_common(value: u16) -> bool {
    value == 0 || value == 8
}

/// The display name of a method code.
pub open spec fn spec_method_name(value: u16) -> Seq<char> {
    if value == 0 {
        "Store (无压缩)"@
    } else if value == 1 {
        "Shrunk (已弃用)"@
    } else if value == 2 {
        "Reduced1 (已弃用)"@
    } else if value == 3 {
        "Reduced2 (已弃用)"@
    } else if value == 4 {
        "Reduced3 (已弃用)"@
    } else if value == 5 {
        "Reduced4 (已弃用)"@
    } else if value == 6 {
        "Imploded (已弃用)"@
    } else if value == 7 || value == 11 || value == 13 || value == 15 || value == 17 {
        "Reserved"@
    } else if value == 8 {
        "Deflate (标准)"@
    } else if value == 9 {
        "Deflate64"@
    } else if value == 10 {
        "PKWARE DCL (已弃用)"@
    } else if value == 12 {
        "Bzip2"@
    } else if value == 14 {
        "LZMA"@
    } else if value == 16 {
        "IBM CMPSC"@
    } else if value == 18 {
        "IBM TERSE (已弃用)"@
    } else if value == 19 {
        "IBM LZ77"@
    } else if value == 93 {
        "Zstandard"@
    } else if value == 94 {
        "MP3 (已弃用)"@
    } else if value == 95 {
        "XZ"@
    } else if value == 96 {
        "JPEG"@
    } else if value == 97 {
        "WavPack"@
    } else if value == 98 {
        "PPMd I"@
    } else if value == 99 {
        "AE-x 加密标记"@
    } else {
        "UNKNOWN (非标准)"@
    }
}

impl CompressionMethod {
    /// The method that a repaired entry with an unreadable method gets when
    /// nothing better is known: Deflate.
    pub const RECOMMENDED_FIX: u16 = 8;

    /// The method code of this method, as it stands in ZIP headers.
    pub fn code(self) -> (r: u16)
        ensures
            r == spec_method_code(self),
    {
        match self {
            CompressionMethod::Store => 0,
            CompressionMethod::Shrunk => 1,
            CompressionMethod::Reduced1 => 2,
            CompressionMethod::Reduced2 => 3,
            CompressionMethod::Reduced3 => 4,
            CompressionMethod::Reduced4 => 5,
            CompressionMethod::Imploded => 6,
            CompressionMethod::Reserved => 7,
            CompressionMethod::Deflate => 8,
            CompressionMethod::Deflate64 => 9,
            CompressionMethod::PKWARE => 10,
            CompressionMethod::Reserved2 => 11,
            CompressionMethod::Bzip2 => 12,
            CompressionMethod::Reserved3 => 13,
            CompressionMethod::Lzma => 14,
            CompressionMethod::Reserved4 => 15,
            CompressionMethod::Cmpsc => 16,
            CompressionMethod::Reserved5 => 17,
            CompressionMethod::Terse => 18,
            CompressionMethod::Lz77 => 19,
            CompressionMethod::Zstd => 93,
            CompressionMethod::Mp3 => 94,
            CompressionMethod::Xz => 95,
            CompressionMethod::Jpeg => 96,
            CompressionMethod::WavPack => 97,
            CompressionMethod::Ppmd => 98,
            CompressionMethod::Aex => 99,
        }
    }

    /// Whether `value` is a method code that the ZIP specification assigns.
    pub fn is_valid(value: u16) -> (r: bool)
        ensures
            r == spec_is_valid_method(value),
    {
        value <= 19 || (93 <= value && value <= 99)
    }

    /// Whether `value` is one of the methods found in ordinary APK files.
    pub fn is_apk_common(value: u16) -> (r: bool)
        ensures
            r == spec_is_apk_common(value),
    {
        value == 0 || value == 8
    }

    /// The display name of a method code; unassigned codes are "UNKNOWN".
    pub fn name(value: u16) -> (r: &'static str)
        ensures
            r@ == spec_method_name(value),
    {
        match value {
            0 => "Store (无压缩)",
            1 => "Shrunk (已弃用)",
            2 => "Reduced1 (已弃用)",
            3 => "Reduced2 (已弃用)",
            4 => "Reduced3 (已弃用)",
            5 => "Reduced4 (已弃用)",
            6 => "Imploded (已弃用)",
            7 => "Reserved",
            8 => "Deflate (标准)",
            9 => "Deflate64",
            10 => "PKWARE DCL (已弃用)",
            11 => "Reserved",
            12 => "Bzip2",
            13 => "Reserved",
            14 => "LZMA",
            15 => "Reserved",
            16 => "IBM CMPSC",
            17 => "Reserved",
            18 => "IBM TERSE (已弃用)",
            19 => "IBM LZ77",
            93 => "Zstandard",
            94 => "MP3 (已弃用)",
            95 => "XZ",
            96 => "JPEG",
            97 => "WavPack",
            98 => "PPMd I",
            99 => "AE-x 加密标记",
            _ => "UNKNOWN (非标准)",
        }
    }
}

/// Every method common in APK files is a valid ZIP method, and the
/// recommended repair target is both.
pub proof fn lemma_apk_common_methods_are_valid(value: u16)
    ensures
        spec_is_apk_common(value) ==> spec_is_valid_method(value),
        spec_is_valid_method(CompressionMethod::RECOMMENDED_FIX),
        spec_is_apk_common(CompressionMethod::RECOMMENDED_FIX),
{
}

/// Every method has a valid code, and no two methods share one.
pub proof fn lemma_method_codes_are_valid(m: CompressionMethod, n: CompressionMethod)
    ensures
        spec_is_valid_method(spec_method_code(m)),
        spec_method_code(m) == spec_method_code(n) ==> m == n,
{
}

/// Every code that the ZIP specification does not assign is named
/// "UNKNOWN (非标准)".
pub proof fn lemma_invalid_methods_are_unknown(value: u16)
    ensures
        !spec_is_valid_method(value) ==> spec_method_name(value) == "UNKNOWN (非标准)"@,
{
}

} // verus!
