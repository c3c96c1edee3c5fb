//! Detection and repair of the anti-analysis tricks that some APK (ZIP)
//! archives carry: non-standard compression method codes, a forged
//! "encrypted" flag, zip-bomb decoy entries, corrupted local headers and
//! damaged Android binary XML resources.
pub mod axml_fixer;
pub mod bytes;
pub mod compression;
pub mod compression_detector;
pub mod detector;
pub mod fixer;
pub mod text;
pub mod zip_structures;
