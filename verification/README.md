# apk_fixer

Detection and one-step repair of the anti-analysis tricks found in some APK
(ZIP) files: non-standard compression method codes (such as `0x7777`), a
forged "encrypted" flag (bit 0 of the general-purpose flags), zip-bomb decoy
entries, corrupted local file header signatures, and damaged Android binary
XML (AXML) resources.

The library in `src/` is written in Verus; every function carries a
contract, and the properties that span functions are proved as lemmas.

- `bytes` – little-endian encoding through `byteorder`.
- `compression` – ZIP compression method codes.
- `compression_detector` – recovering the real method of an entry (DEFLATE
  decoding through `flate2`).
- `zip_structures` – central directory headers, the end-of-central-directory
  record, reading an archive's directory; parse/serialize round trips.
- `axml_fixer` – AXML problem detection and conservative repair; the repair
  is proved idempotent and never to grow a file.
- `detector` – the issue report of an archive.
- `fixer` – the repair of a whole archive (CRC-32 checksums through
  `crc32fast`). The repaired archive is proved to read back as written when
  it stays under 4 GiB and its end-record comment holds no end-record
  signature; to show no invalid method, forged flag or zip bomb when the
  threshold is at least 1; and to show no binary XML issue when the entries
  it keeps have their local headers and data in place.
- `text` – decimal and hexadecimal rendering for messages.

`app/main.rs` is the command-line front end (`detect` and `fix`), with file
I/O and printing. `tests/` holds the tests.
