//! Reading, writing and comparing TRE game-asset archives, together with the
//! embedded STF localized string-table format.
//!
//! A TRE archive is a binary container: a 36-byte little-endian header with
//! the magic bytes `EERT5000`, a data region of per-entry payloads (each
//! stored verbatim or zlib-compressed), a record table, a name block of
//! NUL-terminated entry names, and a trailer of per-entry MD5 digests.
//! An STF payload maps short UTF-8 keys to UTF-16 translated values.

pub mod compression;
pub mod digest;
pub mod error;
pub mod types;
pub mod write;
pub mod stf;
pub mod diff;
pub mod read;

pub use compression::CompressionMethod;
