//! Error types that can be emitted by the archive reader and writer.

use vstd::prelude::*;

verus! {

/// Further information when a requested entry has not been found.
#[derive(Debug, Clone, PartialEq, Eq)]
pub enum FileNotFoundError {
    /// No entry at this index.
    Index(usize),
    /// No entry with this name.
    Name(String),
}

/// Error type for archive reading and writing.
#[derive(Debug, Clone, PartialEq, Eq)]
pub enum Error {
    /// An underlying byte-level failure, such as a corrupt zlib stream
    /// surfacing as invalid data.
    IOError(String),
    /// The input is not a valid TRE archive.
    InvalidArchive,
    /// The requested entry does not exist.
    FileNotFound(FileNotFoundError),
    /// A caller contract violation, or a limit of the on-disk format.
    CustomError(String),
}

} // verus!
