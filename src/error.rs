//! Errors of the archive engine.

use vstd::prelude::*;

verus! {

/// What can go wrong while building or reading a virtual archive.
#[derive(Debug, PartialEq, Eq, Structural, Clone, Copy)]
pub enum ArchiveError {
    /// An inode or a name is not known.
    NotFound,
    /// An errno from the operating system.
    SourceIo(i32),
    /// A file yielded fewer bytes than its block holds: it changed meanwhile.
    ShortRead,
    /// A path cannot be written into a header record.
    MalformedPath,
    /// The archive would be longer than an offset can express.
    TooLarge,
}

} // verus!
