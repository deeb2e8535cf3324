//! What the archive records of one entry of a source tree.

use vstd::prelude::*;

verus! {

/// The kinds of entries that an archive holds.
#[derive(Debug, PartialEq, Eq, Structural, Clone, Copy)]
pub enum EntryKind {
    File,
    Directory,
    Symlink,
}

/// The POSIX metadata of one source entry, as plain values.
#[derive(Debug, Clone)]
pub struct EntryMeta {
    pub kind: EntryKind,
    /// `st_mode`, type bits included.
    pub mode: u32,
    pub uid: u32,
    pub gid: u32,
    /// Length in bytes.
    pub size: u64,
    /// Last modification, in whole seconds since the epoch.
    pub mtime: u64,
    /// The nanoseconds of the last modification beyond `mtime`.
    pub mtime_nsec: u32,
    pub ino: u64,
    /// Number of 512-byte units allocated.
    pub blocks: u64,
    pub rdev: u64,
    /// Preferred I/O block size.
    pub blksize: u64,
    /// The target of a symbolic link.
    pub link_target: Option<String>,
}

/// One entry of a walk over a source subtree.
#[derive(Debug, Clone)]
pub struct SourceEntry {
    /// Where the entry lies, for reading its content.
    pub path: String,
    /// Its path relative to the source directory, as the archive names it.
    pub rel_path: String,
    pub meta: EntryMeta,
}

/// The type flag of a header record for an entry of kind `k`.
pub open spec fn type_flag(k: EntryKind) -> u8 {
    match k {
        EntryKind::File => 48u8,
        EntryKind::Directory => 53u8,
        EntryKind::Symlink => 50u8,
    }
}

/// The number of content bytes that follow the header of an entry.
pub open spec fn content_size(m: EntryMeta) -> nat {
    if m.kind == EntryKind::File {
        m.size as nat
    } else {
        0
    }
}

/// The type flag of a header record for an entry of kind `k`.
pub fn entry_type_flag(k: EntryKind) -> (r: u8)
    ensures
        r == type_flag(k),
{
    match k {
        EntryKind::File => 48u8,
        EntryKind::Directory => 53u8,
        EntryKind::Symlink => 50u8,
    }
}

} // verus!
