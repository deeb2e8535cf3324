//! Inode numbers, the attributes of virtual files, and the cache entry of one
//! virtual archive.

use vstd::prelude::*;
use crate::blocks::{Block, blocks_wf, size_of_blocks, total_size};
use crate::entry::{EntryKind, EntryMeta, SourceEntry};
use crate::error::ArchiveError;
use crate::layout::{laid_out, load_blocks};

verus! {

/// The inode of the mount root.
pub const ROOT_INODE: u64 = 1;

/// The file-type bits of `st_mode`.
pub const S_IFMT: u32 = 0o170000;

/// The execute bits for owner, group and others.
pub const EXEC_BITS: u32 = 0o111;

/// A point in time, or a span of it, in seconds and nanoseconds.
#[derive(Debug, PartialEq, Eq, Structural, Clone, Copy)]
pub struct Time {
    pub secs: u64,
    pub nanos: u32,
}

/// The nanoseconds that `t` stands for.
pub open spec fn nanos_of(t: Time) -> int {
    t.secs * 1_000_000_000 + t.nanos
}

fn to_nanos(t: Time) -> (r: u128)
    ensures
        r == nanos_of(t),
{
    proof {
        assert(t.secs * 1_000_000_000 <= 18446744073709551615 * 1_000_000_000) by (nonlinear_arith)
            requires
                t.secs <= 18446744073709551615,
        ;
    }
    t.secs as u128 * 1_000_000_000 + t.nanos as u128
}

/// The time `secs` seconds after the epoch.
pub fn unix_time(secs: i64) -> (r: Time)
    ensures
        r.secs == secs as u64,
        r.nanos == 0,
{
    Time { secs: secs as u64, nanos: 0 }
}

/// The kinds of files the mount shows.
#[derive(Debug, PartialEq, Eq, Structural, Clone, Copy)]
pub enum FileKind {
    Directory,
    RegularFile,
}

/// The attributes of a file of the mount.
#[derive(Debug, PartialEq, Eq, Structural, Clone, Copy)]
pub struct FileAttrs {
    pub ino: u64,
    pub size: u64,
    pub blocks: u64,
    pub atime: Time,
    pub mtime: Time,
    pub ctime: Time,
    pub crtime: Time,
    pub kind: FileKind,
    pub perm: u16,
    pub nlink: u32,
    pub uid: u32,
    pub gid: u32,
    pub rdev: u32,
    pub blksize: u32,
    pub flags: u32,
}

/// The inode of the virtual archive of a source entry with inode `ino`.
pub open spec fn derived_ino(ino: u64) -> u64 {
    ((ino as nat * 2) % 0x1_0000_0000_0000_0000) as u64
}

/// The inode of the virtual archive of a source entry with inode `ino`: twice
/// it, so that it is even and never the root's.
pub fn derive_ino(ino: u64) -> (r: u64)
    ensures
        r == derived_ino(ino),
        r % 2 == 0,
        ino < 0x8000_0000_0000_0000 ==> r == 2 * ino,
{
    let r = ino << 1;
    assert(r == ((ino as nat * 2) % 0x1_0000_0000_0000_0000) as u64 && r % 2 == 0) by (bit_vector)
        requires
            r == ino << 1,
    ;
    r
}

/// Permission bits of a virtual file made from source mode `mode`: the mode
/// without its type bits, and without execute bits for a directory.
pub open spec fn perm_of(mode: u32, kind: EntryKind) -> u16 {
    if kind == EntryKind::Directory {
        ((mode & !S_IFMT) & !EXEC_BITS) as u16
    } else {
        (mode & !S_IFMT) as u16
    }
}

/// The attributes derived from a source entry's metadata at time `now`: those
/// of the mount root where `root` holds, else of the entry's virtual archive.
pub open spec fn derived_attr(m: EntryMeta, root: bool, now: Time) -> FileAttrs {
    FileAttrs {
        ino: if root {
            ROOT_INODE
        } else {
            derived_ino(m.ino)
        },
        size: m.size,
        blocks: m.blocks,
        atime: now,
        mtime: Time { secs: m.mtime, nanos: m.mtime_nsec },
        ctime: now,
        crtime: now,
        kind: if root {
            FileKind::Directory
        } else {
            FileKind::RegularFile
        },
        perm: perm_of(m.mode, m.kind),
        nlink: 0,
        uid: m.uid,
        gid: m.gid,
        rdev: m.rdev as u32,
        blksize: m.blksize as u32,
        flags: 0,
    }
}

/// The attributes derived from a source entry's metadata at time `now`.
pub fn derive_attr(m: &EntryMeta, root: bool, now: Time) -> (r: FileAttrs)
    ensures
        r == derived_attr(*m, root, now),
{
    let mut perm = m.mode & !S_IFMT;
    if m.kind == EntryKind::Directory {
        perm = perm & !EXEC_BITS;
    }
    FileAttrs {
        ino: if root {
            ROOT_INODE
        } else {
            derive_ino(m.ino)
        },
        size: m.size,
        blocks: m.blocks,
        atime: now,
        mtime: Time { secs: m.mtime, nanos: m.mtime_nsec },
        ctime: now,
        crtime: now,
        kind: if root {
            FileKind::Directory
        } else {
            FileKind::RegularFile
        },
        perm: perm as u16,
        nlink: 0,
        uid: m.uid,
        gid: m.gid,
        rdev: m.rdev as u32,
        blksize: m.blksize as u32,
        flags: 0,
    }
}

/// `size` divided by `unit`, rounded up; zero for a unit of zero.
pub open spec fn blocks_for(size: u64, unit: u32) -> u64 {
    if unit == 0 {
        0
    } else if size % (unit as u64) == 0 {
        size / (unit as u64)
    } else {
        (size / (unit as u64) + 1) as u64
    }
}

/// What a walk of one source subtree found: the subtree root's own metadata,
/// and the entries below it in walk order.
pub struct Scan {
    pub meta: EntryMeta,
    pub entries: Vec<SourceEntry>,
}

/// The attributes of the archive of `scan` made at `now`, given its blocks.
pub open spec fn archive_attr(scan_meta: EntryMeta, blocks: Seq<Block>, now: Time) -> FileAttrs {
    let a = derived_attr(scan_meta, false, now);
    FileAttrs { size: total_size(blocks) as u64, blocks: blocks_for(total_size(blocks) as u64, a.blksize), ..a }
}

/// The cache entry of one virtual archive.
pub struct InodeInfo {
    /// The source subtree, its source directory included.
    pub path: String,
    /// The blocks of the archive, for reads at any offset.
    pub blocks: Vec<Block>,
    pub attr: FileAttrs,
    /// When the blocks were laid out.
    pub timestamp: Time,
}

impl InodeInfo {
    /// The blocks are a well-formed layout, and the attributes describe a
    /// regular file of their length.
    pub open spec fn wf(&self) -> bool {
        &&& blocks_wf(self.blocks@)
        &&& self.attr.size == total_size(self.blocks@)
        &&& self.attr.blocks == blocks_for(self.attr.size, self.attr.blksize)
        &&& self.attr.kind == FileKind::RegularFile
    }

    /// The blocks and attributes of the archive of `scan`, at `now`.
    fn get_metadata(scan: &Scan, now: Time) -> (r: Result<(Vec<Block>, FileAttrs), ArchiveError>)
        ensures
            r is Ok ==> blocks_wf(r->Ok_0.0@),
            r is Ok ==> r->Ok_0.1 == archive_attr(scan.meta, r->Ok_0.0@, now),
            r is Ok ==> laid_out(r->Ok_0.0@, scan.entries@),
            r is Err ==> r->Err_0 == ArchiveError::MalformedPath || r->Err_0
                == ArchiveError::TooLarge,
            r is Err ==> load_blocks_fails(scan.entries@),
    {
        let mut attr = derive_attr(&scan.meta, false, now);
        let blocks = match load_blocks(&scan.entries) {
            Ok(b) => b,
            Err(e) => {
                return Err(e);
            },
        };
        attr.size = size_of_blocks(&blocks);
        attr.blocks = div_ceil(attr.size, attr.blksize);
        Ok((blocks, attr))
    }

    /// A cache entry for the subtree at `path`, from a walk of it made at `now`.
    pub fn new(path: String, scan: &Scan, now: Time) -> (r: Result<Self, ArchiveError>)
        ensures
            r is Ok ==> r->Ok_0.wf() && r->Ok_0.path == path && r->Ok_0.timestamp == now,
            r is Ok ==> r->Ok_0.attr == archive_attr(scan.meta, r->Ok_0.blocks@, now),
            r is Ok ==> laid_out(r->Ok_0.blocks@, scan.entries@),
            r is Err ==> load_blocks_fails(scan.entries@),
    {
        let (blocks, attr) = match InodeInfo::get_metadata(scan, now) {
            Ok(x) => x,
            Err(e) => {
                return Err(e);
            },
        };
        Ok(InodeInfo { path, blocks, attr, timestamp: now })
    }

    /// Whether the entry made at its timestamp is older than `timeout` at
    /// `now`; an entry from the future counts as outdated too.
    pub fn outdated(&self, now: Time, timeout: Time) -> (r: bool)
        ensures
            r == (nanos_of(now) < nanos_of(self.timestamp) || nanos_of(now) - nanos_of(self.timestamp)
                > nanos_of(timeout)),
    {
        let n = to_nanos(now);
        let t = to_nanos(self.timestamp);
        if n < t {
            true
        } else {
            n - t > to_nanos(timeout)
        }
    }

    /// Lays the archive out again from `scan`, a walk made at `now`, where the
    /// entry is outdated; leaves it as it is otherwise.
    pub fn update_info(&mut self, scan: &Scan, now: Time, timeout: Time) -> (r: Result<(), ArchiveError>)
        requires
            old(self).wf(),
        ensures
            final(self).wf(),
            final(self).path == old(self).path,
            !old(self).outdated_at(now, timeout) ==> r is Ok && *final(self) == *old(self),
            old(self).outdated_at(now, timeout) ==> (r is Err ==> load_blocks_fails(scan.entries@)),
            r is Err ==> r->Err_0 == ArchiveError::MalformedPath || r->Err_0
                == ArchiveError::TooLarge,
            old(self).outdated_at(now, timeout) && r is Ok ==> final(self).timestamp == now
                && final(self).attr == archive_attr(scan.meta, final(self).blocks@, now)
                && laid_out(final(self).blocks@, scan.entries@),
            r is Err ==> *final(self) == *old(self),
    {
        if self.outdated(now, timeout) {
            let (blocks, attr) = match InodeInfo::get_metadata(scan, now) {
                Ok(x) => x,
                Err(e) => {
                    return Err(e);
                },
            };
            self.attr = attr;
            self.blocks = blocks;
            self.timestamp = now;
        }
        Ok(())
    }

    pub open spec fn outdated_at(&self, now: Time, timeout: Time) -> bool {
        nanos_of(now) < nanos_of(self.timestamp) || nanos_of(now) - nanos_of(self.timestamp)
            > nanos_of(timeout)
    }
}

/// Whether laying out these entries fails: an entry that cannot be written,
/// or an archive longer than the largest offset.
pub open spec fn load_blocks_fails(es: Seq<SourceEntry>) -> bool {
    !(crate::layout::entries_ok(es) && crate::layout::spans(es) + 1024 <= u64::MAX)
}

/// `size` divided by `unit`, rounded up; zero for a unit of zero.
pub fn div_ceil(size: u64, unit: u32) -> (r: u64)
    ensures
        r == blocks_for(size, unit),
{
    if unit == 0 {
        0
    } else {
        let u = unit as u64;
        let q = size / u;
        if size % u == 0 {
            q
        } else {
            proof {
                assert(q < size || q == 0) by (nonlinear_arith)
                    requires
                        q == size / u,
                        u >= 1,
                        size % u != 0,
                ;
            }
            q + 1
        }
    }
}

} // verus!
