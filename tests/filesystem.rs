use snapshotfs::blocks::{assemble, Piece};
use snapshotfs::entry::{EntryKind, EntryMeta, SourceEntry};
use snapshotfs::error::ArchiveError;
use snapshotfs::metadata::{
    derive_attr, derive_ino, div_ceil, unix_time, FileKind, InodeInfo, Scan, Time, ROOT_INODE,
};
use snapshotfs::snapshot_fs::{readdir_items, stem_of, CacheCheck, Child, LookupTarget, SnapshotFS};

fn meta(kind: EntryKind, size: u64, ino: u64) -> EntryMeta {
    EntryMeta {
        kind,
        mode: if kind == EntryKind::Directory { 0o040755 } else { 0o100644 },
        uid: 1000,
        gid: 100,
        size,
        mtime: 1_700_000_000,
        mtime_nsec: 5,
        ino,
        blocks: 8,
        rdev: 0,
        blksize: 4096,
        link_target: None,
    }
}

fn scan_c(size: u64) -> Scan {
    Scan {
        meta: meta(EntryKind::Directory, 4096, 77),
        entries: vec![SourceEntry {
            path: "/src/c/x".to_string(),
            rel_path: "c/x".to_string(),
            meta: meta(EntryKind::File, size, 78),
        }],
    }
}

fn at(secs: u64, nanos: u32) -> Time {
    Time { secs, nanos }
}

fn file_piece_len(fs: &SnapshotFS, ino: u64) -> usize {
    let pieces = fs.read(ino, 512, 512).unwrap();
    match &pieces[0] {
        Piece::File { len, .. } => *len,
        _ => panic!("no file content at 512"),
    }
}

#[test]
fn ttl_refresh() {
    let mut fs = SnapshotFS::new("/src".to_string(), 1);
    let t0 = at(1000, 0);
    let target = fs.lookup_target(ROOT_INODE, "c.tar");
    let stem = match target {
        LookupTarget::Absent(s) => s,
        _ => panic!("expected an uncached name"),
    };
    assert_eq!(stem, "c");
    assert_eq!(fs.child_path(&stem), "/src/c");
    let attr = fs.add_file(&stem, &Ok(scan_c(3)), t0).unwrap();
    let ino = attr.ino;
    assert_eq!(ino, 154);
    assert_eq!(attr.size, 2048);
    assert_eq!(attr.kind, FileKind::RegularFile);
    assert_eq!(file_piece_len(&fs, ino), 3);
    assert!(matches!(fs.lookup_target(ROOT_INODE, "c.tar"), LookupTarget::Cached(i) if i == ino));

    // Within the timeout the old layout stays.
    match fs.check(ino, at(1000, 999_999_999)) {
        CacheCheck::Fresh(a) => assert_eq!(a, attr),
        _ => panic!("entry should be fresh"),
    }
    let again = fs.refresh(ino, &Ok(scan_c(5)), at(1001, 0)).unwrap();
    assert_eq!(again, attr);
    assert_eq!(file_piece_len(&fs, ino), 3);

    // After it, the entry is rebuilt from a new walk.
    let later = at(1002, 0);
    match fs.check(ino, later) {
        CacheCheck::Stale(p) => assert_eq!(p, "/src/c"),
        _ => panic!("entry should be stale"),
    }
    let fresh = fs.refresh(ino, &Ok(scan_c(5)), later).unwrap();
    assert_eq!(fresh.ino, ino);
    assert_eq!(fresh.size, 2048);
    assert_eq!(fresh.atime, later);
    assert_eq!(file_piece_len(&fs, ino), 5);
}

#[test]
fn refresh_failure_evicts() {
    let mut fs = SnapshotFS::new("/src".to_string(), 1);
    let attr = fs.add_file("c", &Ok(scan_c(3)), at(10, 0)).unwrap();
    let r = fs.refresh(attr.ino, &Err(ArchiveError::SourceIo(2)), at(20, 0));
    assert_eq!(r, Err(ArchiveError::SourceIo(2)));
    assert!(matches!(fs.check(attr.ino, at(20, 0)), CacheCheck::Missing));
    assert!(matches!(fs.read(attr.ino, 0, 10), Err(ArchiveError::NotFound)));
    assert!(matches!(fs.lookup_target(ROOT_INODE, "c.tar"), LookupTarget::Absent(_)));
    assert_eq!(fs.resolve_name("c"), None);
}

#[test]
fn failed_layout_on_refresh_drops_the_name() {
    let mut fs = SnapshotFS::new("/src".to_string(), 1);
    let attr = fs.add_file("c", &Ok(scan_c(3)), at(10, 0)).unwrap();
    let mut bad = scan_c(3);
    bad.entries[0].rel_path = "../x".to_string();
    assert_eq!(fs.refresh(attr.ino, &Ok(bad), at(20, 0)), Err(ArchiveError::MalformedPath));
    assert_eq!(fs.resolve_name("c"), None);
    let mut moved = scan_c(3);
    moved.meta.ino = 5;
    let again = fs.add_file("c", &Ok(scan_c(3)), at(30, 0)).unwrap();
    assert_eq!(fs.refresh(again.ino, &Ok(moved), at(40, 0)), Err(ArchiveError::NotFound));
    assert!(matches!(fs.check(again.ino, at(40, 0)), CacheCheck::Missing));
    assert_eq!(fs.resolve_name("c"), None);
}

#[test]
fn clock_going_back_counts_as_outdated() {
    let mut fs = SnapshotFS::new("/src".to_string(), 1);
    let attr = fs.add_file("c", &Ok(scan_c(3)), at(10, 0)).unwrap();
    assert!(matches!(fs.check(attr.ino, at(9, 0)), CacheCheck::Stale(_)));
    assert!(matches!(fs.check(attr.ino, at(11, 0)), CacheCheck::Fresh(_)));
    assert!(matches!(fs.check(attr.ino, at(11, 1)), CacheCheck::Stale(_)));
}

#[test]
fn garbage_collect_drops_outdated_entries() {
    let mut fs = SnapshotFS::new("/src".to_string(), 1);
    let a = fs.add_file("c", &Ok(scan_c(3)), at(10, 0)).unwrap();
    let mut other = scan_c(1);
    other.meta.ino = 90;
    let b = fs.add_file("d", &Ok(other), at(20, 0)).unwrap();
    fs.garbage_collect(at(20, 500));
    assert!(matches!(fs.check(a.ino, at(20, 500)), CacheCheck::Missing));
    assert!(matches!(fs.check(b.ino, at(20, 500)), CacheCheck::Fresh(_)));
    assert_eq!(fs.resolve_name("c"), None);
    assert_eq!(fs.resolve_name("d"), Some(b.ino));
}

#[test]
fn add_file_returns_cached_entry() {
    let mut fs = SnapshotFS::new("/src".to_string(), 5);
    let a = fs.add_file("c", &Ok(scan_c(3)), at(10, 0)).unwrap();
    let b = fs.add_file("c", &Err(ArchiveError::SourceIo(5)), at(11, 0)).unwrap();
    assert_eq!(a, b);
    assert_eq!(fs.add_file("e", &Err(ArchiveError::SourceIo(2)), at(11, 0)), Err(ArchiveError::SourceIo(2)));
}

#[test]
fn lookup_outside_root_finds_nothing() {
    let fs = SnapshotFS::new("/src".to_string(), 1);
    assert!(matches!(fs.lookup_target(5, "c.tar"), LookupTarget::Missing));
    assert!(matches!(fs.read(8, 0, 1), Err(ArchiveError::NotFound)));
    assert!(matches!(fs.check(8, at(0, 0)), CacheCheck::Missing));
}

#[test]
fn read_through_filesystem() {
    let mut fs = SnapshotFS::new("/src".to_string(), 1);
    let attr = fs.add_file("c", &Ok(scan_c(3)), at(10, 0)).unwrap();
    let pieces = fs.read(attr.ino, 510, 10).unwrap();
    let out = assemble(&pieces, &vec![b"abc".to_vec()]).unwrap();
    assert_eq!(out, vec![0, 0, b'a', b'b', b'c', 0, 0, 0, 0, 0]);
}

#[test]
fn stems() {
    assert_eq!(stem_of("c.tar"), "c");
    assert_eq!(stem_of("c"), "c");
    assert_eq!(stem_of("a.tar.tar"), "a.tar");
    assert_eq!(stem_of(".tar"), "");
}

#[test]
fn directory_listing() {
    let children = vec![Child { ino: 10, name: "x".to_string() }, Child { ino: 12, name: "y".to_string() }];
    let all = readdir_items(ROOT_INODE, 0, &children).unwrap();
    let names: Vec<&str> = all.iter().map(|i| i.name.as_str()).collect();
    assert_eq!(names, vec![".", "..", "x.tar", "y.tar"]);
    let cookies: Vec<u64> = all.iter().map(|i| i.cookie).collect();
    assert_eq!(cookies, vec![1, 2, 3, 4]);
    assert_eq!(all[0].ino, ROOT_INODE);
    assert_eq!(all[0].kind, FileKind::Directory);
    assert_eq!(all[3].ino, 12);
    assert_eq!(all[3].kind, FileKind::RegularFile);
    let rest = readdir_items(ROOT_INODE, 3, &children).unwrap();
    assert_eq!(rest.len(), 1);
    assert_eq!(rest[0].name, "y.tar");
    assert_eq!(rest[0].cookie, 4);
    assert!(readdir_items(ROOT_INODE, 9, &children).unwrap().is_empty());
    assert!(matches!(readdir_items(4, 0, &children), Err(ArchiveError::NotFound)));
}

#[test]
fn inode_derivation() {
    assert_eq!(derive_ino(1), 2);
    assert_eq!(derive_ino(12345), 24690);
    assert_eq!(derive_ino(0x7fff_ffff_ffff_ffff), 0xffff_ffff_ffff_fffe);
    assert_eq!(derive_ino(0x8000_0000_0000_0001), 2);
    assert_eq!(ROOT_INODE, 1);
    let now = at(5, 6);
    let m = meta(EntryKind::Directory, 4096, 21);
    let root = derive_attr(&m, true, now);
    assert_eq!(root.ino, 1);
    assert_eq!(root.kind, FileKind::Directory);
    let archive = derive_attr(&m, false, now);
    assert_eq!(archive.ino, 42);
    assert_eq!(archive.kind, FileKind::RegularFile);
    assert_eq!(archive.perm, 0o644);
    assert_eq!(archive.nlink, 0);
    assert_eq!(archive.mtime, at(1_700_000_000, 5));
    assert_eq!(archive.atime, now);
    assert_eq!(archive.ctime, now);
    let f = derive_attr(&meta(EntryKind::File, 1, 3), false, now);
    assert_eq!(f.perm, 0o644);
    let mut x = meta(EntryKind::File, 1, 3);
    x.mode = 0o104755;
    assert_eq!(derive_attr(&x, false, now).perm, 0o4755);
}

#[test]
fn inode_info_attributes() {
    let info = InodeInfo::new("/src/c".to_string(), &scan_c(3), at(1, 0)).unwrap();
    assert_eq!(info.attr.size, 2048);
    assert_eq!(info.attr.blocks, 1);
    assert_eq!(info.attr.ino, 154);
    assert!(!info.outdated(at(2, 0), at(1, 0)));
    assert!(info.outdated(at(2, 1), at(1, 0)));
    let mut bad = scan_c(3);
    bad.entries[0].rel_path = "../x".to_string();
    assert_eq!(InodeInfo::new("/src/c".to_string(), &bad, at(1, 0)).err(), Some(ArchiveError::MalformedPath));
}

#[test]
fn update_info_only_when_outdated() {
    let mut info = InodeInfo::new("/src/c".to_string(), &scan_c(3), at(1, 0)).unwrap();
    info.update_info(&scan_c(5), at(1, 500), at(1, 0)).unwrap();
    assert_eq!(info.timestamp, at(1, 0));
    info.update_info(&scan_c(5), at(3, 0), at(1, 0)).unwrap();
    assert_eq!(info.timestamp, at(3, 0));
    assert_eq!(info.path, "/src/c");
}

#[test]
fn small_helpers() {
    assert_eq!(div_ceil(0, 4096), 0);
    assert_eq!(div_ceil(1, 4096), 1);
    assert_eq!(div_ceil(4096, 4096), 1);
    assert_eq!(div_ceil(4097, 4096), 2);
    assert_eq!(div_ceil(10, 0), 0);
    assert_eq!(unix_time(1_600_000_000), at(1_600_000_000, 0));
}
