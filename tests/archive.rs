use snapshotfs::blocks::{assemble, read_from_blocks, size_of_blocks, Block, BlockReader, Piece, Reader};
use snapshotfs::entry::{EntryKind, EntryMeta, SourceEntry};
use snapshotfs::error::ArchiveError;
use snapshotfs::layout::load_blocks;
use snapshotfs::pax::{PaxAttr, PaxHeader, AsBytes};

fn meta(kind: EntryKind, size: u64) -> EntryMeta {
    EntryMeta {
        kind,
        mode: if kind == EntryKind::Directory { 0o040755 } else { 0o100644 },
        uid: 1000,
        gid: 100,
        size,
        mtime: 1_700_000_000,
        mtime_nsec: 0,
        ino: 42,
        blocks: 8,
        rdev: 0,
        blksize: 4096,
        link_target: None,
    }
}

fn file(path: &str, rel: &str, size: u64) -> SourceEntry {
    SourceEntry { path: path.to_string(), rel_path: rel.to_string(), meta: meta(EntryKind::File, size) }
}

fn dir(path: &str, rel: &str) -> SourceEntry {
    SourceEntry { path: path.to_string(), rel_path: rel.to_string(), meta: meta(EntryKind::Directory, 4096) }
}

/// Reads through the library, taking file content from `files`.
fn read(blocks: &Vec<Block>, files: &[(&str, &[u8])], offset: u64, size: usize) -> Vec<u8> {
    let pieces = read_from_blocks(blocks, offset, size);
    let mut data = Vec::new();
    for p in &pieces {
        if let Piece::File { path, offset, len } = p {
            let content = files.iter().find(|f| f.0 == path.as_str()).unwrap().1;
            let start = (*offset as usize).min(content.len());
            let end = (start + *len).min(content.len());
            data.push(content[start..end].to_vec());
        }
    }
    assemble(&pieces, &data).unwrap()
}

fn checksum_holds(h: &[u8]) -> bool {
    let mut sum: u32 = 0;
    for (i, b) in h.iter().enumerate() {
        sum += if (148..156).contains(&i) { 32 } else { *b as u32 };
    }
    let field = std::str::from_utf8(&h[148..154]).unwrap();
    u32::from_str_radix(field, 8).unwrap() == sum && h[154] == 0 && h[155] == b' '
}

fn octal(field: &[u8]) -> u64 {
    let s: String = field.iter().take_while(|b| **b != 0).map(|b| *b as char).collect();
    u64::from_str_radix(s.trim(), 8).unwrap()
}

#[test]
fn empty_subdir_is_1024_zero_bytes() {
    let blocks = load_blocks(&vec![]).unwrap();
    assert_eq!(size_of_blocks(&blocks), 1024);
    assert_eq!(read(&blocks, &[], 0, 512), vec![0u8; 512]);
    assert_eq!(read(&blocks, &[], 0, 4096), vec![0u8; 1024]);
    assert!(read(&blocks, &[], 1024, 1).is_empty());
}

#[test]
fn single_small_file() {
    let entries = vec![file("/src/a/hello", "a/hello", 11)];
    let blocks = load_blocks(&entries).unwrap();
    assert_eq!(size_of_blocks(&blocks), 2048);
    let files: &[(&str, &[u8])] = &[("/src/a/hello", b"hello world")];
    let all = read(&blocks, files, 0, 4096);
    assert_eq!(all.len(), 2048);
    assert_eq!(&all[512..523], b"hello world");
    assert!(all[523..1024].iter().all(|b| *b == 0));
    assert!(all[1024..].iter().all(|b| *b == 0));
    let h = &all[0..512];
    assert_eq!(&h[0..8], b"a/hello\0");
    assert_eq!(&h[257..263], b"ustar\0");
    assert_eq!(&h[263..265], b"00");
    assert_eq!(h[156], b'0');
    assert_eq!(&h[124..136], b"00000000013\0");
    assert_eq!(&h[100..108], b"0000644\0");
    assert_eq!(octal(&h[108..116]), 1000);
    assert_eq!(octal(&h[116..124]), 100);
    assert_eq!(octal(&h[136..148]), 1_700_000_000);
    assert_eq!(&h[329..337], b"0000000\0");
    assert_eq!(&h[337..345], b"0000000\0");
    assert!(checksum_holds(h));
}

#[test]
fn long_path_uses_pax_extension() {
    let rel = format!("b/{}", "p".repeat(148));
    assert_eq!(rel.len(), 150);
    let abs = format!("/src/{}", rel);
    let entries = vec![file(&abs, &rel, 5)];
    let blocks = load_blocks(&entries).unwrap();
    let files: &[(&str, &[u8])] = &[(abs.as_str(), b"12345")];
    let total = size_of_blocks(&blocks) as usize;
    let all = read(&blocks, files, 0, total);
    let h0 = &all[0..512];
    assert_eq!(h0[156], b'x');
    assert!(checksum_holds(h0));
    let payload_len = octal(&h0[124..136]) as usize;
    let record = format!("{} path={}\n", 160, rel);
    assert_eq!(record.len(), 160);
    assert_eq!(payload_len, record.len());
    assert_eq!(&all[512..512 + payload_len], record.as_bytes());
    assert!(all[512 + payload_len..1024].iter().all(|b| *b == 0));
    let h1 = &all[1024..1536];
    assert_eq!(h1[156], b'0');
    assert_eq!(octal(&h1[124..136]), 5);
    assert!(checksum_holds(h1));
    assert_eq!(&all[1536..1541], b"12345");
    assert_eq!(total, 1536 + 512 + 1024);
}

#[test]
fn random_access_consistency() {
    let entries = vec![file("/src/a/hello", "a/hello", 11)];
    let blocks = load_blocks(&entries).unwrap();
    let files: &[(&str, &[u8])] = &[("/src/a/hello", b"hello world")];
    let whole = read(&blocks, files, 0, 4096);
    for k in [0u64, 100, 511, 512, 513, 1000, 2047, 2048, 2100] {
        let mut joined = read(&blocks, files, 0, k as usize);
        joined.extend(read(&blocks, files, k, 4096));
        assert_eq!(joined, whole, "split at {}", k);
    }
}

#[test]
fn read_equals_slice_of_whole_archive() {
    let entries = vec![
        dir("/src/d", "d"),
        file("/src/d/one", "d/one", 700),
        file("/src/d/two", "d/two", 0),
        file("/src/d/three", "d/three", 512),
    ];
    let one: Vec<u8> = (0..700u32).map(|i| (i % 251) as u8).collect();
    let three = vec![7u8; 512];
    let files: &[(&str, &[u8])] = &[("/src/d/one", &one), ("/src/d/two", b""), ("/src/d/three", &three)];
    let blocks = load_blocks(&entries).unwrap();
    let total = size_of_blocks(&blocks) as usize;
    assert_eq!(total, 512 + 512 + 1024 + 512 + 512 + 512 + 1024);
    let whole = read(&blocks, files, 0, total);
    for o in [0usize, 1, 511, 512, 1023, 1024, 1500, 2048, 2560, 3071, 3072, total - 1, total] {
        for s in [0usize, 1, 100, 512, 5000] {
            let end = (o + s).min(total);
            assert_eq!(read(&blocks, files, o as u64, s), whole[o..end].to_vec());
        }
    }
}

#[test]
fn blocks_are_contiguous_and_aligned() {
    let entries = vec![dir("/s/x", "x"), file("/s/x/f", "x/f", 1000), file("/s/x/g", "x/g", 1)];
    let blocks = load_blocks(&entries).unwrap();
    assert_eq!(blocks[0].offset, 0);
    for w in blocks.windows(2) {
        assert_eq!(w[1].offset, w[0].offset + size_of(&w[0]) as u64);
    }
    for b in &blocks {
        match &b.reader {
            BlockReader::Padding(p) => assert_eq!((b.offset + p.size as u64) % 512, 0),
            _ => assert_eq!(b.offset % 512, 0),
        }
    }
    let last = blocks.last().unwrap();
    match &last.reader {
        BlockReader::Padding(p) => assert!(p.size >= 1024),
        _ => panic!("archive does not end with padding"),
    }
    let sum: usize = blocks.iter().map(size_of).sum();
    assert_eq!(sum as u64, size_of_blocks(&blocks));
}

fn size_of(b: &Block) -> usize {
    b.reader.size()
}

#[test]
fn short_file_read_fails() {
    let entries = vec![file("/src/a/hello", "a/hello", 11)];
    let blocks = load_blocks(&entries).unwrap();
    let pieces = read_from_blocks(&blocks, 0, 2048);
    assert_eq!(assemble(&pieces, &vec![b"hello".to_vec()]), Err(ArchiveError::ShortRead));
    assert_eq!(assemble(&pieces, &vec![]), Err(ArchiveError::ShortRead));
    assert_eq!(assemble(&pieces, &vec![b"hello world".to_vec(), vec![]]), Err(ArchiveError::ShortRead));
}

#[test]
fn malformed_path_is_refused() {
    assert_eq!(load_blocks(&vec![file("/s/../x", "../x", 1)]).err(), Some(ArchiveError::MalformedPath));
    assert_eq!(load_blocks(&vec![file("/x", "/x", 1)]).err(), Some(ArchiveError::MalformedPath));
}

#[test]
fn oversized_archive_is_refused() {
    let entries = vec![file("/s/a/big", "a/big", u64::MAX - 100)];
    assert_eq!(load_blocks(&entries).err(), Some(ArchiveError::TooLarge));
}

#[test]
fn symlink_records_its_target() {
    let mut m = meta(EntryKind::Symlink, 9);
    m.link_target = Some("target/file".to_string());
    let entries = vec![SourceEntry { path: "/s/l/ln".to_string(), rel_path: "l/ln".to_string(), meta: m }];
    let blocks = load_blocks(&entries).unwrap();
    assert_eq!(size_of_blocks(&blocks), 512 + 1024);
    let h = read(&blocks, &[], 0, 512);
    assert_eq!(h[156], b'2');
    assert_eq!(&h[157..169], b"target/file\0");
    assert_eq!(octal(&h[124..136]), 0);
    assert!(checksum_holds(&h));
}

#[test]
fn absolute_and_parent_link_targets_are_kept() {
    for target in ["/etc/hosts", "../up/there", "./here"] {
        let mut m = meta(EntryKind::Symlink, 0);
        m.link_target = Some(target.to_string());
        let entries = vec![SourceEntry { path: "/s/l/ln".to_string(), rel_path: "l/ln".to_string(), meta: m }];
        let blocks = load_blocks(&entries).unwrap();
        let h = read(&blocks, &[], 0, 512);
        assert_eq!(&h[157..157 + target.len()], target.as_bytes());
        assert_eq!(h[157 + target.len()], 0);
        assert!(checksum_holds(&h));
    }
}

#[test]
fn large_numbers_use_base_256() {
    let mut m = meta(EntryKind::File, 9_000_000_000);
    m.uid = 3_000_000;
    let h0 = PaxHeader::new("a/big", &m).unwrap();
    let mut h = Vec::new();
    h0.to_readers()[0].read_at(&mut h, 0, 512);
    assert_eq!(&h[108..116], &[0x80, 0, 0, 0, 0, 0x2d, 0xc6, 0xc0]);
    let mut size = vec![0x80u8, 0, 0, 0];
    size.extend_from_slice(&9_000_000_000u64.to_be_bytes());
    assert_eq!(&h[124..136], &size[..]);
    assert!(checksum_holds(&h));
}

#[test]
fn directory_header_has_no_content() {
    let blocks = load_blocks(&vec![dir("/s/d", "d")]).unwrap();
    assert_eq!(size_of_blocks(&blocks), 512 + 1024);
    let h = read(&blocks, &[], 0, 512);
    assert_eq!(h[156], b'5');
    assert_eq!(&h[100..108], b"0000755\0");
    assert_eq!(octal(&h[124..136]), 0);
}

#[test]
fn pax_record_lengths() {
    let mut a = PaxAttr::new();
    a.add("ab", "abc");
    assert_eq!(a.bytes(), b"9 ab=abc\n");
    let mut b = PaxAttr::new();
    b.add("ab", "abcd");
    assert_eq!(b.bytes(), b"11 ab=abcd\n");
    let mut c = PaxAttr::new();
    c.add("path", "x");
    c.add("k", "");
    assert_eq!(c.bytes(), b"9 path=x\n5 k=\n");
    let long = "q".repeat(95);
    let mut d = PaxAttr::new();
    d.add("path", &long);
    let text = String::from_utf8(d.bytes().to_vec()).unwrap();
    assert_eq!(text, format!("105 path={}\n", long));
    let big = "q".repeat(990);
    let mut e = PaxAttr::new();
    e.add("path", &big);
    assert_eq!(e.bytes().len(), 1001);
    assert!(e.bytes().starts_with(b"1001 path="));
}

#[test]
fn every_header_record_has_a_valid_checksum() {
    let m = meta(EntryKind::File, 123);
    let short = PaxHeader::new("a/b/c", &m).unwrap();
    for r in short.to_readers() {
        let mut v = Vec::new();
        r.read_at(&mut v, 0, 512);
        assert!(checksum_holds(&v));
    }
    let path = format!("x/{}", "y".repeat(120));
    let long = PaxHeader::new(&path, &m).unwrap();
    let readers = long.to_readers();
    assert_eq!(readers.len(), 3);
    let mut h0 = Vec::new();
    readers[0].read_at(&mut h0, 0, 512);
    assert!(checksum_holds(&h0));
    assert_eq!(&h0[0..10], b"PaxHeader\0");
    let mut h1 = Vec::new();
    readers[2].read_at(&mut h1, 0, 512);
    assert!(checksum_holds(&h1));
    assert_eq!(octal(&h1[124..136]), 123);
}

#[test]
fn extraction_round_trip() {
    let mut exec = meta(EntryKind::File, 6);
    exec.mode = 0o100755;
    exec.uid = 1234;
    exec.gid = 4321;
    exec.mtime = 1_600_000_123;
    let deep = format!("r/{}/f", "n".repeat(120));
    let entries = vec![
        dir("/s/r", "r"),
        SourceEntry { path: "/s/r/run".to_string(), rel_path: "r/run".to_string(), meta: exec },
        file("/s/r/deep", &deep, 3),
    ];
    let files: &[(&str, &[u8])] = &[("/s/r/run", b"#!/bin"), ("/s/r/deep", b"abc")];
    let blocks = load_blocks(&entries).unwrap();
    let bytes = read(&blocks, files, 0, size_of_blocks(&blocks) as usize);
    let mut archive = tar::Archive::new(&bytes[..]);
    let mut seen = Vec::new();
    for e in archive.entries().unwrap() {
        let mut e = e.unwrap();
        let path = e.path().unwrap().to_string_lossy().to_string();
        let h = e.header().clone();
        let mut content = Vec::new();
        std::io::Read::read_to_end(&mut e, &mut content).unwrap();
        seen.push((path, h.mode().unwrap(), h.uid().unwrap(), h.gid().unwrap(), h.mtime().unwrap(), content));
    }
    assert_eq!(seen.len(), 3);
    assert_eq!(seen[0].0, "r");
    assert_eq!(seen[0].1, 0o755);
    assert_eq!(seen[1], ("r/run".to_string(), 0o755, 1234, 4321, 1_600_000_123, b"#!/bin".to_vec()));
    assert_eq!(seen[2], (deep.clone(), 0o644, 1000, 100, 1_700_000_000, b"abc".to_vec()));
}
