//! The layout of a virtual archive: from the entries of a walk over a source
//! subtree to the blocks of its pax tar stream.

use vstd::prelude::*;
use vstd::utf8::encode_utf8;
use vstd::string::StringSliceAdditionalSpecFns;
use crate::blocks::{Block, BlockReader, ByteSource, FileReader, PaddingReader, Reader};
use crate::blocks::{block_content, block_size, blocks_wf, total_size};
use crate::decimal::{record_len, lemma_record_len};
use crate::entry::{EntryKind, SourceEntry};
use crate::error::ArchiveError;
use crate::pax::{HeaderReader, PaxHeader, link_ok, pax_record, path_key};
use crate::pax::{ext_record, meta_record, ustar_record};
use crate::pax::lemma_header_reader_size;
use crate::ustar::{checksum_ok, is_ustar, plain_path};

verus! {

/// The kind and size of a block, and for a file block the file it reads.
pub enum Shape {
    Header(nat),
    File(Seq<char>, nat),
    Padding(nat),
}

pub open spec fn shape_of(b: Block) -> Shape {
    match b.reader {
        BlockReader::File(f) => Shape::File(f.path@, f.size as nat),
        BlockReader::Header(h) => Shape::Header(h@.len()),
        BlockReader::Padding(p) => Shape::Padding(p.size as nat),
    }
}

pub open spec fn shapes(bs: Seq<Block>) -> Seq<Shape> {
    bs.map_values(|b: Block| shape_of(b))
}

/// What a block holds: bytes known from the layout, a range of a source file,
/// or zeros.
pub enum Content {
    Bytes(Seq<u8>),
    File(Seq<char>, nat),
    Zeros(nat),
}

pub open spec fn content_of(b: Block) -> Content {
    match b.reader {
        BlockReader::File(f) => Content::File(f.path@, f.size as nat),
        BlockReader::Header(h) => Content::Bytes(h@),
        BlockReader::Padding(p) => Content::Zeros(p.size as nat),
    }
}

pub open spec fn contents(bs: Seq<Block>) -> Seq<Content> {
    bs.map_values(|b: Block| content_of(b))
}

/// The zeros that follow `len` bytes which start on a 512-byte boundary.
pub open spec fn zeros_for(len: nat) -> Seq<Content> {
    if len % 512 == 0 {
        Seq::empty()
    } else {
        seq![Content::Zeros((512 - len % 512) as nat)]
    }
}

/// Header records, each followed by its padding.
pub open spec fn padded_records(rs: Seq<Seq<u8>>) -> Seq<Content>
    decreases rs.len(),
{
    if rs.len() == 0 {
        Seq::empty()
    } else {
        padded_records(rs.drop_last()) + seq![Content::Bytes(rs.last())] + zeros_for(rs.last().len())
    }
}

/// The header records of entry `e`: one ustar record for a short path; for a
/// long one, the record announcing a pax extension, the extension, and the
/// record with the metadata.
pub open spec fn records_of(e: SourceEntry) -> Seq<Seq<u8>> {
    let b = rel_bytes(e);
    if b.len() < 100 {
        seq![ustar_record(b, e.meta)]
    } else {
        let a = pax_record(path_key(), b);
        seq![ext_record(a.len()), a, meta_record(e.meta)]
    }
}

/// The blocks of entry `e`, by content.
pub open spec fn entry_contents(e: SourceEntry) -> Seq<Content> {
    padded_records(records_of(e)) + if e.meta.kind == EntryKind::File {
        seq![Content::File(e.path@, e.meta.size as nat)] + zeros_for(e.meta.size as nat)
    } else {
        Seq::empty()
    }
}

/// The blocks of all entries, by content, before the end-of-archive marker.
pub open spec fn archive_contents(es: Seq<SourceEntry>) -> Seq<Content>
    decreases es.len(),
{
    if es.len() == 0 {
        Seq::empty()
    } else {
        archive_contents(es.drop_last()) + entry_contents(es.last())
    }
}

/// The header records of entry `e` are fixed by its path and metadata: the
/// path is in plain form where it is short, and a link target is one that tar
/// copies as it is.
pub open spec fn entry_exact(e: SourceEntry) -> bool {
    &&& link_ok(e.meta)
    &&& rel_bytes(e).len() < 100 ==> plain_path(rel_bytes(e))
}

pub open spec fn entries_exact(es: Seq<SourceEntry>) -> bool {
    forall|i: int| 0 <= i < es.len() ==> entry_exact(#[trigger] es[i])
}

/// `bs` is the layout of the entries `es`: their blocks by shape, then the
/// end-of-archive marker; by content too where every entry's records are fixed.
pub open spec fn laid_out(bs: Seq<Block>, es: Seq<SourceEntry>) -> bool {
    &&& shapes(bs) == layout(es).push(Shape::Padding(1024))
    &&& entries_exact(es) ==> contents(bs) == archive_contents(es).push(Content::Zeros(1024))
}

/// The padding that follows `len` bytes which start on a 512-byte boundary.
pub open spec fn pad_for(len: nat) -> Seq<Shape> {
    if len % 512 == 0 {
        Seq::empty()
    } else {
        seq![Shape::Padding((512 - len % 512) as nat)]
    }
}

/// `len` rounded up to a multiple of 512.
pub open spec fn round512(len: nat) -> nat {
    if len % 512 == 0 {
        len
    } else {
        (len + 512 - len % 512) as nat
    }
}

/// The sizes of the header records of an entry whose path takes `len` bytes.
pub open spec fn header_sizes(len: nat) -> Seq<nat> {
    if len < 100 {
        seq![512nat]
    } else {
        seq![512nat, record_len(len + 7), 512nat]
    }
}

/// Header records of these sizes, each followed by its padding.
pub open spec fn header_shapes(sizes: Seq<nat>) -> Seq<Shape>
    decreases sizes.len(),
{
    if sizes.len() == 0 {
        Seq::empty()
    } else {
        header_shapes(sizes.drop_last()) + seq![Shape::Header(sizes.last())] + pad_for(
            sizes.last(),
        )
    }
}

/// The bytes that header records of these sizes take with their padding.
pub open spec fn rounded_sum(sizes: Seq<nat>) -> nat
    decreases sizes.len(),
{
    if sizes.len() == 0 {
        0
    } else {
        rounded_sum(sizes.drop_last()) + round512(sizes.last())
    }
}

/// The bytes of the relative path of entry `e`.
pub open spec fn rel_bytes(e: SourceEntry) -> Seq<u8> {
    encode_utf8(e.rel_path@)
}

/// The blocks of one entry: its header records, then for a regular file its
/// content, each followed by padding to a 512-byte boundary.
pub open spec fn entry_shapes(e: SourceEntry) -> Seq<Shape> {
    header_shapes(header_sizes(rel_bytes(e).len())) + if e.meta.kind == EntryKind::File {
        seq![Shape::File(e.path@, e.meta.size as nat)] + pad_for(e.meta.size as nat)
    } else {
        Seq::empty()
    }
}

/// The bytes that entry `e` takes in the archive.
pub open spec fn entry_span(e: SourceEntry) -> nat {
    rounded_sum(header_sizes(rel_bytes(e).len())) + if e.meta.kind == EntryKind::File {
        round512(e.meta.size as nat)
    } else {
        0
    }
}

/// The blocks of all entries, in order, before the end-of-archive marker.
pub open spec fn layout(es: Seq<SourceEntry>) -> Seq<Shape>
    decreases es.len(),
{
    if es.len() == 0 {
        Seq::empty()
    } else {
        layout(es.drop_last()) + entry_shapes(es.last())
    }
}

/// The bytes that all entries take.
pub open spec fn spans(es: Seq<SourceEntry>) -> nat
    decreases es.len(),
{
    if es.len() == 0 {
        0
    } else {
        spans(es.drop_last()) + entry_span(es.last())
    }
}

/// Entry `e` can be written: a short path in plain form, an acceptable link
/// target, and lengths that fit the machine.
pub open spec fn entry_ok(e: SourceEntry) -> bool {
    &&& rel_bytes(e).len() < 100 ==> plain_path(rel_bytes(e))
    &&& link_ok(e.meta)
    &&& rel_bytes(e).len() + 256 <= usize::MAX
    &&& e.meta.size <= usize::MAX
}

pub open spec fn entries_ok(es: Seq<SourceEntry>) -> bool {
    forall|i: int| 0 <= i < es.len() ==> entry_ok(#[trigger] es[i])
}

/// Every header or content block starts on a 512-byte boundary, and every
/// padding block ends on one.
pub open spec fn aligned(bs: Seq<Block>) -> bool {
    forall|i: int|
        0 <= i < bs.len() ==> match #[trigger] bs[i].reader {
            BlockReader::Padding(p) => (bs[i].offset + p.size) % 512 == 0,
            _ => bs[i].offset % 512 == 0,
        }
}

/// The last block is padding of at least 1024 bytes.
pub open spec fn terminated(bs: Seq<Block>) -> bool {
    &&& bs.len() > 0
    &&& bs.last().reader is Padding
    &&& bs.last().reader->Padding_0.size >= 1024
}

/// The end-of-archive marker: the last block is at least 1024 bytes long and
/// reads as zeros.
pub proof fn lemma_terminator_zeros(bs: Seq<Block>)
    requires
        terminated(bs),
    ensures
        block_size(bs.last()) >= 1024,
        forall|j: int|
            0 <= j < block_size(bs.last()) ==> #[trigger] block_content(bs.last())[j]
                == ByteSource::Byte(0u8),
{
}

/// A header block holds either a ustar record that satisfies the checksum rule
/// or a pax payload with a path record.
pub open spec fn header_block_sound(h: Seq<u8>) -> bool {
    (is_ustar(h) && checksum_ok(h)) || exists|p: Seq<u8>| h == pax_record(path_key(), p)
}

pub open spec fn headers_sound(bs: Seq<Block>) -> bool {
    forall|i: int|
        0 <= i < bs.len() && #[trigger] bs[i].reader is Header ==> header_block_sound(
            bs[i].reader->Header_0@,
        )
}

/// The block that pads `offset` up to the next 512-byte boundary, if it is not
/// on one.
pub fn create_padding(offset: u64) -> (r: Option<Block>)
    ensures
        offset % 512 == 0 ==> r is None,
        offset % 512 != 0 ==> r == Some(
            Block {
                reader: BlockReader::Padding(PaddingReader { size: (512 - offset % 512) as usize }),
                offset,
            },
        ),
{
    if offset % 512 != 0 {
        let padding: u64 = 512 - offset % 512;
        Some(
            Block {
                reader: BlockReader::Padding(PaddingReader { size: padding as usize }),
                offset,
            },
        )
    } else {
        None
    }
}

/// The state of a layout under construction.
pub open spec fn building(bs: Seq<Block>, offset: u64) -> bool {
    &&& blocks_wf(bs)
    &&& offset == total_size(bs)
    &&& aligned(bs)
    &&& headers_sound(bs)
}

/// Appends a block with `reader` at `offset`, unless the archive would grow
/// past the largest offset.
fn push_block(blocks: &mut Vec<Block>, offset: &mut u64, reader: BlockReader) -> (ok: bool)
    requires
        building(old(blocks)@, *old(offset)),
        *old(offset) % 512 == 0,
        reader is Header ==> header_block_sound(reader->Header_0@),
        !(reader is Padding),
    ensures
        ok <==> *old(offset) + reader.spec_size() <= u64::MAX,
        ok ==> final(blocks)@ == old(blocks)@.push(Block { reader, offset: *old(offset) }),
        ok ==> *final(offset) == *old(offset) + reader.spec_size(),
        ok ==> building(final(blocks)@, *final(offset)),
{
    let size = reader.size();
    if size as u64 > u64::MAX - *offset {
        return false;
    }
    let ghost old_bs = blocks@;
    let b = Block { reader, offset: *offset };
    blocks.push(b);
    *offset = *offset + size as u64;
    proof {
        assert(blocks@.drop_last() =~= old_bs);
        lemma_push_keeps(old_bs, blocks@);
    }
    true
}

/// Pads the archive to the next 512-byte boundary.
fn pad(blocks: &mut Vec<Block>, offset: &mut u64) -> (ok: bool)
    requires
        building(old(blocks)@, *old(offset)),
    ensures
        ok <==> round512(*old(offset) as nat) <= u64::MAX,
        ok ==> building(final(blocks)@, *final(offset)),
        ok ==> *final(offset) == round512(*old(offset) as nat),
        ok ==> *final(offset) % 512 == 0,
        ok ==> *old(offset) % 512 == 0 ==> final(blocks)@ == old(blocks)@,
        ok ==> *old(offset) % 512 != 0 ==> final(blocks)@ == old(blocks)@.push(
            Block {
                reader: BlockReader::Padding(
                    PaddingReader { size: (512 - *old(offset) % 512) as usize },
                ),
                offset: *old(offset),
            },
        ),
{
    match create_padding(*offset) {
        None => true,
        Some(p) => {
            let size = p.reader.size();
            if size as u64 > u64::MAX - *offset {
                return false;
            }
            let ghost old_bs = blocks@;
            blocks.push(p);
            *offset = *offset + size as u64;
            proof {
                assert(blocks@.drop_last() =~= old_bs);
                lemma_push_keeps(old_bs, blocks@);
            }
            true
        },
    }
}

/// Appends a block with `reader` and the padding after it.
proof fn lemma_round_shift(o0: nat, sz: nat)
    requires
        o0 % 512 == 0,
    ensures
        (o0 + sz) % 512 == sz % 512,
        round512(o0 + sz) == o0 + round512(sz),
        round512(sz) >= sz,
{
    assert((o0 + sz) % 512 == sz % 512) by (nonlinear_arith)
        requires
            o0 % 512 == 0,
    ;
}

proof fn lemma_padded_views(
    bs0: Seq<Block>,
    bs1: Seq<Block>,
    bs2: Seq<Block>,
    b: Block,
    o0: u64,
    o1: u64,
    sz: nat,
)
    requires
        bs1 == bs0.push(b),
        o0 % 512 == 0,
        o1 == o0 + sz,
        o1 % 512 == 0 ==> bs2 == bs1,
        o1 % 512 != 0 ==> bs2 == bs1.push(
            Block {
                reader: BlockReader::Padding(PaddingReader { size: (512 - o1 % 512) as usize }),
                offset: o1,
            },
        ),
    ensures
        shapes(bs2) == shapes(bs0).push(shape_of(b)) + pad_for(sz),
        contents(bs2) == contents(bs0).push(content_of(b)) + zeros_for(sz),
{
    assert(o1 % 512 == sz % 512);
    assert(shapes(bs1) =~= shapes(bs0).push(shape_of(b)));
    assert(contents(bs1) =~= contents(bs0).push(content_of(b)));
    if sz % 512 == 0 {
        assert(shapes(bs2) =~= shapes(bs1) + pad_for(sz));
        assert(contents(bs2) =~= contents(bs1) + zeros_for(sz));
    } else {
        assert(shapes(bs2) =~= shapes(bs1).push(Shape::Padding((512 - sz % 512) as nat)));
        assert(shapes(bs2) =~= shapes(bs1) + pad_for(sz));
        assert(contents(bs2) =~= contents(bs1).push(Content::Zeros((512 - sz % 512) as nat)));
        assert(contents(bs2) =~= contents(bs1) + zeros_for(sz));
    }
}

fn push_padded(blocks: &mut Vec<Block>, offset: &mut u64, reader: BlockReader) -> (ok: bool)
    requires
        building(old(blocks)@, *old(offset)),
        *old(offset) % 512 == 0,
        reader is Header ==> header_block_sound(reader->Header_0@),
        !(reader is Padding),
    ensures
        ok <==> *old(offset) + round512(reader.spec_size()) <= u64::MAX,
        ok ==> building(final(blocks)@, *final(offset)),
        ok ==> *final(offset) == *old(offset) + round512(reader.spec_size()),
        ok ==> *final(offset) % 512 == 0,
        ok ==> shapes(final(blocks)@) == shapes(old(blocks)@).push(
            shape_of(Block { reader, offset: *old(offset) }),
        ) + pad_for(reader.spec_size()),
        ok ==> contents(final(blocks)@) == contents(old(blocks)@).push(
            content_of(Block { reader, offset: *old(offset) }),
        ) + zeros_for(reader.spec_size()),
{
    let ghost bs0 = blocks@;
    let ghost o0 = *offset;
    let ghost sz = reader.spec_size();
    let ghost b = Block { reader, offset: *offset };
    proof {
        lemma_round_shift(o0 as nat, sz);
    }
    if !push_block(blocks, offset, reader) {
        return false;
    }
    let ghost bs1 = blocks@;
    let ghost o1 = *offset;
    if !pad(blocks, offset) {
        return false;
    }
    proof {
        lemma_padded_views(bs0, bs1, blocks@, b, o0, o1, sz);
    }
    true
}

proof fn lemma_push_keeps(a: Seq<Block>, b: Seq<Block>)
    requires
        blocks_wf(a),
        b.len() == a.len() + 1,
        b.drop_last() == a,
        b.last().offset == total_size(a),
        total_size(a) + b.last().reader.spec_size() <= u64::MAX,
        aligned(a),
        headers_sound(a),
        match b.last().reader {
            BlockReader::Padding(p) => (b.last().offset + p.size) % 512 == 0,
            _ => b.last().offset % 512 == 0,
        },
        b.last().reader is Header ==> header_block_sound(b.last().reader->Header_0@),
    ensures
        blocks_wf(b),
        total_size(b) == total_size(a) + b.last().reader.spec_size(),
        aligned(b),
        headers_sound(b),
{
    assert forall|i: int| 0 <= i < b.len() - 1 implies b[i] == a[i] by {
        assert(b.drop_last()[i] == b[i]);
    }
}

proof fn lemma_rounded_sum_take(sizes: Seq<nat>, j: int)
    requires
        0 <= j < sizes.len(),
    ensures
        rounded_sum(sizes.take(j + 1)) == rounded_sum(sizes.take(j)) + round512(sizes[j]),
        rounded_sum(sizes.take(j + 1)) <= rounded_sum(sizes),
    decreases sizes.len(),
{
    let t = sizes.take(j + 1);
    assert(t.drop_last() =~= sizes.take(j));
    if j + 1 == sizes.len() {
        assert(t =~= sizes);
    } else {
        let d = sizes.drop_last();
        lemma_rounded_sum_take(d, j);
        assert(d.take(j + 1) =~= t);
        assert(d.take(j) =~= sizes.take(j));
    }
}

proof fn lemma_header_shapes_take(sizes: Seq<nat>, j: int)
    requires
        0 <= j < sizes.len(),
    ensures
        header_shapes(sizes.take(j + 1)) == header_shapes(sizes.take(j)) + seq![
            Shape::Header(sizes[j]),
        ] + pad_for(sizes[j]),
{
    assert(sizes.take(j + 1).drop_last() =~= sizes.take(j));
}

proof fn lemma_padded_records_take(rs: Seq<Seq<u8>>, j: int)
    requires
        0 <= j < rs.len(),
    ensures
        padded_records(rs.take(j + 1)) == padded_records(rs.take(j)) + seq![
            Content::Bytes(rs[j]),
        ] + zeros_for(rs[j].len()),
{
    assert(rs.take(j + 1).drop_last() =~= rs.take(j));
}

/// The sizes of a sequence of header readers.
pub open spec fn reader_sizes(rs: Seq<HeaderReader>) -> Seq<nat> {
    rs.map_values(|x: HeaderReader| x@.len())
}

/// The bytes of a sequence of header readers.
pub open spec fn reader_views(rs: Seq<HeaderReader>) -> Seq<Seq<u8>> {
    rs.map_values(|x: HeaderReader| x@)
}

/// Appends a block for each header reader, each followed by its padding.
fn push_headers(blocks: &mut Vec<Block>, offset: &mut u64, readers: Vec<HeaderReader>) -> (ok: bool)
    requires
        building(old(blocks)@, *old(offset)),
        *old(offset) % 512 == 0,
        forall|k: int| 0 <= k < readers@.len() ==> header_block_sound(#[trigger] readers@[k]@),
    ensures
        *old(offset) + rounded_sum(reader_sizes(readers@)) <= u64::MAX ==> ok,
        ok ==> building(final(blocks)@, *final(offset)),
        ok ==> *final(offset) == *old(offset) + rounded_sum(reader_sizes(readers@)),
        ok ==> *final(offset) % 512 == 0,
        ok ==> shapes(final(blocks)@) == shapes(old(blocks)@) + header_shapes(reader_sizes(readers@)),
        ok ==> contents(final(blocks)@) == contents(old(blocks)@) + padded_records(
            reader_views(readers@),
        ),
{
    broadcast use lemma_header_reader_size;

    let ghost rs0 = readers@;
    let ghost sizes = reader_sizes(rs0);
    let ghost views = reader_views(rs0);
    let ghost base = shapes(blocks@);
    let ghost cbase = contents(blocks@);
    let ghost off0 = *offset as nat;
    let mut rs = readers;
    let n = rs.len();
    let mut j: usize = 0;
    proof {
        assert(sizes.take(0) =~= Seq::<nat>::empty());
        assert(base + header_shapes(sizes.take(0)) =~= base);
        assert(views.take(0) =~= Seq::<Seq<u8>>::empty());
        assert(cbase + padded_records(views.take(0)) =~= cbase);
        assert(rs@ =~= rs0.skip(0));
    }
    while rs.len() > 0
        invariant
            rs@ == rs0.skip(j as int),
            j <= rs0.len(),
            n == rs0.len(),
            rs0 == readers@,
            sizes == reader_sizes(rs0),
            views == reader_views(rs0),
            forall|k: int| 0 <= k < rs0.len() ==> header_block_sound(#[trigger] rs0[k]@),
            off0 == *old(offset),
            base == shapes(old(blocks)@),
            cbase == contents(old(blocks)@),
            off0 + rounded_sum(sizes) <= u64::MAX ==> *offset == off0 + rounded_sum(
                sizes.take(j as int),
            ),
            building(blocks@, *offset),
            *offset % 512 == 0,
            *offset == off0 + rounded_sum(sizes.take(j as int)),
            shapes(blocks@) == base + header_shapes(sizes.take(j as int)),
            contents(blocks@) == cbase + padded_records(views.take(j as int)),
        decreases rs0.len() - j,
    {
        let hr = rs.remove(0);
        proof {
            assert(hr == rs0[j as int]);
            lemma_rounded_sum_take(sizes, j as int);
            lemma_header_shapes_take(sizes, j as int);
            lemma_padded_records_take(views, j as int);
        }
        let ghost bs0 = blocks@;
        let ghost o0 = *offset;
        let ghost hb = BlockReader::Header(hr);
        proof {
            lemma_header_reader_size(hr);
            assert(hb.spec_size() == sizes[j as int]);
            assert(o0 + round512(sizes[j as int]) == off0 + rounded_sum(sizes.take(j + 1)));
        }
        if !push_padded(blocks, offset, BlockReader::Header(hr)) {
            return false;
        }
        proof {
            assert(shape_of(Block { reader: hb, offset: o0 }) == Shape::Header(sizes[j as int]));
            assert(shapes(blocks@) =~= base + header_shapes(sizes.take(j + 1)));
            assert(content_of(Block { reader: hb, offset: o0 }) == Content::Bytes(views[j as int]));
            assert(contents(blocks@) =~= cbase + padded_records(views.take(j + 1)));
            assert(rs@ =~= rs0.skip(j + 1));
        }
        j = j + 1;
    }
    proof {
        assert(sizes.take(j as int) =~= sizes);
        assert(views.take(j as int) =~= views);
    }
    true
}

/// The header records of entry `e`, as readers.
fn entry_headers(e: &SourceEntry) -> (r: Result<Vec<HeaderReader>, ArchiveError>)
    ensures
        r is Ok ==> reader_sizes(r->Ok_0@) == header_sizes(rel_bytes(*e).len()),
        r is Ok ==> forall|k: int|
            0 <= k < r->Ok_0@.len() ==> header_block_sound(#[trigger] r->Ok_0@[k]@),
        r is Ok && entry_exact(*e) ==> reader_views(r->Ok_0@) == records_of(*e),
        entry_ok(*e) ==> r is Ok,
        r is Err ==> r->Err_0 == ArchiveError::MalformedPath,
{
    broadcast use lemma_header_reader_size;

    let path = e.rel_path.as_str();
    let ghost bytes = rel_bytes(*e);
    assert(path.spec_bytes() == bytes);
    let pb = path.as_bytes();
    if pb.len() > usize::MAX - 256 {
        return Err(ArchiveError::MalformedPath);
    }
    let header = match PaxHeader::new(path, &e.meta) {
        Ok(h) => h,
        Err(err) => {
            return Err(err);
        },
    };
    let ghost hd = header;
    let rs = header.to_readers();
    proof {
        lemma_record_len(bytes.len() + 7);
        match hd {
            PaxHeader::Ustar(h) => {},
            PaxHeader::Extended(h0, a, h1) => {
                assert(header_block_sound(a@));
            },
        }
        assert(reader_sizes(rs@) =~= header_sizes(bytes.len()));
        if entry_exact(*e) {
            assert(reader_views(rs@) =~= records_of(*e));
        }
    }
    Ok(rs)
}

/// Appends the blocks of entry `e`: its header records, and for a regular file
/// its content, each padded to a 512-byte boundary.
fn add_entry(blocks: &mut Vec<Block>, offset: &mut u64, e: &SourceEntry) -> (r: Result<
    (),
    ArchiveError,
>)
    requires
        building(old(blocks)@, *old(offset)),
        *old(offset) % 512 == 0,
    ensures
        r is Ok ==> building(final(blocks)@, *final(offset)),
        r is Ok ==> *final(offset) == *old(offset) + entry_span(*e),
        r is Ok ==> *final(offset) % 512 == 0,
        r is Ok ==> shapes(final(blocks)@) == shapes(old(blocks)@) + entry_shapes(*e),
        r is Ok && entry_exact(*e) ==> contents(final(blocks)@) == contents(old(blocks)@)
            + entry_contents(*e),
        entry_ok(*e) && *old(offset) + entry_span(*e) <= u64::MAX ==> r is Ok,
        r is Err ==> r->Err_0 == ArchiveError::MalformedPath || r->Err_0
            == ArchiveError::TooLarge,
{
    let ghost base = shapes(blocks@);
    let ghost cbase = contents(blocks@);
    let rs = match entry_headers(e) {
        Ok(rs) => rs,
        Err(err) => {
            return Err(err);
        },
    };
    proof {
        assert(rounded_sum(header_sizes(rel_bytes(*e).len())) <= entry_span(*e));
    }
    if !push_headers(blocks, offset, rs) {
        return Err(ArchiveError::TooLarge);
    }
    match e.meta.kind {
        EntryKind::File => {
            if e.meta.size > usize::MAX as u64 {
                return Err(ArchiveError::TooLarge);
            }
            let f = FileReader { path: e.path.clone(), size: e.meta.size as usize };
            let ghost o0 = *offset;
            let ghost fb = BlockReader::File(f);
            if !push_padded(blocks, offset, BlockReader::File(f)) {
                return Err(ArchiveError::TooLarge);
            }
            proof {
                assert(shape_of(Block { reader: fb, offset: o0 }) == Shape::File(
                    e.path@,
                    e.meta.size as nat,
                ));
                assert(shapes(blocks@) =~= base + entry_shapes(*e));
                assert(content_of(Block { reader: fb, offset: o0 }) == Content::File(
                    e.path@,
                    e.meta.size as nat,
                ));
                if entry_exact(*e) {
                    assert(contents(blocks@) =~= cbase + entry_contents(*e));
                }
            }
        },
        _ => {
            proof {
                assert(shapes(blocks@) =~= base + entry_shapes(*e));
                if entry_exact(*e) {
                    assert(contents(blocks@) =~= cbase + entry_contents(*e));
                }
            }
        },
    }
    Ok(())
}

proof fn lemma_spans_take(es: Seq<SourceEntry>, i: int)
    requires
        0 <= i < es.len(),
    ensures
        spans(es.take(i + 1)) == spans(es.take(i)) + entry_span(es[i]),
        spans(es.take(i + 1)) <= spans(es),
        layout(es.take(i + 1)) == layout(es.take(i)) + entry_shapes(es[i]),
        archive_contents(es.take(i + 1)) == archive_contents(es.take(i)) + entry_contents(es[i]),
    decreases es.len(),
{
    let t = es.take(i + 1);
    assert(t.drop_last() =~= es.take(i));
    if i + 1 == es.len() {
        assert(t =~= es);
    } else {
        let d = es.drop_last();
        lemma_spans_take(d, i);
        assert(d.take(i + 1) =~= t);
        assert(d.take(i) =~= es.take(i));
    }
}

/// The blocks of the pax tar stream of a walk's entries, in walk order, ended
/// by two zero records.
pub fn load_blocks(entries: &Vec<SourceEntry>) -> (r: Result<Vec<Block>, ArchiveError>)
    ensures
        r is Ok ==> blocks_wf(r->Ok_0@),
        r is Ok ==> aligned(r->Ok_0@),
        r is Ok ==> terminated(r->Ok_0@),
        r is Ok ==> headers_sound(r->Ok_0@),
        r is Ok ==> laid_out(r->Ok_0@, entries@),
        r is Ok ==> total_size(r->Ok_0@) == spans(entries@) + 1024,
        entries_ok(entries@) && spans(entries@) + 1024 <= u64::MAX ==> r is Ok,
        r is Err ==> r->Err_0 == ArchiveError::MalformedPath || r->Err_0
            == ArchiveError::TooLarge,
{
    let mut blocks: Vec<Block> = Vec::new();
    let mut offset: u64 = 0;
    let mut i: usize = 0;
    proof {
        assert(entries@.take(0) =~= Seq::<SourceEntry>::empty());
        assert(shapes(blocks@) =~= Seq::<Shape>::empty());
        assert(contents(blocks@) =~= Seq::<Content>::empty());
    }
    while i < entries.len()
        invariant
            building(blocks@, offset),
            offset % 512 == 0,
            i <= entries@.len(),
            offset == spans(entries@.take(i as int)),
            shapes(blocks@) == layout(entries@.take(i as int)),
            entries_exact(entries@) ==> contents(blocks@) == archive_contents(
                entries@.take(i as int),
            ),
        decreases entries@.len() - i,
    {
        proof {
            lemma_spans_take(entries@, i as int);
        }
        let ghost bs0 = blocks@;
        proof {
            if entries_exact(entries@) {
                assert(entry_exact(entries@[i as int]));
            }
        }
        match add_entry(&mut blocks, &mut offset, &entries[i]) {
            Ok(()) => {},
            Err(err) => {
                proof {
                    if entries_ok(entries@) && spans(entries@) + 1024 <= u64::MAX {
                        assert(entry_ok(entries@[i as int]));
                    }
                }
                return Err(err);
            },
        }
        i = i + 1;
    }
    proof {
        assert(entries@.take(i as int) =~= entries@);
    }
    if offset > u64::MAX - 1024 {
        return Err(ArchiveError::TooLarge);
    }
    let ghost bs0 = blocks@;
    let end = Block { reader: BlockReader::Padding(PaddingReader { size: 1024 }), offset };
    blocks.push(end);
    proof {
        assert(blocks@.drop_last() =~= bs0);
        lemma_push_keeps(bs0, blocks@);
        assert(shapes(blocks@) =~= shapes(bs0).push(Shape::Padding(1024)));
        assert(contents(blocks@) =~= contents(bs0).push(Content::Zeros(1024)));
    }
    Ok(blocks)
}

} // verus!
