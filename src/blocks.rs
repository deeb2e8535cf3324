//! The blocks that make up a virtual archive, and reads at any offset of it.

use vstd::prelude::*;
use crate::pax::{HeaderReader, lemma_header_reader_size, append_bytes};
use crate::error::ArchiveError;

verus! {

/// A source of the bytes of one block.
pub trait Reader {
    spec fn spec_size(&self) -> nat;

    /// The number of bytes the block holds.
    fn size(&self) -> (r: usize)
        ensures
            r as nat == self.spec_size(),
    ;
}

/// The content of a source file, read when the block is.
pub struct FileReader {
    pub path: String,
    pub size: usize,
}

impl Reader for FileReader {
    open spec fn spec_size(&self) -> nat {
        self.size as nat
    }

    fn size(&self) -> (r: usize) {
        self.size
    }
}

/// Zero bytes, which align what follows to a 512-byte boundary or end the archive.
pub struct PaddingReader {
    pub size: usize,
}

impl Reader for PaddingReader {
    open spec fn spec_size(&self) -> nat {
        self.size as nat
    }

    fn size(&self) -> (r: usize) {
        self.size
    }
}

impl PaddingReader {
    /// Appends `len` zero bytes to `buf`.
    pub fn read_at(&self, buf: &mut Vec<u8>, len: usize)
        ensures
            final(buf)@ == old(buf)@ + Seq::new(len as nat, |j: int| 0u8),
    {
        let mut i: usize = 0;
        while i < len
            invariant
                i <= len,
                buf@ == old(buf)@ + Seq::new(i as nat, |j: int| 0u8),
            decreases len - i,
        {
            buf.push(0u8);
            i = i + 1;
            assert(buf@ =~= old(buf)@ + Seq::new(i as nat, |j: int| 0u8));
        }
    }
}

/// What a block reads from.
pub enum BlockReader {
    File(FileReader),
    Header(HeaderReader),
    Padding(PaddingReader),
}

impl Reader for BlockReader {
    open spec fn spec_size(&self) -> nat {
        match self {
            BlockReader::File(f) => f.spec_size(),
            BlockReader::Header(h) => h.spec_size(),
            BlockReader::Padding(p) => p.spec_size(),
        }
    }

    fn size(&self) -> (r: usize) {
        match self {
            BlockReader::File(f) => f.size(),
            BlockReader::Header(h) => h.size(),
            BlockReader::Padding(p) => p.size(),
        }
    }
}

/// A run of bytes of the archive, starting at `offset`.
pub struct Block {
    pub reader: BlockReader,
    pub offset: u64,
}

/// Where one byte of the archive comes from.
pub enum ByteSource {
    /// A byte known from the layout.
    Byte(u8),
    /// The byte at this position of the file at this path.
    FileAt(Seq<char>, int),
}

/// The number of bytes of block `b`.
pub open spec fn block_size(b: Block) -> nat {
    b.reader.spec_size()
}

/// The bytes of block `b`, as their sources.
pub open spec fn block_content(b: Block) -> Seq<ByteSource> {
    reader_content(b.reader)
}

/// The bytes that reader `r` yields, as their sources.
pub open spec fn reader_content(r: BlockReader) -> Seq<ByteSource> {
    match r {
        BlockReader::File(f) => Seq::new(f.size as nat, |j: int| ByteSource::FileAt(f.path@, j)),
        BlockReader::Header(h) => Seq::new(h@.len(), |j: int| ByteSource::Byte(h@[j])),
        BlockReader::Padding(p) => Seq::new(p.size as nat, |j: int| ByteSource::Byte(0u8)),
    }
}

/// The whole archive: the content of every block, in order.
pub open spec fn stream(bs: Seq<Block>) -> Seq<ByteSource>
    decreases bs.len(),
{
    if bs.len() == 0 {
        Seq::empty()
    } else {
        stream(bs.drop_last()) + block_content(bs.last())
    }
}

/// The sum of the sizes of the blocks.
pub open spec fn total_size(bs: Seq<Block>) -> nat
    decreases bs.len(),
{
    if bs.len() == 0 {
        0
    } else {
        total_size(bs.drop_last()) + block_size(bs.last())
    }
}

/// Each block starts where the blocks before it end, and the archive's length
/// is an offset.
pub open spec fn blocks_wf(bs: Seq<Block>) -> bool
    decreases bs.len(),
{
    if bs.len() == 0 {
        true
    } else {
        &&& blocks_wf(bs.drop_last())
        &&& bs.last().offset == total_size(bs.drop_last())
        &&& total_size(bs) <= u64::MAX
    }
}

pub proof fn lemma_reader_content_len(r: BlockReader)
    ensures
        reader_content(r).len() == r.spec_size(),
{
    broadcast use lemma_header_reader_size;
}

pub proof fn lemma_block_content_len(b: Block)
    ensures
        block_content(b).len() == block_size(b),
{
    broadcast use lemma_header_reader_size;
}

pub proof fn lemma_stream_len(bs: Seq<Block>)
    ensures
        stream(bs).len() == total_size(bs),
    decreases bs.len(),
{
    if bs.len() > 0 {
        lemma_stream_len(bs.drop_last());
        lemma_block_content_len(bs.last());
    }
}

/// The blocks before position `m` make up the beginning of the archive.
pub proof fn lemma_stream_prefix(bs: Seq<Block>, m: int)
    requires
        0 <= m <= bs.len(),
    ensures
        total_size(bs.take(m)) <= total_size(bs),
        stream(bs).subrange(0, total_size(bs.take(m)) as int) == stream(bs.take(m)),
    decreases bs.len(),
{
    lemma_stream_len(bs);
    lemma_stream_len(bs.take(m));
    if m == bs.len() {
        assert(bs.take(m) =~= bs);
        assert(stream(bs).subrange(0, total_size(bs) as int) =~= stream(bs));
    } else {
        let d = bs.drop_last();
        lemma_stream_prefix(d, m);
        assert(d.take(m) =~= bs.take(m));
        lemma_stream_len(d);
        assert(stream(bs).subrange(0, total_size(bs.take(m)) as int) =~= stream(d).subrange(
            0,
            total_size(bs.take(m)) as int,
        ));
    }
}

/// In a well-formed sequence, every block starts where the ones before it end.
pub proof fn lemma_offsets(bs: Seq<Block>, i: int)
    requires
        blocks_wf(bs),
        0 <= i < bs.len(),
    ensures
        bs[i].offset == total_size(bs.take(i)),
        total_size(bs.take(i + 1)) == bs[i].offset + block_size(bs[i]),
        total_size(bs) <= u64::MAX,
        blocks_wf(bs.take(i + 1)),
    decreases bs.len(),
{
    let d = bs.drop_last();
    if i == bs.len() - 1 {
        assert(bs.take(i) =~= d);
        assert(bs.take(i + 1) =~= bs);
    } else {
        lemma_offsets(d, i);
        assert(d.take(i) =~= bs.take(i));
        assert(d.take(i + 1) =~= bs.take(i + 1));
        lemma_total_take(d, i + 1);
    }
}

/// The blocks before position `m` are no longer than all of them.
pub proof fn lemma_total_take(bs: Seq<Block>, m: int)
    requires
        0 <= m <= bs.len(),
    ensures
        total_size(bs.take(m)) <= total_size(bs),
{
    lemma_stream_prefix(bs, m);
}

/// Block `k` occupies its own range of the archive.
pub proof fn lemma_stream_at(bs: Seq<Block>, k: int)
    requires
        blocks_wf(bs),
        0 <= k < bs.len(),
    ensures
        bs[k].offset + block_size(bs[k]) <= total_size(bs),
        stream(bs).subrange(bs[k].offset as int, bs[k].offset + block_size(bs[k]))
            == block_content(bs[k]),
{
    lemma_offsets(bs, k);
    lemma_stream_prefix(bs, k + 1);
    let t = bs.take(k + 1);
    assert(t.drop_last() =~= bs.take(k));
    assert(t.last() == bs[k]);
    lemma_stream_len(bs.take(k));
    lemma_stream_len(bs);
    lemma_stream_len(t);
    lemma_block_content_len(bs[k]);
    let off = bs[k].offset as int;
    let end = off + block_size(bs[k]);
    assert(stream(t) == stream(bs.take(k)) + block_content(bs[k]));
    assert(stream(t).subrange(off, end) =~= block_content(bs[k]));
    assert(stream(bs).subrange(off, end) =~= stream(t).subrange(off, end)) by {
        assert forall|j: int| off <= j < end implies stream(bs)[j] == stream(t)[j] by {
            assert(stream(bs).subrange(0, total_size(t) as int)[j] == stream(bs)[j]);
        }
    }
}

/// Contiguity: the first block starts at zero, and each next block starts
/// where the one before it ends.
pub proof fn lemma_contiguous(bs: Seq<Block>)
    requires
        blocks_wf(bs),
    ensures
        bs.len() > 0 ==> bs[0].offset == 0,
        forall|i: int|
            0 <= i < bs.len() - 1 ==> #[trigger] bs[i + 1].offset == bs[i].offset + block_size(
                bs[i],
            ),
{
    if bs.len() > 0 {
        lemma_offsets(bs, 0);
        assert(bs.take(0) =~= Seq::<Block>::empty());
    }
    assert forall|i: int| 0 <= i < bs.len() - 1 implies #[trigger] bs[i + 1].offset
        == bs[i].offset + block_size(bs[i]) by {
        lemma_offsets(bs, i);
        lemma_offsets(bs, i + 1);
    }
}

/// The length of the archive: where its last block ends.
pub fn size_of_blocks(blocks: &Vec<Block>) -> (r: u64)
    requires
        blocks_wf(blocks@),
    ensures
        r == total_size(blocks@),
{
    if blocks.len() == 0 {
        0
    } else {
        let b = &blocks[blocks.len() - 1];
        proof {
            lemma_offsets(blocks@, blocks@.len() - 1);
            assert(blocks@.take(blocks@.len() as int) =~= blocks@);
        }
        b.offset + b.reader.size() as u64
    }
}

/// A part of the bytes that a read returns.
pub enum Piece {
    /// Bytes known from the layout.
    Bytes(Vec<u8>),
    /// `len` bytes of the file at `path`, from `offset` on.
    File { path: String, offset: u64, len: usize },
}

/// The sources of the bytes of piece `p`.
pub open spec fn piece_sources(p: Piece) -> Seq<ByteSource> {
    match p {
        Piece::Bytes(v) => Seq::new(v@.len(), |j: int| ByteSource::Byte(v@[j])),
        Piece::File { path, offset, len } => Seq::new(
            len as nat,
            |j: int| ByteSource::FileAt(path@, offset + j),
        ),
    }
}

/// The sources of the bytes of a sequence of pieces, in order.
pub open spec fn pieces_sources(ps: Seq<Piece>) -> Seq<ByteSource>
    decreases ps.len(),
{
    if ps.len() == 0 {
        Seq::empty()
    } else {
        pieces_sources(ps.drop_last()) + piece_sources(ps.last())
    }
}

/// The sources of the bytes that a read of `size` bytes at `offset` returns:
/// the archive from `offset` on, cut at `size` bytes or at its end.
pub open spec fn read_range(bs: Seq<Block>, offset: nat, size: nat) -> Seq<ByteSource> {
    let total = total_size(bs);
    if offset >= total {
        Seq::empty()
    } else if offset + size <= total {
        stream(bs).subrange(offset as int, (offset + size) as int)
    } else {
        stream(bs).subrange(offset as int, total as int)
    }
}

impl BlockReader {
    /// The `n` bytes of this block from `local` on, as a piece of a read.
    pub fn piece(&self, local: usize, n: usize) -> (p: Piece)
        requires
            local + n <= self.spec_size(),
        ensures
            piece_sources(p) == reader_content(*self).subrange(local as int, local + n),
    {
        broadcast use lemma_header_reader_size;

        match self {
            BlockReader::File(f) => {
                let p = Piece::File { path: f.path.clone(), offset: local as u64, len: n };
                assert(piece_sources(p) =~= reader_content(*self).subrange(local as int, local + n));
                p
            },
            BlockReader::Header(h) => {
                let mut v: Vec<u8> = Vec::new();
                h.read_at(&mut v, local, n);
                let p = Piece::Bytes(v);
                assert(piece_sources(p) =~= reader_content(*self).subrange(local as int, local + n));
                p
            },
            BlockReader::Padding(z) => {
                let mut v: Vec<u8> = Vec::new();
                z.read_at(&mut v, n);
                let p = Piece::Bytes(v);
                assert(piece_sources(p) =~= reader_content(*self).subrange(local as int, local + n));
                p
            },
        }
    }
}

/// Reads `size` bytes of the archive at `offset`: what the blocks hold there,
/// with the parts that lie in source files left as ranges of those files.
pub fn read_from_blocks(blocks: &Vec<Block>, offset: u64, size: usize) -> (r: Vec<Piece>)
    requires
        blocks_wf(blocks@),
    ensures
        pieces_sources(r@) == read_range(blocks@, offset as nat, size as nat),
{
    let mut data: Vec<Piece> = Vec::new();
    let total = size_of_blocks(blocks);
    proof {
        lemma_stream_len(blocks@);
    }
    if offset >= total {
        return data;
    }
    let ghost bs = blocks@;
    let n = blocks.len();
    proof {
        lemma_contiguous(bs);
    }
    let mut lo: usize = 0;
    let mut hi: usize = n;
    while hi - lo > 1
        invariant
            lo < hi <= n,
            n == bs.len(),
            bs == blocks@,
            bs[lo as int].offset <= offset,
            hi < n ==> bs[hi as int].offset > offset,
        decreases hi - lo,
    {
        let mid = lo + (hi - lo) / 2;
        if blocks[mid].offset <= offset {
            lo = mid;
        } else {
            hi = mid;
        }
    }
    proof {
        lemma_offsets(bs, lo as int);
        if lo + 1 == n {
            assert(bs.take(n as int) =~= bs);
        }
    }
    let avail: u64 = total - offset;
    let mut remaining: u64 = if (size as u64) < avail {
        size as u64
    } else {
        avail
    };
    let ghost end: int = offset + remaining;
    let mut k: usize = lo;
    let mut local: u64 = offset - blocks[lo].offset;
    let ghost mut pos: int = offset as int;
    proof {
        assert(stream(bs).subrange(offset as int, pos) =~= Seq::<ByteSource>::empty());
        assert(pieces_sources(data@) =~= Seq::<ByteSource>::empty());
    }
    while remaining > 0
        invariant
            blocks_wf(bs),
            bs == blocks@,
            n == bs.len(),
            k <= n,
            k < n ==> pos == bs[k as int].offset + local && local <= block_size(bs[k as int]),
            k == n ==> pos == total_size(bs),
            pos + remaining == end,
            offset <= pos,
            end <= total_size(bs),
            stream(bs).len() == total_size(bs),
            pieces_sources(data@) == stream(bs).subrange(offset as int, pos),
        decreases remaining, n - k,
    {
        let b = &blocks[k];
        let bsize = b.reader.size() as u64;
        let avail_b: u64 = bsize - local;
        let take: u64 = if avail_b < remaining {
            avail_b
        } else {
            remaining
        };
        proof {
            lemma_stream_at(bs, k as int);
            lemma_reader_content_len(bs[k as int].reader);
        }
        if take > 0 {
            let p = b.reader.piece(local as usize, take as usize);
            let ghost old_data = data@;
            data.push(p);
            proof {
                assert(data@.drop_last() =~= old_data);
                let off = bs[k as int].offset as int;
                assert(block_content(bs[k as int]).subrange(local as int, local + take)
                    =~= stream(bs).subrange(pos, pos + take));
                assert(stream(bs).subrange(offset as int, pos + take) =~= stream(bs).subrange(
                    offset as int,
                    pos,
                ) + stream(bs).subrange(pos, pos + take));
            }
        }
        remaining = remaining - take;
        proof {
            pos = pos + take;
        }
        if take == avail_b {
            proof {
                lemma_offsets(bs, k as int);
                if k + 1 < n {
                    lemma_offsets(bs, k + 1);
                } else {
                    assert(bs.take(n as int) =~= bs);
                }
            }
            k = k + 1;
            local = 0;
        } else {
            local = local + take;
        }
    }
    data
}

/// The lengths of the file pieces among `ps`, in order.
pub open spec fn file_lens(ps: Seq<Piece>) -> Seq<nat>
    decreases ps.len(),
{
    if ps.len() == 0 {
        Seq::empty()
    } else {
        match ps.last() {
            Piece::File { len, .. } => file_lens(ps.drop_last()).push(len as nat),
            Piece::Bytes(_) => file_lens(ps.drop_last()),
        }
    }
}

/// `fd` holds, for each file piece in order, as many bytes as it asks for.
pub open spec fn reads_complete(ps: Seq<Piece>, fd: Seq<Seq<u8>>) -> bool {
    &&& fd.len() == file_lens(ps).len()
    &&& forall|k: int| 0 <= k < fd.len() ==> #[trigger] fd[k].len() == file_lens(ps)[k]
}

/// The bytes of the pieces, each file piece taking the next entry of `fd`.
pub open spec fn filled(ps: Seq<Piece>, fd: Seq<Seq<u8>>) -> Seq<u8>
    decreases ps.len(),
{
    if ps.len() == 0 {
        Seq::empty()
    } else {
        filled(ps.drop_last(), fd) + match ps.last() {
            Piece::Bytes(v) => v@,
            Piece::File { .. } => fd[file_lens(ps.drop_last()).len() as int],
        }
    }
}

/// The file pieces of a prefix are a prefix of the file pieces.
pub proof fn lemma_file_lens_prefix(ps: Seq<Piece>, m: int)
    requires
        0 <= m <= ps.len(),
    ensures
        file_lens(ps.take(m)).len() <= file_lens(ps).len(),
        file_lens(ps.take(m)) == file_lens(ps).take(file_lens(ps.take(m)).len() as int),
    decreases ps.len(),
{
    if m == ps.len() {
        assert(ps.take(m) =~= ps);
        assert(file_lens(ps).take(file_lens(ps).len() as int) =~= file_lens(ps));
    } else {
        let d = ps.drop_last();
        lemma_file_lens_prefix(d, m);
        assert(d.take(m) =~= ps.take(m));
        assert(file_lens(d).take(file_lens(d.take(m)).len() as int) =~= file_lens(ps).take(
            file_lens(d.take(m)).len() as int,
        ));
    }
}

/// Joins the pieces of a read, taking for the file pieces, in order, the bytes
/// read from those files; fails where a file yielded another number of bytes
/// than its piece asks for, as a file that changed meanwhile does.
pub fn assemble(pieces: &Vec<Piece>, file_data: &Vec<Vec<u8>>) -> (r: Result<
    Vec<u8>,
    ArchiveError,
>)
    ensures
        r is Ok <==> reads_complete(pieces@, file_data@.map_values(|v: Vec<u8>| v@)),
        r is Ok ==> r->Ok_0@ == filled(pieces@, file_data@.map_values(|v: Vec<u8>| v@)),
        r is Err ==> r->Err_0 == ArchiveError::ShortRead,
{
    let ghost ps = pieces@;
    let ghost fd = file_data@.map_values(|v: Vec<u8>| v@);
    let mut out: Vec<u8> = Vec::new();
    let mut i: usize = 0;
    let mut j: usize = 0;
    proof {
        assert(ps.take(0) =~= Seq::<Piece>::empty());
    }
    while i < pieces.len()
        invariant
            ps == pieces@,
            fd == file_data@.map_values(|v: Vec<u8>| v@),
            i <= ps.len(),
            j == file_lens(ps.take(i as int)).len(),
            j <= fd.len(),
            forall|k: int| 0 <= k < j ==> #[trigger] fd[k].len() == file_lens(ps.take(i as int))[k],
            out@ == filled(ps.take(i as int), fd),
        decreases ps.len() - i,
    {
        let ghost t = ps.take(i as int);
        let ghost t1 = ps.take(i + 1);
        proof {
            assert(t1.drop_last() =~= t);
            assert(t1.last() == ps[i as int]);
            lemma_file_lens_prefix(ps, i + 1);
        }
        match &pieces[i] {
            Piece::Bytes(v) => {
                append_vec(&mut out, v);
            },
            Piece::File { len, .. } => {
                if j >= file_data.len() || file_data[j].len() != *len {
                    proof {
                        assert(file_lens(t1) == file_lens(t).push(*len as nat));
                        assert(file_lens(t1)[j as int] == *len as nat);
                        assert(file_lens(ps).take(file_lens(t1).len() as int)[j as int]
                            == file_lens(ps)[j as int]);
                        assert(file_lens(ps)[j as int] == *len as nat);
                        if j < fd.len() {
                            assert(fd[j as int].len() != file_lens(ps)[j as int]);
                        }
                    }
                    return Err(ArchiveError::ShortRead);
                }
                append_vec(&mut out, &file_data[j]);
                j = j + 1;
            },
        }
        i = i + 1;
    }
    proof {
        assert(ps.take(ps.len() as int) =~= ps);
    }
    if j != file_data.len() {
        return Err(ArchiveError::ShortRead);
    }
    Ok(out)
}

/// The bytes that sources stand for, where `fc` gives the content of files.
pub open spec fn resolve(src: Seq<ByteSource>, fc: spec_fn(Seq<char>, int) -> u8) -> Seq<u8> {
    Seq::new(
        src.len(),
        |j: int|
            match src[j] {
                ByteSource::Byte(b) => b,
                ByteSource::FileAt(p, o) => fc(p, o),
            },
    )
}

/// `fd` holds, for each file piece of `ps` in order, the bytes of its range of
/// that file as `fc` gives them.
pub open spec fn reads_faithful(
    ps: Seq<Piece>,
    fd: Seq<Seq<u8>>,
    fc: spec_fn(Seq<char>, int) -> u8,
) -> bool
    decreases ps.len(),
{
    if ps.len() == 0 {
        true
    } else {
        &&& reads_faithful(ps.drop_last(), fd, fc)
        &&& match ps.last() {
            Piece::File { path, offset, len } => fd[file_lens(ps.drop_last()).len() as int]
                == Seq::new(len as nat, |j: int| fc(path@, offset + j)),
            Piece::Bytes(_) => true,
        }
    }
}

/// Pieces filled with faithful file reads are the bytes that their sources
/// stand for.
pub proof fn lemma_filled_resolves(
    ps: Seq<Piece>,
    fd: Seq<Seq<u8>>,
    fc: spec_fn(Seq<char>, int) -> u8,
)
    requires
        reads_faithful(ps, fd, fc),
    ensures
        filled(ps, fd) == resolve(pieces_sources(ps), fc),
    decreases ps.len(),
{
    if ps.len() == 0 {
        assert(resolve(pieces_sources(ps), fc) =~= Seq::<u8>::empty());
    } else {
        let d = ps.drop_last();
        lemma_filled_resolves(d, fd, fc);
        let a = pieces_sources(d);
        let b = piece_sources(ps.last());
        assert(resolve(a + b, fc) =~= resolve(a, fc) + resolve(b, fc));
        match ps.last() {
            Piece::Bytes(v) => {
                assert(resolve(b, fc) =~= v@);
            },
            Piece::File { path, offset, len } => {
                assert(resolve(b, fc) =~= fd[file_lens(d).len() as int]);
            },
        }
    }
}

/// Random access: a read of `size` bytes at `offset`, its file pieces filled
/// with what the files hold, is the archive's bytes from `offset` to the end of
/// the read or of the archive.
pub proof fn lemma_random_access(
    bs: Seq<Block>,
    offset: nat,
    size: nat,
    ps: Seq<Piece>,
    fd: Seq<Seq<u8>>,
    fc: spec_fn(Seq<char>, int) -> u8,
)
    requires
        blocks_wf(bs),
        pieces_sources(ps) == read_range(bs, offset, size),
        reads_faithful(ps, fd, fc),
    ensures
        offset <= total_size(bs) ==> filled(ps, fd) == resolve(stream(bs), fc).subrange(
            offset as int,
            if offset + size <= total_size(bs) {
                (offset + size) as int
            } else {
                total_size(bs) as int
            },
        ),
{
    lemma_filled_resolves(ps, fd, fc);
    lemma_stream_len(bs);
    let full = resolve(stream(bs), fc);
    let total = total_size(bs);
    let e = if offset + size <= total {
        (offset + size) as int
    } else {
        total as int
    };
    if offset <= total {
        if offset == total {
            assert(full.subrange(offset as int, e) =~= Seq::<u8>::empty());
            assert(resolve(Seq::<ByteSource>::empty(), fc) =~= Seq::<u8>::empty());
        } else {
            assert(resolve(stream(bs).subrange(offset as int, e), fc) =~= full.subrange(
                offset as int,
                e,
            ));
        }
    }
}

/// Appends the bytes of `v` to `buf`.
fn append_vec(buf: &mut Vec<u8>, v: &Vec<u8>)
    ensures
        final(buf)@ == old(buf)@ + v@,
{
    append_bytes(buf, v.as_slice());
}

} // verus!
