//! pax extended-header attributes and the header records of one archive entry.

use vstd::prelude::*;
use vstd::string::StringSliceAdditionalSpecFns;
use crate::decimal::{decimal, record_len, push_decimal, length_width, lemma_record_len};
use crate::decimal::lemma_record_len_least;
use crate::decimal::{digits_value, all_digits, lemma_decimal_round_trip};
use crate::entry::{EntryKind, EntryMeta, type_flag, content_size, entry_type_flag};
use crate::error::ArchiveError;
use crate::ustar::{blank_ustar, checksum_of, checksum_ok, is_ustar, octal_field, plain_path};
use crate::ustar::{link_form, num_field, cksum_field, octal_digits, octal_value, pow8, lemma_octal_round_trip};
use crate::ustar::{put_field, put_num, same_outside, lemma_octal_digits_len, lemma_put_checksum};
use crate::ustar::{tar_new_ustar, tar_set_cksum, tar_set_device_major, tar_set_device_minor};
use crate::ustar::{tar_set_entry_type, tar_set_gid, tar_set_link_name, tar_set_mode};
use crate::ustar::{lemma_blank_ustar, tar_set_mtime, tar_set_path, tar_set_size, tar_set_uid};
use vstd::utf8::encode_utf8;
use vstd::slice::slice_to_vec;
use crate::blocks::Reader;

verus! {

/// The bytes of one pax record `"<len> <key>=<value>\n"`, where `<len>` is the
/// decimal length of the whole record, its own numeral included.
pub open spec fn pax_record(key: Seq<u8>, value: Seq<u8>) -> Seq<u8> {
    decimal(record_len(key.len() + value.len() + 3)) + seq![32u8] + key + seq![61u8] + value
        + seq![10u8]
}

/// Appends the bytes of `s` to `buf`.
pub fn append_bytes(buf: &mut Vec<u8>, s: &[u8])
    ensures
        final(buf)@ == old(buf)@ + s@,
{
    let mut i: usize = 0;
    while i < s.len()
        invariant
            i <= s@.len(),
            buf@ == old(buf)@ + s@.subrange(0, i as int),
        decreases s@.len() - i,
    {
        buf.push(s[i]);
        i = i + 1;
        assert(buf@ =~= old(buf)@ + s@.subrange(0, i as int));
    }
    assert(s@.subrange(0, s@.len() as int) =~= s@);
}

/// Access to the raw bytes of a header record.
pub trait AsBytes {
    spec fn bytes_view(&self) -> Seq<u8>;

    fn bytes(&self) -> (r: &[u8])
        ensures
            r@ == self.bytes_view(),
    ;
}

/// Extended attributes of a pax header: a buffer of records, appended to only.
pub struct PaxAttr(Vec<u8>);

impl View for PaxAttr {
    type V = Seq<u8>;

    closed spec fn view(&self) -> Seq<u8> {
        self.0@
    }
}

impl PaxAttr {
    pub fn new() -> (r: Self)
        ensures
            r@ == Seq::<u8>::empty(),
    {
        PaxAttr(Vec::new())
    }

    /// Appends the record `key=value`, with the shortest length prefix that
    /// states the record's own length.
    pub fn add(&mut self, key: &str, value: &str)
        requires
            old(self)@.len() + key.spec_bytes().len() + value.spec_bytes().len() + 128
                <= usize::MAX,
        ensures
            final(self)@ == old(self)@ + pax_record(key.spec_bytes(), value.spec_bytes()),
    {
        let kb = key.as_bytes();
        let vb = value.as_bytes();
        let rest: usize = kb.len() + vb.len() + 3;
        let w = length_width(rest);
        let len: usize = rest + w;
        push_decimal(&mut self.0, len);
        self.0.push(32u8);
        append_bytes(&mut self.0, kb);
        self.0.push(61u8);
        append_bytes(&mut self.0, vb);
        self.0.push(10u8);
        assert(self.0@ =~= old(self)@ + pax_record(key.spec_bytes(), value.spec_bytes()));
    }
}

impl AsBytes for PaxAttr {
    closed spec fn bytes_view(&self) -> Seq<u8> {
        self.0@
    }

    fn bytes(&self) -> (r: &[u8])
        ensures
            r@ == self@,
    {
        self.0.as_slice()
    }
}

/// A pax record starts with the decimal numeral of its own length in bytes,
/// followed by a space; no shorter length would state itself.
pub proof fn lemma_pax_record_self_length(key: Seq<u8>, value: Seq<u8>)
    ensures
        forall|l: nat|
            l < pax_record(key, value).len() ==> #[trigger] decimal(l).len() + key.len()
                + value.len() + 3 != l,
        ({
            let r = pax_record(key, value);
            let n = decimal(r.len());
            &&& r == n + seq![32u8] + key + seq![61u8] + value + seq![10u8]
            &&& all_digits(n)
            &&& digits_value(n) == r.len()
            &&& r[n.len() as int] == 32u8
        }),
{
    let rest = key.len() + value.len() + 3;
    lemma_record_len(rest);
    let r = pax_record(key, value);
    assert(r.len() == record_len(rest));
    lemma_decimal_round_trip(r.len());
    assert forall|l: nat| l < r.len() implies #[trigger] decimal(l).len() + key.len()
        + value.len() + 3 != l by {
        lemma_record_len_least(rest, l);
    }
}

/// One 512-byte ustar header record.
pub struct UstarHeader {
    bytes: Vec<u8>,
}

impl View for UstarHeader {
    type V = Seq<u8>;

    closed spec fn view(&self) -> Seq<u8> {
        self.bytes@
    }
}

impl AsBytes for UstarHeader {
    closed spec fn bytes_view(&self) -> Seq<u8> {
        self.bytes@
    }

    fn bytes(&self) -> (r: &[u8])
        ensures
            r@ == self@,
    {
        self.bytes.as_slice()
    }
}

/// The link target of a symbolic link, if any, is one that tar copies as it
/// is, and fits its field.
pub open spec fn link_ok(m: EntryMeta) -> bool {
    m.kind == EntryKind::Symlink ==> match m.link_target {
        Some(t) => link_form(encode_utf8(t@)) && encode_utf8(t@).len() < 100,
        None => true,
    }
}

/// `h` with the metadata fields of an entry filled in: mtime, owner, group,
/// the low twelve mode bits, type flag, content size and device numbers.
pub open spec fn with_meta(h: Seq<u8>, m: EntryMeta) -> Seq<u8> {
    let h1 = put_field(h, 136, num_field(m.mtime as nat, 12, 8589934592));
    let h2 = put_field(h1, 108, num_field(m.uid as nat, 8, 2097152));
    let h3 = put_field(h2, 116, num_field(m.gid as nat, 8, 2097152));
    let h4 = put_num(h3, 100, 8, (m.mode & 4095u32) as nat);
    let h5 = h4.update(156, type_flag(m.kind));
    let h6 = put_field(h5, 124, num_field(content_size(m), 12, 8589934592));
    let h7 = put_num(h6, 329, 8, 0);
    put_num(h7, 337, 8, 0)
}

/// `h` with the link name field filled in, for a symbolic link with a target.
pub open spec fn with_link(h: Seq<u8>, m: EntryMeta) -> Seq<u8> {
    if m.kind == EntryKind::Symlink && m.link_target is Some {
        put_field(h, 157, encode_utf8(m.link_target->Some_0@).push(0u8))
    } else {
        h
    }
}

/// `h` with its checksum field written.
pub open spec fn sealed(h: Seq<u8>) -> Seq<u8> {
    put_field(h, 148, cksum_field(checksum_of(h)))
}

/// The ustar record of an entry whose path fits the name field.
#[verifier::opaque]
pub open spec fn ustar_record(path: Seq<u8>, m: EntryMeta) -> Seq<u8> {
    sealed(put_field(with_link(with_meta(blank_ustar(), m), m), 0, path.push(0u8)))
}

/// The name that the record announcing a pax extension carries.
pub open spec fn ext_name() -> Seq<u8> {
    seq![80u8, 97u8, 120u8, 72u8, 101u8, 97u8, 100u8, 101u8, 114u8]
}

/// The record that announces a pax extension payload of `len` bytes.
#[verifier::opaque]
pub open spec fn ext_record(len: nat) -> Seq<u8> {
    sealed(
        put_field(
            put_field(blank_ustar(), 0, ext_name().push(0u8)).update(156, 120u8),
            124,
            num_field(len, 12, 8589934592),
        ),
    )
}

/// The record after a pax extension: the entry's metadata, with no name.
#[verifier::opaque]
pub open spec fn meta_record(m: EntryMeta) -> Seq<u8> {
    sealed(with_link(with_meta(blank_ustar(), m), m))
}

/// The bytes of the key under which a pax extension stores a path.
pub open spec fn path_key() -> Seq<u8> {
    seq![112u8, 97u8, 116u8, 104u8]
}

/// `put_field` changes only the bytes it writes.
pub proof fn lemma_put_field(h: Seq<u8>, start: int, f: Seq<u8>)
    requires
        0 <= start,
        start + f.len() <= h.len(),
    ensures
        same_outside(h, put_field(h, start, f), start, f.len() as int),
        put_field(h, start, f).subrange(start, start + f.len()) =~= f,
{
}

/// A change away from the magic and version keeps a ustar record one.
pub proof fn lemma_keeps_ustar(a: Seq<u8>, b: Seq<u8>, start: int, len: int)
    requires
        is_ustar(a),
        same_outside(a, b, start, len),
        start + len <= 257 || start >= 265,
    ensures
        is_ustar(b),
{
    assert(a.subrange(257, 263) =~= b.subrange(257, 263));
    assert(a.subrange(263, 265) =~= b.subrange(263, 265));
}

/// Fills the metadata fields of `h`, and the link name of a symbolic link;
/// false where tar refused the link target.
fn fill_meta(h: &mut Vec<u8>, meta: &EntryMeta) -> (ok: bool)
    requires
        is_ustar(old(h)@),
    ensures
        ok ==> is_ustar(final(h)@),
        link_ok(*meta) ==> ok,
        link_ok(*meta) ==> final(h)@ == with_link(
            with_meta(old(h)@, *meta),
            *meta,
        ),
{
    proof {
        lemma_octal_digits_len(0, 7);
        lemma_octal_digits_len(0, 11);
    }
    let ghost h0 = h@;
    tar_set_mtime(h, meta.mtime);
    proof { lemma_keeps_ustar(h0, h@, 136, 12); }
    let ghost h1 = h@;
    tar_set_uid(h, meta.uid as u64);
    proof { lemma_keeps_ustar(h1, h@, 108, 8); }
    let ghost h2 = h@;
    tar_set_gid(h, meta.gid as u64);
    proof { lemma_keeps_ustar(h2, h@, 116, 8); }
    let ghost h3 = h@;
    tar_set_mode(h, meta.mode & 4095u32);
    proof {
        lemma_octal_digits_len((meta.mode & 4095u32) as nat, 7);
        lemma_put_field(h3, 100, octal_field((meta.mode & 4095u32) as nat, 8));
        lemma_keeps_ustar(h3, h@, 100, 8);
    }
    let ghost h4 = h@;
    tar_set_entry_type(h, entry_type_flag(meta.kind));
    proof {
        assert(same_outside(h4, h@, 156, 1));
        lemma_keeps_ustar(h4, h@, 156, 1);
    }
    let size: u64 = match meta.kind {
        EntryKind::File => meta.size,
        _ => 0,
    };
    let ghost h5 = h@;
    tar_set_size(h, size);
    proof { lemma_keeps_ustar(h5, h@, 124, 12); }
    let ghost h6 = h@;
    tar_set_device_major(h, 0);
    proof {
        lemma_put_field(h6, 329, octal_field(0, 8));
        lemma_keeps_ustar(h6, h@, 329, 8);
    }
    let ghost h7 = h@;
    tar_set_device_minor(h, 0);
    proof {
        lemma_put_field(h7, 337, octal_field(0, 8));
        lemma_keeps_ustar(h7, h@, 337, 8);
    }
    match meta.kind {
        EntryKind::Symlink => match &meta.link_target {
            Some(t) => {
                let ghost h8 = h@;
                let ok = tar_set_link_name(h, t.as_str());
                if ok {
                    proof { lemma_keeps_ustar(h8, h@, 157, 100); }
                }
                ok
            },
            None => true,
        },
        _ => true,
    }
}

/// Appends the `n` low octal digits of `v` to `buf`.
fn push_octal(buf: &mut Vec<u8>, v: u32, n: usize)
    ensures
        final(buf)@ == old(buf)@ + octal_digits(v as nat, n as nat),
    decreases n,
{
    if n > 0 {
        push_octal(buf, v / 8, n - 1);
        buf.push((48 + v % 8) as u8);
        assert(buf@ =~= old(buf)@ + octal_digits(v as nat, n as nat));
    } else {
        assert(buf@ =~= old(buf)@ + octal_digits(v as nat, n as nat));
    }
}

/// Writes the bytes of `f` into `h` from `start` on.
fn write_field(h: &mut Vec<u8>, start: usize, f: &Vec<u8>)
    requires
        start + f@.len() <= old(h)@.len(),
    ensures
        final(h)@ == put_field(old(h)@, start as int, f@),
{
    let n = h.len();
    let mut k: usize = 0;
    proof {
        assert(old(h)@ =~= put_field(old(h)@, start as int, f@.take(0)));
    }
    while k < f.len()
        invariant
            k <= f@.len(),
            n == old(h)@.len(),
            start + f@.len() <= old(h)@.len(),
            h@ == put_field(old(h)@, start as int, f@.take(k as int)),
        decreases f@.len() - k,
    {
        h.set(start + k, f[k]);
        k = k + 1;
        assert(h@ =~= put_field(old(h)@, start as int, f@.take(k as int)));
    }
    assert(f@.take(k as int) =~= f@);
}

/// Writes the checksum field of `h`: tar computes the sum, which is then laid
/// out as six octal digits, a NUL and a space.
fn seal(h: &mut Vec<u8>)
    requires
        old(h)@.len() == 512,
    ensures
        final(h)@ == sealed(old(h)@),
        checksum_ok(final(h)@),
        is_ustar(old(h)@) ==> is_ustar(final(h)@),
{
    let ghost h0 = h@;
    let ghost c = checksum_of(h0);
    tar_set_cksum(h);
    proof {
        lemma_put_checksum(h0);
        lemma_octal_digits_len(c, 7);
        lemma_octal_round_trip(c, 7);
        lemma_put_field(h0, 148, octal_field(c, 8));
        assert(h@.subrange(148, 155) =~= octal_digits(c, 7));
    }
    let ghost digits = octal_digits(c, 7);
    let mut v: u32 = 0;
    let mut i: usize = 0;
    while i < 7
        invariant
            i <= 7,
            h@.len() == 512,
            h@.subrange(148, 155) == digits,
            digits.len() == 7,
            forall|j: int| 0 <= j < 7 ==> 48 <= #[trigger] digits[j] <= 55,
            v as nat == octal_value(digits.take(i as int)),
            v < pow8(i as nat),
        decreases 7 - i,
    {
        let d = h[148 + i];
        proof {
            assert(d == digits[i as int]);
            assert(digits.take(i + 1).drop_last() =~= digits.take(i as int));
            assert(pow8((i + 1) as nat) == 8 * pow8(i as nat));
            assert(pow8(i as nat) <= pow8(7)) by {
                reveal_with_fuel(pow8, 8);
            }
        }
        v = v * 8 + (d - 48) as u32;
        i = i + 1;
    }
    proof {
        assert(digits.take(7) =~= digits);
    }
    let mut f: Vec<u8> = Vec::new();
    push_octal(&mut f, v, 6);
    f.push(0u8);
    f.push(32u8);
    proof {
        lemma_octal_digits_len(c, 6);
        assert(f@ =~= cksum_field(c));
    }
    let ghost h1 = h@;
    write_field(h, 148, &f);
    proof {
        assert(h@ =~= sealed(h0));
        lemma_put_field(h0, 148, cksum_field(c));
        if is_ustar(h0) {
            lemma_keeps_ustar(h0, h@, 148, 8);
        }
    }
}

/// The header records of one archive entry.
pub enum PaxHeader {
    /// A path shorter than 100 bytes: one ustar record.
    Ustar(UstarHeader),
    /// A longer path: a record announcing a pax extension, the extension's
    /// attributes, which carry the path, and a record with the metadata.
    Extended(UstarHeader, PaxAttr, UstarHeader),
}

/// Every record of `h` is a ustar record that satisfies the checksum rule.
pub open spec fn records_sound(h: PaxHeader) -> bool {
    match h {
        PaxHeader::Ustar(u) => is_ustar(u@) && checksum_ok(u@),
        PaxHeader::Extended(h0, _, h1) => is_ustar(h0@) && checksum_ok(h0@) && is_ustar(h1@)
            && checksum_ok(h1@),
    }
}

impl PaxHeader {
    /// The header records for the entry at relative `path` with metadata `meta`.
    pub fn new(path: &str, meta: &EntryMeta) -> (r: Result<Self, ArchiveError>)
        requires
            path.spec_bytes().len() + 256 <= usize::MAX,
        ensures
            r is Ok ==> records_sound(r->Ok_0),
            r is Err ==> r->Err_0 == ArchiveError::MalformedPath,
            path.spec_bytes().len() < 100 ==> (r is Ok ==> r->Ok_0 is Ustar),
            path.spec_bytes().len() >= 100 ==> (r is Ok ==> r->Ok_0 is Extended),
            path.spec_bytes().len() < 100 && plain_path(path.spec_bytes()) && link_ok(*meta)
                ==> r is Ok,
            path.spec_bytes().len() >= 100 && link_ok(*meta) ==> r is Ok,
            r is Ok && link_ok(*meta) ==> match r->Ok_0 {
                PaxHeader::Ustar(u) => plain_path(path.spec_bytes()) ==> u@ == ustar_record(
                    path.spec_bytes(),
                    *meta,
                ),
                PaxHeader::Extended(h0, a, h1) => h1@ == meta_record(*meta),
            },
            r is Ok ==> match r->Ok_0 {
                PaxHeader::Ustar(_) => true,
                PaxHeader::Extended(h0, a, h1) => a@ == pax_record(path_key(), path.spec_bytes())
                    && h0@ == ext_record(a@.len()),
            },
    {
        proof {
            lemma_blank_ustar();
            reveal(ustar_record);
            reveal(ext_record);
            reveal(meta_record);
        }
        if path.as_bytes().len() < 100 {
            let mut h = tar_new_ustar();
            let ok = fill_meta(&mut h, meta);
            if !ok {
                return Err(ArchiveError::MalformedPath);
            }
            let ghost hm = h@;
            let ok = tar_set_path(&mut h, path);
            if !ok {
                return Err(ArchiveError::MalformedPath);
            }
            proof {
                assert(hm.subrange(257, 263) =~= h@.subrange(257, 263));
                assert(hm.subrange(263, 265) =~= h@.subrange(263, 265));
            }
            seal(&mut h);
            Ok(PaxHeader::Ustar(UstarHeader { bytes: h }))
        } else {
            let mut attr = PaxAttr::new();
            let key = "path";
            proof {
                reveal_strlit("path");
                vstd::string::is_ascii_spec_bytes(key);
                assert(key.spec_bytes() =~= path_key());
            }
            attr.add(key, path);
            let mut h0 = tar_new_ustar();
            let name = "PaxHeader";
            proof {
                reveal_strlit("PaxHeader");
                vstd::string::is_ascii_spec_bytes(name);
                assert(name.spec_bytes() =~= ext_name());
                lemma_blank_ustar();
            }
            let ok = tar_set_path(&mut h0, name);
            if !ok {
                return Err(ArchiveError::MalformedPath);
            }
            let ghost g0 = h0@;
            proof {
                assert(blank_ustar().subrange(257, 263) =~= g0.subrange(257, 263));
                assert(blank_ustar().subrange(263, 265) =~= g0.subrange(263, 265));
            }
            tar_set_entry_type(&mut h0, 120u8);
            proof {
                assert(same_outside(g0, h0@, 156, 1));
                lemma_keeps_ustar(g0, h0@, 156, 1);
            }
            let n = attr.bytes().len();
            assert(n == attr@.len());
            let ghost g1 = h0@;
            tar_set_size(&mut h0, n as u64);
            proof { lemma_keeps_ustar(g1, h0@, 124, 12); }
            seal(&mut h0);
            let mut h1 = tar_new_ustar();
            let ok = fill_meta(&mut h1, meta);
            if !ok {
                return Err(ArchiveError::MalformedPath);
            }
            seal(&mut h1);
            Ok(PaxHeader::Extended(UstarHeader { bytes: h0 }, attr, UstarHeader { bytes: h1 }))
        }
    }
}

/// A block whose bytes are held in memory: a header record or a pax payload.
pub struct HeaderReader {
    header: Vec<u8>,
}

impl View for HeaderReader {
    type V = Seq<u8>;

    closed spec fn view(&self) -> Seq<u8> {
        self.header@
    }
}

impl HeaderReader {
    /// Takes a copy of the bytes of `h`.
    pub fn new<H: AsBytes>(h: H) -> (r: Self)
        ensures
            r@ == h.bytes_view(),
    {
        HeaderReader { header: slice_to_vec(h.bytes()) }
    }

    /// Appends the `len` bytes from `offset` on to `buf`.
    pub fn read_at(&self, buf: &mut Vec<u8>, offset: usize, len: usize)
        requires
            offset + len <= self@.len(),
        ensures
            final(buf)@ == old(buf)@ + self@.subrange(offset as int, offset + len),
    {
        let n = self.header.len();
        let mut i: usize = 0;
        while i < len
            invariant
                offset + len <= self.header@.len(),
                n == self.header@.len(),
                i <= len,
                buf@ == old(buf)@ + self.header@.subrange(offset as int, offset + i),
            decreases len - i,
        {
            buf.push(self.header[offset + i]);
            i = i + 1;
            assert(buf@ =~= old(buf)@ + self.header@.subrange(offset as int, offset + i));
        }
    }
}

impl Reader for HeaderReader {
    closed spec fn spec_size(&self) -> nat {
        self.header@.len()
    }

    fn size(&self) -> (r: usize) {
        self.header.len()
    }
}

/// A header reader holds as many bytes as it reports.
pub broadcast proof fn lemma_header_reader_size(r: HeaderReader)
    ensures
        #[trigger] r.spec_size() == r@.len(),
{
}

impl PaxHeader {
    /// The header's records in archive order, each as a block reader; padding
    /// between them is the caller's part.
    pub fn to_readers(self) -> (r: Vec<HeaderReader>)
        ensures
            match self {
                PaxHeader::Ustar(h) => r@.len() == 1 && r@[0]@ == h@,
                PaxHeader::Extended(h0, a, h1) => r@.len() == 3 && r@[0]@ == h0@ && r@[1]@ == a@
                    && r@[2]@ == h1@,
            },
    {
        match self {
            PaxHeader::Ustar(h) => {
                let mut v = Vec::new();
                v.push(HeaderReader::new(h));
                v
            },
            PaxHeader::Extended(h0, a, h1) => {
                let mut v = Vec::new();
                v.push(HeaderReader::new(h0));
                v.push(HeaderReader::new(a));
                v.push(HeaderReader::new(h1));
                v
            },
        }
    }
}

} // verus!
