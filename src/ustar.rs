//! The 512-byte ustar header record: its fields as byte ranges, the checksum
//! rule, and the `tar` crate's setters that fill it.

use vstd::prelude::*;
use vstd::string::StringSliceAdditionalSpecFns;

verus! {

/// The length of a header record.
pub const HEADER_LEN: usize = 512;

/// `8` raised to `n`.
pub open spec fn pow8(n: nat) -> nat
    decreases n,
{
    if n == 0 {
        1
    } else {
        8 * pow8((n - 1) as nat)
    }
}

/// The `n` low octal digits of `v` as ASCII, most significant first.
pub open spec fn octal_digits(v: nat, n: nat) -> Seq<u8>
    decreases n,
{
    if n == 0 {
        Seq::empty()
    } else {
        octal_digits(v / 8, (n - 1) as nat).push((48 + v % 8) as u8)
    }
}

/// A numeric field of `len` bytes: `len - 1` octal digits, then a NUL.
pub open spec fn octal_field(v: nat, len: nat) -> Seq<u8> {
    octal_digits(v, (len - 1) as nat).push(0u8)
}

/// The value of a sequence of ASCII octal digits.
pub open spec fn octal_value(s: Seq<u8>) -> nat
    decreases s.len(),
{
    if s.len() == 0 {
        0
    } else {
        octal_value(s.drop_last()) * 8 + (s.last() - 48) as nat
    }
}

/// `h` with the bytes from `start` on replaced by `field`.
pub open spec fn put_field(h: Seq<u8>, start: int, field: Seq<u8>) -> Seq<u8> {
    h.subrange(0, start) + field + h.subrange(start + field.len(), h.len() as int)
}

/// `a` and `b` have one length and agree outside `[start, start + len)`.
pub open spec fn same_outside(a: Seq<u8>, b: Seq<u8>, start: int, len: int) -> bool {
    &&& a.len() == b.len()
    &&& forall|i: int|
        0 <= i < a.len() && !(start <= i < start + len) ==> #[trigger] a[i] == b[i]
}

/// `a` and `b` have one length and agree outside the name and prefix fields.
pub open spec fn same_outside_path(a: Seq<u8>, b: Seq<u8>) -> bool {
    &&& a.len() == b.len()
    &&& forall|i: int|
        0 <= i < a.len() && !(0 <= i < 100) && !(345 <= i < 500) ==> #[trigger] a[i] == b[i]
}

/// The sum of the bytes of `s`.
pub open spec fn byte_sum(s: Seq<u8>) -> nat
    decreases s.len(),
{
    if s.len() == 0 {
        0
    } else {
        byte_sum(s.drop_last()) + s.last() as nat
    }
}

/// The ustar checksum of `h`: the sum of its bytes, the eight bytes of the
/// checksum field counted as ASCII spaces.
pub open spec fn checksum_of(h: Seq<u8>) -> nat {
    byte_sum(h.subrange(0, 148)) + 8 * 32 + byte_sum(h.subrange(156, 512))
}

/// The checksum field holding `v`: six octal digits, a NUL and a space.
pub open spec fn cksum_field(v: nat) -> Seq<u8> {
    octal_digits(v, 6) + seq![0u8, 32u8]
}

/// `h` is a record whose checksum field holds its checksum.
pub open spec fn checksum_ok(h: Seq<u8>) -> bool {
    &&& h.len() == 512
    &&& h.subrange(148, 156) == cksum_field(checksum_of(h))
}

/// The magic and version of a ustar record.
pub open spec fn is_ustar(h: Seq<u8>) -> bool {
    &&& h.len() == 512
    &&& h.subrange(257, 263) == seq![117u8, 115u8, 116u8, 97u8, 114u8, 0u8]
    &&& h.subrange(263, 265) == seq![48u8, 48u8]
}

/// A fresh ustar record: zeros, the magic and version, and an mtime of zero.
pub open spec fn blank_ustar() -> Seq<u8> {
    put_field(
        put_field(
            put_field(Seq::new(512, |i: int| 0u8), 257, seq![117u8, 115u8, 116u8, 97u8, 114u8, 0u8]),
            263,
            seq![48u8, 48u8],
        ),
        136,
        octal_field(0, 12),
    )
}

/// `h` with numeric field `[start, start + len)` set to `v`, where `v` has an
/// octal numeral of `len - 1` digits.
pub open spec fn put_num(h: Seq<u8>, start: int, len: nat, v: nat) -> Seq<u8> {
    put_field(h, start, octal_field(v, len))
}

/// The `n` low bytes of `v`, most significant first.
pub open spec fn be_bytes(v: nat, n: nat) -> Seq<u8>
    decreases n,
{
    if n == 0 {
        Seq::empty()
    } else {
        be_bytes(v / 256, (n - 1) as nat).push((v % 256) as u8)
    }
}

/// tar's base-256 form of `v` in a field of `len` bytes: zeros, then `v`
/// big-endian in the last eight bytes, with the high bit of the first byte set.
pub open spec fn binary_field(v: nat, len: nat) -> Seq<u8> {
    let raw = Seq::new((len - 8) as nat, |i: int| 0u8) + be_bytes(v, 8);
    raw.update(0, raw[0] | 0x80u8)
}

/// A numeric field of `len` bytes as tar writes it: an octal numeral below
/// `limit`, the base-256 form from there on.
pub open spec fn num_field(v: nat, len: nat, limit: nat) -> Seq<u8> {
    if v < limit {
        octal_field(v, len)
    } else {
        binary_field(v, len)
    }
}

/// Whether the segment of `b` starting at `i` is `.` or `..`.
pub open spec fn dot_segment_at(b: Seq<u8>, i: int) -> bool {
    &&& (i == 0 || b[i - 1] == 47u8)
    &&& b[i] == 46u8
    &&& (i + 1 == b.len() || b[i + 1] == 47u8 || (b[i + 1] == 46u8 && (i + 2 == b.len() || b[i
        + 2] == 47u8)))
}

/// A relative path in plain form: non-empty segments separated by single
/// slashes, none of them `.` or `..`, and no NUL byte.
pub open spec fn plain_path(b: Seq<u8>) -> bool {
    &&& b.len() > 0
    &&& b[0] != 47u8
    &&& b.last() != 47u8
    &&& forall|i: int| 0 <= i < b.len() ==> #[trigger] b[i] != 0u8
    &&& forall|i: int| 0 <= i < b.len() - 1 ==> !(#[trigger] b[i] == 47u8 && b[i + 1] == 47u8)
    &&& forall|i: int| 0 <= i < b.len() ==> !#[trigger] dot_segment_at(b, i)
}

/// Whether the segment of `b` starting at `i` is `.`.
pub open spec fn dot_only_at(b: Seq<u8>, i: int) -> bool {
    &&& (i == 0 || b[i - 1] == 47u8)
    &&& b[i] == 46u8
    &&& (i + 1 == b.len() || b[i + 1] == 47u8)
}

/// A link target that tar copies as it is: no NUL byte, no empty segment
/// (a leading slash aside), `.` only as the first segment, and not `/` alone.
/// It may be absolute and may hold `..` segments.
pub open spec fn link_form(b: Seq<u8>) -> bool {
    &&& b.len() > 0
    &&& !(b.len() == 1 && b[0] == 47u8)
    &&& forall|i: int| 0 <= i < b.len() ==> #[trigger] b[i] != 0u8
    &&& forall|i: int| 0 <= i < b.len() - 1 ==> !(#[trigger] b[i] == 47u8 && b[i + 1] == 47u8)
    &&& forall|i: int| 0 < i < b.len() ==> !#[trigger] dot_only_at(b, i)
}

pub proof fn lemma_octal_digits_len(v: nat, n: nat)
    ensures
        octal_digits(v, n).len() == n,
    decreases n,
{
    if n > 0 {
        lemma_octal_digits_len(v / 8, (n - 1) as nat);
    }
}

pub proof fn lemma_byte_sum_bound(s: Seq<u8>)
    ensures
        byte_sum(s) <= 255 * s.len(),
    decreases s.len(),
{
    if s.len() > 0 {
        lemma_byte_sum_bound(s.drop_last());
    }
}

/// The octal digits of a value below `8^n` read back as that value.
pub proof fn lemma_octal_round_trip(v: nat, n: nat)
    requires
        v < pow8(n),
    ensures
        octal_value(octal_digits(v, n)) == v,
        forall|i: int| 0 <= i < n ==> 48 <= #[trigger] octal_digits(v, n)[i] <= 55,
    decreases n,
{
    lemma_octal_digits_len(v, n);
    if n == 0 {
        assert(octal_digits(v, n) =~= Seq::<u8>::empty());
    } else {
        let p = pow8((n - 1) as nat);
        assert(v / 8 < p) by (nonlinear_arith)
            requires
                v < 8 * p,
        ;
        lemma_octal_round_trip(v / 8, (n - 1) as nat);
        let d = octal_digits(v, n);
        assert(d.drop_last() =~= octal_digits(v / 8, (n - 1) as nat));
        assert(v == (v / 8) * 8 + v % 8);
        assert(octal_value(d) == octal_value(d.drop_last()) * 8 + (d.last() - 48) as nat);
        assert forall|i: int| 0 <= i < n implies 48 <= #[trigger] d[i] <= 55 by {
            if i < n - 1 {
                assert(d[i] == octal_digits(v / 8, (n - 1) as nat)[i]);
            }
        }
    }
}

/// Writing the checksum field leaves the checksum unchanged, so the record then
/// satisfies the checksum rule; the field's digits read back as the sum.
pub proof fn lemma_put_checksum(h: Seq<u8>)
    requires
        h.len() == 512,
    ensures
        checksum_of(h) < pow8(6),
        checksum_of(h) < pow8(7),
        checksum_ok(put_field(h, 148, cksum_field(checksum_of(h)))),
        checksum_of(put_field(h, 148, cksum_field(checksum_of(h)))) == checksum_of(h),
        octal_value(octal_digits(checksum_of(h), 6)) == checksum_of(h),
        octal_value(octal_digits(checksum_of(h), 7)) == checksum_of(h),
        cksum_field(checksum_of(h)).len() == 8,
{
    let v = checksum_of(h);
    lemma_octal_digits_len(v, 6);
    let g = put_field(h, 148, cksum_field(v));
    assert(g.subrange(0, 148) =~= h.subrange(0, 148));
    assert(g.subrange(156, 512) =~= h.subrange(156, 512));
    assert(g.subrange(148, 156) =~= cksum_field(v));
    lemma_byte_sum_bound(h.subrange(0, 148));
    lemma_byte_sum_bound(h.subrange(156, 512));
    assert(pow8(6) == 262144 && pow8(7) == 2097152) by {
        reveal_with_fuel(pow8, 8);
    }
    lemma_octal_round_trip(v, 6);
    lemma_octal_round_trip(v, 7);
}

/// A fresh record carries the ustar magic and version.
pub proof fn lemma_blank_ustar()
    ensures
        is_ustar(blank_ustar()),
{
    lemma_octal_digits_len(0, 11);
    let magic = seq![117u8, 115u8, 116u8, 97u8, 114u8, 0u8];
    let version = seq![48u8, 48u8];
    let z = Seq::new(512, |i: int| 0u8);
    let a = put_field(z, 257, magic);
    let b = put_field(a, 263, version);
    let c = put_field(b, 136, octal_field(0, 12));
    assert(a.len() == 512);
    assert(b.len() == 512);
    assert(c.len() == 512);
    assert(b.subrange(257, 263) =~= magic);
    assert(c.subrange(257, 263) =~= magic);
    assert(c.subrange(263, 265) =~= version);
}

/// Relies on tar::Header::new_ustar: a zeroed record with the ustar magic and
/// version, and an mtime of zero.
#[verifier::external_body]
pub(crate) fn tar_new_ustar() -> (r: Vec<u8>)
    ensures
        r@ == blank_ustar(),
{
    tar::Header::new_ustar().as_bytes().to_vec()
}

/// Relies on tar::Header::set_size: an octal numeral in the 12-byte size field
/// below 8^11, tar's base-256 form from there on.
#[verifier::external_body]
pub(crate) fn tar_set_size(h: &mut Vec<u8>, size: u64)
    requires
        old(h)@.len() == 512,
    ensures
        same_outside(old(h)@, final(h)@, 124, 12),
        final(h)@ == put_field(old(h)@, 124, num_field(size as nat, 12, 8589934592)),
{
    let mut t = tar::Header::new_old();
    t.as_mut_bytes().copy_from_slice(h.as_slice());
    t.set_size(size);
    h.copy_from_slice(t.as_bytes());
}

/// Relies on tar::Header::set_mtime: an octal numeral in the 12-byte mtime field
/// below 8^11, tar's base-256 form from there on.
#[verifier::external_body]
pub(crate) fn tar_set_mtime(h: &mut Vec<u8>, mtime: u64)
    requires
        old(h)@.len() == 512,
    ensures
        same_outside(old(h)@, final(h)@, 136, 12),
        final(h)@ == put_field(old(h)@, 136, num_field(mtime as nat, 12, 8589934592)),
{
    let mut t = tar::Header::new_old();
    t.as_mut_bytes().copy_from_slice(h.as_slice());
    t.set_mtime(mtime);
    h.copy_from_slice(t.as_bytes());
}

/// Relies on tar::Header::set_uid: an octal numeral in the 8-byte uid field
/// below 8^7, tar's base-256 form from there on.
#[verifier::external_body]
pub(crate) fn tar_set_uid(h: &mut Vec<u8>, uid: u64)
    requires
        old(h)@.len() == 512,
    ensures
        same_outside(old(h)@, final(h)@, 108, 8),
        final(h)@ == put_field(old(h)@, 108, num_field(uid as nat, 8, 2097152)),
{
    let mut t = tar::Header::new_old();
    t.as_mut_bytes().copy_from_slice(h.as_slice());
    t.set_uid(uid);
    h.copy_from_slice(t.as_bytes());
}

/// Relies on tar::Header::set_gid: an octal numeral in the 8-byte gid field
/// below 8^7, tar's base-256 form from there on.
#[verifier::external_body]
pub(crate) fn tar_set_gid(h: &mut Vec<u8>, gid: u64)
    requires
        old(h)@.len() == 512,
    ensures
        same_outside(old(h)@, final(h)@, 116, 8),
        final(h)@ == put_field(old(h)@, 116, num_field(gid as nat, 8, 2097152)),
{
    let mut t = tar::Header::new_old();
    t.as_mut_bytes().copy_from_slice(h.as_slice());
    t.set_gid(gid);
    h.copy_from_slice(t.as_bytes());
}

/// Relies on tar::Header::set_mode: the low seven octal digits of `mode` and a
/// NUL in the 8-byte mode field.
#[verifier::external_body]
pub(crate) fn tar_set_mode(h: &mut Vec<u8>, mode: u32)
    requires
        old(h)@.len() == 512,
    ensures
        final(h)@ == put_num(old(h)@, 100, 8, mode as nat),
{
    let mut t = tar::Header::new_old();
    t.as_mut_bytes().copy_from_slice(h.as_slice());
    t.set_mode(mode);
    h.copy_from_slice(t.as_bytes());
}

/// Relies on tar::Header::set_entry_type with tar::EntryType::new: the type
/// flag byte becomes `ty` (`EntryType::new(b).as_byte()` is `b` for every
/// byte but zero).
#[verifier::external_body]
pub(crate) fn tar_set_entry_type(h: &mut Vec<u8>, ty: u8)
    requires
        old(h)@.len() == 512,
        ty != 0,
    ensures
        final(h)@ == old(h)@.update(156, ty),
{
    let mut t = tar::Header::new_old();
    t.as_mut_bytes().copy_from_slice(h.as_slice());
    t.set_entry_type(tar::EntryType::new(ty));
    h.copy_from_slice(t.as_bytes());
}

/// Relies on tar::Header::set_device_major: on a ustar record, the low seven
/// octal digits and a NUL in the 8-byte device major field.
#[verifier::external_body]
pub(crate) fn tar_set_device_major(h: &mut Vec<u8>, major: u32)
    requires
        is_ustar(old(h)@),
    ensures
        final(h)@ == put_num(old(h)@, 329, 8, major as nat),
{
    let mut t = tar::Header::new_old();
    t.as_mut_bytes().copy_from_slice(h.as_slice());
    let _ = t.set_device_major(major);
    h.copy_from_slice(t.as_bytes());
}

/// Relies on tar::Header::set_device_minor: on a ustar record, the low seven
/// octal digits and a NUL in the 8-byte device minor field.
#[verifier::external_body]
pub(crate) fn tar_set_device_minor(h: &mut Vec<u8>, minor: u32)
    requires
        is_ustar(old(h)@),
    ensures
        final(h)@ == put_num(old(h)@, 337, 8, minor as nat),
{
    let mut t = tar::Header::new_old();
    t.as_mut_bytes().copy_from_slice(h.as_slice());
    let _ = t.set_device_minor(minor);
    h.copy_from_slice(t.as_bytes());
}

/// Relies on tar::Header::set_cksum: the sum of the record's bytes, the
/// checksum field counted as spaces, as seven octal digits and a NUL in that
/// field.
#[verifier::external_body]
pub(crate) fn tar_set_cksum(h: &mut Vec<u8>)
    requires
        old(h)@.len() == 512,
    ensures
        final(h)@ == put_field(old(h)@, 148, octal_field(checksum_of(old(h)@), 8)),
{
    let mut t = tar::Header::new_old();
    t.as_mut_bytes().copy_from_slice(h.as_slice());
    t.set_cksum();
    h.copy_from_slice(t.as_bytes());
}

/// Relies on tar::Header::set_path: on a ustar record, a path of at most 100
/// bytes goes into the name field, NUL-terminated where room is left; a path in
/// plain form is copied as it is. The result tells whether tar accepted it;
/// on success only the name and prefix fields may have changed.
#[verifier::external_body]
pub(crate) fn tar_set_path(h: &mut Vec<u8>, path: &str) -> (ok: bool)
    requires
        is_ustar(old(h)@),
    ensures
        ok ==> same_outside_path(old(h)@, final(h)@),
        plain_path(path.spec_bytes()) && path.spec_bytes().len() < 100 ==> ok && final(h)@
            == put_field(old(h)@, 0, path.spec_bytes().push(0u8)),
{
    let mut t = tar::Header::new_old();
    t.as_mut_bytes().copy_from_slice(h.as_slice());
    let ok = t.set_path(path).is_ok();
    h.copy_from_slice(t.as_bytes());
    ok
}

/// Relies on tar::Header::set_link_name: the target goes into the 100-byte link
/// name field; one in the form that tar copies as it is (absolute or relative,
/// `..` allowed), shorter than the field, is copied and NUL-terminated. The result tells whether tar accepted it; on success only
/// that field may have changed.
#[verifier::external_body]
pub(crate) fn tar_set_link_name(h: &mut Vec<u8>, target: &str) -> (ok: bool)
    requires
        old(h)@.len() == 512,
    ensures
        ok ==> same_outside(old(h)@, final(h)@, 157, 100),
        link_form(target.spec_bytes()) && target.spec_bytes().len() < 100 ==> ok
            && final(h)@ == put_field(old(h)@, 157, target.spec_bytes().push(0u8)),
{
    let mut t = tar::Header::new_old();
    t.as_mut_bytes().copy_from_slice(h.as_slice());
    let ok = t.set_link_name(target).is_ok();
    h.copy_from_slice(t.as_bytes());
    ok
}

} // verus!
