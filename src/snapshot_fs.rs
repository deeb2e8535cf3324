//! The state of the filesystem: the source directory, the cache timeout, and
//! the cache of virtual archives by inode and by name. Each operation is split
//! into decisions made here and the walks of source directories that the
//! caller performs between them.

use vstd::prelude::*;
use vstd::string::{StringExecFns, StrSliceExecFns};
use crate::blocks::{Piece, pieces_sources, read_from_blocks, read_range};
use crate::error::ArchiveError;
use crate::metadata::{FileAttrs, FileKind, InodeInfo, Scan, Time, ROOT_INODE};
use crate::metadata::{archive_attr, derived_ino, load_blocks_fails};
use crate::layout::laid_out;

verus! {

/// A name of the mount root and the inode of its archive.
pub struct NameEntry {
    pub name: String,
    pub ino: u64,
}

/// The cache entry for inode `ino`: the last one with that inode, if any.
pub open spec fn find_ino(s: Seq<InodeInfo>, ino: u64) -> Option<InodeInfo>
    decreases s.len(),
{
    if s.len() == 0 {
        None
    } else if s.last().attr.ino == ino {
        Some(s.last())
    } else {
        find_ino(s.drop_last(), ino)
    }
}

/// The inode recorded for `name`: the last record of that name, if any.
pub open spec fn find_name(s: Seq<NameEntry>, name: Seq<char>) -> Option<u64>
    decreases s.len(),
{
    if s.len() == 0 {
        None
    } else if s.last().name@ == name {
        Some(s.last().ino)
    } else {
        find_name(s.drop_last(), name)
    }
}

/// The path of child `name` of source directory `src`.
pub open spec fn child_path(src: Seq<char>, name: Seq<char>) -> Seq<char> {
    src + seq!['/'] + name
}

/// Whether `name` ends with `.tar`.
pub open spec fn ends_with_tar(name: Seq<char>) -> bool {
    name.len() >= 4 && name.subrange(name.len() - 4, name.len() as int) == seq!['.', 't', 'a', 'r']
}

/// The subdirectory that the mount root's entry `name` stands for: `name`
/// without a trailing `.tar`.
pub open spec fn stem(name: Seq<char>) -> Seq<char> {
    if ends_with_tar(name) {
        name.subrange(0, name.len() - 4)
    } else {
        name
    }
}

/// `name` without a trailing ".tar", where it ends with one.
fn strip_tar(name: &str) -> (r: Option<String>)
    ensures
        r is Some <==> ends_with_tar(name@),
        r is Some ==> r->Some_0@ == name@.subrange(0, name@.len() - 4),
{
    let n = name.unicode_len();
    if n < 4 {
        return None;
    }
    let c0 = name.get_char(n - 4);
    let c1 = name.get_char(n - 3);
    let c2 = name.get_char(n - 2);
    let c3 = name.get_char(n - 1);
    if c0 == '.' && c1 == 't' && c2 == 'a' && c3 == 'r' {
        proof {
            assert(name@.subrange(n - 4, n as int) =~= seq!['.', 't', 'a', 'r']);
        }
        Some(<String as StringExecFns>::from_str(name.substring_char(0, n - 4)))
    } else {
        proof {
            if ends_with_tar(name@) {
                assert(name@.subrange(n - 4, n as int)[0] == name@[n - 4]);
                assert(name@.subrange(n - 4, n as int)[1] == name@[n - 3]);
                assert(name@.subrange(n - 4, n as int)[2] == name@[n - 2]);
                assert(name@.subrange(n - 4, n as int)[3] == name@[n - 1]);
            }
        }
        None
    }
}

/// The subdirectory that the mount root's entry `name` stands for.
pub fn stem_of(name: &str) -> (r: String)
    ensures
        r@ == stem(name@),
{
    match strip_tar(name) {
        Some(s) => s,
        None => <String as StringExecFns>::from_str(name),
    }
}

/// What a lookup in the mount root finds for a name.
pub enum LookupTarget {
    /// Nothing: the parent is not the mount root.
    Missing,
    /// The archive with this inode is cached.
    Cached(u64),
    /// No archive is cached for this subdirectory name.
    Absent(String),
}

/// What the cache holds for an inode at a given time.
pub enum CacheCheck {
    /// No entry.
    Missing,
    /// An entry within its timeout, with these attributes.
    Fresh(FileAttrs),
    /// An outdated entry: the subtree at this path is to be walked again.
    Stale(String),
}

/// An entry of the mount root as a directory listing shows it.
pub struct DirItem {
    pub ino: u64,
    pub kind: FileKind,
    pub name: String,
    /// Where a listing that resumes after this entry starts.
    pub cookie: u64,
}

/// A subdirectory of the source directory with the inode of its archive.
pub struct Child {
    pub ino: u64,
    pub name: String,
}

/// Keeps the cache entries whose inode is not `ino`.
pub open spec fn not_ino(ino: u64) -> spec_fn(InodeInfo) -> bool {
    |x: InodeInfo| x.attr.ino != ino
}

/// Keeps the cache entries that are within `ttl` at `now`.
pub open spec fn fresh_at(now: Time, ttl: Time) -> spec_fn(InodeInfo) -> bool {
    |x: InodeInfo| !x.outdated_at(now, ttl)
}

/// Keeps the names of inodes other than `ino`.
pub open spec fn name_not_ino(ino: u64) -> spec_fn(NameEntry) -> bool {
    |n: NameEntry| n.ino != ino
}

/// Keeps the names of inodes that have a cache entry in `inodes`.
pub open spec fn name_live(inodes: Seq<InodeInfo>) -> spec_fn(NameEntry) -> bool {
    |n: NameEntry| find_ino(inodes, n.ino) is Some
}

/// Every entry of `a` is an entry of `b`.
pub open spec fn drawn_from<A>(a: Seq<A>, b: Seq<A>) -> bool {
    forall|i: int| 0 <= i < a.len() ==> #[trigger] b.contains(a[i])
}

/// The index of the last entry of `v` with inode `ino`.
fn find_index(v: &Vec<InodeInfo>, ino: u64) -> (r: Option<usize>)
    ensures
        r is None <==> find_ino(v@, ino) is None,
        r is Some ==> r->Some_0 < v@.len() && find_ino(v@, ino) == Some(v@[r->Some_0 as int]),
        r is Some ==> v@[r->Some_0 as int].attr.ino == ino,
        r is Some ==> forall|k: int| r->Some_0 < k < v@.len() ==> #[trigger] v@[k].attr.ino != ino,
{
    let mut i: usize = v.len();
    proof {
        assert(v@.take(i as int) =~= v@);
    }
    while i > 0
        invariant
            i <= v@.len(),
            find_ino(v@, ino) == find_ino(v@.take(i as int), ino),
            forall|k: int| i <= k < v@.len() ==> #[trigger] v@[k].attr.ino != ino,
        decreases i,
    {
        let ghost t = v@.take(i as int);
        proof {
            assert(t.drop_last() =~= v@.take(i - 1));
        }
        if v[i - 1].attr.ino == ino {
            return Some(i - 1);
        }
        i = i - 1;
    }
    proof {
        assert(v@.take(0) =~= Seq::<InodeInfo>::empty());
    }
    None
}

/// The entries of `v` that `keep` accepts, in order; `keep` decides as `pred`.
fn retain_by<T, F: Fn(&T) -> bool>(v: Vec<T>, keep: &F, pred: Ghost<spec_fn(T) -> bool>) -> (r: Vec<T>)
    requires
        forall|x: &T| #[trigger] keep.requires((x,)),
        forall|x: &T, b: bool| keep.ensures((x,), b) ==> b == (pred@)(*x),
    ensures
        r@ == v@.filter(pred@),
        drawn_from(r@, v@),
{
    let ghost orig = v@;
    let mut src = v;
    let mut kept: Vec<T> = Vec::new();
    let ghost mut j: int = 0;
    proof {
        assert(orig.take(0) =~= Seq::<T>::empty());
        assert(orig.skip(0) =~= orig);
    }
    while src.len() > 0
        invariant
            0 <= j <= orig.len(),
            src@ == orig.skip(j),
            kept@ == orig.take(j).filter(pred@),
            drawn_from(kept@, orig),
            forall|x: &T| #[trigger] keep.requires((x,)),
            forall|x: &T, b: bool| keep.ensures((x,), b) ==> b == (pred@)(*x),
        decreases src@.len(),
    {
        let x = src.remove(0);
        proof {
            assert(x == orig[j]);
            assert(orig.take(j + 1).drop_last() =~= orig.take(j));
            assert(orig.take(j + 1).last() == orig[j]);
            reveal(Seq::filter);
        }
        if keep(&x) {
            kept.push(x);
            proof {
                assert forall|i: int| 0 <= i < kept@.len() implies #[trigger] orig.contains(
                    kept@[i],
                ) by {
                    if i == kept@.len() - 1 {
                        assert(orig[j] == kept@[i]);
                    } else {
                        assert(kept@[i] == kept@.drop_last()[i]);
                        assert(orig.contains(kept@.drop_last()[i]));
                    }
                }
            }
        }
        proof {
            j = j + 1;
            assert(src@ =~= orig.skip(j));
        }
    }
    proof {
        assert(orig.take(j) =~= orig);
    }
    kept
}

/// The entries of `v` whose inode is not `ino`, in order.
fn inodes_without(v: Vec<InodeInfo>, ino: u64) -> (r: Vec<InodeInfo>)
    ensures
        r@ == v@.filter(not_ino(ino)),
        drawn_from(r@, v@),
{
    let keep = |x: &InodeInfo| -> (b: bool)
        ensures
            b == (x.attr.ino != ino),
        { x.attr.ino != ino };
    retain_by(v, &keep, Ghost(not_ino(ino)))
}

/// The names of `v` whose inode is not `ino`, in order.
fn names_without(v: Vec<NameEntry>, ino: u64) -> (r: Vec<NameEntry>)
    ensures
        r@ == v@.filter(name_not_ino(ino)),
        drawn_from(r@, v@),
{
    let keep = |n: &NameEntry| -> (b: bool)
        ensures
            b == (n.ino != ino),
        { n.ino != ino };
    retain_by(v, &keep, Ghost(name_not_ino(ino)))
}

/// Every cache entry is well formed and not the root's inode; every name
/// and every entry of the same inode agree: the entry's path is that child
/// of the source directory.
pub open spec fn state_base(src: Seq<char>, inodes: Seq<InodeInfo>, names: Seq<NameEntry>) -> bool {
    &&& forall|i: int|
        0 <= i < inodes.len() ==> (#[trigger] inodes[i]).wf() && inodes[i].attr.ino != ROOT_INODE
    &&& forall|i: int, k: int|
        0 <= i < inodes.len() && 0 <= k < names.len() && (#[trigger] inodes[i]).attr.ino == (
        #[trigger] names[k]).ino ==> inodes[i].path@ == child_path(src, names[k].name@)
}

/// Every name stands for an inode that has a cache entry.
pub open spec fn names_cached(inodes: Seq<InodeInfo>, names: Seq<NameEntry>) -> bool {
    forall|k: int| 0 <= k < names.len() ==> #[trigger] find_ino(inodes, names[k].ino) is Some
}

/// The cache's invariant: consistent entries and names, and no name without
/// a cache entry.
pub open spec fn state_ok(src: Seq<char>, inodes: Seq<InodeInfo>, names: Seq<NameEntry>) -> bool {
    state_base(src, inodes, names) && names_cached(inodes, names)
}

proof fn lemma_find_filter_other(s: Seq<InodeInfo>, ino: u64, k: u64)
    requires
        k != ino,
    ensures
        find_ino(s.filter(not_ino(ino)), k) == find_ino(s, k),
    decreases s.len(),
{
    reveal(Seq::filter);
    if s.len() > 0 {
        lemma_find_filter_other(s.drop_last(), ino, k);
        let sub = s.drop_last().filter(not_ino(ino));
        assert(sub.push(s.last()).drop_last() =~= sub);
    }
}

proof fn lemma_find_push_other(s: Seq<InodeInfo>, x: InodeInfo, k: u64)
    requires
        x.attr.ino != k,
    ensures
        find_ino(s.push(x), k) == find_ino(s, k),
{
    assert(s.push(x).drop_last() =~= s);
}

proof fn lemma_inodes_filter_none(s: Seq<InodeInfo>, ino: u64)
    requires
        find_ino(s, ino) is None,
    ensures
        s.filter(not_ino(ino)) == s,
    decreases s.len(),
{
    reveal(Seq::filter);
    if s.len() > 0 {
        lemma_inodes_filter_none(s.drop_last(), ino);
        assert(s.drop_last().push(s.last()) =~= s);
    } else {
        assert(s.filter(not_ino(ino)) =~= s);
    }
}

proof fn lemma_names_filter_none(s: Seq<NameEntry>, ino: u64)
    requires
        forall|k: int| 0 <= k < s.len() ==> #[trigger] s[k].ino != ino,
    ensures
        s.filter(name_not_ino(ino)) == s,
    decreases s.len(),
{
    reveal(Seq::filter);
    if s.len() > 0 {
        let d = s.drop_last();
        assert forall|k: int| 0 <= k < d.len() implies #[trigger] d[k].ino != ino by {
            assert(d[k] == s[k]);
        }
        lemma_names_filter_none(d, ino);
        assert(d.push(s.last()) =~= s);
    } else {
        assert(s.filter(name_not_ino(ino)) =~= s);
    }
}

/// Dropping an inode's entries and its names keeps every name cached.
proof fn lemma_cached_after_evict(
    oi: Seq<InodeInfo>,
    on: Seq<NameEntry>,
    nn: Seq<NameEntry>,
    ino: u64,
)
    requires
        names_cached(oi, on),
        nn == on.filter(name_not_ino(ino)),
        drawn_from(nn, on),
    ensures
        names_cached(oi.filter(not_ino(ino)), nn),
{
    broadcast use vstd::seq_lib::group_filter_ensures;

    assert forall|k: int| 0 <= k < nn.len() implies #[trigger] find_ino(
        oi.filter(not_ino(ino)),
        nn[k].ino,
    ) is Some by {
        assert(name_not_ino(ino)(nn[k]));
        assert(on.contains(nn[k]));
        let j = choose|j: int| 0 <= j < on.len() && on[j] == nn[k];
        assert(find_ino(oi, on[j].ino) is Some);
        lemma_find_filter_other(oi, ino, nn[k].ino);
    }
}

proof fn lemma_state_push_same(src: Seq<char>, ni: Seq<InodeInfo>, nn: Seq<NameEntry>, x: InodeInfo)
    requires
        state_base(src, ni, nn),
        x.wf(),
        x.attr.ino != ROOT_INODE,
        forall|k: int|
            0 <= k < nn.len() && #[trigger] nn[k].ino == x.attr.ino ==> x.path@ == child_path(
                src,
                nn[k].name@,
            ),
    ensures
        state_base(src, ni.push(x), nn),
{
    let a = ni.push(x);
    assert forall|i: int| 0 <= i < a.len() implies (#[trigger] a[i]).wf() && a[i].attr.ino
        != ROOT_INODE by {
        if i < ni.len() {
            assert(a[i] == ni[i]);
        }
    }
    assert forall|i: int, k: int|
        0 <= i < a.len() && 0 <= k < nn.len() && (#[trigger] a[i]).attr.ino == (
        #[trigger] nn[k]).ino implies a[i].path@ == child_path(src, nn[k].name@) by {
        if i < ni.len() {
            assert(a[i] == ni[i]);
        }
    }
}

proof fn lemma_state_sub(
    src: Seq<char>,
    oi: Seq<InodeInfo>,
    on: Seq<NameEntry>,
    ni: Seq<InodeInfo>,
    nn: Seq<NameEntry>,
)
    requires
        state_base(src, oi, on),
        drawn_from(ni, oi),
        drawn_from(nn, on),
    ensures
        state_base(src, ni, nn),
{
    assert forall|i: int| 0 <= i < ni.len() implies (#[trigger] ni[i]).wf() && ni[i].attr.ino
        != ROOT_INODE by {
        assert(oi.contains(ni[i]));
        let j = choose|j: int| 0 <= j < oi.len() && oi[j] == ni[i];
        assert(oi[j].wf());
    }
    assert forall|i: int, k: int|
        0 <= i < ni.len() && 0 <= k < nn.len() && (#[trigger] ni[i]).attr.ino == (
        #[trigger] nn[k]).ino implies ni[i].path@ == child_path(src, nn[k].name@) by {
        assert(oi.contains(ni[i]));
        assert(on.contains(nn[k]));
        let a = choose|j: int| 0 <= j < oi.len() && oi[j] == ni[i];
        let b = choose|j: int| 0 <= j < on.len() && on[j] == nn[k];
        assert(oi[a].attr.ino == on[b].ino);
    }
}

proof fn lemma_names_self(s: Seq<NameEntry>)
    ensures
        drawn_from(s, s),
{
    assert forall|i: int| 0 <= i < s.len() implies #[trigger] s.contains(s[i]) by {
        assert(s[i] == s[i]);
    }
}

proof fn lemma_state_push(
    src: Seq<char>,
    ni: Seq<InodeInfo>,
    nn: Seq<NameEntry>,
    x: InodeInfo,
    e: NameEntry,
)
    requires
        state_base(src, ni, nn),
        x.wf(),
        x.attr.ino != ROOT_INODE,
        x.attr.ino == e.ino,
        x.path@ == child_path(src, e.name@),
        forall|i: int| 0 <= i < ni.len() ==> #[trigger] ni[i].attr.ino != x.attr.ino,
        forall|k: int| 0 <= k < nn.len() ==> #[trigger] nn[k].ino != x.attr.ino,
    ensures
        state_base(src, ni.push(x), nn.push(e)),
{
    let a = ni.push(x);
    let b = nn.push(e);
    assert forall|i: int| 0 <= i < a.len() implies (#[trigger] a[i]).wf() && a[i].attr.ino
        != ROOT_INODE by {
        if i < ni.len() {
            assert(a[i] == ni[i]);
        }
    }
    assert forall|i: int, k: int|
        0 <= i < a.len() && 0 <= k < b.len() && (#[trigger] a[i]).attr.ino == (#[trigger] b[k]).ino
        implies a[i].path@ == child_path(src, b[k].name@) by {
        if i < ni.len() {
            assert(a[i] == ni[i]);
            if k < nn.len() {
                assert(b[k] == nn[k]);
            }
        } else if k < nn.len() {
            assert(b[k] == nn[k]);
        }
    }
}

proof fn lemma_derived_ino_even(ino: u64)
    ensures
        derived_ino(ino) % 2 == 0,
        derived_ino(ino) != ROOT_INODE,
{
    let m: int = 0x1_0000_0000_0000_0000;
    let d = (ino as int * 2) % m;
    assert(d % 2 == 0) by (nonlinear_arith)
        requires
            d == (ino as int * 2) % m,
            m == 0x1_0000_0000_0000_0000,
    ;
}

proof fn lemma_find_none_filter(s: Seq<InodeInfo>, ino: u64)
    ensures
        find_ino(s.filter(not_ino(ino)), ino) is None,
    decreases s.len(),
{
    reveal(Seq::filter);
    if s.len() > 0 {
        lemma_find_none_filter(s.drop_last(), ino);
        let sub = s.drop_last().filter(not_ino(ino));
        assert(sub.push(s.last()).drop_last() =~= sub);
    }
}

/// The filesystem's state.
pub struct SnapshotFS {
    source_dir: String,
    timeout: Time,
    inode_map: Vec<InodeInfo>,
    file_map: Vec<NameEntry>,
}

impl SnapshotFS {
    pub closed spec fn source(&self) -> Seq<char> {
        self.source_dir@
    }

    pub closed spec fn ttl(&self) -> Time {
        self.timeout
    }

    pub closed spec fn inodes(&self) -> Seq<InodeInfo> {
        self.inode_map@
    }

    pub closed spec fn names(&self) -> Seq<NameEntry> {
        self.file_map@
    }

    /// The cache entry of inode `ino`.
    pub open spec fn cached(&self, ino: u64) -> Option<InodeInfo> {
        find_ino(self.inodes(), ino)
    }

    /// The cached archive that name `name` stands for.
    pub open spec fn named(&self, name: Seq<char>) -> Option<u64> {
        match find_name(self.names(), name) {
            Some(i) => if self.cached(i) is Some {
                Some(i)
            } else {
                None
            },
            None => None,
        }
    }

    /// Every cache entry is well formed and not the root's inode; every name
    /// and every entry of the same inode agree: the entry's path is that
    /// child of the source directory.
    pub closed spec fn wf(&self) -> bool {
        state_ok(self.source_dir@, self.inode_map@, self.file_map@)
    }

    /// A filesystem over `source_dir` whose cache entries live `timeout_secs`
    /// seconds.
    pub fn new(source_dir: String, timeout_secs: u64) -> (r: Self)
        ensures
            r.wf(),
            r.source() == source_dir@,
            r.ttl() == (Time { secs: timeout_secs, nanos: 0 }),
            r.inodes().len() == 0,
            r.names().len() == 0,
    {
        SnapshotFS {
            source_dir,
            timeout: Time { secs: timeout_secs, nanos: 0 },
            inode_map: Vec::new(),
            file_map: Vec::new(),
        }
    }

    pub fn source_dir(&self) -> (r: &String)
        ensures
            r@ == self.source(),
    {
        &self.source_dir
    }

    pub fn timeout(&self) -> (r: Time)
        ensures
            r == self.ttl(),
    {
        self.timeout
    }

    /// The path of child `name` of the source directory.
    pub fn child_path(&self, name: &str) -> (r: String)
        ensures
            r@ == child_path(self.source(), name@),
    {
        let mut p = self.source_dir.clone();
        let sep = "/";
        proof {
            reveal_strlit("/");
        }
        p.append(sep);
        p.append(name);
        p
    }

    /// The index of the cache entry of inode `ino`.
    fn index_of(&self, ino: u64) -> (r: Option<usize>)
        ensures
            r is None <==> self.cached(ino) is None,
            r is Some ==> r->Some_0 < self.inodes().len() && self.cached(ino) == Some(
                self.inodes()[r->Some_0 as int],
            ),
            r is Some ==> self.inodes()[r->Some_0 as int].attr.ino == ino,
            r is Some ==> forall|k: int|
                r->Some_0 < k < self.inodes().len() ==> #[trigger] self.inodes()[k].attr.ino != ino,
    {
        find_index(&self.inode_map, ino)
    }

    /// The inode recorded for `name`, whether or not it is cached.
    fn name_ino(&self, name: &str) -> (r: Option<u64>)
        ensures
            r == find_name(self.names(), name@),
    {
        let key = <String as StringExecFns>::from_str(name);
        let mut i: usize = self.file_map.len();
        proof {
            assert(self.file_map@.take(i as int) =~= self.file_map@);
        }
        while i > 0
            invariant
                i <= self.file_map@.len(),
                key@ == name@,
                find_name(self.file_map@, name@) == find_name(self.file_map@.take(i as int), name@),
            decreases i,
        {
            let ghost t = self.file_map@.take(i as int);
            proof {
                assert(t.drop_last() =~= self.file_map@.take(i - 1));
            }
            if self.file_map[i - 1].name == key {
                return Some(self.file_map[i - 1].ino);
            }
            i = i - 1;
        }
        proof {
            assert(self.file_map@.take(0) =~= Seq::<NameEntry>::empty());
        }
        None
    }

    /// The cached archive for subdirectory `name`.
    pub fn resolve_name(&self, name: &str) -> (r: Option<u64>)
        ensures
            r == self.named(name@),
    {
        match self.name_ino(name) {
            Some(i) => match self.index_of(i) {
                Some(_) => Some(i),
                None => None,
            },
            None => None,
        }
    }

    /// What a lookup of `name` in directory `parent` finds in the cache.
    pub fn lookup_target(&self, parent: u64, name: &str) -> (r: LookupTarget)
        ensures
            parent != ROOT_INODE ==> r is Missing,
            parent == ROOT_INODE ==> match self.named(stem(name@)) {
                Some(i) => r == LookupTarget::Cached(i),
                None => r is Absent && r->Absent_0@ == stem(name@),
            },
    {
        if parent != ROOT_INODE {
            return LookupTarget::Missing;
        }
        let s = stem_of(name);
        match self.resolve_name(s.as_str()) {
            Some(i) => LookupTarget::Cached(i),
            None => LookupTarget::Absent(s),
        }
    }

    /// What the cache holds for inode `ino` at `now`.
    pub fn check(&self, ino: u64, now: Time) -> (r: CacheCheck)
        ensures
            match self.cached(ino) {
                None => r is Missing,
                Some(info) => if info.outdated_at(now, self.ttl()) {
                    r is Stale && r->Stale_0@ == info.path@
                } else {
                    r == CacheCheck::Fresh(info.attr)
                },
            },
    {
        match self.index_of(ino) {
            None => CacheCheck::Missing,
            Some(idx) => {
                let info = &self.inode_map[idx];
                if info.outdated(now, self.timeout) {
                    CacheCheck::Stale(info.path.clone())
                } else {
                    CacheCheck::Fresh(info.attr)
                }
            },
        }
    }
}

impl SnapshotFS {
    /// Drops the cache entries of inode `ino`, and the names that stand for it.
    fn evict(&mut self, ino: u64)
        requires
            old(self).wf(),
        ensures
            final(self).wf(),
            final(self).inodes() == old(self).inodes().filter(not_ino(ino)),
            final(self).names() == old(self).names().filter(name_not_ino(ino)),
            final(self).source() == old(self).source(),
            final(self).ttl() == old(self).ttl(),
            final(self).cached(ino) is None,
    {
        let mut v: Vec<InodeInfo> = Vec::new();
        std::mem::swap(&mut v, &mut self.inode_map);
        let ghost oi = v@;
        self.inode_map = inodes_without(v, ino);
        let mut w: Vec<NameEntry> = Vec::new();
        std::mem::swap(&mut w, &mut self.file_map);
        let ghost on = w@;
        self.file_map = names_without(w, ino);
        proof {
            lemma_state_sub(self.source_dir@, oi, on, self.inode_map@, self.file_map@);
            lemma_cached_after_evict(oi, on, self.file_map@, ino);
            lemma_find_none_filter(oi, ino);
        }
    }

    /// Brings the cache entry of inode `ino` up to date at `now`, where it is
    /// outdated, from `scan`, a walk of its subtree. An entry that cannot be
    /// brought up to date is dropped, with the names that stand for it.
    pub fn refresh(&mut self, ino: u64, scan: &Result<Scan, ArchiveError>, now: Time) -> (r:
        Result<FileAttrs, ArchiveError>)
        requires
            old(self).wf(),
        ensures
            final(self).wf(),
            final(self).source() == old(self).source(),
            final(self).ttl() == old(self).ttl(),
            r is Ok ==> final(self).names() == old(self).names(),
            r is Ok ==> final(self).cached(ino) is Some && r->Ok_0 == final(self).cached(
                ino,
            )->Some_0.attr,
            r is Err ==> final(self).cached(ino) is None,
            r is Err ==> final(self).inodes() == old(self).inodes().filter(not_ino(ino))
                && final(self).names() == old(self).names().filter(name_not_ino(ino)),
            match old(self).cached(ino) {
                None => r == Err::<FileAttrs, ArchiveError>(ArchiveError::NotFound)
                    && final(self).inodes() == old(self).inodes() && final(self).names() == old(
                    self,
                ).names(),
                Some(info) => if !info.outdated_at(now, old(self).ttl()) {
                    r == Ok::<FileAttrs, ArchiveError>(info.attr) && final(self).inodes() == old(
                        self,
                    ).inodes()
                } else {
                    &&& scan is Err ==> r == Err::<FileAttrs, ArchiveError>(scan->Err_0)
                    &&& r is Ok ==> ({
                        let new = final(self).cached(ino)->Some_0;
                        &&& scan is Ok
                        &&& new.path@ == info.path@
                        &&& new.timestamp == now
                        &&& new.attr == archive_attr(scan->Ok_0.meta, new.blocks@, now)
                        &&& laid_out(new.blocks@, scan->Ok_0.entries@)
                        &&& final(self).inodes() == old(self).inodes().filter(not_ino(ino)).push(
                            new,
                        )
                    })
                    &&& scan is Ok && !load_blocks_fails(scan->Ok_0.entries@)
                        && crate::metadata::derived_ino(scan->Ok_0.meta.ino) == ino ==> r is Ok
                },
            },
    {
        let idx = match self.index_of(ino) {
            None => {
                proof {
                    lemma_inodes_filter_none(self.inode_map@, ino);
                    assert forall|k: int| 0 <= k < self.file_map@.len() implies #[trigger]
                        self.file_map@[k].ino != ino by {
                        assert(find_ino(self.inode_map@, self.file_map@[k].ino) is Some);
                    }
                    lemma_names_filter_none(self.file_map@, ino);
                }
                return Err(ArchiveError::NotFound);
            },
            Some(i) => i,
        };
        if !self.inode_map[idx].outdated(now, self.timeout) {
            return Ok(self.inode_map[idx].attr);
        }
        let sc = match scan {
            Err(e) => {
                self.evict(ino);
                return Err(*e);
            },
            Ok(sc) => sc,
        };
        let path = self.inode_map[idx].path.clone();
        let info = match InodeInfo::new(path, sc, now) {
            Ok(info) => info,
            Err(e) => {
                self.evict(ino);
                return Err(e);
            },
        };
        if info.attr.ino != ino {
            self.evict(ino);
            return Err(ArchiveError::NotFound);
        }
        let attr = info.attr;
        let ghost oi = self.inode_map@;
        let ghost nv = info;
        let mut v: Vec<InodeInfo> = Vec::new();
        std::mem::swap(&mut v, &mut self.inode_map);
        let mut kept = inodes_without(v, ino);
        proof {
            let names = self.file_map@;
            lemma_names_self(names);
            lemma_state_sub(self.source_dir@, oi, names, kept@, names);
            assert(oi[idx as int].attr.ino == ino);
            assert forall|k: int| 0 <= k < names.len() && #[trigger] names[k].ino == nv.attr.ino
                implies nv.path@ == child_path(self.source_dir@, names[k].name@) by {
                assert(oi[idx as int].attr.ino == names[k].ino);
            }
            lemma_state_push_same(self.source_dir@, kept@, names, nv);
            assert forall|k: int| 0 <= k < names.len() implies #[trigger] find_ino(
                kept@.push(nv),
                names[k].ino,
            ) is Some by {
                if names[k].ino != ino {
                    lemma_find_push_other(kept@, nv, names[k].ino);
                    lemma_find_filter_other(oi, ino, names[k].ino);
                    assert(find_ino(oi, names[k].ino) is Some);
                }
            }
        }
        kept.push(info);
        self.inode_map = kept;
        Ok(attr)
    }
}

impl SnapshotFS {
    /// The attributes of the archive of subdirectory `name`: the cached ones,
    /// or those of a new cache entry made from `scan`, a walk of the
    /// subdirectory at `now`.
    pub fn add_file(&mut self, name: &str, scan: &Result<Scan, ArchiveError>, now: Time) -> (r:
        Result<FileAttrs, ArchiveError>)
        requires
            old(self).wf(),
        ensures
            final(self).wf(),
            final(self).source() == old(self).source(),
            final(self).ttl() == old(self).ttl(),
            old(self).named(name@) is Some ==> r == Ok::<FileAttrs, ArchiveError>(
                old(self).cached(old(self).named(name@)->Some_0)->Some_0.attr,
            ) && final(self).inodes() == old(self).inodes() && final(self).names() == old(
                self,
            ).names(),
            r is Err ==> final(self).inodes() == old(self).inodes() && final(self).names() == old(
                self,
            ).names(),
            old(self).named(name@) is None && scan is Err ==> r == Err::<FileAttrs, ArchiveError>(
                scan->Err_0,
            ),
            old(self).named(name@) is None && scan is Ok && !load_blocks_fails(
                scan->Ok_0.entries@,
            ) ==> r is Ok,
            old(self).named(name@) is None && r is Ok ==> ({
                let i = r->Ok_0.ino;
                let info = final(self).inodes().last();
                &&& scan is Ok
                &&& info.path@ == child_path(old(self).source(), name@)
                &&& info.timestamp == now
                &&& info.attr == archive_attr(scan->Ok_0.meta, info.blocks@, now)
                &&& laid_out(info.blocks@, scan->Ok_0.entries@)
                &&& r->Ok_0 == info.attr
                &&& final(self).inodes() == old(self).inodes().filter(not_ino(i)).push(info)
                &&& final(self).names().drop_last() == old(self).names().filter(name_not_ino(i))
                &&& final(self).names().last().name@ == name@
                &&& final(self).names().last().ino == i
                &&& final(self).cached(i) == Some(info)
                &&& final(self).named(name@) == Some(i)
            }),
    {
        match self.resolve_name(name) {
            Some(i) => {
                let idx = self.index_of(i);
                match idx {
                    Some(k) => {
                        return Ok(self.inode_map[k].attr);
                    },
                    None => {
                        return Err(ArchiveError::NotFound);
                    },
                }
            },
            None => {},
        }
        let sc = match scan {
            Err(e) => {
                return Err(*e);
            },
            Ok(sc) => sc,
        };
        let path = self.child_path(name);
        let info = match InodeInfo::new(path, sc, now) {
            Ok(info) => info,
            Err(e) => {
                return Err(e);
            },
        };
        let ino = info.attr.ino;
        proof {
            lemma_derived_ino_even(sc.meta.ino);
        }
        let mut v: Vec<InodeInfo> = Vec::new();
        std::mem::swap(&mut v, &mut self.inode_map);
        let ghost oi = v@;
        let mut kept = inodes_without(v, ino);
        let mut w: Vec<NameEntry> = Vec::new();
        std::mem::swap(&mut w, &mut self.file_map);
        let ghost on = w@;
        let mut names = names_without(w, ino);
        proof {
            lemma_state_sub(self.source_dir@, oi, on, kept@, names@);
            broadcast use vstd::seq_lib::group_filter_ensures;

            assert forall|i: int| 0 <= i < kept@.len() implies #[trigger] kept@[i].attr.ino
                != ino by {
                assert(not_ino(ino)(kept@[i]));
            }
            assert forall|k: int| 0 <= k < names@.len() implies #[trigger] names@[k].ino
                != ino by {
                assert(name_not_ino(ino)(names@[k]));
            }
        }
        let entry = NameEntry { name: <String as StringExecFns>::from_str(name), ino };
        let ghost info_v = info;
        let ghost entry_v = entry;
        proof {
            lemma_state_push(self.source_dir@, kept@, names@, info_v, entry_v);
        }
        kept.push(info);
        names.push(entry);
        self.inode_map = kept;
        self.file_map = names;
        proof {
            assert(self.inode_map@.last() == info_v);
            assert(self.inode_map@.drop_last() =~= oi.filter(not_ino(ino)));
            assert(self.file_map@.drop_last() =~= on.filter(name_not_ino(ino)));
            assert(find_name(self.file_map@, name@) == Some(ino));
            let fi = self.inode_map@;
            let fnm = self.file_map@;
            assert(fi == oi.filter(not_ino(ino)).push(info_v));
            assert forall|k: int| 0 <= k < fnm.len() implies #[trigger] find_ino(
                fi,
                fnm[k].ino,
            ) is Some by {
                if k < fnm.len() - 1 {
                    assert(fnm[k] == fnm.drop_last()[k]);
                    lemma_cached_after_evict(oi, on, fnm.drop_last(), ino);
                    assert(find_ino(oi.filter(not_ino(ino)), fnm[k].ino) is Some);
                    lemma_find_push_other(oi.filter(not_ino(ino)), info_v, fnm[k].ino);
                } else {
                    assert(fnm[k].ino == ino);
                    assert(fi.drop_last() =~= oi.filter(not_ino(ino)));
                }
            }
        }
        Ok(self.inode_map[self.inode_map.len() - 1].attr)
    }

    /// Drops the cache entries that are outdated at `now`, and the names of
    /// inodes left without an entry.
    pub fn garbage_collect(&mut self, now: Time)
        requires
            old(self).wf(),
        ensures
            final(self).wf(),
            final(self).source() == old(self).source(),
            final(self).ttl() == old(self).ttl(),
            final(self).inodes() == old(self).inodes().filter(fresh_at(now, old(self).ttl())),
            final(self).names() == old(self).names().filter(name_live(final(self).inodes())),
    {
        let mut v: Vec<InodeInfo> = Vec::new();
        std::mem::swap(&mut v, &mut self.inode_map);
        let ghost oi = v@;
        let ttl = self.timeout;
        let fresh = |x: &InodeInfo| -> (b: bool)
            ensures
                b == !x.outdated_at(now, ttl),
            { !x.outdated(now, ttl) };
        let kept = retain_by(v, &fresh, Ghost(fresh_at(now, ttl)));
        let mut w: Vec<NameEntry> = Vec::new();
        std::mem::swap(&mut w, &mut self.file_map);
        let ghost on = w@;
        let live = |n: &NameEntry| -> (b: bool)
            ensures
                b == (find_ino(kept@, n.ino) is Some),
            { find_index(&kept, n.ino).is_some() };
        let names = retain_by(w, &live, Ghost(name_live(kept@)));
        proof {
            lemma_state_sub(self.source_dir@, oi, on, kept@, names@);
            broadcast use vstd::seq_lib::group_filter_ensures;

            assert forall|k: int| 0 <= k < names@.len() implies #[trigger] find_ino(
                kept@,
                names@[k].ino,
            ) is Some by {
                assert(name_live(kept@)(names@[k]));
            }
        }
        self.inode_map = kept;
        self.file_map = names;
    }

    /// Reads `size` bytes at `offset` of the archive with inode `ino`.
    pub fn read(&self, ino: u64, offset: u64, size: u32) -> (r: Result<Vec<Piece>, ArchiveError>)
        requires
            self.wf(),
        ensures
            match self.cached(ino) {
                None => r == Err::<Vec<Piece>, ArchiveError>(ArchiveError::NotFound),
                Some(info) => r is Ok && pieces_sources(r->Ok_0@) == read_range(
                    info.blocks@,
                    offset as nat,
                    size as nat,
                ),
            },
    {
        match self.index_of(ino) {
            None => Err(ArchiveError::NotFound),
            Some(idx) => {
                proof {
                    assert(self.inode_map@[idx as int].wf());
                }
                Ok(read_from_blocks(&self.inode_map[idx].blocks, offset, size as usize))
            },
        }
    }
}

/// The entries of the mount root: itself as `.` and `..`, then the archive of
/// each child, named after it with `.tar` appended.
pub open spec fn listing(children: Seq<Child>) -> Seq<(u64, FileKind, Seq<char>)> {
    seq![(ROOT_INODE, FileKind::Directory, seq!['.']), (ROOT_INODE, FileKind::Directory, seq!['.', '.'])]
        + Seq::new(
        children.len(),
        |k: int| (children[k].ino, FileKind::RegularFile, children[k].name@ + seq!['.', 't', 'a', 'r']),
    )
}

/// The entries of directory `ino` from position `offset` on, each with the
/// position after it to resume from; only the mount root is a directory.
pub fn readdir_items(ino: u64, offset: u64, children: &Vec<Child>) -> (r: Result<
    Vec<DirItem>,
    ArchiveError,
>)
    requires
        children@.len() + 2 < u64::MAX,
    ensures
        ino != ROOT_INODE ==> r == Err::<Vec<DirItem>, ArchiveError>(ArchiveError::NotFound),
        ino == ROOT_INODE ==> r is Ok,
        r is Ok ==> ({
            let items = r->Ok_0@;
            let l = listing(children@);
            &&& items.len() == if offset < l.len() {
                l.len() - offset
            } else {
                0
            }
            &&& forall|k: int|
                0 <= k < items.len() ==> (#[trigger] items[k]).ino == l[offset + k].0
                    && items[k].kind == l[offset + k].1 && items[k].name@ == l[offset + k].2
                    && items[k].cookie == offset + k + 1
        }),
{
    if ino != ROOT_INODE {
        return Err(ArchiveError::NotFound);
    }
    let ghost l = listing(children@);
    let total: u64 = children.len() as u64 + 2;
    let mut items: Vec<DirItem> = Vec::new();
    let mut idx: u64 = offset;
    while idx < total
        invariant
            total == l.len(),
            total == children@.len() + 2,
            children@.len() <= usize::MAX,
            l == listing(children@),
            total < u64::MAX,
            offset <= total ==> idx <= total,
            total <= offset ==> idx == offset,
            idx >= offset,
            items@.len() == idx - offset,
            forall|k: int|
                0 <= k < items@.len() ==> (#[trigger] items@[k]).ino == l[offset + k].0
                    && items@[k].kind == l[offset + k].1 && items@[k].name@ == l[offset + k].2
                    && items@[k].cookie == offset + k + 1,
        decreases total - idx,
    {
        let item = if idx == 0 {
            DirItem {
                ino: ROOT_INODE,
                kind: FileKind::Directory,
                name: <String as StringExecFns>::from_str("."),
                cookie: idx + 1,
            }
        } else if idx == 1 {
            DirItem {
                ino: ROOT_INODE,
                kind: FileKind::Directory,
                name: <String as StringExecFns>::from_str(".."),
                cookie: idx + 1,
            }
        } else {
            let ci: usize = (idx - 2) as usize;
            assert(ci as int == idx - 2);
            let c = &children[ci];
            let mut name = c.name.clone();
            let ext = ".tar";
            proof {
                reveal_strlit(".tar");
                assert(ext@ =~= seq!['.', 't', 'a', 'r']);
                assert(*c == children@[ci as int]);
            }
            name.append(ext);
            DirItem { ino: c.ino, kind: FileKind::RegularFile, name, cookie: idx + 1 }
        };
        proof {
            reveal_strlit(".");
            reveal_strlit("..");
            reveal_strlit(".tar");
            if idx == 0 {
                assert(item.name@ =~= seq!['.']);
            } else if idx == 1 {
                assert(item.name@ =~= seq!['.', '.']);
            } else {
                assert(item.name@ =~= children@[idx - 2].name@ + seq!['.', 't', 'a', 'r']);
            }
            assert(item.ino == l[idx as int].0 && item.kind == l[idx as int].1 && item.name@ == l[
                idx as int].2);
        }
        let ghost prev = items@;
        items.push(item);
        proof {
            assert forall|k: int| 0 <= k < items@.len() implies (#[trigger] items@[k]).ino
                == l[offset + k].0 && items@[k].kind == l[offset + k].1 && items@[k].name@ == l[
                offset + k].2 && items@[k].cookie == offset + k + 1 by {
                if k < prev.len() {
                    assert(items@[k] == prev[k]);
                }
            }
        }
        idx = idx + 1;
    }
    Ok(items)
}

} // verus!
