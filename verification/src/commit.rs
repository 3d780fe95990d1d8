//! Directory commit machinery: appending tags to a metadata log, closing a commit
//! with its CRC, compacting a log into the other block of its pair, splitting and
//! relocating metadata pairs.
use vstd::prelude::*;
use crate::bdcache::{BdContext, lemma_frame_trans};
use crate::block::BlockDevice;
use crate::crc::{crc32, crc_seq};
use crate::error::Error;
use crate::parent::{fs_parent, fs_pred};
use crate::gstate::{dir_getgstate, compute_movestate_delta, dir_gstate, gstate_bytes, gxor, gzero, movestate_delta0, GState};
use crate::lookahead::{lfs_alloc, Lookahead};
use crate::bdcache::BLOCK_NULL;
use crate::tag::lfs_tag_dsize;
use crate::metadata::{dir_traverse_size, dir_traverse_tags, entries_size, scan_tags, MdDir, TagEntry};
use crate::tag::{tag_dsize_spec, TYPE_CCRC, TYPE_CREATE, TYPE_CTZSTRUCT, TYPE_DELETE, TYPE_DIR, TYPE_DIRSTRUCT, TYPE_FCRC, TYPE_HARDTAIL, TYPE_INLINESTRUCT, TYPE_MOVESTATE, TYPE_REG, TYPE_SOFTTAIL};
use crate::util::{alignup, be32_array, be32_bytes, le32_array, le32_bytes};

verus! {

/// Gstate bookkeeping of a commit: the in-memory gstate, the gstate known to be on
/// disk and the pending delta. With `root` set, the on-disk gstate is updated only
/// by commits to that pair (mount follows the root's tail).
#[derive(Clone, Copy)]
pub struct GStateCtx {
    pub gstate: GState,
    pub gdisk: GState,
    pub gdelta: GState,
    /// If Some, gdisk is updated only when committing to this pair.
    pub root: Option<[u32; 2]>,
    /// When true, skip the directory's own deltas (explicit persist e.g. mkconsistent).
    pub skip_dir_adjust: bool,
}

/// Data for a commit attribute.
#[derive(Clone)]
pub enum CommitData {
    Empty,
    Slice(Vec<u8>),
    Pair([u32; 2]),
    CtzStruct { head: u32, size: u32 },
    GState(GState),
}

/// A single attribute to commit.
#[derive(Clone)]
pub struct CommitAttr {
    pub tag: u32,
    pub data: CommitData,
}

/// A tag of `type_`, `id` and `size` (each field already in range).
pub open spec fn mktag_spec(type_: u32, id: u32, size: u32) -> u32 {
    (type_ << 20u32) | (id << 10u32) | size
}

/// The bytes that the data of an attribute stands for on disk.
pub open spec fn data_bytes(d: CommitData) -> Seq<u8> {
    match d {
        CommitData::Empty => Seq::empty(),
        CommitData::Slice(v) => v@,
        CommitData::Pair(p) => le32_bytes(p[0]) + le32_bytes(p[1]),
        CommitData::CtzStruct { head, size } => le32_bytes(head) + le32_bytes(size),
        CommitData::GState(g) => gstate_bytes(g),
    }
}

/// The eleven type bits of a tag.
pub open spec fn type3_of(tag: u32) -> u32 {
    (tag >> 20u32) & 0x7ff
}

fn mktag(type_: u32, id: u32, size: u32) -> (r: u32)
    requires
        type_ <= 0x7ff,
        id <= 0x3ff,
        size <= 0x3ff,
    ensures
        r == mktag_spec(type_, id, size),
{
    (type_ << 20u32) | (id << 10u32) | size
}

impl CommitAttr {
    /// CREATE of `id`.
    pub fn create(id: u16) -> (r: Self)
        requires
            id <= 0x3ff,
        ensures
            r.tag == mktag_spec(TYPE_CREATE, id as u32, 0),
            r.data == CommitData::Empty,
    {
        Self { tag: mktag(TYPE_CREATE, id as u32, 0), data: CommitData::Empty }
    }

    /// DELETE of `id`.
    pub fn delete(id: u16) -> (r: Self)
        requires
            id <= 0x3ff,
        ensures
            r.tag == mktag_spec(TYPE_DELETE, id as u32, 0),
            r.data == CommitData::Empty,
    {
        Self { tag: mktag(TYPE_DELETE, id as u32, 0), data: CommitData::Empty }
    }

    /// Directory name of `id`: at most 255 bytes of `name`.
    pub fn name_dir(id: u16, name: &[u8]) -> (r: Self)
        requires
            id <= 0x3ff,
        ensures
            ({
                let n = if name@.len() < 255 { name@.len() } else { 255 };
                &&& r.tag == mktag_spec(TYPE_DIR, id as u32, n as u32)
                &&& r.data == CommitData::Slice(r.data->Slice_0)
                &&& r.data->Slice_0@ == name@.subrange(0, n as int)
            }),
    {
        let size = if name.len() < 255 { name.len() } else { 255 };
        Self { tag: mktag(TYPE_DIR, id as u32, size as u32), data: CommitData::Slice(vstd::slice::slice_to_vec(slice_subrange(name, 0, size))) }
    }

    /// Regular file name of `id`: at most 255 bytes of `name`.
    pub fn name_reg(id: u16, name: &[u8]) -> (r: Self)
        requires
            id <= 0x3ff,
        ensures
            ({
                let n = if name@.len() < 255 { name@.len() } else { 255 };
                &&& r.tag == mktag_spec(TYPE_REG, id as u32, n as u32)
                &&& r.data == CommitData::Slice(r.data->Slice_0)
                &&& r.data->Slice_0@ == name@.subrange(0, n as int)
            }),
    {
        let size = if name.len() < 255 { name.len() } else { 255 };
        Self { tag: mktag(TYPE_REG, id as u32, size as u32), data: CommitData::Slice(vstd::slice::slice_to_vec(slice_subrange(name, 0, size))) }
    }

    /// Directory struct of `id`: the pair of the directory.
    pub fn dir_struct(id: u16, pair: [u32; 2]) -> (r: Self)
        requires
            id <= 0x3ff,
        ensures
            r.tag == mktag_spec(TYPE_DIRSTRUCT, id as u32, 8),
            r.data == CommitData::Pair(pair),
    {
        Self { tag: mktag(TYPE_DIRSTRUCT, id as u32, 8), data: CommitData::Pair(pair) }
    }

    /// Inline struct of `id`: at most 0x3fe bytes of `data`.
    pub fn inline_struct(id: u16, data: &[u8]) -> (r: Self)
        requires
            id <= 0x3ff,
        ensures
            ({
                let n = if data@.len() < 0x3fe { data@.len() } else { 0x3fe };
                &&& r.tag == mktag_spec(TYPE_INLINESTRUCT, id as u32, n as u32)
                &&& r.data == CommitData::Slice(r.data->Slice_0)
                &&& r.data->Slice_0@ == data@.subrange(0, n as int)
            }),
    {
        let size = if data.len() < 0x3fe { data.len() } else { 0x3fe };
        Self { tag: mktag(TYPE_INLINESTRUCT, id as u32, size as u32), data: CommitData::Slice(vstd::slice::slice_to_vec(slice_subrange(data, 0, size))) }
    }

    /// CTZ struct of `id`: head block and size of the file.
    pub fn ctz_struct(id: u16, head: u32, size: u32) -> (r: Self)
        requires
            id <= 0x3ff,
        ensures
            r.tag == mktag_spec(TYPE_CTZSTRUCT, id as u32, 8),
            r.data == (CommitData::CtzStruct { head, size }),
    {
        Self { tag: mktag(TYPE_CTZSTRUCT, id as u32, 8), data: CommitData::CtzStruct { head, size } }
    }

    /// Soft tail: the next pair of the metadata list.
    pub fn soft_tail(pair: [u32; 2]) -> (r: Self)
        ensures
            r.tag == mktag_spec(TYPE_SOFTTAIL, 0x3ff, 8),
            r.data == CommitData::Pair(pair),
    {
        Self { tag: mktag(TYPE_SOFTTAIL, 0x3ff, 8), data: CommitData::Pair(pair) }
    }

    /// Hard tail: the next pair of the same directory.
    pub fn hard_tail(pair: [u32; 2]) -> (r: Self)
        ensures
            r.tag == mktag_spec(TYPE_HARDTAIL, 0x3ff, 8),
            r.data == CommitData::Pair(pair),
    {
        Self { tag: mktag(TYPE_HARDTAIL, 0x3ff, 8), data: CommitData::Pair(pair) }
    }

    /// MOVESTATE tag for gstate persistence.
    pub fn movestate(gstate: &GState) -> (r: Self)
        ensures
            r.tag == mktag_spec(TYPE_MOVESTATE, 0x3ff, 12),
            r.data == CommitData::GState(*gstate),
    {
        Self { tag: mktag(TYPE_MOVESTATE, 0x3ff, 12), data: CommitData::GState(*gstate) }
    }
}

fn slice_subrange(s: &[u8], a: usize, b: usize) -> (r: &[u8])
    requires
        a <= b <= s@.len(),
    ensures
        r@ == s@.subrange(a as int, b as int),
{
    vstd::slice::slice_subrange(s, a, b)
}

/// The bytes of the data of `attr`.
fn attr_data_bytes(attr: &CommitAttr) -> (r: Vec<u8>)
    ensures
        r@ == data_bytes(attr.data),
{
    match &attr.data {
        CommitData::Empty => Vec::new(),
        CommitData::Slice(s) => vstd::slice::slice_to_vec(s.as_slice()),
        CommitData::Pair(p) => {
            let a = le32_array(p[0]);
            let b = le32_array(p[1]);
            let v = vec![a[0], a[1], a[2], a[3], b[0], b[1], b[2], b[3]];
            assert(v@ =~= le32_bytes(p[0]) + le32_bytes(p[1]));
            v
        },
        CommitData::CtzStruct { head, size } => {
            let a = le32_array(*head);
            let b = le32_array(*size);
            let v = vec![a[0], a[1], a[2], a[3], b[0], b[1], b[2], b[3]];
            assert(v@ =~= le32_bytes(*head) + le32_bytes(*size));
            v
        },
        CommitData::GState(g) => {
            let a = g.as_le_bytes();
            let v = vstd::slice::slice_to_vec(a.as_slice());
            v
        },
    }
}

/// What one attribute does to the in-memory state of a directory: CREATE and DELETE
/// move the entry count (saturating), a tail with a pair sets the tail and whether it
/// is hard.
pub open spec fn apply_attr(d: MdDir, a: CommitAttr) -> MdDir {
    let t3 = type3_of(a.tag);
    if t3 == TYPE_CREATE {
        MdDir { count: if d.count == 0xffff { d.count } else { (d.count + 1) as u16 }, ..d }
    } else if t3 == TYPE_DELETE {
        MdDir { count: if d.count == 0 { 0 } else { (d.count - 1) as u16 }, ..d }
    } else if (t3 == TYPE_SOFTTAIL || t3 == TYPE_HARDTAIL) && a.data is Pair {
        MdDir { tail: a.data->Pair_0, split: t3 == TYPE_HARDTAIL, ..d }
    } else {
        d
    }
}

/// The state of `d` after the attributes, in order.
pub open spec fn apply_attrs(d: MdDir, attrs: Seq<CommitAttr>) -> MdDir
    decreases attrs.len(),
{
    if attrs.len() == 0 {
        d
    } else {
        apply_attr(apply_attrs(d, attrs.drop_last()), attrs.last())
    }
}

/// The tail and its kind after the attributes depend on the starting state only
/// through its tail and its kind, and the count only through the count.
proof fn lemma_apply_attrs_tail_from(d1: MdDir, d2: MdDir, attrs: Seq<CommitAttr>)
    requires
        d1.tail == d2.tail,
        d1.split == d2.split,
    ensures
        apply_attrs(d1, attrs).tail == apply_attrs(d2, attrs).tail,
        apply_attrs(d1, attrs).split == apply_attrs(d2, attrs).split,
        d1.count == d2.count ==> apply_attrs(d1, attrs).count == apply_attrs(d2, attrs).count,
    decreases attrs.len(),
{
    if attrs.len() > 0 {
        lemma_apply_attrs_tail_from(d1, d2, attrs.drop_last());
    }
}

/// Applying the same attributes twice leaves the tail and its kind as applying them once.
proof fn lemma_apply_attrs_tail_twice(d: MdDir, attrs: Seq<CommitAttr>)
    ensures
        apply_attrs(apply_attrs(d, attrs), attrs).tail == apply_attrs(d, attrs).tail,
        apply_attrs(apply_attrs(d, attrs), attrs).split == apply_attrs(d, attrs).split,
    decreases attrs.len(),
{
    if attrs.len() > 0 {
        let a1 = attrs.drop_last();
        let x = attrs.last();
        let t3 = type3_of(x.tag);
        lemma_apply_attrs_tail_twice(d, a1);
        if !((t3 == TYPE_SOFTTAIL || t3 == TYPE_HARDTAIL) && x.data is Pair) {
            assert(apply_attrs(d, attrs).tail == apply_attrs(d, a1).tail);
            assert(apply_attrs(d, attrs).split == apply_attrs(d, a1).split);
            lemma_apply_attrs_tail_from(apply_attrs(d, attrs), apply_attrs(d, a1), a1);
        }
    }
}

/// The block `blk`, as reads through `c` see it, holds the records of `attrs` one after
/// the other somewhere: as an appended commit writes them, or as a compaction writes
/// them with their data in full.
pub open spec fn log_holds_attrs<B: BlockDevice>(c: &BdContext<B>, blk: u32, attrs: Seq<CommitAttr>) -> bool {
    ||| exists|off: int, p: u32| #![trigger c.logical_range(blk, off, attrs_size(attrs) as nat), attrs_log(attrs, p)]
        c.logical_range(blk, off, attrs_size(attrs) as nat) == attrs_log(attrs, p)
    ||| exists|off: int, p: u32| #![trigger c.logical_range(blk, off, attrs_full_size(attrs) as nat), attrs_full_log(attrs, p)]
        c.logical_range(blk, off, attrs_full_size(attrs) as nat) == attrs_full_log(attrs, p)
}

/// Contexts that read alike hold the same attribute records.
pub proof fn lemma_log_holds_same_logical<B: BlockDevice>(c1: &BdContext<B>, c2: &BdContext<B>, blk: u32, attrs: Seq<CommitAttr>)
    requires
        forall|b: u32, o: int| #[trigger] c2.logical(b, o) == c1.logical(b, o),
        log_holds_attrs(c1, blk, attrs),
    ensures
        log_holds_attrs(c2, blk, attrs),
{
    assert forall|off: int, n: nat| #[trigger] c2.logical_range(blk, off, n) == c1.logical_range(blk, off, n) by {
        assert forall|i: int| 0 <= i < n implies #[trigger] c2.logical_range(blk, off, n)[i] == c1.logical_range(blk, off, n)[i] by {
            assert(c2.logical(blk, off + i) == c1.logical(blk, off + i));
        }
        assert(c2.logical_range(blk, off, n) =~= c1.logical_range(blk, off, n));
    }
    if exists|off: int, p: u32| #![trigger c1.logical_range(blk, off, attrs_size(attrs) as nat), attrs_log(attrs, p)]
        c1.logical_range(blk, off, attrs_size(attrs) as nat) == attrs_log(attrs, p) {
        let (off, p) = choose|off: int, p: u32| #![trigger c1.logical_range(blk, off, attrs_size(attrs) as nat), attrs_log(attrs, p)]
            c1.logical_range(blk, off, attrs_size(attrs) as nat) == attrs_log(attrs, p);
        assert(c2.logical_range(blk, off, attrs_size(attrs) as nat) == attrs_log(attrs, p));
    } else {
        let (off, p) = choose|off: int, p: u32| #![trigger c1.logical_range(blk, off, attrs_full_size(attrs) as nat), attrs_full_log(attrs, p)]
            c1.logical_range(blk, off, attrs_full_size(attrs) as nat) == attrs_full_log(attrs, p);
        assert(c2.logical_range(blk, off, attrs_full_size(attrs) as nat) == attrs_full_log(attrs, p));
    }
}

/// The attribute sets the tail: a soft or hard tail with a pair.
pub open spec fn is_tail_attr(a: CommitAttr) -> bool {
    (type3_of(a.tag) == TYPE_SOFTTAIL || type3_of(a.tag) == TYPE_HARDTAIL) && a.data is Pair
}

/// At most one of the attributes sets the tail.
pub open spec fn at_most_one_tail(attrs: Seq<CommitAttr>) -> bool {
    forall|i: int, j: int| 0 <= i < j < attrs.len() ==> !(#[trigger] is_tail_attr(attrs[i]) && #[trigger] is_tail_attr(attrs[j]))
}

proof fn lemma_only_tail(d: MdDir, a: Seq<CommitAttr>, k: int)
    requires
        at_most_one_tail(a),
        0 <= k < a.len(),
        is_tail_attr(a[k]),
    ensures
        apply_attrs(d, a).tail == a[k].data->Pair_0,
        apply_attrs(d, a).split == (type3_of(a[k].tag) == TYPE_HARDTAIL),
    decreases a.len(),
{
    if k < a.len() - 1 {
        let a1 = a.drop_last();
        assert(a1[k] == a[k]);
        assert(!is_tail_attr(a[a.len() - 1])) by {
            assert(is_tail_attr(a[k]));
        }
        assert forall|i: int, j: int| 0 <= i < j < a1.len() implies !(#[trigger] is_tail_attr(a1[i]) && #[trigger] is_tail_attr(a1[j])) by {
            assert(a1[i] == a[i] && a1[j] == a[j]);
        }
        lemma_only_tail(d, a1, k);
    }
}

/// With at most one tail attribute, applying any prefix of the attributes again to a
/// state that already has them leaves the tail as it was.
proof fn lemma_tail_prefix(y: MdDir, d: MdDir, a: Seq<CommitAttr>, i: int)
    requires
        at_most_one_tail(a),
        0 <= i <= a.len(),
        y.tail == apply_attrs(d, a).tail,
        y.split == apply_attrs(d, a).split,
    ensures
        apply_attrs(y, a.take(i)).tail == apply_attrs(d, a).tail,
        apply_attrs(y, a.take(i)).split == apply_attrs(d, a).split,
    decreases i,
{
    if i > 0 {
        lemma_tail_prefix(y, d, a, i - 1);
        assert(a.take(i).drop_last() =~= a.take(i - 1));
        assert(a.take(i).last() == a[i - 1]);
        if is_tail_attr(a[i - 1]) {
            lemma_only_tail(d, a, i - 1);
        }
    } else {
        assert(a.take(0) =~= Seq::<CommitAttr>::empty());
    }
}

/// Apply attr to dir state (count, tail, split). Does not persist.
fn apply_attr_to_state(dir: &mut MdDir, attr: &CommitAttr)
    ensures
        *final(dir) == apply_attr(*old(dir), *attr),
{
    let type3 = (attr.tag >> 20u32) & 0x7ff;
    if type3 == TYPE_CREATE {
        if dir.count < 0xffff {
            dir.count = dir.count + 1;
        }
    } else if type3 == TYPE_DELETE {
        if dir.count > 0 {
            dir.count = dir.count - 1;
        }
    } else if type3 == TYPE_SOFTTAIL || type3 == TYPE_HARDTAIL {
        if let CommitData::Pair(p) = &attr.data {
            dir.tail = *p;
            dir.split = type3 == TYPE_HARDTAIL;
        }
    }
}

/// The stored form of a tag in a log: the valid bit cleared and XORed with the
/// previous tag.
pub open spec fn stored_tag(tag: u32, ptag: u32) -> u32 {
    (tag & 0x7fff_ffff) ^ ptag
}

/// The record of one attribute in a log: its stored tag, big-endian, then the first
/// `dsize - 4` bytes of its data.
pub open spec fn attr_record(a: CommitAttr, ptag: u32) -> Seq<u8> {
    be32_bytes(stored_tag(a.tag, ptag)) + data_bytes(a.data).subrange(0, tag_dsize_spec(a.tag) - 4)
}

/// The previous tag after writing `attrs` from previous tag `p0`.
pub open spec fn attrs_ptag(attrs: Seq<CommitAttr>, p0: u32) -> u32 {
    if attrs.len() == 0 { p0 } else { attrs.last().tag & 0x7fff_ffff }
}

/// The records of `attrs`, written in order from previous tag `p0`.
pub open spec fn attrs_log(attrs: Seq<CommitAttr>, p0: u32) -> Seq<u8>
    decreases attrs.len(),
{
    if attrs.len() == 0 {
        Seq::empty()
    } else {
        attrs_log(attrs.drop_last(), p0) + attr_record(attrs.last(), attrs_ptag(attrs.drop_last(), p0))
    }
}

/// Bytes that `attrs` take in a log.
pub open spec fn attrs_size(attrs: Seq<CommitAttr>) -> int
    decreases attrs.len(),
{
    if attrs.len() == 0 { 0 } else { attrs_size(attrs.drop_last()) + tag_dsize_spec(attrs.last().tag) }
}

/// Every attribute carries at least the data that its tag announces.
pub open spec fn attrs_complete(attrs: Seq<CommitAttr>) -> bool {
    forall|i: int| 0 <= i < attrs.len() ==> data_bytes(#[trigger] attrs[i].data).len() + 4 >= tag_dsize_spec(attrs[i].tag)
}

/// Where a commit that ends its attributes at `off` ends: the CRC needs 20 bytes,
/// and the end is rounded up to the program size.
pub open spec fn commit_end(off: int, prog_size: int) -> int {
    let t = off + 20;
    (t + prog_size - 1) - (t + prog_size - 1) % prog_size
}

/// On a reliable device, bytes of `block` below `lo` read as in `c0`.
pub open spec fn keeps_below<B: BlockDevice>(c: &BdContext<B>, c0: &BdContext<B>, block: u32, lo: int) -> bool {
    c0.bd.reliable() ==> forall|o: int| 0 <= o < lo ==> #[trigger] c.logical(block, o) == c0.logical(block, o)
}

/// One step of writing a log into `block`: the config and the device's reliability
/// are kept, only `block` may read differently, and on a reliable device its bytes
/// below `lo` are kept too.
pub open spec fn log_step<B: BlockDevice>(c2: &BdContext<B>, c1: &BdContext<B>, block: u32, lo: int) -> bool {
    &&& c2.config == c1.config
    &&& c2.bd.reliable() == c1.bd.reliable()
    &&& c2.frame_except(c1, block)
    &&& keeps_below(c2, c1, block, lo)
}

proof fn lemma_log_step_trans<B: BlockDevice>(c0: &BdContext<B>, c1: &BdContext<B>, c2: &BdContext<B>, block: u32, lo: int, lo2: int)
    requires
        log_step(c1, c0, block, lo),
        log_step(c2, c1, block, lo2),
        lo <= lo2,
    ensures
        log_step(c2, c0, block, lo),
{
    lemma_frame_trans(c0, c1, c2, block);
    if c0.bd.reliable() {
        assert forall|o: int| 0 <= o < lo implies #[trigger] c2.logical(block, o) == c0.logical(block, o) by {
            assert(c2.logical(block, o) == c1.logical(block, o));
        }
    }
}

proof fn lemma_log_step_same<B: BlockDevice>(c0: &BdContext<B>, c1: &BdContext<B>, block: u32, lo: int)
    requires
        c1.bd == c0.bd,
        c1.pcache == c0.pcache,
        c1.config == c0.config,
    ensures
        log_step(c1, c0, block, lo),
{
}

/// Program `data` at `off` of `block` as one step of a log.
fn log_prog<B: BlockDevice>(ctx: &mut BdContext<B>, block: u32, off: usize, data: &[u8]) -> (r: Result<(), Error>)
    requires
        old(ctx).wf(),
        block < old(ctx).config.block_count,
        off + data@.len() <= old(ctx).config.block_size,
    ensures
        final(ctx).wf(),
        final(ctx).config == old(ctx).config,
        final(ctx).bd.reliable() == old(ctx).bd.reliable(),
        r is Ok ==> log_step(&*final(ctx), &*old(ctx), block, off as int),
        (r is Ok && old(ctx).bd.reliable()) ==> forall|o: int| #[trigger] final(ctx).logical(block, o)
            == (if off <= o < off + data@.len() { data@[o - off] } else { old(ctx).logical(block, o) }),
        data@.len() == 0 ==> r is Ok,
        (old(ctx).pcache.block == block && old(ctx).pcache.off <= off && off + data@.len() < old(ctx).pcache.off
            + old(ctx).config.cache_size && old(ctx).pcache.size < old(ctx).config.cache_size) ==> r is Ok,
{
    let r = ctx.prog(block, off as u32, data);
    proof {
        if r is Ok && old(ctx).bd.reliable() {
            assert forall|o: int| 0 <= o < off implies #[trigger] ctx.logical(block, o) == old(ctx).logical(block, o) by {
                assert(ctx.logical(block, o) == old(ctx).logical(block, o));
            }
        }
    }
    r
}

/// Sync as one step of a log.
fn log_sync<B: BlockDevice>(ctx: &mut BdContext<B>, block: u32, lo: Ghost<int>) -> (r: Result<(), Error>)
    requires
        old(ctx).wf(),
    ensures
        final(ctx).wf(),
        final(ctx).config == old(ctx).config,
        final(ctx).bd.reliable() == old(ctx).bd.reliable(),
        r is Ok ==> log_step(&*final(ctx), &*old(ctx), block, lo@),
        r is Ok ==> final(ctx).pcache.block == BLOCK_NULL,
        (r is Ok && old(ctx).bd.reliable()) ==> forall|b: u32, o: int| #[trigger] final(ctx).logical(b, o) == old(ctx).logical(b, o),
{
    let r = ctx.sync();
    proof {
        if r is Ok {
            assert(ctx.frame_except(&*old(ctx), block));
        }
    }
    r
}

/// The program size divides the block size and is at most it.
proof fn lemma_prog_divides_block(config: crate::config::Config)
    requires
        config.wf(),
    ensures
        config.block_size % config.prog_size == 0,
        config.prog_size <= config.block_size,
        config.prog_size <= config.cache_size,
{
    crate::util::lemma_multiple_trans(config.block_size as int, config.cache_size as int, config.prog_size as int);
    crate::util::lemma_multiple_ge(config.block_size as int, config.prog_size as int);
    crate::util::lemma_multiple_ge(config.cache_size as int, config.prog_size as int);
}

/// CRC phase of a commit.
/// Pads the end of the commit to the program size, writes an FCRC over the next
/// program unit when there is room and the disk version has it, then CCRC tags with
/// the running CRC, syncs, and reads the commit back to check its CRC.
#[verifier::rlimit(60)]
fn dir_commit_crc<B: BlockDevice>(
    ctx: &mut BdContext<B>,
    block_idx: u32,
    off: &mut usize,
    ptag: &mut u32,
    crc: &mut u32,
    begin: usize,
    block_size: usize,
    prog_size: usize,
    disk_version: u32,
) -> (r: Result<(), Error>)
    requires
        old(ctx).wf(),
        block_idx < old(ctx).config.block_count,
        block_size == old(ctx).config.block_size,
        prog_size == old(ctx).config.prog_size,
        begin <= *old(off),
        *old(off) + 20 <= block_size,
    ensures
        final(ctx).wf(),
        final(ctx).config == old(ctx).config,
        final(ctx).bd.reliable() == old(ctx).bd.reliable(),
        r is Ok ==> *final(off) == commit_end(*old(off) as int, prog_size as int),
        r is Ok ==> *final(off) % prog_size == 0 && *final(off) <= block_size,
        r is Ok ==> log_step(&*final(ctx), &*old(ctx), block_idx, *old(off) as int),
        r is Ok ==> *final(crc) == 0xffff_ffff,
{
    proof {
        lemma_prog_divides_block(ctx.config);
        crate::util::lemma_aligndown((*off + 20 + prog_size - 1) as int, prog_size as int);
        crate::util::lemma_multiple_below(commit_end(*off as int, prog_size as int), block_size as int, prog_size as int);
    }
    let end = alignup((*off + 20) as u32, prog_size as u32) as usize;
    let ghost off0 = *off;
    let ghost c0 = *ctx;
    let mut off1: usize = 0;
    let mut crc1: u32 = 0;
    let mut have1 = false;
    while *off < end
        invariant
            ctx.wf(),
            c0 == *old(ctx),
            ctx.config == c0.config,
            ctx.bd.reliable() == c0.bd.reliable(),
            c0.wf(),
            prog_size <= block_size,
            prog_size > 0,
            block_idx < c0.config.block_count,
            block_size == c0.config.block_size,
            prog_size == c0.config.prog_size,
            end == commit_end(off0 as int, prog_size as int),
            end % prog_size == 0,
            off0 + 20 <= end <= block_size,
            off0 <= *off <= end,
            *off < end ==> *off + 20 <= end,
            begin <= off0,
            have1 ==> off1 <= block_size,
            have1 || *off == off0,
            *off != off0 ==> *crc == 0xffff_ffff,
            log_step(&*ctx, &c0, block_idx, off0 as int),
        decreases end - *off,
    {
        let off_after_tag = *off + 4;
        let mut noff = (if end - off_after_tag < 0x3fe { end - off_after_tag } else { 0x3fe }) + off_after_tag;
        if noff < end {
            noff = if noff < end - 20 { noff } else { end - 20 };
        }
        let mut eperturb: u8 = 0xff;
        let ghost cstart = *ctx;
        let ghost mut cpre = *ctx;
        if noff >= end && noff <= block_size - prog_size {
            let mut buf = [0u8; 1];
            if ctx.read(block_idx, noff as u32, &mut buf).is_ok() {
                eperturb = buf[0];
            }
            proof {
                lemma_log_step_same(&cstart, &*ctx, block_idx, off0 as int);
                lemma_log_step_trans(&c0, &cstart, &*ctx, block_idx, off0 as int, off0 as int);
                cpre = *ctx;
            }
            if disk_version > 0x0002_0000 {
                let fcrc_crc = ctx.crc(block_idx, noff as u32, prog_size, 0xffff_ffff)?;
                proof {
                    lemma_log_step_same(&cpre, &*ctx, block_idx, off0 as int);
                    lemma_log_step_trans(&c0, &cpre, &*ctx, block_idx, off0 as int, off0 as int);
                    cpre = *ctx;
                }
                let fcrc_tag = mktag(TYPE_FCRC, 0x3ff, 8);
                let fcrc_stored_tag = (fcrc_tag & 0x7fff_ffff) ^ *ptag;
                let p = le32_array(prog_size as u32);
                let c = le32_array(fcrc_crc);
                let fcrc_data = [p[0], p[1], p[2], p[3], c[0], c[1], c[2], c[3]];
                let tb = be32_array(fcrc_stored_tag);
                let ghost c1 = *ctx;
                proof { lemma_log_step_trans(&c0, &cpre, &c1, block_idx, off0 as int, *off as int); }
                log_prog(ctx, block_idx, *off, &tb)?;
                proof { lemma_log_step_trans(&c0, &c1, &*ctx, block_idx, off0 as int, *off as int); }
                *crc = crc32(*crc, &tb);
                *off = *off + 4;
                let ghost c2 = *ctx;
                log_prog(ctx, block_idx, *off, &fcrc_data)?;
                proof { lemma_log_step_trans(&c0, &c2, &*ctx, block_idx, off0 as int, *off as int); }
                *crc = crc32(*crc, &fcrc_data);
                *off = *off + 8;
                *ptag = fcrc_tag & 0x7fff_ffff;
            }
        }
        let ccrc_size = noff - (*off + 4);
        let ccrc_type = TYPE_CCRC + ((!eperturb) >> 7u8) as u32;
        let ccrc_tag = mktag(ccrc_type, 0x3ff, ccrc_size as u32);
        let ccrc_stored_tag = (ccrc_tag & 0x7fff_ffff) ^ *ptag;
        let tb = be32_array(ccrc_stored_tag);
        *crc = crc32(*crc, &tb);
        let stored_crc = *crc;
        let ghost c3 = *ctx;
        proof {
            if !(noff >= end && noff <= block_size - prog_size && disk_version > 0x0002_0000) {
                lemma_log_step_trans(&c0, &cpre, &c3, block_idx, off0 as int, *off as int);
            }
        }
        log_prog(ctx, block_idx, *off, &tb)?;
        proof { lemma_log_step_trans(&c0, &c3, &*ctx, block_idx, off0 as int, *off as int); }
        *off = *off + 4;
        if !have1 {
            off1 = *off;
            crc1 = stored_crc;
            have1 = true;
        }
        let cb = le32_array(stored_crc);
        let ghost c4 = *ctx;
        log_prog(ctx, block_idx, *off, &cb)?;
        proof { lemma_log_step_trans(&c0, &c4, &*ctx, block_idx, off0 as int, *off as int); }
        *off = *off + 4;
        *ptag = (ccrc_tag & 0x7fff_ffff) ^ ((0x80u32 & !(eperturb as u32)) << 24u32);
        *crc = 0xffff_ffff;
        *off = noff;
        if noff >= end {
            let ghost c5 = *ctx;
            log_sync(ctx, block_idx, Ghost(off0 as int))?;
            proof { lemma_log_step_trans(&c0, &c5, &*ctx, block_idx, off0 as int, off0 as int); }
        }
    }
    let ghost cend = *ctx;
    if off1 > begin {
        let crc_verify = ctx.crc(block_idx, begin as u32, off1 - begin, 0xffff_ffff)?;
        proof {
            lemma_log_step_same(&cend, &*ctx, block_idx, off0 as int);
            lemma_log_step_trans(&c0, &cend, &*ctx, block_idx, off0 as int, off0 as int);
        }
        if crc_verify != crc1 {
            return Err(Error::Corrupt);
        }
    }
    let mut stored_buf = [0u8; 4];
    let ghost cend2 = *ctx;
    ctx.read(block_idx, off1 as u32, &mut stored_buf)?;
    proof {
        lemma_log_step_same(&cend2, &*ctx, block_idx, off0 as int);
        lemma_log_step_trans(&c0, &cend2, &*ctx, block_idx, off0 as int, off0 as int);
    }
    let stored_crc_val = crate::util::read_le32(&stored_buf, 0);
    if stored_crc_val == 0 {
        return Err(Error::Corrupt);
    }
    Ok(())
}

/// The MOVESTATE delta that a commit of `dir` owes, per compute_movestate_delta.
pub open spec fn movestate_owed(dir: &MdDir, g: GStateCtx, relocated: bool) -> Option<GState> {
    let d0 = movestate_delta0(g.gstate, g.gdisk, g.gdelta, relocated);
    let d1 = gxor(d0, dir_gstate(dir));
    if gzero(d0) { None } else if g.skip_dir_adjust { Some(d0) } else if gzero(d1) { None } else { Some(d1) }
}

/// The gstate bookkeeping after a commit to `pair` wrote a MOVESTATE delta: the
/// pending delta is cleared, and the on-disk gstate catches up with the in-memory one
/// unless the commit relocated or went to another pair than the tracked root.
pub open spec fn gctx_after_movestate(g: GStateCtx, pair: [u32; 2], relocated: bool) -> GStateCtx {
    let upd = !relocated && (match g.root {
        None => true,
        Some(r) => pair[0] == r[0] && pair[1] == r[1],
    });
    GStateCtx { gdisk: if upd { g.gstate } else { g.gdisk }, gdelta: GState { tag: 0, pair: [0, 0] }, ..g }
}

/// The gstate bookkeeping after a commit of `dir`.
pub open spec fn gctx_after(gctx: Option<GStateCtx>, dir: &MdDir, relocated: bool) -> Option<GStateCtx> {
    match gctx {
        None => None,
        Some(g) => match movestate_owed(dir, g, relocated) {
            None => Some(g),
            Some(_) => Some(gctx_after_movestate(g, dir.pair, relocated)),
        },
    }
}

/// The MOVESTATE delta a commit of `dir` writes, if any.
pub open spec fn owed_delta(gctx: Option<GStateCtx>, dir: &MdDir, relocated: bool) -> Option<GState> {
    match gctx {
        None => None,
        Some(g) => movestate_owed(dir, g, relocated),
    }
}

/// Bytes the MOVESTATE record of a commit takes: 16 when one is owed.
pub open spec fn movestate_size(gctx: Option<GStateCtx>, dir: &MdDir, relocated: bool) -> int {
    match gctx {
        None => 0,
        Some(g) => if movestate_owed(dir, g, relocated) is Some { 16 } else { 0 },
    }
}

/// Allocate a new empty metadata pair: two blocks from the allocator, both erased.
pub fn dir_alloc<B: BlockDevice>(ctx: &mut BdContext<B>, root: [u32; 2], lookahead: &mut Lookahead) -> (r: Result<MdDir, Error>)
    requires
        old(ctx).wf(),
        old(lookahead).wf(&old(ctx).config),
    ensures
        final(ctx).wf(),
        final(ctx).config == old(ctx).config,
        final(ctx).bd.reliable() == old(ctx).bd.reliable(),
        final(lookahead).wf(&final(ctx).config),
        final(lookahead).ckpoint <= old(lookahead).ckpoint,
        r is Ok ==> ({
            let d = r->Ok_0;
            &&& d.wf()
            &&& d.pair[0] < old(ctx).config.block_count && d.pair[1] < old(ctx).config.block_count
            &&& d.pair[0] != d.pair[1]
            &&& d.block@.len() == old(ctx).config.block_size
            &&& d.rev == 0 && d.off == 4 && d.etag == 0xffff_ffff && d.count == 0
            &&& d.tail == [BLOCK_NULL, BLOCK_NULL] && !d.split && d.erased
            &&& forall|b: u32, o: int| b != d.pair[0] && b != d.pair[1] ==> #[trigger] final(ctx).logical(b, o) == old(ctx).logical(b, o)
            &&& final(lookahead).ckpoint < old(lookahead).ckpoint
        }),
{
    let block_size = ctx.config.block_size as usize;
    let ghost la0 = *lookahead;
    let b1 = lfs_alloc(ctx, root, lookahead)?;
    let ghost la1 = *lookahead;
    let b0 = lfs_alloc(ctx, root, lookahead)?;
    proof {
        crate::lookahead::lemma_alloc_distinct(la0, la1, la1, *lookahead, old(ctx).config.block_count, b1, b0);
    }
    let ghost c0 = *ctx;
    ctx.erase(b0)?;
    ctx.erase(b1)?;
    let pair = [b0, b1];
    proof {
        assert forall|b: u32, o: int| b != pair[0] && b != pair[1] implies #[trigger] ctx.logical(b, o) == old(ctx).logical(b, o) by {
            assert(c0.logical(b, o) == old(ctx).logical(b, o));
        }
    }
    Ok(MdDir::alloc_empty(pair, block_size))
}

/// True if the two pairs name the same blocks in the same order.
fn pair_eq(a: [u32; 2], b: [u32; 2]) -> (r: bool)
    ensures
        r == (a[0] == b[0] && a[1] == b[1]),
{
    a[0] == b[0] && a[1] == b[1]
}

/// Write the record of `attr` (its stored tag, then the data the tag announces when the
/// attribute carries that much) at `off`.
fn log_attr<B: BlockDevice>(ctx: &mut BdContext<B>, block: u32, off: usize, attr: &CommitAttr, ptag: u32, crc: u32) -> (r: Result<u32, Error>)
    requires
        old(ctx).wf(),
        block < old(ctx).config.block_count,
        off + tag_dsize_spec(attr.tag) <= old(ctx).config.block_size,
    ensures
        final(ctx).wf(),
        final(ctx).config == old(ctx).config,
        final(ctx).bd.reliable() == old(ctx).bd.reliable(),
        r is Ok ==> log_step(&*final(ctx), &*old(ctx), block, off as int),
        (r is Ok && old(ctx).bd.reliable() && data_bytes(attr.data).len() + 4 >= tag_dsize_spec(attr.tag)) ==> final(ctx).logical_range(
            block, off as int, tag_dsize_spec(attr.tag)) == attr_record(*attr, ptag),
{
    let dsize = lfs_tag_dsize(attr.tag) as usize;
    let ntag = (attr.tag & 0x7fff_ffff) ^ ptag;
    let tb = be32_array(ntag);
    proof {
        crate::util::lemma_codec_roundtrip(ntag);
    }
    let ghost c1 = *ctx;
    log_prog(ctx, block, off, &tb)?;
    let mut c = crc32(crc, &tb);
    let ghost c2 = *ctx;
    let data = attr_data_bytes(attr);
    if data.len() >= dsize - 4 {
        let d = slice_subrange(data.as_slice(), 0, dsize - 4);
        log_prog(ctx, block, off + 4, d)?;
        c = crc32(c, d);
        proof {
            lemma_log_step_trans(&c1, &c2, &*ctx, block, off as int, off + 4);
            if c1.bd.reliable() {
                let want = attr_record(*attr, ptag);
                assert(tb@ =~= be32_bytes(ntag));
                assert forall|i: int| 0 <= i < dsize implies #[trigger] ctx.logical_range(block, off as int, dsize as nat)[i] == want[i] by {
                    assert(ctx.logical(block, off + i) == ctx.logical_range(block, off as int, dsize as nat)[i]);
                    if i >= 4 {
                        assert(ctx.logical(block, off + i) == d@[i - 4]);
                    } else {
                        assert(ctx.logical(block, off + i) == c2.logical(block, off + i));
                        assert(c2.logical(block, off + i) == tb@[i]);
                    }
                }
                assert(ctx.logical_range(block, off as int, dsize as nat) =~= want);
            }
        }
    }
    Ok(c)
}

/// A range that a log step kept, followed by what was written after it.
proof fn lemma_range_concat<B: BlockDevice>(c: &BdContext<B>, c_old: &BdContext<B>, block: u32, a: int, m: int, n: nat)
    requires
        keeps_below(c, c_old, block, m),
        c_old.bd.reliable(),
        0 <= a <= m,
    ensures
        c.logical_range(block, a, ((m - a) + n) as nat) == c_old.logical_range(block, a, (m - a) as nat) + c.logical_range(
            block,
            m,
            n,
        ),
{
    let lhs = c.logical_range(block, a, ((m - a) + n) as nat);
    let rhs = c_old.logical_range(block, a, (m - a) as nat) + c.logical_range(block, m, n);
    assert forall|j: int| 0 <= j < lhs.len() implies lhs[j] == rhs[j] by {
        if j < m - a {
            assert(c.logical(block, a + j) == c_old.logical(block, a + j));
        }
    }
    assert(lhs =~= rhs);
}

/// The state changes of attributes touch only the count, the tail and the split flag.
proof fn lemma_apply_attrs_frame(d: MdDir, attrs: Seq<CommitAttr>)
    ensures
        apply_attrs(d, attrs).pair == d.pair,
        apply_attrs(d, attrs).block == d.block,
        apply_attrs(d, attrs).rev == d.rev,
        apply_attrs(d, attrs).off == d.off,
        apply_attrs(d, attrs).etag == d.etag,
        apply_attrs(d, attrs).erased == d.erased,
    decreases attrs.len(),
{
    if attrs.len() > 0 {
        lemma_apply_attrs_frame(d, attrs.drop_last());
    }
}

/// Sizes of records are additive along the attributes.
proof fn lemma_attrs_size_nonneg(attrs: Seq<CommitAttr>)
    ensures
        attrs_size(attrs) >= 4 * attrs.len(),
    decreases attrs.len(),
{
    if attrs.len() > 0 {
        lemma_attrs_size_nonneg(attrs.drop_last());
    }
}

proof fn lemma_attrs_size_prefix(attrs: Seq<CommitAttr>, i: int)
    requires
        0 <= i <= attrs.len(),
    ensures
        attrs_size(attrs.take(i)) <= attrs_size(attrs),
    decreases attrs.len() - i,
{
    if i < attrs.len() {
        lemma_attrs_size_prefix(attrs, i + 1);
        assert(attrs.take(i + 1).drop_last() =~= attrs.take(i));
    } else {
        assert(attrs.take(i) =~= attrs);
    }
}

/// Append attributes to a directory. Returns Err(Nospc) if block is full.
/// For a freshly allocated dir (off==4), writes revision + 1 first.
#[verifier::rlimit(100)]
pub fn dir_commit_append<B: BlockDevice>(
    ctx: &mut BdContext<B>,
    dir: &mut MdDir,
    attrs: &[CommitAttr],
    gstate_ctx: &mut Option<GStateCtx>,
    disk_version: u32,
) -> (r: Result<(), Error>)
    requires
        old(ctx).wf(),
        old(dir).wf(),
        old(dir).pair[0] < old(ctx).config.block_count,
        old(dir).off <= old(ctx).config.block_size,
        old(dir).off == 4 ==> old(ctx).config.prog_size >= 4,
        old(dir).block@.len() == old(ctx).config.block_size,
    ensures
        final(ctx).wf(),
        final(ctx).config == old(ctx).config,
        final(ctx).bd.reliable() == old(ctx).bd.reliable(),
        final(dir).wf(),
        final(dir).pair == old(dir).pair,
        final(dir).block == old(dir).block,
        gctx_kept(*final(gstate_ctx), *old(gstate_ctx)),
        old(dir).off + attrs_size(attrs@) + 20 > old(ctx).config.block_size ==> r == Err::<(), Error>(Error::Nospc) && *final(dir)
            == *old(dir) && *final(ctx) == *old(ctx),
        r is Err ==> final(dir).off == old(dir).off && final(dir).etag == old(dir).etag,
        exists|i: int| 0 <= i <= attrs@.len() && #[trigger] apply_attrs(*old(dir), attrs@.take(i)).tail == final(dir).tail
            && apply_attrs(*old(dir), attrs@.take(i)).split == final(dir).split,
        r is Ok ==> ({
            let applied = apply_attrs(*old(dir), attrs@);
            let ms = movestate_size(*old(gstate_ctx), &applied, false);
            let blk = old(dir).pair[0];
            let base = old(dir).off as int;
            let asz = attrs_size(attrs@);
            &&& final(dir).count == applied.count
            &&& final(dir).tail == applied.tail
            &&& final(dir).split == applied.split
            &&& final(dir).erased == old(dir).erased
            &&& final(dir).rev == (if old(dir).off == 4 { old(dir).rev.wrapping_add(1) } else { old(dir).rev })
            &&& base + asz + ms + 20 <= old(ctx).config.block_size
            &&& final(dir).off == commit_end(base + asz + ms, old(ctx).config.prog_size as int)
            &&& *final(gstate_ctx) == gctx_after(*old(gstate_ctx), &applied, false)
            &&& log_step(&*final(ctx), &*old(ctx), blk, if old(dir).off == 4 { 0 } else { base })
            &&& (old(ctx).bd.reliable() && attrs_complete(attrs@)) ==> final(ctx).logical_range(blk, base, asz as nat)
                == attrs_log(attrs@, old(dir).etag)
            &&& (old(ctx).bd.reliable() && old(dir).off == 4) ==> final(ctx).logical_range(blk, 0, 4) == le32_bytes(final(dir).rev)
            &&& (old(ctx).bd.reliable() && owed_delta(*old(gstate_ctx), &applied, false) is Some)
                ==> final(ctx).logical_range(blk, base + asz, 16) == attr_record(
                CommitAttr { tag: mktag_spec(TYPE_MOVESTATE, 0x3ff, 12), data: CommitData::GState(owed_delta(*old(gstate_ctx), &applied, false)->Some_0) },
                attrs_ptag(attrs@, old(dir).etag),
            )
        }),
{
    let block_size = ctx.config.block_size as usize;
    let prog_size = ctx.config.prog_size as usize;
    let block_idx = dir.pair[0];
    proof {
        lemma_prog_divides_block(ctx.config);
        lemma_apply_attrs_frame(*dir, attrs@);
        lemma_attrs_size_nonneg(attrs@);
    }
    proof {
        assert(attrs@.take(0) =~= Seq::<CommitAttr>::empty());
        assert(apply_attrs(*old(dir), attrs@.take(0)).tail == dir.tail);
    }
    if dir.off + 20 > block_size {
        proof {
            lemma_attrs_size_nonneg(attrs@);
        }
        return Err(Error::Nospc);
    }
    let mut total: usize = 0;
    let mut k: usize = 0;
    proof {
        assert(attrs@.take(0) =~= Seq::<CommitAttr>::empty());
    }
    while k < attrs.len()
        invariant
            old(ctx).wf(),
            old(dir).wf(),
            apply_attrs(*old(dir), attrs@.take(0)).tail == old(dir).tail,
            apply_attrs(*old(dir), attrs@.take(0)).split == old(dir).split,
            k <= attrs@.len(),
            total == attrs_size(attrs@.take(k as int)),
            dir.off + total + 20 <= block_size,
            block_size == old(ctx).config.block_size,
            block_size >= 128,
            *dir == *old(dir),
            *ctx == *old(ctx),
        decreases attrs@.len() - k,
    {
        let ds = lfs_tag_dsize(attrs[k].tag) as usize;
        proof {
            assert(attrs@.take(k + 1).drop_last() =~= attrs@.take(k as int));
            assert(attrs@.take(k + 1).last() == attrs@[k as int]);
        }
        if dir.off + total + ds > block_size - 20 {
            proof {
                lemma_attrs_size_prefix(attrs@, k + 1);
            }
            return Err(Error::Nospc);
        }
        total = total + ds;
        k = k + 1;
    }
    proof {
        assert(attrs@.take(k as int) =~= attrs@);
        assert(old(dir).off + attrs_size(attrs@) + 20 <= block_size);
    }
    let begin = if dir.off == 4 { 0 } else { dir.off };
    let mut off = dir.off;
    let mut ptag = dir.etag;
    let mut crc: u32 = 0xffff_ffff;
    let ghost c0 = *ctx;
    let ghost d0 = *dir;
    let ghost lo0: int = if dir.off == 4 { 0 } else { dir.off as int };
    proof {
        assert(attrs@.take(0) =~= Seq::<CommitAttr>::empty());
        assert(apply_attrs(*old(dir), attrs@.take(0)).tail == dir.tail);
    }
    if off == 4 {
        let new_rev = dir.rev.wrapping_add(1);
        let mut rev_buf: Vec<u8> = vec![0xffu8; prog_size];
        let rb = le32_array(new_rev);
        rev_buf.set(0, rb[0]);
        rev_buf.set(1, rb[1]);
        rev_buf.set(2, rb[2]);
        rev_buf.set(3, rb[3]);
        log_prog(ctx, block_idx, 0, rev_buf.as_slice())?;
        crc = crc32(crc, &rb);
        dir.rev = new_rev;
        proof {
            if c0.bd.reliable() {
                assert forall|j: int| 0 <= j < 4 implies #[trigger] ctx.logical_range(block_idx, 0, 4)[j] == le32_bytes(new_rev)[j] by {
                    assert(ctx.logical(block_idx, j) == rev_buf@[j]);
                }
                assert(ctx.logical_range(block_idx, 0, 4) =~= le32_bytes(new_rev));
            }
        }
    } else {
        proof {
            lemma_log_step_same(&c0, &*ctx, block_idx, lo0);
        }
    }
    let ghost rev0 = dir.rev;
    let ghost c_rev = *ctx;
    let mut i: usize = 0;
    proof {
        assert(attrs@.take(0) =~= Seq::<CommitAttr>::empty());
        assert(ctx.logical_range(block_idx, d0.off as int, 0) =~= Seq::<u8>::empty());
    }
    while i < attrs.len()
        invariant
            ctx.wf(),
            c0 == *old(ctx),
            d0 == *old(dir),
            ctx.config == c0.config,
            ctx.bd.reliable() == c0.bd.reliable(),
            block_size == c0.config.block_size,
            prog_size == c0.config.prog_size,
            block_size >= 128,
            block_idx == d0.pair[0],
            block_idx < c0.config.block_count,
            i <= attrs@.len(),
            log_step(&*ctx, &c0, block_idx, lo0),
            lo0 <= d0.off,
            lo0 == (if d0.off == 4 { 0 } else { d0.off as int }),
            dir.wf(),
            dir.pair == d0.pair,
            dir.block == d0.block,
            dir.off == d0.off,
            dir.etag == d0.etag,
            dir.erased == d0.erased,
            dir.rev == rev0,
            rev0 == (if d0.off == 4 { d0.rev.wrapping_add(1) } else { d0.rev }),
            dir.count == apply_attrs(d0, attrs@.take(i as int)).count,
            dir.tail == apply_attrs(d0, attrs@.take(i as int)).tail,
            dir.split == apply_attrs(d0, attrs@.take(i as int)).split,
            off == d0.off + attrs_size(attrs@.take(i as int)),
            off >= d0.off,
            off <= block_size,
            d0.block@.len() == block_size,
            i > 0 ==> off + 20 <= block_size,
            ptag == attrs_ptag(attrs@.take(i as int), d0.etag),
            (c0.bd.reliable() && attrs_complete(attrs@.take(i as int))) ==> ctx.logical_range(block_idx, d0.off as int, (off - d0.off) as nat)
                == attrs_log(attrs@.take(i as int), d0.etag),
            (c0.bd.reliable() && d0.off == 4) ==> ctx.logical_range(block_idx, 0, 4) == le32_bytes(rev0),
            d0.off == 4 ==> off >= 4,
            d0.off + attrs_size(attrs@) + 20 <= block_size,
        decreases attrs@.len() - i,
    {
        let attr = &attrs[i];
        let dsize = lfs_tag_dsize(attr.tag) as usize;
        if off + dsize > block_size - 20 {
            proof {
                lemma_attrs_size_prefix(attrs@, i + 1);
                assert(attrs@.take(i + 1).drop_last() =~= attrs@.take(i as int));
            }
            return Err(Error::Nospc);
        }
        let ghost cb = *ctx;
        crc = log_attr(ctx, block_idx, off, attr, ptag, crc)?;
        proof {
            let ti = attrs@.take(i as int);
            let tn = attrs@.take(i + 1);
            assert(tn.drop_last() =~= ti);
            assert(tn.last() == attrs@[i as int]);
            lemma_log_step_trans(&c0, &cb, &*ctx, block_idx, lo0, off as int);
            if c0.bd.reliable() {
                if attrs_complete(tn) {
                    assert(data_bytes(tn[i as int].data).len() + 4 >= tag_dsize_spec(tn[i as int].tag));
                    assert forall|j: int| 0 <= j < ti.len() implies data_bytes(#[trigger] ti[j].data).len() + 4 >= tag_dsize_spec(ti[j].tag) by {
                        assert(ti[j] == tn[j]);
                    }
                    lemma_range_concat(&*ctx, &cb, block_idx, d0.off as int, off as int, dsize as nat);
                }
                if d0.off == 4 {
                    assert forall|j: int| 0 <= j < 4 implies #[trigger] ctx.logical_range(block_idx, 0, 4)[j] == cb.logical_range(block_idx, 0, 4)[j] by {
                        assert(ctx.logical(block_idx, j) == cb.logical(block_idx, j));
                    }
                    assert(ctx.logical_range(block_idx, 0, 4) =~= cb.logical_range(block_idx, 0, 4));
                }
            }
        }
        off = off + dsize;
        ptag = attr.tag & 0x7fff_ffff;
        apply_attr_to_state(dir, attr);
        i = i + 1;
    }
    proof {
        assert(attrs@.take(i as int) =~= attrs@);
    }
    let ghost applied = apply_attrs(d0, attrs@);
    let ghost off_attrs = off;
    let ghost ptag_attrs = ptag;
    let ghost c_attrs = *ctx;
    let ghost g_in = *gstate_ctx;
    let mut wrote_ms = false;
    if let Some(g) = *gstate_ctx {
        proof {
            assert(dir.count == applied.count && dir.tail == applied.tail && dir.split == applied.split);
            assert(dir_gstate(&*dir) == dir_gstate(&applied));
        }
        match compute_movestate_delta(dir, &g.gstate, &g.gdisk, &g.gdelta, false, g.skip_dir_adjust)? {
            Some(delta) => {
                let movestate_attr = CommitAttr::movestate(&delta);
                proof {
                    crate::tag::lemma_mktag_fields(TYPE_MOVESTATE, 0x3ff, 12);
                }
                if off + 16 > block_size - 20 {
                    return Err(Error::Nospc);
                }
                let ghost cm = *ctx;
                crc = log_attr(ctx, block_idx, off, &movestate_attr, ptag, crc)?;
                proof {
                    lemma_log_step_trans(&c0, &cm, &*ctx, block_idx, lo0, off as int);
                    if c0.bd.reliable() {
                        assert(gstate_bytes(delta).len() == 12);
                        if attrs_complete(attrs@) {
                            assert forall|j: int| 0 <= j < (off - d0.off) implies #[trigger] ctx.logical_range(block_idx, d0.off as int, (off - d0.off) as nat)[j]
                                == cm.logical_range(block_idx, d0.off as int, (off - d0.off) as nat)[j] by {
                                assert(ctx.logical(block_idx, d0.off + j) == cm.logical(block_idx, d0.off + j));
                            }
                            assert(ctx.logical_range(block_idx, d0.off as int, (off - d0.off) as nat) =~= cm.logical_range(block_idx, d0.off as int, (off - d0.off) as nat));
                        }
                        if d0.off == 4 {
                            assert forall|j: int| 0 <= j < 4 implies #[trigger] ctx.logical_range(block_idx, 0, 4)[j] == cm.logical_range(block_idx, 0, 4)[j] by {
                                assert(ctx.logical(block_idx, j) == cm.logical(block_idx, j));
                            }
                            assert(ctx.logical_range(block_idx, 0, 4) =~= cm.logical_range(block_idx, 0, 4));
                        }
                    }
                }
                off = off + 16;
                ptag = movestate_attr.tag & 0x7fff_ffff;
                let mut g2 = g;
                let upd = match g.root {
                    None => true,
                    Some(rp) => pair_eq(dir.pair, rp),
                };
                if upd {
                    g2.gdisk = g.gstate;
                }
                g2.gdelta = GState::zero();
                proof {
                    crate::gstate::lemma_gstate_ext(g2.gdelta, GState { tag: 0, pair: [0, 0] });
                }
                *gstate_ctx = Some(g2);
                wrote_ms = true;
            },
            None => {},
        }
    }
    if off + 20 > block_size {
        return Err(Error::Nospc);
    }
    let ghost c_pre_crc = *ctx;
    let ghost off_pre_crc = off;
    dir_commit_crc(ctx, block_idx, &mut off, &mut ptag, &mut crc, begin, block_size, prog_size, disk_version)?;
    proof {
        lemma_log_step_trans(&c0, &c_pre_crc, &*ctx, block_idx, lo0, off_pre_crc as int);
        if c0.bd.reliable() {
            if attrs_complete(attrs@) {
                assert forall|j: int| 0 <= j < (off_attrs - d0.off) implies #[trigger] ctx.logical_range(block_idx, d0.off as int, (off_attrs - d0.off) as nat)[j]
                    == c_pre_crc.logical_range(block_idx, d0.off as int, (off_attrs - d0.off) as nat)[j] by {
                    assert(ctx.logical(block_idx, d0.off + j) == c_pre_crc.logical(block_idx, d0.off + j));
                }
                assert(ctx.logical_range(block_idx, d0.off as int, (off_attrs - d0.off) as nat) =~= c_pre_crc.logical_range(block_idx, d0.off as int, (off_attrs - d0.off) as nat));
            }
            if d0.off == 4 {
                assert forall|j: int| 0 <= j < 4 implies #[trigger] ctx.logical_range(block_idx, 0, 4)[j] == c_pre_crc.logical_range(block_idx, 0, 4)[j] by {
                    assert(ctx.logical(block_idx, j) == c_pre_crc.logical(block_idx, j));
                }
                assert(ctx.logical_range(block_idx, 0, 4) =~= c_pre_crc.logical_range(block_idx, 0, 4));
            }
            if wrote_ms {
                assert forall|j: int| 0 <= j < 16 implies #[trigger] ctx.logical_range(block_idx, off_attrs as int, 16)[j]
                    == c_pre_crc.logical_range(block_idx, off_attrs as int, 16)[j] by {
                    assert(ctx.logical(block_idx, off_attrs + j) == c_pre_crc.logical(block_idx, off_attrs + j));
                }
                assert(ctx.logical_range(block_idx, off_attrs as int, 16) =~= c_pre_crc.logical_range(block_idx, off_attrs as int, 16));
            }
        }
    }
    dir.off = off;
    dir.etag = ptag;
    Ok(())
}

/// Result of dir_compact: the log went to the other block of the pair, or, after a
/// failure there, to a newly allocated block.
#[derive(Clone, Copy, PartialEq, Eq, Debug, Structural)]
pub enum CompactResult {
    Compacted,
    Relocated,
}

/// Result of dir_relocatingcommit.
#[derive(Clone, Copy, PartialEq, Eq, Debug, Structural)]
pub enum RelocatingResult {
    Committed,
    Relocated,
    Dropped,
}

/// The record of a traversed entry in a compacted log: its stored tag, then its data
/// from the source block.
pub open spec fn entry_record(block: Seq<u8>, e: TagEntry, ptag: u32) -> Seq<u8> {
    be32_bytes(stored_tag(e.tag, ptag)) + block.subrange(e.off as int, e.off + e.size)
}

/// The previous tag after writing `es` from `p0`.
pub open spec fn entries_ptag(es: Seq<TagEntry>, p0: u32) -> u32 {
    if es.len() == 0 { p0 } else { es.last().tag & 0x7fff_ffff }
}

/// The records of entries `es` of `block`, written in order from previous tag `p0`.
pub open spec fn entries_log(block: Seq<u8>, es: Seq<TagEntry>, p0: u32) -> Seq<u8>
    decreases es.len(),
{
    if es.len() == 0 {
        Seq::empty()
    } else {
        entries_log(block, es.drop_last(), p0) + entry_record(block, es.last(), entries_ptag(es.drop_last(), p0))
    }
}

/// The record of an attribute in a compacted log: its stored tag, then all its data.
pub open spec fn attr_full_record(a: CommitAttr, ptag: u32) -> Seq<u8> {
    be32_bytes(stored_tag(a.tag, ptag)) + data_bytes(a.data)
}

/// The records of `attrs` in a compacted log, from previous tag `p0`.
pub open spec fn attrs_full_log(attrs: Seq<CommitAttr>, p0: u32) -> Seq<u8>
    decreases attrs.len(),
{
    if attrs.len() == 0 {
        Seq::empty()
    } else {
        attrs_full_log(attrs.drop_last(), p0) + attr_full_record(attrs.last(), attrs_ptag(attrs.drop_last(), p0))
    }
}

/// Bytes that `attrs` take in a compacted log.
pub open spec fn attrs_full_size(attrs: Seq<CommitAttr>) -> int
    decreases attrs.len(),
{
    if attrs.len() == 0 { 0 } else { attrs_full_size(attrs.drop_last()) + 4 + data_bytes(attrs.last().data).len() }
}

/// No attribute carries more data than its tag announces.
pub open spec fn attrs_bounded(attrs: Seq<CommitAttr>) -> bool {
    forall|i: int| 0 <= i < attrs.len() ==> data_bytes(#[trigger] attrs[i].data).len() + 4 <= tag_dsize_spec(attrs[i].tag)
}

/// The entries that compacting ids `[begin, end)` of `source` copies, renumbered from 0.
pub open spec fn compact_entries(source: &MdDir, begin: u16, end: u16) -> Seq<TagEntry> {
    scan_tags(source.block@, source.off as int, 4, 0xffff_ffff, begin, end, (0 - begin) as i32)
}

/// The metadata size limit of a configuration: metadata_max, or the block size.
pub open spec fn meta_max_spec(config: crate::config::Config) -> int {
    if config.metadata_max != 0 { config.metadata_max as int } else { config.block_size as int }
}

fn metadata_max<B: BlockDevice>(ctx: &BdContext<B>) -> (r: usize)
    requires
        ctx.config.wf(),
    ensures
        r == meta_max_spec(ctx.config),
        64 <= r <= ctx.config.block_size,
{
    if ctx.config.metadata_max != 0 {
        ctx.config.metadata_max as usize
    } else {
        ctx.config.block_size as usize
    }
}

/// The commit kept the presence of gstate bookkeeping, its in-memory gstate, its
/// tracked root and its mode.
pub open spec fn gctx_kept(a: Option<GStateCtx>, b: Option<GStateCtx>) -> bool {
    match (a, b) {
        (None, None) => true,
        (Some(x), Some(y)) => x.gstate == y.gstate && x.root == y.root && x.skip_dir_adjust == y.skip_dir_adjust,
        _ => false,
    }
}

/// A traversed entry lies inside a block of `len` bytes, with at most 0x3fe bytes of data.
pub open spec fn entry_ok(e: TagEntry, len: nat) -> bool {
    e.off + e.size <= len && e.size <= 0x3fe
}

enum Attempt {
    Done,
    Relocate,
}

proof fn lemma_entries_size_step(es: Seq<TagEntry>, i: int)
    requires
        0 <= i < es.len(),
    ensures
        entries_size(es.take(i + 1)) == entries_size(es.take(i)) + 4 + es[i].size,
        entries_log_step_ok(es, i),
{
    assert(es.take(i + 1).drop_last() =~= es.take(i));
}

spec fn entries_log_step_ok(es: Seq<TagEntry>, i: int) -> bool {
    es.take(i + 1).drop_last() == es.take(i) && es.take(i + 1).last() == es[i]
}

proof fn lemma_attrs_full_step(attrs: Seq<CommitAttr>, i: int)
    requires
        0 <= i < attrs.len(),
    ensures
        attrs.take(i + 1).drop_last() == attrs.take(i),
        attrs.take(i + 1).last() == attrs[i],
        attrs_full_size(attrs.take(i + 1)) == attrs_full_size(attrs.take(i)) + 4 + data_bytes(attrs[i].data).len(),
{
    assert(attrs.take(i + 1).drop_last() =~= attrs.take(i));
}

/// One attempt of a compaction into `dir.pair[1]`: erase it, write the revision, the
/// entries of `[begin, end)` of `source` renumbered from 0, the attributes, the tail,
/// the owed gstate delta and the CRC. On success the pair is swapped.
#[verifier::rlimit(100)]
fn compact_attempt<B: BlockDevice>(
    ctx: &mut BdContext<B>,
    dir: &mut MdDir,
    source: &MdDir,
    begin: u16,
    end: u16,
    attrs: &[CommitAttr],
    gstate_ctx: &mut Option<GStateCtx>,
    relocated: bool,
    disk_version: u32,
    meta_max: usize,
) -> (r: Result<Attempt, Error>)
    requires
        old(ctx).wf(),
        old(dir).wf(),
        source.wf(),
        old(dir).pair[1] < old(ctx).config.block_count,
        old(dir).block@.len() == old(ctx).config.block_size,
        old(ctx).config.prog_size >= 4,
        meta_max == meta_max_spec(old(ctx).config),
        64 <= meta_max <= old(ctx).config.block_size,
        attrs_bounded(attrs@),
    ensures
        final(ctx).wf(),
        final(ctx).config == old(ctx).config,
        final(ctx).bd.reliable() == old(ctx).bd.reliable(),
        final(dir).wf(),
        final(dir).block == old(dir).block,
        final(dir).rev == old(dir).rev,
        final(dir).tail == old(dir).tail,
        final(dir).split == old(dir).split,
        final(dir).erased == old(dir).erased,
        gctx_kept(*final(gstate_ctx), *old(gstate_ctx)),
        !(r matches Ok(Attempt::Done)) ==> *final(dir) == *old(dir),
        r matches Ok(Attempt::Done) ==> final(ctx).frame_except(&*old(ctx), old(dir).pair[1]),
        r matches Ok(Attempt::Done) ==> ({
            let es = compact_entries(source, begin, end);
            let blk = old(dir).pair[1];
            &&& final(dir).pair == [old(dir).pair[1], old(dir).pair[0]]
            &&& final(dir).count == (if attrs@.len() == 0 { if end >= begin { (end - begin) as u16 } else { 0 } } else { old(dir).count })
            &&& final(dir).off as int % old(ctx).config.prog_size as int == 0
            &&& 4 + entries_size(es) + attrs_full_size(attrs@) + 20 <= meta_max
            &&& old(ctx).bd.reliable() ==> final(ctx).logical_range(blk, 0, 4) == le32_bytes(old(dir).rev)
            &&& old(ctx).bd.reliable() ==> final(ctx).logical_range(blk, 4, entries_size(es) as nat) == entries_log(source.block@, es, 0xffff_ffff)
            &&& old(ctx).bd.reliable() ==> final(ctx).logical_range(blk, 4 + entries_size(es), attrs_full_size(attrs@) as nat)
                == attrs_full_log(attrs@, entries_ptag(es, 0xffff_ffff))
        }),
{
    let prog_size = ctx.config.prog_size as usize;
    let block_size = ctx.config.block_size as usize;
    let block_idx = dir.pair[1];
    proof {
        lemma_prog_divides_block(ctx.config);
    }
    let ghost c0 = *ctx;
    ctx.erase(block_idx)?;
    let ghost c_er = *ctx;
    assert(c_er.frame_except(&c0, block_idx));
    assert(keeps_below(&c_er, &c0, block_idx, 0));
    assert(log_step(&c_er, &c0, block_idx, 0));
    let new_rev = dir.rev;
    let rb = le32_array(new_rev);
    let mut rev_buf: Vec<u8> = vec![0xffu8; prog_size];
    rev_buf.set(0, rb[0]);
    rev_buf.set(1, rb[1]);
    rev_buf.set(2, rb[2]);
    rev_buf.set(3, rb[3]);
    match log_prog(ctx, block_idx, 0, rev_buf.as_slice()) {
        Ok(()) => {},
        Err(e) => {
            if e == Error::Corrupt {
                return Ok(Attempt::Relocate);
            }
            return Err(e);
        },
    }
    proof {
        lemma_log_step_trans(&c0, &c_er, &*ctx, block_idx, 0, 0);
        if c0.bd.reliable() {
            assert forall|j: int| 0 <= j < 4 implies #[trigger] ctx.logical_range(block_idx, 0, 4)[j] == le32_bytes(new_rev)[j] by {
                assert(ctx.logical(block_idx, j) == rev_buf@[j]);
            }
            assert(ctx.logical_range(block_idx, 0, 4) =~= le32_bytes(new_rev));
        }
    }
    let mut off: usize = 4;
    let mut ptag: u32 = 0xffff_ffff;
    let mut crc = crc32(0xffff_ffff, &rb);
    let es = dir_traverse_tags(source, begin, end, -(begin as i32))?;
    proof {
        assert(-(begin as i32) == (0 - begin) as i32);
        assert forall|k: int| 0 <= k < es@.len() implies entry_ok(#[trigger] es@[k], source.block@.len()) by {
            assert(es@[k].off + es@[k].size <= source.block@.len() && es@[k].size <= 0x3fe);
        }
    }
    let ghost esq = es@;
    let mut i: usize = 0;
    proof {
        assert(es@.take(0) =~= Seq::<TagEntry>::empty());
        assert(ctx.logical_range(block_idx, 4, 0) =~= Seq::<u8>::empty());
    }
    while i < es.len()
        invariant
            ctx.wf(),
            c0 == *old(ctx),
            ctx.config == c0.config,
            ctx.bd.reliable() == c0.bd.reliable(),
            block_idx == old(dir).pair[1],
            block_idx < c0.config.block_count,
            block_size == c0.config.block_size,
            meta_max <= block_size,
            meta_max >= 64,
            *dir == *old(dir),
            old(dir).wf(),
            source.wf(),
            es@ == compact_entries(source, begin, end),
            forall|k: int| 0 <= k < es@.len() ==> entry_ok(#[trigger] es@[k], source.block@.len()),
            i <= es@.len(),
            log_step(&*ctx, &c0, block_idx, 0),
            off == 4 + entries_size(es@.take(i as int)),
            off >= 4,
            off + 20 <= meta_max,
            ptag == entries_ptag(es@.take(i as int), 0xffff_ffff),
            c0.bd.reliable() ==> ctx.logical_range(block_idx, 0, 4) == le32_bytes(old(dir).rev),
            c0.bd.reliable() ==> ctx.logical_range(block_idx, 4, (off - 4) as nat) == entries_log(source.block@, es@.take(i as int), 0xffff_ffff),
        decreases es@.len() - i,
    {
        let e = es[i];
        proof {
            assert(entry_ok(es@[i as int], source.block@.len()));
        }
        let dsize = 4 + e.size;
        proof {
            lemma_entries_size_step(es@, i as int);
        }
        if off + dsize > meta_max - 20 {
            return Ok(Attempt::Relocate);
        }
        let ntag = (e.tag & 0x7fff_ffff) ^ ptag;
        let tb = be32_array(ntag);
        proof {
            crate::util::lemma_codec_roundtrip(ntag);
        }
        let ghost cb = *ctx;
        match log_prog(ctx, block_idx, off, &tb) {
            Ok(()) => {},
            Err(err) => {
                if err == Error::Nospc || err == Error::Corrupt {
                    return Ok(Attempt::Relocate);
                }
                return Err(err);
            },
        }
        crc = crc32(crc, &tb);
        let ghost ct = *ctx;
        if e.size > 0 {
            let d = slice_subrange(source.block.as_slice(), e.off, e.off + e.size);
            match log_prog(ctx, block_idx, off + 4, d) {
                Ok(()) => {},
                Err(err) => {
                    if err == Error::Nospc || err == Error::Corrupt {
                        return Ok(Attempt::Relocate);
                    }
                    return Err(err);
                },
            }
            crc = crc32(crc, d);
        } else {
            proof {
                lemma_log_step_same(&ct, &*ctx, block_idx, off + 4);
            }
        }
        proof {
            lemma_log_step_trans(&cb, &ct, &*ctx, block_idx, off as int, off + 4);
            lemma_log_step_trans(&c0, &cb, &*ctx, block_idx, 0, off as int);
            if c0.bd.reliable() {
                let want = entry_record(source.block@, e, ptag);
                assert(tb@ =~= be32_bytes(ntag));
                assert forall|j: int| 0 <= j < dsize implies #[trigger] ctx.logical_range(block_idx, off as int, dsize as nat)[j] == want[j] by {
                    assert(ctx.logical(block_idx, off + j) == ctx.logical_range(block_idx, off as int, dsize as nat)[j]);
                    if j >= 4 {
                        assert(ctx.logical(block_idx, off + j) == source.block@[e.off + j - 4]);
                    } else {
                        assert(ctx.logical(block_idx, off + j) == ct.logical(block_idx, off + j));
                        assert(ct.logical(block_idx, off + j) == tb@[j]);
                    }
                }
                assert(ctx.logical_range(block_idx, off as int, dsize as nat) =~= want);
                lemma_range_concat(&*ctx, &cb, block_idx, 4, off as int, dsize as nat);
                assert forall|j: int| 0 <= j < 4 implies #[trigger] ctx.logical_range(block_idx, 0, 4)[j] == cb.logical_range(block_idx, 0, 4)[j] by {
                    assert(ctx.logical(block_idx, j) == cb.logical(block_idx, j));
                }
                assert(ctx.logical_range(block_idx, 0, 4) =~= cb.logical_range(block_idx, 0, 4));
            }
        }
        off = off + dsize;
        ptag = e.tag & 0x7fff_ffff;
        i = i + 1;
    }
    proof {
        assert(es@.take(i as int) =~= es@);
    }
    let ghost off_es = off;
    let ghost ptag_es = ptag;
    let mut k: usize = 0;
    proof {
        assert(attrs@.take(0) =~= Seq::<CommitAttr>::empty());
        assert(ctx.logical_range(block_idx, off_es as int, 0) =~= Seq::<u8>::empty());
    }
    while k < attrs.len()
        invariant
            ctx.wf(),
            c0 == *old(ctx),
            ctx.config == c0.config,
            ctx.bd.reliable() == c0.bd.reliable(),
            block_idx == old(dir).pair[1],
            block_idx < c0.config.block_count,
            block_size == c0.config.block_size,
            meta_max <= block_size,
            meta_max >= 64,
            *dir == *old(dir),
            old(dir).wf(),
            attrs_bounded(attrs@),
            k <= attrs@.len(),
            log_step(&*ctx, &c0, block_idx, 0),
            off_es == 4 + entries_size(esq),
            off_es >= 4,
            esq == compact_entries(source, begin, end),
            off_es <= off,
            off == off_es + attrs_full_size(attrs@.take(k as int)),
            off + 20 <= meta_max,
            ptag == attrs_ptag(attrs@.take(k as int), ptag_es),
            ptag_es == entries_ptag(esq, 0xffff_ffff),
            c0.bd.reliable() ==> ctx.logical_range(block_idx, 0, 4) == le32_bytes(old(dir).rev),
            c0.bd.reliable() ==> ctx.logical_range(block_idx, 4, (off_es - 4) as nat) == entries_log(source.block@, esq, 0xffff_ffff),
            c0.bd.reliable() ==> ctx.logical_range(block_idx, off_es as int, (off - off_es) as nat) == attrs_full_log(attrs@.take(k as int), ptag_es),
        decreases attrs@.len() - k,
    {
        let attr = &attrs[k];
        let dsize = lfs_tag_dsize(attr.tag) as usize;
        proof {
            lemma_attrs_full_step(attrs@, k as int);
            assert(data_bytes(attrs@[k as int].data).len() + 4 <= tag_dsize_spec(attrs@[k as int].tag));
        }
        if off + dsize > meta_max - 20 {
            return Ok(Attempt::Relocate);
        }
        let data = attr_data_bytes(attr);
        let ntag = (attr.tag & 0x7fff_ffff) ^ ptag;
        let tb = be32_array(ntag);
        proof {
            crate::util::lemma_codec_roundtrip(ntag);
        }
        let ghost cb = *ctx;
        match log_prog(ctx, block_idx, off, &tb) {
            Ok(()) => {},
            Err(err) => {
                if err == Error::Corrupt {
                    return Ok(Attempt::Relocate);
                }
                return Err(err);
            },
        }
        crc = crc32(crc, &tb);
        let ghost ct = *ctx;
        if data.len() > 0 {
            log_prog(ctx, block_idx, off + 4, data.as_slice())?;
            crc = crc32(crc, data.as_slice());
        } else {
            proof {
                lemma_log_step_same(&ct, &*ctx, block_idx, off + 4);
            }
        }
        proof {
            lemma_log_step_trans(&cb, &ct, &*ctx, block_idx, off as int, off + 4);
            lemma_log_step_trans(&c0, &cb, &*ctx, block_idx, 0, off as int);
            let n = 4 + data@.len();
            if c0.bd.reliable() {
                let want = attr_full_record(*attr, ptag);
                assert(tb@ =~= be32_bytes(ntag));
                assert forall|j: int| 0 <= j < n implies #[trigger] ctx.logical_range(block_idx, off as int, n as nat)[j] == want[j] by {
                    assert(ctx.logical(block_idx, off + j) == ctx.logical_range(block_idx, off as int, n as nat)[j]);
                    if j >= 4 {
                        assert(ctx.logical(block_idx, off + j) == data@[j - 4]);
                    } else {
                        assert(ctx.logical(block_idx, off + j) == ct.logical(block_idx, off + j));
                        assert(ct.logical(block_idx, off + j) == tb@[j]);
                    }
                }
                assert(ctx.logical_range(block_idx, off as int, n as nat) =~= want);
                lemma_range_concat(&*ctx, &cb, block_idx, off_es as int, off as int, n as nat);
                assert forall|j: int| 0 <= j < 4 implies #[trigger] ctx.logical_range(block_idx, 0, 4)[j] == cb.logical_range(block_idx, 0, 4)[j] by {
                    assert(ctx.logical(block_idx, j) == cb.logical(block_idx, j));
                }
                assert(ctx.logical_range(block_idx, 0, 4) =~= cb.logical_range(block_idx, 0, 4));
                assert forall|j: int| 0 <= j < off_es - 4 implies #[trigger] ctx.logical_range(block_idx, 4, (off_es - 4) as nat)[j] == cb.logical_range(block_idx, 4, (off_es - 4) as nat)[j] by {
                    assert(ctx.logical(block_idx, 4 + j) == cb.logical(block_idx, 4 + j));
                }
                assert(ctx.logical_range(block_idx, 4, (off_es - 4) as nat) =~= cb.logical_range(block_idx, 4, (off_es - 4) as nat));
            }
        }
        off = off + 4 + data.len();
        ptag = attr.tag & 0x7fff_ffff;
        k = k + 1;
    }
    proof {
        assert(attrs@.take(k as int) =~= attrs@);
    }
    let ghost off_at = off;
    let ghost c_at = *ctx;
    proof {
        lemma_log_step_same(&c_at, &*ctx, block_idx, off_at as int);
    }
    if !dir.tail_is_null() {
        let tail_type = if dir.split { TYPE_HARDTAIL } else { TYPE_SOFTTAIL };
        let tail_tag = mktag(tail_type, 0x3ff, 8);
        if off + 12 > meta_max - 20 {
            return Ok(Attempt::Relocate);
        }
        let ntag = (tail_tag & 0x7fff_ffff) ^ ptag;
        let tb = be32_array(ntag);
        let a = le32_array(dir.tail[0]);
        let b = le32_array(dir.tail[1]);
        let tail_data = [a[0], a[1], a[2], a[3], b[0], b[1], b[2], b[3]];
        let ghost c1 = *ctx;
        log_prog(ctx, block_idx, off, &tb)?;
        crc = crc32(crc, &tb);
        let ghost c2 = *ctx;
        log_prog(ctx, block_idx, off + 4, &tail_data)?;
        crc = crc32(crc, &tail_data);
        proof {
            lemma_log_step_trans(&c1, &c2, &*ctx, block_idx, off as int, off + 4);
            lemma_log_step_trans(&c0, &c1, &*ctx, block_idx, 0, off as int);
            lemma_log_step_same(&c_at, &c1, block_idx, off_at as int);
            lemma_log_step_trans(&c_at, &c1, &*ctx, block_idx, off_at as int, off as int);
        }
        off = off + 12;
        ptag = tail_tag & 0x7fff_ffff;
    }
    if let Some(g) = *gstate_ctx {
        match compute_movestate_delta(dir, &g.gstate, &g.gdisk, &g.gdelta, relocated, g.skip_dir_adjust)? {
            Some(delta) => {
                let movestate_attr = CommitAttr::movestate(&delta);
                proof {
                    crate::tag::lemma_mktag_fields(TYPE_MOVESTATE, 0x3ff, 12);
                }
                if off + 16 > meta_max - 20 {
                    return Ok(Attempt::Relocate);
                }
                let ghost cm = *ctx;
                crc = log_attr(ctx, block_idx, off, &movestate_attr, ptag, crc)?;
                proof {
                    lemma_log_step_trans(&c0, &cm, &*ctx, block_idx, 0, off as int);
                    lemma_log_step_trans(&c_at, &cm, &*ctx, block_idx, off_at as int, off as int);
                }
                off = off + 16;
                ptag = movestate_attr.tag & 0x7fff_ffff;
                let mut g2 = g;
                let upd = match g.root {
                    None => true,
                    Some(rp) => pair_eq(dir.pair, rp),
                };
                if !relocated && upd {
                    g2.gdisk = g.gstate;
                }
                g2.gdelta = GState::zero();
                *gstate_ctx = Some(g2);
            },
            None => {},
        }
    }
    if off + 20 > meta_max {
        return Ok(Attempt::Relocate);
    }
    let ghost c_pre_crc = *ctx;
    let ghost off_pre_crc = off;
    match dir_commit_crc(ctx, block_idx, &mut off, &mut ptag, &mut crc, 0, block_size, prog_size, disk_version) {
        Ok(()) => {},
        Err(err) => {
            if err == Error::Corrupt {
                return Ok(Attempt::Relocate);
            }
            return Err(err);
        },
    }
    proof {
        lemma_log_step_trans(&c0, &c_pre_crc, &*ctx, block_idx, 0, off_pre_crc as int);
        lemma_log_step_trans(&c_at, &c_pre_crc, &*ctx, block_idx, off_at as int, off_pre_crc as int);
        if c0.bd.reliable() {
            let es = compact_entries(source, begin, end);
            assert forall|j: int| 0 <= j < 4 implies #[trigger] ctx.logical_range(block_idx, 0, 4)[j] == c_at.logical_range(block_idx, 0, 4)[j] by {
                assert(ctx.logical(block_idx, j) == c_at.logical(block_idx, j));
            }
            assert(ctx.logical_range(block_idx, 0, 4) =~= c_at.logical_range(block_idx, 0, 4));
            assert forall|j: int| 0 <= j < off_es - 4 implies #[trigger] ctx.logical_range(block_idx, 4, (off_es - 4) as nat)[j] == c_at.logical_range(block_idx, 4, (off_es - 4) as nat)[j] by {
                assert(ctx.logical(block_idx, 4 + j) == c_at.logical(block_idx, 4 + j));
            }
            assert(ctx.logical_range(block_idx, 4, (off_es - 4) as nat) =~= c_at.logical_range(block_idx, 4, (off_es - 4) as nat));
            assert forall|j: int| 0 <= j < off_at - off_es implies #[trigger] ctx.logical_range(block_idx, off_es as int, (off_at - off_es) as nat)[j] == c_at.logical_range(block_idx, off_es as int, (off_at - off_es) as nat)[j] by {
                assert(ctx.logical(block_idx, off_es + j) == c_at.logical(block_idx, off_es + j));
            }
            assert(ctx.logical_range(block_idx, off_es as int, (off_at - off_es) as nat) =~= c_at.logical_range(block_idx, off_es as int, (off_at - off_es) as nat));
        }
    }
    let p0 = dir.pair[0];
    let p1 = dir.pair[1];
    dir.pair = [p1, p0];
    if attrs.len() == 0 {
        dir.count = if end >= begin { end - begin } else { 0 };
    }
    dir.off = off;
    dir.etag = ptag;
    Ok(Attempt::Done)
}

/// `d`, in the context `c`, holds a compaction of the entries of ids `[begin, s)` of
/// `source`, renumbered from 0, and then of `attrs`: the entry count (from the ids when
/// there are no attributes, else `count0`), a log end on a program unit, room for the
/// CRC under the metadata limit, and on a reliable device the revision, the entries'
/// records and the attributes' records at the start of `d.pair[0]`.
pub open spec fn compacted_into<B: BlockDevice>(
    c: &BdContext<B>,
    d: &MdDir,
    source: &MdDir,
    begin: u16,
    s: u16,
    attrs: Seq<CommitAttr>,
    count0: u16,
    reliable: bool,
) -> bool {
    let es = compact_entries(source, begin, s);
    let blk = d.pair[0];
    &&& d.count == (if attrs.len() == 0 { if s >= begin { (s - begin) as u16 } else { 0 } } else { count0 })
    &&& d.off as int % c.config.prog_size as int == 0
    &&& 4 + entries_size(es) + attrs_full_size(attrs) + 20 <= meta_max_spec(c.config)
    &&& reliable ==> c.logical_range(blk, 0, 4) == le32_bytes(d.rev)
    &&& reliable ==> c.logical_range(blk, 4, entries_size(es) as nat) == entries_log(source.block@, es, 0xffff_ffff)
    &&& reliable ==> c.logical_range(blk, 4 + entries_size(es), attrs_full_size(attrs) as nat) == attrs_full_log(
        attrs,
        entries_ptag(es, 0xffff_ffff),
    )
}

proof fn lemma_gctx_kept_trans(a: Option<GStateCtx>, b: Option<GStateCtx>, c: Option<GStateCtx>)
    requires
        gctx_kept(a, b),
        gctx_kept(b, c),
    ensures
        gctx_kept(a, c),
{
}

/// Compact the entries of ids `[begin, end)` of `source`, renumbered from 0, and then
/// `attrs` into `dir`: the log goes to `dir.pair[1]` with the revision one up, and the
/// pair is swapped. When that block cannot take it (no room or a bad block), the log
/// goes to a newly allocated block instead, unless the pair is the superblock pair,
/// which is then out of space.
pub fn dir_compact<B: BlockDevice>(
    ctx: &mut BdContext<B>,
    dir: &mut MdDir,
    source: &MdDir,
    begin: u16,
    end: u16,
    attrs: &[CommitAttr],
    root: [u32; 2],
    lookahead: &mut Lookahead,
    gstate_ctx: &mut Option<GStateCtx>,
    disk_version: u32,
) -> (r: Result<CompactResult, Error>)
    requires
        old(ctx).wf(),
        old(dir).fits(&old(ctx).config),
        source.wf(),
        old(ctx).config.prog_size >= 4,
        attrs_bounded(attrs@),
        old(lookahead).wf(&old(ctx).config),
    ensures
        final(ctx).wf(),
        final(ctx).config == old(ctx).config,
        final(ctx).bd.reliable() == old(ctx).bd.reliable(),
        final(lookahead).wf(&final(ctx).config),
        final(dir).fits(&old(ctx).config),
        final(dir).block == old(dir).block,
        final(dir).tail == old(dir).tail,
        final(dir).split == old(dir).split,
        final(dir).erased == old(dir).erased,
        gctx_kept(*final(gstate_ctx), *old(gstate_ctx)),
        final(lookahead).ckpoint <= old(lookahead).ckpoint,
        r == Ok::<CompactResult, Error>(CompactResult::Relocated) ==> final(lookahead).ckpoint < old(lookahead).ckpoint,
        r is Ok ==> ({
            let blk = final(dir).pair[0];
            &&& final(dir).pair[1] == old(dir).pair[0]
            &&& blk < old(ctx).config.block_count
            &&& final(dir).rev == old(dir).rev.wrapping_add(1)
            &&& compacted_into(&*final(ctx), &*final(dir), source, begin, end, attrs@, old(dir).count, old(ctx).bd.reliable())
            &&& r->Ok_0 == CompactResult::Compacted ==> blk == old(dir).pair[1] && final(ctx).frame_except(&*old(ctx), blk)
            &&& r->Ok_0 == CompactResult::Relocated ==> !(old(dir).pair[0] == 0 && old(dir).pair[1] == 1)
        }),
        (old(dir).pair[0] == 0 && old(dir).pair[1] == 1) ==> *final(lookahead) == *old(lookahead),
        (old(dir).pair[0] == 0 && old(dir).pair[1] == 1 && 4 + entries_size(compact_entries(source, begin, end)) + attrs_full_size(attrs@)
            + 20 > meta_max_spec(old(ctx).config)) ==> r is Err && final(dir).pair == old(dir).pair,
{
    let meta_max = metadata_max(ctx);
    let mut relocated = false;
    dir.rev = dir.rev.wrapping_add(1);
    let ghost c0 = *ctx;
    let ghost d0 = *old(dir);
    let ghost d1 = *dir;
    let ghost g0 = *gstate_ctx;
    loop
        invariant
            ctx.wf(),
            c0 == *old(ctx),
            d0 == *old(dir),
            g0 == *old(gstate_ctx),
            ctx.config == c0.config,
            ctx.bd.reliable() == c0.bd.reliable(),
            lookahead.wf(&ctx.config),
            source.wf(),
            attrs_bounded(attrs@),
            meta_max == meta_max_spec(c0.config),
            64 <= meta_max <= c0.config.block_size,
            c0.config.prog_size >= 4,
            dir.wf(),
            dir.block == d0.block,
            d0.block@.len() == c0.config.block_size,
            dir.rev == d0.rev.wrapping_add(1),
            dir.tail == d0.tail,
            dir.split == d0.split,
            dir.erased == d0.erased,
            dir.count == d0.count,
            dir.pair[0] == d0.pair[0],
            dir.pair[1] < c0.config.block_count,
            d0.fits(&c0.config),
            !relocated ==> *ctx == c0 && dir.pair == d0.pair,
            relocated ==> !(d0.pair[0] == 0 && d0.pair[1] == 1),
            gctx_kept(*gstate_ctx, g0),
            lookahead.ckpoint <= old(lookahead).ckpoint,
            relocated ==> lookahead.ckpoint < old(lookahead).ckpoint,
            (d0.pair[0] == 0 && d0.pair[1] == 1) ==> *lookahead == *old(lookahead),
        decreases lookahead.ckpoint,
    {
        let ghost gpre = *gstate_ctx;
        let att = compact_attempt(ctx, dir, source, begin, end, attrs, gstate_ctx, relocated, disk_version, meta_max);
        proof {
            lemma_gctx_kept_trans(*gstate_ctx, gpre, g0);
        }
        match att {
            Err(e) => {
                return Err(e);
            },
            Ok(Attempt::Done) => {
                return Ok(if relocated { CompactResult::Relocated } else { CompactResult::Compacted });
            },
            Ok(Attempt::Relocate) => {
                relocated = true;
                if pair_eq(dir.pair, [0, 1]) {
                    return Err(Error::Nospc);
                }
                let nb = lfs_alloc(ctx, root, lookahead)?;
                let p0 = dir.pair[0];
                dir.pair = [p0, nb];
            },
        }
    }
}

/// Split dir: compact source [split, end) into a new pair that takes over the tail of
/// `dir`; `dir` then has that pair as a hard tail.
pub fn dir_split<B: BlockDevice>(
    ctx: &mut BdContext<B>,
    dir: &mut MdDir,
    source: &MdDir,
    split: u16,
    end: u16,
    root: [u32; 2],
    lookahead: &mut Lookahead,
    gstate_ctx: &mut Option<GStateCtx>,
    disk_version: u32,
) -> (r: Result<(), Error>)
    requires
        old(ctx).wf(),
        source.wf(),
        old(ctx).config.prog_size >= 4,
        old(lookahead).wf(&old(ctx).config),
    ensures
        final(ctx).wf(),
        final(ctx).config == old(ctx).config,
        final(ctx).bd.reliable() == old(ctx).bd.reliable(),
        final(lookahead).wf(&final(ctx).config),
        final(lookahead).ckpoint <= old(lookahead).ckpoint,
        gctx_kept(*final(gstate_ctx), *old(gstate_ctx)),
        r is Ok ==> *final(dir) == (MdDir { tail: final(dir).tail, split: true, ..*old(dir) }),
        r is Ok ==> final(dir).tail[0] < old(ctx).config.block_count && final(dir).tail[1] < old(ctx).config.block_count,
        r is Err ==> *final(dir) == *old(dir),
{
    let mut tail = dir_alloc(ctx, root, lookahead)?;
    tail.split = dir.split;
    tail.tail = dir.tail;
    let no_attrs: Vec<CommitAttr> = Vec::new();
    proof {
        assert(attrs_bounded(no_attrs@));
    }
    dir_compact(ctx, &mut tail, source, split, end, no_attrs.as_slice(), root, lookahead, gstate_ctx, disk_version)?;
    dir.tail = tail.pair;
    dir.split = true;
    Ok(())
}

/// The size up to which the entries of a compaction stay in one pair: half the metadata
/// limit rounded up to a program unit, and no more than the limit less the room of a
/// commit's tail (40 bytes).
pub open spec fn split_cap(meta_max: int, prog_size: int) -> int {
    let a = meta_max / 2;
    let half = (a + prog_size - 1) - (a + prog_size - 1) % prog_size;
    if meta_max - 40 < half { meta_max - 40 } else { half }
}

/// True when the entries of ids `[begin, end)` of `source` compact without a split:
/// at most one id, or fewer than 0xff ids whose records fit under `split_cap`.
pub open spec fn compacts_whole(source: &MdDir, begin: u16, end: u16, meta_max: int, prog_size: int) -> bool {
    (end as int) - (begin as int) <= 1 || ((end as int) - (begin as int) < 0xff && entries_size(
        scan_tags(source.block@, source.off as int, 4, 0xffff_ffff, begin, end, 0),
    ) <= split_cap(meta_max, prog_size))
}

/// Splitting compact: halve the range of ids until what is left fits in half a block
/// (and under 255 ids), move the upper part to a new pair by a split, and compact the
/// rest. A split that runs out of space leaves the range whole. Returns Relocated if
/// the final compaction relocated.
pub fn dir_splittingcompact<B: BlockDevice>(
    ctx: &mut BdContext<B>,
    dir: &mut MdDir,
    source: &MdDir,
    begin: u16,
    end: u16,
    attrs: &[CommitAttr],
    root: [u32; 2],
    lookahead: &mut Lookahead,
    gstate_ctx: &mut Option<GStateCtx>,
    disk_version: u32,
) -> (r: Result<CompactResult, Error>)
    requires
        old(ctx).wf(),
        old(dir).fits(&old(ctx).config),
        source.wf(),
        old(ctx).config.prog_size >= 4,
        attrs_bounded(attrs@),
        old(lookahead).wf(&old(ctx).config),
    ensures
        final(ctx).wf(),
        final(ctx).config == old(ctx).config,
        final(ctx).bd.reliable() == old(ctx).bd.reliable(),
        final(lookahead).wf(&final(ctx).config),
        final(lookahead).ckpoint <= old(lookahead).ckpoint,
        r == Ok::<CompactResult, Error>(CompactResult::Relocated) ==> final(lookahead).ckpoint < old(lookahead).ckpoint,
        final(dir).fits(&old(ctx).config),
        final(dir).block == old(dir).block,
        final(dir).erased == old(dir).erased,
        gctx_kept(*final(gstate_ctx), *old(gstate_ctx)),
        r is Ok ==> final(dir).pair[1] == old(dir).pair[0],
        r == Ok::<CompactResult, Error>(CompactResult::Compacted) ==> final(dir).pair[0] == old(dir).pair[1],
        r is Ok ==> final(dir).rev == old(dir).rev.wrapping_add(1),
        r is Ok ==> final(dir).tail == old(dir).tail && final(dir).split == old(dir).split || final(dir).split,
        r is Ok ==> exists|s: u16|
            (begin <= s <= end || s == end) && #[trigger] compacted_into(&*final(ctx), &*final(dir), source, begin, s, attrs@, old(dir).count, old(ctx).bd.reliable()),
        compacts_whole(source, begin, end, meta_max_spec(old(ctx).config), old(ctx).config.prog_size as int) ==> (r is Ok
            ==> compacted_into(&*final(ctx), &*final(dir), source, begin, end, attrs@, old(dir).count, old(ctx).bd.reliable())
            && final(dir).tail == old(dir).tail && final(dir).split == old(dir).split),
    decreases end,
{
    let meta_max = metadata_max(ctx);
    let prog_size = ctx.config.prog_size;
    proof {
        lemma_prog_divides_block(ctx.config);
    }
    let mut split = begin;
    let ghost whole = compacts_whole(source, begin, end, meta_max as int, prog_size as int);
    while end > split && end - split > 1
        invariant
            whole == compacts_whole(source, begin, end, meta_max as int, prog_size as int),
            whole ==> split == begin,
            split >= begin,
            end > begin ==> split < end,
            end <= begin ==> split == begin,
            64 <= meta_max,
            meta_max <= 0x1000_0000,
            prog_size > 0,
            prog_size <= 0x1000_0000,
            source.wf(),
        decreases end - split,
    {
        let size = dir_traverse_size(source, split, end)?;
        let half = alignup((meta_max / 2) as u32, prog_size) as usize;
        let cap = if meta_max - 40 < half { meta_max - 40 } else { half };
        if end - split < 0xff && size <= cap {
            break;
        }
        split = split + (end - split) / 2;
    }
    if split != begin {
        let ghost d_pre = *dir;
        let ghost g_pre = *gstate_ctx;
        let res = dir_split(ctx, dir, source, split, end, root, lookahead, gstate_ctx, disk_version);
        match res {
            Err(Error::Nospc) => {},
            Err(e) => {
                return Err(e);
            },
            Ok(()) => {
                let r2 = dir_splittingcompact(ctx, dir, source, begin, split, attrs, root, lookahead, gstate_ctx, disk_version);
                proof {
                    if r2 is Ok {
                        let s2 = choose|s: u16| (begin <= s <= split || s == split) && #[trigger] compacted_into(&*ctx, &*dir, source, begin, s, attrs@, d_pre.count, old(ctx).bd.reliable());
                        assert(begin <= s2 <= end);
                    }
                }
                return r2;
            },
        }
    }
    let r = dir_compact(ctx, dir, source, begin, end, attrs, root, lookahead, gstate_ctx, disk_version);
    proof {
        if r is Ok {
            assert(compacted_into(&*ctx, &*dir, source, begin, end, attrs@, old(dir).count, old(ctx).bd.reliable()));
        }
    }
    r
}

/// True when the directory's next revision is due for wear-levelling relocation: with
/// block_cycles set, every (block_cycles + 1) | 1 revisions.
pub open spec fn needs_relocation(config: crate::config::Config, rev: u32) -> bool {
    let m = config.block_cycles as int + 1;
    let modulus = if m % 2 == 0 { m + 1 } else { m };
    config.block_cycles > 0 && (rev.wrapping_add(1) as int) % modulus == 0
}

fn dir_needsrelocation<B: BlockDevice>(ctx: &BdContext<B>, dir: &MdDir) -> (r: bool)
    ensures
        r == needs_relocation(ctx.config, dir.rev),
{
    if ctx.config.block_cycles <= 0 {
        return false;
    }
    let m: u64 = ctx.config.block_cycles as u64 + 1;
    let modulus: u64 = if m % 2 == 0 { m + 1 } else { m };
    (dir.rev.wrapping_add(1) as u64) % modulus == 0
}

/// True if some attribute is a DELETE.
pub open spec fn has_delete(attrs: Seq<CommitAttr>) -> bool {
    exists|i: int| 0 <= i < attrs.len() && type3_of(#[trigger] attrs[i].tag) == TYPE_DELETE
}

/// A copy of a metadata pair's state.
fn copy_dir(d: &MdDir) -> (r: MdDir)
    ensures
        r.block@ == d.block@,
        r.pair == d.pair && r.rev == d.rev && r.off == d.off && r.etag == d.etag && r.count == d.count,
        r.tail == d.tail && r.split == d.split && r.erased == d.erased,
{
    MdDir {
        pair: d.pair,
        block: vstd::slice::slice_to_vec(d.block.as_slice()),
        rev: d.rev,
        off: d.off,
        etag: d.etag,
        count: d.count,
        tail: d.tail,
        split: d.split,
        erased: d.erased,
    }
}

/// Relocating commit: apply the attributes to the directory's state; a directory
/// emptied by a delete whose parent entry's pair has a hard tail is dropped (nothing
/// is written); otherwise append the attributes, and when they do not fit, the block
/// is bad or the directory is due for wear-levelling, compact (splitting as needed).
/// Returns Relocated if the compaction relocated.
pub fn dir_relocatingcommit<B: BlockDevice>(
    ctx: &mut BdContext<B>,
    dir: &mut MdDir,
    pair: [u32; 2],
    attrs: &[CommitAttr],
    root: [u32; 2],
    lookahead: &mut Lookahead,
    pdir: &mut MdDir,
    gstate_ctx: &mut Option<GStateCtx>,
    disk_version: u32,
) -> (r: Result<RelocatingResult, Error>)
    requires
        old(ctx).wf(),
        old(dir).fits(&old(ctx).config),
        old(ctx).config.prog_size >= 4,
        attrs_bounded(attrs@),
        old(lookahead).wf(&old(ctx).config),
    ensures
        final(ctx).wf(),
        final(ctx).config == old(ctx).config,
        final(ctx).bd.reliable() == old(ctx).bd.reliable(),
        final(lookahead).wf(&final(ctx).config),
        final(lookahead).ckpoint <= old(lookahead).ckpoint,
        r == Ok::<RelocatingResult, Error>(RelocatingResult::Relocated) ==> final(lookahead).ckpoint < old(lookahead).ckpoint,
        final(dir).fits(&old(ctx).config),
        gctx_kept(*final(gstate_ctx), *old(gstate_ctx)),
        *final(pdir) == *old(pdir) || final(pdir).fits(&old(ctx).config),
        r == Ok::<RelocatingResult, Error>(RelocatingResult::Dropped) ==> has_delete(attrs@) && apply_attrs(*old(dir), attrs@).count == 0
            && final(pdir).split && final(ctx).same_view(&*old(ctx)),
        r == Ok::<RelocatingResult, Error>(RelocatingResult::Committed) ==> final(dir).pair == old(dir).pair || final(dir).pair == [
            old(dir).pair[1],
            old(dir).pair[0],
        ],
        r == Ok::<RelocatingResult, Error>(RelocatingResult::Relocated) ==> final(dir).pair[1] == old(dir).pair[0],
        (r is Ok && at_most_one_tail(attrs@)) ==> (final(dir).tail == apply_attrs(*old(dir), attrs@).tail && final(dir).split
            == apply_attrs(*old(dir), attrs@).split) || final(dir).split,
        (r is Ok && r != Ok::<RelocatingResult, Error>(RelocatingResult::Dropped) && old(ctx).bd.reliable() && attrs_complete(attrs@))
            ==> log_holds_attrs(&*final(ctx), final(dir).pair[0], attrs@),
{
    let mut hasdelete = false;
    let mut i: usize = 0;
    proof {
        assert(attrs@.take(0) =~= Seq::<CommitAttr>::empty());
        lemma_apply_attrs_frame(*dir, attrs@);
    }
    while i < attrs.len()
        invariant
            i <= attrs@.len(),
            *dir == apply_attrs(*old(dir), attrs@.take(i as int)),
            hasdelete ==> has_delete(attrs@),
            !hasdelete ==> forall|j: int| 0 <= j < i ==> type3_of(#[trigger] attrs@[j].tag) != TYPE_DELETE,
        decreases attrs@.len() - i,
    {
        let attr = &attrs[i];
        proof {
            assert(attrs@.take(i + 1).drop_last() =~= attrs@.take(i as int));
        }
        apply_attr_to_state(dir, attr);
        let type3 = (attr.tag >> 20u32) & 0x7ff;
        if type3 == TYPE_DELETE {
            hasdelete = true;
        }
        i = i + 1;
    }
    proof {
        assert(attrs@.take(i as int) =~= attrs@);
        lemma_apply_attrs_frame(*old(dir), attrs@);
    }
    if hasdelete && dir.count == 0 {
        match fs_parent(ctx, root, dir.pair, 255)? {
            Some((pred, _id)) => {
                *pdir = pred;
                if pdir.split {
                    return Ok(RelocatingResult::Dropped);
                }
            },
            None => {},
        }
    }
    let force_compact = dir_needsrelocation(ctx, dir);
    if !force_compact {
        let ghost d_pre = *dir;
        match dir_commit_append(ctx, dir, attrs, gstate_ctx, disk_version) {
            Ok(()) => {
                proof {
                    lemma_apply_attrs_tail_twice(*old(dir), attrs@);
                    if old(ctx).bd.reliable() && attrs_complete(attrs@) {
                        let off = d_pre.off as int;
                        let p = d_pre.etag;
                        assert(ctx.logical_range(dir.pair[0], off, attrs_size(attrs@) as nat) == attrs_log(attrs@, p));
                    }
                }
                return Ok(RelocatingResult::Committed);
            },
            Err(e) => {
                if e != Error::Nospc && e != Error::Corrupt {
                    return Err(e);
                }
                proof {
                    if at_most_one_tail(attrs@) {
                        let i = choose|i: int| 0 <= i <= attrs@.len() && #[trigger] apply_attrs(d_pre, attrs@.take(i)).tail == dir.tail
                            && apply_attrs(d_pre, attrs@.take(i)).split == dir.split;
                        lemma_tail_prefix(d_pre, *old(dir), attrs@, i);
                    }
                }
            },
        }
    }
    let source = copy_dir(dir);
    let count = source.count;
    let ghost g_mid = *gstate_ctx;
    let res = dir_splittingcompact(ctx, dir, &source, 0, count, attrs, root, lookahead, gstate_ctx, disk_version);
    proof {
        lemma_gctx_kept_trans(*gstate_ctx, g_mid, *old(gstate_ctx));
    }
    let res = res?;
    proof {
        if old(ctx).bd.reliable() {
            let sx = choose|s: u16| (0 <= s <= count || s == count) && #[trigger] compacted_into(&*ctx, &*dir, &source, 0, s, attrs@, source.count, old(ctx).bd.reliable());
            let es = compact_entries(&source, 0, sx);
            let off = 4 + entries_size(es);
            let p = entries_ptag(es, 0xffff_ffff);
            assert(ctx.logical_range(dir.pair[0], off, attrs_full_size(attrs@) as nat) == attrs_full_log(attrs@, p));
        }
    }
    Ok(if res == CompactResult::Relocated { RelocatingResult::Relocated } else { RelocatingResult::Committed })
}

/// The commit of a tail that points at `pair`: hard when `split`, else soft.
fn tail_attr(split: bool, pair: [u32; 2]) -> (r: CommitAttr)
    ensures
        r.tag == mktag_spec(if split { TYPE_HARDTAIL } else { TYPE_SOFTTAIL }, 0x3ff, 8),
        r.data == CommitData::Pair(pair),
        attrs_bounded(seq![r]),
{
    let r = if split { CommitAttr::hard_tail(pair) } else { CommitAttr::soft_tail(pair) };
    proof {
        crate::tag::lemma_mktag_fields(if split { TYPE_HARDTAIL } else { TYPE_SOFTTAIL }, 0x3ff, 8);
        assert(data_bytes(r.data).len() == 8);
        assert(seq![r][0] == r);
    }
    r
}

/// Orphaning commit: a relocating commit of `attrs` to `dir`, then the repair of the
/// metadata list around every pair that moved: a dropped directory's tail is stolen by
/// its predecessor; a relocated pair gets its parent's entry and its predecessor's tail
/// rewritten to the new blocks (which may relocate those in turn), and the root
/// follows a relocated root pair. Returns true if a parent relocated, leaving an
/// orphan. A commit that takes no new block and drops nothing stops after the first
/// step, and on a reliable device leaves the records of `attrs` in the log of the
/// pair's first block.
#[verifier::rlimit(40)]
pub fn dir_orphaningcommit<B: BlockDevice>(
    ctx: &mut BdContext<B>,
    dir: &mut MdDir,
    attrs: &[CommitAttr],
    root: &mut [u32; 2],
    lookahead: &mut Lookahead,
    name_max: u32,
    gstate: &GState,
    gdisk: &mut GState,
    gdelta: &mut GState,
    skip_dir_adjust: bool,
    disk_version: u32,
) -> (r: Result<bool, Error>)
    requires
        old(ctx).wf(),
        old(dir).fits(&old(ctx).config),
        old(ctx).config.prog_size >= 4,
        attrs_bounded(attrs@),
        old(lookahead).wf(&old(ctx).config),
    ensures
        final(ctx).wf(),
        final(ctx).config == old(ctx).config,
        final(ctx).bd.reliable() == old(ctx).bd.reliable(),
        final(lookahead).wf(&final(ctx).config),
        final(lookahead).ckpoint <= old(lookahead).ckpoint,
        final(dir).fits(&old(ctx).config),
        *final(root) == *old(root) || (*old(root) == old(dir).pair && final(root)[0] < old(ctx).config.block_count
            && final(root)[1] < old(ctx).config.block_count),
        (r is Ok && at_most_one_tail(attrs@)) ==> (final(dir).tail == apply_attrs(*old(dir), attrs@).tail && final(dir).split
            == apply_attrs(*old(dir), attrs@).split) || final(dir).split,
        r == Ok::<bool, Error>(true) ==> final(lookahead).ckpoint < old(lookahead).ckpoint,
        (r is Ok && final(lookahead).ckpoint == old(lookahead).ckpoint && old(ctx).bd.reliable() && attrs_complete(attrs@)
            && !(has_delete(attrs@) && apply_attrs(*old(dir), attrs@).count == 0)) ==> r == Ok::<bool, Error>(false)
            && log_holds_attrs(&*final(ctx), final(dir).pair[0], attrs@)
            && (final(dir).pair[0] == old(dir).pair[0] || final(dir).pair[0] == old(dir).pair[1]),
{
    let block_size = ctx.config.block_size as usize;
    let lpair = dir.pair;
    let mut ldir = copy_dir(dir);
    proof {
        lemma_apply_attrs_tail_from(ldir, *old(dir), attrs@);
    }
    let mut pdir = MdDir::alloc_empty([0, 0], block_size);
    let mut dummy_pdir = MdDir::alloc_empty([0, 0], block_size);
    let mut gctx: Option<GStateCtx> = Some(
        GStateCtx { gstate: *gstate, gdisk: *gdisk, gdelta: *gdelta, root: Some(*root), skip_dir_adjust },
    );
    let first = dir_relocatingcommit(ctx, &mut ldir, lpair, attrs, *root, lookahead, &mut pdir, &mut gctx, disk_version);
    if let Some(g) = gctx {
        *gdisk = g.gdisk;
        *gdelta = g.gdelta;
    }
    let mut state = first?;
    *dir = copy_dir(&ldir);
    if state == RelocatingResult::Committed {
        return Ok(false);
    }
    let ghost first_reloc = state == RelocatingResult::Relocated;
    let ghost dropped_facts = has_delete(attrs@) && apply_attrs(*old(dir), attrs@).count == 0;
    let mut orphans = false;
    if state == RelocatingResult::Dropped {
        let pdir_pair = pdir.pair;
        let ta = tail_attr(dir.split, dir.tail);
        let steal_attrs = vec![ta];
        proof {
            assert(steal_attrs@ =~= seq![ta]);
        }
        let res = dir_relocatingcommit(ctx, &mut pdir, pdir_pair, steal_attrs.as_slice(), *root, lookahead, &mut dummy_pdir, &mut gctx, disk_version);
        if let Some(g) = gctx {
            *gdisk = g.gdisk;
            *gdelta = g.gdelta;
        }
        state = res?;
        ldir = copy_dir(&pdir);
    }
    let ghost root0 = *old(root);
    loop
        invariant
            ctx.wf(),
            ctx.config == old(ctx).config,
            ctx.bd.reliable() == old(ctx).bd.reliable(),
            ctx.config.prog_size >= 4,
            lookahead.wf(&ctx.config),
            lookahead.ckpoint <= old(lookahead).ckpoint,
            ldir.fits(&ctx.config),
            dir.fits(&ctx.config),
            dummy_pdir.fits(&ctx.config) || dummy_pdir.pair == [0u32, 0u32],
            root0 == *old(root),
            lpair == old(dir).pair,
            at_most_one_tail(attrs@) ==> (dir.tail == apply_attrs(*old(dir), attrs@).tail && dir.split == apply_attrs(*old(dir), attrs@).split) || dir.split,
            orphans ==> lookahead.ckpoint < old(lookahead).ckpoint,
            first_reloc ==> lookahead.ckpoint < old(lookahead).ckpoint,
            !first_reloc ==> dropped_facts,
            *root == root0 || (root0 == lpair && root[0] < ctx.config.block_count && root[1] < ctx.config.block_count),
        decreases lookahead.ckpoint, if state == RelocatingResult::Relocated { 1int } else { 0int },
    {
        if state != RelocatingResult::Relocated {
            break;
        }
        if lpair[0] == root[0] && lpair[1] == root[1] {
            *root = ldir.pair;
        }
        let ghost ck0 = lookahead.ckpoint;
        match fs_parent(ctx, *root, lpair, name_max) {
            Err(e) => {
                return Err(e);
            },
            Ok(Some((p, tag_id))) => {
                let mut p = p;
                let ppair = p.pair;
                let update_attrs = vec![CommitAttr::dir_struct(tag_id, ldir.pair)];
                proof {
                    crate::tag::lemma_mktag_fields(TYPE_DIRSTRUCT, tag_id as u32, 8);
                    assert(data_bytes(update_attrs@[0].data).len() == 8);
                }
                let res = dir_relocatingcommit(ctx, &mut p, ppair, update_attrs.as_slice(), *root, lookahead, &mut dummy_pdir, &mut gctx, disk_version);
                if let Some(g) = gctx {
                    *gdisk = g.gdisk;
                    *gdelta = g.gdelta;
                }
                let s = res?;
                if s == RelocatingResult::Relocated {
                    ldir = p;
                    orphans = true;
                    continue;
                }
            },
            Ok(None) => {},
        }
        match fs_pred(ctx, *root, lpair) {
            Err(e) => {
                return Err(e);
            },
            Ok(Some(pred)) => {
                if pred.pair[0] == BLOCK_NULL && pred.pair[1] == BLOCK_NULL {
                    break;
                }
                let mut pred = pred;
                let pred_pair = pred.pair;
                let ta = tail_attr(pred.split, ldir.pair);
                let update_attrs = vec![ta];
                proof {
                    assert(update_attrs@ =~= seq![ta]);
                }
                let res = dir_relocatingcommit(ctx, &mut pred, pred_pair, update_attrs.as_slice(), *root, lookahead, &mut dummy_pdir, &mut gctx, disk_version);
                if let Some(g) = gctx {
                    *gdisk = g.gdisk;
                    *gdelta = g.gdelta;
                }
                state = res?;
                ldir = pred;
            },
            Ok(None) => {
                break;
            },
        }
    }
    Ok(orphans)
}

/// Drop an orphan from the metadata list: its gstate deltas go into the pending delta
/// and its predecessor takes over its tail.
pub fn dir_drop<B: BlockDevice>(
    ctx: &mut BdContext<B>,
    pred: &mut MdDir,
    orphan: &MdDir,
    root: &mut [u32; 2],
    lookahead: &mut Lookahead,
    name_max: u32,
    gstate: &GState,
    gdisk: &mut GState,
    gdelta: &mut GState,
    disk_version: u32,
) -> (r: Result<(), Error>)
    requires
        old(ctx).wf(),
        old(pred).fits(&old(ctx).config),
        orphan.wf(),
        old(ctx).config.prog_size >= 4,
        old(lookahead).wf(&old(ctx).config),
    ensures
        final(ctx).wf(),
        final(ctx).config == old(ctx).config,
        final(lookahead).wf(&final(ctx).config),
        final(pred).fits(&old(ctx).config),
        *final(root) == *old(root),
        r is Ok ==> (final(pred).tail == orphan.tail && final(pred).split == orphan.split) || final(pred).split,
{
    dir_getgstate(orphan, gdelta)?;
    let ta = tail_attr(orphan.split, orphan.tail);
    let attrs = vec![ta];
    proof {
        assert(attrs@ =~= seq![ta]);
    }
    let block_size = ctx.config.block_size as usize;
    let mut dummy = MdDir::alloc_empty([0, 0], block_size);
    let mut gctx: Option<GStateCtx> = Some(
        GStateCtx { gstate: *gstate, gdisk: *gdisk, gdelta: *gdelta, root: Some(*root), skip_dir_adjust: false },
    );
    let pair = pred.pair;
    let ghost p0 = *pred;
    proof {
        assert(at_most_one_tail(attrs@));
    }
    let res = dir_relocatingcommit(ctx, pred, pair, attrs.as_slice(), *root, lookahead, &mut dummy, &mut gctx, disk_version);
    if let Some(g) = gctx {
        *gdisk = g.gdisk;
        *gdelta = g.gdelta;
    }
    res?;
    proof {
        assert(attrs@.drop_last() =~= Seq::<CommitAttr>::empty());
        assert(apply_attrs(p0, attrs@) == apply_attr(apply_attrs(p0, attrs@.drop_last()), ta));
        assert(type3_of(mktag_spec(0x601, 0x3ff, 8)) == 0x601) by (bit_vector);
        assert(type3_of(mktag_spec(0x600, 0x3ff, 8)) == 0x600) by (bit_vector);
        assert(type3_of(ta.tag) == TYPE_HARDTAIL || type3_of(ta.tag) == TYPE_SOFTTAIL);
    }
    Ok(())
}

} // verus!
