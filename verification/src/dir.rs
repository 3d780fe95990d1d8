//! Directory iteration: "." and "..", then the live entries of every pair of the
//! directory.
use vstd::prelude::*;
use vstd::string::StringSliceAdditionalSpecFns;
use crate::bdcache::BdContext;
use crate::block::BlockDevice;
use crate::error::Error;
use crate::gstate::{pair_issync, GState};
use crate::info::{FileType, Info};
use crate::metadata::{entry_info_spec, fetch_metadata_pair, fetched, find_back, get_entry_info, get_struct, get_tag_backwards, lookup, scan_log, MdDir};
use crate::parent::{fetch_pick, lemma_fetch_picks};
use crate::util::le32_at;
use crate::bdcache::BLOCK_NULL;
use crate::path::dir_find;
use crate::util::read_le32;
use crate::tag::TYPE_DELETE;

verus! {

/// An open directory: the first pair of the directory, the pair being read, the next
/// id in it, and the position (0 and 1 are "." and "..").
pub struct Dir {
    pub head: [u32; 2],
    pub mdir: MdDir,
    pub id: u16,
    pub pos: u64,
}

/// Both words of the pair are the null block.
pub open spec fn both_null(p: [u32; 2]) -> bool {
    p[0] == BLOCK_NULL && p[1] == BLOCK_NULL
}

/// The DELETE tag of `id`, looked up in `dir`.
pub open spec fn delete_gtag(id: u16) -> u32 {
    (TYPE_DELETE << 20u32) | ((id as u32) << 10u32)
}

/// The picked block `b` of a pair holds a DELETE tag of `id`.
pub open spec fn block_deletes(b: Seq<u8>, id: u16) -> bool {
    let st = scan_log(b, le32_at(b, 0));
    find_back(b, st.last_off as int, st.last_etag, 0, 0x7ff0_fc00, delete_gtag(id)) is Some
}

/// `id` is deleted in the picked block `b` or, following hard tails, in one of the
/// next `fuel` pairs.
pub open spec fn chain_deletes<B: BlockDevice>(ctx: &BdContext<B>, b: Seq<u8>, id: u16, fuel: nat) -> bool
    decreases fuel,
{
    let st = scan_log(b, le32_at(b, 0));
    block_deletes(b, id) || (st.last_split && !both_null(st.last_tail) && fuel > 0 && match fetch_pick(ctx, st.last_tail) {
        Some(b2) => chain_deletes(ctx, b2, id, (fuel - 1) as nat),
        None => false,
    })
}

/// `id` is deleted in the pair `p` or in one of the pairs that follow it before
/// `current`, looking at no more than `fuel` pairs.
pub open spec fn pred_deletes<B: BlockDevice>(ctx: &BdContext<B>, p: [u32; 2], current: [u32; 2], id: u16, fuel: nat) -> bool
    decreases fuel,
{
    fuel > 0 && match fetch_pick(ctx, p) {
        Some(b) => {
            let t = scan_log(b, le32_at(b, 0)).last_tail;
            block_deletes(b, id) || (!both_null(t) && !((t[0] == current[0] && t[1] == current[1]) || (t[0] == current[1]
                && t[1] == current[0])) && pred_deletes(ctx, t, current, id, (fuel - 1) as nat))
        },
        None => false,
    }
}

proof fn lemma_fetch_pick_same_view<B: BlockDevice>(c1: &BdContext<B>, c2: &BdContext<B>, p: [u32; 2])
    requires
        c1.same_view(c2),
    ensures
        fetch_pick(c1, p) == fetch_pick(c2, p),
{
    crate::bdcache::lemma_same_view_range(c1, c2, p[0], 0, c1.config.block_size as nat);
    crate::bdcache::lemma_same_view_range(c1, c2, p[1], 0, c1.config.block_size as nat);
}

proof fn lemma_chain_same_view<B: BlockDevice>(c1: &BdContext<B>, c2: &BdContext<B>, b: Seq<u8>, id: u16, fuel: nat)
    requires
        c1.same_view(c2),
    ensures
        chain_deletes(c1, b, id, fuel) == chain_deletes(c2, b, id, fuel),
    decreases fuel,
{
    let st = scan_log(b, le32_at(b, 0));
    lemma_fetch_pick_same_view(c1, c2, st.last_tail);
    if fuel > 0 {
        if let Some(b2) = fetch_pick(c1, st.last_tail) {
            lemma_chain_same_view(c1, c2, b2, id, (fuel - 1) as nat);
        }
    }
}

/// True if `id` has a DELETE tag in `dir` or, following hard tails, in a later pair
/// (at most `fuel` pairs further).
fn entry_deleted_in_tail_chain<B: BlockDevice>(
    ctx: &mut BdContext<B>,
    dir: &MdDir,
    id: u16,
    gdisk: Option<&GState>,
    fuel: u32,
) -> (r: Result<bool, Error>)
    requires
        old(ctx).wf(),
        dir.wf(),
        id <= 0x3ff,
    ensures
        final(ctx).wf(),
        final(ctx).same_view(&*old(ctx)),
        final(ctx).bd == old(ctx).bd,
        lookup(dir, 0x7ff0_fc00, delete_gtag(id)) is Some ==> r == Ok::<bool, Error>(true),
        (lookup(dir, 0x7ff0_fc00, delete_gtag(id)) is None && !(dir.split && !both_null(dir.tail))) ==> r == Ok::<bool, Error>(false),
        (lookup(dir, 0x7ff0_fc00, delete_gtag(id)) is None && dir.split && !both_null(dir.tail) && fuel == 0) ==> r
            == Err::<bool, Error>(Error::Corrupt),
        r is Ok ==> r->Ok_0 == (lookup(dir, 0x7ff0_fc00, delete_gtag(id)) is Some || (dir.split && !both_null(dir.tail) && fuel > 0
            && match fetch_pick(&*old(ctx), dir.tail) {
            Some(b2) => chain_deletes(&*old(ctx), b2, id, (fuel - 1) as nat),
            None => false,
        })),
    decreases fuel,
{
    let delete_gtag = (TYPE_DELETE << 20u32) | ((id as u32) << 10u32);
    if get_tag_backwards(dir, 0x7ff0_fc00, delete_gtag)?.is_some() {
        return Ok(true);
    }
    if dir.split && !dir.tail_is_null() {
        if fuel == 0 {
            return Err(Error::Corrupt);
        }
        let ghost c1 = *ctx;
        let tail_dir = fetch_metadata_pair(ctx, dir.tail)?;
        proof {
            lemma_fetch_picks(tail_dir, dir.tail, &c1, &*old(ctx));
        }
        let ghost c2 = *ctx;
        let sub = entry_deleted_in_tail_chain(ctx, &tail_dir, id, gdisk, fuel - 1)?;
        proof {
            let b2 = tail_dir.block@;
            lemma_fetch_pick_same_view(&c2, &*old(ctx), tail_dir.tail);
            if fuel - 1 > 0 {
                if let Some(b3) = fetch_pick(&*old(ctx), tail_dir.tail) {
                    lemma_chain_same_view(&c2, &*old(ctx), b3, id, (fuel - 2) as nat);
                }
            }
            assert(sub == chain_deletes(&*old(ctx), b2, id, (fuel - 1) as nat));
        }
        if sub {
            return Ok(true);
        }
    }
    Ok(false)
}

/// True if `id` has a DELETE tag in a pair from `head` up to, not including,
/// `current_pair` (at most as many pairs as the device has blocks).
fn entry_deleted_in_predecessors<B: BlockDevice>(
    ctx: &mut BdContext<B>,
    head: [u32; 2],
    current_pair: [u32; 2],
    id: u16,
    gdisk: Option<&GState>,
) -> (r: Result<bool, Error>)
    requires
        old(ctx).wf(),
        id <= 0x3ff,
    ensures
        final(ctx).wf(),
        final(ctx).same_view(&*old(ctx)),
        final(ctx).bd == old(ctx).bd,
        (head[0] == current_pair[0] && head[1] == current_pair[1]) ==> r == Ok::<bool, Error>(false),
        ((head[0] == current_pair[0] && head[1] == current_pair[1]) || (head[0] == current_pair[1] && head[1] == current_pair[0]))
            ==> r == Ok::<bool, Error>(false),
        r is Ok ==> r->Ok_0 == (!((head[0] == current_pair[0] && head[1] == current_pair[1]) || (head[0] == current_pair[1] && head[1]
            == current_pair[0])) && pred_deletes(&*old(ctx), head, current_pair, id, old(ctx).config.block_count as nat)),
{
    if pair_issync(head, current_pair) {
        return Ok(false);
    }
    let mut tail = head;
    let mut fuel: u32 = ctx.config.block_count;
    let ghost c0 = *old(ctx);
    loop
        invariant
            ctx.wf(),
            ctx.same_view(&*old(ctx)),
            ctx.bd == old(ctx).bd,
            c0 == *old(ctx),
            id <= 0x3ff,
            !(head[0] == current_pair[0] && head[1] == current_pair[1]),
            !((head[0] == current_pair[0] && head[1] == current_pair[1]) || (head[0] == current_pair[1] && head[1] == current_pair[0])),
            pred_deletes(&c0, tail, current_pair, id, fuel as nat) == pred_deletes(&c0, head, current_pair, id, c0.config.block_count as nat),
        decreases fuel,
    {
        if fuel == 0 {
            return Err(Error::Corrupt);
        }
        fuel = fuel - 1;
        let ghost c1 = *ctx;
        let dir = fetch_metadata_pair(ctx, tail)?;
        proof {
            lemma_fetch_picks(dir, tail, &c1, &c0);
        }
        let delete_gtag = (TYPE_DELETE << 20u32) | ((id as u32) << 10u32);
        if get_tag_backwards(&dir, 0x7ff0_fc00, delete_gtag)?.is_some() {
            return Ok(true);
        }
        if dir.tail_is_null() || pair_issync(dir.tail, current_pair) {
            return Ok(false);
        }
        tail = dir.tail;
    }
}

/// Read the next directory entry into `info`. Returns 1 with an entry, 0 at the end:
/// "." and ".." first, then every entry of the directory's pairs that is not deleted
/// (in its own pair or along the chain). Reading the root, the superblock entry (id 0
/// of the superblock pair) is passed over.
pub fn dir_read<B: BlockDevice>(
    ctx: &mut BdContext<B>,
    dir: &mut Dir,
    info: &mut Info,
    name_max: u32,
    gdisk: Option<&GState>,
    is_root_dir: bool,
) -> (r: Result<u32, Error>)
    requires
        old(ctx).wf(),
        old(dir).mdir.wf(),
        old(dir).pos < u64::MAX,
    ensures
        final(ctx).wf(),
        final(ctx).same_view(&*old(ctx)),
        final(ctx).bd == old(ctx).bd,
        final(dir).mdir.wf(),
        final(dir).head == old(dir).head,
        old(dir).pos == 0 ==> r == Ok::<u32, Error>(1) && final(info).typ == FileType::Dir && final(info).name_view() == seq![0x2eu8]
            && final(dir).pos == 1,
        old(dir).pos == 1 ==> r == Ok::<u32, Error>(1) && final(info).typ == FileType::Dir && final(info).name_view() == seq![
            0x2eu8,
            0x2eu8,
        ] && final(dir).pos == 2,
        r == Ok::<u32, Error>(1) ==> final(dir).pos == old(dir).pos + 1,
        r == Ok::<u32, Error>(0) ==> final(dir).pos == old(dir).pos && !final(dir).mdir.split && final(dir).id >= final(dir).mdir.count,
        r is Ok ==> r->Ok_0 <= 1,
        (old(dir).pos >= 2 && r == Ok::<u32, Error>(1)) ==> final(dir).id >= 1 && match entry_info_spec(
            &final(dir).mdir,
            (final(dir).id - 1) as u16,
            name_max,
        ) {
            Ok((t, sz, nm)) => final(info).typ == t && final(info).size == sz && final(info).name_view() == nm,
            Err(_) => false,
        },
        (old(dir).pos >= 2 && r == Ok::<u32, Error>(1) && is_root_dir && (final(dir).mdir.pair[0] == 0
            || final(dir).mdir.pair[0] == 1)) ==> final(dir).id >= 2,
{
    if dir.pos == 0 {
        *info = Info::new(FileType::Dir, 0);
        let dot = [0x2eu8];
        info.set_name(&dot);
        proof {
            assert(dot@.subrange(0, 1) =~= seq![0x2eu8]);
            assert(crate::info::first_nul(seq![0x2eu8], 1) == 1);
            assert(crate::info::first_nul(seq![0x2eu8], 0) == 1);
            assert(seq![0x2eu8].subrange(0, 1) =~= seq![0x2eu8]);
        }
        dir.pos = 1;
        return Ok(1);
    }
    if dir.pos == 1 {
        *info = Info::new(FileType::Dir, 0);
        let dotdot = [0x2eu8, 0x2eu8];
        info.set_name(&dotdot);
        proof {
            assert(dotdot@.subrange(0, 2) =~= seq![0x2eu8, 0x2eu8]);
            assert(crate::info::first_nul(seq![0x2eu8, 0x2eu8], 2) == 2);
            assert(crate::info::first_nul(seq![0x2eu8, 0x2eu8], 1) == 2);
            assert(crate::info::first_nul(seq![0x2eu8, 0x2eu8], 0) == 2);
            assert(seq![0x2eu8, 0x2eu8].subrange(0, 2) =~= seq![0x2eu8, 0x2eu8]);
        }
        dir.pos = 2;
        return Ok(1);
    }
    let mut fuel: u64 = (ctx.config.block_count as u64 + 1) * 0x400;
    loop
        invariant
            ctx.wf(),
            ctx.same_view(&*old(ctx)),
            ctx.bd == old(ctx).bd,
            dir.mdir.wf(),
            dir.head == old(dir).head,
            dir.pos == old(dir).pos,
            old(dir).pos >= 2,
            old(dir).pos < u64::MAX,
        decreases fuel,
    {
        if fuel == 0 {
            return Err(Error::Corrupt);
        }
        fuel = fuel - 1;
        if dir.id >= dir.mdir.count {
            if !dir.mdir.split {
                return Ok(0);
            }
            dir.mdir = fetch_metadata_pair(ctx, dir.mdir.tail)?;
            dir.id = 0;
        }
        if dir.id > 0x3ff {
            return Err(Error::Corrupt);
        }
        if is_root_dir && dir.id == 0 && (dir.mdir.pair[0] == 0 || dir.mdir.pair[0] == 1) {
            dir.id = 1;
            continue;
        }
        let deleted_in_tail = dir.mdir.split && entry_deleted_in_tail_chain(ctx, &dir.mdir, dir.id, gdisk, ctx.config.block_count)?;
        let deleted_in_pred = entry_deleted_in_predecessors(ctx, dir.head, dir.mdir.pair, dir.id, gdisk)?;
        if deleted_in_tail || deleted_in_pred {
            dir.id = dir.id + 1;
            continue;
        }
        match get_entry_info(&dir.mdir, dir.id, name_max) {
            Ok(entry_info) => {
                *info = entry_info;
                dir.id = dir.id + 1;
                dir.pos = dir.pos + 1;
                return Ok(1);
            },
            Err(Error::Noent) => {
                dir.id = dir.id + 1;
                continue;
            },
            Err(e) => {
                return Err(e);
            },
        }
    }
}

/// The number of ids of the pair `pair` holds, as a fetch through `ctx` sees it (0 when
/// neither block holds a commit that checks).
pub open spec fn pair_count<B: BlockDevice>(ctx: &BdContext<B>, pair: [u32; 2]) -> int {
    match fetch_pick(ctx, pair) {
        Some(b) => crate::metadata::scan_count(scan_log(b, le32_at(b, 0))) as int,
        None => 0,
    }
}

impl Dir {
    /// Open the directory at `path`: the root for a path of only slashes, else the
    /// entry the path names, which must be a directory. Reading starts at ".".
    pub fn open<B: BlockDevice>(ctx: &mut BdContext<B>, root: [u32; 2], path: &str, name_max: u32) -> (r: Result<Self, Error>)
        requires
            old(ctx).wf(),
        ensures
            final(ctx).wf(),
            final(ctx).same_view(&*old(ctx)),
            final(ctx).bd == old(ctx).bd,
            path.spec_bytes().len() == 0 ==> r == Err::<Self, Error>(Error::Inval),
            r matches Ok(d) ==> d.mdir.fits(&old(ctx).config) && d.head == d.mdir.pair && d.id == 0 && d.pos == 0,
            r matches Ok(d) ==> fetched(d.mdir, d.head, &*old(ctx)),
            (path.spec_bytes().len() > 0 && forall|k: int| 0 <= k < path.spec_bytes().len() ==> path.spec_bytes()[k] == crate::path::SLASH)
                ==> (r matches Ok(d) ==> fetched(d.mdir, root, &*old(ctx))),
    {
        let (d, id) = dir_find(ctx, root, path, name_max, None)?;
        let pair = if id == 0x3ff {
            root
        } else {
            let info = get_entry_info(&d, id, name_max)?;
            if info.typ != FileType::Dir {
                return Err(Error::NotDir);
            }
            let bytes = get_struct(&d, id)?;
            [read_le32(&bytes, 0), read_le32(&bytes, 4)]
        };
        let ghost mid = *ctx;
        let m = fetch_metadata_pair(ctx, pair)?;
        proof {
            crate::bdcache::lemma_same_view_range(&mid, &*old(ctx), m.pair[0], 0, mid.config.block_size as nat);
        }
        let r = Dir { head: m.pair, mdir: m, id: 0, pos: 0 };
        assert(fetched(r.mdir, pair, &*old(ctx)));
        assert(fetched(r.mdir, r.head, &*old(ctx)));
        Ok(r)
    }

    /// The position: 0 and 1 for "." and "..", then one per entry read.
    pub fn tell(&self) -> (r: u64)
        ensures
            r == self.pos,
    {
        self.pos
    }

    /// Go back to the start: the directory's first pair, at ".".
    pub fn rewind<B: BlockDevice>(&mut self, ctx: &mut BdContext<B>) -> (r: Result<(), Error>)
        requires
            old(ctx).wf(),
        ensures
            final(ctx).wf(),
            final(ctx).same_view(&*old(ctx)),
            final(ctx).bd == old(ctx).bd,
            final(self).head == old(self).head,
            r is Ok ==> final(self).id == 0 && final(self).pos == 0 && fetched(final(self).mdir, old(self).head, &*old(ctx))
                && final(self).mdir.fits(&old(ctx).config),
            r is Ok ==> final(self).mdir.count == pair_count(&*old(ctx), old(self).head),
            r is Err ==> *final(self) == *old(self),
    {
        let m = fetch_metadata_pair(ctx, self.head)?;
        proof {
            lemma_fetch_picks(m, self.head, &*old(ctx), &*old(ctx));
        }
        self.mdir = m;
        self.id = 0;
        self.pos = 0;
        Ok(())
    }

    /// Move to position `off`: rewind, count "." and "..", then step over ids (not
    /// over the superblock entry of the root pair, in either block order), following
    /// hard tails. Inval when the
    /// directory ends before `off`.
    pub fn seek<B: BlockDevice>(&mut self, ctx: &mut BdContext<B>, root: [u32; 2], off: u64) -> (r: Result<(), Error>)
        requires
            old(ctx).wf(),
        ensures
            final(ctx).wf(),
            final(ctx).same_view(&*old(ctx)),
            final(ctx).bd == old(ctx).bd,
            final(self).head == old(self).head,
            r is Ok ==> final(self).pos == off && final(self).mdir.fits(&old(ctx).config),
            (r is Ok && off <= 2) ==> final(self).id == 0,
            ({
                let skip = if old(self).head == root || old(self).head == [root[1], root[0]] { 1int } else { 0int };
                (r is Ok && off > 2 && off - 2 + skip <= pair_count(&*old(ctx), old(self).head)) ==> final(self).id == off - 2 + skip
                    && fetched(final(self).mdir, old(self).head, &*old(ctx))
            }),
    {
        self.rewind(ctx)?;
        let ghost skip = if old(self).head == root || old(self).head == [root[1], root[0]] { 1int } else { 0int };
        let ghost good = off > 2 && off - 2 + skip <= self.mdir.count;
        let ghost m0 = self.mdir;
        let first: u64 = if off < 2 { off } else { 2 };
        self.pos = first;
        let mut left: u64 = off - first;
        let is_root = (self.head[0] == root[0] && self.head[1] == root[1]) || (self.head[0] == root[1] && self.head[1] == root[0]);
        self.id = if left > 0 && is_root { 1 } else { 0 };
        proof {
            if self.head[0] == root[0] && self.head[1] == root[1] {
                assert(old(self).head =~= root);
            }
            if self.head[0] == root[1] && self.head[1] == root[0] {
                assert(old(self).head =~= [root[1], root[0]]);
            }
            if old(self).head == root || old(self).head == [root[1], root[0]] {
                assert(is_root);
            }
        }
        let mut fuel: u32 = ctx.config.block_count;
        while left > 0
            invariant
                good ==> self.mdir == m0 && self.id == skip + (off - 2) - left,
                good ==> off > 2 && off - 2 + skip <= m0.count,
                ctx.wf(),
                ctx.same_view(&*old(ctx)),
                ctx.bd == old(ctx).bd,
                self.head == old(self).head,
                self.mdir.fits(&old(ctx).config),
                self.pos + left == off,
                self.pos >= first,
                first == (if off < 2 { off } else { 2 }),
                off <= 2 ==> self.id == 0,
            decreases left, fuel,
        {
            if self.id >= self.mdir.count {
                if !self.mdir.split {
                    return Err(Error::Inval);
                }
                if fuel == 0 {
                    return Err(Error::Corrupt);
                }
                fuel = fuel - 1;
                self.mdir = fetch_metadata_pair(ctx, self.mdir.tail)?;
                self.id = 0;
                if self.mdir.count == 0 {
                    continue;
                }
            }
            let avail = (self.mdir.count - self.id) as u64;
            let diff = if avail < left { avail } else { left };
            self.id = self.id + diff as u16;
            self.pos = self.pos + diff;
            left = left - diff;
        }
        Ok(())
    }
}

} // verus!
