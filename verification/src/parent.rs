//! Finding the metadata pair that points at another one: its predecessor in the
//! metadata list, and the directory whose entry holds it.
use vstd::prelude::*;
use crate::bdcache::{BdContext, BLOCK_NULL};
use crate::block::BlockDevice;
use crate::error::Error;
use crate::metadata::{fetch_choice, fetch_metadata_pair, fetched, find_back, get_tag_backwards, lookup, scan_count, scan_log, MdDir};
use crate::tag::TYPE_DIRSTRUCT;
use crate::traverse::{lfs_tortoise_detectcycles, LfsTortoise};
use crate::util::{le32_at, lfs_pair_isnull, read_le32};

verus! {

/// True if the two pairs share a block (lfs_pair_cmp is 0).
pub open spec fn pairs_meet(a: [u32; 2], b: [u32; 2]) -> bool {
    a[0] == b[0] || a[1] == b[1] || a[0] == b[1] || a[1] == b[0]
}

/// True if the two pairs share a block.
fn pairs_share(a: &[u32; 2], b: &[u32; 2]) -> (r: bool)
    ensures
        r == pairs_meet(*a, *b),
{
    a[0] == b[0] || a[1] == b[1] || a[0] == b[1] || a[1] == b[0]
}

/// Entry `id` of `d` is a directory whose pair shares a block with `pair`: the newest
/// directory struct of that id holds two words, and they meet `pair`.
pub open spec fn holds_pair(d: &MdDir, id: u16, pair: [u32; 2]) -> bool {
    match lookup(d, 0x7fff_fc00, (TYPE_DIRSTRUCT << 20u32) | ((id as u32) << 10u32) | 8) {
        Some((t, off, size)) => size >= 8 && off + 8 <= d.block@.len()
            && pairs_meet([le32_at(d.block@, off as int), le32_at(d.block@, off + 4)], pair),
        None => false,
    }
}

/// The block of `pair` that a fetch through `ctx` settles on (see `fetch_choice`): None
/// when the pair lies outside the device or no commit of either block checks.
pub open spec fn fetch_pick<B: BlockDevice>(ctx: &BdContext<B>, pair: [u32; 2]) -> Option<Seq<u8>> {
    if pair[0] >= ctx.config.block_count || pair[1] >= ctx.config.block_count {
        None
    } else {
        let b0 = ctx.logical_range(pair[0], 0, ctx.config.block_size as nat);
        let b1 = ctx.logical_range(pair[1], 0, ctx.config.block_size as nat);
        let ch = fetch_choice(b0, b1);
        if ch == 0 {
            Some(b0)
        } else if ch == 1 {
            Some(b1)
        } else {
            None
        }
    }
}

/// The pair that follows `pair` in the metadata list: the tail of its picked block
/// (the null pair when it has none).
pub open spec fn next_pair<B: BlockDevice>(ctx: &BdContext<B>, pair: [u32; 2]) -> [u32; 2] {
    match fetch_pick(ctx, pair) {
        Some(b) => scan_log(b, le32_at(b, 0)).last_tail,
        None => [BLOCK_NULL, BLOCK_NULL],
    }
}

/// The pair `j` steps along the metadata list from `root`.
pub open spec fn list_pair<B: BlockDevice>(ctx: &BdContext<B>, root: [u32; 2], j: nat) -> [u32; 2]
    decreases j,
{
    if j == 0 { root } else { next_pair(ctx, list_pair(ctx, root, (j - 1) as nat)) }
}

/// A pair that no block of the device can name.
pub open spec fn is_null_pair(p: [u32; 2]) -> bool {
    p[0] == BLOCK_NULL || p[1] == BLOCK_NULL
}

/// Entry `id` of the picked block `b` is a directory whose pair shares a block with
/// `pair` (as `holds_pair` says of a fetched directory).
pub open spec fn block_holds(b: Seq<u8>, id: u16, pair: [u32; 2]) -> bool {
    let st = scan_log(b, le32_at(b, 0));
    match find_back(b, st.last_off as int, st.last_etag, 0, 0x7fff_fc00, (TYPE_DIRSTRUCT << 20u32) | ((id as u32) << 10u32) | 8) {
        Some((t, off, size)) => size >= 8 && off + 8 <= b.len() && pairs_meet([le32_at(b, off as int), le32_at(b, off + 4)], pair),
        None => false,
    }
}

/// The `j`-th pair of the list from `root` fetches, and none of its entries (below
/// the id limit) is a directory that shares a block with `pair`.
pub open spec fn pair_clear<B: BlockDevice>(ctx: &BdContext<B>, root: [u32; 2], j: nat, pair: [u32; 2]) -> bool {
    match fetch_pick(ctx, list_pair(ctx, root, j)) {
        Some(b) => forall|id: u16| id < scan_count(scan_log(b, le32_at(b, 0))) && id < 0x3ff ==> !#[trigger] block_holds(b, id, pair),
        None => false,
    }
}

/// The `k`-th pair of the list from `root` fetches and shares no block with `pair`.
pub open spec fn pair_passed<B: BlockDevice>(ctx: &BdContext<B>, root: [u32; 2], k: nat, pair: [u32; 2]) -> bool {
    &&& fetch_pick(ctx, list_pair(ctx, root, k)) is Some
    &&& !pairs_meet(list_pair(ctx, root, k), pair)
}

/// A fetch that succeeds settles on the picked block of the pair.
pub(crate) proof fn lemma_fetch_picks<B: BlockDevice>(d: MdDir, p: [u32; 2], c1: &BdContext<B>, c0: &BdContext<B>)
    requires
        c1.same_view(c0),
        !(p[0] >= c1.config.block_count || p[1] >= c1.config.block_count),
        ({
            let b0 = c1.logical_range(p[0], 0, c1.config.block_size as nat);
            let b1 = c1.logical_range(p[1], 0, c1.config.block_size as nat);
            &&& fetch_choice(b0, b1) != -1
            &&& (fetch_choice(b0, b1) == 0 && crate::metadata::fetch_state(d, b0, p[0], p[1], c1.config.prog_size, crate::superblock::DISK_VERSION))
                || (fetch_choice(b0, b1) == 1 && crate::metadata::fetch_state(d, b1, p[1], p[0], c1.config.prog_size, crate::superblock::DISK_VERSION))
        }),
    ensures
        fetch_pick(c0, p) == Some(d.block@),
        d.tail == next_pair(c0, p),
        d.count == scan_count(scan_log(d.block@, le32_at(d.block@, 0))),
        d.off == scan_log(d.block@, le32_at(d.block@, 0)).last_off,
        d.etag == scan_log(d.block@, le32_at(d.block@, 0)).last_etag,
        d.split == scan_log(d.block@, le32_at(d.block@, 0)).last_split,
{
    crate::bdcache::lemma_same_view_range(c1, c0, p[0], 0, c1.config.block_size as nat);
    crate::bdcache::lemma_same_view_range(c1, c0, p[1], 0, c1.config.block_size as nat);
}

/// A fetch through a context gives the same directory through any context with the
/// same view.
proof fn lemma_fetched_same_view<B: BlockDevice>(d: MdDir, p: [u32; 2], c1: &BdContext<B>, c2: &BdContext<B>)
    requires
        fetched(d, p, c1),
        c1.same_view(c2),
    ensures
        fetched(d, p, c2),
{
    crate::bdcache::lemma_same_view_range(c1, c2, d.pair[0], 0, c1.config.block_size as nat);
}

/// Find the metadata pair whose tail is `pair`, walking the list from `root`. The
/// walk starts from a tail of `root`, so when `pair` is the root itself the answer is
/// found at once: a directory that is not fetched (its pair is the null pair) whose
/// tail is the root. None when no pair of the list points at `pair`; a cycle, or a
/// list longer than the device, is corrupt.
pub fn fs_pred<B: BlockDevice>(ctx: &mut BdContext<B>, root: [u32; 2], pair: [u32; 2]) -> (r: Result<Option<MdDir>, Error>)
    requires
        old(ctx).wf(),
    ensures
        final(ctx).wf(),
        final(ctx).same_view(&*old(ctx)),
        final(ctx).bd == old(ctx).bd,
        r matches Ok(Some(d)) ==> pairs_meet(d.tail, pair),
        r matches Ok(Some(d)) ==> d.wf() && d.block@.len() == old(ctx).config.block_size,
        (pairs_meet(root, pair) && !is_null_pair(root)) ==> (r matches Ok(Some(d)) && d.tail == root && d.pair == [BLOCK_NULL, BLOCK_NULL]),
        r matches Ok(Some(d)) ==> (d.pair == [BLOCK_NULL, BLOCK_NULL] && d.tail == root) || (d.fits(&old(ctx).config)
            && fetched(d, d.pair, &*old(ctx)) && exists|j: nat| #![trigger list_pair(&*old(ctx), root, j)] j < old(ctx).config.block_count
                && fetched(d, list_pair(&*old(ctx), root, j), &*old(ctx))
                && pairs_meet(list_pair(&*old(ctx), root, j + 1), pair)
                && forall|k: nat| k <= j ==> #[trigger] pair_passed(&*old(ctx), root, k, pair)),
        is_null_pair(root) ==> r == Ok::<Option<MdDir>, Error>(None),
        r == Ok::<Option<MdDir>, Error>(None) ==> exists|n: nat| n <= old(ctx).config.block_count
            && is_null_pair(#[trigger] list_pair(&*old(ctx), root, n))
            && forall|k: nat| k < n ==> #[trigger] pair_passed(&*old(ctx), root, k, pair),
{
    let mut tail = root;
    let mut pdir: Option<MdDir> = None;
    let mut tortoise = LfsTortoise { pair: [BLOCK_NULL, BLOCK_NULL], i: 1, period: 1 };
    let mut fuel: u32 = ctx.config.block_count;
    let ghost c0 = *old(ctx);
    let ghost mut j: nat = 0;
    while !lfs_pair_isnull(&tail)
        invariant
            ctx.wf(),
            ctx.same_view(&*old(ctx)),
            ctx.bd == old(ctx).bd,
            c0 == *old(ctx),
            tail == list_pair(&c0, root, j),
            is_null_pair(root) ==> is_null_pair(tail),
            j + fuel == c0.config.block_count,
            forall|k: nat| k < j ==> #[trigger] pair_passed(&c0, root, k, pair),
            pdir matches Some(d) ==> d.fits(&old(ctx).config) && d.tail == tail,
            pdir matches Some(d) ==> fetched(d, d.pair, &*old(ctx)),
            pdir matches Some(d) ==> j >= 1 && fetched(d, list_pair(&c0, root, (j - 1) as nat), &c0),
            pdir is None ==> tail == root && j == 0 && tortoise.pair == [BLOCK_NULL, BLOCK_NULL] && fuel == c0.config.block_count,
            (pairs_meet(root, pair) && !is_null_pair(root)) ==> pdir is None,
            c0.config.block_count >= 2,
        decreases fuel,
    {
        if fuel == 0 {
            return Err(Error::Corrupt);
        }
        fuel = fuel - 1;
        if lfs_tortoise_detectcycles(&tail, &mut tortoise) < 0 {
            return Err(Error::Corrupt);
        }
        if pairs_share(&tail, &pair) {
            match pdir {
                None => {
                    let mut d = MdDir::alloc_empty([BLOCK_NULL, BLOCK_NULL], ctx.config.block_size as usize);
                    d.tail = root;
                    return Ok(Some(d));
                },
                Some(d) => {
                    proof {
                        assert(fetched(d, d.pair, &*old(ctx)));
                        let jj = (j - 1) as nat;
                        assert(list_pair(&c0, root, jj + 1) == tail);
                        assert forall|k: nat| k <= jj implies #[trigger] pair_passed(&c0, root, k, pair) by {
                            assert(k < j);
                        }
                        assert(fetched(d, list_pair(&c0, root, jj), &c0));
                    }
                    return Ok(Some(d));
                },
            }
        }
        let ghost cpre = *ctx;
        let d = fetch_metadata_pair(ctx, tail)?;
        proof {
            lemma_fetched_same_view(d, tail, &cpre, &*old(ctx));
            lemma_fetch_picks(d, tail, &cpre, &c0);
            assert(pair_passed(&c0, root, j, pair));
        }
        tail = d.tail;
        pdir = Some(d);
        proof {
            j = j + 1;
        }
    }
    proof {
        assert(is_null_pair(list_pair(&c0, root, j)));
    }
    Ok(None)
}

/// Find the directory entry that holds `pair` as a directory struct, walking the
/// metadata list from `root`: the pair that holds it and the entry's id. None when no
/// entry does; a cycle, or a list longer than the device, is corrupt.
pub fn fs_parent<B: BlockDevice>(ctx: &mut BdContext<B>, root: [u32; 2], pair: [u32; 2], name_max: u32) -> (r: Result<Option<(MdDir, u16)>, Error>)
    requires
        old(ctx).wf(),
    ensures
        final(ctx).wf(),
        final(ctx).same_view(&*old(ctx)),
        final(ctx).bd == old(ctx).bd,
        r matches Ok(Some((d, id))) ==> d.fits(&old(ctx).config) && id < d.count && id <= 0x3ff,
        r matches Ok(Some((d, id))) ==> fetched(d, d.pair, &*old(ctx)) && holds_pair(&d, id, pair),
        is_null_pair(root) ==> r == Ok::<Option<(MdDir, u16)>, Error>(None),
        r == Ok::<Option<(MdDir, u16)>, Error>(None) ==> exists|n: nat| n <= old(ctx).config.block_count
            && is_null_pair(#[trigger] list_pair(&*old(ctx), root, n))
            && forall|j: nat| j < n ==> #[trigger] pair_clear(&*old(ctx), root, j, pair),
{
    let mut tail = root;
    let mut tortoise = LfsTortoise { pair: [BLOCK_NULL, BLOCK_NULL], i: 1, period: 1 };
    let mut fuel: u32 = ctx.config.block_count;
    let ghost c0 = *old(ctx);
    let ghost mut j: nat = 0;
    while !lfs_pair_isnull(&tail)
        invariant
            ctx.wf(),
            ctx.same_view(&*old(ctx)),
            ctx.bd == old(ctx).bd,
            c0 == *old(ctx),
            tail == list_pair(&c0, root, j),
            is_null_pair(root) ==> is_null_pair(tail),
            j + fuel == c0.config.block_count,
            forall|k: nat| k < j ==> #[trigger] pair_clear(&c0, root, k, pair),
        decreases fuel,
    {
        if fuel == 0 {
            return Err(Error::Corrupt);
        }
        fuel = fuel - 1;
        if lfs_tortoise_detectcycles(&tail, &mut tortoise) < 0 {
            return Err(Error::Corrupt);
        }
        let ghost cpre = *ctx;
        let dir = fetch_metadata_pair(ctx, tail)?;
        proof {
            lemma_fetched_same_view(dir, tail, &cpre, &*old(ctx));
            lemma_fetch_picks(dir, tail, &cpre, &c0);
        }
        let mut id: u16 = 0;
        while id < dir.count && id < 0x3ff
            invariant
                dir.fits(&old(ctx).config),
                fetched(dir, tail, &*old(ctx)),
                !is_null_pair(root),
                ctx.wf(),
                ctx.same_view(&*old(ctx)),
                ctx.bd == old(ctx).bd,
                dir.count == scan_count(scan_log(dir.block@, le32_at(dir.block@, 0))),
                dir.off == scan_log(dir.block@, le32_at(dir.block@, 0)).last_off,
                dir.etag == scan_log(dir.block@, le32_at(dir.block@, 0)).last_etag,
                forall|i: u16| i < id ==> !#[trigger] block_holds(dir.block@, i, pair),
            decreases dir.count - id,
        {
            let gtag = (TYPE_DIRSTRUCT << 20u32) | ((id as u32) << 10u32) | 8;
            match get_tag_backwards(&dir, 0x7fff_fc00, gtag)? {
                Some((_tag, off, size)) => {
                    if size >= 8 {
                        let child = [read_le32(&dir.block, off), read_le32(&dir.block, off + 4)];
                        if pairs_share(&child, &pair) {
                            proof {
                                assert(fetched(dir, dir.pair, &*old(ctx)));
                            }
                            return Ok(Some((dir, id)));
                        }
                    }
                },
                None => {},
            }
            proof {
                assert(!block_holds(dir.block@, id, pair));
            }
            id = id + 1;
        }
        proof {
            assert(pair_clear(&c0, root, j, pair));
        }
        tail = dir.tail;
        proof {
            j = j + 1;
        }
    }
    proof {
        assert(is_null_pair(list_pair(&c0, root, j)));
    }
    Ok(None)
}

} // verus!
