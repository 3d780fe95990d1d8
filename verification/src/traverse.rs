//! Walking the filesystem: every block that the metadata list and the files' skip
//! lists use.
use vstd::prelude::*;
use crate::bdcache::{BdContext, BLOCK_NULL};
use crate::block::BlockDevice;
use crate::ctz::{ctz_block_at, ctz_blocks, ctz_index, ctz_index_spec, ctz_list_wf, ctz_ptr, lemma_ptr_steps};
use crate::error::{Error, LFS_ERR_CORRUPT};
use crate::metadata::{fetch_metadata_pair, find_back, get_tag_backwards, scan_count, scan_log};
use crate::ctz::{lemma_list_same_view};
use crate::tag::{lfs_tag_type3, TYPE_CTZSTRUCT, TYPE_DIRSTRUCT, TYPE_STRUCT};
use crate::util::{le32_at, read_le32};
use crate::parent::{fetch_pick, is_null_pair, lemma_fetch_picks, list_pair};

verus! {

/// Brent's cycle detection state.
pub struct LfsTortoise {
    pub pair: [u32; 2],
    pub i: u32,
    pub period: u32,
}

/// One step of Brent's cycle detection over a metadata list: a tail equal to the
/// remembered pair is a cycle; every `period` steps the remembered pair moves to the
/// current tail and the period doubles.
pub fn lfs_tortoise_detectcycles(tail: &[u32; 2], tortoise: &mut LfsTortoise) -> (r: i32)
    ensures
        ((tail[0] == old(tortoise).pair[0] && tail[1] == old(tortoise).pair[1]) || (tail[0]
            == old(tortoise).pair[1] && tail[1] == old(tortoise).pair[0])) ==> r == LFS_ERR_CORRUPT
            && final(tortoise).pair == old(tortoise).pair && final(tortoise).i == old(tortoise).i
            && final(tortoise).period == old(tortoise).period,
        !((tail[0] == old(tortoise).pair[0] && tail[1] == old(tortoise).pair[1]) || (tail[0]
            == old(tortoise).pair[1] && tail[1] == old(tortoise).pair[0])) ==> r == 0 && (if old(tortoise).i
            == old(tortoise).period {
            final(tortoise).pair == *tail && final(tortoise).i == 1 && final(tortoise).period
                == old(tortoise).period.wrapping_mul(2)
        } else {
            final(tortoise).pair == old(tortoise).pair && final(tortoise).i == old(tortoise).i.wrapping_add(1)
                && final(tortoise).period == old(tortoise).period
        }),
{
    if crate::util::lfs_pair_issync(tail, &tortoise.pair) {
        return LFS_ERR_CORRUPT;
    }
    if tortoise.i == tortoise.period {
        tortoise.pair = *tail;
        tortoise.i = 0;
        tortoise.period = tortoise.period.wrapping_mul(2);
    }
    tortoise.i = tortoise.i.wrapping_add(1);
    0
}

proof fn lemma_heads_ptrs<B: BlockDevice>(c: &BdContext<B>, blk: u32)
    ensures
        le32_at(c.logical_range(blk, 0, 8), 0) == ctz_ptr(c, blk, 0),
        le32_at(c.logical_range(blk, 0, 8), 4) == ctz_ptr(c, blk, 1),
{
    let h = c.logical_range(blk, 0, 8);
    let a = c.logical_range(blk, 0, 4);
    let b = c.logical_range(blk, 4, 4);
    assert(h[0] == a[0] && h[1] == a[1] && h[2] == a[2] && h[3] == a[3]);
    assert(h[4] == b[0] && h[5] == b[1] && h[6] == b[2] && h[7] == b[3]);
}

/// Append the blocks of a CTZ skip-list of `size` bytes from `head` to `out`, newest
/// block first.
pub fn ctz_traverse<B: BlockDevice>(ctx: &mut BdContext<B>, head: u32, size: u32, out: &mut Vec<u32>) -> (r: Result<(), Error>)
    requires
        old(ctx).wf(),
    ensures
        final(ctx).wf(),
        final(ctx).same_view(&*old(ctx)),
        final(ctx).bd == old(ctx).bd,
        final(out)@.len() >= old(out)@.len(),
        final(out)@.subrange(0, old(out)@.len() as int) == old(out)@,
        (size > 0 && r is Ok) ==> final(out)@.len() > old(out)@.len() && final(out)@[old(out)@.len() as int] == head,
        size == 0 ==> r is Ok && final(out)@ == old(out)@,
        (size > 0 && r is Ok && ctz_list_wf(&*old(ctx), head, ctz_index_spec(old(ctx).config.block_size, (size - 1) as u64).0 as nat))
            ==> final(out)@ == old(out)@ + ctz_blocks(
            &*old(ctx),
            head,
            ctz_index_spec(old(ctx).config.block_size, (size - 1) as u64).0 as nat,
        ),
{
    if size == 0 {
        return Ok(());
    }
    let mut off: u64 = (size - 1) as u64;
    let mut index = ctz_index(ctx.config.block_size, &mut off);
    let mut cur = head;
    let ghost start = out@.len();
    let ghost c0 = *old(ctx);
    let ghost top: nat = index as nat;
    let ghost wf = ctz_list_wf(&c0, head, top);
    proof {
        assert(top == ctz_index_spec(c0.config.block_size, (size - 1) as u64).0);
    }
    loop
        invariant
            ctx.wf(),
            ctx.same_view(&*old(ctx)),
            ctx.bd == old(ctx).bd,
            ctx.pcache == c0.pcache,
            c0 == *old(ctx),
            wf == ctz_list_wf(&c0, head, top),
            top == ctz_index_spec(c0.config.block_size, (size - 1) as u64).0,
            index <= top,
            out@.len() >= old(out)@.len(),
            out@.subrange(0, old(out)@.len() as int) == old(out)@,
            start == old(out)@.len(),
            size > 0,
            out@.len() == start ==> cur == head,
            out@.len() > start ==> out@[start as int] == head,
            wf ==> cur == ctz_block_at(&c0, head, top, index as nat),
            wf ==> out@ == old(out)@ + Seq::new((top - index) as nat, |k: int| ctz_block_at(&c0, head, top, (top - k) as nat)),
        decreases index,
    {
        let ghost pre = out@;
        out.push(cur);
        proof {
            assert(out@.subrange(0, old(out)@.len() as int) =~= pre.subrange(0, old(out)@.len() as int));
            if wf {
                assert(out@ =~= old(out)@ + Seq::new((top - index + 1) as nat, |k: int| ctz_block_at(&c0, head, top, (top - k) as nat)));
            }
        }
        if index == 0 {
            proof {
                if wf {
                    assert(out@ =~= old(out)@ + ctz_blocks(&c0, head, top));
                }
            }
            return Ok(());
        }
        let count: u32 = 2 - (index % 2);
        let mut heads: Vec<u8> = vec![0u8; 8];
        let ghost mid = *ctx;
        let res = ctx.read(cur, 0, heads.as_mut_slice());
        proof {
            assert forall|b: u32, o: int| #[trigger] ctx.logical(b, o) == old(ctx).logical(b, o) by {
                assert(ctx.logical(b, o) == mid.logical(b, o));
            }
        }
        match res {
            Err(e) => {
                return Err(e);
            },
            Ok(()) => {},
        }
        proof {
            let hv = c0.logical_range(cur, 0, 8);
            assert(heads@ == hv);
            lemma_heads_ptrs(&c0, cur);
            if wf {
                lemma_ptr_steps(&c0, head, top, index as nat);
            }
        }
        if count == 2 {
            let ghost pre2 = out@;
            out.push(read_le32(&heads, 0));
            proof {
                assert(out@.subrange(0, old(out)@.len() as int) =~= pre2.subrange(0, old(out)@.len() as int));
                if wf {
                    assert(out@ =~= old(out)@ + Seq::new((top - index + 2) as nat, |k: int| ctz_block_at(&c0, head, top, (top - k) as nat)));
                }
            }
            cur = read_le32(&heads, 4);
        } else {
            cur = read_le32(&heads, 0);
        }
        if index < count {
            return Ok(());
        }
        index = index - count;
    }
}

/// The skip-list blocks of the file that entry `id` of the pair `pair` holds, as the
/// device reads through `c`: the fetched block's newest struct record of the entry, when
/// it is a CTZ struct whose head and size lie in the log and whose list of a non-zero
/// size is well formed. None for any other entry.
pub open spec fn entry_blocks<B: BlockDevice>(c: &BdContext<B>, pair: [u32; 2], id: u16) -> Option<Seq<u32>> {
    match fetch_pick(c, pair) {
        Some(b) => {
            let st = scan_log(b, le32_at(b, 0));
            if id < scan_count(st) {
                match find_back(b, st.last_off as int, st.last_etag, 0, 0x700f_fc00, (TYPE_STRUCT << 20u32) | ((id as u32) << 10u32) | 8) {
                    Some((t, off, size)) => {
                        let h = le32_at(b, off as int);
                        let n = le32_at(b, off + 4);
                        let last = ctz_index_spec(c.config.block_size, (n - 1) as u64).0 as nat;
                        if size >= 8 && off + 8 <= st.last_off && ((t & 0x7ff0_0000) >> 20u32) == TYPE_CTZSTRUCT && n > 0
                            && ctz_list_wf(c, h, last) {
                            Some(ctz_blocks(c, h, last))
                        } else {
                            None
                        }
                    },
                    None => None,
                }
            } else {
                None
            }
        },
        None => None,
    }
}

/// `out` lists every block of the skip-list of entry `id` of `pair` (if it has one).
pub open spec fn covers<B: BlockDevice>(out: Seq<u32>, c: &BdContext<B>, pair: [u32; 2], id: u16) -> bool {
    match entry_blocks(c, pair, id) {
        Some(bl) => forall|i: int| 0 <= i < bl.len() ==> out.contains(#[trigger] bl[i]),
        None => true,
    }
}

/// `out` lists both blocks of the pair `k` steps down the metadata list from `root`.
pub open spec fn pair_listed<B: BlockDevice>(out: Seq<u32>, c: &BdContext<B>, root: [u32; 2], k: nat) -> bool {
    out.contains(list_pair(c, root, k)[0]) && out.contains(list_pair(c, root, k)[1])
}

proof fn lemma_pair_listed_grow<B: BlockDevice>(a: Seq<u32>, b: Seq<u32>, c: &BdContext<B>, root: [u32; 2], k: nat)
    requires
        a.len() <= b.len(),
        b.subrange(0, a.len() as int) == a,
        pair_listed(a, c, root, k),
    ensures
        pair_listed(b, c, root, k),
{
    let j0 = choose|j: int| 0 <= j < a.len() && a[j] == list_pair(c, root, k)[0];
    let j1 = choose|j: int| 0 <= j < a.len() && a[j] == list_pair(c, root, k)[1];
    assert(b.subrange(0, a.len() as int)[j0] == b[j0]);
    assert(b.subrange(0, a.len() as int)[j1] == b[j1]);
}

proof fn lemma_covers_grow<B: BlockDevice>(a: Seq<u32>, b: Seq<u32>, c: &BdContext<B>, pair: [u32; 2], id: u16)
    requires
        a.len() <= b.len(),
        b.subrange(0, a.len() as int) == a,
        covers(a, c, pair, id),
    ensures
        covers(b, c, pair, id),
{
    if let Some(bl) = entry_blocks(c, pair, id) {
        assert forall|i: int| 0 <= i < bl.len() implies b.contains(#[trigger] bl[i]) by {
            let j = choose|j: int| 0 <= j < a.len() && a[j] == bl[i];
            assert(b.subrange(0, a.len() as int)[j] == b[j]);
        }
    }
}

/// Every block the filesystem uses: the blocks of each metadata pair of the list that
/// starts at `root`, the blocks of each file's skip-list and, with `include_orphans`,
/// the pairs that directory entries point to. The list may hold no more pairs than the
/// device holds blocks, and a cycle in it is corrupt.
pub fn fs_traverse<B: BlockDevice>(ctx: &mut BdContext<B>, root: [u32; 2], include_orphans: bool) -> (r: Result<Vec<u32>, Error>)
    requires
        old(ctx).wf(),
    ensures
        final(ctx).wf(),
        final(ctx).same_view(&*old(ctx)),
        final(ctx).bd == old(ctx).bd,
        (r is Ok && root[0] != BLOCK_NULL && root[1] != BLOCK_NULL) ==> r->Ok_0@.len() >= 2
            && r->Ok_0@[0] == root[0] && r->Ok_0@[1] == root[1],
        is_null_pair(root) ==> (r is Ok && r->Ok_0@.len() == 0),
        r is Ok ==> exists|n: nat| n <= old(ctx).config.block_count
            && is_null_pair(#[trigger] list_pair(&*old(ctx), root, n))
            && (forall|k: nat| k < n ==> (#[trigger] fetch_pick(&*old(ctx), list_pair(&*old(ctx), root, k))) is Some)
            && (forall|k: nat, id: u16| k < n ==> #[trigger] covers(r->Ok_0@, &*old(ctx), list_pair(&*old(ctx), root, k), id))
            && (forall|k: nat| k < n ==> #[trigger] pair_listed(r->Ok_0@, &*old(ctx), root, k)),
{
    let mut out: Vec<u32> = Vec::new();
    let mut tail = root;
    let mut tortoise = LfsTortoise { pair: [BLOCK_NULL, BLOCK_NULL], i: 1, period: 1 };
    let mut fuel: u32 = ctx.config.block_count;
    let ghost c0 = *old(ctx);
    let ghost mut j: nat = 0;
    while tail[0] != BLOCK_NULL && tail[1] != BLOCK_NULL
        invariant
            c0 == *old(ctx),
            tail == list_pair(&c0, root, j),
            is_null_pair(root) ==> is_null_pair(tail) && j == 0,
            j + fuel == c0.config.block_count,
            forall|k: nat| k < j ==> (#[trigger] fetch_pick(&c0, list_pair(&c0, root, k))) is Some,
            j == 0 ==> out@.len() == 0,
            ctx.wf(),
            ctx.same_view(&*old(ctx)),
            ctx.bd == old(ctx).bd,
            (root[0] != BLOCK_NULL && root[1] != BLOCK_NULL && tail != root) ==> out@.len() >= 2
                && out@[0] == root[0] && out@[1] == root[1],
            (root[0] != BLOCK_NULL && root[1] != BLOCK_NULL && out@.len() >= 2) ==> out@[0] == root[0] && out@[1] == root[1],
            out@.len() == 0 ==> tail == root,
            out@.len() == 0 || out@.len() >= 2,
            forall|k: nat, id: u16| k < j ==> #[trigger] covers(out@, &c0, list_pair(&c0, root, k), id),
            forall|k: nat| k < j ==> #[trigger] pair_listed(out@, &c0, root, k),
        decreases fuel,
    {
        if fuel == 0 {
            return Err(Error::Corrupt);
        }
        fuel = fuel - 1;
        if lfs_tortoise_detectcycles(&tail, &mut tortoise) < 0 {
            return Err(Error::Corrupt);
        }
        let ghost pre = out@;
        out.push(tail[0]);
        out.push(tail[1]);
        proof {
            if pre.len() >= 2 {
                assert(out@[0] == pre[0] && out@[1] == pre[1]);
            }
            assert(out@.subrange(0, pre.len() as int) =~= pre);
            assert forall|k: nat, id: u16| k < j implies #[trigger] covers(out@, &c0, list_pair(&c0, root, k), id) by {
                lemma_covers_grow(pre, out@, &c0, list_pair(&c0, root, k), id);
            }
            assert forall|k: nat| k < j implies #[trigger] pair_listed(out@, &c0, root, k) by {
                lemma_pair_listed_grow(pre, out@, &c0, root, k);
            }
            assert(out@[pre.len() as int] == tail[0] && out@[pre.len() + 1int] == tail[1]);
            assert(pair_listed(out@, &c0, root, j));
        }
        let ghost cpre = *ctx;
        let dir = fetch_metadata_pair(ctx, tail)?;
        proof {
            lemma_fetch_picks(dir, tail, &cpre, &c0);
            assert(fetch_pick(&c0, list_pair(&c0, root, j)) is Some);
        }
        let mut id: u16 = 0;
        while id < dir.count
            invariant
                c0 == *old(ctx),
                tail == list_pair(&c0, root, j),
                fetch_pick(&c0, tail) == Some(dir.block@),
                dir.count == scan_count(scan_log(dir.block@, le32_at(dir.block@, 0))),
                dir.off == scan_log(dir.block@, le32_at(dir.block@, 0)).last_off,
                dir.etag == scan_log(dir.block@, le32_at(dir.block@, 0)).last_etag,
                forall|k: nat, i: u16| k < j ==> #[trigger] covers(out@, &c0, list_pair(&c0, root, k), i),
                forall|i: u16| i < id ==> #[trigger] covers(out@, &c0, tail, i),
                forall|k: nat| k <= j ==> #[trigger] pair_listed(out@, &c0, root, k),
                ctx.wf(),
                ctx.same_view(&*old(ctx)),
                ctx.bd == old(ctx).bd,
                dir.wf(),
                !is_null_pair(root),
                out@.len() >= 2,
                (root[0] != BLOCK_NULL && root[1] != BLOCK_NULL && out@.len() >= 2) ==> out@[0] == root[0] && out@[1] == root[1],
            decreases dir.count - id,
        {
            let gtag = (TYPE_STRUCT << 20u32) | ((id as u32) << 10u32) | 8;
            match get_tag_backwards(&dir, 0x700f_fc00, gtag)? {
                Some((tag, off, size)) => {
                    let t3 = lfs_tag_type3(tag) as u32;
                    if size >= 8 && off + 8 <= dir.off {
                        let a = read_le32(&dir.block, off);
                        let b = read_le32(&dir.block, off + 4);
                        if t3 == TYPE_CTZSTRUCT {
                            let ghost pre = out@;
                            let ghost cc = *ctx;
                            ctz_traverse(ctx, a, b, &mut out)?;
                            proof {
                                assert(out@.subrange(0, pre.len() as int)[0] == pre[0]);
                                assert(out@.subrange(0, pre.len() as int)[1] == pre[1]);
                                if b > 0 {
                                    let last = ctz_index_spec(c0.config.block_size, (b - 1) as u64).0 as nat;
                                    lemma_list_same_view(&cc, &c0, a, last);
                                    if let Some(bl) = entry_blocks(&c0, tail, id) {
                                        assert(out@ == pre + bl);
                                        assert forall|i: int| 0 <= i < bl.len() implies out@.contains(#[trigger] bl[i]) by {
                                            assert(out@[pre.len() + i] == bl[i]);
                                        }
                                    }
                                }
                                assert forall|k: nat, i: u16| k < j implies #[trigger] covers(out@, &c0, list_pair(&c0, root, k), i) by {
                                    lemma_covers_grow(pre, out@, &c0, list_pair(&c0, root, k), i);
                                }
                                assert forall|i: u16| i < id implies #[trigger] covers(out@, &c0, tail, i) by {
                                    lemma_covers_grow(pre, out@, &c0, tail, i);
                                }
                                assert forall|k: nat| k <= j implies #[trigger] pair_listed(out@, &c0, root, k) by {
                                    lemma_pair_listed_grow(pre, out@, &c0, root, k);
                                }
                            }
                        } else if include_orphans && t3 == TYPE_DIRSTRUCT {
                            let ghost pre = out@;
                            out.push(a);
                            out.push(b);
                            proof {
                                assert(out@.subrange(0, pre.len() as int) =~= pre);
                                assert forall|k: nat, i: u16| k < j implies #[trigger] covers(out@, &c0, list_pair(&c0, root, k), i) by {
                                    lemma_covers_grow(pre, out@, &c0, list_pair(&c0, root, k), i);
                                }
                                assert forall|i: u16| i < id implies #[trigger] covers(out@, &c0, tail, i) by {
                                    lemma_covers_grow(pre, out@, &c0, tail, i);
                                }
                                assert forall|k: nat| k <= j implies #[trigger] pair_listed(out@, &c0, root, k) by {
                                    lemma_pair_listed_grow(pre, out@, &c0, root, k);
                                }
                            }
                        }
                    }
                },
                None => {},
            }
            id = id + 1;
        }
        proof {
            assert forall|k: nat, i: u16| k < j + 1 implies #[trigger] covers(out@, &c0, list_pair(&c0, root, k), i) by {
                if k == j {
                    if i >= dir.count {
                        assert(entry_blocks(&c0, tail, i) is None);
                    } else {
                        assert(covers(out@, &c0, tail, i));
                    }
                }
            }
        }
        tail = dir.tail;
        proof {
            j = j + 1;
        }
    }
    proof {
        assert(is_null_pair(list_pair(&c0, root, j)));
    }
    Ok(out)
}

} // verus!
