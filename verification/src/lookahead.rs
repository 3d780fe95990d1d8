//! Block allocation with a lookahead bitmap over a window of blocks, refilled by
//! traversing the filesystem.
use vstd::prelude::*;
use crate::bdcache::BdContext;
use crate::block::BlockDevice;
use crate::config::Config;
use crate::error::Error;
use crate::traverse::fs_traverse;

verus! {

/// Lookahead allocator state.
#[derive(Clone)]
pub struct Lookahead {
    pub start: u32,
    pub size: u32,
    pub next: u32,
    pub ckpoint: u32,
    pub buffer: Vec<u8>,
    /// The blocks that the last scan found in use.
    pub used: Ghost<Seq<u32>>,
}

/// Offset of `blk` in a window that starts at block `start` of a device of
/// `block_count` blocks.
pub open spec fn window_off(blk: u32, start: u32, block_count: u32) -> int {
    (blk + block_count - start) % (block_count as int)
}

/// True if bit `k` of the bitmap is set (block `start + k` is in use).
pub open spec fn bit_set(buffer: Seq<u8>, k: int) -> bool {
    (buffer[k / 8] & (1u8 << ((k % 8) as u8))) != 0
}

impl Lookahead {
    /// The bitmap covers the window, the window fits the device, and the checkpoint
    /// counts at least the blocks left in the window and at most every block.
    pub open spec fn wf(&self, config: &Config) -> bool {
        &&& self.buffer@.len() >= config.lookahead_size
        &&& self.ckpoint <= config.block_count
        &&& self.size <= config.lookahead_size * 8
        &&& self.size <= config.block_count
        &&& self.next <= self.size
        &&& self.start < config.block_count
        &&& self.ckpoint + self.next >= self.size
        &&& self.marks_used(config.block_count)
    }

    /// Every block the last scan found in use that falls in the window has its bit set.
    pub open spec fn marks_used(&self, block_count: u32) -> bool {
        forall|j: int|
            0 <= j < self.used@.len() && window_off(#[trigger] self.used@[j], self.start, block_count) < self.size
                ==> bit_set(self.buffer@, window_off(self.used@[j], self.start, block_count))
    }

    /// A lookahead with an empty window, its bitmap from the configured buffer (padded
    /// to `lookahead_size` bytes) or zeroed, checkpointed at the block count.
    pub fn new(config: &Config) -> (r: Self)
        requires
            config.wf(),
        ensures
            r.wf(config),
            r.start == 0 && r.size == 0 && r.next == 0,
            r.ckpoint == config.block_count,
            r.buffer@.len() >= config.lookahead_size,
    {
        let lookahead_size = config.lookahead_size as usize;
        let mut buffer: Vec<u8> = match config.lookahead_buffer {
            Some(s) => vstd::slice::slice_to_vec(s),
            None => vec![0u8; lookahead_size],
        };
        if buffer.len() < lookahead_size {
            buffer.resize(lookahead_size, 0u8);
        }
        Self { start: 0, size: 0, next: 0, ckpoint: config.block_count, buffer, used: Ghost(Seq::empty()) }
    }

    /// Checkpoint the allocator: every block may be scanned again.
    pub fn alloc_ckpoint(&mut self, block_count: u32)
        ensures
            final(self).ckpoint == block_count,
            final(self).start == old(self).start,
            final(self).size == old(self).size,
            final(self).next == old(self).next,
            final(self).buffer == old(self).buffer,
            final(self).used == old(self).used,
    {
        self.ckpoint = block_count;
    }

    /// Drop the window so the next allocation scans again.
    pub fn alloc_drop(&mut self, block_count: u32)
        ensures
            final(self).size == 0,
            final(self).next == 0,
            final(self).ckpoint == block_count,
            final(self).start == old(self).start,
            final(self).buffer == old(self).buffer,
            final(self).used == old(self).used,
    {
        self.size = 0;
        self.next = 0;
        self.alloc_ckpoint(block_count);
    }
}

/// The allocation cursor: the window position plus the checkpoint, modulo the block
/// count. Allocating and scanning keep it; only a checkpoint moves it.
pub open spec fn alloc_cursor(la: &Lookahead, block_count: u32) -> int {
    (la.start + la.next + la.ckpoint) % (block_count as int)
}

/// Where the cursor stood when `block` was handed out with the checkpoint at `c`.
pub open spec fn cursor_at(block: u32, c: int, block_count: u32) -> int {
    (block + c) % (block_count as int)
}

/// One allocation from `before` to `after` handed out `block`: the cursor is kept, and
/// `block` is the block under the cursor at a checkpoint value that the call used up.
pub open spec fn alloc_step(before: &Lookahead, after: &Lookahead, block_count: u32, block: u32) -> bool {
    &&& alloc_cursor(after, block_count) == alloc_cursor(before, block_count)
    &&& after.ckpoint < before.ckpoint
    &&& block < block_count
    &&& exists|c: int| after.ckpoint < c <= before.ckpoint
        && #[trigger] cursor_at(block, c, block_count) == alloc_cursor(before, block_count)
}

/// Two allocations made since the same checkpoint hand out different blocks: between
/// checkpoints the allocator never gives out a block twice.
pub proof fn lemma_alloc_distinct(
    a0: Lookahead,
    a1: Lookahead,
    b0: Lookahead,
    b1: Lookahead,
    block_count: u32,
    x: u32,
    y: u32,
)
    requires
        0 < block_count,
        a0.ckpoint <= block_count,
        alloc_step(&a0, &a1, block_count, x),
        alloc_step(&b0, &b1, block_count, y),
        alloc_cursor(&b0, block_count) == alloc_cursor(&a0, block_count),
        b0.ckpoint <= a1.ckpoint,
    ensures
        x != y,
{
    let c1 = choose|c: int| a1.ckpoint < c <= a0.ckpoint
        && #[trigger] cursor_at(x, c, block_count) == alloc_cursor(&a0, block_count);
    let c2 = choose|c: int| b1.ckpoint < c <= b0.ckpoint
        && #[trigger] cursor_at(y, c, block_count) == alloc_cursor(&b0, block_count);
    if x == y {
        let m = block_count as int;
        vstd::arithmetic::div_mod::lemma_mod_equivalence(x + c1, x + c2, m);
        assert((x + c1) - (x + c2) == c1 - c2);
        vstd::arithmetic::div_mod::lemma_small_mod((c1 - c2) as nat, m as nat);
    }
}

/// Progress measure of the allocator loop: the checkpoint, then whether a scan is due.
pub open spec fn alloc_measure(la: &Lookahead) -> int {
    2 * la.ckpoint + (if la.next < la.size { 0int } else { 1int })
}

/// The block at offset `k` of a window starting at `start` sits at offset `k` of it.
proof fn lemma_window_off_of_block(start: u32, k: int, block_count: u32, block: u32)
    requires
        start < block_count,
        0 <= k < block_count,
        block == (start + k) % (block_count as int),
    ensures
        window_off(block, start, block_count) == k,
{
    let bc = block_count as int;
    if start + k < bc {
        assert(block == start + k) by (nonlinear_arith)
            requires block == (start + k) % bc, 0 <= start + k < bc;
        assert((block + bc - start) % bc == k) by (nonlinear_arith)
            requires block == start + k, 0 <= k < bc;
    } else {
        assert(block == start + k - bc) by (nonlinear_arith)
            requires block == (start + k) % bc, bc <= start + k < 2 * bc;
        assert((block + bc - start) % bc == k) by (nonlinear_arith)
            requires block == start + k - bc, 0 <= k < bc;
    }
}

/// Setting bit `b` of a byte sets that bit and keeps every bit already set.
proof fn lemma_set_bit(v: u8, b: u8, c: u8)
    requires
        b < 8,
        c < 8,
    ensures
        ((v | (1u8 << b)) & (1u8 << b)) != 0,
        (v & (1u8 << c)) != 0 ==> ((v | (1u8 << b)) & (1u8 << c)) != 0,
{
    assert(((v | (1u8 << b)) & (1u8 << b)) != 0) by (bit_vector)
        requires b < 8;
    assert((v & (1u8 << c)) != 0 ==> ((v | (1u8 << b)) & (1u8 << c)) != 0) by (bit_vector)
        requires b < 8, c < 8;
}

/// Allocate a free block: the next clear bit of the window, refilling the window by
/// a scan when it is used up. Nospc when the checkpoint runs out, that is when every
/// block has been looked at since the last checkpoint.
pub fn lfs_alloc<B: BlockDevice>(ctx: &mut BdContext<B>, root: [u32; 2], lookahead: &mut Lookahead) -> (r: Result<u32, Error>)
    requires
        old(ctx).wf(),
        old(lookahead).wf(&old(ctx).config),
    ensures
        final(ctx).wf(),
        final(ctx).same_view(&*old(ctx)),
        final(ctx).bd == old(ctx).bd,
        final(lookahead).wf(&final(ctx).config),
        final(lookahead).ckpoint <= old(lookahead).ckpoint,
        r is Ok ==> final(lookahead).ckpoint < old(lookahead).ckpoint,
        r is Ok ==> r->Ok_0 < final(ctx).config.block_count,
        r is Ok ==> exists|k: int| 0 <= k < final(lookahead).next && !#[trigger] bit_set(final(lookahead).buffer@, k)
            && r->Ok_0 == (final(lookahead).start + k) % (final(ctx).config.block_count as int),
        (old(lookahead).ckpoint == 0 && old(lookahead).next >= old(lookahead).size) ==> r == Err::<u32, Error>(Error::Nospc),
        r is Ok ==> !final(lookahead).used@.contains(r->Ok_0),
        alloc_cursor(&*final(lookahead), old(ctx).config.block_count) == alloc_cursor(&*old(lookahead), old(ctx).config.block_count),
        r is Ok ==> alloc_step(&*old(lookahead), &*final(lookahead), old(ctx).config.block_count, r->Ok_0),
{
    let block_count = ctx.config.block_count;
    loop
        invariant
            alloc_cursor(&*lookahead, block_count) == alloc_cursor(&*old(lookahead), block_count),
            block_count == old(ctx).config.block_count,
            ctx.wf(),
            ctx.same_view(&*old(ctx)),
            ctx.bd == old(ctx).bd,
            block_count == ctx.config.block_count,
            lookahead.wf(&ctx.config),
            lookahead.ckpoint <= old(lookahead).ckpoint,
            (old(lookahead).ckpoint == 0 && old(lookahead).next >= old(lookahead).size) ==> (lookahead.ckpoint == 0
                && lookahead.next >= lookahead.size),
        decreases alloc_measure(lookahead),
    {
        if lookahead.next < lookahead.size {
            let k = lookahead.next;
            let byte_idx = (k / 8) as usize;
            let bit = (k % 8) as u8;
            let used = (lookahead.buffer[byte_idx] & (1u8 << bit)) != 0;
            if !used {
                let block = ((lookahead.start as u64 + k as u64) % block_count as u64) as u32;
                let ghost c0 = lookahead.ckpoint as int;
                proof {
                    vstd::arithmetic::div_mod::lemma_add_mod_noop_right(c0, lookahead.start + k, block_count as int);
                    assert(cursor_at(block, c0, block_count) == alloc_cursor(&*old(lookahead), block_count));
                }
                lookahead.next = lookahead.next + 1;
                lookahead.ckpoint = lookahead.ckpoint - 1;
                while lookahead.next < lookahead.size
                    invariant
                        lookahead.wf(&ctx.config),
                        lookahead.ckpoint < old(lookahead).ckpoint,
                        k < lookahead.next,
                        !bit_set(lookahead.buffer@, k as int),
                        block == (lookahead.start + k) % (block_count as int),
                        block_count == ctx.config.block_count,
                        lookahead.start < block_count,
                        k < lookahead.size,
                        alloc_cursor(&*lookahead, block_count) == alloc_cursor(&*old(lookahead), block_count),
                        lookahead.ckpoint < c0 <= old(lookahead).ckpoint,
                        cursor_at(block, c0, block_count) == alloc_cursor(&*old(lookahead), block_count),
                        block < block_count,
                    decreases lookahead.size - lookahead.next,
                {
                    let n = lookahead.next;
                    let ni = (n / 8) as usize;
                    let bi = (n % 8) as u8;
                    if (lookahead.buffer[ni] & (1u8 << bi)) == 0 {
                        break;
                    }
                    lookahead.next = lookahead.next + 1;
                    lookahead.ckpoint = lookahead.ckpoint - 1;
                }
                proof {
                    lemma_window_off_of_block(lookahead.start, k as int, block_count, block);
                    if lookahead.used@.contains(block) {
                        let j = choose|j: int| 0 <= j < lookahead.used@.len() && lookahead.used@[j] == block;
                        assert(window_off(lookahead.used@[j], lookahead.start, block_count) == k);
                    }
                }
                return Ok(block);
            }
            lookahead.next = lookahead.next + 1;
            lookahead.ckpoint = lookahead.ckpoint - 1;
            continue;
        }
        if lookahead.ckpoint == 0 {
            return Err(Error::Nospc);
        }
        let ghost before = *lookahead;
        let res = lfs_alloc_scan(ctx, root, lookahead);
        proof {
            vstd::arithmetic::div_mod::lemma_add_mod_noop_right(
                lookahead.ckpoint as int,
                before.start + before.next,
                block_count as int,
            );
        }
        res?;
    }
}

/// Move the window past the blocks looked at, clear the bitmap and mark every block
/// the filesystem uses that falls in the new window.
pub fn lfs_alloc_scan<B: BlockDevice>(ctx: &mut BdContext<B>, root: [u32; 2], lookahead: &mut Lookahead) -> (r: Result<(), Error>)
    requires
        old(ctx).wf(),
        old(lookahead).wf(&old(ctx).config),
        old(lookahead).ckpoint > 0,
    ensures
        final(ctx).wf(),
        final(ctx).same_view(&*old(ctx)),
        final(ctx).bd == old(ctx).bd,
        final(lookahead).wf(&final(ctx).config),
        final(lookahead).ckpoint == old(lookahead).ckpoint,
        final(lookahead).start == (old(lookahead).start + old(lookahead).next) % (old(ctx).config.block_count as int),
        final(lookahead).next == 0,
        final(lookahead).size == vstd::math::min(vstd::math::min(
            if old(ctx).config.lookahead_size * 8 > u32::MAX { u32::MAX as int } else { old(ctx).config.lookahead_size * 8 },
            old(lookahead).ckpoint as int), old(ctx).config.block_count as int),
        final(lookahead).size > 0,
        (r is Ok && root[0] != crate::bdcache::BLOCK_NULL && root[1] != crate::bdcache::BLOCK_NULL) ==> final(lookahead).used@.len() >= 2
            && final(lookahead).used@[0] == root[0] && final(lookahead).used@[1] == root[1],
{
    let block_count = ctx.config.block_count;
    let bits: u32 = if ctx.config.lookahead_size > 0x1fff_ffff { u32::MAX } else { ctx.config.lookahead_size * 8 };
    lookahead.start = ((lookahead.start as u64 + lookahead.next as u64) % block_count as u64) as u32;
    lookahead.next = 0;
    lookahead.size = if bits < lookahead.ckpoint { bits } else { lookahead.ckpoint };
    if lookahead.size > block_count {
        lookahead.size = block_count;
    }
    let n = lookahead.buffer.len();
    let mut i: usize = 0;
    let ghost s0 = lookahead.start;
    let ghost z0 = lookahead.size;
    let ghost c0 = lookahead.ckpoint;
    while i < n
        invariant
            n == lookahead.buffer@.len(),
            i <= n,
            lookahead.start == s0,
            lookahead.size == z0,
            lookahead.next == 0,
            lookahead.ckpoint == c0,
        decreases n - i,
    {
        lookahead.buffer.set(i, 0);
        i = i + 1;
    }
    lookahead.used = Ghost(Seq::empty());
    let used = fs_traverse(ctx, root, true)?;
    lookahead.used = Ghost(used@);
    let mut j: usize = 0;
    while j < used.len()
        invariant
            lookahead.buffer@.len() == n,
            lookahead.start == s0,
            lookahead.size == z0,
            lookahead.next == 0,
            lookahead.ckpoint == c0,
            n >= ctx.config.lookahead_size,
            lookahead.size <= ctx.config.lookahead_size * 8,
            lookahead.start < block_count,
            block_count == ctx.config.block_count,
            block_count >= 2,
            j <= used@.len(),
            lookahead.used@ == used@,
            forall|i: int|
                0 <= i < j && window_off(#[trigger] used@[i], lookahead.start, block_count) < lookahead.size
                    ==> bit_set(lookahead.buffer@, window_off(used@[i], lookahead.start, block_count)),
        decreases used@.len() - j,
    {
        let blk = used[j];
        let off = ((blk as u64 + block_count as u64 - lookahead.start as u64) % block_count as u64) as u32;
        proof {
            assert(off == window_off(blk, lookahead.start, block_count));
        }
        if off < lookahead.size {
            let byte_idx = (off / 8) as usize;
            let bit = (off % 8) as u8;
            let ghost before = lookahead.buffer@;
            let v = lookahead.buffer[byte_idx] | (1u8 << bit);
            lookahead.buffer.set(byte_idx, v);
            proof {
                assert forall|i: int|
                    0 <= i < j + 1 && window_off(#[trigger] used@[i], lookahead.start, block_count) < lookahead.size
                        implies bit_set(lookahead.buffer@, window_off(used@[i], lookahead.start, block_count)) by {
                    let o = window_off(used@[i], lookahead.start, block_count);
                    lemma_set_bit(before[byte_idx as int], bit, (o % 8) as u8);
                    if i == j {
                        assert(o == off);
                    } else if o / 8 != byte_idx {
                        assert(lookahead.buffer@[o / 8] == before[o / 8]);
                    }
                }
            }
        }
        j = j + 1;
    }
    Ok(())
}

} // verus!
