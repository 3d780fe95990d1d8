//! Formatting a device: a fresh metadata pair at blocks 0 and 1 holding the
//! superblock entry.
use vstd::prelude::*;
use crate::bdcache::BdContext;
use crate::block::BlockDevice;
use crate::commit::{attrs_bounded, data_bytes, dir_alloc, dir_commit_append, dir_splittingcompact, mktag_spec, CommitAttr, CommitData, GStateCtx};
use crate::error::Error;
use crate::lookahead::Lookahead;
use crate::metadata::{fetch_metadata_pair, fetched, get_superblock_from_dir, get_tag_backwards, lookup, read_superblock, MdDir};
use crate::superblock::{magic, magic_bytes, superblock_at, Superblock, DISK_VERSION};
use crate::tag::{TYPE_CREATE, TYPE_INLINESTRUCT, TYPE_SUPERBLOCK};

verus! {

/// The pair that holds the superblock: blocks 0 and 1.
pub open spec fn superblock_pair() -> [u32; 2] {
    [0, 1]
}

/// Longest name: LFS_NAME_MAX.
pub const NAME_MAX: u32 = 255;
/// Largest file: LFS_FILE_MAX.
pub const FILE_MAX: u32 = 2_147_483_647;
/// Largest attribute: LFS_ATTR_MAX.
pub const ATTR_MAX: u32 = 1022;


/// The superblock that formatting a device of `config` writes.
pub open spec fn fresh_superblock(config: crate::config::Config) -> Superblock {
    Superblock {
        version: DISK_VERSION,
        block_size: config.block_size,
        block_count: config.block_count,
        name_max: NAME_MAX,
        file_max: FILE_MAX,
        attr_max: ATTR_MAX,
    }
}

/// `d` is a freshly formatted superblock pair of a device of `config`: one entry and
/// no tail, whose name is the magic "littlefs" and whose inline struct is the
/// superblock of that geometry.
pub open spec fn formatted(d: &MdDir, config: crate::config::Config) -> bool {
    let b = d.block@;
    &&& d.count == 1
    &&& !d.split
    &&& match lookup(d, 0x7ff0_fc00, (TYPE_SUPERBLOCK << 20u32) | 8) {
        Some((t, off, size)) => size == 8 && off + 8 <= b.len() && b.subrange(off as int, off + 8) == magic(),
        None => false,
    }
    &&& match lookup(d, 0x7ff0_fc00, (TYPE_INLINESTRUCT << 20u32) | 24) {
        Some((t, off, size)) => size == 24 && off + 24 <= b.len() && superblock_at(b, off as int) == fresh_superblock(config),
        None => false,
    }
}

/// Format the device: allocate the root pair from a free lookahead window, commit the
/// superblock entry (CREATE 0, the magic "littlefs" and the superblock struct), read
/// it back, compact it into the other block of the pair so no older filesystem on the
/// device can be mounted, then fetch the pair at blocks 0 and 1 and check that it reads
/// back as that superblock entry (Corrupt otherwise).
pub fn format<B: BlockDevice>(ctx: &mut BdContext<B>) -> (r: Result<(), Error>)
    requires
        old(ctx).wf(),
        old(ctx).config.prog_size >= 4,
    ensures
        final(ctx).wf(),
        final(ctx).config == old(ctx).config,
        final(ctx).bd.reliable() == old(ctx).bd.reliable(),
        r is Ok ==> exists|d: MdDir| #[trigger] fetched(d, superblock_pair(), &*final(ctx)) && formatted(&d, old(ctx).config),
{
    let la_size = ctx.config.lookahead_size as usize;
    let bits: u64 = ctx.config.lookahead_size as u64 * 8;
    let window: u32 = if bits < ctx.config.block_count as u64 { bits as u32 } else { ctx.config.block_count };
    let mut lookahead = Lookahead { start: 0, size: window, next: 0, ckpoint: ctx.config.block_count, buffer: vec![0u8; la_size], used: Ghost(Seq::empty()) };
    lookahead.alloc_ckpoint(ctx.config.block_count);
    let mut root = dir_alloc(ctx, [0, 1], &mut lookahead)?;
    let sb = Superblock {
        version: DISK_VERSION,
        block_size: ctx.config.block_size,
        block_count: ctx.config.block_count,
        name_max: NAME_MAX,
        file_max: FILE_MAX,
        attr_max: ATTR_MAX,
    };
    let magic_arr = magic_bytes();
    let sb_bytes = sb.encode();
    proof {
        crate::tag::lemma_mktag_fields(TYPE_SUPERBLOCK, 0, 8);
        crate::tag::lemma_mktag_fields(TYPE_CREATE, 0, 0);
        crate::tag::lemma_mktag_fields(TYPE_INLINESTRUCT, 0, 24);
    }
    let a0 = CommitAttr::create(0);
    let a1 = CommitAttr { tag: (TYPE_SUPERBLOCK << 20u32) | 8, data: CommitData::Slice(vstd::slice::slice_to_vec(magic_arr.as_slice())) };
    let a2 = CommitAttr::inline_struct(0, sb_bytes.as_slice());
    let attrs = vec![a0, a1, a2];
    let mut none: Option<GStateCtx> = None;
    dir_commit_append(ctx, &mut root, attrs.as_slice(), &mut none, DISK_VERSION)?;
    let pair = root.pair;
    let mut fresh = fetch_metadata_pair(ctx, pair)?;
    fresh.erased = false;
    let source = fetch_metadata_pair(ctx, pair)?;
    let count = source.count;
    let no_attrs: Vec<CommitAttr> = Vec::new();
    proof {
        assert(attrs_bounded(no_attrs@));
    }
    dir_splittingcompact(ctx, &mut fresh, &source, 0, count, no_attrs.as_slice(), [0, 1], &mut lookahead, &mut none, DISK_VERSION)?;
    let ghost c1 = *ctx;
    let d = fetch_metadata_pair(ctx, [0, 1])?;
    if d.count != 1 || d.split {
        return Err(Error::Corrupt);
    }
    match get_superblock_from_dir(&d) {
        Some(got) => {
            if got.version != sb.version || got.block_size != sb.block_size || got.block_count != sb.block_count
                || got.name_max != sb.name_max || got.file_max != sb.file_max || got.attr_max != sb.attr_max {
                return Err(Error::Corrupt);
            }
        },
        None => {
            return Err(Error::Corrupt);
        },
    }
    match get_tag_backwards(&d, 0x7ff0_fc00, (TYPE_SUPERBLOCK << 20u32) | 8) {
        Ok(Some((_t, off, size))) => {
            if size != 8 || off + 8 > d.block.len() {
                return Err(Error::Corrupt);
            }
            let mut k: usize = 0;
            while k < 8
                invariant
                    k <= 8,
                    off + 8 <= d.block@.len(),
                    d.block@.len() <= usize::MAX,
                    ctx.wf(),
                    ctx.config == old(ctx).config,
                    ctx.bd.reliable() == old(ctx).bd.reliable(),
                    magic_arr@ == magic(),
                    forall|i: int| 0 <= i < k ==> d.block@[off + i] == magic()[i],
                decreases 8 - k,
            {
                if d.block[off + k] != magic_arr[k] {
                    return Err(Error::Corrupt);
                }
                k = k + 1;
            }
            proof {
                assert(d.block@.subrange(off as int, off + 8) =~= magic());
            }
        },
        _ => {
            return Err(Error::Corrupt);
        },
    }
    proof {
        assert forall|j: int| 0 <= j < ctx.config.block_size implies #[trigger] ctx.logical_range(d.pair[0], 0, ctx.config.block_size as nat)[j]
            == c1.logical_range(d.pair[0], 0, ctx.config.block_size as nat)[j] by {
            assert(ctx.logical(d.pair[0], j) == c1.logical(d.pair[0], j));
        }
        assert(ctx.logical_range(d.pair[0], 0, ctx.config.block_size as nat) =~= c1.logical_range(d.pair[0], 0, ctx.config.block_size as nat));
        assert(fetched(d, superblock_pair(), &*ctx));
    }
    Ok(())
}

/// Format and give the littlefs code of the outcome (0 on success).
pub fn lfs_format<B: BlockDevice>(ctx: &mut BdContext<B>) -> (r: i32)
    requires
        old(ctx).wf(),
        old(ctx).config.prog_size >= 4,
    ensures
        final(ctx).wf(),
        final(ctx).config == old(ctx).config,
        r == 0 ==> exists|d: MdDir| #[trigger] fetched(d, superblock_pair(), &*final(ctx)) && formatted(&d, old(ctx).config),
        r <= 0,
{
    match format(ctx) {
        Ok(()) => 0,
        Err(e) => {
            let c = e.code();
            if c == 0 {
                -84
            } else {
                c
            }
        },
    }
}

/// The superblock agrees with the configuration: a major version of 2 with a minor
/// version this code knows, the configured block size and, when the configuration
/// gives one, the configured block count.
pub open spec fn superblock_mountable(sb: Superblock, config: crate::config::Config) -> bool {
    &&& (sb.version >> 16u32) == 2
    &&& (sb.version & 0xffff) <= (DISK_VERSION & 0xffff)
    &&& sb.block_size == config.block_size
    &&& (config.block_count == 0 || sb.block_count == config.block_count)
}

/// The superblock that formatting writes is one that mounting with the same
/// configuration accepts.
pub proof fn lemma_fresh_superblock_mountable(config: crate::config::Config)
    ensures
        superblock_mountable(fresh_superblock(config), config),
{
    assert((DISK_VERSION >> 16u32) == 2) by (bit_vector);
}

/// Mount: read the superblock from the pair at blocks 0 and 1 and check it against the
/// configuration. Gives the littlefs code of the outcome: 0, Inval for a superblock of
/// another version or geometry, or the error of the read.
pub fn lfs_mount<B: BlockDevice>(ctx: &mut BdContext<B>) -> (r: i32)
    requires
        old(ctx).wf(),
    ensures
        final(ctx).wf(),
        final(ctx).same_view(&*old(ctx)),
        r <= 0,
        r == 0 ==> exists|d: MdDir, off: int| fetched(d, superblock_pair(), &*old(ctx)) && 8 <= off && off + 24 <= d.off
            && superblock_mountable(#[trigger] superblock_at(d.block@, off), old(ctx).config),
{
    match read_superblock(ctx, [0, 1]) {
        Ok(sb) => {
            let major = sb.version >> 16u32;
            let minor = sb.version & 0xffff;
            if major != 2 || minor > (DISK_VERSION & 0xffff) {
                return Error::Inval.code();
            }
            if sb.block_size != ctx.config.block_size {
                return Error::Inval.code();
            }
            if ctx.config.block_count != 0 && sb.block_count != ctx.config.block_count {
                return Error::Inval.code();
            }
            0
        },
        Err(e) => {
            let c = e.code();
            if c == 0 {
                -84
            } else {
                c
            }
        },
    }
}

} // verus!
