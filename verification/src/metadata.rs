//! Metadata block parsing: fetching a metadata pair, scanning its commit log and
//! looking tags up backwards.
use vstd::prelude::*;
use crate::bdcache::{BdContext, BLOCK_NULL};
use crate::block::BlockDevice;
use crate::crc::{crc32, crc_seq};
use crate::error::Error;
use crate::info::{FileType, Info};
use crate::superblock::{superblock_at, Superblock, DISK_VERSION, SUPERBLOCK_SIZE};
use crate::tag::{lfs_tag_isvalid, lfs_tag_dsize, lfs_tag_type1, lfs_tag_type2, lfs_tag_type3, lfs_tag_chunk, lfs_tag_splice, lfs_tag_id, lfs_tag_size, lfs_tag_isdelete, tag_dsize_spec, TYPE_NAME, TYPE_SPLICE, TYPE_TAIL, TYPE_CCRC, TYPE_FCRC, TYPE_CREATE, TYPE_DELETE, TYPE_SUPERBLOCK, TYPE_STRUCT, TYPE_INLINESTRUCT, TYPE_CTZSTRUCT, TYPE_DIRSTRUCT};
use crate::util::{read_be32, read_le32, le32_at, le32_bytes, be32_at};

verus! {

/// FCRC (forward CRC) data from TYPE_FCRC tag.
#[derive(Clone, Copy)]
pub struct Fcrc {
    pub size: u32,
    pub crc: u32,
}

/// Parsed metadata pair state. Holds block data for backward iteration.
#[derive(Clone)]
pub struct MdDir {
    /// The block we're reading from (pair[0]) and the other block of the pair.
    pub pair: [u32; 2],
    /// Block content (from the chosen block).
    pub block: Vec<u8>,
    /// Revision of the current block (for wear-leveling).
    pub rev: u32,
    /// Offset of end of last valid commit.
    pub off: usize,
    /// Last tag before CRC (for backward iteration).
    pub etag: u32,
    /// Number of entries (max id + 1, adjusted by splice).
    pub count: u16,
    /// Next metadata pair (tail).
    pub tail: [u32; 2],
    /// True if tail is hard (more entries in this dir).
    pub split: bool,
    /// True if the region after off is erased (valid for next commit).
    pub erased: bool,
}

impl MdDir {
    /// The log end lies inside the block content, after the revision.
    pub open spec fn wf(&self) -> bool {
        &&& 4 <= self.off <= self.block@.len()
        &&& self.block@.len() <= crate::config::BLOCK_SIZE_MAX
    }

    /// Well formed for a device of `config`: a whole block read, and both blocks of the
    /// pair on the device.
    pub open spec fn fits(&self, config: &crate::config::Config) -> bool {
        &&& self.wf()
        &&& self.block@.len() == config.block_size
        &&& self.pair[0] < config.block_count
        &&& self.pair[1] < config.block_count
    }

    /// Create an empty MdDir for a newly allocated pair. Used by dir_alloc.
    pub fn alloc_empty(pair: [u32; 2], block_size: usize) -> (r: Self)
        requires
            4 <= block_size <= crate::config::BLOCK_SIZE_MAX,
        ensures
            r.wf(),
            r.pair == pair,
            r.block@.len() == block_size,
            r.rev == 0,
            r.off == 4,
            r.etag == 0xffff_ffff,
            r.count == 0,
            r.tail == [BLOCK_NULL, BLOCK_NULL],
            !r.split,
            r.erased,
    {
        Self {
            pair,
            block: vec![0u8; block_size],
            rev: 0,
            off: 4,
            etag: 0xffff_ffff,
            count: 0,
            tail: [BLOCK_NULL, BLOCK_NULL],
            split: false,
            erased: true,
        }
    }

    /// True if tail is null (no next pair).
    pub fn tail_is_null(&self) -> (r: bool)
        ensures
            r == (self.tail[0] == BLOCK_NULL && self.tail[1] == BLOCK_NULL),
    {
        self.tail[0] == BLOCK_NULL && self.tail[1] == BLOCK_NULL
    }
}

/// Fetch and parse a metadata pair: read both blocks, scan the one with the newer
/// revision (the other when no commit of it checks) and take the state its last
/// checked commit leaves.
pub fn fetch_metadata_pair<B: BlockDevice>(ctx: &mut BdContext<B>, pair: [u32; 2]) -> (r: Result<MdDir, Error>)
    requires
        old(ctx).wf(),
    ensures
        final(ctx).wf(),
        final(ctx).same_view(&*old(ctx)),
        final(ctx).bd == old(ctx).bd,
        final(ctx).pcache == old(ctx).pcache,
        (pair[0] >= old(ctx).config.block_count || pair[1] >= old(ctx).config.block_count) ==> r
            == Err::<MdDir, Error>(Error::Corrupt),
        r is Ok ==> fetched(r->Ok_0, pair, &*old(ctx)),
        r is Ok ==> r->Ok_0.fits(&old(ctx).config),
        ({
            let b0 = old(ctx).logical_range(pair[0], 0, old(ctx).config.block_size as nat);
            let b1 = old(ctx).logical_range(pair[1], 0, old(ctx).config.block_size as nat);
            &&& fetch_choice(b0, b1) == -1 ==> r is Err
            &&& r is Ok ==> (fetch_choice(b0, b1) == 0 && fetch_state(r->Ok_0, b0, pair[0], pair[1], old(ctx).config.prog_size, DISK_VERSION))
                || (fetch_choice(b0, b1) == 1 && fetch_state(r->Ok_0, b1, pair[1], pair[0], old(ctx).config.prog_size, DISK_VERSION))
        }),
{
    let mut seed: Option<u32> = None;
    fetch_metadata_pair_ext(ctx, pair, &mut seed, None)
}

/// What a successful fetch of `pair` gives: one block of the pair, read whole, with
/// its revision and a log end inside it; the other block as the second of the pair.
pub open spec fn fetched<B: BlockDevice>(d: MdDir, pair: [u32; 2], ctx: &BdContext<B>) -> bool {
    &&& d.wf()
    &&& d.block@.len() == ctx.config.block_size
    &&& ((d.pair[0] == pair[0] && d.pair[1] == pair[1]) || (d.pair[0] == pair[1] && d.pair[1] == pair[0]))
    &&& d.block@ == ctx.logical_range(d.pair[0], 0, ctx.config.block_size as nat)
    &&& d.rev == le32_at(d.block@, 0)
    &&& d.off >= 8
}

/// Bookkeeping of one scan of a metadata block: the running count, largest id and
/// tail, and what the last commit whose CRC checked left.
#[derive(Clone, Copy)]
pub struct ScanState {
    pub tempcount: i64,
    pub max_id: u16,
    pub seen_name_or_splice: bool,
    pub temptail: [u32; 2],
    pub tempsplit: bool,
    pub last_off: usize,
    pub last_etag: u32,
    pub last_tail: [u32; 2],
    pub last_split: bool,
    pub hasfcrc: bool,
    pub fcrc: Fcrc,
}

/// The state a scan starts from.
pub open spec fn scan_init() -> ScanState {
    ScanState {
        tempcount: 0,
        max_id: 0,
        seen_name_or_splice: false,
        temptail: [BLOCK_NULL, BLOCK_NULL],
        tempsplit: false,
        last_off: 0,
        last_etag: 0,
        last_tail: [BLOCK_NULL, BLOCK_NULL],
        last_split: false,
        hasfcrc: false,
        fcrc: Fcrc { size: 0, crc: 0 },
    }
}

/// What a non-CRC tag of a commit adds to the scan state: a name raises the count to
/// cover its id, a splice moves the count, a tail tag sets the tail, an FCRC tag records
/// the forward CRC.
pub open spec fn scan_note(b: Seq<u8>, off: int, tag: u32, dsize: int, st: ScanState) -> ScanState {
    let t1 = (tag & 0x7000_0000) >> 20u32;
    let id = ((tag & 0x000f_fc00) >> 10u32) as u16;
    if t1 == TYPE_NAME {
        ScanState {
            seen_name_or_splice: true,
            max_id: if id > st.max_id { id } else { st.max_id },
            tempcount: if id >= st.tempcount { (id + 1) as i64 } else { st.tempcount },
            ..st
        }
    } else if t1 == TYPE_SPLICE {
        ScanState {
            seen_name_or_splice: true,
            max_id: if id > st.max_id { id } else { st.max_id },
            tempcount: (st.tempcount + ((((tag & 0x0ff0_0000) >> 20u32) as u8) as i8)) as i64,
            ..st
        }
    } else if t1 == TYPE_TAIL {
        if off + 12 <= b.len() {
            ScanState {
                tempsplit: ((((tag & 0x0ff0_0000) >> 20u32) as u8) & 1) != 0,
                temptail: [le32_at(b, off + 4), le32_at(b, off + 8)],
                ..st
            }
        } else {
            st
        }
    } else if ((tag & 0x7ff0_0000) >> 20u32) == TYPE_FCRC && dsize >= 12 {
        ScanState { fcrc: Fcrc { size: le32_at(b, off + 4), crc: le32_at(b, off + 8) }, hasfcrc: true, ..st }
    } else {
        st
    }
}

/// The scan of block `b` from `off`, with `ptag` the previous tag and `crc` the CRC of
/// the commit so far: tags are decoded against the previous one, each CRC tag whose
/// stored CRC matches closes a commit (recording where it ends, its last tag, tail and
/// count, and restarting the CRC), and the scan stops at the first tag that does not
/// fit the block or the first CRC that does not match.
pub open spec fn scan_from(b: Seq<u8>, off: int, ptag: u32, crc: u32, st: ScanState) -> ScanState
    decreases b.len() - off,
{
    if off < 0 || off + 4 > b.len() {
        st
    } else {
        let crc1 = crc_seq(crc, b.subrange(off, off + 4));
        let tag = (be32_at(b, off) ^ ptag) & 0x7fff_ffff;
        let dsize = tag_dsize_spec(tag) as int;
        if (tag & 0x8000_0000) != 0 || off + dsize > b.len() {
            st
        } else if ((tag & 0x7800_0000) >> 20u32) == TYPE_CCRC {
            if off + 8 > b.len() || crc1 != le32_at(b, off + 4) {
                st
            } else {
                let ptag2 = tag ^ (if ((((tag & 0x0ff0_0000) >> 20u32) as u8) & 1) != 0 { 0x8000_0000u32 } else { 0u32 });
                let tc0: i64 = if st.tempcount < 0 { 0 } else { st.tempcount };
                let tc: i64 = if st.seen_name_or_splice && tc0 < st.max_id + 1 { (st.max_id + 1) as i64 } else { tc0 };
                scan_from(
                    b,
                    off + dsize,
                    ptag2,
                    0xffff_ffff,
                    ScanState {
                        last_off: (off + dsize) as usize,
                        last_etag: ptag2,
                        last_tail: st.temptail,
                        last_split: st.tempsplit,
                        tempcount: tc,
                        ..st
                    },
                )
            }
        } else {
            scan_from(b, off + dsize, tag, crc_seq(crc1, b.subrange(off + 4, off + dsize)), scan_note(b, off, tag, dsize, st))
        }
    }
}

/// The scan of a whole metadata block whose revision is `rev`.
pub open spec fn scan_log(b: Seq<u8>, rev: u32) -> ScanState {
    scan_from(b, 4, 0xffff_ffff, crc_seq(0xffff_ffff, le32_bytes(rev)), scan_init())
}

/// Scan the commits of one block and return the state at the end of the last commit
/// whose CRC checks. `last_off` is 0 when no commit checks. The tail is that of the
/// last tail tag of the checked commits: a commit without one keeps the tail before it.
fn scan_block(block: &Vec<u8>, dir_rev: u32, seed: &mut Option<u32>) -> (st: ScanState)
    requires
        8 <= block@.len() <= crate::config::BLOCK_SIZE_MAX,
    ensures
        st.last_off == 0 || (8 <= st.last_off <= block@.len()),
        -0x10_0000_0000 <= st.tempcount <= 0x10_0000_0000,
        st == scan_log(block@, dir_rev),
{
    let block_size = block.len();
    let mut st = ScanState {
        tempcount: 0,
        max_id: 0,
        seen_name_or_splice: false,
        temptail: [BLOCK_NULL, BLOCK_NULL],
        tempsplit: false,
        last_off: 0,
        last_etag: 0,
        last_tail: [BLOCK_NULL, BLOCK_NULL],
        last_split: false,
        hasfcrc: false,
        fcrc: Fcrc { size: 0, crc: 0 },
    };
    let mut ptag: u32 = 0xffff_ffff;
    let mut off: usize = 4;
    let rev_bytes = crate::util::le32_array(dir_rev);
    let mut crc = crc32(0xffff_ffff, &rev_bytes);
    while off + 4 <= block_size
        invariant_except_break
            scan_from(block@, off as int, ptag, crc, st) == scan_log(block@, dir_rev),
        invariant
            block_size == block@.len(),
            8 <= block_size <= crate::config::BLOCK_SIZE_MAX,
            4 <= off <= block_size,
            st.last_off == 0 || (8 <= st.last_off <= block_size),
            -(64 * off as int) <= st.tempcount <= 0x400 + 64 * off as int,
            st.max_id <= 0x3ff,
        ensures
            st == scan_log(block@, dir_rev),
            st.last_off == 0 || (8 <= st.last_off <= block_size),
            -(64 * block_size as int) <= st.tempcount <= 0x400 + 64 * block_size as int,
        decreases block_size - off,
    {
        let stored_tag = read_be32(block, off);
        crc = crc32(crc, &block.as_slice()[off..off + 4]);
        let tag = (stored_tag ^ ptag) & 0x7fff_ffff;
        proof {
            crate::tag::lemma_tag_field_ranges(tag);
        }
        if !lfs_tag_isvalid(tag) {
            break;
        }
        let dsize = lfs_tag_dsize(tag) as usize;
        if off + dsize > block_size {
            break;
        }
        ptag = tag;
        if lfs_tag_type2(tag) as u32 == TYPE_CCRC {
            if off + 8 > block_size {
                break;
            }
            let dcrc_val = read_le32(block, off + 4);
            if crc != dcrc_val {
                break;
            }
            match seed {
                Some(s) => {
                    let b = crate::util::le32_array(dcrc_val);
                    *seed = Some(crc32(*s, &b));
                },
                None => {},
            }
            let chunk_bit: u32 = if (lfs_tag_chunk(tag) & 1) != 0 { 0x8000_0000 } else { 0 };
            ptag = ptag ^ chunk_bit;
            st.last_off = off + dsize;
            st.last_etag = ptag;
            st.last_tail = st.temptail;
            st.last_split = st.tempsplit;
            if st.tempcount < 0 {
                st.tempcount = 0;
            }
            if st.seen_name_or_splice && st.tempcount < st.max_id as i64 + 1 {
                st.tempcount = st.max_id as i64 + 1;
            }
            crc = 0xffff_ffff;
            off = off + dsize;
            continue;
        }
        crc = crc32(crc, &block.as_slice()[off + 4..off + dsize]);
        let t1 = lfs_tag_type1(tag) as u32;
        if t1 == TYPE_NAME {
            let id = lfs_tag_id(tag);
            st.seen_name_or_splice = true;
            if id > st.max_id {
                st.max_id = id;
            }
            if id as i64 >= st.tempcount {
                st.tempcount = id as i64 + 1;
            }
        } else if t1 == TYPE_SPLICE {
            st.seen_name_or_splice = true;
            let id = lfs_tag_id(tag);
            if id > st.max_id {
                st.max_id = id;
            }
            st.tempcount = st.tempcount + lfs_tag_splice(tag) as i64;
        } else if t1 == TYPE_TAIL {
            if off + 12 <= block_size {
                st.tempsplit = (lfs_tag_chunk(tag) & 1) != 0;
                st.temptail = [read_le32(block, off + 4), read_le32(block, off + 8)];
            }
        } else if lfs_tag_type3(tag) as u32 == TYPE_FCRC && dsize >= 12 {
            st.fcrc = Fcrc { size: read_le32(block, off + 4), crc: read_le32(block, off + 8) };
            st.hasfcrc = true;
        }
        off = off + dsize;
    }
    st
}

/// Which block of a pair holds the newer revision: 1 when the second is newer in
/// sequence arithmetic, else 0.
pub open spec fn newer_block(rev0: u32, rev1: u32) -> int {
    let d01 = rev0.wrapping_sub(rev1);
    let d10 = rev1.wrapping_sub(rev0);
    if d01 != 0 && d01 < 0x8000_0000 { 0 } else if d10 != 0 && d10 < 0x8000_0000 { 1 } else { 0 }
}

/// Which block of a pair a fetch uses: the newer one when a commit of it checks, else
/// the other when one of its commits checks, else none (-1).
pub open spec fn fetch_choice(b0: Seq<u8>, b1: Seq<u8>) -> int {
    let first = newer_block(le32_at(b0, 0), le32_at(b1, 0));
    let bf = if first == 0 { b0 } else { b1 };
    let bs = if first == 0 { b1 } else { b0 };
    if scan_log(bf, le32_at(bf, 0)).last_off > 0 {
        first
    } else if scan_log(bs, le32_at(bs, 0)).last_off > 0 {
        1 - first
    } else {
        -1
    }
}

/// The entry count a scan leaves, clamped to 16 bits.
pub open spec fn scan_count(st: ScanState) -> u16 {
    if st.tempcount < 0 { 0 } else if st.tempcount > 0xffff { 0xffff } else { st.tempcount as u16 }
}

/// Whether the space after the log is erased: the log ends on a program unit and, on
/// a disk version with forward CRCs, the recorded forward CRC matches the bytes after
/// it (on older versions alignment alone).
pub open spec fn scan_erased(b: Seq<u8>, st: ScanState, prog_size: u32, dv: u32) -> bool {
    let aligned = (st.last_off as int) % (prog_size as int) == 0;
    if aligned && dv >= 0x0002_0001 && st.hasfcrc && st.fcrc.size <= b.len() && st.last_off <= b.len() - st.fcrc.size {
        crc_seq(0xffff_ffff, b.subrange(st.last_off as int, st.last_off + st.fcrc.size)) == st.fcrc.crc
    } else {
        aligned && dv < 0x0002_0001
    }
}

/// The state a fetch gives from block `b` of the pair `(blk, other)`.
pub open spec fn fetch_state(d: MdDir, b: Seq<u8>, blk: u32, other: u32, prog_size: u32, dv: u32) -> bool {
    let st = scan_log(b, le32_at(b, 0));
    &&& d.pair == [blk, other]
    &&& d.block@ == b
    &&& d.rev == le32_at(b, 0)
    &&& d.off == st.last_off
    &&& d.etag == st.last_etag
    &&& d.count == scan_count(st)
    &&& d.tail == st.last_tail
    &&& d.split == st.last_split
    &&& d.erased == scan_erased(b, st, prog_size, dv)
}

/// Extended fetch: picks the block of the pair with the newer revision, scans its
/// commits and, when none checks, tries the other block. With a seed, the CRCs of the
/// checked commits are folded into it.
pub fn fetch_metadata_pair_ext<B: BlockDevice>(
    ctx: &mut BdContext<B>,
    pair: [u32; 2],
    seed_out: &mut Option<u32>,
    disk_version: Option<u32>,
) -> (r: Result<MdDir, Error>)
    requires
        old(ctx).wf(),
    ensures
        final(ctx).wf(),
        final(ctx).same_view(&*old(ctx)),
        final(ctx).bd == old(ctx).bd,
        final(ctx).pcache == old(ctx).pcache,
        (pair[0] >= old(ctx).config.block_count || pair[1] >= old(ctx).config.block_count) ==> r
            == Err::<MdDir, Error>(Error::Corrupt),
        r is Ok ==> fetched(r->Ok_0, pair, &*old(ctx)),
        ({
            let b0 = old(ctx).logical_range(pair[0], 0, old(ctx).config.block_size as nat);
            let b1 = old(ctx).logical_range(pair[1], 0, old(ctx).config.block_size as nat);
            let dv = match disk_version { Some(v) => v, None => DISK_VERSION };
            &&& fetch_choice(b0, b1) == -1 ==> r is Err
            &&& r is Ok ==> (fetch_choice(b0, b1) == 0 && fetch_state(r->Ok_0, b0, pair[0], pair[1], old(ctx).config.prog_size, dv))
                || (fetch_choice(b0, b1) == 1 && fetch_state(r->Ok_0, b1, pair[1], pair[0], old(ctx).config.prog_size, dv))
        }),
{
    let block_size = ctx.config.block_size as usize;
    if pair[0] >= ctx.config.block_count || pair[1] >= ctx.config.block_count {
        return Err(Error::Corrupt);
    }
    let mut b0: Vec<u8> = vec![0u8; block_size];
    let mut b1: Vec<u8> = vec![0u8; block_size];
    ctx.read(pair[0], 0, b0.as_mut_slice())?;
    ctx.read(pair[1], 0, b1.as_mut_slice())?;
    let dv = match disk_version {
        Some(v) => v,
        None => DISK_VERSION,
    };
    fetch_from_blocks(&b0, &b1, pair, ctx.config.prog_size, dv, seed_out)
}

/// The fetch of a pair from the bytes of its two blocks: the block with the newer
/// revision when one of its commits checks, else the other when one of its commits
/// checks, scanned to the end of its last commit that checks. Corrupt exactly when
/// no commit of either block checks.
pub fn fetch_from_blocks(
    b0: &Vec<u8>,
    b1: &Vec<u8>,
    pair: [u32; 2],
    prog_size: u32,
    dv: u32,
    seed_out: &mut Option<u32>,
) -> (r: Result<MdDir, Error>)
    requires
        b0@.len() == b1@.len(),
        8 <= b0@.len() <= crate::config::BLOCK_SIZE_MAX,
        prog_size > 0,
    ensures
        fetch_choice(b0@, b1@) == -1 <==> r == Err::<MdDir, Error>(Error::Corrupt),
        r is Err ==> r == Err::<MdDir, Error>(Error::Corrupt),
        r is Ok ==> r->Ok_0.wf() && r->Ok_0.off >= 8 && r->Ok_0.block@.len() == b0@.len(),
        r is Ok ==> (fetch_choice(b0@, b1@) == 0 && fetch_state(r->Ok_0, b0@, pair[0], pair[1], prog_size, dv))
            || (fetch_choice(b0@, b1@) == 1 && fetch_state(r->Ok_0, b1@, pair[1], pair[0], prog_size, dv)),
{
    let block_size = b0.len();
    let rev0 = read_le32(&b0, 0);
    let rev1 = read_le32(&b1, 0);
    let d01 = rev0.wrapping_sub(rev1);
    let d10 = rev1.wrapping_sub(rev0);
    let r: usize = if d01 != 0 && d01 < 0x8000_0000 {
        0
    } else if d10 != 0 && d10 < 0x8000_0000 {
        1
    } else {
        0
    };
    let mut attempt: usize = 0;
    while attempt < 2
        invariant
            r < 2,
            b0@.len() == block_size,
            b1@.len() == block_size,
            8 <= block_size <= crate::config::BLOCK_SIZE_MAX,
            prog_size > 0,
            rev0 == le32_at(b0@, 0),
            rev1 == le32_at(b1@, 0),
            r == newer_block(rev0, rev1),
            attempt <= 2,
            attempt >= 1 ==> scan_log(if r == 0 { b0@ } else { b1@ }, if r == 0 { rev0 } else { rev1 }).last_off == 0,
            attempt >= 2 ==> scan_log(if r == 0 { b1@ } else { b0@ }, if r == 0 { rev1 } else { rev0 }).last_off == 0,
        decreases 2 - attempt,
    {
        let r_use = if attempt == 0 { r } else { 1 - r };
        let (block, block_idx, other, dir_rev) = if r_use == 0 {
            (b0, pair[0], pair[1], rev0)
        } else {
            (b1, pair[1], pair[0], rev1)
        };
        let st = scan_block(block, dir_rev, seed_out);
        if st.last_off > 0 {
            let count: u16 = if st.tempcount < 0 {
                0
            } else if st.tempcount > 0xffff {
                0xffff
            } else {
                st.tempcount as u16
            };
            let prog_size = prog_size as usize;
            let last_off = st.last_off;
            let aligned = last_off % prog_size == 0;
            let erased = if aligned && dv >= 0x0002_0001 && st.hasfcrc && st.fcrc.size as usize <= block_size
                && last_off <= block_size - st.fcrc.size as usize {
                let actual = crc32(0xffff_ffff, &block.as_slice()[last_off..last_off + st.fcrc.size as usize]);
                actual == st.fcrc.crc
            } else {
                aligned && dv < 0x0002_0001
            };
            return Ok(MdDir {
                pair: [block_idx, other],
                block: block.clone(),
                rev: dir_rev,
                off: last_off,
                etag: st.last_etag,
                count,
                tail: st.last_tail,
                split: st.last_split,
                erased,
            });
        }
        attempt = attempt + 1;
    }
    Err(Error::Corrupt)
}

/// Where a tag that a backward search returns points: its data lies between the
/// revision and the end of the log.
pub open spec fn found_in(dir: &MdDir, doff: usize, size: u32) -> bool {
    8 <= doff && doff + size <= dir.off && size <= 0x3fe
}

/// The id shift that a backward search carries past `tag`: a splice of an id at or
/// below the searched one (when the mask looks at ids) moves it by the splice's amount.
pub open spec fn splice_shift(tag: u32, gmask: u32, gtag: u32, gdiff: u32) -> u32 {
    let want = gtag.wrapping_sub(gdiff);
    if ((gmask & 0x000f_fc00) >> 10u32) != 0 && ((tag & 0x7000_0000) >> 20u32) == TYPE_SPLICE
        && ((tag & 0x000f_fc00) >> 10u32) <= ((want & 0x000f_fc00) >> 10u32) && ((tag & 0x7ff0_0000) >> 20u32) == TYPE_SPLICE {
        gdiff.wrapping_add((((((tag & 0x0ff0_0000) >> 20u32) as u8) as i8) as i32 as u32) << 10u32)
    } else {
        gdiff
    }
}

/// What a backward search of `block` from log end `off` finds, with `ntag` the tag that
/// ends there and `gdiff` the id shift so far: the newest tag that equals `gtag`
/// (shifted) under `gmask`, with its data offset and size, or None when that tag is
/// the create of the searched id, a delete, or there is none.
pub open spec fn find_back(block: Seq<u8>, off: int, ntag: u32, gdiff: u32, gmask: u32, gtag: u32) -> Option<(u32, usize, u32)>
    decreases off,
{
    let ds = tag_dsize_spec(ntag);
    if off < 4 + ds {
        None
    } else {
        let off2 = off - ds;
        let tag = ntag;
        let ntag2 = (be32_at(block, off2) ^ tag) & 0x7fff_ffff;
        let gdiff2 = splice_shift(tag, gmask, gtag, gdiff);
        let want = gtag.wrapping_sub(gdiff2);
        if (gmask & tag) == (gmask & want) {
            let eff_id = (want & 0x000f_fc00) >> 10u32;
            if tag == ((TYPE_CREATE << 20u32) | (eff_id << 10u32)) || (tag & 0x3ff) == 0x3ff {
                None
            } else {
                Some((tag.wrapping_add(gdiff2), (off2 + 4) as usize, tag & 0x3ff))
            }
        } else {
            find_back(block, off2, ntag2, gdiff2, gmask, gtag)
        }
    }
}

/// The backward search of a whole metadata log for `gtag` under `gmask`.
pub open spec fn lookup(dir: &MdDir, gmask: u32, gtag: u32) -> Option<(u32, usize, u32)> {
    find_back(dir.block@, dir.off as int, dir.etag, 0, gmask, gtag)
}

/// Iterate backward to find the newest tag matching `gtag` under `gmask`. Returns
/// (tag, data_offset, size), or None when the newest match is a delete or the create
/// of the id. Only plain splices (type 0x400) of an id at or below the searched one
/// shift it; creates and deletes do not. Splices at or below the searched id shift it.
pub fn get_tag_backwards(dir: &MdDir, gmask: u32, gtag: u32) -> (r: Result<Option<(u32, usize, u32)>, Error>)
    requires
        dir.wf(),
    ensures
        r == Ok::<Option<(u32, usize, u32)>, Error>(lookup(dir, gmask, gtag)),
        r matches Ok(Some((t, doff, sz))) ==> found_in(dir, doff, sz),
{
    let block = &dir.block;
    let mut off: usize = dir.off;
    let mut ntag: u32 = dir.etag;
    let mut gdiff: u32 = 0;
    loop
        invariant
            dir.wf(),
            block@ == dir.block@,
            off <= dir.off,
            find_back(block@, off as int, ntag, gdiff, gmask, gtag) == lookup(dir, gmask, gtag),
        ensures
            lookup(dir, gmask, gtag) is None,
        decreases off,
    {
        let ds = lfs_tag_dsize(ntag) as usize;
        if off < 4 + ds {
            break;
        }
        off = off - ds;
        let tag = ntag;
        let stored = read_be32(block, off);
        ntag = (stored ^ tag) & 0x7fff_ffff;
        let want = gtag.wrapping_sub(gdiff);
        if lfs_tag_id(gmask) != 0 && lfs_tag_type1(tag) as u32 == TYPE_SPLICE && lfs_tag_id(tag) <= lfs_tag_id(want) {
            if lfs_tag_type3(tag) as u32 == TYPE_SPLICE {
                let sp = lfs_tag_splice(tag) as i32;
                gdiff = gdiff.wrapping_add((sp as u32) << 10u32);
            }
        }
        let want = gtag.wrapping_sub(gdiff);
        if (gmask & tag) == (gmask & want) {
            let eff_id = lfs_tag_id(want) as u32;
            if tag == ((TYPE_CREATE << 20u32) | (eff_id << 10u32)) {
                return Ok(None);
            }
            if lfs_tag_isdelete(tag) {
                return Ok(None);
            }
            proof {
                crate::tag::lemma_tag_field_ranges(tag);
            }
            return Ok(Some((tag.wrapping_add(gdiff), off + 4, lfs_tag_size(tag))));
        }
    }
    Ok(None)
}

/// Copy up to 255 bytes of `block` from `off` (stopping at `len`) into a NUL-padded
/// name buffer.
fn name_bytes_at(block: &Vec<u8>, off: usize, len: usize) -> (r: Vec<u8>)
    requires
        off + len <= block@.len(),
    ensures
        r@ == block@.subrange(off as int, off + (if len < 255 { len } else { 255 })),
{
    let n = if len < 255 { len } else { 255 };
    let _l = block.len();
    let s = block.as_slice();
    let sub = &s[off..off + n];
    let mut v: Vec<u8> = Vec::new();
    let mut i: usize = 0;
    while i < n
        invariant
            i <= n,
            off + n <= block@.len(),
            sub@ == block@.subrange(off as int, off + n),
            v@ == sub@.subrange(0, i as int),
        decreases n - i,
    {
        v.push(sub[i]);
        proof {
            assert(sub@.subrange(0, i + 1) =~= sub@.subrange(0, i as int).push(sub@[i as int]));
        }
        i = i + 1;
    }
    proof {
        assert(sub@.subrange(0, n as int) =~= sub@);
    }
    v
}

/// What `Info::set_name` keeps of `b`: its first 255 bytes, up to any NUL.
pub open spec fn name255(b: Seq<u8>) -> Seq<u8> {
    crate::info::name_prefix(b.subrange(0, if b.len() < 255 { b.len() as int } else { 255 }))
}

/// The file type a name tag's type3 gives.
pub open spec fn type_of_type3(t3: u32) -> Option<FileType> {
    if t3 == 1 { Some(FileType::Reg) } else if t3 == 2 { Some(FileType::Dir) } else { None }
}

/// The size that an entry's struct tag at `soff` gives: a CTZ file's size word, an
/// inline file's data size, 0 for a directory.
pub open spec fn struct_size_of(dir: &MdDir, stag: u32, soff: usize) -> Result<u32, Error> {
    let t3 = (stag & 0x7ff0_0000) >> 20u32;
    if t3 == TYPE_CTZSTRUCT {
        if soff + 8 > dir.block@.len() { Err(Error::Corrupt) } else { Ok(le32_at(dir.block@, soff + 4)) }
    } else if t3 == TYPE_INLINESTRUCT {
        Ok(stag & 0x3ff)
    } else {
        Ok(0)
    }
}

/// What the entry info of `id` is, as (type, size, name): see `get_entry_info`.
pub open spec fn entry_info_spec(dir: &MdDir, id: u16, name_max: u32) -> Result<(FileType, u32, Seq<u8>), Error> {
    if id == 0x3ff {
        Ok((FileType::Dir, 0u32, seq![0x2fu8]))
    } else if lookup(dir, 0x7ff0_fc00, (TYPE_DELETE << 20u32) | ((id as u32) << 10u32)) is Some {
        Err(Error::Noent)
    } else {
        match lookup(dir, 0x780f_fc00, (TYPE_NAME << 20u32) | ((id as u32) << 10u32) | name_max.wrapping_add(1)) {
            None => if id == 0 {
                match lookup(dir, 0x7ff0_fc00, (TYPE_SUPERBLOCK << 20u32) | 8) {
                    None => Err(Error::Noent),
                    Some((st, soff, ssz)) => if (st & 0x7ff0_0000) >> 20u32 != TYPE_SUPERBLOCK || ssz != 8 {
                        Err(Error::Corrupt)
                    } else {
                        Ok((FileType::Dir, 0u32, name255(dir.block@.subrange(soff as int, soff + 8))))
                    },
                }
            } else {
                Err(Error::Noent)
            },
            Some((nt, noff, nsz)) => {
                let limit = if name_max + 1 < nsz { name_max + 1 } else { nsz as int };
                let nm = dir.block@.subrange(noff as int, noff + (if limit < 255 { limit } else { 255 }));
                match type_of_type3((nt & 0x7ff0_0000) >> 20u32) {
                    None => Err(Error::Corrupt),
                    Some(typ) => match lookup(dir, 0x700f_fc00, struct_gtag(id)) {
                        None => Err(Error::Noent),
                        Some((stag, soff, _ssz)) => match struct_size_of(dir, stag, soff) {
                            Err(e) => Err(e),
                            Ok(size) => Ok((typ, size, name255(nm))),
                        },
                    },
                }
            },
        }
    }
}

/// Get entry info for id: type and name from the NAME tag (the superblock's magic for
/// the root entry 0), size from the STRUCT tag. Deleted ids give Noent. The root
/// (id 0x3ff) is the directory "/".
pub fn get_entry_info(dir: &MdDir, id: u16, name_max: u32) -> (r: Result<Info, Error>)
    requires
        dir.wf(),
    ensures
        match entry_info_spec(dir, id, name_max) {
            Ok((typ, size, name)) => r is Ok && r->Ok_0.typ == typ && r->Ok_0.size == size
                && r->Ok_0.name_view() == name,
            Err(e) => r == Err::<Info, Error>(e),
        },
        r is Ok ==> r->Ok_0.name_view().len() <= 255,
{
    if id == 0x3ff {
        let mut info = Info::new(FileType::Dir, 0);
        let slash = [0x2fu8];
        info.set_name(&slash);
        proof {
            assert(slash@.subrange(0, 1) =~= seq![0x2fu8]);
            assert(crate::info::first_nul(seq![0x2fu8], 1) == 1);
            assert(crate::info::first_nul(seq![0x2fu8], 0) == 1);
            assert(seq![0x2fu8].subrange(0, 1) =~= seq![0x2fu8]);
        }
        return Ok(info);
    }
    let delete_gtag = (TYPE_DELETE << 20u32) | ((id as u32) << 10u32);
    match get_tag_backwards(dir, 0x7ff0_fc00, delete_gtag)? {
        Some(_) => {
            return Err(Error::Noent);
        },
        None => {},
    }
    let gmask: u32 = 0x780f_fc00;
    let name_gtag = (TYPE_NAME << 20u32) | ((id as u32) << 10u32) | (name_max.wrapping_add(1));
    let name_result = get_tag_backwards(dir, gmask, name_gtag)?;
    let (name_tag, name_off, name_tag_size) = match name_result {
        Some(x) => x,
        None => {
            if id == 0 {
                let sb_gtag = (TYPE_SUPERBLOCK << 20u32) | 8;
                let (sb_tag, sb_off, sb_size) = match get_tag_backwards(dir, 0x7ff0_fc00, sb_gtag)? {
                    Some(x) => x,
                    None => {
                        return Err(Error::Noent);
                    },
                };
                if lfs_tag_type3(sb_tag) as u32 != TYPE_SUPERBLOCK || sb_size != 8 {
                    return Err(Error::Corrupt);
                }
                let nm = name_bytes_at(&dir.block, sb_off, 8);
                let mut info = Info::new(FileType::Dir, 0);
                info.set_name(nm.as_slice());
                proof {
                    crate::info::lemma_name_prefix_len(nm@);
                }
                return Ok(info);
            }
            return Err(Error::Noent);
        },
    };
    let limit: usize = if (name_max as u64) + 1 < name_tag_size as u64 { name_max as usize + 1 } else { name_tag_size as usize };
    let nm = name_bytes_at(&dir.block, name_off, limit);
    let typ = match FileType::from_type3(lfs_tag_type3(name_tag) as u32) {
        Some(t) => t,
        None => {
            return Err(Error::Corrupt);
        },
    };
    let struct_gtag = (TYPE_STRUCT << 20u32) | ((id as u32) << 10u32) | 8;
    let (struct_tag, struct_off, _) = match get_tag_backwards(dir, 0x700f_fc00, struct_gtag)? {
        Some(x) => x,
        None => {
            return Err(Error::Noent);
        },
    };
    let t3 = lfs_tag_type3(struct_tag) as u32;
    let size = if t3 == TYPE_CTZSTRUCT {
        if struct_off + 8 > dir.block.len() {
            return Err(Error::Corrupt);
        }
        read_le32(&dir.block, struct_off + 4)
    } else if t3 == TYPE_INLINESTRUCT {
        lfs_tag_size(struct_tag)
    } else {
        0
    };
    let mut info = Info::new(typ, size);
    info.set_name(nm.as_slice());
    proof {
        crate::info::lemma_name_prefix_len(nm@);
    }
    Ok(info)
}

/// Try to read the superblock from an already-fetched metadata dir: the 24-byte
/// INLINESTRUCT of id 0. Only the root pair {0, 1} holds it.
pub fn get_superblock_from_dir(dir: &MdDir) -> (r: Option<Superblock>)
    requires
        dir.wf(),
    ensures
        (dir.pair[0] > 1 && dir.pair[1] > 1) ==> r is None,
        r is Some ==> exists|off: int| 8 <= off && off + 24 <= dir.off && r->Some_0 == #[trigger] superblock_at(dir.block@, off),
        !(dir.pair[0] > 1 && dir.pair[1] > 1) ==> r == match lookup(dir, 0x7ff0_fc00, (TYPE_INLINESTRUCT << 20u32) | 24) {
            Some((t, off, size)) => if size == 24 && off + 24 <= dir.block@.len() {
                Some(superblock_at(dir.block@, off as int))
            } else {
                None::<Superblock>
            },
            None => None::<Superblock>,
        },
{
    if dir.pair[0] > 1 && dir.pair[1] > 1 {
        return None;
    }
    let gtag = (TYPE_INLINESTRUCT << 20u32) | SUPERBLOCK_SIZE as u32;
    let found = match get_tag_backwards(dir, 0x7ff0_fc00, gtag) {
        Ok(Some(x)) => x,
        _ => {
            return None;
        },
    };
    let (_, off, size) = found;
    if size != SUPERBLOCK_SIZE as u32 {
        return None;
    }
    if off + SUPERBLOCK_SIZE > dir.block.len() {
        return None;
    }
    Some(Superblock::decode(dir.block.as_slice(), off))
}

/// Read the superblock from the root metadata pair.
pub fn read_superblock<B: BlockDevice>(ctx: &mut BdContext<B>, root: [u32; 2]) -> (r: Result<Superblock, Error>)
    requires
        old(ctx).wf(),
    ensures
        final(ctx).wf(),
        final(ctx).same_view(&*old(ctx)),
        final(ctx).bd == old(ctx).bd,
        (root[0] >= old(ctx).config.block_count || root[1] >= old(ctx).config.block_count) ==> r is Err,
        r is Ok ==> exists|d: MdDir, off: int| fetched(d, root, &*old(ctx)) && 8 <= off && off + 24 <= d.off
            && r->Ok_0 == #[trigger] superblock_at(d.block@, off),
{
    let dir = fetch_metadata_pair(ctx, root)?;
    let gtag = (TYPE_INLINESTRUCT << 20u32) | SUPERBLOCK_SIZE as u32;
    let (_, off, _) = match get_tag_backwards(&dir, 0x7ff0_fc00, gtag)? {
        Some(x) => x,
        None => {
            return Err(Error::Corrupt);
        },
    };
    if off + SUPERBLOCK_SIZE > dir.off {
        return Err(Error::Corrupt);
    }
    Ok(Superblock::decode(dir.block.as_slice(), off))
}

/// Marker of an inline file's head block (the block number 0xffff_fffe).
pub const BLOCK_INLINE: u32 = 0xffff_fffe;

/// What resolving the file struct of `id` gives: from the newest struct tag of the id,
/// an inline file (head BLOCK_INLINE, the data size) or a CTZ file (head and size
/// from its 8 bytes); Noent for no struct or another struct type, Corrupt for a CTZ
/// struct that is not 8 bytes inside the block.
pub open spec fn file_struct_spec(dir: &MdDir, id: u16) -> Result<(bool, u32, u64), Error> {
    match lookup(dir, 0x700f_fc00, (TYPE_STRUCT << 20u32) | ((id as u32) << 10u32)) {
        None => Err(Error::Noent),
        Some((t, off, sz)) => {
            let t3 = (t & 0x7ff0_0000) >> 20u32;
            if t3 == TYPE_INLINESTRUCT {
                Ok((true, BLOCK_INLINE, sz as u64))
            } else if t3 == TYPE_CTZSTRUCT {
                if sz != 8 || off + 8 > dir.block@.len() {
                    Err(Error::Corrupt)
                } else {
                    Ok((false, le32_at(dir.block@, off as int), le32_at(dir.block@, off + 4) as u64))
                }
            } else {
                Err(Error::Noent)
            }
        },
    }
}

/// Resolve the file struct of a regular file: (is_inline, head_block, size). For an
/// inline file the head is BLOCK_INLINE and the size is the inline data size.
pub fn get_file_struct(dir: &MdDir, id: u16) -> (r: Result<(bool, u32, u64), Error>)
    requires
        dir.wf(),
    ensures
        r == file_struct_spec(dir, id),
        r matches Ok((inl, head, size)) ==> (inl ==> size <= 0x3fe),
{
    let gtag = (TYPE_STRUCT << 20u32) | ((id as u32) << 10u32);
    let (struct_tag, struct_off, struct_size) = match get_tag_backwards(dir, 0x700f_fc00, gtag)? {
        Some(x) => x,
        None => {
            return Err(Error::Noent);
        },
    };
    let type3 = lfs_tag_type3(struct_tag) as u32;
    if type3 == TYPE_INLINESTRUCT {
        return Ok((true, BLOCK_INLINE, struct_size as u64));
    }
    if type3 == TYPE_CTZSTRUCT {
        if struct_size != 8 || struct_off + 8 > dir.block.len() {
            return Err(Error::Corrupt);
        }
        let head = read_le32(&dir.block, struct_off);
        let size = read_le32(&dir.block, struct_off + 4);
        return Ok((false, head, size as u64));
    }
    Err(Error::Noent)
}

/// `[doff, doff + dsize)` is a span of tag data inside the log of `dir`.
pub open spec fn data_span(dir: &MdDir, doff: int, dsize: int) -> bool {
    8 <= doff && 0 <= dsize && doff + dsize <= dir.off
}

/// How many bytes a read of `len` bytes at `offset` of `dsize` bytes of data gives.
pub open spec fn slice_len(offset: int, len: int, dsize: int) -> int {
    if offset >= dsize { 0 } else if len < dsize - offset { len } else { dsize - offset }
}

/// Read a slice of inline file data: up to `buffer.len()` bytes from `offset` of the
/// newest INLINESTRUCT of `id` (Noent when there is none). Returns the bytes read;
/// the rest of the buffer is left as it was.
pub fn get_inline_slice(dir: &MdDir, id: u16, offset: usize, buffer: &mut [u8]) -> (r: Result<usize, Error>)
    requires
        dir.wf(),
    ensures
        final(buffer)@.len() == old(buffer)@.len(),
        match lookup(dir, 0x7ff0_fc00, (TYPE_INLINESTRUCT << 20u32) | ((id as u32) << 10u32)) {
            None => r == Err::<usize, Error>(Error::Noent) && final(buffer)@ == old(buffer)@,
            Some((t, doff, dsize)) => {
                &&& r is Ok
                &&& r->Ok_0 == slice_len(offset as int, old(buffer)@.len() as int, dsize as int)
                &&& data_span(dir, doff as int, dsize as int)
                &&& r->Ok_0 > 0 ==> final(buffer)@.subrange(0, r->Ok_0 as int) == dir.block@.subrange(doff + offset, doff + offset + r->Ok_0)
                &&& final(buffer)@.subrange(r->Ok_0 as int, old(buffer)@.len() as int)
                    == old(buffer)@.subrange(r->Ok_0 as int, old(buffer)@.len() as int)
            },
        },
{
    let gtag = (TYPE_INLINESTRUCT << 20u32) | ((id as u32) << 10u32);
    let (_, data_off, size) = match get_tag_backwards(dir, 0x7ff0_fc00, gtag)? {
        Some(x) => x,
        None => {
            return Err(Error::Noent);
        },
    };
    let data_size = size as usize;
    assert(data_span(dir, data_off as int, data_size as int));
    if offset >= data_size {
        assert(buffer@.subrange(0, buffer@.len() as int) =~= buffer@);
        return Ok(0);
    }
    let avail = data_size - offset;
    let to_read = if buffer.len() < avail { buffer.len() } else { avail };
    let ghost before = buffer@;
    crate::bdcache::copy_slice(buffer, 0, dir.block.as_slice(), data_off + offset, to_read);
    proof {
        assert(buffer@.subrange(0, to_read as int) =~= dir.block@.subrange(data_off + offset, data_off + offset + to_read));
        assert(buffer@.subrange(to_read as int, buffer@.len() as int) =~= before.subrange(to_read as int, before.len() as int));
    }
    Ok(to_read)
}

/// Callback result of a tag traversal: continue or stop.
#[derive(Clone, Copy, PartialEq, Eq, Structural)]
pub enum TraverseAction {
    Continue,
    Stop,
}

/// A tag met by a forward traversal: the tag (with its id remapped) and where its
/// data lies in the block.
#[derive(Clone, Copy)]
pub struct TagEntry {
    pub tag: u32,
    pub off: usize,
    pub size: usize,
}

/// Bytes that the entries take on disk: four per tag plus the data.
pub open spec fn entries_size(es: Seq<TagEntry>) -> int
    decreases es.len(),
{
    if es.len() == 0 { 0 } else { entries_size(es.drop_last()) + 4 + es.last().size }
}

/// The id a traversal gives a tag of id `id` moved by `diff`, clamped to [0, 0x3ff].
pub open spec fn moved_id(id: u32, diff: i32) -> u32 {
    let m = id as int + diff as int;
    if m < 0 { 0 } else if m > 0x3ff { 0x3ff } else { m as u32 }
}

/// The entries that a forward scan of `block` from `off`, with `ptag` the previous tag,
/// keeps: the tags of ids in `[begin, end)`, in log order, each with its id moved by
/// `diff`; CRC and splice tags are passed over, and the scan ends at the first tag whose
/// data would run past the block.
pub open spec fn scan_tags(block: Seq<u8>, limit: int, off: int, ptag: u32, begin: u16, end: u16, diff: i32) -> Seq<TagEntry>
    decreases limit - off,
{
    if off < 0 || off + 4 > limit {
        Seq::empty()
    } else {
        let tag = (be32_at(block, off) ^ ptag) & 0x7fff_ffff;
        let dsize = tag_dsize_spec(tag);
        if (tag & 0x8000_0000) != 0 || off + dsize > limit {
            Seq::empty()
        } else {
            let rest = scan_tags(block, limit, off + dsize, tag, begin, end, diff);
            let id = (tag & 0x000f_fc00) >> 10u32;
            if ((tag & 0x7800_0000) >> 20u32) == TYPE_CCRC || ((tag & 0x7000_0000) >> 20u32) == TYPE_SPLICE {
                rest
            } else if begin < end && begin <= id < end {
                seq![TagEntry { tag: (tag & 0xfff0_03ff) | (moved_id(id, diff) << 10u32), off: (off + 4) as usize, size: (dsize - 4) as usize }] + rest
            } else {
                rest
            }
        }
    }
}

/// Iterate the committed tags of a metadata block (those before the log end,
/// `dir.off`) forward, keeping those whose id is in `[begin, end)` (none when begin >= end). The id of each kept tag moves by `diff`
/// (clamped to [0, 0x3ff]). CRC and splice tags are skipped. The tags are returned
/// in log order for the caller to visit.
pub fn dir_traverse_tags(dir: &MdDir, begin: u16, end: u16, diff: i32) -> (r: Result<Vec<TagEntry>, Error>)
    requires
        dir.wf(),
    ensures
        r is Ok,
        r matches Ok(es) ==> es@ == scan_tags(dir.block@, dir.off as int, 4, 0xffff_ffff, begin, end, diff),
        r matches Ok(es) ==> forall|i: int| 0 <= i < es@.len() ==> #[trigger] es@[i].off + es@[i].size <= dir.block@.len()
            && es@[i].size <= 0x3fe && es@[i].off >= 8,
        begin >= end ==> (r matches Ok(es) && es@.len() == 0),
        r matches Ok(es) ==> entries_size(es@) <= dir.block@.len(),
{
    let block = &dir.block;
    let block_size = dir.off;
    let mut out: Vec<TagEntry> = Vec::new();
    let mut off: usize = 4;
    let mut ptag: u32 = 0xffff_ffff;
    while off + 4 <= block_size
        invariant
            block_size == dir.off,
            block_size <= block@.len(),
            block@ == dir.block@,
            dir.wf(),
            4 <= off <= block_size,
            entries_size(out@) <= off - 4,
            forall|i: int| 0 <= i < out@.len() ==> #[trigger] out@[i].off + out@[i].size <= block_size
                && out@[i].size <= 0x3fe && out@[i].off >= 8,
            begin >= end ==> out@.len() == 0,
            out@ + scan_tags(block@, block_size as int, off as int, ptag, begin, end, diff) == scan_tags(block@, block_size as int, 4, 0xffff_ffff, begin, end, diff),
        ensures
            out@ == scan_tags(block@, block_size as int, 4, 0xffff_ffff, begin, end, diff),
            entries_size(out@) <= block_size,
            forall|i: int| 0 <= i < out@.len() ==> #[trigger] out@[i].off + out@[i].size <= block_size
                && out@[i].size <= 0x3fe && out@[i].off >= 8,
            begin >= end ==> out@.len() == 0,
        decreases block_size - off,
    {
        let stored_tag = read_be32(block, off);
        let tag = (stored_tag ^ ptag) & 0x7fff_ffff;
        if !lfs_tag_isvalid(tag) {
            proof {
                assert(out@ + Seq::<TagEntry>::empty() =~= out@);
            }
            break;
        }
        let dsize = lfs_tag_dsize(tag) as usize;
        if off + dsize > block_size {
            proof {
                assert(out@ + Seq::<TagEntry>::empty() =~= out@);
            }
            break;
        }
        ptag = tag;
        if lfs_tag_type2(tag) as u32 == TYPE_CCRC || lfs_tag_type1(tag) as u32 == TYPE_SPLICE {
            off = off + dsize;
            continue;
        }
        let id = lfs_tag_id(tag);
        let id_in_range = begin < end && id >= begin && id < end;
        if !id_in_range {
            off = off + dsize;
            continue;
        }
        let moved: i64 = id as i64 + diff as i64;
        let out_id: u32 = if moved < 0 { 0 } else if moved > 0x3ff { 0x3ff } else { moved as u32 };
        let out_tag = (tag & 0xfff0_03ff) | (out_id << 10u32);
        let ghost pre = out@;
        let ent = TagEntry { tag: out_tag, off: off + 4, size: dsize - 4 };
        let ghost e = ent;
        out.push(ent);
        proof {
            assert(out@.drop_last() =~= pre);
            assert(out_id == moved_id(id as u32, diff));
            let rest = scan_tags(block@, block_size as int, off + dsize, tag, begin, end, diff);
            assert(pre + (seq![e] + rest) =~= out@ + rest);
        }
        off = off + dsize;
    }
    proof {
        if off + 4 > block_size {
            assert(out@ + Seq::<TagEntry>::empty() =~= out@);
        }
    }
    Ok(out)
}

/// The entries of a prefix take no more bytes than all of them.
proof fn lemma_entries_size_prefix(es: Seq<TagEntry>, i: int)
    requires
        0 <= i <= es.len(),
    ensures
        0 <= entries_size(es.subrange(0, i)) <= entries_size(es),
    decreases es.len() - i,
{
    if i < es.len() {
        lemma_entries_size_prefix(es, i + 1);
        assert(es.subrange(0, i + 1).drop_last() =~= es.subrange(0, i));
    } else {
        assert(es.subrange(0, i) =~= es);
    }
    lemma_entries_size_nonneg(es.subrange(0, i));
}

proof fn lemma_entries_size_nonneg(es: Seq<TagEntry>)
    ensures
        entries_size(es) >= 0,
    decreases es.len(),
{
    if es.len() > 0 {
        lemma_entries_size_nonneg(es.drop_last());
    }
}

/// Byte size of the tags of ids in `[begin, end)`: four bytes per tag plus its data.
pub fn dir_traverse_size(dir: &MdDir, begin: u16, end: u16) -> (r: Result<usize, Error>)
    requires
        dir.wf(),
    ensures
        r is Ok,
        r is Ok ==> r->Ok_0 <= dir.block@.len(),
        r is Ok ==> r->Ok_0 == entries_size(scan_tags(dir.block@, dir.off as int, 4, 0xffff_ffff, begin, end, 0)),
        begin >= end ==> r == Ok::<usize, Error>(0),
{
    let es = match dir_traverse_tags(dir, begin, end, 0) {
        Ok(es) => es,
        Err(e) => {
            return Err(e);
        },
    };
    let mut size: usize = 0;
    let mut i: usize = 0;
    while i < es.len()
        invariant
            i <= es@.len(),
            size == entries_size(es@.subrange(0, i as int)),
            entries_size(es@) <= dir.block@.len(),
            dir.block@.len() <= crate::config::BLOCK_SIZE_MAX,
            begin >= end ==> es@.len() == 0,
        decreases es@.len() - i,
    {
        proof {
            lemma_entries_size_prefix(es@, i + 1);
            assert(es@.subrange(0, i + 1).drop_last() =~= es@.subrange(0, i as int));
        }
        size = size + 4 + es[i].size;
        i = i + 1;
    }
    proof {
        assert(es@.subrange(0, i as int) =~= es@);
    }
    Ok(size)
}

/// The tag a struct search for `id` asks for: any struct type, size 8.
pub open spec fn struct_gtag(id: u16) -> u32 {
    (TYPE_STRUCT << 20u32) | ((id as u32) << 10u32) | 8
}

/// Get the 8-byte struct data (e.g. a directory's pair) of an id: the data of the
/// newest struct tag of the id, Noent when there is none, Corrupt when its data
/// would run past the log.
pub fn get_struct(dir: &MdDir, id: u16) -> (r: Result<[u8; 8], Error>)
    requires
        dir.wf(),
    ensures
        match lookup(dir, 0x700f_fc00, struct_gtag(id)) {
            None => r == Err::<[u8; 8], Error>(Error::Noent),
            Some((t, off, sz)) => if off + 8 > dir.off {
                r == Err::<[u8; 8], Error>(Error::Corrupt)
            } else {
                r is Ok && r->Ok_0@ == dir.block@.subrange(off as int, off + 8)
            },
        },
{
    let gtag = (TYPE_STRUCT << 20u32) | ((id as u32) << 10u32) | 8;
    let (_, off, _) = match get_tag_backwards(dir, 0x700f_fc00, gtag)? {
        Some(x) => x,
        None => {
            return Err(Error::Noent);
        },
    };
    if off + 8 > dir.off {
        return Err(Error::Corrupt);
    }
    let b = &dir.block;
    let out = [b[off], b[off + 1], b[off + 2], b[off + 3], b[off + 4], b[off + 5], b[off + 6], b[off + 7]];
    assert(out@ =~= dir.block@.subrange(off as int, off + 8));
    Ok(out)
}

} // verus!
