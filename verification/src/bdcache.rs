//! Block device caching layer: one read cache and one program cache
//! lfs_bd_read, lfs_bd_prog, lfs_bd_flush and lfs_bd_sync use them.
use vstd::prelude::*;
use crate::block::BlockDevice;
use crate::config::Config;
use crate::crc::{crc32, crc_seq, lemma_crc_concat};
use crate::error::Error;
use crate::util::{aligndown, alignup, lemma_multiple_ge, lemma_multiple_below, lemma_multiple_sub_add, lemma_multiple_trans, lemma_alignup_multiple};

verus! {

/// Invalid cache block (the all-ones block number).
pub const BLOCK_NULL: u32 = 0xffff_ffff;

/// The byte a device returns at offset `o` of `block`.
pub open spec fn dev_byte<B: BlockDevice>(bd: &B, block: u32, o: int) -> u8 {
    bd.spec_read(block, o, 1)[0]
}

/// Byte `i` of a read of `n` bytes is the byte at `o + i`.
pub proof fn lemma_spec_read_index<B: BlockDevice>(bd: &B, block: u32, o: int, n: nat, i: int)
    requires
        0 <= i < n,
    ensures
        bd.spec_read(block, o, n).len() == n,
        bd.spec_read(block, o, n)[i] == dev_byte(bd, block, o + i),
{
    bd.lemma_spec_read_len(block, o, n);
    bd.lemma_spec_read_split(block, o, n, i as nat);
    bd.lemma_spec_read_len(block, o, i as nat);
    bd.lemma_spec_read_split(block, o + i, (n - i) as nat, 1);
    bd.lemma_spec_read_len(block, o + i, 1);
}

/// Read cache.
pub struct ReadCache {
    pub block: u32,
    pub off: u32,
    pub size: u32,
    pub buffer: Vec<u8>,
}

/// Program cache.
pub struct ProgCache {
    pub block: u32,
    pub off: u32,
    pub size: u32,
    pub buffer: Vec<u8>,
}

impl ReadCache {
    /// The cached range lies in one block and in the buffer.
    pub open spec fn wf(&self, config: &Config) -> bool {
        &&& self.size <= self.buffer@.len()
        &&& self.block != BLOCK_NULL ==> self.off + self.size <= config.block_size
    }

    /// The cached bytes are what the device holds.
    pub open spec fn coherent<B: BlockDevice>(&self, bd: &B) -> bool {
        self.block != BLOCK_NULL ==> forall|i: int|
            0 <= i < self.size ==> #[trigger] self.buffer@[i] == dev_byte(bd, self.block, self.off + i)
    }

    /// True if the cache holds byte `o` of `block`.
    pub open spec fn covers(&self, block: u32, o: int) -> bool {
        self.block == block && self.off <= o < self.off + self.size
    }
}

impl ProgCache {
    /// The buffer is one cache line long and the pending bytes fit in it.
    pub open spec fn wf(&self, config: &Config) -> bool {
        &&& self.buffer@.len() == config.cache_size
        &&& self.size <= config.cache_size
        &&& self.block != BLOCK_NULL ==> {
            &&& self.off < config.block_size
            &&& self.off % config.prog_size == 0
            &&& self.size == (if config.cache_size < config.block_size - self.off {
                config.cache_size
            } else {
                (config.block_size - self.off) as u32
            })
        }
    }

    /// True if the pending data covers byte `o` of `block`.
    pub open spec fn covers(&self, block: u32, o: int) -> bool {
        self.block != BLOCK_NULL && self.block == block && self.off <= o < self.off + self.size
    }
}

/// The byte that a read of offset `o` of `block` owes: the pending program data where
/// the program cache covers it, else what the device holds.
pub open spec fn logical_byte<B: BlockDevice>(bd: &B, pcache: &ProgCache, block: u32, o: int) -> u8 {
    if pcache.covers(block, o) {
        pcache.buffer@[o - pcache.off]
    } else {
        dev_byte(bd, block, o)
    }
}

/// The bytes that a read of `len` bytes of `block` from `off` owes.
pub open spec fn logical_read<B: BlockDevice>(bd: &B, pcache: &ProgCache, block: u32, off: int, len: nat) -> Seq<u8> {
    Seq::new(len, |i: int| logical_byte(bd, pcache, block, off + i))
}

/// Copy `n` bytes of `src` from `spos` into `dst` from `dpos`.
pub fn copy_slice(dst: &mut [u8], dpos: usize, src: &[u8], spos: usize, n: usize)
    requires
        dpos + n <= old(dst)@.len(),
        spos + n <= src@.len(),
    ensures
        final(dst)@.len() == old(dst)@.len(),
        forall|j: int| 0 <= j < final(dst)@.len() ==> #[trigger] final(dst)@[j] == (if dpos <= j < dpos + n {
            src@[spos + j - dpos]
        } else {
            old(dst)@[j]
        }),
{
    let _dl = dst.len();
    let _sl = src.len();
    let mut i: usize = 0;
    while i < n
        invariant
            dst@.len() <= usize::MAX,
            src@.len() <= usize::MAX,
            dpos + n <= dst@.len(),
            spos + n <= src@.len(),
            dst@.len() == old(dst)@.len(),
            i <= n,
            forall|j: int| 0 <= j < dst@.len() ==> #[trigger] dst@[j] == (if dpos <= j < dpos + i {
                src@[spos + j - dpos]
            } else {
                old(dst)@[j]
            }),
        decreases n - i,
    {
        dst[dpos + i] = src[spos + i];
        i = i + 1;
    }
}

/// Create a read cache for the given config: one cache line of 0xff, holding nothing.
/// Refused when the cache size is zero, not a multiple of the read and prog sizes, or
/// not a factor of the block size.
pub fn new_read_cache(config: &Config) -> (r: Result<ReadCache, Error>)
    ensures
        (config.cache_size == 0 || config.read_size == 0 || config.prog_size == 0
            || config.cache_size % config.read_size != 0 || config.cache_size % config.prog_size != 0
            || config.block_size % config.cache_size != 0) ==> r == Err::<ReadCache, Error>(Error::Inval),
        r is Ok ==> r->Ok_0.block == BLOCK_NULL && r->Ok_0.size == 0 && r->Ok_0.off == 0
            && r->Ok_0.buffer@.len() == config.cache_size && r->Ok_0.wf(config),
        !(config.cache_size == 0 || config.read_size == 0 || config.prog_size == 0
            || config.cache_size % config.read_size != 0 || config.cache_size % config.prog_size != 0
            || config.block_size % config.cache_size != 0) ==> r is Ok,
{
    let cache_size = config.cache_size;
    if cache_size == 0 || config.read_size == 0 || config.prog_size == 0 || cache_size % config.read_size != 0
        || cache_size % config.prog_size != 0 || config.block_size % cache_size != 0 {
        return Err(Error::Inval);
    }
    Ok(ReadCache { block: BLOCK_NULL, off: 0, size: 0, buffer: vec![0xffu8; cache_size as usize] })
}

/// Create a program cache for the given config: one cache line of 0xff, holding nothing.
/// Refused on the same geometry as `new_read_cache`.
pub fn new_prog_cache(config: &Config) -> (r: Result<ProgCache, Error>)
    ensures
        (config.cache_size == 0 || config.read_size == 0 || config.prog_size == 0
            || config.cache_size % config.read_size != 0 || config.cache_size % config.prog_size != 0
            || config.block_size % config.cache_size != 0) ==> r == Err::<ProgCache, Error>(Error::Inval),
        r is Ok ==> r->Ok_0.block == BLOCK_NULL && r->Ok_0.size == 0 && r->Ok_0.off == 0
            && r->Ok_0.wf(config) && (forall|i: int| 0 <= i < r->Ok_0.buffer@.len() ==> r->Ok_0.buffer@[i] == 0xff),
        !(config.cache_size == 0 || config.read_size == 0 || config.prog_size == 0
            || config.cache_size % config.read_size != 0 || config.cache_size % config.prog_size != 0
            || config.block_size % config.cache_size != 0) ==> r is Ok,
{
    let cache_size = config.cache_size;
    if cache_size == 0 || config.read_size == 0 || config.prog_size == 0 || cache_size % config.read_size != 0
        || cache_size % config.prog_size != 0 || config.block_size % cache_size != 0 {
        return Err(Error::Inval);
    }
    let buffer: Vec<u8> = vec![0xffu8; cache_size as usize];
    proof {
        assert forall|i: int| 0 <= i < buffer@.len() implies buffer@[i] == 0xff by {
        }
    }
    Ok(ProgCache { block: BLOCK_NULL, off: 0, size: 0, buffer })
}

/// Drop the read cache.
pub fn bd_drop_rcache(rcache: &mut ReadCache)
    ensures
        final(rcache).block == BLOCK_NULL,
        final(rcache).off == old(rcache).off,
        final(rcache).size == old(rcache).size,
        final(rcache).buffer == old(rcache).buffer,
{
    rcache.block = BLOCK_NULL;
}

/// Drop the program cache: its pending data is discarded.
pub fn pcache_drop(pcache: &mut ProgCache)
    ensures
        final(pcache).block == BLOCK_NULL,
        final(pcache).off == old(pcache).off,
        final(pcache).size == old(pcache).size,
        final(pcache).buffer == old(pcache).buffer,
{
    pcache.block = BLOCK_NULL;
}

/// Zero a program cache: every buffer byte becomes 0xff (the erased value) and the
/// cache holds no block.
pub fn lfs_cache_zero(pcache: &mut ProgCache)
    ensures
        final(pcache).block == BLOCK_NULL,
        final(pcache).off == old(pcache).off,
        final(pcache).size == old(pcache).size,
        final(pcache).buffer@.len() == old(pcache).buffer@.len(),
        forall|i: int| 0 <= i < final(pcache).buffer@.len() ==> #[trigger] final(pcache).buffer@[i] == 0xff,
{
    let n = pcache.buffer.len();
    let mut i: usize = 0;
    while i < n
        invariant
            i <= n,
            n == pcache.buffer@.len(),
            pcache.off == old(pcache).off,
            pcache.size == old(pcache).size,
            forall|j: int| 0 <= j < i ==> #[trigger] pcache.buffer@[j] == 0xff,
        decreases n - i,
    {
        pcache.buffer.set(i, 0xff);
        i = i + 1;
    }
    pcache.block = BLOCK_NULL;
}

/// True if the program cache covers no byte of `[a, b)` of `block`.
pub open spec fn pcache_free(pcache: &ProgCache, block: u32, a: int, b: int) -> bool {
    forall|o: int| a <= o < b ==> !#[trigger] pcache.covers(block, o)
}

/// Cached read. Serves each byte from the program cache, then the read cache, then
/// the device, loading the read cache where a read is unaligned.
/// A failed device read leaves the read cache empty.
#[verifier::rlimit(40)]
pub fn bd_read<B: BlockDevice>(
    bd: &B,
    config: &Config,
    rcache: &mut ReadCache,
    pcache: &ProgCache,
    block: u32,
    off: u32,
    buffer: &mut [u8],
) -> (r: Result<(), Error>)
    requires
        config.cache_ok(),
        old(rcache).wf(config),
        old(rcache).coherent(bd),
        pcache.wf(config),
    ensures
        final(buffer)@.len() == old(buffer)@.len(),
        final(rcache).wf(config),
        final(rcache).coherent(bd),
        (off + old(buffer)@.len() > config.block_size || (config.block_count != 0 && block >= config.block_count) || block == BLOCK_NULL)
            ==> r == Err::<(), Error>(Error::Corrupt),
        r is Ok ==> final(buffer)@ == logical_read(bd, pcache, block, off as int, old(buffer)@.len()),
        (off + old(buffer)@.len() <= config.block_size && (config.block_count == 0 || block < config.block_count) && block != BLOCK_NULL
            && old(buffer)@.len() == 0) ==> r is Ok,
        (off + old(buffer)@.len() <= config.block_size && (config.block_count == 0 || block < config.block_count) && pcache.block == block
            && block != BLOCK_NULL && pcache.off <= off && off + old(buffer)@.len() <= pcache.off + pcache.size) ==> r is Ok,
        (off + old(buffer)@.len() <= config.block_size && (config.block_count == 0 || block < config.block_count) && block != BLOCK_NULL
            && pcache.block != block && old(rcache).block == block && old(rcache).off <= off && off + old(buffer)@.len() <= old(
            rcache).off + old(rcache).size) ==> r is Ok,
{
    let ghost rhit = off + old(buffer)@.len() <= config.block_size && (config.block_count == 0 || block < config.block_count)
        && block != BLOCK_NULL && pcache.block != block && old(rcache).block == block && old(rcache).off <= off && off + old(
        buffer)@.len() <= old(rcache).off + old(rcache).size;
    let ghost covered = off + old(buffer)@.len() <= config.block_size && (config.block_count == 0 || block < config.block_count)
        && pcache.block == block && block != BLOCK_NULL && pcache.off <= off && off + old(buffer)@.len() <= pcache.off + pcache.size;
    let len = buffer.len();
    if len as u64 > config.block_size as u64 || off as u64 > config.block_size as u64 - len as u64 {
        return Err(Error::Corrupt);
    }
    if (config.block_count != 0 && block >= config.block_count) || block == BLOCK_NULL {
        return Err(Error::Corrupt);
    }
    let read_size = config.read_size;
    let block_size = config.block_size;
    let cache_size = config.cache_size;
    proof {
        lemma_multiple_ge(cache_size as int, read_size as int);
        lemma_multiple_ge(block_size as int, cache_size as int);
    }
    let hint: u32 = len as u32;
    let mut size: u32 = len as u32;
    let mut o: u32 = off;
    let mut pos: usize = 0;
    while size > 0
        invariant
            config.cache_ok(),
            read_size == config.read_size,
            block_size == config.block_size,
            cache_size == config.cache_size,
            cache_size >= read_size,
            block_size >= cache_size,
            config.block_count == 0 || block < config.block_count,
            block != BLOCK_NULL,
            rcache.wf(config),
            rcache.coherent(bd),
            pcache.size <= pcache.buffer@.len(),
            buffer@.len() == len,
            len == old(buffer)@.len(),
            hint == len,
            off + len <= block_size,
            pos + size == len,
            o == off + pos,
            forall|j: int| 0 <= j < pos ==> #[trigger] buffer@[j] == logical_byte(bd, pcache, block, off + j),
            covered == (off + old(buffer)@.len() <= config.block_size && (config.block_count == 0 || block < config.block_count)
                && pcache.block == block && block != BLOCK_NULL && pcache.off <= off && off + old(buffer)@.len() <= pcache.off + pcache.size),
            (covered && pos > 0) ==> size == 0,
            rhit == (off + old(buffer)@.len() <= config.block_size && (config.block_count == 0 || block < config.block_count)
                && block != BLOCK_NULL && pcache.block != block && old(rcache).block == block && old(rcache).off <= off && off + old(
                buffer)@.len() <= old(rcache).off + old(rcache).size),
            (rhit && pos == 0) ==> *rcache == *old(rcache),
            (rhit && pos > 0) ==> size == 0,
        decreases size, (if rcache.covers(block, o as int) { 0int } else { 1int }),
    {
        let mut diff: u32 = size;
        if pcache.block != BLOCK_NULL && block == pcache.block && (o as u64) < pcache.off as u64 + pcache.size as u64 {
            if o >= pcache.off {
                let in_cache = o - pcache.off;
                let avail = pcache.size - in_cache;
                if avail < diff {
                    diff = avail;
                }
                let ghost old_buf = buffer@;
                copy_slice(buffer, pos, pcache.buffer.as_slice(), in_cache as usize, diff as usize);
                proof {
                    assert forall|j: int| 0 <= j < pos + diff implies #[trigger] buffer@[j] == logical_byte(bd, pcache, block, off + j) by {
                        if j >= pos {
                            assert(pcache.covers(block, off + j));
                        }
                    }
                }
                pos = pos + diff as usize;
                o = o + diff;
                size = size - diff;
                continue;
            }
            diff = if pcache.off - o < diff { pcache.off - o } else { diff };
        }
        assert(pcache_free(pcache, block, o as int, o + diff));
        if rcache.block == block && (o as u64) < rcache.off as u64 + rcache.size as u64 {
            if o >= rcache.off {
                let in_cache = o - rcache.off;
                let avail = rcache.size - in_cache;
                if avail < diff {
                    diff = avail;
                }
                copy_slice(buffer, pos, rcache.buffer.as_slice(), in_cache as usize, diff as usize);
                proof {
                    assert forall|j: int| 0 <= j < pos + diff implies #[trigger] buffer@[j] == logical_byte(bd, pcache, block, off + j) by {
                        if j >= pos {
                            assert(!pcache.covers(block, off + j));
                            assert(rcache.buffer@[in_cache + j - pos] == dev_byte(bd, rcache.block, rcache.off + (in_cache + j - pos)));
                        }
                    }
                }
                pos = pos + diff as usize;
                o = o + diff;
                size = size - diff;
                continue;
            }
            diff = if rcache.off - o < diff { rcache.off - o } else { diff };
        }
        if size >= hint && o % read_size == 0 && size >= read_size {
            let d = aligndown(diff, read_size);
            if d > 0 {
                let mut tmp: Vec<u8> = vec![0u8; d as usize];
                bd.read(block, o, tmp.as_mut_slice())?;
                copy_slice(buffer, pos, tmp.as_slice(), 0, d as usize);
                proof {
                    assert forall|j: int| 0 <= j < pos + d implies #[trigger] buffer@[j] == logical_byte(bd, pcache, block, off + j) by {
                        if j >= pos {
                            assert(!pcache.covers(block, off + j));
                            lemma_spec_read_index(bd, block, o as int, d as nat, j - pos);
                        }
                    }
                }
                pos = pos + d as usize;
                o = o + d;
                size = size - d;
                continue;
            }
        }
        let roff = aligndown(o, read_size);
        let up = alignup(o + hint, read_size);
        let a = if up < block_size { up } else { block_size };
        let load = if a - roff < cache_size { a - roff } else { cache_size };
        let mut tmp: Vec<u8> = vec![0u8; load as usize];
        match bd.read(block, roff, tmp.as_mut_slice()) {
            Err(e) => {
                rcache.block = BLOCK_NULL;
                return Err(e);
            },
            Ok(()) => {},
        }
        proof {
            assert forall|i: int| 0 <= i < load implies #[trigger] tmp@[i] == dev_byte(bd, block, roff + i) by {
                lemma_spec_read_index(bd, block, roff as int, load as nat, i);
            }
        }
        rcache.block = block;
        rcache.off = roff;
        rcache.size = load;
        rcache.buffer = tmp;
    }
    proof {
        assert(buffer@ =~= logical_read(bd, pcache, block, off as int, len as nat));
    }
    Ok(())
}

/// Set every byte of `v` to 0xff.
fn fill_ff(v: &mut Vec<u8>)
    ensures
        final(v)@.len() == old(v)@.len(),
        forall|i: int| 0 <= i < final(v)@.len() ==> #[trigger] final(v)@[i] == 0xff,
{
    let n = v.len();
    let mut i: usize = 0;
    while i < n
        invariant
            n == v@.len(),
            i <= n,
            forall|k: int| 0 <= k < i ==> #[trigger] v@[k] == 0xff,
        decreases n - i,
    {
        v.set(i, 0xff);
        i = i + 1;
    }
}

/// The pending size of a loaded program cache is a multiple of the prog size.
proof fn lemma_pcache_size_aligned(config: &Config, pcache: &ProgCache)
    requires
        config.cache_ok(),
        pcache.wf(config),
        pcache.block != BLOCK_NULL,
    ensures
        pcache.size % config.prog_size == 0,
        (pcache.size + config.prog_size - 1) - (pcache.size + config.prog_size - 1) % (config.prog_size as int) == pcache.size,
        pcache.off + pcache.size <= config.block_size,
        config.prog_size <= config.cache_size <= config.block_size,
{
    lemma_multiple_ge(config.cache_size as int, config.prog_size as int);
    lemma_multiple_ge(config.block_size as int, config.cache_size as int);
    lemma_multiple_trans(config.block_size as int, config.cache_size as int, config.prog_size as int);
    lemma_multiple_sub_add(config.block_size as int, pcache.off as int, config.prog_size as int);
    lemma_alignup_multiple(pcache.size as int, config.prog_size as int);
}

/// Flush the program cache to the device and invalidate the read cache of the flushed
/// block. The read cache of that block is dropped whether or not the
/// program succeeds; a failed program leaves the program cache as it was.
pub fn bd_flush<B: BlockDevice>(
    bd: &mut B,
    config: &Config,
    rcache: &mut ReadCache,
    pcache: &mut ProgCache,
) -> (r: Result<(), Error>)
    requires
        config.cache_ok(),
        old(rcache).wf(config),
        old(rcache).coherent(&*old(bd)),
        old(pcache).wf(config),
    ensures
        final(rcache).wf(config),
        final(rcache).coherent(&*final(bd)),
        final(rcache).block == old(rcache).block || final(rcache).block == BLOCK_NULL,
        final(pcache).wf(config),
        final(bd).reliable() == old(bd).reliable(),
        old(pcache).block == BLOCK_NULL ==> r is Ok && *final(bd) == *old(bd) && *final(pcache) == *old(pcache)
            && *final(rcache) == *old(rcache),
        r is Ok ==> final(pcache).block == BLOCK_NULL,
        r is Err ==> *final(pcache) == *old(pcache),
        (r is Ok && old(pcache).block != BLOCK_NULL) ==> forall|i: int| 0 <= i < final(pcache).buffer@.len() ==> #[trigger] final(pcache).buffer@[i] == 0xff,
        (old(pcache).block != BLOCK_NULL && old(rcache).block == old(pcache).block) ==> final(rcache).block == BLOCK_NULL,
        (old(pcache).block != BLOCK_NULL && old(rcache).block != old(pcache).block) ==> *final(rcache) == *old(rcache),
        (r is Ok && old(bd).reliable()) ==> forall|b: u32, o: int| #[trigger] logical_byte(&*final(bd), &*final(pcache), b, o)
            == logical_byte(&*old(bd), &*old(pcache), b, o),
{
    if pcache.block == BLOCK_NULL {
        return Ok(());
    }
    proof {
        lemma_pcache_size_aligned(config, pcache);
    }
    let flushed = pcache.block;
    let diff = alignup(pcache.size, config.prog_size);
    let res = {
        let all = pcache.buffer.as_slice();
        let data = &all[0..diff as usize];
        bd.prog(flushed, pcache.off, data)
    };
    // The read cache of the flushed block goes whether or not the program succeeds:
    // after a failed program the block's contents are not known, so a cached copy of
    // it could no longer be trusted.
    if rcache.block == flushed {
        rcache.block = BLOCK_NULL;
    }
    match res {
        Err(e) => {
            return Err(e);
        },
        Ok(()) => {},
    }
    proof {
        if old(bd).reliable() {
            assert forall|b: u32, o: int| #[trigger] logical_byte(&*bd, &*pcache, b, o)
                == (if b == flushed && pcache.off <= o < pcache.off + pcache.size { pcache.buffer@[o - pcache.off] } else { dev_byte(&*old(bd), b, o) }) by {
                if b == flushed {
                    assert(bd.spec_read(b, o, 1) == (if pcache.off <= o < pcache.off + diff { seq![pcache.buffer@.subrange(0, diff as int)[o - pcache.off]] } else { old(bd).spec_read(b, o, 1) }));
                } else {
                    assert(bd.spec_read(b, o, 1) == old(bd).spec_read(b, o, 1));
                }
            }
        }
    }
    fill_ff(&mut pcache.buffer);
    pcache.block = BLOCK_NULL;
    Ok(())
}

/// Which step a program loop takes next: write into the loaded line (0), load a line
/// into the empty cache (1), or flush the line of another place first (2).
pub open spec fn prog_state(pcache: &ProgCache, config: &Config, block: u32, o: int) -> int {
    if pcache.block == block && pcache.off <= o < pcache.off + config.cache_size {
        0
    } else if pcache.block == BLOCK_NULL {
        1
    } else {
        2
    }
}

/// Cached program. Writes through the program cache, loading a line from the device
/// before a partial update and flushing a line when it fills or when another place is
/// programmed. A failed line load leaves the program cache empty.
#[verifier::rlimit(40)]
pub fn bd_prog<B: BlockDevice>(
    bd: &mut B,
    config: &Config,
    rcache: &mut ReadCache,
    pcache: &mut ProgCache,
    block: u32,
    off: u32,
    data: &[u8],
) -> (r: Result<(), Error>)
    requires
        config.cache_ok(),
        old(rcache).wf(config),
        old(rcache).coherent(&*old(bd)),
        old(pcache).wf(config),
        block < config.block_count,
        off + data@.len() <= config.block_size,
    ensures
        final(rcache).wf(config),
        final(rcache).coherent(&*final(bd)),
        final(pcache).wf(config),
        final(bd).reliable() == old(bd).reliable(),
        (r is Ok && old(bd).reliable()) ==> forall|b: u32, o: int| #[trigger] logical_byte(&*final(bd), &*final(pcache), b, o)
            == (if b == block && off <= o < off + data@.len() {
                data@[o - off]
            } else {
                logical_byte(&*old(bd), &*old(pcache), b, o)
            }),
        data@.len() == 0 ==> r is Ok,
        (old(pcache).block == block && old(pcache).off <= off && off + data@.len() < old(pcache).off + config.cache_size
            && old(pcache).size < config.cache_size) ==> r is Ok,
        (r is Ok && data@.len() > 0) ==> final(pcache).block == block || final(pcache).block == BLOCK_NULL,
{
    let ghost hit = old(pcache).block == block && old(pcache).off <= off && off + data@.len() < old(pcache).off + config.cache_size
        && old(pcache).size < config.cache_size;
    let len = data.len();
    let cache_size = config.cache_size;
    let prog_size = config.prog_size;
    let block_size = config.block_size;
    proof {
        lemma_multiple_ge(cache_size as int, prog_size as int);
        lemma_multiple_ge(block_size as int, cache_size as int);
    }
    let mut size: u32 = len as u32;
    let mut o: u32 = off;
    let mut pos: usize = 0;
    while size > 0
        invariant
            config.cache_ok(),
            cache_size == config.cache_size,
            prog_size == config.prog_size,
            block_size == config.block_size,
            prog_size <= cache_size <= block_size,
            block < config.block_count,
            rcache.wf(config),
            rcache.coherent(&*bd),
            pcache.wf(config),
            len == data@.len(),
            off + len <= block_size,
            pos + size == len,
            o == off + pos,
            hit == (old(pcache).block == block && old(pcache).off <= off && off + data@.len() < old(pcache).off + config.cache_size
                && old(pcache).size < config.cache_size),
            (hit && pos == 0) ==> *pcache == *old(pcache),
            (hit && pos > 0) ==> size == 0,
            pos > 0 ==> pcache.block == block || pcache.block == BLOCK_NULL,
            bd.reliable() == old(bd).reliable(),
            old(bd).reliable() ==> forall|b: u32, x: int| #[trigger] logical_byte(&*bd, &*pcache, b, x)
                == (if b == block && off <= x < o {
                    data@[x - off]
                } else {
                    logical_byte(&*old(bd), &*old(pcache), b, x)
                }),
        decreases size, prog_state(pcache, config, block, o as int),
    {
        if pcache.block == block && o >= pcache.off && (o as u64) < pcache.off as u64 + cache_size as u64 {
            let in_cache = o - pcache.off;
            let avail = cache_size - in_cache;
            let diff = if size < avail { size } else { avail };
            let ghost mid_bd = *bd;
            let ghost pre = *pcache;
            copy_slice(pcache.buffer.as_mut_slice(), in_cache as usize, data, pos, diff as usize);
            o = o + diff;
            pos = pos + diff as usize;
            size = size - diff;
            let end = o - pcache.off;
            if end > pcache.size {
                pcache.size = end;
            }
            proof {
                if old(bd).reliable() {
                    assert forall|b: u32, x: int| #[trigger] logical_byte(&*bd, &*pcache, b, x)
                        == (if b == block && off <= x < o { data@[x - off] } else { logical_byte(&*old(bd), &*old(pcache), b, x) }) by {
                        assert(logical_byte(&mid_bd, &pre, b, x) == (if b == block && off <= x < o - diff { data@[x - off] } else { logical_byte(&*old(bd), &*old(pcache), b, x) }));
                    }
                }
            }
            if pcache.size == cache_size {
                bd_flush(bd, config, rcache, pcache)?;
            }
            continue;
        }
        if pcache.block != BLOCK_NULL {
            bd_flush(bd, config, rcache, pcache)?;
            continue;
        }
        let poff = aligndown(o, prog_size);
        let load = if cache_size < block_size - poff { cache_size } else { block_size - poff };
        let mut tmp: Vec<u8> = vec![0u8; load as usize];
        match bd.read(block, poff, tmp.as_mut_slice()) {
            Err(e) => {
                return Err(e);
            },
            Ok(()) => {},
        }
        let ghost pre = *pcache;
        copy_slice(pcache.buffer.as_mut_slice(), 0, tmp.as_slice(), 0, load as usize);
        pcache.block = block;
        pcache.off = poff;
        pcache.size = load;
        proof {
            if old(bd).reliable() {
                assert forall|b: u32, x: int| #[trigger] logical_byte(&*bd, &*pcache, b, x)
                    == (if b == block && off <= x < o { data@[x - off] } else { logical_byte(&*old(bd), &*old(pcache), b, x) }) by {
                    assert(logical_byte(&*bd, &pre, b, x) == (if b == block && off <= x < o { data@[x - off] } else { logical_byte(&*old(bd), &*old(pcache), b, x) }));
                    if pcache.covers(b, x) {
                        lemma_spec_read_index(&*bd, block, poff as int, load as nat, x - poff);
                    }
                }
            }
        }
    }
    Ok(())
}

/// Sync: drop the read cache, flush the program cache, then sync the device.
pub fn bd_sync<B: BlockDevice>(
    bd: &mut B,
    config: &Config,
    rcache: &mut ReadCache,
    pcache: &mut ProgCache,
) -> (r: Result<(), Error>)
    requires
        config.cache_ok(),
        old(rcache).wf(config),
        old(rcache).coherent(&*old(bd)),
        old(pcache).wf(config),
    ensures
        final(rcache).wf(config),
        final(rcache).coherent(&*final(bd)),
        final(rcache).block == BLOCK_NULL,
        final(pcache).wf(config),
        final(bd).reliable() == old(bd).reliable(),
        r is Ok ==> final(pcache).block == BLOCK_NULL,
        (r is Ok && old(bd).reliable()) ==> forall|b: u32, o: int| #[trigger] logical_byte(&*final(bd), &*final(pcache), b, o)
            == logical_byte(&*old(bd), &*old(pcache), b, o),
{
    bd_drop_rcache(rcache);
    bd_flush(bd, config, rcache, pcache)?;
    let ghost mid = *bd;
    let r = bd.sync();
    proof {
        assert forall|b: u32, o: int| #[trigger] logical_byte(&*bd, &*pcache, b, o) == logical_byte(&mid, &*pcache, b, o) by {
            assert(bd.spec_read(b, o, 1) == mid.spec_read(b, o, 1));
        }
    }
    r
}

/// Block device + cache context. Threads the caches through filesystem operations.
pub struct BdContext<B: BlockDevice> {
    pub bd: B,
    pub config: Config,
    pub rcache: ReadCache,
    pub pcache: ProgCache,
}

impl<B: BlockDevice> BdContext<B> {
    /// The geometry is sound, the caches are well formed and the read cache holds
    /// what the device holds.
    pub open spec fn wf(&self) -> bool {
        &&& self.config.wf()
        &&& self.rcache.wf(&self.config)
        &&& self.rcache.coherent(&self.bd)
        &&& self.pcache.wf(&self.config)
    }

    /// The byte that reads of offset `o` of `block` return through this context.
    pub open spec fn logical(&self, block: u32, o: int) -> u8 {
        logical_byte(&self.bd, &self.pcache, block, o)
    }

    /// The `len` bytes that reads of `block` from `off` return through this context.
    pub open spec fn logical_range(&self, block: u32, off: int, len: nat) -> Seq<u8> {
        logical_read(&self.bd, &self.pcache, block, off, len)
    }

    /// Same config and device model: the context is the same filesystem image.
    pub open spec fn same_view(&self, other: &Self) -> bool {
        &&& self.config == other.config
        &&& forall|b: u32, o: int| #[trigger] self.logical(b, o) == other.logical(b, o)
    }

    /// Only `block` may read differently (on a reliable device), and the config and the
    /// device's reliability are kept.
    pub open spec fn frame_except(&self, other: &Self, block: u32) -> bool {
        &&& self.config == other.config
        &&& self.bd.reliable() == other.bd.reliable()
        &&& other.bd.reliable() ==> forall|b: u32, o: int| b != block ==> #[trigger] self.logical(b, o) == other.logical(b, o)
    }

    pub fn new(bd: B, config: Config, rcache: ReadCache, pcache: ProgCache) -> (r: Self)
        requires
            config.wf(),
            rcache.wf(&config),
            rcache.coherent(&bd),
            pcache.wf(&config),
        ensures
            r.wf(),
            r.bd == bd,
            r.config == config,
            r.rcache == rcache,
            r.pcache == pcache,
    {
        Self { bd, config, rcache, pcache }
    }

    /// Cached read of the whole of `buffer`.
    pub fn read(&mut self, block: u32, off: u32, buffer: &mut [u8]) -> (r: Result<(), Error>)
        requires
            old(self).wf(),
        ensures
            final(self).wf(),
            final(self).bd == old(self).bd,
            final(self).pcache == old(self).pcache,
            final(self).config == old(self).config,
            final(buffer)@.len() == old(buffer)@.len(),
            (off + old(buffer)@.len() > old(self).config.block_size || block >= old(self).config.block_count)
                ==> r == Err::<(), Error>(Error::Corrupt),
            r is Ok ==> final(buffer)@ == old(self).logical_range(block, off as int, old(buffer)@.len()),
            (off + old(buffer)@.len() <= old(self).config.block_size && block < old(self).config.block_count && old(buffer)@.len() == 0)
                ==> r is Ok,
            (off + old(buffer)@.len() <= old(self).config.block_size && block < old(self).config.block_count && old(self).pcache.block
                == block && old(self).pcache.off <= off && off + old(buffer)@.len() <= old(self).pcache.off + old(self).pcache.size)
                ==> r is Ok,
    {
        bd_read(&self.bd, &self.config, &mut self.rcache, &self.pcache, block, off, buffer)
    }

    /// Cached program of `data`.
    pub fn prog(&mut self, block: u32, off: u32, data: &[u8]) -> (r: Result<(), Error>)
        requires
            old(self).wf(),
            block < old(self).config.block_count,
            off + data@.len() <= old(self).config.block_size,
        ensures
            final(self).wf(),
            final(self).config == old(self).config,
            final(self).bd.reliable() == old(self).bd.reliable(),
            (r is Ok && old(self).bd.reliable()) ==> forall|b: u32, o: int| #[trigger] final(self).logical(b, o)
                == (if b == block && off <= o < off + data@.len() { data@[o - off] } else { old(self).logical(b, o) }),
            r is Ok ==> final(self).frame_except(&*old(self), block),
            data@.len() == 0 ==> r is Ok,
            (old(self).pcache.block == block && old(self).pcache.off <= off && off + data@.len() < old(self).pcache.off
                + old(self).config.cache_size && old(self).pcache.size < old(self).config.cache_size) ==> r is Ok,
    {
        bd_prog(&mut self.bd, &self.config, &mut self.rcache, &mut self.pcache, block, off, data)
    }

    /// Erase a block. The read cache of that block is dropped.
    pub fn erase(&mut self, block: u32) -> (r: Result<(), Error>)
        requires
            old(self).wf(),
        ensures
            final(self).wf(),
            final(self).config == old(self).config,
            final(self).pcache == old(self).pcache,
            final(self).bd.reliable() == old(self).bd.reliable(),
            forall|b: u32, o: int| b != block ==> #[trigger] final(self).logical(b, o) == old(self).logical(b, o),
            final(self).frame_except(&*old(self), block),
    {
        if self.rcache.block == block {
            self.rcache.block = BLOCK_NULL;
        }
        let ghost pre = self.bd;
        let r = self.bd.erase(block);
        proof {
            assert forall|b: u32, o: int| b != block implies #[trigger] self.logical(b, o) == old(self).logical(b, o) by {
                assert(self.bd.spec_read(b, o, 1) == pre.spec_read(b, o, 1));
            }
        }
        r
    }

    /// Sync: drop the read cache, flush the program cache and sync the device.
    pub fn sync(&mut self) -> (r: Result<(), Error>)
        requires
            old(self).wf(),
        ensures
            final(self).wf(),
            final(self).config == old(self).config,
            final(self).bd.reliable() == old(self).bd.reliable(),
            r is Ok ==> final(self).pcache.block == BLOCK_NULL,
            (r is Ok && old(self).bd.reliable()) ==> forall|b: u32, o: int| #[trigger] final(self).logical(b, o)
                == old(self).logical(b, o),
            r is Ok ==> forall|blk: u32| #[trigger] final(self).frame_except(&*old(self), blk),
    {
        bd_sync(&mut self.bd, &self.config, &mut self.rcache, &mut self.pcache)
    }

    /// CRC of `size` bytes of `block` from `off`, read through the caches.
    pub fn crc(&mut self, block: u32, off: u32, size: usize, init: u32) -> (r: Result<u32, Error>)
        requires
            old(self).wf(),
        ensures
            final(self).wf(),
            final(self).bd == old(self).bd,
            final(self).pcache == old(self).pcache,
            final(self).config == old(self).config,
            (size > 0 && (off + size > old(self).config.block_size || block >= old(self).config.block_count)) ==> r is Err,
            r is Ok ==> r->Ok_0 == crc_seq(init, old(self).logical_range(block, off as int, size as nat)),
            size == 0 ==> r == Ok::<u32, Error>(init),
    {
        if size == 0 {
            proof {
                assert(old(self).logical_range(block, off as int, 0) =~= Seq::<u8>::empty());
            }
            return Ok(init);
        }
        if size as u64 > self.config.block_size as u64 || off as u64 > self.config.block_size as u64 - size as u64
            || block >= self.config.block_count {
            return Err(Error::Corrupt);
        }
        let mut c = init;
        let mut pos: usize = 0;
        proof {
            assert(self.logical_range(block, off as int, 0) =~= Seq::<u8>::empty());
        }
        while pos < size
            invariant
                self.wf(),
                self.bd == old(self).bd,
                self.pcache == old(self).pcache,
                self.config == old(self).config,
                pos <= size,
                off + size <= self.config.block_size,
                c == crc_seq(init, old(self).logical_range(block, off as int, pos as nat)),
            decreases size - pos,
        {
            let n = if size - pos < 8 { size - pos } else { 8 };
            let mut dat: Vec<u8> = vec![0u8; n];
            self.read(block, off + pos as u32, dat.as_mut_slice())?;
            proof {
                lemma_crc_concat(init, old(self).logical_range(block, off as int, pos as nat), dat@);
                assert(old(self).logical_range(block, off as int, pos as nat) + dat@
                    =~= old(self).logical_range(block, off as int, (pos + n) as nat));
            }
            c = crc32(c, dat.as_slice());
            pos = pos + n;
        }
        Ok(c)
    }
}

/// A block device with a read cache and a program cache in front of it.
pub struct CachedBlockDevice<B: BlockDevice> {
    pub bd: B,
    pub config: Config,
    pub rcache: ReadCache,
    pub pcache: ProgCache,
}

impl<B: BlockDevice> CachedBlockDevice<B> {
    /// The cache geometry is sound, the caches are well formed and the read cache holds
    /// what the device holds.
    pub open spec fn wf(&self) -> bool {
        &&& self.config.cache_ok()
        &&& self.rcache.wf(&self.config)
        &&& self.rcache.coherent(&self.bd)
        &&& self.pcache.wf(&self.config)
    }

    /// The byte at `o` of `block` as reads through the caches see it.
    pub open spec fn logical(&self, block: u32, o: int) -> u8 {
        logical_byte(&self.bd, &self.pcache, block, o)
    }

    /// Put caches of `config.cache_size` bytes in front of `device`. Inval when the
    /// cache size is zero, not a multiple of the read and prog sizes, or not a factor
    /// of the block size.
    pub fn new(device: B, config: Config) -> (r: Result<Self, Error>)
        requires
            0 < config.block_size <= crate::config::BLOCK_SIZE_MAX,
        ensures
            r matches Ok(c) ==> c.wf() && c.bd == device && c.config == config && c.rcache.block == BLOCK_NULL
                && c.pcache.block == BLOCK_NULL,
            (config.cache_size == 0 || config.read_size == 0 || config.prog_size == 0 || config.cache_size % config.read_size != 0
                || config.cache_size % config.prog_size != 0 || config.block_size % config.cache_size != 0) <==> r is Err,
            r is Err ==> r == Err::<Self, Error>(Error::Inval),
    {
        let rcache = new_read_cache(&config)?;
        let pcache = new_prog_cache(&config)?;
        Ok(CachedBlockDevice { bd: device, config, rcache, pcache })
    }

    /// Cached read of `buffer.len()` bytes of `block` from `off`.
    pub fn read(&mut self, block: u32, off: u32, buffer: &mut [u8]) -> (r: Result<(), Error>)
        requires
            old(self).wf(),
        ensures
            final(self).wf(),
            final(self).bd == old(self).bd,
            final(self).pcache == old(self).pcache,
            final(self).config == old(self).config,
            final(buffer)@.len() == old(buffer)@.len(),
            (off + old(buffer)@.len() > old(self).config.block_size || (old(self).config.block_count != 0 && block
                >= old(self).config.block_count) || block == BLOCK_NULL) ==> r == Err::<(), Error>(Error::Corrupt),
            r is Ok ==> final(buffer)@ == logical_read(&old(self).bd, &old(self).pcache, block, off as int, old(buffer)@.len()),
            (off + old(buffer)@.len() <= old(self).config.block_size && (old(self).config.block_count == 0 || block
                < old(self).config.block_count) && block != BLOCK_NULL && old(buffer)@.len() == 0) ==> r is Ok,
            (off + old(buffer)@.len() <= old(self).config.block_size && (old(self).config.block_count == 0 || block
                < old(self).config.block_count) && block != BLOCK_NULL && old(self).pcache.block == block && old(self).pcache.off <= off
                && off + old(buffer)@.len() <= old(self).pcache.off + old(self).pcache.size) ==> r is Ok,
            (off + old(buffer)@.len() <= old(self).config.block_size && (old(self).config.block_count == 0 || block
                < old(self).config.block_count) && block != BLOCK_NULL && old(self).pcache.block != block && old(self).rcache.block == block
                && old(self).rcache.off <= off && off + old(buffer)@.len() <= old(self).rcache.off + old(self).rcache.size) ==> r is Ok,
    {
        bd_read(&self.bd, &self.config, &mut self.rcache, &self.pcache, block, off, buffer)
    }

    /// Cached program of `data` at `off` of `block`.
    pub fn prog(&mut self, block: u32, off: u32, data: &[u8]) -> (r: Result<(), Error>)
        requires
            old(self).wf(),
            block < old(self).config.block_count,
            off + data@.len() <= old(self).config.block_size,
        ensures
            final(self).wf(),
            final(self).config == old(self).config,
            (r is Ok && old(self).bd.reliable()) ==> forall|b: u32, o: int| #[trigger] final(self).logical(b, o)
                == (if b == block && off <= o < off + data@.len() { data@[o - off] } else { old(self).logical(b, o) }),
            data@.len() == 0 ==> r is Ok,
    {
        bd_prog(&mut self.bd, &self.config, &mut self.rcache, &mut self.pcache, block, off, data)
    }

    /// Erase `block`; reads of other blocks are kept.
    pub fn erase(&mut self, block: u32) -> (r: Result<(), Error>)
        requires
            old(self).wf(),
        ensures
            final(self).wf(),
            final(self).config == old(self).config,
            final(self).pcache == old(self).pcache,
            forall|b: u32, o: int| b != block ==> #[trigger] final(self).logical(b, o) == old(self).logical(b, o),
    {
        if self.rcache.block == block {
            self.rcache.block = BLOCK_NULL;
        }
        let ghost pre = self.bd;
        let r = self.bd.erase(block);
        proof {
            assert forall|b: u32, o: int| b != block implies #[trigger] self.logical(b, o) == old(self).logical(b, o) by {
                assert(self.bd.spec_read(b, o, 1) == pre.spec_read(b, o, 1));
            }
        }
        r
    }

    /// Flush the program cache and sync the device; what reads return is kept.
    pub fn sync(&mut self) -> (r: Result<(), Error>)
        requires
            old(self).wf(),
        ensures
            final(self).wf(),
            final(self).config == old(self).config,
            r is Ok ==> final(self).pcache.block == BLOCK_NULL,
            (r is Ok && old(self).bd.reliable()) ==> forall|b: u32, o: int| #[trigger] final(self).logical(b, o)
                == old(self).logical(b, o),
    {
        bd_sync(&mut self.bd, &self.config, &mut self.rcache, &mut self.pcache)
    }
}

/// Frames compose: changes only to `block` followed by changes only to `block` change
/// only `block`; an unchanged view changes nothing.
pub proof fn lemma_frame_trans<B: BlockDevice>(c1: &BdContext<B>, c2: &BdContext<B>, c3: &BdContext<B>, block: u32)
    requires
        c2.frame_except(c1, block),
        c3.frame_except(c2, block),
    ensures
        c3.frame_except(c1, block),
{
    if c1.bd.reliable() {
        assert forall|b: u32, o: int| b != block implies #[trigger] c3.logical(b, o) == c1.logical(b, o) by {
            assert(c3.logical(b, o) == c2.logical(b, o));
        }
    }
}

/// Contexts with the same view read the same bytes.
pub proof fn lemma_same_view_range<B: BlockDevice>(c1: &BdContext<B>, c2: &BdContext<B>, block: u32, off: int, len: nat)
    requires
        c1.same_view(c2),
    ensures
        c1.logical_range(block, off, len) == c2.logical_range(block, off, len),
{
    assert forall|i: int| 0 <= i < len implies #[trigger] c1.logical_range(block, off, len)[i] == c2.logical_range(block, off, len)[i] by {
        assert(c1.logical(block, off + i) == c2.logical(block, off + i));
    }
    assert(c1.logical_range(block, off, len) =~= c2.logical_range(block, off, len));
}

/// A read after a successful program on a reliable device gives back what was
/// programmed, and every other range reads as before: with the bytes that `prog`
/// leaves behind (its guarantee, required here), the range `read` returns is the data.
pub proof fn lemma_read_after_prog<B: BlockDevice>(before: &BdContext<B>, after: &BdContext<B>, block: u32, off: u32, data: Seq<u8>)
    requires
        forall|b: u32, o: int| #[trigger] after.logical(b, o) == (if b == block && off <= o < off + data.len() {
            data[o - off]
        } else {
            before.logical(b, o)
        }),
    ensures
        after.logical_range(block, off as int, data.len()) == data,
        forall|b: u32, o: int, n: nat| (b != block || o + n <= off || o >= off + data.len()) ==> #[trigger] after.logical_range(b, o, n)
            == before.logical_range(b, o, n),
{
    assert forall|i: int| 0 <= i < data.len() implies #[trigger] after.logical_range(block, off as int, data.len())[i] == data[i] by {
        assert(after.logical(block, off + i) == data[i]);
    }
    assert(after.logical_range(block, off as int, data.len()) =~= data);
    assert forall|b: u32, o: int, n: nat| (b != block || o + n <= off || o >= off + data.len()) implies #[trigger] after.logical_range(b, o, n)
        == before.logical_range(b, o, n) by {
        assert forall|i: int| 0 <= i < n implies after.logical_range(b, o, n)[i] == before.logical_range(b, o, n)[i] by {
            assert(after.logical(b, o + i) == before.logical(b, o + i));
        }
        assert(after.logical_range(b, o, n) =~= before.logical_range(b, o, n));
    }
}

} // verus!
