//! Configuration for littlefs: the device geometry and the filesystem's limits.
use vstd::prelude::*;

verus! {

/// Filesystem configuration (geometry and tuning).
#[derive(Clone, Debug)]
pub struct Config {
    /// Minimum read size in bytes (read alignment).
    pub read_size: u32,
    /// Minimum program size in bytes (prog alignment).
    pub prog_size: u32,
    /// Block size in bytes (usually == erase_size).
    pub block_size: u32,
    /// Number of blocks.
    pub block_count: u32,
    /// Number of erase cycles before metadata block relocation for wear leveling.
    /// -1 = disabled.
    pub block_cycles: i32,
    /// Size of block caches in bytes. Must be a multiple of read_size and
    /// prog_size, and a factor of block_size.
    pub cache_size: u32,
    /// Size of lookahead buffer in bytes (bitmap: 1 byte tracks 8 blocks).
    pub lookahead_size: u32,
    /// Optional statically allocated read buffer. Must be cache_size bytes.
    pub read_buffer: Option<&'static [u8]>,
    /// Optional statically allocated program buffer. Must be cache_size bytes.
    pub prog_buffer: Option<&'static [u8]>,
    /// Optional statically allocated lookahead buffer. Must be lookahead_size bytes.
    pub lookahead_buffer: Option<&'static [u8]>,
    /// Max size for inlined files. When 0, defaults to cache_size.
    /// -1 disables inline files.
    pub inline_max: i32,
    /// Largest metadata log in a block; 0 means the block size.
    pub metadata_max: u32,
}

/// Largest block size this library accepts: offsets and sizes within a block stay
/// far from the u32 and usize limits.
pub const BLOCK_SIZE_MAX: u32 = 0x1000_0000;

impl Config {
    /// Geometry that the caches rely on: nonzero read, prog and cache sizes, the cache
    /// a multiple of both and a factor of the block, and a nonzero block under
    /// `BLOCK_SIZE_MAX`.
    pub open spec fn cache_ok(&self) -> bool {
        &&& self.read_size > 0
        &&& self.prog_size > 0
        &&& self.cache_size > 0
        &&& self.cache_size % self.read_size == 0
        &&& self.cache_size % self.prog_size == 0
        &&& self.block_size % self.cache_size == 0
        &&& 0 < self.block_size <= BLOCK_SIZE_MAX
    }

    /// Geometry that the filesystem code relies on (checked when a filesystem is set up): nonzero
    /// read, prog and cache sizes, the cache a multiple of both and a factor of the
    /// block, a block of at least 128 bytes, and at least two blocks.
    ///
    /// Three bounds go beyond what littlefs itself checks. The block size stays under
    /// `BLOCK_SIZE_MAX`, so that an offset plus a length inside a block never overflows
    /// the 32-bit offsets that the on-disk format and the device interface use. At
    /// least two blocks exist, because the superblock pair takes blocks 0 and 1 and
    /// every metadata pair needs two blocks. The lookahead size stays under 2^29 bytes,
    /// so that its bit count fits in 32 bits. Any device that littlefs can format
    /// meets the last two; the first only rules out blocks of 256 MiB and more.
    pub open spec fn wf(&self) -> bool {
        &&& self.cache_ok()
        &&& 128 <= self.block_size <= BLOCK_SIZE_MAX
        &&& self.block_count >= 2
        &&& 0 < self.lookahead_size <= 0x2000_0000
        &&& self.metadata_max <= self.block_size
        &&& (self.metadata_max == 0 || self.metadata_max >= 64)
    }

    /// The default test geometry: read=16, prog=16, block=512,
    /// cache_size=max(64, max(read_size, prog_size)), lookahead max(block_count/8, 4).
    pub fn default_for_tests(block_count: u32) -> (r: Self)
        ensures
            r.read_size == 16,
            r.prog_size == 16,
            r.block_size == 512,
            r.block_count == block_count,
            r.block_cycles == -1,
            r.cache_size == 64,
            r.lookahead_size == (if block_count / 8 > 4 { block_count / 8 } else { 4 }),
            r.read_buffer.is_none() && r.prog_buffer.is_none() && r.lookahead_buffer.is_none(),
            r.inline_max == 0,
            r.metadata_max == 0,
            block_count >= 2 ==> r.wf(),
    {
        let read_size: u32 = 16;
        let prog_size: u32 = 16;
        let block_size: u32 = 512;
        let rp = if read_size > prog_size { read_size } else { prog_size };
        let cache_size: u32 = if 64 > rp { 64 } else { rp };
        let lookahead_size: u32 = if block_count / 8 > 4 { block_count / 8 } else { 4 };
        Self {
            read_size,
            prog_size,
            block_size,
            block_count,
            block_cycles: -1,
            cache_size,
            lookahead_size,
            read_buffer: None,
            prog_buffer: None,
            lookahead_buffer: None,
            inline_max: 0,
            metadata_max: 0,
        }
    }
}

} // verus!
