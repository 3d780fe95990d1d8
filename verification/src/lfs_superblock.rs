//! The superblock as a plain record of its six words, with its byte-order helpers.
use vstd::prelude::*;
use crate::util::{lfs_fromle32, lfs_tole32};

verus! {

/// The superblock's six words: version, block size and count, and the name, file
/// and attribute size limits.
#[derive(Clone, Copy, Debug, PartialEq, Eq, Structural)]
pub struct LfsSuperblock {
    pub version: u32,
    pub block_size: u32,
    pub block_count: u32,
    pub name_max: u32,
    pub file_max: u32,
    pub attr_max: u32,
}

/// (host order is little-endian: values are kept).
pub fn lfs_superblock_fromle32(sb: &mut LfsSuperblock)
    ensures
        *final(sb) == *old(sb),
{
    sb.version = lfs_fromle32(sb.version);
    sb.block_size = lfs_fromle32(sb.block_size);
    sb.block_count = lfs_fromle32(sb.block_count);
    sb.name_max = lfs_fromle32(sb.name_max);
    sb.file_max = lfs_fromle32(sb.file_max);
    sb.attr_max = lfs_fromle32(sb.attr_max);
}

/// (host order is little-endian: values are kept).
pub fn lfs_superblock_tole32(sb: &mut LfsSuperblock)
    ensures
        *final(sb) == *old(sb),
{
    sb.version = lfs_tole32(sb.version);
    sb.block_size = lfs_tole32(sb.block_size);
    sb.block_count = lfs_tole32(sb.block_count);
    sb.name_max = lfs_tole32(sb.name_max);
    sb.file_max = lfs_tole32(sb.file_max);
    sb.attr_max = lfs_tole32(sb.attr_max);
}

} // verus!
