//! Global state as a plain record of a tag and a pair, with its free functions.
use vstd::prelude::*;
use crate::tag::{lfs_tag_size, lfs_tag_type1};
use crate::util::{lfs_fromle32, lfs_pair_cmp, lfs_tole32};

verus! {

/// Global state: a tag (move type and id, orphan count, superblock bit) and a pair.
pub struct LfsGstate {
    pub tag: u32,
    pub pair: [u32; 2],
}

/// XOR `b` into `a`, field by field.
pub fn lfs_gstate_xor(a: &mut LfsGstate, b: &LfsGstate)
    ensures
        final(a).tag == old(a).tag ^ b.tag,
        final(a).pair[0] == old(a).pair[0] ^ b.pair[0],
        final(a).pair[1] == old(a).pair[1] ^ b.pair[1],
{
    a.tag = a.tag ^ b.tag;
    let p0 = a.pair[0] ^ b.pair[0];
    let p1 = a.pair[1] ^ b.pair[1];
    a.pair = [p0, p1];
}

/// True when every field is zero.
pub fn lfs_gstate_iszero(a: &LfsGstate) -> (r: bool)
    ensures
        r == (a.tag == 0 && a.pair[0] == 0 && a.pair[1] == 0),
{
    a.tag == 0 && a.pair[0] == 0 && a.pair[1] == 0
}

/// True when the orphan count (size field) is non-zero.
pub fn lfs_gstate_hasorphans(a: &LfsGstate) -> (r: bool)
    ensures
        r == ((a.tag & 0x3ff) != 0),
{
    lfs_tag_size(a.tag) != 0
}

/// The orphan count: the low nine bits of the size field.
pub fn lfs_gstate_getorphans(a: &LfsGstate) -> (r: u8)
    ensures
        r == ((a.tag & 0x3ff) & 0x1ff) as u8,
{
    (lfs_tag_size(a.tag) & 0x1ff) as u8
}

/// True when a move is pending (type1 non-zero).
pub fn lfs_gstate_hasmove(a: &LfsGstate) -> (r: bool)
    ensures
        r == (((a.tag & 0x7000_0000) >> 20u32) != 0),
{
    lfs_tag_type1(a.tag) != 0
}

/// True when the superblock needs a rewrite (top bit of the size field).
pub fn lfs_gstate_needssuperblock(a: &LfsGstate) -> (r: bool)
    ensures
        r == (((a.tag & 0x3ff) >> 9u32) != 0),
{
    (lfs_tag_size(a.tag) >> 9u32) != 0
}

/// A move is pending and its pair shares a block
/// with `pair`.
pub fn lfs_gstate_hasmovehere(a: &LfsGstate, pair: &[u32; 2]) -> (r: bool)
    ensures
        r == (((a.tag & 0x7000_0000) >> 20u32) != 0 && (a.pair[0] == pair[0] || a.pair[1]
            == pair[1] || a.pair[0] == pair[1] || a.pair[1] == pair[0])),
{
    lfs_tag_type1(a.tag) != 0 && lfs_pair_cmp(&a.pair, pair) == 0
}

/// (host order is little-endian: values are kept).
pub fn lfs_gstate_fromle32(a: &mut LfsGstate)
    ensures
        final(a).tag == old(a).tag,
        final(a).pair == old(a).pair,
{
    a.tag = lfs_fromle32(a.tag);
    let p0 = lfs_fromle32(a.pair[0]);
    let p1 = lfs_fromle32(a.pair[1]);
    a.pair = [p0, p1];
}

/// (host order is little-endian: values are kept).
pub fn lfs_gstate_tole32(a: &mut LfsGstate)
    ensures
        final(a).tag == old(a).tag,
        final(a).pair == old(a).pair,
{
    a.tag = lfs_tole32(a.tag);
    let p0 = lfs_tole32(a.pair[0]);
    let p1 = lfs_tole32(a.pair[1]);
    a.pair = [p0, p1];
}

} // verus!
